//! The file system that is served over NFS.

use vstd::prelude::*;

use crate::text;

pub mod fs;
pub mod laws;
pub mod outcome_laws;
pub mod show_laws;

verus! {

/// A server that is up: where it listens.
#[derive(Debug)]
pub struct RunningNfsServer {
    pub port: u16,
    pub ip: String,
}

/// The address to listen on.
pub fn bind_address(ip: &str, port: u16) -> (address: String)
    ensures
        address@ == ip@ + ":"@ + text::numeral(port as nat, 10),
{
    let mut address = text::chars_of(ip);
    text::push_str(&mut address, ":");
    text::push_numeral(&mut address, port as u64, 10);
    text::from_chars(address)
}

} // verus!
