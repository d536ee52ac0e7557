//! What a session says of itself: the author of its commits, and where its log lies.

use vstd::prelude::*;

use crate::text;

verus! {

/// What a program printed, without white space around it, where that is text and not empty.
pub open spec fn printed(output: Option<Seq<u8>>) -> Option<Seq<char>> {
    match output {
        Some(data) => if vstd::utf8::valid_utf8(data) {
            let s = text::trimmed(vstd::utf8::decode_utf8(data));
            if s.len() > 0 {
                Some(s)
            } else {
                None
            }
        } else {
            None
        },
        None => None,
    }
}

/// The first of several texts that is there.
pub open spec fn first_of(
    a: Option<Seq<char>>,
    b: Option<Seq<char>>,
    otherwise: Seq<char>,
) -> Seq<char> {
    match a {
        Some(s) => s,
        None => match b {
            Some(s) => s,
            None => otherwise,
        },
    }
}

/// The bytes that a program may have printed.
pub open spec fn maybe_bytes(output: Option<Vec<u8>>) -> Option<Seq<u8>> {
    match output {
        Some(data) => Some(data@),
        None => None,
    }
}

fn read_printed(output: Option<Vec<u8>>) -> (r: Option<String>)
    ensures
        crate::git::engine::maybe(r) == printed(maybe_bytes(output)),
{
    let data = match output {
        Some(d) => d,
        None => {
            return None;
        },
    };
    let s = match text::from_utf8(data) {
        Some(s) => s,
        None => {
            return None;
        },
    };
    let chars = text::chars_of(s.as_str());
    let clean = text::trim(chars.as_slice());
    if clean.len() > 0 {
        Some(text::from_chars(clean))
    } else {
        None
    }
}

/// The author of commits, from what Git is configured with, or else the user's name.
pub fn resolve_author(name: Option<Vec<u8>>, user: Option<&str>, email: Option<Vec<u8>>) -> (
    author: String)
    ensures
        author@ == first_of(
            printed(maybe_bytes(name)),
            crate::git::engine::maybe_str(user),
            "git-nfs"@,
        ) + " <"@ + first_of(printed(maybe_bytes(email)), None, "git-nfs@local"@) + ">"@,
{
    let shown = match read_printed(name) {
        Some(s) => s,
        None => match user {
            Some(u) => u.to_string(),
            None => "git-nfs".to_string(),
        },
    };
    let mail = match read_printed(email) {
        Some(s) => s,
        None => "git-nfs@local".to_string(),
    };
    let mut author = text::chars_of(shown.as_str());
    text::push_str(&mut author, " <");
    text::push_str(&mut author, mail.as_str());
    text::push_str(&mut author, ">");
    text::from_chars(author)
}

/// The prefix of a repository's log in its bucket: one that is given, or the repository's own
/// with `wal/` behind it.
pub fn wal_prefix(given: Option<&str>, repo_prefix: &str) -> (prefix: String)
    ensures
        prefix@ == (match given {
            Some(p) => p@,
            None => repo_prefix@ + "wal/"@,
        }),
{
    match given {
        Some(p) => p.to_string(),
        None => {
            let mut prefix = text::chars_of(repo_prefix);
            text::push_str(&mut prefix, "wal/");
            text::from_chars(prefix)
        },
    }
}

/// The name of a packfile and that of its index, by the packfile's checksum.
pub fn pack_file_names(pack_sha: &str) -> (names: (String, String))
    ensures
        names.0@ == "pack-"@ + pack_sha@ + ".pack"@,
        names.1@ == "pack-"@ + pack_sha@ + ".idx"@,
{
    let mut pack = text::chars_of("pack-");
    text::push_str(&mut pack, pack_sha);
    text::push_str(&mut pack, ".pack");
    let mut idx = text::chars_of("pack-");
    text::push_str(&mut idx, pack_sha);
    text::push_str(&mut idx, ".idx");
    (text::from_chars(pack), text::from_chars(idx))
}

} // verus!
