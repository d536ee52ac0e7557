//! Mounting the file system: the commands that do it.

use vstd::prelude::*;

use crate::text;

verus! {

/// The options to mount with, on macOS or elsewhere.
pub open spec fn mount_options(port: u16, on_macos: bool) -> Seq<char> {
    let p = text::numeral(port as nat, 10);
    if on_macos {
        "rw,tcp,noatime,nolocks,locallocks,port="@ + p + ",mountport="@ + p
    } else {
        "ro,tcp,port="@ + p + ",mountport="@ + p + ",nolock"@
    }
}

/// The command that mounts a server's file system, with its arguments.
pub open spec fn mount_words(
    ip: Seq<char>,
    port: u16,
    mountpoint: Seq<char>,
    on_macos: bool,
) -> Seq<Seq<char>> {
    let tail = seq!["-o"@, mount_options(port, on_macos), ip + ":/"@, mountpoint];
    if on_macos {
        seq!["/sbin/mount_nfs"@] + tail
    } else {
        seq!["mount"@, "-t"@, "nfs"@] + tail
    }
}

/// The command that unmounts a file system.
pub open spec fn unmount_words(mountpoint: Seq<char>, on_macos: bool) -> Seq<Seq<char>> {
    seq![
        if on_macos {
            "/sbin/umount"@
        } else {
            "umount"@
        },
        mountpoint,
    ]
}

/// A file system that is mounted, until it is unmounted.
#[derive(Debug)]
pub struct NfsMounter {
    mountpoint: String,
    unmounted: bool,
}

impl NfsMounter {
    pub closed spec fn place(&self) -> Seq<char> {
        self.mountpoint@
    }

    pub closed spec fn is_unmounted(&self) -> bool {
        self.unmounted
    }

    /// The command that mounts a server's file system.
    pub fn mount_command(ip: &str, port: u16, mountpoint: &str, on_macos: bool) -> (words: Vec<
        String,
    >)
        ensures
            crate::git::protocol::texts(words@) == mount_words(ip@, port, mountpoint@, on_macos),
    {
        let mut options = if on_macos {
            text::chars_of("rw,tcp,noatime,nolocks,locallocks,port=")
        } else {
            text::chars_of("ro,tcp,port=")
        };
        text::push_numeral(&mut options, port as u64, 10);
        text::push_str(&mut options, ",mountport=");
        text::push_numeral(&mut options, port as u64, 10);
        if !on_macos {
            text::push_str(&mut options, ",nolock");
        }
        let mut share = text::chars_of(ip);
        text::push_str(&mut share, ":/");
        let mut words: Vec<String> = Vec::new();
        if on_macos {
            words.push("/sbin/mount_nfs".to_string());
        } else {
            words.push("mount".to_string());
            words.push("-t".to_string());
            words.push("nfs".to_string());
        }
        words.push("-o".to_string());
        words.push(text::from_chars(options));
        words.push(text::from_chars(share));
        words.push(mountpoint.to_string());
        assert(crate::git::protocol::texts(words@) =~= mount_words(
            ip@,
            port,
            mountpoint@,
            on_macos,
        ));
        words
    }

    /// A file system that was mounted.
    pub fn mounted(mountpoint: &str) -> (mounter: Self)
        ensures
            mounter.place() == mountpoint@,
            !mounter.is_unmounted(),
    {
        NfsMounter { mountpoint: mountpoint.to_string(), unmounted: false }
    }

    /// The command that unmounts it; none where it was unmounted before.
    pub fn unmount(&mut self, on_macos: bool) -> (words: Option<Vec<String>>)
        ensures
            final(self).place() == old(self).place(),
            final(self).is_unmounted(),
            match words {
                Some(w) => !old(self).is_unmounted() && crate::git::protocol::texts(w@)
                    == unmount_words(old(self).place(), on_macos),
                None => old(self).is_unmounted(),
            },
    {
        if self.unmounted {
            return None;
        }
        self.unmounted = true;
        let mut words: Vec<String> = Vec::new();
        if on_macos {
            words.push("/sbin/umount".to_string());
        } else {
            words.push("umount".to_string());
        }
        words.push(self.mountpoint.clone());
        assert(crate::git::protocol::texts(words@) =~= unmount_words(self.place(), on_macos));
        Some(words)
    }
}

} // verus!
