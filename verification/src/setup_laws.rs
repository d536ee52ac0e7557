//! What is made of the settings of a session: its author, where its files lie, and the commands
//! that mount it.

use vstd::prelude::*;

use crate::cache::disk;
use crate::git::hash;
use crate::mount;
use crate::session;
use crate::text;
use crate::text_laws;

verus! {

/// What a program printed counts without the white space around it, unless nothing else is there,
/// or it is no text.
pub proof fn lemma_printed(data: Seq<u8>, core: Seq<char>)
    requires
        vstd::utf8::valid_utf8(data),
        text::trimmed(vstd::utf8::decode_utf8(data)) == core,
    ensures
        core.len() > 0 ==> session::printed(Some(data)) == Some(core),
        core.len() == 0 ==> session::printed(Some(data)) is None,
        session::printed(None) is None,
{
}

/// What is no text does not count.
pub proof fn lemma_not_text(data: Seq<u8>)
    requires
        !vstd::utf8::valid_utf8(data),
    ensures
        session::printed(Some(data)) is None,
{
}

/// The first of several texts counts that is there.
pub proof fn lemma_first_of(a: Seq<char>, b: Seq<char>, c: Seq<char>, other: Option<Seq<char>>)
    ensures
        session::first_of(Some(a), other, c) == a,
        session::first_of(None, Some(b), c) == b,
        session::first_of(None, None, c) == c,
{
}

/// A blob lies below `blobs`, in a directory named by the first two bytes of its name, and one below
/// that by the next two; the rest of its name is that of the file. A name that is too short is the
/// file's.
pub proof fn lemma_blob_path(oid: Seq<char>)
    requires
        disk::is_splittable(oid),
    ensures
        ({
            let path = disk::blob_segments(oid);
            let raw = vstd::utf8::encode_utf8(oid);
            &&& path[0] == "blobs"@
            &&& raw.len() >= 4 ==> {
                &&& path.len() == 4
                &&& vstd::utf8::encode_utf8(path[1]).len() == 2
                &&& vstd::utf8::encode_utf8(path[2]).len() == 2
                &&& vstd::utf8::encode_utf8(path[1]) + vstd::utf8::encode_utf8(path[2])
                    + vstd::utf8::encode_utf8(path[3]) == raw
            }
            &&& raw.len() < 4 ==> path.len() == 2 && path[1] == oid
        }),
{
    let raw = vstd::utf8::encode_utf8(oid);
    if raw.len() >= 4 {
        let a = raw.subrange(0, 2);
        let b = raw.subrange(2, 4);
        let c = raw.skip(4);
        vstd::utf8::decode_utf8_encode_utf8(a);
        vstd::utf8::decode_utf8_encode_utf8(b);
        vstd::utf8::decode_utf8_encode_utf8(c);
        assert(a + b + c =~= raw);
    }
}

/// Blobs of different names lie in different files.
pub proof fn lemma_blob_paths_differ(a: Seq<char>, b: Seq<char>)
    requires
        disk::is_splittable(a),
        disk::is_splittable(b),
        disk::blob_segments(a) == disk::blob_segments(b),
    ensures
        a == b,
{
    lemma_blob_path(a);
    lemma_blob_path(b);
    vstd::utf8::encode_utf8_decode_utf8(a);
    vstd::utf8::encode_utf8_decode_utf8(b);
}

/// The cache of a repository lies in the directory that was asked for; or else below the home
/// directory, or `/tmp` where there is none, in one named by the digest of the address.
pub proof fn lemma_cache_path(url: Seq<char>, asked: Seq<char>, home: Seq<char>)
    ensures
        disk::base_path(url, Some(asked), Some(home)) == seq![asked],
        disk::base_path(url, Some(asked), None) == seq![asked],
        ({
            let tail = seq![
                ".cache"@,
                "git-nfs"@,
                hash::hex_encoded(hash::sha1(vstd::utf8::encode_utf8(url))),
            ];
            &&& disk::base_path(url, None, Some(home)) == seq![home] + tail
            &&& disk::base_path(url, None, None) == seq!["/tmp"@] + tail
        }),
{
    let tail = seq![
        ".cache"@,
        "git-nfs"@,
        hash::hex_encoded(hash::sha1(vstd::utf8::encode_utf8(url))),
    ];
    assert(disk::base_path(url, None, Some(home)) =~= seq![home] + tail);
    assert(disk::base_path(url, None, None) =~= seq!["/tmp"@] + tail);
}

/// The options to mount with are these, one behind the other: on macOS the file system can be
/// written to, and elsewhere it is read only. Both ports are the one that the server listens on.
pub proof fn lemma_mount_options(port: u16)
    ensures
        ({
            let p = text::numeral(port as nat, 10);
            &&& mount::mount_options(port, true) == text::joined(
                seq![
                    "rw"@,
                    "tcp"@,
                    "noatime"@,
                    "nolocks"@,
                    "locallocks"@,
                    "port="@ + p,
                    "mountport="@ + p,
                ],
                seq![','],
            )
            &&& mount::mount_options(port, false) == text::joined(
                seq!["ro"@, "tcp"@, "port="@ + p, "mountport="@ + p, "nolock"@],
                seq![','],
            )
            &&& text_laws::are_digits_of(p, 10, port as nat)
        }),
{
    let p = text::numeral(port as nat, 10);
    text_laws::lemma_numeral(port as nat, 10);
    lemma_macos_options(p);
    lemma_other_options(p);
}

proof fn lemma_macos_options(p: Seq<char>)
    ensures
        "rw,tcp,noatime,nolocks,locallocks,port="@ + p + ",mountport="@ + p == text::joined(
            seq![
                "rw"@,
                "tcp"@,
                "noatime"@,
                "nolocks"@,
                "locallocks"@,
                "port="@ + p,
                "mountport="@ + p,
            ],
            seq![','],
        ),
{
    reveal_strlit("rw");
    reveal_strlit("tcp");
    reveal_strlit("noatime");
    reveal_strlit("nolocks");
    reveal_strlit("locallocks");
    reveal_strlit("port=");
    reveal_strlit("mountport=");
    reveal_strlit(",mountport=");
    reveal_strlit("rw,tcp,noatime,nolocks,locallocks,port=");
    let c = seq![','];
    let (a, b, d, e, f) = ("rw"@, "tcp"@, "noatime"@, "nolocks"@, "locallocks"@);
    let g = "port="@ + p;
    let h = "mountport="@ + p;
    text_laws::lemma_joined(seq![a], a, c);
    text_laws::lemma_joined(seq![a], b, c);
    assert(seq![a].push(b) =~= seq![a, b]);
    text_laws::lemma_joined(seq![a, b], d, c);
    assert(seq![a, b].push(d) =~= seq![a, b, d]);
    text_laws::lemma_joined(seq![a, b, d], e, c);
    assert(seq![a, b, d].push(e) =~= seq![a, b, d, e]);
    text_laws::lemma_joined(seq![a, b, d, e], f, c);
    assert(seq![a, b, d, e].push(f) =~= seq![a, b, d, e, f]);
    text_laws::lemma_joined(seq![a, b, d, e, f], g, c);
    assert(seq![a, b, d, e, f].push(g) =~= seq![a, b, d, e, f, g]);
    text_laws::lemma_joined(seq![a, b, d, e, f, g], h, c);
    assert(seq![a, b, d, e, f, g].push(h) =~= seq![a, b, d, e, f, g, h]);
    assert("rw,tcp,noatime,nolocks,locallocks,port="@ =~= a + c + b + c + d + c + e + c + f + c
        + "port="@);
    assert(",mountport="@ =~= c + "mountport="@);
    assert(a + c + b + c + d + c + e + c + f + c + "port="@ + p + (c + "mountport="@) + p =~= a + c
        + b + c + d + c + e + c + f + c + g + c + h);
}

proof fn lemma_other_options(p: Seq<char>)
    ensures
        "ro,tcp,port="@ + p + ",mountport="@ + p + ",nolock"@ == text::joined(
            seq!["ro"@, "tcp"@, "port="@ + p, "mountport="@ + p, "nolock"@],
            seq![','],
        ),
{
    reveal_strlit("ro");
    reveal_strlit("tcp");
    reveal_strlit("port=");
    reveal_strlit("mountport=");
    reveal_strlit(",mountport=");
    reveal_strlit("nolock");
    reveal_strlit(",nolock");
    reveal_strlit("ro,tcp,port=");
    let c = seq![','];
    let (a, b, l) = ("ro"@, "tcp"@, "nolock"@);
    let g = "port="@ + p;
    let h = "mountport="@ + p;
    text_laws::lemma_joined(seq![a], a, c);
    text_laws::lemma_joined(seq![a], b, c);
    assert(seq![a].push(b) =~= seq![a, b]);
    text_laws::lemma_joined(seq![a, b], g, c);
    assert(seq![a, b].push(g) =~= seq![a, b, g]);
    text_laws::lemma_joined(seq![a, b, g], h, c);
    assert(seq![a, b, g].push(h) =~= seq![a, b, g, h]);
    text_laws::lemma_joined(seq![a, b, g, h], l, c);
    assert(seq![a, b, g, h].push(l) =~= seq![a, b, g, h, l]);
    assert("ro,tcp,port="@ =~= a + c + b + c + "port="@);
    assert(",mountport="@ =~= c + "mountport="@);
    assert(",nolock"@ =~= c + l);
    assert(a + c + b + c + "port="@ + p + (c + "mountport="@) + p + (c + l) =~= a + c + b + c + g + c
        + h + c + l);
}

/// The command that mounts names the server before a colon and a slash, and then the place; the one
/// that unmounts names the place alone.
pub proof fn lemma_commands(ip: Seq<char>, port: u16, place: Seq<char>, on_macos: bool)
    ensures
        ({
            let words = mount::mount_words(ip, port, place, on_macos);
            let n = words.len() as int;
            &&& n == if on_macos {
                5int
            } else {
                7
            }
            &&& words[n - 1] == place
            &&& words[n - 2] == ip + seq![':', '/']
            &&& words[n - 3] == mount::mount_options(port, on_macos)
            &&& words[n - 4] == "-o"@
            &&& on_macos ==> words[0] == "/sbin/mount_nfs"@
            &&& !on_macos ==> words[0] == "mount"@ && words[1] == "-t"@ && words[2] == "nfs"@
            &&& mount::unmount_words(place, on_macos).len() == 2
            &&& mount::unmount_words(place, on_macos)[1] == place
            &&& mount::unmount_words(place, true)[0] == "/sbin/umount"@
            &&& mount::unmount_words(place, false)[0] == "umount"@
        }),
{
    reveal_strlit(":/");
    assert(":/"@ =~= seq![':', '/']);
}

} // verus!
