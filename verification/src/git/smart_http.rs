//! Requests to a Git server over HTTP, in version two of its protocol, and what its answers say.

use vstd::prelude::*;

use crate::bytes;
use crate::git::protocol;
use crate::git::protocol::{PktError, Walk};
use crate::text;

verus! {

/// The address of a repository: without slashes behind it, and with `.git` at its end.
pub open spec fn repository_url(url: Seq<char>) -> Seq<char> {
    let trimmed = text::trimmed_end(url, |c: char| c == '/');
    if text::ends_with(trimmed, ".git"@) {
        trimmed
    } else {
        trimmed + ".git"@
    }
}

/// The lines of a request before and behind its delimiter, as packets.
pub open spec fn request(command: Seq<Seq<char>>, arguments: Seq<Seq<char>>) -> Seq<u8> {
    packets(command) + seq![48u8, 48, 48, 49] + packets(arguments) + protocol::flush()
}

/// Lines as packets, one after the other.
pub open spec fn packets(lines: Seq<Seq<char>>) -> Seq<u8>
    decreases lines.len(),
{
    if lines.len() == 0 {
        Seq::empty()
    } else {
        packets(lines.drop_last()) + protocol::pkt_line(lines.last())
    }
}

/// The commit that a line gives for a reference: the first word of a line whose second word is
/// the reference. Where the reference is a tag and the tag an object of its own, a word behind
/// them names the commit that it stands for.
pub open spec fn line_ref(line: Seq<char>, refname: Seq<char>) -> Option<Seq<char>> {
    let words = text::words(line);
    if words.len() >= 2 && words[1] == refname {
        Some(
            match peeled(words, 2) {
                Some(oid) if text::starts_with(refname, "refs/tags/"@) => oid,
                _ => words[0],
            },
        )
    } else {
        None
    }
}

/// What the first of the words from the `i`-th on that names a tag's commit names.
pub open spec fn peeled(words: Seq<Seq<char>>, i: int) -> Option<Seq<char>>
    decreases words.len() - i,
{
    if i >= words.len() {
        None
    } else if text::starts_with(words[i], "peeled:"@) {
        Some(words[i].skip("peeled:"@.len() as int))
    } else {
        peeled(words, i + 1)
    }
}

/// The commit of a reference among the lines: what the last line about it gives.
pub open spec fn ref_of(lines: Seq<Seq<char>>, refname: Seq<char>) -> Option<Seq<char>>
    decreases lines.len(),
{
    if lines.len() == 0 {
        None
    } else {
        match line_ref(lines.last(), refname) {
            Some(oid) => Some(oid),
            None => ref_of(lines.drop_last(), refname),
        }
    }
}

/// The commit of the branch `master` or `main` among the lines, and which of them it is: what
/// the last line about either gives.
pub open spec fn main_of(lines: Seq<Seq<char>>) -> Option<(Seq<char>, Seq<char>)>
    decreases lines.len(),
{
    if lines.len() == 0 {
        None
    } else {
        match line_ref(lines.last(), "refs/heads/master"@) {
            Some(oid) => Some((oid, "master"@)),
            None => match line_ref(lines.last(), "refs/heads/main"@) {
                Some(oid) => Some((oid, "main"@)),
                None => main_of(lines.drop_last()),
            },
        }
    }
}

/// The commit that is wanted, and its name. Where a name is given, it is that of the branch of
/// that name, or else of the tag, or else the head. Where none is, it is the head, or else the
/// main branch. The head goes by the name of the main branch where that is the same commit, and
/// by `master` where no main branch is listed.
pub open spec fn resolved(lines: Seq<Seq<char>>, wanted: Option<Seq<char>>) -> Option<
    (Seq<char>, Seq<char>),
> {
    let head = ref_of(lines, "HEAD"@);
    match wanted {
        Some(name) => match ref_of(lines, "refs/heads/"@ + name) {
            Some(oid) => Some((oid, name)),
            None => match ref_of(lines, "refs/tags/"@ + name) {
                Some(oid) => Some((oid, name)),
                None => match head {
                    Some(oid) => Some((oid, name)),
                    None => None,
                },
            },
        },
        None => match head {
            Some(oid) => match main_of(lines) {
                Some((main, name)) if main == oid => Some((oid, name)),
                Some(_) => Some((oid, "HEAD"@)),
                None => Some((oid, "master"@)),
            },
            None => main_of(lines),
        },
    }
}

/// Why no commit could be resolved.
#[derive(Debug)]
pub enum ResolveError {
    Packets(PktError),
    /// Neither the branch nor the head is among the references.
    NoRef,
}

fn find_peeled(words: &Vec<Vec<char>>) -> (r: Option<String>)
    ensures
        crate::git::engine::maybe(r) == peeled(text::views(words@), 2),
{
    let ghost all = text::views(words@);
    let mut i: usize = 2;
    while i < words.len()
        invariant
            2 <= i,
            all == text::views(words@),
            peeled(all, 2) == peeled(all, i as int),
        decreases words@.len() - i,
    {
        assert(all[i as int] == words@[i as int]@);
        match text::strip_prefix(words[i].as_slice(), "peeled:") {
            Some(rest) => {
                return Some(text::from_chars(rest));
            },
            None => {},
        }
        i += 1;
    }
    None
}

/// Splits a line into its reference and the commit of that.
fn read_line(line: &str) -> (r: Option<(String, String)>)
    ensures
        match r {
            Some((refname, oid)) => text::words(line@).len() >= 2 && refname@ == text::words(
                line@,
            )[1] && line_ref(line@, refname@) == Some(oid@),
            None => text::words(line@).len() < 2,
        },
{
    let chars = text::chars_of(line);
    let words = text::split_words(chars.as_slice());
    let ghost all = text::views(words@);
    if words.len() < 2 {
        return None;
    }
    assert(all[0] == words@[0]@ && all[1] == words@[1]@);
    let refname = copy_text(&words[1]);
    if text::has_prefix(words[1].as_slice(), "refs/tags/") {
        match find_peeled(&words) {
            Some(oid) => {
                return Some((refname, oid));
            },
            None => {},
        }
    }
    Some((refname, copy_text(&words[0])))
}

/// The commit of a reference among the lines.
fn find_ref(lines: &Vec<String>, refname: &str) -> (r: Option<String>)
    ensures
        crate::git::engine::maybe(r) == ref_of(protocol::texts(lines@), refname@),
{
    let ghost all = protocol::texts(lines@);
    let mut i: usize = lines.len();
    assert(all.take(i as int) =~= all);
    while i > 0
        invariant
            i <= lines@.len(),
            all == protocol::texts(lines@),
            ref_of(all, refname@) == ref_of(all.take(i as int), refname@),
        decreases i,
    {
        assert(all.take(i as int).drop_last() =~= all.take(i as int - 1));
        assert(all.take(i as int).last() == lines@[i as int - 1]@);
        i -= 1;
        match read_line(lines[i].as_str()) {
            Some((name, oid)) => {
                if text::equal(name.as_str(), refname) {
                    return Some(oid);
                }
            },
            None => {},
        }
    }
    None
}

/// The commit of the main branch among the lines, and the branch's name.
fn find_main(lines: &Vec<String>) -> (r: Option<(String, String)>)
    ensures
        match r {
            Some((oid, name)) => main_of(protocol::texts(lines@)) == Some((oid@, name@)),
            None => main_of(protocol::texts(lines@)) is None,
        },
{
    let ghost all = protocol::texts(lines@);
    let mut i: usize = lines.len();
    assert(all.take(i as int) =~= all);
    while i > 0
        invariant
            i <= lines@.len(),
            all == protocol::texts(lines@),
            main_of(all) == main_of(all.take(i as int)),
        decreases i,
    {
        assert(all.take(i as int).drop_last() =~= all.take(i as int - 1));
        assert(all.take(i as int).last() == lines@[i as int - 1]@);
        i -= 1;
        match read_line(lines[i].as_str()) {
            Some((name, oid)) => {
                if text::equal(name.as_str(), "refs/heads/master") {
                    return Some((oid, "master".to_string()));
                }
                if text::equal(name.as_str(), "refs/heads/main") {
                    return Some((oid, "main".to_string()));
                }
            },
            None => {},
        }
    }
    None
}

fn full_name(prefix: &str, name: &str) -> (full: String)
    ensures
        full@ == prefix@ + name@,
{
    let mut full = text::chars_of(prefix);
    text::push_str(&mut full, name);
    text::from_chars(full)
}

fn copy_text(chars: &Vec<char>) -> (s: String)
    ensures
        s@ == chars@,
{
    let copy = text::chars_range(chars.as_slice(), 0, chars.len());
    assert(copy@ =~= chars@);
    text::from_chars(copy)
}

fn push_line(out: &mut Vec<u8>, line: &str, Ghost(lines): Ghost<Seq<Seq<char>>>)
    requires
        vstd::utf8::encode_utf8(line@).len() + 5 <= usize::MAX,
        old(out)@ == packets(lines),
    ensures
        final(out)@ == packets(lines.push(line@)),
{
    let packet = protocol::encode_pkt_line(line);
    bytes::append(out, packet.as_slice());
    assert(lines.push(line@).drop_last() =~= lines);
}

/// The packets of a few lines.
fn lines_of(lines: &Vec<String>) -> (out: Vec<u8>)
    requires
        forall|i: int|
            0 <= i < lines@.len() ==> vstd::utf8::encode_utf8((#[trigger] lines@[i])@).len() + 5
                <= usize::MAX,
    ensures
        out@ == packets(protocol::texts(lines@)),
{
    let ghost all = protocol::texts(lines@);
    let mut out: Vec<u8> = Vec::new();
    let mut i: usize = 0;
    assert(all.take(0) =~= Seq::<Seq<char>>::empty());
    while i < lines.len()
        invariant
            i <= lines@.len(),
            all == protocol::texts(lines@),
            forall|i: int|
                0 <= i < lines@.len() ==> vstd::utf8::encode_utf8(
                    (#[trigger] lines@[i])@,
                ).len() + 5 <= usize::MAX,
            out@ == packets(all.take(i as int)),
        decreases lines@.len() - i,
    {
        push_line(&mut out, lines[i].as_str(), Ghost(all.take(i as int)));
        assert(all.take(i as int + 1) =~= all.take(i as int).push(lines@[i as int]@));
        i += 1;
    }
    assert(all.take(i as int) =~= all);
    out
}

fn request_of(command: &Vec<String>, arguments: &Vec<String>) -> (out: Vec<u8>)
    requires
        forall|i: int|
            0 <= i < command@.len() ==> vstd::utf8::encode_utf8((#[trigger] command@[i])@).len()
                + 5 <= usize::MAX,
        forall|i: int|
            0 <= i < arguments@.len() ==> vstd::utf8::encode_utf8(
                (#[trigger] arguments@[i])@,
            ).len() + 5 <= usize::MAX,
    ensures
        out@ == request(protocol::texts(command@), protocol::texts(arguments@)),
{
    let mut out = lines_of(command);
    bytes::append(&mut out, protocol::delim_pkt().as_slice());
    bytes::append(&mut out, lines_of(arguments).as_slice());
    bytes::append(&mut out, protocol::flush_pkt().as_slice());
    out
}

pub struct GitSmartHttpClient {
    base_url: String,
}

impl View for GitSmartHttpClient {
    type V = Seq<char>;

    closed spec fn view(&self) -> Seq<char> {
        self.base_url@
    }
}

impl GitSmartHttpClient {
    pub fn new(url: &str) -> (client: Self)
        ensures
            client@ == repository_url(url@),
    {
        let mut base = text::trim_slashes_end(text::chars_of(url));
        if !text::has_suffix(base.as_slice(), ".git") {
            text::push_str(&mut base, ".git");
        }
        GitSmartHttpClient { base_url: text::from_chars(base) }
    }

    pub fn base_url(&self) -> (url: &str)
        ensures
            url@ == self@,
    {
        self.base_url.as_str()
    }

    /// Where requests go.
    pub fn endpoint(&self) -> (url: String)
        ensures
            url@ == self@ + "/git-upload-pack"@,
    {
        let mut url = text::chars_of(self.base_url.as_str());
        text::push_str(&mut url, "/git-upload-pack");
        text::from_chars(url)
    }

    /// The request for the references.
    pub fn ls_refs_request(&self) -> (body: Vec<u8>)
        ensures
            body@ == request(
                seq!["command=ls-refs"@, "agent=git-nfs"@],
                seq![
                    "peel"@,
                    "ref-prefix HEAD"@,
                    "ref-prefix refs/heads/"@,
                    "ref-prefix refs/tags/"@,
                ],
            ),
    {
        let mut command: Vec<String> = Vec::new();
        let mut arguments: Vec<String> = Vec::new();
        proof {
            reveal_strlit("command=ls-refs");
            reveal_strlit("agent=git-nfs");
            reveal_strlit("ref-prefix HEAD");
            reveal_strlit("ref-prefix refs/heads/");
            reveal_strlit("peel");
            reveal_strlit("ref-prefix refs/tags/");
            text::lemma_encode_len("command=ls-refs"@);
            text::lemma_encode_len("agent=git-nfs"@);
            text::lemma_encode_len("ref-prefix HEAD"@);
            text::lemma_encode_len("ref-prefix refs/heads/"@);
            text::lemma_encode_len("peel"@);
            text::lemma_encode_len("ref-prefix refs/tags/"@);
        }
        command.push("command=ls-refs".to_string());
        command.push("agent=git-nfs".to_string());
        arguments.push("peel".to_string());
        arguments.push("ref-prefix HEAD".to_string());
        arguments.push("ref-prefix refs/heads/".to_string());
        arguments.push("ref-prefix refs/tags/".to_string());
        assert(protocol::texts(command@) =~= seq!["command=ls-refs"@, "agent=git-nfs"@]);
        assert(protocol::texts(arguments@) =~= seq![
            "peel"@,
            "ref-prefix HEAD"@,
            "ref-prefix refs/heads/"@,
            "ref-prefix refs/tags/"@,
        ]);
        request_of(&command, &arguments)
    }

    /// Reads the answer with the references: the commit of the branch or tag that is wanted, or
    /// else of the head, and its name.
    pub fn resolve_head(&self, response: &[u8], branch_override: Option<&str>) -> (r: Result<
        (String, String),
        ResolveError,
    >)
        requires
            !(protocol::pkt_lines(response@) is Malformed),
        ensures
            match protocol::pkt_lines(response@) {
                Walk::Done(lines) => match resolved(
                    lines,
                    crate::git::engine::maybe_str(branch_override),
                ) {
                    Some((oid, name)) => r matches Ok((o, n)) && o@ == oid && n@ == name,
                    None => r matches Err(ResolveError::NoRef),
                },
                Walk::Failed(f) => r matches Err(ResolveError::Packets(e)) && e@ == f,
                Walk::Malformed => true,
            },
    {
        let lines = match protocol::parse_pkt_lines(response) {
            Ok(l) => l,
            Err(e) => {
                return Err(ResolveError::Packets(e));
            },
        };
        let head = find_ref(&lines, "HEAD");
        match branch_override {
            Some(name) => {
                match find_ref(&lines, full_name("refs/heads/", name).as_str()) {
                    Some(oid) => {
                        return Ok((oid, name.to_string()));
                    },
                    None => {},
                }
                match find_ref(&lines, full_name("refs/tags/", name).as_str()) {
                    Some(oid) => {
                        return Ok((oid, name.to_string()));
                    },
                    None => {},
                }
                match head {
                    Some(oid) => Ok((oid, name.to_string())),
                    None => Err(ResolveError::NoRef),
                }
            },
            None => {
                let main = find_main(&lines);
                match head {
                    Some(oid) => {
                        match main {
                            Some((other, name)) => {
                                if text::equal(other.as_str(), oid.as_str()) {
                                    Ok((oid, name))
                                } else {
                                    Ok((oid, "HEAD".to_string()))
                                }
                            },
                            None => Ok((oid, "master".to_string())),
                        }
                    },
                    None => match main {
                        Some((oid, name)) => Ok((oid, name)),
                        None => Err(ResolveError::NoRef),
                    },
                }
            },
        }
    }

    /// The request for a commit and all its trees, without blobs and without history.
    pub fn fetch_trees_request(&self, commit_oid: &str) -> (body: Vec<u8>)
        requires
            vstd::utf8::encode_utf8("want "@ + commit_oid@).len() + 5 <= usize::MAX,
        ensures
            body@ == request(
                seq!["command=fetch"@, "agent=git-nfs"@],
                seq!["want "@ + commit_oid@, "deepen 1"@, "filter blob:none"@, "done"@],
            ),
    {
        let command = fetch_command();
        let mut arguments: Vec<String> = Vec::new();
        proof {
            reveal_strlit("deepen 1");
            reveal_strlit("filter blob:none");
            reveal_strlit("done");
            text::lemma_encode_len("deepen 1"@);
            text::lemma_encode_len("filter blob:none"@);
            text::lemma_encode_len("done"@);
        }
        arguments.push(want_line(commit_oid));
        arguments.push("deepen 1".to_string());
        arguments.push("filter blob:none".to_string());
        arguments.push("done".to_string());
        assert(protocol::texts(arguments@) =~= seq![
            "want "@ + commit_oid@,
            "deepen 1"@,
            "filter blob:none"@,
            "done"@,
        ]);
        request_of(&command, &arguments)
    }

    /// The request for a single blob.
    pub fn fetch_blob_request(&self, blob_oid: &str) -> (body: Vec<u8>)
        requires
            vstd::utf8::encode_utf8("want "@ + blob_oid@).len() + 5 <= usize::MAX,
        ensures
            body@ == request(
                seq!["command=fetch"@, "agent=git-nfs"@],
                seq!["want "@ + blob_oid@, "done"@],
            ),
    {
        let command = fetch_command();
        let mut arguments: Vec<String> = Vec::new();
        proof {
            reveal_strlit("done");
            text::lemma_encode_len("done"@);
        }
        arguments.push(want_line(blob_oid));
        arguments.push("done".to_string());
        assert(protocol::texts(arguments@) =~= seq!["want "@ + blob_oid@, "done"@]);
        request_of(&command, &arguments)
    }

    /// The request for several blobs.
    pub fn fetch_blobs_request(&self, blob_oids: &Vec<String>) -> (body: Vec<u8>)
        requires
            forall|i: int|
                0 <= i < blob_oids@.len() ==> vstd::utf8::encode_utf8(
                    "want "@ + (#[trigger] blob_oids@[i])@,
                ).len() + 5 <= usize::MAX,
        ensures
            body@ == request(
                seq!["command=fetch"@, "agent=git-nfs"@],
                wants(protocol::texts(blob_oids@)).push("done"@),
            ),
    {
        let command = fetch_command();
        let ghost oids = protocol::texts(blob_oids@);
        let mut arguments: Vec<String> = Vec::new();
        let mut i: usize = 0;
        assert(protocol::texts(arguments@) =~= wants(oids.take(0)));
        while i < blob_oids.len()
            invariant
                i <= blob_oids@.len(),
                oids == protocol::texts(blob_oids@),
                forall|i: int|
                    0 <= i < blob_oids@.len() ==> vstd::utf8::encode_utf8(
                        "want "@ + (#[trigger] blob_oids@[i])@,
                    ).len() + 5 <= usize::MAX,
                protocol::texts(arguments@) == wants(oids.take(i as int)),
                forall|k: int|
                    0 <= k < arguments@.len() ==> vstd::utf8::encode_utf8(
                        (#[trigger] arguments@[k])@,
                    ).len() + 5 <= usize::MAX,
            decreases blob_oids@.len() - i,
        {
            let ghost before = arguments@;
            arguments.push(want_line(blob_oids[i].as_str()));
            assert(protocol::texts(arguments@) =~= protocol::texts(before).push(
                "want "@ + oids[i as int],
            ));
            i += 1;
            assert(wants(oids.take(i as int)) =~= wants(oids.take(i as int - 1)).push(
                "want "@ + oids[i as int - 1],
            ));
        }
        assert(oids.take(i as int) =~= oids);
        proof {
            reveal_strlit("done");
            text::lemma_encode_len("done"@);
        }
        let ghost before = arguments@;
        arguments.push("done".to_string());
        assert(protocol::texts(arguments@) =~= protocol::texts(before).push("done"@));
        request_of(&command, &arguments)
    }
}

/// The lines that ask for objects.
pub open spec fn wants(oids: Seq<Seq<char>>) -> Seq<Seq<char>> {
    oids.map_values(|oid: Seq<char>| "want "@ + oid)
}

fn fetch_command() -> (command: Vec<String>)
    ensures
        protocol::texts(command@) == seq!["command=fetch"@, "agent=git-nfs"@],
        forall|i: int|
            0 <= i < command@.len() ==> vstd::utf8::encode_utf8((#[trigger] command@[i])@).len()
                + 5 <= usize::MAX,
{
    let mut command: Vec<String> = Vec::new();
    proof {
        reveal_strlit("command=fetch");
        reveal_strlit("agent=git-nfs");
        text::lemma_encode_len("command=fetch"@);
        text::lemma_encode_len("agent=git-nfs"@);
    }
    command.push("command=fetch".to_string());
    command.push("agent=git-nfs".to_string());
    assert(protocol::texts(command@) =~= seq!["command=fetch"@, "agent=git-nfs"@]);
    command
}

fn want_line(oid: &str) -> (line: String)
    ensures
        line@ == "want "@ + oid@,
{
    let mut line = text::chars_of("want ");
    text::push_str(&mut line, oid);
    text::from_chars(line)
}

/// Where no name is wanted and the head is listed, the commit is the head's, whatever branches
/// are listed beside it.
pub proof fn lemma_head_by_default(lines: Seq<Seq<char>>)
    requires
        ref_of(lines, "HEAD"@) is Some,
    ensures
        resolved(lines, None) matches Some((oid, _)) && Some(oid) == ref_of(lines, "HEAD"@),
{
}

/// A name that is no branch's but a tag's stands for the tag's commit.
pub proof fn lemma_tag_resolved(lines: Seq<Seq<char>>, name: Seq<char>)
    requires
        ref_of(lines, "refs/heads/"@ + name) is None,
        ref_of(lines, "refs/tags/"@ + name) is Some,
    ensures
        resolved(lines, Some(name)) == Some((ref_of(lines, "refs/tags/"@ + name)->0, name)),
{
}

} // verus!
