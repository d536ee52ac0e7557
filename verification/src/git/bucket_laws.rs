//! What the files of a repository in a bucket say of its references, and where its files are.

use vstd::prelude::*;

use crate::git::format_laws;
use crate::git::gcs_storage;
use crate::git::gcs_storage::{
    ReadActionView, ReaderView, RefActionView, RefError, RefStage, RefView, StorageError,
    StorageView,
};
use crate::git::hash;
use crate::git::pack::{ObjectType, RawObject};
use crate::text;

verus! {

// ---------------------------------------------------------------------------------------------
// Packed references

/// Whether a line of the packed references is about a reference: it is neither a comment nor about
/// the tag before it, and the reference is its second word.
pub open spec fn is_packed(line: Seq<char>, refname: Seq<char>) -> bool {
    let inner = text::trimmed(line);
    &&& inner.len() > 0
    &&& inner[0] != '#'
    &&& inner[0] != '^'
    &&& text::words(inner).len() >= 2
    &&& text::words(inner)[1] == refname
}

/// Whether a line is the first about a reference.
pub open spec fn is_first_packed(lines: Seq<Seq<char>>, i: int, refname: Seq<char>) -> bool {
    &&& 0 <= i < lines.len()
    &&& is_packed(lines[i], refname)
    &&& forall|j: int| 0 <= j < i ==> !is_packed(#[trigger] lines[j], refname)
}

/// Whether no line is about a reference.
pub open spec fn none_packed(lines: Seq<Seq<char>>, refname: Seq<char>) -> bool {
    forall|j: int| 0 <= j < lines.len() ==> !is_packed(#[trigger] lines[j], refname)
}

/// The lines of a file.
pub open spec fn file_lines(data: Seq<u8>) -> Seq<Seq<char>> {
    text::split(text::lossy(data), '\n')
}

/// The first word of a line.
pub open spec fn first_word(line: Seq<char>) -> Seq<char> {
    text::words(text::trimmed(line))[0]
}

proof fn lemma_packed_line(line: Seq<char>, refname: Seq<char>)
    ensures
        gcs_storage::packed_line(line, refname) == if is_packed(line, refname) {
            Some(first_word(line))
        } else {
            None
        },
{
    if text::trimmed(line).len() == 0 {
        assert(text::trimmed(line) =~= Seq::<char>::empty());
        crate::text_laws::lemma_one_word(text::trimmed(line));
    }
}

proof fn lemma_from(lines: Seq<Seq<char>>, from: int, i: int, refname: Seq<char>)
    requires
        is_first_packed(lines, i, refname),
        0 <= from <= i,
    ensures
        gcs_storage::packed_from(lines, from, refname) == Some(first_word(lines[i])),
        gcs_storage::packed_tag_from(lines, from, refname) == (if i + 1 < lines.len()
            && gcs_storage::peeled_line(lines[i + 1]) is Some {
            gcs_storage::peeled_line(lines[i + 1])
        } else {
            Some(first_word(lines[i]))
        }),
    decreases i - from,
{
    lemma_packed_line(lines[from], refname);
    if from < i {
        assert(!is_packed(lines[from], refname));
        lemma_from(lines, from + 1, i, refname);
    }
}

proof fn lemma_from_none(lines: Seq<Seq<char>>, from: int, refname: Seq<char>)
    requires
        none_packed(lines, refname),
        0 <= from,
    ensures
        gcs_storage::packed_from(lines, from, refname) is None,
        gcs_storage::packed_tag_from(lines, from, refname) is None,
    decreases lines.len() - from,
{
    if from < lines.len() {
        lemma_packed_line(lines[from], refname);
        assert(!is_packed(lines[from], refname));
        lemma_from_none(lines, from + 1, refname);
    }
}

/// The packed references give for a reference the first word of the first line about it, and about
/// no other; where there is no such line, nothing.
pub proof fn lemma_packed_ref(data: Seq<u8>, refname: Seq<char>, i: int)
    ensures
        is_first_packed(file_lines(data), i, refname) ==> gcs_storage::packed_ref(data, refname)
            == Some(first_word(file_lines(data)[i])),
        none_packed(file_lines(data), refname) ==> gcs_storage::packed_ref(data, refname) is None,
{
    if is_first_packed(file_lines(data), i, refname) {
        lemma_from(file_lines(data), 0, i, refname);
    }
    if none_packed(file_lines(data), refname) {
        lemma_from_none(file_lines(data), 0, refname);
    }
}

/// For a tag they give what stands behind the caret on the line behind that one, where there is a
/// caret, and otherwise that line's first word.
pub proof fn lemma_packed_tag(data: Seq<u8>, refname: Seq<char>, i: int)
    requires
        is_first_packed(file_lines(data), i, refname),
    ensures
        ({
            let lines = file_lines(data);
            let next = text::trimmed(lines[i + 1]);
            if i + 1 < lines.len() && next.len() > 0 && next[0] == '^' {
                gcs_storage::packed_tag(data, refname) matches Some(oid) && seq!['^'] + oid == next
            } else {
                gcs_storage::packed_tag(data, refname) == Some(first_word(lines[i]))
            }
        }),
{
    let lines = file_lines(data);
    lemma_from(lines, 0, i, refname);
    let next = text::trimmed(lines[i + 1]);
    if next.len() > 0 && next[0] == '^' {
        assert(seq!['^'] + next.skip(1) =~= next);
    }
}

// ---------------------------------------------------------------------------------------------
// The search

/// The commit in a file of its own: its text, where that is as long as the name of a commit.
pub open spec fn own_file(files: Map<Seq<char>, Seq<u8>>, path: Seq<char>) -> Option<Seq<char>> {
    if files.contains_key(path) {
        let inner = text::trimmed(text::lossy(files[path]));
        if vstd::utf8::encode_utf8(inner).len() == 40 {
            Some(inner)
        } else {
            None
        }
    } else {
        None
    }
}

/// The commit of a reference: in a file of its own, or else in the packed references.
pub open spec fn ref_commit(
    prefix: Seq<char>,
    files: Map<Seq<char>, Seq<u8>>,
    refname: Seq<char>,
    is_tag: bool,
) -> Option<Seq<char>> {
    let packed = prefix + "packed-refs"@;
    match own_file(files, prefix + refname) {
        Some(oid) => Some(oid),
        None => if !files.contains_key(packed) {
            None
        } else if is_tag {
            gcs_storage::packed_tag(files[packed], refname)
        } else {
            gcs_storage::packed_ref(files[packed], refname)
        },
    }
}

proof fn lemma_paths(prefix: Seq<char>, name: Seq<char>)
    ensures
        prefix + "refs/heads/"@ + name == prefix + ("refs/heads/"@ + name),
        prefix + "refs/tags/"@ + name == prefix + ("refs/tags/"@ + name),
{
    assert(prefix + "refs/heads/"@ + name =~= prefix + ("refs/heads/"@ + name));
    assert(prefix + "refs/tags/"@ + name =~= prefix + ("refs/tags/"@ + name));
}

/// A branch that is wanted is looked for first, then a tag of its name: in a file of its own, or
/// else among the packed references. What is found goes by the name that is wanted.
pub proof fn lemma_wanted(
    prefix: Seq<char>,
    files: Map<Seq<char>, Seq<u8>>,
    name: Seq<char>,
    steps: nat,
)
    requires
        steps >= 3,
    ensures
        ({
            let (started, path) = gcs_storage::ref_started(prefix, Some(name));
            let end = gcs_storage::searched(prefix, files, started, path, steps);
            match ref_commit(prefix, files, "refs/heads/"@ + name, false) {
                Some(commit) => end == (RefActionView::Resolved { commit, name }),
                None => ref_commit(prefix, files, "refs/tags/"@ + name, true) matches Some(commit)
                    ==> end == (RefActionView::Resolved { commit, name }),
            }
        }),
{
    lemma_paths(prefix, name);
    reveal_with_fuel(gcs_storage::searched, 5);
}

/// Where neither a branch nor a tag of the name that is wanted is found, or none is wanted, the
/// head is read: what it says is `head`, and where the search goes from there does not depend on
/// what was wanted.
pub proof fn lemma_head_read(
    prefix: Seq<char>,
    files: Map<Seq<char>, Seq<u8>>,
    name: Seq<char>,
    steps: nat,
)
    requires
        ref_commit(prefix, files, "refs/heads/"@ + name, false) is None,
        ref_commit(prefix, files, "refs/tags/"@ + name, true) is None,
    ensures
        ({
            let (started, path) = gcs_storage::ref_started(prefix, Some(name));
            let (plain, head_path) = gcs_storage::ref_started(prefix, None);
            gcs_storage::searched(prefix, files, started, path, steps + 4) == gcs_storage::searched(
                prefix,
                files,
                plain,
                head_path,
                steps,
            )
        }),
{
    lemma_paths(prefix, name);
    let head = RefView { name, stage: RefStage::Head };
    let head_path = prefix + "HEAD"@;
    let (started, path) = gcs_storage::ref_started(prefix, Some(name));
    let packed = prefix + "packed-refs"@;
    let tag = prefix + "refs/tags/"@ + name;
    let a = RefView { name, stage: RefStage::BranchPacked };
    let b = RefView { name, stage: RefStage::Tag };
    let c = RefView { name, stage: RefStage::TagPacked };
    assert(gcs_storage::searched(prefix, files, started, path, steps + 4)
        == gcs_storage::searched(prefix, files, a, packed, steps + 3));
    assert(gcs_storage::searched(prefix, files, a, packed, steps + 3) == gcs_storage::searched(
        prefix,
        files,
        b,
        tag,
        steps + 2,
    ));
    assert(gcs_storage::searched(prefix, files, b, tag, steps + 2) == gcs_storage::searched(
        prefix,
        files,
        c,
        packed,
        steps + 1,
    ));
    assert(gcs_storage::searched(prefix, files, c, packed, steps + 1) == gcs_storage::searched(
        prefix,
        files,
        head,
        head_path,
        steps,
    ));
    let plain = gcs_storage::ref_started(prefix, None).0;
    let read = gcs_storage::file_read(files, head_path);
    let one = gcs_storage::ref_stepped(prefix, head, read);
    let two = gcs_storage::ref_stepped(prefix, plain, read);
    assert(one.1 == two.1);
    match one.1 {
        RefActionView::Read(_) => {
            assert(one.0 == two.0);
        },
        _ => {},
    }
}

/// The head leads where it says: to the commit of the reference that it names, under that name, or
/// to the commit whose name it starts with. A head that is not there, or says neither, leads
/// nowhere, nor does one whose reference is not there.
pub proof fn lemma_head_followed(
    prefix: Seq<char>,
    files: Map<Seq<char>, Seq<u8>>,
    target: Seq<char>,
    steps: nat,
)
    requires
        steps >= 2,
    ensures
        ({
            let (plain, path) = gcs_storage::ref_started(prefix, None);
            let end = gcs_storage::searched(prefix, files, plain, path, steps);
            let head = text::trimmed(text::lossy(files[prefix + "HEAD"@]));
            if !files.contains_key(prefix + "HEAD"@) {
                end == RefActionView::Fail(RefError::NoHead)
            } else if text::starts_with(head, "ref: "@) {
                head == "ref: "@ + target && !text::starts_with(target, "ref: "@) && text::trimmed(
                    target,
                ) == target ==> match ref_commit(prefix, files, target, false) {
                    Some(commit) => end == (RefActionView::Resolved { commit, name: target }),
                    None => end == RefActionView::Fail(RefError::Unresolved),
                }
            } else if vstd::utf8::encode_utf8(head).len() >= 40 {
                end matches RefActionView::Resolved { commit, name } && name == "HEAD"@ && (
                vstd::utf8::valid_utf8(vstd::utf8::encode_utf8(head).take(40))
                    ==> vstd::utf8::encode_utf8(commit) == vstd::utf8::encode_utf8(head).take(40))
            } else {
                end == RefActionView::Fail(RefError::BadHead)
            }
        }),
{
    reveal_with_fuel(gcs_storage::searched, 4);
    let head = text::trimmed(text::lossy(files[prefix + "HEAD"@]));
    if head == "ref: "@ + target && !text::starts_with(target, "ref: "@) {
        reveal_strlit("ref: ");
        assert("ref: "@.len() == 5);
        assert(head.skip(5) =~= target);
        assert(head.take(5) =~= "ref: "@);
        assert(text::starts_with(head, "ref: "@));
        reveal_with_fuel(text::stripped, 2);
        assert(text::stripped(head, "ref: "@) == text::stripped(target, "ref: "@));
        assert(text::stripped(target, "ref: "@) == target);
    }
    let raw = vstd::utf8::encode_utf8(head).take(40);
    if vstd::utf8::valid_utf8(raw) {
        vstd::utf8::decode_utf8_encode_utf8(raw);
    }
}

// ---------------------------------------------------------------------------------------------
// Files

/// The packfile of an index has its name, but for the end.
pub proof fn lemma_pack_of(base: Seq<char>)
    ensures
        gcs_storage::pack_of(base + ".idx"@) == base + ".pack"@,
{
    let name = base + ".idx"@;
    assert(name.take(name.len() - ".idx"@.len()) =~= base);
}

/// The indexes that have to be read are those among the files whose packfiles are not known, and
/// no others, each with its packfile.
pub proof fn lemma_unknown(names: Seq<Seq<char>>, known: Seq<Seq<char>>, base: Seq<char>)
    ensures
        gcs_storage::unknown_indexes(names, known).contains((base + ".idx"@, base + ".pack"@))
            <==> names.contains(base + ".idx"@) && !known.contains(base + ".pack"@),
        forall|k: int|
            0 <= k < gcs_storage::unknown_indexes(names, known).len() ==> {
                let (idx, pack) = #[trigger] gcs_storage::unknown_indexes(names, known)[k];
                names.contains(idx) && text::ends_with(idx, ".idx"@) && pack
                    == gcs_storage::pack_of(idx) && !known.contains(pack)
            },
    decreases names.len(),
{
    lemma_pack_of(base);
    let wanted = (base + ".idx"@, base + ".pack"@);
    assert((base + ".idx"@).skip(base.len() as int) =~= ".idx"@);
    if names.len() > 0 {
        let front = names.drop_last();
        let last = names.last();
        lemma_unknown(front, known, base);
        let before = gcs_storage::unknown_indexes(front, known);
        let all = gcs_storage::unknown_indexes(names, known);
        assert(names.contains(base + ".idx"@) <==> front.contains(base + ".idx"@) || last == base
            + ".idx"@) by {
            if front.contains(base + ".idx"@) {
                let i = choose|i: int| 0 <= i < front.len() && front[i] == base + ".idx"@;
                assert(names[i] == front[i]);
            }
            if last == base + ".idx"@ {
                assert(names[names.len() - 1] == last);
            }
            if names.contains(base + ".idx"@) && last != base + ".idx"@ {
                let i = choose|i: int| 0 <= i < names.len() && names[i] == base + ".idx"@;
                assert(front[i] == names[i]);
            }
        }
        assert(all.contains(wanted) <==> before.contains(wanted) || all.len() > before.len()
            && all.last() == wanted) by {
            if before.contains(wanted) {
                let i = choose|i: int| 0 <= i < before.len() && before[i] == wanted;
                assert(all[i] == wanted);
            }
            if all.len() > before.len() && all.last() == wanted {
                assert(all[all.len() - 1] == wanted);
            }
            if all.contains(wanted) {
                let i = choose|i: int| 0 <= i < all.len() && all[i] == wanted;
                if i < before.len() {
                    assert(before[i] == wanted);
                }
            }
        }
        assert forall|k: int| 0 <= k < all.len() implies {
            let (idx, pack) = #[trigger] all[k];
            names.contains(idx) && text::ends_with(idx, ".idx"@) && pack == gcs_storage::pack_of(
                idx,
            ) && !known.contains(pack)
        } by {
            if k < before.len() {
                assert(all[k] == before[k]);
                let (idx, _) = before[k];
                let i = choose|i: int| 0 <= i < front.len() && front[i] == idx;
                assert(names[i] == idx);
            } else {
                assert(names[names.len() - 1] == last);
            }
        }
    }
}

/// The files of a commit are its packfile and its index, which go by the packfile's checksum, the
/// head, and the branch: `master` where no other is given. The index is that of the packfile, and
/// both references name the commit.
pub proof fn lemma_commit_files(
    prefix: Seq<char>,
    commit_oid: Seq<char>,
    pack_sha: Seq<char>,
    pack: Seq<u8>,
    idx: Seq<u8>,
    branch: Seq<char>,
)
    ensures
        ({
            let base = prefix + "objects/pack/pack-"@ + pack_sha;
            let line = vstd::utf8::encode_utf8(commit_oid + "\n"@);
            let named = gcs_storage::commit_files(
                prefix,
                commit_oid,
                pack_sha,
                pack,
                idx,
                Some(branch),
            );
            let plain = gcs_storage::commit_files(prefix, commit_oid, pack_sha, pack, idx, None);
            &&& named == seq![
                (base + ".pack"@, pack),
                (base + ".idx"@, idx),
                (prefix + "HEAD"@, line),
                (prefix + "refs/heads/"@ + branch, line),
            ]
            &&& gcs_storage::pack_of(named[1].0) == named[0].0
            &&& plain == gcs_storage::commit_files(
                prefix,
                commit_oid,
                pack_sha,
                pack,
                idx,
                Some("master"@),
            )
        }),
{
    lemma_pack_of(prefix + "objects/pack/pack-"@ + pack_sha);
}

/// The file of an object lies in a directory of the first two digits of its name, and goes by the
/// others.
pub proof fn lemma_loose_path(prefix: Seq<char>, first: char, second: char, others: Seq<char>)
    ensures
        gcs_storage::loose_path(prefix, seq![first, second] + others) == prefix + "objects/"@
            + seq![first, second] + "/"@ + others,
{
    let oid = seq![first, second] + others;
    assert(oid.take(2) =~= seq![first, second]);
    assert(oid.skip(2) =~= others);
}

// ---------------------------------------------------------------------------------------------
// Objects

/// Where a part of a packfile is too short for an entry, more than twice as much is asked for, as
/// long as there can be so much.
pub proof fn lemma_asked_again(asked: u64)
    ensures
        gcs_storage::longer(asked) matches Some(n) ==> n > 2 * asked,
        2 * asked + 4096 <= i64::MAX ==> gcs_storage::longer(asked) == Some(
            (2 * asked + 4096) as u64,
        ),
{
}

proof fn lemma_zero(data: Seq<u8>, from: int, at: int)
    requires
        0 <= from <= at <= data.len(),
        forall|i: int| 0 <= i < at ==> #[trigger] data[i] != 0,
        at < data.len() ==> data[at] == 0,
    ensures
        gcs_storage::find_zero(data, from) == if at < data.len() {
            Some(at)
        } else {
            None
        },
    decreases at - from,
{
    if from < at {
        lemma_zero(data, from + 1, at);
    }
}

/// An object in a file of its own is what stands behind the first null; the word before the first
/// space says what it is. Without a null, or with another word, it is refused.
pub proof fn lemma_loose_object(head: Seq<u8>, data: Seq<u8>)
    requires
        forall|i: int| 0 <= i < head.len() ==> #[trigger] head[i] != 0,
    ensures
        ({
            let whole = head + seq![0u8] + data;
            let said = text::lossy(head);
            let read = gcs_storage::loose_object(whole);
            &&& text::starts_with(said, "commit "@) ==> read == Ok::<_, StorageError>(
                RawObject { obj_type: ObjectType::Commit, data },
            )
            &&& text::starts_with(said, "tree "@) ==> read == Ok::<_, StorageError>(
                RawObject { obj_type: ObjectType::Tree, data },
            )
            &&& text::starts_with(said, "blob "@) ==> read == Ok::<_, StorageError>(
                RawObject { obj_type: ObjectType::Blob, data },
            )
            &&& text::starts_with(said, "tag "@) ==> read == Ok::<_, StorageError>(
                RawObject { obj_type: ObjectType::Tag, data },
            )
            &&& !text::starts_with(said, "commit "@) && !text::starts_with(said, "tree "@)
                && !text::starts_with(said, "blob "@) && !text::starts_with(said, "tag "@)
                ==> read == Err::<RawObject, _>(StorageError::LooseType)
            &&& gcs_storage::loose_object(head) == Err::<RawObject, _>(StorageError::LooseHeader)
        }),
{
    let whole = head + seq![0u8] + data;
    let n = head.len() as int;
    assert forall|i: int| 0 <= i < n implies #[trigger] whole[i] != 0 by {
        assert(whole[i] == head[i]);
    }
    lemma_zero(whole, 0, n);
    lemma_zero(head, 0, n);
    assert(whole.take(n) =~= head);
    assert(whole.skip(n + 1) =~= data);
    let said = text::lossy(head);
    lemma_one_kind(said);
}

proof fn lemma_one_kind(said: Seq<char>)
    ensures
        text::starts_with(said, "commit "@) ==> said[0] == 'c',
        text::starts_with(said, "tree "@) ==> said[0] == 't' && said[1] == 'r',
        text::starts_with(said, "blob "@) ==> said[0] == 'b',
        text::starts_with(said, "tag "@) ==> said[0] == 't' && said[1] == 'a',
{
    reveal_strlit("commit ");
    reveal_strlit("tree ");
    reveal_strlit("blob ");
    reveal_strlit("tag ");
    if text::starts_with(said, "commit "@) {
        assert(said.take(7)[0] == 'c');
    }
    if text::starts_with(said, "tree "@) {
        assert(said.take(5)[0] == 't' && said.take(5)[1] == 'r');
    }
    if text::starts_with(said, "blob "@) {
        assert(said.take(5)[0] == 'b');
    }
    if text::starts_with(said, "tag "@) {
        assert(said.take(4)[0] == 't' && said.take(4)[1] == 'a');
    }
}

/// An object that was read before is given again at once. What is not named by forty digits is
/// refused. Anything else is read from the packfile that an index leads to, or from its own file
/// where none does.
pub proof fn lemma_begun(
    s: StorageView,
    r: ReaderView,
    oid: Seq<char>,
    after: (StorageView, ReaderView, ReadActionView),
)
    requires
        gcs_storage::is_begun(s, r, oid, after),
        r.stack.len() == 0,
    ensures
        s.cache.contains_key(oid) ==> after.2 == ReadActionView::Return(s.cache[oid]) && after.0
            == s,
        !s.cache.contains_key(oid) && hash::hex_decoded(oid) is None ==> after.2
            == ReadActionView::Fail(StorageError::BadOid),
        !s.cache.contains_key(oid) && hash::hex_decoded(oid) is Some && oid.len() != 40 ==> after.2
            == ReadActionView::Fail(StorageError::BadLength),
        !s.cache.contains_key(oid) && hash::hex_decoded(oid) is Some && oid.len() == 40 ==> {
            ||| after.2 is ReadPack
            ||| after.2 == ReadActionView::ReadLoose(gcs_storage::loose_path(s.prefix, oid))
        },
        !s.cache.contains_key(oid) && oid.len() == 40 && s.indexes.len() == 0
            && hash::hex_decoded(oid) is Some ==> after.2 == ReadActionView::ReadLoose(
            gcs_storage::loose_path(s.prefix, oid),
        ),
        after.2 matches ReadActionView::ReadPack { pack, offset, len } ==> exists|k: int|
            0 <= k < s.indexes.len() && (#[trigger] s.indexes[k]).0.pack_name == pack
                && format_laws::starts_at(s.indexes[k].0, hash::hex_decoded(oid)->0, offset),
{
    if !s.cache.contains_key(oid) && hash::hex_decoded(oid) is Some {
        let sha = hash::hex_decoded(oid)->0;
        format_laws::lemma_hex_digits(Seq::empty(), oid, 0);
        match after.2 {
            ReadActionView::ReadPack { pack, offset, len } => {
                let k = choose|k: int| #[trigger]
                    gcs_storage::is_found_in(s.indexes, sha, k, pack, offset, len);
                let v = s.indexes[k].0;
                let i = choose|i: int| #[trigger] v.is_at(sha, i) && v.offsets[i] == offset;
                assert(v.shas[i] == sha);
                assert(format_laws::starts_at(v, sha, offset));
                assert(s.indexes[k].0.pack_name == pack);
            },
            _ => {},
        }
    }
}

} // verus!
