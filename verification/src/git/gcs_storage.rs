//! A repository in a bucket: its references, and objects from its packfiles.

use vstd::prelude::*;

use crate::bytes;
use crate::git::hash;
use crate::git::idx;
use crate::git::idx::{IndexView, PackIndex};
use crate::git::pack;
use crate::git::pack::{Entry, GitRawObject, ObjectType, PackEntry, PackError, RawObject};
use crate::maps::TextMap;
use crate::text;
use crate::wal::backend;
use crate::wal::backend::StoredFile;

verus! {

// ---------------------------------------------------------------------------------------------
// References

/// The text of a small file, without white space around it.
pub open spec fn file_text(data: Seq<u8>) -> Seq<char> {
    text::trimmed(text::lossy(data))
}

fn file_text_of(data: &[u8]) -> (s: Vec<char>)
    ensures
        s@ == file_text(data@),
{
    let chars = text::chars_of(text::from_utf8_lossy(data).as_str());
    text::trim(chars.as_slice())
}

/// The commit that a line of the packed references gives for a name.
pub open spec fn packed_line(line: Seq<char>, ref_name: Seq<char>) -> Option<Seq<char>> {
    let clean = text::trimmed(line);
    if clean.len() > 0 && (clean[0] == '#' || clean[0] == '^') {
        None
    } else {
        let words = text::words(clean);
        if words.len() >= 2 && words[1] == ref_name {
            Some(words[0])
        } else {
            None
        }
    }
}

/// The commit that the lines from the `i`-th on give first for a name.
pub open spec fn packed_from(lines: Seq<Seq<char>>, i: int, ref_name: Seq<char>) -> Option<
    Seq<char>,
>
    decreases lines.len() - i,
{
    if i >= lines.len() {
        None
    } else {
        match packed_line(lines[i], ref_name) {
            Some(oid) => Some(oid),
            None => packed_from(lines, i + 1, ref_name),
        }
    }
}

/// The commit that the packed references give for a name.
pub open spec fn packed_ref(data: Seq<u8>, ref_name: Seq<char>) -> Option<Seq<char>> {
    packed_from(text::split(text::lossy(data), '\n'), 0, ref_name)
}

/// The commit that a line of the packed references gives for the tag on the line before it,
/// where that is an object of its own.
pub open spec fn peeled_line(line: Seq<char>) -> Option<Seq<char>> {
    let clean = text::trimmed(line);
    if clean.len() > 0 && clean[0] == '^' {
        Some(clean.skip(1))
    } else {
        None
    }
}

/// The commit that the lines from the `i`-th on give first for a tag.
pub open spec fn packed_tag_from(lines: Seq<Seq<char>>, i: int, ref_name: Seq<char>) -> Option<
    Seq<char>,
>
    decreases lines.len() - i,
{
    if i >= lines.len() {
        None
    } else {
        match packed_line(lines[i], ref_name) {
            Some(oid) => if i + 1 < lines.len() && peeled_line(lines[i + 1]) is Some {
                peeled_line(lines[i + 1])
            } else {
                Some(oid)
            },
            None => packed_tag_from(lines, i + 1, ref_name),
        }
    }
}

/// The commit that the packed references give for a tag.
pub open spec fn packed_tag(data: Seq<u8>, ref_name: Seq<char>) -> Option<Seq<char>> {
    packed_tag_from(text::split(text::lossy(data), '\n'), 0, ref_name)
}

fn read_packed_line(line: &[char], ref_name: &str) -> (r: Option<String>)
    ensures
        crate::git::engine::maybe(r) == packed_line(line@, ref_name@),
{
    let clean = text::trim(line);
    if clean.len() > 0 && (clean[0] == '#' || clean[0] == '^') {
        return None;
    }
    let words = text::split_words(clean.as_slice());
    let ghost all = text::views(words@);
    if words.len() < 2 {
        return None;
    }
    assert(all[0] == words@[0]@ && all[1] == words@[1]@);
    let name = text::chars_of(ref_name);
    if text::same(words[1].as_slice(), name.as_slice()) {
        let oid = text::chars_range(words[0].as_slice(), 0, words[0].len());
        assert(oid@ =~= words@[0]@);
        Some(text::from_chars(oid))
    } else {
        None
    }
}

/// Looks a name up in the packed references.
pub fn lookup_packed_ref(data: &[u8], ref_name: &str) -> (r: Option<String>)
    ensures
        crate::git::engine::maybe(r) == packed_ref(data@, ref_name@),
{
    let chars = text::chars_of(text::from_utf8_lossy(data).as_str());
    let lines = text::split_at_char(chars.as_slice(), '\n');
    let ghost all = text::views(lines@);
    let mut i: usize = 0;
    while i < lines.len()
        invariant
            i <= lines@.len(),
            all == text::views(lines@),
            packed_ref(data@, ref_name@) == packed_from(all, i as int, ref_name@),
        decreases lines@.len() - i,
    {
        assert(all[i as int] == lines@[i as int]@);
        match read_packed_line(lines[i].as_slice(), ref_name) {
            Some(oid) => {
                return Some(oid);
            },
            None => {},
        }
        i += 1;
    }
    None
}

fn read_peeled_line(line: &[char]) -> (r: Option<String>)
    ensures
        crate::git::engine::maybe(r) == peeled_line(line@),
{
    let clean = text::trim(line);
    if clean.len() > 0 && clean[0] == '^' {
        let oid = text::chars_range(clean.as_slice(), 1, clean.len());
        assert(oid@ =~= clean@.skip(1));
        Some(text::from_chars(oid))
    } else {
        None
    }
}

/// Looks a tag up in the packed references.
pub fn lookup_packed_tag(data: &[u8], ref_name: &str) -> (r: Option<String>)
    ensures
        crate::git::engine::maybe(r) == packed_tag(data@, ref_name@),
{
    let chars = text::chars_of(text::from_utf8_lossy(data).as_str());
    let lines = text::split_at_char(chars.as_slice(), '\n');
    let ghost all = text::views(lines@);
    let mut i: usize = 0;
    while i < lines.len()
        invariant
            i <= lines@.len(),
            all == text::views(lines@),
            packed_tag(data@, ref_name@) == packed_tag_from(all, i as int, ref_name@),
        decreases lines@.len() - i,
    {
        assert(all[i as int] == lines@[i as int]@);
        match read_packed_line(lines[i].as_slice(), ref_name) {
            Some(oid) => {
                if i + 1 < lines.len() {
                    assert(all[i + 1] == lines@[i + 1]@);
                    match read_peeled_line(lines[i + 1].as_slice()) {
                        Some(commit) => {
                            return Some(commit);
                        },
                        None => {},
                    }
                }
                return Some(oid);
            },
            None => {},
        }
        i += 1;
    }
    None
}

/// How far the search for a commit has come.
#[derive(Debug, Clone, Copy, PartialEq, Eq, Structural)]
pub enum RefStage {
    /// The file of the branch is being read.
    Branch,
    /// The packed references are being read, for the branch.
    BranchPacked,
    /// The file of the tag is being read.
    Tag,
    /// The packed references are being read, for the tag.
    TagPacked,
    /// The head is being read.
    Head,
    /// The file of the reference in the head is being read.
    Ref,
    /// The packed references are being read, for the reference in the head.
    RefPacked,
    Over,
}

/// Why no commit could be resolved.
#[derive(Debug, Clone, Copy, PartialEq, Eq, Structural)]
pub enum RefError {
    /// The head could not be read.
    NoHead,
    /// The head names neither a reference nor a commit.
    BadHead,
    /// The reference in the head leads to no commit.
    Unresolved,
}

/// A search for a commit: the name that is looked for, and how far it has come.
#[verifier::ext_equal]
pub struct RefView {
    pub name: Seq<char>,
    pub stage: RefStage,
}

/// What has to be done next in a search.
pub enum RefActionView {
    Read(Seq<char>),
    Resolved { commit: Seq<char>, name: Seq<char> },
    Fail(RefError),
}

/// Whether a text is as long as the name of a commit.
pub open spec fn is_commit_long(s: Seq<char>) -> bool {
    vstd::utf8::encode_utf8(s).len() == 40
}

/// The commit at the start of a detached head.
pub open spec fn head_commit(head: Seq<char>) -> Seq<char> {
    vstd::utf8::decode_utf8(vstd::utf8::encode_utf8(head).take(40))
}

/// Whether a head that names a commit, and no reference, can be cut off behind it.
pub open spec fn is_cuttable(data: Seq<u8>) -> bool {
    let head = file_text(data);
    !text::starts_with(head, "ref: "@) && vstd::utf8::encode_utf8(head).len() >= 40
        ==> vstd::utf8::valid_utf8(vstd::utf8::encode_utf8(head).take(40))
}

/// Where a search starts: with the branch that is wanted, or else with the head.
pub open spec fn ref_started(prefix: Seq<char>, branch: Option<Seq<char>>) -> (
    RefView,
    Seq<char>,
) {
    match branch {
        Some(b) => (
            RefView { name: b, stage: RefStage::Branch },
            prefix + "refs/heads/"@ + b,
        ),
        None => (RefView { name: Seq::empty(), stage: RefStage::Head }, prefix + "HEAD"@),
    }
}

/// The step of a search, once a file was read, or could not be.
pub open spec fn ref_stepped(prefix: Seq<char>, r: RefView, read: Option<Seq<u8>>) -> (
    RefView,
    RefActionView,
) {
    let over = RefView { stage: RefStage::Over, ..r };
    match r.stage {
        RefStage::Branch | RefStage::Tag | RefStage::Ref => match read {
            Some(data) if is_commit_long(file_text(data)) => (
                over,
                RefActionView::Resolved { commit: file_text(data), name: r.name },
            ),
            _ => (
                RefView {
                    stage: match r.stage {
                        RefStage::Branch => RefStage::BranchPacked,
                        RefStage::Tag => RefStage::TagPacked,
                        _ => RefStage::RefPacked,
                    },
                    ..r
                },
                RefActionView::Read(prefix + "packed-refs"@),
            ),
        },
        RefStage::BranchPacked => {
            let found = match read {
                Some(data) => packed_ref(data, "refs/heads/"@ + r.name),
                None => None,
            };
            match found {
                Some(commit) => (over, RefActionView::Resolved { commit, name: r.name }),
                None => (
                    RefView { stage: RefStage::Tag, ..r },
                    RefActionView::Read(prefix + "refs/tags/"@ + r.name),
                ),
            }
        },
        RefStage::TagPacked => {
            let found = match read {
                Some(data) => packed_tag(data, "refs/tags/"@ + r.name),
                None => None,
            };
            match found {
                Some(commit) => (over, RefActionView::Resolved { commit, name: r.name }),
                None => (
                    RefView { stage: RefStage::Head, ..r },
                    RefActionView::Read(prefix + "HEAD"@),
                ),
            }
        },
        RefStage::Head => match read {
            None => (over, RefActionView::Fail(RefError::NoHead)),
            Some(data) => {
                let head = file_text(data);
                if text::starts_with(head, "ref: "@) {
                    let name = text::trimmed(text::stripped(head, "ref: "@));
                    (
                        RefView { name, stage: RefStage::Ref },
                        RefActionView::Read(prefix + name),
                    )
                } else if vstd::utf8::encode_utf8(head).len() >= 40 {
                    (
                        over,
                        RefActionView::Resolved { commit: head_commit(head), name: "HEAD"@ },
                    )
                } else {
                    (over, RefActionView::Fail(RefError::BadHead))
                }
            },
        },
        RefStage::RefPacked => {
            let found = match read {
                Some(data) => packed_ref(data, r.name),
                None => None,
            };
            match found {
                Some(commit) => (over, RefActionView::Resolved { commit, name: r.name }),
                None => (over, RefActionView::Fail(RefError::Unresolved)),
            }
        },
        RefStage::Over => (over, RefActionView::Fail(RefError::Unresolved)),
    }
}

/// What has to be done next in a search for a commit.
#[derive(Debug)]
pub enum RefAction {
    /// A file is to be read.
    Read(String),
    /// The commit, and the name that led to it.
    Resolved { commit: String, name: String },
    Fail(RefError),
}

impl View for RefAction {
    type V = RefActionView;

    open spec fn view(&self) -> RefActionView {
        match self {
            RefAction::Read(path) => RefActionView::Read(path@),
            RefAction::Resolved { commit, name } => RefActionView::Resolved {
                commit: commit@,
                name: name@,
            },
            RefAction::Fail(e) => RefActionView::Fail(*e),
        }
    }
}

/// A search for a commit.
#[derive(Debug)]
pub struct RefRequest {
    name: String,
    stage: RefStage,
}

impl View for RefRequest {
    type V = RefView;

    closed spec fn view(&self) -> RefView {
        RefView { name: self.name@, stage: self.stage }
    }
}

impl RefRequest {
    pub fn stage(&self) -> (stage: RefStage)
        ensures
            stage == self@.stage,
    {
        self.stage
    }
}

/// Whether a head that was read can be cut off behind its commit, where it names one.
pub fn can_cut_head(data: &[u8]) -> (r: bool)
    ensures
        r == is_cuttable(data@),
{
    let head = file_text_of(data);
    if text::has_prefix(head.as_slice(), "ref: ") {
        return true;
    }
    let raw = text::bytes_of(text::from_chars(head).as_str());
    if raw.len() < 40 {
        return true;
    }
    let start = bytes::copy_range(raw.as_slice(), 0, 40);
    assert(start@ =~= raw@.take(40));
    text::from_utf8(start).is_some()
}

// ---------------------------------------------------------------------------------------------
// Objects

/// A repository in a bucket: the indexes of its packfiles with their offsets in ascending order,
/// and the objects that were read.
#[verifier::ext_equal]
pub struct StorageView {
    pub bucket: Seq<char>,
    pub prefix: Seq<char>,
    pub indexes: Seq<(IndexView, Seq<u64>)>,
    pub cache: Map<Seq<char>, RawObject>,
}

/// Why an object could not be read.
#[derive(Debug, Clone, Copy, PartialEq, Eq, Structural)]
pub enum StorageError {
    /// The name is not in hexadecimal.
    BadOid,
    /// The name is not of twenty bytes.
    BadLength,
    /// There is nothing at the object's offset.
    EmptyRead,
    Pack(PackError),
    /// The file of the object is no valid zlib stream.
    LooseInflate,
    /// The file of the object has no header.
    LooseHeader,
    /// The header in the file of the object names no type.
    LooseType,
}

/// What an object is being read for: to be kept under a name, or as the base of a delta.
pub enum Frame {
    Named(Seq<char>),
    Delta(Seq<u8>),
}

/// The reading of an object: what it is for, innermost last, and the packfile and the offset
/// that are being read.
#[verifier::ext_equal]
pub struct ReaderView {
    pub stack: Seq<Frame>,
    pub pack: Seq<char>,
    pub offset: u64,
    /// How many bytes were asked for.
    pub asked: u64,
}

/// How many bytes to ask for where so many were too few.
pub open spec fn longer(asked: u64) -> Option<u64> {
    if asked < 0x4000_0000_0000_0000 {
        Some((2 * asked + 4096) as u64)
    } else {
        None
    }
}

/// What has to be done next in the reading of an object.
pub enum ReadActionView {
    ReadPack { pack: Seq<char>, offset: u64, len: u64 },
    ReadLoose(Seq<char>),
    Return(RawObject),
    Fail(StorageError),
}

/// Whether the `k`-th index is the first that has a name, with this answer.
pub open spec fn is_found_in(
    indexes: Seq<(IndexView, Seq<u64>)>,
    sha: Seq<u8>,
    k: int,
    pack: Seq<char>,
    offset: u64,
    len: u64,
) -> bool {
    &&& 0 <= k < indexes.len()
    &&& pack == indexes[k].0.pack_name
    &&& idx::is_answer(indexes[k].0, indexes[k].1, sha, Some((offset, len)))
    &&& forall|j: int|
        0 <= j < k ==> idx::is_answer(
            (#[trigger] indexes[j]).0,
            indexes[j].1,
            sha,
            None::<(u64, u64)>,
        )
}

/// Whether this is where a name is found: the packfile, the offset and the length, or nowhere.
pub open spec fn is_found(
    indexes: Seq<(IndexView, Seq<u64>)>,
    sha: Seq<u8>,
    found: Option<(Seq<char>, u64, u64)>,
) -> bool {
    match found {
        Some((pack, offset, len)) => is_found_at(indexes, sha, pack, offset, len),
        None => is_not_found(indexes, sha),
    }
}

/// Whether an index has a name, the first with this answer.
pub open spec fn is_found_at(
    indexes: Seq<(IndexView, Seq<u64>)>,
    sha: Seq<u8>,
    pack: Seq<char>,
    offset: u64,
    len: u64,
) -> bool {
    exists|k: int| #[trigger] is_found_in(indexes, sha, k, pack, offset, len)
}

/// Whether no index has a name.
pub open spec fn is_not_found(indexes: Seq<(IndexView, Seq<u64>)>, sha: Seq<u8>) -> bool {
    forall|j: int|
        0 <= j < indexes.len() ==> idx::is_answer(
            (#[trigger] indexes[j]).0,
            indexes[j].1,
            sha,
            None::<(u64, u64)>,
        )
}

/// The path of an object that is in no packfile.
pub open spec fn loose_path(prefix: Seq<char>, oid: Seq<char>) -> Seq<char> {
    prefix + "objects/"@ + oid.take(2) + "/"@ + oid.skip(2)
}

/// The place of the first zero from `from` on.
pub open spec fn find_zero(data: Seq<u8>, from: int) -> Option<int>
    decreases data.len() - from,
{
    if from >= data.len() {
        None
    } else if data[from] == 0 {
        Some(from)
    } else {
        find_zero(data, from + 1)
    }
}

/// The type that the header of an object names.
pub open spec fn header_type(header: Seq<char>) -> Option<ObjectType> {
    if text::starts_with(header, "commit "@) {
        Some(ObjectType::Commit)
    } else if text::starts_with(header, "tree "@) {
        Some(ObjectType::Tree)
    } else if text::starts_with(header, "blob "@) {
        Some(ObjectType::Blob)
    } else if text::starts_with(header, "tag "@) {
        Some(ObjectType::Tag)
    } else {
        None
    }
}

/// The object that is behind its header.
pub open spec fn loose_object(data: Seq<u8>) -> Result<RawObject, StorageError> {
    match find_zero(data, 0) {
        None => Err(StorageError::LooseHeader),
        Some(at) => match header_type(text::lossy(data.take(at))) {
            None => Err(StorageError::LooseType),
            Some(obj_type) => Ok(RawObject { obj_type, data: data.skip(at + 1) }),
        },
    }
}

impl StorageView {
    /// With an object under a name.
    pub open spec fn with_object(self, oid: Seq<char>, object: RawObject) -> StorageView {
        StorageView { cache: self.cache.insert(oid, object), ..self }
    }

    /// Once an object was read that others wait for: deltas are applied to it, and what comes of
    /// that is kept under its name.
    pub open spec fn unwound(self, r: ReaderView, object: RawObject) -> (
        StorageView,
        ReaderView,
        ReadActionView,
    )
        decreases r.stack.len(),
    {
        if r.stack.len() == 0 {
            (self, r, ReadActionView::Return(object))
        } else {
            let rest = ReaderView { stack: r.stack.drop_last(), ..r };
            match r.stack.last() {
                Frame::Named(oid) => self.with_object(oid, object).unwound(rest, object),
                Frame::Delta(delta) => match pack::delta_applied(object.data, delta) {
                    Err(e) => (self, rest, ReadActionView::Fail(StorageError::Pack(e))),
                    Ok(data) => self.unwound(
                        rest,
                        RawObject { obj_type: object.obj_type, data },
                    ),
                },
            }
        }
    }
}

/// Whether this is the start of reading an object by its name: from what was read, or else from
/// the first packfile that has it, or else from a file of its own.
pub open spec fn is_begun(
    s: StorageView,
    r: ReaderView,
    oid: Seq<char>,
    after: (StorageView, ReaderView, ReadActionView),
) -> bool {
    if s.cache.contains_key(oid) {
        after == s.unwound(r, s.cache[oid])
    } else {
        match hash::hex_decoded(oid) {
            None => after == (s, r, ReadActionView::Fail(StorageError::BadOid)),
            Some(sha) => if sha.len() != 20 {
                after == (s, r, ReadActionView::Fail(StorageError::BadLength))
            } else {
                let pushed = ReaderView { stack: r.stack.push(Frame::Named(oid)), ..r };
                match after.2 {
                    ReadActionView::ReadPack { pack, offset, len } => after.0 == s && after.1 == (
                    ReaderView { pack, offset, asked: len, ..pushed }) && is_found(
                        s.indexes,
                        sha,
                        Some((pack, offset, len)),
                    ),
                    ReadActionView::ReadLoose(path) => after.0 == s && after.1 == pushed && path
                        == loose_path(s.prefix, oid) && is_found(s.indexes, sha, None),
                    _ => false,
                }
            },
        }
    }
}

/// Whether this is the step once bytes of a packfile were read. Where they may end before the
/// entry does, and no fewer came than were asked for, more are asked for.
pub open spec fn is_pack_fed(
    s: StorageView,
    r: ReaderView,
    slice: Seq<u8>,
    after: (StorageView, ReaderView, ReadActionView),
) -> bool {
    if slice.len() == 0 {
        after == (s, r, ReadActionView::Fail(StorageError::EmptyRead))
    } else {
        match pack::entry_at(slice, 0, r.offset) {
            Err(e) => match longer(r.asked) {
                Some(len) if e.may_be_cut() && slice.len() >= r.asked => after == (
                    s,
                    ReaderView { asked: len, ..r },
                    ReadActionView::ReadPack { pack: r.pack, offset: r.offset, len },
                ),
                _ => after == (s, r, ReadActionView::Fail(StorageError::Pack(e))),
            },
            Ok((Entry::Base(object), _, _)) => after == s.unwound(r, object),
            Ok((Entry::OfsDelta { base, delta }, size, _)) => after == (
                s,
                ReaderView {
                    stack: r.stack.push(Frame::Delta(delta)),
                    offset: base,
                    asked: size,
                    ..r
                },
                ReadActionView::ReadPack { pack: r.pack, offset: base, len: size },
            ),
            Ok((Entry::RefDelta { base_sha, delta }, _, _)) => is_begun(
                s,
                ReaderView { stack: r.stack.push(Frame::Delta(delta)), ..r },
                base_sha,
                after,
            ),
        }
    }
}

/// The step once the file of an object was read.
pub open spec fn loose_fed(s: StorageView, r: ReaderView, compressed: Seq<u8>) -> (
    StorageView,
    ReaderView,
    ReadActionView,
) {
    match hash::zlib_inflated(compressed) {
        None => (s, r, ReadActionView::Fail(StorageError::LooseInflate)),
        Some((data, _)) => match loose_object(data) {
            Err(e) => (s, r, ReadActionView::Fail(e)),
            Ok(object) => s.unwound(r, object),
        },
    }
}

/// What has to be done next in the reading of an object.
#[derive(Debug)]
pub enum ReadAction {
    /// Bytes of a packfile are to be read: from an offset on, about so many.
    ReadPack { pack_name: String, offset: u64, estimated_len: u64 },
    /// The file of the object is to be read.
    ReadLoose(String),
    Return(GitRawObject),
    Fail(StorageError),
}

impl View for ReadAction {
    type V = ReadActionView;

    open spec fn view(&self) -> ReadActionView {
        match self {
            ReadAction::ReadPack { pack_name, offset, estimated_len } => ReadActionView::ReadPack {
                pack: pack_name@,
                offset: *offset,
                len: *estimated_len,
            },
            ReadAction::ReadLoose(path) => ReadActionView::ReadLoose(path@),
            ReadAction::Return(object) => ReadActionView::Return(object@),
            ReadAction::Fail(e) => ReadActionView::Fail(*e),
        }
    }
}

enum Purpose {
    Named(String),
    Delta(Vec<u8>),
}

impl View for Purpose {
    type V = Frame;

    closed spec fn view(&self) -> Frame {
        match self {
            Purpose::Named(oid) => Frame::Named(oid@),
            Purpose::Delta(delta) => Frame::Delta(delta@),
        }
    }
}

/// The reading of an object.
pub struct ObjectReader {
    stack: Vec<Purpose>,
    pack_name: String,
    offset: u64,
    asked: u64,
}

impl View for ObjectReader {
    type V = ReaderView;

    closed spec fn view(&self) -> ReaderView {
        ReaderView {
            stack: self.stack@.map_values(|p: Purpose| p@),
            pack: self.pack_name@,
            offset: self.offset,
            asked: self.asked,
        }
    }
}

impl ObjectReader {
    pub fn new() -> (reader: Self)
        ensures
            reader@.stack.len() == 0,
    {
        ObjectReader { stack: Vec::new(), pack_name: String::new(), offset: 0, asked: 0 }
    }

    fn push(&mut self, purpose: Purpose)
        ensures
            final(self)@ == (ReaderView {
                stack: old(self)@.stack.push(purpose@),
                ..old(self)@
            }),
    {
        let ghost p = purpose@;
        self.stack.push(purpose);
        assert(self@.stack =~= old(self)@.stack.push(p));
    }
}

pub struct GcsGitStorage {
    bucket: String,
    prefix: String,
    pack_indexes: Vec<PackIndex>,
    object_cache: TextMap<GitRawObject>,
}

/// The views of indexes.
pub open spec fn index_views(indexes: Seq<PackIndex>) -> Seq<(IndexView, Seq<u64>)> {
    indexes.map_values(|i: PackIndex| (i@, i.sorted()))
}

impl View for GcsGitStorage {
    type V = StorageView;

    closed spec fn view(&self) -> StorageView {
        StorageView {
            bucket: self.bucket@,
            prefix: self.prefix@,
            indexes: index_views(self.pack_indexes@),
            cache: self.object_cache@,
        }
    }
}

/// An index to be read, and the packfile that it is of.
#[derive(Debug)]
pub struct WantedIndex {
    pub idx_name: String,
    pub pack_name: String,
}

impl View for WantedIndex {
    type V = (Seq<char>, Seq<char>);

    open spec fn view(&self) -> (Seq<char>, Seq<char>) {
        (self.idx_name@, self.pack_name@)
    }
}

/// The views of indexes to be read.
pub open spec fn wanted_views(wanted: Seq<WantedIndex>) -> Seq<(Seq<char>, Seq<char>)> {
    wanted.map_values(|w: WantedIndex| w@)
}

/// The packfile of an index.
pub open spec fn pack_of(idx_name: Seq<char>) -> Seq<char> {
    idx_name.take(idx_name.len() - ".idx"@.len()) + ".pack"@
}

/// The indexes among files whose packfiles are not known.
pub open spec fn unknown_indexes(names: Seq<Seq<char>>, known: Seq<Seq<char>>) -> Seq<
    (Seq<char>, Seq<char>),
>
    decreases names.len(),
{
    if names.len() == 0 {
        Seq::empty()
    } else {
        let before = unknown_indexes(names.drop_last(), known);
        let name = names.last();
        if text::ends_with(name, ".idx"@) && !known.contains(pack_of(name)) {
            before.push((name, pack_of(name)))
        } else {
            before
        }
    }
}

/// The files of a commit that is complete, in the order in which they are written: the packfile,
/// its index, and then the references.
pub open spec fn commit_files(
    prefix: Seq<char>,
    commit_oid: Seq<char>,
    pack_sha: Seq<char>,
    pack: Seq<u8>,
    idx: Seq<u8>,
    branch: Option<Seq<char>>,
) -> Seq<(Seq<char>, Seq<u8>)> {
    let name = prefix + "objects/pack/pack-"@ + pack_sha;
    let target = match branch {
        Some(b) => b,
        None => "master"@,
    };
    seq![
        (name + ".pack"@, pack),
        (name + ".idx"@, idx),
        (prefix + "HEAD"@, backend::commit_line(commit_oid)),
        (prefix + "refs/heads/"@ + target, backend::commit_line(commit_oid)),
    ]
}

fn concat(a: &str, b: &str) -> (s: String)
    ensures
        s@ == a@ + b@,
{
    let mut out = text::chars_of(a);
    text::push_str(&mut out, b);
    text::from_chars(out)
}

impl GcsGitStorage {
    pub closed spec fn wf(&self) -> bool {
        &&& self.object_cache.wf()
        &&& forall|i: int| 0 <= i < self.pack_indexes@.len() ==> (#[trigger] self.pack_indexes@[i]).wf()
    }

    /// A repository in a bucket, below a prefix, of which nothing is known yet.
    pub fn new(bucket: &str, prefix: &str) -> (storage: Self)
        ensures
            storage.wf(),
            storage@ == (StorageView {
                bucket: backend::bucket_name(bucket@),
                prefix: text::trimmed_start(prefix@, |c: char| c == '/'),
                indexes: Seq::empty(),
                cache: Map::empty(),
            }),
    {
        let storage = GcsGitStorage {
            bucket: backend::bucket_name_of(bucket),
            prefix: backend::clean_prefix(prefix),
            pack_indexes: Vec::new(),
            object_cache: TextMap::new(),
        };
        assert(storage@.indexes =~= Seq::<(IndexView, Seq<u64>)>::empty());
        storage
    }

    pub fn bucket(&self) -> (bucket: &str)
        ensures
            bucket@ == self@.bucket,
    {
        self.bucket.as_str()
    }

    pub fn prefix(&self) -> (prefix: &str)
        ensures
            prefix@ == self@.prefix,
    {
        self.prefix.as_str()
    }

    pub fn pack_names(&self) -> (names: Vec<String>)
        ensures
            crate::git::protocol::texts(names@) == known_packs(self@),
    {
        let mut names: Vec<String> = Vec::new();
        let mut i: usize = 0;
        while i < self.pack_indexes.len()
            invariant
                i <= self.pack_indexes@.len(),
                names@.len() == i,
                forall|j: int|
                    0 <= j < i ==> (#[trigger] names@[j])@ == self.pack_indexes@[j]@.pack_name,
            decreases self.pack_indexes@.len() - i,
        {
            names.push(self.pack_indexes[i].name());
            i += 1;
        }
        assert(crate::git::protocol::texts(names@) =~= known_packs(self@));
        names
    }

    /// Starts the search for a commit: the file to be read first.
    pub fn begin_resolve(&self, branch_override: Option<&str>) -> (r: (RefRequest, String))
        ensures
            (r.0@, r.1@) == ref_started(
                self@.prefix,
                crate::git::engine::maybe_str(branch_override),
            ),
    {
        match branch_override {
            Some(branch) => (
                RefRequest { name: branch.to_string(), stage: RefStage::Branch },
                concat(concat(self.prefix.as_str(), "refs/heads/").as_str(), branch),
            ),
            None => {
                let request = RefRequest { name: String::new(), stage: RefStage::Head };
                assert(request@.name =~= Seq::<char>::empty());
                (request, concat(self.prefix.as_str(), "HEAD"))
            },
        }
    }

    /// Takes a file that was read in a search, or could not be, and says what comes next. The
    /// search goes from the branch that is wanted to the tag of that name and on to the head,
    /// and each time from the file of the reference to the packed references.
    pub fn resolve_head(&self, request: &mut RefRequest, read: Option<&[u8]>) -> (action: RefAction)
        requires
            old(request)@.stage == RefStage::Head ==> (read matches Some(data) ==> is_cuttable(
                data@,
            )),
        ensures
            (final(request)@, action@) == ref_stepped(
                self@.prefix,
                old(request)@,
                crate::staging::maybe(read),
            ),
    {
        match request.stage {
            RefStage::Branch | RefStage::Tag | RefStage::Ref => {
                match read {
                    Some(data) => {
                        let sha = text::from_chars(file_text_of(data));
                        if text::bytes_of(sha.as_str()).len() == 40 {
                            request.stage = RefStage::Over;
                            return RefAction::Resolved { commit: sha, name: request.name.clone() };
                        }
                    },
                    None => {},
                }
                request.stage = match request.stage {
                    RefStage::Branch => RefStage::BranchPacked,
                    RefStage::Tag => RefStage::TagPacked,
                    _ => RefStage::RefPacked,
                };
                RefAction::Read(concat(self.prefix.as_str(), "packed-refs"))
            },
            RefStage::BranchPacked => {
                let full = concat("refs/heads/", request.name.as_str());
                let found: Option<String> = match read {
                    Some(data) => lookup_packed_ref(data, full.as_str()),
                    None => None,
                };
                match found {
                    Some(commit) => {
                        request.stage = RefStage::Over;
                        RefAction::Resolved { commit, name: request.name.clone() }
                    },
                    None => {
                        request.stage = RefStage::Tag;
                        RefAction::Read(
                            concat(
                                concat(self.prefix.as_str(), "refs/tags/").as_str(),
                                request.name.as_str(),
                            ),
                        )
                    },
                }
            },
            RefStage::TagPacked => {
                let full = concat("refs/tags/", request.name.as_str());
                let found: Option<String> = match read {
                    Some(data) => lookup_packed_tag(data, full.as_str()),
                    None => None,
                };
                match found {
                    Some(commit) => {
                        request.stage = RefStage::Over;
                        RefAction::Resolved { commit, name: request.name.clone() }
                    },
                    None => {
                        request.stage = RefStage::Head;
                        RefAction::Read(concat(self.prefix.as_str(), "HEAD"))
                    },
                }
            },
            RefStage::Head => match read {
                None => {
                    request.stage = RefStage::Over;
                    RefAction::Fail(RefError::NoHead)
                },
                Some(data) => self.resolve_in_head(request, data),
            },
            RefStage::RefPacked => {
                let found: Option<String> = match read {
                    Some(data) => lookup_packed_ref(data, request.name.as_str()),
                    None => None,
                };
                request.stage = RefStage::Over;
                match found {
                    Some(commit) => RefAction::Resolved { commit, name: request.name.clone() },
                    None => RefAction::Fail(RefError::Unresolved),
                }
            },
            RefStage::Over => RefAction::Fail(RefError::Unresolved),
        }
    }

    fn resolve_in_head(&self, request: &mut RefRequest, data: &[u8]) -> (action: RefAction)
        requires
            old(request)@.stage == RefStage::Head,
            is_cuttable(data@),
        ensures
            (final(request)@, action@) == ref_stepped(self@.prefix, old(request)@, Some(data@)),
    {
        let head = file_text_of(data);
        if text::has_prefix(head.as_slice(), "ref: ") {
            proof {
                reveal_strlit("ref: ");
            }
            let rest = text::strip_all(head, "ref: ");
            request.name = text::from_chars(text::trim(rest.as_slice()));
            request.stage = RefStage::Ref;
            return RefAction::Read(concat(self.prefix.as_str(), request.name.as_str()));
        }
        request.stage = RefStage::Over;
        let raw = text::bytes_of(text::from_chars(head).as_str());
        if raw.len() < 40 {
            return RefAction::Fail(RefError::BadHead);
        }
        let start = bytes::copy_range(raw.as_slice(), 0, 40);
        assert(start@ =~= raw@.take(40));
        match text::from_utf8(start) {
            Some(commit) => RefAction::Resolved { commit, name: "HEAD".to_string() },
            None => RefAction::Fail(RefError::BadHead),
        }
    }

    /// The indexes among the files of the repository that are to be read: those of packfiles
    /// that are not known yet.
    pub fn refresh_pack_indexes(&self, names: &Vec<String>) -> (wanted: Vec<WantedIndex>)
        ensures
            wanted_views(wanted@) == unknown_indexes(
                crate::git::protocol::texts(names@),
                known_packs(self@),
            ),
    {
        let loaded = self.pack_names();
        let ghost known = known_packs(self@);
        let ghost all = crate::git::protocol::texts(names@);
        let mut wanted: Vec<WantedIndex> = Vec::new();
        let mut i: usize = 0;
        assert(all.take(0) =~= Seq::<Seq<char>>::empty());
        assert(wanted_views(wanted@) =~= Seq::<(Seq<char>, Seq<char>)>::empty());
        while i < names.len()
            invariant
                i <= names@.len(),
                all == crate::git::protocol::texts(names@),
                known == crate::git::protocol::texts(loaded@),
                wanted_views(wanted@) == unknown_indexes(all.take(i as int), known),
            decreases names@.len() - i,
        {
            assert(all.take(i as int + 1).drop_last() =~= all.take(i as int));
            assert(all.take(i as int + 1).last() == names@[i as int]@);
            let chars = text::chars_of(names[i].as_str());
            match text::strip_suffix(chars.as_slice(), ".idx") {
                Some(stem) => {
                    let pack_name = concat(text::from_chars(stem).as_str(), ".pack");
                    if !is_among(&loaded, pack_name.as_str()) {
                        let ghost before = wanted@;
                        let w = WantedIndex { idx_name: names[i].clone(), pack_name };
                        let ghost v = w@;
                        wanted.push(w);
                        assert(wanted_views(wanted@) =~= wanted_views(before).push(v));
                    }
                },
                None => {},
            }
            i += 1;
        }
        assert(all.take(i as int) =~= all);
        wanted
    }

    /// Takes indexes that were read.
    pub fn add_indexes(&mut self, indexes: Vec<PackIndex>)
        requires
            old(self).wf(),
            forall|i: int| 0 <= i < indexes@.len() ==> (#[trigger] indexes@[i]).wf(),
        ensures
            final(self).wf(),
            final(self)@ == (StorageView {
                indexes: old(self)@.indexes + index_views(indexes@),
                ..old(self)@
            }),
    {
        let ghost more = indexes@;
        let ghost had = self.pack_indexes@;
        let mut rest = indexes;
        self.pack_indexes.append(&mut rest);
        assert(self.pack_indexes@ =~= had + more);
        assert(self@.indexes =~= old(self)@.indexes + index_views(more));
        assert forall|i: int| 0 <= i < self.pack_indexes@.len() implies (
        #[trigger] self.pack_indexes@[i]).wf() by {
            if i < had.len() {
                assert(self.pack_indexes@[i] == had[i]);
            } else {
                assert(self.pack_indexes@[i] == more[i - had.len()]);
            }
        }
    }

    /// The path of a packfile below the directory of this machine that packfiles are kept in.
    pub fn local_pack_path(&self, pack_name: &str) -> (path: Vec<String>)
        ensures
            crate::cache::disk::segments(path@) == seq![
                "objects"@,
                "pack"@,
                crate::cache::block::filename(pack_name@),
            ],
    {
        let mut path: Vec<String> = Vec::new();
        path.push("objects".to_string());
        path.push("pack".to_string());
        path.push(crate::cache::block::extract_filename(pack_name));
        assert(crate::cache::disk::segments(path@) =~= seq![
            "objects"@,
            "pack"@,
            crate::cache::block::filename(pack_name@),
        ]);
        path
    }

    /// How many bytes to read of a packfile on this machine.
    pub fn local_read_len(estimated_len: u64, file_len: u64, offset: u64) -> (len: u64)
        requires
            estimated_len + 64 <= u64::MAX,
        ensures
            len == vstd::math::min(
                vstd::math::max(estimated_len + 64, 4096),
                vstd::math::max(file_len - offset, 0),
            ),
    {
        let want: u64 = if estimated_len + 64 > 4096 {
            estimated_len + 64
        } else {
            4096
        };
        let left: u64 = if file_len > offset {
            file_len - offset
        } else {
            0
        };
        if want < left {
            want
        } else {
            left
        }
    }

    /// How many bytes to read of a packfile in the bucket: none behind its end.
    pub fn remote_read_len(estimated_len: u64, pack_len: u64, offset: u64) -> (len: u64)
        ensures
            len == vstd::math::min(
                vstd::math::max(estimated_len as int, 4096),
                vstd::math::max(pack_len - offset, 0),
            ),
    {
        let want: u64 = if estimated_len > 4096 {
            estimated_len
        } else {
            4096
        };
        let left: u64 = if pack_len > offset {
            pack_len - offset
        } else {
            0
        };
        if want < left {
            want
        } else {
            left
        }
    }

    fn find(&self, sha: &[u8; 20]) -> (r: Option<(String, u64, u64)>)
        requires
            self.wf(),
        ensures
            is_found(
                self@.indexes,
                sha@,
                match r {
                    Some((name, offset, len)) => Some((name@, offset, len)),
                    None => None,
                },
            ),
    {
        let mut i: usize = 0;
        while i < self.pack_indexes.len()
            invariant
                self.wf(),
                i <= self.pack_indexes@.len(),
                forall|j: int|
                    0 <= j < i ==> idx::is_answer(
                        (#[trigger] self@.indexes[j]).0,
                        self@.indexes[j].1,
                        sha@,
                        None::<(u64, u64)>,
                    ),
            decreases self.pack_indexes@.len() - i,
        {
            let index = &self.pack_indexes[i];
            assert(self@.indexes[i as int] == (index@, index.sorted()));
            match index.find_offset(sha) {
                Some((offset, len)) => {
                    let name = index.name();
                    assert(is_found_in(self@.indexes, sha@, i as int, name@, offset, len));
                    return Some((name, offset, len));
                },
                None => {},
            }
            i += 1;
        }
        None
    }

    fn unwind(&mut self, reader: &mut ObjectReader, object: GitRawObject) -> (action: ReadAction)
        requires
            old(self).wf(),
        ensures
            final(self).wf(),
            (final(self)@, final(reader)@, action@) == old(self)@.unwound(
                old(reader)@,
                object@,
            ),
    {
        let mut current = object;
        let ghost whole = self@.unwound(reader@, current@);
        loop
            invariant
                self.wf(),
                whole == self@.unwound(reader@, current@),
                whole == old(self)@.unwound(old(reader)@, object@),
            decreases reader.stack@.len(),
        {
            let ghost before = reader@;
            match reader.stack.pop() {
                None => {
                    return ReadAction::Return(current);
                },
                Some(purpose) => {
                    assert(before.stack.last() == purpose@);
                    assert(reader@.stack =~= before.stack.drop_last());
                    match purpose {
                        Purpose::Named(oid) => {
                            self.object_cache.insert(oid, current.clone());
                        },
                        Purpose::Delta(delta) => match pack::apply_git_delta(
                            current.data.as_slice(),
                            delta.as_slice(),
                        ) {
                            Ok(data) => {
                                current = GitRawObject { obj_type: current.obj_type, data };
                            },
                            Err(e) => {
                                return ReadAction::Fail(StorageError::Pack(e));
                            },
                        },
                    }
                },
            }
        }
    }

    /// Starts reading an object: gives it where it was read before, or says what is to be read.
    pub fn read_object_raw(&mut self, reader: &mut ObjectReader, oid: &str) -> (action: ReadAction)
        requires
            old(self).wf(),
        ensures
            final(self).wf(),
            is_begun(
                old(self)@,
                old(reader)@,
                oid@,
                (final(self)@, final(reader)@, action@),
            ),
    {
        let known: Option<GitRawObject> = match self.object_cache.get(oid) {
            Some(object) => Some(object.clone()),
            None => None,
        };
        match known {
            Some(object) => {
                return self.unwind(reader, object);
            },
            None => {},
        }
        let sha_bytes = match hash::hex_decode(oid) {
            Some(b) => b,
            None => {
                return ReadAction::Fail(StorageError::BadOid);
            },
        };
        if sha_bytes.len() != 20 {
            return ReadAction::Fail(StorageError::BadLength);
        }
        let sha = idx::read_sha(sha_bytes.as_slice(), 0);
        assert(sha@ =~= sha_bytes@);
        reader.push(Purpose::Named(oid.to_string()));
        match self.find(&sha) {
            Some((pack_name, offset, estimated_len)) => {
                reader.pack_name = pack_name.clone();
                reader.offset = offset;
                reader.asked = estimated_len;
                ReadAction::ReadPack { pack_name, offset, estimated_len }
            },
            None => {
                let chars = text::chars_of(oid);
                let len: usize = chars.len();
                assert(len == 40);
                let start = text::chars_range(chars.as_slice(), 0, 2);
                let end = text::chars_range(chars.as_slice(), 2, len);
                assert(start@ =~= oid@.take(2));
                assert(end@ =~= oid@.skip(2));
                let mut path = text::chars_of(self.prefix.as_str());
                text::push_str(&mut path, "objects/");
                text::push_str(&mut path, text::from_chars(start).as_str());
                text::push_str(&mut path, "/");
                text::push_str(&mut path, text::from_chars(end).as_str());
                ReadAction::ReadLoose(text::from_chars(path))
            },
        }
    }

    /// Takes the bytes of a packfile at an object's offset: gives the object, or what it is a
    /// delta against is read next. Where the bytes may end too soon, more of them are.
    pub fn read_pack_object(&mut self, reader: &mut ObjectReader, slice: &[u8]) -> (action:
        ReadAction)
        requires
            old(self).wf(),
        ensures
            final(self).wf(),
            is_pack_fed(
                old(self)@,
                old(reader)@,
                slice@,
                (final(self)@, final(reader)@, action@),
            ),
            pack::entry_alone(slice@, 0, old(reader)@.offset),
    {
        if slice.len() == 0 {
            return ReadAction::Fail(StorageError::EmptyRead);
        }
        match pack::read_entry(slice, 0, reader.offset) {
            Err(e) => {
                if e.is_cut() && slice.len() as u64 >= reader.asked && reader.asked
                    < 0x4000_0000_0000_0000 {
                    reader.asked = 2 * reader.asked + 4096;
                    return ReadAction::ReadPack {
                        pack_name: reader.pack_name.clone(),
                        offset: reader.offset,
                        estimated_len: reader.asked,
                    };
                }
                ReadAction::Fail(StorageError::Pack(e))
            },
            Ok((PackEntry::Base(object), _, _)) => self.unwind(reader, object),
            Ok((PackEntry::OfsDelta { base, delta }, size, _)) => {
                reader.push(Purpose::Delta(delta));
                reader.offset = base;
                reader.asked = size;
                ReadAction::ReadPack {
                    pack_name: reader.pack_name.clone(),
                    offset: base,
                    estimated_len: size,
                }
            },
            Ok((PackEntry::RefDelta { base_sha, delta }, _, _)) => {
                reader.push(Purpose::Delta(delta));
                self.read_object_raw(reader, base_sha.as_str())
            },
        }
    }

    /// Takes the file of an object that is in no packfile.
    pub fn read_loose_object(&mut self, reader: &mut ObjectReader, compressed: &[u8]) -> (action:
        ReadAction)
        requires
            old(self).wf(),
        ensures
            final(self).wf(),
            (final(self)@, final(reader)@, action@) == loose_fed(
                old(self)@,
                old(reader)@,
                compressed@,
            ),
    {
        match hash::inflate(compressed) {
            None => ReadAction::Fail(StorageError::LooseInflate),
            Some((data, _)) => match parse_loose(data.as_slice()) {
                Err(e) => ReadAction::Fail(e),
                Ok(object) => self.unwind(reader, object),
            },
        }
    }

    /// The files of a commit that is complete, in the order in which they are written.
    pub fn write_completed_commit(
        &self,
        commit_oid: &str,
        pack_sha: &str,
        pack_data: &[u8],
        idx_data: &[u8],
        branch: Option<&str>,
    ) -> (files: Vec<StoredFile>)
        ensures
            backend::file_views(files@) == commit_files(
                self@.prefix,
                commit_oid@,
                pack_sha@,
                pack_data@,
                idx_data@,
                crate::git::engine::maybe_str(branch),
            ),
    {
        let stem = concat(
            concat(self.prefix.as_str(), "objects/pack/pack-").as_str(),
            pack_sha,
        );
        let heads = concat(self.prefix.as_str(), "refs/heads/");
        let branch_ref = match branch {
            Some(b) => concat(heads.as_str(), b),
            None => concat(heads.as_str(), "master"),
        };
        let mut files: Vec<StoredFile> = Vec::new();
        files.push(
            StoredFile { name: concat(stem.as_str(), ".pack"), data: bytes::copy(pack_data) },
        );
        files.push(
            StoredFile { name: concat(stem.as_str(), ".idx"), data: bytes::copy(idx_data) },
        );
        files.push(
            StoredFile {
                name: concat(self.prefix.as_str(), "HEAD"),
                data: backend::commit_line_of(commit_oid),
            },
        );
        files.push(
            StoredFile { name: branch_ref, data: backend::commit_line_of(commit_oid) },
        );
        assert(backend::file_views(files@) =~= commit_files(
            self@.prefix,
            commit_oid@,
            pack_sha@,
            pack_data@,
            idx_data@,
            crate::git::engine::maybe_str(branch),
        ));
        files
    }
}

/// The packfiles whose indexes are known.
pub open spec fn known_packs(s: StorageView) -> Seq<Seq<char>> {
    s.indexes.map_values(|i: (IndexView, Seq<u64>)| i.0.pack_name)
}

fn is_among(names: &Vec<String>, name: &str) -> (r: bool)
    ensures
        r == crate::git::protocol::texts(names@).contains(name@),
{
    let ghost all = crate::git::protocol::texts(names@);
    let mut i: usize = 0;
    while i < names.len()
        invariant
            i <= names@.len(),
            all == crate::git::protocol::texts(names@),
            forall|j: int| 0 <= j < i ==> #[trigger] all[j] != name@,
        decreases names@.len() - i,
    {
        assert(all[i as int] == names@[i as int]@);
        if text::equal(names[i].as_str(), name) {
            return true;
        }
        i += 1;
    }
    false
}

/// Reads an object behind its header.
pub fn parse_loose(data: &[u8]) -> (r: Result<GitRawObject, StorageError>)
    ensures
        match r {
            Ok(object) => loose_object(data@) == Ok::<_, StorageError>(object@),
            Err(e) => loose_object(data@) == Err::<RawObject, _>(e),
        },
{
    let len: usize = data.len();
    let mut at: usize = 0;
    while at < len && data[at] != 0
        invariant
            at <= len == data@.len(),
            find_zero(data@, 0) == find_zero(data@, at as int),
        decreases len - at,
    {
        at += 1;
    }
    if at == len {
        return Err(StorageError::LooseHeader);
    }
    let head = bytes::copy_range(data, 0, at);
    assert(head@ =~= data@.take(at as int));
    let header = text::chars_of(text::from_utf8_lossy(head.as_slice()).as_str());
    let obj_type = if text::has_prefix(header.as_slice(), "commit ") {
        ObjectType::Commit
    } else if text::has_prefix(header.as_slice(), "tree ") {
        ObjectType::Tree
    } else if text::has_prefix(header.as_slice(), "blob ") {
        ObjectType::Blob
    } else if text::has_prefix(header.as_slice(), "tag ") {
        ObjectType::Tag
    } else {
        return Err(StorageError::LooseType);
    };
    let body = bytes::copy_range(data, at + 1, len);
    assert(body@ =~= data@.skip(at as int + 1));
    Ok(GitRawObject { obj_type, data: body })
}

// ---------------------------------------------------------------------------------------------
// What holds of objects

proof fn lemma_digits(n: nat)
    ensures
        forall|i: int|
            0 <= i < text::numeral(n, 10).len() ==> #[trigger] text::numeral(n, 10)[i] != '\0',
    decreases n,
{
    let d = (n % 10) as int;
    assert(text::digit(d) != '\0') by {
        assert(0 <= d < 10);
    }
    if n >= 10 {
        lemma_digits(n / 10);
        let front = text::numeral(n / 10, 10);
        assert(text::numeral(n, 10) =~= front.push(text::digit(d)));
    }
}

proof fn lemma_zero_found(data: Seq<u8>, from: int, at: int)
    requires
        0 <= from <= at < data.len(),
        data[at] == 0,
        forall|i: int| from <= i < at ==> #[trigger] data[i] != 0,
    ensures
        find_zero(data, from) == Some(at),
    decreases at - from,
{
    if from < at {
        lemma_zero_found(data, from + 1, at);
    }
}

/// An object is read back from its file: from the bytes that its name is the digest of.
pub proof fn lemma_loose_read(object: RawObject)
    requires
        object.obj_type.is_base(),
    ensures
        loose_object(pack::object_header(object.obj_type, object.data.len()) + object.data)
            == Ok::<_, StorageError>(object),
{
    let name = object.obj_type.name();
    let digits = text::numeral(object.data.len(), 10);
    let head = name + seq![' '] + digits;
    let nul = seq!['\0'];
    let raw = vstd::utf8::encode_utf8(head);
    let data = pack::object_header(object.obj_type, object.data.len()) + object.data;
    reveal_strlit("commit");
    reveal_strlit("tree");
    reveal_strlit("blob");
    reveal_strlit("tag");
    reveal_strlit("commit ");
    reveal_strlit("tree ");
    reveal_strlit("blob ");
    reveal_strlit("tag ");
    lemma_digits(object.data.len());
    assert forall|i: int| 0 <= i < head.len() implies #[trigger] head[i] != 0u8 as char by {
        if i > name.len() {
            assert(head[i] == digits[i - name.len() - 1]);
        }
    }
    text::lemma_encode_avoids(head, 0);
    text::lemma_encode_concat(head, nul);
    assert(vstd::utf8::is_ascii_chars(nul));
    vstd::utf8::is_ascii_chars_encode_utf8(nul);
    assert(vstd::utf8::encode_utf8(nul)[0] == 0) by {
        assert(nul[0] == '\0');
    }
    assert(data.take(raw.len() as int) =~= raw);
    assert(data.skip(raw.len() as int + 1) =~= object.data);
    lemma_zero_found(data, 0, raw.len() as int);
    vstd::utf8::encode_utf8_valid_utf8(head);
    vstd::utf8::encode_utf8_decode_utf8(head);
    assert(text::lossy(raw) == head);
    assert(head.take(name.len() as int + 1) =~= name + seq![' ']);
    let lead = match object.obj_type {
        ObjectType::Commit => "commit "@,
        ObjectType::Tree => "tree "@,
        ObjectType::Blob => "blob "@,
        _ => "tag "@,
    };
    assert(lead =~= name + seq![' ']);
    assert(text::starts_with(head, lead));
    assert(head[0] == name[0] && head[1] == name[1]);
    lemma_other_lead(head, "commit "@);
    lemma_other_lead(head, "tree "@);
    lemma_other_lead(head, "blob "@);
}

proof fn lemma_other_lead(s: Seq<char>, lead: Seq<char>)
    requires
        lead.len() > 1,
    ensures
        text::starts_with(s, lead) ==> s[0] == lead[0] && s[1] == lead[1],
{
    if text::starts_with(s, lead) {
        assert(s.take(lead.len() as int)[0] == s[0]);
        assert(s.take(lead.len() as int)[1] == s[1]);
    }
}

/// The text of a file that names a commit is the commit's name.
proof fn lemma_commit_text(commit_oid: Seq<char>)
    requires
        hash::is_lower_hex(commit_oid),
        commit_oid.len() == 40,
    ensures
        file_text(backend::commit_line(commit_oid)) == commit_oid,
        vstd::utf8::encode_utf8(commit_oid).len() == 40,
{
    reveal_strlit("\n");
    let line = commit_oid + "\n"@;
    vstd::utf8::encode_utf8_decode_utf8(line);
    vstd::utf8::encode_utf8_valid_utf8(line);
    assert(text::lossy(backend::commit_line(commit_oid)) == line);
    let white = |c: char| text::is_white(c);
    assert(hash::is_hex(commit_oid[0]) && hash::is_hex(commit_oid[39]));
    assert(line[0] == commit_oid[0]);
    assert(text::trimmed_start(line, white) == line);
    assert(line.drop_last() =~= commit_oid);
    assert(white(line.last()));
    assert(!white(commit_oid.last()));
    reveal_with_fuel(text::trimmed_end, 3);
    assert(text::trimmed_end(line, white) == commit_oid);
    assert(vstd::utf8::is_ascii_chars(commit_oid)) by {
        assert forall|i: int| 0 <= i < commit_oid.len() implies '\0' <= #[trigger] commit_oid[i]
            <= '\u{7f}' by {
            assert(hash::is_hex(commit_oid[i]));
        }
    }
    vstd::utf8::is_ascii_chars_encode_utf8(commit_oid);
}

/// Once a commit was published, it is what the head leads to, and what the branch leads to that
/// it was published on. The packfile and its index come before both.
pub proof fn lemma_published_resolved(
    prefix: Seq<char>,
    commit_oid: Seq<char>,
    pack_sha: Seq<char>,
    pack: Seq<u8>,
    idx: Seq<u8>,
    branch: Option<Seq<char>>,
)
    requires
        hash::is_lower_hex(commit_oid),
        commit_oid.len() == 40,
    ensures
        ({
            let files = commit_files(prefix, commit_oid, pack_sha, pack, idx, branch);
            let (head, head_path) = ref_started(prefix, None);
            &&& files.len() == 4
            &&& files[0].1 == pack
            &&& files[1].1 == idx
            &&& files[2].0 == head_path
            &&& is_cuttable(files[2].1)
            &&& ref_stepped(prefix, head, Some(files[2].1)).1 == (RefActionView::Resolved {
                commit: commit_oid,
                name: "HEAD"@,
            })
            &&& branch matches Some(b) ==> {
                let (started, path) = ref_started(prefix, branch);
                files[3].0 == path && ref_stepped(prefix, started, Some(files[3].1)).1
                    == (RefActionView::Resolved { commit: commit_oid, name: b })
            }
        }),
{
    lemma_commit_text(commit_oid);
    reveal_strlit("ref: ");
    assert(hash::is_hex(commit_oid[0]));
    assert(!text::starts_with(commit_oid, "ref: "@)) by {
        assert(commit_oid.take(5)[0] == commit_oid[0]);
        assert("ref: "@[0] == 'r');
    }
    let encoded = vstd::utf8::encode_utf8(commit_oid);
    assert(encoded.take(40) =~= encoded);
    vstd::utf8::encode_utf8_decode_utf8(commit_oid);
    vstd::utf8::encode_utf8_valid_utf8(commit_oid);
}

/// What a file of the repository holds.
pub open spec fn file_read(files: Map<Seq<char>, Seq<u8>>, path: Seq<char>) -> Option<Seq<u8>> {
    if files.contains_key(path) {
        Some(files[path])
    } else {
        None
    }
}

/// Where a search ends over the files of a repository, in so many steps at the most.
pub open spec fn searched(
    prefix: Seq<char>,
    files: Map<Seq<char>, Seq<u8>>,
    r: RefView,
    path: Seq<char>,
    steps: nat,
) -> RefActionView
    decreases steps,
{
    let (next, action) = ref_stepped(prefix, r, file_read(files, path));
    match action {
        RefActionView::Read(further) if steps > 0 => searched(
            prefix,
            files,
            next,
            further,
            (steps - 1) as nat,
        ),
        _ => action,
    }
}

/// What a file of a reference gives: the name of a commit, where it is as long as one.
pub open spec fn loose_ref(files: Map<Seq<char>, Seq<u8>>, path: Seq<char>) -> Option<Seq<char>> {
    match file_read(files, path) {
        Some(data) if is_commit_long(file_text(data)) => Some(file_text(data)),
        _ => None,
    }
}

/// A name that is no branch's but a tag's stands for the tag's commit, whether the tag has a file
/// of its own or is among the packed references.
pub proof fn lemma_tag_searched(
    prefix: Seq<char>,
    files: Map<Seq<char>, Seq<u8>>,
    name: Seq<char>,
    steps: nat,
)
    requires
        steps >= 3,
        loose_ref(files, prefix + "refs/heads/"@ + name) is None,
        file_read(files, prefix + "packed-refs"@) matches Some(packed) ==> packed_ref(
            packed,
            "refs/heads/"@ + name,
        ) is None,
    ensures
        ({
            let (started, path) = ref_started(prefix, Some(name));
            let end = searched(prefix, files, started, path, steps);
            let packed = file_read(files, prefix + "packed-refs"@);
            match loose_ref(files, prefix + "refs/tags/"@ + name) {
                Some(commit) => end == (RefActionView::Resolved { commit, name }),
                None => packed matches Some(data) ==> (packed_tag(data, "refs/tags/"@ + name)
                    matches Some(commit) ==> end == (RefActionView::Resolved { commit, name })),
            }
        }),
{
    reveal_with_fuel(searched, 4);
}

} // verus!
