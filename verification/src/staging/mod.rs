//! Edits that are not committed yet: the contents of files that were written, what was removed,
//! and which paths changed.

use vstd::prelude::*;

use crate::bytes;
use crate::git::commit_message;
use crate::maps;
use crate::maps::{IdSet, NumMap, TextMap};
use crate::text;

verus! {

/// Why an edit was refused.
#[derive(Debug, Clone, Copy, PartialEq, Eq, Structural)]
pub enum StagingError {
    /// The file would be larger than files can be.
    TooLarge,
}

/// The edits.
#[verifier::ext_equal]
pub struct StagingView {
    /// The contents of the files that were written.
    pub staged: Map<u64, Seq<u8>>,
    /// Their nodes, in the order in which they were first written.
    pub staged_ids: Seq<u64>,
    /// The nodes that were removed.
    pub deleted: Seq<u64>,
    /// The directories that something was moved out of, or into.
    pub touched: Seq<u64>,
    /// The paths that changed.
    pub changed: Seq<Seq<char>>,
}

/// Bytes with others written over them from `offset` on. What lies between the end of the bytes
/// and the offset is filled with zeros; writing nothing changes nothing.
pub open spec fn written(base: Seq<u8>, offset: int, data: Seq<u8>) -> Seq<u8> {
    if data.len() == 0 {
        base
    } else {
        let end = offset + data.len();
        Seq::new(
            if end > base.len() {
                end as nat
            } else {
                base.len()
            },
            |i: int|
                if offset <= i < end {
                    data[i - offset]
                } else if i < base.len() {
                    base[i]
                } else {
                    0u8
                },
        )
    }
}

/// The first `n` bytes, filled with zeros where there are not so many.
pub open spec fn resized(base: Seq<u8>, n: nat) -> Seq<u8> {
    Seq::new(
        n,
        |i: int|
            if i < base.len() {
                base[i]
            } else {
                0u8
            },
    )
}

/// The bytes from `offset` on, `count` of them or as many as there are, and whether they reach
/// the end.
pub open spec fn read_from(data: Seq<u8>, offset: int, count: int) -> (Seq<u8>, bool) {
    if offset >= data.len() {
        (Seq::empty(), true)
    } else if offset + count < data.len() {
        (data.subrange(offset, offset + count), false)
    } else {
        (data.skip(offset), true)
    }
}

impl StagingView {
    /// No edits.
    pub open spec fn empty() -> StagingView {
        StagingView {
            staged: Map::empty(),
            staged_ids: Seq::empty(),
            deleted: Seq::empty(),
            touched: Seq::empty(),
            changed: Seq::empty(),
        }
    }

    /// With the contents of a file.
    pub open spec fn with(self, id: u64, data: Seq<u8>) -> StagingView {
        StagingView {
            staged: self.staged.insert(id, data),
            staged_ids: maps::added(self.staged_ids, id),
            ..self
        }
    }

    /// What a file holds before an edit: what was written, or else what the repository has.
    pub open spec fn base(self, id: u64, initial: Option<Seq<u8>>) -> Seq<u8> {
        if self.staged.contains_key(id) {
            self.staged[id]
        } else {
            match initial {
                Some(data) => data,
                None => Seq::empty(),
            }
        }
    }

    /// With a node that was removed.
    pub open spec fn with_deleted(self, id: u64) -> StagingView {
        StagingView { deleted: maps::added(self.deleted, id), ..self }
    }

    /// With a directory that something was moved out of, or into.
    pub open spec fn with_touched(self, dir: u64) -> StagingView {
        StagingView { touched: maps::added(self.touched, dir), ..self }
    }

    /// With a path that changed.
    pub open spec fn with_changed(self, path: Seq<char>) -> StagingView {
        let clean = commit_message::clean_path(path);
        if clean.len() == 0 || self.changed.contains(clean) {
            self
        } else {
            StagingView { changed: self.changed.push(clean), ..self }
        }
    }

    /// Whether a write at this offset is within what files can hold.
    pub open spec fn can_write(offset: u64, len: nat) -> bool {
        offset <= isize::MAX && (len > 0 ==> offset + len <= isize::MAX)
    }

    /// Whether the nodes that were written are those with contents, and no path is there twice.
    pub open spec fn wf(self) -> bool {
        &&& self.staged_ids.no_duplicates()
        &&& self.deleted.no_duplicates()
        &&& self.touched.no_duplicates()
        &&& self.changed.no_duplicates()
        &&& forall|id: u64| #[trigger]
            self.staged_ids.contains(id) <==> self.staged.contains_key(id)
    }
}

/// The bytes of borrowed contents.
pub open spec fn maybe(data: Option<&[u8]>) -> Option<Seq<u8>> {
    match data {
        Some(d) => Some(d@),
        None => None,
    }
}

pub struct StagingStore {
    contents: NumMap<Vec<u8>>,
    staged: IdSet,
    deleted: IdSet,
    touched: IdSet,
    changed_paths: TextMap<bool>,
}

impl View for StagingStore {
    type V = StagingView;

    closed spec fn view(&self) -> StagingView {
        StagingView {
            staged: self.contents@,
            staged_ids: self.staged@,
            deleted: self.deleted@,
            touched: self.touched@,
            changed: self.changed_paths.keys(),
        }
    }
}

impl StagingStore {
    pub closed spec fn wf(&self) -> bool {
        &&& self.staged.wf()
        &&& self.deleted.wf()
        &&& self.touched.wf()
        &&& self.changed_paths.wf()
        &&& forall|id: u64| #[trigger]
            self.staged@.contains(id) <==> self.contents@.contains_key(id)
    }

    /// What holds of every set of edits holds of this one.
    pub proof fn lemma_wf(&self)
        requires
            self.wf(),
        ensures
            self@.wf(),
    {
        self.staged.lemma_wf();
        self.deleted.lemma_wf();
        self.touched.lemma_wf();
        self.changed_paths.lemma_keys();
    }

    pub fn new() -> (store: Self)
        ensures
            store.wf(),
            store@ == StagingView::empty(),
    {
        StagingStore {
            contents: NumMap::new(),
            staged: IdSet::new(),
            deleted: IdSet::new(),
            touched: IdSet::new(),
            changed_paths: TextMap::new(),
        }
    }

    /// The name of the file that holds the contents of a node.
    pub fn file_name(node_id: u64) -> (name: String)
        ensures
            name@ == "node_"@ + text::numeral(node_id as nat, 10) + ".bin"@,
    {
        let mut name = text::chars_of("node_");
        text::push_numeral(&mut name, node_id, 10);
        text::push_str(&mut name, ".bin");
        text::from_chars(name)
    }

    pub fn is_staged(&self, node_id: u64) -> (r: bool)
        ensures
            r == self@.staged.contains_key(node_id),
    {
        self.contents.contains_key(node_id)
    }

    pub fn is_deleted(&self, node_id: u64) -> (r: bool)
        requires
            self.wf(),
        ensures
            r == self@.deleted.contains(node_id),
    {
        self.deleted.contains(node_id)
    }

    pub fn list_deleted_nodes(&self) -> (ids: Vec<u64>)
        ensures
            ids@ == self@.deleted,
    {
        self.deleted.to_vec()
    }

    pub fn mark_deleted(&mut self, node_id: u64)
        requires
            old(self).wf(),
        ensures
            final(self).wf(),
            final(self)@ == old(self)@.with_deleted(node_id),
    {
        self.deleted.insert(node_id);
    }

    pub fn list_touched_dirs(&self) -> (ids: Vec<u64>)
        ensures
            ids@ == self@.touched,
    {
        self.touched.to_vec()
    }

    /// Notes a directory that something was moved out of, or into.
    pub fn mark_touched(&mut self, dir_id: u64)
        requires
            old(self).wf(),
        ensures
            final(self).wf(),
            final(self)@ == old(self)@.with_touched(dir_id),
    {
        self.touched.insert(dir_id);
    }

    pub fn get_size(&self, node_id: u64) -> (r: Option<u64>)
        ensures
            r == (if self@.staged.contains_key(node_id) {
                Some(self@.staged[node_id].len() as u64)
            } else {
                None
            }),
    {
        match self.contents.get(node_id) {
            Some(data) => Some(data.len() as u64),
            None => None,
        }
    }

    fn put(&mut self, node_id: u64, data: Vec<u8>)
        requires
            old(self).wf(),
        ensures
            final(self).wf(),
            final(self)@ == old(self)@.with(node_id, data@),
    {
        let ghost ids = self.staged@;
        self.contents.insert(node_id, data);
        self.staged.insert(node_id);
        proof {
            maps::lemma_added(ids, node_id);
        }
    }

    /// The contents that an edit starts from, taken out where they were written.
    fn take_base(&mut self, node_id: u64, initial_data: Option<&[u8]>) -> (data: Vec<u8>)
        ensures
            final(self).staged == old(self).staged,
            final(self).deleted == old(self).deleted,
            final(self).touched == old(self).touched,
            final(self).changed_paths == old(self).changed_paths,
            final(self).contents@ == old(self).contents@.remove(node_id),
            data@ == old(self)@.base(node_id, maybe(initial_data)),
    {
        match self.contents.remove(node_id) {
            Some(data) => data,
            None => match initial_data {
                Some(data) => bytes::copy(data),
                None => Vec::new(),
            },
        }
    }

    /// Puts contents back behind `take_base`.
    fn put_back(&mut self, node_id: u64, data: Vec<u8>, Ghost(before): Ghost<StagingStore>)
        requires
            before.wf(),
            old(self).staged == before.staged,
            old(self).deleted == before.deleted,
            old(self).touched == before.touched,
            old(self).changed_paths == before.changed_paths,
            old(self).contents@ == before.contents@.remove(node_id),
        ensures
            final(self).wf(),
            final(self)@ == before@.with(node_id, data@),
    {
        let ghost ids = self.staged@;
        let ghost d = data@;
        self.contents.insert(node_id, data);
        self.staged.insert(node_id);
        proof {
            assert(self.contents@ =~= before.contents@.insert(node_id, d));
            maps::lemma_added(ids, node_id);
        }
    }

    /// Starts a file that was created, with no bytes.
    pub fn create_file(&mut self, node_id: u64)
        requires
            old(self).wf(),
        ensures
            final(self).wf(),
            final(self)@ == old(self)@.with(node_id, Seq::empty()),
    {
        self.put(node_id, Vec::new());
    }

    /// Writes bytes to a file from an offset on, and gives its new size. A file that was not
    /// written before starts as the repository has it.
    pub fn write_at(
        &mut self,
        node_id: u64,
        offset: u64,
        data: &[u8],
        initial_data: Option<&[u8]>,
    ) -> (r: Result<u64, StagingError>)
        requires
            old(self).wf(),
        ensures
            final(self).wf(),
            match r {
                Ok(size) => {
                    let now = written(
                        old(self)@.base(node_id, maybe(initial_data)),
                        offset as int,
                        data@,
                    );
                    &&& StagingView::can_write(offset, data@.len())
                    &&& final(self)@ == old(self)@.with(node_id, now)
                    &&& size == now.len()
                },
                Err(e) => e == StagingError::TooLarge && !StagingView::can_write(
                    offset,
                    data@.len(),
                ) && final(self)@ == old(self)@,
            },
    {
        let limit: u64 = isize::MAX as u64;
        if offset > limit || (data.len() > 0 && data.len() as u64 > limit - offset) {
            return Err(StagingError::TooLarge);
        }
        let ghost before = *self;
        let mut now = self.take_base(node_id, initial_data);
        let ghost base = now@;
        if data.len() > 0 {
            let from: usize = offset as usize;
            let end: usize = from + data.len();
            if now.len() < end {
                now.resize(end, 0);
            }
            let ghost grown = now@;
            let mut i: usize = 0;
            while i < data.len()
                invariant
                    i <= data@.len(),
                    end == from + data@.len() <= now@.len(),
                    now@.len() == grown.len(),
                    forall|k: int|
                        0 <= k < now@.len() ==> #[trigger] now@[k] == (if from <= k < from + i {
                            data@[k - from]
                        } else {
                            grown[k]
                        }),
                decreases data@.len() - i,
            {
                now.set(from + i, data[i]);
                i += 1;
            }
            assert(now@ =~= written(base, offset as int, data@)) by {
                assert forall|k: int| 0 <= k < grown.len() && !(from <= k < end) implies grown[k]
                    == (if k < base.len() {
                    base[k]
                } else {
                    0u8
                }) by {
                    if k < base.len() {
                        assert(grown.subrange(0, base.len() as int)[k] == base[k]);
                    }
                }
            }
        }
        let size: u64 = now.len() as u64;
        self.put_back(node_id, now, Ghost(before));
        Ok(size)
    }

    /// Cuts a file off at a size, or fills it up with zeros.
    pub fn truncate(&mut self, node_id: u64, new_size: u64, initial_data: Option<&[u8]>) -> (r:
        Result<(), StagingError>)
        requires
            old(self).wf(),
        ensures
            final(self).wf(),
            match r {
                Ok(_) => new_size <= isize::MAX && final(self)@ == old(self)@.with(
                    node_id,
                    resized(old(self)@.base(node_id, maybe(initial_data)), new_size as nat),
                ),
                Err(e) => e == StagingError::TooLarge && new_size > isize::MAX && final(self)@
                    == old(self)@,
            },
    {
        if new_size > isize::MAX as u64 {
            return Err(StagingError::TooLarge);
        }
        let ghost before = *self;
        let mut now = self.take_base(node_id, initial_data);
        let ghost base = now@;
        now.resize(new_size as usize, 0);
        assert(now@ =~= resized(base, new_size as nat)) by {
            if new_size > base.len() {
                assert forall|k: int| 0 <= k < base.len() implies now@[k] == base[k] by {
                    assert(now@.subrange(0, base.len() as int)[k] == base[k]);
                }
            }
        }
        self.put_back(node_id, now, Ghost(before));
        Ok(())
    }

    /// Reads from a file that was written, and says whether that reaches its end.
    pub fn read_at(&self, node_id: u64, offset: u64, count: u32) -> (r: Option<(Vec<u8>, bool)>)
        ensures
            match r {
                Some((data, eof)) => self@.staged.contains_key(node_id) && (data@, eof)
                    == read_from(self@.staged[node_id], offset as int, count as int),
                None => !self@.staged.contains_key(node_id),
            },
    {
        match self.contents.get(node_id) {
            None => None,
            Some(data) => Some(read_slice(data.as_slice(), offset, count)),
        }
    }

    /// The whole contents of a file that was written.
    pub fn get_staged_content(&self, node_id: u64) -> (r: Option<Vec<u8>>)
        ensures
            match r {
                Some(data) => self@.staged.contains_key(node_id) && data@ == self@.staged[node_id],
                None => !self@.staged.contains_key(node_id),
            },
    {
        match self.contents.get(node_id) {
            Some(data) => Some(bytes::copy(data.as_slice())),
            None => None,
        }
    }

    pub fn list_staged_nodes(&self) -> (ids: Vec<u64>)
        ensures
            ids@ == self@.staged_ids,
    {
        self.staged.to_vec()
    }

    /// Records a path that was changed, created or removed.
    pub fn record_changed_path(&mut self, path: &str)
        requires
            old(self).wf(),
        ensures
            final(self).wf(),
            final(self)@ == old(self)@.with_changed(path@),
    {
        let chars = text::chars_of(path);
        let clean = text::trim_slashes(&text::trim(&chars));
        proof {
            self.changed_paths.lemma_keys();
        }
        if clean.len() > 0 {
            self.changed_paths.insert(text::from_chars(clean), true);
        }
    }

    /// All paths that were changed.
    pub fn list_changed_paths(&self) -> (paths: Vec<String>)
        requires
            self.wf(),
        ensures
            commit_message::path_views(paths@) == self@.changed,
    {
        let mut paths: Vec<String> = Vec::new();
        let mut i: usize = 0;
        while i < self.changed_paths.len()
            invariant
                i <= self.changed_paths.keys().len(),
                self.changed_paths.wf(),
                paths@.len() == i,
                forall|j: int|
                    0 <= j < i ==> (#[trigger] paths@[j])@ == self.changed_paths.keys()[j],
            decreases self.changed_paths.keys().len() - i,
        {
            paths.push(self.changed_paths.key_at(i).clone());
            i += 1;
        }
        assert(commit_message::path_views(paths@) =~= self@.changed);
        paths
    }

    /// Whether there are any edits.
    pub fn has_modifications(&self) -> (r: bool)
        ensures
            r == (self@.staged_ids.len() > 0 || self@.deleted.len() > 0 || self@.changed.len() > 0),
    {
        self.staged.len() > 0 || self.deleted.len() > 0 || self.changed_paths.len() > 0
    }

    /// Forgets which paths changed, and keeps the edits.
    pub fn forget_changed_paths(&mut self)
        requires
            old(self).wf(),
        ensures
            final(self).wf(),
            final(self)@ == (StagingView { changed: Seq::empty(), ..old(self)@ }),
    {
        self.changed_paths = TextMap::new();
    }

    /// Forgets all edits.
    pub fn reset(&mut self)
        ensures
            final(self).wf(),
            final(self)@ == StagingView::empty(),
    {
        *self = StagingStore::new();
    }
}

/// Reads a part of contents, and says whether it reaches their end.
pub fn read_slice(data: &[u8], offset: u64, count: u32) -> (r: (Vec<u8>, bool))
    ensures
        (r.0@, r.1) == read_from(data@, offset as int, count as int),
{
    let len: u64 = data.len() as u64;
    if offset >= len {
        return (Vec::new(), true);
    }
    let from: usize = offset as usize;
    if (count as u64) < len - offset {
        (bytes::copy_range(data, from, from + count as usize), false)
    } else {
        let rest = bytes::copy_range(data, from, data.len());
        assert(rest@ =~= data@.skip(offset as int));
        (rest, true)
    }
}

// ---------------------------------------------------------------------------------------------
// What holds of edits

/// What was written is read, where it was written.
pub proof fn lemma_read_after_write(base: Seq<u8>, offset: int, data: Seq<u8>)
    requires
        0 <= offset,
        data.len() > 0,
    ensures
        read_from(written(base, offset, data), offset, data.len() as int).0 == data,
{
    let now = written(base, offset, data);
    let got = read_from(now, offset, data.len() as int).0;
    assert(got.len() == data.len());
    assert(got =~= data);
}

/// A write changes nothing before it or behind it: what was there stays, and what was not there
/// is zero.
pub proof fn lemma_write_elsewhere(base: Seq<u8>, offset: int, data: Seq<u8>, i: int)
    requires
        0 <= offset,
        0 <= i < written(base, offset, data).len(),
        i < offset || offset + data.len() <= i,
    ensures
        written(base, offset, data)[i] == (if i < base.len() {
            base[i]
        } else {
            0u8
        }),
{
}

/// A file that is cut off and filled up again has zeros where it was cut off.
pub proof fn lemma_truncate_twice(base: Seq<u8>, small: nat, large: nat, i: int)
    requires
        small <= large,
        small <= base.len(),
        0 <= i < large,
    ensures
        resized(resized(base, small), large)[i] == (if i < small {
            base[i]
        } else {
            0u8
        }),
{
}

/// An edit of one file leaves all others as they were.
pub proof fn lemma_edit_elsewhere(s: StagingView, id: u64, data: Seq<u8>, other: u64)
    requires
        id != other,
    ensures
        s.with(id, data).staged.contains_key(other) == s.staged.contains_key(other),
        s.staged.contains_key(other) ==> s.with(id, data).staged[other] == s.staged[other],
        s.with(id, data).staged[id] == data,
{
}

/// Whether bytes and a flag are what a read of `count` bytes from `offset` on gives: as many of
/// the contents from there on as were asked for or as there are, and whether they reach the end.
pub open spec fn is_part(
    contents: Seq<u8>,
    offset: int,
    count: int,
    data: Seq<u8>,
    eof: bool,
) -> bool {
    &&& data.len() <= count
    &&& data.len() < count ==> eof
    &&& forall|k: int|
        0 <= k < data.len() ==> offset + k < contents.len() && #[trigger] data[k]
            == contents[offset + k]
    &&& eof <==> offset + data.len() >= contents.len()
}

/// A read gives the bytes from its offset on, as many as were asked for or all that are left, and
/// says that it reaches the end exactly where it does.
pub proof fn lemma_read(contents: Seq<u8>, offset: int, count: int)
    requires
        0 <= offset,
        0 <= count,
    ensures
        is_part(
            contents,
            offset,
            count,
            read_from(contents, offset, count).0,
            read_from(contents, offset, count).1,
        ),
        offset <= contents.len() ==> read_from(contents, offset, count).0.len() == (if count
            < contents.len() - offset {
            count
        } else {
            contents.len() - offset
        }),
        offset > contents.len() ==> read_from(contents, offset, count).0.len() == 0,
{
}

/// Contents that were read piece by piece are the contents.
pub proof fn lemma_read_on(contents: Seq<u8>, offset: int, a: int, b: int)
    requires
        0 <= offset,
        0 <= a,
        0 <= b,
        offset + a <= contents.len(),
    ensures
        read_from(contents, offset, a).0 + read_from(contents, offset + a, b).0 == read_from(
            contents,
            offset,
            a + b,
        ).0,
{
    assert(read_from(contents, offset, a).0 + read_from(contents, offset + a, b).0 =~= read_from(
        contents,
        offset,
        a + b,
    ).0);
}

/// A write puts its bytes where it says, keeps all others, fills what lies between with zeros, and
/// makes the file no longer than it has to.
pub proof fn lemma_written(base: Seq<u8>, offset: int, data: Seq<u8>, i: int)
    requires
        0 <= offset,
        data.len() > 0,
    ensures
        written(base, offset, data).len() == (if offset + data.len() > base.len() {
            offset + data.len()
        } else {
            base.len() as int
        }),
        0 <= i < data.len() ==> written(base, offset, data)[offset + i] == data[i],
        0 <= i < base.len() && (i < offset || i >= offset + data.len()) ==> written(
            base,
            offset,
            data,
        )[i] == base[i],
        base.len() <= i < offset ==> written(base, offset, data)[i] == 0,
        written(base, offset, Seq::empty()) == base,
{
}

/// Cutting a file off keeps what stands before, and making it longer puts zeros behind.
pub proof fn lemma_resized(base: Seq<u8>, n: nat, i: int)
    ensures
        resized(base, n).len() == n,
        0 <= i < n && i < base.len() ==> resized(base, n)[i] == base[i],
        base.len() <= i < n ==> resized(base, n)[i] == 0,
{
}

/// A later write takes the place of an earlier one of the same extent, and two writes side by side
/// are one.
pub proof fn lemma_write_twice(base: Seq<u8>, offset: int, a: Seq<u8>, b: Seq<u8>)
    requires
        0 <= offset,
        a.len() > 0,
        b.len() > 0,
    ensures
        a.len() == b.len() ==> written(written(base, offset, a), offset, b) == written(
            base,
            offset,
            b,
        ),
        written(written(base, offset, a), offset + a.len(), b) == written(base, offset, a + b),
{
    if a.len() == b.len() {
        assert(written(written(base, offset, a), offset, b) =~= written(base, offset, b));
    }
    assert(written(written(base, offset, a), offset + a.len(), b) =~= written(
        base,
        offset,
        a + b,
    ));
}

} // verus!
