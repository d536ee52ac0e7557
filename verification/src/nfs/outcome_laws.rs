//! When an edit over NFS succeeds, and what is noted of it.

use vstd::prelude::*;

use crate::git::commit_message;
use crate::git::tree::TreeEntryMode;
use crate::nfs::fs::{FsView, NfsStatus, ReadView};
use crate::staging::StagingView;
use crate::wal::proto::PayloadView;

verus! {

/// Whether a path is among those that changed; the path of nothing never is.
pub open spec fn is_noted(s: StagingView, path: Seq<char>) -> bool {
    let clean = commit_message::clean_path(path);
    clean.len() > 0 ==> s.changed.contains(clean)
}

/// Whether an edit was noted: when it was made, and that it is in no commit yet.
pub open spec fn is_edited(f: FsView, now: u64) -> bool {
    f.uncommitted && f.last_mutation == now
}

/// Whether nothing of the edits changed.
pub open spec fn is_unedited(a: FsView, b: FsView) -> bool {
    &&& b.staging == a.staging
    &&& b.uncommitted == a.uncommitted
    &&& b.last_mutation == a.last_mutation
}

/// A path that changed is among those that did, and those before it stay, in their order.
pub proof fn lemma_noted(s: StagingView, path: Seq<char>)
    ensures
        ({
            let next = s.with_changed(path);
            let clean = commit_message::clean_path(path);
            &&& is_noted(next, path)
            &&& next.changed.len() >= s.changed.len()
            &&& next.changed.take(s.changed.len() as int) == s.changed
            &&& forall|p: Seq<char>| #[trigger]
                next.changed.contains(p) ==> s.changed.contains(p) || p == clean
            &&& next == (StagingView { changed: next.changed, ..s })
        }),
{
    let next = s.with_changed(path);
    let clean = commit_message::clean_path(path);
    assert(next.changed.take(s.changed.len() as int) =~= s.changed);
    if clean.len() > 0 && !s.changed.contains(clean) {
        assert(next.changed[s.changed.len() as int] == clean);
        assert forall|p: Seq<char>| #[trigger] next.changed.contains(p) implies s.changed.contains(p)
            || p == clean by {
            let i = choose|i: int| 0 <= i < next.changed.len() && next.changed[i] == p;
            if i < s.changed.len() {
                assert(s.changed[i] == p);
            }
        }
    }
}

/// What was removed is among the nodes that were, with those before it; what was written has its
/// contents, and every other file its own; directories that something was moved out of or into are
/// remembered.
pub proof fn lemma_staged(s: StagingView, id: u64, data: Seq<u8>, other: u64)
    ensures
        s.with_deleted(id).deleted.contains(other) <==> s.deleted.contains(other) || other == id,
        s.with_deleted(id).staged == s.staged,
        s.with_touched(id).touched.contains(other) <==> s.touched.contains(other) || other == id,
        s.with_touched(id).staged == s.staged,
        s.with(id, data).staged.contains_key(id),
        s.with(id, data).staged[id] == data,
        s.with(id, data).staged_ids.contains(other) <==> s.staged_ids.contains(other) || other
            == id,
        other != id ==> (s.with(id, data).staged.contains_key(other) <==> s.staged.contains_key(
            other,
        )) && s.with(id, data).staged[other] == s.staged[other],
        s.with(id, data).deleted == s.deleted,
{
    crate::vfs::inode::lemma_pushed(s.deleted, id);
    crate::vfs::inode::lemma_pushed(s.touched, id);
    crate::vfs::inode::lemma_pushed(s.staged_ids, id);
}

/// A file is created exactly where one can be in the directory; it is a regular one, it is empty,
/// and its path is noted. Where it cannot be, nothing is.
pub proof fn lemma_created(f: FsView, dir: u64, name: Seq<char>, now: u64)
    ensures
        ({
            let (next, r) = f.created(dir, name, now);
            match f.vfs.created(dir, name, TreeEntryMode::RegularFile) {
                (vfs, Ok(id)) => {
                    &&& r == Ok::<_, NfsStatus>((id, vfs.path_in(dir, name)))
                    &&& next.vfs == vfs
                    &&& next.staging.staged.contains_key(id)
                    &&& next.staging.staged[id].len() == 0
                    &&& is_noted(next.staging, vfs.path_in(dir, name))
                    &&& is_edited(next, now)
                },
                (vfs, Err(_)) => r == Err::<(u64, Seq<char>), _>(NfsStatus::Io) && is_unedited(
                    f,
                    next,
                ),
            }
        }),
{
    match f.vfs.created(dir, name, TreeEntryMode::RegularFile) {
        (vfs, Ok(id)) => {
            lemma_noted(f.staging.with(id, Seq::empty()), vfs.path_in(dir, name));
        },
        _ => {},
    }
}

/// A directory is created exactly where one can be in the directory, and its path is noted.
pub proof fn lemma_made_dir(f: FsView, dir: u64, name: Seq<char>, now: u64)
    ensures
        ({
            let (next, r) = f.made_dir(dir, name, now);
            match f.vfs.made_dir(dir, name) {
                (vfs, Ok(id)) => {
                    &&& r == Ok::<_, NfsStatus>((id, vfs.path_in(dir, name)))
                    &&& next.vfs == vfs
                    &&& is_noted(next.staging, vfs.path_in(dir, name))
                    &&& is_edited(next, now)
                },
                (vfs, Err(_)) => r == Err::<(u64, Seq<char>), _>(NfsStatus::Io) && is_unedited(
                    f,
                    next,
                ),
            }
        }),
{
    match f.vfs.made_dir(dir, name) {
        (vfs, Ok(id)) => {
            lemma_noted(f.staging, vfs.path_in(dir, name));
        },
        _ => {},
    }
}

/// What is removed is among the nodes that were, and its path is noted; where there is no such
/// child, the answer is that there is none, and nothing is noted.
pub proof fn lemma_removed(f: FsView, dir: u64, name: Seq<char>, now: u64)
    ensures
        ({
            let (next, r) = f.removed(dir, name, now);
            match f.vfs.removed(dir, name) {
                (vfs, Ok(id)) => {
                    &&& r == Ok::<_, NfsStatus>(vfs.path_in(dir, name))
                    &&& next.vfs == vfs
                    &&& next.staging.deleted.contains(id)
                    &&& is_noted(next.staging, vfs.path_in(dir, name))
                    &&& is_edited(next, now)
                },
                (vfs, Err(_)) => r == Err::<Seq<char>, _>(NfsStatus::NoEnt) && is_unedited(f, next),
            }
        }),
{
    match f.vfs.removed(dir, name) {
        (vfs, Ok(id)) => {
            lemma_staged(f.staging, id, Seq::empty(), id);
            lemma_noted(f.staging.with_deleted(id), vfs.path_in(dir, name));
        },
        _ => {},
    }
}

/// Of what is renamed, both paths are noted as they were before, and both directories; where it
/// cannot be renamed, nothing is.
pub proof fn lemma_renamed(
    f: FsView,
    from_dir: u64,
    from_name: Seq<char>,
    to_dir: u64,
    to_name: Seq<char>,
    now: u64,
)
    ensures
        ({
            let (next, r) = f.renamed(from_dir, from_name, to_dir, to_name, now);
            let from = f.vfs.path_in(from_dir, from_name);
            let to = f.vfs.path_in(to_dir, to_name);
            match f.vfs.renamed(from_dir, from_name, to_dir, to_name) {
                (vfs, Ok(_)) => {
                    &&& r == Ok::<_, NfsStatus>((from, to))
                    &&& next.vfs == vfs
                    &&& next.staging.touched.contains(from_dir)
                    &&& next.staging.touched.contains(to_dir)
                    &&& is_noted(next.staging, from)
                    &&& is_noted(next.staging, to)
                    &&& is_edited(next, now)
                },
                (vfs, Err(_)) => r == Err::<(Seq<char>, Seq<char>), _>(NfsStatus::Io)
                    && is_unedited(f, next),
            }
        }),
{
    let from = f.vfs.path_in(from_dir, from_name);
    let to = f.vfs.path_in(to_dir, to_name);
    let none = Seq::<u8>::empty();
    let once = f.staging.with_touched(from_dir);
    let twice = once.with_touched(to_dir);
    lemma_staged(f.staging, from_dir, none, from_dir);
    lemma_staged(once, to_dir, none, from_dir);
    lemma_staged(once, to_dir, none, to_dir);
    lemma_noted(twice, from);
    lemma_noted(twice.with_changed(from), to);
    let a = commit_message::clean_path(from);
    let first = twice.with_changed(from).changed;
    let second = twice.with_changed(from).with_changed(to).changed;
    if a.len() > 0 {
        let i = choose|i: int| 0 <= i < first.len() && first[i] == a;
        assert(second.take(first.len() as int)[i] == second[i]);
        assert(second[i] == a);
    }
}

/// A file can be written to that is there; a directory cannot, nor what is not there. An edit
/// starts from the blob, unless the file was edited before or has none.
pub proof fn lemma_write_asked(f: FsView, id: u64)
    ensures
        ({
            let there = f.vfs.has(id) && !f.vfs.node(id).is_deleted && !f.staging.deleted.contains(
                id,
            );
            let node = f.vfs.node(id);
            &&& !there ==> f.write_asked(id) == Err::<Option<Seq<char>>, _>(NfsStatus::NoEnt)
            &&& there && node.is_dir ==> f.write_asked(id) == Err::<Option<Seq<char>>, _>(
                NfsStatus::IsDir,
            )
            &&& there && !node.is_dir && !f.staging.staged.contains_key(id) && node.oid.len() > 0
                ==> f.write_asked(id) == Ok::<_, NfsStatus>(Some(node.oid))
            &&& there && !node.is_dir && (f.staging.staged.contains_key(id) || node.oid.len() == 0)
                ==> f.write_asked(id) == Ok::<_, NfsStatus>(None::<Seq<char>>)
        }),
{
}

/// A write succeeds wherever its end is within what a file can hold, and is then noted, under the
/// path of the file; so is what is to be logged of it.
pub proof fn lemma_written(
    f: FsView,
    id: u64,
    offset: u64,
    data: Seq<u8>,
    base: Option<Seq<u8>>,
    now: u64,
    path: Seq<char>,
)
    requires
        f.vfs.has(id),
    ensures
        ({
            let (next, r) = f.written(id, offset, data, base, now);
            let fits = offset <= isize::MAX && (data.len() == 0 || offset + data.len()
                <= isize::MAX);
            &&& !fits ==> r is Err && r->Err_0 == NfsStatus::Io && next == f
            &&& fits ==> r is Ok
            &&& fits && next.vfs.path_of(id) == Ok::<_, crate::vfs::inode::VfsError>(path) ==> {
                let (_, log) = r->Ok_0;
                &&& is_noted(next.staging, path)
                &&& is_edited(next, now)
                &&& log == Some(PayloadView::Write { path, offset, data })
            }
        }),
{
    if StagingView::can_write(offset, data.len()) {
        let contents = crate::staging::written(f.staging.base(id, base), offset as int, data);
        let wrote = FsView { staging: f.staging.with(id, contents), ..f }.resized(
            id,
            contents.len() as u64,
        );
        let next = f.written(id, offset, data, base, now).0;
        lemma_path_engine(wrote, next, id);
        lemma_noted(wrote.staging, path);
    }
}

proof fn lemma_path_engine(a: FsView, b: FsView, id: u64)
    requires
        a.vfs.nodes == b.vfs.nodes,
    ensures
        a.vfs.path_of(id) == b.vfs.path_of(id),
{
    lemma_parts_engine(a, b, id, a.vfs.nodes.len());
}

proof fn lemma_parts_engine(a: FsView, b: FsView, id: u64, left: nat)
    requires
        a.vfs.nodes == b.vfs.nodes,
    ensures
        a.vfs.path_parts(id, left) == b.vfs.path_parts(id, left),
    decreases left,
{
    if left > 0 {
        lemma_parts_engine(a, b, a.vfs.node(id).parent, (left - 1) as nat);
    }
}

/// A file can be cut off, or filled up, to any size that a file can have; that is then noted, under
/// its path, and so is what is to be logged of it.
pub proof fn lemma_truncated(
    f: FsView,
    id: u64,
    new_size: u64,
    base: Option<Seq<u8>>,
    now: u64,
    path: Seq<char>,
)
    requires
        f.vfs.has(id),
    ensures
        ({
            let (next, r) = f.truncated(id, new_size, base, now);
            let fits = new_size <= isize::MAX;
            &&& !fits ==> r is Err && r->Err_0 == NfsStatus::Io && next == f
            &&& fits ==> r is Ok
            &&& fits && next.vfs.path_of(id) == Ok::<_, crate::vfs::inode::VfsError>(path) ==> {
                let (_, log) = r->Ok_0;
                &&& is_noted(next.staging, path)
                &&& is_edited(next, now)
                &&& log == Some(PayloadView::Truncate { path, new_size })
            }
        }),
{
    if new_size <= isize::MAX {
        let contents = crate::staging::resized(f.staging.base(id, base), new_size as nat);
        let cut = FsView { staging: f.staging.with(id, contents), ..f }.resized(id, new_size);
        let next = f.truncated(id, new_size, base, now).0;
        lemma_path_engine(cut, next, id);
        lemma_noted(cut.staging, path);
    }
}

/// A blob that is read and is neither in memory nor on disk is fetched with the others of its
/// directory, where that is there; any other is fetched alone.
pub proof fn lemma_neighbours(f: FsView, id: u64, offset: u64, count: u32)
    requires
        f.read_asked(id, offset, count).1 is Fetch,
    ensures
        ({
            let node = f.vfs.node(id);
            let e = f.vfs.engine;
            let at_hand = e.cache.lookup(node.oid) is Some || e.disk.sizes.contains_key(node.oid);
            let parent_there = f.vfs.has(node.parent) && !f.vfs.node(node.parent).is_deleted;
            f.read_asked(id, offset, count).1 == (ReadView::Fetch {
                oid: node.oid,
                prefetch: if !at_hand && parent_there {
                    Some(f.vfs.node(node.parent).oid)
                } else {
                    None
                },
            })
        }),
{
}

} // verus!
