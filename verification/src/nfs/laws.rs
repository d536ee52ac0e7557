//! What holds of the file system: edits are seen at once, and the log of an edit makes the same
//! edit again.

use vstd::prelude::*;

use crate::git::builder;
use crate::git::builder::{BuildError, CommitView};
use crate::git::edit_laws;
use crate::git::tree::TreeEntryMode;
use crate::maps;
use crate::nfs::fs;
use crate::nfs::fs::{EntryView, FsView, NfsStatus, PageView, ReadView};
use crate::staging;
use crate::staging::StagingView;
use crate::vfs::filter;
use crate::vfs::inode;
use crate::vfs::inode::{NodeView, VfsError, VfsView};
use crate::vfs::laws;
use crate::wal::proto::PayloadView;
use crate::wal::recovery::{PendingView, ReplayError, ReplayView};

verus! {

// ---------------------------------------------------------------------------------------------
// Edits are seen at once

/// What was written to a file is read from it.
pub proof fn lemma_write_read(
    f: FsView,
    id: u64,
    offset: u64,
    data: Seq<u8>,
    base: Option<Seq<u8>>,
    now: u64,
)
    requires
        f.is_there(id),
        !f.vfs.node(id).is_dir,
        0 < data.len() <= u32::MAX,
    ensures
        f.written(id, offset, data, base, now) matches (after, Ok(_)) ==> after.read_asked(
            id,
            offset,
            data.len() as u32,
        ) matches (same, ReadView::Done(Ok((read, _)))) && same == after && read == data,
{
    if StagingView::can_write(offset, data.len()) {
        let before = f.staging.base(id, base);
        staging::lemma_read_after_write(before, offset as int, data);
        let (after, _) = f.written(id, offset, data, base, now);
        let contents = staging::written(before, offset as int, data);
        assert(after.staging.staged[id] == contents);
        assert(after.is_there(id));
    }
}

/// A file that was cut off has as many bytes as it was cut off at.
pub proof fn lemma_truncate_attr(
    f: FsView,
    id: u64,
    new_size: u64,
    base: Option<Seq<u8>>,
    now: u64,
)
    requires
        f.is_there(id),
    ensures
        f.truncated(id, new_size, base, now) matches (after, Ok((attr, _))) ==> attr.size
            == new_size && after.attr(id).1.size == new_size,
{
}

/// No name of macOS metadata is found, whatever was created under it.
pub proof fn lemma_metadata_not_found(f: FsView, dir: u64, name: Seq<char>)
    requires
        filter::apple_metadata(name),
    ensures
        f.found(dir, name) == (f, Err::<u64, NfsStatus>(NfsStatus::NoEnt)),
{
}

/// A file that was created is found under its name. (A name of macOS metadata is not.)
pub proof fn lemma_created_found(f: FsView, dir: u64, name: Seq<char>, now: u64)
    requires
        f.vfs.wf(),
        laws::is_child_name(name),
        !filter::apple_metadata(name),
        laws::has_room(f.vfs, dir),
    ensures
        f.created(dir, name, now) matches (after, Ok((id, _))) ==> !f.staging.deleted.contains(id)
            ==> after.found(dir, name) == (after, Ok::<u64, NfsStatus>(id)),
{
    laws::lemma_created_found(f.vfs, dir, name, TreeEntryMode::RegularFile);
}

/// A directory that was created is found under its name. (A name of macOS metadata is not.)
pub proof fn lemma_made_dir_found(f: FsView, dir: u64, name: Seq<char>, now: u64)
    requires
        f.vfs.wf(),
        laws::is_child_name(name),
        !filter::apple_metadata(name),
        laws::has_room(f.vfs, dir),
    ensures
        f.made_dir(dir, name, now) matches (after, Ok((id, _))) ==> !f.staging.deleted.contains(
            id,
        ) ==> after.found(dir, name) == (after, Ok::<u64, NfsStatus>(id)),
{
    laws::lemma_made_dir_found(f.vfs, dir, name);
}

/// What was removed is not found any more.
pub proof fn lemma_removed_gone(f: FsView, dir: u64, name: Seq<char>, now: u64)
    requires
        f.vfs.wf(),
        laws::is_child_name(name),
        laws::has_room(f.vfs, dir),
    ensures
        f.removed(dir, name, now) matches (after, Ok(_)) ==> after.found(dir, name) == (
            after,
            Err::<u64, NfsStatus>(NfsStatus::NoEnt),
        ),
{
    laws::lemma_removed_gone(f.vfs, dir, name);
}

// ---------------------------------------------------------------------------------------------
// Edits reach the commit

/// Whether a commit was built of a file system, and its objects go by different names.
pub open spec fn is_committed(
    f: FsView,
    base_commit: Seq<char>,
    author: Seq<char>,
    message: Seq<char>,
    timestamp: u64,
    c: CommitView,
) -> bool {
    &&& builder::commit_built(f.vfs, f.staging, base_commit, author, message, timestamp).1 == Ok::<
        _,
        BuildError,
    >(c)
    &&& edit_laws::are_told_apart(
        f.vfs,
        f.staging,
        edit_laws::commit_trees(f.vfs, f.staging),
        c.commit_oid,
    )
}

/// Whether names lead to an object in a repository that took a commit of a file system.
pub open spec fn is_in_commit(
    f: FsView,
    c: CommitView,
    names: Seq<Seq<char>>,
    target: Seq<char>,
) -> bool {
    edit_laws::leads_to(
        f.vfs.engine.recovered(c.commit_oid, c.root_tree_oid, c.objects).trees,
        c.root_tree_oid,
        names,
        target,
    )
}

/// Whether nodes lie below one another from the root down, and in each directory one child alone
/// that goes into a commit has the next name.
pub open spec fn is_clear_path(f: FsView, path: Seq<u64>) -> bool {
    &&& edit_laws::is_path(f.vfs, f.staging, path)
    &&& forall|k: int|
        0 < k < path.len() ==> edit_laws::is_only(f.vfs, f.staging, path[k - 1], #[trigger] path[k])
}

/// Whether a commit has contents of a file: their blob is among its objects, and names lead to it.
pub open spec fn is_held(f: FsView, c: CommitView, names: Seq<Seq<char>>, data: Seq<u8>) -> bool {
    &&& c.objects.contains(edit_laws::blob_object(data))
    &&& is_in_commit(f, c, names, edit_laws::blob_object(data).oid)
}

proof fn lemma_resized_wf(v: VfsView, id: u64, size: u64)
    requires
        v.wf(),
    ensures
        v.resized(id, size).wf(),
{
    if v.has(id) {
        assert(v.node_ok(id - 1));
        v.lemma_with_node(id, NodeView { size, ..v.node(id) });
    }
}

/// What was written to a file is in the commit, under its path.
pub proof fn lemma_written_committed(
    f: FsView,
    id: u64,
    offset: u64,
    data: Seq<u8>,
    base: Option<Seq<u8>>,
    now: u64,
    base_commit: Seq<char>,
    author: Seq<char>,
    message: Seq<char>,
    timestamp: u64,
    c: CommitView,
    path: Seq<u64>,
)
    requires
        f.vfs.wf(),
        f.written(id, offset, data, base, now).1 is Ok,
        is_committed(
            f.written(id, offset, data, base, now).0,
            base_commit,
            author,
            message,
            timestamp,
            c,
        ),
        ({
            let after = f.written(id, offset, data, base, now).0;
            edit_laws::is_path(after.vfs, after.staging, path)
        }),
        path.len() > 1,
        path.last() == id,
        !f.vfs.node(id).is_dir,
    ensures
        ({
            let after = f.written(id, offset, data, base, now).0;
            let contents = staging::written(f.staging.base(id, base), offset as int, data);
            is_held(after, c, edit_laws::names_from(after.vfs, path, 0), contents)
        }),
{
    let after = f.written(id, offset, data, base, now).0;
    let contents = staging::written(f.staging.base(id, base), offset as int, data);
    let (w, s) = (after.vfs, after.staging);
    lemma_resized_wf(f.vfs, id, contents.len() as u64);
    maps::lemma_added(f.staging.staged_ids, id);
    edit_laws::lemma_edit_committed(w, s, base_commit, author, message, timestamp, c, path);
}

/// What a file was cut off to is in the commit, under its path.
pub proof fn lemma_truncated_committed(
    f: FsView,
    id: u64,
    new_size: u64,
    base: Option<Seq<u8>>,
    now: u64,
    base_commit: Seq<char>,
    author: Seq<char>,
    message: Seq<char>,
    timestamp: u64,
    c: CommitView,
    path: Seq<u64>,
)
    requires
        f.vfs.wf(),
        f.truncated(id, new_size, base, now).1 is Ok,
        is_committed(
            f.truncated(id, new_size, base, now).0,
            base_commit,
            author,
            message,
            timestamp,
            c,
        ),
        ({
            let after = f.truncated(id, new_size, base, now).0;
            edit_laws::is_path(after.vfs, after.staging, path)
        }),
        path.len() > 1,
        path.last() == id,
        !f.vfs.node(id).is_dir,
    ensures
        ({
            let after = f.truncated(id, new_size, base, now).0;
            let contents = staging::resized(f.staging.base(id, base), new_size as nat);
            is_held(after, c, edit_laws::names_from(after.vfs, path, 0), contents)
        }),
{
    let after = f.truncated(id, new_size, base, now).0;
    let (w, s) = (after.vfs, after.staging);
    lemma_resized_wf(f.vfs, id, new_size);
    maps::lemma_added(f.staging.staged_ids, id);
    edit_laws::lemma_edit_committed(w, s, base_commit, author, message, timestamp, c, path);
}

/// A file that was created is in the commit, under its name, and empty.
pub proof fn lemma_created_committed(
    f: FsView,
    dir: u64,
    name: Seq<char>,
    now: u64,
    base_commit: Seq<char>,
    author: Seq<char>,
    message: Seq<char>,
    timestamp: u64,
    c: CommitView,
    path: Seq<u64>,
)
    requires
        f.vfs.wf(),
        laws::has_room(f.vfs, dir),
        f.created(dir, name, now).1 matches Ok((id, _)) && path.last() == id,
        is_committed(f.created(dir, name, now).0, base_commit, author, message, timestamp, c),
        ({
            let after = f.created(dir, name, now).0;
            edit_laws::is_path(after.vfs, after.staging, path)
        }),
        path.len() > 1,
        !f.created(dir, name, now).0.vfs.node(path.last()).is_dir,
    ensures
        ({
            let after = f.created(dir, name, now).0;
            let names = edit_laws::names_from(after.vfs, path, 0);
            &&& path[path.len() - 2] == dir
            &&& names.last() == name
            &&& is_held(after, c, names, Seq::empty())
        }),
{
    let after = f.created(dir, name, now).0;
    let (w, s) = (after.vfs, after.staging);
    let id = path.last();
    laws::lemma_opened_once(f.vfs, dir);
    let next = f.vfs.opened(dir)->Ok_0;
    assert(next.name_ok(dir - 1, name));
    match next.child(dir, name) {
        Some(_) => {
            assert(next.node_ok(id - 1));
            next.lemma_with_node(id, w.node(id));
        },
        None => {
            let mode = TreeEntryMode::RegularFile;
            next.lemma_with_child(dir, name, Seq::empty(), mode, false, 0);
        },
    }
    assert(w.node(id).parent == dir && w.node(id).name == name);
    assert(edit_laws::is_link(w, s, path, path.len() - 1));
    assert(path[path.len() - 1] == id);
    maps::lemma_added(f.staging.staged_ids, id);
    edit_laws::lemma_edit_committed(w, s, base_commit, author, message, timestamp, c, path);
}

proof fn lemma_removed_open(v: VfsView, dir: u64, name: Seq<char>)
    requires
        v.wf(),
        laws::has_room(v, dir),
    ensures
        v.removed(dir, name) matches (w, Ok(id)) ==> {
            let next = v.opened(dir)->Ok_0;
            &&& w.wf()
            &&& w.is_open(dir)
            &&& w.has(id)
            &&& w.node(id).parent == dir
            &&& next.node(id).name == name
            &&& forall|other: u64| #[trigger]
                w.listing(dir).contains(other) && w.is_live(other) ==> other != id
                    && next.listing(dir).contains(other) && next.is_live(other) && w.node(
                    other,
                ).name == next.node(other).name
        },
{
    laws::lemma_opened_once(v, dir);
    match v.opened(dir) {
        Err(_) => {},
        Ok(next) => match next.child(dir, name) {
            None => {},
            Some(id) => {
                next.lemma_removed(dir, name);
                assert(next.name_ok(dir - 1, name));
                inode::lemma_without(next.listing(dir), id);
            },
        },
    }
}

/// What was removed is not in the commit: in a repository that took it, the names down to the
/// directory and the name of what was removed lead from the root tree to nothing. (No other child
/// had the name.)
pub proof fn lemma_removed_committed(
    f: FsView,
    dir: u64,
    name: Seq<char>,
    now: u64,
    base_commit: Seq<char>,
    author: Seq<char>,
    message: Seq<char>,
    timestamp: u64,
    c: CommitView,
    path: Seq<u64>,
)
    requires
        f.vfs.wf(),
        laws::has_room(f.vfs, dir),
        f.removed(dir, name, now).1 is Ok,
        edit_laws::is_only(
            f.vfs.opened(dir)->Ok_0,
            f.staging,
            dir,
            f.vfs.opened(dir)->Ok_0.child(dir, name)->0,
        ),
        is_committed(
            f.removed(dir, name, now).0,
            base_commit,
            author,
            message,
            timestamp,
            c,
        ),
        is_clear_path(f.removed(dir, name, now).0, path),
        path.last() == dir,
    ensures
        ({
            let after = f.removed(dir, name, now).0;
            let names = edit_laws::names_from(after.vfs, path, 0).push(name);
            forall|target: Seq<char>| !(#[trigger] is_in_commit(after, c, names, target))
        }),
{
    let after = f.removed(dir, name, now).0;
    let (w, s) = (after.vfs, after.staging);
    let next = f.vfs.opened(dir)->Ok_0;
    let id = next.child(dir, name)->0;
    lemma_removed_open(f.vfs, dir, name);
    maps::lemma_added(f.staging.deleted, id);
    assert(s.deleted.contains(id));
    assert(edit_laws::is_changed(w, s, dir));
    assert(edit_laws::has_none(w, s, dir, name)) by {
        assert forall|other: u64| #[trigger]
            w.listing(dir).contains(other) && w.is_live(other) && !s.deleted.contains(other)
                && !filter::apple_metadata(w.node(other).name) implies w.node(other).name
            != name by {
            assert(next.listing(dir).contains(other));
            assert(!f.staging.deleted.contains(other));
        }
    }
    edit_laws::lemma_removal_committed(
        w,
        s,
        base_commit,
        author,
        message,
        timestamp,
        c,
        path,
        name,
    );
    let names = edit_laws::names_from(w, path, 0).push(name);
    assert forall|target: Seq<char>| !(#[trigger] is_in_commit(after, c, names, target)) by {
        assert(!edit_laws::leads_to(
            w.engine.recovered(c.commit_oid, c.root_tree_oid, c.objects).trees,
            c.root_tree_oid,
            names,
            target,
        ));
    }
}

proof fn lemma_renamed_open(
    v: VfsView,
    from_dir: u64,
    from_name: Seq<char>,
    to_dir: u64,
    to_name: Seq<char>,
)
    requires
        v.wf(),
        laws::has_room(v, from_dir),
        v.opened(from_dir) matches Ok(first) ==> laws::has_room(first, to_dir),
    ensures
        v.renamed(from_dir, from_name, to_dir, to_name) matches (w, Ok(_)) ==> {
            let next = v.opened(from_dir)->Ok_0.opened(to_dir)->Ok_0;
            let id = next.child(from_dir, from_name)->0;
            &&& w.wf()
            &&& w.is_open(from_dir)
            &&& w.is_live(id)
            &&& w.node(id).parent == to_dir
            &&& w.node(id).name == to_name
            &&& w.node(id).oid == next.node(id).oid
            &&& next.node(id).name == from_name
            &&& forall|other: u64| #[trigger]
                w.listing(from_dir).contains(other) && w.is_live(other) && other != id
                    ==> next.listing(from_dir).contains(other) && next.is_live(other) && w.node(
                    other,
                ).name == next.node(other).name
            &&& from_dir != to_dir ==> !w.listing(from_dir).contains(id)
        },
{
    if v.renamed(from_dir, from_name, to_dir, to_name).1 is Ok {
        let first = v.opened(from_dir)->Ok_0;
        let next = first.opened(to_dir)->Ok_0;
        let id = next.child(from_dir, from_name)->0;
        let w = v.renamed(from_dir, from_name, to_dir, to_name).0;
        laws::lemma_opened_once(v, from_dir);
        laws::lemma_opened_once(first, to_dir);
        first.lemma_opened(to_dir, from_dir);
        assert(next.name_ok(from_dir - 1, from_name));
        assert(next.name_ok(to_dir - 1, to_name));
        if (from_dir, from_name) != (to_dir, to_name) {
            let free = next.removed(to_dir, to_name).0;
            next.lemma_removed(to_dir, to_name);
            next.lemma_moved(id, from_dir, from_name, to_dir, to_name);
            assert(free.is_open(from_dir) && free.is_open(to_dir));
            if next.child(to_dir, to_name) is Some {
                inode::lemma_without(next.listing(to_dir), next.child(to_dir, to_name)->0);
            }
            inode::lemma_without(free.listing(from_dir), id);
            if from_dir == to_dir {
                inode::lemma_pushed(inode::without(free.listing(from_dir), id), id);
            }
            assert(free.is_live(id));
            assert forall|other: u64| #[trigger]
                w.listing(from_dir).contains(other) && w.is_live(other) && other != id implies
                next.listing(from_dir).contains(other) && next.is_live(other) && w.node(other).name
                == next.node(other).name by {
                assert(free.listing(from_dir).contains(other));
                assert(free.node(other).name == next.node(other).name);
            }
        }
    }
}

/// What was renamed is in the commit under its new name, as the object that it was: a file that
/// was not written, or a directory whose tree is not built anew.
pub proof fn lemma_renamed_committed(
    f: FsView,
    from_dir: u64,
    from_name: Seq<char>,
    to_dir: u64,
    to_name: Seq<char>,
    now: u64,
    base_commit: Seq<char>,
    author: Seq<char>,
    message: Seq<char>,
    timestamp: u64,
    c: CommitView,
    path: Seq<u64>,
)
    requires
        f.vfs.wf(),
        laws::has_room(f.vfs, from_dir),
        f.vfs.opened(from_dir) matches Ok(first) ==> laws::has_room(first, to_dir),
        f.renamed(from_dir, from_name, to_dir, to_name, now).1 is Ok,
        is_committed(
            f.renamed(from_dir, from_name, to_dir, to_name, now).0,
            base_commit,
            author,
            message,
            timestamp,
            c,
        ),
        ({
            let after = f.renamed(from_dir, from_name, to_dir, to_name, now).0;
            let next = f.vfs.opened(from_dir)->Ok_0.opened(to_dir)->Ok_0;
            &&& edit_laws::is_path(after.vfs, after.staging, path)
            &&& path.len() > 1
            &&& next.child(from_dir, from_name) == Some(path.last())
            &&& edit_laws::is_kept(after.vfs, after.staging, path.last())
        }),
    ensures
        ({
            let after = f.renamed(from_dir, from_name, to_dir, to_name, now).0;
            let next = f.vfs.opened(from_dir)->Ok_0.opened(to_dir)->Ok_0;
            let names = edit_laws::names_from(after.vfs, path, 0);
            &&& path[path.len() - 2] == to_dir
            &&& names.last() == to_name
            &&& is_in_commit(after, c, names, next.node(path.last()).oid)
        }),
{
    let after = f.renamed(from_dir, from_name, to_dir, to_name, now).0;
    let (w, s) = (after.vfs, after.staging);
    lemma_renamed_open(f.vfs, from_dir, from_name, to_dir, to_name);
    maps::lemma_added(f.staging.touched, from_dir);
    maps::lemma_added(maps::added(f.staging.touched, from_dir), to_dir);
    assert(s.touched.contains(to_dir));
    assert(edit_laws::is_link(w, s, path, path.len() - 1));
    assert(path[path.len() - 1] == path.last());
    edit_laws::lemma_move_committed(w, s, base_commit, author, message, timestamp, c, path);
}

/// What was renamed is no longer in the commit under its old name. (No other child had it.)
pub proof fn lemma_renamed_away(
    f: FsView,
    from_dir: u64,
    from_name: Seq<char>,
    to_dir: u64,
    to_name: Seq<char>,
    now: u64,
    base_commit: Seq<char>,
    author: Seq<char>,
    message: Seq<char>,
    timestamp: u64,
    c: CommitView,
    path: Seq<u64>,
)
    requires
        f.vfs.wf(),
        laws::has_room(f.vfs, from_dir),
        f.vfs.opened(from_dir) matches Ok(first) ==> laws::has_room(first, to_dir),
        f.renamed(from_dir, from_name, to_dir, to_name, now).1 is Ok,
        (from_dir, from_name) != (to_dir, to_name),
        edit_laws::is_only(
            f.vfs.opened(from_dir)->Ok_0.opened(to_dir)->Ok_0,
            f.staging,
            from_dir,
            f.vfs.opened(from_dir)->Ok_0.opened(to_dir)->Ok_0.child(from_dir, from_name)->0,
        ),
        is_committed(
            f.renamed(from_dir, from_name, to_dir, to_name, now).0,
            base_commit,
            author,
            message,
            timestamp,
            c,
        ),
        is_clear_path(f.renamed(from_dir, from_name, to_dir, to_name, now).0, path),
        path.last() == from_dir,
    ensures
        ({
            let after = f.renamed(from_dir, from_name, to_dir, to_name, now).0;
            let names = edit_laws::names_from(after.vfs, path, 0).push(from_name);
            forall|target: Seq<char>| !(#[trigger] is_in_commit(after, c, names, target))
        }),
{
    let after = f.renamed(from_dir, from_name, to_dir, to_name, now).0;
    let (w, s) = (after.vfs, after.staging);
    let next = f.vfs.opened(from_dir)->Ok_0.opened(to_dir)->Ok_0;
    let id = next.child(from_dir, from_name)->0;
    lemma_renamed_open(f.vfs, from_dir, from_name, to_dir, to_name);
    maps::lemma_added(f.staging.touched, from_dir);
    maps::lemma_added(maps::added(f.staging.touched, from_dir), to_dir);
    assert(s.touched.contains(from_dir));
    assert(s.deleted == f.staging.deleted);
    assert(edit_laws::has_none(w, s, from_dir, from_name)) by {
        assert forall|other: u64| #[trigger]
            w.listing(from_dir).contains(other) && w.is_live(other) && !s.deleted.contains(other)
                && !filter::apple_metadata(w.node(other).name) implies w.node(other).name
            != from_name by {
            if other != id {
                assert(next.listing(from_dir).contains(other));
            }
        }
    }
    edit_laws::lemma_removal_committed(
        w,
        s,
        base_commit,
        author,
        message,
        timestamp,
        c,
        path,
        from_name,
    );
    let names = edit_laws::names_from(w, path, 0).push(from_name);
    assert forall|target: Seq<char>| !(#[trigger] is_in_commit(after, c, names, target)) by {
        assert(!edit_laws::leads_to(
            w.engine.recovered(c.commit_oid, c.root_tree_oid, c.objects).trees,
            c.root_tree_oid,
            names,
            target,
        ));
    }
}

// ---------------------------------------------------------------------------------------------
// The log of an edit makes the same edit again

/// The tree and the edits of a file system.
pub open spec fn replaying(f: FsView) -> ReplayView {
    ReplayView { vfs: f.vfs, staging: f.staging }
}

proof fn lemma_resized_path(v: VfsView, id: u64, size: u64)
    requires
        v.path_of(id) is Ok,
    ensures
        v.resized(id, size).path_of(id) == v.path_of(id),
{
    laws::lemma_path_kept(v, v.resized(id, size), id);
}

/// What is logged of a write makes the same write again: it is about the same file, starts from
/// the same blob, and leads to the same tree and edits.
pub proof fn lemma_write_replayed(
    f: FsView,
    id: u64,
    offset: u64,
    data: Seq<u8>,
    base: Option<Seq<u8>>,
    now: u64,
)
    requires
        f.is_there(id),
        laws::is_reachable(f.vfs, id, f.vfs.nodes.len()),
    ensures
        f.written(id, offset, data, base, now) matches (after, Ok((_, logged)))
            ==> logged matches Some(p) && replaying(f).begun(p) matches (begun, Ok(Some(file)))
            && file == (PendingView { node: id, oid: f.base_wanted(id) }) && begun.finished(
            p,
            id,
            base,
        ) == (replaying(after), Ok::<_, ReplayError>(())),
{
    if StagingView::can_write(offset, data.len()) {
        laws::lemma_path_leads_back(f.vfs, id);
        let path = f.vfs.path_of(id)->Ok_0;
        let contents = staging::written(f.staging.base(id, base), offset as int, data);
        lemma_resized_path(f.vfs, id, contents.len() as u64);
        let p = PayloadView::Write { path, offset, data };
        let (after, _) = f.written(id, offset, data, base, now);
        let begun = replaying(f).changed(path);
        assert(begun.vfs.path_looked_up(path) == (f.vfs, Ok::<u64, VfsError>(id)));
        assert(replaying(f).begun(p).0 == begun);
        assert(begun.staging.base(id, base) == f.staging.base(id, base));
        assert(begun.finished(p, id, base).0 =~= replaying(after));
    }
}

/// What is logged of a file that was cut off cuts it off again.
pub proof fn lemma_truncate_replayed(
    f: FsView,
    id: u64,
    new_size: u64,
    base: Option<Seq<u8>>,
    now: u64,
)
    requires
        f.is_there(id),
        laws::is_reachable(f.vfs, id, f.vfs.nodes.len()),
    ensures
        f.truncated(id, new_size, base, now) matches (after, Ok((_, logged)))
            ==> logged matches Some(p) && replaying(f).begun(p) matches (begun, Ok(Some(file)))
            && file == (PendingView { node: id, oid: f.base_wanted(id) }) && begun.finished(
            p,
            id,
            base,
        ) == (replaying(after), Ok::<_, ReplayError>(())),
{
    if new_size <= isize::MAX {
        laws::lemma_path_leads_back(f.vfs, id);
        let path = f.vfs.path_of(id)->Ok_0;
        lemma_resized_path(f.vfs, id, new_size);
        let p = PayloadView::Truncate { path, new_size };
        let (after, _) = f.truncated(id, new_size, base, now);
        let begun = replaying(f).changed(path);
        assert(begun.vfs.path_looked_up(path) == (f.vfs, Ok::<u64, VfsError>(id)));
        assert(replaying(f).begun(p).0 == begun);
        assert(begun.staging.base(id, base) == f.staging.base(id, base));
        assert(begun.finished(p, id, base).0 =~= replaying(after));
    }
}

proof fn lemma_created_names(v: VfsView, dir: u64, name: Seq<char>, mode: TreeEntryMode)
    requires
        v.wf(),
        laws::has_room(v, dir),
    ensures
        v.created(dir, name, mode) matches (w, Ok(_)) ==> laws::keeps_names(v, w),
        v.made_dir(dir, name) matches (w, Ok(_)) ==> laws::keeps_names(v, w),
        v.removed(dir, name) matches (w, Ok(_)) ==> laws::keeps_names(v, w),
{
    laws::lemma_opened_aside(v, dir);
    laws::lemma_opened_once(v, dir);
    match v.opened(dir) {
        Err(_) => {},
        Ok(next) => {
            assert(next.name_ok(dir - 1, name));
            assert forall|i: int| 0 <= i < v.nodes.len() implies (
            #[trigger] next.nodes[i]).name == v.nodes[i].name && next.nodes[i].parent
                == v.nodes[i].parent by {
            }
        },
    }
}

/// What is logged of a file that was created creates it again.
pub proof fn lemma_create_replayed(f: FsView, dir: u64, name: Seq<char>, now: u64)
    requires
        f.vfs.wf(),
        laws::has_room(f.vfs, dir),
        laws::is_reachable(f.vfs, dir, f.vfs.nodes.len()),
        laws::is_path_name(name),
    ensures
        f.created(dir, name, now) matches (after, Ok((_, path))) ==> replaying(f).begun(
            fs::file_created(path),
        ) == (replaying(after), Ok::<_, ReplayError>(None::<PendingView>)),
{
    laws::lemma_path_in_leads(f.vfs, dir, name);
    lemma_created_names(f.vfs, dir, name, TreeEntryMode::RegularFile);
    match f.vfs.created(dir, name, TreeEntryMode::RegularFile) {
        (_, Err(_)) => {},
        (made, Ok(id)) => {
            laws::lemma_path_kept(f.vfs, made, dir);
            let path = made.path_in(dir, name);
            assert(path == f.vfs.path_in(dir, name));
            let (after, _) = f.created(dir, name, now);
            assert(replaying(f).begun(fs::file_created(path)).0 =~= replaying(after));
        },
    }
}

/// What is logged of a directory that was created creates it again.
pub proof fn lemma_mkdir_replayed(f: FsView, dir: u64, name: Seq<char>, now: u64)
    requires
        f.vfs.wf(),
        laws::has_room(f.vfs, dir),
        laws::is_reachable(f.vfs, dir, f.vfs.nodes.len()),
        laws::is_path_name(name),
    ensures
        f.made_dir(dir, name, now) matches (after, Ok((_, path))) ==> replaying(f).begun(
            PayloadView::Mkdir { path },
        ) == (replaying(after), Ok::<_, ReplayError>(None::<PendingView>)),
{
    laws::lemma_path_in_leads(f.vfs, dir, name);
    lemma_created_names(f.vfs, dir, name, TreeEntryMode::RegularFile);
    match f.vfs.made_dir(dir, name) {
        (_, Err(_)) => {},
        (made, Ok(id)) => {
            laws::lemma_path_kept(f.vfs, made, dir);
            let path = made.path_in(dir, name);
            assert(path == f.vfs.path_in(dir, name));
            let (after, _) = f.made_dir(dir, name, now);
            assert(replaying(f).begun(PayloadView::Mkdir { path }).0 =~= replaying(after));
        },
    }
}

/// What is logged of a removal removes it again, where it was there.
pub proof fn lemma_remove_replayed(f: FsView, dir: u64, name: Seq<char>, now: u64)
    requires
        f.vfs.wf(),
        laws::has_room(f.vfs, dir),
        laws::is_reachable(f.vfs, dir, f.vfs.nodes.len()),
        laws::is_path_name(name),
    ensures
        f.removed(dir, name, now) matches (after, Ok(path)) ==> replaying(f).begun(
            PayloadView::Remove { path },
        ) == (replaying(after), Ok::<_, ReplayError>(None::<PendingView>)),
{
    laws::lemma_path_in_leads(f.vfs, dir, name);
    lemma_created_names(f.vfs, dir, name, TreeEntryMode::RegularFile);
    match f.vfs.removed(dir, name) {
        (_, Err(_)) => {},
        (gone, Ok(id)) => {
            laws::lemma_path_kept(f.vfs, gone, dir);
            let path = gone.path_in(dir, name);
            assert(path == f.vfs.path_in(dir, name));
            let (after, _) = f.removed(dir, name, now);
            let next = f.vfs.opened(dir)->Ok_0;
            let (looked, found) = f.vfs.looked_up(dir, name);
            laws::lemma_opened_once(f.vfs, dir);
            laws::lemma_opened_aside(f.vfs, dir);
            assert(next.name_ok(dir - 1, name));
            if f.vfs.live_child(dir, name) is Some {
                assert(f.vfs.name_ok(dir - 1, name));
                assert(f.vfs.dir_ok(dir - 1));
                assert(f.vfs.is_open(dir));
                assert(looked == f.vfs);
            } else {
                assert(looked == next);
                let n = f.vfs.nodes.len();
                laws::lemma_reachable_opened(f.vfs, dir, dir, n, next.nodes.len());
                laws::lemma_path_kept(f.vfs, next, dir);
                laws::lemma_path_in_leads(next, dir, name);
            }
            assert(next.live_child(dir, name) == Some(id));
            assert(looked.removed(dir, name) == (gone, Ok::<u64, VfsError>(id)));
            assert(replaying(f).begun(PayloadView::Remove { path }).0 =~= replaying(after));
        },
    }
}

/// What is logged of a renaming renames it again.
pub proof fn lemma_rename_replayed(
    f: FsView,
    from_dir: u64,
    from_name: Seq<char>,
    to_dir: u64,
    to_name: Seq<char>,
    now: u64,
)
    requires
        laws::is_reachable(f.vfs, from_dir, f.vfs.nodes.len()),
        laws::is_reachable(f.vfs, to_dir, f.vfs.nodes.len()),
        laws::is_path_name(from_name),
        laws::is_path_name(to_name),
    ensures
        f.renamed(from_dir, from_name, to_dir, to_name, now) matches (
            after,
            Ok((from_path, to_path)),
        ) ==> replaying(f).begun(PayloadView::Rename { from_path, to_path }) == (
            replaying(after),
            Ok::<_, ReplayError>(None::<PendingView>),
        ),
{
    laws::lemma_path_in_leads(f.vfs, from_dir, from_name);
    laws::lemma_path_in_leads(f.vfs, to_dir, to_name);
    match f.renamed(from_dir, from_name, to_dir, to_name, now) {
        (_, Err(_)) => {},
        (after, Ok((from_path, to_path))) => {
            assert(replaying(f).begun(PayloadView::Rename { from_path, to_path }).0
                =~= replaying(after));
        },
    }
}

// ---------------------------------------------------------------------------------------------
// Listing a directory page by page

/// What entries say of themselves: their numbers and their names.
pub open spec fn lines_of(entries: Seq<EntryView>) -> Seq<(u64, Seq<u8>)> {
    Seq::new(entries.len(), |i: int| (entries[i].fileid, entries[i].name))
}

/// The lines of nodes, but for those among the edits as removed.
pub open spec fn child_lines(nodes: Seq<NodeView>, deleted: Seq<u64>) -> Seq<(u64, Seq<u8>)>
    decreases nodes.len(),
{
    if nodes.len() == 0 {
        Seq::empty()
    } else {
        let before = child_lines(nodes.drop_last(), deleted);
        let node = nodes.last();
        if deleted.contains(node.id) {
            before
        } else {
            before.push((node.id, vstd::utf8::encode_utf8(node.name)))
        }
    }
}

/// The lines of a directory: itself, its parent, and the children that are there, in their order.
pub open spec fn dir_lines(f: FsView, dir: u64) -> Seq<(u64, Seq<u8>)> {
    seq![(dir, seq![46u8]), (f.vfs.node(dir).parent, seq![46u8, 46])] + child_lines(
        f.vfs.listed(dir),
        f.staging.deleted,
    )
}

/// Listing a directory page by page, each from behind the last entry of the one before it, in so
/// many pages at the most behind the first.
pub open spec fn pages(f: FsView, dir: u64, start_after: u64, max_entries: usize, more: nat) -> Seq<
    PageView,
>
    decreases more,
{
    match f.dir_read(dir, start_after, max_entries) {
        (_, Err(_)) => Seq::empty(),
        (next, Ok(page)) => if page.end || page.entries.len() == 0 || more == 0 {
            seq![page]
        } else {
            seq![page] + pages(
                next,
                dir,
                page.entries.last().fileid,
                max_entries,
                (more - 1) as nat,
            )
        },
    }
}

/// The lines of all pages.
pub open spec fn page_lines(list: Seq<PageView>) -> Seq<(u64, Seq<u8>)>
    decreases list.len(),
{
    if list.len() == 0 {
        Seq::empty()
    } else {
        lines_of(list[0].entries) + page_lines(list.drop_first())
    }
}

/// Whether two file systems have the same nodes, directories and edits.
pub open spec fn is_same_tree(f: FsView, g: FsView) -> bool {
    f.vfs.nodes == g.vfs.nodes && f.vfs.dirs == g.vfs.dirs && f.staging == g.staging
}

proof fn lemma_entries_lines(f: FsView, nodes: Seq<NodeView>, before: Seq<EntryView>)
    ensures
        ({
            let (next, all) = f.entries(nodes, before);
            &&& is_same_tree(f, next)
            &&& lines_of(all) == lines_of(before) + child_lines(nodes, f.staging.deleted)
        }),
    decreases nodes.len(),
{
    let (_, all) = f.entries(nodes, before);
    if nodes.len() == 0 {
        assert(lines_of(all) =~= lines_of(before) + child_lines(nodes, f.staging.deleted));
    } else {
        let front = nodes.drop_last();
        lemma_entries_lines(f, front, before);
        let (next, listed) = f.entries(front, before);
        let node = nodes.last();
        if !f.staging.deleted.contains(node.id) {
            let name = vstd::utf8::encode_utf8(node.name);
            assert(lines_of(all) =~= lines_of(listed).push((node.id, name)));
            assert(lines_of(all) =~= lines_of(before) + child_lines(nodes, f.staging.deleted));
        }
    }
}

/// All entries of a directory have its lines, and listing them changes neither nodes nor edits.
pub proof fn lemma_all_lines(f: FsView, dir: u64)
    ensures
        ({
            let (next, all) = f.all_entries(dir);
            &&& is_same_tree(f, next)
            &&& lines_of(all) == dir_lines(f, dir)
        }),
{
    let node = f.vfs.node(dir);
    let (first, this) = f.entry(dir, seq![46u8], dir);
    let (second, up) = first.entry(
        node.parent,
        seq![46u8, 46],
        if f.vfs.is_live(node.parent) {
            node.parent
        } else {
            dir
        },
    );
    lemma_entries_lines(second, f.vfs.listed(dir), seq![this, up]);
    assert(lines_of(seq![this, up]) =~= seq![(dir, seq![46u8]), (node.parent, seq![46u8, 46])]);
}

/// Whether no two lines are of one number.
pub open spec fn are_once(lines: Seq<(u64, Seq<u8>)>) -> bool {
    forall|i: int, j: int|
        0 <= i < j < lines.len() ==> (#[trigger] lines[i]).0 != (#[trigger] lines[j]).0
}

proof fn lemma_children_once(v: VfsView, ids: Seq<u64>, deleted: Seq<u64>)
    requires
        v.wf(),
        ids.no_duplicates(),
    ensures
        are_once(child_lines(v.live_nodes(ids), deleted)),
        forall|i: int|
            0 <= i < child_lines(v.live_nodes(ids), deleted).len() ==> ids.contains(
                (#[trigger] child_lines(v.live_nodes(ids), deleted)[i]).0,
            ),
    decreases ids.len(),
{
    if ids.len() > 0 {
        let front = ids.drop_last();
        lemma_children_once(v, front, deleted);
        let before = child_lines(v.live_nodes(front), deleted);
        let all = child_lines(v.live_nodes(ids), deleted);
        assert forall|i: int| 0 <= i < before.len() implies (#[trigger] before[i]).0 != ids.last()
            && ids.contains(before[i].0) by {
            let k = choose|k: int| 0 <= k < front.len() && front[k] == before[i].0;
            assert(ids[k] == before[i].0 && ids[ids.len() - 1] == ids.last());
        }
        if v.is_live(ids.last()) {
            let node = v.node(ids.last());
            assert(v.node_ok(ids.last() - 1));
            assert(v.live_nodes(ids).drop_last() =~= v.live_nodes(front));
            assert(v.live_nodes(ids).last() == node);
            if !deleted.contains(node.id) {
                assert(all =~= before.push((node.id, vstd::utf8::encode_utf8(node.name))));
                assert(ids[ids.len() - 1] == node.id);
            }
        }
    }
}

proof fn lemma_lines_once(f: FsView, dir: u64)
    requires
        f.vfs.wf(),
        f.vfs.has(dir),
        f.vfs.node(dir).parent != dir,
        f.vfs.node(f.vfs.node(dir).parent).parent != dir,
    ensures
        are_once(dir_lines(f, dir)),
        forall|i: int| 0 <= i < dir_lines(f, dir).len() ==> (#[trigger] dir_lines(f, dir)[i]).0 > 0,
{
    let v = f.vfs;
    let ids = v.listing(dir);
    let up = v.node(dir).parent;
    assert(v.once_ok(dir - 1) && v.node_ok(dir - 1));
    assert(ids.no_duplicates());
    lemma_children_once(v, ids, f.staging.deleted);
    let children = child_lines(v.listed(dir), f.staging.deleted);
    let all = dir_lines(f, dir);
    assert forall|i: int| 0 <= i < children.len() implies (#[trigger] children[i]).0 != dir
        && children[i].0 != up && children[i].0 > 0 && all[i + 2] == children[i] by {
        let k = choose|k: int| 0 <= k < ids.len() && ids[k] == children[i].0;
        assert(v.listed_ok(dir - 1, k));
    }
    assert forall|i: int, j: int| 0 <= i < j < all.len() implies (#[trigger] all[i]).0 != (
    #[trigger] all[j]).0 by {
        if j >= 2 {
            assert(all[j] == children[j - 2]);
            if i >= 2 {
                assert(all[i] == children[i - 2]);
            }
        }
    }
    assert forall|i: int| 0 <= i < all.len() implies (#[trigger] all[i]).0 > 0 by {
        if i >= 2 {
            assert(all[i] == children[i - 2]);
        }
    }
}

proof fn lemma_place_behind(all: Seq<EntryView>, i: int, from: int)
    requires
        are_once(lines_of(all)),
        0 <= from <= i < all.len(),
    ensures
        fs::place_behind(all, all[i].fileid, from) == i + 1,
    decreases i - from,
{
    if from < i {
        assert(lines_of(all)[from].0 != lines_of(all)[i].0);
        lemma_place_behind(all, i, from + 1);
    }
}

/// Whether pages are as they should be: together they are the lines, none is too long, and only
/// the last says that it is.
pub open spec fn are_pages_of(
    list: Seq<PageView>,
    lines: Seq<(u64, Seq<u8>)>,
    max_entries: usize,
) -> bool {
    &&& list.len() > 0
    &&& page_lines(list) == lines
    &&& forall|i: int|
        0 <= i < list.len() ==> (#[trigger] list[i]).entries.len() <= max_entries && (list[i].end
            <==> i == list.len() - 1)
}

proof fn lemma_pages_from(
    f: FsView,
    dir: u64,
    from: int,
    start_after: u64,
    max_entries: usize,
    more: nat,
)
    requires
        f.vfs.is_open(dir),
        f.vfs.is_live(dir),
        f.vfs.node(dir).is_dir,
        max_entries > 0,
        are_once(dir_lines(f, dir)),
        forall|i: int| 0 <= i < dir_lines(f, dir).len() ==> (#[trigger] dir_lines(f, dir)[i]).0 > 0,
        0 <= from < dir_lines(f, dir).len(),
        if from == 0 {
            start_after == 0
        } else {
            dir_lines(f, dir)[from - 1].0 == start_after
        },
        more >= dir_lines(f, dir).len() - from,
    ensures
        are_pages_of(
            pages(f, dir, start_after, max_entries, more),
            dir_lines(f, dir).skip(from),
            max_entries,
        ),
    decreases more,
{
    let lines = dir_lines(f, dir);
    lemma_all_lines(f, dir);
    let (next, all) = f.all_entries(dir);
    assert(FsView { vfs: f.vfs, ..f } == f);
    assert(all.len() == lines.len());
    assert forall|i: int| 0 <= i < all.len() implies lines[i] == (
    (#[trigger] all[i]).fileid, all[i].name) by {
        assert(lines_of(all)[i] == lines[i]);
    }
    if from > 0 {
        assert(lines[from - 1].0 > 0);
        assert(all[from - 1].fileid == start_after);
        lemma_place_behind(all, from - 1, 0);
    }
    let to = if from + max_entries < all.len() {
        from + max_entries
    } else {
        all.len() as int
    };
    let (_, r) = f.dir_read(dir, start_after, max_entries);
    let page = r->Ok_0;
    assert(page.entries == all.subrange(from, to));
    assert(page.end <==> to == all.len());
    let list = pages(f, dir, start_after, max_entries, more);
    assert(lines_of(page.entries) =~= lines.subrange(from, to));
    if page.end {
        assert(list =~= seq![page]);
        assert(list.drop_first() =~= Seq::<PageView>::empty());
        assert(page_lines(list.drop_first()) =~= Seq::<(u64, Seq<u8>)>::empty());
        assert(page_lines(list) =~= lines.skip(from));
    } else {
        let last = page.entries.last().fileid;
        assert(page.entries.last() == all[to - 1]);
        assert(dir_lines(next, dir) == lines) by {
            lemma_same_lines(f, next, dir);
        }
        let rest = pages(next, dir, last, max_entries, (more - 1) as nat);
        lemma_pages_from(next, dir, to, last, max_entries, (more - 1) as nat);
        assert(list == seq![page] + rest);
        assert(list.drop_first() =~= rest);
        assert(page_lines(list) =~= lines.skip(from));
        assert forall|i: int| 0 <= i < list.len() implies (#[trigger] list[i]).entries.len()
            <= max_entries && (list[i].end <==> i == list.len() - 1) by {
            if i > 0 {
                assert(list[i] == rest[i - 1]);
            }
        }
    }
}

proof fn lemma_same_lines(f: FsView, g: FsView, dir: u64)
    requires
        is_same_tree(f, g),
    ensures
        dir_lines(f, dir) == dir_lines(g, dir),
{
    lemma_same_nodes(f.vfs, g.vfs, f.vfs.listing(dir));
}

proof fn lemma_same_nodes(v: VfsView, w: VfsView, ids: Seq<u64>)
    requires
        v.nodes == w.nodes,
    ensures
        v.live_nodes(ids) == w.live_nodes(ids),
    decreases ids.len(),
{
    if ids.len() > 0 {
        lemma_same_nodes(v, w, ids.drop_last());
    }
}

/// The pages of a directory together list it, its parent and each child that is there, once and
/// in order, however long a page may be; none is longer than that, and only the last says that it
/// is the last. The root, which is its own parent, is left out, and so is a directory that was
/// moved below itself.
pub proof fn lemma_pages(f: FsView, dir: u64, max_entries: usize, more: nat)
    requires
        f.vfs.wf(),
        f.vfs.is_live(dir),
        f.vfs.node(dir).is_dir,
        f.vfs.opened(dir) is Ok,
        f.vfs.opened(dir)->Ok_0.nodes.len() <= u64::MAX,
        f.vfs.node(dir).parent != dir,
        f.vfs.node(f.vfs.node(dir).parent).parent != dir,
        max_entries > 0,
        more >= dir_lines(FsView { vfs: f.vfs.opened(dir)->Ok_0, ..f }, dir).len(),
    ensures
        are_pages_of(
            pages(f, dir, 0, max_entries, more),
            dir_lines(FsView { vfs: f.vfs.opened(dir)->Ok_0, ..f }, dir),
            max_entries,
        ),
        are_once(dir_lines(FsView { vfs: f.vfs.opened(dir)->Ok_0, ..f }, dir)),
{
    let vfs = f.vfs.opened(dir)->Ok_0;
    let open = FsView { vfs, ..f };
    laws::lemma_opened_once(f.vfs, dir);
    laws::lemma_opened_aside(f.vfs, dir);
    assert(f.vfs.node_ok(dir - 1));
    let up = f.vfs.node(dir).parent;
    assert(vfs.nodes[dir - 1] == f.vfs.nodes[dir - 1] && vfs.nodes[up - 1] == f.vfs.nodes[up - 1]);
    lemma_lines_once(open, dir);
    let lines = dir_lines(open, dir);
    lemma_pages_from(open, dir, 0, 0, max_entries, more);
    assert(FsView { vfs: open.vfs, ..open } == open);
    assert(f.dir_read(dir, 0, max_entries) == open.dir_read(dir, 0, max_entries));
    assert(lines.skip(0) =~= lines);
}

} // verus!
