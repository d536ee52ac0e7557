//! What is shown of files and directories: their attributes, their contents and their entries.

use vstd::prelude::*;

use crate::cache::memory;
use crate::git::tree::{TreeEntryMode, TreeItem};
use crate::git::tree_laws;
use crate::nfs::fs;
use crate::nfs::fs::{EntryView, FileAttr, FileType, FsView, NfsStatus, ReadView, StepView};
use crate::nfs::laws as fs_laws;
use crate::staging;
use crate::vfs::filter;
use crate::vfs::inode::{DirView, NodeView, VfsError, VfsView, ROOT_INODE};
use crate::vfs::laws;

verus! {

// ---------------------------------------------------------------------------------------------
// Attributes

/// The permissions of a node: those in the number of its mode, all of them for a symbolic link,
/// and those of a directory for a directory and a submodule.
pub open spec fn permissions(mode: TreeEntryMode) -> nat {
    match mode {
        TreeEntryMode::Directory | TreeEntryMode::Submodule => 0o755,
        TreeEntryMode::Symlink => 0o777,
        _ => tree_laws::mode_number(mode) % 0o1000,
    }
}

/// Whether attributes are those of a node, with a size.
pub open spec fn are_of(attr: FileAttr, f: FsView, node: NodeView, size: u64) -> bool {
    &&& attr.fileid == node.id
    &&& attr.ftype == FileType::Directory <==> node.is_dir
    &&& attr.ftype == FileType::Symlink <==> !node.is_dir && node.mode == TreeEntryMode::Symlink
    &&& attr.mode == permissions(node.mode)
    &&& node.is_dir ==> attr.nlink == 2
    &&& !node.is_dir ==> attr.nlink == 1
    &&& attr.uid == f.uid
    &&& attr.gid == f.gid
    &&& attr.size == size
    &&& attr.used == size
    &&& attr.seconds == f.epoch
}

/// The size of a blob that is at hand: in memory, or else on disk.
pub open spec fn is_blob_size(f: FsView, oid: Seq<char>, size: u64) -> bool {
    match f.vfs.engine.cache.lookup(oid) {
        Some(data) => size == data.len() as u64,
        None => f.vfs.engine.disk.sizes.contains_key(oid) && f.vfs.engine.disk.sizes[oid] == size,
    }
}

/// Whether a blob is at hand.
pub open spec fn is_at_hand(f: FsView, oid: Seq<char>) -> bool {
    f.vfs.engine.cache.lookup(oid) is Some || f.vfs.engine.disk.sizes.contains_key(oid)
}

/// The size of a node: that of its edited contents, or else of its blob where that is at hand, or
/// else what was noted of it.
pub open spec fn is_size(f: FsView, id: u64, size: u64) -> bool {
    let oid = f.vfs.node(id).oid;
    if f.staging.staged.contains_key(id) {
        size == f.staging.staged[id].len() as u64
    } else if is_at_hand(f, oid) {
        is_blob_size(f, oid, size)
    } else {
        size == f.vfs.node(id).size
    }
}

proof fn lemma_low_bits(m: u32)
    by (bit_vector)
    ensures
        m & 0o777 == m % 0o1000,
{
}

proof fn lemma_attr_of(f: FsView, node: NodeView, size: u64)
    ensures
        are_of(fs::attr_of(node, size, f.uid, f.gid, f.epoch), f, node, size),
{
    lemma_low_bits(node.mode.posix());
}

proof fn lemma_attr(f: FsView, id: u64)
    ensures
        ({
            let (next, attr) = f.attr(id);
            &&& are_of(attr, f, f.vfs.node(id), attr.size)
            &&& is_size(f, id, attr.size)
            &&& fs_laws::is_same_tree(f, next)
            &&& next.uid == f.uid && next.gid == f.gid && next.epoch == f.epoch
            &&& next.vfs.engine.disk == f.vfs.engine.disk
            &&& f.vfs.engine.cache.wf() ==> next.vfs.engine.cache.wf() && forall|oid: Seq<char>|
                #[trigger] next.vfs.engine.cache.lookup(oid) == f.vfs.engine.cache.lookup(oid)
        }),
{
    let (next, attr) = f.attr(id);
    lemma_attr_of(f, f.vfs.node(id), attr.size);
    if f.vfs.engine.cache.wf() {
        let oid = f.vfs.node(id).oid;
        memory::lemma_asked(f.vfs.engine.cache, oid, oid);
        assert forall|other: Seq<char>| #[trigger] next.vfs.engine.cache.lookup(other)
            == f.vfs.engine.cache.lookup(other) by {
            memory::lemma_asked(f.vfs.engine.cache, oid, other);
        }
    }
}

/// The attributes of a node that is there are its own: its type, its permissions, its owner, and
/// the size of its contents. Where the size is not known yet, its blob is asked for; a node that
/// is not there has none.
pub proof fn lemma_attributes(f: FsView, id: u64)
    requires
        f.vfs.wf(),
        f.vfs.engine.cache.wf(),
    ensures
        !f.is_there(id) ==> f.attr_asked(id) == (
            f,
            StepView::<FileAttr>::Done(Err(NfsStatus::NoEnt)),
        ),
        f.is_there(id) ==> {
            let node = f.vfs.node(id);
            match f.attr_asked(id).1 {
                StepView::Done(Ok(attr)) => {
                    &&& are_of(attr, f, node, attr.size)
                    &&& is_size(f, id, attr.size)
                    &&& node.is_dir || f.staging.staged.contains_key(id) || node.oid.len() == 0
                        || is_at_hand(f, node.oid)
                },
                StepView::Fetch(oid) => {
                    &&& oid == node.oid
                    &&& !node.is_dir
                    &&& !f.staging.staged.contains_key(id)
                    &&& !is_at_hand(f, node.oid)
                },
                _ => false,
            }
        },
{
    if f.is_there(id) {
        let node = f.vfs.node(id);
        lemma_attr(f, id);
        if !(node.is_dir || f.staging.staged.contains_key(id) || node.oid.len() == 0) {
            let asked = f.with_engine(f.vfs.engine.asked(node.oid));
            memory::lemma_asked(f.vfs.engine.cache, node.oid, node.oid);
            match f.vfs.engine.known_size(node.oid) {
                Some(len) => {
                    lemma_attr(asked.resized(id, len), id);
                    let (_, attr) = asked.resized(id, len).attr(id);
                    lemma_attr_of(f, node, attr.size);
                },
                None => {},
            }
        }
    }
}

/// Once the blob of a file was fetched, its length is the size that is shown.
pub proof fn lemma_attributes_fetched(f: FsView, id: u64, len: u64)
    requires
        f.vfs.has(id),
        !f.staging.staged.contains_key(id),
        !is_at_hand(f, f.vfs.node(id).oid),
    ensures
        f.attr_fetched(id, Some(len)).1 matches Ok(attr) && are_of(attr, f, f.vfs.node(id), len),
        f.attr_fetched(id, None).1 matches Ok(attr) && are_of(
            attr,
            f,
            f.vfs.node(id),
            f.vfs.node(id).size,
        ),
{
    lemma_attr(f, id);
    lemma_attr(f.resized(id, len), id);
    lemma_attr_of(f, f.vfs.node(id), len);
}

// ---------------------------------------------------------------------------------------------
// Contents

/// What is read of a file that was edited is the part of its contents that was asked for; of one
/// that was not, its blob is asked for, and then that part of it is read. A directory is not read,
/// nor what is not there.
pub proof fn lemma_contents(f: FsView, id: u64, offset: u64, count: u32)
    ensures
        !f.is_there(id) ==> f.read_asked(id, offset, count) == (
            f,
            ReadView::Done(Err(NfsStatus::NoEnt)),
        ),
        f.is_there(id) && f.vfs.node(id).is_dir ==> f.read_asked(id, offset, count) == (
            f,
            ReadView::Done(Err(NfsStatus::IsDir)),
        ),
        f.is_there(id) && !f.vfs.node(id).is_dir && f.staging.staged.contains_key(id)
            ==> (f.read_asked(id, offset, count) matches (same, ReadView::Done(Ok((data, eof))))
            && same == f && staging::is_part(
            f.staging.staged[id],
            offset as int,
            count as int,
            data,
            eof,
        )),
        f.is_there(id) && !f.vfs.node(id).is_dir && !f.staging.staged.contains_key(id)
            && f.vfs.node(id).oid.len() == 0 ==> f.read_asked(id, offset, count) == (
            f,
            ReadView::Done(Ok((Seq::<u8>::empty(), true))),
        ),
        f.is_there(id) && !f.vfs.node(id).is_dir && !f.staging.staged.contains_key(id)
            && f.vfs.node(id).oid.len() > 0 ==> (f.read_asked(id, offset, count).1 matches
            ReadView::Fetch { oid, .. } && oid == f.vfs.node(id).oid),
{
    if f.staging.staged.contains_key(id) {
        staging::lemma_read(f.staging.staged[id], offset as int, count as int);
    }
}

/// What is read of a blob is the part of it that was asked for, and its length is then the file's.
pub proof fn lemma_blob_contents(f: FsView, id: u64, offset: u64, count: u32, blob: Seq<u8>)
    requires
        f.vfs.has(id),
        blob.len() <= u64::MAX,
    ensures
        f.read_fetched(id, offset, count, Some(blob)) matches (after, Ok((data, eof)))
            && staging::is_part(blob, offset as int, count as int, data, eof)
            && after.vfs.node(id).size == blob.len(),
        f.read_fetched(id, offset, count, None) == (
            f,
            Err::<(Seq<u8>, bool), NfsStatus>(NfsStatus::Io),
        ),
{
    staging::lemma_read(blob, offset as int, count as int);
}

/// What a file held before an edit: what was written to it, or else its blob.
pub open spec fn held(f: FsView, id: u64, base: Option<Seq<u8>>) -> Seq<u8> {
    if f.staging.staged.contains_key(id) {
        f.staging.staged[id]
    } else if base is Some {
        base->0
    } else {
        Seq::empty()
    }
}

/// Whether one file alone has other contents, and all else stays as it was but for the size of
/// that file and what is noted of the edit.
pub open spec fn is_edit_of(f: FsView, after: FsView, id: u64, contents: Seq<u8>) -> bool {
    &&& after.staging.staged == f.staging.staged.insert(id, contents)
    &&& after.staging.staged_ids.contains(id)
    &&& after.staging.deleted == f.staging.deleted
    &&& after.vfs.dirs == f.vfs.dirs
    &&& after.vfs.nodes.len() == f.vfs.nodes.len()
    &&& forall|i: int|
        0 <= i < f.vfs.nodes.len() ==> #[trigger] after.vfs.nodes[i] == (NodeView {
            size: after.vfs.nodes[i].size,
            ..f.vfs.nodes[i]
        })
}

/// A write puts its bytes into the file where it says: the bytes before and behind stay, what lies
/// between the end and the offset is zero, and no other file changes. The size that is shown is
/// then that of the contents.
pub proof fn lemma_write_shown(
    f: FsView,
    id: u64,
    offset: u64,
    data: Seq<u8>,
    base: Option<Seq<u8>>,
    now: u64,
    i: int,
)
    requires
        f.vfs.has(id),
        data.len() > 0,
    ensures
        f.written(id, offset, data, base, now) matches (after, Ok((attr, _))) ==> {
            let before = held(f, id, base);
            let contents = after.staging.staged[id];
            &&& is_edit_of(f, after, id, contents)
            &&& contents.len() == (if offset + data.len() > before.len() {
                offset + data.len()
            } else {
                before.len() as int
            })
            &&& 0 <= i < data.len() ==> contents[offset + i] == data[i]
            &&& 0 <= i < before.len() && (i < offset || i >= offset + data.len()) ==> contents[i]
                == before[i]
            &&& before.len() <= i < offset ==> contents[i] == 0
            &&& attr.size == contents.len() as u64
            &&& after.uncommitted || f.vfs.resized(id, contents.len() as u64).path_of(id) is Err
        },
{
    let before = held(f, id, base);
    assert(before == f.staging.base(id, base));
    staging::lemma_written(before, offset as int, data, i);
    crate::maps::lemma_added(f.staging.staged_ids, id);
    let (after, r) = f.written(id, offset, data, base, now);
    if r is Ok {
        let contents = staging::written(before, offset as int, data);
        assert(after.staging.staged =~= f.staging.staged.insert(id, contents));
    }
}

/// Cutting a file off, or making it longer, keeps what stands before and puts zeros behind, and no
/// other file changes.
pub proof fn lemma_truncate_shown(
    f: FsView,
    id: u64,
    new_size: u64,
    base: Option<Seq<u8>>,
    now: u64,
    i: int,
)
    requires
        f.vfs.has(id),
    ensures
        f.truncated(id, new_size, base, now) matches (after, Ok((attr, _))) ==> {
            let before = held(f, id, base);
            let contents = after.staging.staged[id];
            &&& is_edit_of(f, after, id, contents)
            &&& contents.len() == new_size
            &&& 0 <= i < new_size && i < before.len() ==> contents[i] == before[i]
            &&& before.len() <= i < new_size ==> contents[i] == 0
            &&& attr.size == new_size
        },
{
    let before = held(f, id, base);
    assert(before == f.staging.base(id, base));
    staging::lemma_resized(before, new_size as nat, i);
    crate::maps::lemma_added(f.staging.staged_ids, id);
    let (after, r) = f.truncated(id, new_size, base, now);
    if r is Ok {
        let contents = staging::resized(before, new_size as nat);
        assert(after.staging.staged =~= f.staging.staged.insert(id, contents));
    }
}

// ---------------------------------------------------------------------------------------------
// Names

/// A name that is found is that of a child which is there: of that name, in that directory. One
/// and two dots stand for the directory and its parent.
pub proof fn lemma_found_only(f: FsView, dir: u64, name: Seq<char>)
    requires
        f.vfs.wf(),
        laws::has_room(f.vfs, dir),
    ensures
        f.found(dir, name) matches (after, Ok(id)) ==> {
            &&& !filter::apple_metadata(name)
            &&& !f.staging.deleted.contains(id)
            &&& name == "."@ ==> id == dir
            &&& name == ".."@ ==> id == f.vfs.node(dir).parent
            &&& laws::is_child_name(name) ==> after.is_there(id) && after.vfs.node(id).name == name
                && after.vfs.node(id).parent == dir
        },
        f.vfs.has(dir) && !f.staging.deleted.contains(dir) && !filter::apple_metadata("."@)
            ==> f.found(dir, "."@) == (f, Ok::<u64, NfsStatus>(dir)),
        f.vfs.has(dir) && !f.staging.deleted.contains(f.vfs.node(dir).parent)
            && !filter::apple_metadata(".."@) ==> f.found(dir, ".."@) == (
            f,
            Ok::<u64, NfsStatus>(f.vfs.node(dir).parent),
        ),
{
    laws::lemma_opened_once(f.vfs, dir);
    reveal_strlit(".");
    reveal_strlit("..");
    assert("."@.len() != ".."@.len());
    if f.vfs.has(dir) {
        assert(f.vfs.name_ok(dir - 1, name));
    }
    match f.vfs.opened(dir) {
        Ok(next) => {
            assert(next.name_ok(dir - 1, name));
        },
        Err(_) => {},
    }
}

/// In a directory that was looked at, a name is found exactly where a child goes by it.
pub proof fn lemma_found_where(f: FsView, dir: u64, name: Seq<char>)
    requires
        f.vfs.wf(),
        f.vfs.is_open(dir),
        laws::is_child_name(name),
        !filter::apple_metadata(name),
    ensures
        match f.vfs.child(dir, name) {
            Some(id) => if f.staging.deleted.contains(id) {
                f.found(dir, name) == (f, Err::<u64, NfsStatus>(NfsStatus::NoEnt))
            } else {
                f.found(dir, name) == (f, Ok::<u64, NfsStatus>(id))
            },
            None => f.found(dir, name) == (f, Err::<u64, NfsStatus>(NfsStatus::NoEnt)),
        },
{
    assert(f.vfs.name_ok(dir - 1, name));
}

proof fn lemma_entry_nodes(v: VfsView, dir: u64, items: Seq<TreeItem>, name: Seq<char>)
    requires
        v.nodes.len() == v.dirs.len(),
        v.is_open(dir),
        v.nodes.len() + items.len() <= u64::MAX,
    ensures
        ({
            let w = v.with_entries(dir, items);
            let n = v.nodes.len();
            &&& w.nodes.len() == n + items.len()
            &&& w.listing(dir) == v.listing(dir) + Seq::new(
                items.len(),
                |k: int| (n + k + 1) as u64,
            )
            &&& forall|k: int|
                0 <= k < items.len() ==> laws::shows(#[trigger] w.nodes[n + k], dir, items[k])
            &&& (forall|k: int| 0 <= k < items.len() ==> (#[trigger] items[k]).name != name)
                ==> w.child(dir, name) == v.child(dir, name)
        }),
    decreases items.len(),
{
    let w = v.with_entries(dir, items);
    let n = v.nodes.len();
    let ids = Seq::new(items.len(), |k: int| (n + k + 1) as u64);
    if items.len() == 0 {
        assert(v.listing(dir) + ids =~= v.listing(dir));
    } else {
        let front = items.drop_last();
        let before = v.with_entries(dir, front);
        lemma_entry_nodes(v, dir, front, name);
        v.lemma_with_entries(dir, front, dir);
        let had = Seq::new(front.len(), |k: int| (n + k + 1) as u64);
        assert(v.listing(dir) + ids =~= (v.listing(dir) + had).push((n + items.len()) as u64));
        assert forall|k: int| 0 <= k < items.len() implies laws::shows(
            #[trigger] w.nodes[n + k],
            dir,
            items[k],
        ) by {
            if k < front.len() {
                assert(front[k] == items[k]);
                assert(w.nodes[n + k] == before.nodes[n + k]);
            }
        }
        if forall|k: int| 0 <= k < items.len() ==> (#[trigger] items[k]).name != name {
            assert forall|k: int| 0 <= k < front.len() implies (#[trigger] front[k]).name
                != name by {
                assert(front[k] == items[k]);
            }
            assert(items[items.len() - 1].name != name);
        }
    }
}

/// A directory of the repository lists a node for each entry of its tree, in their order and no
/// other: with the entry's name, mode and object. A name that no entry has is not found.
pub proof fn lemma_tree_listed(v: VfsView, dir: u64, name: Seq<char>)
    requires
        v.wf(),
        v.has(dir),
        v.node(dir).is_dir,
        !v.is_open(dir),
        v.engine.trees.contains_key(v.node(dir).oid),
        v.nodes.len() + v.engine.trees[v.node(dir).oid].len() <= u64::MAX,
    ensures
        v.opened(dir) matches Ok(next) && {
            let items = v.engine.trees[v.node(dir).oid];
            &&& next.listed(dir).len() == items.len()
            &&& forall|k: int|
                0 <= k < items.len() ==> laws::shows(
                    #[trigger] next.listed(dir)[k],
                    dir,
                    items[k],
                )
            &&& (forall|k: int| 0 <= k < items.len() ==> (#[trigger] items[k]).name != name)
                && laws::is_child_name(name) ==> v.looked_up(dir, name) == (
                next,
                Err::<u64, VfsError>(VfsError::ChildNotFound),
            )
        },
{
    let items = v.engine.trees[v.node(dir).oid];
    let empty = v.with_dir(dir, DirView { listing: Some(Seq::empty()), ..v.dir(dir) });
    assert(v.dir_ok(dir - 1));
    lemma_entry_nodes(empty, dir, items, name);
    let next = v.opened(dir)->Ok_0;
    let ids = Seq::new(items.len(), |k: int| (v.nodes.len() + k + 1) as u64);
    assert(Seq::<u64>::empty() + ids =~= ids);
    assert(next.listing(dir) == ids);
    assert forall|k: int| 0 <= k < ids.len() implies next.is_live(#[trigger] ids[k]) && next.node(
        ids[k],
    ) == next.nodes[v.nodes.len() + k] by {
        assert(laws::shows(next.nodes[empty.nodes.len() + k], dir, items[k]));
    }
    lemma_all_live(next, ids);
    assert forall|k: int| 0 <= k < items.len() implies laws::shows(
        #[trigger] next.listed(dir)[k],
        dir,
        items[k],
    ) by {
        assert(next.listed(dir)[k] == next.node(ids[k]));
        assert(laws::shows(next.nodes[empty.nodes.len() + k], dir, items[k]));
    }
}

proof fn lemma_all_live(v: VfsView, ids: Seq<u64>)
    requires
        forall|k: int| 0 <= k < ids.len() ==> v.is_live(#[trigger] ids[k]),
    ensures
        v.live_nodes(ids) == Seq::new(ids.len(), |k: int| v.node(ids[k])),
    decreases ids.len(),
{
    let all = Seq::new(ids.len(), |k: int| v.node(ids[k]));
    if ids.len() == 0 {
        assert(all =~= v.live_nodes(ids));
    } else {
        let front = ids.drop_last();
        assert forall|k: int| 0 <= k < front.len() implies v.is_live(#[trigger] front[k]) by {
            assert(front[k] == ids[k]);
        }
        lemma_all_live(v, front);
        assert(v.is_live(ids[ids.len() - 1]));
        assert(all =~= v.live_nodes(ids));
    }
}

// ---------------------------------------------------------------------------------------------
// Entries

/// Whether an entry of a directory shows a node: its number, the bytes of its name, and its
/// attributes.
pub open spec fn is_entry_of(e: EntryView, f: FsView, id: u64) -> bool {
    &&& e.fileid == id
    &&& e.name == vstd::utf8::encode_utf8(f.vfs.node(id).name)
    &&& are_of(e.attr, f, f.vfs.node(id), e.attr.size)
    &&& is_size(f, id, e.attr.size)
}

/// Whether two file systems show the same sizes.
spec fn is_alike(f: FsView, g: FsView) -> bool {
    &&& fs_laws::is_same_tree(f, g)
    &&& g.uid == f.uid && g.gid == f.gid && g.epoch == f.epoch
    &&& g.vfs.engine.disk == f.vfs.engine.disk
    &&& g.vfs.engine.cache.wf()
    &&& forall|oid: Seq<char>| #[trigger]
        g.vfs.engine.cache.lookup(oid) == f.vfs.engine.cache.lookup(oid)
}

proof fn lemma_alike_entry(f: FsView, g: FsView, id: u64)
    requires
        is_alike(f, g),
    ensures
        is_alike(f, g.attr(id).0),
        are_of(g.attr(id).1, f, f.vfs.node(id), g.attr(id).1.size),
        is_size(f, id, g.attr(id).1.size),
{
    lemma_attr(g, id);
    let (next, attr) = g.attr(id);
    assert forall|oid: Seq<char>| #[trigger] next.vfs.engine.cache.lookup(oid)
        == f.vfs.engine.cache.lookup(oid) by {
        assert(g.vfs.engine.cache.lookup(oid) == f.vfs.engine.cache.lookup(oid));
    }
    let oid = f.vfs.node(id).oid;
    assert(g.vfs.engine.cache.lookup(oid) == f.vfs.engine.cache.lookup(oid));
}

spec fn are_entries_of(
    entries: Seq<EntryView>,
    f: FsView,
    nodes: Seq<NodeView>,
    before: Seq<EntryView>,
) -> bool {
    &&& entries.len() >= before.len()
    &&& forall|i: int| 0 <= i < before.len() ==> #[trigger] entries[i] == before[i]
    &&& forall|i: int|
        before.len() <= i < entries.len() ==> is_shown(#[trigger] entries[i], f, nodes)
}

spec fn is_shown(e: EntryView, f: FsView, nodes: Seq<NodeView>) -> bool {
    exists|k: int|
        0 <= k < nodes.len() && is_entry_of(e, f, (#[trigger] nodes[k]).id)
            && !f.staging.deleted.contains(nodes[k].id)
}

proof fn lemma_entries(f: FsView, g: FsView, nodes: Seq<NodeView>, before: Seq<EntryView>)
    requires
        is_alike(f, g),
        forall|k: int|
            0 <= k < nodes.len() ==> f.vfs.node((#[trigger] nodes[k]).id) == nodes[k],
    ensures
        is_alike(f, g.entries(nodes, before).0),
        are_entries_of(g.entries(nodes, before).1, f, nodes, before),
        forall|k: int|
            0 <= k < nodes.len() && !f.staging.deleted.contains((#[trigger] nodes[k]).id)
                ==> has_entry(g.entries(nodes, before).1, nodes[k].id),
    decreases nodes.len(),
{
    if nodes.len() > 0 {
        let front = nodes.drop_last();
        let node = nodes.last();
        assert forall|k: int| 0 <= k < front.len() implies f.vfs.node((#[trigger] front[k]).id)
            == front[k] by {
            assert(front[k] == nodes[k]);
        }
        lemma_entries(f, g, front, before);
        let (next, listed) = g.entries(front, before);
        let (after, all) = g.entries(nodes, before);
        lemma_alike_entry(f, next, node.id);
        assert(f.vfs.node(nodes[nodes.len() - 1].id) == node);
        assert forall|i: int| before.len() <= i < all.len() implies is_shown(
            #[trigger] all[i],
            f,
            nodes,
        ) by {
            if i < listed.len() {
                assert(all[i] == listed[i]);
                assert(is_shown(listed[i], f, front));
                let k = choose|k: int|
                    0 <= k < front.len() && is_entry_of(listed[i], f, (#[trigger] front[k]).id)
                        && !f.staging.deleted.contains(front[k].id);
                assert(nodes[k] == front[k]);
            } else {
                assert(is_entry_of(all[i], f, nodes[nodes.len() - 1].id));
            }
        }
        assert forall|k: int|
            0 <= k < nodes.len() && !f.staging.deleted.contains(
                (#[trigger] nodes[k]).id,
            ) implies has_entry(all, nodes[k].id) by {
            if k < front.len() {
                assert(front[k] == nodes[k]);
                assert(has_entry(listed, front[k].id));
                let i = choose|i: int|
                    0 <= i < listed.len() && (#[trigger] listed[i]).fileid == front[k].id;
                assert(all[i].fileid == nodes[k].id);
            } else {
                assert(all[listed.len() as int].fileid == node.id);
            }
        }
    }
}

/// Whether an entry has a number.
pub open spec fn has_entry(entries: Seq<EntryView>, id: u64) -> bool {
    exists|i: int| 0 <= i < entries.len() && (#[trigger] entries[i]).fileid == id
}

/// Whether an entry shows a child of a directory that is there.
pub open spec fn shows_child(e: EntryView, f: FsView, dir: u64) -> bool {
    &&& f.is_there(e.fileid)
    &&& f.vfs.node(e.fileid).parent == dir
    &&& is_entry_of(e, f, e.fileid)
}

/// The entries of a directory are itself under one dot, its parent under two, and behind them each
/// child that is there, with its name and its attributes, and nothing else.
pub proof fn lemma_all_shown(f: FsView, dir: u64, id: u64)
    requires
        f.vfs.wf(),
        f.vfs.engine.cache.wf(),
        f.vfs.is_open(dir),
    ensures
        ({
            let (_, all) = f.all_entries(dir);
            let up = f.vfs.node(dir).parent;
            &&& all.len() >= 2
            &&& all[0].fileid == dir && all[0].name == seq![0x2eu8] && are_of(
                all[0].attr,
                f,
                f.vfs.node(dir),
                all[0].attr.size,
            )
            &&& all[1].fileid == up && all[1].name == seq![0x2eu8, 0x2e]
            &&& f.vfs.is_live(up) ==> are_of(all[1].attr, f, f.vfs.node(up), all[1].attr.size)
            &&& forall|i: int| 2 <= i < all.len() ==> shows_child(#[trigger] all[i], f, dir)
            &&& f.is_there(id) && f.vfs.node(id).parent == dir && id != ROOT_INODE ==> has_entry(
                all.skip(2),
                id,
            )
        }),
{
    let node = f.vfs.node(dir);
    let (first, this) = f.entry(dir, seq![46u8], dir);
    let other = if f.vfs.is_live(node.parent) {
        node.parent
    } else {
        dir
    };
    let (second, up) = first.entry(node.parent, seq![46u8, 46], other);
    lemma_alike_entry(f, f, dir);
    lemma_alike_entry(f, first, other);
    let ids = f.vfs.listing(dir);
    let nodes = f.vfs.listed(dir);
    assert forall|k: int| 0 <= k < ids.len() && f.vfs.has(#[trigger] ids[k]) implies f.vfs.node(
        ids[k],
    ).id == ids[k] by {
        assert(f.vfs.node_ok(ids[k] - 1));
    }
    lemma_listed_nodes(f.vfs, ids);
    lemma_entries(f, second, nodes, seq![this, up]);
    let (_, all) = f.all_entries(dir);
    assert(all[0] == this && all[1] == up);
    assert forall|i: int| 2 <= i < all.len() implies shows_child(#[trigger] all[i], f, dir) by {
        assert(is_shown(all[i], f, nodes));
        let k = choose|k: int|
            0 <= k < nodes.len() && is_entry_of(all[i], f, (#[trigger] nodes[k]).id)
                && !f.staging.deleted.contains(nodes[k].id);
        let j = choose|j: int| 0 <= j < ids.len() && ids[j] == nodes[k].id;
        assert(f.vfs.listed_ok(dir - 1, j));
    }
    if f.is_there(id) && f.vfs.node(id).parent == dir && id != ROOT_INODE {
        laws::lemma_listed_once(f.vfs, id);
        let k = choose|k: int| #[trigger] laws::is_listed_at(f.vfs.listed(dir), k, id);
        assert(nodes[k].id == id);
        lemma_entries_behind(f, second, nodes, seq![this, up], id);
        assert(all.skip(2) =~= second.entries(nodes, seq![this, up]).1.skip(2));
    }
}

proof fn lemma_entries_behind(
    f: FsView,
    g: FsView,
    nodes: Seq<NodeView>,
    before: Seq<EntryView>,
    id: u64,
)
    requires
        f.staging == g.staging,
        !f.staging.deleted.contains(id),
        exists|k: int| 0 <= k < nodes.len() && (#[trigger] nodes[k]).id == id,
    ensures
        g.entries(nodes, before).1.len() >= before.len(),
        has_entry(g.entries(nodes, before).1.skip(before.len() as int), id),
    decreases nodes.len(),
{
    let front = nodes.drop_last();
    let node = nodes.last();
    let (next, listed) = g.entries(front, before);
    let (after, all) = g.entries(nodes, before);
    let n = before.len() as int;
    lemma_entries_longer(g, front, before);
    if node.id == id {
        assert(all.skip(n)[listed.len() - n].fileid == id);
    } else {
        let k = choose|k: int| 0 <= k < nodes.len() && (#[trigger] nodes[k]).id == id;
        assert(front[k] == nodes[k]);
        lemma_entries_behind(f, g, front, before, id);
        let i = choose|i: int|
            0 <= i < listed.skip(n).len() && (#[trigger] listed.skip(n)[i]).fileid == id;
        assert(all.skip(n)[i] == listed.skip(n)[i]);
    }
}

proof fn lemma_entries_longer(g: FsView, nodes: Seq<NodeView>, before: Seq<EntryView>)
    ensures
        g.entries(nodes, before).1.len() >= before.len(),
    decreases nodes.len(),
{
    if nodes.len() > 0 {
        lemma_entries_longer(g, nodes.drop_last(), before);
    }
}

proof fn lemma_listed_nodes(v: VfsView, ids: Seq<u64>)
    requires
        forall|k: int| 0 <= k < ids.len() && v.has(#[trigger] ids[k]) ==> v.node(ids[k]).id
            == ids[k],
    ensures
        forall|k: int|
            0 <= k < v.live_nodes(ids).len() ==> {
                let node = #[trigger] v.live_nodes(ids)[k];
                ids.contains(node.id) && v.is_live(node.id) && v.node(node.id) == node
            },
    decreases ids.len(),
{
    if ids.len() > 0 {
        let front = ids.drop_last();
        assert forall|k: int| 0 <= k < front.len() && v.has(#[trigger] front[k]) implies v.node(
            front[k],
        ).id == front[k] by {
            assert(front[k] == ids[k]);
        }
        lemma_listed_nodes(v, front);
        let before = v.live_nodes(front);
        let all = v.live_nodes(ids);
        assert forall|k: int| 0 <= k < all.len() implies {
            let node = #[trigger] all[k];
            ids.contains(node.id) && v.is_live(node.id) && v.node(node.id) == node
        } by {
            if k < before.len() {
                assert(all[k] == before[k]);
                let j = choose|j: int| 0 <= j < front.len() && front[j] == before[k].id;
                assert(ids[j] == before[k].id);
            } else {
                assert(ids[ids.len() - 1] == ids.last());
            }
        }
    }
}

/// A page of a directory holds the entries behind the one that it starts after, in their order and
/// as many as were asked for or as are left; it says that it is the last exactly where none is
/// left. Starting after none, it holds the first. Only what is no directory, or not there, has no
/// page.
pub proof fn lemma_page(f: FsView, dir: u64, start_after: u64, max_entries: usize, k: int)
    requires
        f.vfs.is_live(dir),
        f.vfs.node(dir).is_dir,
        f.vfs.is_open(dir),
        if start_after == 0 {
            k == 0
        } else {
            is_behind(f.all_entries(dir).1, start_after, k)
        },
    ensures
        f.dir_read(dir, start_after, max_entries).1 matches Ok(page) && {
            let (_, all) = f.all_entries(dir);
            &&& page.entries.len() == (if max_entries < all.len() - k {
                max_entries as int
            } else {
                all.len() - k
            })
            &&& forall|i: int|
                0 <= i < page.entries.len() ==> #[trigger] page.entries[i] == all[k + i]
            &&& page.end <==> k + page.entries.len() == all.len()
        },
{
    let (_, all) = f.all_entries(dir);
    assert(FsView { vfs: f.vfs, ..f } == f);
    if start_after != 0 {
        lemma_behind(all, start_after, k, 0);
    }
}

/// Whether the first entry of a number stands just before the `k`-th.
pub open spec fn is_behind(entries: Seq<EntryView>, fileid: u64, k: int) -> bool {
    &&& 0 < k <= entries.len()
    &&& entries[k - 1].fileid == fileid
    &&& forall|i: int| 0 <= i < k - 1 ==> (#[trigger] entries[i]).fileid != fileid
}

proof fn lemma_behind(entries: Seq<EntryView>, fileid: u64, k: int, from: int)
    requires
        is_behind(entries, fileid, k),
        0 <= from < k,
    ensures
        fs::place_behind(entries, fileid, from) == k,
    decreases k - from,
{
    if from < k - 1 {
        assert(entries[from].fileid != fileid);
        lemma_behind(entries, fileid, k, from + 1);
    }
}

/// What is not there has no page, nor what is no directory.
pub proof fn lemma_no_page(f: FsView, dir: u64, start_after: u64, max_entries: usize)
    ensures
        !f.vfs.is_live(dir) ==> (f.dir_read(dir, start_after, max_entries).1 matches Err(e) && e
            == NfsStatus::NoEnt),
        f.vfs.is_live(dir) && !f.vfs.node(dir).is_dir ==> (f.dir_read(
            dir,
            start_after,
            max_entries,
        ).1 matches Err(e) && e == NfsStatus::NotDir),
{
}

} // verus!
