//! What holds of the directory tree across operations.

use vstd::prelude::*;

use crate::git::engine::EngineView;
use crate::git::tree::{TreeEntryMode, TreeItem};
use crate::text;
use crate::vfs::inode;
use crate::vfs::inode::{DirView, NodeView, VfsError, VfsView, ROOT_INODE};

verus! {

/// Whether a name can be given to a child: neither of the two that stand for directories.
pub open spec fn is_child_name(name: Seq<char>) -> bool {
    name != "."@ && name != ".."@
}

/// Whether the numbers suffice for the children of a directory, and for one node more.
pub open spec fn has_room(v: VfsView, dir: u64) -> bool {
    v.opened(dir) matches Ok(next) ==> next.nodes.len() < u64::MAX
}

proof fn lemma_entries_wf(v: VfsView, dir: u64, items: Seq<TreeItem>)
    requires
        v.wf(),
        v.is_open(dir),
        v.nodes.len() + items.len() <= u64::MAX,
    ensures
        v.with_entries(dir, items).wf(),
        v.with_entries(dir, items).is_open(dir),
    decreases items.len(),
{
    if items.len() > 0 {
        let front = items.drop_last();
        let item = items.last();
        lemma_entries_wf(v, dir, front);
        v.lemma_with_entries(dir, front, dir);
        let before = v.with_entries(dir, front);
        if item.mode == TreeEntryMode::Directory {
            before.lemma_with_child(dir, item.name, item.oid, item.mode, true, 4096);
        } else {
            let asked = VfsView { engine: before.engine.asked(item.oid), ..before };
            asked.lemma_engine_aside(before);
            asked.lemma_with_child(
                dir,
                item.name,
                item.oid,
                item.mode,
                false,
                before.engine.shown_size(item.oid),
            );
        }
    }
}

/// Looking at a directory keeps the tree what it is; looking again changes nothing.
pub proof fn lemma_opened_once(v: VfsView, dir: u64)
    requires
        v.wf(),
    ensures
        v.opened(dir) matches Ok(next) ==> next.nodes.len() <= u64::MAX ==> next.wf()
            && next.is_open(dir) && next.opened(dir) == Ok::<_, VfsError>(next),
{
    if !v.is_open(dir) && v.has(dir) && v.node(dir).is_dir {
        let empty = v.with_dir(dir, DirView { listing: Some(Seq::empty()), ..v.dir(dir) });
        v.lemma_with_listing(dir);
        if v.engine.trees.contains_key(v.node(dir).oid) {
            let items = v.engine.trees[v.node(dir).oid];
            empty.lemma_with_entries(dir, items, dir);
            if empty.nodes.len() + items.len() <= u64::MAX {
                lemma_entries_wf(empty, dir, items);
            }
        }
    }
}

/// Whether a node shows an entry of a tree in a directory.
pub open spec fn shows(node: NodeView, dir: u64, item: TreeItem) -> bool {
    &&& node.name == item.name
    &&& node.oid == item.oid
    &&& node.mode == item.mode
    &&& node.is_dir == (item.mode == TreeEntryMode::Directory)
    &&& node.parent == dir
    &&& !node.is_deleted
}

proof fn lemma_entries_shown(v: VfsView, dir: u64, items: Seq<TreeItem>, k: int)
    requires
        v.wf(),
        v.is_open(dir),
        v.nodes.len() + items.len() <= u64::MAX,
        0 <= k < items.len(),
        forall|j: int| k < j < items.len() ==> (#[trigger] items[j]).name != items[k].name,
    ensures
        ({
            let after = v.with_entries(dir, items);
            let id = (v.nodes.len() + k + 1) as u64;
            &&& after.child(dir, items[k].name) == Some(id)
            &&& after.is_live(id)
            &&& shows(after.node(id), dir, items[k])
        }),
    decreases items.len(),
{
    let front = items.drop_last();
    v.lemma_with_entries(dir, front, dir);
    v.lemma_with_entries(dir, items, dir);
    if k < front.len() {
        assert(front[k] == items[k]);
        assert forall|j: int| k < j < front.len() implies (#[trigger] front[j]).name
            != front[k].name by {
            assert(front[j] == items[j]);
        }
        lemma_entries_shown(v, dir, front, k);
        assert(items[items.len() - 1].name != items[k].name);
    }
}

/// The tree of a repository of which nothing was looked at is a tree.
pub proof fn lemma_fresh(engine: EngineView, root_oid: Seq<char>)
    ensures
        VfsView::fresh(engine, root_oid).wf(),
        !VfsView::fresh(engine, root_oid).is_open(ROOT_INODE),
{
}

/// A directory shows the entries of its tree: each is found under its name, as a node that
/// stands for the same object.
pub proof fn lemma_tree_shown(v: VfsView, dir: u64, items: Seq<TreeItem>, k: int)
    requires
        v.wf(),
        v.has(dir),
        v.node(dir).is_dir,
        !v.is_open(dir),
        v.engine.trees.contains_key(v.node(dir).oid),
        v.engine.trees[v.node(dir).oid] == items,
        v.nodes.len() + items.len() <= u64::MAX,
        0 <= k < items.len(),
        is_child_name(items[k].name),
        forall|j: int| k < j < items.len() ==> (#[trigger] items[j]).name != items[k].name,
    ensures
        v.looked_up(dir, items[k].name) matches (after, Ok(id)) && after.is_live(id) && shows(
            after.node(id),
            dir,
            items[k],
        ),
{
    let empty = v.with_dir(dir, DirView { listing: Some(Seq::empty()), ..v.dir(dir) });
    assert(v.dir_ok(dir - 1));
    v.lemma_with_listing(dir);
    lemma_entries_shown(empty, dir, items, k);
}

/// Whether a node is listed in a directory, and listed once.
pub open spec fn is_listed_once(v: VfsView, dir: u64, id: u64) -> bool {
    exists|k: int| #[trigger] is_listed_at(v.listed(dir), k, id)
}

/// Whether a node stands at one place of a list and at no other.
pub open spec fn is_listed_at(nodes: Seq<NodeView>, k: int, id: u64) -> bool {
    &&& 0 <= k < nodes.len()
    &&& nodes[k].id == id
    &&& forall|j: int| 0 <= j < nodes.len() && (#[trigger] nodes[j]).id == id ==> j == k
}

proof fn lemma_live_once(v: VfsView, ids: Seq<u64>, id: u64)
    requires
        v.wf(),
        ids.no_duplicates(),
    ensures
        forall|j: int|
            0 <= j < v.live_nodes(ids).len() ==> ids.contains((#[trigger] v.live_nodes(ids)[j]).id),
        ids.contains(id) && v.is_live(id) ==> exists|k: int| #[trigger]
            is_listed_at(v.live_nodes(ids), k, id),
    decreases ids.len(),
{
    if ids.len() > 0 {
        let front = ids.drop_last();
        let last = ids.last();
        let before = v.live_nodes(front);
        let all = v.live_nodes(ids);
        lemma_live_once(v, front, id);
        if v.is_live(last) {
            assert(v.node_ok(last - 1));
        }
        assert(forall|x: u64| front.contains(x) ==> ids.contains(x)) by {
            inode::lemma_pushed(front, last);
            assert(front.push(last) =~= ids);
        }
        assert(!front.contains(last)) by {
            if front.contains(last) {
                let i = choose|i: int| 0 <= i < front.len() && front[i] == last;
                assert(ids[i] == ids[ids.len() - 1]);
            }
        }
        assert(ids[ids.len() - 1] == last);
        assert forall|j: int| 0 <= j < all.len() implies ids.contains((#[trigger] all[j]).id) by {
            if j < before.len() {
                assert(all[j] == before[j]);
            }
        }
        if ids.contains(id) && v.is_live(id) {
            if id == last {
                assert forall|j: int| 0 <= j < all.len() && (#[trigger] all[j]).id == id implies j
                    == before.len() by {
                    if j < before.len() {
                        assert(all[j] == before[j]);
                        assert(front.contains(before[j].id));
                    }
                }
                assert(is_listed_at(all, before.len() as int, id));
            } else {
                let i = choose|i: int| 0 <= i < ids.len() && ids[i] == id;
                assert(front[i] == id);
                let k = choose|k: int| #[trigger] is_listed_at(before, k, id);
                assert(all[k] == before[k]);
                assert forall|j: int| 0 <= j < all.len() && (#[trigger] all[j]).id == id implies j
                    == k by {
                    if j < before.len() {
                        assert(all[j] == before[j]);
                    }
                }
                assert(is_listed_at(all, k, id));
            }
        }
    }
}

/// Every node but the root that was not removed is listed in its directory, and listed once; it
/// is listed in no other. What is found under a name is such a node.
pub proof fn lemma_listed_once(v: VfsView, id: u64)
    requires
        v.wf(),
        v.is_live(id),
        id != ROOT_INODE,
    ensures
        is_listed_once(v, v.node(id).parent, id),
        forall|dir: u64| #[trigger]
            v.is_open(dir) && dir != v.node(id).parent ==> !v.listing(dir).contains(id),
        forall|dir: u64, name: Seq<char>| #[trigger]
            v.child(dir, name) == Some(id) ==> dir == v.node(id).parent,
{
    let dir = v.node(id).parent;
    assert(v.node_ok(id - 1));
    assert(v.kept_ok(id - 1));
    assert(v.once_ok(dir - 1));
    assert(v.nodes[id - 1].id == id);
    assert(v.lists(dir - 1, id));
    assert(v.listing(dir).contains(id));
    lemma_live_once(v, v.listing(dir), id);
    let k = choose|k: int| #[trigger] is_listed_at(v.live_nodes(v.listing(dir)), k, id);
    assert(is_listed_at(v.listed(dir), k, id));
    assert forall|other: u64| #[trigger] v.is_open(other) && other != dir implies !v.listing(
        other,
    ).contains(id) by {
        let ids = v.listing(other);
        if ids.contains(id) {
            let k = choose|k: int| 0 <= k < ids.len() && ids[k] == id;
            assert(v.listed_ok(other - 1, k));
        }
    }
    assert forall|other: u64, name: Seq<char>| #[trigger]
        v.child(other, name) == Some(id) implies other == dir by {
        assert(v.name_ok(other - 1, name));
    }
}

/// A file that was created is found under its name, listed once, and empty.
pub proof fn lemma_created_found(v: VfsView, dir: u64, name: Seq<char>, mode: TreeEntryMode)
    requires
        v.wf(),
        is_child_name(name),
        has_room(v, dir),
    ensures
        v.created(dir, name, mode) matches (after, Ok(id)) ==> after.looked_up(dir, name) == (
            after,
            Ok::<u64, VfsError>(id),
        ) && after.node(id).size == 0 && is_listed_once(after, dir, id),
{
    lemma_opened_once(v, dir);
    match v.opened(dir) {
        Err(_) => {},
        Ok(next) => {
            assert(next.name_ok(dir - 1, name));
            let (after, r) = v.created(dir, name, mode);
            match next.child(dir, name) {
                Some(id) => {
                    assert(next.node_ok(id - 1));
                    next.lemma_with_node(id, after.node(id));
                },
                None => {
                    next.lemma_with_child(dir, name, Seq::empty(), mode, false, 0);
                },
            }
            lemma_listed_once(after, r->Ok_0);
        },
    }
}

/// A directory that was created is found under its name, listed once, and empty.
pub proof fn lemma_made_dir_found(v: VfsView, dir: u64, name: Seq<char>)
    requires
        v.wf(),
        is_child_name(name),
        has_room(v, dir),
    ensures
        v.made_dir(dir, name) matches (after, Ok(id)) ==> after.looked_up(dir, name) == (
            after,
            Ok::<u64, VfsError>(id),
        ) && after.node(id).is_dir && after.listed(id).len() == 0 && is_listed_once(
            after,
            dir,
            id,
        ),
{
    lemma_opened_once(v, dir);
    match v.opened(dir) {
        Err(_) => {},
        Ok(next) => {
            let (after, r) = v.made_dir(dir, name);
            let id = next.next_id();
            let mode = TreeEntryMode::Directory;
            next.lemma_with_child(dir, name, Seq::empty(), mode, true, 4096);
            next.with_child(dir, name, Seq::empty(), mode, true, 4096).lemma_with_listing(id);
            lemma_listed_once(after, id);
        },
    }
}

/// What was removed is not found under its name any more, nor listed.
pub proof fn lemma_removed_gone(v: VfsView, dir: u64, name: Seq<char>)
    requires
        v.wf(),
        is_child_name(name),
        has_room(v, dir),
    ensures
        v.removed(dir, name) matches (after, Ok(id)) ==> after.looked_up(dir, name) == (
            after,
            Err::<u64, VfsError>(VfsError::ChildNotFound),
        ) && !after.listing(dir).contains(id) && !after.is_live(id),
{
    lemma_opened_once(v, dir);
    match v.opened(dir) {
        Err(_) => {},
        Ok(next) => match next.child(dir, name) {
            None => {},
            Some(id) => {
                assert(next.name_ok(dir - 1, name));
                inode::lemma_without(next.listing(dir), id);
            },
        },
    }
}

/// What was renamed is found in its new place as the same node with the same contents, and listed
/// there once. It is no longer in its old place, unless that is the same: then nothing changes.
pub proof fn lemma_renamed_found(
    v: VfsView,
    from_dir: u64,
    from_name: Seq<char>,
    to_dir: u64,
    to_name: Seq<char>,
)
    requires
        v.wf(),
        is_child_name(from_name),
        is_child_name(to_name),
        has_room(v, from_dir),
        v.opened(from_dir) matches Ok(first) ==> has_room(first, to_dir),
    ensures
        v.renamed(from_dir, from_name, to_dir, to_name) matches (after, Ok(_)) ==> {
            let first = v.opened(from_dir)->Ok_0;
            let next = first.opened(to_dir)->Ok_0;
            let id = next.child(from_dir, from_name)->0;
            &&& after.looked_up(to_dir, to_name) == (after, Ok::<u64, VfsError>(id))
            &&& is_listed_once(after, to_dir, id)
            &&& from_dir != to_dir ==> !after.listing(from_dir).contains(id)
            &&& if (from_dir, from_name) == (to_dir, to_name) {
                after == next
            } else {
                after.looked_up(from_dir, from_name) == (
                    after,
                    Err::<u64, VfsError>(VfsError::ChildNotFound),
                )
            }
            &&& after.node(id).oid == next.node(id).oid
            &&& after.node(id).size == next.node(id).size
        },
{
    if v.renamed(from_dir, from_name, to_dir, to_name).1 is Ok {
        let first = v.opened(from_dir)->Ok_0;
        let next = first.opened(to_dir)->Ok_0;
        let id = next.child(from_dir, from_name)->0;
        lemma_opened_once(v, from_dir);
        lemma_opened_once(first, to_dir);
        first.lemma_opened(to_dir, from_dir);
        next.lemma_removed(to_dir, to_name);
        assert(next.name_ok(from_dir - 1, from_name));
        assert(next.name_ok(to_dir - 1, to_name));
        let after = v.renamed(from_dir, from_name, to_dir, to_name).0;
        if (from_dir, from_name) != (to_dir, to_name) {
            next.lemma_moved(id, from_dir, from_name, to_dir, to_name);
            assert(after.is_open(from_dir));
        }
        lemma_listed_once(after, id);
    }
}

// ---------------------------------------------------------------------------------------------
// Paths

/// Whether a name can stand in a path: it is not empty, has no slash in it, and is neither of
/// the two that stand for directories.
pub open spec fn is_path_name(name: Seq<char>) -> bool {
    name.len() > 0 && !name.contains('/') && is_child_name(name)
}

/// Whether a node is found by its names from the root down, in at most `left` steps.
pub open spec fn is_reachable(v: VfsView, id: u64, left: nat) -> bool
    decreases left,
{
    id == ROOT_INODE || left > 0 && v.is_live(id) && v.node(id).parent != id && is_path_name(
        v.node(id).name,
    ) && v.child(v.node(id).parent, v.node(id).name) == Some(id) && is_reachable(
        v,
        v.node(id).parent,
        (left - 1) as nat,
    )
}

/// Whether a node is there, and so are those above it, at most `left` of them up to the root. Each
/// has a name that can stand in a path; something is found under that name in its directory, and
/// no other child there has it.
pub open spec fn is_on_way(v: VfsView, id: u64, left: nat) -> bool
    decreases left,
{
    id == ROOT_INODE || left > 0 && v.is_live(id) && v.node(id).parent != id && is_path_name(
        v.node(id).name,
    ) && is_alone(v, id) && is_on_way(v, v.node(id).parent, (left - 1) as nat)
}

/// Whether something is found under the name of a node in its directory, and no other child there
/// has that name.
pub open spec fn is_alone(v: VfsView, id: u64) -> bool {
    let dir = v.node(id).parent;
    &&& v.looked_up(dir, v.node(id).name).1 is Ok
    &&& forall|other: u64| #[trigger]
        v.listing(dir).contains(other) && v.is_live(other) && v.node(other).name == v.node(id).name
            ==> other == id
}

/// A node on such a way is found by its names from the root down.
pub proof fn lemma_way_found(v: VfsView, id: u64, left: nat)
    requires
        v.wf(),
        is_on_way(v, id, left),
    ensures
        is_reachable(v, id, left),
    decreases left,
{
    if id != ROOT_INODE {
        let node = v.node(id);
        lemma_way_found(v, node.parent, (left - 1) as nat);
        assert(v.node_ok(id - 1));
        assert(v.kept_ok(id - 1));
        assert(v.name_ok(node.parent - 1, node.name));
        assert(v.opened(node.parent) == Ok::<_, VfsError>(v));
        let other = v.child(node.parent, node.name)->0;
        assert(v.listing(node.parent).contains(other));
    }
}

proof fn lemma_split_plain(part: Seq<char>)
    requires
        !part.contains('/'),
    ensures
        text::split(part, '/') == seq![part],
    decreases part.len(),
{
    if part.len() > 0 {
        let front = part.drop_last();
        assert(!front.contains('/')) by {
            if front.contains('/') {
                let i = choose|i: int| 0 <= i < front.len() && front[i] == '/';
                assert(part[i] == '/');
            }
        }
        lemma_split_plain(front);
        assert(part.last() != '/') by {
            if part.last() == '/' {
                assert(part[part.len() - 1] == '/');
            }
        }
        assert(front.push(part.last()) =~= part);
        assert(text::split(part, '/') =~= seq![part]);
    } else {
        assert(part =~= Seq::<char>::empty());
        assert(text::split(part, '/') =~= seq![part]);
    }
}

proof fn lemma_split_append(before: Seq<char>, part: Seq<char>)
    requires
        !part.contains('/'),
    ensures
        text::split(before + seq!['/'] + part, '/') == text::split(before, '/').push(part),
        text::split(before, '/').len() > 0,
    decreases part.len(),
{
    let all = before + seq!['/'] + part;
    text::lemma_split_some(before, '/');
    if part.len() == 0 {
        assert(all.drop_last() =~= before);
        assert(all.last() == '/');
        assert(part =~= Seq::<char>::empty());
        assert(text::split(all, '/') =~= text::split(before, '/').push(part));
    } else {
        let front = part.drop_last();
        assert(!front.contains('/')) by {
            if front.contains('/') {
                let i = choose|i: int| 0 <= i < front.len() && front[i] == '/';
                assert(part[i] == '/');
            }
        }
        lemma_split_append(before, front);
        assert(all.drop_last() =~= before + seq!['/'] + front);
        assert(all.last() == part.last());
        assert(part.last() != '/') by {
            if part.last() == '/' {
                assert(part[part.len() - 1] == '/');
            }
        }
        assert(front.push(part.last()) =~= part);
        assert(text::split(all, '/') =~= text::split(before, '/').push(part));
    }
}

/// Names put together with slashes are taken apart again.
pub proof fn lemma_split_joined(parts: Seq<Seq<char>>)
    requires
        parts.len() > 0,
        forall|i: int| 0 <= i < parts.len() ==> is_path_name(#[trigger] parts[i]),
    ensures
        text::split(text::joined(parts, "/"@), '/') == parts,
        text::unslashed(text::joined(parts, "/"@)) == text::joined(parts, "/"@),
        text::joined(parts, "/"@).len() > 0,
    decreases parts.len(),
{
    reveal_strlit("/");
    assert("/"@ =~= seq!['/']);
    let all = text::joined(parts, "/"@);
    assert(is_path_name(parts[0]));
    assert(is_path_name(parts[parts.len() - 1]));
    if parts.len() == 1 {
        lemma_split_plain(parts[0]);
        assert(parts =~= seq![parts[0]]);
    } else {
        let front = parts.drop_last();
        assert forall|i: int| 0 <= i < front.len() implies is_path_name(#[trigger] front[i]) by {
            assert(front[i] == parts[i]);
        }
        lemma_split_joined(front);
        lemma_split_append(text::joined(front, "/"@), parts.last());
        assert(front.push(parts.last()) =~= parts);
    }
    lemma_joined_ends(parts);
    assert(all[0] != '/' && all.last() != '/');
}

proof fn lemma_joined_ends(parts: Seq<Seq<char>>)
    requires
        parts.len() > 0,
        forall|i: int| 0 <= i < parts.len() ==> is_path_name(#[trigger] parts[i]),
    ensures
        text::joined(parts, "/"@).len() > 0,
        text::joined(parts, "/"@)[0] != '/',
        text::joined(parts, "/"@).last() != '/',
    decreases parts.len(),
{
    let last = parts.last();
    assert(is_path_name(parts[parts.len() - 1]));
    assert(last.last() != '/') by {
        if last.last() == '/' {
            assert(last[last.len() - 1] == '/');
        }
    }
    if parts.len() == 1 {
        assert(parts[0][0] != '/') by {
            if parts[0][0] == '/' {
                assert(parts[0].contains('/'));
            }
        }
    } else {
        let front = parts.drop_last();
        assert forall|i: int| 0 <= i < front.len() implies is_path_name(#[trigger] front[i]) by {
            assert(front[i] == parts[i]);
        }
        lemma_joined_ends(front);
        let all = text::joined(parts, "/"@);
        assert(all[all.len() - 1] == last[last.len() - 1]);
    }
}

/// Whether names are found, one below the other, without anything being looked at.
pub open spec fn is_still(v: VfsView, dir: u64, parts: Seq<Seq<char>>) -> bool {
    v.walked(dir, parts).0 == v && v.walked(dir, parts).1 is Ok
}

proof fn lemma_walk_append(v: VfsView, dir: u64, parts: Seq<Seq<char>>, id: u64, name: Seq<char>)
    requires
        v.walked(dir, parts) == (v, Ok::<u64, VfsError>(id)),
        v.live_child(id, name) is Some,
        is_path_name(name),
        forall|i: int| 0 <= i < parts.len() ==> is_path_name(#[trigger] parts[i]),
        forall|k: int|
            0 <= k < parts.len() ==> is_still(v, dir, #[trigger] parts.take(k)),
    ensures
        v.walked(dir, parts.push(name)) == (v, Ok::<u64, VfsError>(v.live_child(id, name)->0)),
    decreases parts.len(),
{
    let all = parts.push(name);
    if parts.len() == 0 {
        assert(all.drop_first() =~= Seq::<Seq<char>>::empty());
        assert(all[0] == name);
        reveal_with_fuel(VfsView::walked, 2);
    } else {
        assert(all[0] == parts[0]);
        assert(is_path_name(parts[0]));
        assert(all.drop_first() =~= parts.drop_first().push(name));
        let rest = parts.drop_first();
        match v.looked_up(dir, parts[0]) {
            (next, Ok(first)) => {
                assert(parts.take(1).drop_first() =~= Seq::<Seq<char>>::empty());
                if parts.len() > 1 {
                    let one = parts.take(1);
                    assert(is_still(v, dir, one));
                    assert(one[0] == parts[0]);
                    assert(v.walked(dir, one) == next.walked(first, one.drop_first()));
                    assert(next.walked(first, one.drop_first()) == (
                        next,
                        Ok::<u64, VfsError>(first),
                    ));
                    assert(next == v);
                } else {
                    assert(rest.len() == 0);
                    assert(next.walked(first, rest) == (next, Ok::<u64, VfsError>(first)));
                    assert(next == v);
                }
                assert forall|i: int| 0 <= i < rest.len() implies is_path_name(
                    #[trigger] rest[i],
                ) by {
                    assert(rest[i] == parts[i + 1]);
                }
                assert forall|k: int| 0 <= k < rest.len() implies is_still(
                    v,
                    first,
                    #[trigger] rest.take(k),
                ) by {
                    let longer = parts.take(k + 1);
                    assert(longer.drop_first() =~= rest.take(k));
                    assert(longer[0] == parts[0]);
                    assert(is_still(v, dir, longer));
                }
                lemma_walk_append(v, first, rest, id, name);
            },
            (_, Err(_)) => {},
        }
    }
}

proof fn lemma_parts_walk(v: VfsView, id: u64, left: nat)
    requires
        is_reachable(v, id, left),
    ensures
        v.path_parts(id, left) matches Ok(parts) && {
            &&& v.walked(ROOT_INODE, parts) == (v, Ok::<u64, VfsError>(id))
            &&& forall|i: int| 0 <= i < parts.len() ==> is_path_name(#[trigger] parts[i])
            &&& forall|k: int|
                0 <= k < parts.len() ==> is_still(v, ROOT_INODE, #[trigger] parts.take(k))
        },
    decreases left,
{
    if id != ROOT_INODE {
        let node = v.node(id);
        lemma_parts_walk(v, node.parent, (left - 1) as nat);
        let before = v.path_parts(node.parent, (left - 1) as nat)->Ok_0;
        let parts = before.push(node.name);
        assert(v.live_child(node.parent, node.name) == Some(id));
        lemma_walk_append(v, ROOT_INODE, before, node.parent, node.name);
        assert forall|i: int| 0 <= i < parts.len() implies is_path_name(#[trigger] parts[i]) by {
            if i < before.len() {
                assert(parts[i] == before[i]);
            }
        }
        assert forall|k: int| 0 <= k < parts.len() implies is_still(
            v,
            ROOT_INODE,
            #[trigger] parts.take(k),
        ) by {
            if k < before.len() {
                assert(parts.take(k) =~= before.take(k));
            } else {
                assert(parts.take(k) =~= before);
            }
        }
    }
}

/// A text with one of its characters doubled.
pub open spec fn doubled(s: Seq<char>, k: int) -> Seq<char> {
    s.take(k + 1) + s.skip(k)
}

/// The path of a node that is there leads to it, where no name on the way stands twice and each is
/// found: also with slashes before it, behind it, or doubled inside of it. Looking it up changes
/// nothing. The path of the root is empty.
pub proof fn lemma_path_found(v: VfsView, id: u64)
    requires
        v.wf(),
        is_on_way(v, id, v.nodes.len()),
    ensures
        v.path_of(id) matches Ok(path) && {
            &&& v.path_looked_up(path) == (v, Ok::<u64, VfsError>(id))
            &&& v.path_looked_up(seq!['/'] + path) == (v, Ok::<u64, VfsError>(id))
            &&& v.path_looked_up(path + seq!['/']) == (v, Ok::<u64, VfsError>(id))
            &&& forall|k: int|
                0 <= k < path.len() && path[k] == '/' ==> v.path_looked_up(
                    #[trigger] doubled(path, k),
                ) == (v, Ok::<u64, VfsError>(id))
        },
        v.path_of(ROOT_INODE) == Ok::<_, VfsError>(Seq::<char>::empty()),
        v.path_looked_up(Seq::empty()) == (v, Ok::<u64, VfsError>(ROOT_INODE)),
{
    lemma_way_found(v, id, v.nodes.len());
    lemma_path_leads_back(v, id);
    let path = v.path_of(id)->Ok_0;
    let none = Seq::<char>::empty();
    lemma_slashes(v, path, none);
    assert(text::joined(Seq::empty(), "/"@) =~= none);
    assert forall|k: int| 0 <= k < path.len() && path[k] == '/' implies v.path_looked_up(
        #[trigger] doubled(path, k),
    ) == (v, Ok::<u64, VfsError>(id)) by {
        let a = path.take(k);
        let b = path.skip(k + 1);
        lemma_slashes(v, a, b);
        assert(a + seq!['/'] + b =~= path);
        assert(a + seq!['/', '/'] + b =~= doubled(path, k));
    }
}

/// The path of a node leads to it, and looking it up changes nothing.
pub proof fn lemma_path_leads_back(v: VfsView, id: u64)
    requires
        is_reachable(v, id, v.nodes.len()),
    ensures
        v.path_of(id) matches Ok(path) && v.path_looked_up(path) == (v, Ok::<u64, VfsError>(id)),
{
    lemma_parts_walk(v, id, v.nodes.len());
    let parts = v.path_parts(id, v.nodes.len())->Ok_0;
    let path = text::joined(parts, "/"@);
    if parts.len() == 0 {
        assert(path =~= Seq::<char>::empty());
        assert(text::unslashed(path) =~= path);
    } else {
        lemma_split_joined(parts);
    }
}

proof fn lemma_dirs_walk(v: VfsView, dir: u64, parts: Seq<Seq<char>>, id: u64)
    requires
        v.walked(dir, parts) == (v, Ok::<u64, VfsError>(id)),
        forall|i: int| 0 <= i < parts.len() ==> is_path_name(#[trigger] parts[i]),
        forall|k: int|
            0 <= k < parts.len() ==> is_still(v, dir, #[trigger] parts.take(k)),
    ensures
        v.dirs_ensured(dir, parts) == (v, Ok::<u64, VfsError>(id)),
    decreases parts.len(),
{
    if parts.len() > 0 {
        assert(is_path_name(parts[0]));
        let rest = parts.drop_first();
        match v.looked_up(dir, parts[0]) {
            (next, Ok(first)) => {
                assert(next == v) by {
                    if parts.len() > 1 {
                        let one = parts.take(1);
                        assert(one.drop_first() =~= Seq::<Seq<char>>::empty());
                        assert(is_still(v, dir, one));
                        assert(one[0] == parts[0]);
                        assert(v.walked(dir, one) == next.walked(first, one.drop_first()));
                        assert(next.walked(first, one.drop_first()) == (
                            next,
                            Ok::<u64, VfsError>(first),
                        ));
                    } else {
                        assert(rest.len() == 0);
                        assert(next.walked(first, rest) == (next, Ok::<u64, VfsError>(first)));
                    }
                }
                assert forall|i: int| 0 <= i < rest.len() implies is_path_name(
                    #[trigger] rest[i],
                ) by {
                    assert(rest[i] == parts[i + 1]);
                }
                assert forall|k: int| 0 <= k < rest.len() implies is_still(
                    v,
                    first,
                    #[trigger] rest.take(k),
                ) by {
                    let longer = parts.take(k + 1);
                    assert(longer.drop_first() =~= rest.take(k));
                    assert(longer[0] == parts[0]);
                    assert(is_still(v, dir, longer));
                }
                lemma_dirs_walk(v, first, rest, id);
            },
            (_, Err(_)) => {},
        }
    }
}

proof fn lemma_walk_then(v: VfsView, dir: u64, parts: Seq<Seq<char>>, id: u64, name: Seq<char>)
    requires
        v.walked(dir, parts) == (v, Ok::<u64, VfsError>(id)),
        is_path_name(name),
        forall|i: int| 0 <= i < parts.len() ==> is_path_name(#[trigger] parts[i]),
        forall|k: int|
            0 <= k < parts.len() ==> is_still(v, dir, #[trigger] parts.take(k)),
    ensures
        v.walked(dir, parts.push(name)) == v.looked_up(id, name),
    decreases parts.len(),
{
    let all = parts.push(name);
    if parts.len() == 0 {
        assert(all.drop_first() =~= Seq::<Seq<char>>::empty());
        assert(all[0] == name);
        reveal_with_fuel(VfsView::walked, 2);
    } else {
        assert(all[0] == parts[0]);
        assert(is_path_name(parts[0]));
        let rest = parts.drop_first();
        assert(all.drop_first() =~= rest.push(name));
        match v.looked_up(dir, parts[0]) {
            (next, Ok(first)) => {
                assert(next == v) by {
                    if parts.len() > 1 {
                        let one = parts.take(1);
                        assert(one.drop_first() =~= Seq::<Seq<char>>::empty());
                        assert(is_still(v, dir, one));
                        assert(one[0] == parts[0]);
                        assert(v.walked(dir, one) == next.walked(first, one.drop_first()));
                        assert(next.walked(first, one.drop_first()) == (
                            next,
                            Ok::<u64, VfsError>(first),
                        ));
                    } else {
                        assert(rest.len() == 0);
                        assert(next.walked(first, rest) == (next, Ok::<u64, VfsError>(first)));
                    }
                }
                assert forall|i: int| 0 <= i < rest.len() implies is_path_name(
                    #[trigger] rest[i],
                ) by {
                    assert(rest[i] == parts[i + 1]);
                }
                assert forall|k: int| 0 <= k < rest.len() implies is_still(
                    v,
                    first,
                    #[trigger] rest.take(k),
                ) by {
                    let longer = parts.take(k + 1);
                    assert(longer.drop_first() =~= rest.take(k));
                    assert(longer[0] == parts[0]);
                    assert(is_still(v, dir, longer));
                }
                lemma_walk_then(v, first, rest, id, name);
            },
            (_, Err(_)) => {},
        }
    }
}

proof fn lemma_nonempty(parts: Seq<Seq<char>>)
    requires
        forall|i: int| 0 <= i < parts.len() ==> is_path_name(#[trigger] parts[i]),
    ensures
        text::nonempty(parts) == parts,
    decreases parts.len(),
{
    if parts.len() > 0 {
        let front = parts.drop_last();
        assert forall|i: int| 0 <= i < front.len() implies is_path_name(#[trigger] front[i]) by {
            assert(front[i] == parts[i]);
        }
        lemma_nonempty(front);
        assert(is_path_name(parts[parts.len() - 1]));
        assert(front.push(parts.last()) =~= parts);
    }
}

/// The path of a name in a directory leads to the directory and the name, and looking it up is
/// looking the name up there.
pub proof fn lemma_path_in_leads(v: VfsView, dir: u64, name: Seq<char>)
    requires
        is_reachable(v, dir, v.nodes.len()),
        is_path_name(name),
    ensures
        v.path_of(dir) is Ok,
        v.parent_ensured(v.path_in(dir, name)) == (v, Ok::<_, VfsError>((dir, name))),
        v.path_looked_up(v.path_in(dir, name)) == v.looked_up(dir, name),
{
    lemma_parts_walk(v, dir, v.nodes.len());
    let before = v.path_parts(dir, v.nodes.len())->Ok_0;
    let parts = before.push(name);
    let path = v.path_in(dir, name);
    assert forall|i: int| 0 <= i < parts.len() implies is_path_name(#[trigger] parts[i]) by {
        if i < before.len() {
            assert(parts[i] == before[i]);
        }
    }
    assert(parts.drop_last() =~= before);
    assert(path =~= text::joined(parts, "/"@)) by {
        if before.len() > 0 {
            lemma_joined_ends(before);
        }
    }
    lemma_split_joined(parts);
    lemma_nonempty(parts);
    lemma_dirs_walk(v, ROOT_INODE, before, dir);
    lemma_walk_then(v, ROOT_INODE, before, dir, name);
}

/// Whether nodes kept their names and parents.
pub open spec fn keeps_names(v: VfsView, w: VfsView) -> bool {
    &&& v.nodes.len() <= w.nodes.len()
    &&& forall|i: int|
        0 <= i < v.nodes.len() ==> (#[trigger] w.nodes[i]).name == v.nodes[i].name
            && w.nodes[i].parent == v.nodes[i].parent
}

proof fn lemma_parts_kept(v: VfsView, w: VfsView, id: u64, left: nat, more: nat)
    requires
        keeps_names(v, w),
        left <= more,
        v.path_parts(id, left) is Ok,
    ensures
        w.path_parts(id, more) == v.path_parts(id, left),
    decreases left,
{
    if id != ROOT_INODE {
        assert(w.nodes[id - 1].name == v.nodes[id - 1].name);
        let node = v.node(id);
        if node.parent != id {
            lemma_parts_kept(v, w, node.parent, (left - 1) as nat, (more - 1) as nat);
        }
    }
}

/// The path of a node stays the same where nodes keep their names and parents.
pub proof fn lemma_path_kept(v: VfsView, w: VfsView, id: u64)
    requires
        keeps_names(v, w),
        v.path_of(id) is Ok,
    ensures
        w.path_of(id) == v.path_of(id),
{
    lemma_parts_kept(v, w, id, v.nodes.len(), w.nodes.len());
}

proof fn lemma_entries_aside(v: VfsView, dir: u64, items: Seq<TreeItem>)
    requires
        0 < dir <= v.dirs.len(),
    ensures
        ({
            let w = v.with_entries(dir, items);
            &&& v.nodes.len() <= w.nodes.len()
            &&& forall|i: int| 0 <= i < v.nodes.len() ==> #[trigger] w.nodes[i] == v.nodes[i]
            &&& v.dirs.len() <= w.dirs.len()
            &&& forall|i: int|
                0 <= i < v.dirs.len() && i != dir - 1 ==> #[trigger] w.dirs[i] == v.dirs[i]
        }),
    decreases items.len(),
{
    if items.len() > 0 {
        lemma_entries_aside(v, dir, items.drop_last());
    }
}

/// Looking at a directory changes no other, and no node that is there.
pub proof fn lemma_opened_aside(v: VfsView, dir: u64)
    requires
        v.nodes.len() == v.dirs.len(),
    ensures
        v.opened(dir) matches Ok(w) ==> {
            &&& v.nodes.len() <= w.nodes.len()
            &&& forall|i: int| 0 <= i < v.nodes.len() ==> #[trigger] w.nodes[i] == v.nodes[i]
            &&& v.dirs.len() <= w.dirs.len()
            &&& forall|i: int|
                0 <= i < v.dirs.len() && i != dir - 1 ==> #[trigger] w.dirs[i] == v.dirs[i]
        },
{
    if !v.is_open(dir) && v.has(dir) && v.node(dir).is_dir {
        let empty = v.with_dir(dir, DirView { listing: Some(Seq::empty()), ..v.dir(dir) });
        let oid = v.node(dir).oid;
        if v.engine.trees.contains_key(oid) {
            lemma_entries_aside(empty, dir, v.engine.trees[oid]);
        }
    }
}

/// What is found from the root down is still found there once a directory was looked at.
pub proof fn lemma_reachable_opened(v: VfsView, dir: u64, id: u64, left: nat, more: nat)
    requires
        v.wf(),
        is_reachable(v, id, left),
        left <= more,
    ensures
        v.opened(dir) matches Ok(w) ==> is_reachable(w, id, more),
    decreases left,
{
    if v.opened(dir) is Ok && id != ROOT_INODE {
        let w = v.opened(dir)->Ok_0;
        let node = v.node(id);
        lemma_opened_aside(v, dir);
        assert(v.node_ok(id - 1));
        assert(w.nodes[id - 1] == v.nodes[id - 1]);
        lemma_reachable_opened(v, dir, node.parent, (left - 1) as nat, (more - 1) as nat);
        if node.parent == dir {
            assert(v.dir_ok(dir - 1));
            assert(v.is_open(dir));
        } else {
            assert(w.dirs[node.parent - 1] == v.dirs[node.parent - 1]);
        }
    }
}

// ---------------------------------------------------------------------------------------------
// Slashes in paths

/// The names between the slashes of a path.
pub open spec fn names_of(path: Seq<char>) -> Seq<Seq<char>> {
    text::nonempty(text::split(path, '/'))
}

proof fn lemma_split_both(a: Seq<char>, b: Seq<char>)
    ensures
        text::split(a + seq!['/'] + b, '/') == text::split(a, '/') + text::split(b, '/'),
    decreases b.len(),
{
    let all = a + seq!['/'] + b;
    text::lemma_split_some(a, '/');
    text::lemma_split_some(b, '/');
    if b.len() == 0 {
        assert(all.drop_last() =~= a);
        assert(all.last() == '/');
        assert(text::split(all, '/') =~= text::split(a, '/') + text::split(b, '/'));
    } else {
        let front = b.drop_last();
        lemma_split_both(a, front);
        text::lemma_split_some(front, '/');
        assert(all.drop_last() =~= a + seq!['/'] + front);
        assert(all.last() == b.last());
        assert(text::split(all, '/') =~= text::split(a, '/') + text::split(b, '/'));
    }
}

proof fn lemma_nonempty_both(a: Seq<Seq<char>>, b: Seq<Seq<char>>)
    ensures
        text::nonempty(a + b) == text::nonempty(a) + text::nonempty(b),
    decreases b.len(),
{
    if b.len() == 0 {
        assert(a + b =~= a);
        assert(text::nonempty(a) + text::nonempty(b) =~= text::nonempty(a));
    } else {
        lemma_nonempty_both(a, b.drop_last());
        assert((a + b).drop_last() =~= a + b.drop_last());
        assert((a + b).last() == b.last());
        assert(text::nonempty(a + b) =~= text::nonempty(a) + text::nonempty(b));
    }
}

/// The names of a path are those before a slash and those behind it.
pub proof fn lemma_names(a: Seq<char>, b: Seq<char>)
    ensures
        names_of(a + seq!['/'] + b) == names_of(a) + names_of(b),
        names_of(Seq::empty()) == Seq::<Seq<char>>::empty(),
{
    lemma_split_both(a, b);
    lemma_nonempty_both(text::split(a, '/'), text::split(b, '/'));
    reveal_with_fuel(text::nonempty, 2);
    let none = seq![Seq::<char>::empty()];
    assert(text::split(Seq::<char>::empty(), '/') =~= none);
    assert(none.drop_last() =~= Seq::<Seq<char>>::empty());
    assert(text::nonempty(none) =~= Seq::<Seq<char>>::empty());
}

proof fn lemma_names_unslashed(path: Seq<char>)
    ensures
        names_of(text::unslashed(path)) == names_of(path),
{
    let slash = |c: char| c == '/';
    lemma_names_start(path);
    lemma_names_end(text::trimmed_start(path, slash));
}

proof fn lemma_names_start(path: Seq<char>)
    ensures
        names_of(text::trimmed_start(path, |c: char| c == '/')) == names_of(path),
    decreases path.len(),
{
    if path.len() > 0 && path[0] == '/' {
        let rest = path.drop_first();
        lemma_names_start(rest);
        lemma_names(Seq::empty(), rest);
        assert(Seq::<char>::empty() + seq!['/'] + rest =~= path);
        assert(Seq::<Seq<char>>::empty() + names_of(rest) =~= names_of(rest));
    }
}

proof fn lemma_names_end(path: Seq<char>)
    ensures
        names_of(text::trimmed_end(path, |c: char| c == '/')) == names_of(path),
    decreases path.len(),
{
    if path.len() > 0 && path.last() == '/' {
        let rest = path.drop_last();
        lemma_names_end(rest);
        lemma_names(rest, Seq::empty());
        assert(rest + seq!['/'] + Seq::<char>::empty() =~= path);
        assert(names_of(rest) + Seq::<Seq<char>>::empty() =~= names_of(rest));
    }
}

proof fn lemma_walk_names(v: VfsView, dir: u64, parts: Seq<Seq<char>>)
    ensures
        v.walked(dir, parts) == v.walked(dir, text::nonempty(parts)),
    decreases parts.len(),
{
    if parts.len() > 0 {
        let first = seq![parts[0]];
        let rest = parts.drop_first();
        assert(parts =~= first + rest);
        lemma_nonempty_both(first, rest);
        reveal_with_fuel(text::nonempty, 2);
        assert(first.drop_last() =~= Seq::<Seq<char>>::empty());
        let names = text::nonempty(parts);
        if parts[0].len() == 0 {
            lemma_walk_names(v, dir, rest);
            assert(text::nonempty(first) =~= Seq::<Seq<char>>::empty());
            assert(names =~= text::nonempty(rest));
        } else {
            assert(text::nonempty(first) =~= first);
            assert(names[0] == parts[0]);
            assert(names.drop_first() =~= text::nonempty(rest));
            if parts[0] == "."@ {
                lemma_walk_names(v, dir, rest);
            } else {
                match v.looked_up(dir, parts[0]) {
                    (next, Ok(id)) => {
                        lemma_walk_names(next, id, rest);
                    },
                    _ => {},
                }
            }
        }
    }
}

/// A path leads where its names lead from the root; the path without any leads to the root.
pub proof fn lemma_path_by_names(v: VfsView, path: Seq<char>)
    ensures
        v.path_looked_up(path) == v.walked(ROOT_INODE, names_of(path)),
        inode::path_names(path) == names_of(path),
        names_of(path).len() == 0 ==> v.path_looked_up(path) == (v, Ok::<_, VfsError>(ROOT_INODE)),
{
    let clean = text::unslashed(path);
    lemma_names_unslashed(path);
    lemma_names(clean, clean);
    lemma_walk_names(v, ROOT_INODE, text::split(clean, '/'));
    if clean.len() == 0 {
        assert(clean =~= Seq::<char>::empty());
    }
}

/// Slashes before a path, behind it, or doubled inside of it change nothing: it leads to the same
/// node, by the same names. The path of nothing, or of slashes alone, is the root's.
pub proof fn lemma_slashes(v: VfsView, a: Seq<char>, b: Seq<char>)
    ensures
        v.path_looked_up(seq!['/'] + a) == v.path_looked_up(a),
        v.path_looked_up(a + seq!['/']) == v.path_looked_up(a),
        v.path_looked_up(a + seq!['/', '/'] + b) == v.path_looked_up(a + seq!['/'] + b),
        v.path_looked_up(Seq::empty()) == (v, Ok::<_, VfsError>(ROOT_INODE)),
        v.path_looked_up(seq!['/']) == (v, Ok::<_, VfsError>(ROOT_INODE)),
        inode::path_names(seq!['/'] + a) == inode::path_names(a),
        inode::path_names(a + seq!['/']) == inode::path_names(a),
        inode::path_names(a + seq!['/', '/'] + b) == inode::path_names(a + seq!['/'] + b),
{
    let nothing = Seq::<char>::empty();
    let before = seq!['/'] + a;
    let behind = a + seq!['/'];
    let doubled = a + seq!['/', '/'] + b;
    let single = a + seq!['/'] + b;
    lemma_names(nothing, a);
    assert(nothing + seq!['/'] + a =~= before);
    assert(Seq::<Seq<char>>::empty() + names_of(a) =~= names_of(a));
    lemma_names(a, nothing);
    assert(a + seq!['/'] + nothing =~= behind);
    assert(names_of(a) + Seq::<Seq<char>>::empty() =~= names_of(a));
    lemma_names(a, b);
    lemma_names(behind, b);
    assert(behind + seq!['/'] + b =~= doubled);
    lemma_names(nothing, nothing);
    assert(nothing + seq!['/'] + nothing =~= seq!['/']);
    lemma_path_by_names(v, a);
    lemma_path_by_names(v, before);
    lemma_path_by_names(v, behind);
    lemma_path_by_names(v, doubled);
    lemma_path_by_names(v, single);
    lemma_path_by_names(v, nothing);
    lemma_path_by_names(v, seq!['/']);
}

} // verus!
