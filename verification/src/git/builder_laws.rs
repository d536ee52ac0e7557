//! What holds of every commit that is built.

use vstd::prelude::*;

use crate::git::builder;
use crate::git::builder::{BuildError, BuildView, CommitView, ToPack};
use crate::git::engine::EngineView;
use crate::git::engine_laws;
use crate::git::hash;
use crate::git::pack::ObjectType;
use crate::git::tree;
use crate::git::tree::TreeItem;
use crate::sorting;
use crate::staging::StagingView;
use crate::vfs::filter;
use crate::vfs::laws;
use crate::vfs::inode::{DirView, NodeView, VfsView, ROOT_INODE};

verus! {

// ---------------------------------------------------------------------------------------------
// The tree of nodes while a commit is built

/// Whether nodes were only added to a tree, and the repository has the same trees.
pub open spec fn grows(v: VfsView, w: VfsView) -> bool {
    &&& v.nodes.len() <= w.nodes.len()
    &&& forall|i: int| 0 <= i < v.nodes.len() ==> #[trigger] w.nodes[i] == v.nodes[i]
    &&& w.engine.trees == v.engine.trees
}

proof fn lemma_grows(u: VfsView, v: VfsView, w: VfsView)
    requires
        grows(u, v),
        grows(v, w),
    ensures
        grows(u, w),
{
    assert forall|i: int| 0 <= i < u.nodes.len() implies #[trigger] w.nodes[i] == u.nodes[i] by {
        assert(v.nodes[i] == u.nodes[i]);
    }
}

proof fn lemma_entries_grow(v: VfsView, dir: u64, items: Seq<TreeItem>)
    ensures
        grows(v, v.with_entries(dir, items)),
    decreases items.len(),
{
    if items.len() > 0 {
        lemma_entries_grow(v, dir, items.drop_last());
        lemma_grows(v, v.with_entries(dir, items.drop_last()), v.with_entries(dir, items));
    }
}

/// Looking at a directory only adds nodes.
pub proof fn lemma_opened_grows(v: VfsView, dir: u64)
    ensures
        v.opened(dir) matches Ok(w) ==> grows(v, w),
{
    if !v.is_open(dir) && v.has(dir) && v.node(dir).is_dir {
        let empty = v.with_dir(dir, DirView { listing: Some(Seq::empty()), ..v.dir(dir) });
        let oid = v.node(dir).oid;
        if v.engine.trees.contains_key(oid) {
            lemma_entries_grow(empty, dir, v.engine.trees[oid]);
        }
    }
}

// ---------------------------------------------------------------------------------------------
// Trees without macOS metadata

/// Whether no entry is macOS metadata.
pub open spec fn is_clean(items: Seq<TreeItem>) -> bool {
    forall|i: int| 0 <= i < items.len() ==> !filter::apple_metadata((#[trigger] items[i]).name)
}

/// Whether bytes are those of a tree without macOS metadata.
pub open spec fn is_clean_tree(data: Seq<u8>) -> bool {
    exists|items: Seq<TreeItem>| #[trigger]
        tree::tree_bytes(items) == Some(data) && is_clean(items)
}

/// Whether a tree among the objects is clean, and not one that the repository has.
pub open spec fn is_new_tree(object: ToPack, v: VfsView) -> bool {
    object.obj_type == ObjectType::Tree ==> is_clean_tree(object.data)
        && !v.engine.trees.contains_key(object.oid)
}

/// Whether all trees among the objects are clean and new, and all objects are in their list,
/// once and under their names.
spec fn is_fine(st: BuildView) -> bool {
    &&& forall|oid: Seq<char>| #[trigger]
        st.objects.contains_key(oid) ==> is_new_tree(st.objects[oid], st.vfs)
            && st.objects[oid].oid == oid && st.oids.contains(oid)
    &&& forall|i: int| 0 <= i < st.oids.len() ==> st.objects.contains_key(#[trigger] st.oids[i])
    &&& st.oids.no_duplicates()
}

proof fn lemma_with_fine(st: BuildView, object: ToPack)
    requires
        is_fine(st),
        is_new_tree(object, st.vfs),
    ensures
        is_fine(st.with(object)),
{
    let next = st.with(object);
    assert forall|oid: Seq<char>| #[trigger] next.objects.contains_key(oid) implies is_new_tree(
        next.objects[oid],
        next.vfs,
    ) && next.objects[oid].oid == oid && next.oids.contains(oid) by {
        if st.objects.contains_key(oid) {
            let i = choose|i: int| 0 <= i < st.oids.len() && st.oids[i] == oid;
            assert(next.oids[i] == oid);
        } else {
            assert(next.oids[next.oids.len() - 1] == oid);
        }
    }
    assert forall|i: int| 0 <= i < next.oids.len() implies next.objects.contains_key(
        #[trigger] next.oids[i],
    ) by {
        if i < st.oids.len() {
            assert(st.objects.contains_key(st.oids[i]));
        }
    }
}

proof fn lemma_vfs_fine(st: BuildView, vfs: VfsView)
    requires
        is_fine(st),
        vfs.engine.trees == st.vfs.engine.trees,
    ensures
        is_fine(st.with_vfs(vfs)),
{
    let next = st.with_vfs(vfs);
    assert forall|oid: Seq<char>| #[trigger] next.objects.contains_key(oid) implies is_new_tree(
        next.objects[oid],
        next.vfs,
    ) && next.objects[oid].oid == oid && next.oids.contains(oid) by {
        assert(st.objects.contains_key(oid));
    }
}

proof fn lemma_committed_clean(nodes: Seq<NodeView>, deleted: Seq<u64>)
    ensures
        forall|i: int|
            0 <= i < builder::committed(nodes, deleted).len() ==> !filter::apple_metadata(
                (#[trigger] builder::committed(nodes, deleted)[i]).name,
            ) && !deleted.contains(builder::committed(nodes, deleted)[i].id),
    decreases nodes.len(),
{
    if nodes.len() > 0 {
        lemma_committed_clean(nodes.drop_last(), deleted);
    }
}

/// The children that go into a tree are neither macOS metadata nor removed, and are in the order
/// of trees.
pub proof fn lemma_children(nodes: Seq<NodeView>, deleted: Seq<u64>)
    ensures
        ({
            let children = builder::in_tree_order(builder::committed(nodes, deleted));
            &&& forall|i: int|
                0 <= i < children.len() ==> !filter::apple_metadata(
                    (#[trigger] children[i]).name,
                ) && !deleted.contains(children[i].id)
            &&& forall|i: int, j: int|
                0 <= i < j < children.len() ==> sorting::lex_le(
                    node_key(#[trigger] children[i]),
                    node_key(#[trigger] children[j]),
                )
        }),
{
    let kept = builder::committed(nodes, deleted);
    let keys = builder::node_keys(kept);
    let order = sorting::lex_sorting(keys);
    let children = builder::in_tree_order(kept);
    lemma_committed_clean(nodes, deleted);
    sorting::lemma_lex_sorted(keys);
    assert forall|i: int| 0 <= i < children.len() implies !filter::apple_metadata(
        (#[trigger] children[i]).name,
    ) && !deleted.contains(children[i].id) by {
        assert(children[i] == kept[order[i]]);
    }
    assert forall|i: int, j: int| 0 <= i < j < children.len() implies sorting::lex_le(
        node_key(#[trigger] children[i]),
        node_key(#[trigger] children[j]),
    ) by {
        assert(sorting::place_before(keys, order[i], order[j]));
        assert(keys[order[i]] == node_key(children[i]));
        assert(keys[order[j]] == node_key(children[j]));
    }
}

/// What a node is sorted by in a tree.
pub open spec fn node_key(node: NodeView) -> Seq<u8> {
    builder::entry_key(node.name, node.is_dir)
}

proof fn lemma_children_fine(
    st: BuildView,
    staging: StagingView,
    dirty: Map<u64, bool>,
    children: Seq<NodeView>,
    i: int,
    items: Seq<TreeItem>,
    left: nat,
)
    requires
        is_fine(st),
        is_clean(items),
        tree::tree_bytes(items) is Some,
        0 <= i,
        forall|k: int|
            0 <= k < children.len() ==> !filter::apple_metadata((#[trigger] children[k]).name),
    ensures
        ({
            let (next, r) = builder::children_built(
                st,
                staging,
                dirty,
                children,
                i,
                items,
                left,
            );
            &&& is_fine(next)
            &&& grows(st.vfs, next.vfs)
            &&& r matches Ok(all) ==> is_clean(all) && tree::tree_bytes(all) is Some
        }),
    decreases left, 0nat, children.len() - i,
{
    if i < children.len() {
        let child = children[i];
        let (next, oid) = if child.is_dir && dirty.contains_key(child.id) {
            if left == 0 {
                (st, Err(BuildError::TooDeep))
            } else {
                lemma_dir_fine(st, staging, dirty, child.id, (left - 1) as nat);
                builder::dir_built(st, staging, dirty, child.id, (left - 1) as nat)
            }
        } else {
            (st, Ok(child.oid))
        };
        assert(grows(st.vfs, next.vfs));
        match oid {
            Err(_) => {},
            Ok(oid) => {
                if oid.len() == 0 {
                    lemma_children_fine(next, staging, dirty, children, i + 1, items, left);
                    let after = builder::children_built(
                        next,
                        staging,
                        dirty,
                        children,
                        i + 1,
                        items,
                        left,
                    ).0;
                    lemma_grows(st.vfs, next.vfs, after.vfs);
                } else if hash::hex_decoded(oid) is Some {
                    let item = TreeItem { mode: child.mode, name: child.name, oid };
                    let more = items.push(item);
                    assert(more.drop_last() =~= items);
                    assert(is_clean(more)) by {
                        assert forall|k: int|
                            0 <= k < more.len() implies !filter::apple_metadata(
                            (#[trigger] more[k]).name,
                        ) by {
                            if k < items.len() {
                                assert(more[k] == items[k]);
                            }
                        }
                    }
                    lemma_children_fine(next, staging, dirty, children, i + 1, more, left);
                    let after = builder::children_built(
                        next,
                        staging,
                        dirty,
                        children,
                        i + 1,
                        more,
                        left,
                    ).0;
                    lemma_grows(st.vfs, next.vfs, after.vfs);
                }
            },
        }
    }
}

proof fn lemma_dir_fine(
    st: BuildView,
    staging: StagingView,
    dirty: Map<u64, bool>,
    dir: u64,
    left: nat,
)
    requires
        is_fine(st),
    ensures
        ({
            let (next, r) = builder::dir_built(st, staging, dirty, dir, left);
            &&& is_fine(next)
            &&& grows(st.vfs, next.vfs)
        }),
    decreases left, 1nat, 0int,
{
    match st.vfs.opened(dir) {
        Err(_) => {},
        Ok(vfs) => {
            lemma_opened_grows(st.vfs, dir);
            lemma_vfs_fine(st, vfs);
            let kept = builder::committed(vfs.listed(dir), staging.deleted);
            let children = builder::in_tree_order(kept);
            lemma_children(vfs.listed(dir), staging.deleted);
            let opened = st.with_vfs(vfs);
            lemma_children_fine(opened, staging, dirty, children, 0, Seq::empty(), left);
            let (next, r) = builder::children_built(
                opened,
                staging,
                dirty,
                children,
                0,
                Seq::empty(),
                left,
            );
            lemma_grows(st.vfs, vfs, next.vfs);
            match r {
                Err(_) => {},
                Ok(items) => {
                    let data = tree::tree_bytes(items)->0;
                    let object = ToPack {
                        oid: builder::tree_oid(items),
                        obj_type: ObjectType::Tree,
                        data,
                    };
                    if !next.vfs.engine.trees.contains_key(object.oid) {
                        assert(is_clean_tree(data)) by {
                            assert(tree::tree_bytes(items) == Some(data) && is_clean(items));
                        }
                        lemma_with_fine(next, object);
                    }
                },
            }
        },
    }
}

proof fn lemma_staged_fine(st: BuildView, staging: StagingView, ids: Seq<u64>)
    requires
        is_fine(st),
    ensures
        is_fine(st.with_all_staged(staging, ids)),
        st.with_all_staged(staging, ids).vfs.engine == st.vfs.engine,
        st.with_all_staged(staging, ids).vfs.nodes.len() == st.vfs.nodes.len(),
    decreases ids.len(),
{
    if ids.len() > 0 {
        let before = st.with_all_staged(staging, ids.drop_last());
        let id = ids.last();
        lemma_staged_fine(st, staging, ids.drop_last());
        if before.with_staged(staging, id) != before {
            let data = staging.staged[id];
            let oid = crate::git::pack::git_sha1(ObjectType::Blob, data);
            let vfs = before.vfs.with_oid(id, oid);
            lemma_vfs_fine(before, vfs);
            lemma_with_fine(
                before.with_vfs(vfs),
                ToPack { oid, obj_type: ObjectType::Blob, data },
            );
        }
    }
}

/// No tree of a commit holds macOS metadata, and none is one that the repository has already.
pub proof fn lemma_trees_clean_and_new(
    v: VfsView,
    s: StagingView,
    base_commit: Seq<char>,
    author: Seq<char>,
    message: Seq<char>,
    timestamp: u64,
)
    ensures
        builder::commit_built(v, s, base_commit, author, message, timestamp) matches (_, Ok(c))
            ==> forall|i: int|
            0 <= i < c.objects.len() ==> is_new_tree(#[trigger] c.objects[i], v),
{
    let start = BuildView { vfs: v, objects: Map::empty(), oids: Seq::empty() };
    let staged = start.with_all_staged(s, s.staged_ids);
    let dirty = builder::dirty_dirs(staged.vfs, s);
    let left = staged.vfs.nodes.len();
    lemma_staged_fine(start, s, s.staged_ids);
    lemma_dir_fine(staged, s, dirty, ROOT_INODE, left);
    match builder::dir_built(staged, s, dirty, ROOT_INODE, left) {
        (_, Err(_)) => {},
        (next, Ok(root)) => {
            let data = vstd::utf8::encode_utf8(
                builder::commit_text(root, base_commit, author, message, timestamp),
            );
            let oid = crate::git::pack::git_sha1(ObjectType::Commit, data);
            let object = ToPack { oid, obj_type: ObjectType::Commit, data };
            lemma_with_fine(next, object);
            let all = next.with(object);
            assert forall|i: int| 0 <= i < all.list().len() implies is_new_tree(
                #[trigger] all.list()[i],
                v,
            ) by {
                assert(all.objects.contains_key(all.oids[i]));
                assert(is_new_tree(all.objects[all.oids[i]], all.vfs));
            }
        },
    }
}

/// The objects of a commit are listed once each, under their names.
pub proof fn lemma_built_list(
    v: VfsView,
    s: StagingView,
    base_commit: Seq<char>,
    author: Seq<char>,
    message: Seq<char>,
    timestamp: u64,
)
    ensures
        builder::commit_built(v, s, base_commit, author, message, timestamp).1 matches Ok(c) ==> {
            let start = BuildView { vfs: v, objects: Map::empty(), oids: Seq::empty() };
            let staged = start.with_all_staged(s, s.staged_ids);
            let next = builder::dir_built(
                staged,
                s,
                builder::dirty_dirs(staged.vfs, s),
                ROOT_INODE,
                staged.vfs.nodes.len(),
            ).0;
            let data = vstd::utf8::encode_utf8(
                builder::commit_text(c.root_tree_oid, base_commit, author, message, timestamp),
            );
            let all = next.with(
                ToPack { oid: c.commit_oid, obj_type: ObjectType::Commit, data },
            );
            &&& c.objects == all.list()
            &&& all.oids.no_duplicates()
            &&& forall|oid: Seq<char>| #[trigger]
                all.objects.contains_key(oid) <==> all.oids.contains(oid)
            &&& forall|oid: Seq<char>| #[trigger]
                all.objects.contains_key(oid) ==> all.objects[oid].oid == oid
        },
{
    let start = BuildView { vfs: v, objects: Map::empty(), oids: Seq::empty() };
    let staged = start.with_all_staged(s, s.staged_ids);
    let dirty = builder::dirty_dirs(staged.vfs, s);
    let left = staged.vfs.nodes.len();
    lemma_staged_fine(start, s, s.staged_ids);
    lemma_dir_fine(staged, s, dirty, ROOT_INODE, left);
    match builder::commit_built(v, s, base_commit, author, message, timestamp).1 {
        Err(_) => {},
        Ok(c) => {
            let next = builder::dir_built(staged, s, dirty, ROOT_INODE, left).0;
            let data = vstd::utf8::encode_utf8(
                builder::commit_text(c.root_tree_oid, base_commit, author, message, timestamp),
            );
            let object = ToPack { oid: c.commit_oid, obj_type: ObjectType::Commit, data };
            lemma_with_fine(next, object);
            let all = next.with(object);
            assert forall|oid: Seq<char>| #[trigger]
                all.objects.contains_key(oid) <==> all.oids.contains(oid) by {
                if all.oids.contains(oid) {
                    let i = choose|i: int| 0 <= i < all.oids.len() && all.oids[i] == oid;
                    assert(all.objects.contains_key(all.oids[i]));
                }
            }
        },
    }
}

proof fn lemma_list_distinct(st: BuildView)
    requires
        is_fine(st),
    ensures
        engine_laws::are_distinct(st.list()),
        forall|oid: Seq<char>| #[trigger]
            st.objects.contains_key(oid) ==> st.list().contains(st.objects[oid]),
{
    let list = st.list();
    assert forall|i: int, j: int| 0 <= i < j < list.len() implies (#[trigger] list[i]).oid != (
    #[trigger] list[j]).oid by {
        assert(st.objects.contains_key(st.oids[i]));
        assert(st.objects.contains_key(st.oids[j]));
    }
    assert forall|oid: Seq<char>| #[trigger] st.objects.contains_key(oid) implies list.contains(
        st.objects[oid],
    ) by {
        let i = choose|i: int| 0 <= i < st.oids.len() && st.oids[i] == oid;
        assert(list[i] == st.objects[oid]);
    }
}

/// The entries of a commit's root tree.
pub open spec fn root_entries(v: VfsView, s: StagingView) -> Result<Seq<TreeItem>, BuildError> {
    let start = BuildView { vfs: v, objects: Map::empty(), oids: Seq::empty() };
    let staged = start.with_all_staged(s, s.staged_ids);
    builder::entries_built(
        staged,
        s,
        builder::dirty_dirs(staged.vfs, s),
        ROOT_INODE,
        staged.vfs.nodes.len(),
    ).1
}

/// A commit that was recovered is shown: each entry of its root tree is found under its name in
/// the tree of the repository that took the commit. (The root tree is a new one, and the commit
/// does not happen to have its name.)
pub proof fn lemma_recovered_commit_shown(
    v: VfsView,
    s: StagingView,
    base_commit: Seq<char>,
    author: Seq<char>,
    message: Seq<char>,
    timestamp: u64,
    c: CommitView,
    e: EngineView,
    items: Seq<TreeItem>,
    k: int,
)
    requires
        builder::commit_built(v, s, base_commit, author, message, timestamp).1 == Ok::<
            _,
            BuildError,
        >(c),
        root_entries(v, s) == Ok::<_, BuildError>(items),
        !v.engine.trees.contains_key(c.root_tree_oid),
        c.commit_oid != c.root_tree_oid,
        forall|j: int| 0 <= j < items.len() ==> tree::is_plain_item(#[trigger] items[j]),
        0 <= k < items.len() < u64::MAX,
        laws::is_child_name(items[k].name),
        forall|j: int| k < j < items.len() ==> (#[trigger] items[j]).name != items[k].name,
    ensures
        ({
            let taken = e.recovered(c.commit_oid, c.root_tree_oid, c.objects);
            VfsView::fresh(taken, c.root_tree_oid).looked_up(ROOT_INODE, items[k].name) matches (
            after,
            Ok(id),
        ) && after.is_live(id) && laws::shows(after.node(id), ROOT_INODE, items[k])
        }),
{
    let start = BuildView { vfs: v, objects: Map::empty(), oids: Seq::empty() };
    let staged = start.with_all_staged(s, s.staged_ids);
    let dirty = builder::dirty_dirs(staged.vfs, s);
    let left = staged.vfs.nodes.len();
    lemma_staged_fine(start, s, s.staged_ids);
    lemma_dir_fine(staged, s, dirty, ROOT_INODE, left);
    let (next, _) = builder::dir_built(staged, s, dirty, ROOT_INODE, left);
    let (before, _) = builder::entries_built(staged, s, dirty, ROOT_INODE, left);
    let root = c.root_tree_oid;
    let data = vstd::utf8::encode_utf8(
        builder::commit_text(root, base_commit, author, message, timestamp),
    );
    let object = ToPack { oid: c.commit_oid, obj_type: ObjectType::Commit, data };
    lemma_with_fine(next, object);
    let all = next.with(object);
    lemma_list_distinct(all);
    tree::lemma_tree_read_back(items);
    let made = ToPack {
        oid: root,
        obj_type: ObjectType::Tree,
        data: tree::tree_bytes(items)->0,
    };
    assert(next.vfs.engine.trees == v.engine.trees);
    assert(next == before.with(made));
    assert(all.objects.contains_key(root) && all.objects[root] == made);
    let i = choose|i: int| 0 <= i < all.list().len() && all.list()[i] == made;
    engine_laws::lemma_recovered_tree(e, c.commit_oid, root, c.objects, i, items);
    let taken = e.recovered(c.commit_oid, root, c.objects);
    laws::lemma_fresh(taken, root);
    laws::lemma_tree_shown(VfsView::fresh(taken, root), ROOT_INODE, items, k);
}

// ---------------------------------------------------------------------------------------------
// The order of trees

/// Whether the entries are those of children, picked in the order of the children: with the name
/// and mode of each, and its object where it is a file.
pub open spec fn is_pick(
    items: Seq<TreeItem>,
    children: Seq<NodeView>,
    picks: Seq<int>,
    to: int,
) -> bool {
    &&& picks.len() == items.len()
    &&& forall|k: int| 0 <= k < picks.len() ==> 0 <= #[trigger] picks[k] < to
    &&& forall|k: int, l: int|
        0 <= k < l < picks.len() ==> #[trigger] picks[k] < #[trigger] picks[l]
    &&& forall|k: int|
        0 <= k < picks.len() ==> stands_for(items[k], children[#[trigger] picks[k]])
}

/// Whether an entry stands for a node.
pub open spec fn stands_for(item: TreeItem, node: NodeView) -> bool {
    &&& item.name == node.name
    &&& item.mode == node.mode
    &&& !node.is_dir ==> item.oid == node.oid
}

/// Whether entries are those of some of the children, in the order of the children.
pub open spec fn is_picked(items: Seq<TreeItem>, children: Seq<NodeView>) -> bool {
    exists|picks: Seq<int>| #[trigger] is_pick(items, children, picks, children.len() as int)
}

proof fn lemma_children_picked(
    st: BuildView,
    staging: StagingView,
    dirty: Map<u64, bool>,
    children: Seq<NodeView>,
    i: int,
    items: Seq<TreeItem>,
    left: nat,
    picks: Seq<int>,
)
    requires
        0 <= i <= children.len(),
        is_pick(items, children, picks, i),
    ensures
        builder::children_built(st, staging, dirty, children, i, items, left) matches (_, Ok(all))
            ==> is_picked(all, children),
    decreases children.len() - i,
{
    if i >= children.len() {
        assert(is_pick(items, children, picks, children.len() as int));
    } else {
        let child = children[i];
        let (next, oid) = if child.is_dir && dirty.contains_key(child.id) {
            if left == 0 {
                (st, Err(BuildError::TooDeep))
            } else {
                builder::dir_built(st, staging, dirty, child.id, (left - 1) as nat)
            }
        } else {
            (st, Ok(child.oid))
        };
        match oid {
            Err(_) => {},
            Ok(oid) => {
                if oid.len() == 0 {
                    assert(is_pick(items, children, picks, i + 1));
                    lemma_children_picked(
                        next,
                        staging,
                        dirty,
                        children,
                        i + 1,
                        items,
                        left,
                        picks,
                    );
                } else if hash::hex_decoded(oid) is Some {
                    let item = TreeItem { mode: child.mode, name: child.name, oid };
                    let more = picks.push(i);
                    assert(is_pick(items.push(item), children, more, i + 1)) by {
                        assert forall|k: int| 0 <= k < more.len() implies stands_for(
                            items.push(item)[k],
                            children[#[trigger] more[k]],
                        ) by {
                            if k < picks.len() {
                                assert(more[k] == picks[k]);
                            }
                        }
                    }
                    lemma_children_picked(
                        next,
                        staging,
                        dirty,
                        children,
                        i + 1,
                        items.push(item),
                        left,
                        more,
                    );
                }
            },
        }
    }
}

/// The tree of a directory holds entries for its children only: not for macOS metadata, not for
/// what was removed, and in the order of trees.
pub proof fn lemma_entries_canonical(
    st: BuildView,
    staging: StagingView,
    dirty: Map<u64, bool>,
    dir: u64,
    left: nat,
)
    ensures
        builder::entries_built(st, staging, dirty, dir, left) matches (_, Ok(items))
            ==> st.vfs.opened(dir) matches Ok(vfs) && {
            let children = builder::in_tree_order(
                builder::committed(vfs.listed(dir), staging.deleted),
            );
            &&& is_picked(items, children)
            &&& forall|i: int|
                0 <= i < children.len() ==> !filter::apple_metadata(
                    (#[trigger] children[i]).name,
                ) && !staging.deleted.contains(children[i].id)
            &&& forall|i: int, j: int|
                0 <= i < j < children.len() ==> sorting::lex_le(
                    node_key(#[trigger] children[i]),
                    node_key(#[trigger] children[j]),
                )
        },
{
    match st.vfs.opened(dir) {
        Err(_) => {},
        Ok(vfs) => {
            let children = builder::in_tree_order(
                builder::committed(vfs.listed(dir), staging.deleted),
            );
            lemma_children(vfs.listed(dir), staging.deleted);
            assert(is_pick(Seq::empty(), children, Seq::empty(), 0));
            lemma_children_picked(
                st.with_vfs(vfs),
                staging,
                dirty,
                children,
                0,
                Seq::empty(),
                left,
                Seq::empty(),
            );
        },
    }
}

// ---------------------------------------------------------------------------------------------
// How deep directories lie

/// Whether a node lies `k` directories below the root, all of them among the first `n` nodes.
spec fn is_below(v: VfsView, id: u64, k: nat, n: nat) -> bool
    decreases k,
{
    if k == 0 {
        id == ROOT_INODE
    } else {
        id != ROOT_INODE && 0 < id <= n && is_below(v, v.node(id).parent, (k - 1) as nat, n)
    }
}

proof fn lemma_below_grows(v: VfsView, w: VfsView, id: u64, k: nat, n: nat)
    requires
        grows(v, w),
        n <= v.nodes.len(),
        is_below(v, id, k, n),
    ensures
        is_below(w, id, k, n),
    decreases k,
{
    if k > 0 {
        assert(w.nodes[id - 1] == v.nodes[id - 1]);
        lemma_below_grows(v, w, v.node(id).parent, (k - 1) as nat, n);
    }
}

proof fn lemma_depth_unique(v: VfsView, id: u64, k: nat, l: nat, n: nat)
    requires
        is_below(v, id, k, n),
        is_below(v, id, l, n),
    ensures
        k == l,
    decreases k,
{
    if k > 0 && l > 0 {
        lemma_depth_unique(v, v.node(id).parent, (k - 1) as nat, (l - 1) as nat, n);
    }
}

/// The nodes from the root down to one.
spec fn chain(v: VfsView, id: u64, k: nat) -> Seq<int>
    decreases k,
{
    if k == 0 {
        seq![ROOT_INODE as int]
    } else {
        chain(v, v.node(id).parent, (k - 1) as nat).push(id as int)
    }
}

proof fn lemma_chain(v: VfsView, id: u64, k: nat, n: nat)
    requires
        is_below(v, id, k, n),
        1 <= n <= u64::MAX,
    ensures
        chain(v, id, k).len() == k + 1,
        forall|j: int|
            0 <= j <= k ==> 1 <= #[trigger] chain(v, id, k)[j] <= n && is_below(
                v,
                chain(v, id, k)[j] as u64,
                j as nat,
                n,
            ),
    decreases k,
{
    if k > 0 {
        let parent = v.node(id).parent;
        lemma_chain(v, parent, (k - 1) as nat, n);
        let before = chain(v, parent, (k - 1) as nat);
        assert forall|j: int| 0 <= j <= k implies 1 <= #[trigger] chain(v, id, k)[j] <= n
            && is_below(v, chain(v, id, k)[j] as u64, j as nat, n) by {
            if j < k {
                assert(chain(v, id, k)[j] == before[j]);
            }
        }
    }
}

/// A node does not lie deeper than there are nodes.
proof fn lemma_depth_bound(v: VfsView, id: u64, k: nat, n: nat)
    requires
        is_below(v, id, k, n),
        1 <= n <= u64::MAX,
    ensures
        k < n,
{
    let all = chain(v, id, k);
    lemma_chain(v, id, k, n);
    assert forall|i: int, j: int| 0 <= i < j < all.len() implies all[i] != all[j] by {
        if all[i] == all[j] {
            lemma_depth_unique(v, all[i] as u64, i as nat, j as nat, n);
        }
    }
    all.unique_seq_to_set();
    vstd::set_lib::lemma_int_range(1, n as int + 1);
    let range = vstd::set_lib::set_int_range(1, n as int + 1);
    assert(all.to_set().subset_of(range)) by {
        assert forall|x: int| all.to_set().contains(x) implies range.contains(x) by {
            let j = choose|j: int| 0 <= j < all.len() && all[j] == x;
            assert(1 <= all[j] <= n);
        }
    }
    vstd::set_lib::lemma_len_subset(all.to_set(), range);
}

/// Whether all marked directories are among the first `n` nodes.
spec fn are_among(dirty: Map<u64, bool>, n: nat) -> bool {
    forall|id: u64| #[trigger] dirty.contains_key(id) ==> 0 < id <= n
}

proof fn lemma_marked_above(v: VfsView, id: u64, left: nat, dirty: Map<u64, bool>)
    requires
        v.wf(),
        are_among(dirty, v.nodes.len()),
    ensures
        are_among(builder::marked_above(v, id, left, dirty), v.nodes.len()),
    decreases left,
{
    if left > 0 && v.is_live(id) {
        let node = v.node(id);
        assert(v.node_ok(id - 1));
        let here = if node.is_dir {
            dirty.insert(id, true)
        } else {
            dirty
        };
        let up = here.insert(node.parent, true);
        assert(are_among(up, v.nodes.len()));
        if node.parent != ROOT_INODE && node.parent != id {
            lemma_marked_above(v, node.parent, (left - 1) as nat, up);
        }
    }
}

proof fn lemma_marked_all(v: VfsView, ids: Seq<u64>, dirty: Map<u64, bool>)
    requires
        v.wf(),
        are_among(dirty, v.nodes.len()),
    ensures
        are_among(builder::marked_all(v, ids, dirty), v.nodes.len()),
    decreases ids.len(),
{
    if ids.len() > 0 {
        lemma_marked_all(v, ids.drop_last(), dirty);
        let before = builder::marked_all(v, ids.drop_last(), dirty);
        let id = ids.last();
        lemma_marked_above(v, id, v.nodes.len(), before);
        lemma_marked_above(v, v.node(id).parent, v.nodes.len(), before);
    }
}

/// Whether children are nodes of a tree, below a directory.
spec fn are_children(v: VfsView, children: Seq<NodeView>, dir: u64) -> bool {
    forall|k: int|
        0 <= k < children.len() ==> is_child(v, #[trigger] children[k], dir)
}

spec fn is_child(v: VfsView, child: NodeView, dir: u64) -> bool {
    v.has(child.id) && child.id != ROOT_INODE && v.node(child.id) == child && child.parent == dir
}

proof fn lemma_live_children(v: VfsView, ids: Seq<u64>, dir: u64)
    requires
        v.wf(),
        forall|k: int|
            0 <= k < ids.len() ==> 1 < #[trigger] ids[k] <= v.nodes.len() && v.node(ids[k]).parent
                == dir,
    ensures
        are_children(v, v.live_nodes(ids), dir),
    decreases ids.len(),
{
    if ids.len() > 0 {
        lemma_live_children(v, ids.drop_last(), dir);
        if v.is_live(ids.last()) {
            assert(v.node_ok(ids.last() - 1));
            assert(ids[ids.len() - 1] == ids.last());
        }
    }
}

proof fn lemma_committed_children(v: VfsView, nodes: Seq<NodeView>, deleted: Seq<u64>, dir: u64)
    requires
        are_children(v, nodes, dir),
    ensures
        are_children(v, builder::committed(nodes, deleted), dir),
    decreases nodes.len(),
{
    if nodes.len() > 0 {
        let front = nodes.drop_last();
        assert forall|k: int| 0 <= k < front.len() implies is_child(v, #[trigger] front[k], dir) by {
            assert(front[k] == nodes[k]);
        }
        lemma_committed_children(v, front, deleted, dir);
        assert(is_child(v, nodes[nodes.len() - 1], dir));
    }
}

proof fn lemma_ordered_children(v: VfsView, nodes: Seq<NodeView>, dir: u64)
    requires
        are_children(v, nodes, dir),
    ensures
        are_children(v, builder::in_tree_order(nodes), dir),
{
    let keys = builder::node_keys(nodes);
    let order = sorting::lex_sorting(keys);
    let sorted = builder::in_tree_order(nodes);
    sorting::lemma_lex_sorted(keys);
    assert forall|k: int| 0 <= k < sorted.len() implies is_child(v, #[trigger] sorted[k], dir) by {
        assert(is_child(v, nodes[order[k]], dir));
    }
}

/// Whether what each node stands for, and each entry of a tree that the repository has, is named in
/// hexadecimal; a node may stand for nothing yet.
pub open spec fn all_hex(v: VfsView) -> bool {
    &&& forall|i: int|
        0 <= i < v.nodes.len() ==> (#[trigger] v.nodes[i]).oid.len() == 0 || hash::hex_decoded(
            v.nodes[i].oid,
        ) is Some
    &&& forall|oid: Seq<char>, k: int|
        #![trigger v.engine.trees[oid][k]]
        v.engine.trees.contains_key(oid) && 0 <= k < v.engine.trees[oid].len()
            ==> hash::hex_decoded(v.engine.trees[oid][k].oid) is Some
}

proof fn lemma_name_hex(t: ObjectType, data: Seq<u8>)
    ensures
        hash::hex_decoded(crate::git::pack::git_sha1(t, data)) is Some,
{
    hash::lemma_hex(
        hash::sha1(crate::git::pack::object_header(t, data.len()) + data),
    );
}

proof fn lemma_entries_hex(v: VfsView, dir: u64, items: Seq<TreeItem>)
    requires
        all_hex(v),
        forall|k: int| 0 <= k < items.len() ==> hash::hex_decoded((#[trigger] items[k]).oid) is Some,
    ensures
        all_hex(v.with_entries(dir, items)),
    decreases items.len(),
{
    if items.len() > 0 {
        let front = items.drop_last();
        assert forall|k: int| 0 <= k < front.len() implies hash::hex_decoded(
            (#[trigger] front[k]).oid,
        ) is Some by {
            assert(front[k] == items[k]);
        }
        lemma_entries_hex(v, dir, front);
        let before = v.with_entries(dir, front);
        let after = v.with_entries(dir, items);
        assert(items[items.len() - 1] == items.last());
        assert(after.engine.trees == before.engine.trees);
        assert forall|i: int| 0 <= i < after.nodes.len() implies (
        #[trigger] after.nodes[i]).oid.len() == 0 || hash::hex_decoded(
            after.nodes[i].oid,
        ) is Some by {
            if i < before.nodes.len() {
                assert(after.nodes[i] == before.nodes[i]);
            }
        }
    }
}

proof fn lemma_opened_hex(v: VfsView, dir: u64)
    requires
        all_hex(v),
    ensures
        v.opened(dir) matches Ok(w) ==> all_hex(w),
{
    if !v.is_open(dir) && v.has(dir) && v.node(dir).is_dir {
        let empty = v.with_dir(dir, DirView { listing: Some(Seq::empty()), ..v.dir(dir) });
        let oid = v.node(dir).oid;
        assert(all_hex(empty));
        if v.engine.trees.contains_key(oid) {
            let items = v.engine.trees[oid];
            assert forall|k: int| 0 <= k < items.len() implies hash::hex_decoded(
                (#[trigger] items[k]).oid,
            ) is Some by {
                assert(v.engine.trees[oid][k] == items[k]);
            }
            lemma_entries_hex(empty, dir, items);
        }
    }
}

proof fn lemma_children_depth(
    st: BuildView,
    staging: StagingView,
    dirty: Map<u64, bool>,
    children: Seq<NodeView>,
    i: int,
    items: Seq<TreeItem>,
    left: nat,
    dir: u64,
    k: nat,
    n: nat,
)
    requires
        st.vfs.wf(),
        1 <= n <= st.vfs.nodes.len(),
        are_among(dirty, n),
        is_below(st.vfs, dir, k, n),
        left + k == n,
        are_children(st.vfs, children, dir),
        0 <= i,
        builder::children_built(
            st,
            staging,
            dirty,
            children,
            i,
            items,
            left,
        ).0.vfs.nodes.len() <= u64::MAX,
    ensures
        ({
            let (next, r) = builder::children_built(
                st,
                staging,
                dirty,
                children,
                i,
                items,
                left,
            );
            &&& next.vfs.wf()
            &&& grows(st.vfs, next.vfs)
            &&& r != Err::<Seq<TreeItem>, _>(BuildError::TooDeep)
            &&& all_hex(st.vfs) ==> all_hex(next.vfs) && r is Ok
        }),
    decreases left, 0nat, children.len() - i,
{
    lemma_depth_bound(st.vfs, dir, k, n);
    if i < children.len() {
        let child = children[i];
        assert(is_child(st.vfs, child, dir));
        assert(st.vfs.nodes[child.id - 1] == child);
        let below = child.is_dir && dirty.contains_key(child.id);
        let (next, oid) = if below {
            builder::dir_built(st, staging, dirty, child.id, (left - 1) as nat)
        } else {
            (st, Ok(child.oid))
        };
        let end = builder::children_built(st, staging, dirty, children, i, items, left).0;
        match oid {
            Err(_) => {
                if below {
                    assert(is_below(st.vfs, child.id, k + 1, n));
                    lemma_dir_depth(
                        st,
                        staging,
                        dirty,
                        child.id,
                        (left - 1) as nat,
                        k + 1,
                        n,
                    );
                }
            },
            Ok(oid) => {
                let skipped = oid.len() == 0;
                let bad = !skipped && hash::hex_decoded(oid) is None;
                let item = TreeItem { mode: child.mode, name: child.name, oid };
                let more = if skipped {
                    items
                } else {
                    items.push(item)
                };
                if !bad {
                    lemma_children_grow(next, staging, dirty, children, i + 1, more, left);
                }
                if below {
                    assert(is_below(st.vfs, child.id, k + 1, n));
                    lemma_dir_depth(
                        st,
                        staging,
                        dirty,
                        child.id,
                        (left - 1) as nat,
                        k + 1,
                        n,
                    );
                }
                if !bad {
                    lemma_below_grows(st.vfs, next.vfs, dir, k, n);
                    assert forall|j: int| 0 <= j < children.len() implies is_child(
                        next.vfs,
                        #[trigger] children[j],
                        dir,
                    ) by {
                        assert(is_child(st.vfs, children[j], dir));
                        assert(next.vfs.nodes[children[j].id - 1] == st.vfs.nodes[children[j].id
                            - 1]);
                    }
                    lemma_children_depth(
                        next,
                        staging,
                        dirty,
                        children,
                        i + 1,
                        more,
                        left,
                        dir,
                        k,
                        n,
                    );
                    lemma_grows(st.vfs, next.vfs, end.vfs);
                }
            },
        }
    }
}

proof fn lemma_children_grow(
    st: BuildView,
    staging: StagingView,
    dirty: Map<u64, bool>,
    children: Seq<NodeView>,
    i: int,
    items: Seq<TreeItem>,
    left: nat,
)
    ensures
        grows(
            st.vfs,
            builder::children_built(st, staging, dirty, children, i, items, left).0.vfs,
        ),
    decreases left, 0nat, children.len() - i,
{
    if i < children.len() {
        let child = children[i];
        let (next, oid) = if child.is_dir && dirty.contains_key(child.id) {
            if left == 0 {
                (st, Err(BuildError::TooDeep))
            } else {
                lemma_dir_grows(st, staging, dirty, child.id, (left - 1) as nat);
                builder::dir_built(st, staging, dirty, child.id, (left - 1) as nat)
            }
        } else {
            (st, Ok(child.oid))
        };
        match oid {
            Err(_) => {},
            Ok(oid) => {
                let item = TreeItem { mode: child.mode, name: child.name, oid };
                let more = if oid.len() == 0 {
                    items
                } else {
                    items.push(item)
                };
                lemma_children_grow(next, staging, dirty, children, i + 1, more, left);
                if oid.len() == 0 || hash::hex_decoded(oid) is Some {
                    lemma_grows(
                        st.vfs,
                        next.vfs,
                        builder::children_built(
                            next,
                            staging,
                            dirty,
                            children,
                            i + 1,
                            more,
                            left,
                        ).0.vfs,
                    );
                }
            },
        }
    }
}

proof fn lemma_dir_grows(
    st: BuildView,
    staging: StagingView,
    dirty: Map<u64, bool>,
    dir: u64,
    left: nat,
)
    ensures
        grows(st.vfs, builder::dir_built(st, staging, dirty, dir, left).0.vfs),
    decreases left, 1nat, 0int,
{
    match st.vfs.opened(dir) {
        Err(_) => {},
        Ok(vfs) => {
            lemma_opened_grows(st.vfs, dir);
            let children = builder::in_tree_order(
                builder::committed(vfs.listed(dir), staging.deleted),
            );
            let opened = st.with_vfs(vfs);
            lemma_children_grow(opened, staging, dirty, children, 0, Seq::empty(), left);
            lemma_grows(
                st.vfs,
                vfs,
                builder::children_built(
                    opened,
                    staging,
                    dirty,
                    children,
                    0,
                    Seq::empty(),
                    left,
                ).0.vfs,
            );
        },
    }
}

proof fn lemma_dir_depth(
    st: BuildView,
    staging: StagingView,
    dirty: Map<u64, bool>,
    dir: u64,
    left: nat,
    k: nat,
    n: nat,
)
    requires
        st.vfs.wf(),
        1 <= n <= st.vfs.nodes.len(),
        are_among(dirty, n),
        is_below(st.vfs, dir, k, n),
        left + k == n,
        builder::dir_built(st, staging, dirty, dir, left).0.vfs.nodes.len() <= u64::MAX,
    ensures
        ({
            let (next, r) = builder::dir_built(st, staging, dirty, dir, left);
            &&& next.vfs.wf()
            &&& grows(st.vfs, next.vfs)
            &&& r != Err::<Seq<char>, _>(BuildError::TooDeep)
            &&& all_hex(st.vfs) && st.vfs.has(dir) && st.vfs.node(dir).is_dir ==> all_hex(next.vfs)
                && r is Ok && hash::hex_decoded(r->Ok_0) is Some
        }),
    decreases left, 1nat, 0int,
{
    match st.vfs.opened(dir) {
        Err(_) => {},
        Ok(vfs) => {
            lemma_opened_grows(st.vfs, dir);
            let listed = vfs.listed(dir);
            let kept = builder::committed(listed, staging.deleted);
            let children = builder::in_tree_order(kept);
            let opened = st.with_vfs(vfs);
            let end = builder::children_built(
                opened,
                staging,
                dirty,
                children,
                0,
                Seq::empty(),
                left,
            ).0;
            lemma_children_grow(opened, staging, dirty, children, 0, Seq::empty(), left);
            lemma_grows(st.vfs, vfs, end.vfs);
            crate::vfs::laws::lemma_opened_once(st.vfs, dir);
            let ids = vfs.listing(dir);
            assert forall|j: int| 0 <= j < ids.len() implies 1 < #[trigger] ids[j]
                <= vfs.nodes.len() && vfs.node(ids[j]).parent == dir by {
                assert(vfs.listed_ok(dir - 1, j));
            }
            lemma_live_children(vfs, ids, dir);
            lemma_committed_children(vfs, listed, staging.deleted, dir);
            lemma_ordered_children(vfs, kept, dir);
            lemma_below_grows(st.vfs, vfs, dir, k, n);
            if all_hex(st.vfs) {
                lemma_opened_hex(st.vfs, dir);
            }
            match builder::entries_built(st, staging, dirty, dir, left).1 {
                Ok(items) => {
                    lemma_name_hex(ObjectType::Tree, tree::tree_bytes(items)->0);
                },
                Err(_) => {},
            }
            lemma_children_depth(
                opened,
                staging,
                dirty,
                children,
                0,
                Seq::empty(),
                left,
                dir,
                k,
                n,
            );
        },
    }
}

proof fn lemma_staged_wf(st: BuildView, staging: StagingView, ids: Seq<u64>)
    requires
        st.vfs.wf(),
    ensures
        st.with_all_staged(staging, ids).vfs.wf(),
        st.with_all_staged(staging, ids).vfs.nodes.len() == st.vfs.nodes.len(),
    decreases ids.len(),
{
    if ids.len() > 0 {
        let before = st.with_all_staged(staging, ids.drop_last());
        let id = ids.last();
        lemma_staged_wf(st, staging, ids.drop_last());
        if before.vfs.has(id) {
            assert(before.vfs.node_ok(id - 1));
            let oid = crate::git::pack::git_sha1(ObjectType::Blob, staging.staged[id]);
            before.vfs.lemma_with_node(id, NodeView { oid, ..before.vfs.node(id) });
        }
    }
}

/// Directories never lie within one another more deeply than there are nodes: that is no reason
/// for which a commit cannot be built.
pub proof fn lemma_never_too_deep(
    v: VfsView,
    s: StagingView,
    base_commit: Seq<char>,
    author: Seq<char>,
    message: Seq<char>,
    timestamp: u64,
)
    requires
        v.wf(),
        builder::commit_built(
            v,
            s,
            base_commit,
            author,
            message,
            timestamp,
        ).0.nodes.len() <= u64::MAX,
    ensures
        builder::commit_built(v, s, base_commit, author, message, timestamp).1 != Err::<
            CommitView,
            _,
        >(BuildError::TooDeep),
{
    let start = BuildView { vfs: v, objects: Map::empty(), oids: Seq::empty() };
    let staged = start.with_all_staged(s, s.staged_ids);
    let dirty = builder::dirty_dirs(staged.vfs, s);
    let n = staged.vfs.nodes.len();
    lemma_staged_wf(start, s, s.staged_ids);
    lemma_marked_all(
        staged.vfs,
        s.staged_ids + s.deleted + s.touched,
        Map::empty().insert(ROOT_INODE, true),
    );
    lemma_dir_depth(staged, s, dirty, ROOT_INODE, n, 0, n);
}

proof fn lemma_staged_hex(st: BuildView, staging: StagingView, ids: Seq<u64>)
    requires
        all_hex(st.vfs),
    ensures
        all_hex(st.with_all_staged(staging, ids).vfs),
    decreases ids.len(),
{
    if ids.len() > 0 {
        let before = st.with_all_staged(staging, ids.drop_last());
        let after = st.with_all_staged(staging, ids);
        let id = ids.last();
        lemma_staged_hex(st, staging, ids.drop_last());
        lemma_name_hex(ObjectType::Blob, staging.staged[id]);
        assert(after.vfs.engine == before.vfs.engine);
        assert forall|i: int| 0 <= i < after.vfs.nodes.len() implies (
        #[trigger] after.vfs.nodes[i]).oid.len() == 0 || hash::hex_decoded(
            after.vfs.nodes[i].oid,
        ) is Some by {
            assert(before.vfs.nodes[i].oid.len() == 0 || hash::hex_decoded(
                before.vfs.nodes[i].oid,
            ) is Some);
        }
    }
}

/// A commit can always be built where objects are named in hexadecimal.
pub proof fn lemma_commit_made(
    v: VfsView,
    s: StagingView,
    base_commit: Seq<char>,
    author: Seq<char>,
    message: Seq<char>,
    timestamp: u64,
)
    requires
        v.wf(),
        all_hex(v),
        builder::commit_built(
            v,
            s,
            base_commit,
            author,
            message,
            timestamp,
        ).0.nodes.len() <= u64::MAX,
    ensures
        builder::commit_built(v, s, base_commit, author, message, timestamp).1 is Ok,
{
    let start = BuildView { vfs: v, objects: Map::empty(), oids: Seq::empty() };
    let staged = start.with_all_staged(s, s.staged_ids);
    let dirty = builder::dirty_dirs(staged.vfs, s);
    let n = staged.vfs.nodes.len();
    lemma_staged_wf(start, s, s.staged_ids);
    lemma_staged_hex(start, s, s.staged_ids);
    lemma_marked_all(
        staged.vfs,
        s.staged_ids + s.deleted + s.touched,
        Map::empty().insert(ROOT_INODE, true),
    );
    lemma_dir_depth(staged, s, dirty, ROOT_INODE, n, 0, n);
}

} // verus!
