//! What a commit holds of the edits that it was built from.

use vstd::prelude::*;

use crate::git::builder;
use crate::git::builder::{BuildError, BuildView, CommitView, ToPack};
use crate::git::builder_laws;
use crate::git::engine::EngineView;
use crate::git::hash;
use crate::git::pack;
use crate::git::pack::ObjectType;
use crate::git::tree;
use crate::git::tree::TreeItem;
use crate::sorting;
use crate::staging::StagingView;
use crate::vfs::filter;
use crate::vfs::inode::{DirView, NodeView, VfsView, ROOT_INODE};
use crate::vfs::laws;

verus! {

// ---------------------------------------------------------------------------------------------
// The trees of a commit

/// The entries of the trees that are built for the children from the `i`-th on.
pub open spec fn children_trees(
    st: BuildView,
    staging: StagingView,
    dirty: Map<u64, bool>,
    children: Seq<NodeView>,
    i: int,
    items: Seq<TreeItem>,
    left: nat,
) -> Set<Seq<TreeItem>>
    decreases left, 0nat, children.len() - i,
{
    if i >= children.len() {
        Set::empty()
    } else {
        let child = children[i];
        let below = child.is_dir && dirty.contains_key(child.id);
        if below && left == 0 {
            Set::empty()
        } else {
            let here = if below {
                dir_trees(st, staging, dirty, child.id, (left - 1) as nat)
            } else {
                Set::empty()
            };
            let (next, oid) = if below {
                builder::dir_built(st, staging, dirty, child.id, (left - 1) as nat)
            } else {
                (st, Ok(child.oid))
            };
            match oid {
                Err(_) => here,
                Ok(oid) => if oid.len() == 0 {
                    here.union(
                        children_trees(next, staging, dirty, children, i + 1, items, left),
                    )
                } else if hash::hex_decoded(oid) is None {
                    here
                } else {
                    let item = TreeItem { mode: child.mode, name: child.name, oid };
                    here.union(
                        children_trees(
                            next,
                            staging,
                            dirty,
                            children,
                            i + 1,
                            items.push(item),
                            left,
                        ),
                    )
                },
            }
        }
    }
}

/// The entries of the trees that are built for a directory: its own, and those of the
/// directories below it that are dirty.
pub open spec fn dir_trees(
    st: BuildView,
    staging: StagingView,
    dirty: Map<u64, bool>,
    dir: u64,
    left: nat,
) -> Set<Seq<TreeItem>>
    decreases left, 1nat, 0int,
{
    match st.vfs.opened(dir) {
        Err(_) => Set::empty(),
        Ok(vfs) => {
            let opened = st.with_vfs(vfs);
            let children = builder::in_tree_order(
                builder::committed(vfs.listed(dir), staging.deleted),
            );
            let below = children_trees(opened, staging, dirty, children, 0, Seq::empty(), left);
            match builder::children_built(
                opened,
                staging,
                dirty,
                children,
                0,
                Seq::empty(),
                left,
            ).1 {
                Err(_) => below,
                Ok(items) => below.insert(items),
            }
        },
    }
}

/// The entries of the trees that are built for a commit.
pub open spec fn commit_trees(v: VfsView, s: StagingView) -> Set<Seq<TreeItem>> {
    let staged = all_staged(v, s);
    dir_trees(
        staged,
        s,
        builder::dirty_dirs(staged.vfs, s),
        ROOT_INODE,
        staged.vfs.nodes.len(),
    )
}

/// A build with the blobs of all files that were written.
pub open spec fn all_staged(v: VfsView, s: StagingView) -> BuildView {
    (BuildView { vfs: v, objects: Map::empty(), oids: Seq::empty() }).with_all_staged(
        s,
        s.staged_ids,
    )
}

/// A tree as an object.
pub open spec fn tree_object(items: Seq<TreeItem>) -> ToPack {
    ToPack {
        oid: builder::tree_oid(items),
        obj_type: ObjectType::Tree,
        data: tree::tree_bytes(items)->0,
    }
}

/// A blob as an object.
pub open spec fn blob_object(data: Seq<u8>) -> ToPack {
    ToPack { oid: pack::git_sha1(ObjectType::Blob, data), obj_type: ObjectType::Blob, data }
}

// ---------------------------------------------------------------------------------------------
// What happens to the objects while trees are built

/// Whether an object was there before, or is one of the trees.
spec fn is_old_or_tree(
    before: BuildView,
    after: BuildView,
    trees: Set<Seq<TreeItem>>,
    oid: Seq<char>,
) -> bool {
    ||| before.objects.contains_key(oid) && after.objects[oid] == before.objects[oid]
    ||| exists|items: Seq<TreeItem>| #[trigger]
        trees.contains(items) && builder::tree_oid(items) == oid && after.objects[oid]
            == tree_object(items)
}

/// Whether a tree is one of the repository, or among the objects under its name.
spec fn is_stored(st: BuildView, items: Seq<TreeItem>) -> bool {
    st.vfs.engine.trees.contains_key(builder::tree_oid(items)) || st.objects.contains_key(
        builder::tree_oid(items),
    )
}

/// Whether only trees were added to the objects: these ones.
spec fn adds(before: BuildView, after: BuildView, trees: Set<Seq<TreeItem>>) -> bool {
    &&& after.vfs.engine.trees == before.vfs.engine.trees
    &&& forall|oid: Seq<char>|
        before.objects.contains_key(oid) ==> #[trigger] after.objects.contains_key(oid)
    &&& forall|oid: Seq<char>| #[trigger]
        after.objects.contains_key(oid) ==> is_old_or_tree(before, after, trees, oid)
    &&& forall|items: Seq<TreeItem>| #[trigger] trees.contains(items) ==> is_stored(after, items)
}

proof fn lemma_adds(
    a: BuildView,
    b: BuildView,
    c: BuildView,
    first: Set<Seq<TreeItem>>,
    second: Set<Seq<TreeItem>>,
)
    requires
        adds(a, b, first),
        adds(b, c, second),
    ensures
        adds(a, c, first.union(second)),
{
    let both = first.union(second);
    assert forall|oid: Seq<char>|
        a.objects.contains_key(oid) implies #[trigger] c.objects.contains_key(oid) by {
        assert(b.objects.contains_key(oid));
    }
    assert forall|oid: Seq<char>| #[trigger] c.objects.contains_key(oid) implies is_old_or_tree(
        a,
        c,
        both,
        oid,
    ) by {
        assert(is_old_or_tree(b, c, second, oid));
        if b.objects.contains_key(oid) && c.objects[oid] == b.objects[oid] {
            assert(is_old_or_tree(a, b, first, oid));
            if !(a.objects.contains_key(oid) && b.objects[oid] == a.objects[oid]) {
                let items = choose|items: Seq<TreeItem>| #[trigger]
                    first.contains(items) && builder::tree_oid(items) == oid && b.objects[oid]
                        == tree_object(items);
                assert(both.contains(items));
            }
        } else {
            let items = choose|items: Seq<TreeItem>| #[trigger]
                second.contains(items) && builder::tree_oid(items) == oid && c.objects[oid]
                    == tree_object(items);
            assert(both.contains(items));
        }
    }
    assert forall|items: Seq<TreeItem>| #[trigger] both.contains(items) implies is_stored(
        c,
        items,
    ) by {
        if first.contains(items) {
            assert(is_stored(b, items));
            if b.objects.contains_key(builder::tree_oid(items)) {
                assert(c.objects.contains_key(builder::tree_oid(items)));
            }
        } else {
            assert(second.contains(items));
        }
    }
}

proof fn lemma_adds_nothing(a: BuildView, vfs: VfsView)
    requires
        vfs.engine.trees == a.vfs.engine.trees,
    ensures
        adds(a, a.with_vfs(vfs), Set::empty()),
{
}

proof fn lemma_children_add(
    st: BuildView,
    staging: StagingView,
    dirty: Map<u64, bool>,
    children: Seq<NodeView>,
    i: int,
    items: Seq<TreeItem>,
    left: nat,
)
    ensures
        adds(
            st,
            builder::children_built(st, staging, dirty, children, i, items, left).0,
            children_trees(st, staging, dirty, children, i, items, left),
        ),
    decreases left, 0nat, children.len() - i,
{
    if i < children.len() {
        let child = children[i];
        let below = child.is_dir && dirty.contains_key(child.id);
        if !(below && left == 0) {
            let here = if below {
                dir_trees(st, staging, dirty, child.id, (left - 1) as nat)
            } else {
                Set::empty()
            };
            let (next, oid) = if below {
                lemma_dir_adds(st, staging, dirty, child.id, (left - 1) as nat);
                builder::dir_built(st, staging, dirty, child.id, (left - 1) as nat)
            } else {
                (st, Ok(child.oid))
            };
            assert(adds(st, next, here));
            match oid {
                Err(_) => {},
                Ok(oid) => {
                    let item = TreeItem { mode: child.mode, name: child.name, oid };
                    let more = if oid.len() == 0 {
                        items
                    } else {
                        items.push(item)
                    };
                    if oid.len() == 0 || hash::hex_decoded(oid) is Some {
                        lemma_children_add(next, staging, dirty, children, i + 1, more, left);
                        lemma_adds(
                            st,
                            next,
                            builder::children_built(
                                next,
                                staging,
                                dirty,
                                children,
                                i + 1,
                                more,
                                left,
                            ).0,
                            here,
                            children_trees(next, staging, dirty, children, i + 1, more, left),
                        );
                    }
                },
            }
        }
    }
}

proof fn lemma_dir_adds(
    st: BuildView,
    staging: StagingView,
    dirty: Map<u64, bool>,
    dir: u64,
    left: nat,
)
    ensures
        adds(
            st,
            builder::dir_built(st, staging, dirty, dir, left).0,
            dir_trees(st, staging, dirty, dir, left),
        ),
    decreases left, 1nat, 0int,
{
    match st.vfs.opened(dir) {
        Err(_) => {},
        Ok(vfs) => {
            builder_laws::lemma_opened_grows(st.vfs, dir);
            let opened = st.with_vfs(vfs);
            let children = builder::in_tree_order(
                builder::committed(vfs.listed(dir), staging.deleted),
            );
            lemma_adds_nothing(st, vfs);
            lemma_children_add(opened, staging, dirty, children, 0, Seq::empty(), left);
            let below = children_trees(opened, staging, dirty, children, 0, Seq::empty(), left);
            let (next, r) = builder::children_built(
                opened,
                staging,
                dirty,
                children,
                0,
                Seq::empty(),
                left,
            );
            lemma_adds(st, opened, next, Set::empty(), below);
            assert(Set::empty().union(below) =~= below);
            match r {
                Err(_) => {},
                Ok(items) => {
                    let after = builder::dir_built(st, staging, dirty, dir, left).0;
                    let one = Set::<Seq<TreeItem>>::empty().insert(items);
                    assert(one.contains(items));
                    assert(adds(next, after, one)) by {
                        assert forall|oid: Seq<char>| #[trigger]
                            after.objects.contains_key(oid) implies is_old_or_tree(
                            next,
                            after,
                            one,
                            oid,
                        ) by {
                            if oid == builder::tree_oid(items)
                                && !next.vfs.engine.trees.contains_key(oid) {
                                assert(one.contains(items) && after.objects[oid] == tree_object(
                                    items,
                                ));
                            }
                        }
                    }
                    lemma_adds(st, next, after, below, one);
                    assert(below.union(one) =~= below.insert(items));
                },
            }
        },
    }
}

// ---------------------------------------------------------------------------------------------
// What happens to the tree of nodes

/// Whether nodes were only added, and the directories that were looked at are as they were.
spec fn keeps(v: VfsView, w: VfsView) -> bool {
    &&& builder_laws::grows(v, w)
    &&& v.nodes.len() == v.dirs.len()
    &&& w.nodes.len() == w.dirs.len()
    &&& forall|i: int|
        0 <= i < v.dirs.len() && v.dirs[i].listing is Some ==> #[trigger] w.dirs[i] == v.dirs[i]
}

proof fn lemma_keeps(u: VfsView, v: VfsView, w: VfsView)
    requires
        keeps(u, v),
        keeps(v, w),
    ensures
        keeps(u, w),
{
    assert forall|i: int| 0 <= i < u.nodes.len() implies #[trigger] w.nodes[i] == u.nodes[i] by {
        assert(v.nodes[i] == u.nodes[i]);
    }
    assert forall|i: int|
        0 <= i < u.dirs.len() && u.dirs[i].listing is Some implies #[trigger] w.dirs[i]
        == u.dirs[i] by {
        assert(v.dirs[i] == u.dirs[i]);
    }
}

proof fn lemma_entries_len(v: VfsView, dir: u64, items: Seq<TreeItem>)
    requires
        v.nodes.len() == v.dirs.len(),
        0 < dir <= v.dirs.len(),
    ensures
        v.with_entries(dir, items).nodes.len() == v.with_entries(dir, items).dirs.len(),
        v.dirs.len() <= v.with_entries(dir, items).dirs.len(),
    decreases items.len(),
{
    if items.len() > 0 {
        lemma_entries_len(v, dir, items.drop_last());
    }
}

proof fn lemma_opened_keeps(v: VfsView, dir: u64)
    requires
        v.nodes.len() == v.dirs.len(),
    ensures
        v.opened(dir) matches Ok(w) ==> keeps(v, w),
{
    builder_laws::lemma_opened_grows(v, dir);
    laws::lemma_opened_aside(v, dir);
    if !v.is_open(dir) && v.has(dir) && v.node(dir).is_dir {
        let empty = v.with_dir(dir, DirView { listing: Some(Seq::empty()), ..v.dir(dir) });
        let oid = v.node(dir).oid;
        if v.engine.trees.contains_key(oid) {
            lemma_entries_len(empty, dir, v.engine.trees[oid]);
        }
    }
}

proof fn lemma_children_keep(
    st: BuildView,
    staging: StagingView,
    dirty: Map<u64, bool>,
    children: Seq<NodeView>,
    i: int,
    items: Seq<TreeItem>,
    left: nat,
)
    requires
        st.vfs.nodes.len() == st.vfs.dirs.len(),
    ensures
        keeps(
            st.vfs,
            builder::children_built(st, staging, dirty, children, i, items, left).0.vfs,
        ),
    decreases left, 0nat, children.len() - i,
{
    if i < children.len() {
        let child = children[i];
        let (next, oid) = if child.is_dir && dirty.contains_key(child.id) {
            if left == 0 {
                (st, Err(BuildError::TooDeep))
            } else {
                lemma_dir_keeps(st, staging, dirty, child.id, (left - 1) as nat);
                builder::dir_built(st, staging, dirty, child.id, (left - 1) as nat)
            }
        } else {
            (st, Ok(child.oid))
        };
        match oid {
            Err(_) => {},
            Ok(oid) => {
                let item = TreeItem { mode: child.mode, name: child.name, oid };
                let more = if oid.len() == 0 {
                    items
                } else {
                    items.push(item)
                };
                if oid.len() == 0 || hash::hex_decoded(oid) is Some {
                    lemma_children_keep(next, staging, dirty, children, i + 1, more, left);
                    lemma_keeps(
                        st.vfs,
                        next.vfs,
                        builder::children_built(
                            next,
                            staging,
                            dirty,
                            children,
                            i + 1,
                            more,
                            left,
                        ).0.vfs,
                    );
                }
            },
        }
    }
}

proof fn lemma_dir_keeps(
    st: BuildView,
    staging: StagingView,
    dirty: Map<u64, bool>,
    dir: u64,
    left: nat,
)
    requires
        st.vfs.nodes.len() == st.vfs.dirs.len(),
    ensures
        keeps(st.vfs, builder::dir_built(st, staging, dirty, dir, left).0.vfs),
    decreases left, 1nat, 0int,
{
    match st.vfs.opened(dir) {
        Err(_) => {},
        Ok(vfs) => {
            lemma_opened_keeps(st.vfs, dir);
            let children = builder::in_tree_order(
                builder::committed(vfs.listed(dir), staging.deleted),
            );
            let opened = st.with_vfs(vfs);
            lemma_children_keep(opened, staging, dirty, children, 0, Seq::empty(), left);
            lemma_keeps(
                st.vfs,
                vfs,
                builder::children_built(
                    opened,
                    staging,
                    dirty,
                    children,
                    0,
                    Seq::empty(),
                    left,
                ).0.vfs,
            );
        },
    }
}

// ---------------------------------------------------------------------------------------------
// Paths

/// Whether nodes lie below one another from the root down, each listed in the one before, and
/// all go into a commit: none is removed, and none is macOS metadata.
pub open spec fn is_path(v: VfsView, s: StagingView, path: Seq<u64>) -> bool {
    &&& path.len() > 0
    &&& path[0] == ROOT_INODE
    &&& path.no_duplicates()
    &&& forall|k: int| 0 < k < path.len() ==> is_link(v, s, path, k)
}

/// Whether the `k`-th node of a path is listed in the one before, and goes into a commit.
pub open spec fn is_link(v: VfsView, s: StagingView, path: Seq<u64>, k: int) -> bool {
    &&& v.is_open(path[k - 1])
    &&& v.listing(path[k - 1]).contains(#[trigger] path[k])
    &&& v.is_live(path[k])
    &&& v.node(path[k]).parent == path[k - 1]
    &&& !filter::apple_metadata(v.node(path[k]).name)
    &&& !s.deleted.contains(path[k])
}

/// The names behind the `k`-th node of a path.
pub open spec fn names_from(v: VfsView, path: Seq<u64>, k: int) -> Seq<Seq<char>> {
    Seq::new((path.len() - 1 - k) as nat, |j: int| v.node(path[k + 1 + j]).name)
}

/// Whether an entry of one of the trees has a name.
pub open spec fn is_entry(
    trees: Set<Seq<TreeItem>>,
    items: Seq<TreeItem>,
    i: int,
    tree: Seq<char>,
    name: Seq<char>,
) -> bool {
    &&& trees.contains(items)
    &&& builder::tree_oid(items) == tree
    &&& 0 <= i < items.len()
    &&& items[i].name == name
}

/// Whether names lead from a tree to an object, through trees that are built.
spec fn leads_in(
    trees: Set<Seq<TreeItem>>,
    tree: Seq<char>,
    names: Seq<Seq<char>>,
    target: Seq<char>,
) -> bool
    decreases names.len(),
{
    if names.len() == 0 {
        tree == target
    } else {
        exists|items: Seq<TreeItem>, i: int| #[trigger]
            is_entry(trees, items, i, tree, names[0]) && leads_in(
                trees,
                items[i].oid,
                names.drop_first(),
                target,
            )
    }
}

/// Whether an entry of a tree that is known has a name.
pub open spec fn is_known_entry(
    trees: Map<Seq<char>, Seq<TreeItem>>,
    i: int,
    tree: Seq<char>,
    name: Seq<char>,
) -> bool {
    &&& trees.contains_key(tree)
    &&& 0 <= i < trees[tree].len()
    &&& trees[tree][i].name == name
}

/// Whether names lead from a tree to an object.
pub open spec fn leads_to(
    trees: Map<Seq<char>, Seq<TreeItem>>,
    tree: Seq<char>,
    names: Seq<Seq<char>>,
    target: Seq<char>,
) -> bool
    decreases names.len(),
{
    if names.len() == 0 {
        tree == target
    } else {
        exists|i: int| #[trigger]
            is_known_entry(trees, i, tree, names[0]) && leads_to(
                trees,
                trees[tree][i].oid,
                names.drop_first(),
                target,
            )
    }
}

proof fn lemma_leads_more(
    trees: Set<Seq<TreeItem>>,
    more: Set<Seq<TreeItem>>,
    tree: Seq<char>,
    names: Seq<Seq<char>>,
    target: Seq<char>,
)
    requires
        trees.subset_of(more),
        leads_in(trees, tree, names, target),
    ensures
        leads_in(more, tree, names, target),
    decreases names.len(),
{
    if names.len() > 0 {
        let (items, i) = choose|items: Seq<TreeItem>, i: int| #[trigger]
            is_entry(trees, items, i, tree, names[0]) && leads_in(
                trees,
                items[i].oid,
                names.drop_first(),
                target,
            );
        lemma_leads_more(trees, more, items[i].oid, names.drop_first(), target);
        assert(is_entry(more, items, i, tree, names[0]));
    }
}

proof fn lemma_leads_known(
    trees: Set<Seq<TreeItem>>,
    known: Map<Seq<char>, Seq<TreeItem>>,
    tree: Seq<char>,
    names: Seq<Seq<char>>,
    target: Seq<char>,
)
    requires
        leads_in(trees, tree, names, target),
        forall|items: Seq<TreeItem>| #[trigger]
            trees.contains(items) ==> known.contains_key(builder::tree_oid(items))
                && known[builder::tree_oid(items)] == items,
    ensures
        leads_to(known, tree, names, target),
    decreases names.len(),
{
    if names.len() > 0 {
        let (items, i) = choose|items: Seq<TreeItem>, i: int| #[trigger]
            is_entry(trees, items, i, tree, names[0]) && leads_in(
                trees,
                items[i].oid,
                names.drop_first(),
                target,
            );
        assert(trees.contains(items));
        lemma_leads_known(trees, known, items[i].oid, names.drop_first(), target);
        assert(is_known_entry(known, i, tree, names[0]));
    }
}

proof fn lemma_prefix(
    st: BuildView,
    staging: StagingView,
    dirty: Map<u64, bool>,
    children: Seq<NodeView>,
    i: int,
    items: Seq<TreeItem>,
    left: nat,
)
    ensures
        builder::children_built(st, staging, dirty, children, i, items, left).1 matches Ok(all)
            ==> items.len() <= all.len() && all.take(items.len() as int) == items,
    decreases children.len() - i,
{
    if i < children.len() {
        let child = children[i];
        let (next, oid) = if child.is_dir && dirty.contains_key(child.id) {
            if left == 0 {
                (st, Err(BuildError::TooDeep))
            } else {
                builder::dir_built(st, staging, dirty, child.id, (left - 1) as nat)
            }
        } else {
            (st, Ok(child.oid))
        };
        match oid {
            Err(_) => {},
            Ok(oid) => {
                let item = TreeItem { mode: child.mode, name: child.name, oid };
                if oid.len() == 0 {
                    lemma_prefix(next, staging, dirty, children, i + 1, items, left);
                } else if hash::hex_decoded(oid) is Some {
                    let more = items.push(item);
                    lemma_prefix(next, staging, dirty, children, i + 1, more, left);
                    match builder::children_built(
                        next,
                        staging,
                        dirty,
                        children,
                        i + 1,
                        more,
                        left,
                    ).1 {
                        Ok(all) => {
                            assert(all.take(items.len() as int) =~= all.take(
                                more.len() as int,
                            ).take(items.len() as int));
                            assert(more.take(items.len() as int) =~= items);
                        },
                        Err(_) => {},
                    }
                }
            },
        }
    } else {
        assert(items.take(items.len() as int) =~= items);
    }
}

/// Whether the directories of a path are dirty, and its last node stands for an object and is not
/// built anew.
spec fn is_marked(
    v: VfsView,
    s: StagingView,
    dirty: Map<u64, bool>,
    path: Seq<u64>,
    target: Seq<char>,
) -> bool {
    &&& is_path(v, s, path)
    &&& path.len() > 1
    &&& v.nodes.len() == v.dirs.len()
    &&& forall|k: int| 0 <= k < path.len() - 1 ==> dirty.contains_key(#[trigger] path[k])
    &&& forall|k: int| 0 <= k < path.len() - 1 ==> v.node(#[trigger] path[k]).is_dir
    &&& forall|k: int| 0 <= k < path.len() ==> v.node(#[trigger] path[k]).id == path[k]
    &&& !(v.node(path.last()).is_dir && dirty.contains_key(path.last()))
    &&& v.node(path.last()).oid == target
    &&& target.len() > 0
}

spec fn are_named(trees: Set<Seq<TreeItem>>) -> bool {
    forall|items: Seq<TreeItem>| #[trigger]
        trees.contains(items) ==> builder::tree_oid(items).len() > 0
}

proof fn lemma_children_lead(
    st: BuildView,
    staging: StagingView,
    dirty: Map<u64, bool>,
    children: Seq<NodeView>,
    i: int,
    items: Seq<TreeItem>,
    left: nat,
    v: VfsView,
    path: Seq<u64>,
    k: int,
    p: int,
    target: Seq<char>,
)
    requires
        keeps(v, st.vfs),
        is_marked(v, staging, dirty, path, target),
        0 <= k < path.len() - 1,
        0 <= i <= p < children.len(),
        children[p] == v.node(path[k + 1]),
        are_named(children_trees(st, staging, dirty, children, i, items, left)),
    ensures
        builder::children_built(st, staging, dirty, children, i, items, left).1 matches Ok(all)
            ==> exists|q: int|
            0 <= q < all.len() && (#[trigger] all[q]).name == v.node(path[k + 1]).name && leads_in(
                children_trees(st, staging, dirty, children, i, items, left),
                all[q].oid,
                names_from(v, path, k + 1),
                target,
            ),
    decreases left, 0nat, children.len() - i,
{
    let child = children[i];
    let below = child.is_dir && dirty.contains_key(child.id);
    if builder::children_built(st, staging, dirty, children, i, items, left).1 is Ok {
        let all_trees = children_trees(st, staging, dirty, children, i, items, left);
        let here = if below {
            dir_trees(st, staging, dirty, child.id, (left - 1) as nat)
        } else {
            Set::empty()
        };
        let (next, r) = if below {
            builder::dir_built(st, staging, dirty, child.id, (left - 1) as nat)
        } else {
            (st, Ok(child.oid))
        };
        let oid = r->Ok_0;
        let item = TreeItem { mode: child.mode, name: child.name, oid };
        let more = if oid.len() == 0 {
            items
        } else {
            items.push(item)
        };
        let rest = children_trees(next, staging, dirty, children, i + 1, more, left);
        let (end, built) = builder::children_built(
            next,
            staging,
            dirty,
            children,
            i + 1,
            more,
            left,
        );
        let all = built->Ok_0;
        assert(all_trees == here.union(rest));
        assert(here.subset_of(all_trees) && rest.subset_of(all_trees));
        assert(are_named(here) && are_named(rest)) by {
            assert forall|x: Seq<TreeItem>| #[trigger] here.contains(x) implies builder::tree_oid(
                x,
            ).len() > 0 by {
                assert(all_trees.contains(x));
            }
            assert forall|x: Seq<TreeItem>| #[trigger] rest.contains(x) implies builder::tree_oid(
                x,
            ).len() > 0 by {
                assert(all_trees.contains(x));
            }
        }
        if i < p {
            if below {
                lemma_dir_keeps(st, staging, dirty, child.id, (left - 1) as nat);
                lemma_keeps(v, st.vfs, next.vfs);
            }
            lemma_children_lead(
                next,
                staging,
                dirty,
                children,
                i + 1,
                more,
                left,
                v,
                path,
                k,
                p,
                target,
            );
            let q = choose|q: int|
                0 <= q < all.len() && (#[trigger] all[q]).name == v.node(path[k + 1]).name
                    && leads_in(rest, all[q].oid, names_from(v, path, k + 1), target);
            lemma_leads_more(rest, all_trees, all[q].oid, names_from(v, path, k + 1), target);
        } else {
            let names = names_from(v, path, k + 1);
            if k + 1 == path.len() - 1 {
                assert(path.last() == path[k + 1]);
                assert(child.id == path[k + 1]);
                assert(!below);
                assert(oid == target);
                assert(names.len() == 0);
                assert(leads_in(all_trees, oid, names, target));
            } else {
                assert(v.node(path[k + 1]).is_dir && dirty.contains_key(path[k + 1]));
                assert(v.node(path[k + 1]).id == path[k + 1]);
                assert(below);
                lemma_dir_leads(
                    st,
                    staging,
                    dirty,
                    path[k + 1],
                    (left - 1) as nat,
                    v,
                    path,
                    k + 1,
                    target,
                );
                lemma_dir_named(st, staging, dirty, path[k + 1], (left - 1) as nat);
                assert(oid.len() > 0);
                lemma_leads_more(here, all_trees, oid, names, target);
            }
            lemma_prefix(next, staging, dirty, children, i + 1, more, left);
            let q = items.len() as int;
            assert(more[q] == item);
            assert(all.take(more.len() as int)[q] == all[q]);
            assert(all[q] == item);
        }
    }
}

/// A tree that is built for a directory is one of those that are built.
proof fn lemma_dir_named(
    st: BuildView,
    staging: StagingView,
    dirty: Map<u64, bool>,
    dir: u64,
    left: nat,
)
    ensures
        builder::dir_built(st, staging, dirty, dir, left).1 matches Ok(oid) ==> exists|
            items: Seq<TreeItem>,
        | #[trigger]
            dir_trees(st, staging, dirty, dir, left).contains(items) && builder::tree_oid(items)
                == oid,
{
    match builder::entries_built(st, staging, dirty, dir, left).1 {
        Ok(items) => {
            assert(dir_trees(st, staging, dirty, dir, left).contains(items));
        },
        Err(_) => {},
    }
}

proof fn lemma_listed(v: VfsView, ids: Seq<u64>, id: u64)
    requires
        ids.contains(id),
        v.is_live(id),
    ensures
        v.live_nodes(ids).contains(v.node(id)),
    decreases ids.len(),
{
    let front = ids.drop_last();
    let before = v.live_nodes(front);
    let all = v.live_nodes(ids);
    if ids.last() == id {
        assert(all[before.len() as int] == v.node(id));
    } else {
        let i = choose|i: int| 0 <= i < ids.len() && ids[i] == id;
        assert(front[i] == id);
        lemma_listed(v, front, id);
        let j = choose|j: int| 0 <= j < before.len() && before[j] == v.node(id);
        assert(all[j] == v.node(id));
    }
}

proof fn lemma_committed(nodes: Seq<NodeView>, deleted: Seq<u64>, node: NodeView)
    requires
        nodes.contains(node),
        !filter::apple_metadata(node.name),
        !deleted.contains(node.id),
    ensures
        builder::committed(nodes, deleted).contains(node),
    decreases nodes.len(),
{
    let front = nodes.drop_last();
    let before = builder::committed(front, deleted);
    let all = builder::committed(nodes, deleted);
    if nodes.last() == node {
        assert(all[before.len() as int] == node);
    } else {
        let i = choose|i: int| 0 <= i < nodes.len() && nodes[i] == node;
        assert(front[i] == node);
        lemma_committed(front, deleted, node);
        let j = choose|j: int| 0 <= j < before.len() && before[j] == node;
        assert(all[j] == node);
    }
}

proof fn lemma_ordered(nodes: Seq<NodeView>, node: NodeView) -> (p: int)
    requires
        nodes.contains(node),
    ensures
        0 <= p < builder::in_tree_order(nodes).len(),
        builder::in_tree_order(nodes)[p] == node,
{
    let keys = builder::node_keys(nodes);
    let order = sorting::lex_sorting(keys);
    sorting::lemma_lex_sorted(keys);
    let i = choose|i: int| 0 <= i < nodes.len() && nodes[i] == node;
    assert(order.contains(i));
    let p = choose|p: int| 0 <= p < order.len() && order[p] == i;
    p
}

proof fn lemma_dir_leads(
    st: BuildView,
    staging: StagingView,
    dirty: Map<u64, bool>,
    dir: u64,
    left: nat,
    v: VfsView,
    path: Seq<u64>,
    k: int,
    target: Seq<char>,
)
    requires
        keeps(v, st.vfs),
        is_marked(v, staging, dirty, path, target),
        0 <= k < path.len() - 1,
        path[k] == dir,
        are_named(dir_trees(st, staging, dirty, dir, left)),
    ensures
        builder::dir_built(st, staging, dirty, dir, left).1 matches Ok(oid) ==> leads_in(
            dir_trees(st, staging, dirty, dir, left),
            oid,
            names_from(v, path, k),
            target,
        ),
    decreases left, 1nat, 0int,
{
    if builder::dir_built(st, staging, dirty, dir, left).1 is Ok {
        let node = v.node(path[k + 1]);
        assert(is_link(v, staging, path, k + 1));
        let w = st.vfs;
        assert(w.dirs[dir - 1] == v.dirs[dir - 1]);
        assert(w.nodes[path[k + 1] - 1] == v.nodes[path[k + 1] - 1]);
        assert(w.opened(dir) == Ok::<_, crate::vfs::inode::VfsError>(w));
        assert(w.node(path[k + 1]) == node);
        assert(node.id == path[k + 1]);
        let listed = w.listed(dir);
        let kept = builder::committed(listed, staging.deleted);
        let children = builder::in_tree_order(kept);
        lemma_listed(w, w.listing(dir), path[k + 1]);
        lemma_committed(listed, staging.deleted, node);
        let p = lemma_ordered(kept, node);
        let below = children_trees(
            st.with_vfs(w),
            staging,
            dirty,
            children,
            0,
            Seq::empty(),
            left,
        );
        let (next, r) = builder::children_built(
            st.with_vfs(w),
            staging,
            dirty,
            children,
            0,
            Seq::empty(),
            left,
        );
        let all = r->Ok_0;
        let trees = dir_trees(st, staging, dirty, dir, left);
        assert(trees == below.insert(all));
        assert(below.subset_of(trees));
        assert(are_named(below)) by {
            assert forall|x: Seq<TreeItem>| #[trigger] below.contains(x) implies builder::tree_oid(
                x,
            ).len() > 0 by {
                assert(trees.contains(x));
            }
        }
        lemma_children_lead(
            st.with_vfs(w),
            staging,
            dirty,
            children,
            0,
            Seq::empty(),
            left,
            v,
            path,
            k,
            p,
            target,
        );
        let names = names_from(v, path, k);
        let q = choose|q: int|
            0 <= q < all.len() && (#[trigger] all[q]).name == node.name && leads_in(
                below,
                all[q].oid,
                names_from(v, path, k + 1),
                target,
            );
        assert(names.drop_first() =~= names_from(v, path, k + 1));
        assert(names[0] == node.name);
        lemma_leads_more(below, trees, all[q].oid, names.drop_first(), target);
        assert(is_entry(trees, all, q, builder::tree_oid(all), names[0]));
    }
}

// ---------------------------------------------------------------------------------------------
// Directories that are marked

proof fn lemma_marks_stay(v: VfsView, id: u64, left: nat, dirty: Map<u64, bool>, dir: u64)
    requires
        dirty.contains_key(dir),
    ensures
        builder::marked_above(v, id, left, dirty).contains_key(dir),
    decreases left,
{
    if left > 0 && v.is_live(id) {
        let node = v.node(id);
        let here = if node.is_dir {
            dirty.insert(id, true)
        } else {
            dirty
        };
        let up = here.insert(node.parent, true);
        if !(node.parent == ROOT_INODE || node.parent == id) {
            lemma_marks_stay(v, node.parent, (left - 1) as nat, up, dir);
        }
    }
}

proof fn lemma_path_marked(
    v: VfsView,
    s: StagingView,
    path: Seq<u64>,
    j: int,
    left: nat,
    dirty: Map<u64, bool>,
    k: int,
)
    requires
        is_path(v, s, path),
        0 <= k < j < path.len(),
        j <= left,
    ensures
        builder::marked_above(v, path[j], left, dirty).contains_key(path[k]),
    decreases j,
{
    assert(is_link(v, s, path, j));
    let node = v.node(path[j]);
    let here = if node.is_dir {
        dirty.insert(path[j], true)
    } else {
        dirty
    };
    let up = here.insert(node.parent, true);
    if node.parent == ROOT_INODE {
        assert(path[j - 1] == path[0]);
        assert(j - 1 == 0);
    } else {
        assert(node.parent != path[j]);
        if k == j - 1 {
            lemma_marks_stay(v, node.parent, (left - 1) as nat, up, path[k]);
        } else {
            lemma_path_marked(v, s, path, j - 1, (left - 1) as nat, up, k);
        }
    }
}

/// A directory of a path is marked with those above it.
proof fn lemma_dir_marked(
    v: VfsView,
    s: StagingView,
    path: Seq<u64>,
    j: int,
    left: nat,
    dirty: Map<u64, bool>,
    k: int,
)
    requires
        is_path(v, s, path),
        0 <= k <= j < path.len(),
        j <= left,
        left > 0,
        v.is_live(path[j]),
        v.node(path[j]).is_dir,
    ensures
        builder::marked_above(v, path[j], left, dirty).contains_key(path[k]),
{
    if k < j {
        lemma_path_marked(v, s, path, j, left, dirty, k);
    } else {
        let node = v.node(path[j]);
        let up = dirty.insert(path[j], true).insert(node.parent, true);
        if !(node.parent == ROOT_INODE || node.parent == path[j]) {
            lemma_marks_stay(v, node.parent, (left - 1) as nat, up, path[j]);
        }
    }
}

/// With the directories marked that one node gives.
spec fn marked_for(v: VfsView, id: u64, dirty: Map<u64, bool>) -> Map<u64, bool> {
    if v.has(id) && v.node(id).is_deleted {
        builder::marked_above(v, v.node(id).parent, v.nodes.len(), dirty)
    } else {
        builder::marked_above(v, id, v.nodes.len(), dirty)
    }
}

proof fn lemma_all_marked(
    v: VfsView,
    ids: Seq<u64>,
    dirty: Map<u64, bool>,
    id: u64,
    dir: u64,
)
    requires
        ids.contains(id),
        forall|d: Map<u64, bool>| #[trigger] marked_for(v, id, d).contains_key(dir),
    ensures
        builder::marked_all(v, ids, dirty).contains_key(dir),
    decreases ids.len(),
{
    let before = builder::marked_all(v, ids.drop_last(), dirty);
    let last = ids.last();
    assert(builder::marked_all(v, ids, dirty) == marked_for(v, last, before));
    if last != id {
        let i = choose|i: int| 0 <= i < ids.len() && ids[i] == id;
        assert(ids.drop_last()[i] == id);
        lemma_all_marked(v, ids.drop_last(), dirty, id, dir);
        lemma_marks_stay(v, v.node(last).parent, v.nodes.len(), before, dir);
        lemma_marks_stay(v, last, v.nodes.len(), before, dir);
    }
}

/// A path has no more nodes than there are.
proof fn lemma_path_len(v: VfsView, s: StagingView, path: Seq<u64>)
    requires
        is_path(v, s, path),
        v.nodes.len() >= 1,
    ensures
        path.len() <= v.nodes.len(),
{
    let n = v.nodes.len();
    let all = path.map_values(|id: u64| id as int);
    assert forall|i: int, j: int| 0 <= i < j < all.len() implies all[i] != all[j] by {
        assert(path[i] != path[j]);
    }
    all.unique_seq_to_set();
    vstd::set_lib::lemma_int_range(1, n as int + 1);
    let range = vstd::set_lib::set_int_range(1, n as int + 1);
    assert(all.to_set().subset_of(range)) by {
        assert forall|x: int| all.to_set().contains(x) implies range.contains(x) by {
            let j = choose|j: int| 0 <= j < all.len() && all[j] == x;
            if j > 0 {
                assert(is_link(v, s, path, j));
            }
        }
    }
    vstd::set_lib::lemma_len_subset(all.to_set(), range);
}

// ---------------------------------------------------------------------------------------------
// Blobs

/// Whether a tree of nodes is another one but for the objects that nodes stand for.
spec fn is_same_but_oids(v: VfsView, w: VfsView) -> bool {
    &&& w.nodes.len() == v.nodes.len()
    &&& w.dirs == v.dirs
    &&& w.engine == v.engine
    &&& forall|i: int|
        0 <= i < v.nodes.len() ==> #[trigger] w.nodes[i] == (NodeView {
            oid: w.nodes[i].oid,
            ..v.nodes[i]
        })
}

/// Whether an object is the blob of a file that was written.
spec fn is_staged_blob(s: StagingView, object: ToPack) -> bool {
    exists|id: u64| #[trigger] s.staged.contains_key(id) && object == blob_object(s.staged[id])
}

proof fn lemma_staged(st: BuildView, s: StagingView, ids: Seq<u64>, id: u64)
    requires
        forall|oid: Seq<char>| #[trigger]
            st.objects.contains_key(oid) ==> is_staged_blob(s, st.objects[oid])
                && st.objects[oid].oid == oid,
    ensures
        ({
            let after = st.with_all_staged(s, ids);
            &&& is_same_but_oids(st.vfs, after.vfs)
            &&& forall|oid: Seq<char>| #[trigger]
                after.objects.contains_key(oid) ==> is_staged_blob(s, after.objects[oid])
                    && after.objects[oid].oid == oid
            &&& ids.contains(id) && st.vfs.is_live(id) && !filter::apple_metadata(
                st.vfs.node(id).name,
            ) && s.staged.contains_key(id) ==> after.objects.contains_key(
                blob_object(s.staged[id]).oid,
            ) && after.vfs.node(id).oid == blob_object(s.staged[id]).oid
            &&& st.vfs.has(id) && !ids.contains(id) ==> after.vfs.node(id).oid == st.vfs.node(id).oid
        }),
    decreases ids.len(),
{
    if ids.len() > 0 {
        let front = ids.drop_last();
        let last = ids.last();
        lemma_staged(st, s, front, id);
        let before = st.with_all_staged(s, front);
        let after = st.with_all_staged(s, ids);
        assert(after == before.with_staged(s, last));
        if ids.contains(id) && last != id {
            let i = choose|i: int| 0 <= i < ids.len() && ids[i] == id;
            assert(front[i] == id);
        }
        if !ids.contains(id) {
            assert(ids[ids.len() - 1] == last);
            assert(!front.contains(id)) by {
                if front.contains(id) {
                    let i = choose|i: int| 0 <= i < front.len() && front[i] == id;
                    assert(ids[i] == id);
                }
            }
        }
        if st.vfs.has(last) {
            assert(before.vfs.nodes[last - 1] == (NodeView {
                oid: before.vfs.nodes[last - 1].oid,
                ..st.vfs.nodes[last - 1]
            }));
        }
        if st.vfs.has(id) {
            assert(before.vfs.nodes[id - 1] == (NodeView {
                oid: before.vfs.nodes[id - 1].oid,
                ..st.vfs.nodes[id - 1]
            }));
        }
        assert forall|i: int| 0 <= i < st.vfs.nodes.len() implies #[trigger] after.vfs.nodes[i]
            == (NodeView { oid: after.vfs.nodes[i].oid, ..st.vfs.nodes[i] }) by {
            assert(before.vfs.nodes[i] == (NodeView {
                oid: before.vfs.nodes[i].oid,
                ..st.vfs.nodes[i]
            }));
        }
        assert forall|oid: Seq<char>| #[trigger]
            after.objects.contains_key(oid) implies is_staged_blob(s, after.objects[oid])
            && after.objects[oid].oid == oid by {
            if before.objects.contains_key(oid) {
                assert(is_staged_blob(s, before.objects[oid]));
            }
            if s.staged.contains_key(last) {
                assert(is_staged_blob(s, blob_object(s.staged[last])));
            }
        }
    }
}

// ---------------------------------------------------------------------------------------------
// The law

/// Whether names tell the objects of a commit apart: those of its trees, which can all be read
/// back, from one another, from the repository's, from the blobs' and from the commit's, and the
/// blobs' from one another and from the commit's.
pub open spec fn are_told_apart(
    v: VfsView,
    s: StagingView,
    trees: Set<Seq<TreeItem>>,
    commit_oid: Seq<char>,
) -> bool {
    &&& forall|a: Seq<TreeItem>| #[trigger] trees.contains(a) ==> is_own_name(v, s, a, commit_oid)
    &&& forall|a: Seq<TreeItem>, b: Seq<TreeItem>| #[trigger]
        trees.contains(a) && #[trigger] trees.contains(b) && builder::tree_oid(a)
            == builder::tree_oid(b) ==> a == b
    &&& forall|id: u64| #[trigger]
        s.staged.contains_key(id) ==> blob_object(s.staged[id]).oid.len() > 0 && blob_object(
            s.staged[id],
        ).oid != commit_oid
    &&& forall|i: u64, j: u64| #[trigger]
        s.staged.contains_key(i) && #[trigger] s.staged.contains_key(j) && blob_object(
            s.staged[i],
        ).oid == blob_object(s.staged[j]).oid ==> s.staged[i] == s.staged[j]
}

/// Whether nothing but a tree has its name.
pub open spec fn is_own_name(
    v: VfsView,
    s: StagingView,
    items: Seq<TreeItem>,
    commit_oid: Seq<char>,
) -> bool {
    let oid = builder::tree_oid(items);
    &&& oid.len() > 0
    &&& oid != commit_oid
    &&& forall|i: int| 0 <= i < items.len() ==> tree::is_plain_item(#[trigger] items[i])
    &&& v.engine.trees.contains_key(oid) ==> v.engine.trees[oid] == items
    &&& forall|id: u64| #[trigger]
        s.staged.contains_key(id) ==> blob_object(s.staged[id]).oid != oid
}

proof fn lemma_tree_taken(e: EngineView, objects: Seq<ToPack>, items: Seq<TreeItem>)
    requires
        forall|i: int| 0 <= i < items.len() ==> tree::is_plain_item(#[trigger] items[i]),
        forall|j: int|
            0 <= j < objects.len() && (#[trigger] objects[j]).oid == builder::tree_oid(items)
                ==> objects[j] == tree_object(items),
        e.trees.contains_key(builder::tree_oid(items)) ==> e.trees[builder::tree_oid(items)]
            == items,
    ensures
        ({
            let oid = builder::tree_oid(items);
            let after = e.with_all_recovered(objects);
            &&& after.trees.contains_key(oid) ==> after.trees[oid] == items
            &&& e.trees.contains_key(oid) ==> after.trees.contains_key(oid)
            &&& forall|j: int|
                0 <= j < objects.len() && (#[trigger] objects[j]).oid == oid
                    ==> after.trees.contains_key(oid)
        }),
    decreases objects.len(),
{
    if objects.len() > 0 {
        let front = objects.drop_last();
        let oid = builder::tree_oid(items);
        assert forall|j: int| 0 <= j < front.len() && (#[trigger] front[j]).oid == oid implies
            front[j] == tree_object(items) by {
            assert(front[j] == objects[j]);
        }
        lemma_tree_taken(e, front, items);
        tree::lemma_tree_read_back(items);
        let last = objects.last();
        assert(objects[objects.len() - 1] == last);
        let before = e.with_all_recovered(front);
        let after = e.with_all_recovered(objects);
        assert(after == before.with_recovered(last));
        assert forall|j: int| 0 <= j < objects.len() && (#[trigger] objects[j]).oid
            == oid implies after.trees.contains_key(oid) by {
            if j < front.len() {
                assert(front[j] == objects[j]);
            }
        }
    }
}

/// A repository that took a commit knows all trees that were built for it.
proof fn lemma_trees_known(
    v: VfsView,
    s: StagingView,
    base_commit: Seq<char>,
    author: Seq<char>,
    message: Seq<char>,
    timestamp: u64,
    c: CommitView,
)
    requires
        builder::commit_built(v, s, base_commit, author, message, timestamp).1 == Ok::<
            _,
            BuildError,
        >(c),
        are_told_apart(v, s, commit_trees(v, s), c.commit_oid),
    ensures
        ({
            let after = v.engine.recovered(c.commit_oid, c.root_tree_oid, c.objects);
            forall|items: Seq<TreeItem>| #[trigger]
                commit_trees(v, s).contains(items) ==> after.trees.contains_key(
                    builder::tree_oid(items),
                ) && after.trees[builder::tree_oid(items)] == items
        }),
{
    let start = BuildView { vfs: v, objects: Map::empty(), oids: Seq::empty() };
    let staged = all_staged(v, s);
    lemma_staged(start, s, s.staged_ids, ROOT_INODE);
    let dirty = builder::dirty_dirs(staged.vfs, s);
    let n = staged.vfs.nodes.len();
    let trees = commit_trees(v, s);
    lemma_dir_adds(staged, s, dirty, ROOT_INODE, n);
    let next = builder::dir_built(staged, s, dirty, ROOT_INODE, n).0;
    lemma_objects_of(v, s, base_commit, author, message, timestamp, c, next);
    let after = v.engine.recovered(c.commit_oid, c.root_tree_oid, c.objects);
    let begun = EngineView {
        commit: Some(c.commit_oid),
        root_tree: Some(c.root_tree_oid),
        ..v.engine
    };
    assert forall|items: Seq<TreeItem>| #[trigger]
        trees.contains(items) implies after.trees.contains_key(builder::tree_oid(items))
        && after.trees[builder::tree_oid(items)] == items by {
        let oid = builder::tree_oid(items);
        assert(is_own_name(v, s, items, c.commit_oid));
        assert(is_stored(next, items));
        assert forall|j: int| 0 <= j < c.objects.len() && (#[trigger] c.objects[j]).oid
            == oid implies c.objects[j] == tree_object(items) by {
            assert(next.objects.contains_key(oid) && c.objects[j] == next.objects[oid]);
            assert(is_old_or_tree(staged, next, trees, oid));
            if staged.objects.contains_key(oid) {
                assert(is_staged_blob(s, staged.objects[oid]));
                let x = choose|x: u64| #[trigger]
                    s.staged.contains_key(x) && staged.objects[oid] == blob_object(s.staged[x]);
                assert(s.staged.contains_key(x));
                assert(false);
            }
            let other = choose|other: Seq<TreeItem>| #[trigger]
                trees.contains(other) && builder::tree_oid(other) == oid && next.objects[oid]
                    == tree_object(other);
            assert(other == items);
        }
        lemma_tree_taken(begun, c.objects, items);
        if next.objects.contains_key(oid) {
            assert(c.objects.contains(next.objects[oid]));
            let j = choose|j: int| 0 <= j < c.objects.len() && c.objects[j] == next.objects[oid];
            assert(c.objects[j].oid == oid);
        }
    }
}

/// A path stays what it is once the blobs of the files that were written are known.
proof fn lemma_path_staged(v: VfsView, s: StagingView, path: Seq<u64>)
    requires
        v.wf(),
        is_path(v, s, path),
    ensures
        ({
            let u = all_staged(v, s).vfs;
            &&& is_same_but_oids(v, u)
            &&& is_path(u, s, path)
            &&& path.len() <= u.nodes.len()
            &&& names_from(u, path, 0) == names_from(v, path, 0)
            &&& forall|k: int|
                0 <= k < path.len() ==> u.has(#[trigger] path[k]) && u.is_live(path[k]) && u.node(
                    path[k],
                ) == (NodeView { oid: u.node(path[k]).oid, ..v.node(path[k]) }) && u.node(
                    path[k],
                ).id == path[k]
            &&& forall|k: int| 0 <= k < path.len() - 1 ==> u.node(#[trigger] path[k]).is_dir
        }),
{
    let start = BuildView { vfs: v, objects: Map::empty(), oids: Seq::empty() };
    let u = all_staged(v, s).vfs;
    lemma_staged(start, s, s.staged_ids, ROOT_INODE);
    assert forall|k: int| 0 <= k < path.len() implies u.has(#[trigger] path[k]) && u.is_live(
        path[k],
    ) && u.node(path[k]) == (NodeView { oid: u.node(path[k]).oid, ..v.node(path[k]) }) && u.node(
        path[k],
    ).id == path[k] by {
        if k > 0 {
            assert(is_link(v, s, path, k));
        }
        assert(v.has(path[k]));
        assert(v.node_ok(path[k] - 1));
        assert(u.nodes[path[k] - 1] == (NodeView {
            oid: u.nodes[path[k] - 1].oid,
            ..v.nodes[path[k] - 1]
        }));
    }
    assert(is_path(u, s, path)) by {
        assert forall|k: int| 0 < k < path.len() implies is_link(u, s, path, k) by {
            assert(is_link(v, s, path, k));
            assert(u.dirs == v.dirs);
            assert(u.node(path[k]).name == v.node(path[k]).name);
        }
    }
    assert forall|k: int| 0 <= k < path.len() - 1 implies u.node(#[trigger] path[k]).is_dir by {
        assert(is_link(v, s, path, k + 1));
        assert(v.dir_ok(path[k] - 1));
        assert(u.node(path[k]).is_dir == v.node(path[k]).is_dir);
    }
    lemma_path_len(u, s, path);
    assert(names_from(u, path, 0) =~= names_from(v, path, 0)) by {
        assert forall|j: int| 0 <= j < path.len() - 1 implies names_from(u, path, 0)[j]
            == names_from(v, path, 0)[j] by {
            assert(u.node(path[j + 1]).name == v.node(path[j + 1]).name);
        }
    }
}

/// What stands at the end of a path whose directories are dirty is in the commit under its path.
proof fn lemma_marked_committed(
    v: VfsView,
    s: StagingView,
    base_commit: Seq<char>,
    author: Seq<char>,
    message: Seq<char>,
    timestamp: u64,
    c: CommitView,
    path: Seq<u64>,
    target: Seq<char>,
)
    requires
        v.wf(),
        builder::commit_built(v, s, base_commit, author, message, timestamp).1 == Ok::<
            _,
            BuildError,
        >(c),
        is_path(v, s, path),
        are_told_apart(v, s, commit_trees(v, s), c.commit_oid),
        is_marked(
            all_staged(v, s).vfs,
            s,
            builder::dirty_dirs(all_staged(v, s).vfs, s),
            path,
            target,
        ),
    ensures
        leads_to(
            v.engine.recovered(c.commit_oid, c.root_tree_oid, c.objects).trees,
            c.root_tree_oid,
            names_from(v, path, 0),
            target,
        ),
{
    let staged = all_staged(v, s);
    let u = staged.vfs;
    let dirty = builder::dirty_dirs(u, s);
    let n = u.nodes.len();
    let trees = commit_trees(v, s);
    lemma_path_staged(v, s, path);
    assert(are_named(trees)) by {
        assert forall|x: Seq<TreeItem>| #[trigger] trees.contains(x) implies builder::tree_oid(
            x,
        ).len() > 0 by {
            assert(is_own_name(v, s, x, c.commit_oid));
        }
    }
    lemma_dir_leads(staged, s, dirty, ROOT_INODE, n, u, path, 0, target);
    lemma_trees_known(v, s, base_commit, author, message, timestamp, c);
    let after = v.engine.recovered(c.commit_oid, c.root_tree_oid, c.objects);
    lemma_leads_known(trees, after.trees, c.root_tree_oid, names_from(v, path, 0), target);
}

/// A file that was edited is in the commit, under its path and with its contents: its blob is
/// among the objects, and in a repository that took the commit the names of the path lead from
/// the root tree to it. (No two different objects may happen to have the same name.)
pub proof fn lemma_edit_committed(
    v: VfsView,
    s: StagingView,
    base_commit: Seq<char>,
    author: Seq<char>,
    message: Seq<char>,
    timestamp: u64,
    c: CommitView,
    path: Seq<u64>,
)
    requires
        v.wf(),
        builder::commit_built(v, s, base_commit, author, message, timestamp).1 == Ok::<
            _,
            BuildError,
        >(c),
        is_path(v, s, path),
        path.len() > 1,
        !v.node(path.last()).is_dir,
        s.staged_ids.contains(path.last()),
        s.staged.contains_key(path.last()),
        are_told_apart(v, s, commit_trees(v, s), c.commit_oid),
    ensures
        c.objects.contains(blob_object(s.staged[path.last()])),
        leads_to(
            v.engine.recovered(c.commit_oid, c.root_tree_oid, c.objects).trees,
            c.root_tree_oid,
            names_from(v, path, 0),
            blob_object(s.staged[path.last()]).oid,
        ),
{
    let id = path.last();
    let blob = blob_object(s.staged[id]);
    let start = BuildView { vfs: v, objects: Map::empty(), oids: Seq::empty() };
    let staged = all_staged(v, s);
    let u = staged.vfs;
    lemma_staged(start, s, s.staged_ids, id);
    lemma_path_staged(v, s, path);
    assert(is_link(v, s, path, path.len() - 1));
    assert(staged.objects.contains_key(blob.oid));
    let dirty = builder::dirty_dirs(u, s);
    let n = u.nodes.len();
    let ids = s.staged_ids + s.deleted + s.touched;
    assert(ids.contains(id)) by {
        let i = choose|i: int| 0 <= i < s.staged_ids.len() && s.staged_ids[i] == id;
        assert(ids[i] == id);
    }
    assert forall|k: int| 0 <= k < path.len() - 1 implies dirty.contains_key(
        #[trigger] path[k],
    ) by {
        assert forall|d: Map<u64, bool>| #[trigger] marked_for(u, id, d).contains_key(path[k]) by {
            lemma_path_marked(u, s, path, path.len() - 1, n, d, k);
        }
        lemma_all_marked(u, ids, Map::empty().insert(ROOT_INODE, true), id, path[k]);
    }
    assert(is_marked(u, s, dirty, path, blob.oid));
    lemma_marked_committed(
        v,
        s,
        base_commit,
        author,
        message,
        timestamp,
        c,
        path,
        blob.oid,
    );
    // The blob stays among the objects.
    let trees = commit_trees(v, s);
    lemma_dir_adds(staged, s, dirty, ROOT_INODE, n);
    let next = builder::dir_built(staged, s, dirty, ROOT_INODE, n).0;
    lemma_objects_of(v, s, base_commit, author, message, timestamp, c, next);
    assert(next.objects.contains_key(blob.oid));
    assert(is_old_or_tree(staged, next, trees, blob.oid));
    assert(next.objects[blob.oid] == blob) by {
        assert(is_staged_blob(s, staged.objects[blob.oid]));
        let other = choose|x: u64| #[trigger]
            s.staged.contains_key(x) && staged.objects[blob.oid] == blob_object(s.staged[x]);
        assert(s.staged[other] == s.staged[id]);
        if !(next.objects[blob.oid] == staged.objects[blob.oid]) {
            let items = choose|items: Seq<TreeItem>| #[trigger]
                trees.contains(items) && builder::tree_oid(items) == blob.oid
                    && next.objects[blob.oid] == tree_object(items);
            assert(is_own_name(v, s, items, c.commit_oid));
            assert(s.staged.contains_key(id));
        }
    }
}

/// Whether a node goes into a commit as the object that it stands for: a file that was not
/// written, or a directory whose tree is not built anew.
pub open spec fn is_kept(v: VfsView, s: StagingView, id: u64) -> bool {
    &&& v.node(id).oid.len() > 0
    &&& if v.node(id).is_dir {
        !builder::dirty_dirs(all_staged(v, s).vfs, s).contains_key(id)
    } else {
        !s.staged_ids.contains(id)
    }
}

proof fn lemma_path_start(v: VfsView, s: StagingView, path: Seq<u64>)
    requires
        is_path(v, s, path),
        path.len() > 1,
    ensures
        is_path(v, s, path.drop_last()),
        path.drop_last().last() == path[path.len() - 2],
{
    let front = path.drop_last();
    assert forall|k: int| 0 < k < front.len() implies is_link(v, s, front, k) by {
        assert(is_link(v, s, path, k));
        assert(front[k] == path[k] && front[k - 1] == path[k - 1]);
    }
}

/// Whether a directory lost or got something: it was touched, or something that was removed has it
/// as its parent.
pub open spec fn is_changed(v: VfsView, s: StagingView, dir: u64) -> bool {
    ||| s.touched.contains(dir)
    ||| exists|id: u64| #[trigger]
        s.deleted.contains(id) && v.has(id) && v.node(id).parent == dir
}

proof fn lemma_touched_marked(v: VfsView, s: StagingView, path: Seq<u64>)
    requires
        v.wf(),
        is_path(v, s, path),
        v.node(path.last()).is_dir,
        is_changed(v, s, path.last()),
    ensures
        forall|k: int|
            0 <= k < path.len() ==> builder::dirty_dirs(all_staged(v, s).vfs, s).contains_key(
                #[trigger] path[k],
            ),
{
    let u = all_staged(v, s).vfs;
    let dir = path.last();
    let j = path.len() - 1;
    let n = u.nodes.len();
    lemma_path_staged(v, s, path);
    assert(path[j] == dir);
    let ids = s.staged_ids + s.deleted + s.touched;
    let first = Map::<u64, bool>::empty().insert(ROOT_INODE, true);
    assert forall|k: int| 0 <= k < path.len() implies builder::dirty_dirs(u, s).contains_key(
        #[trigger] path[k],
    ) by {
        if s.touched.contains(dir) {
            let i = choose|i: int| 0 <= i < s.touched.len() && s.touched[i] == dir;
            assert(ids[s.staged_ids.len() + s.deleted.len() + i] == dir);
            assert forall|d: Map<u64, bool>| #[trigger]
                marked_for(u, dir, d).contains_key(path[k]) by {
                lemma_dir_marked(u, s, path, j, n, d, k);
            }
            lemma_all_marked(u, ids, first, dir, path[k]);
        } else {
            let id = choose|id: u64| #[trigger]
                s.deleted.contains(id) && v.has(id) && v.node(id).parent == dir;
            let i = choose|i: int| 0 <= i < s.deleted.len() && s.deleted[i] == id;
            assert(ids[s.staged_ids.len() + i] == id);
            assert(u.nodes[id - 1] == (NodeView { oid: u.nodes[id - 1].oid, ..v.nodes[id - 1] }));
            assert(u.has(id) && u.node(id).parent == dir);
            assert forall|d: Map<u64, bool>| #[trigger]
                marked_for(u, id, d).contains_key(path[k]) by {
                if u.node(id).is_deleted {
                    lemma_dir_marked(u, s, path, j, n, d, k);
                } else {
                    lemma_child_marked(u, s, path, id, d, k);
                }
            }
            lemma_all_marked(u, ids, first, id, path[k]);
        }
    }
}

proof fn lemma_child_marked(
    v: VfsView,
    s: StagingView,
    path: Seq<u64>,
    id: u64,
    dirty: Map<u64, bool>,
    k: int,
)
    requires
        is_path(v, s, path),
        path.len() <= v.nodes.len(),
        v.is_live(id),
        v.node(id).parent == path.last(),
        s.deleted.contains(id),
        0 <= k < path.len(),
    ensures
        builder::marked_above(v, id, v.nodes.len(), dirty).contains_key(path[k]),
{
    let j = path.len() - 1;
    let node = v.node(id);
    let here = if node.is_dir {
        dirty.insert(id, true)
    } else {
        dirty
    };
    let up = here.insert(node.parent, true);
    let left = (v.nodes.len() - 1) as nat;
    if node.parent == ROOT_INODE {
        assert(path[j] == path[0]);
        assert(k == 0);
    } else if node.parent == id {
        assert(j > 0);
        assert(is_link(v, s, path, j));
    } else if k == j {
        lemma_marks_stay(v, node.parent, left, up, path[k]);
    } else {
        lemma_path_marked(v, s, path, j, left, up, k);
    }
}

/// Whether all directories of a path are built anew, up to the one that the last node lies in.
pub open spec fn is_built_anew(v: VfsView, s: StagingView, path: Seq<u64>) -> bool {
    forall|k: int|
        0 <= k < path.len() - 1 ==> builder::dirty_dirs(all_staged(v, s).vfs, s).contains_key(
            #[trigger] path[k],
        )
}

/// What was not edited stays in the commit as the object that it was, wherever the directories
/// above it are built anew: a file that was not written, or a directory whose tree is not built
/// anew. In a repository that took the commit, the names of the path lead from the root tree to
/// that object.
pub proof fn lemma_rest_committed(
    v: VfsView,
    s: StagingView,
    base_commit: Seq<char>,
    author: Seq<char>,
    message: Seq<char>,
    timestamp: u64,
    c: CommitView,
    path: Seq<u64>,
)
    requires
        v.wf(),
        builder::commit_built(v, s, base_commit, author, message, timestamp).1 == Ok::<
            _,
            BuildError,
        >(c),
        is_path(v, s, path),
        path.len() > 1,
        is_kept(v, s, path.last()),
        is_built_anew(v, s, path),
        are_told_apart(v, s, commit_trees(v, s), c.commit_oid),
    ensures
        leads_to(
            v.engine.recovered(c.commit_oid, c.root_tree_oid, c.objects).trees,
            c.root_tree_oid,
            names_from(v, path, 0),
            v.node(path.last()).oid,
        ),
{
    let id = path.last();
    let start = BuildView { vfs: v, objects: Map::empty(), oids: Seq::empty() };
    let u = all_staged(v, s).vfs;
    lemma_path_staged(v, s, path);
    lemma_staged(start, s, s.staged_ids, id);
    assert(is_link(v, s, path, path.len() - 1));
    let dirty = builder::dirty_dirs(u, s);
    if v.node(id).is_dir && s.staged_ids.contains(id) {
        // Whatever is staged is marked, so that this is no directory.
        let ids = s.staged_ids + s.deleted + s.touched;
        let i = choose|i: int| 0 <= i < s.staged_ids.len() && s.staged_ids[i] == id;
        assert(ids[i] == id);
        let j = path.len() - 1;
        assert(path[j] == id);
        assert forall|d: Map<u64, bool>| #[trigger] marked_for(u, id, d).contains_key(id) by {
            lemma_dir_marked(u, s, path, j, u.nodes.len(), d, j);
        }
        lemma_all_marked(u, ids, Map::empty().insert(ROOT_INODE, true), id, id);
    }
    assert(is_marked(u, s, dirty, path, v.node(id).oid));
    lemma_marked_committed(
        v,
        s,
        base_commit,
        author,
        message,
        timestamp,
        c,
        path,
        v.node(id).oid,
    );
}

/// What was moved is in the commit, under its new path and as the object that it was: a file that
/// was not written, or a directory whose tree is not built anew. In a repository that took the
/// commit, the names of the path lead from the root tree to that object. The same holds of what
/// stayed in a directory that something was moved into, or out of, or removed from.
pub proof fn lemma_move_committed(
    v: VfsView,
    s: StagingView,
    base_commit: Seq<char>,
    author: Seq<char>,
    message: Seq<char>,
    timestamp: u64,
    c: CommitView,
    path: Seq<u64>,
)
    requires
        v.wf(),
        builder::commit_built(v, s, base_commit, author, message, timestamp).1 == Ok::<
            _,
            BuildError,
        >(c),
        is_path(v, s, path),
        path.len() > 1,
        is_kept(v, s, path.last()),
        is_changed(v, s, path[path.len() - 2]),
        are_told_apart(v, s, commit_trees(v, s), c.commit_oid),
    ensures
        leads_to(
            v.engine.recovered(c.commit_oid, c.root_tree_oid, c.objects).trees,
            c.root_tree_oid,
            names_from(v, path, 0),
            v.node(path.last()).oid,
        ),
{
    assert(is_link(v, s, path, path.len() - 1));
    assert(v.dir_ok(path[path.len() - 2] - 1));
    lemma_path_start(v, s, path);
    lemma_touched_marked(v, s, path.drop_last());
    assert forall|k: int| 0 <= k < path.len() - 1 implies builder::dirty_dirs(
        all_staged(v, s).vfs,
        s,
    ).contains_key(#[trigger] path[k]) by {
        assert(path.drop_last()[k] == path[k]);
    }
    lemma_rest_committed(v, s, base_commit, author, message, timestamp, c, path);
}

// ---------------------------------------------------------------------------------------------
// What was removed

/// Whether a child of a directory goes into its tree.
spec fn goes_in(v: VfsView, s: StagingView, dir: u64, child: NodeView) -> bool {
    &&& v.listing(dir).contains(child.id)
    &&& v.is_live(child.id)
    &&& v.node(child.id) == child
    &&& !s.deleted.contains(child.id)
    &&& !filter::apple_metadata(child.name)
}

proof fn lemma_live_listed(v: VfsView, ids: Seq<u64>)
    requires
        forall|i: int| 0 <= i < ids.len() && v.has(#[trigger] ids[i]) ==> v.node(ids[i]).id
            == ids[i],
    ensures
        forall|i: int|
            0 <= i < v.live_nodes(ids).len() ==> {
                let child = #[trigger] v.live_nodes(ids)[i];
                ids.contains(child.id) && v.is_live(child.id) && v.node(child.id) == child
            },
    decreases ids.len(),
{
    if ids.len() > 0 {
        let front = ids.drop_last();
        assert forall|i: int| 0 <= i < front.len() && v.has(#[trigger] front[i]) implies v.node(
            front[i],
        ).id == front[i] by {
            assert(front[i] == ids[i]);
        }
        lemma_live_listed(v, front);
        let before = v.live_nodes(front);
        let all = v.live_nodes(ids);
        assert forall|i: int| 0 <= i < all.len() implies {
            let child = #[trigger] all[i];
            ids.contains(child.id) && v.is_live(child.id) && v.node(child.id) == child
        } by {
            if i < before.len() {
                assert(all[i] == before[i]);
                let j = choose|j: int| 0 <= j < front.len() && front[j] == before[i].id;
                assert(ids[j] == before[i].id);
            } else {
                assert(ids[ids.len() - 1] == ids.last());
            }
        }
    }
}

proof fn lemma_committed_from(nodes: Seq<NodeView>, deleted: Seq<u64>)
    ensures
        forall|i: int|
            0 <= i < builder::committed(nodes, deleted).len() ==> {
                let child = #[trigger] builder::committed(nodes, deleted)[i];
                nodes.contains(child) && !deleted.contains(child.id) && !filter::apple_metadata(
                    child.name,
                )
            },
    decreases nodes.len(),
{
    if nodes.len() > 0 {
        let front = nodes.drop_last();
        lemma_committed_from(front, deleted);
        let before = builder::committed(front, deleted);
        let all = builder::committed(nodes, deleted);
        assert forall|i: int| 0 <= i < all.len() implies {
            let child = #[trigger] all[i];
            nodes.contains(child) && !deleted.contains(child.id) && !filter::apple_metadata(
                child.name,
            )
        } by {
            if i < before.len() {
                assert(all[i] == before[i]);
                let j = choose|j: int| 0 <= j < front.len() && front[j] == before[i];
                assert(nodes[j] == before[i]);
            } else {
                assert(nodes[nodes.len() - 1] == nodes.last());
            }
        }
    }
}

proof fn lemma_children_go_in(v: VfsView, s: StagingView, dir: u64)
    requires
        forall|i: int|
            0 <= i < v.listing(dir).len() && v.has(#[trigger] v.listing(dir)[i]) ==> v.node(
                v.listing(dir)[i],
            ).id == v.listing(dir)[i],
    ensures
        ({
            let children = builder::in_tree_order(builder::committed(v.listed(dir), s.deleted));
            forall|i: int| 0 <= i < children.len() ==> goes_in(v, s, dir, #[trigger] children[i])
        }),
{
    let listed = v.listed(dir);
    let kept = builder::committed(listed, s.deleted);
    let children = builder::in_tree_order(kept);
    lemma_live_listed(v, v.listing(dir));
    lemma_committed_from(listed, s.deleted);
    let keys = builder::node_keys(kept);
    let order = sorting::lex_sorting(keys);
    sorting::lemma_lex_sorted(keys);
    assert forall|i: int| 0 <= i < children.len() implies goes_in(
        v,
        s,
        dir,
        #[trigger] children[i],
    ) by {
        assert(0 <= order[i] < kept.len());
        assert(children[i] == kept[order[i]]);
        let j = choose|j: int| 0 <= j < listed.len() && listed[j] == children[i];
        assert(listed[j] == children[i]);
    }
}

/// Whether in a directory of a path one child alone that goes into a commit has the name of the
/// next node of the path.
pub open spec fn is_only(v: VfsView, s: StagingView, dir: u64, id: u64) -> bool {
    forall|other: u64| #[trigger]
        v.listing(dir).contains(other) && v.is_live(other) && !s.deleted.contains(other)
            && !filter::apple_metadata(v.node(other).name) && v.node(other).name == v.node(id).name
            ==> other == id
}

/// Whether no child of a directory that goes into a commit has a name.
pub open spec fn has_none(v: VfsView, s: StagingView, dir: u64, name: Seq<char>) -> bool {
    forall|other: u64| #[trigger]
        v.listing(dir).contains(other) && v.is_live(other) && !s.deleted.contains(other)
            && !filter::apple_metadata(v.node(other).name) ==> v.node(other).name != name
}

/// Whether the directories of a path are dirty, and the last has no child of a name.
spec fn is_clear(
    v: VfsView,
    s: StagingView,
    dirty: Map<u64, bool>,
    path: Seq<u64>,
    name: Seq<char>,
) -> bool {
    &&& is_path(v, s, path)
    &&& v.nodes.len() == v.dirs.len()
    &&& v.is_open(path.last())
    &&& has_none(v, s, path.last(), name)
    &&& forall|k: int| 0 < k < path.len() ==> is_only(v, s, path[k - 1], #[trigger] path[k])
    &&& forall|k: int|
        0 <= k < path.len() ==> dirty.contains_key(#[trigger] path[k]) && v.node(path[k]).is_dir
            && v.node(path[k]).id == path[k]
    &&& forall|k: int, i: int|
        0 <= k < path.len() && 0 <= i < v.listing(path[k]).len() ==> v.has(
            #[trigger] v.listing(path[k])[i],
        ) && v.node(v.listing(path[k])[i]).id == v.listing(path[k])[i]
}

/// Whether names lead from a tree to nothing.
spec fn leads_nowhere(
    known: Map<Seq<char>, Seq<TreeItem>>,
    oid: Seq<char>,
    names: Seq<Seq<char>>,
) -> bool {
    forall|target: Seq<char>| !(#[trigger] leads_to(known, oid, names, target))
}

/// Whether an entry of a tree leads nowhere under the rest of a path.
spec fn is_apart(
    known: Map<Seq<char>, Seq<TreeItem>>,
    names: Seq<Seq<char>>,
    item: TreeItem,
) -> bool {
    item.name == names[0] ==> leads_nowhere(known, item.oid, names.drop_first())
}

spec fn are_known(
    known: Map<Seq<char>, Seq<TreeItem>>,
    trees: Set<Seq<TreeItem>>,
) -> bool {
    forall|items: Seq<TreeItem>| #[trigger]
        trees.contains(items) ==> known.contains_key(builder::tree_oid(items))
            && known[builder::tree_oid(items)] == items
}

proof fn lemma_both_known(
    known: Map<Seq<char>, Seq<TreeItem>>,
    a: Set<Seq<TreeItem>>,
    b: Set<Seq<TreeItem>>,
)
    requires
        are_known(known, a.union(b)),
    ensures
        are_known(known, a),
        are_known(known, b),
{
    assert forall|x: Seq<TreeItem>| #[trigger] a.contains(x) implies known.contains_key(
        builder::tree_oid(x),
    ) && known[builder::tree_oid(x)] == x by {
        assert(a.union(b).contains(x));
    }
    assert forall|x: Seq<TreeItem>| #[trigger] b.contains(x) implies known.contains_key(
        builder::tree_oid(x),
    ) && known[builder::tree_oid(x)] == x by {
        assert(a.union(b).contains(x));
    }
}

proof fn lemma_child_apart(
    st: BuildView,
    staging: StagingView,
    dirty: Map<u64, bool>,
    child: NodeView,
    left: nat,
    oid: Seq<char>,
    v: VfsView,
    path: Seq<u64>,
    k: int,
    name: Seq<char>,
    known: Map<Seq<char>, Seq<TreeItem>>,
)
    requires
        keeps(v, st.vfs),
        is_clear(v, staging, dirty, path, name),
        0 <= k < path.len(),
        goes_in(v, staging, path[k], child),
        child.is_dir && dirty.contains_key(child.id) ==> left > 0 && builder::dir_built(
            st,
            staging,
            dirty,
            child.id,
            (left - 1) as nat,
        ).1 == Ok::<_, BuildError>(oid) && are_known(
            known,
            dir_trees(st, staging, dirty, child.id, (left - 1) as nat),
        ),
    ensures
        is_apart(
            known,
            names_from(v, path, k).push(name),
            TreeItem { mode: child.mode, name: child.name, oid },
        ),
    decreases left, 0nat, 0int,
{
    let names = names_from(v, path, k).push(name);
    if child.name == names[0] {
        assert(v.listing(path[k]).contains(child.id));
        if k == path.len() - 1 {
            assert(names[0] == name);
            assert(path[k] == path.last());
            assert(false);
        } else {
            assert(names[0] == v.node(path[k + 1]).name);
            assert(is_only(v, staging, path[k + 1 - 1], path[k + 1]));
            assert(child.id == path[k + 1]);
            assert(dirty.contains_key(path[k + 1]) && v.node(path[k + 1]).is_dir);
            let less = (left - 1) as nat;
            assert(child.is_dir && dirty.contains_key(child.id));
            assert(builder::dir_built(st, staging, dirty, path[k + 1], less).1 == Ok::<
                _,
                BuildError,
            >(oid));
            lemma_dir_lacks(st, staging, dirty, path[k + 1], less, v, path, k + 1, name, known);
            assert(names.drop_first() =~= names_from(v, path, k + 1).push(name));
        }
    }
}

proof fn lemma_children_lack(
    st: BuildView,
    staging: StagingView,
    dirty: Map<u64, bool>,
    children: Seq<NodeView>,
    i: int,
    items: Seq<TreeItem>,
    left: nat,
    v: VfsView,
    path: Seq<u64>,
    k: int,
    name: Seq<char>,
    known: Map<Seq<char>, Seq<TreeItem>>,
)
    requires
        keeps(v, st.vfs),
        is_clear(v, staging, dirty, path, name),
        0 <= k < path.len(),
        0 <= i <= children.len(),
        forall|j: int|
            0 <= j < children.len() ==> goes_in(v, staging, path[k], #[trigger] children[j]),
        forall|j: int|
            0 <= j < items.len() ==> is_apart(
                known,
                names_from(v, path, k).push(name),
                #[trigger] items[j],
            ),
        are_known(known, children_trees(st, staging, dirty, children, i, items, left)),
    ensures
        builder::children_built(st, staging, dirty, children, i, items, left).1 matches Ok(all)
            ==> forall|j: int|
            0 <= j < all.len() ==> is_apart(
                known,
                names_from(v, path, k).push(name),
                #[trigger] all[j],
            ),
    decreases left, 0nat, children.len() - i,
{
    if i < children.len() && builder::children_built(
        st,
        staging,
        dirty,
        children,
        i,
        items,
        left,
    ).1 is Ok {
        let child = children[i];
        let below = child.is_dir && dirty.contains_key(child.id);
        let all_trees = children_trees(st, staging, dirty, children, i, items, left);
        let here = if below {
            dir_trees(st, staging, dirty, child.id, (left - 1) as nat)
        } else {
            Set::empty()
        };
        let (next, r) = if below {
            builder::dir_built(st, staging, dirty, child.id, (left - 1) as nat)
        } else {
            (st, Ok(child.oid))
        };
        let oid = r->Ok_0;
        let item = TreeItem { mode: child.mode, name: child.name, oid };
        let more = if oid.len() == 0 {
            items
        } else {
            items.push(item)
        };
        let rest = children_trees(next, staging, dirty, children, i + 1, more, left);
        assert(all_trees == here.union(rest));
        lemma_both_known(known, here, rest);
        let names = names_from(v, path, k).push(name);
        assert(goes_in(v, staging, path[k], child));
        lemma_child_apart(st, staging, dirty, child, left, oid, v, path, k, name, known);
        assert forall|j: int| 0 <= j < more.len() implies is_apart(
            known,
            names,
            #[trigger] more[j],
        ) by {
            if j < items.len() {
                assert(more[j] == items[j]);
            }
        }
        if below {
            lemma_dir_keeps(st, staging, dirty, child.id, (left - 1) as nat);
            lemma_keeps(v, st.vfs, next.vfs);
        }
        lemma_children_lack(
            next,
            staging,
            dirty,
            children,
            i + 1,
            more,
            left,
            v,
            path,
            k,
            name,
            known,
        );
    }
}

proof fn lemma_dir_lacks(
    st: BuildView,
    staging: StagingView,
    dirty: Map<u64, bool>,
    dir: u64,
    left: nat,
    v: VfsView,
    path: Seq<u64>,
    k: int,
    name: Seq<char>,
    known: Map<Seq<char>, Seq<TreeItem>>,
)
    requires
        keeps(v, st.vfs),
        is_clear(v, staging, dirty, path, name),
        0 <= k < path.len(),
        path[k] == dir,
        are_known(known, dir_trees(st, staging, dirty, dir, left)),
    ensures
        builder::dir_built(st, staging, dirty, dir, left).1 matches Ok(oid) ==> leads_nowhere(
            known,
            oid,
            names_from(v, path, k).push(name),
        ),
    decreases left, 1nat, 0int,
{
    if builder::dir_built(st, staging, dirty, dir, left).1 is Ok {
        let w = st.vfs;
        if k < path.len() - 1 {
            assert(is_link(v, staging, path, k + 1));
        }
        assert(v.is_open(dir));
        assert(w.dirs[dir - 1] == v.dirs[dir - 1]);
        assert(w.opened(dir) == Ok::<_, crate::vfs::inode::VfsError>(w));
        assert(w.listing(dir) == v.listing(dir));
        assert forall|i: int|
            0 <= i < w.listing(dir).len() && w.has(#[trigger] w.listing(dir)[i]) implies w.node(
            w.listing(dir)[i],
        ).id == w.listing(dir)[i] by {
            let id = v.listing(path[k])[i];
            assert(v.has(id));
            assert(w.nodes[id - 1] == v.nodes[id - 1]);
        }
        lemma_children_go_in(w, staging, dir);
        let children = builder::in_tree_order(
            builder::committed(w.listed(dir), staging.deleted),
        );
        assert forall|j: int| 0 <= j < children.len() implies goes_in(
            v,
            staging,
            path[k],
            #[trigger] children[j],
        ) by {
            let child = children[j];
            assert(goes_in(w, staging, dir, child));
            let i = choose|i: int| 0 <= i < v.listing(dir).len() && v.listing(dir)[i] == child.id;
            assert(v.has(v.listing(path[k])[i]));
            assert(w.nodes[child.id - 1] == v.nodes[child.id - 1]);
        }
        let trees = dir_trees(st, staging, dirty, dir, left);
        let below = children_trees(
            st.with_vfs(w),
            staging,
            dirty,
            children,
            0,
            Seq::empty(),
            left,
        );
        let all = builder::children_built(
            st.with_vfs(w),
            staging,
            dirty,
            children,
            0,
            Seq::empty(),
            left,
        ).1->Ok_0;
        assert(trees == below.insert(all));
        assert(are_known(known, below)) by {
            assert forall|x: Seq<TreeItem>| #[trigger]
                below.contains(x) implies known.contains_key(builder::tree_oid(x))
                && known[builder::tree_oid(x)] == x by {
                assert(trees.contains(x));
            }
        }
        lemma_children_lack(
            st.with_vfs(w),
            staging,
            dirty,
            children,
            0,
            Seq::empty(),
            left,
            v,
            path,
            k,
            name,
            known,
        );
        let oid = builder::tree_oid(all);
        assert(trees.contains(all));
        assert(known[oid] == all);
        let names = names_from(v, path, k).push(name);
        assert forall|target: Seq<char>| !(#[trigger] leads_to(known, oid, names, target)) by {
            if leads_to(known, oid, names, target) {
                let i = choose|i: int| #[trigger]
                    is_known_entry(known, i, oid, names[0]) && leads_to(
                        known,
                        known[oid][i].oid,
                        names.drop_first(),
                        target,
                    );
                assert(is_apart(known, names, all[i]));
            }
        }
    }
}

/// What was removed, or moved away, is not in the commit: where a directory lost something and
/// has no child of a name any more, in a repository that took the commit the names down to the
/// directory and that name lead from the root tree to nothing. (In each directory on the way, one
/// child alone has the next name.)
pub proof fn lemma_removal_committed(
    v: VfsView,
    s: StagingView,
    base_commit: Seq<char>,
    author: Seq<char>,
    message: Seq<char>,
    timestamp: u64,
    c: CommitView,
    path: Seq<u64>,
    name: Seq<char>,
)
    requires
        v.wf(),
        builder::commit_built(v, s, base_commit, author, message, timestamp).1 == Ok::<
            _,
            BuildError,
        >(c),
        is_path(v, s, path),
        v.is_open(path.last()),
        is_changed(v, s, path.last()),
        has_none(v, s, path.last(), name),
        forall|k: int| 0 < k < path.len() ==> is_only(v, s, path[k - 1], #[trigger] path[k]),
        are_told_apart(v, s, commit_trees(v, s), c.commit_oid),
    ensures
        forall|target: Seq<char>|
            !(#[trigger] leads_to(
                v.engine.recovered(c.commit_oid, c.root_tree_oid, c.objects).trees,
                c.root_tree_oid,
                names_from(v, path, 0).push(name),
                target,
            )),
{
    let staged = all_staged(v, s);
    let u = staged.vfs;
    let dirty = builder::dirty_dirs(u, s);
    assert(v.has(path.last())) by {
        if path.len() > 1 {
            assert(is_link(v, s, path, path.len() - 1));
        }
    }
    assert(v.dir_ok(path.last() - 1));
    lemma_path_staged(v, s, path);
    lemma_touched_marked(v, s, path);
    assert forall|id: u64| v.has(id) implies #[trigger] u.node(id) == (NodeView {
        oid: u.node(id).oid,
        ..v.node(id)
    }) by {
        assert(u.nodes[id - 1] == (NodeView { oid: u.nodes[id - 1].oid, ..v.nodes[id - 1] }));
    }
    assert forall|id: u64| #[trigger] u.is_live(id) implies v.is_live(id) && u.node(id).name
        == v.node(id).name by {
        assert(u.node(id).is_deleted == v.node(id).is_deleted);
    }
    assert(u.dirs == v.dirs);
    assert forall|dir: u64| #[trigger] u.listing(dir) == v.listing(dir) by {}
    assert(is_clear(u, s, dirty, path, name)) by {
        assert(has_none(u, s, path.last(), name)) by {
            assert forall|other: u64| #[trigger]
                u.listing(path.last()).contains(other) && u.is_live(other) && !s.deleted.contains(
                    other,
                ) && !filter::apple_metadata(u.node(other).name) implies u.node(other).name
                != name by {
                assert(v.listing(path.last()).contains(other) && v.is_live(other));
            }
        }
        assert forall|k: int| 0 < k < path.len() implies is_only(
            u,
            s,
            path[k - 1],
            #[trigger] path[k],
        ) by {
            assert(is_only(v, s, path[k - 1], path[k]));
            assert(u.has(path[k]) && v.has(path[k]));
            assert(u.node(path[k]).name == v.node(path[k]).name);
            assert forall|other: u64| #[trigger]
                u.listing(path[k - 1]).contains(other) && u.is_live(other) && !s.deleted.contains(
                    other,
                ) && !filter::apple_metadata(u.node(other).name) && u.node(other).name == u.node(
                    path[k],
                ).name implies other == path[k] by {
                assert(v.listing(path[k - 1]).contains(other) && v.is_live(other));
            }
        }
        assert forall|k: int, i: int|
            0 <= k < path.len() && 0 <= i < u.listing(path[k]).len() implies u.has(
            #[trigger] u.listing(path[k])[i],
        ) && u.node(u.listing(path[k])[i]).id == u.listing(path[k])[i] by {
            assert(u.has(path[k]));
            assert(u.listing(path[k]) == v.listing(path[k]));
            assert(v.listed_ok(path[k] - 1, i));
            let id = v.listing(path[k])[i];
            assert(v.has(id));
            assert(v.node_ok(id - 1));
            assert(u.node(id).id == v.node(id).id);
        }
    }
    let after = v.engine.recovered(c.commit_oid, c.root_tree_oid, c.objects);
    lemma_trees_known(v, s, base_commit, author, message, timestamp, c);
    lemma_dir_lacks(
        staged,
        s,
        dirty,
        ROOT_INODE,
        u.nodes.len(),
        u,
        path,
        0,
        name,
        after.trees,
    );
}

/// The objects of a commit are those that were built, and the commit itself.
proof fn lemma_objects_of(
    v: VfsView,
    s: StagingView,
    base_commit: Seq<char>,
    author: Seq<char>,
    message: Seq<char>,
    timestamp: u64,
    c: CommitView,
    next: BuildView,
)
    requires
        builder::commit_built(v, s, base_commit, author, message, timestamp).1 == Ok::<
            _,
            BuildError,
        >(c),
        next == builder::dir_built(
            all_staged(v, s),
            s,
            builder::dirty_dirs(all_staged(v, s).vfs, s),
            ROOT_INODE,
            all_staged(v, s).vfs.nodes.len(),
        ).0,
    ensures
        forall|oid: Seq<char>| #[trigger]
            next.objects.contains_key(oid) && oid != c.commit_oid ==> c.objects.contains(
                next.objects[oid],
            ) && next.objects[oid].oid == oid,
        forall|j: int|
            0 <= j < c.objects.len() && (#[trigger] c.objects[j]).oid != c.commit_oid
                ==> next.objects.contains_key(c.objects[j].oid) && c.objects[j]
                == next.objects[c.objects[j].oid],
{
    let data = vstd::utf8::encode_utf8(
        builder::commit_text(c.root_tree_oid, base_commit, author, message, timestamp),
    );
    let object = ToPack { oid: c.commit_oid, obj_type: ObjectType::Commit, data };
    let all = next.with(object);
    builder_laws::lemma_built_list(v, s, base_commit, author, message, timestamp);
    assert(c.objects == all.list());
    assert forall|oid: Seq<char>| #[trigger] next.objects.contains_key(oid) && oid
        != c.commit_oid implies c.objects.contains(next.objects[oid]) && next.objects[oid].oid
        == oid by {
        assert(all.objects.contains_key(oid));
        let j = choose|j: int| 0 <= j < all.oids.len() && all.oids[j] == oid;
        assert(all.list()[j] == all.objects[oid]);
    }
    assert forall|j: int| 0 <= j < c.objects.len() && (#[trigger] c.objects[j]).oid
        != c.commit_oid implies next.objects.contains_key(c.objects[j].oid) && c.objects[j]
        == next.objects[c.objects[j].oid] by {
        let oid = all.oids[j];
        assert(all.objects.contains_key(oid));
        assert(all.list()[j] == all.objects[oid]);
    }
}

} // verus!
