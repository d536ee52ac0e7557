//! The nodes of the directory tree: those of the repository, made when they are first looked
//! at, and those that were added, moved or removed since.

use vstd::hash_map::StringHashMap;
use vstd::prelude::*;

use crate::git::engine::{EngineView, GitEngine};
use crate::git::tree::{GitTree, TreeEntryMode, TreeItem};
use crate::text;

verus! {

pub const ROOT_INODE: u64 = 1;

/// Why an operation on the tree failed.
#[derive(Debug, Clone, Copy, PartialEq, Eq, Structural)]
pub enum VfsError {
    /// There is no node of that number.
    NodeNotFound(u64),
    /// The node is not a directory.
    NotADirectory(u64),
    /// The directory has no child of that name.
    ChildNotFound,
    /// The path names nothing below the root.
    EmptyPath,
    /// The node's parents go round in a circle and never come to the root.
    Detached(u64),
}

/// A node.
#[verifier::ext_equal]
pub struct NodeView {
    pub id: u64,
    pub parent: u64,
    pub name: Seq<char>,
    pub oid: Seq<char>,
    pub mode: TreeEntryMode,
    pub is_dir: bool,
    pub size: u64,
    pub is_deleted: bool,
}

#[derive(Debug)]
pub struct VfsNode {
    pub id: u64,
    pub parent_id: u64,
    pub name: String,
    pub oid: String,
    pub mode: TreeEntryMode,
    pub is_dir: bool,
    pub size: u64,
    pub is_deleted: bool,
}

impl View for VfsNode {
    type V = NodeView;

    open spec fn view(&self) -> NodeView {
        NodeView {
            id: self.id,
            parent: self.parent_id,
            name: self.name@,
            oid: self.oid@,
            mode: self.mode,
            is_dir: self.is_dir,
            size: self.size,
            is_deleted: self.is_deleted,
        }
    }
}

impl Clone for VfsNode {
    fn clone(&self) -> (copy: Self)
        ensures
            copy@ == self@,
    {
        VfsNode {
            id: self.id,
            parent_id: self.parent_id,
            name: self.name.clone(),
            oid: self.oid.clone(),
            mode: self.mode,
            is_dir: self.is_dir,
            size: self.size,
            is_deleted: self.is_deleted,
        }
    }
}

/// The children of a node: by name, and in the order in which they are listed once the
/// directory was looked at.
#[verifier::ext_equal]
pub struct DirView {
    pub names: Map<Seq<char>, u64>,
    pub listing: Option<Seq<u64>>,
}

/// The whole tree.
#[verifier::ext_equal]
pub struct VfsView {
    pub engine: EngineView,
    pub nodes: Seq<NodeView>,
    pub dirs: Seq<DirView>,
}

impl VfsView {
    /// The tree of a repository that was not looked at yet: the root.
    pub open spec fn fresh(engine: EngineView, root_oid: Seq<char>) -> VfsView {
        VfsView {
            engine,
            nodes: seq![
                NodeView {
                    id: ROOT_INODE,
                    parent: ROOT_INODE,
                    name: "/"@,
                    oid: root_oid,
                    mode: TreeEntryMode::Directory,
                    is_dir: true,
                    size: 4096,
                    is_deleted: false,
                },
            ],
            dirs: seq![DirView { names: Map::empty(), listing: None }],
        }
    }

    /// Whether there is a node of that number.
    pub open spec fn has(self, id: u64) -> bool {
        1 <= id <= self.nodes.len()
    }

    /// The node of that number.
    pub open spec fn node(self, id: u64) -> NodeView {
        self.nodes[id - 1]
    }

    /// The children of the node of that number.
    pub open spec fn dir(self, id: u64) -> DirView {
        self.dirs[id - 1]
    }

    /// Whether there is a node of that number that was not removed.
    pub open spec fn is_live(self, id: u64) -> bool {
        self.has(id) && !self.node(id).is_deleted
    }

    /// Whether a directory was looked at.
    pub open spec fn is_open(self, id: u64) -> bool {
        self.has(id) && self.dir(id).listing is Some
    }

    /// The child of that name.
    pub open spec fn child(self, dir: u64, name: Seq<char>) -> Option<u64> {
        if self.has(dir) && self.dir(dir).names.contains_key(name) {
            Some(self.dir(dir).names[name])
        } else {
            None
        }
    }

    /// The numbers of the children.
    pub open spec fn listing(self, dir: u64) -> Seq<u64> {
        match self.dir(dir).listing {
            Some(ids) => ids,
            None => Seq::empty(),
        }
    }

    /// With a node changed.
    pub open spec fn with_node(self, id: u64, node: NodeView) -> VfsView {
        VfsView { nodes: self.nodes.update(id - 1, node), ..self }
    }

    /// With the children of a node changed.
    pub open spec fn with_dir(self, id: u64, dir: DirView) -> VfsView {
        VfsView { dirs: self.dirs.update(id - 1, dir), ..self }
    }

    /// The number of the next node.
    pub open spec fn next_id(self) -> u64 {
        (self.nodes.len() + 1) as u64
    }

    /// With a new node as a child of a directory.
    pub open spec fn with_child(
        self,
        dir: u64,
        name: Seq<char>,
        oid: Seq<char>,
        mode: TreeEntryMode,
        is_dir: bool,
        size: u64,
    ) -> VfsView {
        let id = self.next_id();
        let node = NodeView { id, parent: dir, name, oid, mode, is_dir, size, is_deleted: false };
        VfsView {
            nodes: self.nodes.push(node),
            dirs: self.dirs.update(
                dir - 1,
                DirView {
                    names: self.dir(dir).names.insert(name, id),
                    listing: Some(self.listing(dir).push(id)),
                },
            ).push(DirView { names: Map::empty(), listing: None }),
            ..self
        }
    }

    /// With the nodes for the entries of a tree, as children of a directory. The size of a file
    /// is what the repository shows for it.
    pub open spec fn with_entries(self, dir: u64, items: Seq<TreeItem>) -> VfsView
        decreases items.len(),
    {
        if items.len() == 0 {
            self
        } else {
            let before = self.with_entries(dir, items.drop_last());
            let item = items.last();
            if item.mode == TreeEntryMode::Directory {
                before.with_child(dir, item.name, item.oid, item.mode, true, 4096)
            } else {
                let size = before.engine.shown_size(item.oid);
                (VfsView { engine: before.engine.asked(item.oid), ..before }).with_child(
                    dir,
                    item.name,
                    item.oid,
                    item.mode,
                    false,
                    size,
                )
            }
        }
    }

    /// With a directory that was looked at: its children are those of its tree, where the
    /// repository has one.
    pub open spec fn opened(self, dir: u64) -> Result<VfsView, VfsError> {
        if self.is_open(dir) {
            Ok(self)
        } else if !self.has(dir) {
            Err(VfsError::NodeNotFound(dir))
        } else if !self.node(dir).is_dir {
            Err(VfsError::NotADirectory(dir))
        } else {
            let empty = self.with_dir(
                dir,
                DirView { listing: Some(Seq::empty()), ..self.dir(dir) },
            );
            let oid = self.node(dir).oid;
            Ok(
                if self.engine.trees.contains_key(oid) {
                    empty.with_entries(dir, self.engine.trees[oid])
                } else {
                    empty
                },
            )
        }
    }

    /// The child of that name, where it was not removed.
    pub open spec fn live_child(self, dir: u64, name: Seq<char>) -> Option<u64> {
        match self.child(dir, name) {
            Some(id) => if self.is_live(id) {
                Some(id)
            } else {
                None
            },
            None => None,
        }
    }

    /// Looking a name up in a directory. The directory is looked at where that is needed.
    pub open spec fn looked_up(self, dir: u64, name: Seq<char>) -> (
        VfsView,
        Result<u64, VfsError>,
    ) {
        if name == "."@ {
            (self, Ok(dir))
        } else if name == ".."@ {
            (
                self,
                if self.has(dir) {
                    Ok(self.node(dir).parent)
                } else {
                    Err(VfsError::NodeNotFound(dir))
                },
            )
        } else {
            match self.live_child(dir, name) {
                Some(id) => (self, Ok(id)),
                None => match self.opened(dir) {
                    Err(e) => (self, Err(e)),
                    Ok(next) => (
                        next,
                        match next.live_child(dir, name) {
                            Some(id) => Ok(id),
                            None => Err(VfsError::ChildNotFound),
                        },
                    ),
                },
            }
        }
    }

    /// The nodes of these numbers that were not removed.
    pub open spec fn live_nodes(self, ids: Seq<u64>) -> Seq<NodeView>
        decreases ids.len(),
    {
        if ids.len() == 0 {
            Seq::empty()
        } else if self.is_live(ids.last()) {
            self.live_nodes(ids.drop_last()).push(self.node(ids.last()))
        } else {
            self.live_nodes(ids.drop_last())
        }
    }

    /// The nodes that are listed in a directory.
    pub open spec fn listed(self, dir: u64) -> Seq<NodeView> {
        self.live_nodes(self.listing(dir))
    }

    /// Creating a file. One that is there already is emptied.
    pub open spec fn created(self, dir: u64, name: Seq<char>, mode: TreeEntryMode) -> (
        VfsView,
        Result<u64, VfsError>,
    ) {
        match self.opened(dir) {
            Err(e) => (self, Err(e)),
            Ok(next) => match next.child(dir, name) {
                Some(id) => (
                    next.with_node(id, NodeView { is_deleted: false, size: 0, ..next.node(id) }),
                    Ok(id),
                ),
                None => (
                    next.with_child(dir, name, Seq::empty(), mode, false, 0),
                    Ok(next.next_id()),
                ),
            },
        }
    }

    /// Creating a directory, an empty one.
    pub open spec fn made_dir(self, dir: u64, name: Seq<char>) -> (
        VfsView,
        Result<u64, VfsError>,
    ) {
        match self.opened(dir) {
            Err(e) => (self, Err(e)),
            Ok(next) => {
                let id = next.next_id();
                let made = next.with_child(
                    dir,
                    name,
                    Seq::empty(),
                    TreeEntryMode::Directory,
                    true,
                    4096,
                );
                (
                    made.with_dir(id, DirView { listing: Some(Seq::empty()), ..made.dir(id) }),
                    Ok(id),
                )
            },
        }
    }

    /// Without a child in the list of a directory.
    pub open spec fn unlisted(self, dir: u64, id: u64) -> VfsView {
        self.with_dir(
            dir,
            DirView {
                listing: match self.dir(dir).listing {
                    Some(ids) => Some(without(ids, id)),
                    None => None,
                },
                ..self.dir(dir)
            },
        )
    }

    /// Without a name in a directory.
    pub open spec fn unnamed(self, dir: u64, name: Seq<char>) -> VfsView {
        self.with_dir(dir, DirView { names: self.dir(dir).names.remove(name), ..self.dir(dir) })
    }

    /// Removing a child.
    pub open spec fn removed(self, dir: u64, name: Seq<char>) -> (VfsView, Result<u64, VfsError>) {
        match self.opened(dir) {
            Err(e) => (self, Err(e)),
            Ok(next) => match next.child(dir, name) {
                None => (next, Err(VfsError::ChildNotFound)),
                Some(id) => (
                    next.with_node(id, NodeView { is_deleted: true, ..next.node(id) }).unlisted(
                        dir,
                        id,
                    ).unnamed(dir, name),
                    Ok(id),
                ),
            },
        }
    }

    /// Moving a child that is there: what was in its new place is removed.
    pub open spec fn moved(
        self,
        id: u64,
        from_dir: u64,
        from_name: Seq<char>,
        to_dir: u64,
        to_name: Seq<char>,
    ) -> VfsView {
        let free = self.removed(to_dir, to_name).0;
        let placed = free.with_node(
            id,
            NodeView { parent: to_dir, name: to_name, ..free.node(id) },
        ).unnamed(from_dir, from_name).unlisted(from_dir, id);
        placed.with_dir(
            to_dir,
            DirView {
                names: placed.dir(to_dir).names.insert(to_name, id),
                listing: Some(placed.listing(to_dir).push(id)),
            },
        )
    }

    /// Renaming a child. One that is renamed to what it is called already stays where it is.
    pub open spec fn renamed(
        self,
        from_dir: u64,
        from_name: Seq<char>,
        to_dir: u64,
        to_name: Seq<char>,
    ) -> (VfsView, Result<(), VfsError>) {
        match self.opened(from_dir) {
            Err(e) => (self, Err(e)),
            Ok(first) => match first.opened(to_dir) {
                Err(e) => (first, Err(e)),
                Ok(next) => match next.child(from_dir, from_name) {
                    None => (next, Err(VfsError::ChildNotFound)),
                    Some(id) => if from_dir == to_dir && from_name == to_name {
                        (next, Ok(()))
                    } else {
                        (next.moved(id, from_dir, from_name, to_dir, to_name), Ok(()))
                    },
                },
            },
        }
    }

    /// With the real size of a file.
    pub open spec fn resized(self, id: u64, size: u64) -> VfsView {
        if self.has(id) {
            self.with_node(id, NodeView { size, ..self.node(id) })
        } else {
            self
        }
    }

    /// With the name of the object that a node stands for.
    pub open spec fn with_oid(self, id: u64, oid: Seq<char>) -> VfsView {
        if self.has(id) {
            self.with_node(id, NodeView { oid, ..self.node(id) })
        } else {
            self
        }
    }

    /// The names from below the root down to a node, in at most `left` steps.
    pub open spec fn path_parts(self, id: u64, left: nat) -> Result<Seq<Seq<char>>, VfsError>
        decreases left,
    {
        if id == ROOT_INODE {
            Ok(Seq::empty())
        } else if !self.has(id) {
            Err(VfsError::NodeNotFound(id))
        } else if left == 0 {
            Err(VfsError::Detached(id))
        } else {
            let node = self.node(id);
            if node.parent == id {
                Ok(seq![node.name])
            } else {
                match self.path_parts(node.parent, (left - 1) as nat) {
                    Ok(parts) => Ok(parts.push(node.name)),
                    Err(e) => Err(e),
                }
            }
        }
    }

    /// The path of a node, relative to the repository: nothing for the root. A node more than
    /// there are nodes away from the root never comes to it.
    pub open spec fn path_of(self, id: u64) -> Result<Seq<char>, VfsError> {
        match self.path_parts(id, self.nodes.len()) {
            Ok(parts) => Ok(text::joined(parts, "/"@)),
            Err(e) => Err(e),
        }
    }

    /// The path of a name in a directory; a directory without a path counts as the root.
    pub open spec fn path_in(self, dir: u64, name: Seq<char>) -> Seq<char> {
        match self.path_of(dir) {
            Ok(parent) => if parent.len() == 0 {
                name
            } else {
                parent + "/"@ + name
            },
            Err(_) => name,
        }
    }

    /// Looking names up, one below the other.
    pub open spec fn walked(self, dir: u64, parts: Seq<Seq<char>>) -> (
        VfsView,
        Result<u64, VfsError>,
    )
        decreases parts.len(),
    {
        if parts.len() == 0 {
            (self, Ok(dir))
        } else if parts[0].len() == 0 || parts[0] == "."@ {
            self.walked(dir, parts.drop_first())
        } else {
            match self.looked_up(dir, parts[0]) {
                (next, Ok(id)) => next.walked(id, parts.drop_first()),
                (next, Err(e)) => (next, Err(e)),
            }
        }
    }

    /// Looking a path up.
    pub open spec fn path_looked_up(self, path: Seq<char>) -> (VfsView, Result<u64, VfsError>) {
        let clean = text::unslashed(path);
        if clean.len() == 0 {
            (self, Ok(ROOT_INODE))
        } else {
            self.walked(ROOT_INODE, text::split(clean, '/'))
        }
    }

    /// Looking directories up, one below the other; one that is not there is created.
    pub open spec fn dirs_ensured(self, dir: u64, parts: Seq<Seq<char>>) -> (
        VfsView,
        Result<u64, VfsError>,
    )
        decreases parts.len(),
    {
        if parts.len() == 0 {
            (self, Ok(dir))
        } else {
            match self.looked_up(dir, parts[0]) {
                (next, Ok(id)) => next.dirs_ensured(id, parts.drop_first()),
                (next, Err(_)) => match next.made_dir(dir, parts[0]) {
                    (made, Ok(id)) => made.dirs_ensured(id, parts.drop_first()),
                    (made, Err(e)) => (made, Err(e)),
                },
            }
        }
    }

    /// Finding the directory of a path, and the name in it; directories that are not there are
    /// created.
    pub open spec fn parent_ensured(self, path: Seq<char>) -> (
        VfsView,
        Result<(u64, Seq<char>), VfsError>,
    ) {
        let parts = path_names(path);
        if parts.len() == 0 {
            (self, Err(VfsError::EmptyPath))
        } else {
            match self.dirs_ensured(ROOT_INODE, parts.drop_last()) {
                (next, Ok(dir)) => (next, Ok((dir, parts.last()))),
                (next, Err(e)) => (next, Err(e)),
            }
        }
    }
}

/// Numbers without any of one.
pub open spec fn without(ids: Seq<u64>, id: u64) -> Seq<u64>
    decreases ids.len(),
{
    if ids.len() == 0 {
        ids
    } else {
        let before = without(ids.drop_last(), id);
        if ids.last() == id {
            before
        } else {
            before.push(ids.last())
        }
    }
}

/// All the other numbers are left.
pub proof fn lemma_without(ids: Seq<u64>, id: u64)
    ensures
        forall|x: u64| #[trigger] without(ids, id).contains(x) <==> ids.contains(x) && x != id,
    decreases ids.len(),
{
    if ids.len() > 0 {
        let front = ids.drop_last();
        let left = without(front, id);
        lemma_without(front, id);
        assert forall|x: u64| #[trigger] without(ids, id).contains(x) <==> ids.contains(x) && x
            != id by {
            assert(ids == front.push(ids.last()));
            assert(ids.contains(x) <==> front.contains(x) || x == ids.last()) by {
                if front.contains(x) {
                    let i = choose|i: int| 0 <= i < front.len() && front[i] == x;
                    assert(ids[i] == x);
                }
                if x == ids.last() {
                    assert(ids[ids.len() - 1] == x);
                }
                if ids.contains(x) && x != ids.last() {
                    let i = choose|i: int| 0 <= i < ids.len() && ids[i] == x;
                    assert(front[i] == x);
                }
            }
            let more = left.push(ids.last());
            assert(more.contains(x) <==> left.contains(x) || x == ids.last()) by {
                if left.contains(x) {
                    let i = choose|i: int| 0 <= i < left.len() && left[i] == x;
                    assert(more[i] == x);
                }
                if x == ids.last() {
                    assert(more[left.len() as int] == x);
                }
                if more.contains(x) && x != ids.last() {
                    let i = choose|i: int| 0 <= i < more.len() && more[i] == x;
                    assert(left[i] == x);
                }
            }
        }
    }
}

/// None of them is there twice where none was.
pub proof fn lemma_without_once(ids: Seq<u64>, id: u64)
    requires
        ids.no_duplicates(),
    ensures
        without(ids, id).no_duplicates(),
    decreases ids.len(),
{
    if ids.len() > 0 {
        let front = ids.drop_last();
        let left = without(front, id);
        lemma_without_once(front, id);
        lemma_without(front, id);
        assert forall|k: int| 0 <= k < left.len() implies #[trigger] left[k] != ids.last() by {
            assert(left.contains(left[k]));
            let i = choose|i: int| 0 <= i < front.len() && front[i] == left[k];
            assert(ids[i] == left[k] && ids[ids.len() - 1] == ids.last());
        }
    }
}

/// A number that is put behind others is there, and all the others are left.
pub proof fn lemma_pushed(ids: Seq<u64>, id: u64)
    ensures
        forall|x: u64| #[trigger] ids.push(id).contains(x) <==> ids.contains(x) || x == id,
{
    let all = ids.push(id);
    assert forall|x: u64| #[trigger] all.contains(x) <==> ids.contains(x) || x == id by {
        if ids.contains(x) {
            let i = choose|i: int| 0 <= i < ids.len() && ids[i] == x;
            assert(all[i] == x);
        }
        if x == id {
            assert(all[ids.len() as int] == x);
        }
    }
}

/// The names in a path.
pub open spec fn path_names(path: Seq<char>) -> Seq<Seq<char>> {
    text::nonempty(text::split(text::unslashed(path), '/'))
}

// ---------------------------------------------------------------------------------------------
// What holds of every tree

impl VfsView {
    /// What holds of a node: its number is its place, and its parent is a node.
    pub open spec fn node_ok(self, i: int) -> bool {
        &&& self.nodes[i].id == i + 1
        &&& self.has(self.nodes[i].parent)
    }

    /// Whether a child is in the list of a directory.
    pub open spec fn lists(self, i: int, id: u64) -> bool {
        self.dirs[i].listing matches Some(ids) && ids.contains(id)
    }

    /// What holds of the children by name: each is a node that was not removed, is called that,
    /// has the directory as its parent, and is in its list. The root is no child.
    pub open spec fn name_ok(self, i: int, name: Seq<char>) -> bool {
        self.dirs[i].names.contains_key(name) ==> {
            let id = self.dirs[i].names[name];
            &&& 1 < id <= self.nodes.len()
            &&& self.node(id).parent == i + 1
            &&& self.node(id).name == name
            &&& !self.node(id).is_deleted
            &&& self.lists(i, id)
        }
    }

    /// What holds of a node that was not removed: it is in the list of its parent, unless it is
    /// the root.
    pub open spec fn kept_ok(self, i: int) -> bool {
        0 < i && !self.nodes[i].is_deleted ==> self.lists(
            self.nodes[i].parent - 1,
            self.nodes[i].id,
        )
    }

    /// What holds of the children in their order: each is a node and has the directory as its
    /// parent. The root is no child.
    pub open spec fn listed_ok(self, i: int, k: int) -> bool {
        self.dirs[i].listing matches Some(ids) ==> 0 <= k < ids.len() ==> {
            &&& 1 < ids[k] <= self.nodes.len()
            &&& self.node(ids[k]).parent == i + 1
        }
    }

    /// What holds of the list of children: no child is in it twice.
    pub open spec fn once_ok(self, i: int) -> bool {
        self.dirs[i].listing matches Some(ids) ==> ids.no_duplicates()
    }

    /// What holds of a directory that was not looked at: it has no children yet. One that was is
    /// a directory.
    pub open spec fn dir_ok(self, i: int) -> bool {
        &&& self.dirs[i].listing is None ==> self.dirs[i].names == Map::<Seq<char>, u64>::empty()
        &&& self.dirs[i].listing is Some ==> self.nodes[i].is_dir
    }

    /// What holds of every tree.
    pub open spec fn wf(self) -> bool {
        &&& self.nodes.len() == self.dirs.len()
        &&& 1 <= self.nodes.len() <= u64::MAX
        &&& self.nodes[0].is_dir
        &&& !self.nodes[0].is_deleted
        &&& self.nodes[0].parent == ROOT_INODE
        &&& forall|i: int| 0 <= i < self.nodes.len() ==> #[trigger] self.node_ok(i)
        &&& forall|i: int| 0 <= i < self.nodes.len() ==> #[trigger] self.dir_ok(i)
        &&& forall|i: int, name: Seq<char>|
            0 <= i < self.nodes.len() ==> #[trigger] self.name_ok(i, name)
        &&& forall|i: int, k: int| 0 <= i < self.nodes.len() ==> #[trigger] self.listed_ok(i, k)
        &&& forall|i: int| 0 <= i < self.nodes.len() ==> #[trigger] self.once_ok(i)
        &&& forall|i: int| 0 <= i < self.nodes.len() ==> #[trigger] self.kept_ok(i)
    }

    /// A new child keeps the tree what it is.
    pub proof fn lemma_with_child(
        self,
        dir: u64,
        name: Seq<char>,
        oid: Seq<char>,
        mode: TreeEntryMode,
        is_dir: bool,
        size: u64,
    )
        requires
            self.wf(),
            self.is_open(dir),
            self.nodes.len() < u64::MAX,
        ensures
            self.with_child(dir, name, oid, mode, is_dir, size).wf(),
            self.with_child(dir, name, oid, mode, is_dir, size).is_open(dir),
    {
        let after = self.with_child(dir, name, oid, mode, is_dir, size);
        let n = self.nodes.len();
        lemma_pushed(self.listing(dir), self.next_id());
        assert forall|i: int| 0 <= i < after.nodes.len() implies #[trigger] after.kept_ok(i) by {
            if i < n {
                assert(self.kept_ok(i));
                assert(self.node_ok(i));
            }
        }
        assert forall|i: int| 0 <= i < after.nodes.len() implies #[trigger] after.node_ok(i) by {
            if i < n {
                assert(self.node_ok(i));
            }
        }
        assert forall|i: int| 0 <= i < after.nodes.len() implies #[trigger] after.dir_ok(i) by {
            if i < n {
                assert(self.dir_ok(i));
            }
        }
        assert forall|i: int, x: Seq<char>|
            0 <= i < after.nodes.len() implies #[trigger] after.name_ok(i, x) by {
            if i < n {
                assert(self.name_ok(i, x));
            }
        }
        assert forall|i: int, k: int|
            0 <= i < after.nodes.len() implies #[trigger] after.listed_ok(i, k) by {
            if i < n {
                assert(self.listed_ok(i, k));
            }
        }
        assert forall|i: int| 0 <= i < after.nodes.len() implies #[trigger] after.once_ok(i) by {
            if i < n {
                assert(self.once_ok(i));
                if i == dir - 1 {
                    let ids = self.listing(dir);
                    assert forall|k: int| 0 <= k < ids.len() implies #[trigger] ids[k]
                        != self.next_id() by {
                        assert(self.listed_ok(i, k));
                    }
                }
            }
        }
    }

    /// Changing a node, but neither its place, its parent, its name nor whether it is there, keeps
    /// the tree what it is.
    pub proof fn lemma_with_node(self, id: u64, node: NodeView)
        requires
            self.wf(),
            self.has(id),
            node.id == id,
            node.parent == self.node(id).parent,
            node.name == self.node(id).name,
            node.is_dir == self.node(id).is_dir,
            node.is_deleted == self.node(id).is_deleted,
        ensures
            self.with_node(id, node).wf(),
    {
        let after = self.with_node(id, node);
        assert forall|i: int| 0 <= i < after.nodes.len() implies #[trigger] after.kept_ok(i) by {
            assert(self.kept_ok(i));
            assert(self.node_ok(i));
        }
        assert forall|i: int| 0 <= i < after.nodes.len() implies #[trigger] after.node_ok(i) by {
            assert(self.node_ok(i));
        }
        assert forall|i: int| 0 <= i < after.nodes.len() implies #[trigger] after.dir_ok(i) by {
            assert(self.dir_ok(i));
        }
        assert forall|i: int, x: Seq<char>|
            0 <= i < after.nodes.len() implies #[trigger] after.name_ok(i, x) by {
            assert(self.name_ok(i, x));
        }
        assert forall|i: int, k: int|
            0 <= i < after.nodes.len() implies #[trigger] after.listed_ok(i, k) by {
            assert(self.listed_ok(i, k));
        }
        assert forall|i: int| 0 <= i < after.nodes.len() implies #[trigger] after.once_ok(i) by {
            assert(self.once_ok(i));
        }
    }

    /// Opening a directory that has no children yet keeps the tree what it is.
    pub proof fn lemma_with_listing(self, dir: u64)
        requires
            self.wf(),
            self.has(dir),
            self.node(dir).is_dir,
            self.dir(dir).listing is None,
        ensures
            self.with_dir(dir, DirView { listing: Some(Seq::empty()), ..self.dir(dir) }).wf(),
    {
        let after = self.with_dir(dir, DirView { listing: Some(Seq::empty()), ..self.dir(dir) });
        assert forall|i: int| 0 <= i < after.nodes.len() implies #[trigger] after.kept_ok(i) by {
            assert(self.kept_ok(i));
            assert(self.node_ok(i));
        }
        assert forall|i: int| 0 <= i < after.nodes.len() implies #[trigger] after.node_ok(i) by {
            assert(self.node_ok(i));
        }
        assert forall|i: int| 0 <= i < after.nodes.len() implies #[trigger] after.dir_ok(i) by {
            assert(self.dir_ok(i));
        }
        assert forall|i: int, x: Seq<char>|
            0 <= i < after.nodes.len() implies #[trigger] after.name_ok(i, x) by {
            assert(self.name_ok(i, x));
            assert(self.dir_ok(i));
        }
        assert forall|i: int, k: int|
            0 <= i < after.nodes.len() implies #[trigger] after.listed_ok(i, k) by {
            assert(self.listed_ok(i, k));
        }
        assert forall|i: int| 0 <= i < after.nodes.len() implies #[trigger] after.once_ok(i) by {
            assert(self.once_ok(i));
        }
    }

    /// Removing from an open directory keeps every node where it is, and what is open.
    pub proof fn lemma_removed(self, dir: u64, name: Seq<char>)
        requires
            self.wf(),
            self.is_open(dir),
        ensures
            ({
                let after = self.removed(dir, name).0;
                &&& after.wf()
                &&& after.nodes.len() == self.nodes.len()
                &&& forall|id: u64| self.has(id) ==> {
                    &&& (#[trigger] after.node(id)).parent == self.node(id).parent
                    &&& after.node(id).name == self.node(id).name
                    &&& after.node(id).is_dir == self.node(id).is_dir
                }
                &&& forall|d: u64| self.is_open(d) ==> #[trigger] after.is_open(d)
            }),
    {
        match self.child(dir, name) {
            None => {},
            Some(id) => {
                assert(self.name_ok(dir - 1, name));
                assert(self.node_ok(id - 1));
                self.lemma_taken_out(dir, name);
            },
        }
    }

    /// Moving a child keeps the tree what it is.
    pub proof fn lemma_moved(
        self,
        id: u64,
        from_dir: u64,
        from_name: Seq<char>,
        to_dir: u64,
        to_name: Seq<char>,
    )
        requires
            self.wf(),
            self.is_open(from_dir),
            self.is_open(to_dir),
            self.child(from_dir, from_name) == Some(id),
            (from_dir, from_name) != (to_dir, to_name),
        ensures
            self.moved(id, from_dir, from_name, to_dir, to_name).wf(),
    {
        let free = self.removed(to_dir, to_name).0;
        let after = self.moved(id, from_dir, from_name, to_dir, to_name);
        self.lemma_removed(to_dir, to_name);
        assert(self.name_ok(from_dir - 1, from_name));
        assert(free.is_open(from_dir) && free.is_open(to_dir));
        assert(free.node(id).parent == from_dir && free.node(id).name == from_name);
        assert forall|i: int| 0 <= i < after.nodes.len() implies #[trigger] after.kept_ok(i) by {
            self.lemma_moved_kept(id, from_dir, from_name, to_dir, to_name, i);
        }
        assert forall|i: int| 0 <= i < after.nodes.len() implies #[trigger] after.once_ok(i) by {
            self.lemma_moved_once(id, from_dir, from_name, to_dir, to_name, i);
        }
        assert forall|i: int| 0 <= i < after.nodes.len() implies #[trigger] after.node_ok(i) by {
            assert(free.node_ok(i));
        }
        assert forall|i: int| 0 <= i < after.nodes.len() implies #[trigger] after.dir_ok(i) by {
            assert(free.dir_ok(i));
            if i == from_dir - 1 && i != to_dir - 1 {
                assert(free.dirs[i].listing is Some);
            }
        }
        assert forall|i: int, x: Seq<char>|
            0 <= i < after.nodes.len() implies #[trigger] after.name_ok(i, x) by {
            self.lemma_moved_named(id, from_dir, from_name, to_dir, to_name, i, x);
        }
        assert forall|i: int, k: int|
            0 <= i < after.nodes.len() implies #[trigger] after.listed_ok(i, k) by {
            let kept = free.with_node(
                id,
                NodeView { parent: to_dir, name: to_name, ..free.node(id) },
            ).unnamed(from_dir, from_name).unlisted(from_dir, id);
            assert(kept.dirs[i].listing matches Some(ids) ==> forall|j: int|
                0 <= j < ids.len() ==> {
                    let x = #[trigger] ids[j];
                    1 < x <= free.nodes.len() && x != id && free.node(x).parent == i + 1
                }) by {
                if kept.dirs[i].listing is Some {
                    let ids = kept.dirs[i].listing->0;
                    let had = free.dirs[i].listing->0;
                    assert forall|j: int| 0 <= j < ids.len() implies {
                        let x = #[trigger] ids[j];
                        1 < x <= free.nodes.len() && x != id && free.node(x).parent == i + 1
                    } by {
                        let x = ids[j];
                        if i == from_dir - 1 {
                            lemma_without(had, id);
                            assert(ids.contains(x));
                            assert(had.contains(x));
                            let h = choose|h: int| 0 <= h < had.len() && had[h] == x;
                            assert(free.listed_ok(i, h));
                        } else {
                            assert(free.listed_ok(i, j));
                        }
                    }
                }
            }
        }
    }

    /// Moving a child leaves in its place every other that is listed, and lists it in the new one.
    proof fn lemma_moved_lists(
        self,
        id: u64,
        from_dir: u64,
        from_name: Seq<char>,
        to_dir: u64,
        to_name: Seq<char>,
        i: int,
        other: u64,
    )
        requires
            self.wf(),
            self.is_open(from_dir),
            self.is_open(to_dir),
            self.child(from_dir, from_name) == Some(id),
            0 <= i < self.nodes.len(),
        ensures
            ({
                let free = self.removed(to_dir, to_name).0;
                let after = self.moved(id, from_dir, from_name, to_dir, to_name);
                &&& free.lists(i, other) && other != id ==> after.lists(i, other)
                &&& after.lists(to_dir - 1, id)
            }),
    {
        let free = self.removed(to_dir, to_name).0;
        self.lemma_removed(to_dir, to_name);
        assert(free.is_open(from_dir) && free.is_open(to_dir));
        let placed = free.with_node(
            id,
            NodeView { parent: to_dir, name: to_name, ..free.node(id) },
        ).unnamed(from_dir, from_name).unlisted(from_dir, id);
        lemma_without(free.listing(from_dir), id);
        lemma_pushed(placed.listing(to_dir), id);
        assert(free.lists(i, other) && other != id ==> placed.lists(i, other));
    }

    proof fn lemma_moved_kept(
        self,
        id: u64,
        from_dir: u64,
        from_name: Seq<char>,
        to_dir: u64,
        to_name: Seq<char>,
        i: int,
    )
        requires
            self.wf(),
            self.is_open(from_dir),
            self.is_open(to_dir),
            self.child(from_dir, from_name) == Some(id),
            0 <= i < self.nodes.len(),
        ensures
            self.moved(id, from_dir, from_name, to_dir, to_name).kept_ok(i),
    {
        let free = self.removed(to_dir, to_name).0;
        self.lemma_removed(to_dir, to_name);
        assert(self.name_ok(from_dir - 1, from_name));
        assert(free.kept_ok(i));
        assert(free.node_ok(i));
        assert(free.node_ok(id - 1));
        let parent = free.nodes[i].parent;
        self.lemma_moved_lists(
            id,
            from_dir,
            from_name,
            to_dir,
            to_name,
            parent - 1,
            free.nodes[i].id,
        );
    }

    proof fn lemma_moved_named(
        self,
        id: u64,
        from_dir: u64,
        from_name: Seq<char>,
        to_dir: u64,
        to_name: Seq<char>,
        i: int,
        x: Seq<char>,
    )
        requires
            self.wf(),
            self.is_open(from_dir),
            self.is_open(to_dir),
            self.child(from_dir, from_name) == Some(id),
            (from_dir, from_name) != (to_dir, to_name),
            0 <= i < self.nodes.len(),
        ensures
            self.moved(id, from_dir, from_name, to_dir, to_name).name_ok(i, x),
    {
        let free = self.removed(to_dir, to_name).0;
        let after = self.moved(id, from_dir, from_name, to_dir, to_name);
        self.lemma_removed(to_dir, to_name);
        assert(self.name_ok(from_dir - 1, from_name));
        assert(self.name_ok(to_dir - 1, to_name));
        assert(free.is_open(from_dir) && free.is_open(to_dir));
        assert(free.node(id).parent == from_dir && free.node(id).name == from_name);
        assert(!free.node(id).is_deleted);
        assert(free.name_ok(i, x));
        let other = after.dirs[i].names[x];
        self.lemma_moved_lists(id, from_dir, from_name, to_dir, to_name, i, other);
    }

    proof fn lemma_moved_once(
        self,
        id: u64,
        from_dir: u64,
        from_name: Seq<char>,
        to_dir: u64,
        to_name: Seq<char>,
        i: int,
    )
        requires
            self.wf(),
            self.is_open(from_dir),
            self.is_open(to_dir),
            self.child(from_dir, from_name) == Some(id),
            0 <= i < self.nodes.len(),
        ensures
            self.moved(id, from_dir, from_name, to_dir, to_name).once_ok(i),
    {
        let free = self.removed(to_dir, to_name).0;
        self.lemma_removed(to_dir, to_name);
        assert(self.name_ok(from_dir - 1, from_name));
        assert(free.is_open(from_dir) && free.is_open(to_dir));
        assert(free.node(id).parent == from_dir);
        assert(free.once_ok(i));
        let kept = free.with_node(
            id,
            NodeView { parent: to_dir, name: to_name, ..free.node(id) },
        ).unnamed(from_dir, from_name).unlisted(from_dir, id);
        if i == from_dir - 1 {
            lemma_without_once(free.dirs[i].listing->0, id);
            lemma_without(free.dirs[i].listing->0, id);
        }
        if i == to_dir - 1 {
            let ids = kept.listing(to_dir);
            assert(ids.no_duplicates());
            assert forall|k: int| 0 <= k < ids.len() implies #[trigger] ids[k] != id by {
                if i == from_dir - 1 {
                    assert(ids.contains(ids[k]));
                } else {
                    assert(free.listed_ok(i, k));
                }
            }
        }
    }

    /// Adding the entries of a tree keeps what was open, and the nodes that were there.
    pub proof fn lemma_with_entries(self, dir: u64, items: Seq<TreeItem>, other: u64)
        requires
            self.is_open(dir),
            self.nodes.len() == self.dirs.len(),
            self.is_open(other),
        ensures
            self.with_entries(dir, items).is_open(dir),
            self.with_entries(dir, items).is_open(other),
            self.with_entries(dir, items).nodes.len() == self.with_entries(dir, items).dirs.len(),
            self.with_entries(dir, items).nodes.len() == self.nodes.len() + items.len(),
        decreases items.len(),
    {
        if items.len() > 0 {
            self.lemma_with_entries(dir, items.drop_last(), other);
        }
    }

    /// Opening a directory keeps what was open.
    pub proof fn lemma_opened(self, dir: u64, other: u64)
        requires
            self.nodes.len() == self.dirs.len(),
            self.is_open(other),
        ensures
            self.opened(dir) matches Ok(next) ==> next.is_open(other) && next.is_open(dir),
    {
        if !self.is_open(dir) && self.has(dir) && self.node(dir).is_dir {
            let empty = self.with_dir(
                dir,
                DirView { listing: Some(Seq::empty()), ..self.dir(dir) },
            );
            assert(empty.is_open(dir) && empty.is_open(other));
            if self.engine.trees.contains_key(self.node(dir).oid) {
                empty.lemma_with_entries(dir, self.engine.trees[self.node(dir).oid], other);
            }
        }
    }

    /// What holds of a tree does not depend on the repository.
    pub proof fn lemma_engine_aside(self, other: VfsView)
        requires
            other.wf(),
            self.nodes == other.nodes,
            self.dirs == other.dirs,
        ensures
            self.wf(),
    {
        assert forall|i: int| 0 <= i < self.nodes.len() implies #[trigger] self.node_ok(i) by {
            assert(other.node_ok(i));
        }
        assert forall|i: int| 0 <= i < self.nodes.len() implies #[trigger] self.dir_ok(i) by {
            assert(other.dir_ok(i));
        }
        assert forall|i: int, x: Seq<char>|
            0 <= i < self.nodes.len() implies #[trigger] self.name_ok(i, x) by {
            assert(other.name_ok(i, x));
        }
        assert forall|i: int, k: int|
            0 <= i < self.nodes.len() implies #[trigger] self.listed_ok(i, k) by {
            assert(other.listed_ok(i, k));
        }
        assert forall|i: int| 0 <= i < self.nodes.len() implies #[trigger] self.once_ok(i) by {
            assert(other.once_ok(i));
        }
        assert forall|i: int| 0 <= i < self.nodes.len() implies #[trigger] self.kept_ok(i) by {
            assert(other.kept_ok(i));
        }
    }

    /// Taking a child out keeps the tree what it is.
    pub proof fn lemma_taken_out(self, dir: u64, name: Seq<char>)
        requires
            self.wf(),
            self.child(dir, name) is Some,
        ensures
            ({
                let id = self.child(dir, name)->0;
                let gone = self.with_node(id, NodeView { is_deleted: true, ..self.node(id) });
                gone.unlisted(dir, id).unnamed(dir, name).wf()
            }),
    {
        let id = self.child(dir, name)->0;
        let gone = self.with_node(id, NodeView { is_deleted: true, ..self.node(id) });
        let after = gone.unlisted(dir, id).unnamed(dir, name);
        assert(self.name_ok(dir - 1, name));
        lemma_without(self.listing(dir), id);
        assert forall|i: int| 0 <= i < after.nodes.len() implies #[trigger] after.kept_ok(i) by {
            assert(self.kept_ok(i));
            assert(self.node_ok(i));
        }
        assert forall|i: int| 0 <= i < after.nodes.len() implies #[trigger] after.node_ok(i) by {
            assert(self.node_ok(i));
        }
        assert forall|i: int| 0 <= i < after.nodes.len() implies #[trigger] after.dir_ok(i) by {
            assert(self.dir_ok(i));
            if self.dirs[i].listing is None {
                assert(after.dirs[i].names =~= Map::<Seq<char>, u64>::empty());
            }
        }
        assert forall|i: int, x: Seq<char>|
            0 <= i < after.nodes.len() implies #[trigger] after.name_ok(i, x) by {
            assert(self.name_ok(i, x));
        }
        assert forall|i: int, k: int|
            0 <= i < after.nodes.len() implies #[trigger] after.listed_ok(i, k) by {
            if i == dir - 1 && self.dirs[i].listing is Some {
                let ids = self.dirs[i].listing->0;
                let left = without(ids, id);
                assert(after.dirs[i].listing == Some(left));
                if 0 <= k < left.len() {
                    lemma_without(ids, id);
                    assert(left.contains(left[k]));
                    let j = choose|j: int| 0 <= j < ids.len() && ids[j] == left[k];
                    assert(self.listed_ok(i, j));
                }
            } else {
                assert(self.listed_ok(i, k));
            }
        }
        assert forall|i: int| 0 <= i < after.nodes.len() implies #[trigger] after.once_ok(i) by {
            assert(self.once_ok(i));
            if i == dir - 1 && self.dirs[i].listing is Some {
                lemma_without_once(self.dirs[i].listing->0, id);
            }
        }
    }
}

// ---------------------------------------------------------------------------------------------
// The tree, executed

struct DirState {
    names: StringHashMap<u64>,
    listing: Option<Vec<u64>>,
}

impl View for DirState {
    type V = DirView;

    closed spec fn view(&self) -> DirView {
        DirView {
            names: self.names@,
            listing: match self.listing {
                Some(ids) => Some(ids@),
                None => None,
            },
        }
    }
}

pub struct VfsManager {
    git_engine: GitEngine,
    nodes: Vec<VfsNode>,
    dirs: Vec<DirState>,
}

impl View for VfsManager {
    type V = VfsView;

    closed spec fn view(&self) -> VfsView {
        VfsView {
            engine: self.git_engine@,
            nodes: self.nodes@.map_values(|n: VfsNode| n@),
            dirs: self.dirs@.map_values(|d: DirState| d@),
        }
    }
}

/// The views of nodes.
pub open spec fn node_views(nodes: Seq<VfsNode>) -> Seq<NodeView> {
    nodes.map_values(|n: VfsNode| n@)
}

impl VfsManager {
    pub closed spec fn wf(&self) -> bool {
        &&& self.git_engine.wf()
        &&& self@.wf()
    }

    /// What holds of every tree holds of this one.
    pub proof fn lemma_wf(&self)
        requires
            self.wf(),
        ensures
            self@.wf(),
            self@.engine.cache.wf(),
    {
        self.git_engine.lemma_wf();
    }

    /// The tree of a repository, from its root tree.
    pub fn new(git_engine: GitEngine, root_oid: &str) -> (vfs: Self)
        requires
            git_engine.wf(),
        ensures
            vfs.wf(),
            vfs@ == VfsView::fresh(git_engine@, root_oid@),
    {
        let mut nodes: Vec<VfsNode> = Vec::new();
        nodes.push(
            VfsNode {
                id: ROOT_INODE,
                parent_id: ROOT_INODE,
                name: "/".to_string(),
                oid: root_oid.to_string(),
                mode: TreeEntryMode::Directory,
                is_dir: true,
                size: 4096,
                is_deleted: false,
            },
        );
        let mut dirs: Vec<DirState> = Vec::new();
        dirs.push(DirState { names: StringHashMap::new(), listing: None });
        let vfs = VfsManager { git_engine, nodes, dirs };
        assert(vfs@ =~= VfsView::fresh(git_engine@, root_oid@)) by {
            let want = VfsView::fresh(git_engine@, root_oid@);
            assert(vfs@.nodes =~= want.nodes);
            assert(vfs@.dirs =~= want.dirs);
        }
        vfs
    }

    pub fn git_engine(&self) -> (engine: &GitEngine)
        requires
            self.wf(),
        ensures
            engine@ == self@.engine,
            engine.wf(),
    {
        &self.git_engine
    }

    /// Hands the repository back.
    pub fn into_engine(self) -> (engine: GitEngine)
        requires
            self.wf(),
        ensures
            engine@ == self@.engine,
            engine.wf(),
    {
        self.git_engine
    }

    /// Lends the repository, to be read from. Nothing else changes.
    pub fn engine_mut(&mut self) -> (engine: &mut GitEngine)
        requires
            old(self).wf(),
        ensures
            engine@ == old(self)@.engine,
            engine.wf(),
            final(engine).wf() ==> final(self).wf() && final(self)@ == (VfsView {
                engine: final(engine)@,
                ..old(self)@
            }),
    {
        let ghost before = self@;
        proof {
            assert forall|v: VfsView|
                v.nodes == before.nodes && v.dirs == before.dirs implies #[trigger] v.wf() by {
                v.lemma_engine_aside(before);
            }
        }
        &mut self.git_engine
    }

    fn has(&self, id: u64) -> (r: bool)
        requires
            self.wf(),
        ensures
            r == self@.has(id),
            r ==> id - 1 < self.nodes@.len() && self.nodes@.len() == self.dirs@.len(),
    {
        id >= 1 && id <= self.nodes.len() as u64
    }

    /// The place of a node.
    fn place(&self, id: u64) -> (at: usize)
        requires
            self@.has(id),
            self@.nodes.len() == self@.dirs.len(),
        ensures
            at == id - 1,
            at < self.nodes@.len() == self.dirs@.len(),
            self.nodes@[at as int]@ == self@.node(id),
            self.dirs@[at as int]@ == self@.dir(id),
    {
        let len: usize = self.nodes.len();
        assert(id <= len);
        (id - 1) as usize
    }

    /// The node of that number, where it was not removed.
    pub fn get_node(&self, id: u64) -> (r: Option<VfsNode>)
        requires
            self.wf(),
        ensures
            match r {
                Some(node) => self@.is_live(id) && node@ == self@.node(id),
                None => !self@.is_live(id),
            },
    {
        if !self.has(id) {
            return None;
        }
        let node = &self.nodes[self.place(id)];
        if node.is_deleted {
            None
        } else {
            Some(node.clone())
        }
    }

    /// The node of that number, whether it was removed or not.
    pub fn any_node(&self, id: u64) -> (node: VfsNode)
        requires
            self.wf(),
            self@.has(id),
        ensures
            node@ == self@.node(id),
    {
        self.nodes[self.place(id)].clone()
    }

    /// The directory that a node was removed from, where it was removed.
    pub fn removed_from(&self, id: u64) -> (r: Option<u64>)
        requires
            self.wf(),
        ensures
            match r {
                Some(parent) => self@.has(id) && self@.node(id).is_deleted && parent == self@.node(
                    id,
                ).parent,
                None => !(self@.has(id) && self@.node(id).is_deleted),
            },
    {
        if !self.has(id) {
            return None;
        }
        let node = &self.nodes[self.place(id)];
        if node.is_deleted {
            Some(node.parent_id)
        } else {
            None
        }
    }

    fn child(&self, dir: u64, name: &str) -> (r: Option<u64>)
        requires
            self.wf(),
        ensures
            r == self@.child(dir, name@),
            r matches Some(id) ==> self@.has(id) && id != ROOT_INODE && self@.node(id).parent
                == dir,
    {
        if !self.has(dir) {
            return None;
        }
        assert(self@.name_ok(dir - 1, name@));
        assert(self@.dirs[dir - 1] == self.dirs@[dir - 1]@);
        match self.dirs[self.place(dir)].names.get(name) {
            Some(id) => Some(*id),
            None => None,
        }
    }

    fn live_child(&self, dir: u64, name: &str) -> (r: Option<u64>)
        requires
            self.wf(),
        ensures
            r == self@.live_child(dir, name@),
    {
        match self.child(dir, name) {
            Some(id) => if self.nodes[self.place(id)].is_deleted {
                None
            } else {
                Some(id)
            },
            None => None,
        }
    }

    fn set_node(&mut self, id: u64, node: VfsNode)
        requires
            old(self).git_engine.wf(),
            old(self)@.has(id),
            old(self)@.nodes.len() == old(self)@.dirs.len(),
        ensures
            final(self).git_engine.wf(),
            final(self)@ == old(self)@.with_node(id, node@),
    {
        let ghost n = node@;
        let at: usize = self.place(id);
        self.nodes[at] = node;
        assert(self@.nodes =~= old(self)@.nodes.update(id - 1, n));
        assert(self@ =~= old(self)@.with_node(id, n));
    }

    fn push_child(
        &mut self,
        dir: u64,
        name: String,
        oid: String,
        mode: TreeEntryMode,
        is_dir: bool,
        size: u64,
    ) -> (id: u64)
        requires
            old(self).wf(),
            old(self)@.is_open(dir),
        ensures
            final(self).wf(),
            final(self)@ == old(self)@.with_child(dir, name@, oid@, mode, is_dir, size),
            final(self)@.is_open(dir),
            id == old(self)@.next_id(),
            final(self)@.has(id),
    {
        let ghost before = self@;
        let ghost view = (name@, oid@);
        let at: usize = self.place(dir);
        self.dirs.push(DirState { names: StringHashMap::new(), listing: None });
        let id: u64 = self.dirs.len() as u64;
        let key = name.clone();
        self.nodes.push(
            VfsNode { id, parent_id: dir, name, oid, mode, is_dir, size, is_deleted: false },
        );
        let ghost pushed = self.dirs@;
        self.dirs[at].names.insert(key, id);
        match &mut self.dirs[at].listing {
            Some(ids) => {
                ids.push(id);
            },
            None => {},
        }
        proof {
            let want = before.with_child(dir, view.0, view.1, mode, is_dir, size);
            assert(self@.nodes =~= want.nodes);
            assert(self@.dirs =~= want.dirs);
            assert(self@ =~= want);
            before.lemma_with_child(dir, view.0, view.1, mode, is_dir, size);
        }
        id
    }

    /// Looks at a directory, where that was not done yet: its children become nodes.
    pub fn ensure_dir_populated(&mut self, dir_id: u64) -> (r: Result<(), VfsError>)
        requires
            old(self).wf(),
        ensures
            final(self).wf(),
            match r {
                Ok(_) => old(self)@.opened(dir_id) == Ok::<_, VfsError>(final(self)@)
                    && final(self)@.is_open(dir_id),
                Err(e) => old(self)@.opened(dir_id) == Err::<VfsView, _>(e) && final(self)@ == old(
                    self,
                )@,
            },
    {
        if !self.has(dir_id) {
            return Err(VfsError::NodeNotFound(dir_id));
        }
        let at: usize = self.place(dir_id);
        if self.dirs[at].listing.is_some() {
            return Ok(());
        }
        if !self.nodes[at].is_dir {
            return Err(VfsError::NotADirectory(dir_id));
        }
        let ghost before = self@;
        let tree: Option<GitTree> = match self.git_engine.get_tree(self.nodes[at].oid.as_str()) {
            Some(t) => Some(t.clone()),
            None => None,
        };
        self.dirs[at].listing = Some(Vec::new());
        let ghost empty = before.with_dir(
            dir_id,
            DirView { listing: Some(Seq::empty()), ..before.dir(dir_id) },
        );
        proof {
            assert(self@.dirs =~= empty.dirs);
            assert(self@.nodes =~= empty.nodes);
            assert(self@ =~= empty);
            before.lemma_with_listing(dir_id);
        }
        match tree {
            None => {},
            Some(tree) => {
                let ghost items = tree@;
                let mut i: usize = 0;
                assert(items.take(0) =~= Seq::<TreeItem>::empty());
                while i < tree.entries.len()
                    invariant
                        self.wf(),
                        self@.is_open(dir_id),
                        i <= tree.entries@.len() == items.len(),
                        items == tree@,
                        self@ == empty.with_entries(dir_id, items.take(i as int)),
                    decreases tree.entries@.len() - i,
                {
                    let entry = &tree.entries[i];
                    proof {
                        assert(items.take(i as int + 1).drop_last() =~= items.take(i as int));
                        assert(items.take(i as int + 1).last() == entry@);
                    }
                    if entry.mode.is_dir() {
                        let _ = self.push_child(
                            dir_id,
                            entry.name.clone(),
                            entry.oid.clone(),
                            entry.mode,
                            true,
                            4096,
                        );
                    } else {
                        let size: u64 = self.shown_size(entry.oid.as_str());
                        let _ = self.push_child(
                            dir_id,
                            entry.name.clone(),
                            entry.oid.clone(),
                            entry.mode,
                            false,
                            size,
                        );
                    }
                    i += 1;
                }
                assert(items.take(i as int) =~= items);
            },
        }
        Ok(())
    }

    fn shown_size(&mut self, oid: &str) -> (size: u64)
        requires
            old(self).wf(),
        ensures
            final(self).wf(),
            final(self)@ == (VfsView { engine: old(self)@.engine.asked(oid@), ..old(self)@ }),
            size == old(self)@.engine.shown_size(oid@),
    {
        let ghost before = self@;
        let size: u64 = self.git_engine.shown_size(oid);
        proof {
            let after = VfsView { engine: before.engine.asked(oid@), ..before };
            assert(self@ =~= after);
            after.lemma_engine_aside(before);
        }
        size
    }

    /// Looks a name up in a directory.
    pub fn lookup(&mut self, dir_id: u64, name: &str) -> (r: Result<u64, VfsError>)
        requires
            old(self).wf(),
        ensures
            final(self).wf(),
            (final(self)@, r) == old(self)@.looked_up(dir_id, name@),
    {
        if text::equal(name, ".") {
            return Ok(dir_id);
        }
        if text::equal(name, "..") {
            if !self.has(dir_id) {
                return Err(VfsError::NodeNotFound(dir_id));
            }
            return Ok(self.nodes[self.place(dir_id)].parent_id);
        }
        match self.live_child(dir_id, name) {
            Some(id) => {
                return Ok(id);
            },
            None => {},
        }
        match self.ensure_dir_populated(dir_id) {
            Ok(_) => {},
            Err(e) => {
                return Err(e);
            },
        }
        match self.live_child(dir_id, name) {
            Some(id) => Ok(id),
            None => Err(VfsError::ChildNotFound),
        }
    }

    /// Lists the children of a directory.
    pub fn list_dir(&mut self, dir_id: u64) -> (r: Result<Vec<VfsNode>, VfsError>)
        requires
            old(self).wf(),
        ensures
            final(self).wf(),
            match r {
                Ok(list) => old(self)@.opened(dir_id) == Ok::<_, VfsError>(final(self)@)
                    && node_views(list@) == final(self)@.listed(dir_id),
                Err(e) => old(self)@.opened(dir_id) == Err::<VfsView, _>(e) && final(self)@ == old(
                    self,
                )@,
            },
    {
        match self.ensure_dir_populated(dir_id) {
            Ok(_) => {},
            Err(e) => {
                return Err(e);
            },
        }
        let mut list: Vec<VfsNode> = Vec::new();
        let ghost ids = self@.listing(dir_id);
        assert(ids.take(0) =~= Seq::<u64>::empty());
        assert(node_views(list@) =~= Seq::<NodeView>::empty());
        let at: usize = self.place(dir_id);
        match &self.dirs[at].listing {
            Some(children) => {
                let mut i: usize = 0;
                while i < children.len()
                    invariant
                        self.wf(),
                        i <= children@.len(),
                        ids == children@,
                        node_views(list@) == self@.live_nodes(ids.take(i as int)),
                    decreases children@.len() - i,
                {
                    assert(ids.take(i as int + 1).drop_last() =~= ids.take(i as int));
                    match self.get_node(children[i]) {
                        Some(node) => {
                            let ghost before = list@;
                            list.push(node);
                            assert(node_views(list@) =~= node_views(before).push(node@));
                        },
                        None => {},
                    }
                    i += 1;
                }
                assert(ids.take(i as int) =~= ids);
            },
            None => {},
        }
        Ok(list)
    }

    /// Creates a regular file.
    pub fn create_file(&mut self, dir_id: u64, name: &str, mode: TreeEntryMode) -> (r: Result<
        VfsNode,
        VfsError,
    >)
        requires
            old(self).wf(),
        ensures
            final(self).wf(),
            final(self)@ == old(self)@.created(dir_id, name@, mode).0,
            match r {
                Ok(node) => old(self)@.created(dir_id, name@, mode).1 == Ok::<_, VfsError>(node.id)
                    && final(self)@.is_live(node.id) && node@ == final(self)@.node(node.id),
                Err(e) => old(self)@.created(dir_id, name@, mode).1 == Err::<u64, _>(e),
            },
    {
        match self.ensure_dir_populated(dir_id) {
            Ok(_) => {},
            Err(e) => {
                return Err(e);
            },
        }
        let ghost next = self@;
        match self.child(dir_id, name) {
            Some(id) => {
                let mut node = self.nodes[self.place(id)].clone();
                node.is_deleted = false;
                node.size = 0;
                proof {
                    assert(next.node_ok(id - 1));
                    assert(next.name_ok(dir_id - 1, name@));
                    next.lemma_with_node(id, node@);
                }
                self.set_node(id, node.clone());
                Ok(node)
            },
            None => {
                let id: u64 = self.push_child(
                    dir_id,
                    name.to_string(),
                    String::new(),
                    mode,
                    false,
                    0,
                );
                Ok(self.nodes[self.place(id)].clone())
            },
        }
    }

    /// Creates a directory.
    pub fn mkdir(&mut self, dir_id: u64, name: &str) -> (r: Result<VfsNode, VfsError>)
        requires
            old(self).wf(),
        ensures
            final(self).wf(),
            final(self)@ == old(self)@.made_dir(dir_id, name@).0,
            match r {
                Ok(node) => old(self)@.made_dir(dir_id, name@).1 == Ok::<_, VfsError>(node.id)
                    && final(self)@.is_live(node.id) && node@ == final(self)@.node(node.id),
                Err(e) => old(self)@.made_dir(dir_id, name@).1 == Err::<u64, _>(e),
            },
    {
        match self.ensure_dir_populated(dir_id) {
            Ok(_) => {},
            Err(e) => {
                return Err(e);
            },
        }
        let id: u64 = self.push_child(
            dir_id,
            name.to_string(),
            String::new(),
            TreeEntryMode::Directory,
            true,
            4096,
        );
        let ghost made = self@;
        let at: usize = self.place(id);
        self.dirs[at].listing = Some(Vec::new());
        proof {
            let want = made.with_dir(id, DirView { listing: Some(Seq::empty()), ..made.dir(id) });
            assert(self@.dirs =~= want.dirs);
            assert(self@.nodes =~= want.nodes);
            assert(self@ =~= want);
            made.lemma_with_listing(id);
        }
        Ok(self.nodes[at].clone())
    }

    /// Takes a number out of a directory's list.
    fn unlist(&mut self, dir: u64, id: u64)
        requires
            old(self).git_engine.wf(),
            old(self)@.has(dir),
            old(self)@.nodes.len() == old(self)@.dirs.len(),
        ensures
            final(self).git_engine.wf(),
            final(self)@ == old(self)@.unlisted(dir, id),
    {
        let ghost before = self@;
        let at: usize = self.place(dir);
        let mut left: Vec<u64> = Vec::new();
        let was_listed: bool = match &self.dirs[at].listing {
            Some(ids) => {
                let ghost all = ids@;
                let mut i: usize = 0;
                assert(all.take(0) =~= Seq::<u64>::empty());
                while i < ids.len()
                    invariant
                        i <= ids@.len(),
                        all == ids@,
                        left@ == without(all.take(i as int), id),
                    decreases ids@.len() - i,
                {
                    assert(all.take(i as int + 1).drop_last() =~= all.take(i as int));
                    if ids[i] != id {
                        left.push(ids[i]);
                    }
                    i += 1;
                }
                assert(all.take(i as int) =~= all);
                true
            },
            None => false,
        };
        if was_listed {
            self.dirs[at].listing = Some(left);
        }
        assert(self@.dirs =~= before.unlisted(dir, id).dirs);
        assert(self@.nodes =~= before.nodes);
        assert(self@ =~= before.unlisted(dir, id));
    }

    /// Takes a name out of a directory.
    fn unname(&mut self, dir: u64, name: &str)
        requires
            old(self).git_engine.wf(),
            old(self)@.has(dir),
            old(self)@.nodes.len() == old(self)@.dirs.len(),
        ensures
            final(self).git_engine.wf(),
            final(self)@ == old(self)@.unnamed(dir, name@),
    {
        let ghost before = self@;
        let at: usize = self.place(dir);
        self.dirs[at].names.remove(name);
        assert(self@.dirs =~= before.unnamed(dir, name@).dirs);
        assert(self@.nodes =~= before.nodes);
        assert(self@ =~= before.unnamed(dir, name@));
    }

    /// Removes a file or directory.
    pub fn remove(&mut self, dir_id: u64, name: &str) -> (r: Result<VfsNode, VfsError>)
        requires
            old(self).wf(),
        ensures
            final(self).wf(),
            final(self)@ == old(self)@.removed(dir_id, name@).0,
            match r {
                Ok(node) => old(self)@.removed(dir_id, name@).1 == Ok::<_, VfsError>(node.id)
                    && final(self)@.has(node.id) && node@ == final(self)@.node(node.id),
                Err(e) => old(self)@.removed(dir_id, name@).1 == Err::<u64, _>(e),
            },
    {
        match self.ensure_dir_populated(dir_id) {
            Ok(_) => {},
            Err(e) => {
                return Err(e);
            },
        }
        let ghost next = self@;
        let id: u64 = match self.child(dir_id, name) {
            Some(id) => id,
            None => {
                return Err(VfsError::ChildNotFound);
            },
        };
        let mut node = self.nodes[self.place(id)].clone();
        node.is_deleted = true;
        proof {
            assert(next.node_ok(id - 1));
            next.lemma_taken_out(dir_id, name@);
        }
        self.set_node(id, node.clone());
        self.unlist(dir_id, id);
        self.unname(dir_id, name);
        Ok(node)
    }

    /// Renames a file or directory. What was in the new place is removed; a file that is renamed
    /// to its own name stays what it is.
    pub fn rename(
        &mut self,
        from_dir_id: u64,
        from_name: &str,
        to_dir_id: u64,
        to_name: &str,
    ) -> (r: Result<(), VfsError>)
        requires
            old(self).wf(),
        ensures
            final(self).wf(),
            (final(self)@, r) == old(self)@.renamed(from_dir_id, from_name@, to_dir_id, to_name@),
            from_dir_id == to_dir_id && from_name@ == to_name@ && r is Ok ==> old(self)@.opened(
                from_dir_id,
            ) == Ok::<_, VfsError>(final(self)@),
    {
        match self.ensure_dir_populated(from_dir_id) {
            Ok(_) => {},
            Err(e) => {
                return Err(e);
            },
        }
        let ghost first = self@;
        match self.ensure_dir_populated(to_dir_id) {
            Ok(_) => {},
            Err(e) => {
                return Err(e);
            },
        }
        let ghost next = self@;
        proof {
            first.lemma_opened(to_dir_id, from_dir_id);
        }
        let id: u64 = match self.child(from_dir_id, from_name) {
            Some(id) => id,
            None => {
                return Err(VfsError::ChildNotFound);
            },
        };
        if from_dir_id == to_dir_id && text::equal(from_name, to_name) {
            return Ok(());
        }
        let _ = self.remove(to_dir_id, to_name);
        let ghost free = self@;
        proof {
            next.lemma_moved(id, from_dir_id, from_name@, to_dir_id, to_name@);
            next.lemma_removed(to_dir_id, to_name@);
        }
        let mut node = self.nodes[self.place(id)].clone();
        node.parent_id = to_dir_id;
        node.name = to_name.to_string();
        self.set_node(id, node);
        self.unname(from_dir_id, from_name);
        self.unlist(from_dir_id, id);
        let ghost placed = self@;
        let at: usize = self.place(to_dir_id);
        assert(placed.dir(to_dir_id).listing is Some) by {
            assert(free.is_open(to_dir_id));
        }
        self.dirs[at].names.insert(to_name.to_string(), id);
        match &mut self.dirs[at].listing {
            Some(ids) => {
                ids.push(id);
            },
            None => {},
        }
        proof {
            let want = next.moved(id, from_dir_id, from_name@, to_dir_id, to_name@);
            assert(self@.dirs =~= want.dirs);
            assert(self@.nodes =~= want.nodes);
            assert(self@ =~= want);
        }
        Ok(())
    }

    /// Sets the real size of a file.
    pub fn update_file_size(&mut self, id: u64, real_size: u64)
        requires
            old(self).wf(),
        ensures
            final(self).wf(),
            final(self)@ == old(self)@.resized(id, real_size),
    {
        if !self.has(id) {
            return ;
        }
        let ghost before = self@;
        let mut node = self.nodes[self.place(id)].clone();
        node.size = real_size;
        proof {
            assert(before.node_ok(id - 1));
            before.lemma_with_node(id, node@);
        }
        self.set_node(id, node);
    }

    /// Sets the name of the object that a node stands for.
    pub fn set_oid(&mut self, id: u64, oid: &str)
        requires
            old(self).wf(),
        ensures
            final(self).wf(),
            final(self)@ == old(self)@.with_oid(id, oid@),
    {
        if !self.has(id) {
            return ;
        }
        let ghost before = self@;
        let mut node = self.nodes[self.place(id)].clone();
        node.oid = oid.to_string();
        proof {
            assert(before.node_ok(id - 1));
            before.lemma_with_node(id, node@);
        }
        self.set_node(id, node);
    }

    /// The number of nodes that were made.
    pub fn node_count(&self) -> (n: usize)
        ensures
            n == self@.nodes.len(),
    {
        self.nodes.len()
    }

    /// All nodes that were not removed.
    pub fn all_active_nodes(&self) -> (list: Vec<VfsNode>)
        requires
            self.wf(),
        ensures
            node_views(list@) == active(self@.nodes),
    {
        let mut list: Vec<VfsNode> = Vec::new();
        let ghost all = self@.nodes;
        assert(all.take(0) =~= Seq::<NodeView>::empty());
        assert(node_views(list@) =~= Seq::<NodeView>::empty());
        let mut i: usize = 0;
        while i < self.nodes.len()
            invariant
                i <= self.nodes@.len() == all.len(),
                all == self@.nodes,
                node_views(list@) == active(all.take(i as int)),
            decreases self.nodes@.len() - i,
        {
            assert(all.take(i as int + 1).drop_last() =~= all.take(i as int));
            assert(all[i as int] == self.nodes@[i as int]@);
            if !self.nodes[i].is_deleted {
                let ghost before = list@;
                list.push(self.nodes[i].clone());
                assert(node_views(list@) =~= node_views(before).push(all[i as int]));
            }
            i += 1;
        }
        assert(all.take(i as int) =~= all);
        list
    }

    /// The path of a node, relative to the repository; nothing for the root.
    pub fn get_path(&self, node_id: u64) -> (r: Result<String, VfsError>)
        requires
            self.wf(),
        ensures
            match r {
                Ok(path) => self@.path_of(node_id) == Ok::<_, VfsError>(path@),
                Err(e) => self@.path_of(node_id) == Err::<Seq<char>, _>(e),
            },
    {
        let total: usize = self.nodes.len();
        let ghost whole = self@.path_parts(node_id, total as nat);
        let mut below: Vec<Vec<char>> = Vec::new();
        let ghost mut names: Seq<Seq<char>> = Seq::empty();
        let mut curr: u64 = node_id;
        let mut left: usize = total;
        assert(forall|p: Seq<Seq<char>>| #[trigger] (p + names) =~= p);
        while curr != ROOT_INODE
            invariant_except_break
                whole == (match self@.path_parts(curr, left as nat) {
                    Ok(p) => Ok(p + names),
                    Err(e) => Err(e),
                }),
            invariant
                self.wf(),
                left <= total,
                whole == self@.path_parts(node_id, self@.nodes.len()),
                names.len() == below@.len(),
                forall|i: int|
                    0 <= i < names.len() ==> #[trigger] names[i] == below@[names.len() - 1 - i]@,
            ensures
                whole == Ok::<_, VfsError>(names),
            decreases left,
        {
            if !self.has(curr) {
                return Err(VfsError::NodeNotFound(curr));
            }
            if left == 0 {
                return Err(VfsError::Detached(curr));
            }
            let node = &self.nodes[self.place(curr)];
            let ghost had = names;
            let ghost name = node.name@;
            below.push(text::chars_of(node.name.as_str()));
            proof {
                names = seq![name] + names;
                assert forall|i: int| 0 <= i < names.len() implies #[trigger] names[i]
                    == below@[names.len() - 1 - i]@ by {
                    if i > 0 {
                        assert(names[i] == had[i - 1]);
                    }
                }
                assert forall|p: Seq<Seq<char>>| #[trigger] (p + names) == p.push(name) + had by {
                    assert(p + names =~= p.push(name) + had);
                }
            }
            if node.parent_id == curr {
                assert(seq![name] + had =~= names);
                break;
            }
            curr = node.parent_id;
            left -= 1;
        }
        proof {
            assert(Seq::<Seq<char>>::empty() + names =~= names);
        }
        let mut parts: Vec<Vec<char>> = Vec::new();
        let mut i: usize = below.len();
        while i > 0
            invariant
                i <= below@.len() == names.len(),
                parts@.len() == names.len() - i,
                forall|j: int|
                    0 <= j < names.len() ==> #[trigger] names[j] == below@[names.len() - 1 - j]@,
                forall|j: int| 0 <= j < parts@.len() ==> (#[trigger] parts@[j])@ == names[j],
            decreases i,
        {
            i -= 1;
            let part = text::chars_range(below[i].as_slice(), 0, below[i].len());
            assert(part@ =~= below@[i as int]@);
            assert(names[names.len() - 1 - i] == below@[i as int]@);
            parts.push(part);
        }
        assert(text::views(parts@) =~= names);
        Ok(text::from_chars(text::join(&parts, "/")))
    }

    /// Looks a path up, relative to the repository.
    pub fn lookup_path(&mut self, path: &str) -> (r: Result<u64, VfsError>)
        requires
            old(self).wf(),
        ensures
            final(self).wf(),
            (final(self)@, r) == old(self)@.path_looked_up(path@),
    {
        let chars = text::chars_of(path);
        let clean = text::trim_slashes(&chars);
        if clean.len() == 0 {
            return Ok(ROOT_INODE);
        }
        let parts = text::split_at_char(clean.as_slice(), '/');
        let ghost all = text::views(parts@);
        let ghost whole = old(self)@.walked(ROOT_INODE, all);
        let mut curr: u64 = ROOT_INODE;
        let mut i: usize = 0;
        assert(all.skip(0) =~= all);
        while i < parts.len()
            invariant
                self.wf(),
                i <= parts@.len(),
                all == text::views(parts@),
                whole == self@.walked(curr, all.skip(i as int)),
                whole == old(self)@.path_looked_up(path@),
            decreases parts@.len() - i,
        {
            proof {
                assert(all.skip(i as int)[0] == parts@[i as int]@);
                assert(all.skip(i as int).drop_first() =~= all.skip(i as int + 1));
            }
            let part = text::chars_range(parts[i].as_slice(), 0, parts[i].len());
            assert(part@ =~= parts@[i as int]@);
            let name = text::from_chars(part);
            i += 1;
            if parts[i - 1].len() == 0 || text::equal(name.as_str(), ".") {
                continue;
            }
            match self.lookup(curr, name.as_str()) {
                Ok(id) => {
                    curr = id;
                },
                Err(e) => {
                    return Err(e);
                },
            }
        }
        Ok(curr)
    }

    /// Finds the directory of a path, and the name in it. Directories that are not there are
    /// created.
    pub fn ensure_parent_dirs(&mut self, path: &str) -> (r: Result<(u64, String), VfsError>)
        requires
            old(self).wf(),
        ensures
            final(self).wf(),
            final(self)@ == old(self)@.parent_ensured(path@).0,
            match r {
                Ok((dir, name)) => old(self)@.parent_ensured(path@).1 == Ok::<_, VfsError>(
                    (dir, name@),
                ),
                Err(e) => old(self)@.parent_ensured(path@).1 == Err::<(u64, Seq<char>), _>(e),
            },
    {
        let parts = names_of(path);
        let ghost all = path_names(path@);
        if parts.len() == 0 {
            return Err(VfsError::EmptyPath);
        }
        let last: usize = parts.len() - 1;
        let ghost dirs = all.drop_last();
        let ghost whole = old(self)@.dirs_ensured(ROOT_INODE, dirs);
        let mut curr: u64 = ROOT_INODE;
        let mut i: usize = 0;
        assert(dirs.skip(0) =~= dirs);
        while i < last
            invariant
                self.wf(),
                i <= last == parts@.len() - 1,
                all == crate::git::protocol::texts(parts@),
                dirs == all.drop_last(),
                whole == self@.dirs_ensured(curr, dirs.skip(i as int)),
                all == path_names(path@),
                whole == old(self)@.dirs_ensured(ROOT_INODE, dirs),
            decreases last - i,
        {
            proof {
                assert(dirs.skip(i as int)[0] == parts@[i as int]@);
                assert(dirs.skip(i as int).drop_first() =~= dirs.skip(i as int + 1));
            }
            match self.lookup(curr, parts[i].as_str()) {
                Ok(id) => {
                    curr = id;
                },
                Err(_) => match self.mkdir(curr, parts[i].as_str()) {
                    Ok(node) => {
                        curr = node.id;
                    },
                    Err(e) => {
                        return Err(e);
                    },
                },
            }
            i += 1;
        }
        assert(all.last() == parts@[last as int]@);
        Ok((curr, parts[last].clone()))
    }
}

/// The nodes that were not removed.
pub open spec fn active(nodes: Seq<NodeView>) -> Seq<NodeView>
    decreases nodes.len(),
{
    if nodes.len() == 0 {
        nodes
    } else if nodes.last().is_deleted {
        active(nodes.drop_last())
    } else {
        active(nodes.drop_last()).push(nodes.last())
    }
}

/// The names in a path.
fn names_of(path: &str) -> (names: Vec<String>)
    ensures
        crate::git::protocol::texts(names@) == path_names(path@),
        names@.len() == path_names(path@).len(),
{
    let chars = text::chars_of(path);
    let clean = text::trim_slashes(&chars);
    let parts = text::split_at_char(clean.as_slice(), '/');
    let ghost all = text::views(parts@);
    let mut names: Vec<String> = Vec::new();
    let mut i: usize = 0;
    assert(all.take(0) =~= Seq::<Seq<char>>::empty());
    assert(crate::git::protocol::texts(names@) =~= Seq::<Seq<char>>::empty());
    while i < parts.len()
        invariant
            i <= parts@.len(),
            all == text::views(parts@),
            crate::git::protocol::texts(names@) == text::nonempty(all.take(i as int)),
        decreases parts@.len() - i,
    {
        proof {
            assert(all.take(i as int + 1).drop_last() =~= all.take(i as int));
            assert(all.take(i as int + 1).last() == parts@[i as int]@);
        }
        if parts[i].len() > 0 {
            let ghost before = names@;
            let part = text::chars_range(parts[i].as_slice(), 0, parts[i].len());
            assert(part@ =~= parts@[i as int]@);
            names.push(text::from_chars(part));
            assert(crate::git::protocol::texts(names@) =~= crate::git::protocol::texts(
                before,
            ).push(part@));
        }
        i += 1;
    }
    assert(all.take(i as int) =~= all);
    names
}

} // verus!
