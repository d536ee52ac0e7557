//! Commits from edits: new blobs, the trees on the way to them, and the commit itself.

use std::cmp::Ordering;
use vstd::prelude::*;

use crate::bytes;
use crate::git::builder_laws;
use crate::git::hash;
use crate::git::pack;
use crate::git::pack::ObjectType;
use crate::git::tree;
use crate::git::tree::{TreeEntryMode, TreeItem};
use crate::maps::{NumMap, TextMap};
use crate::sorting;
use crate::staging::{StagingStore, StagingView};
use crate::text;
use crate::vfs::filter;
use crate::vfs::inode;
use crate::vfs::inode::{NodeView, VfsError, VfsManager, VfsNode, VfsView, ROOT_INODE};

verus! {

/// An object with its name, as it goes into a packfile.
#[verifier::ext_equal]
pub struct ToPack {
    pub oid: Seq<char>,
    pub obj_type: ObjectType,
    pub data: Seq<u8>,
}

#[derive(Debug)]
pub struct GitObjectToPack {
    pub oid: String,
    pub obj_type: ObjectType,
    pub data: Vec<u8>,
}

impl View for GitObjectToPack {
    type V = ToPack;

    open spec fn view(&self) -> ToPack {
        ToPack { oid: self.oid@, obj_type: self.obj_type, data: self.data@ }
    }
}

impl Clone for GitObjectToPack {
    fn clone(&self) -> (copy: Self)
        ensures
            copy@ == self@,
    {
        GitObjectToPack {
            oid: self.oid.clone(),
            obj_type: self.obj_type,
            data: bytes::copy(self.data.as_slice()),
        }
    }
}

/// Why a commit could not be built.
#[derive(Debug, Clone, Copy, PartialEq, Eq, Structural)]
pub enum BuildError {
    /// A directory could not be listed.
    Vfs(VfsError),
    /// The name of an object is not in hexadecimal.
    BadOid,
    /// Directories lie within one another more deeply than there are nodes.
    TooDeep,
}

// ---------------------------------------------------------------------------------------------
// The order of trees

/// What the entries of a tree are sorted by: the name, with a slash behind that of a directory.
pub open spec fn entry_key(name: Seq<char>, is_dir: bool) -> Seq<u8> {
    if is_dir {
        vstd::utf8::encode_utf8(name).push(47)
    } else {
        vstd::utf8::encode_utf8(name)
    }
}

fn entry_key_of(name: &str, is_dir: bool) -> (key: Vec<u8>)
    ensures
        key@ == entry_key(name@, is_dir),
{
    let mut key = text::bytes_of(name);
    if is_dir {
        key.push(47);
    }
    key
}

/// Compares two entries of a tree as Git sorts them: directories as if their names had a slash
/// behind them.
pub fn compare_tree_entries(name_a: &str, is_dir_a: bool, name_b: &str, is_dir_b: bool) -> (r:
    Ordering)
    ensures
        ({
            let a = entry_key(name_a@, is_dir_a);
            let b = entry_key(name_b@, is_dir_b);
            match r {
                Ordering::Less => sorting::lex_le(a, b) && a != b,
                Ordering::Equal => a == b,
                Ordering::Greater => sorting::lex_le(b, a) && a != b,
            }
        }),
{
    let a = entry_key_of(name_a, is_dir_a);
    let b = entry_key_of(name_b, is_dir_b);
    proof {
        sorting::lemma_lex_order(a@, b@, a@);
    }
    if bytes::equal(a.as_slice(), b.as_slice()) {
        Ordering::Equal
    } else if sorting::bytes_le(a.as_slice(), b.as_slice()) {
        Ordering::Less
    } else {
        Ordering::Greater
    }
}

/// What nodes are sorted by in a tree.
pub open spec fn node_keys(nodes: Seq<NodeView>) -> Seq<Seq<u8>> {
    nodes.map_values(|n: NodeView| entry_key(n.name, n.is_dir))
}

/// Nodes in the order of a tree.
pub open spec fn in_tree_order(nodes: Seq<NodeView>) -> Seq<NodeView> {
    let order = sorting::lex_sorting(node_keys(nodes));
    Seq::new(order.len(), |i: int| nodes[order[i]])
}

// ---------------------------------------------------------------------------------------------
// What a commit is built from

/// The tree of nodes, and the objects that were built so far: by name, and in their order.
#[verifier::ext_equal]
pub struct BuildView {
    pub vfs: VfsView,
    pub objects: Map<Seq<char>, ToPack>,
    pub oids: Seq<Seq<char>>,
}

impl BuildView {
    /// With an object.
    pub open spec fn with(self, object: ToPack) -> BuildView {
        BuildView {
            objects: self.objects.insert(object.oid, object),
            oids: if self.objects.contains_key(object.oid) {
                self.oids
            } else {
                self.oids.push(object.oid)
            },
            ..self
        }
    }

    /// With the tree of nodes in another state.
    pub open spec fn with_vfs(self, vfs: VfsView) -> BuildView {
        BuildView { vfs, ..self }
    }

    /// With the blob of a file that was written: the file's node stands for the blob from now
    /// on. Files of macOS metadata and those that were removed make none.
    pub open spec fn with_staged(self, staging: StagingView, id: u64) -> BuildView {
        if self.vfs.is_live(id) && !filter::apple_metadata(self.vfs.node(id).name)
            && staging.staged.contains_key(id) {
            let data = staging.staged[id];
            let oid = pack::git_sha1(ObjectType::Blob, data);
            self.with_vfs(self.vfs.with_oid(id, oid)).with(
                ToPack { oid, obj_type: ObjectType::Blob, data },
            )
        } else {
            self
        }
    }

    /// With the blobs of all files that were written.
    pub open spec fn with_all_staged(self, staging: StagingView, ids: Seq<u64>) -> BuildView
        decreases ids.len(),
    {
        if ids.len() == 0 {
            self
        } else {
            self.with_all_staged(staging, ids.drop_last()).with_staged(staging, ids.last())
        }
    }

    /// The objects, in their order.
    pub open spec fn list(self) -> Seq<ToPack> {
        self.oids.map_values(|oid: Seq<char>| self.objects[oid])
    }
}

/// With the directories above a node marked, and the node itself where it is a directory, in at
/// most `left` steps.
pub open spec fn marked_above(v: VfsView, id: u64, left: nat, dirty: Map<u64, bool>) -> Map<
    u64,
    bool,
>
    decreases left,
{
    if left == 0 || !v.is_live(id) {
        dirty
    } else {
        let node = v.node(id);
        let here = if node.is_dir {
            dirty.insert(id, true)
        } else {
            dirty
        };
        let up = here.insert(node.parent, true);
        if node.parent == ROOT_INODE || node.parent == id {
            up
        } else {
            marked_above(v, node.parent, (left - 1) as nat, up)
        }
    }
}

/// With the directories above the nodes marked. A node that was removed is no longer there, but
/// its directory is.
pub open spec fn marked_all(v: VfsView, ids: Seq<u64>, dirty: Map<u64, bool>) -> Map<u64, bool>
    decreases ids.len(),
{
    if ids.len() == 0 {
        dirty
    } else {
        let before = marked_all(v, ids.drop_last(), dirty);
        let id = ids.last();
        if v.has(id) && v.node(id).is_deleted {
            marked_above(v, v.node(id).parent, v.nodes.len(), before)
        } else {
            marked_above(v, id, v.nodes.len(), before)
        }
    }
}

/// The directories whose trees have to be built anew: the root, those above all nodes that were
/// written or removed, and those that something was moved out of, or into.
pub open spec fn dirty_dirs(v: VfsView, s: StagingView) -> Map<u64, bool> {
    marked_all(
        v,
        s.staged_ids + s.deleted + s.touched,
        Map::empty().insert(ROOT_INODE, true),
    )
}

/// The children that go into a tree: neither macOS metadata nor removed.
pub open spec fn committed(nodes: Seq<NodeView>, deleted: Seq<u64>) -> Seq<NodeView>
    decreases nodes.len(),
{
    if nodes.len() == 0 {
        nodes
    } else {
        let before = committed(nodes.drop_last(), deleted);
        let node = nodes.last();
        if filter::apple_metadata(node.name) || deleted.contains(node.id) {
            before
        } else {
            before.push(node)
        }
    }
}

/// The entries of a directory's tree: those so far with those of the children from the `i`-th
/// on. Directories that are dirty are built first; a child that stands for no object is left
/// out.
pub open spec fn children_built(
    st: BuildView,
    staging: StagingView,
    dirty: Map<u64, bool>,
    children: Seq<NodeView>,
    i: int,
    items: Seq<TreeItem>,
    left: nat,
) -> (BuildView, Result<Seq<TreeItem>, BuildError>)
    decreases left, 0nat, children.len() - i,
{
    if i >= children.len() {
        (st, Ok(items))
    } else {
        let child = children[i];
        let (next, oid) = if child.is_dir && dirty.contains_key(child.id) {
            if left == 0 {
                (st, Err(BuildError::TooDeep))
            } else {
                dir_built(st, staging, dirty, child.id, (left - 1) as nat)
            }
        } else {
            (st, Ok(child.oid))
        };
        match oid {
            Err(e) => (next, Err(e)),
            Ok(oid) => if oid.len() == 0 {
                children_built(next, staging, dirty, children, i + 1, items, left)
            } else if hash::hex_decoded(oid) is None {
                (next, Err(BuildError::BadOid))
            } else {
                let item = TreeItem { mode: child.mode, name: child.name, oid };
                children_built(next, staging, dirty, children, i + 1, items.push(item), left)
            },
        }
    }
}

/// The entries of a directory's tree.
pub open spec fn entries_built(
    st: BuildView,
    staging: StagingView,
    dirty: Map<u64, bool>,
    dir: u64,
    left: nat,
) -> (BuildView, Result<Seq<TreeItem>, BuildError>)
    decreases left, 1nat, 0int,
{
    match st.vfs.opened(dir) {
        Err(e) => (st, Err(BuildError::Vfs(e))),
        Ok(vfs) => children_built(
            st.with_vfs(vfs),
            staging,
            dirty,
            in_tree_order(committed(vfs.listed(dir), staging.deleted)),
            0,
            Seq::empty(),
            left,
        ),
    }
}

/// The name of a tree.
pub open spec fn tree_oid(items: Seq<TreeItem>) -> Seq<char> {
    pack::git_sha1(ObjectType::Tree, tree::tree_bytes(items)->0)
}

/// The name of a directory's tree. The tree is added to the objects, unless the repository has
/// it.
pub open spec fn dir_built(
    st: BuildView,
    staging: StagingView,
    dirty: Map<u64, bool>,
    dir: u64,
    left: nat,
) -> (BuildView, Result<Seq<char>, BuildError>)
    decreases left, 2nat, 0int,
{
    match entries_built(st, staging, dirty, dir, left) {
        (next, Err(e)) => (next, Err(e)),
        (next, Ok(items)) => {
            let oid = tree_oid(items);
            (
                if next.vfs.engine.trees.contains_key(oid) {
                    next
                } else {
                    next.with(
                        ToPack {
                            oid,
                            obj_type: ObjectType::Tree,
                            data: tree::tree_bytes(items)->0,
                        },
                    )
                },
                Ok(oid),
            )
        },
    }
}

/// The text of a commit.
pub open spec fn commit_text(
    root_tree: Seq<char>,
    base_commit: Seq<char>,
    author: Seq<char>,
    message: Seq<char>,
    timestamp: u64,
) -> Seq<char> {
    let time = text::numeral(timestamp as nat, 10);
    "tree "@ + root_tree + "\nparent "@ + base_commit + "\nauthor "@ + author + " "@ + time
        + " +0000\ncommitter "@ + author + " "@ + time + " +0000\n\n"@ + message + "\n"@
}

/// A commit that was built.
#[verifier::ext_equal]
pub struct CommitView {
    pub commit_oid: Seq<char>,
    pub root_tree_oid: Seq<char>,
    pub objects: Seq<ToPack>,
}

/// The commit for edits, on top of another commit.
pub open spec fn commit_built(
    v: VfsView,
    s: StagingView,
    base_commit: Seq<char>,
    author: Seq<char>,
    message: Seq<char>,
    timestamp: u64,
) -> (VfsView, Result<CommitView, BuildError>) {
    let start = BuildView { vfs: v, objects: Map::empty(), oids: Seq::empty() };
    let staged = start.with_all_staged(s, s.staged_ids);
    let dirty = dirty_dirs(staged.vfs, s);
    match dir_built(staged, s, dirty, ROOT_INODE, staged.vfs.nodes.len()) {
        (next, Err(e)) => (next.vfs, Err(e)),
        (next, Ok(root)) => {
            let data = vstd::utf8::encode_utf8(
                commit_text(root, base_commit, author, message, timestamp),
            );
            let oid = pack::git_sha1(ObjectType::Commit, data);
            (
                next.vfs,
                Ok(
                    CommitView {
                        commit_oid: oid,
                        root_tree_oid: root,
                        objects: next.with(
                            ToPack { oid, obj_type: ObjectType::Commit, data },
                        ).list(),
                    },
                ),
            )
        },
    }
}

// ---------------------------------------------------------------------------------------------
// Building

/// Whether an object has the name that its type and its bytes give it.
pub open spec fn is_named(object: ToPack) -> bool {
    &&& object.oid == pack::git_sha1(object.obj_type, object.data)
    &&& object.oid.len() == 40
    &&& object.obj_type.is_base()
}

/// Whether all objects have the names that they are found under.
spec fn all_named(objects: Map<Seq<char>, ToPack>) -> bool {
    forall|oid: Seq<char>| #[trigger]
        objects.contains_key(oid) ==> objects[oid].oid == oid && is_named(objects[oid])
}

/// The state of a build.
spec fn state(vfs: VfsView, objects: TextMap<GitObjectToPack>) -> BuildView {
    BuildView { vfs, objects: objects@, oids: objects.keys() }
}

fn put_object(objects: &mut TextMap<GitObjectToPack>, object: GitObjectToPack, Ghost(vfs): Ghost<
    VfsView,
>)
    requires
        old(objects).wf(),
        all_named(old(objects)@),
        is_named(object@),
    ensures
        final(objects).wf(),
        all_named(final(objects)@),
        state(vfs, *final(objects)) == state(vfs, *old(objects)).with(object@),
{
    let ghost o = object@;
    objects.insert(object.oid.clone(), object);
    assert(state(vfs, *objects) =~= state(vfs, *old(objects)).with(o));
}

fn build_blobs(
    vfs: &mut VfsManager,
    staging: &StagingStore,
    ids: &Vec<u64>,
    objects: &mut TextMap<GitObjectToPack>,
)
    requires
        old(vfs).wf(),
        old(objects).wf(),
        all_named(old(objects)@),
    ensures
        final(vfs).wf(),
        final(objects).wf(),
        all_named(final(objects)@),
        state(final(vfs)@, *final(objects)) == state(old(vfs)@, *old(objects)).with_all_staged(
            staging@,
            ids@,
        ),
{
    let ghost start = state(vfs@, *objects);
    let mut i: usize = 0;
    assert(ids@.take(0) =~= Seq::<u64>::empty());
    while i < ids.len()
        invariant
            vfs.wf(),
            objects.wf(),
            all_named(objects@),
            i <= ids@.len(),
            start == state(old(vfs)@, *old(objects)),
            state(vfs@, *objects) == start.with_all_staged(staging@, ids@.take(i as int)),
        decreases ids@.len() - i,
    {
        let id: u64 = ids[i];
        assert(ids@.take(i as int + 1).drop_last() =~= ids@.take(i as int));
        let ghost before = state(vfs@, *objects);
        match vfs.get_node(id) {
            Some(node) => {
                if !filter::is_apple_metadata(node.name.as_str()) {
                    match staging.get_staged_content(id) {
                        Some(data) => {
                            let oid = pack::compute_git_sha1(ObjectType::Blob, data.as_slice());
                            vfs.set_oid(id, oid.as_str());
                            let ghost now = vfs@;
                            put_object(
                                objects,
                                GitObjectToPack { oid, obj_type: ObjectType::Blob, data },
                                Ghost(now),
                            );
                            assert(state(vfs@, *objects) =~= before.with_staged(staging@, id));
                        },
                        None => {},
                    }
                }
            },
            None => {},
        }
        i += 1;
    }
    assert(ids@.take(i as int) =~= ids@);
}

fn mark_above(vfs: &VfsManager, start: u64, dirty: &mut NumMap<bool>)
    requires
        vfs.wf(),
    ensures
        final(dirty)@ == marked_above(vfs@, start, vfs@.nodes.len(), old(dirty)@),
{
    let mut curr: u64 = start;
    let mut left: usize = vfs.node_count();
    while left > 0
        invariant
            vfs.wf(),
            marked_above(vfs@, curr, left as nat, dirty@) == marked_above(
                vfs@,
                start,
                vfs@.nodes.len(),
                old(dirty)@,
            ),
        decreases left,
    {
        let node = match vfs.get_node(curr) {
            Some(n) => n,
            None => {
                return ;
            },
        };
        proof {
            vfs.lemma_wf();
            assert(vfs@.node_ok(curr - 1));
        }
        if node.is_dir {
            dirty.insert(node.id, true);
        }
        dirty.insert(node.parent_id, true);
        if node.parent_id == ROOT_INODE || node.parent_id == curr {
            return ;
        }
        curr = node.parent_id;
        left -= 1;
    }
}

fn mark_all(vfs: &VfsManager, ids: &Vec<u64>, dirty: &mut NumMap<bool>)
    requires
        vfs.wf(),
    ensures
        final(dirty)@ == marked_all(vfs@, ids@, old(dirty)@),
{
    let mut i: usize = 0;
    assert(ids@.take(0) =~= Seq::<u64>::empty());
    while i < ids.len()
        invariant
            vfs.wf(),
            i <= ids@.len(),
            dirty@ == marked_all(vfs@, ids@.take(i as int), old(dirty)@),
        decreases ids@.len() - i,
    {
        assert(ids@.take(i as int + 1).drop_last() =~= ids@.take(i as int));
        match vfs.removed_from(ids[i]) {
            Some(parent) => {
                mark_above(vfs, parent, dirty);
            },
            None => {
                mark_above(vfs, ids[i], dirty);
            },
        }
        i += 1;
    }
    assert(ids@.take(i as int) =~= ids@);
}

fn filter_children(children: &Vec<VfsNode>, staging: &StagingStore) -> (kept: Vec<VfsNode>)
    requires
        staging.wf(),
    ensures
        inode::node_views(kept@) == committed(inode::node_views(children@), staging@.deleted),
{
    let ghost all = inode::node_views(children@);
    let mut kept: Vec<VfsNode> = Vec::new();
    let mut i: usize = 0;
    assert(all.take(0) =~= Seq::<NodeView>::empty());
    assert(inode::node_views(kept@) =~= Seq::<NodeView>::empty());
    while i < children.len()
        invariant
            staging.wf(),
            i <= children@.len(),
            all == inode::node_views(children@),
            inode::node_views(kept@) == committed(all.take(i as int), staging@.deleted),
        decreases children@.len() - i,
    {
        let child = &children[i];
        assert(all.take(i as int + 1).drop_last() =~= all.take(i as int));
        assert(all.take(i as int + 1).last() == child@);
        if !filter::is_apple_metadata(child.name.as_str()) && !staging.is_deleted(child.id) {
            let ghost before = kept@;
            kept.push(child.clone());
            assert(inode::node_views(kept@) =~= inode::node_views(before).push(child@));
        }
        i += 1;
    }
    assert(all.take(i as int) =~= all);
    kept
}

fn sort_children(children: &Vec<VfsNode>) -> (sorted: Vec<VfsNode>)
    ensures
        inode::node_views(sorted@) == in_tree_order(inode::node_views(children@)),
{
    let ghost all = inode::node_views(children@);
    let mut keys: Vec<Vec<u8>> = Vec::new();
    let mut i: usize = 0;
    while i < children.len()
        invariant
            i <= children@.len(),
            all == inode::node_views(children@),
            keys@.len() == i,
            forall|j: int|
                0 <= j < i ==> (#[trigger] keys@[j])@ == entry_key(all[j].name, all[j].is_dir),
        decreases children@.len() - i,
    {
        keys.push(entry_key_of(children[i].name.as_str(), children[i].is_dir));
        i += 1;
    }
    assert(sorting::key_views(keys@) =~= node_keys(all));
    let order = sorting::sort_bytes(&keys);
    let ghost places = sorting::places(order@);
    assert forall|j: int| 0 <= j < order@.len() implies 0 <= #[trigger] order@[j]
        < children@.len() by {
        assert(places[j] == order@[j]);
    }
    let mut sorted: Vec<VfsNode> = Vec::new();
    i = 0;
    while i < order.len()
        invariant
            i <= order@.len(),
            all == inode::node_views(children@),
            forall|j: int| 0 <= j < order@.len() ==> 0 <= #[trigger] order@[j] < children@.len(),
            sorted@.len() == i,
            forall|j: int| 0 <= j < i ==> (#[trigger] sorted@[j])@ == all[order@[j] as int],
        decreases order@.len() - i,
    {
        sorted.push(children[order[i]].clone());
        i += 1;
    }
    assert(inode::node_views(sorted@) =~= in_tree_order(all));
    sorted
}

fn push_entry(raw: &mut Vec<u8>, mode: TreeEntryMode, name: &str, sha: &Vec<u8>, Ghost(oid): Ghost<
    Seq<char>,
>)
    ensures
        final(raw)@ == old(raw)@ + tree::item_prefix(TreeItem { mode, name: name@, oid }) + sha@,
{
    let mut head = text::chars_of(mode.mode_str().as_str());
    head.push(' ');
    text::push_str(&mut head, name);
    head.push('\0');
    assert(head@ =~= mode.text() + seq![' '] + name@ + seq!['\0']);
    let head_bytes = text::bytes_of(text::from_chars(head).as_str());
    bytes::append(raw, head_bytes.as_slice());
    bytes::append(raw, sha.as_slice());
}

/// Builds the tree of a directory, and those of the dirty directories in it.
fn rebuild_tree_recursive(
    dir_id: u64,
    vfs: &mut VfsManager,
    staging: &StagingStore,
    dirty: &NumMap<bool>,
    objects: &mut TextMap<GitObjectToPack>,
    left: usize,
) -> (r: Result<String, BuildError>)
    requires
        old(vfs).wf(),
        old(objects).wf(),
        all_named(old(objects)@),
        staging.wf(),
    ensures
        final(vfs).wf(),
        final(objects).wf(),
        all_named(final(objects)@),
        ({
            let (next, oid) = dir_built(
                state(old(vfs)@, *old(objects)),
                staging@,
                dirty@,
                dir_id,
                left as nat,
            );
            &&& state(final(vfs)@, *final(objects)) == next
            &&& match r {
                Ok(s) => oid == Ok::<_, BuildError>(s@),
                Err(e) => oid == Err::<Seq<char>, _>(e),
            }
        }),
    decreases left,
{
    let ghost start = state(vfs@, *objects);
    let listed = match vfs.list_dir(dir_id) {
        Ok(l) => l,
        Err(e) => {
            return Err(BuildError::Vfs(e));
        },
    };
    let children = sort_children(&filter_children(&listed, staging));
    let ghost nodes = inode::node_views(children@);
    let ghost first = start.with_vfs(vfs@);
    let ghost whole = children_built(
        first,
        staging@,
        dirty@,
        nodes,
        0,
        Seq::empty(),
        left as nat,
    );
    let ghost result = dir_built(start, staging@, dirty@, dir_id, left as nat);
    let mut raw: Vec<u8> = Vec::new();
    let ghost mut items: Seq<TreeItem> = Seq::empty();
    let mut i: usize = 0;
    assert(state(vfs@, *objects) =~= first);
    assert(tree::tree_bytes(items) == Some(raw@));
    while i < children.len()
        invariant
            vfs.wf(),
            objects.wf(),
            all_named(objects@),
            staging.wf(),
            i <= children@.len(),
            nodes == inode::node_views(children@),
            tree::tree_bytes(items) == Some(raw@),
            whole == children_built(
                state(vfs@, *objects),
                staging@,
                dirty@,
                nodes,
                i as int,
                items,
                left as nat,
            ),
            result == dir_built(
                state(old(vfs)@, *old(objects)),
                staging@,
                dirty@,
                dir_id,
                left as nat,
            ),
            whole.1 matches Err(e) ==> result == (whole.0, Err::<Seq<char>, _>(e)),
        decreases children@.len() - i,
    {
        let child = &children[i];
        assert(nodes[i as int] == child@);
        let oid: String = if child.is_dir && dirty.contains_key(child.id) {
            if left == 0 {
                return Err(BuildError::TooDeep);
            }
            match rebuild_tree_recursive(child.id, vfs, staging, dirty, objects, left - 1) {
                Ok(oid) => oid,
                Err(e) => {
                    return Err(e);
                },
            }
        } else {
            child.oid.clone()
        };
        if text::chars_of(oid.as_str()).len() > 0 {
            let sha = match hash::hex_decode(oid.as_str()) {
                Some(b) => b,
                None => {
                    return Err(BuildError::BadOid);
                },
            };
            push_entry(&mut raw, child.mode, child.name.as_str(), &sha, Ghost(oid@));
            proof {
                let item = TreeItem { mode: child.mode, name: child.name@, oid: oid@ };
                assert(items.push(item).drop_last() =~= items);
                items = items.push(item);
            }
        }
        i += 1;
    }
    let oid = pack::compute_git_sha1(ObjectType::Tree, raw.as_slice());
    let known = vfs.git_engine().get_tree(oid.as_str()).is_some();
    if !known {
        let ghost now = vfs@;
        put_object(
            objects,
            GitObjectToPack { oid: oid.clone(), obj_type: ObjectType::Tree, data: raw },
            Ghost(now),
        );
    }
    Ok(oid)
}

/// A commit that was built: its name, that of its root tree, and its new objects.
#[derive(Debug)]
pub struct RebuiltCommit {
    pub commit_oid: String,
    pub root_tree_oid: String,
    pub objects: Vec<GitObjectToPack>,
}

impl View for RebuiltCommit {
    type V = CommitView;

    open spec fn view(&self) -> CommitView {
        CommitView {
            commit_oid: self.commit_oid@,
            root_tree_oid: self.root_tree_oid@,
            objects: crate::git::pack_writer::objects_view(self.objects@),
        }
    }
}

fn commit_bytes(
    root_tree: &str,
    base_commit: &str,
    author: &str,
    message: &str,
    timestamp: u64,
) -> (data: Vec<u8>)
    ensures
        data@ == vstd::utf8::encode_utf8(
            commit_text(root_tree@, base_commit@, author@, message@, timestamp),
        ),
{
    let mut out = text::chars_of("tree ");
    text::push_str(&mut out, root_tree);
    text::push_str(&mut out, "\nparent ");
    text::push_str(&mut out, base_commit);
    text::push_str(&mut out, "\nauthor ");
    text::push_str(&mut out, author);
    text::push_str(&mut out, " ");
    text::push_numeral(&mut out, timestamp, 10);
    text::push_str(&mut out, " +0000\ncommitter ");
    text::push_str(&mut out, author);
    text::push_str(&mut out, " ");
    text::push_numeral(&mut out, timestamp, 10);
    text::push_str(&mut out, " +0000\n\n");
    text::push_str(&mut out, message);
    text::push_str(&mut out, "\n");
    text::bytes_of(text::from_chars(out).as_str())
}

fn object_list(objects: &TextMap<GitObjectToPack>, Ghost(vfs): Ghost<VfsView>) -> (list: Vec<
    GitObjectToPack,
>)
    requires
        objects.wf(),
        all_named(objects@),
    ensures
        crate::git::pack_writer::objects_view(list@) == state(vfs, *objects).list(),
        list@.len() == objects.keys().len(),
        forall|i: int| 0 <= i < list@.len() ==> is_named((#[trigger] list@[i])@),
{
    let mut list: Vec<GitObjectToPack> = Vec::new();
    let mut i: usize = 0;
    while i < objects.len()
        invariant
            objects.wf(),
            all_named(objects@),
            i <= objects.keys().len(),
            list@.len() == i,
            forall|j: int| 0 <= j < i ==> is_named((#[trigger] list@[j])@),
            forall|j: int|
                0 <= j < i ==> (#[trigger] list@[j])@ == objects@[objects.keys()[j]],
        decreases objects.keys().len() - i,
    {
        list.push(objects.value_at(i).clone());
        i += 1;
    }
    assert(crate::git::pack_writer::objects_view(list@) =~= state(vfs, *objects).list());
    list
}

/// Builds a commit from the edits, on top of a base commit, with the time in seconds. Its objects
/// are only the new ones: blobs, trees that changed and the commit. Trees that the repository
/// has, or that lie beside all edits, are not among them.
pub fn rebuild_commit(
    vfs: &mut VfsManager,
    staging: &StagingStore,
    base_commit_oid: &str,
    author: &str,
    commit_message: &str,
    timestamp: u64,
) -> (r: Result<RebuiltCommit, BuildError>)
    requires
        old(vfs).wf(),
        staging.wf(),
    ensures
        final(vfs).wf(),
        ({
            let (next, built) = commit_built(
                old(vfs)@,
                staging@,
                base_commit_oid@,
                author@,
                commit_message@,
                timestamp,
            );
            &&& final(vfs)@ == next
            &&& match r {
                Ok(c) => built == Ok::<_, BuildError>(c@),
                Err(e) => built == Err::<CommitView, _>(e),
            }
        }),
        r matches Ok(c) ==> forall|i: int|
            0 <= i < c.objects@.len() ==> is_named((#[trigger] c.objects@[i])@),
        r matches Err(e) ==> e != BuildError::TooDeep,
{
    let mut objects: TextMap<GitObjectToPack> = TextMap::new();
    let ghost start = BuildView { vfs: vfs@, objects: Map::empty(), oids: Seq::empty() };
    assert(state(vfs@, objects) =~= start);
    let staged = staging.list_staged_nodes();
    build_blobs(vfs, staging, &staged, &mut objects);
    let mut touched = staged;
    let mut deleted = staging.list_deleted_nodes();
    touched.append(&mut deleted);
    let mut dirs = staging.list_touched_dirs();
    touched.append(&mut dirs);
    let mut dirty: NumMap<bool> = NumMap::new();
    dirty.insert(ROOT_INODE, true);
    mark_all(vfs, &touched, &mut dirty);
    let left: usize = vfs.node_count();
    let root = match rebuild_tree_recursive(
        ROOT_INODE,
        vfs,
        staging,
        &dirty,
        &mut objects,
        left,
    ) {
        Ok(oid) => oid,
        Err(e) => {
            proof {
                old(vfs).lemma_wf();
                vfs.lemma_wf();
                builder_laws::lemma_never_too_deep(
                    old(vfs)@,
                    staging@,
                    base_commit_oid@,
                    author@,
                    commit_message@,
                    timestamp,
                );
            }
            return Err(e);
        },
    };
    let data = commit_bytes(root.as_str(), base_commit_oid, author, commit_message, timestamp);
    let commit_oid = pack::compute_git_sha1(ObjectType::Commit, data.as_slice());
    let ghost now = vfs@;
    put_object(
        &mut objects,
        GitObjectToPack { oid: commit_oid.clone(), obj_type: ObjectType::Commit, data },
        Ghost(now),
    );
    let list = object_list(&objects, Ghost(now));
    Ok(RebuiltCommit { commit_oid, root_tree_oid: root, objects: list })
}

/// Builds a commit from the edits, and gives its name and its new objects.
pub fn rebuild_git_objects(
    vfs: &mut VfsManager,
    staging: &StagingStore,
    base_commit_oid: &str,
    author: &str,
    commit_message: &str,
    timestamp: u64,
) -> (r: Result<(String, Vec<GitObjectToPack>), BuildError>)
    requires
        old(vfs).wf(),
        staging.wf(),
    ensures
        final(vfs).wf(),
        ({
            let (next, built) = commit_built(
                old(vfs)@,
                staging@,
                base_commit_oid@,
                author@,
                commit_message@,
                timestamp,
            );
            &&& final(vfs)@ == next
            &&& match r {
                Ok((oid, objects)) => built matches Ok(c) && c.commit_oid == oid@ && c.objects
                    == crate::git::pack_writer::objects_view(objects@),
                Err(e) => built == Err::<CommitView, _>(e),
            }
        }),
        r matches Ok((_, objects)) ==> forall|i: int|
            0 <= i < objects@.len() ==> is_named((#[trigger] objects@[i])@),
        r matches Err(e) ==> e != BuildError::TooDeep,
{
    match rebuild_commit(vfs, staging, base_commit_oid, author, commit_message, timestamp) {
        Ok(c) => Ok((c.commit_oid, c.objects)),
        Err(e) => Err(e),
    }
}

} // verus!
