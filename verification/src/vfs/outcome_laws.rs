//! When an edit of the directory tree succeeds, what it changes, and what it leaves alone.

use vstd::prelude::*;

use crate::git::tree::TreeEntryMode;
use crate::vfs::inode;
use crate::vfs::inode::{NodeView, VfsError, VfsView};
use crate::vfs::laws;

verus! {

/// Whether one tree has the nodes of another, but for some.
pub open spec fn same_but(a: VfsView, b: VfsView, x: u64, y: u64) -> bool {
    forall|id: u64|
        a.has(id) && id != x && id != y ==> b.has(id) && #[trigger] b.node(id) == a.node(id)
}

/// A directory can be looked at, and nothing else.
pub proof fn lemma_opened(v: VfsView, dir: u64)
    requires
        v.wf(),
    ensures
        v.opened(dir) is Ok <==> v.has(dir) && v.node(dir).is_dir,
        !v.has(dir) ==> v.opened(dir) == Err::<VfsView, _>(VfsError::NodeNotFound(dir)),
        v.has(dir) && !v.node(dir).is_dir ==> v.opened(dir) == Err::<VfsView, _>(
            VfsError::NotADirectory(dir),
        ),
{
    if v.is_open(dir) {
        assert(v.dir_ok(dir - 1));
    }
}

/// A file can be created in any directory, under any name. Where a child has the name, it is that
/// one, and it is emptied: it keeps its mode, its object and its place. Otherwise it is a new node
/// with the mode that was asked for. No other node changes.
pub proof fn lemma_created(v: VfsView, dir: u64, name: Seq<char>, mode: TreeEntryMode)
    requires
        v.wf(),
        v.opened(dir) matches Ok(next) ==> next.nodes.len() < u64::MAX,
    ensures
        v.opened(dir) matches Err(e) ==> v.created(dir, name, mode) == (v, Err::<u64, _>(e)),
        v.opened(dir) matches Ok(next) ==> {
            let (after, r) = v.created(dir, name, mode);
            &&& r matches Ok(id) && same_but(next, after, id, id) && after.is_live(id) && after.node(
                id,
            ).size == 0 && {
                match next.child(dir, name) {
                    Some(old) => {
                        &&& id == old
                        &&& after.nodes.len() == next.nodes.len()
                        &&& after.node(id) == (NodeView { size: 0, ..next.node(id) })
                    },
                    None => {
                        &&& !next.has(id)
                        &&& after.nodes.len() == next.nodes.len() + 1
                        &&& after.node(id).name == name
                        &&& after.node(id).parent == dir
                        &&& after.node(id).mode == mode
                        &&& !after.node(id).is_dir
                        &&& after.node(id).oid.len() == 0
                    },
                }
            }
        },
{
    laws::lemma_opened_once(v, dir);
    match v.opened(dir) {
        Ok(next) => {
            assert(next.name_ok(dir - 1, name));
        },
        Err(_) => {},
    }
}

/// A directory can be created in any directory, under any name. It is a new node, and no other
/// changes.
pub proof fn lemma_made_dir(v: VfsView, dir: u64, name: Seq<char>)
    requires
        v.wf(),
        v.opened(dir) matches Ok(next) ==> next.nodes.len() < u64::MAX,
    ensures
        v.opened(dir) matches Err(e) ==> v.made_dir(dir, name) == (v, Err::<u64, _>(e)),
        v.opened(dir) matches Ok(next) ==> {
            let (after, r) = v.made_dir(dir, name);
            &&& r matches Ok(id) && {
                &&& same_but(next, after, id, id)
                &&& !next.has(id)
                &&& after.is_live(id)
                &&& after.nodes.len() == next.nodes.len() + 1
                &&& after.node(id).name == name
                &&& after.node(id).parent == dir
                &&& after.node(id).mode == TreeEntryMode::Directory
                &&& after.node(id).is_dir
                &&& after.node(id).oid.len() == 0
            }
        },
{
    laws::lemma_opened_once(v, dir);
}

/// A child can be removed, whatever it is, and only a child can. No other node changes, and no
/// other name leads elsewhere than before.
pub proof fn lemma_removed(v: VfsView, dir: u64, name: Seq<char>, other: Seq<char>)
    requires
        v.wf(),
        v.opened(dir) matches Ok(next) ==> next.nodes.len() <= u64::MAX,
    ensures
        v.opened(dir) matches Err(e) ==> v.removed(dir, name) == (v, Err::<u64, _>(e)),
        v.opened(dir) matches Ok(next) ==> {
            let (after, r) = v.removed(dir, name);
            match next.child(dir, name) {
                None => r == Err::<u64, _>(VfsError::ChildNotFound) && after == next,
                Some(id) => {
                    &&& r == Ok::<_, VfsError>(id)
                    &&& !after.is_live(id)
                    &&& after.nodes.len() == next.nodes.len()
                    &&& same_but(next, after, id, id)
                    &&& other != name ==> after.child(dir, other) == next.child(dir, other)
                    &&& forall|x: u64| #[trigger]
                        after.listing(dir).contains(x) <==> next.listing(dir).contains(x) && x != id
                },
            }
        },
{
    laws::lemma_opened_once(v, dir);
    match v.opened(dir) {
        Ok(next) => {
            assert(next.name_ok(dir - 1, name));
            match next.child(dir, name) {
                Some(id) => {
                    inode::lemma_without(next.listing(dir), id);
                },
                None => {},
            }
        },
        Err(_) => {},
    }
}

/// A child can be renamed to any name in any directory, and only a child can. It is the same node,
/// with its new name and directory; what had that place is removed; and no other node changes.
pub proof fn lemma_renamed(
    v: VfsView,
    from_dir: u64,
    from_name: Seq<char>,
    to_dir: u64,
    to_name: Seq<char>,
)
    requires
        v.wf(),
        v.opened(from_dir) matches Ok(first) ==> first.nodes.len() <= u64::MAX && (first.opened(
            to_dir,
        ) matches Ok(next) ==> next.nodes.len() <= u64::MAX),
    ensures
        v.opened(from_dir) matches Err(e) ==> v.renamed(from_dir, from_name, to_dir, to_name) == (
            v,
            Err::<(), _>(e),
        ),
        v.opened(from_dir) matches Ok(first) ==> match first.opened(to_dir) {
            Err(e) => v.renamed(from_dir, from_name, to_dir, to_name) == (first, Err::<(), _>(e)),
            Ok(next) => {
                let (after, r) = v.renamed(from_dir, from_name, to_dir, to_name);
                match (next.child(from_dir, from_name), next.child(to_dir, to_name)) {
                    (None, _) => r == Err::<(), _>(VfsError::ChildNotFound) && after == next,
                    (Some(id), None) => {
                        &&& r is Ok
                        &&& same_but(next, after, id, id)
                        &&& is_moved(next, after, id, to_dir, to_name)
                    },
                    (Some(id), Some(old)) => {
                        &&& r is Ok
                        &&& same_but(next, after, id, old)
                        &&& is_moved(next, after, id, to_dir, to_name)
                        &&& old != id ==> after.has(old) && !after.is_live(old)
                    },
                }
            },
        },
{
    laws::lemma_opened_once(v, from_dir);
    match v.opened(from_dir) {
        Ok(first) => {
            laws::lemma_opened_once(first, to_dir);
            match first.opened(to_dir) {
                Ok(next) => {
                    first.lemma_opened(to_dir, from_dir);
                    assert(next.name_ok(from_dir - 1, from_name));
                    assert(next.name_ok(to_dir - 1, to_name));
                    match next.child(from_dir, from_name) {
                        Some(id) => {
                            assert(next.node_ok(id - 1));
                            lemma_moved(next, id, from_dir, from_name, to_dir, to_name);
                        },
                        None => {},
                    }
                },
                Err(_) => {},
            }
        },
        Err(_) => {},
    }
}

/// Whether a node has another name and directory, and is otherwise what it was.
pub open spec fn is_moved(a: VfsView, b: VfsView, id: u64, dir: u64, name: Seq<char>) -> bool {
    &&& b.is_live(id)
    &&& b.node(id) == (NodeView { parent: dir, name, ..a.node(id) })
    &&& b.child(dir, name) == Some(id)
}

proof fn lemma_moved(
    next: VfsView,
    id: u64,
    from_dir: u64,
    from_name: Seq<char>,
    to_dir: u64,
    to_name: Seq<char>,
)
    requires
        next.wf(),
        next.is_open(from_dir),
        next.is_open(to_dir),
        next.child(from_dir, from_name) == Some(id),
    ensures
        (from_dir, from_name) == (to_dir, to_name) ==> is_moved(next, next, id, to_dir, to_name),
        (from_dir, from_name) != (to_dir, to_name) ==> {
            let after = next.moved(id, from_dir, from_name, to_dir, to_name);
            &&& is_moved(next, after, id, to_dir, to_name)
            &&& match next.child(to_dir, to_name) {
                None => same_but(next, after, id, id),
                Some(old) => old != id && same_but(next, after, id, old) && after.has(old)
                    && !after.is_live(old),
            }
        },
{
    assert(next.name_ok(from_dir - 1, from_name));
    assert(next.name_ok(to_dir - 1, to_name));
    next.lemma_removed(to_dir, to_name);
}

// ---------------------------------------------------------------------------------------------
// Directories on the way

proof fn lemma_ensured(v: VfsView, dir: u64, parts: Seq<Seq<char>>, name: Seq<char>)
    ensures
        v.dirs_ensured(dir, parts.push(name)) == (match v.dirs_ensured(dir, parts) {
            (next, Err(e)) => (next, Err(e)),
            (next, Ok(at)) => match next.looked_up(at, name) {
                (found, Ok(id)) => (found, Ok(id)),
                (found, Err(_)) => found.made_dir(at, name),
            },
        }),
    decreases parts.len(),
{
    let all = parts.push(name);
    if parts.len() == 0 {
        assert(all.drop_first() =~= Seq::<Seq<char>>::empty());
        reveal_with_fuel(VfsView::dirs_ensured, 2);
    } else {
        let rest = parts.drop_first();
        assert(all.drop_first() =~= rest.push(name));
        assert(all[0] == parts[0]);
        match v.looked_up(dir, parts[0]) {
            (next, Ok(id)) => {
                lemma_ensured(next, id, rest, name);
            },
            (next, Err(_)) => match next.made_dir(dir, parts[0]) {
                (made, Ok(id)) => {
                    lemma_ensured(made, id, rest, name);
                },
                (made, Err(_)) => {},
            },
        }
    }
}

/// The directory that a path lies in is found by the names before the last, from the root down: each
/// is looked up in the directory before it, and created there where it is not found. The last name
/// is the one in that directory. A path without names has none.
pub proof fn lemma_parent(
    v: VfsView,
    dir: u64,
    parts: Seq<Seq<char>>,
    name: Seq<char>,
    path: Seq<char>,
)
    ensures
        v.dirs_ensured(dir, Seq::empty()) == (v, Ok::<u64, VfsError>(dir)),
        v.dirs_ensured(dir, parts.push(name)) == (match v.dirs_ensured(dir, parts) {
            (next, Err(e)) => (next, Err(e)),
            (next, Ok(at)) => match next.looked_up(at, name) {
                (found, Ok(id)) => (found, Ok(id)),
                (found, Err(_)) => found.made_dir(at, name),
            },
        }),
        inode::path_names(path) == Seq::<Seq<char>>::empty() ==> v.parent_ensured(path) == (
            v,
            Err::<(u64, Seq<char>), _>(VfsError::EmptyPath),
        ),
        inode::path_names(path) == parts.push(name) ==> v.parent_ensured(path) == (
        match v.dirs_ensured(inode::ROOT_INODE, parts) {
            (next, Err(e)) => (next, Err(e)),
            (next, Ok(at)) => (next, Ok((at, name))),
        }),
{
    lemma_ensured(v, dir, parts, name);
    assert(parts.push(name).drop_last() =~= parts);
}

} // verus!
