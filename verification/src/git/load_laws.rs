//! What is read of a commit, what a repository knows once packfiles were taken, and what its
//! requests for blobs are given.

use vstd::prelude::*;

use crate::git::commit_message;
use crate::git::engine;
use crate::git::engine::{BlobActionView, BlobEventView, BlobStage, EngineError, EngineView};
use crate::git::pack;
use crate::git::pack::{ObjectType, RawObject};
use crate::git::startup::{StartupActionView, StartupEventView, StartupStage, StartupView};
use crate::git::tree;
use crate::git::tree::{TreeEntryMode, TreeItem};
use crate::text;

verus! {

// ---------------------------------------------------------------------------------------------
// Commits, tags and addresses

/// Whether a line names a tree.
pub open spec fn names_tree(line: Seq<char>) -> bool {
    line.len() >= 5 && line[0] == 't' && line[1] == 'r' && line[2] == 'e' && line[3] == 'e'
        && line[4] == ' '
}

proof fn lemma_names_tree(line: Seq<char>)
    ensures
        text::starts_with(line, "tree "@) == names_tree(line),
{
    reveal_strlit("tree ");
    if names_tree(line) {
        assert(line.take(5) =~= "tree "@);
    }
    if text::starts_with(line, "tree "@) {
        let start = line.take(5);
        assert(start[0] == 't' && start[1] == 'r' && start[2] == 'e' && start[3] == 'e');
        assert(start[4] == ' ');
    }
}

proof fn lemma_tree_from(lines: Seq<Seq<char>>, i: int, k: int)
    requires
        0 <= i <= k <= lines.len(),
        forall|j: int| 0 <= j < k ==> !names_tree(#[trigger] lines[j]),
    ensures
        engine::tree_line(lines, i) == engine::tree_line(lines, k),
    decreases k - i,
{
    if i < k {
        lemma_names_tree(lines[i]);
        lemma_tree_from(lines, i + 1, k);
    }
}

/// The tree of a commit is the one that the first line with `tree ` before it names, without white
/// space around it; where no line does, there is none.
pub proof fn lemma_root_tree(commit: Seq<u8>, k: int, name: Seq<char>)
    requires
        ({
            let lines = text::split(text::lossy(commit), '\n');
            &&& 0 <= k <= lines.len()
            &&& forall|j: int| 0 <= j < k ==> !names_tree(#[trigger] lines[j])
            &&& k < lines.len() ==> names_tree(lines[k]) && lines[k].skip(5) == name && !names_tree(
                name,
            )
        }),
    ensures
        ({
            let lines = text::split(text::lossy(commit), '\n');
            &&& k < lines.len() ==> engine::root_tree_of(commit) == Some(text::trimmed(name))
            &&& k == lines.len() ==> engine::root_tree_of(commit) is None
        }),
{
    let lines = text::split(text::lossy(commit), '\n');
    lemma_tree_from(lines, 0, k);
    if k < lines.len() {
        reveal_strlit("tree ");
        lemma_names_tree(lines[k]);
        lemma_names_tree(name);
        reveal_with_fuel(text::stripped, 2);
    }
}

/// An object whose first line has `object ` before a name is a tag for the object of that name;
/// any other is none.
pub proof fn lemma_tag(object: Seq<u8>)
    ensures
        ({
            let first = text::split(text::lossy(object), '\n')[0];
            let is_tag = first.len() >= 7 && first.take(7) =~= seq![
                'o',
                'b',
                'j',
                'e',
                'c',
                't',
                ' ',
            ];
            &&& is_tag ==> engine::tag_target(object) == Some(text::trimmed(first.skip(7)))
            &&& !is_tag ==> engine::tag_target(object) is None
        }),
{
    reveal_strlit("object ");
    let first = text::split(text::lossy(object), '\n')[0];
    assert("object "@ =~= seq!['o', 'b', 'j', 'e', 'c', 't', ' ']);
}

proof fn lemma_found(s: Seq<char>, c: char, from: int, at: int)
    requires
        0 <= from <= at <= s.len(),
        forall|i: int| 0 <= i < at ==> #[trigger] s[i] != c,
        at < s.len() ==> s[at] == c,
    ensures
        commit_message::find_char(s, c, from) == if at < s.len() {
            Some(at)
        } else {
            None
        },
    decreases at - from,
{
    if from < at {
        lemma_found(s, c, from + 1, at);
    }
}

/// Of an address behind its scheme, what stands before the first slash is the bucket, and what
/// stands behind it the prefix; without a slash, all of it is the bucket.
pub proof fn lemma_bucket(bucket: Seq<char>, prefix: Seq<char>)
    requires
        forall|i: int| 0 <= i < bucket.len() ==> #[trigger] bucket[i] != '/',
    ensures
        engine::bucket_and_prefix(bucket + seq!['/'] + prefix) == (bucket, prefix),
        engine::bucket_and_prefix(bucket) == (bucket, Seq::<char>::empty()),
{
    let whole = bucket + seq!['/'] + prefix;
    let n = bucket.len() as int;
    assert forall|i: int| 0 <= i < n implies #[trigger] whole[i] != '/' by {
        assert(whole[i] == bucket[i]);
    }
    lemma_found(whole, '/', 0, n);
    lemma_found(bucket, '/', 0, n);
    assert(whole.take(n) =~= bucket);
    assert(whole.skip(n + 1) =~= prefix);
}

// ---------------------------------------------------------------------------------------------
// Trees that are known

/// The entries that an object gives as a tree, where it is one.
pub open spec fn tree_in(o: RawObject) -> Option<Seq<TreeItem>> {
    match (o.obj_type, tree::tree_from(o.data, 0)) {
        (ObjectType::Tree, Ok(items)) => Some(items),
        _ => None,
    }
}

proof fn lemma_trees_taken(
    e: EngineView,
    oids: Seq<Seq<char>>,
    objects: Map<Seq<char>, RawObject>,
    oid: Seq<char>,
)
    ensures
        ({
            let after = e.with_trees(oids, objects);
            &&& after == (EngineView { trees: after.trees, ..e })
            &&& if oids.contains(oid) && tree_in(objects[oid]) is Some {
                after.trees.contains_key(oid) && after.trees[oid] == tree_in(objects[oid])->0
            } else {
                (after.trees.contains_key(oid) <==> e.trees.contains_key(oid)) && after.trees[oid]
                    == e.trees[oid]
            }
        }),
    decreases oids.len(),
{
    if oids.len() > 0 {
        let front = oids.drop_last();
        let last = oids.last();
        lemma_trees_taken(e, front, objects, oid);
        if oids.contains(oid) && last != oid {
            let i = choose|i: int| 0 <= i < oids.len() && oids[i] == oid;
            assert(front[i] == oid);
        }
        if front.contains(oid) {
            let i = choose|i: int| 0 <= i < front.len() && front[i] == oid;
            assert(oids[i] == oid);
        }
        assert(oids[oids.len() - 1] == last);
    }
}

/// Once a packfile was taken, each tree in it is known with its entries, and no other than before:
/// objects that are no trees, or cannot be read as such, change nothing. The commit is the one
/// that was asked for, and the root is the tree that it names.
pub proof fn lemma_loaded(
    before: EngineView,
    after: EngineView,
    commit_oid: Seq<char>,
    pack_bytes: Seq<u8>,
    outcome: Result<Seq<char>, EngineError>,
    objects: Map<Seq<char>, RawObject>,
    oid: Seq<char>,
)
    requires
        pack::unpacked(pack_bytes) == Ok::<_, pack::PackError>(objects),
        engine::is_load(before, after, commit_oid, pack_bytes, outcome),
    ensures
        after.commit == Some(commit_oid),
        objects.contains_key(oid) && tree_in(objects[oid]) is Some ==> after.trees.contains_key(oid)
            && after.trees[oid] == tree_in(objects[oid])->0,
        !(objects.contains_key(oid) && tree_in(objects[oid]) is Some) ==> (
        after.trees.contains_key(oid) <==> before.trees.contains_key(oid)) && after.trees[oid]
            == before.trees[oid],
        outcome is Ok <==> objects.contains_key(commit_oid) && engine::root_tree_of(
            objects[commit_oid].data,
        ) is Some,
        outcome matches Ok(root) ==> engine::root_tree_of(objects[commit_oid].data) == Some(root)
            && after.root_tree == Some(root),
        outcome is Err ==> after.root_tree == before.root_tree,
        after.cache == before.cache,
        after.disk == before.disk,
        after.in_flight == before.in_flight,
{
    let started = EngineView { commit: Some(commit_oid), ..before };
    let oids = choose|oids: Seq<Seq<char>>| #[trigger]
        engine::is_loaded(started, after, objects, oids, commit_oid);
    lemma_trees_taken(started, oids, objects, oid);
}

/// A packfile that cannot be unpacked leaves a repository as it was, but for the commit.
pub proof fn lemma_not_loaded(
    before: EngineView,
    after: EngineView,
    commit_oid: Seq<char>,
    pack_bytes: Seq<u8>,
    outcome: Result<Seq<char>, EngineError>,
    fault: pack::PackError,
)
    requires
        pack::unpacked(pack_bytes) == Err::<Map<Seq<char>, RawObject>, _>(fault),
        engine::is_load(before, after, commit_oid, pack_bytes, outcome),
    ensures
        outcome == Err::<Seq<char>, _>(EngineError::Pack(fault)),
        after.commit == Some(commit_oid),
        after.trees == before.trees,
        after.root_tree == before.root_tree,
        after.cache == before.cache,
        after.disk == before.disk,
{
}

/// Whether one of the entries is a directory of that tree.
pub open spec fn has_dir(items: Seq<TreeItem>, oid: Seq<char>) -> bool {
    exists|i: int|
        0 <= i < items.len() && (#[trigger] items[i]).oid == oid && items[i].mode
            == TreeEntryMode::Directory
}

/// The trees that are still to be read are those of the directories among the entries that are not
/// known, and no others.
pub proof fn lemma_unknown(
    items: Seq<TreeItem>,
    trees: Map<Seq<char>, Seq<TreeItem>>,
    oid: Seq<char>,
)
    ensures
        engine::unknown_dirs(items, trees).contains(oid) <==> has_dir(items, oid)
            && !trees.contains_key(oid),
    decreases items.len(),
{
    let all = engine::unknown_dirs(items, trees);
    if items.len() > 0 {
        let front = items.drop_last();
        let before = engine::unknown_dirs(front, trees);
        let last = items.len() - 1;
        lemma_unknown(front, trees, oid);
        assert(items.last() == items[last]);
        if all.contains(oid) {
            let k = choose|k: int| 0 <= k < all.len() && all[k] == oid;
            if k < before.len() {
                assert(before[k] == oid);
                let i = choose|i: int|
                    0 <= i < front.len() && (#[trigger] front[i]).oid == oid && front[i].mode
                        == TreeEntryMode::Directory;
                assert(items[i] == front[i]);
            } else {
                assert(items[last].oid == oid);
            }
        }
        if has_dir(items, oid) && !trees.contains_key(oid) {
            let i = choose|i: int|
                0 <= i < items.len() && (#[trigger] items[i]).oid == oid && items[i].mode
                    == TreeEntryMode::Directory;
            if i < last {
                assert(front[i] == items[i]);
                assert(has_dir(front, oid));
                let k = choose|k: int| 0 <= k < before.len() && before[k] == oid;
                assert(all[k] == oid);
            } else {
                assert(all[before.len() as int] == oid);
            }
        }
    }
}

/// The next tree to be read is the first in the queue that is not known: those before it are.
pub proof fn lemma_next_tree(queue: Seq<Seq<char>>, trees: Map<Seq<char>, Seq<TreeItem>>, k: int)
    requires
        0 <= k <= queue.len(),
        forall|i: int| 0 <= i < k ==> trees.contains_key(#[trigger] queue[i]),
        k < queue.len() ==> !trees.contains_key(queue[k]),
    ensures
        engine::unknown_from(queue, trees) == queue.skip(k),
    decreases k,
{
    if k > 0 {
        let rest = queue.drop_first();
        assert(trees.contains_key(queue[0]));
        assert forall|i: int| 0 <= i < k - 1 implies trees.contains_key(#[trigger] rest[i]) by {
            assert(rest[i] == queue[i + 1]);
        }
        lemma_next_tree(rest, trees, k - 1);
        assert(rest.skip(k - 1) =~= queue.skip(k));
    } else {
        assert(queue.skip(0) =~= queue);
    }
}

// ---------------------------------------------------------------------------------------------
// Blobs

/// A request for a blob is given the bytes that are in memory; or else those that are read from
/// disk; or else those that are fetched, alone or in a packfile. It reads from disk only what is
/// not in memory, and fetches only what is not on disk. It fails where the fetching failed, for
/// the same reason, and where a packfile was fetched without the blob.
pub proof fn lemma_blob_given(e: EngineView, oid: Seq<char>, stage: BlobStage, data: Seq<u8>)
    ensures
        e.cache.lookup(oid) == Some(data) ==> e.stepped(
            oid,
            BlobStage::Start,
            BlobEventView::Begin,
        ).2 == BlobActionView::Return(data),
        e.cache.lookup(oid) is None ==> e.stepped(oid, BlobStage::Start, BlobEventView::Begin).2
            is ReadDisk,
        e.cache.lookup(oid) == Some(data) ==> e.stepped(
            oid,
            BlobStage::Waiting,
            BlobEventView::Notified,
        ).2 == BlobActionView::Return(data),
        e.cache.lookup(oid) is None ==> e.stepped(
            oid,
            BlobStage::Waiting,
            BlobEventView::Notified,
        ).2 is ReadDisk,
        e.stepped(oid, stage, BlobEventView::Read(Some(data))).2 == BlobActionView::Return(data),
        e.stepped(oid, BlobStage::DiskAgain, BlobEventView::Read(None)).2 is Fetch,
        e.stepped(oid, stage, BlobEventView::FetchedBlob(data)).2 == BlobActionView::Return(data),
{
}

/// What is fetched in a packfile is what the packfile holds under the blob's name.
pub proof fn lemma_blob_fetched(
    e: EngineView,
    oid: Seq<char>,
    stage: BlobStage,
    oids: Seq<Seq<char>>,
    objects: Map<Seq<char>, RawObject>,
    fault: EngineError,
)
    ensures
        objects.contains_key(oid) ==> e.stepped(
            oid,
            stage,
            BlobEventView::FetchedPack { oids, objects },
        ).2 == BlobActionView::Return(objects[oid].data),
        e.stepped(oid, stage, BlobEventView::Failed(fault)).2 == BlobActionView::Fail(fault),
        e.stepped(oid, stage, BlobEventView::Failed(fault)).0.cache == e.cache,
        e.stepped(oid, stage, BlobEventView::Failed(fault)).0.disk == e.disk,
{
}

/// The size that is shown of a blob is that of its bytes, where they are in memory or were on disk,
/// and a mebibyte where nothing is known of it.
pub proof fn lemma_size_shown(e: EngineView, oid: Seq<char>, data: Seq<u8>)
    requires
        data.len() <= u64::MAX,
    ensures
        e.cache.lookup(oid) == Some(data) ==> e.shown_size(oid) == data.len() && e.known_size(oid)
            == Some(data.len() as u64),
        e.cache.lookup(oid) is None && e.disk.sizes.contains_key(oid) ==> e.shown_size(oid)
            == e.disk.sizes[oid] && e.known_size(oid) == Some(e.disk.sizes[oid]),
        e.cache.lookup(oid) is None && !e.disk.sizes.contains_key(oid) ==> e.shown_size(oid) == 1024
            * 1024 && e.known_size(oid) is None,
{
}

/// Names are asked for in batches of 64, in their order: each but the last is full.
pub proof fn lemma_full_batches(oids: Seq<Seq<char>>, i: int)
    ensures
        ({
            let all = engine::batches(oids);
            &&& 64 * all.len() >= oids.len()
            &&& 64 * all.len() < oids.len() + 64
            &&& 0 <= i < all.len() ==> all[i] == oids.subrange(
                64 * i,
                if 64 * i + 64 < oids.len() {
                    64 * i + 64
                } else {
                    oids.len() as int
                },
            )
        }),
    decreases oids.len(),
{
    let all = engine::batches(oids);
    if oids.len() > 64 {
        let rest = oids.skip(64);
        lemma_full_batches(rest, i - 1);
        if 0 < i < all.len() {
            let to = if 64 * i + 64 < oids.len() {
                64 * i + 64
            } else {
                oids.len() as int
            };
            assert(all[i] == engine::batches(rest)[i - 1]);
            assert(rest.subrange(64 * (i - 1), to - 64) =~= oids.subrange(64 * i, to));
        } else if i == 0 {
            assert(oids.take(64) =~= oids.subrange(0, 64));
        }
    } else if oids.len() > 0 {
        assert(all =~= seq![oids]);
        assert(oids.subrange(0, oids.len() as int) =~= oids);
    }
}

// ---------------------------------------------------------------------------------------------
// The start

/// Once the commit is known, a start reads it from the bucket, or looks on disk for the packfile
/// with its trees.
pub proof fn lemma_resolved(
    v: StartupView,
    before: EngineView,
    oid: Seq<char>,
    after: EngineView,
    next: StartupView,
    action: StartupActionView,
)
    requires
        v.is_step(before, StartupEventView::Resolved(oid), after, next, action),
    ensures
        after.commit == Some(oid),
        after.trees == before.trees,
        next.commit == oid,
        next.in_bucket == v.in_bucket,
        v.in_bucket ==> action == StartupActionView::ReadObject(oid) && next.stage
            == StartupStage::Commit,
        !v.in_bucket ==> action == StartupActionView::ReadTreePack(oid) && next.stage
            == StartupStage::TreePack,
{
}

/// The packfile with the trees is fetched where it is not on disk, and only there; where it cannot
/// be fetched, the start fails. With it the start is over: with the root tree, or with why there is
/// none.
pub proof fn lemma_tree_pack(
    v: StartupView,
    before: EngineView,
    read: Option<Seq<u8>>,
    after: EngineView,
    next: StartupView,
    action: StartupActionView,
)
    requires
        v.stage == StartupStage::TreePack || v.stage == StartupStage::FetchTrees,
        v.is_step(before, StartupEventView::Read(read), after, next, action),
    ensures
        read is None && v.stage == StartupStage::TreePack ==> action
            == StartupActionView::FetchTrees(v.commit) && next.stage == StartupStage::FetchTrees
            && after == before,
        read is None && v.stage == StartupStage::FetchTrees ==> action == StartupActionView::Fail(
            EngineError::Fetch,
        ) && next.stage == StartupStage::Over && after == before,
        read matches Some(data) ==> next.stage == StartupStage::Over && match action {
            StartupActionView::Done(root) => engine::is_load(
                before,
                after,
                v.commit,
                data,
                Ok::<_, EngineError>(root),
            ),
            StartupActionView::Fail(e) => engine::is_load(
                before,
                after,
                v.commit,
                data,
                Err::<Seq<char>, _>(e),
            ),
            _ => false,
        },
{
}

/// A commit that cannot be read ends the start, and so does one that names no tree. A tag leads on
/// to what it stands for.
pub proof fn lemma_commit_read(
    v: StartupView,
    before: EngineView,
    read: Option<Seq<u8>>,
    target: Seq<char>,
    after: EngineView,
    next: StartupView,
    action: StartupActionView,
)
    requires
        v.stage == StartupStage::Commit,
        v.is_step(before, StartupEventView::Read(read), after, next, action),
    ensures
        read is None ==> action == StartupActionView::Fail(EngineError::Fetch) && next.stage
            == StartupStage::Over,
        read matches Some(data) ==> {
            &&& engine::tag_target(data) == Some(target) ==> action
                == StartupActionView::ReadObject(target) && next.commit == target && after.commit
                == Some(target) && next.stage == StartupStage::Commit
            &&& engine::tag_target(data) is None && engine::root_tree_of(data) is None ==> action
                == StartupActionView::Fail(EngineError::NoRootTree) && next.stage
                == StartupStage::Over
        },
{
}

/// A tree that was read is known with its entries; one that cannot be read changes nothing.
pub proof fn lemma_tree_read(
    v: StartupView,
    before: EngineView,
    read: Option<Seq<u8>>,
    items: Seq<TreeItem>,
    after: EngineView,
    next: StartupView,
    action: StartupActionView,
)
    requires
        v.stage == StartupStage::Tree,
        v.is_step(before, StartupEventView::Read(read), after, next, action),
    ensures
        read is None ==> after.trees == before.trees,
        read matches Some(data) ==> {
            &&& tree::tree_from(data, 0) == Ok::<_, tree::TreeError>(items) ==> after.trees
                == before.trees.insert(v.pending, items)
            &&& tree::tree_from(data, 0) is Err ==> after.trees == before.trees
        },
        action matches StartupActionView::ReadObject(oid) ==> !after.trees.contains_key(oid)
            && next.pending == oid && next.stage == StartupStage::Tree,
        action is ReadObject || action is Done,
        action matches StartupActionView::Done(root) ==> root == v.root && after.root_tree == Some(
            v.root,
        ) && next.stage == StartupStage::Over,
        after.commit == before.commit,
{
    let (engine, queue) = engine::fed(before, v.queue, v.pending, read);
    lemma_unknown_stays(queue, engine.trees);
}

proof fn lemma_unknown_stays(queue: Seq<Seq<char>>, trees: Map<Seq<char>, Seq<TreeItem>>)
    ensures
        engine::unknown_from(queue, trees).len() > 0 ==> !trees.contains_key(
            engine::unknown_from(queue, trees)[0],
        ),
    decreases queue.len(),
{
    if queue.len() > 0 && trees.contains_key(queue[0]) {
        lemma_unknown_stays(queue.drop_first(), trees);
    }
}

} // verus!
