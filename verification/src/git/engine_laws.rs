//! What holds of requests for blobs, and of a repository once objects were recovered.

use vstd::prelude::*;

use crate::cache::memory;
use crate::git::builder::ToPack;
use crate::git::engine;
use crate::git::engine::{BlobActionView, BlobEventView, BlobStage, EngineView};
use crate::git::pack::{ObjectType, RawObject};
use crate::git::tree;
use crate::git::tree::TreeItem;

verus! {

/// Whether no name is given to two objects.
pub open spec fn are_distinct(objects: Seq<ToPack>) -> bool {
    forall|i: int, j: int|
        0 <= i < j < objects.len() ==> (#[trigger] objects[i]).oid != (#[trigger] objects[j]).oid
}

proof fn lemma_tree_kept(e: EngineView, objects: Seq<ToPack>, i: int)
    requires
        0 <= i < objects.len(),
        are_distinct(objects),
        objects[i].obj_type == ObjectType::Tree,
    ensures
        tree::tree_from(objects[i].data, 0) matches Ok(items) ==> e.with_all_recovered(
            objects,
        ).trees.contains_key(objects[i].oid) && e.with_all_recovered(
            objects,
        ).trees[objects[i].oid] == items,
    decreases objects.len(),
{
    let front = objects.drop_last();
    if i < front.len() {
        assert(front[i] == objects[i]);
        assert(are_distinct(front)) by {
            assert forall|a: int, b: int| 0 <= a < b < front.len() implies (
            #[trigger] front[a]).oid != (#[trigger] front[b]).oid by {
                assert(front[a] == objects[a] && front[b] == objects[b]);
            }
        }
        lemma_tree_kept(e, front, i);
        assert(objects[i].oid != objects[objects.len() - 1].oid);
    }
}

/// A tree that was recovered is there with its entries, and the commit and the root are the
/// recovered ones.
pub proof fn lemma_recovered_tree(
    e: EngineView,
    commit_oid: Seq<char>,
    root_tree_oid: Seq<char>,
    objects: Seq<ToPack>,
    i: int,
    items: Seq<TreeItem>,
)
    requires
        0 <= i < objects.len(),
        are_distinct(objects),
        objects[i].obj_type == ObjectType::Tree,
        tree::tree_bytes(items) == Some(objects[i].data),
        forall|k: int| 0 <= k < items.len() ==> tree::is_plain_item(#[trigger] items[k]),
    ensures
        ({
            let after = e.recovered(commit_oid, root_tree_oid, objects);
            &&& after.commit == Some(commit_oid)
            &&& after.root_tree == Some(root_tree_oid)
            &&& after.trees.contains_key(objects[i].oid)
            &&& after.trees[objects[i].oid] == items
        }),
{
    let started = EngineView {
        commit: Some(commit_oid),
        root_tree: Some(root_tree_oid),
        ..e
    };
    tree::lemma_tree_read_back(items);
    lemma_tree_kept(started, objects, i);
    lemma_commit_kept(started, objects);
}

proof fn lemma_commit_kept(e: EngineView, objects: Seq<ToPack>)
    ensures
        e.with_all_recovered(objects).commit == e.commit,
        e.with_all_recovered(objects).root_tree == e.root_tree,
    decreases objects.len(),
{
    if objects.len() > 0 {
        lemma_commit_kept(e, objects.drop_last());
    }
}

proof fn lemma_blob_kept(e: EngineView, objects: Seq<ToPack>, i: int)
    requires
        0 <= i < objects.len(),
        are_distinct(objects),
        objects[i].obj_type == ObjectType::Blob,
        e.cache.wf(),
    ensures
        ({
            let after = e.with_all_recovered(objects);
            &&& after.disk.sizes.contains_key(objects[i].oid)
            &&& after.disk.sizes[objects[i].oid] == objects[i].data.len() as u64
            &&& after.cache.wf()
            &&& e.cache.entries.len() + objects.len() <= e.cache.capacity ==> after.cache.lookup(
                objects[i].oid,
            ) == Some(objects[i].data)
        }),
    decreases objects.len(),
{
    let front = objects.drop_last();
    let last = objects.last();
    let before = e.with_all_recovered(front);
    lemma_cache_grows(e, front);
    if last.obj_type == ObjectType::Blob {
        memory::lemma_put(before.cache, last.oid, last.data, objects[i].oid);
    }
    if i < front.len() {
        assert(front[i] == objects[i]);
        assert(are_distinct(front)) by {
            assert forall|a: int, b: int| 0 <= a < b < front.len() implies (
            #[trigger] front[a]).oid != (#[trigger] front[b]).oid by {
                assert(front[a] == objects[a] && front[b] == objects[b]);
            }
        }
        lemma_blob_kept(e, front, i);
        assert(objects[i].oid != objects[objects.len() - 1].oid);
    }
}

proof fn lemma_cache_grows(e: EngineView, objects: Seq<ToPack>)
    requires
        e.cache.wf(),
    ensures
        e.with_all_recovered(objects).cache.wf(),
        e.with_all_recovered(objects).cache.capacity == e.cache.capacity,
        e.with_all_recovered(objects).cache.entries.len() <= e.cache.entries.len()
            + objects.len(),
    decreases objects.len(),
{
    if objects.len() > 0 {
        let front = objects.drop_last();
        let last = objects.last();
        let before = e.with_all_recovered(front);
        lemma_cache_grows(e, front);
        if last.obj_type == ObjectType::Blob {
            memory::lemma_put(before.cache, last.oid, last.data, last.oid);
            memory::lemma_size(before.cache, last.oid, last.data);
        }
    }
}

/// A blob that was recovered is on disk, and it is in memory where there is room for all.
pub proof fn lemma_recovered_blob(
    e: EngineView,
    commit_oid: Seq<char>,
    root_tree_oid: Seq<char>,
    objects: Seq<ToPack>,
    i: int,
)
    requires
        0 <= i < objects.len(),
        are_distinct(objects),
        objects[i].obj_type == ObjectType::Blob,
        e.cache.wf(),
    ensures
        ({
            let after = e.recovered(commit_oid, root_tree_oid, objects);
            &&& after.disk.sizes.contains_key(objects[i].oid)
            &&& after.disk.sizes[objects[i].oid] == objects[i].data.len() as u64
            &&& e.cache.entries.len() + objects.len() <= e.cache.capacity ==> after.cache.lookup(
                objects[i].oid,
            ) == Some(objects[i].data)
        }),
{
    let started = EngineView {
        commit: Some(commit_oid),
        root_tree: Some(root_tree_oid),
        ..e
    };
    lemma_blob_kept(started, objects, i);
}

/// A request that finds a blob neither in memory nor on disk waits where another request fetches
/// it, and fetches it otherwise; from then on, others wait.
pub proof fn lemma_fetch_shared(e: EngineView, oid: Seq<char>)
    ensures
        ({
            let (next, then, action) = e.stepped(oid, BlobStage::Disk, BlobEventView::Read(None));
            &&& next.in_flight.contains_key(oid)
            &&& if e.in_flight.contains_key(oid) {
                then == BlobStage::Waiting && action is Wait
            } else {
                then == BlobStage::Fetching && action is Fetch
            }
        }),
{
}

proof fn lemma_blobs_put(
    e: EngineView,
    oids: Seq<Seq<char>>,
    objects: Map<Seq<char>, RawObject>,
    oid: Seq<char>,
)
    requires
        e.cache.wf(),
    ensures
        ({
            let next = e.with_blobs(oids, objects);
            let found = next.cache.lookup(oid);
            &&& next.cache.wf()
            &&& if oids.contains(oid) {
                next.disk.sizes.contains_key(oid) && next.disk.sizes[oid]
                    == objects[oid].data.len() as u64 && (found is None || found == Some(
                    objects[oid].data,
                ))
            } else {
                (next.disk.sizes.contains_key(oid) <==> e.disk.sizes.contains_key(oid))
                    && next.disk.sizes[oid] == e.disk.sizes[oid] && (found is None || found
                    == e.cache.lookup(oid))
            }
        }),
    decreases oids.len(),
{
    if oids.len() > 0 {
        let front = oids.drop_last();
        let last = oids.last();
        lemma_blobs_put(e, front, objects, oid);
        let before = e.with_blobs(front, objects);
        memory::lemma_put(before.cache, last, objects[last].data, oid);
        assert(oids[oids.len() - 1] == last);
        if oids.contains(oid) && last != oid {
            let i = choose|i: int| 0 <= i < oids.len() && oids[i] == oid;
            assert(front[i] == oid);
        }
        if front.contains(oid) {
            let i = choose|i: int| 0 <= i < front.len() && front[i] == oid;
            assert(oids[i] == oid);
        }
    }
}

/// Whether the next request for a blob gets these bytes without asking anyone else: from memory,
/// or from disk, where they are known to be.
pub open spec fn is_at_hand(e: EngineView, oid: Seq<char>, data: Seq<u8>) -> bool {
    let (next, then, action) = e.stepped(oid, BlobStage::Start, BlobEventView::Begin);
    ||| action == BlobActionView::Return(data)
    ||| action is ReadDisk && then == BlobStage::Disk && e.disk.sizes.contains_key(oid)
        && e.disk.sizes[oid] == data.len() as u64 && next.stepped(
        oid,
        then,
        BlobEventView::Read(Some(data)),
    ).2 == BlobActionView::Return(data)
}

/// A blob that a request was given is at hand for the next one, however it was come by. A request
/// that fails leaves the blob as far away as it was, and does not keep others from fetching it.
pub proof fn lemma_blob_at_hand(
    e: EngineView,
    oid: Seq<char>,
    stage: BlobStage,
    event: BlobEventView,
)
    requires
        e.cache.wf(),
        engine::is_due(stage, event),
        event matches BlobEventView::FetchedPack { oids, objects } ==> (oids.contains(oid)
            <==> objects.contains_key(oid)),
    ensures
        ({
            let (next, then, action) = e.stepped(oid, stage, event);
            &&& next.cache.wf()
            &&& action matches BlobActionView::Return(data) ==> is_at_hand(next, oid, data)
            &&& action is Fail ==> !next.in_flight.contains_key(oid) && (next.cache.lookup(oid)
                is None || next.cache.lookup(oid) == e.cache.lookup(oid)) && (
            next.disk.sizes.contains_key(oid) <==> e.disk.sizes.contains_key(oid))
            &&& action == BlobActionView::Fail(engine::EngineError::NotInPack) && event
                is FetchedPack ==> next.cache.lookup(oid) is None
        }),
{
    memory::lemma_asked(e.cache, oid, oid);
    match event {
        BlobEventView::Read(Some(data)) => {
            memory::lemma_put(e.cache, oid, data, oid);
        },
        BlobEventView::FetchedBlob(data) => {
            memory::lemma_put(e.cache, oid, data, oid);
        },
        BlobEventView::FetchedPack { oids, objects } => {
            lemma_blobs_put(e, oids, objects, oid);
            let put = e.with_blobs(oids, objects);
            memory::lemma_asked(put.cache, oid, oid);
            memory::lemma_asked(put.asked(oid).cache, oid, oid);
        },
        _ => {},
    }
}

} // verus!
