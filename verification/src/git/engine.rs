//! What is known of a repository: its commit, its trees and the blobs that were read.

use std::sync::Arc;
use vstd::hash_map::StringHashMap;
use vstd::prelude::*;

use crate::bytes;
use crate::cache::disk::{DiskCache, DiskView};
use crate::cache::disk;
use crate::cache::memory::{CacheView, MemoryCache};
use crate::git::builder::{GitObjectToPack, ToPack};
use crate::git::pack;
use crate::git::pack::{GitRawObject, ObjectType, PackError, RawObject};
use crate::git::tree;
use crate::git::tree::{GitTree, TreeEntryMode, TreeItem};
use crate::maps::TextMap;
use crate::text;

verus! {

/// Why a repository could not be read.
#[derive(Debug, Clone, Copy, PartialEq, Eq, Structural)]
pub enum EngineError {
    /// A packfile that could not be unpacked.
    Pack(PackError),
    /// The commit does not name a tree.
    NoRootTree,
    /// The blob is not in the packfile that was fetched for it.
    NotInPack,
    /// The blob could not be fetched.
    Fetch,
}

/// What is known of a repository.
#[verifier::ext_equal]
pub struct EngineView {
    pub trees: Map<Seq<char>, Seq<TreeItem>>,
    pub cache: CacheView,
    pub disk: DiskView,
    pub root_tree: Option<Seq<char>>,
    pub commit: Option<Seq<char>>,
    pub in_flight: Map<Seq<char>, bool>,
}

impl EngineView {
    /// With a tree.
    pub open spec fn with_tree(self, oid: Seq<char>, items: Seq<TreeItem>) -> EngineView {
        EngineView { trees: self.trees.insert(oid, items), ..self }
    }

    /// With the tree that an object holds, where it holds one.
    pub open spec fn with_tree_object(self, oid: Seq<char>, object: RawObject) -> EngineView {
        if object.obj_type == ObjectType::Tree {
            match tree::tree_from(object.data, 0) {
                Ok(items) => self.with_tree(oid, items),
                Err(_) => self,
            }
        } else {
            self
        }
    }

    /// With the trees among the objects.
    pub open spec fn with_trees(
        self,
        oids: Seq<Seq<char>>,
        objects: Map<Seq<char>, RawObject>,
    ) -> EngineView
        decreases oids.len(),
    {
        if oids.len() == 0 {
            self
        } else {
            self.with_trees(oids.drop_last(), objects).with_tree_object(
                oids.last(),
                objects[oids.last()],
            )
        }
    }

    /// With a blob, in memory and on disk.
    pub open spec fn with_blob(self, oid: Seq<char>, data: Seq<u8>) -> EngineView {
        EngineView {
            cache: self.cache.with(oid, data),
            disk: DiskView {
                sizes: self.disk.sizes.insert(oid, data.len() as u64),
                ..self.disk
            },
            ..self
        }
    }

    /// With objects in memory and on disk.
    pub open spec fn with_blobs(
        self,
        oids: Seq<Seq<char>>,
        objects: Map<Seq<char>, RawObject>,
    ) -> EngineView
        decreases oids.len(),
    {
        if oids.len() == 0 {
            self
        } else {
            self.with_blobs(oids.drop_last(), objects).with_blob(
                oids.last(),
                objects[oids.last()].data,
            )
        }
    }

    /// Once the cache was asked for a blob.
    pub open spec fn asked(self, oid: Seq<char>) -> EngineView {
        EngineView { cache: self.cache.asked(oid), ..self }
    }

    /// With an object that was recovered: a tree, or a blob.
    pub open spec fn with_recovered(self, object: ToPack) -> EngineView {
        match object.obj_type {
            ObjectType::Tree => match tree::tree_from(object.data, 0) {
                Ok(items) => self.with_tree(object.oid, items),
                Err(_) => self,
            },
            ObjectType::Blob => self.with_blob(object.oid, object.data),
            _ => self,
        }
    }

    /// With objects that were recovered.
    pub open spec fn with_all_recovered(self, objects: Seq<ToPack>) -> EngineView
        decreases objects.len(),
    {
        if objects.len() == 0 {
            self
        } else {
            self.with_all_recovered(objects.drop_last()).with_recovered(objects.last())
        }
    }

    /// With the commit and root tree that were recovered, and their objects.
    pub open spec fn recovered(
        self,
        commit_oid: Seq<char>,
        root_tree_oid: Seq<char>,
        objects: Seq<ToPack>,
    ) -> EngineView {
        (EngineView {
            commit: Some(commit_oid),
            root_tree: Some(root_tree_oid),
            ..self
        }).with_all_recovered(objects)
    }

    /// The size of a blob that is in memory or on disk.
    pub open spec fn known_size(self, oid: Seq<char>) -> Option<u64> {
        match self.cache.lookup(oid) {
            Some(data) => Some(data.len() as u64),
            None => if self.disk.sizes.contains_key(oid) {
                Some(self.disk.sizes[oid])
            } else {
                None
            },
        }
    }

    /// The size that is shown for a blob: the real one where it is known, and one mebibyte
    /// otherwise.
    pub open spec fn shown_size(self, oid: Seq<char>) -> u64 {
        match self.known_size(oid) {
            Some(len) => len,
            None => 1_048_576,
        }
    }
}

/// The tree that is named first from the `i`-th line on.
pub open spec fn tree_line(lines: Seq<Seq<char>>, i: int) -> Option<Seq<char>>
    decreases lines.len() - i,
{
    if i >= lines.len() {
        None
    } else if text::starts_with(lines[i], "tree "@) {
        Some(text::trimmed(text::stripped(lines[i], "tree "@)))
    } else {
        tree_line(lines, i + 1)
    }
}

/// The tree that a commit names.
pub open spec fn root_tree_of(commit: Seq<u8>) -> Option<Seq<char>> {
    tree_line(text::split(text::lossy(commit), '\n'), 0)
}

/// The tree that a commit names.
pub fn find_root_tree(commit: &[u8]) -> (r: Option<String>)
    ensures
        match r {
            Some(oid) => root_tree_of(commit@) == Some(oid@),
            None => root_tree_of(commit@) is None,
        },
{
    let chars = text::chars_of(text::from_utf8_lossy(commit).as_str());
    let lines = text::split_at_char(&chars, '\n');
    let ghost all = text::views(lines@);
    let mut i: usize = 0;
    while i < lines.len()
        invariant
            i <= lines@.len(),
            all == text::views(lines@),
            root_tree_of(commit@) == tree_line(all, i as int),
        decreases lines@.len() - i,
    {
        assert(all[i as int] == lines@[i as int]@);
        if text::has_prefix(lines[i].as_slice(), "tree ") {
            let line = text::chars_range(lines[i].as_slice(), 0, lines[i].len());
            assert(line@ =~= all[i as int]);
            proof {
                reveal_strlit("tree ");
            }
            let rest = text::strip_all(line, "tree ");
            return Some(text::from_chars(text::trim(rest.as_slice())));
        }
        i += 1;
    }
    None
}

/// The object that a tag stands for, where this is a tag and no commit.
pub open spec fn tag_target(object: Seq<u8>) -> Option<Seq<char>> {
    let first = text::split(text::lossy(object), '\n')[0];
    if text::starts_with(first, "object "@) {
        Some(text::trimmed(first.skip("object "@.len() as int)))
    } else {
        None
    }
}

/// The object that a tag stands for.
pub fn find_tag_target(object: &[u8]) -> (r: Option<String>)
    ensures
        match r {
            Some(oid) => tag_target(object@) == Some(oid@),
            None => tag_target(object@) is None,
        },
{
    let chars = text::chars_of(text::from_utf8_lossy(object).as_str());
    let lines = text::split_at_char(&chars, '\n');
    let ghost all = text::views(lines@);
    proof {
        text::lemma_split_some(text::lossy(object@), '\n');
        assert(all[0] == lines@[0]@);
    }
    match text::strip_prefix(lines[0].as_slice(), "object ") {
        Some(rest) => Some(text::from_chars(text::trim(rest.as_slice()))),
        None => None,
    }
}

/// Where a repository lies.
#[derive(Debug)]
pub enum RepoTarget {
    Http,
    /// In a bucket, below a prefix.
    Gcs { bucket: String, prefix: String },
}

/// The bucket and the prefix of an address behind its scheme: what is before the first slash,
/// and what is behind it.
pub open spec fn bucket_and_prefix(rest: Seq<char>) -> (Seq<char>, Seq<char>) {
    match crate::git::commit_message::find_char(rest, '/', 0) {
        Some(at) => (rest.take(at), rest.skip(at + 1)),
        None => (rest, Seq::empty()),
    }
}

/// Tells a bucket from a server by the scheme of an address.
pub fn parse_target(repo_target: &str) -> (r: RepoTarget)
    ensures
        match r {
            RepoTarget::Http => !text::starts_with(repo_target@, "gs://"@),
            RepoTarget::Gcs { bucket, prefix } => text::starts_with(repo_target@, "gs://"@)
                && (bucket@, prefix@) == bucket_and_prefix(
                repo_target@.skip("gs://"@.len() as int),
            ),
        },
{
    let chars = text::chars_of(repo_target);
    match text::strip_prefix(&chars, "gs://") {
        None => RepoTarget::Http,
        Some(rest) => match crate::git::commit_message::find(&rest, '/') {
            Some(at) => {
                let len: usize = rest.len();
                let bucket = text::chars_range(rest.as_slice(), 0, at);
                let prefix = text::chars_range(rest.as_slice(), at + 1, len);
                assert(bucket@ =~= rest@.take(at as int));
                assert(prefix@ =~= rest@.skip(at as int + 1));
                RepoTarget::Gcs {
                    bucket: text::from_chars(bucket),
                    prefix: text::from_chars(prefix),
                }
            },
            None => RepoTarget::Gcs { bucket: text::from_chars(rest), prefix: String::new() },
        },
    }
}

/// How far a request for a blob has come.
#[derive(Debug, Clone, Copy, PartialEq, Eq, Structural)]
pub enum BlobStage {
    Start,
    /// The blob's file is being read.
    Disk,
    /// Another request is fetching the blob.
    Waiting,
    /// The other request is done, and the blob's file is being read.
    DiskAgain,
    /// The blob is being fetched for this request.
    Fetching,
    /// The request is answered.
    Over,
}

/// What has happened since the last step of a request.
pub enum BlobEvent {
    Begin,
    /// The blob's file was read, or is not there.
    Read(Option<Vec<u8>>),
    /// The other request is done.
    Notified,
    /// A packfile was fetched for the blob, and unpacked.
    FetchedPack(TextMap<GitRawObject>),
    /// The blob itself was fetched.
    FetchedBlob(Vec<u8>),
    /// The blob could not be fetched, or its packfile not unpacked.
    Failed(EngineError),
}

/// What has to be done next for a request.
pub enum BlobAction {
    Return(Arc<Vec<u8>>),
    ReadDisk,
    Wait,
    Fetch,
    Fail(EngineError),
}

/// What has happened, by the bytes.
pub enum BlobEventView {
    Begin,
    Read(Option<Seq<u8>>),
    Notified,
    FetchedPack { oids: Seq<Seq<char>>, objects: Map<Seq<char>, RawObject> },
    FetchedBlob(Seq<u8>),
    Failed(EngineError),
}

/// What has to be done, by the bytes.
pub enum BlobActionView {
    Return(Seq<u8>),
    ReadDisk,
    Wait,
    Fetch,
    Fail(EngineError),
}

impl View for BlobEvent {
    type V = BlobEventView;

    open spec fn view(&self) -> BlobEventView {
        match self {
            BlobEvent::Begin => BlobEventView::Begin,
            BlobEvent::Read(Some(data)) => BlobEventView::Read(Some(data@)),
            BlobEvent::Read(None) => BlobEventView::Read(None),
            BlobEvent::Notified => BlobEventView::Notified,
            BlobEvent::FetchedPack(objects) => BlobEventView::FetchedPack {
                oids: objects.keys(),
                objects: objects@,
            },
            BlobEvent::FetchedBlob(data) => BlobEventView::FetchedBlob(data@),
            BlobEvent::Failed(e) => BlobEventView::Failed(*e),
        }
    }
}

impl View for BlobAction {
    type V = BlobActionView;

    open spec fn view(&self) -> BlobActionView {
        match self {
            BlobAction::Return(data) => BlobActionView::Return(data@),
            BlobAction::ReadDisk => BlobActionView::ReadDisk,
            BlobAction::Wait => BlobActionView::Wait,
            BlobAction::Fetch => BlobActionView::Fetch,
            BlobAction::Fail(e) => BlobActionView::Fail(*e),
        }
    }
}

/// Whether an event can come at a stage.
pub open spec fn is_due(stage: BlobStage, event: BlobEventView) -> bool {
    match stage {
        BlobStage::Start => event is Begin,
        BlobStage::Disk => event is Read,
        BlobStage::Waiting => event is Notified,
        BlobStage::DiskAgain => event is Read,
        BlobStage::Fetching => event is FetchedPack || event is FetchedBlob || event is Failed,
        BlobStage::Over => false,
    }
}

impl EngineView {
    /// Without a note that a blob is being fetched.
    pub open spec fn landed(self, oid: Seq<char>) -> EngineView {
        EngineView { in_flight: self.in_flight.remove(oid), ..self }
    }

    /// With a count of whether the blob's file was there.
    pub open spec fn disk_read(self, oid: Seq<char>, read: Option<Seq<u8>>) -> EngineView {
        EngineView {
            disk: match read {
                Some(data) => DiskView {
                    sizes: self.disk.sizes.insert(oid, data.len() as u64),
                    hits: crate::cache::memory::counted(self.disk.hits),
                    ..self.disk
                },
                None => DiskView {
                    misses: crate::cache::memory::counted(self.disk.misses),
                    ..self.disk
                },
            },
            ..self
        }
    }

    /// The step of a request for a blob: from memory, or else from disk, or else from whoever
    /// fetches it, or else by fetching it.
    pub open spec fn stepped(self, oid: Seq<char>, stage: BlobStage, event: BlobEventView) -> (
        EngineView,
        BlobStage,
        BlobActionView,
    ) {
        match event {
            BlobEventView::Begin | BlobEventView::Notified => match self.cache.lookup(oid) {
                Some(data) => (self.asked(oid), BlobStage::Over, BlobActionView::Return(data)),
                None => (
                    self.asked(oid),
                    if event is Begin {
                        BlobStage::Disk
                    } else {
                        BlobStage::DiskAgain
                    },
                    BlobActionView::ReadDisk,
                ),
            },
            BlobEventView::Read(Some(data)) => (
                {
                    let next = self.disk_read(oid, Some(data));
                    EngineView { cache: next.cache.with(oid, data), ..next }
                },
                BlobStage::Over,
                BlobActionView::Return(data),
            ),
            BlobEventView::Read(None) => {
                let next = self.disk_read(oid, None);
                if stage == BlobStage::DiskAgain {
                    (next, BlobStage::Fetching, BlobActionView::Fetch)
                } else if next.in_flight.contains_key(oid) {
                    (next, BlobStage::Waiting, BlobActionView::Wait)
                } else {
                    (
                        EngineView { in_flight: next.in_flight.insert(oid, true), ..next },
                        BlobStage::Fetching,
                        BlobActionView::Fetch,
                    )
                }
            },
            BlobEventView::FetchedPack { oids, objects } => {
                let next = self.with_blobs(oids, objects);
                if objects.contains_key(oid) {
                    (
                        next.landed(oid),
                        BlobStage::Over,
                        BlobActionView::Return(objects[oid].data),
                    )
                } else {
                    (
                        next.asked(oid).landed(oid),
                        BlobStage::Over,
                        match next.cache.lookup(oid) {
                            Some(data) => BlobActionView::Return(data),
                            None => BlobActionView::Fail(EngineError::NotInPack),
                        },
                    )
                }
            },
            BlobEventView::FetchedBlob(data) => (
                self.with_blob(oid, data).landed(oid),
                BlobStage::Over,
                BlobActionView::Return(data),
            ),
            BlobEventView::Failed(e) => (self.landed(oid), BlobStage::Over, BlobActionView::Fail(e)),
        }
    }
}

/// A request for a blob.
pub struct BlobRequest {
    oid: String,
    stage: BlobStage,
}

impl BlobRequest {
    pub closed spec fn oid(&self) -> Seq<char> {
        self.oid@
    }

    pub closed spec fn at(&self) -> BlobStage {
        self.stage
    }

    /// A new request.
    pub fn new(oid: &str) -> (r: Self)
        ensures
            r.oid() == oid@,
            r.at() == BlobStage::Start,
    {
        BlobRequest { oid: oid.to_string(), stage: BlobStage::Start }
    }

    /// How far the request has come.
    pub fn stage(&self) -> (stage: BlobStage)
        ensures
            stage == self.at(),
    {
        self.stage
    }
}

pub struct GitEngine {
    disk_cache: DiskCache,
    memory_cache: MemoryCache,
    trees: TextMap<GitTree>,
    root_tree_oid: Option<String>,
    commit_oid: Option<String>,
    in_flight: StringHashMap<bool>,
}

/// The characters of a text that may not be there.
pub open spec fn maybe(s: Option<String>) -> Option<Seq<char>> {
    match s {
        Some(s) => Some(s@),
        None => None,
    }
}

impl View for GitEngine {
    type V = EngineView;

    closed spec fn view(&self) -> EngineView {
        EngineView {
            trees: self.trees@,
            cache: self.memory_cache@,
            disk: self.disk_cache@,
            root_tree: maybe(self.root_tree_oid),
            commit: maybe(self.commit_oid),
            in_flight: self.in_flight@,
        }
    }
}

/// A repository of which nothing is known yet.
pub open spec fn fresh(capacity: nat, base: Seq<Seq<char>>) -> EngineView {
    EngineView {
        trees: Map::empty(),
        cache: CacheView::empty(capacity),
        disk: DiskView { base, sizes: Map::empty(), hits: 0, misses: 0 },
        root_tree: None,
        commit: None,
        in_flight: Map::empty(),
    }
}

/// The tree that a commit among the objects names.
pub open spec fn found_root(
    objects: Map<Seq<char>, RawObject>,
    commit_oid: Seq<char>,
) -> Option<Seq<char>> {
    if objects.contains_key(commit_oid) {
        root_tree_of(objects[commit_oid].data)
    } else {
        None
    }
}

/// Whether a repository is what it was with the trees among the objects, taken in the order of
/// `oids`, and with the root tree, where there is one.
pub open spec fn is_loaded(
    before: EngineView,
    after: EngineView,
    objects: Map<Seq<char>, RawObject>,
    oids: Seq<Seq<char>>,
    commit_oid: Seq<char>,
) -> bool {
    &&& oids.no_duplicates()
    &&& forall|k: Seq<char>| #[trigger] oids.contains(k) <==> objects.contains_key(k)
    &&& after == (match found_root(objects, commit_oid) {
        Some(oid) => EngineView { root_tree: Some(oid), ..before.with_trees(oids, objects) },
        None => before.with_trees(oids, objects),
    })
}

/// Whether a repository took a packfile with a commit and its trees, and the outcome is the root
/// tree, or why there is none. Nothing but the commit changes where the packfile cannot be
/// unpacked.
pub open spec fn is_load(
    before: EngineView,
    after: EngineView,
    commit_oid: Seq<char>,
    pack_bytes: Seq<u8>,
    outcome: Result<Seq<char>, EngineError>,
) -> bool {
    let started = EngineView { commit: Some(commit_oid), ..before };
    match pack::unpacked(pack_bytes) {
        Err(e) => outcome == Err::<Seq<char>, _>(EngineError::Pack(e)) && after == started,
        Ok(objects) => {
            &&& outcome == (match found_root(objects, commit_oid) {
                Some(oid) => Ok(oid),
                None => Err(EngineError::NoRootTree),
            })
            &&& exists|oids: Seq<Seq<char>>| #[trigger]
                is_loaded(started, after, objects, oids, commit_oid)
        },
    }
}

/// The characters of a borrowed text that may not be there.
pub open spec fn maybe_str(s: Option<&str>) -> Option<Seq<char>> {
    match s {
        Some(s) => Some(s@),
        None => None,
    }
}

impl GitEngine {
    pub closed spec fn wf(&self) -> bool {
        &&& self.trees.wf()
        &&& self.disk_cache.wf()
        &&& self.memory_cache@.wf()
    }

    /// The cache in memory is well-formed.
    pub proof fn lemma_wf(&self)
        requires
            self.wf(),
        ensures
            self@.cache.wf(),
    {
    }

    fn with_capacity(capacity: usize, disk_cache: DiskCache) -> (engine: Self)
        requires
            0 < capacity <= 4096,
            disk_cache.wf(),
        ensures
            engine.wf(),
            engine@ == (EngineView {
                disk: disk_cache@,
                ..fresh(capacity as nat, disk_cache@.base)
            }),
    {
        GitEngine {
            disk_cache,
            memory_cache: MemoryCache::new(capacity),
            trees: TextMap::new(),
            root_tree_oid: None,
            commit_oid: None,
            in_flight: StringHashMap::new(),
        }
    }

    /// A repository on a server.
    pub fn new(repo_url: &str, cache_dir: Option<&str>, home: Option<&str>) -> (engine: Self)
        ensures
            engine.wf(),
            engine@ == fresh(
                2048,
                disk::base_path(repo_url@, maybe_str(cache_dir), maybe_str(home)),
            ),
    {
        Self::new_http(repo_url, cache_dir, home)
    }

    /// A repository on a server: 2048 blobs are kept in memory.
    pub fn new_http(repo_url: &str, cache_dir: Option<&str>, home: Option<&str>) -> (engine: Self)
        ensures
            engine.wf(),
            engine@ == fresh(
                2048,
                disk::base_path(repo_url@, maybe_str(cache_dir), maybe_str(home)),
            ),
    {
        Self::with_capacity(2048, DiskCache::new(repo_url, cache_dir, home))
    }

    /// A repository in a bucket: 4096 blobs are kept in memory.
    pub fn new_gcs(bucket: &str, prefix: &str, cache_dir: Option<&str>, home: Option<&str>) -> (
        engine: Self)
        ensures
            engine.wf(),
            engine@ == fresh(
                4096,
                disk::base_path(
                    "gs://"@ + bucket@ + seq!['/'] + prefix@,
                    maybe_str(cache_dir),
                    maybe_str(home),
                ),
            ),
    {
        let mut url = text::chars_of("gs://");
        text::push_str(&mut url, bucket);
        url.push('/');
        text::push_str(&mut url, prefix);
        assert(url@ =~= "gs://"@ + bucket@ + seq!['/'] + prefix@);
        Self::with_capacity(
            4096,
            DiskCache::new(text::from_chars(url).as_str(), cache_dir, home),
        )
    }

    /// A repository in a bucket or on a server, by its address.
    pub fn new_auto(repo_target: &str, cache_dir: Option<&str>, home: Option<&str>) -> (engine:
        Self)
        ensures
            engine.wf(),
            engine@ == (if text::starts_with(repo_target@, "gs://"@) {
                let (bucket, prefix) = bucket_and_prefix(
                    repo_target@.skip("gs://"@.len() as int),
                );
                fresh(
                    4096,
                    disk::base_path(
                        "gs://"@ + bucket + seq!['/'] + prefix,
                        maybe_str(cache_dir),
                        maybe_str(home),
                    ),
                )
            } else {
                fresh(
                    2048,
                    disk::base_path(repo_target@, maybe_str(cache_dir), maybe_str(home)),
                )
            }),
    {
        match parse_target(repo_target) {
            RepoTarget::Gcs { bucket, prefix } => Self::new_gcs(
                bucket.as_str(),
                prefix.as_str(),
                cache_dir,
                home,
            ),
            RepoTarget::Http => Self::new_http(repo_target, cache_dir, home),
        }
    }

    pub fn disk_cache(&self) -> (cache: &DiskCache)
        requires
            self.wf(),
        ensures
            cache@ == self@.disk,
            cache.wf(),
    {
        &self.disk_cache
    }

    pub fn memory_cache(&self) -> (cache: &MemoryCache)
        ensures
            cache@ == self@.cache,
    {
        &self.memory_cache
    }

    pub fn get_root_tree_oid(&self) -> (oid: Option<String>)
        ensures
            maybe(oid) == self@.root_tree,
    {
        match &self.root_tree_oid {
            Some(oid) => Some(oid.clone()),
            None => None,
        }
    }

    pub fn base_commit_oid(&self) -> (oid: Option<String>)
        ensures
            maybe(oid) == self@.commit,
    {
        match &self.commit_oid {
            Some(oid) => Some(oid.clone()),
            None => None,
        }
    }

    pub fn get_tree(&self, oid: &str) -> (r: Option<&GitTree>)
        requires
            self.wf(),
        ensures
            match r {
                Some(t) => self@.trees.contains_key(oid@) && t@ == self@.trees[oid@],
                None => !self@.trees.contains_key(oid@),
            },
    {
        self.trees.get(oid)
    }

    /// Moves to a commit.
    pub(crate) fn set_commit(&mut self, oid: &str)
        requires
            old(self).wf(),
        ensures
            final(self).wf(),
            final(self)@ == (EngineView { commit: Some(oid@), ..old(self)@ }),
    {
        self.commit_oid = Some(oid.to_string());
    }

    /// Moves to a root tree.
    pub(crate) fn set_root_tree(&mut self, oid: &str)
        requires
            old(self).wf(),
        ensures
            final(self).wf(),
            final(self)@ == (EngineView { root_tree: Some(oid@), ..old(self)@ }),
    {
        self.root_tree_oid = Some(oid.to_string());
    }

    /// Asks the cache in memory for a blob.
    pub fn cached_blob(&mut self, oid: &str) -> (r: Option<Arc<Vec<u8>>>)
        requires
            old(self).wf(),
        ensures
            final(self).wf(),
            final(self)@ == old(self)@.asked(oid@),
            match r {
                Some(data) => old(self)@.cache.lookup(oid@) == Some(data@),
                None => old(self)@.cache.lookup(oid@) is None,
            },
    {
        self.memory_cache.get(oid)
    }

    /// Notes that a blob of a size was found on disk.
    pub fn note_blob_size(&mut self, oid: &str, size: u64)
        requires
            old(self).wf(),
        ensures
            final(self).wf(),
            final(self)@ == (EngineView {
                disk: DiskView {
                    sizes: old(self)@.disk.sizes.insert(oid@, size),
                    ..old(self)@.disk
                },
                ..old(self)@
            }),
    {
        self.disk_cache.put_blob(oid, size);
    }

    /// The size of a blob that is in memory or on disk. The cache in memory is asked for it.
    pub fn known_size(&mut self, oid: &str) -> (size: Option<u64>)
        requires
            old(self).wf(),
        ensures
            final(self).wf(),
            final(self)@ == old(self)@.asked(oid@),
            size == old(self)@.known_size(oid@),
    {
        match self.cached_blob(oid) {
            Some(blob) => Some(blob.len() as u64),
            None => self.disk_cache.get_blob_size(oid),
        }
    }

    /// The size that is shown for a blob. The cache in memory is asked for it.
    pub fn shown_size(&mut self, oid: &str) -> (size: u64)
        requires
            old(self).wf(),
        ensures
            final(self).wf(),
            final(self)@ == old(self)@.asked(oid@),
            size == old(self)@.shown_size(oid@),
    {
        match self.known_size(oid) {
            Some(len) => len,
            None => 1_048_576,
        }
    }

    fn put_blob(&mut self, oid: &str, data: Arc<Vec<u8>>)
        requires
            old(self).wf(),
        ensures
            final(self).wf(),
            final(self)@ == old(self)@.with_blob(oid@, data@),
    {
        let size: u64 = data.len() as u64;
        self.memory_cache.put(oid, data);
        self.disk_cache.put_blob(oid, size);
    }

    fn put_tree(&mut self, oid: &str, data: &[u8])
        requires
            old(self).wf(),
        ensures
            final(self).wf(),
            final(self)@ == (match tree::tree_from(data@, 0) {
                Ok(items) => old(self)@.with_tree(oid@, items),
                Err(_) => old(self)@,
            }),
    {
        match GitTree::parse(data) {
            Ok(t) => {
                self.trees.insert(oid.to_string(), t);
                assert(self@ =~= old(self)@.with_tree(oid@, t@));
            },
            Err(_) => {},
        }
    }

    /// Takes the packfile with the commit and all its trees: keeps the trees, and finds the
    /// root tree. Nothing but the commit changes where the packfile cannot be unpacked.
    pub fn load_trees(&mut self, commit_oid: &str, pack_bytes: &[u8]) -> (r: Result<
        String,
        EngineError,
    >)
        requires
            old(self).wf(),
        ensures
            final(self).wf(),
            is_load(
                old(self)@,
                final(self)@,
                commit_oid@,
                pack_bytes@,
                match r {
                    Ok(oid) => Ok(oid@),
                    Err(e) => Err(e),
                },
            ),
    {
        self.commit_oid = Some(commit_oid.to_string());
        let ghost started = self@;
        assert(started =~= EngineView { commit: Some(commit_oid@), ..old(self)@ });
        let objects = match pack::unpack_packfile(pack_bytes) {
            Ok(o) => o,
            Err(e) => {
                return Err(EngineError::Pack(e));
            },
        };
        let root: Option<String> = match objects.get(commit_oid) {
            Some(commit) => find_root_tree(commit.data.as_slice()),
            None => None,
        };
        let ghost oids = objects.keys();
        proof {
            objects.lemma_keys();
            assert(oids.take(0) =~= Seq::<Seq<char>>::empty());
        }
        let mut i: usize = 0;
        while i < objects.len()
            invariant
                self.wf(),
                objects.wf(),
                i <= oids.len(),
                oids == objects.keys(),
                self@ == started.with_trees(oids.take(i as int), objects@),
            decreases oids.len() - i,
        {
            assert(oids.take(i as int + 1).drop_last() =~= oids.take(i as int));
            let object = objects.value_at(i);
            if matches!(object.obj_type, ObjectType::Tree) {
                self.put_tree(objects.key_at(i).as_str(), object.data.as_slice());
            }
            i += 1;
        }
        assert(oids.take(i as int) =~= oids);
        match root {
            Some(oid) => {
                let ghost loaded = self@;
                self.root_tree_oid = Some(oid.clone());
                assert(self@ =~= EngineView { root_tree: Some(oid@), ..loaded });
                assert(is_loaded(started, self@, objects@, oids, commit_oid@));
                Ok(oid)
            },
            None => {
                assert(is_loaded(started, self@, objects@, oids, commit_oid@));
                Err(EngineError::NoRootTree)
            },
        }
    }

    /// The files of a directory whose blobs are neither in memory nor on disk. The cache in
    /// memory is asked for each of them.
    pub fn missing_blobs(&mut self, tree_oid: &str) -> (oids: Vec<String>)
        requires
            old(self).wf(),
        ensures
            final(self).wf(),
            old(self)@.trees.contains_key(tree_oid@) ==> (
            crate::git::protocol::texts(oids@),
            final(self)@,
        ) == missing_in(old(self)@.trees[tree_oid@], old(self)@),
            !old(self)@.trees.contains_key(tree_oid@) ==> oids@.len() == 0 && final(self)@
                == old(self)@,
    {
        let mut missing: Vec<String> = Vec::new();
        let tree: GitTree = match self.trees.get(tree_oid) {
            Some(t) => t.clone(),
            None => {
                return missing;
            },
        };
        let ghost items = tree@;
        let mut i: usize = 0;
        assert(items.take(0) =~= Seq::<TreeItem>::empty());
        assert(crate::git::protocol::texts(missing@) =~= Seq::<Seq<char>>::empty());
        while i < tree.entries.len()
            invariant
                self.wf(),
                i <= tree.entries@.len() == items.len(),
                items == tree@,
                (crate::git::protocol::texts(missing@), self@) == missing_in(
                    items.take(i as int),
                    old(self)@,
                ),
            decreases tree.entries@.len() - i,
        {
            let entry = &tree.entries[i];
            proof {
                assert(items.take(i as int + 1).drop_last() =~= items.take(i as int));
                assert(items.take(i as int + 1).last() == entry@);
            }
            if !entry.mode.is_dir() {
                let absent = self.cached_blob(entry.oid.as_str()).is_none();
                if absent && !self.disk_cache.has_blob(entry.oid.as_str()) {
                    let ghost before = missing@;
                    missing.push(entry.oid.clone());
                    assert(crate::git::protocol::texts(missing@)
                        =~= crate::git::protocol::texts(before).push(entry.oid@));
                }
            }
            i += 1;
        }
        assert(items.take(i as int) =~= items);
        missing
    }

    /// The blobs of a directory that are to be fetched ahead: those of its files that are neither
    /// in memory nor on disk, in batches.
    pub fn prefetch_directory_blobs(&mut self, tree_oid: &str) -> (out: Vec<Vec<String>>)
        requires
            old(self).wf(),
        ensures
            final(self).wf(),
            old(self)@.trees.contains_key(tree_oid@) ==> ({
                let (missing, after) = missing_in(old(self)@.trees[tree_oid@], old(self)@);
                all_texts(out@) == batches(missing) && final(self)@ == after
            }),
            !old(self)@.trees.contains_key(tree_oid@) ==> out@.len() == 0 && final(self)@
                == old(self)@,
    {
        let missing = self.missing_blobs(tree_oid);
        let ghost all = crate::git::protocol::texts(missing@);
        let mut out: Vec<Vec<String>> = Vec::new();
        let mut i: usize = 0;
        assert(all.skip(0) =~= all);
        assert(all_texts(out@) + batches(all) =~= batches(all));
        while i < missing.len()
            invariant
                i <= missing@.len(),
                all == crate::git::protocol::texts(missing@),
                all_texts(out@) + batches(all.skip(i as int)) == batches(all),
            decreases missing@.len() - i,
        {
            let end: usize = if missing.len() - i <= BATCH_SIZE {
                missing.len()
            } else {
                i + BATCH_SIZE
            };
            let ghost start = i as int;
            let ghost rest = all.skip(start);
            let ghost before = all_texts(out@);
            let mut batch: Vec<String> = Vec::new();
            while i < end
                invariant
                    0 <= start <= i <= end <= missing@.len(),
                    all == crate::git::protocol::texts(missing@),
                    crate::git::protocol::texts(batch@) == all.subrange(start, i as int),
                decreases end - i,
            {
                let ghost taken = batch@;
                batch.push(missing[i].clone());
                assert(crate::git::protocol::texts(batch@) =~= crate::git::protocol::texts(
                    taken,
                ).push(all[i as int]));
                i += 1;
                assert(all.subrange(start, i as int) =~= all.subrange(start, i as int - 1).push(
                    all[i as int - 1],
                ));
            }
            let ghost taken = crate::git::protocol::texts(batch@);
            out.push(batch);
            assert(all_texts(out@) =~= before.push(taken));
            proof {
                if rest.len() <= BATCH_SIZE {
                    assert(taken =~= rest);
                    assert(all.skip(i as int) =~= Seq::<Seq<char>>::empty());
                } else {
                    assert(taken =~= rest.take(64));
                    assert(all.skip(i as int) =~= rest.skip(64));
                }
            }
            assert(all_texts(out@) + batches(all.skip(i as int)) =~= before + batches(rest));
        }
        assert(all.skip(i as int) =~= Seq::<Seq<char>>::empty());
        assert(all_texts(out@) =~= batches(all));
        out
    }

    /// Keeps the objects of a packfile as blobs, and says how many there were.
    pub fn store_blobs(&mut self, objects: &TextMap<GitRawObject>) -> (count: usize)
        requires
            old(self).wf(),
            objects.wf(),
        ensures
            final(self).wf(),
            final(self)@ == old(self)@.with_blobs(objects.keys(), objects@),
            count == objects.keys().len(),
    {
        let ghost oids = objects.keys();
        assert(oids.take(0) =~= Seq::<Seq<char>>::empty());
        let mut i: usize = 0;
        while i < objects.len()
            invariant
                self.wf(),
                objects.wf(),
                i <= oids.len(),
                oids == objects.keys(),
                self@ == old(self)@.with_blobs(oids.take(i as int), objects@),
            decreases oids.len() - i,
        {
            assert(oids.take(i as int + 1).drop_last() =~= oids.take(i as int));
            let data = Arc::new(bytes::copy(objects.value_at(i).data.as_slice()));
            self.put_blob(objects.key_at(i).as_str(), data);
            i += 1;
        }
        assert(oids.take(i as int) =~= oids);
        i
    }

    /// Keeps a blob that was read.
    pub fn store_blob(&mut self, oid: &str, data: Vec<u8>)
        requires
            old(self).wf(),
        ensures
            final(self).wf(),
            final(self)@ == old(self)@.with_blob(oid@, data@),
    {
        self.put_blob(oid, Arc::new(data));
    }

    /// Takes the next step of a request for a blob: from what has happened to what has to be
    /// done. Once a fetch is over, the requests that wait for the blob are to be notified.
    pub fn get_blob_arc(&mut self, request: &mut BlobRequest, event: BlobEvent) -> (action:
        BlobAction)
        requires
            old(self).wf(),
            is_due(old(request).at(), event@),
            event matches BlobEvent::FetchedPack(objects) ==> objects.wf(),
        ensures
            final(self).wf(),
            final(request).oid() == old(request).oid(),
            (final(self)@, final(request).at(), action@) == old(self)@.stepped(
                old(request).oid(),
                old(request).at(),
                event@,
            ),
    {
        match event {
            BlobEvent::Begin => match self.cached_blob(request.oid.as_str()) {
                Some(data) => {
                    request.stage = BlobStage::Over;
                    BlobAction::Return(data)
                },
                None => {
                    request.stage = BlobStage::Disk;
                    BlobAction::ReadDisk
                },
            },
            BlobEvent::Notified => match self.cached_blob(request.oid.as_str()) {
                Some(data) => {
                    request.stage = BlobStage::Over;
                    BlobAction::Return(data)
                },
                None => {
                    request.stage = BlobStage::DiskAgain;
                    BlobAction::ReadDisk
                },
            },
            BlobEvent::Read(read) => {
                let ghost given = read;
                match self.disk_cache.get_blob(request.oid.as_str(), read) {
                    Some(data) => {
                        let kept = Arc::new(data);
                        self.memory_cache.put(request.oid.as_str(), kept.clone());
                        request.stage = BlobStage::Over;
                        assert(given is Some);
                        BlobAction::Return(kept)
                    },
                    None => {
                        assert(given is None);
                        if matches!(request.stage, BlobStage::DiskAgain) {
                            request.stage = BlobStage::Fetching;
                            return BlobAction::Fetch;
                        }
                        if self.in_flight.contains_key(request.oid.as_str()) {
                            request.stage = BlobStage::Waiting;
                            return BlobAction::Wait;
                        }
                        self.in_flight.insert(request.oid.clone(), true);
                        request.stage = BlobStage::Fetching;
                        BlobAction::Fetch
                    },
                }
            },
            BlobEvent::FetchedPack(objects) => {
                let _ = self.store_blobs(&objects);
                request.stage = BlobStage::Over;
                let action = match objects.get(request.oid.as_str()) {
                    Some(object) => BlobAction::Return(
                        Arc::new(bytes::copy(object.data.as_slice())),
                    ),
                    None => match self.cached_blob(request.oid.as_str()) {
                        Some(data) => BlobAction::Return(data),
                        None => BlobAction::Fail(EngineError::NotInPack),
                    },
                };
                self.in_flight.remove(request.oid.as_str());
                action
            },
            BlobEvent::FetchedBlob(data) => {
                let kept = Arc::new(data);
                self.put_blob(request.oid.as_str(), kept.clone());
                self.in_flight.remove(request.oid.as_str());
                request.stage = BlobStage::Over;
                BlobAction::Return(kept)
            },
            BlobEvent::Failed(e) => {
                self.in_flight.remove(request.oid.as_str());
                request.stage = BlobStage::Over;
                BlobAction::Fail(e)
            },
        }
    }

    /// Takes the objects that were recovered from a log: keeps the trees and blobs, and moves on
    /// to the new commit and its root tree.
    pub fn apply_recovered_objects(
        &mut self,
        commit_oid: &str,
        root_tree_oid: &str,
        objects: &[GitObjectToPack],
    )
        requires
            old(self).wf(),
        ensures
            final(self).wf(),
            final(self)@ == old(self)@.recovered(
                commit_oid@,
                root_tree_oid@,
                crate::git::pack_writer::objects_view(objects@),
            ),
    {
        self.commit_oid = Some(commit_oid.to_string());
        self.root_tree_oid = Some(root_tree_oid.to_string());
        let ghost started = self@;
        let ghost all = crate::git::pack_writer::objects_view(objects@);
        assert(all.take(0) =~= Seq::<ToPack>::empty());
        let mut i: usize = 0;
        while i < objects.len()
            invariant
                self.wf(),
                i <= objects@.len(),
                all == crate::git::pack_writer::objects_view(objects@),
                self@ == started.with_all_recovered(all.take(i as int)),
            decreases objects@.len() - i,
        {
            let object = &objects[i];
            assert(all.take(i as int + 1).drop_last() =~= all.take(i as int));
            assert(all.take(i as int + 1).last() == object@);
            match object.obj_type {
                ObjectType::Tree => {
                    self.put_tree(object.oid.as_str(), object.data.as_slice());
                },
                ObjectType::Blob => {
                    let data = Arc::new(bytes::copy(object.data.as_slice()));
                    self.put_blob(object.oid.as_str(), data);
                },
                _ => {},
            }
            i += 1;
        }
        assert(all.take(i as int) =~= all);
    }
}

/// How many blobs are fetched ahead at a time.
pub const BATCH_SIZE: usize = 64;

/// The characters of the names in each batch.
pub open spec fn all_texts(lists: Seq<Vec<String>>) -> Seq<Seq<Seq<char>>> {
    lists.map_values(|list: Vec<String>| crate::git::protocol::texts(list@))
}

/// Names in batches, each but the last full.
pub open spec fn batches(oids: Seq<Seq<char>>) -> Seq<Seq<Seq<char>>>
    decreases oids.len(),
{
    if oids.len() == 0 {
        Seq::empty()
    } else if oids.len() <= BATCH_SIZE {
        seq![oids]
    } else {
        seq![oids.take(BATCH_SIZE as int)] + batches(oids.skip(BATCH_SIZE as int))
    }
}

/// The batches are the names in order, and none is empty or too large.
pub proof fn lemma_batches(oids: Seq<Seq<char>>)
    ensures
        batches(oids).flatten() == oids,
        forall|i: int|
            0 <= i < batches(oids).len() ==> 0 < (#[trigger] batches(oids)[i]).len()
                <= BATCH_SIZE,
    decreases oids.len(),
{
    let all = batches(oids);
    if oids.len() == 0 {
    } else if oids.len() <= BATCH_SIZE {
        assert(all.drop_first() =~= Seq::<Seq<Seq<char>>>::empty());
        assert(all.flatten() =~= oids + all.drop_first().flatten());
    } else {
        let rest = oids.skip(BATCH_SIZE as int);
        lemma_batches(rest);
        assert(all.drop_first() =~= batches(rest));
        assert(all.flatten() =~= oids.take(BATCH_SIZE as int) + rest);
        assert forall|i: int| 0 <= i < all.len() implies 0 < (#[trigger] all[i]).len()
            <= BATCH_SIZE by {
            if i > 0 {
                assert(all[i] == batches(rest)[i - 1]);
            }
        }
    }
}

/// The queue behind the trees at its start that are already known.
pub open spec fn unknown_from(
    queue: Seq<Seq<char>>,
    trees: Map<Seq<char>, Seq<TreeItem>>,
) -> Seq<Seq<char>>
    decreases queue.len(),
{
    if queue.len() > 0 && trees.contains_key(queue[0]) {
        unknown_from(queue.drop_first(), trees)
    } else {
        queue
    }
}

/// The directories among the entries whose trees are not known.
pub open spec fn unknown_dirs(
    items: Seq<TreeItem>,
    trees: Map<Seq<char>, Seq<TreeItem>>,
) -> Seq<Seq<char>>
    decreases items.len(),
{
    if items.len() == 0 {
        Seq::empty()
    } else {
        let before = unknown_dirs(items.drop_last(), trees);
        let item = items.last();
        if item.mode == TreeEntryMode::Directory && !trees.contains_key(item.oid) {
            before.push(item.oid)
        } else {
            before
        }
    }
}

/// The repository and the queue with the bytes of a tree that was read. A tree that could not be
/// read, or is none, is passed over.
pub open spec fn fed(
    engine: EngineView,
    queue: Seq<Seq<char>>,
    oid: Seq<char>,
    raw: Option<Seq<u8>>,
) -> (EngineView, Seq<Seq<char>>) {
    match raw {
        Some(data) => match tree::tree_from(data, 0) {
            Ok(items) => (
                engine.with_tree(oid, items),
                queue + unknown_dirs(items, engine.trees),
            ),
            Err(_) => (engine, queue),
        },
        None => (engine, queue),
    }
}

/// The trees that are still to be read, in the order in which they were found.
pub struct TreeLoader {
    queue: Vec<String>,
    head: usize,
}

impl View for TreeLoader {
    type V = Seq<Seq<char>>;

    closed spec fn view(&self) -> Seq<Seq<char>> {
        crate::git::protocol::texts(self.queue@).skip(self.head as int)
    }
}

impl TreeLoader {
    pub closed spec fn wf(&self) -> bool {
        self.head <= self.queue@.len()
    }

    /// Starts with the root.
    pub fn new(root_oid: &str) -> (loader: Self)
        ensures
            loader.wf(),
            loader@ == seq![root_oid@],
    {
        let mut queue: Vec<String> = Vec::new();
        queue.push(root_oid.to_string());
        let loader = TreeLoader { queue, head: 0 };
        assert(loader@ =~= seq![root_oid@]);
        loader
    }

    /// The tree to be read next: the first that is not known.
    pub fn next(&mut self, engine: &GitEngine) -> (r: Option<String>)
        requires
            old(self).wf(),
        ensures
            final(self).wf(),
            ({
                let rest = unknown_from(old(self)@, engine@.trees);
                match r {
                    Some(oid) => rest.len() > 0 && oid@ == rest[0] && final(self)@
                        == rest.drop_first(),
                    None => rest.len() == 0 && final(self)@ == rest,
                }
            }),
    {
        while self.head < self.queue.len()
            invariant
                self.wf(),
                self.queue@ == old(self).queue@,
                unknown_from(self@, engine@.trees) == unknown_from(old(self)@, engine@.trees),
            decreases self.queue@.len() - self.head,
        {
            let ghost before = self@;
            let oid = self.queue[self.head].clone();
            assert(before[0] == oid@);
            self.head = self.head + 1;
            assert(self@ =~= before.drop_first());
            if !engine.trees.contains_key(oid.as_str()) {
                return Some(oid);
            }
        }
        assert(self@ =~= Seq::<Seq<char>>::empty());
        None
    }

    /// Takes the bytes of a tree that was read: keeps it, and queues the directories in it. A
    /// tree that could not be read, or is none, is passed over.
    pub fn feed(&mut self, engine: &mut GitEngine, oid: &str, raw: Option<&[u8]>)
        requires
            old(self).wf(),
            old(engine).wf(),
        ensures
            final(self).wf(),
            final(engine).wf(),
            (final(engine)@, final(self)@) == fed(
                old(engine)@,
                old(self)@,
                oid@,
                match raw {
                    Some(data) => Some(data@),
                    None => None,
                },
            ),
    {
        let data: &[u8] = match raw {
            Some(d) => d,
            None => {
                return ;
            },
        };
        let parsed = match GitTree::parse(data) {
            Ok(t) => t,
            Err(_) => {
                return ;
            },
        };
        let ghost items = parsed@;
        let ghost trees = engine@.trees;
        let mut i: usize = 0;
        assert(items.take(0) =~= Seq::<TreeItem>::empty());
        assert(self@ + Seq::<Seq<char>>::empty() =~= self@);
        while i < parsed.entries.len()
            invariant
                self.wf(),
                engine.wf(),
                engine@ == old(engine)@,
                trees == engine@.trees,
                i <= parsed.entries@.len() == items.len(),
                items == parsed@,
                self@ == old(self)@ + unknown_dirs(items.take(i as int), trees),
            decreases parsed.entries@.len() - i,
        {
            let entry = &parsed.entries[i];
            proof {
                assert(items.take(i as int + 1).drop_last() =~= items.take(i as int));
                assert(items.take(i as int + 1).last() == entry@);
            }
            if entry.mode.is_dir() && !engine.trees.contains_key(entry.oid.as_str()) {
                let ghost before = self@;
                self.queue.push(entry.oid.clone());
                assert(self@ =~= before.push(entry.oid@));
                assert(self@ =~= old(self)@ + unknown_dirs(items.take(i as int), trees).push(
                    entry.oid@,
                ));
            }
            i += 1;
        }
        assert(items.take(i as int) =~= items);
        engine.trees.insert(oid.to_string(), parsed);
        assert(engine@ =~= old(engine)@.with_tree(oid@, items));
    }
}

/// The blobs among the entries of a directory that are neither in memory nor on disk, and the
/// repository once the cache was asked for each.
pub open spec fn missing_in(items: Seq<TreeItem>, engine: EngineView) -> (
    Seq<Seq<char>>,
    EngineView,
)
    decreases items.len(),
{
    if items.len() == 0 {
        (Seq::empty(), engine)
    } else {
        let (before, asked) = missing_in(items.drop_last(), engine);
        let item = items.last();
        if item.mode == TreeEntryMode::Directory {
            (before, asked)
        } else if asked.cache.lookup(item.oid) is None && !asked.disk.sizes.contains_key(
            item.oid,
        ) {
            (before.push(item.oid), asked.asked(item.oid))
        } else {
            (before, asked.asked(item.oid))
        }
    }
}

} // verus!
