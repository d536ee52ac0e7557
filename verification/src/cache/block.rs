//! Packfiles in blocks that are fetched when they are needed.

use lru::LruCache;
use std::sync::Arc;
use vstd::hash_map::StringHashMap;
use vstd::prelude::*;
use vstd::slice::slice_subrange;

use crate::bytes;
use crate::cache::lru_store;
use crate::cache::memory;
use crate::text;

verus! {

/// The size of a block where none was asked for: ten mebibytes.
pub const DEFAULT_BLOCK_SIZE: usize = 10_485_760;

/// How many blocks are kept in memory.
pub const BLOCKS_IN_MEMORY: usize = 32;

/// The last part of a packfile's name.
pub open spec fn filename(pack_name: Seq<char>) -> Seq<char> {
    text::split(pack_name, '/').last()
}

/// What a block is kept under: the packfile's name and the number of the block.
pub open spec fn block_key(file: Seq<char>, index: u64) -> Seq<char> {
    file + seq!['/'] + text::numeral(index as nat, 10)
}

/// The blocks in memory, the keys of those being fetched, and how often a block was there.
#[verifier::ext_equal]
pub struct BlockView {
    pub block_size: nat,
    pub entries: Seq<(Seq<char>, Seq<u8>)>,
    pub capacity: nat,
    pub in_flight: Map<Seq<char>, bool>,
    pub hits: u64,
    pub misses: u64,
}

/// How far a request for a block has come.
#[derive(Debug, Clone, Copy, PartialEq, Eq, Structural)]
pub enum BlockStage {
    /// Nothing has been looked at.
    Start,
    /// The block's file is being read.
    Disk,
    /// Another request is fetching the block.
    Waiting,
    /// The other request is done, and the block's file is being read.
    DiskAgain,
    /// The block is being fetched for this request.
    Fetching,
    /// The request is answered.
    Over,
}

/// What has happened since the last step of a request.
pub enum BlockEvent {
    Begin,
    /// The block's file was read, or is not there.
    Read(Option<Vec<u8>>),
    /// The other request is done.
    Notified,
    /// The block was fetched, or could not be.
    Fetched(Option<Vec<u8>>),
}

/// What has to be done next for a request.
pub enum BlockAction {
    Return(Arc<Vec<u8>>),
    ReadDisk,
    Wait,
    Fetch { offset: u64, len: usize },
    Fail,
}

/// What has happened, by the bytes.
pub enum EventView {
    Begin,
    Read(Option<Seq<u8>>),
    Notified,
    Fetched(Option<Seq<u8>>),
}

/// What has to be done, by the bytes.
pub enum ActionView {
    Return(Seq<u8>),
    ReadDisk,
    Wait,
    Fetch { offset: int, len: nat },
    Fail,
}

impl View for BlockEvent {
    type V = EventView;

    open spec fn view(&self) -> EventView {
        match self {
            BlockEvent::Begin => EventView::Begin,
            BlockEvent::Read(Some(data)) => EventView::Read(Some(data@)),
            BlockEvent::Read(None) => EventView::Read(None),
            BlockEvent::Notified => EventView::Notified,
            BlockEvent::Fetched(Some(data)) => EventView::Fetched(Some(data@)),
            BlockEvent::Fetched(None) => EventView::Fetched(None),
        }
    }
}

impl View for BlockAction {
    type V = ActionView;

    open spec fn view(&self) -> ActionView {
        match self {
            BlockAction::Return(data) => ActionView::Return(data@),
            BlockAction::ReadDisk => ActionView::ReadDisk,
            BlockAction::Wait => ActionView::Wait,
            BlockAction::Fetch { offset, len } => ActionView::Fetch {
                offset: *offset as int,
                len: *len as nat,
            },
            BlockAction::Fail => ActionView::Fail,
        }
    }
}

/// Whether an event can come at a stage.
pub open spec fn is_due(stage: BlockStage, event: EventView) -> bool {
    match stage {
        BlockStage::Start => event is Begin,
        BlockStage::Disk => event is Read,
        BlockStage::Waiting => event is Notified,
        BlockStage::DiskAgain => event is Read,
        BlockStage::Fetching => event is Fetched,
        BlockStage::Over => false,
    }
}

impl BlockView {
    /// With a block in memory.
    pub open spec fn with(self, key: Seq<char>, data: Seq<u8>) -> BlockView {
        BlockView { entries: lru_store::stored(self.entries, self.capacity, key, data), ..self }
    }

    /// With one more hit.
    pub open spec fn hit(self) -> BlockView {
        BlockView { hits: memory::counted(self.hits), ..self }
    }

    /// What comes of claiming a block: the request fetches it, or waits for the one that does.
    pub open spec fn claimed(self, key: Seq<char>, index: u64) -> (
        BlockView,
        BlockStage,
        ActionView,
    ) {
        if self.in_flight.contains_key(key) {
            (self, BlockStage::Waiting, ActionView::Wait)
        } else {
            (
                BlockView {
                    in_flight: self.in_flight.insert(key, true),
                    misses: memory::counted(self.misses),
                    ..self
                },
                BlockStage::Fetching,
                ActionView::Fetch { offset: index * self.block_size, len: self.block_size },
            )
        }
    }

    /// The step of a request for a block: from memory, or else from disk, or else from whoever
    /// fetches it, or else by fetching it.
    pub open spec fn stepped(
        self,
        key: Seq<char>,
        index: u64,
        stage: BlockStage,
        event: EventView,
    ) -> (BlockView, BlockStage, ActionView) {
        match event {
            EventView::Begin => match lru_store::value_of(self.entries, key) {
                Some(data) => (
                    BlockView { entries: lru_store::used(self.entries, key), ..self }.hit(),
                    BlockStage::Over,
                    ActionView::Return(data),
                ),
                None => (self, BlockStage::Disk, ActionView::ReadDisk),
            },
            EventView::Read(Some(data)) => (
                if stage == BlockStage::Disk {
                    self.hit().with(key, data)
                } else {
                    self.with(key, data)
                },
                BlockStage::Over,
                ActionView::Return(data),
            ),
            EventView::Read(None) => self.claimed(key, index),
            EventView::Notified => match lru_store::value_of(self.entries, key) {
                Some(data) => (
                    BlockView { entries: lru_store::used(self.entries, key), ..self },
                    BlockStage::Over,
                    ActionView::Return(data),
                ),
                None => (self, BlockStage::DiskAgain, ActionView::ReadDisk),
            },
            EventView::Fetched(Some(data)) => (
                BlockView { in_flight: self.in_flight.remove(key), ..self.with(key, data) },
                BlockStage::Over,
                ActionView::Return(data),
            ),
            EventView::Fetched(None) => (
                BlockView { in_flight: self.in_flight.remove(key), ..self },
                BlockStage::Over,
                ActionView::Fail,
            ),
        }
    }
}

/// A request for a block.
pub struct BlockRequest {
    key: String,
    index: u64,
    stage: BlockStage,
}

impl BlockRequest {
    pub closed spec fn key(&self) -> Seq<char> {
        self.key@
    }

    pub closed spec fn index(&self) -> u64 {
        self.index
    }

    pub closed spec fn at(&self) -> BlockStage {
        self.stage
    }

    /// How far the request has come.
    pub fn stage(&self) -> (stage: BlockStage)
        ensures
            stage == self.at(),
    {
        self.stage
    }
}

/// A cache of blocks of packfiles: the most recent ones in memory, the others on disk. A block
/// that is nowhere is fetched, and by one request only.
pub struct BlockCache {
    block_size: usize,
    memory_blocks: LruCache<String, Arc<Vec<u8>>>,
    in_flight: StringHashMap<bool>,
    hits: u64,
    misses: u64,
}

impl View for BlockCache {
    type V = BlockView;

    closed spec fn view(&self) -> BlockView {
        BlockView {
            block_size: self.block_size as nat,
            entries: lru_store::lru_entries(self.memory_blocks),
            capacity: lru_store::lru_capacity(self.memory_blocks),
            in_flight: self.in_flight@,
            hits: self.hits,
            misses: self.misses,
        }
    }
}

/// The last part of a packfile's name.
pub fn extract_filename(pack_name: &str) -> (name: String)
    ensures
        name@ == filename(pack_name@),
{
    let chars = text::chars_of(pack_name);
    let parts = text::split_at_char(&chars, '/');
    let last = &parts[parts.len() - 1];
    assert(text::views(parts@).last() == last@);
    let copy = text::chars_range(last.as_slice(), 0, last.len());
    assert(copy@ =~= last@);
    text::from_chars(copy)
}

impl BlockCache {
    /// A cache of blocks of a size; zero stands for ten mebibytes.
    pub fn new(block_size: usize) -> (cache: Self)
        ensures
            cache@ == (BlockView {
                block_size: if block_size == 0 {
                    DEFAULT_BLOCK_SIZE as nat
                } else {
                    block_size as nat
                },
                entries: Seq::empty(),
                capacity: 32,
                in_flight: Map::empty(),
                hits: 0,
                misses: 0,
            }),
    {
        BlockCache {
            block_size: if block_size == 0 {
                DEFAULT_BLOCK_SIZE
            } else {
                block_size
            },
            memory_blocks: lru_store::lru_new(BLOCKS_IN_MEMORY),
            in_flight: StringHashMap::new(),
            hits: 0,
            misses: 0,
        }
    }

    /// Whether a block is in memory, or else on disk as the caller found: as a block or within
    /// the whole packfile.
    pub fn has_block(
        &self,
        pack_name: &str,
        block_index: u64,
        block_on_disk: bool,
        pack_on_disk: bool,
    ) -> (r: bool)
        ensures
            r == (lru_store::place_of(
                self@.entries,
                block_key(filename(pack_name@), block_index),
            ) is Some || block_on_disk || pack_on_disk),
    {
        let request = self.request(pack_name, block_index);
        lru_store::lru_contains(&self.memory_blocks, request.key.as_str()) || block_on_disk
            || pack_on_disk
    }

    pub fn block_size(&self) -> (n: usize)
        ensures
            n == self@.block_size,
    {
        self.block_size
    }

    pub fn hits(&self) -> (n: u64)
        ensures
            n == self@.hits,
    {
        self.hits
    }

    pub fn misses(&self) -> (n: u64)
        ensures
            n == self@.misses,
    {
        self.misses
    }

    /// The path of a whole packfile below the cache's directory.
    pub fn full_pack_path(&self, pack_name: &str) -> (path: Vec<String>)
        ensures
            crate::cache::disk::segments(path@) == seq![
                "objects"@,
                "pack"@,
                filename(pack_name@),
            ],
    {
        let mut path: Vec<String> = Vec::new();
        path.push("objects".to_string());
        path.push("pack".to_string());
        path.push(extract_filename(pack_name));
        assert(crate::cache::disk::segments(path@) =~= seq![
            "objects"@,
            "pack"@,
            filename(pack_name@),
        ]);
        path
    }

    /// The path of a block below the cache's directory.
    pub fn block_path(&self, pack_name: &str, block_index: u64) -> (path: Vec<String>)
        ensures
            crate::cache::disk::segments(path@) == seq![
                "objects"@,
                "pack"@,
                filename(pack_name@) + ".blocks"@,
                "block_"@ + text::numeral(block_index as nat, 10) + ".bin"@,
            ],
    {
        let mut path: Vec<String> = Vec::new();
        path.push("objects".to_string());
        path.push("pack".to_string());
        let mut dir = text::chars_of(extract_filename(pack_name).as_str());
        text::push_str(&mut dir, ".blocks");
        path.push(text::from_chars(dir));
        let mut name = text::chars_of("block_");
        text::push_numeral(&mut name, block_index, 10);
        text::push_str(&mut name, ".bin");
        path.push(text::from_chars(name));
        assert(crate::cache::disk::segments(path@) =~= seq![
            "objects"@,
            "pack"@,
            filename(pack_name@) + ".blocks"@,
            "block_"@ + text::numeral(block_index as nat, 10) + ".bin"@,
        ]);
        path
    }

    /// A new request for a block.
    pub fn request(&self, pack_name: &str, block_index: u64) -> (r: BlockRequest)
        ensures
            r.key() == block_key(filename(pack_name@), block_index),
            r.index() == block_index,
            r.at() == BlockStage::Start,
    {
        let mut key = text::chars_of(extract_filename(pack_name).as_str());
        key.push('/');
        text::push_numeral(&mut key, block_index, 10);
        assert(key@ =~= block_key(filename(pack_name@), block_index));
        BlockRequest { key: text::from_chars(key), index: block_index, stage: BlockStage::Start }
    }

    fn keep(&mut self, key: &String, data: Vec<u8>) -> (kept: Arc<Vec<u8>>)
        ensures
            final(self)@ == old(self)@.with(key@, data@),
            kept@ == data@,
    {
        let kept = Arc::new(data);
        lru_store::lru_put(&mut self.memory_blocks, key.clone(), kept.clone());
        kept
    }

    fn claim(&mut self, request: &mut BlockRequest) -> (action: BlockAction)
        requires
            old(request).index() * old(self)@.block_size <= u64::MAX,
        ensures
            final(request).key() == old(request).key(),
            final(request).index() == old(request).index(),
            (final(self)@, final(request).at(), action@) == old(self)@.claimed(
                old(request).key(),
                old(request).index(),
            ),
    {
        if self.in_flight.contains_key(request.key.as_str()) {
            request.stage = BlockStage::Waiting;
            return BlockAction::Wait;
        }
        self.in_flight.insert(request.key.clone(), true);
        self.misses = memory::count(self.misses);
        request.stage = BlockStage::Fetching;
        BlockAction::Fetch {
            offset: request.index * self.block_size as u64,
            len: self.block_size,
        }
    }

    /// Takes the next step of a request for a block: from what has happened to what has to be
    /// done. Once a fetch is over, the requests that wait for the block are to be notified.
    pub fn get_or_fetch_block(&mut self, request: &mut BlockRequest, event: BlockEvent) -> (action:
        BlockAction)
        requires
            is_due(old(request).at(), event@),
            old(request).index() * old(self)@.block_size <= u64::MAX,
        ensures
            final(request).key() == old(request).key(),
            final(request).index() == old(request).index(),
            (final(self)@, final(request).at(), action@) == old(self)@.stepped(
                old(request).key(),
                old(request).index(),
                old(request).at(),
                event@,
            ),
    {
        match event {
            BlockEvent::Begin => match lru_store::lru_get(
                &mut self.memory_blocks,
                request.key.as_str(),
            ) {
                Some(data) => {
                    self.hits = memory::count(self.hits);
                    request.stage = BlockStage::Over;
                    BlockAction::Return(data)
                },
                None => {
                    request.stage = BlockStage::Disk;
                    BlockAction::ReadDisk
                },
            },
            BlockEvent::Read(Some(data)) => {
                if matches!(request.stage, BlockStage::Disk) {
                    self.hits = memory::count(self.hits);
                }
                request.stage = BlockStage::Over;
                BlockAction::Return(self.keep(&request.key, data))
            },
            BlockEvent::Read(None) => self.claim(request),
            BlockEvent::Notified => match lru_store::lru_get(
                &mut self.memory_blocks,
                request.key.as_str(),
            ) {
                Some(data) => {
                    request.stage = BlockStage::Over;
                    BlockAction::Return(data)
                },
                None => {
                    request.stage = BlockStage::DiskAgain;
                    BlockAction::ReadDisk
                },
            },
            BlockEvent::Fetched(Some(data)) => {
                let kept = self.keep(&request.key, data);
                self.in_flight.remove(request.key.as_str());
                request.stage = BlockStage::Over;
                BlockAction::Return(kept)
            },
            BlockEvent::Fetched(None) => {
                self.in_flight.remove(request.key.as_str());
                request.stage = BlockStage::Over;
                BlockAction::Fail
            },
        }
    }
}

// ---------------------------------------------------------------------------------------------
// Reading across blocks

/// A read of `len` bytes from `offset` on that has come to the block `next`; `out` is what was
/// read so far.
#[verifier::ext_equal]
pub struct RangeView {
    pub offset: int,
    pub len: int,
    pub block_size: int,
    pub next: int,
    pub over: bool,
    pub out: Seq<u8>,
}

pub open spec fn min(a: int, b: int) -> int {
    if a <= b {
        a
    } else {
        b
    }
}

pub open spec fn max(a: int, b: int) -> int {
    if a >= b {
        a
    } else {
        b
    }
}

impl RangeView {
    /// The last block that is needed.
    pub open spec fn last(self) -> int {
        (self.offset + self.len - 1) / self.block_size
    }

    /// The part of the next block that was asked for.
    pub open spec fn overlap(self, block: Seq<u8>) -> Seq<u8> {
        let start = self.next * self.block_size;
        let from = max(self.offset, start) - start;
        let to = min(self.offset + self.len, start + block.len()) - start;
        if from < block.len() {
            block.subrange(from, to)
        } else {
            Seq::empty()
        }
    }

    /// The read with the next block. A block that is shorter than the others is the last.
    pub open spec fn fed(self, block: Seq<u8>) -> RangeView {
        RangeView {
            out: self.out + self.overlap(block),
            over: block.len() < self.block_size || self.next >= self.last(),
            next: self.next + 1,
            ..self
        }
    }

    /// What is read in the end, given the blocks.
    pub open spec fn result(self, blocks: spec_fn(int) -> Seq<u8>) -> Seq<u8>
        decreases self.last() + 1 - self.next,
    {
        if self.over || self.next > self.last() {
            self.out
        } else {
            self.fed(blocks(self.next)).result(blocks)
        }
    }
}

/// The start of a read: with the block that the offset lies in.
pub open spec fn range_start(offset: int, len: int, block_size: int) -> RangeView {
    RangeView {
        offset,
        len,
        block_size,
        next: offset / block_size,
        over: len == 0,
        out: Seq::empty(),
    }
}

/// The `b`-th block of a packfile.
pub open spec fn block_of(pack: Seq<u8>, block_size: int, b: int) -> Seq<u8> {
    if b * block_size >= pack.len() {
        Seq::empty()
    } else {
        pack.subrange(b * block_size, min((b + 1) * block_size, pack.len() as int))
    }
}

/// The bytes of a packfile from `offset` on, `len` of them or as many as there are.
pub open spec fn range_of(pack: Seq<u8>, offset: int, len: int) -> Seq<u8> {
    if offset >= pack.len() {
        Seq::empty()
    } else {
        pack.subrange(offset, min(offset + len, pack.len() as int))
    }
}

/// A read of a range of a packfile, block by block.
pub struct RangeReader {
    offset: u64,
    len: u64,
    block_size: u64,
    next: u64,
    over: bool,
    out: Vec<u8>,
}

impl View for RangeReader {
    type V = RangeView;

    closed spec fn view(&self) -> RangeView {
        RangeView {
            offset: self.offset as int,
            len: self.len as int,
            block_size: self.block_size as int,
            next: self.next as int,
            over: self.over,
            out: self.out@,
        }
    }
}

impl RangeReader {
    pub closed spec fn wf(&self) -> bool {
        &&& self.block_size > 0
        &&& self.offset + self.len <= u64::MAX
        &&& !self.over ==> self.len > 0 && self@.next <= self@.last()
    }

    /// Starts to read.
    pub fn new(offset: u64, len: u64, block_size: u64) -> (r: Self)
        requires
            block_size > 0,
            offset + len <= u64::MAX,
        ensures
            r.wf(),
            r@ == range_start(offset as int, len as int, block_size as int),
    {
        proof {
            if len > 0 {
                vstd::arithmetic::div_mod::lemma_div_is_ordered(
                    offset as int,
                    offset + len - 1,
                    block_size as int,
                );
            }
        }
        RangeReader {
            offset,
            len,
            block_size,
            next: offset / block_size,
            over: len == 0,
            out: Vec::new(),
        }
    }

    /// The block that is needed next.
    pub fn next_block(&self) -> (r: Option<u64>)
        requires
            self.wf(),
        ensures
            match r {
                Some(b) => !self@.over && b == self@.next && b * self@.block_size <= u64::MAX,
                None => self@.over,
            },
    {
        if self.over {
            None
        } else {
            proof {
                self.lemma_next_fits();
            }
            Some(self.next)
        }
    }

    proof fn lemma_next_fits(&self)
        requires
            self.wf(),
            !self.over,
        ensures
            self@.next * self@.block_size <= self@.offset + self@.len - 1,
    {
        let v = self@;
        let end = v.offset + v.len - 1;
        vstd::arithmetic::div_mod::lemma_fundamental_div_mod(end, v.block_size);
        vstd::arithmetic::div_mod::lemma_mod_bound(end, v.block_size);
        assert(v.next * v.block_size <= v.last() * v.block_size) by (nonlinear_arith)
            requires
                v.next <= v.last(),
                v.block_size > 0,
        ;
        assert(v.block_size * v.last() == v.last() * v.block_size) by (nonlinear_arith);
    }

    /// Takes the block that was needed.
    pub fn push_block(&mut self, block: &[u8])
        requires
            old(self).wf(),
            !old(self)@.over,
            block@.len() <= old(self)@.block_size,
        ensures
            final(self).wf(),
            final(self)@ == old(self)@.fed(block@),
            forall|blocks: spec_fn(int) -> Seq<u8>| #[trigger]
                blocks(old(self)@.next) == block@ ==> final(self)@.result(blocks) == old(
                    self,
                )@.result(blocks),
    {
        proof {
            self.lemma_next_fits();
        }
        let ghost before = self@;
        let start: u64 = self.next * self.block_size;
        let from: u64 = if self.offset > start {
            self.offset - start
        } else {
            0
        };
        let size: u64 = block.len() as u64;
        if from < size {
            let asked: u64 = self.offset + self.len - start;
            let to: u64 = if asked < size {
                asked
            } else {
                size
            };
            bytes::append(
                &mut self.out,
                slice_subrange(block, from as usize, to as usize),
            );
        }
        assert(self.out@ =~= before.out + before.overlap(block@));
        let last: u64 = (self.offset + self.len - 1) / self.block_size;
        if size < self.block_size || self.next >= last {
            self.over = true;
        }
        proof {
            vstd::arithmetic::div_mod::lemma_div_is_ordered_by_denominator(
                before.offset + before.len - 1,
                1,
                before.block_size,
            );
        }
        self.next = self.next + 1;
        assert(self@ =~= before.fed(block@));
    }

    /// What was read.
    pub fn finish(self) -> (out: Vec<u8>)
        ensures
            out@ == self@.out,
    {
        self.out
    }
}

proof fn lemma_read_from(v: RangeView, pack: Seq<u8>)
    requires
        v.block_size > 0,
        v.len > 0,
        0 <= v.offset,
        !v.over,
        0 <= v.next <= v.last(),
        v.offset < v.next * v.block_size + v.block_size,
        v.next * v.block_size <= v.offset || v.next * v.block_size <= pack.len(),
        v.out == range_of(pack, v.offset, max(v.next * v.block_size - v.offset, 0)),
    ensures
        v.result(|b: int| block_of(pack, v.block_size, b)) == range_of(pack, v.offset, v.len),
    decreases v.last() - v.next,
{
    let blocks = |b: int| block_of(pack, v.block_size, b);
    let start = v.next * v.block_size;
    let end = v.offset + v.len;
    let block = block_of(pack, v.block_size, v.next);
    assert((v.next + 1) * v.block_size == start + v.block_size) by (nonlinear_arith)
        requires
            start == v.next * v.block_size,
    ;
    assert(start >= 0) by (nonlinear_arith)
        requires
            start == v.next * v.block_size,
            v.next >= 0,
            v.block_size > 0,
    ;
    vstd::arithmetic::div_mod::lemma_fundamental_div_mod(end - 1, v.block_size);
    vstd::arithmetic::div_mod::lemma_mod_bound(end - 1, v.block_size);
    let last_start = v.block_size * v.last();
    assert(start <= last_start) by (nonlinear_arith)
        requires
            start == v.next * v.block_size,
            last_start == v.block_size * v.last(),
            v.next <= v.last(),
            v.block_size > 0,
    ;
    let part = v.overlap(block);
    let next = v.fed(block);
    let to = min(min(end, start + v.block_size), pack.len() as int);
    assert(next.out =~= (if v.offset >= pack.len() {
        Seq::empty()
    } else {
        pack.subrange(v.offset, to)
    })) by {
        if v.offset < pack.len() && start < pack.len() {
            let from = max(v.offset, start);
            assert(part =~= pack.subrange(from, to));
            assert(v.out =~= pack.subrange(v.offset, from));
            assert(pack.subrange(v.offset, from) + pack.subrange(from, to) =~= pack.subrange(
                v.offset,
                to,
            ));
        }
    }
    if next.over {
        if v.next >= v.last() {
            assert(start == last_start) by (nonlinear_arith)
                requires
                    start == v.next * v.block_size,
                    last_start == v.block_size * v.last(),
                    v.next == v.last(),
            ;
            assert(end <= start + v.block_size);
        }
        assert(next.result(blocks) == next.out);
    } else {
        assert(start + v.block_size <= last_start) by (nonlinear_arith)
            requires
                start == v.next * v.block_size,
                last_start == v.block_size * v.last(),
                v.next < v.last(),
                v.block_size > 0,
        ;
        assert(next.out =~= range_of(pack, v.offset, start + v.block_size - v.offset));
        lemma_read_from(next, pack);
    }
}

/// Read block by block, a range of a packfile is what stands there in the packfile.
pub proof fn lemma_read_range(pack: Seq<u8>, offset: int, len: int, block_size: int)
    requires
        0 <= offset,
        0 <= len,
        block_size > 0,
    ensures
        range_start(offset, len, block_size).result(|b: int| block_of(pack, block_size, b))
            == range_of(pack, offset, len),
{
    let v = range_start(offset, len, block_size);
    if len > 0 {
        vstd::arithmetic::div_mod::lemma_div_is_ordered(offset, offset + len - 1, block_size);
        vstd::arithmetic::div_mod::lemma_fundamental_div_mod(offset, block_size);
        vstd::arithmetic::div_mod::lemma_mod_bound(offset, block_size);
        vstd::arithmetic::div_mod::lemma_div_pos_is_pos(offset, block_size);
        assert(block_size * v.next == v.next * block_size) by (nonlinear_arith);
        assert(v.out =~= range_of(pack, offset, 0));
        lemma_read_from(v, pack);
    } else {
        assert(range_of(pack, offset, 0) =~= Seq::<u8>::empty());
    }
}

proof fn lemma_numeral_no_slash(n: nat)
    ensures
        forall|i: int|
            0 <= i < text::numeral(n, 10).len() ==> #[trigger] text::numeral(n, 10)[i] != '/',
    decreases n,
{
    let all = text::numeral(n, 10);
    let low = text::digit((n % 10) as int);
    assert(low != '/');
    if n >= 10 {
        lemma_numeral_no_slash(n / 10);
        let high = text::numeral(n / 10, 10);
        assert(all == high.push(low));
        assert forall|i: int| 0 <= i < all.len() implies #[trigger] all[i] != '/' by {
            if i < high.len() {
                assert(all[i] == high[i]);
            }
        }
    } else {
        assert(all == seq![low]);
    }
}

/// Blocks are kept under different keys, unless they are the same block of the same file.
pub proof fn lemma_block_keys(a: Seq<char>, i: u64, b: Seq<char>, j: u64)
    requires
        block_key(a, i) == block_key(b, j),
        !a.contains('/'),
        !b.contains('/'),
    ensures
        a == b,
        i == j,
{
    let x = text::numeral(i as nat, 10);
    let y = text::numeral(j as nat, 10);
    let key = block_key(a, i);
    lemma_numeral_no_slash(i as nat);
    lemma_numeral_no_slash(j as nat);
    assert(key[a.len() as int] == '/');
    assert(block_key(b, j)[b.len() as int] == '/');
    if a.len() < b.len() {
        assert(block_key(b, j)[a.len() as int] == b[a.len() as int]);
        assert(b.contains('/'));
    }
    if b.len() < a.len() {
        assert(key[b.len() as int] == a[b.len() as int]);
        assert(a.contains('/'));
    }
    assert(a =~= key.take(a.len() as int));
    assert(b =~= key.take(a.len() as int));
    assert(x =~= key.skip(a.len() as int + 1));
    assert(y =~= key.skip(a.len() as int + 1));
    text::lemma_numeral_parsed(i as nat, 10, u64::MAX as nat);
    text::lemma_numeral_parsed(j as nat, 10, u64::MAX as nat);
}

impl BlockView {
    /// Whether no block is in memory twice and there is room for all.
    pub open spec fn wf(self) -> bool {
        lru_store::is_store(self.entries, self.capacity)
    }
}

/// A block is fetched by one request at a time: a request sets out to fetch it only where no other
/// does, and while it is being fetched no step of another request fetches it, or takes the note
/// of it away.
pub proof fn lemma_fetched_once(
    v: BlockView,
    key: Seq<char>,
    index: u64,
    stage: BlockStage,
    event: EventView,
)
    requires
        is_due(stage, event),
    ensures
        ({
            let (next, then, action) = v.stepped(key, index, stage, event);
            &&& action is Fetch <==> then == BlockStage::Fetching
            &&& action is Fetch ==> !v.in_flight.contains_key(key) && next.in_flight.contains_key(
                key,
            )
            &&& v.in_flight.contains_key(key) && stage != BlockStage::Fetching
                ==> next.in_flight.contains_key(key)
            &&& stage == BlockStage::Fetching ==> !next.in_flight.contains_key(key)
            &&& forall|other: Seq<char>|
                other != key ==> (#[trigger] next.in_flight.contains_key(other)
                    == v.in_flight.contains_key(other))
        }),
{
}

/// A block that a request got is in memory: the next request for it gets the same bytes at once.
pub proof fn lemma_block_kept(
    v: BlockView,
    key: Seq<char>,
    index: u64,
    stage: BlockStage,
    event: EventView,
)
    requires
        v.wf(),
        is_due(stage, event),
    ensures
        ({
            let (next, then, action) = v.stepped(key, index, stage, event);
            &&& next.wf()
            &&& action matches ActionView::Return(data) ==> next.stepped(
                key,
                index,
                BlockStage::Start,
                EventView::Begin,
            ).2 == ActionView::Return(data)
        }),
{
    lru_store::lemma_used(v.entries, v.capacity, key, key);
    match event {
        EventView::Read(Some(data)) => {
            lru_store::lemma_stored(v.entries, v.capacity, key, data, key);
        },
        EventView::Fetched(Some(data)) => {
            lru_store::lemma_stored(v.entries, v.capacity, key, data, key);
        },
        _ => {},
    }
}

/// How a range of a packfile is read.
pub enum RangePlan {
    /// Nothing was asked for.
    Nothing,
    /// From the whole packfile, which is on disk: so many bytes from the offset on.
    Whole { len: u64 },
    /// Block by block.
    Blocks(RangeReader),
}

impl BlockCache {
    /// Decides how a range is read: from the whole packfile where that is on disk, with a length
    /// of `full_len`, and block by block otherwise.
    pub fn read_range(&self, offset: u64, len: u64, full_len: Option<u64>) -> (plan: RangePlan)
        requires
            self@.block_size > 0,
            len > 0 && full_len is None ==> offset + len <= u64::MAX,
        ensures
            len == 0 <==> plan is Nothing,
            len > 0 ==> match full_len {
                Some(size) => plan matches RangePlan::Whole { len: n } && n == whole_len(
                    offset as int,
                    len as int,
                    size as int,
                ),
                None => plan matches RangePlan::Blocks(reader) && reader.wf() && reader@
                    == range_start(offset as int, len as int, self@.block_size as int),
            },
    {
        if len == 0 {
            return RangePlan::Nothing;
        }
        match full_len {
            Some(size) => RangePlan::Whole {
                len: if offset >= size {
                    0
                } else if len < size - offset {
                    len
                } else {
                    size - offset
                },
            },
            None => RangePlan::Blocks(RangeReader::new(offset, len, self.block_size as u64)),
        }
    }
}

/// How many bytes of a packfile of a size are there to be read in a range.
pub open spec fn whole_len(offset: int, len: int, size: int) -> int {
    if offset >= size {
        0
    } else {
        min(len, size - offset)
    }
}

/// The bytes that are read from a whole packfile are those of the range, as when it is read block
/// by block.
pub proof fn lemma_read_whole(pack: Seq<u8>, offset: int, len: int)
    requires
        0 <= offset,
        0 <= len,
    ensures
        range_of(pack, offset, len).len() == whole_len(offset, len, pack.len() as int),
        offset < pack.len() ==> range_of(pack, offset, len) == pack.subrange(
            offset,
            offset + whole_len(offset, len, pack.len() as int),
        ),
{
}

} // verus!
