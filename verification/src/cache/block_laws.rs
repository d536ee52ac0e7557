//! What requests for blocks of packfiles are given, and where blocks lie.

use vstd::prelude::*;

use crate::cache::block;
use crate::cache::block::{ActionView, BlockStage, BlockView, EventView};
use crate::cache::lru_store;
use crate::text;
use crate::text_laws;

verus! {

/// A request for a block is given the bytes that are in memory; or else those that are read from
/// disk; or else those that are fetched. It fails where they could not be.
pub proof fn lemma_block_given(
    v: BlockView,
    key: Seq<char>,
    index: u64,
    stage: BlockStage,
    data: Seq<u8>,
)
    ensures
        lru_store::value_of(v.entries, key) == Some(data) ==> v.stepped(
            key,
            index,
            BlockStage::Start,
            EventView::Begin,
        ).2 == ActionView::Return(data),
        lru_store::value_of(v.entries, key) is None ==> v.stepped(
            key,
            index,
            BlockStage::Start,
            EventView::Begin,
        ).2 is ReadDisk,
        lru_store::value_of(v.entries, key) == Some(data) ==> v.stepped(
            key,
            index,
            BlockStage::Waiting,
            EventView::Notified,
        ).2 == ActionView::Return(data),
        lru_store::value_of(v.entries, key) is None ==> v.stepped(
            key,
            index,
            BlockStage::Waiting,
            EventView::Notified,
        ).2 is ReadDisk,
        v.stepped(key, index, stage, EventView::Read(Some(data))).2 == ActionView::Return(data),
        v.stepped(key, index, stage, EventView::Fetched(Some(data))).2 == ActionView::Return(data),
        v.stepped(key, index, stage, EventView::Fetched(None)).2 is Fail,
{
}

/// A block that is neither in memory nor on disk is fetched from where it lies in its packfile, as
/// many bytes as a block has, unless another request fetches it already: that one is waited for.
pub proof fn lemma_block_fetched(v: BlockView, key: Seq<char>, index: u64, stage: BlockStage)
    ensures
        ({
            let (next, then, action) = v.stepped(key, index, stage, EventView::Read(None));
            &&& v.in_flight.contains_key(key) ==> action is Wait && then == BlockStage::Waiting
            &&& !v.in_flight.contains_key(key) ==> {
                &&& action matches ActionView::Fetch { offset, len } && offset == index
                    * v.block_size && len == v.block_size
                &&& then == BlockStage::Fetching
                &&& next.in_flight.contains_key(key)
            }
        }),
{
}

/// A block is kept under the name of its file, a slash, and its number in decimal digits; the name
/// of the file is what stands behind the last slash of the packfile's.
pub proof fn lemma_key(dir: Seq<char>, file: Seq<char>, index: u64)
    requires
        forall|i: int| 0 <= i < file.len() ==> #[trigger] file[i] != '/',
    ensures
        block::block_key(file, index) == file + seq!['/'] + text::numeral(index as nat, 10),
        text_laws::are_digits_of(text::numeral(index as nat, 10), 10, index as nat),
        block::filename(dir + seq!['/'] + file) == file,
        block::filename(file) == file,
{
    text_laws::lemma_numeral(index as nat, 10);
    lemma_behind(dir, file);
    lemma_alone(file);
}

proof fn lemma_alone(file: Seq<char>)
    requires
        forall|i: int| 0 <= i < file.len() ==> #[trigger] file[i] != '/',
    ensures
        text::split(file, '/').last() == file,
        text::split(file, '/').len() > 0,
    decreases file.len(),
{
    if file.len() > 0 {
        let front = file.drop_last();
        assert forall|i: int| 0 <= i < front.len() implies #[trigger] front[i] != '/' by {
            assert(front[i] == file[i]);
        }
        lemma_alone(front);
        assert(front.push(file.last()) =~= file);
        assert(file[file.len() - 1] != '/');
    }
}

proof fn lemma_behind(dir: Seq<char>, file: Seq<char>)
    requires
        forall|i: int| 0 <= i < file.len() ==> #[trigger] file[i] != '/',
    ensures
        text::split(dir + seq!['/'] + file, '/').last() == file,
        text::split(dir + seq!['/'] + file, '/').len() > 0,
    decreases file.len(),
{
    let whole = dir + seq!['/'] + file;
    if file.len() > 0 {
        let front = file.drop_last();
        assert forall|i: int| 0 <= i < front.len() implies #[trigger] front[i] != '/' by {
            assert(front[i] == file[i]);
        }
        lemma_behind(dir, front);
        assert(whole.drop_last() =~= dir + seq!['/'] + front);
        assert(whole.last() == file[file.len() - 1]);
        assert(front.push(file.last()) =~= file);
    } else {
        assert(whole.last() == '/');
        assert(file =~= Seq::<char>::empty());
    }
}

/// Of a range of a packfile, the bytes from its offset on are read: as many as were asked for, or as
/// are there.
pub proof fn lemma_range(pack: Seq<u8>, offset: int, len: int, i: int)
    requires
        0 <= offset,
        0 <= len,
    ensures
        ({
            let read = block::range_of(pack, offset, len);
            &&& offset >= pack.len() ==> read.len() == 0
            &&& offset + len <= pack.len() ==> read.len() == len
            &&& offset < pack.len() < offset + len ==> read.len() == pack.len() - offset
            &&& 0 <= i < read.len() ==> read[i] == pack[offset + i]
        }),
{
}

} // verus!
