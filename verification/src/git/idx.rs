//! Pack indexes of version two: where in its packfile each object stands.

use vstd::prelude::*;

use crate::bytes;
use crate::git::hash;
use crate::sorting;

verus! {

/// Why an index was refused.
#[derive(Debug, Clone, Copy, PartialEq, Eq, Structural)]
pub enum IndexError {
    /// No room for the header, the fanout table and the two checksums.
    TooShort,
    /// The index does not start with its magic.
    BadMagic,
    /// The version is not two.
    BadVersion(u32),
    /// No room for the tables of as many objects as the fanout table counts.
    Truncated,
    /// An offset in the table of large offsets that lies behind its end.
    LargeOffset,
}

/// What an index says.
#[verifier::ext_equal]
pub struct IndexView {
    pub pack_name: Seq<char>,
    /// How many names start with a byte no greater than the place in this table.
    pub fanout: Seq<u32>,
    pub shas: Seq<Seq<u8>>,
    pub offsets: Seq<u64>,
    pub pack_sha: Seq<u8>,
}

/// The number of objects, which is the last number of the fanout table.
pub open spec fn idx_count(data: Seq<u8>) -> nat {
    bytes::be32_at(data, 1028)
}

/// The `i`-th number in the table of offsets.
pub open spec fn raw_offset(data: Seq<u8>, i: int) -> nat {
    bytes::be32_at(data, 1032 + 24 * idx_count(data) + 4 * i)
}

/// Where the large offset stands that the `i`-th number points to.
pub open spec fn large_offset_place(data: Seq<u8>, i: int) -> int {
    1032 + 28 * idx_count(data) + 8 * (raw_offset(data, i) - 0x8000_0000)
}

/// The `i`-th offset: the number itself, or the large offset that it points to.
pub open spec fn offset_of(data: Seq<u8>, i: int) -> u64 {
    if raw_offset(data, i) >= 0x8000_0000 {
        bytes::be64_at(data, large_offset_place(data, i)) as u64
    } else {
        raw_offset(data, i) as u64
    }
}

/// Whether the `i`-th offset is there.
pub open spec fn offset_in_bounds(data: Seq<u8>, i: int) -> bool {
    raw_offset(data, i) >= 0x8000_0000 ==> large_offset_place(data, i) + 8 <= data.len() - 40
}

/// What the tables of an index hold.
pub open spec fn index_tables(pack_name: Seq<char>, data: Seq<u8>) -> IndexView {
    IndexView {
        pack_name,
        fanout: Seq::new(256, |i: int| bytes::be32_at(data, 8 + 4 * i) as u32),
        shas: Seq::new(
            idx_count(data),
            |i: int| data.subrange(1032 + 20 * i, 1032 + 20 * i + 20),
        ),
        offsets: Seq::new(idx_count(data), |i: int| offset_of(data, i)),
        pack_sha: data.subrange(data.len() - 40, data.len() - 20),
    }
}

/// The reading of an index.
pub open spec fn index_parsed(pack_name: Seq<char>, data: Seq<u8>) -> Result<IndexView, IndexError> {
    if data.len() < 8 + 1024 + 40 {
        Err(IndexError::TooShort)
    } else if data.subrange(0, 4) != seq![255u8, 116, 79, 99] {
        Err(IndexError::BadMagic)
    } else if bytes::be32_at(data, 4) != 2 {
        Err(IndexError::BadVersion(bytes::be32_at(data, 4) as u32))
    } else if data.len() < 1032 + 28 * idx_count(data) + 40 {
        Err(IndexError::Truncated)
    } else if exists|i: int|
        0 <= i < idx_count(data) && !(#[trigger] offset_in_bounds(data, i)) {
        Err(IndexError::LargeOffset)
    } else {
        Ok(index_tables(pack_name, data))
    }
}

/// Whether the names from `low` up to `high` are in ascending order.
pub open spec fn ascending_shas(shas: Seq<Seq<u8>>, low: int, high: int) -> bool {
    forall|i: int, j: int|
        low <= i <= j < high ==> sorting::lex_le(#[trigger] shas[i], #[trigger] shas[j])
}

/// Whether numbers are in ascending order.
pub open spec fn ascending(v: Seq<u64>) -> bool {
    forall|i: int, j: int| 0 <= i <= j < v.len() ==> v[i] <= v[j]
}

impl IndexView {
    /// The places that the fanout table gives for names that start as `sha` does.
    pub open spec fn bucket(self, sha: Seq<u8>) -> (int, int) {
        let first = sha[0] as int;
        (
            if first == 0 {
                0
            } else {
                self.fanout[first - 1] as int
            },
            self.fanout[first] as int,
        )
    }

    /// Whether there is a bucket for names that start as `sha` does.
    pub open spec fn has_bucket(self, sha: Seq<u8>) -> bool {
        self.bucket(sha).0 < self.bucket(sha).1 <= self.shas.len()
    }

    /// Whether the `i`-th object has that name and lies in its bucket.
    pub open spec fn is_at(self, sha: Seq<u8>, i: int) -> bool {
        self.has_bucket(sha) && self.bucket(sha).0 <= i < self.bucket(sha).1 && self.shas[i] == sha
    }
}

/// How much may lie between an offset and the next one, where `sorted` holds all of them; 64 KiB
/// behind the last one.
pub open spec fn gap_behind(sorted: Seq<u64>, k: int) -> u64 {
    if k + 1 < sorted.len() {
        (sorted[k + 1] - sorted[k]) as u64
    } else {
        65536
    }
}

/// Whether this is what an index answers for a name: an offset of an object of that name with
/// the gap behind it, and nothing only where there is none, or the names are out of order.
pub open spec fn is_answer(
    index: IndexView,
    sorted: Seq<u64>,
    sha: Seq<u8>,
    r: Option<(u64, u64)>,
) -> bool {
    match r {
        Some((offset, len)) => {
            &&& exists|i: int| #[trigger] index.is_at(sha, i) && index.offsets[i] == offset
            &&& exists|k: int|
                0 <= k < sorted.len() && #[trigger] sorted[k] == offset && len == gap_behind(
                    sorted,
                    k,
                )
        },
        None => index.has_bucket(sha) && ascending_shas(
            index.shas,
            index.bucket(sha).0,
            index.bucket(sha).1,
        ) ==> forall|i: int| !(#[trigger] index.is_at(sha, i)),
    }
}

#[derive(Debug)]
pub struct PackIndex {
    pub pack_name: String,
    fanout: Vec<u32>,
    shas: Vec<[u8; 20]>,
    offsets: Vec<u64>,
    sorted_offsets: Vec<u64>,
    pack_sha: [u8; 20],
}

impl View for PackIndex {
    type V = IndexView;

    closed spec fn view(&self) -> IndexView {
        IndexView {
            pack_name: self.pack_name@,
            fanout: self.fanout@,
            shas: self.shas@.map_values(|s: [u8; 20]| s@),
            offsets: self.offsets@,
            pack_sha: self.pack_sha@,
        }
    }
}

/// The twenty bytes at `at`.
pub fn read_sha(data: &[u8], at: usize) -> (sha: [u8; 20])
    requires
        at + 20 <= data@.len(),
    ensures
        sha@ == data@.subrange(at as int, at + 20),
{
    let len: usize = data.len();
    let mut sha: [u8; 20] = [0u8; 20];
    let mut i: usize = 0;
    while i < 20
        invariant
            i <= 20,
            at + 20 <= data@.len() == len,
            forall|j: int| 0 <= j < i ==> sha@[j] == data@[at + j],
        decreases 20 - i,
    {
        sha[i] = data[at + i];
        i += 1;
    }
    assert(sha@ =~= data@.subrange(at as int, at + 20));
    sha
}

/// The place of a number among ascending numbers.
fn find_number(v: &Vec<u64>, x: u64) -> (r: Option<usize>)
    requires
        ascending(v@),
    ensures
        r matches Some(k) ==> k < v@.len() && v@[k as int] == x,
        r is None ==> !v@.contains(x),
{
    let mut low: usize = 0;
    let mut high: usize = v.len();
    while low < high
        invariant
            low <= high <= v@.len(),
            ascending(v@),
            forall|i: int| 0 <= i < low ==> v@[i] != x,
            forall|i: int| high <= i < v@.len() ==> v@[i] != x,
        decreases high - low,
    {
        let mid: usize = low + (high - low) / 2;
        if v[mid] == x {
            return Some(mid);
        } else if v[mid] < x {
            low = mid + 1;
        } else {
            high = mid;
        }
    }
    None
}

impl PackIndex {
    /// The offsets in ascending order.
    pub closed spec fn sorted(&self) -> Seq<u64> {
        self.sorted_offsets@
    }

    pub closed spec fn wf(&self) -> bool {
        &&& self.fanout@.len() == 256
        &&& self.offsets@.len() == self.shas@.len()
        &&& self.sorted_offsets@.to_multiset() == self.offsets@.to_multiset()
        &&& ascending(self.sorted_offsets@)
    }

    /// The packfile's name.
    pub fn name(&self) -> (name: String)
        ensures
            name@ == self@.pack_name,
    {
        self.pack_name.clone()
    }

    /// Parses the bytes of an index of version two.
    pub fn parse(pack_name: &str, data: &[u8]) -> (r: Result<PackIndex, IndexError>)
        ensures
            match r {
                Ok(index) => index.wf() && index_parsed(pack_name@, data@) == Ok::<_, IndexError>(
                    index@,
                ) && index.sorted().to_multiset() == index@.offsets.to_multiset() && ascending(
                    index.sorted(),
                ),
                Err(e) => index_parsed(pack_name@, data@) == Err::<IndexView, _>(e),
            },
    {
        let len: usize = data.len();
        if len < 8 + 1024 + 40 {
            return Err(IndexError::TooShort);
        }
        let magic: [u8; 4] = [255, 116, 79, 99];
        assert(magic@ =~= seq![255u8, 116, 79, 99]);
        if !bytes::matches_at(data, 0, &magic) {
            return Err(IndexError::BadMagic);
        }
        let version: u32 = bytes::get_be32(data, 4);
        if version != 2 {
            return Err(IndexError::BadVersion(version));
        }
        let mut fanout: Vec<u32> = Vec::new();
        while fanout.len() < 256
            invariant
                fanout@.len() <= 256,
                data@.len() == len >= 1072,
                forall|i: int|
                    0 <= i < fanout@.len() ==> #[trigger] fanout@[i] == bytes::be32_at(
                        data@,
                        8 + 4 * i,
                    ),
            decreases 256 - fanout@.len(),
        {
            let n: u32 = bytes::get_be32(data, 8 + 4 * fanout.len());
            fanout.push(n);
        }
        let count: u32 = bytes::get_be32(data, 1028);
        if (len as u64) < 1032 + 28 * count as u64 + 40 {
            return Err(IndexError::Truncated);
        }
        let n: usize = count as usize;
        let mut shas: Vec<[u8; 20]> = Vec::new();
        let mut offsets: Vec<u64> = Vec::new();
        let mut i: usize = 0;
        while i < n
            invariant
                i <= n == idx_count(data@),
                data@.len() == len >= 1032 + 28 * n + 40,
                shas@.len() == i,
                forall|j: int|
                    0 <= j < i ==> (#[trigger] shas@[j])@ == data@.subrange(
                        1032 + 20 * j,
                        1032 + 20 * j + 20,
                    ),
            decreases n - i,
        {
            shas.push(read_sha(data, 1032 + 20 * i));
            i += 1;
        }
        i = 0;
        while i < n
            invariant
                i <= n == idx_count(data@),
                data@.len() == len >= 1032 + 28 * n + 40,
                offsets@.len() == i,
                forall|j: int| 0 <= j < i ==> #[trigger] offset_in_bounds(data@, j),
                forall|j: int| 0 <= j < i ==> #[trigger] offsets@[j] == offset_of(data@, j),
                index_parsed(pack_name@, data@) == (if exists|k: int|
                    0 <= k < idx_count(data@) && !(#[trigger] offset_in_bounds(data@, k)) {
                    Err::<IndexView, IndexError>(IndexError::LargeOffset)
                } else {
                    Ok(index_tables(pack_name@, data@))
                }),
            decreases n - i,
        {
            let raw: u32 = bytes::get_be32(data, 1032 + 24 * n + 4 * i);
            assert(raw == raw_offset(data@, i as int));
            if raw >= 0x8000_0000 {
                let start: u64 = 1032 + 28 * n as u64 + 8 * (raw - 0x8000_0000) as u64;
                assert(start == large_offset_place(data@, i as int));
                if start + 8 > (len - 40) as u64 {
                    assert(!offset_in_bounds(data@, i as int));
                    return Err(IndexError::LargeOffset);
                }
                offsets.push(bytes::get_be64(data, start as usize));
            } else {
                offsets.push(raw as u64);
            }
            i += 1;
        }
        let mut sorted_offsets: Vec<u64> = offsets.clone();
        assert(sorted_offsets@ =~= offsets@);
        sorting::sort_numbers(&mut sorted_offsets);
        let index = PackIndex {
            pack_name: pack_name.to_string(),
            fanout,
            shas,
            offsets,
            sorted_offsets,
            pack_sha: read_sha(data, len - 40),
        };
        assert(index@ =~= index_tables(pack_name@, data@)) by {
            let want = index_tables(pack_name@, data@);
            assert(index@.fanout =~= want.fanout);
            assert(index@.shas =~= want.shas);
            assert(index@.offsets =~= want.offsets);
        }
        Ok(index)
    }

    /// Looks a name up between two places; finds it, where the names there are in order.
    fn search(&self, low: usize, high: usize, sha: &[u8; 20]) -> (r: Option<usize>)
        requires
            low <= high <= self.shas@.len(),
        ensures
            r matches Some(i) ==> low <= i < high && self.shas@[i as int]@ == sha@,
            r is None && ascending_shas(self@.shas, low as int, high as int) ==> forall|i: int|
                low <= i < high ==> (#[trigger] self.shas@[i])@ != sha@,
    {
        let mut from: usize = low;
        let mut to: usize = high;
        while from < to
            invariant
                low <= from <= to <= high <= self.shas@.len(),
                ascending_shas(self@.shas, low as int, high as int) ==> forall|i: int|
                    low <= i < from ==> (#[trigger] self.shas@[i])@ != sha@,
                ascending_shas(self@.shas, low as int, high as int) ==> forall|i: int|
                    to <= i < high ==> (#[trigger] self.shas@[i])@ != sha@,
            decreases to - from,
        {
            let mid: usize = from + (to - from) / 2;
            let here = &self.shas[mid];
            if bytes::equal(here.as_slice(), sha.as_slice()) {
                return Some(mid);
            }
            let below = sorting::bytes_le(here.as_slice(), sha.as_slice());
            proof {
                assert forall|i: int|
                    low <= i < high && ascending_shas(self@.shas, low as int, high as int) && (
                    below && i <= mid || !below && i >= mid) implies (
                    #[trigger] self.shas@[i])@ != sha@ by {
                    assert(self@.shas[i] == self.shas@[i]@);
                    assert(self@.shas[mid as int] == here@);
                    sorting::lemma_lex_order(here@, sha@, here@);
                    sorting::lemma_lex_order(sha@, here@, sha@);
                    if self.shas@[i]@ == sha@ {
                        if below {
                            assert(sorting::lex_le(self@.shas[i], self@.shas[mid as int]));
                        } else {
                            assert(sorting::lex_le(self@.shas[mid as int], self@.shas[i]));
                        }
                    }
                }
            }
            if below {
                from = mid + 1;
            } else {
                to = mid;
            }
        }
        None
    }

    /// Finds the offset of an object by its name, and how many bytes it can take there: up to
    /// the next offset, or 64 KiB behind the last one.
    pub fn find_offset(&self, sha: &[u8; 20]) -> (r: Option<(u64, u64)>)
        requires
            self.wf(),
        ensures
            is_answer(self@, self.sorted(), sha@, r),
    {
        let first: usize = sha[0] as usize;
        let low: usize = if first == 0 {
            0
        } else {
            self.fanout[first - 1] as usize
        };
        let high: usize = self.fanout[first] as usize;
        if low >= high || high > self.shas.len() {
            return None;
        }
        match self.search(low, high, sha) {
            Some(i) => {
                let offset: u64 = self.offsets[i];
                assert(self@.is_at(sha@, i as int));
                proof {
                    broadcast use vstd::seq_lib::group_to_multiset_ensures;

                    assert(self.offsets@.contains(offset));
                    assert(self.offsets@.to_multiset().count(offset) > 0);
                    assert(self.sorted_offsets@.to_multiset().count(offset) > 0);
                    assert(self.sorted_offsets@.contains(offset));
                }
                let len: u64 = match find_number(&self.sorted_offsets, offset) {
                    Some(k) => {
                        assert(self.sorted()[k as int] == offset);
                        if self.sorted_offsets.len() - k > 1 {
                            self.sorted_offsets[k + 1] - offset
                        } else {
                            65536
                        }
                    },
                    None => 65536,
                };
                Some((offset, len))
            },
            None => {
                assert forall|i: int|
                    ascending_shas(
                        self@.shas,
                        self@.bucket(sha@).0,
                        self@.bucket(sha@).1,
                    ) implies !(#[trigger] self@.is_at(sha@, i)) by {
                    if self@.is_at(sha@, i) {
                        assert(self.shas@[i]@ == self@.shas[i]);
                    }
                }
                None
            },
        }
    }

    pub fn object_count(&self) -> (n: usize)
        ensures
            n == self@.shas.len(),
    {
        self.shas.len()
    }

    pub fn pack_sha_hex(&self) -> (s: String)
        ensures
            s@ == hash::hex_encoded(self@.pack_sha),
    {
        hash::hex_encode(&self.pack_sha)
    }
}

} // verus!
