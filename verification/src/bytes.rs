//! Byte strings: appending, comparing and the big-endian numbers in them.

use vstd::prelude::*;

verus! {

/// The four bytes of a number, the most significant first.
pub open spec fn be32(n: nat) -> Seq<u8> {
    seq![
        ((n / 0x100_0000) % 0x100) as u8,
        ((n / 0x1_0000) % 0x100) as u8,
        ((n / 0x100) % 0x100) as u8,
        (n % 0x100) as u8,
    ]
}

/// The number in the four bytes at `at`, the most significant first.
pub open spec fn be32_at(data: Seq<u8>, at: int) -> nat {
    (data[at] * 0x100_0000 + data[at + 1] * 0x1_0000 + data[at + 2] * 0x100 + data[at + 3]) as nat
}

/// The number in the eight bytes at `at`, the most significant first.
pub open spec fn be64_at(data: Seq<u8>, at: int) -> nat {
    be32_at(data, at) * 0x1_0000_0000 + be32_at(data, at + 4)
}

/// A number below two to the 32 is read back from its four bytes.
pub proof fn lemma_be32(prefix: Seq<u8>, n: nat, suffix: Seq<u8>)
    requires
        n < 0x1_0000_0000,
    ensures
        be32_at(prefix + be32(n) + suffix, prefix.len() as int) == n,
        be32(n).len() == 4,
{
    let d = prefix + be32(n) + suffix;
    let at = prefix.len() as int;
    assert(d[at] == be32(n)[0]);
    assert(d[at + 1] == be32(n)[1]);
    assert(d[at + 2] == be32(n)[2]);
    assert(d[at + 3] == be32(n)[3]);
}

/// Four bytes hold the low 32 bits of a number.
pub proof fn lemma_be32_low(n: nat)
    ensures
        be32(n % 0x1_0000_0000) == be32(n),
{
    let q = n / 0x1_0000_0000;
    let r = n % 0x1_0000_0000;
    assert(n == q * 0x1_0000_0000 + r);
    assert(n / 0x100_0000 == q * 0x100 + r / 0x100_0000);
    assert(n / 0x1_0000 == q * 0x1_0000 + r / 0x1_0000);
    assert(n / 0x100 == q * 0x100_0000 + r / 0x100);
    assert((q * 0x100 + r / 0x100_0000) % 0x100 == (r / 0x100_0000) % 0x100);
    assert((q * 0x1_0000 + r / 0x1_0000) % 0x100 == (r / 0x1_0000) % 0x100);
    assert((q * 0x100_0000 + r / 0x100) % 0x100 == (r / 0x100) % 0x100);
    assert(n % 0x100 == r % 0x100);
}

pub fn put_be32(out: &mut Vec<u8>, n: u32)
    ensures
        final(out)@ == old(out)@ + be32(n as nat),
{
    out.push(((n / 0x100_0000) % 0x100) as u8);
    out.push(((n / 0x1_0000) % 0x100) as u8);
    out.push(((n / 0x100) % 0x100) as u8);
    out.push((n % 0x100) as u8);
    assert(out@ =~= old(out)@ + be32(n as nat));
}

pub fn get_be32(data: &[u8], at: usize) -> (n: u32)
    requires
        at + 4 <= data@.len(),
    ensures
        n == be32_at(data@, at as int),
{
    data[at] as u32 * 0x100_0000 + data[at + 1] as u32 * 0x1_0000 + data[at + 2] as u32 * 0x100
        + data[at + 3] as u32
}

pub fn get_be64(data: &[u8], at: usize) -> (n: u64)
    requires
        at + 8 <= data@.len(),
    ensures
        n == be64_at(data@, at as int),
{
    let len: usize = data.len();
    assert(at + 8 <= len);
    let high: u32 = get_be32(data, at);
    let low: u32 = get_be32(data, at + 4);
    high as u64 * 0x1_0000_0000 + low as u64
}

/// Appends `more` to `out`.
pub fn append(out: &mut Vec<u8>, more: &[u8])
    ensures
        final(out)@ == old(out)@ + more@,
{
    out.extend_from_slice(more);
    assert(out@ =~= old(out)@ + more@);
}

/// The bytes from `from` up to `to`.
pub fn copy_range(data: &[u8], from: usize, to: usize) -> (out: Vec<u8>)
    requires
        from <= to <= data@.len(),
    ensures
        out@ == data@.subrange(from as int, to as int),
{
    let mut out: Vec<u8> = Vec::new();
    append(&mut out, vstd::slice::slice_subrange(data, from, to));
    out
}

/// A copy of the bytes.
pub fn copy(data: &[u8]) -> (out: Vec<u8>)
    ensures
        out@ == data@,
{
    let mut out: Vec<u8> = Vec::new();
    append(&mut out, data);
    assert(out@ =~= data@);
    out
}

/// Whether the bytes at `at` are those of `what`.
pub fn matches_at(data: &[u8], at: usize, what: &[u8]) -> (r: bool)
    requires
        at <= data@.len(),
    ensures
        r == (at + what@.len() <= data@.len() && data@.subrange(at as int, at + what@.len())
            == what@),
{
    let len: usize = data.len();
    if what.len() > len - at {
        return false;
    }
    let mut i: usize = 0;
    while i < what.len()
        invariant
            i <= what@.len(),
            at + what@.len() <= data@.len() == len,
            forall|j: int| 0 <= j < i ==> data@[at + j] == what@[j],
        decreases what@.len() - i,
    {
        if data[at + i] != what[i] {
            assert(data@.subrange(at as int, at + what@.len())[i as int] != what@[i as int]);
            return false;
        }
        i += 1;
    }
    assert(data@.subrange(at as int, at + what@.len()) =~= what@);
    true
}

/// Whether two byte strings are the same.
pub fn equal(a: &[u8], b: &[u8]) -> (r: bool)
    ensures
        r == (a@ == b@),
{
    if a.len() != b.len() {
        return false;
    }
    let r = matches_at(a, 0, b);
    assert(a@.subrange(0int, a@.len() as int) =~= a@);
    r
}

} // verus!
