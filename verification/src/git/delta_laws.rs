//! What the numbers in packfiles and the instructions of deltas say, byte by byte.

use vstd::arithmetic::power2::pow2;
use vstd::prelude::*;

use crate::git::pack;
use crate::git::pack::{ObjectType, PackError};

verus! {

// ---------------------------------------------------------------------------------------------
// Numbers

/// Whether bytes hold a number: each but the last announces another.
pub open spec fn is_number(bytes: Seq<u8>) -> bool {
    &&& bytes.len() > 0
    &&& bytes.last() < 128
    &&& forall|i: int| 0 <= i < bytes.len() - 1 ==> #[trigger] bytes[i] >= 128
}

/// The number in such bytes: seven bits to a byte, the lowest first.
pub open spec fn number_of(bytes: Seq<u8>) -> nat
    decreases bytes.len(),
{
    if bytes.len() == 0 {
        0
    } else {
        bytes[0] as nat % 128 + 128 * number_of(bytes.drop_first())
    }
}

/// The distance in such bytes: the highest seven bits first, and one more for each byte that
/// follows, so that no distance has two forms.
pub open spec fn distance_of(bytes: Seq<u8>) -> nat
    decreases bytes.len(),
{
    if bytes.len() <= 1 {
        bytes[0] as nat % 128
    } else {
        (distance_of(bytes.drop_last()) + 1) * 128 + bytes.last() as nat % 128
    }
}

proof fn lemma_byte(c: u8)
    by (bit_vector)
    ensures
        (c & 0x7f) as u64 == (c % 128) as u64,
        (c & 0x80 == 0) == (c < 128),
{
}

proof fn lemma_or(val: u64, d: u64, shift: u64)
    by (bit_vector)
    requires
        shift < 64,
        val < (1u64 << shift),
        d < 128,
        (d << shift) >> shift == d,
    ensures
        val | (d << shift) == val + (d << shift),
{
}

proof fn lemma_shifted_back(d: u64, shift: u64)
    requires
        shift < 64,
        d * pow2(shift as nat) <= u64::MAX,
    ensures
        d << shift == d * pow2(shift as nat),
        (d << shift) >> shift == d,
{
    vstd::bits::lemma_u64_shl_is_mul(d, shift);
    vstd::bits::lemma_u64_shr_is_div(d << shift, shift);
    vstd::arithmetic::power2::lemma_pow2_pos(shift as nat);
    vstd::arithmetic::div_mod::lemma_div_multiples_vanish(d as int, pow2(shift as nat) as int);
    vstd::arithmetic::mul::lemma_mul_is_commutative(d as int, pow2(shift as nat) as int);
}

proof fn lemma_one_shifted(shift: u64)
    requires
        shift < 64,
    ensures
        1u64 << shift == pow2(shift as nat),
{
    vstd::arithmetic::power2::lemma_pow2_strictly_increases(shift as nat, 64);
    vstd::arithmetic::power2::lemma2_to64();
    vstd::bits::lemma_u64_shl_is_mul(1, shift);
}

proof fn lemma_number_rest(data: Seq<u8>, pos: int, bytes: Seq<u8>, val: u64, shift: u64)
    requires
        is_number(bytes),
        0 <= pos,
        pos + bytes.len() <= data.len(),
        data.subrange(pos, pos + bytes.len()) == bytes,
        shift + 7 * (bytes.len() - 1) < 64,
        val < pow2(shift as nat),
        val + number_of(bytes) * pow2(shift as nat) <= u64::MAX,
    ensures
        pack::varint_rest(data, pos, val, shift) == Some(
            ((val + number_of(bytes) * pow2(shift as nat)) as u64, pos + bytes.len()),
        ),
    decreases bytes.len(),
{
    let c = data[pos];
    assert(data.subrange(pos, pos + bytes.len())[0] == c);
    let rest = bytes.drop_first();
    let d = (c & 0x7f) as u64;
    let p = pow2(shift as nat) as int;
    lemma_byte(c);
    vstd::arithmetic::power2::lemma_pow2_pos(shift as nat);
    assert(number_of(bytes) * p == d * p + (128 * p) * number_of(rest)) by (nonlinear_arith)
        requires
            number_of(bytes) == d + 128 * number_of(rest),
    ;
    assert((128 * p) * number_of(rest) >= 0) by (nonlinear_arith)
        requires
            p > 0,
    ;
    lemma_shifted_back(d, shift);
    lemma_one_shifted(shift);
    lemma_or(val, d, shift);
    let next = val | (d << shift);
    assert(next == val + d * p);
    if bytes.len() == 1 {
        assert(number_of(rest) == 0);
        assert(bytes[0] == bytes.last());
        assert((128 * p) * number_of(rest) == 0) by (nonlinear_arith)
            requires
                number_of(rest) == 0,
        ;
    } else {
        assert(bytes[0] >= 128);
        let up = (shift + 7) as u64;
        assert(pow2(up as nat) == 128 * p) by {
            vstd::arithmetic::power2::lemma_pow2_adds(shift as nat, 7);
            vstd::arithmetic::power2::lemma2_to64();
        }
        assert(next < 128 * p) by (nonlinear_arith)
            requires
                next == val + d * p,
                val < p,
                d <= 127,
        ;
        assert(rest.last() == bytes.last());
        assert forall|i: int| 0 <= i < rest.len() - 1 implies #[trigger] rest[i] >= 128 by {
            assert(rest[i] == bytes[i + 1]);
        }
        assert(data.subrange(pos + 1, pos + 1 + rest.len()) =~= rest) by {
            assert forall|i: int| 0 <= i < rest.len() implies data[pos + 1 + i] == rest[i] by {
                assert(data.subrange(pos, pos + bytes.len())[i + 1] == bytes[i + 1]);
            }
        }
        assert(number_of(rest) * (128 * p) == (128 * p) * number_of(rest)) by (nonlinear_arith);
        lemma_number_rest(data, pos + 1, rest, next, up);
    }
}

/// A length in a delta is the number that its bytes hold.
pub proof fn lemma_length(data: Seq<u8>, pos: int, bytes: Seq<u8>)
    requires
        is_number(bytes),
        bytes.len() <= 10,
        0 <= pos,
        pos + bytes.len() <= data.len(),
        data.subrange(pos, pos + bytes.len()) == bytes,
        number_of(bytes) <= u64::MAX,
    ensures
        pack::varint_at(data, pos) == Ok::<_, PackError>(
            (number_of(bytes) as u64, pos + bytes.len()),
        ),
{
    let c = data[pos];
    assert(data.subrange(pos, pos + bytes.len())[0] == c);
    lemma_byte(c);
    let rest = bytes.drop_first();
    if bytes.len() == 1 {
        assert(bytes[0] == bytes.last());
        assert(number_of(rest) == 0);
    } else {
        assert(bytes[0] >= 128);
        assert(rest.last() == bytes.last());
        assert forall|i: int| 0 <= i < rest.len() - 1 implies #[trigger] rest[i] >= 128 by {
            assert(rest[i] == bytes[i + 1]);
        }
        assert(data.subrange(pos + 1, pos + 1 + rest.len()) =~= rest) by {
            assert forall|i: int| 0 <= i < rest.len() implies data[pos + 1 + i] == rest[i] by {
                assert(data.subrange(pos, pos + bytes.len())[i + 1] == bytes[i + 1]);
            }
        }
        vstd::arithmetic::power2::lemma2_to64();
        lemma_number_rest(data, pos + 1, rest, (c & 0x7f) as u64, 7);
    }
}

proof fn lemma_first_byte(c: u8)
    by (bit_vector)
    ensures
        (c >> 4) & 7 == (c / 16) % 8,
        (c & 15) as u64 == (c % 16) as u64,
        (c & 0x80 == 0) == (c < 128),
{
}

/// An entry's first byte holds its type in three bits, the four lowest bits of its size, and
/// whether more of the size follows: seven bits to a byte, the lowest first.
pub proof fn lemma_entry_header(data: Seq<u8>, pos: int, t: ObjectType, low: u8, more: Seq<u8>)
    requires
        0 <= pos,
        low < 16,
        more.len() == 0 || is_number(more),
        more.len() <= 9,
        pos + 1 + more.len() <= data.len(),
        data[pos] == type_number(t) * 16 + low + if more.len() > 0 {
            128int
        } else {
            0
        },
        data.subrange(pos + 1, pos + 1 + more.len()) == more,
        low + 16 * number_of(more) <= u64::MAX,
    ensures
        pack::entry_header(data, pos) == Ok::<_, PackError>(
            (t, (low + 16 * number_of(more)) as u64, pos + 1 + more.len()),
        ),
{
    let c = data[pos];
    lemma_first_byte(c);
    if more.len() == 0 {
        assert(number_of(more) == 0);
    } else {
        vstd::arithmetic::power2::lemma2_to64();
        lemma_number_rest(data, pos + 1, more, (c & 15) as u64, 4);
    }
}

/// The numbers of the types of entries.
pub open spec fn type_number(t: ObjectType) -> int {
    match t {
        ObjectType::Commit => 1,
        ObjectType::Tree => 2,
        ObjectType::Blob => 3,
        ObjectType::Tag => 4,
        ObjectType::OfsDelta => 6,
        ObjectType::RefDelta => 7,
    }
}

proof fn lemma_append_bits(val: u64, d: u64)
    by (bit_vector)
    requires
        val < 0x200_0000_0000_0000,
        d < 128,
    ensures
        (val << 7) | d == val * 128 + d,
{
}

proof fn lemma_distance_rest(data: Seq<u8>, start: int, bytes: Seq<u8>, n: int, val: u64)
    requires
        is_number(bytes),
        0 < n < bytes.len(),
        0 <= start,
        start + bytes.len() <= data.len(),
        data.subrange(start, start + bytes.len()) == bytes,
        val == distance_of(bytes.take(n)),
        distance_of(bytes) <= u64::MAX,
    ensures
        pack::distance_rest(data, start + n, val) == Some(
            (distance_of(bytes) as u64, start + bytes.len()),
        ),
    decreases bytes.len() - n,
{
    let c = data[start + n];
    assert(data.subrange(start, start + bytes.len())[n] == c);
    lemma_byte(c);
    let more = bytes.take(n + 1);
    assert(more.drop_last() =~= bytes.take(n));
    assert(more.last() == c);
    lemma_distance_grows(bytes, n + 1);
    assert(distance_of(more) == (val + 1) * 128 + c as nat % 128);
    lemma_append_bits((val + 1) as u64, (c & 0x7f) as u64);
    if n + 1 == bytes.len() {
        assert(more =~= bytes);
        assert(bytes[n] == bytes.last());
    } else {
        assert(bytes[n] >= 128);
        lemma_distance_rest(data, start, bytes, n + 1, distance_of(more) as u64);
    }
}

proof fn lemma_distance_grows(bytes: Seq<u8>, n: int)
    requires
        0 < n <= bytes.len(),
    ensures
        distance_of(bytes.take(n)) <= distance_of(bytes),
    decreases bytes.len() - n,
{
    if n == bytes.len() {
        assert(bytes.take(n) =~= bytes);
    } else {
        lemma_distance_grows(bytes, n + 1);
        assert(bytes.take(n + 1).drop_last() =~= bytes.take(n));
    }
}

/// How far back a base lies is the distance that the bytes hold.
pub proof fn lemma_distance(data: Seq<u8>, pos: int, bytes: Seq<u8>)
    requires
        is_number(bytes),
        0 <= pos,
        pos + bytes.len() <= data.len(),
        data.subrange(pos, pos + bytes.len()) == bytes,
        distance_of(bytes) <= u64::MAX,
    ensures
        pack::distance_at(data, pos) == Ok::<_, PackError>(
            (distance_of(bytes) as u64, pos + bytes.len()),
        ),
{
    let c = data[pos];
    assert(data.subrange(pos, pos + bytes.len())[0] == c);
    lemma_byte(c);
    assert(bytes.take(1)[0] == c);
    if bytes.len() == 1 {
        assert(bytes[0] == bytes.last());
    } else {
        assert(bytes[0] >= 128);
        lemma_distance_rest(data, pos, bytes, 1, (c & 0x7f) as u64);
    }
}

// ---------------------------------------------------------------------------------------------
// Instructions

/// A step that makes a part of an object: a part of the base, or bytes of its own. Of a copy,
/// `given` says which of the seven bytes of its offset and size are written down.
pub enum Step {
    Copy { offset: nat, size: nat, given: Seq<bool> },
    Insert(Seq<u8>),
}

/// The bytes of an offset and of a size, the lowest first: four and three.
pub open spec fn operand(offset: nat, size: nat, k: int) -> nat {
    if k == 0 {
        offset % 0x100
    } else if k == 1 {
        offset / 0x100 % 0x100
    } else if k == 2 {
        offset / 0x1_0000 % 0x100
    } else if k == 3 {
        offset / 0x100_0000 % 0x100
    } else if k == 4 {
        size % 0x100
    } else if k == 5 {
        size / 0x100 % 0x100
    } else {
        size / 0x1_0000 % 0x100
    }
}

/// How many bytes a size stands for: no size is 64 KiB.
pub open spec fn taken(size: nat) -> nat {
    if size == 0 {
        0x1_0000
    } else {
        size
    }
}

/// The bytes that are written down, from the `k`-th on.
pub open spec fn operand_bytes(offset: nat, size: nat, given: Seq<bool>, k: int) -> Seq<u8>
    decreases 7 - k,
{
    if k >= 7 {
        Seq::empty()
    } else {
        (if given[k] {
            seq![operand(offset, size, k) as u8]
        } else {
            Seq::empty()
        }) + operand_bytes(offset, size, given, k + 1)
    }
}

/// One where it holds.
pub open spec fn one_if(b: bool) -> nat {
    if b {
        1
    } else {
        0
    }
}

/// The first byte of a copy: its highest bit is set, and below it a bit for each byte that is
/// written down.
pub open spec fn copy_byte(given: Seq<bool>) -> nat {
    128 + one_if(given[0]) + 2 * one_if(given[1]) + 4 * one_if(given[2]) + 8 * one_if(given[3])
        + 16 * one_if(given[4]) + 32 * one_if(given[5]) + 64 * one_if(given[6])
}

/// The bytes of a step.
pub open spec fn step_bytes(step: Step) -> Seq<u8> {
    match step {
        Step::Copy { offset, size, given } => seq![copy_byte(given) as u8] + operand_bytes(
            offset,
            size,
            given,
            0,
        ),
        Step::Insert(bytes) => seq![bytes.len() as u8] + bytes,
    }
}

/// The bytes of steps, one behind the other.
pub open spec fn steps_bytes(steps: Seq<Step>) -> Seq<u8>
    decreases steps.len(),
{
    if steps.len() == 0 {
        Seq::empty()
    } else {
        step_bytes(steps[0]) + steps_bytes(steps.drop_first())
    }
}

/// Whether a step can be taken from a base: what it copies is there, what is not written down is
/// zero, and what it inserts is between one byte and 127.
pub open spec fn can_take(base: Seq<u8>, step: Step) -> bool {
    match step {
        Step::Copy { offset, size, given } => {
            &&& given.len() == 7
            &&& offset < 0x1_0000_0000
            &&& size < 0x100_0000
            &&& offset + taken(size) <= base.len()
            &&& forall|k: int|
                0 <= k < 7 && !(#[trigger] given[k]) ==> operand(offset, size, k) == 0
        },
        Step::Insert(bytes) => 0 < bytes.len() < 128,
    }
}

/// What a step makes.
pub open spec fn made_by(base: Seq<u8>, step: Step) -> Seq<u8> {
    match step {
        Step::Copy { offset, size, .. } => Seq::new(taken(size), |i: int| base[offset + i]),
        Step::Insert(bytes) => bytes,
    }
}

/// What steps make, one behind the other.
pub open spec fn made(base: Seq<u8>, steps: Seq<Step>) -> Seq<u8>
    decreases steps.len(),
{
    if steps.len() == 0 {
        Seq::empty()
    } else {
        made_by(base, steps[0]) + made(base, steps.drop_first())
    }
}

proof fn lemma_copy_bits(a: u8, b: u8, c: u8, d: u8, e: u8, f: u8, g: u8, op: u8)
    by (bit_vector)
    requires
        a <= 1,
        b <= 1,
        c <= 1,
        d <= 1,
        e <= 1,
        f <= 1,
        g <= 1,
        op == 128 + a + 2 * b + 4 * c + 8 * d + 16 * e + 32 * f + 64 * g,
    ensures
        op & 0x80 != 0,
        (op >> 0) & 1 == a,
        (op >> 1) & 1 == b,
        (op >> 2) & 1 == c,
        (op >> 3) & 1 == d,
        (op >> 4) & 1 == e,
        (op >> 5) & 1 == f,
        (op >> 6) & 1 == g,
{
}

proof fn lemma_copy_byte(given: Seq<bool>)
    requires
        given.len() == 7,
    ensures
        ({
            let op = copy_byte(given) as u8;
            &&& op & 0x80 != 0
            &&& forall|k: int|
                0 <= k < 7 ==> pack::has_bit(op, k as u8) == #[trigger] given[k]
        }),
{
    lemma_copy_bits(
        one_if(given[0]) as u8,
        one_if(given[1]) as u8,
        one_if(given[2]) as u8,
        one_if(given[3]) as u8,
        one_if(given[4]) as u8,
        one_if(given[5]) as u8,
        one_if(given[6]) as u8,
        copy_byte(given) as u8,
    );
    assert forall|k: int| 0 <= k < 7 implies pack::has_bit(copy_byte(given) as u8, k as u8)
        == #[trigger] given[k] by {
        assert(k == 0 || k == 1 || k == 2 || k == 3 || k == 4 || k == 5 || k == 6);
    }
}

proof fn lemma_operands_read(
    delta: Seq<u8>,
    pos: int,
    offset: nat,
    size: nat,
    given: Seq<bool>,
    op: u8,
    k: int,
)
    requires
        0 <= k <= 7,
        given.len() == 7,
        forall|i: int| 0 <= i < 7 ==> pack::has_bit(op, i as u8) == #[trigger] given[i],
        forall|i: int| 0 <= i < 7 && !(#[trigger] given[i]) ==> operand(offset, size, i) == 0,
        0 <= pos,
        pos + operand_bytes(offset, size, given, k).len() <= delta.len(),
        delta.subrange(pos, pos + operand_bytes(offset, size, given, k).len()) == operand_bytes(
            offset,
            size,
            given,
            k,
        ),
    ensures
        pack::operands(op, k, delta, pos) == Some(
            (
                Seq::new((7 - k) as nat, |i: int| operand(offset, size, k + i) as u8),
                pos + operand_bytes(offset, size, given, k).len(),
            ),
        ),
    decreases 7 - k,
{
    let args = Seq::new((7 - k) as nat, |i: int| operand(offset, size, k + i) as u8);
    if k == 7 {
        assert(args =~= Seq::<u8>::empty());
    } else {
        let all = operand_bytes(offset, size, given, k);
        let rest = operand_bytes(offset, size, given, k + 1);
        let tail = Seq::new((7 - (k + 1)) as nat, |i: int| operand(offset, size, k + 1 + i) as u8);
        let first = one_if(given[k]) as int;
        let part = delta.subrange(pos, pos + all.len());
        assert(delta.subrange(pos + first, pos + first + rest.len()) =~= rest) by {
            assert forall|i: int| 0 <= i < rest.len() implies delta[pos + first + i]
                == rest[i] by {
                assert(part[first + i] == all[first + i]);
            }
        }
        lemma_operands_read(delta, pos + first, offset, size, given, op, k + 1);
        if given[k] {
            assert(part[0] == delta[pos]);
            assert(args =~= seq![delta[pos]] + tail);
        } else {
            assert(args =~= seq![0u8] + tail);
        }
    }
}

proof fn lemma_steps_taken(
    base: Seq<u8>,
    delta: Seq<u8>,
    pos: int,
    steps: Seq<Step>,
    out: Seq<u8>,
)
    requires
        forall|i: int| 0 <= i < steps.len() ==> can_take(base, #[trigger] steps[i]),
        0 <= pos <= delta.len(),
        delta.skip(pos) == steps_bytes(steps),
    ensures
        pack::delta_from(base, delta, pos, out) == Ok::<_, PackError>(out + made(base, steps)),
    decreases steps.len(),
{
    if steps.len() == 0 {
        assert(delta.skip(pos).len() == 0);
        assert(out + made(base, steps) =~= out);
    } else {
        let step = steps[0];
        let rest = steps.drop_first();
        let here = step_bytes(step);
        assert(can_take(base, steps[0]));
        assert forall|i: int| 0 <= i < rest.len() implies can_take(base, #[trigger] rest[i]) by {
            assert(rest[i] == steps[i + 1]);
        }
        let next = pos + here.len();
        assert(delta.skip(pos).len() == here.len() + steps_bytes(rest).len());
        assert(delta.skip(next) =~= steps_bytes(rest)) by {
            assert forall|i: int| 0 <= i < steps_bytes(rest).len() implies delta[next + i]
                == steps_bytes(rest)[i] by {
                assert(delta.skip(pos)[here.len() + i] == steps_bytes(steps)[here.len() + i]);
            }
        }
        assert(delta.subrange(pos, next) =~= here) by {
            assert forall|i: int| 0 <= i < here.len() implies delta[pos + i] == here[i] by {
                assert(delta.skip(pos)[i] == steps_bytes(steps)[i]);
            }
        }
        let more = out + made_by(base, step);
        lemma_steps_taken(base, delta, next, rest, more);
        assert(out + made(base, steps) =~= more + made(base, rest));
        assert(delta.subrange(pos, next)[0] == delta[pos]);
        match step {
            Step::Copy { offset, size, given } => {
                let op = copy_byte(given) as u8;
                lemma_copy_byte(given);
                let written = operand_bytes(offset, size, given, 0);
                assert(delta.subrange(pos + 1, pos + 1 + written.len()) =~= written) by {
                    assert forall|i: int| 0 <= i < written.len() implies delta[pos + 1 + i]
                        == written[i] by {
                        assert(delta.subrange(pos, next)[i + 1] == here[i + 1]);
                    }
                }
                lemma_operands_read(delta, pos + 1, offset, size, given, op, 0);
                let args = Seq::new(7, |i: int| operand(offset, size, 0 + i) as u8);
                lemma_digits(offset, size);
                assert(pack::copy_offset(args) == offset);
                assert(pack::copy_size(args) == taken(size));
                assert(base.subrange(offset as int, (offset + taken(size)) as int) =~= made_by(
                    base,
                    step,
                ));
            },
            Step::Insert(bytes) => {
                lemma_byte(bytes.len() as u8);
                assert(delta.subrange(pos + 1, next) =~= bytes) by {
                    assert forall|i: int| 0 <= i < bytes.len() implies delta[pos + 1 + i]
                        == bytes[i] by {
                        assert(delta.subrange(pos, next)[i + 1] == here[i + 1]);
                    }
                }
            },
        }
    }
}

proof fn lemma_digits(offset: nat, size: nat)
    requires
        offset < 0x1_0000_0000,
        size < 0x100_0000,
    ensures
        offset == operand(offset, size, 0) + operand(offset, size, 1) * 0x100 + operand(
            offset,
            size,
            2,
        ) * 0x1_0000 + operand(offset, size, 3) * 0x100_0000,
        size == operand(offset, size, 4) + operand(offset, size, 5) * 0x100 + operand(
            offset,
            size,
            6,
        ) * 0x1_0000,
{
}

/// A delta makes of its base what its steps make, one behind the other: each copy takes as many
/// bytes as it says from where it says, and each insertion its own bytes. Two numbers stand before
/// them; the second is the length of what is made, and where it is not, the delta is refused.
pub proof fn lemma_delta_made(base: Seq<u8>, from: Seq<u8>, to: Seq<u8>, steps: Seq<Step>)
    requires
        is_number(from),
        is_number(to),
        from.len() <= 10,
        to.len() <= 10,
        number_of(from) <= u64::MAX,
        number_of(to) <= u64::MAX,
        forall|i: int| 0 <= i < steps.len() ==> can_take(base, #[trigger] steps[i]),
    ensures
        made(base, steps).len() == number_of(to) ==> pack::delta_applied(
            base,
            from + to + steps_bytes(steps),
        ) == Ok::<_, PackError>(made(base, steps)),
        made(base, steps).len() != number_of(to) ==> pack::delta_applied(
            base,
            from + to + steps_bytes(steps),
        ) == Err::<Seq<u8>, _>(PackError::SizeMismatch),
{
    let delta = from + to + steps_bytes(steps);
    let second = from.len() as int;
    let start = second + to.len();
    assert(delta.subrange(0, second) =~= from);
    assert(delta.subrange(second, second + to.len()) =~= to);
    assert(delta.skip(start) =~= steps_bytes(steps));
    lemma_length(delta, 0, from);
    lemma_length(delta, second, to);
    lemma_steps_taken(base, delta, start, steps, Seq::empty());
    assert(Seq::<u8>::empty() + made(base, steps) =~= made(base, steps));
}

/// A delta of one copy gives that part of the base.
pub proof fn lemma_one_copy(base: Seq<u8>, from: Seq<u8>, to: Seq<u8>, offset: nat, size: nat)
    requires
        is_number(from),
        is_number(to),
        from.len() <= 10,
        to.len() <= 10,
        number_of(from) <= u64::MAX,
        number_of(to) == size,
        offset < 0x1_0000_0000,
        0 < size < 0x100_0000,
        offset + size <= base.len(),
    ensures
        pack::delta_applied(
            base,
            from + to + seq![
                0xffu8,
                (offset % 0x100) as u8,
                (offset / 0x100 % 0x100) as u8,
                (offset / 0x1_0000 % 0x100) as u8,
                (offset / 0x100_0000 % 0x100) as u8,
                (size % 0x100) as u8,
                (size / 0x100 % 0x100) as u8,
                (size / 0x1_0000 % 0x100) as u8,
            ],
        ) == Ok::<_, PackError>(base.subrange(offset as int, (offset + size) as int)),
{
    let given = Seq::new(7, |k: int| true);
    let step = Step::Copy { offset, size, given };
    let steps = seq![step];
    lemma_delta_made(base, from, to, steps);
    reveal_with_fuel(operand_bytes, 8);
    assert(steps.drop_first() =~= Seq::<Step>::empty());
    assert(copy_byte(given) == 255);
    let written = seq![
        0xffu8,
        (offset % 0x100) as u8,
        (offset / 0x100 % 0x100) as u8,
        (offset / 0x1_0000 % 0x100) as u8,
        (offset / 0x100_0000 % 0x100) as u8,
        (size % 0x100) as u8,
        (size / 0x100 % 0x100) as u8,
        (size / 0x1_0000 % 0x100) as u8,
    ];
    assert(step_bytes(step) =~= written);
    assert(steps_bytes(Seq::<Step>::empty()) =~= Seq::<u8>::empty());
    assert(steps_bytes(steps) =~= written);
    assert(made(base, steps.drop_first()) =~= Seq::<u8>::empty());
    assert(made(base, steps) =~= base.subrange(offset as int, (offset + size) as int));
}

// ---------------------------------------------------------------------------------------------
// No other deltas are taken

proof fn lemma_copy_bits_back(op: u8)
    by (bit_vector)
    requires
        op & 0x80 != 0,
    ensures
        op == 128 + ((op >> 0) & 1) + 2 * ((op >> 1) & 1) + 4 * ((op >> 2) & 1) + 8 * ((op >> 3)
            & 1) + 16 * ((op >> 4) & 1) + 32 * ((op >> 5) & 1) + 64 * ((op >> 6) & 1),
        (op >> 0) & 1 <= 1,
        (op >> 1) & 1 <= 1,
        (op >> 2) & 1 <= 1,
        (op >> 3) & 1 <= 1,
        (op >> 4) & 1 <= 1,
        (op >> 5) & 1 <= 1,
        (op >> 6) & 1 <= 1,
{
}

proof fn lemma_operands_found(
    delta: Seq<u8>,
    pos: int,
    op: u8,
    full: Seq<u8>,
    end: int,
    offset: nat,
    size: nat,
    given: Seq<bool>,
    k: int,
)
    requires
        0 <= k <= 7,
        full.len() == 7,
        given.len() == 7,
        forall|i: int| 0 <= i < 7 ==> pack::has_bit(op, i as u8) == #[trigger] given[i],
        forall|i: int| 0 <= i < 7 ==> operand(offset, size, i) == #[trigger] full[i],
        0 <= pos <= delta.len(),
        pack::operands(op, k, delta, pos) == Some((full.skip(k), end)),
    ensures
        end == pos + operand_bytes(offset, size, given, k).len(),
        end <= delta.len(),
        delta.subrange(pos, end) == operand_bytes(offset, size, given, k),
        forall|i: int| k <= i < 7 && !(#[trigger] given[i]) ==> full[i] == 0,
    decreases 7 - k,
{
    let all = operand_bytes(offset, size, given, k);
    if k < 7 {
        let b = given[k];
        let next = if b {
            pos + 1
        } else {
            pos
        };
        assert(full.skip(k)[0] == full[k]);
        let (rest, at) = pack::operands(op, k + 1, delta, next)->0;
        let first = if b {
            delta[pos]
        } else {
            0u8
        };
        assert(full.skip(k) == seq![first] + rest);
        assert((seq![first] + rest)[0] == first);
        assert(full.skip(k).drop_first() =~= full.skip(k + 1));
        assert((seq![first] + rest).drop_first() =~= rest);
        lemma_operands_found(delta, next, op, full, end, offset, size, given, k + 1);
        assert(delta.subrange(pos, end) =~= all);
    } else {
        assert(full.skip(k) =~= Seq::<u8>::empty());
        assert(delta.subrange(pos, end) =~= all);
    }
}

proof fn lemma_four(a: nat, b: nat, c: nat, d: nat, n: nat)
    requires
        a < 0x100,
        b < 0x100,
        c < 0x100,
        d < 0x100,
        n == a + b * 0x100 + c * 0x1_0000 + d * 0x100_0000,
    ensures
        n < 0x1_0000_0000,
        n % 0x100 == a,
        n / 0x100 % 0x100 == b,
        n / 0x1_0000 % 0x100 == c,
        n / 0x100_0000 % 0x100 == d,
{
    assert(n / 0x100 == b + c * 0x100 + d * 0x1_0000);
    assert(n / 0x1_0000 == c + d * 0x100);
    assert(n / 0x100_0000 == d);
}

proof fn lemma_digits_back(args: Seq<u8>, offset: nat, size: nat)
    requires
        args.len() == 7,
        offset == args[0] + args[1] * 0x100 + args[2] * 0x1_0000 + args[3] * 0x100_0000,
        size == args[4] + args[5] * 0x100 + args[6] * 0x1_0000,
    ensures
        offset < 0x1_0000_0000,
        size < 0x100_0000,
        forall|i: int| 0 <= i < 7 ==> operand(offset, size, i) == #[trigger] args[i],
{
    lemma_four(args[0] as nat, args[1] as nat, args[2] as nat, args[3] as nat, offset);
    lemma_four(args[4] as nat, args[5] as nat, args[6] as nat, 0, size);
    assert forall|i: int| 0 <= i < 7 implies operand(offset, size, i) == #[trigger] args[i] by {
        assert(i == 0 || i == 1 || i == 2 || i == 3 || i == 4 || i == 5 || i == 6);
    }
}

proof fn lemma_copy_found(base: Seq<u8>, delta: Seq<u8>, pos: int) -> (step: Step)
    requires
        0 <= pos < delta.len(),
        delta[pos] & 0x80 != 0,
        pack::operands(delta[pos], 0, delta, pos + 1) matches Some((args, _))
            && pack::copy_offset(args) + pack::copy_size(args) <= base.len(),
    ensures
        ({
            let (args, end) = pack::operands(delta[pos], 0, delta, pos + 1)->0;
            let from = pack::copy_offset(args);
            &&& can_take(base, step)
            &&& pos < end <= delta.len()
            &&& delta.subrange(pos, end) == step_bytes(step)
            &&& made_by(base, step) == base.subrange(from, from + pack::copy_size(args))
        }),
{
    let op = delta[pos];
    let (args, end) = pack::operands(op, 0, delta, pos + 1)->0;
    pack::lemma_operands(op, 0, delta, pos + 1);
    let given = Seq::new(7, |k: int| pack::has_bit(op, k as u8));
    let offset = pack::copy_offset(args) as nat;
    let size = (args[4] + args[5] * 0x100 + args[6] * 0x1_0000) as nat;
    lemma_digits_back(args, offset, size);
    assert(args.skip(0) =~= args);
    lemma_operands_found(delta, pos + 1, op, args, end, offset, size, given, 0);
    lemma_copy_bits_back(op);
    assert(copy_byte(given) == op) by {
        assert(given[0] == pack::has_bit(op, 0) && given[1] == pack::has_bit(op, 1));
        assert(given[2] == pack::has_bit(op, 2) && given[3] == pack::has_bit(op, 3));
        assert(given[4] == pack::has_bit(op, 4) && given[5] == pack::has_bit(op, 5));
        assert(given[6] == pack::has_bit(op, 6));
    }
    let step = Step::Copy { offset, size, given };
    assert(delta.subrange(pos, end) =~= seq![op] + delta.subrange(pos + 1, end));
    let from = offset as int;
    assert(made_by(base, step) =~= base.subrange(from, from + pack::copy_size(args)));
    step
}

proof fn lemma_steps_found(base: Seq<u8>, delta: Seq<u8>, pos: int, out: Seq<u8>) -> (steps: Seq<
    Step,
>)
    requires
        0 <= pos <= delta.len(),
        pack::delta_from(base, delta, pos, out) is Ok,
    ensures
        forall|i: int| 0 <= i < steps.len() ==> can_take(base, #[trigger] steps[i]),
        delta.skip(pos) == steps_bytes(steps),
        pack::delta_from(base, delta, pos, out)->Ok_0 == out + made(base, steps),
    decreases delta.len() - pos,
{
    if pos >= delta.len() {
        let steps = Seq::<Step>::empty();
        assert(delta.skip(pos) =~= steps_bytes(steps));
        assert(out + made(base, steps) =~= out);
        steps
    } else {
        lemma_byte(delta[pos]);
        let (step, next) = if delta[pos] & 0x80 != 0 {
            let (_, end) = pack::operands(delta[pos], 0, delta, pos + 1)->0;
            (lemma_copy_found(base, delta, pos), end)
        } else {
            let to = pos + 1 + delta[pos];
            let bytes = delta.subrange(pos + 1, to);
            assert(delta.subrange(pos, to) =~= seq![delta[pos]] + bytes);
            (Step::Insert(bytes), to)
        };
        let more = out + made_by(base, step);
        let rest = lemma_steps_found(base, delta, next, more);
        let steps = seq![step] + rest;
        assert(steps.drop_first() =~= rest);
        assert forall|i: int| 0 <= i < steps.len() implies can_take(base, #[trigger] steps[i]) by {
            if i > 0 {
                assert(steps[i] == rest[i - 1]);
            }
        }
        assert(delta.skip(pos) =~= delta.subrange(pos, next) + delta.skip(next));
        assert(out + made(base, steps) =~= more + made(base, rest));
        steps
    }
}

proof fn lemma_number_found(data: Seq<u8>, pos: int, val: u64, shift: u64)
    requires
        0 <= pos <= data.len(),
    ensures
        pack::varint_rest(data, pos, val, shift) matches Some((_, end)) ==> pos < end <= data.len()
            && is_number(data.subrange(pos, end)),
    decreases data.len() - pos,
{
    if pos < data.len() {
        let c = data[pos];
        lemma_byte(c);
        if c & 0x80 != 0 {
            let next = val | (((c & 0x7f) as u64) << shift);
            lemma_number_found(data, pos + 1, next, ((shift + 7) % 64) as u64);
            match pack::varint_rest(data, pos, val, shift) {
                Some((_, end)) => {
                    let rest = data.subrange(pos + 1, end);
                    let all = data.subrange(pos, end);
                    assert(all.last() == rest.last());
                    assert forall|i: int| 0 <= i < all.len() - 1 implies #[trigger] all[i]
                        >= 128 by {
                        if i > 0 {
                            assert(all[i] == rest[i - 1]);
                        }
                    }
                },
                None => {},
            }
        }
    }
}

proof fn lemma_length_found(data: Seq<u8>, pos: int)
    requires
        0 <= pos <= data.len(),
    ensures
        pack::varint_at(data, pos) matches Ok((n, end)) ==> {
            &&& pos < end <= data.len()
            &&& is_number(data.subrange(pos, end))
            &&& end - pos <= 9 ==> n == number_of(data.subrange(pos, end))
        },
{
    if pos < data.len() {
        let c = data[pos];
        lemma_byte(c);
        lemma_number_found(data, pos + 1, (c & 0x7f) as u64, 7);
        match pack::varint_at(data, pos) {
            Ok((n, end)) => {
                let all = data.subrange(pos, end);
                if c & 0x80 != 0 {
                    let rest = data.subrange(pos + 1, end);
                    assert(all.last() == rest.last());
                    assert forall|i: int| 0 <= i < all.len() - 1 implies #[trigger] all[i]
                        >= 128 by {
                        if i > 0 {
                            assert(all[i] == rest[i - 1]);
                        }
                    }
                }
                if end - pos <= 9 {
                    lemma_number_small(all);
                    lemma_length(data, pos, all);
                }
            },
            Err(_) => {},
        }
    }
}

proof fn lemma_number_small(bytes: Seq<u8>)
    requires
        bytes.len() <= 9,
    ensures
        number_of(bytes) < 0x8000_0000_0000_0000,
{
    reveal_with_fuel(number_of, 10);
}

/// Whether a delta consists of two numbers and the bytes of steps that can be taken from a base,
/// and these make an object, of as many bytes as the second number says.
pub open spec fn is_delta_to(
    base: Seq<u8>,
    delta: Seq<u8>,
    from: Seq<u8>,
    to: Seq<u8>,
    steps: Seq<Step>,
    out: Seq<u8>,
) -> bool {
    &&& is_number(from)
    &&& is_number(to)
    &&& delta == from + to + steps_bytes(steps)
    &&& forall|i: int| 0 <= i < steps.len() ==> can_take(base, #[trigger] steps[i])
    &&& out == made(base, steps)
    &&& to.len() <= 9 ==> out.len() == number_of(to)
}

/// Whatever is made of a base is made by steps: no other delta is taken.
pub proof fn lemma_delta_only(base: Seq<u8>, delta: Seq<u8>, out: Seq<u8>)
    requires
        pack::delta_applied(base, delta) == Ok::<_, PackError>(out),
    ensures
        exists|from: Seq<u8>, to: Seq<u8>, steps: Seq<Step>| #[trigger]
            is_delta_to(base, delta, from, to, steps, out),
{
    lemma_length_found(delta, 0);
    let (_, second) = pack::varint_at(delta, 0)->Ok_0;
    lemma_length_found(delta, second);
    let (_, start) = pack::varint_at(delta, second)->Ok_0;
    let steps = lemma_steps_found(base, delta, start, Seq::empty());
    let from = delta.subrange(0, second);
    let to = delta.subrange(second, start);
    assert(Seq::<u8>::empty() + made(base, steps) =~= made(base, steps));
    assert(delta =~= from + to + steps_bytes(steps)) by {
        assert(delta =~= from + to + delta.skip(start));
    }
    assert(is_delta_to(base, delta, from, to, steps, out));
}

} // verus!
