//! What holds of texts that are cut up, trimmed, put together and written out as numbers.

use vstd::prelude::*;

use crate::text;

verus! {

// ---------------------------------------------------------------------------------------------
// Numerals

/// Whether a character is a digit to a base, and of which value.
pub open spec fn is_digit(c: char, base: nat, value: int) -> bool {
    &&& 0 <= value < base
    &&& {
        ||| '0' <= c <= '9' && value == c as int - '0' as int
        ||| 'a' <= c <= 'z' && value == c as int - 'a' as int + 10
        ||| 'A' <= c <= 'Z' && value == c as int - 'A' as int + 10
    }
}

/// Whether digits to a base are those of a number: the last is what is left of it, and those
/// before are its quotient's.
pub open spec fn are_digits_of(s: Seq<char>, base: nat, n: nat) -> bool
    decreases s.len(),
{
    if s.len() == 0 {
        n == 0
    } else {
        is_digit(s.last(), base, (n % base) as int) && are_digits_of(s.drop_last(), base, n / base)
    }
}

/// A number is written out with the digits that it has, in lower case and without zeros before
/// them.
pub proof fn lemma_numeral(n: nat, base: nat)
    requires
        2 <= base <= 36,
    ensures
        are_digits_of(text::numeral(n, base), base, n),
        text::numeral(n, base).len() > 0,
        n == 0 ==> text::numeral(n, base) == seq!['0'],
        n > 0 ==> text::numeral(n, base)[0] != '0',
        forall|i: int|
            0 <= i < text::numeral(n, base).len() ==> {
                let c = #[trigger] text::numeral(n, base)[i];
                '0' <= c <= '9' || 'a' <= c <= 'z'
            },
    decreases n,
{
    let s = text::numeral(n, base);
    if n < base {
        assert(s =~= seq![text::digit(n as int)]);
        assert(n % base == n && n / base == 0) by (nonlinear_arith)
            requires
                0 <= n < base,
        ;
        assert(s.drop_last() =~= Seq::<char>::empty());
        assert(are_digits_of(s.drop_last(), base, 0));
    } else {
        assert(n / base < n && n / base > 0) by (nonlinear_arith)
            requires
                2 <= base <= n,
        ;
        assert(n % base < base) by (nonlinear_arith)
            requires
                base >= 2,
        ;
        lemma_numeral(n / base, base);
        let front = text::numeral(n / base, base);
        assert(s.drop_last() =~= front);
        assert(s[0] == front[0]);
        assert forall|i: int| 0 <= i < s.len() implies {
            let c = #[trigger] s[i];
            '0' <= c <= '9' || 'a' <= c <= 'z'
        } by {
            if i < front.len() {
                assert(s[i] == front[i]);
            }
        }
    }
}

proof fn lemma_value(s: Seq<char>, base: nat, n: nat)
    requires
        2 <= base <= 36,
    ensures
        are_digits_of(s, base, n) <==> text::digits_value(s, base) == Some(n),
    decreases s.len(),
{
    if s.len() > 0 {
        let front = s.drop_last();
        lemma_value(front, base, n / base);
        let c = s.last();
        assert((n / base) * base + n % base == n && 0 <= n % base < base) by (nonlinear_arith)
            requires
                base >= 2,
        ;
        match (text::digits_value(front, base), text::digit_value(c)) {
            (Some(v), Some(d)) => if d < base {
                let whole = (v * base + d) as nat;
                assert(v * base + d >= 0) by (nonlinear_arith)
                    requires
                        v >= 0,
                        d >= 0,
                        base >= 2,
                ;
                assert(whole / base == v && whole % base == d) by (nonlinear_arith)
                    requires
                        whole == v * base + d,
                        0 <= d < base,
                ;
            },
            _ => {},
        }
    }
}

/// A text is read as a number exactly where it consists of that number's digits, with a plus sign
/// before them or without, and the number is not too large.
pub proof fn lemma_parsed(s: Seq<char>, base: nat, max: nat, n: nat)
    requires
        2 <= base <= 36,
    ensures
        s.len() > 0 && s[0] != '+' ==> (text::parsed(s, base, max) == Some(n) <==> n <= max
            && are_digits_of(s, base, n)),
        s.len() > 0 && s[0] == '+' ==> (text::parsed(s, base, max) == Some(n) <==> s.len() > 1 && n
            <= max && are_digits_of(s.drop_first(), base, n)),
        s.len() == 0 ==> text::parsed(s, base, max) is None,
{
    lemma_value(s, base, n);
    if s.len() > 0 {
        lemma_value(s.drop_first(), base, n);
    }
}

// ---------------------------------------------------------------------------------------------
// Trimming

/// Whether a text is another one that stands between characters of a kind, and neither starts nor
/// ends with one.
pub open spec fn is_core(s: Seq<char>, core: Seq<char>, drop: spec_fn(char) -> bool) -> bool {
    &&& exists|k: int| #[trigger] stands_at(s, core, k) && all_from(s, 0, k, drop) && all_from(
        s,
        k + core.len(),
        s.len() as int,
        drop,
    )
    &&& core.len() > 0 ==> !drop(core[0]) && !drop(core.last())
}

/// Whether a text stands in another from the `k`-th character on.
pub open spec fn stands_at(s: Seq<char>, part: Seq<char>, k: int) -> bool {
    &&& 0 <= k
    &&& k + part.len() <= s.len()
    &&& forall|i: int| 0 <= i < part.len() ==> #[trigger] part[i] == s[k + i]
}

/// Whether the characters from one place to another are all of a kind.
pub open spec fn all_from(s: Seq<char>, from: int, to: int, drop: spec_fn(char) -> bool) -> bool {
    forall|i: int| from <= i < to ==> drop(#[trigger] s[i])
}

proof fn lemma_start(s: Seq<char>, drop: spec_fn(char) -> bool) -> (k: int)
    ensures
        0 <= k <= s.len(),
        text::trimmed_start(s, drop) == s.skip(k),
        all_from(s, 0, k, drop),
        k < s.len() ==> !drop(s[k]),
    decreases s.len(),
{
    if s.len() > 0 && drop(s[0]) {
        let rest = s.drop_first();
        let k = lemma_start(rest, drop);
        assert(rest.skip(k) =~= s.skip(k + 1));
        assert forall|i: int| 0 <= i < k + 1 implies drop(#[trigger] s[i]) by {
            if i > 0 {
                assert(rest[i - 1] == s[i]);
            }
        }
        if k < rest.len() {
            assert(rest[k] == s[k + 1]);
        }
        k + 1
    } else {
        assert(s.skip(0) =~= s);
        0
    }
}

proof fn lemma_end(s: Seq<char>, drop: spec_fn(char) -> bool) -> (k: int)
    ensures
        0 <= k <= s.len(),
        text::trimmed_end(s, drop) == s.take(k),
        all_from(s, k, s.len() as int, drop),
        k > 0 ==> !drop(s[k - 1]),
    decreases s.len(),
{
    if s.len() > 0 && drop(s.last()) {
        let rest = s.drop_last();
        let k = lemma_end(rest, drop);
        assert(rest.take(k) =~= s.take(k));
        assert forall|i: int| k <= i < s.len() implies drop(#[trigger] s[i]) by {
            if i < rest.len() {
                assert(rest[i] == s[i]);
            }
        }
        k
    } else {
        assert(s.take(s.len() as int) =~= s);
        s.len() as int
    }
}

proof fn lemma_both_ends(s: Seq<char>, drop: spec_fn(char) -> bool)
    ensures
        is_core(s, text::trimmed_end(text::trimmed_start(s, drop), drop), drop),
{
    let a = lemma_start(s, drop);
    let rest = s.skip(a);
    let b = lemma_end(rest, drop);
    let core = rest.take(b);
    assert(stands_at(s, core, a));
    assert forall|i: int| a + b <= i < s.len() implies drop(#[trigger] s[i]) by {
        assert(rest[i - a] == s[i]);
    }
    if core.len() > 0 {
        assert(core[0] == s[a]);
        assert(core.last() == rest[b - 1]);
    }
}

/// Whether a text is another one without the white space around it.
pub open spec fn is_trimmed(s: Seq<char>, core: Seq<char>) -> bool {
    is_core(s, core, |c: char| text::is_white(c))
}

/// Whether a text is another one without the slashes around it.
pub open spec fn is_unslashed(s: Seq<char>, core: Seq<char>) -> bool {
    is_core(s, core, |c: char| c == '/')
}

/// A text without the white space around it is what stands between it.
pub proof fn lemma_trimmed(s: Seq<char>)
    ensures
        is_trimmed(s, text::trimmed(s)),
{
    lemma_both_ends(s, |c: char| text::is_white(c));
}

/// A text without the slashes around it is what stands between them.
pub proof fn lemma_unslashed(s: Seq<char>)
    ensures
        is_unslashed(s, text::unslashed(s)),
{
    lemma_both_ends(s, |c: char| c == '/');
}

/// Nothing but white space, or slashes, is taken away behind a text, and all of it is.
pub proof fn lemma_trimmed_end(s: Seq<char>, drop: spec_fn(char) -> bool)
    ensures
        ({
            let rest = text::trimmed_end(s, drop);
            &&& stands_at(s, rest, 0)
            &&& all_from(s, rest.len() as int, s.len() as int, drop)
            &&& rest.len() > 0 ==> !drop(rest.last())
        }),
{
    let k = lemma_end(s, drop);
}

/// Nothing but white space, or slashes, is taken away before a text, and all of it is.
pub proof fn lemma_trimmed_start(s: Seq<char>, drop: spec_fn(char) -> bool)
    ensures
        ({
            let rest = text::trimmed_start(s, drop);
            let k = s.len() - rest.len();
            &&& stands_at(s, rest, k)
            &&& all_from(s, 0, k, drop)
            &&& rest.len() > 0 ==> !drop(rest[0])
        }),
{
    let k = lemma_start(s, drop);
}

/// Of the first 128 characters, the space and those from the tab to the carriage return are white
/// space.
pub proof fn lemma_white(c: char)
    requires
        (c as int) < 128,
    ensures
        text::is_white(c) <==> c == ' ' || c == '\t' || c == '\n' || c == '\r' || c as int == 11
            || c as int == 12,
{
}

// ---------------------------------------------------------------------------------------------
// Splitting and joining

/// A text starts with another where its first characters are those of the other.
pub proof fn lemma_starts_with(s: Seq<char>, prefix: Seq<char>)
    ensures
        text::starts_with(s, prefix) <==> stands_at(s, prefix, 0),
        text::ends_with(s, prefix) <==> stands_at(s, prefix, s.len() - prefix.len()),
{
    if stands_at(s, prefix, 0) {
        assert(s.take(prefix.len() as int) =~= prefix);
    }
    if text::starts_with(s, prefix) {
        assert forall|i: int| 0 <= i < prefix.len() implies #[trigger] prefix[i] == s[0 + i] by {
            assert(s.take(prefix.len() as int)[i] == s[i]);
        }
    }
    let at = s.len() - prefix.len();
    if stands_at(s, prefix, at) {
        assert(s.skip(at) =~= prefix);
    }
    if text::ends_with(s, prefix) {
        assert forall|i: int| 0 <= i < prefix.len() implies #[trigger] prefix[i] == s[at + i] by {
            assert(s.skip(at)[i] == s[at + i]);
        }
    }
}

/// Pieces with a separator between them: the first stands at the start, and each of the others
/// behind a separator, behind those before it.
pub proof fn lemma_joined(parts: Seq<Seq<char>>, last: Seq<char>, sep: Seq<char>)
    ensures
        text::joined(Seq::empty(), sep) == Seq::<char>::empty(),
        text::joined(seq![last], sep) == last,
        parts.len() > 0 ==> text::joined(parts.push(last), sep) == text::joined(parts, sep) + sep
            + last,
{
    assert(parts.push(last).drop_last() =~= parts);
}

/// A text is its pieces with the separator between them, and no piece holds the separator.
pub proof fn lemma_split(s: Seq<char>, sep: char)
    ensures
        text::split(s, sep).len() > 0,
        text::joined(text::split(s, sep), seq![sep]) == s,
        forall|i: int, j: int|
            0 <= i < text::split(s, sep).len() && 0 <= j < text::split(s, sep)[i].len()
                ==> #[trigger] text::split(s, sep)[i][j] != sep,
    decreases s.len(),
{
    let all = text::split(s, sep);
    if s.len() == 0 {
        assert(all =~= seq![Seq::<char>::empty()]);
        assert(text::joined(all, seq![sep]) =~= s);
    } else {
        let front = s.drop_last();
        let c = s.last();
        lemma_split(front, sep);
        let before = text::split(front, sep);
        assert(front.push(c) =~= s);
        if c == sep {
            assert(all.drop_last() =~= before);
            assert(text::joined(all, seq![sep]) =~= text::joined(before, seq![sep]) + seq![sep]);
        } else {
            let longer = before.last().push(c);
            assert(all.drop_last() =~= before.drop_last());
            assert(all.last() == longer);
            assert(before.drop_last().push(before.last()) =~= before);
            if before.len() == 1 {
                assert(text::joined(all, seq![sep]) =~= s);
            } else {
                let head = text::joined(before.drop_last(), seq![sep]);
                assert(text::joined(before, seq![sep]) == head + seq![sep] + before.last());
                assert(text::joined(all, seq![sep]) =~= head + seq![sep] + longer);
                assert(text::joined(all, seq![sep]) =~= s);
            }
        }
        assert forall|i: int, j: int|
            0 <= i < all.len() && 0 <= j < all[i].len() implies #[trigger] all[i][j] != sep by {
            if i < before.len() - 1 || c == sep && i < before.len() {
                assert(all[i] == before[i]);
                assert(before[i][j] != sep);
            } else if c != sep {
                if j < before[i].len() {
                    assert(all[i][j] == before[i][j]);
                    assert(before[i][j] != sep);
                }
            }
        }
    }
}

proof fn lemma_pieces_some(s: Seq<char>)
    ensures
        text::pieces(s).len() > 0,
    decreases s.len(),
{
    if s.len() > 0 {
        lemma_pieces_some(s.drop_last());
    }
}

proof fn lemma_pieces_both(a: Seq<char>, w: char, b: Seq<char>)
    requires
        text::is_white(w),
    ensures
        text::pieces(a.push(w) + b) == text::pieces(a) + text::pieces(b),
    decreases b.len(),
{
    let all = a.push(w) + b;
    lemma_pieces_some(a);
    lemma_pieces_some(b);
    if b.len() == 0 {
        assert(all.drop_last() =~= a);
        assert(all.last() == w);
        assert(text::pieces(all) =~= text::pieces(a) + text::pieces(b));
    } else {
        let front = b.drop_last();
        lemma_pieces_both(a, w, front);
        lemma_pieces_some(front);
        assert(all.drop_last() =~= a.push(w) + front);
        assert(all.last() == b.last());
        assert(text::pieces(all) =~= text::pieces(a) + text::pieces(b));
    }
}

proof fn lemma_nonempty_both(a: Seq<Seq<char>>, b: Seq<Seq<char>>)
    ensures
        text::nonempty(a + b) == text::nonempty(a) + text::nonempty(b),
    decreases b.len(),
{
    if b.len() == 0 {
        assert(a + b =~= a);
        assert(text::nonempty(a) + text::nonempty(b) =~= text::nonempty(a));
    } else {
        lemma_nonempty_both(a, b.drop_last());
        assert((a + b).drop_last() =~= a + b.drop_last());
        assert((a + b).last() == b.last());
        assert(text::nonempty(a + b) =~= text::nonempty(a) + text::nonempty(b));
    }
}

/// The words of a text are those before a white space and those behind it.
pub proof fn lemma_words(a: Seq<char>, w: char, b: Seq<char>)
    requires
        text::is_white(w),
    ensures
        text::words(a.push(w) + b) == text::words(a) + text::words(b),
{
    lemma_pieces_both(a, w, b);
    lemma_nonempty_both(text::pieces(a), text::pieces(b));
}

/// A text without white space is a word, unless it is empty: then it has none.
pub proof fn lemma_one_word(s: Seq<char>)
    requires
        forall|i: int| 0 <= i < s.len() ==> !text::is_white(#[trigger] s[i]),
    ensures
        s.len() > 0 ==> text::words(s) == seq![s],
        s.len() == 0 ==> text::words(s) == Seq::<Seq<char>>::empty(),
{
    lemma_one_piece(s);
    let one = seq![s];
    reveal_with_fuel(text::nonempty, 2);
    assert(one.drop_last() =~= Seq::<Seq<char>>::empty());
    assert(text::nonempty(one) =~= if s.len() > 0 {
        seq![s]
    } else {
        Seq::<Seq<char>>::empty()
    });
}

proof fn lemma_one_piece(s: Seq<char>)
    requires
        forall|i: int| 0 <= i < s.len() ==> !text::is_white(#[trigger] s[i]),
    ensures
        text::pieces(s) == seq![s],
    decreases s.len(),
{
    if s.len() > 0 {
        let front = s.drop_last();
        assert forall|i: int| 0 <= i < front.len() implies !text::is_white(#[trigger] front[i]) by {
            assert(front[i] == s[i]);
        }
        assert(!text::is_white(s[s.len() - 1]));
        lemma_one_piece(front);
        assert(front.push(s.last()) =~= s);
        assert(text::pieces(s) =~= seq![s]);
    } else {
        assert(s =~= Seq::<char>::empty());
        assert(text::pieces(s) =~= seq![s]);
    }
}

} // verus!
