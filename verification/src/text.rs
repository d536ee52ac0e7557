//! Text as sequences of characters: numerals, trimming, splitting and joining.

use vstd::prelude::*;
use vstd::string::*;

verus! {

broadcast use vstd::string::group_string_axioms;

/// Text made of the given characters.
///
/// Trusted: `String::from_iter` on characters gives the text of exactly those characters, in
/// their order.
#[verifier::external_body]
pub(crate) fn from_chars(chars: Vec<char>) -> (s: String)
    ensures
        s@ == chars@,
{
    String::from_iter(chars)
}

/// Text from its UTF-8 bytes.
///
/// Trusted: `String::from_utf8` succeeds exactly on valid UTF-8, and then gives the text that
/// the bytes encode.
#[verifier::external_body]
pub(crate) fn from_utf8(bytes: Vec<u8>) -> (s: Option<String>)
    ensures
        s is Some <==> vstd::utf8::valid_utf8(bytes@),
        s is Some ==> s->0@ == vstd::utf8::decode_utf8(bytes@),
{
    String::from_utf8(bytes).ok()
}

/// What `String::from_utf8_lossy` makes of bytes that are not valid UTF-8, replacement
/// characters included.
pub uninterp spec fn utf8_lossy(bytes: Seq<u8>) -> Seq<char>;

/// The text of bytes, with replacement characters where they are not UTF-8.
pub open spec fn lossy(bytes: Seq<u8>) -> Seq<char> {
    if vstd::utf8::valid_utf8(bytes) {
        vstd::utf8::decode_utf8(bytes)
    } else {
        utf8_lossy(bytes)
    }
}

/// Text from bytes, with replacement characters where they are not UTF-8.
///
/// Trusted: `String::from_utf8_lossy` is a function of the bytes, and gives the encoded text
/// where they are valid UTF-8. Where the replacement characters go is left unsaid.
#[verifier::external_body]
pub(crate) fn from_utf8_lossy(bytes: &[u8]) -> (s: String)
    ensures
        s@ == (if vstd::utf8::valid_utf8(bytes@) {
            vstd::utf8::decode_utf8(bytes@)
        } else {
            utf8_lossy(bytes@)
        }),
{
    String::from_utf8_lossy(bytes).into_owned()
}

/// The characters of a text.
pub fn chars_of(s: &str) -> (chars: Vec<char>)
    ensures
        chars@ == s@,
{
    let mut chars: Vec<char> = Vec::new();
    for c in it: s.chars()
        invariant
            it.seq() == s@,
            chars@ == s@.take(it.index() as int),
    {
        chars.push(c);
        assert(chars@ =~= s@.take(it.index() as int + 1));
    }
    assert(chars@ =~= s@);
    chars
}

/// The UTF-8 bytes of a text.
pub fn bytes_of(s: &str) -> (bytes: Vec<u8>)
    ensures
        bytes@ == vstd::utf8::encode_utf8(s@),
{
    crate::bytes::copy(s.as_bytes())
}

/// Appends a text to characters.
pub fn push_str(out: &mut Vec<char>, s: &str)
    ensures
        final(out)@ == old(out)@ + s@,
{
    let mut more = chars_of(s);
    out.append(&mut more);
}

/// Whether two texts are the same.
pub fn equal(a: &str, b: &str) -> (r: bool)
    ensures
        r == (a@ == b@),
{
    let x = chars_of(a);
    let y = chars_of(b);
    same(&x, &y)
}

/// Whether two character strings are the same.
pub fn same(a: &[char], b: &[char]) -> (r: bool)
    ensures
        r == (a@ == b@),
{
    if a.len() != b.len() {
        return false;
    }
    let mut i: usize = 0;
    while i < a.len()
        invariant
            i <= a@.len() == b@.len(),
            forall|j: int| 0 <= j < i ==> a@[j] == b@[j],
        decreases a@.len() - i,
    {
        if a[i] != b[i] {
            return false;
        }
        i += 1;
    }
    assert(a@ =~= b@);
    true
}

/// The characters from `from` up to `to`.
pub fn chars_range(s: &[char], from: usize, to: usize) -> (out: Vec<char>)
    requires
        from <= to <= s@.len(),
    ensures
        out@ == s@.subrange(from as int, to as int),
{
    let mut out: Vec<char> = Vec::new();
    let mut i: usize = from;
    while i < to
        invariant
            from <= i <= to <= s@.len(),
            out@ == s@.subrange(from as int, i as int),
        decreases to - i,
    {
        out.push(s[i]);
        i += 1;
        assert(out@ =~= s@.subrange(from as int, i as int));
    }
    out
}

/// Whether `s` starts with `prefix`.
pub open spec fn starts_with(s: Seq<char>, prefix: Seq<char>) -> bool {
    prefix.len() <= s.len() && s.take(prefix.len() as int) == prefix
}

/// Whether `s` ends with `suffix`.
pub open spec fn ends_with(s: Seq<char>, suffix: Seq<char>) -> bool {
    suffix.len() <= s.len() && s.skip(s.len() - suffix.len()) == suffix
}

/// Whether a text starts with another.
pub fn has_prefix(s: &[char], prefix: &str) -> (r: bool)
    ensures
        r == starts_with(s@, prefix@),
{
    let p = chars_of(prefix);
    if p.len() > s.len() {
        return false;
    }
    let head = chars_range(s, 0, p.len());
    assert(head@ =~= s@.take(prefix@.len() as int));
    same(&head, &p)
}

/// Whether a text ends with another.
pub fn has_suffix(s: &[char], suffix: &str) -> (r: bool)
    ensures
        r == ends_with(s@, suffix@),
{
    let p = chars_of(suffix);
    if p.len() > s.len() {
        return false;
    }
    let tail = chars_range(s, s.len() - p.len(), s.len());
    assert(tail@ =~= s@.skip(s@.len() - suffix@.len()));
    same(&tail, &p)
}

/// The text behind a prefix, where it is there.
pub fn strip_prefix(s: &[char], prefix: &str) -> (r: Option<Vec<char>>)
    ensures
        r is Some <==> starts_with(s@, prefix@),
        r is Some ==> r->0@ == s@.skip(prefix@.len() as int),
{
    if has_prefix(s, prefix) {
        let n: usize = chars_of(prefix).len();
        let rest = chars_range(s, n, s.len());
        assert(rest@ =~= s@.skip(n as int));
        Some(rest)
    } else {
        None
    }
}

/// A text without any number of a prefix before it.
pub open spec fn stripped(s: Seq<char>, prefix: Seq<char>) -> Seq<char>
    decreases s.len(),
{
    if prefix.len() > 0 && starts_with(s, prefix) {
        stripped(s.skip(prefix.len() as int), prefix)
    } else {
        s
    }
}

/// Takes any number of a prefix away.
pub fn strip_all(s: Vec<char>, prefix: &str) -> (out: Vec<char>)
    requires
        prefix@.len() > 0,
    ensures
        out@ == stripped(s@, prefix@),
{
    let mut rest = s;
    loop
        invariant
            prefix@.len() > 0,
            stripped(rest@, prefix@) == stripped(s@, prefix@),
        ensures
            rest@ == stripped(s@, prefix@),
        decreases rest@.len(),
    {
        match strip_prefix(rest.as_slice(), prefix) {
            Some(shorter) => {
                rest = shorter;
            },
            None => {
                break;
            },
        }
    }
    rest
}

/// The text before a suffix, where it is there.
pub fn strip_suffix(s: &[char], suffix: &str) -> (r: Option<Vec<char>>)
    ensures
        r is Some <==> ends_with(s@, suffix@),
        r is Some ==> r->0@ == s@.take(s@.len() - suffix@.len()),
{
    if has_suffix(s, suffix) {
        let n: usize = chars_of(suffix).len();
        let rest = chars_range(s, 0, s.len() - n);
        assert(rest@ =~= s@.take(s@.len() - n));
        Some(rest)
    } else {
        None
    }
}

// ---------------------------------------------------------------------------------------------
// Numerals

/// The digit of value `d`, the lower-case letters standing for ten and up.
pub open spec fn digit(d: int) -> char {
    if d < 10 {
        (48 + d) as char
    } else {
        (87 + d) as char
    }
}

/// The value of a digit, in either case.
pub open spec fn digit_value(c: char) -> Option<int> {
    if '0' <= c <= '9' {
        Some(c as int - 48)
    } else if 'a' <= c <= 'z' {
        Some(c as int - 87)
    } else if 'A' <= c <= 'Z' {
        Some(c as int - 55)
    } else {
        None
    }
}

/// A number written out to a base.
pub open spec fn numeral(n: nat, base: nat) -> Seq<char>
    decreases n,
{
    if base < 2 || n < base {
        seq![digit(n as int)]
    } else {
        proof {
            assert(n / base < n) by (nonlinear_arith)
                requires
                    2 <= base <= n,
            ;
        }
        numeral(n / base, base).push(digit((n % base) as int))
    }
}

/// The number that digits to a base stand for, where all of them are digits of that base.
pub open spec fn digits_value(s: Seq<char>, base: nat) -> Option<nat>
    decreases s.len(),
{
    if s.len() == 0 {
        Some(0nat)
    } else {
        match (digits_value(s.drop_last(), base), digit_value(s.last())) {
            (Some(v), Some(d)) => if d < base {
                Some((v * base + d) as nat)
            } else {
                None
            },
            _ => None,
        }
    }
}

/// The number that a text stands for: at least one digit, with or without a plus sign before
/// them, and nothing else; no more than `max`.
pub open spec fn parsed(s: Seq<char>, base: nat, max: nat) -> Option<nat> {
    let digits = if s.len() > 0 && s[0] == '+' {
        s.drop_first()
    } else {
        s
    };
    if digits.len() == 0 {
        None
    } else {
        match digits_value(digits, base) {
            Some(v) => if v <= max {
                Some(v)
            } else {
                None
            },
            None => None,
        }
    }
}

fn digit_char(d: u64) -> (c: char)
    requires
        d < 36,
    ensures
        c == digit(d as int),
{
    if d < 10 {
        (48 + d as u8) as char
    } else {
        (87 + d as u8) as char
    }
}

fn char_value(c: char) -> (v: Option<u64>)
    ensures
        v is Some <==> digit_value(c) is Some,
        v is Some ==> v->0 == digit_value(c)->0 && v->0 < 36,
{
    if '0' <= c && c <= '9' {
        Some((c as u32 - 48) as u64)
    } else if 'a' <= c && c <= 'z' {
        Some((c as u32 - 87) as u64)
    } else if 'A' <= c && c <= 'Z' {
        Some((c as u32 - 55) as u64)
    } else {
        None
    }
}

/// Appends a number written out to a base.
pub fn push_numeral(out: &mut Vec<char>, n: u64, base: u64)
    requires
        2 <= base <= 36,
    ensures
        final(out)@ == old(out)@ + numeral(n as nat, base as nat),
    decreases n,
{
    if n < base {
        out.push(digit_char(n));
    } else {
        assert(n / base < n) by (nonlinear_arith)
            requires
                2 <= base <= n,
        ;
        push_numeral(out, n / base, base);
        out.push(digit_char(n % base));
    }
    assert(out@ =~= old(out)@ + numeral(n as nat, base as nat));
}

/// A number written out to a base.
pub fn numeral_of(n: u64, base: u64) -> (s: String)
    requires
        2 <= base <= 36,
    ensures
        s@ == numeral(n as nat, base as nat),
{
    let mut out: Vec<char> = Vec::new();
    push_numeral(&mut out, n, base);
    assert(out@ =~= numeral(n as nat, base as nat));
    from_chars(out)
}

proof fn lemma_digits_prefix(s: Seq<char>, i: int, base: nat)
    requires
        0 <= i <= s.len(),
        base >= 2,
        digits_value(s, base) is Some,
    ensures
        digits_value(s.take(i), base) is Some,
        digits_value(s.take(i), base)->0 <= digits_value(s, base)->0,
    decreases s.len() - i,
{
    if i == s.len() {
        assert(s.take(i) =~= s);
    } else {
        lemma_digits_prefix(s, i + 1, base);
        assert(s.take(i + 1).drop_last() =~= s.take(i));
        let v = digits_value(s.take(i), base)->0;
        let d = digit_value(s[i])->0;
        assert(v * base + d >= v) by (nonlinear_arith)
            requires
                base >= 2,
                d >= 0,
                v >= 0,
        ;
    }
}

/// Reads a number to a base.
pub fn parse_number(s: &[char], base: u64, max: u64) -> (r: Option<u64>)
    requires
        2 <= base <= 36,
    ensures
        r is Some <==> parsed(s@, base as nat, max as nat) is Some,
        r is Some ==> r->0 == parsed(s@, base as nat, max as nat)->0,
{
    let start: usize = if s.len() > 0 && s[0] == '+' {
        1
    } else {
        0
    };
    let ghost digits = s@.skip(start as int);
    assert(digits =~= (if s@.len() > 0 && s@[0] == '+' {
        s@.drop_first()
    } else {
        s@
    }));
    if start == s.len() {
        return None;
    }
    let mut v: u64 = 0;
    let mut i: usize = start;
    assert(digits.take(0) =~= Seq::<char>::empty());
    while i < s.len()
        invariant
            2 <= base <= 36,
            start <= i <= s@.len(),
            digits == s@.skip(start as int),
            digits.len() > 0,
            parsed(s@, base as nat, max as nat) == (match digits_value(digits, base as nat) {
                Some(v) => if v <= max {
                    Some(v)
                } else {
                    None
                },
                None => None,
            }),
            digits_value(digits.take(i - start), base as nat) == Some(v as nat),
            v <= max,
        decreases s@.len() - i,
    {
        proof {
            assert(digits.take(i - start + 1).drop_last() =~= digits.take(i - start));
            assert(digits.take(i - start + 1).last() == s@[i as int]);
            if digits_value(digits, base as nat) is Some {
                lemma_digits_prefix(digits, i - start + 1, base as nat);
            }
        }
        let d: u64 = match char_value(s[i]) {
            Some(d) => d,
            None => {
                return None;
            },
        };
        if d >= base {
            return None;
        }
        assert(v * base <= u64::MAX * 36) by (nonlinear_arith)
            requires
                v <= u64::MAX,
                base <= 36,
        ;
        let next: u128 = v as u128 * base as u128 + d as u128;
        if next > max as u128 {
            return None;
        }
        v = next as u64;
        i += 1;
    }
    assert(digits.take(s@.len() - start) =~= digits);
    Some(v)
}

/// A number written out is read back.
pub proof fn lemma_numeral_parsed(n: nat, base: nat, max: nat)
    requires
        2 <= base <= 36,
        n <= max,
    ensures
        parsed(numeral(n, base), base, max) == Some(n),
{
    lemma_numeral_value(n, base);
    assert(numeral(n, base)[0] != '+');
}

proof fn lemma_numeral_value(n: nat, base: nat)
    requires
        2 <= base <= 36,
    ensures
        digits_value(numeral(n, base), base) == Some(n),
        numeral(n, base).len() > 0,
        digit_value(numeral(n, base)[0]) is Some,
    decreases n,
{
    if n < base {
        assert(numeral(n, base).drop_last() =~= Seq::<char>::empty());
        reveal_with_fuel(digits_value, 2);
        assert(numeral(n, base).last() == digit(n as int));
        assert(digit_value(digit(n as int)) == Some(n as int));
        assert(0nat * base == 0) by (nonlinear_arith);
        assert(digits_value(numeral(n, base).drop_last(), base) == Some(0nat));
    } else {
        assert(n / base < n) by (nonlinear_arith)
            requires
                2 <= base <= n,
        ;
        lemma_numeral_value(n / base, base);
        assert(numeral(n, base).drop_last() =~= numeral(n / base, base));
        assert((n / base) * base + n % base == n) by (nonlinear_arith)
            requires
                base >= 2,
        ;
        assert(n % base < base) by (nonlinear_arith)
            requires
                base >= 2,
        ;
        assert(digit_value(digit((n % base) as int)) == Some((n % base) as int));
    }
}

// ---------------------------------------------------------------------------------------------
// Trimming

/// The characters of Unicode's white space.
pub open spec fn is_white(c: char) -> bool {
    ||| '\u{9}' <= c <= '\u{d}'
    ||| c == ' '
    ||| c == '\u{85}'
    ||| c == '\u{a0}'
    ||| c == '\u{1680}'
    ||| '\u{2000}' <= c <= '\u{200a}'
    ||| c == '\u{2028}'
    ||| c == '\u{2029}'
    ||| c == '\u{202f}'
    ||| c == '\u{205f}'
    ||| c == '\u{3000}'
}

fn white(c: char) -> (r: bool)
    ensures
        r == is_white(c),
{
    ('\u{9}' <= c && c <= '\u{d}') || c == ' ' || c == '\u{85}' || c == '\u{a0}' || c == '\u{1680}'
        || ('\u{2000}' <= c && c <= '\u{200a}') || c == '\u{2028}' || c == '\u{2029}' || c
        == '\u{202f}' || c == '\u{205f}' || c == '\u{3000}'
}

/// The text without the characters at its start that `drop` holds of.
pub open spec fn trimmed_start(s: Seq<char>, drop: spec_fn(char) -> bool) -> Seq<char>
    decreases s.len(),
{
    if s.len() > 0 && drop(s[0]) {
        trimmed_start(s.drop_first(), drop)
    } else {
        s
    }
}

/// The text without the characters at its end that `drop` holds of.
pub open spec fn trimmed_end(s: Seq<char>, drop: spec_fn(char) -> bool) -> Seq<char>
    decreases s.len(),
{
    if s.len() > 0 && drop(s.last()) {
        trimmed_end(s.drop_last(), drop)
    } else {
        s
    }
}

/// The text without white space around it.
pub open spec fn trimmed(s: Seq<char>) -> Seq<char> {
    trimmed_end(trimmed_start(s, |c: char| is_white(c)), |c: char| is_white(c))
}

/// The text without the slashes around it.
pub open spec fn unslashed(s: Seq<char>) -> Seq<char> {
    trimmed_end(trimmed_start(s, |c: char| c == '/'), |c: char| c == '/')
}

fn drops(c: char, slashes: bool) -> (r: bool)
    ensures
        r == (if slashes {
            c == '/'
        } else {
            is_white(c)
        }),
{
    if slashes {
        c == '/'
    } else {
        white(c)
    }
}

fn trim_by(s: &[char], slashes: bool) -> (out: Vec<char>)
    ensures
        out@ == (if slashes {
            unslashed(s@)
        } else {
            trimmed(s@)
        }),
{
    let ghost drop: spec_fn(char) -> bool = if slashes {
        |c: char| c == '/'
    } else {
        |c: char| is_white(c)
    };
    let mut from: usize = 0;
    assert(s@.skip(0) =~= s@);
    while from < s.len() && drops(s[from], slashes)
        invariant
            from <= s@.len(),
            drop == (if slashes {
                |c: char| c == '/'
            } else {
                |c: char| is_white(c)
            }),
            trimmed_start(s@.skip(from as int), drop) == trimmed_start(s@, drop),
        decreases s@.len() - from,
    {
        assert(s@.skip(from as int).drop_first() =~= s@.skip(from as int + 1));
        from += 1;
    }
    assert(trimmed_start(s@, drop) == s@.skip(from as int));
    let mut to: usize = s.len();
    assert(s@.subrange(from as int, to as int) =~= s@.skip(from as int));
    while to > from && drops(s[to - 1], slashes)
        invariant
            from <= to <= s@.len(),
            drop == (if slashes {
                |c: char| c == '/'
            } else {
                |c: char| is_white(c)
            }),
            trimmed_end(s@.subrange(from as int, to as int), drop) == trimmed_end(
                s@.skip(from as int),
                drop,
            ),
        decreases to,
    {
        assert(s@.subrange(from as int, to as int).drop_last() =~= s@.subrange(
            from as int,
            to - 1,
        ));
        to -= 1;
    }
    chars_range(s, from, to)
}

/// Takes the white space around a text away.
pub fn trim(s: &[char]) -> (out: Vec<char>)
    ensures
        out@ == trimmed(s@),
{
    trim_by(s, false)
}

/// Takes the line ends behind a text away.
pub fn trim_newlines(s: Vec<char>) -> (out: Vec<char>)
    ensures
        out@ == trimmed_end(s@, |c: char| c == '\n'),
{
    let mut out = s;
    while out.len() > 0 && out[out.len() - 1] == '\n'
        invariant
            trimmed_end(out@, |c: char| c == '\n') == trimmed_end(s@, |c: char| c == '\n'),
        decreases out@.len(),
    {
        let ghost before = out@;
        let _ = out.pop();
        assert(out@ =~= before.drop_last());
    }
    out
}

/// Takes the slashes around a text away.
pub fn trim_slashes(s: &[char]) -> (out: Vec<char>)
    ensures
        out@ == unslashed(s@),
{
    trim_by(s, true)
}

/// Takes the slashes before a text away.
pub fn trim_slashes_start(s: &[char]) -> (out: Vec<char>)
    ensures
        out@ == trimmed_start(s@, |c: char| c == '/'),
{
    let mut from: usize = 0;
    assert(s@.skip(0) =~= s@);
    while from < s.len() && s[from] == '/'
        invariant
            from <= s@.len(),
            trimmed_start(s@.skip(from as int), |c: char| c == '/') == trimmed_start(
                s@,
                |c: char| c == '/',
            ),
        decreases s@.len() - from,
    {
        assert(s@.skip(from as int).drop_first() =~= s@.skip(from as int + 1));
        from += 1;
    }
    let rest = chars_range(s, from, s.len());
    assert(rest@ =~= s@.skip(from as int));
    rest
}

/// Takes the slashes behind a text away.
pub fn trim_slashes_end(s: Vec<char>) -> (out: Vec<char>)
    ensures
        out@ == trimmed_end(s@, |c: char| c == '/'),
{
    let mut out = s;
    while out.len() > 0 && out[out.len() - 1] == '/'
        invariant
            trimmed_end(out@, |c: char| c == '/') == trimmed_end(s@, |c: char| c == '/'),
        decreases out@.len(),
    {
        let ghost before = out@;
        let _ = out.pop();
        assert(out@ =~= before.drop_last());
    }
    out
}

// ---------------------------------------------------------------------------------------------
// Splitting and joining

/// The pieces between the separators.
pub open spec fn split(s: Seq<char>, sep: char) -> Seq<Seq<char>>
    decreases s.len(),
{
    if s.len() == 0 {
        seq![Seq::empty()]
    } else {
        let before = split(s.drop_last(), sep);
        if s.last() == sep {
            before.push(Seq::empty())
        } else {
            before.update(before.len() - 1, before.last().push(s.last()))
        }
    }
}

/// There is always a piece.
pub proof fn lemma_split_some(s: Seq<char>, sep: char)
    ensures
        split(s, sep).len() > 0,
    decreases s.len(),
{
    if s.len() > 0 {
        lemma_split_some(s.drop_last(), sep);
    }
}

/// The texts that are not empty.
pub open spec fn nonempty(parts: Seq<Seq<char>>) -> Seq<Seq<char>>
    decreases parts.len(),
{
    if parts.len() == 0 {
        parts
    } else if parts.last().len() == 0 {
        nonempty(parts.drop_last())
    } else {
        nonempty(parts.drop_last()).push(parts.last())
    }
}

/// The pieces between white space, empty ones too.
pub open spec fn pieces(s: Seq<char>) -> Seq<Seq<char>>
    decreases s.len(),
{
    if s.len() == 0 {
        seq![Seq::empty()]
    } else {
        let before = pieces(s.drop_last());
        if is_white(s.last()) {
            before.push(Seq::empty())
        } else {
            before.update(before.len() - 1, before.last().push(s.last()))
        }
    }
}

/// The words of a text: what is between its white space.
pub open spec fn words(s: Seq<char>) -> Seq<Seq<char>> {
    nonempty(pieces(s))
}

/// The pieces with the separator between them.
pub open spec fn joined(parts: Seq<Seq<char>>, sep: Seq<char>) -> Seq<char>
    decreases parts.len(),
{
    if parts.len() == 0 {
        Seq::empty()
    } else if parts.len() == 1 {
        parts[0]
    } else {
        joined(parts.drop_last(), sep) + sep + parts.last()
    }
}

/// The characters of each of several texts.
pub open spec fn views(parts: Seq<Vec<char>>) -> Seq<Seq<char>> {
    parts.map_values(|p: Vec<char>| p@)
}

/// Cuts a text at the separators.
pub fn split_at_char(s: &[char], sep: char) -> (parts: Vec<Vec<char>>)
    ensures
        views(parts@) == split(s@, sep),
        parts@.len() > 0,
{
    let mut parts: Vec<Vec<char>> = Vec::new();
    let mut piece: Vec<char> = Vec::new();
    let mut i: usize = 0;
    assert(s@.take(0) =~= Seq::<char>::empty());
    assert(views(parts@).push(piece@) =~= split(s@.take(0), sep));
    while i < s.len()
        invariant
            i <= s@.len(),
            views(parts@).push(piece@) == split(s@.take(i as int), sep),
        decreases s@.len() - i,
    {
        let c = s[i];
        let ghost before = views(parts@).push(piece@);
        assert(s@.take(i as int + 1).drop_last() =~= s@.take(i as int));
        if c == sep {
            let ghost done = piece@;
            let ghost had = parts@;
            parts.push(piece);
            piece = Vec::new();
            assert(views(parts@) =~= views(had).push(done));
            assert(views(parts@).push(piece@) =~= before.push(Seq::empty()));
        } else {
            piece.push(c);
            assert(views(parts@).push(piece@) =~= before.update(
                before.len() - 1,
                before.last().push(c),
            ));
        }
        i += 1;
    }
    assert(s@.take(i as int) =~= s@);
    let ghost done = piece@;
    let ghost had = parts@;
    parts.push(piece);
    assert(views(parts@) =~= views(had).push(done));
    parts
}

/// Cuts a text into its words.
pub fn split_words(s: &[char]) -> (parts: Vec<Vec<char>>)
    ensures
        views(parts@) == words(s@),
{
    let mut parts: Vec<Vec<char>> = Vec::new();
    let mut piece: Vec<char> = Vec::new();
    let mut i: usize = 0;
    let ghost mut done: Seq<Seq<char>> = Seq::empty();
    assert(s@.take(0) =~= Seq::<char>::empty());
    assert(done.push(piece@) =~= pieces(s@.take(0)));
    assert(views(parts@) =~= Seq::<Seq<char>>::empty());
    while i < s.len()
        invariant
            i <= s@.len(),
            done.push(piece@) == pieces(s@.take(i as int)),
            views(parts@) == nonempty(done),
        decreases s@.len() - i,
    {
        let c = s[i];
        let ghost before = done.push(piece@);
        assert(s@.take(i as int + 1).drop_last() =~= s@.take(i as int));
        if white(c) {
            let ghost last = piece@;
            let ghost had = parts@;
            assert(before.drop_last() =~= done);
            if piece.len() > 0 {
                parts.push(piece);
                assert(views(parts@) =~= views(had).push(last));
            }
            piece = Vec::new();
            proof {
                done = before;
            }
        } else {
            piece.push(c);
            assert(done.push(piece@) =~= before.update(before.len() - 1, before.last().push(c)));
        }
        i += 1;
    }
    assert(s@.take(i as int) =~= s@);
    assert(done.push(piece@).drop_last() =~= done);
    let ghost last = piece@;
    let ghost had = parts@;
    if piece.len() > 0 {
        parts.push(piece);
        assert(views(parts@) =~= views(had).push(last));
    }
    parts
}

/// Puts texts together with a separator between them.
pub fn join(parts: &Vec<Vec<char>>, sep: &str) -> (out: Vec<char>)
    ensures
        out@ == joined(views(parts@), sep@),
{
    let mut out: Vec<char> = Vec::new();
    let mut i: usize = 0;
    let ghost all = views(parts@);
    assert(all.take(0) =~= Seq::<Seq<char>>::empty());
    while i < parts.len()
        invariant
            i <= parts@.len(),
            all == views(parts@),
            out@ == joined(all.take(i as int), sep@),
        decreases parts@.len() - i,
    {
        if i > 0 {
            push_str(&mut out, sep);
        }
        let mut piece = chars_range(parts[i].as_slice(), 0, parts[i].len());
        assert(piece@ =~= all[i as int]);
        out.append(&mut piece);
        assert(all.take(i as int + 1).drop_last() =~= all.take(i as int));
        i += 1;
    }
    assert(all.take(i as int) =~= all);
    out
}

// ---------------------------------------------------------------------------------------------
// UTF-8

/// A character takes four bytes at most.
pub proof fn lemma_encode_len(s: Seq<char>)
    ensures
        s.len() <= vstd::utf8::encode_utf8(s).len() <= 4 * s.len(),
    decreases s.len(),
{
    if s.len() > 0 {
        lemma_encode_len(s.drop_first());
    }
}

/// The bytes of texts one after the other are those of each, one after the other.
pub proof fn lemma_encode_concat(a: Seq<char>, b: Seq<char>)
    ensures
        vstd::utf8::encode_utf8(a + b) == vstd::utf8::encode_utf8(a) + vstd::utf8::encode_utf8(b),
    decreases a.len(),
{
    if a.len() == 0 {
        assert(a + b =~= b);
        assert(vstd::utf8::encode_utf8(a) + vstd::utf8::encode_utf8(b)
            =~= vstd::utf8::encode_utf8(b));
    } else {
        lemma_encode_concat(a.drop_first(), b);
        assert((a + b).drop_first() =~= a.drop_first() + b);
        assert(vstd::utf8::encode_utf8(a + b) =~= vstd::utf8::encode_utf8(a)
            + vstd::utf8::encode_utf8(b));
    }
}

proof fn lemma_scalar_bytes(u: u32)
    by (bit_vector)
    ensures
        u < 128 ==> (u & 0x7f) as u8 == u,
        (0xC0 | ((u >> 6) & 0x1F) as u8) >= 128,
        (0xE0 | ((u >> 12) & 0x0F) as u8) >= 128,
        (0xF0 | ((u >> 18) & 0x07) as u8) >= 128,
        (0x80 | (u & 0x3F) as u8) >= 128,
        (0x80 | ((u >> 6) & 0x3F) as u8) >= 128,
        (0x80 | ((u >> 12) & 0x3F) as u8) >= 128,
{
}

/// An ASCII byte stands in the bytes of a text only where the text has that character.
pub proof fn lemma_encode_avoids(s: Seq<char>, byte: u8)
    requires
        byte < 128,
        forall|i: int| 0 <= i < s.len() ==> #[trigger] s[i] != byte as char,
    ensures
        forall|i: int|
            0 <= i < vstd::utf8::encode_utf8(s).len() ==> #[trigger] vstd::utf8::encode_utf8(s)[i]
                != byte,
    decreases s.len(),
{
    if s.len() > 0 {
        let u = s[0] as u32;
        let first = vstd::utf8::encode_scalar(u);
        let rest = s.drop_first();
        assert forall|i: int| 0 <= i < rest.len() implies #[trigger] rest[i] != byte as char by {
            assert(rest[i] == s[i + 1]);
        }
        lemma_encode_avoids(rest, byte);
        lemma_scalar_bytes(u);
        assert(s[0] != byte as char);
        vstd::utf8::char_u32_cast(s[0], u);
        assert forall|i: int| 0 <= i < first.len() implies first[i] != byte by {
        }
        let all = vstd::utf8::encode_utf8(s);
        assert forall|i: int| 0 <= i < all.len() implies #[trigger] all[i] != byte by {
            if i >= first.len() {
                assert(all[i] == vstd::utf8::encode_utf8(rest)[i - first.len()]);
            } else {
                assert(all[i] == first[i]);
            }
        }
    }
}

/// The bytes of a text determine it.
pub proof fn lemma_encode_injective(a: Seq<char>, b: Seq<char>)
    requires
        vstd::utf8::encode_utf8(a) == vstd::utf8::encode_utf8(b),
    ensures
        a == b,
{
    vstd::utf8::encode_utf8_decode_utf8(a);
    vstd::utf8::encode_utf8_decode_utf8(b);
}

} // verus!
