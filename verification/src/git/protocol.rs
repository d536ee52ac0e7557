//! Git's wire format: lines with their lengths, and packfiles inside of them.

use vstd::prelude::*;
use vstd::slice::slice_subrange;

use crate::bytes;
use crate::text;

verus! {

/// Why a response was refused.
#[derive(Debug)]
pub enum PktError {
    /// A length is not UTF-8.
    LengthUtf8,
    /// A length is not a number.
    BadLength,
    /// A packet is longer than what is left.
    TooLong,
    /// The server says that it failed.
    Remote(String),
    /// No packfile in the response.
    NoPack,
}

/// Why a response was refused, with the server's words as characters.
pub enum PktFault {
    LengthUtf8,
    BadLength,
    TooLong,
    Remote(Seq<char>),
    NoPack,
}

impl View for PktError {
    type V = PktFault;

    open spec fn view(&self) -> PktFault {
        match self {
            PktError::LengthUtf8 => PktFault::LengthUtf8,
            PktError::BadLength => PktFault::BadLength,
            PktError::TooLong => PktFault::TooLong,
            PktError::Remote(words) => PktFault::Remote(words@),
            PktError::NoPack => PktFault::NoPack,
        }
    }
}

/// What comes of reading packets: a result, a refusal, or a packet so short that it would end
/// within its own length.
pub enum Walk<T> {
    Done(T),
    Failed(PktFault),
    Malformed,
}

/// A length in hexadecimal, with zeros before it up to four digits.
pub open spec fn padded(n: nat) -> Seq<char> {
    let digits = text::numeral(n, 16);
    if digits.len() >= 4 {
        digits
    } else {
        Seq::new((4 - digits.len()) as nat, |i: int| '0') + digits
    }
}

/// The packet of a line: the length of the packet, the line and a line end.
pub open spec fn pkt_line(line: Seq<char>) -> Seq<u8> {
    vstd::utf8::encode_utf8(padded(vstd::utf8::encode_utf8(line).len() + 5))
        + vstd::utf8::encode_utf8(line) + seq![10u8]
}

/// The packet that ends a part of a request.
pub open spec fn flush() -> Seq<u8> {
    seq![48u8, 48, 48, 48]
}

/// Formats a line as a packet.
pub fn encode_pkt_line(line: &str) -> (out: Vec<u8>)
    requires
        vstd::utf8::encode_utf8(line@).len() + 5 <= usize::MAX,
    ensures
        out@ == pkt_line(line@),
{
    let payload = text::bytes_of(line);
    let total: usize = payload.len() + 5;
    let mut digits: Vec<char> = Vec::new();
    text::push_numeral(&mut digits, total as u64, 16);
    assert(digits@ =~= text::numeral(total as nat, 16));
    let mut prefix: Vec<char> = Vec::new();
    while prefix.len() + digits.len() < 4
        invariant
            prefix@.len() <= 4,
            prefix@.len() + digits@.len() <= 4 || prefix@.len() == 0,
            digits@.len() <= usize::MAX - 4 || prefix@.len() == 0,
            forall|i: int| 0 <= i < prefix@.len() ==> #[trigger] prefix@[i] == '0',
        decreases 4 - prefix@.len(),
    {
        prefix.push('0');
    }
    prefix.append(&mut digits);
    assert(prefix@ =~= padded(total as nat));
    let mut out = text::bytes_of(text::from_chars(prefix).as_str());
    bytes::append(&mut out, payload.as_slice());
    out.push(10);
    assert(out@ =~= pkt_line(line@));
    out
}

/// The flush packet.
pub fn flush_pkt() -> (out: Vec<u8>)
    ensures
        out@ == flush(),
{
    let out: Vec<u8> = vec![48, 48, 48, 48];
    assert(out@ =~= flush());
    out
}

/// The delimiter packet.
pub fn delim_pkt() -> (out: Vec<u8>)
    ensures
        out@ == seq![48u8, 48, 48, 49],
{
    let out: Vec<u8> = vec![48, 48, 48, 49];
    assert(out@ =~= seq![48u8, 48, 48, 49]);
    out
}

/// The length that four bytes stand for.
pub open spec fn pkt_length(head: Seq<u8>) -> Result<nat, PktFault> {
    if !vstd::utf8::valid_utf8(head) {
        Err(PktFault::LengthUtf8)
    } else {
        match text::parsed(vstd::utf8::decode_utf8(head), 16, u64::MAX as nat) {
            Some(n) => Ok(n),
            None => Err(PktFault::BadLength),
        }
    }
}

/// The text of a packet, without line ends behind it.
pub open spec fn line_text(chunk: Seq<u8>) -> Seq<char> {
    text::trimmed_end(text::lossy(chunk), |c: char| c == '\n')
}

/// The lines of a response. Flush and delimiter packets give none, and a packet that was cut
/// off ends the response.
pub open spec fn pkt_lines(data: Seq<u8>) -> Walk<Seq<Seq<char>>>
    decreases data.len(),
{
    if data.len() < 4 {
        Walk::Done(Seq::empty())
    } else {
        match pkt_length(data.take(4)) {
            Err(f) => Walk::Failed(f),
            Ok(n) => if n <= 1 {
                pkt_lines(data.skip(4))
            } else if n > data.len() {
                Walk::Done(Seq::empty())
            } else if n < 4 {
                Walk::Malformed
            } else {
                match pkt_lines(data.skip(n as int)) {
                    Walk::Done(rest) => Walk::Done(
                        seq![line_text(data.subrange(4, n as int))] + rest,
                    ),
                    other => other,
                }
            },
        }
    }
}

/// What a packet adds to the packfile: the payload of the first channel, nothing for progress
/// messages, and a whole packet where no channel was used and a packfile starts.
pub open spec fn pack_part(chunk: Seq<u8>) -> Seq<u8> {
    if chunk.len() == 0 || chunk[0] == 2 {
        Seq::empty()
    } else if chunk[0] == 1 {
        chunk.skip(1)
    } else if chunk.len() >= 4 && chunk.take(4) == seq![80u8, 65, 67, 75] {
        chunk
    } else {
        Seq::empty()
    }
}

/// The packfile data of a response that uses channels.
pub open spec fn sideband(data: Seq<u8>) -> Walk<Seq<u8>>
    decreases data.len(),
{
    if data.len() < 4 {
        Walk::Done(Seq::empty())
    } else {
        match pkt_length(data.take(4)) {
            Err(f) => Walk::Failed(f),
            Ok(n) => if n <= 1 {
                sideband(data.skip(4))
            } else if n > data.len() {
                Walk::Failed(PktFault::TooLong)
            } else if n < 4 {
                Walk::Malformed
            } else {
                let chunk = data.subrange(4, n as int);
                if chunk.len() > 0 && chunk[0] == 3 {
                    Walk::Failed(PktFault::Remote(text::lossy(chunk.skip(1))))
                } else {
                    match sideband(data.skip(n as int)) {
                        Walk::Done(rest) => Walk::Done(pack_part(chunk) + rest),
                        other => other,
                    }
                }
            },
        }
    }
}

/// The first place where the magic of a packfile stands.
pub open spec fn find_magic(data: Seq<u8>, from: int) -> Option<int>
    decreases data.len() - from,
{
    if from + 4 > data.len() {
        None
    } else if data.subrange(from, from + 4) == seq![80u8, 65, 67, 75] {
        Some(from)
    } else {
        find_magic(data, from + 1)
    }
}

/// The packfile of a response: from the channels, or else from where its magic stands.
pub open spec fn extracted(data: Seq<u8>) -> Walk<Seq<u8>> {
    match sideband(data) {
        Walk::Done(pack) => if pack.len() > 0 {
            Walk::Done(pack)
        } else {
            match find_magic(data, 0) {
                Some(at) => Walk::Done(data.skip(at)),
                None => Walk::Failed(PktFault::NoPack),
            }
        },
        other => other,
    }
}

fn read_length(data: &[u8], at: usize) -> (r: Result<u64, PktError>)
    requires
        at + 4 <= data@.len(),
    ensures
        match r {
            Ok(n) => pkt_length(data@.skip(at as int).take(4)) == Ok::<nat, PktFault>(n as nat),
            Err(e) => pkt_length(data@.skip(at as int).take(4)) == Err::<nat, _>(e@),
        },
{
    let len: usize = data.len();
    let head = bytes::copy_range(data, at, at + 4);
    assert(head@ =~= data@.skip(at as int).take(4));
    match text::from_utf8(head) {
        None => Err(PktError::LengthUtf8),
        Some(s) => {
            let chars = text::chars_of(s.as_str());
            match text::parse_number(&chars, 16, u64::MAX) {
                Some(n) => Ok(n),
                None => Err(PktError::BadLength),
            }
        },
    }
}

/// What came of reading the lines of a response.
enum LineWalk {
    Done(Vec<String>),
    Failed(PktError),
    Malformed,
}

/// The characters of each of several texts.
pub open spec fn texts(lines: Seq<String>) -> Seq<Seq<char>> {
    lines.map_values(|l: String| l@)
}

fn walk_lines(data: &[u8]) -> (r: LineWalk)
    ensures
        match r {
            LineWalk::Done(lines) => pkt_lines(data@) == Walk::Done(texts(lines@)),
            LineWalk::Failed(e) => pkt_lines(data@) == Walk::<Seq<Seq<char>>>::Failed(e@),
            LineWalk::Malformed => pkt_lines(data@) is Malformed,
        },
{
    let mut lines: Vec<String> = Vec::new();
    let mut at: usize = 0;
    assert(data@.skip(0) =~= data@);
    assert(forall|rest: Seq<Seq<char>>| #[trigger] (texts(lines@) + rest) =~= rest);
    while data.len() - at >= 4
        invariant
            at <= data@.len(),
            pkt_lines(data@) == (match pkt_lines(data@.skip(at as int)) {
                Walk::Done(rest) => Walk::Done(texts(lines@) + rest),
                other => other,
            }),
        decreases data@.len() - at,
    {
        let n: u64 = match read_length(data, at) {
            Ok(n) => n,
            Err(e) => {
                return LineWalk::Failed(e);
            },
        };
        if n <= 1 {
            assert(data@.skip(at as int).skip(4) =~= data@.skip(at + 4));
            at += 4;
            continue;
        }
        if n > (data.len() - at) as u64 {
            assert(texts(lines@) + Seq::<Seq<char>>::empty() =~= texts(lines@));
            return LineWalk::Done(lines);
        }
        if n < 4 {
            return LineWalk::Malformed;
        }
        let end: usize = at + n as usize;
        let chunk = slice_subrange(data, at + 4, end);
        let chars = text::chars_of(text::from_utf8_lossy(chunk).as_str());
        let line = text::from_chars(text::trim_newlines(chars));
        proof {
            assert(data@.skip(at as int).skip(n as int) =~= data@.skip(end as int));
            assert(data@.skip(at as int).subrange(4, n as int) =~= chunk@);
            let had = texts(lines@);
            let more = texts(lines@.push(line));
            assert(more =~= had.push(line@));
            assert forall|rest: Seq<Seq<char>>| #[trigger] (more + rest) == had + (seq![line@]
                + rest) by {
                assert(more + rest =~= had + (seq![line@] + rest));
            }
        }
        lines.push(line);
        at = end;
    }
    assert(texts(lines@) + Seq::<Seq<char>>::empty() =~= texts(lines@));
    LineWalk::Done(lines)
}

/// What came of reading the packfile of a response.
enum PackWalk {
    Done(Vec<u8>),
    Failed(PktError),
    Malformed,
}

fn walk_sideband(data: &[u8]) -> (r: PackWalk)
    ensures
        match r {
            PackWalk::Done(pack) => sideband(data@) == Walk::Done(pack@),
            PackWalk::Failed(e) => sideband(data@) == Walk::<Seq<u8>>::Failed(e@),
            PackWalk::Malformed => sideband(data@) is Malformed,
        },
{
    let mut pack: Vec<u8> = Vec::new();
    let mut at: usize = 0;
    let magic: [u8; 4] = [80, 65, 67, 75];
    assert(magic@ =~= seq![80u8, 65, 67, 75]);
    assert(data@.skip(0) =~= data@);
    assert(forall|rest: Seq<u8>| #[trigger] (pack@ + rest) =~= rest);
    while data.len() - at >= 4
        invariant
            at <= data@.len(),
            magic@ == seq![80u8, 65, 67, 75],
            sideband(data@) == (match sideband(data@.skip(at as int)) {
                Walk::Done(rest) => Walk::Done(pack@ + rest),
                other => other,
            }),
        decreases data@.len() - at,
    {
        let n: u64 = match read_length(data, at) {
            Ok(n) => n,
            Err(e) => {
                return PackWalk::Failed(e);
            },
        };
        if n <= 1 {
            assert(data@.skip(at as int).skip(4) =~= data@.skip(at + 4));
            at += 4;
            continue;
        }
        if n > (data.len() - at) as u64 {
            return PackWalk::Failed(PktError::TooLong);
        }
        if n < 4 {
            return PackWalk::Malformed;
        }
        let end: usize = at + n as usize;
        let chunk = slice_subrange(data, at + 4, end);
        proof {
            assert(data@.skip(at as int).skip(n as int) =~= data@.skip(end as int));
            assert(data@.skip(at as int).subrange(4, n as int) =~= chunk@);
            let had = pack@;
            let part = pack_part(chunk@);
            assert forall|rest: Seq<u8>| #[trigger] (had + part + rest) == had + (part
                + rest) by {
                assert(had + part + rest =~= had + (part + rest));
            }
            assert(had + Seq::<u8>::empty() =~= had);
            assert(chunk@.len() >= 4 ==> chunk@.subrange(0, 4) =~= chunk@.take(4));
        }
        if chunk.len() > 0 {
            if chunk[0] == 1 {
                let payload = slice_subrange(chunk, 1, chunk.len());
                assert(payload@ =~= chunk@.skip(1));
                bytes::append(&mut pack, payload);
            } else if chunk[0] == 3 {
                let words = slice_subrange(chunk, 1, chunk.len());
                assert(words@ =~= chunk@.skip(1));
                return PackWalk::Failed(PktError::Remote(text::from_utf8_lossy(words)));
            } else if chunk[0] != 2 && bytes::matches_at(chunk, 0, &magic) {
                bytes::append(&mut pack, chunk);
            }
        }
        at = end;
    }
    assert(pack@ + Seq::<u8>::empty() =~= pack@);
    PackWalk::Done(pack)
}

fn search_magic(data: &[u8]) -> (r: Option<usize>)
    ensures
        match r {
            Some(at) => find_magic(data@, 0) == Some(at as int) && at <= data@.len(),
            None => find_magic(data@, 0) is None,
        },
{
    let magic: [u8; 4] = [80, 65, 67, 75];
    assert(magic@ =~= seq![80u8, 65, 67, 75]);
    let mut at: usize = 0;
    while data.len() - at >= 4
        invariant
            at <= data@.len(),
            magic@ == seq![80u8, 65, 67, 75],
            find_magic(data@, 0) == find_magic(data@, at as int),
        decreases data@.len() - at,
    {
        if bytes::matches_at(data, at, &magic) {
            return Some(at);
        }
        at += 1;
    }
    None
}

/// Whether the lines of a response can be read: no packet ends within its own length.
pub fn are_pkt_lines(data: &[u8]) -> (r: bool)
    ensures
        r == !(pkt_lines(data@) is Malformed),
{
    !matches!(walk_lines(data), LineWalk::Malformed)
}

/// Whether the channels of a response can be read: no packet ends within its own length.
pub fn is_sideband(data: &[u8]) -> (r: bool)
    ensures
        r == !(extracted(data@) is Malformed),
{
    !matches!(walk_sideband(data), PackWalk::Malformed)
}

/// Takes the packfile out of a response with several channels: the first holds the packfile,
/// the second progress messages, the third the server's error.
pub fn extract_pack_from_sideband(data: &[u8]) -> (r: Result<Vec<u8>, PktError>)
    requires
        !(extracted(data@) is Malformed),
    ensures
        match r {
            Ok(pack) => extracted(data@) == Walk::Done(pack@),
            Err(e) => extracted(data@) == Walk::<Seq<u8>>::Failed(e@),
        },
{
    match walk_sideband(data) {
        PackWalk::Done(pack) => {
            if pack.len() > 0 {
                return Ok(pack);
            }
            match search_magic(data) {
                Some(at) => {
                    let out = bytes::copy_range(data, at, data.len());
                    assert(out@ =~= data@.skip(at as int));
                    Ok(out)
                },
                None => Err(PktError::NoPack),
            }
        },
        PackWalk::Failed(e) => Err(e),
        PackWalk::Malformed => Err(PktError::BadLength),
    }
}

/// Parses the lines of a response.
pub fn parse_pkt_lines(data: &[u8]) -> (r: Result<Vec<String>, PktError>)
    requires
        !(pkt_lines(data@) is Malformed),
    ensures
        match r {
            Ok(lines) => pkt_lines(data@) == Walk::Done(texts(lines@)),
            Err(e) => pkt_lines(data@) == Walk::<Seq<Seq<char>>>::Failed(e@),
        },
{
    match walk_lines(data) {
        LineWalk::Done(lines) => Ok(lines),
        LineWalk::Failed(e) => Err(e),
        LineWalk::Malformed => Err(PktError::BadLength),
    }
}

// ---------------------------------------------------------------------------------------------
// Lines that were sent are received

/// A packet of text, or one of the two that hold none.
pub enum Packet {
    Line(Seq<char>),
    Flush,
    Delimiter,
}

/// Packets, one after the other.
pub open spec fn stream(items: Seq<Packet>) -> Seq<u8>
    decreases items.len(),
{
    if items.len() == 0 {
        Seq::empty()
    } else {
        (match items[0] {
            Packet::Line(line) => pkt_line(line),
            Packet::Flush => flush(),
            Packet::Delimiter => seq![48u8, 48, 48, 49],
        }) + stream(items.drop_first())
    }
}

/// The lines among packets.
pub open spec fn lines_of(items: Seq<Packet>) -> Seq<Seq<char>>
    decreases items.len(),
{
    if items.len() == 0 {
        Seq::empty()
    } else {
        (match items[0] {
            Packet::Line(line) => seq![line],
            _ => Seq::empty(),
        }) + lines_of(items.drop_first())
    }
}

/// Whether a line fits into a packet and does not end in a line end of its own.
pub open spec fn is_sendable(line: Seq<char>) -> bool {
    &&& vstd::utf8::encode_utf8(line).len() + 5 <= 0xffff
    &&& line.len() > 0 ==> line.last() != '\n'
}

proof fn lemma_zeros(k: nat, digits: Seq<char>)
    ensures
        text::digits_value(Seq::new(k, |i: int| '0') + digits, 16) == text::digits_value(
            digits,
            16,
        ),
    decreases digits.len(), k,
{
    let all = Seq::new(k, |i: int| '0') + digits;
    if digits.len() > 0 {
        assert(all.drop_last() =~= Seq::new(k, |i: int| '0') + digits.drop_last());
        assert(all.last() == digits.last());
        lemma_zeros(k, digits.drop_last());
    } else if k > 0 {
        assert(all.drop_last() =~= Seq::new((k - 1) as nat, |i: int| '0') + digits);
        lemma_zeros((k - 1) as nat, digits);
        assert(all.last() == '0');
    } else {
        assert(all =~= digits);
    }
}

proof fn lemma_numeral_hex(n: nat)
    ensures
        n < 0x1_0000 ==> 1 <= text::numeral(n, 16).len() <= 4,
        forall|i: int|
            0 <= i < text::numeral(n, 16).len() ==> {
                let c = #[trigger] text::numeral(n, 16)[i];
                '0' <= c <= '9' || 'a' <= c <= 'f'
            },
    decreases n,
{
    let all = text::numeral(n, 16);
    let low = text::digit((n % 16) as int);
    assert('0' <= low <= '9' || 'a' <= low <= 'f');
    if n >= 16 {
        lemma_numeral_hex(n / 16);
        let high = text::numeral(n / 16, 16);
        assert(all == high.push(low));
        assert forall|i: int| 0 <= i < all.len() implies {
            let c = #[trigger] all[i];
            '0' <= c <= '9' || 'a' <= c <= 'f'
        } by {
            if i < high.len() {
                assert(all[i] == high[i]);
            }
        }
    } else {
        assert(all == seq![low]);
    }
    if n < 0x1_0000 {
        reveal_with_fuel(text::numeral, 4);
    }
}

/// A length below 64 KiB is read back from its four digits.
proof fn lemma_length_read(n: nat)
    requires
        n <= 0xffff,
    ensures
        vstd::utf8::encode_utf8(padded(n)).len() == 4,
        pkt_length(vstd::utf8::encode_utf8(padded(n))) == Ok::<nat, PktFault>(n),
{
    let digits = text::numeral(n, 16);
    let all = padded(n);
    lemma_numeral_hex(n);
    text::lemma_numeral_parsed(n, 16, u64::MAX as nat);
    assert(digits[0] != '+');
    assert(text::digits_value(digits, 16) == Some(n));
    if digits.len() < 4 {
        lemma_zeros((4 - digits.len()) as nat, digits);
    }
    assert(all.len() == 4);
    assert forall|i: int| 0 <= i < all.len() implies '0' <= #[trigger] all[i] <= 'f' by {
        if digits.len() < 4 && i >= 4 - digits.len() {
            assert(all[i] == digits[i - (4 - digits.len())]);
        }
    }
    assert(vstd::utf8::is_ascii_chars(all)) by {
        assert forall|i: int| 0 <= i < all.len() implies '\0' <= #[trigger] all[i] <= '\x7f' by {
            assert('0' <= all[i] <= 'f');
        }
    }
    vstd::utf8::is_ascii_chars_encode_utf8(all);
    vstd::utf8::encode_utf8_decode_utf8(all);
    vstd::utf8::encode_utf8_valid_utf8(all);
    assert(all[0] != '+');
    assert(text::parsed(all, 16, u64::MAX as nat) == Some(n));
}

/// Lines that were sent are received as they were, with flush and delimiter packets among them;
/// one that was cut off at the end is left out, whatever it ends in.
pub proof fn lemma_lines_received(items: Seq<Packet>, line: Seq<char>, k: int)
    requires
        forall|i: int| 0 <= i < items.len() ==> (#[trigger] items[i] matches Packet::Line(l)
            ==> is_sendable(l)),
        vstd::utf8::encode_utf8(line).len() + 5 <= 0xffff,
        0 <= k < pkt_line(line).len(),
    ensures
        pkt_lines(stream(items) + pkt_line(line).take(k)) == Walk::Done(lines_of(items)),
        pkt_lines(stream(items)) == Walk::Done(lines_of(items)),
{
    let cut = pkt_line(line).take(k);
    assert(pkt_lines(cut) == Walk::Done(Seq::<Seq<char>>::empty())) by {
        if k >= 4 {
            let n = vstd::utf8::encode_utf8(line).len() + 5;
            lemma_length_read(n);
            assert(cut.take(4) =~= vstd::utf8::encode_utf8(padded(n)));
        }
    }
    lemma_lines_before(items, cut);
    let none = Seq::<u8>::empty();
    assert(pkt_lines(none) == Walk::Done(Seq::<Seq<char>>::empty()));
    lemma_lines_before(items, none);
    assert(stream(items) + none =~= stream(items));
}

proof fn lemma_lines_before(items: Seq<Packet>, cut: Seq<u8>)
    requires
        forall|i: int| 0 <= i < items.len() ==> (#[trigger] items[i] matches Packet::Line(l)
            ==> is_sendable(l)),
        pkt_lines(cut) == Walk::Done(Seq::<Seq<char>>::empty()),
    ensures
        pkt_lines(stream(items) + cut) == Walk::Done(lines_of(items)),
    decreases items.len(),
{
    if items.len() == 0 {
        assert(stream(items) + cut =~= cut);
    } else {
        let rest = items.drop_first();
        let data = stream(items) + cut;
        let tail = stream(rest) + cut;
        assert forall|i: int| 0 <= i < rest.len() implies (#[trigger] rest[i] matches Packet::Line(
            l,
        ) ==> is_sendable(l)) by {
            assert(rest[i] == items[i + 1]);
        }
        lemma_lines_before(rest, cut);
        match items[0] {
            Packet::Flush => {
                assert(data.take(4) =~= flush());
                assert(data.skip(4) =~= tail);
                lemma_length_read(0);
                lemma_flush();
                assert(lines_of(items) =~= lines_of(rest));
            },
            Packet::Delimiter => {
                assert(data.take(4) =~= seq![48u8, 48, 48, 49]);
                assert(data.skip(4) =~= tail);
                lemma_length_read(1);
                lemma_delimiter();
                assert(lines_of(items) =~= lines_of(rest));
            },
            Packet::Line(line) => {
                assert(is_sendable(line));
                let body = vstd::utf8::encode_utf8(line);
                let n = body.len() + 5;
                let head = vstd::utf8::encode_utf8(padded(n));
                lemma_length_read(n);
                assert(data.take(4) =~= head);
                assert(data.skip(n as int) =~= tail);
                let chunk = data.subrange(4, n as int);
                assert(chunk =~= body + seq![10u8]);
                let ended = line + seq!['\n'];
                text::lemma_encode_concat(line, seq!['\n']);
                assert(vstd::utf8::is_ascii_chars(seq!['\n']));
                vstd::utf8::is_ascii_chars_encode_utf8(seq!['\n']);
                assert(seq!['\n'][0] as u8 == 10u8);
                assert(vstd::utf8::encode_utf8(seq!['\n']) =~= seq![10u8]);
                assert(chunk == vstd::utf8::encode_utf8(ended));
                vstd::utf8::encode_utf8_decode_utf8(ended);
                vstd::utf8::encode_utf8_valid_utf8(ended);
                assert(ended.drop_last() =~= line);
                reveal_with_fuel(text::trimmed_end, 3);
                assert(line_text(chunk) == line);
            },
        }
    }
}

proof fn lemma_delimiter()
    ensures
        vstd::utf8::encode_utf8(padded(1)) == seq![48u8, 48, 48, 49],
{
    let all = padded(1);
    assert(text::numeral(1, 16) =~= seq!['1']);
    assert(all =~= seq!['0', '0', '0', '1']);
    assert(vstd::utf8::is_ascii_chars(all));
    vstd::utf8::is_ascii_chars_encode_utf8(all);
    assert(all[0] as u8 == 48u8);
    assert(all[1] as u8 == 48u8);
    assert(all[2] as u8 == 48u8);
    assert(all[3] as u8 == 49u8);
    assert(vstd::utf8::encode_utf8(all) =~= seq![48u8, 48, 48, 49]);
}

proof fn lemma_flush()
    ensures
        vstd::utf8::encode_utf8(padded(0)) == flush(),
{
    let all = padded(0);
    assert(text::numeral(0, 16) =~= seq!['0']);
    assert(all =~= seq!['0', '0', '0', '0']);
    assert(vstd::utf8::is_ascii_chars(all));
    vstd::utf8::is_ascii_chars_encode_utf8(all);
    assert(all[0] as u8 == 48u8);
    assert(all[1] as u8 == 48u8);
    assert(all[2] as u8 == 48u8);
    assert(all[3] as u8 == 48u8);
    assert(vstd::utf8::encode_utf8(all) =~= flush());
}

} // verus!
