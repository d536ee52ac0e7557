//! What a server's packets say, byte by byte.

use vstd::prelude::*;

use crate::git::protocol;
use crate::git::protocol::{PktFault, Walk};
use crate::git::smart_http;
use crate::text;
use crate::text_laws;

verus! {

/// The value of a digit in hexadecimal.
pub open spec fn hex_value(b: u8) -> Option<int> {
    if 0x30 <= b <= 0x39 {
        Some(b - 0x30)
    } else if 0x61 <= b <= 0x66 {
        Some(b - 0x61 + 10)
    } else if 0x41 <= b <= 0x46 {
        Some(b - 0x41 + 10)
    } else {
        None
    }
}

/// Whether four bytes are a length: four digits in hexadecimal, the highest first.
pub open spec fn is_head(head: Seq<u8>, n: int) -> bool {
    &&& head.len() == 4
    &&& hex_value(head[0]) is Some
    &&& hex_value(head[1]) is Some
    &&& hex_value(head[2]) is Some
    &&& hex_value(head[3]) is Some
    &&& n == hex_value(head[0])->0 * 0x1000 + hex_value(head[1])->0 * 0x100 + hex_value(
        head[2],
    )->0 * 0x10 + hex_value(head[3])->0
}

proof fn lemma_head(head: Seq<u8>, n: int)
    requires
        is_head(head, n),
    ensures
        protocol::pkt_length(head) == Ok::<nat, PktFault>(n as nat),
{
    let chars = Seq::new(4, |i: int| head[i] as char);
    assert(vstd::utf8::is_ascii_chars(chars)) by {
        assert forall|i: int| 0 <= i < chars.len() implies '\0' <= #[trigger] chars[i]
            <= '\x7f' by {
            assert(i == 0 || i == 1 || i == 2 || i == 3);
        }
    }
    vstd::utf8::is_ascii_chars_encode_utf8(chars);
    let raw = vstd::utf8::encode_utf8(chars);
    assert(raw =~= head) by {
        assert forall|i: int| 0 <= i < 4 implies raw[i] == head[i] by {
            assert(chars[i] as u8 == head[i]);
        }
    }
    vstd::utf8::encode_utf8_decode_utf8(chars);
    vstd::utf8::encode_utf8_valid_utf8(chars);
    let a = hex_value(head[0])->0;
    let b = hex_value(head[1])->0;
    let c = hex_value(head[2])->0;
    let d = hex_value(head[3])->0;
    assert(n % 16 == d && n / 16 == a * 0x100 + b * 0x10 + c);
    assert((n / 16) % 16 == c && (n / 16) / 16 == a * 0x10 + b);
    assert(((n / 16) / 16) % 16 == b && ((n / 16) / 16) / 16 == a);
    assert(a % 16 == a && a / 16 == 0);
    let one = chars.drop_last().drop_last().drop_last();
    assert(one.drop_last() =~= Seq::<char>::empty());
    assert(text_laws::are_digits_of(one.drop_last(), 16, 0));
    assert(one.last() == head[0] as char);
    assert(text_laws::are_digits_of(one, 16, a as nat));
    let two = chars.drop_last().drop_last();
    assert(two.last() == head[1] as char);
    assert(text_laws::are_digits_of(two, 16, (a * 0x10 + b) as nat));
    let three = chars.drop_last();
    assert(three.last() == head[2] as char);
    assert(text_laws::are_digits_of(three, 16, (a * 0x100 + b * 0x10 + c) as nat));
    assert(chars.last() == head[3] as char);
    assert(text_laws::are_digits_of(chars, 16, n as nat));
    assert(chars[0] != '+');
    text_laws::lemma_parsed(chars, 16, u64::MAX as nat, n as nat);
}

/// A packet with its length before it; one that holds nothing has a length of zero or one.
pub struct Frame {
    pub head: Seq<u8>,
    pub chunk: Option<Seq<u8>>,
}

/// Whether the length of a packet is what it says: that of the whole packet.
pub open spec fn is_whole(f: Frame) -> bool {
    match f.chunk {
        Some(chunk) => is_head(f.head, 4 + chunk.len() as int),
        None => is_head(f.head, 0) || is_head(f.head, 1),
    }
}

/// The bytes of packets, one behind the other.
pub open spec fn frames_bytes(frames: Seq<Frame>) -> Seq<u8>
    decreases frames.len(),
{
    if frames.len() == 0 {
        Seq::empty()
    } else {
        frames[0].head + (match frames[0].chunk {
            Some(chunk) => chunk,
            None => Seq::empty(),
        }) + frames_bytes(frames.drop_first())
    }
}

/// What a packet holds of a packfile: what is behind the number of the first channel, or all of it
/// where the packfile starts there without a channel.
pub open spec fn pack_share(f: Frame) -> Seq<u8> {
    match f.chunk {
        Some(chunk) => if chunk.len() > 0 && chunk[0] == 1 {
            chunk.drop_first()
        } else if chunk.len() >= 4 && chunk[0] == 0x50 && chunk[1] == 0x41 && chunk[2] == 0x43
            && chunk[3] == 0x4b {
            chunk
        } else {
            Seq::empty()
        },
        None => Seq::empty(),
    }
}

/// What packets hold of a packfile, one behind the other.
pub open spec fn pack_shares(frames: Seq<Frame>) -> Seq<u8>
    decreases frames.len(),
{
    if frames.len() == 0 {
        Seq::empty()
    } else {
        pack_share(frames[0]) + pack_shares(frames.drop_first())
    }
}

/// Whether a packet says that the server failed: it is on the third channel.
pub open spec fn is_failure(f: Frame) -> bool {
    f.chunk matches Some(chunk) && chunk.len() > 0 && chunk[0] == 3
}

/// The lines that packets hold: their texts, without line ends behind them.
pub open spec fn frame_lines(frames: Seq<Frame>) -> Seq<Seq<char>>
    decreases frames.len(),
{
    if frames.len() == 0 {
        Seq::empty()
    } else {
        (match frames[0].chunk {
            Some(chunk) => seq![text::trimmed_end(text::lossy(chunk), |c: char| c == '\n')],
            None => Seq::empty(),
        }) + frame_lines(frames.drop_first())
    }
}

proof fn lemma_first(frames: Seq<Frame>, tail: Seq<u8>)
    requires
        frames.len() > 0,
        is_whole(frames[0]),
    ensures
        ({
            let data = frames_bytes(frames) + tail;
            let rest = frames_bytes(frames.drop_first()) + tail;
            let n: int = match frames[0].chunk {
                Some(chunk) => 4 + chunk.len() as int,
                None => 4,
            };
            &&& data.len() >= 4
            &&& data.take(4) == frames[0].head
            &&& n <= data.len()
            &&& data.skip(n) == rest
            &&& frames[0].chunk matches Some(chunk) ==> data.subrange(4, n) == chunk
        }),
{
    let data = frames_bytes(frames) + tail;
    let rest = frames_bytes(frames.drop_first()) + tail;
    assert(data.take(4) =~= frames[0].head);
    match frames[0].chunk {
        Some(chunk) => {
            assert(data.skip(4 + chunk.len() as int) =~= rest);
            assert(data.subrange(4, 4 + chunk.len() as int) =~= chunk);
        },
        None => {
            assert(data.skip(4) =~= rest);
        },
    }
}

proof fn lemma_head_only(head: Seq<u8>)
    ensures
        is_head(head, 0) ==> protocol::pkt_length(head) == Ok::<nat, PktFault>(0),
        is_head(head, 1) ==> protocol::pkt_length(head) == Ok::<nat, PktFault>(1),
{
    if is_head(head, 0) {
        lemma_head(head, 0);
    }
    if is_head(head, 1) {
        lemma_head(head, 1);
    }
}

proof fn lemma_sideband(frames: Seq<Frame>, tail: Seq<u8>)
    requires
        forall|i: int|
            0 <= i < frames.len() ==> is_whole(#[trigger] frames[i]) && !is_failure(frames[i]),
    ensures
        protocol::sideband(frames_bytes(frames) + tail) == (match protocol::sideband(tail) {
            Walk::Done(rest) => Walk::Done(pack_shares(frames) + rest),
            other => other,
        }),
    decreases frames.len(),
{
    if frames.len() == 0 {
        assert(frames_bytes(frames) + tail =~= tail);
        match protocol::sideband(tail) {
            Walk::Done(rest) => {
                assert(pack_shares(frames) + rest =~= rest);
            },
            _ => {},
        }
    } else {
        let rest = frames.drop_first();
        assert forall|i: int| 0 <= i < rest.len() implies is_whole(#[trigger] rest[i])
            && !is_failure(rest[i]) by {
            assert(rest[i] == frames[i + 1]);
        }
        lemma_sideband(rest, tail);
        assert(is_whole(frames[0]) && !is_failure(frames[0]));
        lemma_first(frames, tail);
        lemma_head_only(frames[0].head);
        match frames[0].chunk {
            Some(chunk) => {
                lemma_head(frames[0].head, 4 + chunk.len() as int);
                assert(protocol::pack_part(chunk) == pack_share(frames[0])) by {
                    if chunk.len() >= 4 {
                        let magic = seq![80u8, 65, 67, 75];
                        if chunk[0] == 0x50 && chunk[1] == 0x41 && chunk[2] == 0x43 && chunk[3]
                            == 0x4b {
                            assert(chunk.take(4) =~= magic);
                        } else if chunk.take(4) == magic {
                            assert(chunk.take(4)[0] == magic[0] && chunk.take(4)[1] == magic[1]);
                            assert(chunk.take(4)[2] == magic[2] && chunk.take(4)[3] == magic[3]);
                        }
                    }
                    if chunk.len() > 0 {
                        assert(chunk.skip(1) =~= chunk.drop_first());
                    }
                }
            },
            None => {},
        }
        match protocol::sideband(tail) {
            Walk::Done(last) => {
                assert(pack_share(frames[0]) + (pack_shares(rest) + last) =~= pack_shares(frames)
                    + last);
            },
            _ => {},
        }
    }
}

/// The packfile of an answer is what its packets hold of it, in their order, and nothing of what
/// the server says beside it.
pub proof fn lemma_pack_received(frames: Seq<Frame>)
    requires
        forall|i: int|
            0 <= i < frames.len() ==> is_whole(#[trigger] frames[i]) && !is_failure(frames[i]),
        pack_shares(frames).len() > 0,
    ensures
        protocol::extracted(frames_bytes(frames)) == Walk::Done(pack_shares(frames)),
{
    let none = Seq::<u8>::empty();
    lemma_sideband(frames, none);
    assert(frames_bytes(frames) + none =~= frames_bytes(frames));
    assert(protocol::sideband(none) == Walk::Done(none));
    assert(pack_shares(frames) + none =~= pack_shares(frames));
}

/// Where the server says that it failed, its words are the reason, whatever it sent before and
/// behind.
pub proof fn lemma_failure_received(frames: Seq<Frame>, failure: Frame, tail: Seq<u8>)
    requires
        forall|i: int|
            0 <= i < frames.len() ==> is_whole(#[trigger] frames[i]) && !is_failure(frames[i]),
        is_whole(failure),
        is_failure(failure),
    ensures
        protocol::extracted(frames_bytes(frames) + (failure.head + failure.chunk->0 + tail))
            == Walk::<Seq<u8>>::Failed(
            PktFault::Remote(text::lossy(failure.chunk->0.drop_first())),
        ),
{
    let last = failure.head + failure.chunk->0 + tail;
    let one = seq![failure];
    assert(one.drop_first() =~= Seq::<Frame>::empty());
    reveal_with_fuel(frames_bytes, 2);
    assert(frames_bytes(one) =~= failure.head + failure.chunk->0);
    assert(frames_bytes(one) + tail =~= last);
    assert(frames_bytes(one.drop_first()) + tail =~= tail);
    lemma_first(one, tail);
    lemma_head(failure.head, 4 + failure.chunk->0.len() as int);
    assert(failure.chunk->0.skip(1) =~= failure.chunk->0.drop_first());
    lemma_sideband(frames, last);
}

/// A packet that is cut off makes the answer one that cannot be used.
pub proof fn lemma_cut_refused(frames: Seq<Frame>, head: Seq<u8>, n: int, part: Seq<u8>)
    requires
        forall|i: int|
            0 <= i < frames.len() ==> is_whole(#[trigger] frames[i]) && !is_failure(frames[i]),
        is_head(head, n),
        n > 1,
        4 + part.len() < n,
    ensures
        protocol::extracted(frames_bytes(frames) + (head + part)) == Walk::<Seq<u8>>::Failed(
            PktFault::TooLong,
        ),
{
    let last = head + part;
    assert(last.take(4) =~= head);
    lemma_head(head, n);
    lemma_sideband(frames, last);
}

/// Where no packet holds any of a packfile, it is what stands from the first magic of one on.
pub proof fn lemma_pack_found(frames: Seq<Frame>, k: int)
    requires
        forall|i: int|
            0 <= i < frames.len() ==> is_whole(#[trigger] frames[i]) && !is_failure(frames[i]),
        pack_shares(frames).len() == 0,
    ensures
        is_first_magic(frames_bytes(frames), k) ==> protocol::extracted(frames_bytes(frames))
            == Walk::Done(frames_bytes(frames).skip(k)),
        (forall|i: int| !(#[trigger] is_magic(frames_bytes(frames), i))) ==> protocol::extracted(
            frames_bytes(frames),
        ) == Walk::<Seq<u8>>::Failed(PktFault::NoPack),
{
    let data = frames_bytes(frames);
    let none = Seq::<u8>::empty();
    lemma_sideband(frames, none);
    assert(data + none =~= data);
    assert(protocol::sideband(none) == Walk::Done(none));
    assert((pack_shares(frames) + none).len() == 0);
    lemma_magic(data, 0, k);
}

/// Whether the magic of a packfile stands at a place.
pub open spec fn is_magic(data: Seq<u8>, k: int) -> bool {
    &&& 0 <= k
    &&& k + 4 <= data.len()
    &&& data[k] == 0x50 && data[k + 1] == 0x41 && data[k + 2] == 0x43 && data[k + 3] == 0x4b
}

/// Whether it stands there and nowhere before.
pub open spec fn is_first_magic(data: Seq<u8>, k: int) -> bool {
    is_magic(data, k) && forall|i: int| i < k ==> !(#[trigger] is_magic(data, i))
}

proof fn lemma_magic(data: Seq<u8>, from: int, k: int)
    requires
        0 <= from,
    ensures
        is_first_magic(data, k) && from <= k ==> protocol::find_magic(data, from) == Some(k),
        (forall|i: int| !(#[trigger] is_magic(data, i))) ==> protocol::find_magic(
            data,
            from,
        ) is None,
    decreases data.len() - from,
{
    if from + 4 <= data.len() {
        let magic = seq![80u8, 65, 67, 75];
        let here = data.subrange(from, from + 4);
        if is_magic(data, from) {
            assert(here =~= magic);
        } else if here == magic {
            assert(here[0] == magic[0] && here[1] == magic[1]);
            assert(here[2] == magic[2] && here[3] == magic[3]);
        }
        lemma_magic(data, from + 1, k);
    }
}

/// The lines of an answer are the texts of its packets, without line ends behind them; packets
/// that hold nothing give none.
pub proof fn lemma_lines(frames: Seq<Frame>)
    requires
        forall|i: int| 0 <= i < frames.len() ==> is_whole(#[trigger] frames[i]),
    ensures
        protocol::pkt_lines(frames_bytes(frames)) == Walk::Done(frame_lines(frames)),
    decreases frames.len(),
{
    if frames.len() > 0 {
        let rest = frames.drop_first();
        assert forall|i: int| 0 <= i < rest.len() implies is_whole(#[trigger] rest[i]) by {
            assert(rest[i] == frames[i + 1]);
        }
        lemma_lines(rest);
        let none = Seq::<u8>::empty();
        assert(is_whole(frames[0]));
        lemma_first(frames, none);
        assert(frames_bytes(frames) + none =~= frames_bytes(frames));
        assert(frames_bytes(rest) + none =~= frames_bytes(rest));
        lemma_head_only(frames[0].head);
        match frames[0].chunk {
            Some(chunk) => {
                lemma_head(frames[0].head, 4 + chunk.len() as int);
            },
            None => {
                assert(frame_lines(frames) =~= frame_lines(rest));
            },
        }
    }
}

// ---------------------------------------------------------------------------------------------
// What is sent

/// The packet of a line has the line, a line end behind it, and the length of all of it before it,
/// in four lower-case digits.
pub proof fn lemma_packet_sent(line: Seq<char>)
    requires
        vstd::utf8::encode_utf8(line).len() + 5 <= 0xffff,
    ensures
        ({
            let raw = vstd::utf8::encode_utf8(line);
            let packet = protocol::pkt_line(line);
            &&& packet.len() == raw.len() + 5
            &&& is_head(packet.take(4), raw.len() as int + 5)
            &&& packet.skip(4) == raw.push(0x0a)
            &&& forall|i: int| 0 <= i < 4 ==> !(0x41 <= #[trigger] packet[i] <= 0x46)
        }),
{
    let raw = vstd::utf8::encode_utf8(line);
    let n = raw.len() + 5;
    let digits = text::numeral(n, 16);
    let all = protocol::padded(n);
    text_laws::lemma_numeral(n, 16);
    lemma_digit_count(digits, n, 4);
    lemma_padded_digits(digits, n, (4 - digits.len()) as nat);
    assert(all =~= Seq::new((4 - digits.len()) as nat, |i: int| '0') + digits);
    assert(text_laws::are_digits_of(all, 16, n));
    lemma_four_digits(all, n);
    assert(vstd::utf8::is_ascii_chars(all)) by {
        assert forall|i: int| 0 <= i < all.len() implies '\0' <= #[trigger] all[i] <= '\x7f' by {
            assert(i == 0 || i == 1 || i == 2 || i == 3);
        }
    }
    vstd::utf8::is_ascii_chars_encode_utf8(all);
    let head = vstd::utf8::encode_utf8(all);
    let packet = protocol::pkt_line(line);
    assert(packet.take(4) =~= head);
    assert(packet.skip(4) =~= raw.push(0x0a));
    assert(head[0] == all[0] as u8 && head[1] == all[1] as u8);
    assert(head[2] == all[2] as u8 && head[3] == all[3] as u8);
    assert forall|i: int| 0 <= i < 4 implies !(0x41 <= #[trigger] packet[i] <= 0x46) by {
        assert(packet[i] == all[i] as u8);
        let zeros = 4 - digits.len();
        if i >= zeros {
            assert(all[i] == digits[i - zeros]);
        }
    }
}

proof fn lemma_digit_count(s: Seq<char>, n: nat, k: nat)
    requires
        text_laws::are_digits_of(s, 16, n),
        s.len() > 0,
        s[0] != '0' || s.len() == 1,
        k == 4 ==> n < 0x1_0000,
        k == 3 ==> n < 0x1000,
        k == 2 ==> n < 0x100,
        k == 1 ==> n < 0x10,
        1 <= k <= 4,
    ensures
        s.len() <= k,
    decreases k,
{
    if s.len() > 1 {
        let front = s.drop_last();
        if k == 1 {
            assert(n / 16 == 0);
            lemma_zero_digits(front);
        } else {
            lemma_digit_count(front, n / 16, (k - 1) as nat);
        }
    }
}

proof fn lemma_zero_digits(s: Seq<char>)
    requires
        s.len() > 0,
        text_laws::are_digits_of(s, 16, 0),
    ensures
        s[0] == '0',
    decreases s.len(),
{
    if s.len() > 1 {
        lemma_zero_digits(s.drop_last());
    }
}

proof fn lemma_padded_digits(s: Seq<char>, n: nat, k: nat)
    requires
        text_laws::are_digits_of(s, 16, n),
    ensures
        text_laws::are_digits_of(Seq::new(k, |i: int| '0') + s, 16, n),
    decreases s.len(), k,
{
    let zeros = Seq::new(k, |i: int| '0');
    let all = zeros + s;
    if s.len() > 0 {
        lemma_padded_digits(s.drop_last(), n / 16, k);
        assert(all.drop_last() =~= zeros + s.drop_last());
    } else if k > 0 {
        let fewer = Seq::new((k - 1) as nat, |i: int| '0');
        lemma_padded_digits(s, n, (k - 1) as nat);
        assert(all.drop_last() =~= fewer + s);
        assert(all.last() == '0');
        assert(n == 0);
        assert(0nat % 16 == 0 && 0nat / 16 == 0);
    } else {
        assert(all =~= s);
    }
}

proof fn lemma_four_digits(s: Seq<char>, n: nat)
    requires
        s.len() == 4,
        text_laws::are_digits_of(s, 16, n),
    ensures
        ({
            let head = Seq::new(4, |i: int| s[i] as u8);
            &&& is_head(head, n as int)
            &&& forall|i: int| 0 <= i < 4 ==> '0' <= #[trigger] s[i] <= 'f'
        }),
{
    let three = s.drop_last();
    let two = three.drop_last();
    let one = two.drop_last();
    assert(text_laws::is_digit(s[3], 16, (n % 16) as int));
    assert(text_laws::are_digits_of(three, 16, n / 16));
    assert(text_laws::is_digit(s[2], 16, (n / 16 % 16) as int));
    assert(text_laws::are_digits_of(two, 16, n / 16 / 16));
    assert(text_laws::is_digit(s[1], 16, (n / 16 / 16 % 16) as int));
    assert(text_laws::are_digits_of(one, 16, n / 16 / 16 / 16));
    assert(text_laws::is_digit(s[0], 16, (n / 16 / 16 / 16 % 16) as int));
    assert(text_laws::are_digits_of(one.drop_last(), 16, n / 16 / 16 / 16 / 16));
    assert(n / 16 / 16 / 16 / 16 == 0);
}

/// A request holds the packets of its lines, in their order: those of the command, a delimiter,
/// those of the arguments, and a flush packet.
pub proof fn lemma_request(command: Seq<Seq<char>>, arguments: Seq<Seq<char>>, last: Seq<char>)
    ensures
        smart_http::packets(Seq::empty()) == Seq::<u8>::empty(),
        smart_http::packets(arguments.push(last)) == smart_http::packets(arguments)
            + protocol::pkt_line(last),
        smart_http::request(command, arguments) == smart_http::packets(command)
            + seq![0x30u8, 0x30, 0x30, 0x31] + smart_http::packets(arguments)
            + seq![0x30u8, 0x30, 0x30, 0x30],
{
    assert(arguments.push(last).drop_last() =~= arguments);
}

/// Each object that is wanted is asked for in a line of its own, and no other.
pub proof fn lemma_wants(oids: Seq<Seq<char>>, i: int)
    ensures
        smart_http::wants(oids).len() == oids.len(),
        0 <= i < oids.len() ==> smart_http::wants(oids)[i] == "want "@ + oids[i],
{
}

/// The address of a repository ends in `.git`, has no slash behind it, and otherwise is what was
/// given.
pub proof fn lemma_repository_url(url: Seq<char>)
    ensures
        text::ends_with(smart_http::repository_url(url), ".git"@),
        ({
            let base = text::trimmed_end(url, |c: char| c == '/');
            smart_http::repository_url(url) == base || smart_http::repository_url(url) == base
                + ".git"@ && !text::ends_with(base, ".git"@)
        }),
{
    let base = text::trimmed_end(url, |c: char| c == '/');
    let longer = base + ".git"@;
    assert(longer.skip(longer.len() - ".git"@.len()) =~= ".git"@);
}

} // verus!
