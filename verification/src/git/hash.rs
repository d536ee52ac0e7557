//! Digests, checksums, hexadecimal text and zlib streams: what comes from outside crates.

use flate2::read::ZlibDecoder;
use flate2::write::ZlibEncoder;
use flate2::{Compression, Crc};
use sha1::{Digest, Sha1};
use std::io::{Read, Write};
use vstd::prelude::*;

use crate::text;

verus! {

/// The SHA-1 digest of bytes, as the crate `sha1` computes it.
pub uninterp spec fn sha1(data: Seq<u8>) -> Seq<u8>;

/// Trusted: `Sha1::new`, `update` and `finalize` compute the digest of the bytes, which is
/// twenty bytes long and depends on nothing else.
#[verifier::external_body]
pub(crate) fn sha1_of(data: &[u8]) -> (digest: [u8; 20])
    ensures
        digest@ == sha1(data@),
{
    let mut hasher = Sha1::new();
    hasher.update(data);
    hasher.finalize().into()
}

/// The CRC-32 checksum of bytes, as the crate `flate2` computes it.
pub uninterp spec fn crc32(data: Seq<u8>) -> u32;

/// Trusted: `Crc::new`, `update` and `sum` compute the checksum of the bytes, which depends on
/// nothing else.
#[verifier::external_body]
pub(crate) fn crc32_of(data: &[u8]) -> (sum: u32)
    ensures
        sum == crc32(data@),
{
    let mut crc = Crc::new();
    crc.update(data);
    crc.sum()
}

/// Two lower-case hexadecimal digits for each byte.
pub open spec fn hex_encoded(data: Seq<u8>) -> Seq<char> {
    Seq::new(
        2 * data.len(),
        |i: int|
            text::digit(
                if i % 2 == 0 {
                    data[i / 2] as int / 16
                } else {
                    data[i / 2] as int % 16
                },
            ),
    )
}

/// Whether a character is a hexadecimal digit, in either case.
pub open spec fn is_hex(c: char) -> bool {
    text::digit_value(c) is Some && text::digit_value(c)->0 < 16
}

/// The bytes that pairs of hexadecimal digits stand for, where the text is made of such pairs.
pub open spec fn hex_decoded(s: Seq<char>) -> Option<Seq<u8>> {
    if s.len() % 2 == 0 && forall|i: int| 0 <= i < s.len() ==> is_hex(#[trigger] s[i]) {
        Some(
            Seq::new(
                s.len() / 2,
                |i: int|
                    (text::digit_value(s[2 * i])->0 * 16 + text::digit_value(
                        s[2 * i + 1],
                    )->0) as u8,
            ),
        )
    } else {
        None
    }
}

/// Trusted: `hex::encode` writes two lower-case digits for each byte, the higher half first.
#[verifier::external_body]
pub(crate) fn hex_encode(data: &[u8]) -> (s: String)
    ensures
        s@ == hex_encoded(data@),
{
    hex::encode(data)
}

/// Trusted: `hex::decode` accepts exactly the texts made of pairs of hexadecimal digits of
/// either case, and gives one byte for each pair, the higher half first.
#[verifier::external_body]
pub(crate) fn hex_decode(s: &str) -> (data: Option<Vec<u8>>)
    ensures
        data is Some <==> hex_decoded(s@) is Some,
        data is Some ==> data->0@ == hex_decoded(s@)->0,
{
    hex::decode(s).ok()
}

/// What `flate2` reads out of the zlib stream at the start of `data`, with the length of that
/// stream; nothing where there is no whole and valid one.
pub uninterp spec fn zlib_inflated(data: Seq<u8>) -> Option<(Seq<u8>, nat)>;

/// Whether what is read out of a zlib stream at the start of `data` rests on the bytes of that
/// stream alone, whatever follows them.
pub open spec fn stands_alone(data: Seq<u8>) -> bool {
    match zlib_inflated(data) {
        Some((out, used)) => used <= data.len() && forall|rest: Seq<u8>| #[trigger]
            zlib_inflated(data.take(used as int) + rest) == Some((out, used)),
        None => true,
    }
}

/// Trusted: `ZlibDecoder::new` and `read_to_end` on bytes in memory give the contents of the
/// zlib stream at their start, or fail where it is cut off or broken, by the bytes alone;
/// `total_in` is then the length of the stream, which lies within the bytes. The decoder stops
/// at the end of the stream, so that whatever follows it changes neither.
#[verifier::external_body]
pub(crate) fn inflate(data: &[u8]) -> (r: Option<(Vec<u8>, usize)>)
    ensures
        match r {
            Some((out, used)) => zlib_inflated(data@) == Some((out@, used as nat)) && used
                <= data@.len() && forall|rest: Seq<u8>| #[trigger]
                zlib_inflated(data@.take(used as int) + rest) == Some((out@, used as nat)),
            None => zlib_inflated(data@) is None,
        },
{
    let mut decoder = ZlibDecoder::new(data);
    let mut out = Vec::new();
    match decoder.read_to_end(&mut out) {
        Ok(_) => Some((out, decoder.total_in() as usize)),
        Err(_) => None,
    }
}

/// The zlib stream that `flate2` writes for `data` at its default level.
pub uninterp spec fn zlib_deflated(data: Seq<u8>) -> Option<Seq<u8>>;

/// Trusted: `ZlibEncoder::new`, `write_all` and `finish` into memory give a zlib stream, by the
/// bytes alone; a `ZlibDecoder` reads from it, whatever follows, the bytes that were written,
/// and no more than the stream. That the encoder cannot fail is left unsaid.
#[verifier::external_body]
pub(crate) fn deflate(data: &[u8]) -> (r: Option<Vec<u8>>)
    ensures
        match r {
            Some(out) => zlib_deflated(data@) == Some(out@) && forall|rest: Seq<u8>| #[trigger]
                zlib_inflated(out@ + rest) == Some((data@, out@.len())),
            None => zlib_deflated(data@) is None,
        },
{
    let mut encoder = ZlibEncoder::new(Vec::new(), Compression::default());
    encoder.write_all(data).ok()?;
    encoder.finish().ok()
}

/// What was written in hexadecimal is read back.
pub proof fn lemma_hex(data: Seq<u8>)
    ensures
        hex_decoded(hex_encoded(data)) == Some(data),
{
    let s = hex_encoded(data);
    assert forall|i: int| 0 <= i < s.len() implies is_hex(#[trigger] s[i]) by {
        let d = if i % 2 == 0 {
            data[i / 2] as int / 16
        } else {
            data[i / 2] as int % 16
        };
        assert(s[i] == text::digit(d));
        assert(0 <= d < 16);
    }
    assert forall|i: int| 0 <= i < data.len() implies #[trigger] hex_decoded(s)->0[i] == data[i] by {
        assert(s[2 * i] == text::digit(data[i] as int / 16)) by {
            assert((2 * i) % 2 == 0 && (2 * i) / 2 == i);
        }
        assert(s[2 * i + 1] == text::digit(data[i] as int % 16)) by {
            assert((2 * i + 1) % 2 == 1 && (2 * i + 1) / 2 == i);
        }
    }
    assert(hex_decoded(s)->0 =~= data);
}

/// Whether a text is made of hexadecimal digits, the letters in lower case.
pub open spec fn is_lower_hex(s: Seq<char>) -> bool {
    forall|i: int| 0 <= i < s.len() ==> is_hex(#[trigger] s[i]) && !('A' <= s[i] <= 'F')
}

/// Lower-case hexadecimal text of whole bytes is what those bytes are written as.
pub proof fn lemma_hex_text(s: Seq<char>)
    requires
        is_lower_hex(s),
        s.len() % 2 == 0,
    ensures
        hex_decoded(s) matches Some(data) && hex_encoded(data) == s && data.len() == s.len() / 2,
{
    let data = hex_decoded(s)->0;
    assert forall|i: int| 0 <= i < s.len() implies hex_encoded(data)[i] == s[i] by {
        let k = i / 2;
        assert(is_hex(s[2 * k]) && is_hex(s[2 * k + 1]));
        assert(data[k] == text::digit_value(s[2 * k])->0 * 16 + text::digit_value(
            s[2 * k + 1],
        )->0);
        if i % 2 == 0 {
            assert(i == 2 * k);
        } else {
            assert(i == 2 * k + 1);
        }
    }
    assert(hex_encoded(data) =~= s);
}

} // verus!
