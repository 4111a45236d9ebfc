//! The byte codec and the message codec.
//!
//! A byte is spelled as eight markers, least significant bit first.  A
//! message is the canonical UTF-8 byte encoding of its text, each byte
//! spelled in turn.  Decoding reads the marker string back byte-group by
//! byte-group; a three-byte group that is not exactly the one marker counts
//! as a 0 bit, deliberately, so that foreign marker-like input is read
//! leniently rather than rejected.
use vstd::prelude::*;

verus! {

use vstd::arithmetic::div_mod::lemma_fundamental_div_mod;
use vstd::arithmetic::div_mod::lemma_mod_multiples_basic;
use vstd::slice::slice_subrange;
use vstd::string::StrSliceExecFns;
use vstd::string::StringExecFns;
use vstd::string::StringSliceAdditionalSpecFns;
use vstd::utf8::decode_utf8;
use vstd::utf8::encode_utf8;
use vstd::utf8::encode_utf8_valid_utf8;
use vstd::utf8::encode_utf8_decode_utf8;
use vstd::utf8::valid_utf8;
use crate::markers::all_markers;
use crate::markers::is_marker;
use crate::markers::lemma_encode_utf8_add;
use crate::markers::lemma_marker_scalar_encodings;
use crate::markers::lemma_marker_seq_at;
use crate::markers::lemma_marker_seq_len;
use crate::markers::marker_bytes;
use crate::markers::one_bytes;
use crate::markers::one_char;
use crate::markers::zero_char;

/// Whether bit `i` of the byte is set, counting from the least significant
/// bit.
pub open spec fn bit_of(b: u8, i: u8) -> bool
    recommends
        i < 8,
{
    (b >> i) & 1 == 1
}

/// The marker character that spells one bit.
pub open spec fn bit_char(bit: bool) -> char {
    if bit {
        one_char()
    } else {
        zero_char()
    }
}

/// The eight marker characters that spell a byte, least significant bit
/// first.
pub open spec fn encode_byte_chars(b: u8) -> Seq<char> {
    Seq::new(8, |i: int| bit_char(bit_of(b, i as u8)))
}

/// The marker characters that spell a whole byte sequence, byte by byte.
pub open spec fn encode_chars(data: Seq<u8>) -> Seq<char>
    decreases data.len(),
{
    if data.len() == 0 {
        Seq::empty()
    } else {
        encode_byte_chars(data[0]) + encode_chars(data.drop_first())
    }
}

/// True when the three bytes starting at offset `3 * i` are exactly the
/// encoding of the one marker.
pub open spec fn chunk_is_one(s: Seq<u8>, i: int) -> bool {
    s.subrange(3 * i, 3 * i + 3) == one_bytes()
}

/// The byte assembled from the first `n` three-byte groups of a chunk: group
/// `i` sets bit `i` exactly when it is the one marker.
pub open spec fn decode_bits(s: Seq<u8>, n: u8) -> u8
    decreases n,
{
    if n == 0 {
        0u8
    } else if chunk_is_one(s, n - 1) {
        decode_bits(s, (n - 1) as u8) | (1u8 << ((n - 1) as u8))
    } else {
        decode_bits(s, (n - 1) as u8)
    }
}

/// The byte encoded by one 24-byte chunk.
pub open spec fn decode_byte_spec(s: Seq<u8>) -> u8
    recommends
        s.len() == 24,
{
    decode_bits(s, 8)
}

/// The payload bytes read off a marker byte run, one payload byte per 24
/// marker bytes.
pub open spec fn decode_marker_bytes(m: Seq<u8>) -> Seq<u8>
    recommends
        m.len() % 24 == 0,
    decreases m.len(),
{
    if m.len() < 24 {
        Seq::empty()
    } else {
        seq![decode_byte_spec(m.subrange(0, 24))] + decode_marker_bytes(m.skip(24))
    }
}

/// True when every aligned 24-byte chunk is on its own a valid UTF-8 byte
/// sequence.
pub open spec fn chunks_utf8_valid(m: Seq<u8>) -> bool {
    forall|k: int|
        0 <= k && 24 * k + 24 <= m.len() ==> valid_utf8(#[trigger] m.subrange(24 * k, 24 * k + 24))
}

/// What decoding yields on the byte form of a candidate marker string: the
/// byte count must be a whole number of 24-byte chunks, each chunk must be
/// readable as text on its own, and the bytes read off the chunks must be a
/// valid text encoding; any shortfall is a failed decode.
pub open spec fn decode_spec(m: Seq<u8>) -> Option<Seq<char>> {
    if m.len() % 24 == 0 && chunks_utf8_valid(m) && valid_utf8(decode_marker_bytes(m)) {
        Some(decode_utf8(decode_marker_bytes(m)))
    } else {
        None
    }
}

/// The low `n` bits of a byte, kept; the rest cleared.
pub open spec fn low_mask(n: u8) -> u8 {
    if n >= 8 {
        0xffu8
    } else {
        ((1u8 << n) - 1) as u8
    }
}

/// Relies on `core::str::from_utf8`: it returns `Ok` exactly when the bytes
/// are a valid UTF-8 encoding, and the returned slice is backed by those
/// same bytes.
#[verifier::external_body]
fn try_str_from_utf8<'a>(v: &'a [u8]) -> (r: Option<&'a str>)
    ensures
        r is Some <==> valid_utf8(v@),
        r matches Some(s) ==> s.spec_bytes() == v@,
{
    core::str::from_utf8(v).ok()
}

/// Relies on `String::from_utf8`: it returns `Ok` exactly when the bytes are
/// a valid UTF-8 encoding, and the returned string reads back as the
/// characters those bytes encode.
#[verifier::external_body]
fn string_from_utf8(v: Vec<u8>) -> (r: Option<String>)
    ensures
        r is Some <==> valid_utf8(v@),
        r matches Some(s) ==> s@ == decode_utf8(v@),
{
    String::from_utf8(v).ok()
}

/// Encodes a single byte as a string of eight zero-width markers, least
/// significant bit first.
pub fn encode_byte(byte: u8) -> (r: String)
    ensures
        r@ == encode_byte_chars(byte),
        r@.len() == 8,
{
    let mut result = String::new();
    let mut i: u8 = 0;
    while i < 8
        invariant
            i <= 8,
            result@ == encode_byte_chars(byte).take(i as int),
        decreases 8 - i,
    {
        proof {
            reveal_strlit("\u{200C}");
            reveal_strlit("\u{200D}");
            assert("\u{200C}"@ =~= seq![zero_char()]);
            assert("\u{200D}"@ =~= seq![one_char()]);
        }
        if (byte >> i) & 1 == 1 {
            result.append("\u{200D}");
        } else {
            result.append("\u{200C}");
        }
        proof {
            let cs = encode_byte_chars(byte);
            assert(cs[i as int] == bit_char(bit_of(byte, i)));
            assert(cs.take(i as int + 1) =~= cs.take(i as int).push(cs[i as int]));
        }
        i = i + 1;
    }
    proof {
        assert(encode_byte_chars(byte).take(8) =~= encode_byte_chars(byte));
    }
    result
}

/// Decodes a string of eight markers back into a byte.  The string must
/// occupy exactly 24 bytes; each three-byte group sets its bit when it is
/// the one marker and clears it otherwise.
pub fn decode_byte(data: &str) -> (r: Option<u8>)
    ensures
        r is Some <==> data.spec_bytes().len() == 24,
        data.spec_bytes().len() == 24 ==> r == Some(decode_byte_spec(data.spec_bytes())),
{
    let bytes = data.as_bytes_vec();
    if bytes.len() != 24 {
        return None;
    }
    let mut result: u8 = 0;
    let mut i: usize = 0;
    while i < 8
        invariant
            bytes@ == data.spec_bytes(),
            bytes@.len() == 24,
            i <= 8,
            result == decode_bits(bytes@, i as u8),
        decreases 8 - i,
    {
        let b0 = bytes[3 * i];
        let b1 = bytes[3 * i + 1];
        let b2 = bytes[3 * i + 2];
        proof {
            let ch = bytes@.subrange(3 * i as int, 3 * i as int + 3);
            assert(ch[0] == b0 && ch[1] == b1 && ch[2] == b2);
            assert(one_bytes()[0] == 0xe2u8 && one_bytes()[1] == 0x80u8 && one_bytes()[2]
                == 0x8du8);
            if b0 == 0xe2 && b1 == 0x80 && b2 == 0x8d {
                assert(ch =~= one_bytes());
            }
        }
        if b0 == 0xe2 && b1 == 0x80 && b2 == 0x8d {
            result = result | (1u8 << (i as u8));
        }
        i = i + 1;
    }
    Some(result)
}

/// Encodes a text payload as a string of zero-width markers: eight markers
/// for each byte of the payload's UTF-8 form, in order.
pub fn encode(data: &str) -> (r: String)
    ensures
        r@ == encode_chars(data.spec_bytes()),
        r@.len() == 8 * data.spec_bytes().len(),
{
    let bytes = data.as_bytes_vec();
    let mut result = String::new();
    let mut i: usize = 0;
    while i < bytes.len()
        invariant
            bytes@ == data.spec_bytes(),
            i <= bytes@.len(),
            result@ == encode_chars(bytes@.take(i as int)),
        decreases bytes@.len() - i,
    {
        let piece = encode_byte(bytes[i]);
        result.append(piece.as_str());
        proof {
            lemma_encode_chars_snoc(bytes@.take(i as int), bytes@[i as int]);
            assert(bytes@.take(i as int + 1) =~= bytes@.take(i as int).push(bytes@[i as int]));
        }
        i = i + 1;
    }
    proof {
        assert(bytes@.take(bytes@.len() as int) =~= bytes@);
        lemma_encode_chars_len(bytes@);
    }
    result
}

/// Decodes a string of zero-width markers back into the original text, or
/// reports failure: when the byte count is not a whole number of byte
/// groups, when a group cannot be read as text on its own, or when the
/// decoded bytes are not a valid text encoding.
pub fn decode(data: &str) -> (r: Option<String>)
    ensures
        r is Some <==> decode_spec(data.spec_bytes()) is Some,
        r matches Some(s) ==> decode_spec(data.spec_bytes()) == Some(s@),
{
    let bytes = data.as_bytes_vec();
    let n = bytes.len();
    if n % 24 != 0 {
        return None;
    }
    let total = n / 24;
    proof {
        lemma_fundamental_div_mod(n as int, 24);
    }
    let mut out: Vec<u8> = Vec::new();
    let mut k: usize = 0;
    while k < total
        invariant
            bytes@ == data.spec_bytes(),
            n == bytes@.len(),
            bytes@.len() % 24 == 0,
            bytes@.len() == 24 * total,
            k <= total,
            out@ == decode_marker_bytes(bytes@.subrange(0, 24 * k as int)),
            forall|j: int|
                0 <= j < k ==> valid_utf8(#[trigger] bytes@.subrange(24 * j, 24 * j + 24)),
        decreases total - k,
    {
        proof {
            assert(24 * (k + 1) <= 24 * total) by (nonlinear_arith)
                requires
                    k < total,
            ;
            assert(24 * k + 24 <= n);
        }
        let chunk = slice_subrange(bytes.as_slice(), 24 * k, 24 * k + 24);
        match try_str_from_utf8(chunk) {
            None => {
                proof {
                    assert(!chunks_utf8_valid(bytes@));
                }
                return None;
            },
            Some(s) => {
                let b = decode_byte(s);
                out.push(b.unwrap());
                proof {
                    let done = bytes@.subrange(0, 24 * k as int);
                    assert(done.len() % 24 == 0) by (nonlinear_arith)
                        requires
                            done.len() == 24 * k,
                    ;
                    lemma_decode_marker_bytes_snoc(done, chunk@);
                    assert(bytes@.subrange(0, 24 * (k + 1) as int) =~= done + chunk@);
                }
            },
        }
        k = k + 1;
    }
    proof {
        assert(bytes@.subrange(0, 24 * total as int) =~= bytes@);
        assert(chunks_utf8_valid(bytes@)) by {
            assert forall|j: int| 0 <= j && 24 * j + 24 <= bytes@.len() implies valid_utf8(
                #[trigger] bytes@.subrange(24 * j, 24 * j + 24),
            ) by {
                assert(j < total) by (nonlinear_arith)
                    requires
                        24 * j + 24 <= 24 * total,
                ;
            }
        }
    }
    string_from_utf8(out)
}

/// Spelling a byte sequence extended by one byte appends that byte's eight
/// markers.
pub proof fn lemma_encode_chars_snoc(data: Seq<u8>, b: u8)
    ensures
        encode_chars(data.push(b)) == encode_chars(data) + encode_byte_chars(b),
    decreases data.len(),
{
    if data.len() == 0 {
        assert(data.push(b).drop_first() =~= Seq::<u8>::empty());
        assert(data.push(b)[0] == b);
        assert(encode_chars(Seq::<u8>::empty()) =~= Seq::<char>::empty());
        assert(encode_chars(data.push(b)) == encode_byte_chars(b) + encode_chars(
            data.push(b).drop_first(),
        ));
        assert(encode_chars(data.push(b)) =~= encode_chars(data) + encode_byte_chars(b));
    } else {
        assert(data.push(b).drop_first() =~= data.drop_first().push(b));
        assert(data.push(b)[0] == data[0]);
        lemma_encode_chars_snoc(data.drop_first(), b);
        assert(encode_chars(data.push(b)) == encode_byte_chars(data[0]) + encode_chars(
            data.drop_first().push(b),
        ));
        assert(encode_chars(data.push(b)) =~= encode_chars(data) + encode_byte_chars(b));
    }
}

/// A spelled byte sequence holds exactly eight markers per byte.
pub proof fn lemma_encode_chars_len(data: Seq<u8>)
    ensures
        encode_chars(data).len() == 8 * data.len(),
    decreases data.len(),
{
    if data.len() > 0 {
        lemma_encode_chars_len(data.drop_first());
    }
}

/// A spelled byte sequence consists of markers only.
pub proof fn lemma_encode_chars_all_markers(data: Seq<u8>)
    ensures
        all_markers(encode_chars(data)),
    decreases data.len(),
{
    if data.len() > 0 {
        lemma_encode_chars_all_markers(data.drop_first());
        let cs = encode_chars(data);
        let head = encode_byte_chars(data[0]);
        let rest = encode_chars(data.drop_first());
        assert forall|i: int| 0 <= i < cs.len() implies is_marker(#[trigger] cs[i]) by {
            if i < 8 {
                assert(cs[i] == head[i]);
                assert(head[i] == bit_char(bit_of(data[0], i as u8)));
            } else {
                assert(cs[i] == rest[i - 8]);
                assert(is_marker(rest[i - 8]));
            }
        }
    }
}

/// Reading back the first `n` bit groups of an encoded byte recovers its
/// low `n` bits.
proof fn lemma_decode_bits_low(m: Seq<u8>, b: u8, n: u8)
    requires
        n <= 8,
        forall|i: u8| i < 8 ==> (chunk_is_one(m, i as int) <==> #[trigger] bit_of(b, i)),
    ensures
        decode_bits(m, n) == b & low_mask(n),
    decreases n,
{
    if n == 0 {
        assert(b & low_mask(0u8) == 0u8) by (bit_vector);
    } else {
        let j = (n - 1) as u8;
        lemma_decode_bits_low(m, b, j);
        assert(chunk_is_one(m, j as int) <==> bit_of(b, j));
        if bit_of(b, j) {
            assert((b & low_mask(j)) | (1u8 << j) == b & low_mask(n)) by (bit_vector)
                requires
                    j < 8,
                    n == j + 1,
                    (b >> j) & 1 == 1,
            ;
        } else {
            assert(b & low_mask(j) == b & low_mask(n)) by (bit_vector)
                requires
                    j < 8,
                    n == j + 1,
                    (b >> j) & 1 != 1,
            ;
        }
    }
}

/// Round trip of the byte codec: decoding the 24-byte encoding of a byte
/// yields that byte again.
pub proof fn lemma_byte_round_trip(b: u8)
    ensures
        encode_utf8(encode_byte_chars(b)).len() == 24,
        decode_byte_spec(encode_utf8(encode_byte_chars(b))) == b,
{
    let cs = encode_byte_chars(b);
    assert(all_markers(cs));
    lemma_marker_seq_len(cs);
    let m = encode_utf8(cs);
    lemma_marker_scalar_encodings();
    assert(zero_char() != one_char());
    assert forall|i: u8| i < 8 implies (chunk_is_one(m, i as int) <==> #[trigger] bit_of(b, i)) by {
        lemma_marker_seq_at(cs, i as int);
        assert(cs[i as int] == bit_char(bit_of(b, i)));
    }
    lemma_decode_bits_low(m, b, 8);
    assert(b & low_mask(8u8) == b) by (bit_vector);
}

/// Round trip of the marker byte level: the encoding of a byte sequence
/// reads back as that byte sequence, chunk for chunk, and every chunk is
/// valid text on its own.
pub proof fn lemma_bytes_round_trip(data: Seq<u8>)
    ensures
        encode_utf8(encode_chars(data)).len() == 24 * data.len(),
        encode_utf8(encode_chars(data)).len() % 24 == 0,
        decode_marker_bytes(encode_utf8(encode_chars(data))) == data,
        chunks_utf8_valid(encode_utf8(encode_chars(data))),
    decreases data.len(),
{
    let cs = encode_chars(data);
    lemma_encode_chars_all_markers(data);
    lemma_marker_seq_len(cs);
    lemma_encode_chars_len(data);
    let m = encode_utf8(cs);
    lemma_mod_multiples_basic(data.len() as int, 24);
    if data.len() == 0 {
        assert(decode_marker_bytes(m) =~= data);
    } else {
        let head = encode_byte_chars(data[0]);
        let rest = encode_chars(data.drop_first());
        lemma_encode_utf8_add(head, rest);
        let m0 = encode_utf8(head);
        let mr = encode_utf8(rest);
        lemma_byte_round_trip(data[0]);
        lemma_bytes_round_trip(data.drop_first());
        assert(m.subrange(0, 24) =~= m0);
        assert(m.skip(24) =~= mr);
        assert(decode_marker_bytes(m) =~= data);
        assert forall|k: int| 0 <= k && 24 * k + 24 <= m.len() implies valid_utf8(
            #[trigger] m.subrange(24 * k, 24 * k + 24),
        ) by {
            if k == 0 {
                encode_utf8_valid_utf8(head);
                assert(m.subrange(0, 24) =~= m0);
            } else {
                assert(m.subrange(24 * k, 24 * k + 24) =~= mr.subrange(
                    24 * (k - 1),
                    24 * (k - 1) + 24,
                ));
            }
        }
    }
}

/// Appending one whole 24-byte chunk to a marker byte run appends the
/// chunk's byte to what the run decodes to.
pub proof fn lemma_decode_marker_bytes_snoc(m: Seq<u8>, c: Seq<u8>)
    requires
        m.len() % 24 == 0,
        c.len() == 24,
    ensures
        decode_marker_bytes(m + c) == decode_marker_bytes(m) + seq![decode_byte_spec(c)],
    decreases m.len(),
{
    if m.len() == 0 {
        assert(m + c =~= c);
        assert(decode_marker_bytes(m + c) == seq![decode_byte_spec((m + c).subrange(0, 24))]
            + decode_marker_bytes((m + c).skip(24)));
        assert((m + c).subrange(0, 24) =~= c);
        assert((m + c).skip(24) =~= Seq::<u8>::empty());
        assert(decode_marker_bytes(Seq::<u8>::empty()) == Seq::<u8>::empty());
        assert(decode_marker_bytes(m) == Seq::<u8>::empty());
        assert(decode_marker_bytes(m + c) =~= decode_marker_bytes(m) + seq![decode_byte_spec(c)]);
    } else {
        assert(m.len() >= 24) by {
            if m.len() < 24 {
                assert(m.len() % 24 == m.len());
            }
        }
        assert((m + c).subrange(0, 24) =~= m.subrange(0, 24));
        assert((m + c).skip(24) =~= m.skip(24) + c);
        assert(m.skip(24).len() % 24 == 0) by (nonlinear_arith)
            requires
                m.len() % 24 == 0,
                m.len() >= 24,
                m.skip(24).len() == m.len() - 24,
        ;
        lemma_decode_marker_bytes_snoc(m.skip(24), c);
        assert(decode_marker_bytes(m + c) == seq![decode_byte_spec((m + c).subrange(0, 24))]
            + decode_marker_bytes((m + c).skip(24)));
        assert(decode_marker_bytes((m + c).skip(24)) == decode_marker_bytes(m.skip(24))
            + seq![decode_byte_spec(c)]);
        assert(decode_marker_bytes(m) == seq![decode_byte_spec(m.subrange(0, 24))]
            + decode_marker_bytes(m.skip(24)));
        assert(decode_marker_bytes(m + c) =~= decode_marker_bytes(m) + seq![decode_byte_spec(c)]);
    }
}

/// Round trip of the message codec: decoding what `encode` produced yields
/// the payload text again, for every payload.
pub proof fn lemma_round_trip(payload: Seq<char>)
    ensures
        decode_spec(encode_utf8(encode_chars(encode_utf8(payload)))) == Some(payload),
{
    let pb = encode_utf8(payload);
    lemma_bytes_round_trip(pb);
    encode_utf8_valid_utf8(payload);
    encode_utf8_decode_utf8(payload);
}

} // verus!
