//! The two invisible marker symbols that stand for binary digits, and how
//! runs of them look as UTF-8 bytes.
use vstd::prelude::*;

verus! {

use vstd::utf8::encode_scalar;
use vstd::utf8::encode_utf8;
use vstd::utf8::has_width_3_encoding;
use vstd::utf8::last_continuation_byte;
use vstd::utf8::leading_byte_width_3;
use vstd::utf8::second_last_continuation_byte;

/// The marker that stands for a 0 bit: the zero-width non-joiner, U+200C.
pub open spec fn zero_char() -> char {
    '\u{200C}'
}

/// The marker that stands for a 1 bit: the zero-width joiner, U+200D.
pub open spec fn one_char() -> char {
    '\u{200D}'
}

/// True of the two marker characters and nothing else.
pub open spec fn is_marker(c: char) -> bool {
    c == zero_char() || c == one_char()
}

/// The three UTF-8 bytes of `zero_char`.
pub open spec fn zero_bytes() -> Seq<u8> {
    seq![0xe2u8, 0x80u8, 0x8cu8]
}

/// The three UTF-8 bytes of `one_char`.
pub open spec fn one_bytes() -> Seq<u8> {
    seq![0xe2u8, 0x80u8, 0x8du8]
}

/// The UTF-8 bytes of a single marker character.
pub open spec fn marker_bytes(c: char) -> Seq<u8>
    recommends
        is_marker(c),
{
    if c == one_char() {
        one_bytes()
    } else {
        zero_bytes()
    }
}

/// True when every character of the sequence is a marker.
pub open spec fn all_markers(cs: Seq<char>) -> bool {
    forall|i: int| 0 <= i < cs.len() ==> is_marker(#[trigger] cs[i])
}

/// Both markers encode to exactly the byte triples written above; in
/// particular both occupy the same number of bytes.
pub proof fn lemma_marker_scalar_encodings()
    ensures
        encode_scalar(zero_char() as u32) == zero_bytes(),
        encode_scalar(one_char() as u32) == one_bytes(),
        zero_bytes() != one_bytes(),
{
    assert(zero_char() as u32 == 0x200cu32);
    assert(one_char() as u32 == 0x200du32);
    assert(has_width_3_encoding(0x200cu32) && has_width_3_encoding(0x200du32));
    assert(leading_byte_width_3(0x200cu32) == 0xe2u8) by (bit_vector);
    assert(second_last_continuation_byte(0x200cu32) == 0x80u8) by (bit_vector);
    assert(last_continuation_byte(0x200cu32) == 0x8cu8) by (bit_vector);
    assert(leading_byte_width_3(0x200du32) == 0xe2u8) by (bit_vector);
    assert(second_last_continuation_byte(0x200du32) == 0x80u8) by (bit_vector);
    assert(last_continuation_byte(0x200du32) == 0x8du8) by (bit_vector);
    assert(encode_scalar(0x200cu32) =~= zero_bytes());
    assert(encode_scalar(0x200du32) =~= one_bytes());
    assert(zero_bytes()[2] != one_bytes()[2]);
}

/// UTF-8 encoding distributes over concatenation of character sequences.
pub proof fn lemma_encode_utf8_add(a: Seq<char>, b: Seq<char>)
    ensures
        encode_utf8(a + b) == encode_utf8(a) + encode_utf8(b),
    decreases a.len(),
{
    if a.len() == 0 {
        assert(a + b =~= b);
        assert(encode_utf8(a) + encode_utf8(b) =~= encode_utf8(b));
    } else {
        assert((a + b).drop_first() =~= a.drop_first() + b);
        lemma_encode_utf8_add(a.drop_first(), b);
        assert((a + b)[0] == a[0]);
        assert(encode_utf8(a + b) =~= encode_utf8(a) + encode_utf8(b));
    }
}

/// A sequence of markers encodes to exactly three bytes per marker.
pub proof fn lemma_marker_seq_len(cs: Seq<char>)
    requires
        all_markers(cs),
    ensures
        encode_utf8(cs).len() == 3 * cs.len(),
    decreases cs.len(),
{
    if cs.len() > 0 {
        lemma_marker_scalar_encodings();
        assert(is_marker(cs[0]));
        assert(all_markers(cs.drop_first())) by {
            assert(forall|i: int|
                0 <= i < cs.drop_first().len() ==> #[trigger] cs.drop_first()[i] == cs[i + 1]);
        }
        lemma_marker_seq_len(cs.drop_first());
    }
}

/// A single marker character encodes to its byte triple.
pub proof fn lemma_marker_char_bytes(c: char)
    requires
        is_marker(c),
    ensures
        encode_utf8(seq![c]) == marker_bytes(c),
{
    lemma_marker_scalar_encodings();
    let s = seq![c];
    assert(s.drop_first() =~= Seq::<char>::empty());
    assert(encode_utf8(Seq::<char>::empty()) =~= Seq::<u8>::empty());
    assert(s[0] == c);
    assert(encode_utf8(s) == encode_scalar(c as u32) + encode_utf8(s.drop_first()));
    assert(encode_utf8(s) =~= marker_bytes(c));
}

/// Inside an all-marker run, character positions correspond to byte
/// positions by a factor of three: encoding a subrange of the characters
/// gives the matching subrange of the encoded bytes.
pub proof fn lemma_marker_seq_subrange(cs: Seq<char>, a: int, b: int)
    requires
        all_markers(cs),
        0 <= a <= b <= cs.len(),
    ensures
        encode_utf8(cs.subrange(a, b)) == encode_utf8(cs).subrange(3 * a, 3 * b),
{
    let s1 = cs.subrange(0, a);
    let s2 = cs.subrange(a, b);
    let s3 = cs.subrange(b, cs.len() as int);
    assert(all_markers(s1) && all_markers(s2) && all_markers(s3));
    assert(cs =~= (s1 + s2) + s3);
    lemma_encode_utf8_add(s1 + s2, s3);
    lemma_encode_utf8_add(s1, s2);
    lemma_marker_seq_len(s1);
    lemma_marker_seq_len(s2);
    lemma_marker_seq_len(cs);
    assert(encode_utf8(cs) == encode_utf8(s1) + encode_utf8(s2) + encode_utf8(s3));
    assert(encode_utf8(s2) =~= encode_utf8(cs).subrange(3 * a, 3 * b));
}

/// The byte triple of the marker at position `i` of an all-marker run sits
/// at byte offset `3 * i` of the run's encoding.
pub proof fn lemma_marker_seq_at(cs: Seq<char>, i: int)
    requires
        all_markers(cs),
        0 <= i < cs.len(),
    ensures
        encode_utf8(cs).subrange(3 * i, 3 * i + 3) == marker_bytes(cs[i]),
{
    lemma_marker_seq_subrange(cs, i, i + 1);
    assert(cs.subrange(i, i + 1) =~= seq![cs[i]]);
    lemma_marker_char_bytes(cs[i]);
}

} // verus!
