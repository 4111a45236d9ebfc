//! The embedding facade: splice an encoded payload into a cover text at a
//! character boundary near its byte midpoint, and recover a payload from an
//! arbitrary string by first discarding everything that is not a marker.
use vstd::prelude::*;

verus! {

use vstd::arithmetic::div_mod::lemma_fundamental_div_mod;
use vstd::arithmetic::div_mod::lemma_mod_multiples_vanish;
use vstd::string::StrSliceExecFns;
use vstd::string::StringExecFns;
use vstd::string::StringSliceAdditionalSpecFns;
use vstd::utf8::decode_utf8;
use vstd::utf8::decode_utf8_split;
use vstd::utf8::encode_utf8;
use vstd::utf8::encode_utf8_decode_utf8;
use vstd::utf8::encode_utf8_valid_utf8;
use vstd::utf8::is_char_boundary;
use vstd::utf8::valid_utf8;
use vstd::utf8::valid_utf8_split;
use crate::codec::decode;
use crate::codec::decode_spec;
use crate::codec::encode;
use crate::codec::encode_chars;
use crate::codec::lemma_encode_chars_all_markers;
use crate::codec::lemma_round_trip;
use crate::markers::all_markers;
use crate::markers::is_marker;
use crate::markers::lemma_encode_utf8_add;
use crate::markers::lemma_marker_seq_len;
use crate::markers::one_char;
use crate::markers::zero_char;

/// The predicate the sanitizer filters by: keep exactly the markers.
pub open spec fn marker_pred() -> spec_fn(char) -> bool {
    |c: char| is_marker(c)
}

/// What the sanitizer keeps of a text: exactly its marker characters, in
/// order.
pub open spec fn sanitize_spec(t: Seq<char>) -> Seq<char> {
    t.filter(marker_pred())
}

/// What recovery yields on a candidate text: whatever decoding yields on
/// the byte form of the text's marker characters.
pub open spec fn recover_spec(t: Seq<char>) -> Option<Seq<char>> {
    decode_spec(encode_utf8(sanitize_spec(t)))
}

/// The offset `k`, walked downward to the nearest character boundary of the
/// byte sequence.  Offset 0 is always a boundary, so the walk never goes
/// below 0.
pub open spec fn split_down(b: Seq<u8>, k: int) -> int
    recommends
        valid_utf8(b),
    decreases k,
{
    if k <= 0 {
        0
    } else if is_char_boundary(b, k) {
        k
    } else {
        split_down(b, k - 1)
    }
}

/// The insertion offset: half the cover's byte length, walked down to the
/// nearest character boundary.
pub open spec fn split_point(b: Seq<u8>) -> int
    recommends
        valid_utf8(b),
{
    split_down(b, b.len() as int / 2)
}

/// The walked-down offset stays within bounds and lands on a character
/// boundary.
pub proof fn lemma_split_down_props(b: Seq<u8>, k: int)
    requires
        valid_utf8(b),
        0 <= k <= b.len(),
    ensures
        0 <= split_down(b, k) <= k,
        is_char_boundary(b, split_down(b, k)),
    decreases k,
{
    if k <= 0 {
        assert(is_char_boundary(b, 0));
    } else if is_char_boundary(b, k) {
    } else {
        lemma_split_down_props(b, k - 1);
    }
}

/// Filters a string down to the zero-width marker characters used for
/// encoding; every other character is discarded.
pub fn remove_unnecessary_symbols(data: &str) -> (r: String)
    ensures
        r@ == sanitize_spec(data@),
{
    let n = data.unicode_len();
    let mut result = String::new();
    let mut i: usize = 0;
    while i < n
        invariant
            n == data@.len(),
            i <= n,
            result@ == sanitize_spec(data@.take(i as int)),
        decreases n - i,
    {
        let c = data.get_char(i);
        let ghost t = data@.take(i as int);
        let ghost old_r = result@;
        if c == '\u{200C}' {
            result.append("\u{200C}");
        } else if c == '\u{200D}' {
            result.append("\u{200D}");
        }
        proof {
            reveal_strlit("\u{200C}");
            reveal_strlit("\u{200D}");
            assert("\u{200C}"@ =~= seq![zero_char()]);
            assert("\u{200D}"@ =~= seq![one_char()]);
            t.lemma_filter_push(c, marker_pred());
            assert(data@.take(i as int + 1) =~= t.push(c));
            if is_marker(c) {
                assert(result@ =~= old_r.push(c));
            }
            assert(result@ == sanitize_spec(data@.take(i as int + 1)));
        }
        i = i + 1;
    }
    proof {
        assert(data@.take(data@.len() as int) =~= data@);
    }
    result
}

/// Hides a secret inside a cover text: the secret's marker spelling is
/// spliced into the cover at the character boundary found at or below half
/// the cover's byte length.  The split never lands inside a multi-byte
/// character, and embedding never fails.
pub fn create_secret(normal_str: &str, secret: &str) -> (r: String)
    ensures
        is_char_boundary(normal_str.spec_bytes(), split_point(normal_str.spec_bytes())),
        r@ == decode_utf8(
            normal_str.spec_bytes().subrange(0, split_point(normal_str.spec_bytes())),
        ) + encode_chars(secret.spec_bytes()) + decode_utf8(
            normal_str.spec_bytes().subrange(
                split_point(normal_str.spec_bytes()),
                normal_str.spec_bytes().len() as int,
            ),
        ),
        encode_utf8(r@) == normal_str.spec_bytes().subrange(
            0,
            split_point(normal_str.spec_bytes()),
        ) + encode_utf8(encode_chars(secret.spec_bytes())) + normal_str.spec_bytes().subrange(
            split_point(normal_str.spec_bytes()),
            normal_str.spec_bytes().len() as int,
        ),
{
    let ghost cb = normal_str.spec_bytes();
    proof {
        encode_utf8_valid_utf8(normal_str@);
    }
    let len = normal_str.as_bytes().len();
    let mut mid: usize = len / 2;
    proof {
        assert(len == cb.len());
        assert(mid as int == cb.len() as int / 2);
    }
    while !normal_str.is_char_boundary(mid)
        invariant
            valid_utf8(cb),
            cb == normal_str.spec_bytes(),
            mid <= cb.len(),
            split_point(cb) == split_down(cb, mid as int),
        decreases mid,
    {
        proof {
            assert(is_char_boundary(cb, 0));
            assert(mid != 0);
        }
        mid = mid - 1;
    }
    proof {
        assert(split_point(cb) == mid as int);
    }
    let parts = normal_str.split_at(mid);
    let first = parts.0;
    let second = parts.1;
    let hidden = encode(secret);
    let mut result = first.to_owned();
    result.append(hidden.as_str());
    result.append(second);
    proof {
        let p = mid as int;
        let cblen = cb.len() as int;
        valid_utf8_split(cb, p);
        encode_utf8_decode_utf8(first@);
        encode_utf8_decode_utf8(second@);
        assert(first@ == decode_utf8(cb.subrange(0, p)));
        assert(second@ == decode_utf8(cb.subrange(p, cblen)));
        assert(result@ =~= first@ + hidden@ + second@);
        lemma_encode_utf8_add(first@ + hidden@, second@);
        lemma_encode_utf8_add(first@, hidden@);
        assert(encode_utf8(result@) =~= cb.subrange(0, p) + encode_utf8(hidden@) + cb.subrange(
            p,
            cblen,
        ));
    }
    result
}

/// Finds and decodes a hidden payload in an arbitrary string: everything
/// but the markers is discarded, and what remains is decoded.  Any decoding
/// failure is collapsed into the absent value.
pub fn extract_secret(message: &str) -> (r: Option<String>)
    ensures
        r is Some <==> recover_spec(message@) is Some,
        r matches Some(s) ==> recover_spec(message@) == Some(s@),
{
    let filtered = remove_unnecessary_symbols(message);
    decode(filtered.as_str())
}

/// A sequence of markers passes the sanitizer unchanged.
pub proof fn lemma_sanitize_all_markers(s: Seq<char>)
    requires
        all_markers(s),
    ensures
        sanitize_spec(s) == s,
    decreases s.len(),
{
    broadcast use Seq::lemma_filter_len;

    if s.len() == 0 {
        assert(sanitize_spec(s) =~= s);
    } else {
        let init = s.drop_last();
        assert(all_markers(init));
        lemma_sanitize_all_markers(init);
        init.lemma_filter_push(s.last(), marker_pred());
        assert(s =~= init.push(s.last()));
        assert(sanitize_spec(s) =~= s);
    }
}

/// A sequence without markers is erased by the sanitizer.
pub proof fn lemma_sanitize_none(s: Seq<char>)
    requires
        forall|i: int| 0 <= i < s.len() ==> !is_marker(#[trigger] s[i]),
    ensures
        sanitize_spec(s) == Seq::<char>::empty(),
    decreases s.len(),
{
    broadcast use Seq::lemma_filter_len;

    if s.len() == 0 {
        assert(sanitize_spec(s) =~= Seq::<char>::empty());
    } else {
        let init = s.drop_last();
        lemma_sanitize_none(init);
        init.lemma_filter_push(s.last(), marker_pred());
        assert(s =~= init.push(s.last()));
        assert(!is_marker(s.last()));
        assert(sanitize_spec(s) =~= Seq::<char>::empty());
    }
}

/// Sanitizing twice is the same as sanitizing once.
pub proof fn lemma_sanitize_idempotent(t: Seq<char>)
    ensures
        sanitize_spec(sanitize_spec(t)) == sanitize_spec(t),
{
    broadcast use Seq::lemma_filter_pred;

    assert(all_markers(sanitize_spec(t)));
    lemma_sanitize_all_markers(sanitize_spec(t));
}

/// Inserting marker-free noise anywhere between two parts of a text does
/// not change what the sanitizer keeps.
pub proof fn lemma_sanitize_unaffected_by_noise(before: Seq<char>, noise: Seq<char>, after: Seq<
    char,
>)
    requires
        forall|i: int| 0 <= i < noise.len() ==> !is_marker(#[trigger] noise[i]),
    ensures
        sanitize_spec(before + noise + after) == sanitize_spec(before + after),
{
    broadcast use Seq::filter_distributes_over_add;

    lemma_sanitize_none(noise);
    assert(sanitize_spec(before + noise + after) =~= sanitize_spec(before + after));
}

/// Noise robustness: whenever the markers left in a text are exactly the
/// spelling of a payload, recovery yields that payload, whatever else the
/// text contains.
pub proof fn lemma_recover_from_markers(t: Seq<char>, payload: Seq<char>)
    requires
        sanitize_spec(t) == encode_chars(encode_utf8(payload)),
    ensures
        recover_spec(t) == Some(payload),
{
    lemma_round_trip(payload);
}

/// Facade round trip: recovering from an embedding yields the secret again,
/// for every marker-free cover text and every secret.  A cover that already
/// contains markers is indistinguishable noise at extraction time and is
/// left out here.
pub proof fn lemma_embed_recover(cover: Seq<char>, secret: Seq<char>)
    requires
        forall|i: int| 0 <= i < cover.len() ==> !is_marker(#[trigger] cover[i]),
    ensures
        ({
            let cb = encode_utf8(cover);
            let p = split_point(cb);
            recover_spec(
                decode_utf8(cb.subrange(0, p)) + encode_chars(encode_utf8(secret)) + decode_utf8(
                    cb.subrange(p, cb.len() as int),
                ),
            ) == Some(secret)
        }),
{
    broadcast use Seq::filter_distributes_over_add;

    let cb = encode_utf8(cover);
    encode_utf8_valid_utf8(cover);
    lemma_split_down_props(cb, cb.len() as int / 2);
    let p = split_point(cb);
    valid_utf8_split(cb, p);
    decode_utf8_split(cb, p);
    encode_utf8_decode_utf8(cover);
    let pre = decode_utf8(cb.subrange(0, p));
    let suf = decode_utf8(cb.subrange(p, cb.len() as int));
    assert(cover == pre + suf);
    assert forall|i: int| 0 <= i < pre.len() implies !is_marker(#[trigger] pre[i]) by {
        assert(pre[i] == cover[i]);
        assert(!is_marker(cover[i]));
    }
    assert forall|i: int| 0 <= i < suf.len() implies !is_marker(#[trigger] suf[i]) by {
        assert(suf[i] == cover[i + pre.len()]);
        assert(!is_marker(cover[i + pre.len()]));
    }
    let mk = encode_chars(encode_utf8(secret));
    lemma_encode_chars_all_markers(encode_utf8(secret));
    lemma_sanitize_none(pre);
    lemma_sanitize_none(suf);
    lemma_sanitize_all_markers(mk);
    assert(sanitize_spec(pre + mk + suf) =~= mk);
    lemma_recover_from_markers(pre + mk + suf, secret);
}

/// Malformed rejection: a marker run whose length is not a multiple of
/// eight never decodes.
pub proof fn lemma_malformed_length_rejected(run: Seq<char>)
    requires
        all_markers(run),
        run.len() % 8 != 0,
    ensures
        decode_spec(encode_utf8(run)) is None,
{
    lemma_marker_seq_len(run);
    let n = run.len() as int;
    lemma_fundamental_div_mod(n, 8);
    lemma_mod_multiples_vanish(n / 8, 3 * (n % 8), 24);
    assert(3 * n == 24 * (n / 8) + 3 * (n % 8));
    assert((3 * n) % 24 == (3 * (n % 8)) % 24);
    assert(0 < 3 * (n % 8) < 24);
    assert((3 * (n % 8)) % 24 == 3 * (n % 8));
}

} // verus!
