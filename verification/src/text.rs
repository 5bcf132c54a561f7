//! Reading captured bytes as text.
//!
//! A snapshot is diagnostic: bytes that are not well-formed UTF-8 do not make
//! it fail. Each ill-formed stretch becomes one [`REPLACEMENT`] character and
//! the text around it is kept as it is.
use vstd::prelude::*;
use vstd::utf8::*;

verus! {

/// The character that stands in for bytes that are not text.
pub const REPLACEMENT: char = '\u{FFFD}';

/// True when `second` may follow the leading byte `first` in a well-formed
/// sequence of three or four bytes.
///
/// The ranges leave out the overlong forms, the surrogates and everything
/// above the last scalar value.
pub open spec fn second_byte_fits(first: u8, second: u8) -> bool {
    ||| first == 0xE0 && 0xA0 <= second <= 0xBF
    ||| 0xE1 <= first <= 0xEC && 0x80 <= second <= 0xBF
    ||| first == 0xED && 0x80 <= second <= 0x9F
    ||| 0xEE <= first <= 0xEF && 0x80 <= second <= 0xBF
    ||| first == 0xF0 && 0x90 <= second <= 0xBF
    ||| 0xF1 <= first <= 0xF3 && 0x80 <= second <= 0xBF
    ||| first == 0xF4 && 0x80 <= second <= 0x8F
}

/// How many bytes the ill-formed stretch at the head of `bytes` takes: the
/// longest run that still begins some well-formed sequence, and one byte
/// where not even the first byte does.
pub open spec fn ill_formed_len(bytes: Seq<u8>) -> int
    recommends
        bytes.len() > 0,
        !valid_first_scalar(bytes),
{
    if bytes.len() >= 2 && second_byte_fits(bytes[0], bytes[1]) {
        if bytes[0] >= 0xF0 && bytes.len() >= 3 && is_continuation_byte(bytes[2]) {
            3
        } else {
            2
        }
    } else {
        1
    }
}

/// The first character of the text that `bytes` stand for.
pub open spec fn first_char(bytes: Seq<u8>) -> char
    recommends
        bytes.len() > 0,
{
    if valid_first_scalar(bytes) {
        decode_first_scalar(bytes) as char
    } else {
        REPLACEMENT
    }
}

/// How many bytes the first character of the text takes up in `bytes`.
pub open spec fn first_len(bytes: Seq<u8>) -> int
    recommends
        bytes.len() > 0,
{
    if valid_first_scalar(bytes) {
        length_of_first_scalar(bytes)
    } else {
        ill_formed_len(bytes)
    }
}

/// The text that `bytes` stand for: each well-formed scalar as its
/// character, each ill-formed stretch as one [`REPLACEMENT`].
pub open spec fn lossy_text(bytes: Seq<u8>) -> Seq<char>
    decreases bytes.len(),
{
    if bytes.len() == 0 {
        Seq::empty()
    } else {
        seq![first_char(bytes)] + lossy_text(bytes.skip(first_len(bytes)))
    }
}

/// True when `bad`, with `rest` behind it, is read as exactly one ill-formed
/// stretch: no scalar begins at its first byte, and the stretch ends where
/// `bad` ends.
pub open spec fn ill_formed_stretch(bad: Seq<u8>, rest: Seq<u8>) -> bool {
    &&& bad.len() > 0
    &&& !valid_first_scalar(bad + rest)
    &&& ill_formed_len(bad + rest) == bad.len()
}

/// True when the first `n` bytes of `bytes` begin some well-formed scalar,
/// which other bytes than those of `bytes` may complete.
pub open spec fn begins_scalar(bytes: Seq<u8>, n: int) -> bool {
    exists|more: Seq<u8>| valid_first_scalar(#[trigger] (bytes.take(n) + more))
}

/// True for a byte that begins no well-formed sequence: a continuation byte,
/// a leading byte that only overlong forms use, or one beyond the last
/// scalar value.
pub open spec fn begins_nothing(byte: u8) -> bool {
    0x80 <= byte <= 0xC1 || 0xF5 <= byte
}

/// True when `bad` is the beginning of a well-formed sequence whose end is
/// missing.
pub open spec fn cut_short(bad: Seq<u8>) -> bool {
    ||| bad.len() == 1 && 0xC2 <= bad[0] <= 0xF4
    ||| bad.len() == 2 && second_byte_fits(bad[0], bad[1])
    ||| bad.len() == 3 && bad[0] >= 0xF0 && second_byte_fits(bad[0], bad[1])
        && is_continuation_byte(bad[2])
}

/// A byte below `0x80` stands for itself.
proof fn lemma_one_byte(b0: u8)
    by (bit_vector)
    requires
        is_leading_byte_width_1(b0),
    ensures
        codepoint_width_1(b0) == b0 as u32,
        codepoint_width_1(b0) <= 0x7F,
{
}

/// Two bytes with the right bit patterns are well formed unless overlong,
/// which only the leading bytes `0xC0` and `0xC1` are.
proof fn lemma_two_bytes(b0: u8, b1: u8)
    by (bit_vector)
    requires
        is_leading_byte_width_2(b0),
        is_continuation_byte(b1),
    ensures
        0x80 <= codepoint_width_2(b0, b1) <==> 0xC2 <= b0,
        codepoint_width_2(b0, b1) <= 0x7FF,
{
}

/// Three bytes with the right bit patterns are neither overlong nor a
/// surrogate exactly when the second byte fits the first.
proof fn lemma_three_bytes(b0: u8, b1: u8, b2: u8)
    by (bit_vector)
    requires
        is_leading_byte_width_3(b0),
        is_continuation_byte(b1),
        is_continuation_byte(b2),
    ensures
        (0x800 <= codepoint_width_3(b0, b1, b2) && !(0xD800 <= codepoint_width_3(b0, b1, b2)
            <= 0xDFFF)) <==> second_byte_fits(b0, b1),
        codepoint_width_3(b0, b1, b2) <= 0xFFFF,
{
}

/// Four bytes with the right bit patterns stay within the scalar values and
/// are not overlong exactly when the second byte fits the first.
proof fn lemma_four_bytes(b0: u8, b1: u8, b2: u8, b3: u8)
    by (bit_vector)
    requires
        is_leading_byte_width_4(b0),
        is_continuation_byte(b1),
        is_continuation_byte(b2),
        is_continuation_byte(b3),
    ensures
        0x10000 <= codepoint_width_4(b0, b1, b2, b3) <= 0x10FFFF <==> second_byte_fits(b0, b1),
{
}

/// The character with scalar value `v`, and the replacement character where
/// `v` is no scalar value.
fn char_of(v: u32) -> (c: char)
    ensures
        is_scalar(v) ==> c == v as char,
        !is_scalar(v) ==> c == REPLACEMENT,
{
    match char::from_u32(v) {
        Some(c) => c,
        None => REPLACEMENT,
    }
}

/// Whether `b` has the bit pattern of a continuation byte.
fn is_continuation(b: u8) -> (yes: bool)
    ensures
        yes == is_continuation_byte(b),
{
    0x80 <= b && b <= 0xBF
}

/// Whether `second` may follow the leading byte `first`.
fn fits_second(first: u8, second: u8) -> (yes: bool)
    ensures
        yes == second_byte_fits(first, second),
{
    if first == 0xE0 {
        0xA0 <= second && second <= 0xBF
    } else if first == 0xED {
        0x80 <= second && second <= 0x9F
    } else if first == 0xF0 {
        0x90 <= second && second <= 0xBF
    } else if first == 0xF4 {
        0x80 <= second && second <= 0x8F
    } else if 0xE1 <= first && first <= 0xF3 {
        0x80 <= second && second <= 0xBF
    } else {
        false
    }
}

/// Reads the first character of the text that begins at `start`, and says
/// how many bytes it took.
fn decode_first(bytes: &[u8], start: usize) -> (r: (char, usize))
    requires
        start < bytes@.len(),
    ensures
        r.0 == first_char(bytes@.skip(start as int)),
        r.1 == first_len(bytes@.skip(start as int)),
        1 <= r.1 <= bytes@.len() - start,
{
    let ghost rest = bytes@.skip(start as int);
    let left: usize = bytes.len() - start;
    let b0: u8 = bytes[start];
    assert(rest.len() == left && rest[0] == b0);
    if b0 < 0x80 {
        proof {
            lemma_one_byte(b0);
        }
        (char_of(b0 as u32), 1)
    } else if 0xC2 <= b0 && b0 <= 0xDF {
        if left >= 2 && is_continuation(bytes[start + 1]) {
            let b1: u8 = bytes[start + 1];
            assert(rest[1] == b1);
            proof {
                lemma_two_bytes(b0, b1);
            }
            let v: u32 = (((b0 & 0x1F) as u32) << 6) | ((b1 & 0x3F) as u32);
            (char_of(v), 2)
        } else {
            (REPLACEMENT, 1)
        }
    } else if 0xE0 <= b0 && b0 <= 0xEF {
        if left >= 2 && fits_second(b0, bytes[start + 1]) {
            let b1: u8 = bytes[start + 1];
            assert(rest[1] == b1);
            if left >= 3 && is_continuation(bytes[start + 2]) {
                let b2: u8 = bytes[start + 2];
                assert(rest[2] == b2);
                proof {
                    lemma_three_bytes(b0, b1, b2);
                }
                let high: u32 = ((b0 & 0x0F) as u32) << 12;
                let v: u32 = high | (((b1 & 0x3F) as u32) << 6) | ((b2 & 0x3F) as u32);
                (char_of(v), 3)
            } else {
                (REPLACEMENT, 2)
            }
        } else {
            proof {
                if left >= 3 && is_continuation_byte(rest[1]) && is_continuation_byte(rest[2]) {
                    lemma_three_bytes(b0, rest[1], rest[2]);
                }
            }
            (REPLACEMENT, 1)
        }
    } else if 0xF0 <= b0 && b0 <= 0xF4 {
        if left >= 2 && fits_second(b0, bytes[start + 1]) {
            let b1: u8 = bytes[start + 1];
            assert(rest[1] == b1);
            if left >= 3 && is_continuation(bytes[start + 2]) {
                let b2: u8 = bytes[start + 2];
                assert(rest[2] == b2);
                if left >= 4 && is_continuation(bytes[start + 3]) {
                    let b3: u8 = bytes[start + 3];
                    assert(rest[3] == b3);
                    proof {
                        lemma_four_bytes(b0, b1, b2, b3);
                    }
                    let high: u32 = (((b0 & 0x07) as u32) << 18) | (((b1 & 0x3F) as u32) << 12);
                    let v: u32 = high | (((b2 & 0x3F) as u32) << 6) | ((b3 & 0x3F) as u32);
                    (char_of(v), 4)
                } else {
                    (REPLACEMENT, 3)
                }
            } else {
                (REPLACEMENT, 2)
            }
        } else {
            proof {
                if left >= 4 && is_continuation_byte(rest[1]) && is_continuation_byte(rest[2])
                    && is_continuation_byte(rest[3]) {
                    lemma_four_bytes(b0, rest[1], rest[2], rest[3]);
                }
            }
            (REPLACEMENT, 1)
        }
    } else {
        proof {
            if left >= 2 && is_leading_byte_width_2(b0) && is_continuation_byte(rest[1]) {
                lemma_two_bytes(b0, rest[1]);
            }
            if left >= 4 && is_leading_byte_width_4(b0) && is_continuation_byte(rest[1])
                && is_continuation_byte(rest[2]) && is_continuation_byte(rest[3]) {
                lemma_four_bytes(b0, rest[1], rest[2], rest[3]);
            }
        }
        (REPLACEMENT, 1)
    }
}

/// Reads `bytes` as text. Well-formed UTF-8 comes out as the characters it
/// encodes; each ill-formed stretch comes out as one [`REPLACEMENT`].
pub fn decode_lossy(bytes: &[u8]) -> (text: String)
    ensures
        text@ == lossy_text(bytes@),
{
    let mut text = String::new();
    let mut at: usize = 0;
    assert(bytes@.skip(0) =~= bytes@);
    while at < bytes.len()
        invariant
            at <= bytes@.len(),
            text@ + lossy_text(bytes@.skip(at as int)) == lossy_text(bytes@),
        decreases bytes@.len() - at,
    {
        let ghost rest = bytes@.skip(at as int);
        let ghost before = text@;
        let (c, width) = decode_first(bytes, at);
        text.push(c);
        proof {
            assert(rest.skip(width as int) =~= bytes@.skip(at + width));
            assert(before.push(c) + lossy_text(rest.skip(width as int)) =~= before + (seq![c]
                + lossy_text(rest.skip(width as int))));
        }
        at = at + width;
    }
    assert(lossy_text(bytes@.skip(at as int)) =~= Seq::<char>::empty());
    assert(text@ + Seq::<char>::empty() =~= text@);
    text
}

/// The ill-formed stretch at the head of `bytes` is the longest run of its
/// bytes that begins some well-formed scalar, and a single byte where no run
/// does: every longer run begins none.
pub proof fn lemma_ill_formed_len_is_longest(bytes: Seq<u8>)
    requires
        bytes.len() > 0,
        !valid_first_scalar(bytes),
    ensures
        1 <= ill_formed_len(bytes) <= 3,
        ill_formed_len(bytes) <= bytes.len(),
        ill_formed_len(bytes) > 1 ==> begins_scalar(bytes, ill_formed_len(bytes)),
        forall|m: int| ill_formed_len(bytes) < m <= bytes.len() ==> !begins_scalar(bytes, m),
{
    let n = ill_formed_len(bytes);
    let b0 = bytes[0];
    if n == 2 {
        let b1 = bytes[1];
        let more = if b0 >= 0xF0 {
            seq![0x80u8, 0x80u8]
        } else {
            seq![0x80u8]
        };
        let whole = bytes.take(2) + more;
        assert(whole[0] == b0 && whole[1] == b1 && whole[2] == 0x80u8);
        if b0 >= 0xF0 {
            assert(whole[3] == 0x80u8);
            lemma_four_bytes(b0, b1, 0x80u8, 0x80u8);
        } else {
            lemma_three_bytes(b0, b1, 0x80u8);
        }
        assert(valid_first_scalar(whole));
    } else if n == 3 {
        let whole = bytes.take(3) + seq![0x80u8];
        assert(whole[0] == b0 && whole[1] == bytes[1] && whole[2] == bytes[2] && whole[3]
            == 0x80u8);
        lemma_four_bytes(b0, bytes[1], bytes[2], 0x80u8);
        assert(valid_first_scalar(whole));
    }
    assert forall|m: int| n < m <= bytes.len() implies !begins_scalar(bytes, m) by {
        assert forall|more: Seq<u8>| !valid_first_scalar(#[trigger] (bytes.take(m) + more)) by {
            let whole = bytes.take(m) + more;
            assert(forall|i: int| 0 <= i < m ==> whole[i] == bytes[i]);
            if valid_first_scalar(whole) {
                if is_leading_byte_width_2(b0) {
                    lemma_two_bytes(b0, whole[1]);
                } else if is_leading_byte_width_3(b0) {
                    lemma_three_bytes(b0, whole[1], whole[2]);
                    if m >= 3 {
                        lemma_three_bytes(b0, bytes[1], bytes[2]);
                    }
                } else if is_leading_byte_width_4(b0) {
                    lemma_four_bytes(b0, whole[1], whole[2], whole[3]);
                    if m >= 4 {
                        lemma_four_bytes(b0, bytes[1], bytes[2], bytes[3]);
                    }
                }
                assert(false);
            }
        }
    }
}

/// A well-formed scalar at the head of `head` is read the same whatever
/// follows `head`.
pub proof fn lemma_first_scalar_ignores_rest(head: Seq<u8>, rest: Seq<u8>)
    requires
        valid_first_scalar(head),
    ensures
        valid_first_scalar(head + rest),
        decode_first_scalar(head + rest) == decode_first_scalar(head),
        length_of_first_scalar(head + rest) == length_of_first_scalar(head),
{
    let whole = head + rest;
    assert(forall|i: int| 0 <= i < head.len() ==> whole[i] == head[i]);
}

/// Well-formed UTF-8 at the head of a capture is read as the characters it
/// encodes, and the reading goes on behind it as if it began there.
pub proof fn lemma_lossy_text_after_utf8(head: Seq<u8>, rest: Seq<u8>)
    requires
        valid_utf8(head),
    ensures
        lossy_text(head + rest) == decode_utf8(head) + lossy_text(rest),
    decreases head.len(),
{
    if head.len() == 0 {
        assert(head + rest =~= rest);
        assert(decode_utf8(head) + lossy_text(rest) =~= lossy_text(rest));
    } else {
        let tail = pop_first_scalar(head);
        let c = decode_first_scalar(head) as char;
        lemma_first_scalar_ignores_rest(head, rest);
        lemma_lossy_text_after_utf8(tail, rest);
        assert((head + rest).skip(length_of_first_scalar(head)) =~= tail + rest);
        assert(seq![c] + (decode_utf8(tail) + lossy_text(rest)) =~= (seq![c] + decode_utf8(tail))
            + lossy_text(rest));
    }
}

/// Bytes that are well-formed UTF-8 are read as the text they encode, with
/// no replacement anywhere.
pub proof fn lemma_lossy_text_of_utf8(bytes: Seq<u8>)
    requires
        valid_utf8(bytes),
    ensures
        lossy_text(bytes) == decode_utf8(bytes),
{
    lemma_lossy_text_after_utf8(bytes, Seq::empty());
    assert(bytes + Seq::<u8>::empty() =~= bytes);
    assert(decode_utf8(bytes) + lossy_text(Seq::<u8>::empty()) =~= decode_utf8(bytes));
}

/// Text that was encoded as UTF-8 is read back unchanged.
pub proof fn lemma_text_is_kept(chars: Seq<char>)
    ensures
        lossy_text(encode_utf8(chars)) == chars,
{
    encode_utf8_valid_utf8(chars);
    encode_utf8_decode_utf8(chars);
    lemma_lossy_text_of_utf8(encode_utf8(chars));
}

/// One ill-formed stretch is read as one replacement character, and the
/// reading goes on behind it as if it began there.
pub proof fn lemma_one_replacement(bad: Seq<u8>, rest: Seq<u8>)
    requires
        ill_formed_stretch(bad, rest),
    ensures
        lossy_text(bad + rest) == seq![REPLACEMENT] + lossy_text(rest),
{
    assert((bad + rest).skip(bad.len() as int) =~= rest);
}

/// Bytes that are not text do not spoil the text around them: where one
/// ill-formed stretch stands between two texts, the reading is the first
/// text, one replacement character in the place of the stretch, and the
/// second text, both unchanged.
pub proof fn lemma_replacement_between_text(before: Seq<char>, bad: Seq<u8>, after: Seq<char>)
    requires
        ill_formed_stretch(bad, encode_utf8(after)),
    ensures
        lossy_text(encode_utf8(before) + bad + encode_utf8(after)) == before + seq![REPLACEMENT]
            + after,
{
    let head = encode_utf8(before);
    let tail = encode_utf8(after);
    encode_utf8_valid_utf8(before);
    encode_utf8_decode_utf8(before);
    lemma_lossy_text_after_utf8(head, bad + tail);
    lemma_one_replacement(bad, tail);
    lemma_text_is_kept(after);
    assert(head + bad + tail =~= head + (bad + tail));
    assert(before + (seq![REPLACEMENT] + after) =~= before + seq![REPLACEMENT] + after);
}

/// A byte that begins nothing is an ill-formed stretch by itself, whatever
/// follows it.
pub proof fn lemma_stray_byte_is_ill_formed(byte: u8, rest: Seq<u8>)
    requires
        begins_nothing(byte),
    ensures
        ill_formed_stretch(seq![byte], rest),
{
    let whole = seq![byte] + rest;
    assert(whole[0] == byte);
    if whole.len() >= 2 && is_leading_byte_width_2(byte) && is_continuation_byte(whole[1]) {
        lemma_two_bytes(byte, whole[1]);
    }
    if whole.len() >= 4 && is_leading_byte_width_4(byte) && is_continuation_byte(whole[1])
        && is_continuation_byte(whole[2]) && is_continuation_byte(whole[3]) {
        lemma_four_bytes(byte, whole[1], whole[2], whole[3]);
    }
}

/// A sequence that is cut short is an ill-formed stretch by itself where
/// text follows it, or nothing.
pub proof fn lemma_cut_short_is_ill_formed(bad: Seq<u8>, after: Seq<char>)
    requires
        cut_short(bad),
    ensures
        ill_formed_stretch(bad, encode_utf8(after)),
{
    let tail = encode_utf8(after);
    let whole = bad + tail;
    assert(forall|i: int| 0 <= i < bad.len() ==> whole[i] == bad[i]);
    if after.len() > 0 {
        encode_utf8_first_scalar(after);
        assert(whole[bad.len() as int] == tail[0]);
        assert(!is_continuation_byte(tail[0]));
    } else {
        assert(whole.len() == bad.len());
    }
}

/// Every character of the text takes at least one byte of the capture, and
/// a capture that is not empty gives a text that is not empty.
pub proof fn lemma_lossy_text_len(bytes: Seq<u8>)
    ensures
        lossy_text(bytes).len() <= bytes.len(),
        bytes.len() > 0 ==> lossy_text(bytes).len() > 0,
    decreases bytes.len(),
{
    if bytes.len() > 0 {
        lemma_lossy_text_len(bytes.skip(first_len(bytes)));
    }
}

} // verus!
