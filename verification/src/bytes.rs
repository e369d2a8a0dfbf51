//! Byte positions in UTF-8 text.
//!
//! Texts are measured in bytes: cursors, ranges and attributes are byte offsets. This module holds
//! what the rest of the crate needs to know about such offsets.

use vstd::prelude::*;
use vstd::utf8::*;

verus! {

/// Whether `p` lies between two characters of the text, or at one of its ends.
pub open spec fn at_boundary(b: Seq<u8>, p: int) -> bool {
    0 <= p <= b.len() && (p == b.len() || !is_continuation_byte(b[p]))
}

/// Whether the bytes `pat` stand at position `i`.
pub open spec fn has_at(b: Seq<u8>, i: int, pat: Seq<u8>) -> bool {
    0 <= i && i + pat.len() <= b.len() && b.subrange(i, i + pat.len()) == pat
}

/// The encoding of one character.
pub open spec fn utf8(c: char) -> Seq<u8> {
    encode_scalar(c as u32)
}

/// The text with the bytes from `start` to `end` replaced by `r`.
pub open spec fn splice(b: Seq<u8>, start: int, end: int, r: Seq<u8>) -> Seq<u8> {
    b.subrange(0, start) + r + b.subrange(end, b.len() as int)
}

/// Encoding goes character by character, so it distributes over concatenation.
pub proof fn lemma_encode_concat(a: Seq<char>, b: Seq<char>)
    ensures
        encode_utf8(a + b) == encode_utf8(a) + encode_utf8(b),
    decreases a.len(),
{
    if a.len() == 0 {
        assert(a + b =~= b);
        assert(encode_utf8(a) + encode_utf8(b) =~= encode_utf8(b));
    } else {
        lemma_encode_concat(a.drop_first(), b);
        assert((a + b).drop_first() =~= a.drop_first() + b);
        assert(encode_utf8(a + b) =~= encode_utf8(a) + encode_utf8(b));
    }
}

/// The encoding of a single character.
pub proof fn lemma_encode_one(c: char)
    ensures
        encode_utf8(seq![c]) == utf8(c),
{
    let s = seq![c];
    assert(s.drop_first() =~= Seq::<char>::empty());
    assert(encode_utf8(s.drop_first()) =~= Seq::<u8>::empty());
    assert(encode_utf8(s) =~= utf8(c));
}

/// ASCII characters are encoded as one byte.
pub proof fn lemma_utf8_ascii(c: char)
    requires
        (c as u32) < 0x80,
    ensures
        utf8(c) == seq![c as u8],
{
    let v = c as u32;
    assert(v < 0x80 ==> (v & 0x7F) as u8 == v as u8) by (bit_vector);
    assert(utf8(c) =~= seq![c as u8]);
}

/// The first byte of a character tells how many follow, and those that follow are continuation
/// bytes.
pub proof fn lemma_utf8_bytes(c: char)
    ensures
        1 <= utf8(c).len() <= 4,
        utf8(c).len() == 1 ==> utf8(c)[0] == c as u32 && (c as u32) < 0x80,
        utf8(c).len() == 2 ==> 0xc0 <= utf8(c)[0] < 0xe0,
        utf8(c).len() == 3 ==> 0xe0 <= utf8(c)[0] < 0xf0,
        utf8(c).len() == 4 ==> 0xf0 <= utf8(c)[0],
        forall|i: int| 0 < i < utf8(c).len() ==> 0x80 <= #[trigger] utf8(c)[i] < 0xc0,
{
    let v = c as u32;
    if v < 0x80 {
        lemma_utf8_ascii(c);
    } else {
        assert(0xc0 <= 0xC0 | ((v >> 6) & 0x1F) as u8 && 0xC0 | ((v >> 6) & 0x1F) as u8 <= 0xdf)
            by (bit_vector);
        assert(0xe0 <= 0xE0 | ((v >> 12) & 0x0F) as u8 && 0xE0 | ((v >> 12) & 0x0F) as u8 <= 0xef)
            by (bit_vector);
        assert(0xf0 <= 0xF0 | ((v >> 18) & 0x7) as u8) by (bit_vector);
        assert(0x80 <= 0x80 | (v & 0x3F) as u8 && 0x80 | (v & 0x3F) as u8 <= 0xbf) by (bit_vector);
        assert(0x80 <= 0x80 | ((v >> 6) & 0x3F) as u8 && 0x80 | ((v >> 6) & 0x3F) as u8 <= 0xbf)
            by (bit_vector);
        assert(0x80 <= 0x80 | ((v >> 12) & 0x3F) as u8 && 0x80 | ((v >> 12) & 0x3F) as u8 <= 0xbf)
            by (bit_vector);
    }
}

/// Two texts with the same encoding are the same.
pub proof fn lemma_encode_injective(a: Seq<char>, b: Seq<char>)
    requires
        encode_utf8(a) == encode_utf8(b),
    ensures
        a == b,
{
    encode_utf8_decode_utf8(a);
    encode_utf8_decode_utf8(b);
}

/// Boundaries of valid text can be told from the byte that follows.
pub proof fn lemma_boundary(b: Seq<u8>, p: int)
    requires
        valid_utf8(b),
    ensures
        at_boundary(b, p) == is_char_boundary(b, p),
        at_boundary(b, 0),
        at_boundary(b, b.len() as int),
{
    is_char_boundary_start_end_of_seq(b);
    if 0 <= p < b.len() {
        is_char_boundary_iff_not_is_continuation_byte(b, p);
    }
    if 0 < b.len() {
        is_char_boundary_iff_not_is_continuation_byte(b, 0);
    }
}

/// Cutting valid text at boundaries gives valid text.
pub proof fn lemma_sub_valid(b: Seq<u8>, s: int, e: int)
    requires
        valid_utf8(b),
        s <= e,
        at_boundary(b, s),
        at_boundary(b, e),
    ensures
        valid_utf8(b.subrange(s, e)),
        valid_utf8(b.subrange(0, s)),
        valid_utf8(b.subrange(e, b.len() as int)),
{
    lemma_boundary(b, s);
    lemma_boundary(b, e);
    valid_utf8_split(b, s);
    valid_utf8_split(b, e);
    let head = b.subrange(0, e);
    assert(at_boundary(head, s));
    lemma_boundary(head, s);
    valid_utf8_split(head, s);
    assert(head.subrange(s, head.len() as int) =~= b.subrange(s, e));
}

/// From a boundary, the next one lies behind the character that starts there.
pub proof fn lemma_step(b: Seq<u8>, i: int)
    requires
        valid_utf8(b),
        at_boundary(b, i),
        i < b.len(),
    ensures
        ({
            let k: int = if b[i] < 0x80 { 1 } else if b[i] < 0xe0 { 2 } else if b[i] < 0xf0 { 3 } else { 4 };
            &&& i + k <= b.len()
            &&& at_boundary(b, i + k)
            &&& forall|j: int| i < j < i + k ==> is_continuation_byte(#[trigger] b[j])
        }),
{
    lemma_boundary(b, i);
    valid_utf8_split(b, i);
    let t = b.subrange(i, b.len() as int);
    assert(valid_first_scalar(t));
    let k = length_of_first_scalar(t);
    let rest = pop_first_scalar(t);
    assert(valid_utf8(rest));
    lemma_boundary(rest, 0);
    assert forall|j: int| i < j < i + k implies is_continuation_byte(#[trigger] b[j]) by {
        assert(b[j] == t[j - i]);
    }
    assert(b[i] == t[0]);
    if i + k < b.len() {
        assert(rest[0] == b[i + k]);
    }
}

/// Replacing text between two boundaries by other text leaves boundaries at both ends of the
/// replacement.
pub proof fn lemma_splice(b: Seq<u8>, start: int, end: int, r: Seq<u8>)
    requires
        valid_utf8(b),
        valid_utf8(r),
        start <= end,
        at_boundary(b, start),
        at_boundary(b, end),
    ensures
        valid_utf8(splice(b, start, end, r)),
        splice(b, start, end, r).len() == b.len() - (end - start) + r.len(),
        at_boundary(splice(b, start, end, r), start),
        at_boundary(splice(b, start, end, r), start + r.len()),
{
    lemma_sub_valid(b, start, end);
    let head = b.subrange(0, start);
    let tail = b.subrange(end, b.len() as int);
    valid_utf8_concat(head, r);
    valid_utf8_concat(head + r, tail);
    let n = splice(b, start, end, r);
    lemma_boundary(r, 0);
    lemma_boundary(tail, 0);
    if r.len() > 0 {
        assert(n[start] == r[0]);
    } else if tail.len() > 0 {
        assert(n[start] == tail[0]);
    }
    if tail.len() > 0 {
        assert(n[start + r.len()] == tail[0]);
    }
}

/// The part of `text` from `start` to `end`.
pub fn substr(text: &str, start: usize, end: usize) -> (r: &str)
    requires
        start <= end,
        at_boundary(encode_utf8(text@), start as int),
        at_boundary(encode_utf8(text@), end as int),
    ensures
        encode_utf8(r@) == encode_utf8(text@).subrange(start as int, end as int),
{
    let ghost b = encode_utf8(text@);
    proof {
        encode_utf8_valid_utf8(text@);
        lemma_boundary(b, start as int);
        lemma_boundary(b, end as int);
    }
    let (head, _) = text.split_at(end);
    proof {
        encode_utf8_valid_utf8(head@);
        assert(encode_utf8(head@) =~= b.subrange(0, end as int));
        assert(at_boundary(encode_utf8(head@), start as int));
        lemma_boundary(encode_utf8(head@), start as int);
    }
    let (_, mid) = head.split_at(start);
    assert(encode_utf8(mid@) =~= b.subrange(start as int, end as int));
    mid
}

} // verus!
