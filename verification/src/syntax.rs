//! Bullet and numbered lists in plain text.
//!
//! A paragraph is a list item when it starts with tabs for its nesting level, followed by a bullet
//! (`•`, `◦`, `▪`) or a number (`1.`, `1)`) and a space. Lists are stored as plain text, so they
//! look the same wherever the text is shown.
//!
//! Wrapped lines of list items get a hanging indent: at every wrap a line separator
//! ([`SOFT_BREAK`]) is inserted, followed by spaces that line the wrapped line up with the start
//! of the item's text.

use crate::bytes;
use std::ops::Range;
use vstd::prelude::*;
use vstd::utf8::*;

verus! {

/// Marks an automatic line break inside a list item. It is followed by the indentation of the
/// wrapped line.
pub const SOFT_BREAK: char = '\u{2028}';

/// Used together with regular spaces to fine tune the indentation of wrapped lines.
pub const HAIR_SPACE: char = '\u{200A}';

/// Items cannot be indented further than this.
pub const MAX_LEVEL: usize = 8;

/// What stands in front of the text of a list item.
#[derive(Debug, Clone, Copy, PartialEq, Eq, Structural)]
pub enum Marker {
    Bullet(char),
    Number { n: u32, delim: char },
}

/// A paragraph that is a list item, in byte positions.
#[derive(Debug, Clone, Copy, PartialEq, Eq, Structural)]
pub struct ListItem {
    /// Start of the paragraph.
    pub start: usize,
    /// End of the paragraph, not including the newline.
    pub end: usize,
    pub level: usize,
    pub marker: Marker,
    pub marker_start: usize,
    pub marker_end: usize,
    /// Where the text of the item starts, after the marker and the space.
    pub content_start: usize,
}

// ---------------------------------------------------------------------------------------------
// Characters

/// Whether an automatic line break stands at `i`.
#[verifier::opaque]
pub open spec fn soft_break_at(b: Seq<u8>, i: int) -> bool {
    bytes::has_at(b, i, bytes::utf8(SOFT_BREAK))
}

/// Whether a hair space stands at `i`.
#[verifier::opaque]
pub open spec fn hair_at(b: Seq<u8>, i: int) -> bool {
    bytes::has_at(b, i, bytes::utf8(HAIR_SPACE))
}

/// The bullet at `i`, if one stands there.
#[verifier::opaque]
pub open spec fn bullet_at(b: Seq<u8>, i: int) -> Option<char> {
    if bytes::has_at(b, i, bytes::utf8('•')) {
        Some('•')
    } else if bytes::has_at(b, i, bytes::utf8('◦')) {
        Some('◦')
    } else if bytes::has_at(b, i, bytes::utf8('▪')) {
        Some('▪')
    } else {
        None
    }
}

/// The bullet of a nesting level. The three bullets repeat.
pub open spec fn spec_bullet(level: int) -> char {
    if level % 3 == 0 {
        '•'
    } else if level % 3 == 1 {
        '◦'
    } else {
        '▪'
    }
}

pub open spec fn is_digit(c: u8) -> bool {
    0x30 <= c <= 0x39
}

/// Three given bytes stand at `i`.
pub open spec fn three_at(b: Seq<u8>, i: int, x: u8, y: u8, z: u8) -> bool {
    0 <= i && i + 3 <= b.len() && b[i] == x && b[i + 1] == y && b[i + 2] == z
}

/// The encodings of the characters lists are made of.
pub proof fn lemma_encodings()
    ensures
        bytes::utf8(SOFT_BREAK) == seq![0xe2u8, 0x80u8, 0xa8u8],
        bytes::utf8(HAIR_SPACE) == seq![0xe2u8, 0x80u8, 0x8au8],
        bytes::utf8('•') == seq![0xe2u8, 0x80u8, 0xa2u8],
        bytes::utf8('◦') == seq![0xe2u8, 0x97u8, 0xa6u8],
        bytes::utf8('▪') == seq![0xe2u8, 0x96u8, 0xaau8],
        bytes::utf8('\n') == seq![0x0au8],
        bytes::utf8('\t') == seq![0x09u8],
        bytes::utf8(' ') == seq![0x20u8],
        bytes::utf8('-') == seq![0x2du8],
{
    assert(0xE0u8 | ((0x2028u32 >> 12) & 0x0F) as u8 == 0xe2 && 0x80u8 | ((0x2028u32 >> 6) & 0x3F) as u8
        == 0x80 && 0x80u8 | (0x2028u32 & 0x3F) as u8 == 0xa8) by (bit_vector);
    assert(0xE0u8 | ((0x200Au32 >> 12) & 0x0F) as u8 == 0xe2 && 0x80u8 | ((0x200Au32 >> 6) & 0x3F) as u8
        == 0x80 && 0x80u8 | (0x200Au32 & 0x3F) as u8 == 0x8a) by (bit_vector);
    assert(0xE0u8 | ((0x2022u32 >> 12) & 0x0F) as u8 == 0xe2 && 0x80u8 | ((0x2022u32 >> 6) & 0x3F) as u8
        == 0x80 && 0x80u8 | (0x2022u32 & 0x3F) as u8 == 0xa2) by (bit_vector);
    assert(0xE0u8 | ((0x25E6u32 >> 12) & 0x0F) as u8 == 0xe2 && 0x80u8 | ((0x25E6u32 >> 6) & 0x3F) as u8
        == 0x97 && 0x80u8 | (0x25E6u32 & 0x3F) as u8 == 0xa6) by (bit_vector);
    assert(0xE0u8 | ((0x25AAu32 >> 12) & 0x0F) as u8 == 0xe2 && 0x80u8 | ((0x25AAu32 >> 6) & 0x3F) as u8
        == 0x96 && 0x80u8 | (0x25AAu32 & 0x3F) as u8 == 0xaa) by (bit_vector);
    bytes::lemma_utf8_ascii('\n');
    bytes::lemma_utf8_ascii('\t');
    bytes::lemma_utf8_ascii(' ');
    bytes::lemma_utf8_ascii('-');
}

proof fn lemma_three_at(b: Seq<u8>, i: int, x: u8, y: u8, z: u8)
    ensures
        bytes::has_at(b, i, seq![x, y, z]) == three_at(b, i, x, y, z),
{
    let pat = seq![x, y, z];
    if three_at(b, i, x, y, z) {
        assert(b.subrange(i, i + 3) =~= pat);
    }
    if bytes::has_at(b, i, pat) {
        assert(b.subrange(i, i + 3)[0] == pat[0]);
        assert(b.subrange(i, i + 3)[1] == pat[1]);
        assert(b.subrange(i, i + 3)[2] == pat[2]);
    }
}

pub broadcast proof fn lemma_soft_break_bytes(b: Seq<u8>, i: int)
    ensures
        #[trigger] soft_break_at(b, i) == three_at(b, i, 0xe2, 0x80, 0xa8),
{
    reveal(soft_break_at);
    lemma_encodings();
    lemma_three_at(b, i, 0xe2, 0x80, 0xa8);
}

pub broadcast proof fn lemma_hair_bytes(b: Seq<u8>, i: int)
    ensures
        #[trigger] hair_at(b, i) == three_at(b, i, 0xe2, 0x80, 0x8a),
{
    reveal(hair_at);
    lemma_encodings();
    lemma_three_at(b, i, 0xe2, 0x80, 0x8a);
}

pub broadcast proof fn lemma_bullet_bytes(b: Seq<u8>, i: int)
    ensures
        #[trigger] bullet_at(b, i) == (if three_at(b, i, 0xe2, 0x80, 0xa2) {
            Some('•')
        } else if three_at(b, i, 0xe2, 0x97, 0xa6) {
            Some('◦')
        } else if three_at(b, i, 0xe2, 0x96, 0xaa) {
            Some('▪')
        } else {
            None
        }),
{
    reveal(bullet_at);
    lemma_encodings();
    lemma_three_at(b, i, 0xe2, 0x80, 0xa2);
    lemma_three_at(b, i, 0xe2, 0x97, 0xa6);
    lemma_three_at(b, i, 0xe2, 0x96, 0xaa);
}

pub broadcast group group_char_bytes {
    lemma_soft_break_bytes,
    lemma_hair_bytes,
    lemma_bullet_bytes,
}

pub(crate) fn has_three(b: &[u8], i: usize, x: u8, y: u8, z: u8) -> (r: bool)
    ensures
        r == three_at(b@, i as int, x, y, z),
{
    let n: usize = b.len();
    n >= 3 && i <= n - 3 && b[i] == x && b[i + 1] == y && b[i + 2] == z
}

/// The bullet of a nesting level.
pub fn bullet_for_level(level: usize) -> (r: char)
    ensures
        r == spec_bullet(level as int),
{
    if level % 3 == 0 {
        '•'
    } else if level % 3 == 1 {
        '◦'
    } else {
        '▪'
    }
}

/// Whether the character can be part of the indentation of a wrapped line.
pub open spec fn indents(c: char) -> bool {
    c == ' ' || c == HAIR_SPACE
}

/// Whether the character can be part of the indentation of a wrapped line.
pub fn is_indent_char(c: char) -> (r: bool)
    ensures
        r == indents(c),
{
    c == ' ' || c == HAIR_SPACE
}

// ---------------------------------------------------------------------------------------------
// Paragraphs

/// Start of the paragraph that contains `pos`.
pub open spec fn para_start(b: Seq<u8>, pos: int) -> int
    decreases pos,
{
    if pos <= 0 {
        0
    } else if b[pos - 1] == 0x0a {
        pos
    } else {
        para_start(b, pos - 1)
    }
}

/// End of the paragraph that contains `pos`, in front of its newline.
pub open spec fn para_end(b: Seq<u8>, pos: int) -> int
    decreases b.len() - pos,
{
    if pos >= b.len() {
        b.len() as int
    } else if b[pos] == 0x0a {
        pos
    } else {
        para_end(b, pos + 1)
    }
}

/// The paragraphs from the one that starts at `start` on.
pub open spec fn paragraphs_from(b: Seq<u8>, start: int) -> Seq<Range<usize>>
    decreases b.len() - start,
{
    let end = para_end(b, start);
    let first = seq![Range { start: start as usize, end: end as usize }];
    if start <= end < b.len() {
        first + paragraphs_from(b, end + 1)
    } else {
        first
    }
}

/// All paragraphs, not including the newlines between them.
pub open spec fn paragraphs(b: Seq<u8>) -> Seq<Range<usize>> {
    paragraphs_from(b, 0)
}

pub proof fn lemma_para_end(b: Seq<u8>, pos: int)
    requires
        0 <= pos <= b.len(),
    ensures
        pos <= para_end(b, pos) <= b.len(),
        para_end(b, pos) < b.len() ==> b[para_end(b, pos)] == 0x0a,
        forall|i: int| pos <= i < para_end(b, pos) ==> b[i] != 0x0a,
    decreases b.len() - pos,
{
    if pos < b.len() && b[pos] != 0x0a {
        lemma_para_end(b, pos + 1);
    }
}

pub proof fn lemma_para_end_unique(b: Seq<u8>, pos: int, end: int)
    requires
        0 <= pos <= end <= b.len(),
        forall|i: int| pos <= i < end ==> b[i] != 0x0a,
        end < b.len() ==> b[end] == 0x0a,
    ensures
        para_end(b, pos) == end,
    decreases end - pos,
{
    if pos < end {
        lemma_para_end_unique(b, pos + 1, end);
    }
}

pub proof fn lemma_para_start(b: Seq<u8>, pos: int)
    requires
        0 <= pos <= b.len(),
    ensures
        0 <= para_start(b, pos) <= pos,
        para_start(b, pos) > 0 ==> b[para_start(b, pos) - 1] == 0x0a,
        forall|i: int| para_start(b, pos) <= i < pos ==> b[i] != 0x0a,
    decreases pos,
{
    if pos > 0 && b[pos - 1] != 0x0a {
        lemma_para_start(b, pos - 1);
    }
}

pub proof fn lemma_para_start_unique(b: Seq<u8>, pos: int, start: int)
    requires
        0 <= start <= pos <= b.len(),
        forall|i: int| start <= i < pos ==> b[i] != 0x0a,
        start > 0 ==> b[start - 1] == 0x0a,
    ensures
        para_start(b, pos) == start,
    decreases pos - start,
{
    if start < pos {
        lemma_para_start_unique(b, pos - 1, start);
    }
}

/// The byte behind a newline and the end of a paragraph are boundaries.
pub proof fn lemma_para_boundaries(b: Seq<u8>, pos: int)
    requires
        valid_utf8(b),
        0 <= pos <= b.len(),
    ensures
        bytes::at_boundary(b, para_start(b, pos)),
        bytes::at_boundary(b, para_end(b, pos)),
{
    lemma_para_start(b, pos);
    lemma_para_end(b, pos);
    bytes::lemma_boundary(b, 0);
    let s = para_start(b, pos);
    if s > 0 {
        bytes::lemma_step(b, s - 1);
    }
}

/// A range of whole characters without newlines, between newlines or the ends of the text.
pub open spec fn is_paragraph(b: Seq<u8>, r: Range<usize>) -> bool {
    &&& r.start <= r.end <= b.len()
    &&& bytes::at_boundary(b, r.start as int)
    &&& bytes::at_boundary(b, r.end as int)
    &&& (r.start == 0 || b[r.start - 1] == 0x0a)
    &&& (r.end == b.len() || b[r.end as int] == 0x0a)
    &&& forall|i: int| r.start <= i < r.end ==> b[i] != 0x0a
}

pub proof fn lemma_paragraphs_from(b: Seq<u8>, start: int)
    requires
        valid_utf8(b),
        b.len() <= usize::MAX,
        0 <= start <= b.len(),
        start == 0 || b[start - 1] == 0x0a,
    ensures
        paragraphs_from(b, start).len() > 0,
        paragraphs_from(b, start)[0].start == start,
        paragraphs_from(b, start).last().end == b.len(),
        forall|k: int|
            0 <= k < paragraphs_from(b, start).len() ==> is_paragraph(
                b,
                #[trigger] paragraphs_from(b, start)[k],
            ),
        forall|j: int, k: int|
            0 <= j && k == j + 1 && k < paragraphs_from(b, start).len() ==> (
            #[trigger] paragraphs_from(b, start)[j]).end + 1 == (#[trigger] paragraphs_from(
                b,
                start,
            )[k]).start,
    decreases b.len() - start,
{
    let p = paragraphs_from(b, start);
    let end = para_end(b, start);
    lemma_para_end(b, start);
    bytes::lemma_boundary(b, 0);
    if start > 0 {
        bytes::lemma_step(b, start - 1);
    }
    assert(p[0] == Range { start: start as usize, end: end as usize });
    assert(is_paragraph(b, p[0]));
    if end < b.len() {
        lemma_paragraphs_from(b, end + 1);
        let rest = paragraphs_from(b, end + 1);
        assert(p =~= seq![p[0]] + rest);
        assert forall|k: int| 0 <= k < p.len() implies is_paragraph(b, #[trigger] p[k]) by {
            if k > 0 {
                assert(p[k] == rest[k - 1]);
            }
        }
        assert forall|j: int, k: int| 0 <= j && k == j + 1 && k < p.len() implies (
        #[trigger] p[j]).end + 1 == (#[trigger] p[k]).start by {
            assert(p[k] == rest[j]);
            if j > 0 {
                assert(p[j] == rest[j - 1]);
            }
        }
        assert(p.last() == rest.last());
    }
}

/// The ranges of the paragraphs, not including the newlines between them.
pub fn paragraph_ranges(text: &str) -> (r: Vec<Range<usize>>)
    ensures
        r@ == paragraphs(encode_utf8(text@)),
{
    let b = text.as_bytes();
    let n: usize = b.len();
    let mut ranges: Vec<Range<usize>> = Vec::new();
    let mut start: usize = 0;
    let mut i: usize = 0;
    while i < n
        invariant
            n == b@.len(),
            b@ == encode_utf8(text@),
            start <= i <= n,
            forall|j: int| start <= j < i ==> b@[j] != 0x0a,
            ranges@ + paragraphs_from(b@, start as int) == paragraphs(b@),
        decreases n - i,
    {
        if b[i] == 0x0a {
            proof {
                lemma_para_end_unique(b@, start as int, i as int);
            }
            ranges.push(Range { start, end: i });
            start = i + 1;
            assert(ranges@ + paragraphs_from(b@, start as int) =~= paragraphs(b@));
        }
        i += 1;
    }
    proof {
        lemma_para_end_unique(b@, start as int, n as int);
    }
    ranges.push(Range { start, end: n });
    assert(ranges@ =~= paragraphs(b@));
    ranges
}

// ---------------------------------------------------------------------------------------------
// List items

/// End of the tabs from `i` on.
pub open spec fn tabs_end(b: Seq<u8>, i: int, end: int) -> int
    decreases end - i,
{
    if i < end && b[i] == 0x09 {
        tabs_end(b, i + 1, end)
    } else {
        i
    }
}

/// End of the digits from `i` on.
pub open spec fn digits_end(b: Seq<u8>, i: int, end: int) -> int
    decreases end - i,
{
    if i < end && is_digit(b[i]) {
        digits_end(b, i + 1, end)
    } else {
        i
    }
}

/// The number written with the digits from `i` to `j`.
pub open spec fn decimal_value(b: Seq<u8>, i: int, j: int) -> nat
    decreases j - i,
{
    if j <= i {
        0
    } else {
        decimal_value(b, i, j - 1) * 10 + (b[j - 1] - 0x30) as nat
    }
}

/// The marker at `ms` and its end: a bullet, or up to six digits with a dot or a bracket.
pub open spec fn marker_at(b: Seq<u8>, ms: int, end: int) -> Option<(Marker, int)> {
    let de = digits_end(b, ms, end);
    if ms + 3 <= end && bullet_at(b, ms) is Some {
        Some((Marker::Bullet(bullet_at(b, ms)->0), ms + 3))
    } else if ms < de <= ms + 6 && de < end && (b[de] == 0x2e || b[de] == 0x29) {
        Some((Marker::Number { n: decimal_value(b, ms, de) as u32, delim: b[de] as char }, de + 1))
    } else {
        None
    }
}

/// The list item that the paragraph from `start` to `end` is, if it is one: tabs, a marker and a
/// space.
pub open spec fn item_in(b: Seq<u8>, start: int, end: int) -> Option<ListItem> {
    let ms = tabs_end(b, start, end);
    match marker_at(b, ms, end) {
        Some((marker, me)) => if me < end && b[me] == 0x20 {
            Some(
                ListItem {
                    start: start as usize,
                    end: end as usize,
                    level: (ms - start) as usize,
                    marker,
                    marker_start: ms as usize,
                    marker_end: me as usize,
                    content_start: (me + 1) as usize,
                },
            )
        } else {
            None
        },
        None => None,
    }
}

/// The list items among the given paragraphs, in order.
pub open spec fn items_among(b: Seq<u8>, ranges: Seq<Range<usize>>) -> Seq<ListItem>
    decreases ranges.len(),
{
    if ranges.len() == 0 {
        Seq::empty()
    } else {
        let before = items_among(b, ranges.drop_last());
        match item_in(b, ranges.last().start as int, ranges.last().end as int) {
            Some(item) => before.push(item),
            None => before,
        }
    }
}

/// All list items of the text, in order.
pub open spec fn items(b: Seq<u8>) -> Seq<ListItem> {
    items_among(b, paragraphs(b))
}

/// The list item whose paragraph contains `pos`.
pub open spec fn item_at(b: Seq<u8>, pos: int) -> Option<ListItem> {
    item_in(b, para_start(b, pos), para_end(b, pos))
}

pub proof fn lemma_tabs_end(b: Seq<u8>, i: int, end: int)
    requires
        0 <= i <= end <= b.len(),
    ensures
        i <= tabs_end(b, i, end) <= end,
        forall|j: int| i <= j < tabs_end(b, i, end) ==> b[j] == 0x09,
        tabs_end(b, i, end) < end ==> b[tabs_end(b, i, end)] != 0x09,
    decreases end - i,
{
    if i < end && b[i] == 0x09 {
        lemma_tabs_end(b, i + 1, end);
    }
}

pub proof fn lemma_tabs_end_unique(b: Seq<u8>, i: int, end: int, e: int)
    requires
        0 <= i <= e <= end <= b.len(),
        forall|j: int| i <= j < e ==> b[j] == 0x09,
        e < end ==> b[e] != 0x09,
    ensures
        tabs_end(b, i, end) == e,
    decreases e - i,
{
    if i < e {
        lemma_tabs_end_unique(b, i + 1, end, e);
    }
}

pub proof fn lemma_digits_end(b: Seq<u8>, i: int, end: int)
    requires
        0 <= i <= end <= b.len(),
    ensures
        i <= digits_end(b, i, end) <= end,
        forall|j: int| i <= j < digits_end(b, i, end) ==> is_digit(b[j]),
        digits_end(b, i, end) < end ==> !is_digit(b[digits_end(b, i, end)]),
    decreases end - i,
{
    if i < end && is_digit(b[i]) {
        lemma_digits_end(b, i + 1, end);
    }
}

pub proof fn lemma_digits_end_unique(b: Seq<u8>, i: int, end: int, e: int)
    requires
        0 <= i <= e <= end <= b.len(),
        forall|j: int| i <= j < e ==> is_digit(b[j]),
        e < end ==> !is_digit(b[e]),
    ensures
        digits_end(b, i, end) == e,
    decreases e - i,
{
    if i < e {
        lemma_digits_end_unique(b, i + 1, end, e);
    }
}

/// Powers of ten bound numbers by their digits.
pub open spec fn pow10(k: nat) -> nat
    decreases k,
{
    if k == 0 {
        1
    } else {
        10 * pow10((k - 1) as nat)
    }
}

pub proof fn lemma_pow10_monotonic(j: nat, k: nat)
    requires
        j <= k,
    ensures
        pow10(j) <= pow10(k),
        1 <= pow10(j),
    decreases k,
{
    if j < k {
        lemma_pow10_monotonic(j, (k - 1) as nat);
    } else if j > 0 {
        lemma_pow10_monotonic((j - 1) as nat, (k - 1) as nat);
    }
}

pub proof fn lemma_pow10_values()
    ensures
        pow10(6) == 1_000_000,
{
    reveal_with_fuel(pow10, 7);
}

pub proof fn lemma_decimal_value_bound(b: Seq<u8>, i: int, j: int)
    requires
        0 <= i <= j <= b.len(),
        forall|k: int| i <= k < j ==> is_digit(b[k]),
    ensures
        decimal_value(b, i, j) < pow10((j - i) as nat),
    decreases j - i,
{
    if i < j {
        lemma_decimal_value_bound(b, i, j - 1);
    }
}

/// What is known of the positions of a list item.
pub open spec fn well_placed(b: Seq<u8>, item: ListItem) -> bool {
    &&& item.start + item.level == item.marker_start
    &&& item.marker_start < item.marker_end
    &&& item.marker_end + 1 == item.content_start
    &&& item.content_start <= item.end <= b.len()
    &&& bytes::at_boundary(b, item.start as int)
    &&& bytes::at_boundary(b, item.marker_start as int)
    &&& bytes::at_boundary(b, item.marker_end as int)
    &&& bytes::at_boundary(b, item.content_start as int)
    &&& bytes::at_boundary(b, item.end as int)
    &&& b[item.marker_end as int] == 0x20
    &&& forall|i: int| item.start <= i < item.marker_start ==> b[i] == 0x09
}

pub proof fn lemma_item_in(b: Seq<u8>, start: int, end: int)
    requires
        valid_utf8(b),
        b.len() <= usize::MAX,
        start <= end,
        bytes::at_boundary(b, start),
        bytes::at_boundary(b, end),
    ensures
        item_in(b, start, end) matches Some(item) ==> {
            &&& item.start == start
            &&& item.end == end
            &&& well_placed(b, item)
            &&& item.marker_start == tabs_end(b, start, end)
            &&& marker_at(b, item.marker_start as int, end) == Some(
                (item.marker, item.marker_end as int),
            )
            &&& item.marker matches Marker::Number { n, .. } ==> n < 1_000_000
        },
{
    broadcast use group_char_bytes;
    lemma_tabs_end(b, start, end);
    let ms = tabs_end(b, start, end);
    lemma_digits_end(b, ms, end);
    let de = digits_end(b, ms, end);
    if let Some(item) = item_in(b, start, end) {
        let me = item.marker_end as int;
        if ms > start {
            bytes::lemma_step(b, ms - 1);
        }
        if item.marker is Bullet {
            bytes::lemma_step(b, ms);
        } else {
            bytes::lemma_step(b, de);
            lemma_decimal_value_bound(b, ms, de);
            lemma_pow10_monotonic((de - ms) as nat, 6);
            lemma_pow10_values();
        }
        bytes::lemma_step(b, me);
    }
}

pub proof fn lemma_item_at(b: Seq<u8>, pos: int)
    requires
        valid_utf8(b),
        b.len() <= usize::MAX,
        0 <= pos <= b.len(),
    ensures
        item_at(b, pos) matches Some(item) ==> {
            &&& item.start == para_start(b, pos)
            &&& item.end == para_end(b, pos)
            &&& item.start <= pos <= item.end
            &&& well_placed(b, item)
        },
{
    lemma_para_start(b, pos);
    lemma_para_end(b, pos);
    lemma_para_boundaries(b, pos);
    lemma_item_in(b, para_start(b, pos), para_end(b, pos));
}

/// The items among the paragraphs come in order and do not overlap.
pub proof fn lemma_items_among(b: Seq<u8>, ranges: Seq<Range<usize>>)
    requires
        valid_utf8(b),
        b.len() <= usize::MAX,
        forall|k: int| 0 <= k < ranges.len() ==> is_paragraph(b, #[trigger] ranges[k]),
        forall|j: int, k: int|
            0 <= j < k < ranges.len() ==> (#[trigger] ranges[j]).end < (#[trigger] ranges[k]).start,
    ensures
        forall|k: int|
            0 <= k < items_among(b, ranges).len() ==> well_placed(
                b,
                #[trigger] items_among(b, ranges)[k],
            ) && item_in(
                b,
                items_among(b, ranges)[k].start as int,
                items_among(b, ranges)[k].end as int,
            ) == Some(items_among(b, ranges)[k]),
        forall|j: int, k: int|
            0 <= j < k < items_among(b, ranges).len() ==> (#[trigger] items_among(
                b,
                ranges,
            )[j]).end < (#[trigger] items_among(b, ranges)[k]).start,
        items_among(b, ranges).len() > 0 ==> items_among(b, ranges).last().end
            <= ranges.last().end,
    decreases ranges.len(),
{
    if ranges.len() > 0 {
        let last = ranges.last();
        lemma_items_among(b, ranges.drop_last());
        assert(is_paragraph(b, ranges[ranges.len() - 1]));
        lemma_item_in(b, last.start as int, last.end as int);
        if ranges.len() > 1 {
            assert(ranges[ranges.len() - 2].end < ranges[ranges.len() - 1].start);
        }
    }
}

/// Neighboring paragraphs are apart, so all paragraphs are.
pub proof fn lemma_paragraphs(b: Seq<u8>)
    requires
        valid_utf8(b),
        b.len() <= usize::MAX,
    ensures
        paragraphs(b).len() > 0,
        paragraphs(b)[0].start == 0,
        paragraphs(b).last().end == b.len(),
        forall|k: int| 0 <= k < paragraphs(b).len() ==> is_paragraph(b, #[trigger] paragraphs(b)[k]),
        forall|j: int, k: int|
            0 <= j && k == j + 1 && k < paragraphs(b).len() ==> (#[trigger] paragraphs(b)[j]).end
                + 1 == (#[trigger] paragraphs(b)[k]).start,
        forall|j: int, k: int|
            0 <= j < k < paragraphs(b).len() ==> (#[trigger] paragraphs(b)[j]).end < (
            #[trigger] paragraphs(b)[k]).start,
{
    lemma_paragraphs_from(b, 0);
    assert forall|j: int, k: int| 0 <= j < k < paragraphs(b).len() implies (#[trigger] paragraphs(
        b,
    )[j]).end < (#[trigger] paragraphs(b)[k]).start by {
        lemma_paragraphs_apart(b, j, k);
    }
}

proof fn lemma_paragraphs_apart(b: Seq<u8>, j: int, k: int)
    requires
        valid_utf8(b),
        b.len() <= usize::MAX,
        0 <= j < k < paragraphs(b).len(),
    ensures
        paragraphs(b)[j].end < paragraphs(b)[k].start,
    decreases k - j,
{
    lemma_paragraphs_from(b, 0);
    let p = paragraphs(b);
    assert(p[k - 1].end + 1 == p[k].start);
    assert(is_paragraph(b, p[k - 1]));
    if j < k - 1 {
        lemma_paragraphs_apart(b, j, k - 1);
    }
}

/// The list items of the text come in order and do not overlap.
pub proof fn lemma_items(b: Seq<u8>)
    requires
        valid_utf8(b),
        b.len() <= usize::MAX,
    ensures
        forall|k: int| 0 <= k < items(b).len() ==> well_placed(b, #[trigger] items(b)[k]),
        forall|j: int, k: int|
            0 <= j < k < items(b).len() ==> (#[trigger] items(b)[j]).end < (
            #[trigger] items(b)[k]).start,
{
    lemma_paragraphs(b);
    lemma_items_among(b, paragraphs(b));
}

/// Reads the paragraph as a list item, if it is one.
pub fn parse_list_item(text: &str, paragraph: Range<usize>) -> (r: Option<ListItem>)
    requires
        paragraph.start <= paragraph.end,
        bytes::at_boundary(encode_utf8(text@), paragraph.start as int),
        bytes::at_boundary(encode_utf8(text@), paragraph.end as int),
    ensures
        r == item_in(encode_utf8(text@), paragraph.start as int, paragraph.end as int),
{
    broadcast use group_char_bytes;

    let b = text.as_bytes();
    let n: usize = b.len();
    let start: usize = paragraph.start;
    let end: usize = paragraph.end;
    let mut ms: usize = start;
    while ms < end && b[ms] == 0x09
        invariant
            n == b@.len(),
            start <= ms <= end <= n,
            tabs_end(b@, start as int, end as int) == tabs_end(b@, ms as int, end as int),
        decreases end - ms,
    {
        ms += 1;
    }
    let (marker, me): (Marker, usize) = if end - ms >= 3 && has_three(b, ms, 0xe2, 0x80, 0xa2) {
        (Marker::Bullet('•'), ms + 3)
    } else if end - ms >= 3 && has_three(b, ms, 0xe2, 0x97, 0xa6) {
        (Marker::Bullet('◦'), ms + 3)
    } else if end - ms >= 3 && has_three(b, ms, 0xe2, 0x96, 0xaa) {
        (Marker::Bullet('▪'), ms + 3)
    } else {
        let mut de: usize = ms;
        let mut value: u32 = 0;
        proof {
            lemma_pow10_values();
        }
        while de < end && de - ms < 7 && b[de] >= 0x30 && b[de] <= 0x39
            invariant
                n == b@.len(),
                ms <= de <= end <= n,
                de - ms <= 7,
                forall|j: int| ms <= j < de ==> is_digit(b@[j]),
                digits_end(b@, ms as int, end as int) == digits_end(b@, de as int, end as int),
                de - ms <= 6 ==> value == decimal_value(b@, ms as int, de as int),
                value < 10_000_000,
                de - ms <= 6 ==> value < 1_000_000,
            decreases end - de,
        {
            let d: u32 = (b[de] - 0x30) as u32;
            value = value * 10 + d;
            de += 1;
            proof {
                lemma_decimal_value_bound(b@, ms as int, de as int);
                if de - ms <= 6 {
                    lemma_pow10_monotonic((de - ms) as nat, 6);
                    lemma_pow10_values();
                }
            }
        }
        proof {
            lemma_digits_end(b@, de as int, end as int);
        }
        if de == ms || de - ms > 6 || de == end || (b[de] != 0x2e && b[de] != 0x29) {
            return None;
        }
        (Marker::Number { n: value, delim: b[de] as char }, de + 1)
    };
    if me == end || b[me] != 0x20 {
        return None;
    }
    Some(
        ListItem {
            start,
            end,
            level: ms - start,
            marker,
            marker_start: ms,
            marker_end: me,
            content_start: me + 1,
        },
    )
}

/// All list items of the text, in order.
pub fn list_items(text: &str) -> (r: Vec<ListItem>)
    ensures
        r@ == items(encode_utf8(text@)),
{
    let ghost b = encode_utf8(text@);
    let _len: usize = text.as_bytes().len();
    proof {
        encode_utf8_valid_utf8(text@);
        lemma_paragraphs(b);
    }
    let ranges = paragraph_ranges(text);
    let mut found: Vec<ListItem> = Vec::new();
    let mut k: usize = 0;
    while k < ranges.len()
        invariant
            b == encode_utf8(text@),
            ranges@ == paragraphs(b),
            k <= ranges@.len(),
            forall|j: int| 0 <= j < ranges@.len() ==> is_paragraph(b, #[trigger] ranges@[j]),
            found@ == items_among(b, ranges@.take(k as int)),
        decreases ranges@.len() - k,
    {
        assert(is_paragraph(b, ranges@[k as int]));
        assert(ranges@.take(k + 1).drop_last() =~= ranges@.take(k as int));
        let start: usize = ranges[k].start;
        let end: usize = ranges[k].end;
        if let Some(item) = parse_list_item(text, Range { start, end }) {
            found.push(item);
        }
        k += 1;
    }
    assert(ranges@.take(k as int) =~= ranges@);
    found
}

/// The list item whose paragraph contains `pos`.
pub fn list_item_at(text: &str, pos: usize) -> (r: Option<ListItem>)
    requires
        bytes::at_boundary(encode_utf8(text@), pos as int),
    ensures
        r == item_at(encode_utf8(text@), pos as int),
{
    let b = text.as_bytes();
    let n: usize = b.len();
    let mut start: usize = pos;
    while start > 0 && b[start - 1] != 0x0a
        invariant
            n == b@.len(),
            start <= pos <= n,
            para_start(b@, start as int) == para_start(b@, pos as int),
        decreases start,
    {
        start -= 1;
    }
    let mut end: usize = pos;
    while end < n && b[end] != 0x0a
        invariant
            n == b@.len(),
            pos <= end <= n,
            para_end(b@, end as int) == para_end(b@, pos as int),
        decreases n - end,
    {
        end += 1;
    }
    proof {
        encode_utf8_valid_utf8(text@);
        lemma_para_boundaries(b@, pos as int);
    }
    parse_list_item(text, Range { start, end })
}

} // verus!
