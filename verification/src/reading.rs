//! How texts are read as lists.

use crate::bytes;
use crate::edit::EditModel;
use crate::levels;
use crate::marker;
use crate::numbering;
use crate::renumber;
use crate::softbreak;
use crate::syntax;
use crate::syntax::Marker;
use crate::whitespace;
use vstd::prelude::*;
use vstd::utf8::*;

verus! {

broadcast use syntax::group_char_bytes;

// ---------------------------------------------------------------------------------------------
// Items

/// A list item starts with tabs, as many as its level, followed by its marker and a space. The marker is
/// one of the bullets, or a number of one to six digits with a dot or a bracket.
pub proof fn law_items_start_with_a_marker(b: Seq<u8>, start: int, end: int)
    requires
        valid_utf8(b),
        b.len() <= usize::MAX,
        start <= end,
        bytes::at_boundary(b, start),
        bytes::at_boundary(b, end),
    ensures
        syntax::item_in(b, start, end) matches Some(item) ==> {
            let ms = start + item.level;
            let me = item.content_start - 1;
            &&& item.start == start
            &&& item.end == end
            &&& start <= ms < me < end <= b.len()
            &&& forall|i: int| start <= i < ms ==> b[i] == 0x09
            &&& item.marker_start == ms
            &&& item.marker_end == me
            &&& b[me] == 0x20
            &&& item.marker matches Marker::Bullet(c) ==> (c == '•' || c == '◦' || c == '▪')
                && b.subrange(ms, me) == encode_utf8(seq![c])
            &&& item.marker matches Marker::Number { n, delim } ==> {
                &&& delim == '.' || delim == ')'
                &&& b[me - 1] == delim as u8
                &&& 1 <= me - 1 - ms <= 6
                &&& forall|i: int| ms <= i < me - 1 ==> 0x30 <= #[trigger] b[i] <= 0x39
                &&& n == syntax::decimal_value(b, ms, me - 1)
            }
        },
{
    syntax::lemma_item_in(b, start, end);
    if let Some(item) = syntax::item_in(b, start, end) {
        let ms = item.marker_start as int;
        syntax::lemma_digits_end(b, ms, end);
        match item.marker {
            Marker::Bullet(c) => {
                syntax::lemma_encodings();
                bytes::lemma_encode_one(c);
                assert(b.subrange(ms, ms + 3) =~= encode_utf8(seq![c]));
            },
            Marker::Number { n, delim } => {
                let de = syntax::digits_end(b, ms, end);
                assert forall|i: int| ms <= i < de implies 0x30 <= #[trigger] b[i] <= 0x39 by {
                    assert(syntax::is_digit(b[i]));
                }
                syntax::lemma_decimal_value_bound(b, ms, de);
                syntax::lemma_pow10_monotonic((de - ms) as nat, 6);
                syntax::lemma_pow10_values();
            },
        }
    }
}

/// Every paragraph that starts with tabs, a bullet and a space is a list item.
pub proof fn law_bullets_make_items(b: Seq<u8>, start: int, level: int, end: int, c: char)
    requires
        0 <= start <= start + level,
        start + level + 4 <= end <= b.len() <= usize::MAX,
        forall|i: int| start <= i < start + level ==> #[trigger] b[i] == 0x09,
        c == '•' || c == '◦' || c == '▪',
        b.subrange(start + level, start + level + 3) == encode_utf8(seq![c]),
        b[start + level + 3] == 0x20,
    ensures
        syntax::item_in(b, start, end) matches Some(item) && item.level == level && item.marker
            == Marker::Bullet(c) && item.content_start == start + level + 4,
{
    let ms = start + level;
    let w = b.subrange(ms, ms + 3);
    syntax::lemma_encodings();
    bytes::lemma_encode_one(c);
    assert(b[ms] == w[0]);
    assert(b[ms + 1] == w[1]);
    assert(b[ms + 2] == w[2]);
    syntax::lemma_tabs_end_unique(b, start, end, ms);
}

/// Every paragraph that starts with tabs, one to six digits, a dot or a bracket, and a space is a list
/// item, with the number that the digits make.
pub proof fn law_numbers_make_items(b: Seq<u8>, start: int, level: int, digits: int, end: int)
    requires
        0 <= start <= start + level,
        1 <= digits <= 6,
        start + level + digits + 2 <= end <= b.len() <= usize::MAX,
        forall|i: int| start <= i < start + level ==> #[trigger] b[i] == 0x09,
        forall|i: int|
            start + level <= i < start + level + digits ==> 0x30 <= #[trigger] b[i] <= 0x39,
        b[start + level + digits] == 0x2e || b[start + level + digits] == 0x29,
        b[start + level + digits + 1] == 0x20,
    ensures
        syntax::item_in(b, start, end) matches Some(item) && item.level == level && item.content_start
            == start + level + digits + 2 && (item.marker matches Marker::Number { n, delim } && n
            == syntax::decimal_value(b, start + level, start + level + digits) && delim
            == b[start + level + digits] as char),
{
    let ms = start + level;
    let de = ms + digits;
    assert(0x30 <= b[ms] <= 0x39);
    syntax::lemma_tabs_end_unique(b, start, end, ms);
    assert forall|i: int| ms <= i < de implies syntax::is_digit(#[trigger] b[i]) by {
        assert(0x30 <= b[i] <= 0x39);
    }
    syntax::lemma_digits_end_unique(b, ms, end, de);
    syntax::lemma_decimal_value_bound(b, ms, de);
    syntax::lemma_pow10_monotonic(digits as nat, 6);
    syntax::lemma_pow10_values();
}

/// Numbers are written and read in the decimal system: a further digit makes ten times the number, and
/// the digit more.
pub proof fn law_numbers_are_decimal(b: Seq<u8>, i: int, j: int, n: nat, d: int)
    requires
        0 <= i <= j < b.len(),
        b[j] == 0x30 + d,
        0 <= d <= 9,
    ensures
        syntax::decimal_value(b, i, i) == 0,
        syntax::decimal_value(b, i, j + 1) == 10 * syntax::decimal_value(b, i, j) + d,
        marker::decimal(d as nat) == seq![(0x30 + d) as char],
        n > 0 ==> marker::decimal((10 * n + d) as nat) == marker::decimal(n).push((0x30 + d) as char),
{
}

/// The list item at a position is the paragraph around it, from the newline in front of the position to
/// the one behind it.
pub proof fn law_the_item_at_a_position_is_its_paragraph(b: Seq<u8>, start: int, pos: int, end: int)
    requires
        0 <= start <= pos <= end <= b.len(),
        start == 0 || b[start - 1] == 0x0a,
        end == b.len() || b[end] == 0x0a,
        forall|i: int| start <= i < end ==> #[trigger] b[i] != 0x0a,
    ensures
        syntax::item_at(b, pos) == syntax::item_in(b, start, end),
{
    syntax::lemma_para_start_unique(b, pos, start);
    syntax::lemma_para_end_unique(b, pos, end);
}

/// All items of a text are found: the item at a position is among them, and each of them is the item at
/// its positions.
pub proof fn law_all_items_are_found(b: Seq<u8>, pos: int)
    requires
        valid_utf8(b),
        b.len() <= usize::MAX,
        0 <= pos <= b.len(),
    ensures
        syntax::item_at(b, pos) matches Some(item) ==> syntax::items(b).contains(item),
        forall|k: int|
            0 <= k < syntax::items(b).len() && (#[trigger] syntax::items(b)[k]).start <= pos
                <= syntax::items(b)[k].end ==> syntax::item_at(b, pos) == Some(syntax::items(b)[k]),
{
    syntax::lemma_paragraphs(b);
    let p = syntax::paragraphs(b);
    let n = levels::lemma_paragraph_of(b, 0, pos);
    assert(syntax::is_paragraph(b, p[n]));
    law_the_item_at_a_position_is_its_paragraph(b, p[n].start as int, pos, p[n].end as int);
    if syntax::item_at(b, pos) is Some {
        levels::lemma_items_are_found(b, p, n);
    }
    assert forall|k: int|
        0 <= k < syntax::items(b).len() && (#[trigger] syntax::items(b)[k]).start <= pos
            <= syntax::items(b)[k].end implies syntax::item_at(b, pos) == Some(
        syntax::items(b)[k],
    ) by {
        let j = levels::lemma_items_are_paragraphs(b, p, k);
        assert(syntax::is_paragraph(b, p[j]));
        syntax::lemma_item_in(b, p[j].start as int, p[j].end as int);
        law_the_item_at_a_position_is_its_paragraph(b, p[j].start as int, pos, p[j].end as int);
    }
}

// ---------------------------------------------------------------------------------------------
// Numbers

/// Renumbering changes nothing but the numbers of items: the tabs in front of a number stay, and so does
/// everything from the dot or the bracket behind it on. Items with bullets stay as they are.
pub proof fn law_only_numbers_change(m: EditModel, k: int)
    requires
        valid_utf8(m.text),
        m.text.len() <= usize::MAX,
        m.renumbered().text.len() <= usize::MAX,
        0 <= k < syntax::paragraphs(m.text).len(),
    ensures
        numbering::item_of(m.text, k) matches Some(x) ==> {
            let p = numbering::paragraph(m.text, k);
            let q = numbering::paragraph(m.renumbered().text, k);
            let behind = x.content_start - x.start - 2;
            let more = q.len() - p.len();
            &&& x.marker is Bullet ==> q == p
            &&& x.marker is Number ==> {
                &&& x.level < behind + more <= q.len()
                &&& forall|i: int| 0 <= i < x.level ==> q[i] == p[i]
                &&& forall|i: int| x.level <= i < behind + more ==> 0x30 <= #[trigger] q[i] <= 0x39
                &&& forall|i: int| behind <= i < p.len() ==> q[i + more] == #[trigger] p[i]
            }
        },
{
    let b = m.text;
    syntax::lemma_paragraphs(b);
    let r = syntax::paragraphs(b)[k];
    assert(syntax::is_paragraph(b, r));
    numbering::lemma_renumbered_paragraph(m, k);
    law_items_start_with_a_marker(b, r.start as int, r.end as int);
    if let Some(x) = numbering::item_of(b, k) {
        let counters = renumber::counters(b, syntax::paragraphs(b).take(k));
        if let Marker::Number { n, delim } = x.marker {
            if let Some(e) = renumber::number_edit(counters, x) {
                let wanted = renumber::wanted_number(
                    renumber::counters_up_to(counters, x.level as int)[x.level as int],
                    n,
                );
                let digits = encode_utf8(marker::decimal(wanted as nat));
                numbering::law_numbers_are_read_as_written(wanted as nat);
                bytes::lemma_encode_one(delim);
                bytes::lemma_utf8_ascii(delim);
                bytes::lemma_encode_concat(marker::decimal(wanted as nat), seq![delim]);
                assert((Marker::Number { n: wanted, delim }).chars() =~= marker::decimal(wanted as nat)
                    + seq![delim]);
                assert(e.text == digits + seq![delim as u8]);
                let p = numbering::paragraph(b, k);
                let q = numbering::paragraph(m.renumbered().text, k);
                let ms = x.level as int;
                let behind = x.content_start - x.start - 2;
                assert(q == bytes::splice(p, ms, behind + 1, e.text));
                assert forall|i: int| ms <= i < ms + digits.len() implies 0x30 <= #[trigger] q[i]
                    <= 0x39 by {
                    assert(q[i] == digits[i - ms]);
                    assert(syntax::is_digit(digits[i - ms]));
                }
            } else {
                let p = numbering::paragraph(b, k);
                assert forall|i: int| x.level <= i < x.content_start - x.start - 2 implies 0x30
                    <= #[trigger] p[i] <= 0x39 by {
                    assert(p[i] == b[r.start + i]);
                }
            }
        }
    }
}

// ---------------------------------------------------------------------------------------------
// Indentation and white space

/// The indentation behind a position consists of spaces and hair spaces, and of all that stand there.
pub proof fn law_indentation_ends_at_other_characters(b: Seq<u8>, i: int)
    requires
        0 <= i <= b.len(),
    ensures
        ({
            let end = softbreak::indent_end(b, i);
            &&& i <= end <= b.len()
            &&& end < b.len() ==> b[end] != 0x20
            &&& !bytes::has_at(b, end, encode_utf8(seq![syntax::HAIR_SPACE]))
            &&& i < b.len() && b[i] == 0x20 ==> end == softbreak::indent_end(b, i + 1) && end > i
            &&& bytes::has_at(b, i, encode_utf8(seq![syntax::HAIR_SPACE])) ==> end
                == softbreak::indent_end(b, i + 3) && end > i
        }),
{
    let end = softbreak::indent_end(b, i);
    softbreak::lemma_indent_end(b, i);
    bytes::lemma_encode_one(syntax::HAIR_SPACE);
    reveal(syntax::hair_at);
    assert(syntax::hair_at(b, end) == bytes::has_at(b, end, bytes::utf8(syntax::HAIR_SPACE)));
    assert(syntax::hair_at(b, i) == bytes::has_at(b, i, bytes::utf8(syntax::HAIR_SPACE)));
    if i < b.len() && b[i] == 0x20 {
        softbreak::lemma_indent_end(b, i + 1);
    }
    if syntax::hair_at(b, i) {
        softbreak::lemma_indent_end(b, i + 3);
    }
    if end < b.len() && b[end] == 0x20 {
        softbreak::lemma_indent_end(b, end + 1);
    }
    if syntax::hair_at(b, end) {
        softbreak::lemma_indent_end(b, end + 3);
    }
}

/// A text is blank when all its parts are. Spaces and tabs are, and so are the characters that lists
/// are indented with. Visible characters are not.
pub proof fn law_blank_texts_have_blank_parts(one: Seq<char>, other: Seq<char>, c: char)
    ensures
        whitespace::blank(one + other) <==> whitespace::blank(one) && whitespace::blank(other),
        whitespace::blank(Seq::empty()),
        c == ' ' || c == '\t' || c == '\n' || c == syntax::HAIR_SPACE || c == syntax::SOFT_BREAK
            ==> whitespace::blank(seq![c]),
        '!' <= c <= '~' || c == '•' || c == '◦' || c == '▪' ==> !whitespace::blank(seq![c]),
{
    let both = one + other;
    if whitespace::blank(both) {
        assert forall|i: int| 0 <= i < one.len() implies whitespace::white_space(#[trigger] one[i]) by {
            assert(both[i] == one[i]);
        }
        assert forall|i: int| 0 <= i < other.len() implies whitespace::white_space(
            #[trigger] other[i],
        ) by {
            assert(both[one.len() + i] == other[i]);
        }
    }
    assert(seq![c][0] == c);
}

/// Wrapped lines are indented with spaces and hair spaces, and with nothing else.
pub proof fn law_only_spaces_indent(c: char)
    ensures
        syntax::indents(c) <==> c == ' ' || c == '\u{200a}',
        syntax::indents(c) ==> whitespace::white_space(c),
{
}

} // verus!
