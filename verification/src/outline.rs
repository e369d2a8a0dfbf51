//! The levels of list items when lists are brought up to date.

use crate::bytes;
use crate::edit;
use crate::edit::{Edit, EditModel, TextStroke};
use crate::levels;
use crate::lists;
use crate::lists::TextCursor;
use crate::numbering;
use crate::plain;
use crate::reading;
use crate::reflow;
use crate::reflow::Line;
use crate::renumber;
use crate::softbreak;
use crate::syntax;
use crate::syntax::{ListItem, Marker};
use vstd::prelude::*;
use vstd::utf8::*;

verus! {

broadcast use syntax::group_char_bytes;

/// Whether the other text has as many paragraphs, and those that are list items are items of the same
/// level with the same marker.
pub open spec fn outline_kept(b: Seq<u8>, c: Seq<u8>) -> bool {
    &&& syntax::paragraphs(c).len() == syntax::paragraphs(b).len()
    &&& forall|k: int|
        0 <= k < syntax::paragraphs(b).len() && (#[trigger] numbering::item_of(b, k)) is Some
            ==> same_place(numbering::item_of(b, k), numbering::item_of(c, k))
}

/// Whether two items have the same level and the same marker.
pub open spec fn same_place(one: Option<ListItem>, other: Option<ListItem>) -> bool {
    other is Some && other->0.level == one->0.level && other->0.marker == one->0.marker
}

/// A paragraph that starts as an item does, up to its text, is such an item too.
proof fn lemma_same_start(b: Seq<u8>, start: int, end: int, c: Seq<u8>, other: int)
    requires
        valid_utf8(b),
        b.len() <= usize::MAX,
        start <= end,
        bytes::at_boundary(b, start),
        bytes::at_boundary(b, end),
        syntax::item_in(b, start, end) is Some,
        syntax::item_in(b, start, end)->0.content_start <= other <= c.len() <= usize::MAX,
        forall|i: int|
            start <= i < syntax::item_in(b, start, end)->0.content_start ==> #[trigger] c[i] == b[i],
    ensures
        same_place(syntax::item_in(b, start, end), syntax::item_in(c, start, other)),
{
    let item = syntax::item_in(b, start, end)->0;
    reading::law_items_start_with_a_marker(b, start, end);
    let ms = start + item.level;
    let me = item.content_start - 1;
    assert(c[me] == b[me]);
    assert forall|i: int| start <= i < ms implies #[trigger] c[i] == 0x09 by {
        assert(b[i] == 0x09);
    }
    match item.marker {
        Marker::Bullet(x) => {
            bytes::lemma_encode_one(x);
            syntax::lemma_encodings();
            assert(b.subrange(ms, me).len() == 3);
            assert(c.subrange(ms, ms + 3) =~= b.subrange(ms, me));
            reading::law_bullets_make_items(c, start, item.level as int, other, x);
        },
        Marker::Number { n, delim } => {
            let digits = me - 1 - ms;
            assert(c[me - 1] == b[me - 1]);
            assert forall|i: int| ms <= i < ms + digits implies 0x30 <= #[trigger] c[i] <= 0x39 by {
                assert(0x30 <= b[i] <= 0x39);
            }
            reading::law_numbers_make_items(c, start, item.level as int, digits, other);
            assert(numbering::same_bytes(b, ms, ms + digits, c, 0));
            numbering::lemma_decimal_value_shift(b, ms, ms + digits, c, 0);
        },
    }
}

/// A paragraph that is edited starts where it did, and its end moves along.
proof fn lemma_edited_paragraph(b: Seq<u8>, s: int, e: int, text: Seq<u8>, start: int, k: int)
    requires
        0 <= start <= s <= e <= b.len() <= usize::MAX,
        bytes::splice(b, s, e, text).len() <= usize::MAX,
        forall|i: int| 0 <= i < text.len() ==> #[trigger] text[i] != 0x0a,
        forall|i: int| s <= i < e ==> b[i] != 0x0a,
        0 <= k < syntax::paragraphs_from(b, start).len(),
        syntax::paragraphs_from(b, start)[k].start <= s,
        e <= syntax::paragraphs_from(b, start)[k].end,
    ensures
        ({
            let c = bytes::splice(b, s, e, text);
            let r = syntax::paragraphs_from(b, start)[k];
            let q = syntax::paragraphs_from(c, start)[k];
            &&& k < syntax::paragraphs_from(c, start).len()
            &&& q.start == r.start
            &&& q.end == r.end + text.len() - (e - s)
        }),
    decreases b.len() - start,
{
    let c = bytes::splice(b, s, e, text);
    let d = text.len() - (e - s);
    let end = syntax::para_end(b, start);
    syntax::lemma_para_end(b, start);
    assert(c.len() == b.len() + d);
    assert forall|i: int| 0 <= i < s implies c[i] == b[i] by {}
    assert forall|i: int| e <= i < b.len() implies #[trigger] b[i] == c[i + d] by {}
    if end < s {
        assert forall|i: int| start <= i < end implies c[i] != 0x0a by {
            assert(b[i] != 0x0a);
        }
        syntax::lemma_para_end_unique(c, start, end);
        assert(syntax::paragraphs_from(b, start)[0].end == end);
        assert(syntax::paragraphs_from(b, start)[k] == syntax::paragraphs_from(b, end + 1)[k - 1]);
        lemma_edited_paragraph(b, s, e, text, end + 1, k - 1);
        assert(syntax::paragraphs_from(c, start)[k] == syntax::paragraphs_from(c, end + 1)[k - 1]);
    } else {
        assert(e <= end) by {
            if end < e {
                assert(b[end] != 0x0a);
            }
        }
        assert forall|i: int| start <= i < end + d implies c[i] != 0x0a by {
            if i < s {
                assert(b[i] != 0x0a);
            } else if i < s + text.len() {
                assert(c[i] == text[i - s]);
            } else {
                assert(b[i - d] == c[i - d + d]);
            }
        }
        if end < b.len() {
            assert(b[end] == c[end + d]);
        }
        syntax::lemma_para_end_unique(c, start, end + d);
        if k > 0 {
            assert(syntax::paragraphs_from(b, start)[k] == syntax::paragraphs_from(b, end + 1)[k
                - 1]);
            plain::lemma_paragraphs_shift(b, end + 1, b, 0);
        }
    }
}

/// Taking out an automatic line break keeps the levels and the markers of items.
proof fn lemma_removal_keeps_outline(b: Seq<u8>, s: int, e: int)
    requires
        valid_utf8(b),
        0 <= s,
        s + 3 <= e <= b.len() <= usize::MAX,
        syntax::soft_break_at(b, s),
        forall|i: int| s <= i < e ==> b[i] != 0x0a,
    ensures
        outline_kept(b, bytes::splice(b, s, e, Seq::empty())),
{
    let text = Seq::<u8>::empty();
    let c = bytes::splice(b, s, e, text);
    let p = syntax::paragraphs(b);
    plain::lemma_edit_in_paragraph(b, s, e, text, 0);
    syntax::lemma_paragraphs(b);
    assert forall|k: int|
        0 <= k < p.len() && (#[trigger] numbering::item_of(b, k)) is Some implies same_place(
        numbering::item_of(b, k),
        numbering::item_of(c, k),
    ) by {
        let r = p[k];
        let q = syntax::paragraphs(c)[k];
        assert(syntax::is_paragraph(b, p[k]));
        if r.start <= s && e <= r.end {
            syntax::lemma_para_start_unique(b, s, r.start as int);
            syntax::lemma_para_end_unique(b, s, r.end as int);
            lists::lemma_break_in_item(b, s);
            lemma_edited_paragraph(b, s, e, text, 0, k);
            lemma_same_start(b, r.start as int, r.end as int, c, q.end as int);
        } else {
            let x = b.subrange(r.start as int, r.end as int);
            let y = c.subrange(q.start as int, q.end as int);
            assert(x == y);
            lemma_bounds(c, k);
            assert forall|i: int| r.start <= i < r.end implies #[trigger] b[i] == c[i + (q.start
                - r.start)] by {
                assert(x[i - r.start] == y[i - r.start]);
            }
            assert(x.len() == y.len());
            numbering::lemma_item_in_shift(
                b,
                r.start as int,
                r.end as int,
                c,
                q.start - r.start,
            );
        }
    }
}

/// Paragraphs lie in the text.
proof fn lemma_bounds(c: Seq<u8>, k: int)
    requires
        c.len() <= usize::MAX,
        0 <= k < syntax::paragraphs(c).len(),
    ensures
        syntax::paragraphs(c)[k].start <= syntax::paragraphs(c)[k].end <= c.len(),
{
    plain::lemma_paragraphs_shift(c, 0, c, 0);
}

/// Edits that take out automatic line breaks.
spec fn take_out_breaks(b: Seq<u8>, edits: Seq<Edit>) -> bool {
    &&& edit::edits_fit(b, edits)
    &&& forall|k: int| 0 <= k < edits.len() ==> takes_out_break(b, #[trigger] edits[k])
}

spec fn takes_out_break(b: Seq<u8>, e: Edit) -> bool {
    &&& e.text.len() == 0
    &&& 0 <= e.start
    &&& e.start + 3 <= e.end <= b.len()
    &&& syntax::soft_break_at(b, e.start)
    &&& forall|i: int| e.start <= i < e.end ==> b[i] != 0x0a
}

/// Taking out automatic line breaks keeps the levels and the markers of items.
proof fn lemma_removals_keep_outline(m: EditModel, edits: Seq<Edit>)
    requires
        valid_utf8(m.text),
        m.text.len() <= usize::MAX,
        take_out_breaks(m.text, edits),
    ensures
        outline_kept(m.text, m.edited_all(edits).text),
    decreases edits.len(),
{
    if edits.len() == 0 {
        assert forall|k: int|
            0 <= k < syntax::paragraphs(m.text).len() && (#[trigger] numbering::item_of(
                m.text,
                k,
            )) is Some implies same_place(
            numbering::item_of(m.text, k),
            numbering::item_of(m.text, k),
        ) by {}
    } else {
        let b = m.text;
        let last = edits.last();
        let rest = edits.drop_last();
        assert(takes_out_break(b, edits[edits.len() - 1]));
        assert(edits[edits.len() - 1].fits(b));
        assert(last.text =~= Seq::<u8>::empty());
        let c = m.edited(last).text;
        bytes::lemma_splice(b, last.start, last.end, last.text);
        edit::lemma_edits_fit_rest(b, edits);
        lemma_removal_keeps_outline(b, last.start, last.end);
        assert forall|k: int| 0 <= k < rest.len() implies takes_out_break(c, #[trigger] rest[k]) by {
            let e = rest[k];
            assert(e == edits[k]);
            assert(takes_out_break(b, edits[k]));
            assert(edits[k].end <= edits[edits.len() - 1].start);
            assert forall|i: int| e.start <= i < e.end implies c[i] == b[i] by {}
            assert(c[e.start] == b[e.start] && c[e.start + 1] == b[e.start + 1] && c[e.start + 2]
                == b[e.start + 2]);
        }
        lemma_removals_keep_outline(m.edited(last), rest);
        let d = m.edited_all(edits).text;
        assert forall|k: int|
            0 <= k < syntax::paragraphs(b).len() && (#[trigger] numbering::item_of(
                b,
                k,
            )) is Some implies same_place(numbering::item_of(b, k), numbering::item_of(d, k)) by {
            assert(same_place(numbering::item_of(b, k), numbering::item_of(c, k)));
            assert(numbering::item_of(c, k) is Some);
        }
    }
}

/// Without its automatic line breaks a text has its items, of the same levels and with the same markers.
pub proof fn law_removing_soft_breaks_keeps_levels(m: EditModel)
    requires
        valid_utf8(m.text),
        m.text.len() <= usize::MAX,
    ensures
        outline_kept(m.text, softbreak::stripped(m.text)),
{
    let b = m.text;
    let breaks = softbreak::soft_breaks(b);
    let edits = renumber::removals(breaks);
    renumber::lemma_removals(b);
    renumber::law_removing_soft_breaks_strips_the_text(m);
    lemma_breaks(b, 0);
    assert forall|k: int| 0 <= k < edits.len() implies takes_out_break(b, #[trigger] edits[k]) by {
        assert(is_break(b, breaks[k]));
        softbreak::lemma_indent_end(b, breaks[k].start + 3);
    }
    lemma_removals_keep_outline(m, edits);
}

spec fn is_break(b: Seq<u8>, r: core::ops::Range<usize>) -> bool {
    syntax::soft_break_at(b, r.start as int) && r.end == softbreak::indent_end(b, r.start + 3)
}

proof fn lemma_breaks(b: Seq<u8>, i: int)
    requires
        0 <= i <= b.len() <= usize::MAX,
    ensures
        forall|k: int|
            0 <= k < softbreak::soft_breaks_from(b, i).len() ==> is_break(
                b,
                #[trigger] softbreak::soft_breaks_from(b, i)[k],
            ),
    decreases b.len() - i,
{
    if i < b.len() {
        if syntax::soft_break_at(b, i) {
            softbreak::lemma_indent_end(b, i + 3);
            lemma_breaks(b, i + 3);
            let rest = softbreak::soft_breaks_from(b, i + 3);
            let all = softbreak::soft_breaks_from(b, i);
            assert forall|k: int| 0 <= k < all.len() implies is_break(b, #[trigger] all[k]) by {
                if k > 0 {
                    assert(all[k] == rest[k - 1]);
                }
            }
        } else {
            lemma_breaks(b, i + 1);
            assert(softbreak::soft_breaks_from(b, i) == softbreak::soft_breaks_from(b, i + 1));
        }
    } else {
        assert(softbreak::soft_breaks_from(b, i).len() == 0);
    }
}

/// Renumbering keeps the levels of items, and the delimiters of their numbers. Only numbers that get more
/// than six digits make no items any more.
pub proof fn law_renumbering_keeps_levels(m: EditModel, k: int)
    requires
        valid_utf8(m.text),
        m.text.len() <= usize::MAX,
        m.renumbered().text.len() <= usize::MAX,
        0 <= k < syntax::paragraphs(m.text).len(),
        numbering::item_of(m.text, k) is Some,
    ensures
        ({
            let x = numbering::item_of(m.text, k)->0;
            let y = numbering::item_of(m.renumbered().text, k);
            &&& x.marker is Bullet ==> y is Some && y->0.marker == x.marker
            &&& y is Some ==> y->0.level == x.level && (y->0.marker is Bullet <==> x.marker is Bullet)
        }),
{
    let b = m.text;
    let c = m.renumbered().text;
    let p = numbering::paragraph(b, k);
    let r = syntax::paragraphs(b)[k];
    let x = numbering::item_of(b, k)->0;
    reading::law_only_numbers_change(m, k);
    assert(syntax::paragraphs(c).len() == syntax::paragraphs(b).len()) by {
        numbering::lemma_renumbered_paragraph(m, k);
    }
    if x.marker is Bullet {
        lemma_same_paragraph(b, c, k);
    } else {
        assert(forall|i: int| 0 <= i < x.level ==> #[trigger] p[i] == 0x09) by {
            syntax::lemma_paragraphs(b);
            assert(syntax::is_paragraph(b, syntax::paragraphs(b)[k]));
            reading::law_items_start_with_a_marker(b, r.start as int, r.end as int);
            assert forall|i: int| 0 <= i < x.level implies #[trigger] p[i] == 0x09 by {
                assert(p[i] == b[r.start + i]);
            }
        }
        lemma_numbered(c, k, x.level as int);
    }
}

/// Tabs and a digit can only start an item of that level with a number.
proof fn lemma_numbered(c: Seq<u8>, k: int, level: int)
    requires
        c.len() <= usize::MAX,
        0 <= k < syntax::paragraphs(c).len(),
        0 <= level < numbering::paragraph(c, k).len(),
        forall|i: int| 0 <= i < level ==> numbering::paragraph(c, k)[i] == 0x09,
        0x30 <= numbering::paragraph(c, k)[level] <= 0x39,
    ensures
        numbering::item_of(c, k) matches Some(y) ==> y.level == level && y.marker is Number,
{
    let q = numbering::paragraph(c, k);
    let s = syntax::paragraphs(c)[k];
    lemma_bounds(c, k);
    assert(q[level] == c[s.start + level]);
    assert forall|i: int| s.start <= i < s.start + level implies c[i] == 0x09 by {
        assert(q[i - s.start] == 0x09);
    }
    syntax::lemma_tabs_end_unique(c, s.start as int, s.end as int, s.start + level);
}

/// Bringing lists up to date keeps the levels of items. The levels are those of the text without its
/// automatic line breaks, when the layout does not wrap lines in front of spaces.
pub proof fn law_updating_keeps_levels<L: Fn(&TextStroke) -> Option<Vec<Line>>>(
    layout: L,
    m: EditModel,
    base: TextStroke,
    to: TextStroke,
    end: Seq<usize>,
    k: int,
)
    requires
        reflow::lays_out(layout),
        reflow::wraps_behind_spaces(layout),
        valid_utf8(m.text),
        m.text.len() <= usize::MAX,
        m.relaid().text.len() <= usize::MAX,
        lists::relayout_leads_to(layout, m, base, to, end),
        0 <= k < syntax::paragraphs(m.text).len(),
        numbering::item_of(m.text, k) is Some,
    ensures
        ({
            let x = numbering::item_of(m.text, k)->0;
            let y = numbering::item_of(softbreak::stripped(encode_utf8(to.text@)), k);
            &&& x.marker is Bullet ==> y is Some && y->0.marker == x.marker
            &&& y is Some ==> y->0.level == x.level && (y->0.marker is Bullet <==> x.marker is Bullet)
        }),
{
    let relaid = choose|relaid: TextStroke| #[trigger]
        relaid.model(m.relaid().positions) == m.relaid() && relaid.same_base_style(&base)
            && reflow::reflowed(layout, relaid, m.relaid().positions, to, end);
    let stripped = m.without_soft_breaks().with_merged_attrs();
    law_removing_soft_breaks_keeps_levels(m);
    assert(same_place(
        numbering::item_of(m.text, k),
        numbering::item_of(softbreak::stripped(m.text), k),
    ));
    renumber::law_removing_soft_breaks_strips_the_text(m);
    renumber::lemma_removals(m.text);
    edit::lemma_edited_all_text(m, renumber::removals(softbreak::soft_breaks(m.text)));
    softbreak::lemma_stripped_len(m.text, 0);
    assert(encode_utf8(relaid.text@) == m.relaid().text);
    law_renumbering_keeps_levels(stripped, k);
    lists::law_lists_are_copied_without_soft_breaks(layout, m, base, to, end);
}

// ---------------------------------------------------------------------------------------------
// Indenting and outdenting

/// Where the selection ends that starts at the cursor: at the cursor itself where nothing is selected.
pub open spec fn other_end(cursors: (TextCursor, Option<TextCursor>)) -> int {
    match cursors.1 {
        Some(s) => s.pos as int,
        None => cursors.0.pos as int,
    }
}

/// Whether the paragraph shares a position with the selection.
pub open spec fn selected(before: TextStroke, cursors: (TextCursor, Option<TextCursor>), k: int) -> bool {
    let r = syntax::paragraphs(encode_utf8(before.text@))[k];
    exists|p: int| #[trigger]
        levels::selects(cursors.0.pos as int, other_end(cursors), p) && r.start <= p <= r.end
}

/// Indenting and outdenting changes the level of every list item that shares a position with the
/// selection, by one, but not below zero or beyond the largest level. All other items keep their level.
/// Where no item is selected nothing changes. The levels are those of the text without its automatic line
/// breaks, when the layout does not wrap lines in front of spaces.
pub proof fn law_exactly_the_selected_items_are_moved<L: Fn(&TextStroke) -> Option<Vec<Line>>>(
    layout: L,
    outdent: bool,
    before: TextStroke,
    cursors: (TextCursor, Option<TextCursor>),
    after: TextStroke,
    moved: (TextCursor, Option<TextCursor>),
    handled: bool,
    k: int,
)
    requires
        lists::level_change_leads_to(layout, outdent, before, cursors, after, moved, handled),
        reflow::lays_out(layout),
        reflow::wraps_behind_spaces(layout),
        encode_utf8(before.text@).len() + syntax::items(encode_utf8(before.text@)).len() <= usize::MAX,
        0 <= k < syntax::paragraphs(encode_utf8(before.text@)).len(),
        numbering::item_of(encode_utf8(before.text@), k) is Some,
    ensures
        !handled ==> after == before && moved == cursors && !selected(before, cursors, k),
        handled ==> {
            let x = numbering::item_of(encode_utf8(before.text@), k)->0;
            let y = numbering::item_of(softbreak::stripped(encode_utf8(after.text@)), k);
            &&& x.marker is Bullet ==> y is Some && y->0.marker is Bullet
            &&& y is Some ==> y->0.level == if !selected(before, cursors, k) {
                x.level as int
            } else if outdent {
                if x.level > 0 {
                    x.level - 1
                } else {
                    0
                }
            } else if x.level < 8 {
                x.level + 1
            } else {
                8
            }
        },
{
    let b = encode_utf8(before.text@);
    let other = lists::selection_pos(cursors.0.pos, cursors.1);
    let m = before.model(lists::both(cursors.0.pos, other));
    let r = syntax::paragraphs(b)[k];
    encode_utf8_valid_utf8(before.text@);
    let p = choose|p: int| #[trigger]
        levels::selects(cursors.0.pos as int, other_end(cursors), p) && r.start <= p <= r.end;
    assert(m.positions[0] == cursors.0.pos && m.positions[1] == other);
    levels::law_selected_items_change_their_level(m, outdent, k, p);
    if handled {
        let e = m.with_levels_changed(outdent);
        if !selected(before, cursors, k) {
            assert forall|i: int| #[trigger]
                levels::selects(m.positions[0] as int, m.positions[1] as int, i) implies !(r.start <= i
                <= r.end) by {
                assert(levels::selects(cursors.0.pos as int, other_end(cursors), i));
            }
            assert(numbering::paragraph(e.text, k) == numbering::paragraph(b, k));
            lemma_same_paragraph(b, e.text, k);
        }
        let end = choose|end: Seq<usize>| #[trigger]
            lists::relayout_leads_to(layout, e, before, after, end) && end.len()
                == e.positions.len() && after.model(end).valid();
        law_updating_keeps_levels(layout, e, before, after, end, k);
    }
}

/// When items are moved, the cursor and the other end of the selection follow the text at which they are.
pub proof fn law_cursors_follow_moved_items<L: Fn(&TextStroke) -> Option<Vec<Line>>>(
    layout: L,
    outdent: bool,
    before: TextStroke,
    cursors: (TextCursor, Option<TextCursor>),
    after: TextStroke,
    moved: (TextCursor, Option<TextCursor>),
) -> (end: Seq<usize>)
    requires
        lists::level_change_leads_to(layout, outdent, before, cursors, after, moved, true),
    ensures
        ({
            let positions = seq![cursors.0.pos, other_end(cursors) as usize];
            let len = encode_utf8(after.text@).len();
            &&& lists::relayout_leads_to(
                layout,
                before.model(positions).with_levels_changed(outdent),
                before,
                after,
                end,
            )
            &&& end.len() == 2
            &&& after.model(end).valid()
            &&& moved.0.pos == end[0] && moved.0.len == len
            &&& moved.1 matches Some(s) ==> s.pos == end[1] && s.len == len
        }),
{
    let positions = seq![cursors.0.pos, other_end(cursors) as usize];
    assert(positions =~= lists::both(
        cursors.0.pos,
        lists::selection_pos(cursors.0.pos, cursors.1),
    ));
    let m = before.model(positions).with_levels_changed(outdent);
    let len = encode_utf8(after.text@).len() as usize;
    lemma_positions(
        before.model(positions),
        lists::level_edits(
            syntax::items(encode_utf8(before.text@)),
            before.model(positions).lo(),
            before.model(positions).hi(),
            outdent,
        ),
    );
    choose|end: Seq<usize>| #[trigger]
        lists::relayout_leads_to(layout, m, before, after, end) && end.len() == m.positions.len()
            && after.model(end).valid() && moved.0 == (TextCursor { pos: end[0], len }) && (
        moved.1 matches Some(s) ==> s == (TextCursor { pos: end[1], len }))
}

/// Edits keep all positions.
proof fn lemma_positions(m: EditModel, edits: Seq<Edit>)
    ensures
        m.edited_all(edits).positions.len() == m.positions.len(),
    decreases edits.len(),
{
    if edits.len() > 0 {
        lemma_positions(m.edited(edits.last()), edits.drop_last());
    }
}

/// The same paragraph is the same item.
proof fn lemma_same_paragraph(b: Seq<u8>, c: Seq<u8>, k: int)
    requires
        b.len() <= usize::MAX,
        c.len() <= usize::MAX,
        0 <= k < syntax::paragraphs(b).len(),
        0 <= k < syntax::paragraphs(c).len(),
        numbering::paragraph(c, k) == numbering::paragraph(b, k),
    ensures
        numbering::item_of(b, k) is Some ==> same_place(
            numbering::item_of(b, k),
            numbering::item_of(c, k),
        ),
{
    let r = syntax::paragraphs(b)[k];
    let q = syntax::paragraphs(c)[k];
    let x = numbering::paragraph(b, k);
    let y = numbering::paragraph(c, k);
    lemma_bounds(b, k);
    lemma_bounds(c, k);
    assert(x.len() == y.len());
    assert forall|i: int| r.start <= i < r.end implies #[trigger] b[i] == c[i + (q.start - r.start)] by {
        assert(x[i - r.start] == y[i - r.start]);
    }
    numbering::lemma_item_in_shift(b, r.start as int, r.end as int, c, q.start - r.start);
}

} // verus!
