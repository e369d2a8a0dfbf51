//! What keys do in lists.

use crate::bytes;
use crate::edit::{EditModel, TextStroke};
use crate::lists;
use crate::lists::TextCursor;
use crate::reflow::Line;
use crate::softbreak;
use crate::syntax;
use crate::typing;
use crate::whitespace;
use vstd::prelude::*;
use vstd::utf8::*;

verus! {

broadcast use syntax::group_char_bytes;

/// Whether lists were brought up to date from a text that differs from `b` only in that `len` bytes
/// stand in the place of those from `start` to `end`, with a cursor at `pos` in that text.
pub open spec fn replaced_and_updated<L: Fn(&TextStroke) -> Option<Vec<Line>>>(
    layout: L,
    before: TextStroke,
    m: EditModel,
    start: int,
    end: int,
    len: int,
    pos: int,
    after: TextStroke,
    moved: TextCursor,
) -> bool {
    &&& typing::changes_only(encode_utf8(before.text@), start, end, m.text, len)
    &&& m.positions.len() == 1
    &&& m.positions[0] == pos
    &&& lists::relayout_leads_to(layout, m, before, after, seq![moved.pos])
    &&& moved.len == encode_utf8(after.text@).len()
}

/// A newline outside of list items is left to others. In an item with text it is put where the cursor
/// belongs, with a new item behind it, and the cursor ends up in front of the text that stood there. An
/// item without text moves out by a level, and at the outermost level it is an item no more.
pub proof fn law_newlines_continue_and_end_lists<L: Fn(&TextStroke) -> Option<Vec<Line>>>(
    layout: L,
    before: TextStroke,
    cursor: TextCursor,
    after: TextStroke,
    moved: TextCursor,
    handled: bool,
) -> (m: EditModel)
    requires
        lists::newline_leads_to(layout, before, cursor, after, moved, handled),
        encode_utf8(before.text@).len() <= usize::MAX,
        lists::clamps_to_boundary(encode_utf8(before.text@), cursor.pos as int),
    ensures
        ({
            let b = encode_utf8(before.text@);
            let at = lists::normalized(b, cursor.pos as int, true);
            match syntax::item_at(b, at) {
                None => !handled && after == before && moved == cursor,
                Some(item) => handled && if !whitespace::blank(lists::content(b, item)) {
                    let added = m.text.len() - b.len();
                    &&& replaced_and_updated(
                        layout,
                        before,
                        m,
                        at,
                        at,
                        added,
                        at + added,
                        after,
                        moved,
                    )
                    &&& m.text[at] == 0x0a
                    &&& (item.marker is Number ==> item.marker->n < 999_999) ==> {
                        &&& syntax::item_at(m.text, at + added) matches Some(y)
                        &&& y.level == item.level
                        &&& y.content_start == at + added
                        &&& item.marker is Bullet ==> y.marker == item.marker
                        &&& item.marker is Number ==> y.marker is Number && y.marker->n
                            == item.marker->n + 1 && y.marker->delim == item.marker->delim
                    }
                } else if item.level == 0 {
                    replaced_and_updated(
                        layout,
                        before,
                        m,
                        item.start as int,
                        item.content_start as int,
                        0,
                        at - (item.content_start - item.start),
                        after,
                        moved,
                    )
                } else {
                    let added = m.text.len() - b.len();
                    &&& replaced_and_updated(
                        layout,
                        before,
                        m,
                        item.start as int,
                        item.marker_end as int,
                        added + (item.marker_end - item.start),
                        at + added,
                        after,
                        moved,
                    )
                    &&& syntax::item_at(m.text, item.start as int) matches Some(y) && y.level
                        == item.level - 1 && (y.marker is Bullet <==> item.marker is Bullet)
                },
            }
        }),
{
    let b = encode_utf8(before.text@);
    let pos = cursor.pos as int;
    encode_utf8_valid_utf8(before.text@);
    typing::law_a_newline_keeps_the_text_around_it(b, pos);
    typing::law_cursors_belong_outside_of_markers(b, pos, true);
    if let Some(item) = syntax::item_at(b, lists::normalized(b, pos, true)) {
        syntax::lemma_item_at(b, lists::normalized(b, pos, true));
        let (at, e) = lists::newline_edit(b, pos)->0;
        let c = bytes::splice(b, e.start, e.end, e.text);
        if whitespace::blank(lists::content(b, item)) && item.level > 0 {
            assert(e.map_start(at as int) == at + c.len() - b.len());
        }
        if !whitespace::blank(lists::content(b, item)) && (item.marker is Number ==> item.marker->n
            < 999_999) {
            typing::law_a_newline_continues_the_list(b, pos, item);
        }
    }
    match lists::newline_edit(b, pos) {
        None => before.model(seq![cursor.pos]),
        Some((at, e)) => before.model(seq![at]).edited(e),
    }
}

/// Backspace at the start of the text of an item removes the marker, and the cursor ends up behind the
/// tabs. At the start of a wrapped line it removes the user-perceived character in front of the automatic
/// line break. Anywhere else it is left to others.
pub proof fn law_backspace_takes_out_markers<L: Fn(&TextStroke) -> Option<Vec<Line>>>(
    layout: L,
    prev: Option<usize>,
    before: TextStroke,
    cursor: TextCursor,
    after: TextStroke,
    moved: TextCursor,
    handled: bool,
) -> (m: EditModel)
    requires
        lists::backspace_leads_to(layout, prev, before, cursor, after, moved, handled),
        encode_utf8(before.text@).len() <= usize::MAX,
        bytes::at_boundary(encode_utf8(before.text@), cursor.pos as int),
    ensures
        ({
            let b = encode_utf8(before.text@);
            &&& syntax::item_at(b, cursor.pos as int) matches Some(item) ==> cursor.pos
                == item.content_start ==> handled && replaced_and_updated(
                layout,
                before,
                m,
                item.start + item.level,
                cursor.pos as int,
                0,
                item.start + item.level,
                after,
                moved,
            )
            &&& forall|start: int| #[trigger]
                syntax::soft_break_at(b, start) && softbreak::indent_end(b, start + 3) == cursor.pos && (
                prev matches Some(p) ==> p <= start) ==> match prev {
                    Some(p) => handled && replaced_and_updated(
                        layout,
                        before,
                        m,
                        p as int,
                        start,
                        0,
                        cursor.pos - (start - p),
                        after,
                        moved,
                    ),
                    None => !handled && after == before && moved == cursor,
                }
            &&& (syntax::item_at(b, cursor.pos as int) matches Some(item) ==> cursor.pos
                != item.content_start) && (forall|start: int| #[trigger]
                syntax::soft_break_at(b, start) ==> softbreak::indent_end(b, start + 3) != cursor.pos)
                ==> !handled && after == before && moved == cursor
        }),
{
    let b = encode_utf8(before.text@);
    let pos = cursor.pos as int;
    encode_utf8_valid_utf8(before.text@);
    if let Some(item) = syntax::item_at(b, pos) {
        if pos == item.content_start {
            typing::law_backspace_removes_the_marker(b, pos, prev, item);
        }
    }
    assert forall|start: int| #[trigger]
        syntax::soft_break_at(b, start) && softbreak::indent_end(b, start + 3) == cursor.pos && (
        prev matches Some(p) ==> p <= start) implies ({
        let e = lists::backspace_edit(b, pos, prev)->0;
        &&& lists::backspace_edit(b, pos, prev) is Some <==> prev is Some
        &&& prev matches Some(p) ==> typing::changes_only(
            b,
            p as int,
            start,
            bytes::splice(b, e.start, e.end, e.text),
            0,
        ) && e.map_start(pos) == pos - (start - p)
    }) by {
        typing::law_backspace_reaches_over_the_break(b, start, pos, prev);
    }
    if (syntax::item_at(b, pos) matches Some(item) ==> cursor.pos != item.content_start) && (forall|
        start: int,
    | #[trigger]
        syntax::soft_break_at(b, start) ==> softbreak::indent_end(b, start + 3) != cursor.pos) {
        typing::law_backspace_is_left_alone_elsewhere(b, pos, prev);
    }
    match lists::backspace_edit(b, pos, prev) {
        None => before.model(seq![cursor.pos]),
        Some(e) => before.model(seq![cursor.pos]).edited(e),
    }
}

/// Delete in front of an automatic line break removes the user-perceived character behind it. At the end
/// of a paragraph that an item follows it removes the newline and the marker. Anywhere else it is left to
/// others. The cursor stays.
pub proof fn law_delete_joins_lines<L: Fn(&TextStroke) -> Option<Vec<Line>>>(
    layout: L,
    next: Option<usize>,
    before: TextStroke,
    cursor: TextCursor,
    after: TextStroke,
    moved: TextCursor,
    handled: bool,
) -> (m: EditModel)
    requires
        lists::delete_leads_to(layout, next, before, cursor, after, moved, handled),
        encode_utf8(before.text@).len() <= usize::MAX,
        bytes::at_boundary(encode_utf8(before.text@), cursor.pos as int),
        syntax::soft_break_at(encode_utf8(before.text@), cursor.pos as int) ==> (next matches Some(n)
            ==> softbreak::indent_end(encode_utf8(before.text@), cursor.pos + 3) <= n <= encode_utf8(
            before.text@,
        ).len()),
    ensures
        ({
            let b = encode_utf8(before.text@);
            let pos = cursor.pos as int;
            if syntax::soft_break_at(b, pos) {
                match next {
                    Some(n) => handled && replaced_and_updated(
                        layout,
                        before,
                        m,
                        softbreak::indent_end(b, pos + 3),
                        n as int,
                        0,
                        pos,
                        after,
                        moved,
                    ),
                    None => !handled && after == before && moved == cursor,
                }
            } else if pos < b.len() && b[pos] == 0x0a && syntax::item_at(b, pos + 1) is Some {
                handled && replaced_and_updated(
                    layout,
                    before,
                    m,
                    pos,
                    syntax::item_at(b, pos + 1)->0.content_start as int,
                    0,
                    pos,
                    after,
                    moved,
                )
            } else {
                !handled && after == before && moved == cursor
            }
        }),
{
    let b = encode_utf8(before.text@);
    let pos = cursor.pos as int;
    encode_utf8_valid_utf8(before.text@);
    if syntax::soft_break_at(b, pos) {
        typing::law_delete_reaches_over_the_break(b, pos, next);
    } else if pos < b.len() && b[pos] == 0x0a && syntax::item_at(b, pos + 1) is Some {
        typing::law_delete_joins_the_next_item(b, pos, next, syntax::item_at(b, pos + 1)->0);
    } else {
        typing::law_delete_is_left_alone_elsewhere(b, pos, next);
    }
    match lists::delete_edit(b, pos, next) {
        None => before.model(seq![cursor.pos]),
        Some(e) => before.model(seq![cursor.pos]).edited(e),
    }
}

/// A cursor is put where it belongs, in a text of the length that it has.
pub proof fn law_cursors_are_put_in_place(
    b: Seq<u8>,
    cursor: TextCursor,
    forward: bool,
    moved: TextCursor,
)
    requires
        valid_utf8(b),
        b.len() <= usize::MAX,
        lists::clamps_to_boundary(b, cursor.pos as int),
        lists::put_in_place(b, cursor, forward, moved),
    ensures
        bytes::at_boundary(b, moved.pos as int),
        !typing::forbidden(b, moved.pos as int),
        cursor.pos <= b.len() && !typing::forbidden(b, cursor.pos as int) ==> moved == cursor,
        moved != cursor ==> moved.len == b.len(),
        forward && cursor.pos <= b.len() ==> cursor.pos <= moved.pos,
{
    typing::law_cursors_belong_outside_of_markers(b, cursor.pos as int, forward);
}

/// Text without automatic line breaks is copied as it is. Copies never hold automatic line breaks.
pub proof fn law_copies_hold_the_text(b: Seq<u8>, start: int, end: int)
    requires
        0 <= start <= end <= b.len(),
    ensures
        !softbreak::has_soft_break(b.subrange(start, end)) ==> lists::copied(b, start, end)
            == b.subrange(start, end),
        valid_utf8(b.subrange(start, end)) && b.len() <= usize::MAX ==> !softbreak::has_soft_break(
            lists::copied(b, start, end),
        ),
{
    let part = b.subrange(start, end);
    if !softbreak::has_soft_break(part) {
        softbreak::lemma_nothing_to_strip(part, part, 0);
    }
    if valid_utf8(part) && b.len() <= usize::MAX {
        softbreak::law_stripped_text_has_no_soft_breaks(part);
    }
}

/// A typed space turns a dash or a star at the start of a paragraph into a bullet, and nothing else that
/// is typed does. Then the lists are brought up to date, unless there is nothing to bring up to date. The
/// cursors follow the text.
pub proof fn law_lists_are_updated_after_typing<L: Fn(&TextStroke) -> Option<Vec<Line>>>(
    layout: L,
    typed: Option<&str>,
    before: TextStroke,
    cursors: (TextCursor, Option<TextCursor>),
    after: TextStroke,
    moved: (TextCursor, Option<TextCursor>),
) -> (r: (EditModel, Seq<usize>))
    requires
        lists::update_leads_to(layout, typed, before, cursors, after, moved),
        encode_utf8(before.text@).len() <= usize::MAX,
        cursors.0.pos <= encode_utf8(before.text@).len(),
    ensures
        ({
            let b = encode_utf8(before.text@);
            let pos = cursors.0.pos as int;
            let start = syntax::para_start(b, pos);
            let space = typed matches Some(t) && t@ == seq![' '];
            let dash = start + 2 <= pos && b[pos - 1] == 0x20 && (b[pos - 2] == 0x2d || b[pos - 2]
                == 0x2a) && forall|i: int| start <= i < pos - 2 ==> #[trigger] b[i] == 0x09;
            let untouched = after == before && moved == cursors;
            let updated = {
                &&& lists::relayout_leads_to(layout, r.0, before, after, r.1)
                &&& moved.0.pos == r.1[0]
                &&& moved.0.len == encode_utf8(after.text@).len()
                &&& moved.1 matches Some(s) ==> s.pos == r.1[1] && s.len == encode_utf8(
                    after.text@,
                ).len()
            };
            &&& !space && syntax::items(b).len() == 0 && (forall|i: int|
                !#[trigger] syntax::soft_break_at(b, i)) ==> untouched
            &&& space || syntax::items(b).len() > 0 || (exists|i: int| #[trigger]
                syntax::soft_break_at(b, i)) ==> updated
            &&& updated && !untouched && !(space && dash) ==> r.0.text == b && r.0.positions[0]
                == cursors.0.pos && (cursors.1 matches Some(s) ==> r.0.positions[1] == s.pos)
            &&& space && dash ==> typing::changes_only(b, pos - 2, pos - 1, r.0.text, 3)
                && r.0.positions[0] == pos + 2 && bytes::has_at(
                r.0.text,
                pos - 2,
                encode_utf8(seq![syntax::spec_bullet(pos - 2 - start)]),
            )
        }),
{
    let b = encode_utf8(before.text@);
    let pos = cursors.0.pos as int;
    let selection = match cursors.1 {
        Some(s) => Some(s.pos),
        None => None,
    };
    let m = before.model(lists::cursor_positions(cursors.0.pos, selection));
    let edited = m.typed(typed);
    typing::law_only_leading_dashes_become_bullets(b, pos);
    syntax::lemma_para_start(b, pos);
    if let Some(e) = lists::autoformat_edit(b, pos) {
        let c = syntax::spec_bullet(e.start - syntax::para_start(b, pos));
        syntax::lemma_encodings();
        bytes::lemma_encode_one(c);
        let t = bytes::splice(b, e.start, e.end, e.text);
        assert(t.subrange(pos - 2, pos + 1) =~= e.text);
    }
    let end = choose|end: Seq<usize>| #[trigger]
        lists::relayout_leads_to(layout, edited, before, after, end) && end.len()
            == edited.positions.len() && after.model(end).valid() && moved.0 == (TextCursor {
            pos: end[0],
            len: encode_utf8(after.text@).len() as usize,
        }) && (moved.1 matches Some(s) ==> s == (TextCursor {
            pos: end[1],
            len: encode_utf8(after.text@).len() as usize,
        }));
    (edited, end)
}

} // verus!
