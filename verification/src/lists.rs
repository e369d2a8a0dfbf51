//! Editing lists.
//!
//! A paragraph is a list item when it starts with tabs for its nesting level, followed by a bullet
//! (`•`, `◦`, `▪`) or a number (`1.`, `1)`) and a space. Lists are stored as plain text, so they
//! look the same wherever the text is shown.
//!
//! Wrapped lines of list items get a hanging indent: at every wrap an automatic line break is
//! inserted, followed by spaces that line the wrapped line up with the start of the item's text.
//! These are recreated whenever the text changes.

use crate::bytes;
use crate::edit;
use crate::edit::{Edit, EditModel, Replacement, TextAlignment, TextStroke};
use crate::grapheme;
use crate::marker;
use crate::numbering;
use crate::reflow;
use crate::reflow::Line;
use crate::renumber;
use crate::softbreak;
use crate::syntax;
use crate::syntax::ListItem;
use crate::whitespace;
use std::ops::Range;
use vstd::prelude::*;
use vstd::utf8::*;

verus! {

broadcast use syntax::group_char_bytes;

/// A position in a text of a known length.
#[derive(Debug, Clone, Copy, PartialEq, Eq, Structural)]
pub struct TextCursor {
    pub pos: usize,
    pub len: usize,
}

impl TextCursor {
    pub fn new(pos: usize, len: usize) -> (r: Self)
        ensures
            r == (TextCursor { pos, len }),
    {
        TextCursor { pos, len }
    }

    /// The position of the cursor.
    pub fn cur_cursor(&self) -> (r: usize)
        ensures
            r == self.pos,
    {
        self.pos
    }
}

/// Whether a position is the end of the text.
pub open spec fn at_end(stroke: TextStroke, pos: usize) -> bool {
    pos == encode_utf8(stroke.text@).len()
}

// ---------------------------------------------------------------------------------------------
// Bringing lists up to date

/// Whether bringing the lists of `m` up to date leads to the text `to` with the positions `end`:
/// without the old automatic line breaks, renumbered, and with new line breaks where `layout` says
/// that list items wrap. The style is that of `base`.
pub open spec fn relayout_leads_to<L: Fn(&TextStroke) -> Option<Vec<Line>>>(
    layout: L,
    m: EditModel,
    base: TextStroke,
    to: TextStroke,
    end: Seq<usize>,
) -> bool {
    exists|relaid: TextStroke| #[trigger]
        relaid.model(m.relaid().positions) == m.relaid() && relaid.same_base_style(&base)
            && reflow::reflowed(layout, relaid, m.relaid().positions, to, end)
}

/// The edit that turns a `- ` or `* ` in front of `pos` at the start of a paragraph into a bullet.
pub open spec fn autoformat_edit(b: Seq<u8>, pos: int) -> Option<Edit> {
    let start = syntax::para_start(b, pos);
    let dash = syntax::tabs_end(b, start, pos);
    if pos == dash + 2 && (b[dash] == 0x2d || b[dash] == 0x2a) && b[dash + 1] == 0x20 {
        Some(
            Edit {
                start: dash,
                end: dash + 1,
                text: bytes::utf8(syntax::spec_bullet(dash - start)),
            },
        )
    } else {
        None
    }
}

/// The edit that moves an item to another level.
pub open spec fn level_edit(item: ListItem, level: int) -> Edit {
    Edit {
        start: item.start as int,
        end: item.marker_end as int,
        text: encode_utf8(
            marker::repeated('\t', level as nat) + item.marker.moved(level).chars(),
        ),
    }
}

impl EditModel {
    /// The result of an edit, if there is one to make.
    pub open spec fn edited_if(self, e: Option<Edit>) -> EditModel {
        match e {
            Some(e) => self.edited(e),
            None => self,
        }
    }
}

impl TextStroke {
    /// Renumber the lists and recreate the hanging indents.
    pub fn relayout_lists<L: Fn(&TextStroke) -> Option<Vec<Line>>>(
        &mut self,
        positions: &mut Vec<usize>,
        layout: &L,
    )
        requires
            old(self).model(old(positions)@).valid(),
            reflow::lays_out(*layout),
        ensures
            relayout_leads_to(
                *layout,
                old(self).model(old(positions)@),
                *old(self),
                *final(self),
                final(positions)@,
            ),
            final(self).model(final(positions)@).valid(),
            old(self).model(old(positions)@).relaid().valid(),
            old(self).model(old(positions)@).keeps_ends(final(self).model(final(positions)@)),
            final(self).same_base_style(old(self)),
    {
        let ghost m = self.model(positions@);
        self.renumber_stripped(positions);
        assert(self.model(m.relaid().positions) == m.relaid());
        let ghost relaid = *self;
        let ghost here = positions@;
        self.reflow_list_items(positions, layout);
        proof {
            if relaid.text_style.wraps && relaid.text_style.alignment == TextAlignment::Start {
                reflow::law_lining_up_keeps_ends(
                    *layout,
                    relaid,
                    here,
                    Seq::empty(),
                    reflow::MAX_REFLOW_ITERATIONS as nat,
                    *self,
                    positions@,
                );
            }
        }
    }

    /// Turn a typed `- ` or `* ` in front of `pos` at the start of a paragraph into a bullet.
    pub fn autoformat_bullet(&mut self, pos: usize, positions: &mut Vec<usize>)
        requires
            old(self).model(old(positions)@).valid(),
            bytes::at_boundary(encode_utf8(old(self).text@), pos as int),
        ensures
            final(self).model(final(positions)@) == old(self).model(old(positions)@).edited_if(
                autoformat_edit(encode_utf8(old(self).text@), pos as int),
            ),
            final(self).model(final(positions)@).valid(),
            old(self).model(old(positions)@).keeps_ends(final(self).model(final(positions)@)),
            final(self).same_base_style(old(self)),
    {
        let b = self.text.as_str().as_bytes();
        let n: usize = b.len();
        let mut start: usize = pos;
        while start > 0 && b[start - 1] != 0x0a
            invariant
                n == b@.len(),
                start <= pos <= n,
                syntax::para_start(b@, start as int) == syntax::para_start(b@, pos as int),
            decreases start,
        {
            start -= 1;
        }
        let mut dash: usize = start;
        while dash < pos && b[dash] == 0x09
            invariant
                n == b@.len(),
                start <= dash <= pos <= n,
                syntax::tabs_end(b@, dash as int, pos as int) == syntax::tabs_end(
                    b@,
                    start as int,
                    pos as int,
                ),
            decreases pos - dash,
        {
            dash += 1;
        }
        if pos - dash == 2 && (b[dash] == 0x2d || b[dash] == 0x2a) && b[dash + 1] == 0x20 {
            let bullet: char = syntax::bullet_for_level(dash - start);
            let mut text = String::new();
            text.push(bullet);
            proof {
                encode_utf8_valid_utf8(text@);
                assert(text@ =~= seq![bullet]);
                bytes::lemma_encode_one(bullet);
                bytes::lemma_step(b@, dash as int);
            }
            self.replace_range_mapped(
                Range { start: dash, end: dash + 1 },
                text.as_str(),
                positions,
            );
        }
    }

    /// Move an item to another level.
    pub fn set_list_item_level(
        &mut self,
        item: ListItem,
        level: usize,
        positions: &mut Vec<usize>,
    )
        requires
            old(self).model(old(positions)@).valid(),
            syntax::well_placed(encode_utf8(old(self).text@), item),
        ensures
            final(self).model(final(positions)@) == old(self).model(old(positions)@).edited(
                level_edit(item, level as int),
            ),
            final(self).model(final(positions)@).valid(),
            old(self).model(old(positions)@).keeps_ends(final(self).model(final(positions)@)),
            final(self).same_base_style(old(self)),
    {
        let prefix = level_prefix(item, level);
        proof {
            encode_utf8_valid_utf8(prefix@);
        }
        self.replace_range_mapped(
            Range { start: item.start, end: item.marker_end },
            prefix.as_str(),
            positions,
        );
    }
}

/// The tabs and the marker of an item that is moved to another level.
fn level_prefix(item: ListItem, level: usize) -> (r: String)
    ensures
        encode_utf8(r@) == level_edit(item, level as int).text,
{
    let mut prefix = String::new();
    marker::push_repeated(&mut prefix, '\t', level);
    let moved = item.marker.for_level(level).text();
    prefix.append(moved.as_str());
    assert(prefix@ =~= marker::repeated('\t', level as nat) + item.marker.moved(
        level as int,
    ).chars());
    prefix
}

// ---------------------------------------------------------------------------------------------
// Places where the cursor should not be

/// Where a cursor at `pos` belongs: not in the markers of list items and the indentation of wrapped
/// lines. Moving backwards, it jumps over a marker to the end of the previous paragraph.
pub open spec fn normalized(b: Seq<u8>, pos: int, forward: bool) -> int {
    let pos = if pos <= b.len() {
        pos
    } else {
        b.len() as int
    };
    match softbreak::soft_break_around(b, pos) {
        Some(r) if pos < r.end => if forward {
            r.end as int
        } else {
            r.start as int
        },
        _ => match syntax::item_at(b, pos) {
            Some(item) if pos < item.content_start => if !forward && item.start > 0 {
                item.start - 1
            } else {
                item.content_start as int
            },
            _ => pos,
        },
    }
}

/// Whether `pos`, or the end of the text if that comes first, lies between two characters.
pub open spec fn clamps_to_boundary(b: Seq<u8>, pos: int) -> bool {
    pos <= b.len() ==> bytes::at_boundary(b, pos)
}

/// The cursor belongs between two characters.
pub proof fn lemma_normalized(b: Seq<u8>, pos: int, forward: bool)
    requires
        valid_utf8(b),
        b.len() <= usize::MAX,
        0 <= pos,
        clamps_to_boundary(b, pos),
    ensures
        bytes::at_boundary(b, normalized(b, pos, forward)),
{
    let p = if pos <= b.len() {
        pos
    } else {
        b.len() as int
    };
    bytes::lemma_boundary(b, p);
    softbreak::lemma_soft_break_around(b, p);
    syntax::lemma_item_at(b, p);
    syntax::lemma_para_start(b, p);
}

/// The end of the text is a place where the cursor can be.
pub proof fn lemma_normalized_end(b: Seq<u8>)
    requires
        valid_utf8(b),
        b.len() <= usize::MAX,
    ensures
        normalized(b, b.len() as int, true) == b.len(),
{
    let n = b.len() as int;
    bytes::lemma_boundary(b, n);
    softbreak::lemma_soft_break_around(b, n);
    syntax::lemma_item_at(b, n);
}

/// Whether a cursor was put where it belongs. One that already is there is left alone.
pub open spec fn put_in_place(
    b: Seq<u8>,
    cursor: TextCursor,
    forward: bool,
    moved: TextCursor,
) -> bool {
    let pos = normalized(b, cursor.pos as int, forward);
    if pos == cursor.pos {
        moved == cursor
    } else {
        moved.pos == pos && moved.len == b.len()
    }
}

impl TextStroke {
    /// Move the cursor out of places where it should not be: the markers of list items and the
    /// indentation of wrapped lines. `forward` is the direction the cursor was moving in.
    pub fn normalize_cursor(&self, cursor: &mut TextCursor, forward: bool)
        requires
            clamps_to_boundary(encode_utf8(self.text@), old(cursor).pos as int),
        ensures
            put_in_place(encode_utf8(self.text@), *old(cursor), forward, *final(cursor)),
    {
        let pos: usize = cursor.cur_cursor();
        let moved: usize = self.normalized_cursor_pos(pos, forward);
        if moved != pos {
            *cursor = TextCursor::new(moved, self.text.as_str().as_bytes().len());
        }
    }

    /// Where a cursor at `pos` that was moving in the given direction belongs.
    pub fn normalized_cursor_pos(&self, pos: usize, forward: bool) -> (r: usize)
        requires
            clamps_to_boundary(encode_utf8(self.text@), pos as int),
        ensures
            r == normalized(encode_utf8(self.text@), pos as int, forward),
            bytes::at_boundary(encode_utf8(self.text@), r as int),
    {
        let ghost b = encode_utf8(self.text@);
        let len: usize = self.text.as_str().as_bytes().len();
        proof {
            encode_utf8_valid_utf8(self.text@);
            bytes::lemma_boundary(b, 0);
            lemma_normalized(b, pos as int, forward);
        }
        let pos: usize = if pos <= len {
            pos
        } else {
            len
        };
        if let Some(soft_break) = softbreak::soft_break_before(self.text.as_str(), pos) {
            if pos < soft_break.end {
                return if forward {
                    soft_break.end
                } else {
                    soft_break.start
                };
            }
        }
        if let Some(item) = syntax::list_item_at(self.text.as_str(), pos) {
            if pos < item.content_start {
                return if !forward && item.start > 0 {
                    item.start - 1
                } else {
                    item.content_start
                };
            }
        }
        pos
    }
}

// ---------------------------------------------------------------------------------------------
// Newlines

/// The text of an item.
pub open spec fn content(b: Seq<u8>, item: ListItem) -> Seq<char> {
    decode_utf8(b.subrange(item.content_start as int, item.end as int))
}

/// What a newline at `pos` does to the list item there: where the cursor is put first, and the edit
/// that is made there. An item without text moves out by a level, or is an item no more. Otherwise
/// a new item is started.
pub open spec fn newline_edit(b: Seq<u8>, pos: int) -> Option<(usize, Edit)> {
    let pos = normalized(b, pos, true);
    match syntax::item_at(b, pos) {
        None => None,
        Some(item) => {
            let pos = if pos <= item.content_start {
                item.content_start as int
            } else {
                pos
            };
            let e = if whitespace::blank(content(b, item)) {
                if item.level > 0 {
                    level_edit(item, item.level - 1)
                } else {
                    renumber::removal(item.start as int, item.content_start as int)
                }
            } else {
                Edit {
                    start: pos,
                    end: pos,
                    text: encode_utf8(
                        seq!['\n'] + marker::repeated('\t', item.level as nat)
                            + item.marker.following().chars() + seq![' '],
                    ),
                }
            };
            Some((pos as usize, e))
        },
    }
}

/// Whether a key led from one text and cursor to another. Where it has an edit to make, the cursor is
/// put at the given position first, the edit is made, and the lists are brought up to date. Otherwise
/// nothing changes, and the key is left to others.
pub open spec fn key_leads_to<L: Fn(&TextStroke) -> Option<Vec<Line>>>(
    layout: L,
    change: Option<(usize, Edit)>,
    before: TextStroke,
    cursor: TextCursor,
    after: TextStroke,
    moved: TextCursor,
    handled: bool,
) -> bool {
    match change {
        None => !handled && after == before && moved == cursor,
        Some((pos, e)) => {
            &&& handled
            &&& before.model(seq![pos]).edited(e).valid()
            &&& relayout_leads_to(
                layout,
                before.model(seq![pos]).edited(e),
                before,
                after,
                seq![moved.pos],
            )
            &&& moved.len == encode_utf8(after.text@).len()
            &&& after.model(seq![moved.pos]).valid()
        },
    }
}

/// Whether a newline led from one text and cursor to another.
pub open spec fn newline_leads_to<L: Fn(&TextStroke) -> Option<Vec<Line>>>(
    layout: L,
    before: TextStroke,
    cursor: TextCursor,
    after: TextStroke,
    moved: TextCursor,
    handled: bool,
) -> bool {
    let change = newline_edit(encode_utf8(before.text@), cursor.pos as int);
    key_leads_to(layout, change, before, cursor, after, moved, handled)
}

impl TextStroke {
    /// Handle a newline in a list item: continues the list with a new item, or ends the list when
    /// the item is empty.
    ///
    /// Returns `false` without changing anything when the cursor is not in a list item.
    pub fn list_newline<L: Fn(&TextStroke) -> Option<Vec<Line>>>(
        &mut self,
        cursor: &mut TextCursor,
        layout: &L,
    ) -> (r: bool)
        requires
            clamps_to_boundary(encode_utf8(old(self).text@), old(cursor).pos as int),
            reflow::lays_out(*layout),
        ensures
            newline_leads_to(*layout, *old(self), *old(cursor), *final(self), *final(cursor), r),
            at_end(*old(self), old(cursor).pos) ==> at_end(*final(self), final(cursor).pos),
            final(self).same_base_style(old(self)),
    {
        let ghost b = encode_utf8(self.text@);
        let ghost before = *self;
        let _len: usize = self.text.as_str().as_bytes().len();
        proof {
            encode_utf8_valid_utf8(self.text@);
        }
        let pos: usize = self.normalized_cursor_pos(cursor.cur_cursor(), true);
        let item = match syntax::list_item_at(self.text.as_str(), pos) {
            None => {
                return false;
            },
            Some(item) => item,
        };
        proof {
            syntax::lemma_item_at(b, pos as int);
            lemma_normalized_end(b);
        }
        let pos: usize = if pos <= item.content_start {
            item.content_start
        } else {
            pos
        };
        let mut positions: Vec<usize> = Vec::new();
        positions.push(pos);
        assert(positions@ =~= seq![pos]);
        let text = bytes::substr(self.text.as_str(), item.content_start, item.end);
        assert(text@ == content(b, item)) by {
            encode_utf8_decode_utf8(text@);
        }
        let ghost mut e: Edit = arbitrary();
        if whitespace::is_blank(text) {
            if item.level > 0 {
                proof {
                    e = level_edit(item, item.level - 1);
                }
                self.set_list_item_level(item, item.level - 1, &mut positions);
            } else {
                proof {
                    e = renumber::removal(item.start as int, item.content_start as int);
                    reveal_strlit("");
                    assert(encode_utf8(""@) =~= e.text);
                    encode_utf8_valid_utf8(""@);
                }
                self.replace_range_mapped(
                    Range { start: item.start, end: item.content_start },
                    "",
                    &mut positions,
                );
            }
        } else {
            let mut prefix = String::new();
            prefix.push('\n');
            marker::push_repeated(&mut prefix, '\t', item.level);
            let next = item.marker.next().text();
            prefix.append(next.as_str());
            prefix.push(' ');
            proof {
                assert(prefix@ =~= seq!['\n'] + marker::repeated('\t', item.level as nat)
                    + item.marker.following().chars() + seq![' ']);
                e = Edit { start: pos as int, end: pos as int, text: encode_utf8(prefix@) };
                encode_utf8_valid_utf8(prefix@);
            }
            self.replace_range_mapped(
                Range { start: pos, end: pos },
                prefix.as_str(),
                &mut positions,
            );
        }
        assert(newline_edit(b, old(cursor).pos as int) == Some((pos, e)));
        assert(self.model(positions@) == before.model(seq![pos]).edited(e));
        self.finish_edit(&mut positions, cursor, layout);
        true
    }

    /// Bring the lists up to date after an edit, and put the cursor where the only position ends
    /// up.
    fn finish_edit<L: Fn(&TextStroke) -> Option<Vec<Line>>>(
        &mut self,
        positions: &mut Vec<usize>,
        cursor: &mut TextCursor,
        layout: &L,
    )
        requires
            old(self).model(old(positions)@).valid(),
            old(positions)@.len() == 1,
            reflow::lays_out(*layout),
        ensures
            relayout_leads_to(
                *layout,
                old(self).model(old(positions)@),
                *old(self),
                *final(self),
                seq![final(cursor).pos],
            ),
            final(self).model(seq![final(cursor).pos]).valid(),
            final(cursor).len == encode_utf8(final(self).text@).len(),
            old(positions)@[0] == encode_utf8(old(self).text@).len() ==> at_end(
                *final(self),
                final(cursor).pos,
            ),
            final(self).same_base_style(old(self)),
    {
        self.relayout_lists(positions, layout);
        *cursor = TextCursor::new(positions[0], self.text.as_str().as_bytes().len());
        assert(positions@ =~= seq![cursor.pos]);
    }
}

// ---------------------------------------------------------------------------------------------
// Levels

/// Whether an item is touched by the range from `lo` to `hi`.
pub open spec fn touched(item: ListItem, lo: int, hi: int) -> bool {
    item.start <= hi && lo <= item.end
}

/// The level of an item that is indented or outdented.
pub open spec fn changed_level(level: int, outdent: bool) -> int {
    if outdent {
        if level > 0 {
            level - 1
        } else {
            0
        }
    } else if level + 1 <= syntax::MAX_LEVEL {
        level + 1
    } else {
        syntax::MAX_LEVEL as int
    }
}

/// The edits that indent or outdent the touched items.
pub open spec fn level_edits(items: Seq<ListItem>, lo: int, hi: int, outdent: bool) -> Seq<Edit>
    decreases items.len(),
{
    if items.len() == 0 {
        Seq::empty()
    } else {
        let before = level_edits(items.drop_last(), lo, hi, outdent);
        let item = items.last();
        let level = changed_level(item.level as int, outdent);
        if touched(item, lo, hi) && level != item.level {
            before.push(level_edit(item, level))
        } else {
            before
        }
    }
}

/// Whether any of the items is touched.
pub open spec fn any_touched(items: Seq<ListItem>, lo: int, hi: int) -> bool {
    exists|k: int| 0 <= k < items.len() && touched(#[trigger] items[k], lo, hi)
}

/// Two positions.
pub open spec fn both(a: usize, b: usize) -> Seq<usize> {
    seq![a, b]
}

/// The other end of the selection, which is the cursor where nothing is selected.
pub open spec fn selection_pos(pos: usize, selection_cursor: Option<TextCursor>) -> usize {
    match selection_cursor {
        Some(s) => s.pos,
        None => pos,
    }
}

impl EditModel {
    /// The first of two positions in the text.
    pub open spec fn lo(self) -> int {
        if self.positions[0] <= self.positions[1] {
            self.positions[0] as int
        } else {
            self.positions[1] as int
        }
    }

    /// The last of two positions in the text.
    pub open spec fn hi(self) -> int {
        if self.positions[0] <= self.positions[1] {
            self.positions[1] as int
        } else {
            self.positions[0] as int
        }
    }

    /// Whether any list item lies between the two positions or at one of them.
    pub open spec fn touches_items(self) -> bool {
        any_touched(syntax::items(self.text), self.lo(), self.hi())
    }

    /// With the list items between the two positions and at them indented or outdented.
    pub open spec fn with_levels_changed(self, outdent: bool) -> EditModel {
        self.edited_all(level_edits(syntax::items(self.text), self.lo(), self.hi(), outdent))
    }
}

/// The edits that change levels come in order.
pub proof fn lemma_level_edits(
    b: Seq<u8>,
    items: Seq<ListItem>,
    lo: int,
    hi: int,
    outdent: bool,
)
    requires
        forall|k: int| 0 <= k < items.len() ==> syntax::well_placed(b, #[trigger] items[k]),
        forall|j: int, k: int|
            0 <= j < k < items.len() ==> (#[trigger] items[j]).end < (#[trigger] items[k]).start,
    ensures
        edit::edits_fit(b, level_edits(items, lo, hi, outdent)),
        forall|k: int|
            0 <= k < level_edits(items, lo, hi, outdent).len() ==> items.len() > 0 && (
            #[trigger] level_edits(items, lo, hi, outdent)[k]).end <= items.last().end,
    decreases items.len(),
{
    if items.len() > 0 {
        let rest = items.drop_last();
        let item = items.last();
        let before = level_edits(rest, lo, hi, outdent);
        let all = level_edits(items, lo, hi, outdent);
        lemma_level_edits(b, rest, lo, hi, outdent);
        assert(syntax::well_placed(b, items[items.len() - 1]));
        let level = changed_level(item.level as int, outdent);
        encode_utf8_valid_utf8(
            marker::repeated('\t', level as nat) + item.marker.moved(level).chars(),
        );
        assert forall|k: int| 0 <= k < before.len() implies (#[trigger] before[k]).end
            <= item.start by {
            assert(before[k].end <= rest.last().end);
            assert(items[items.len() - 2].end < items[items.len() - 1].start);
        }
        assert(level_edit(item, level).fits(b));
    }
}

/// Whether bringing the lists of `m` up to date led to the text `to`, with the cursors at the first two
/// positions.
pub open spec fn cursors_follow<L: Fn(&TextStroke) -> Option<Vec<Line>>>(
    layout: L,
    m: EditModel,
    base: TextStroke,
    to: TextStroke,
    cursor: TextCursor,
    selection: Option<TextCursor>,
) -> bool {
    let len = encode_utf8(to.text@).len() as usize;
    &&& m.relaid().valid()
    &&& exists|end: Seq<usize>| #[trigger]
        relayout_leads_to(layout, m, base, to, end) && end.len() == m.positions.len() && to.model(
            end,
        ).valid() && cursor == (TextCursor { pos: end[0], len }) && (selection matches Some(s) ==> s
            == (TextCursor { pos: end[1], len }))
}

/// Whether indenting or outdenting led from one text with its cursors to another.
pub open spec fn level_change_leads_to<L: Fn(&TextStroke) -> Option<Vec<Line>>>(
    layout: L,
    outdent: bool,
    before: TextStroke,
    cursors: (TextCursor, Option<TextCursor>),
    after: TextStroke,
    moved: (TextCursor, Option<TextCursor>),
    handled: bool,
) -> bool {
    let m = before.model(both(cursors.0.pos, selection_pos(cursors.0.pos, cursors.1)));
    if m.touches_items() {
        &&& handled
        &&& m.with_levels_changed(outdent).valid()
        &&& cursors_follow(
            layout,
            m.with_levels_changed(outdent),
            before,
            after,
            moved.0,
            moved.1,
        )
    } else {
        &&& !handled
        &&& after == before
        &&& moved == cursors
    }
}

impl TextStroke {
    /// Indent or outdent the list items touched by the cursor or the selection.
    ///
    /// Returns `false` without changing anything when none of them is a list item.
    pub fn list_change_level<L: Fn(&TextStroke) -> Option<Vec<Line>>>(
        &mut self,
        cursor: &mut TextCursor,
        selection_cursor: Option<&mut TextCursor>,
        outdent: bool,
        layout: &L,
    ) -> (r: bool)
        requires
            bytes::at_boundary(encode_utf8(old(self).text@), old(cursor).pos as int),
            selection_cursor matches Some(s) ==> bytes::at_boundary(
                encode_utf8(old(self).text@),
                s.pos as int,
            ),
            reflow::lays_out(*layout),
        ensures
            level_change_leads_to(
                *layout,
                outdent,
                *old(self),
                (
                    *old(cursor),
                    match selection_cursor {
                        Some(s) => Some(*s),
                        None => None,
                    },
                ),
                *final(self),
                (
                    *final(cursor),
                    match selection_cursor {
                        Some(s) => Some(*final(s)),
                        None => None,
                    },
                ),
                r,
            ),
            at_end(*old(self), old(cursor).pos) ==> at_end(*final(self), final(cursor).pos),
            selection_cursor matches Some(s) ==> at_end(*old(self), s.pos) ==> at_end(
                *final(self),
                final(s).pos,
            ),
            final(self).same_base_style(old(self)),
    {
        let ghost b = encode_utf8(self.text@);
        let ghost m0 = *self;
        let at: usize = cursor.cur_cursor();
        let other: usize = match &selection_cursor {
            Some(s) => s.cur_cursor(),
            None => at,
        };
        let (lo, hi): (usize, usize) = if at <= other {
            (at, other)
        } else {
            (other, at)
        };
        let _len: usize = self.text.as_str().as_bytes().len();
        let items = syntax::list_items(self.text.as_str());
        proof {
            encode_utf8_valid_utf8(self.text@);
            syntax::lemma_items(b);
            lemma_level_edits(b, items@, lo as int, hi as int, outdent);
        }
        let mut edits: Vec<Replacement> = Vec::new();
        let mut any: bool = false;
        let mut k: usize = 0;
        assert(edit::replacements(edits@) =~= level_edits(
            items@.take(0),
            lo as int,
            hi as int,
            outdent,
        ));
        while k < items.len()
            invariant
                k <= items@.len(),
                forall|j: int| 0 <= j < items@.len() ==> syntax::well_placed(b, #[trigger] items@[j]),
                b.len() <= usize::MAX,
                any == any_touched(items@.take(k as int), lo as int, hi as int),
                edit::replacements(edits@) == level_edits(
                    items@.take(k as int),
                    lo as int,
                    hi as int,
                    outdent,
                ),
            decreases items@.len() - k,
        {
            let item = items[k];
            let ghost done = edit::replacements(edits@);
            let ghost was = any;
            proof {
                assert(items@.take(k + 1).drop_last() =~= items@.take(k as int));
                assert(items@.take(k + 1).last() == item);
                assert(syntax::well_placed(b, items@[k as int]));
            }
            if item.start <= hi && lo <= item.end {
                any = true;
                let level: usize = if outdent {
                    if item.level > 0 {
                        item.level - 1
                    } else {
                        0
                    }
                } else if item.level < syntax::MAX_LEVEL {
                    item.level + 1
                } else {
                    syntax::MAX_LEVEL
                };
                if level != item.level {
                    let text = level_prefix(item, level);
                    edits.push(
                        Replacement {
                            range: Range { start: item.start, end: item.marker_end },
                            text,
                        },
                    );
                    assert(edit::replacements(edits@) =~= done.push(
                        level_edit(item, level as int),
                    ));
                }
                assert(touched(items@.take(k + 1)[k as int], lo as int, hi as int));
            }
            proof {
                if was {
                    let j = choose|j: int|
                        0 <= j < k && touched(#[trigger] items@.take(k as int)[j], lo as int, hi as int);
                    assert(items@.take(k + 1)[j] == items@.take(k as int)[j]);
                }
                if any_touched(items@.take(k + 1), lo as int, hi as int) && !touched(
                    item,
                    lo as int,
                    hi as int,
                ) {
                    let j = choose|j: int|
                        0 <= j < k + 1 && touched(
                            #[trigger] items@.take(k + 1)[j],
                            lo as int,
                            hi as int,
                        );
                    assert(items@.take(k + 1)[j] == items@.take(k as int)[j]);
                }
            }
            k += 1;
        }
        assert(items@.take(k as int) =~= items@);
        if !any {
            return false;
        }
        let mut positions: Vec<usize> = Vec::new();
        positions.push(at);
        positions.push(other);
        assert(positions@ =~= both(at, other));
        self.replace_all_mapped(&edits, &mut positions);
        let ghost edited = self.model(positions@);
        self.relayout_lists(&mut positions, layout);
        assert(edited == m0.model(both(at, other)).with_levels_changed(outdent));
        assert(relayout_leads_to(*layout, edited, m0, *self, positions@));
        let len: usize = self.text.as_str().as_bytes().len();
        *cursor = TextCursor::new(positions[0], len);
        if let Some(s) = selection_cursor {
            *s = TextCursor::new(positions[1], len);
        }
        true
    }
}

// ---------------------------------------------------------------------------------------------
// Backspace and delete

/// Where the automatic line break starts whose indentation ends at `pos`.
pub open spec fn break_ending_at(b: Seq<u8>, pos: int) -> Option<usize> {
    match softbreak::soft_break_around(b, pos) {
        Some(r) if r.end == pos => Some(r.start),
        _ => None,
    }
}

/// What backspace at `pos` removes: at the start of a wrapped line what is in front of the
/// automatic line break, from `prev` on, and at the start of an item's text its marker.
pub open spec fn backspace_edit(b: Seq<u8>, pos: int, prev: Option<usize>) -> Option<Edit> {
    match break_ending_at(b, pos) {
        Some(start) => match prev {
            Some(p) => Some(renumber::removal(p as int, start as int)),
            None => None,
        },
        None => match syntax::item_at(b, pos) {
            Some(item) if pos == item.content_start => Some(
                renumber::removal(item.marker_start as int, item.content_start as int),
            ),
            _ => None,
        },
    }
}

/// Where the indentation behind the automatic line break at `pos` ends.
pub open spec fn break_starting_at(b: Seq<u8>, pos: int) -> Option<usize> {
    if syntax::soft_break_at(b, pos) {
        Some(softbreak::indent_end(b, pos + 3) as usize)
    } else {
        None
    }
}

/// What delete at `pos` removes: in front of an automatic line break what follows the break, up to
/// `next`, and at the end of a paragraph followed by a list item the newline and the item's marker.
pub open spec fn delete_edit(b: Seq<u8>, pos: int, next: Option<usize>) -> Option<Edit> {
    match break_starting_at(b, pos) {
        Some(end) => match next {
            Some(n) => Some(renumber::removal(end as int, n as int)),
            None => None,
        },
        None => if pos < b.len() && b[pos] == 0x0a {
            match syntax::item_at(b, pos + 1) {
                Some(item) => Some(renumber::removal(pos, item.content_start as int)),
                None => None,
            }
        } else {
            None
        },
    }
}

/// The start of the user-perceived character in front of the automatic line break whose indentation
/// ends at `pos`.
pub open spec fn start_before_break(text: Seq<char>, pos: usize) -> Option<usize> {
    match break_ending_at(encode_utf8(text), pos as int) {
        Some(start) => grapheme::boundary_before(text, start),
        None => None,
    }
}

/// The end of the user-perceived character behind the automatic line break at `pos`.
pub open spec fn end_behind_break(text: Seq<char>, pos: usize) -> Option<usize> {
    match break_starting_at(encode_utf8(text), pos as int) {
        Some(end) => grapheme::boundary_after(text, end),
        None => None,
    }
}

/// Whether backspace led from one text and cursor to another, where `prev` is the start of the
/// user-perceived character in front of the automatic line break.
pub open spec fn backspace_leads_to<L: Fn(&TextStroke) -> Option<Vec<Line>>>(
    layout: L,
    prev: Option<usize>,
    before: TextStroke,
    cursor: TextCursor,
    after: TextStroke,
    moved: TextCursor,
    handled: bool,
) -> bool {
    let change = match backspace_edit(encode_utf8(before.text@), cursor.pos as int, prev) {
        Some(e) => Some((cursor.pos, e)),
        None => None,
    };
    key_leads_to(layout, change, before, cursor, after, moved, handled)
}

/// Whether delete led from one text and cursor to another, where `next` is the end of the user-perceived
/// character behind the automatic line break.
pub open spec fn delete_leads_to<L: Fn(&TextStroke) -> Option<Vec<Line>>>(
    layout: L,
    next: Option<usize>,
    before: TextStroke,
    cursor: TextCursor,
    after: TextStroke,
    moved: TextCursor,
    handled: bool,
) -> bool {
    let change = match delete_edit(encode_utf8(before.text@), cursor.pos as int, next) {
        Some(e) => Some((cursor.pos, e)),
        None => None,
    };
    key_leads_to(layout, change, before, cursor, after, moved, handled)
}

impl TextStroke {
    /// Handle backspace at the start of a list item's text, which removes the marker, and at the
    /// start of a wrapped line, which removes what is in front of the automatic line break.
    ///
    /// Returns `false` without changing anything otherwise.
    pub fn list_backspace<L: Fn(&TextStroke) -> Option<Vec<Line>>>(
        &mut self,
        cursor: &mut TextCursor,
        layout: &L,
    ) -> (r: bool)
        requires
            bytes::at_boundary(encode_utf8(old(self).text@), old(cursor).pos as int),
            reflow::lays_out(*layout),
        ensures
            backspace_leads_to(
                *layout,
                start_before_break(old(self).text@, old(cursor).pos),
                *old(self),
                *old(cursor),
                *final(self),
                *final(cursor),
                r,
            ),
            final(self).model(seq![final(cursor).pos]).valid(),
            at_end(*old(self), old(cursor).pos) ==> at_end(*final(self), final(cursor).pos),
            final(self).same_base_style(old(self)),
    {
        let ghost b = encode_utf8(self.text@);
        let pos: usize = cursor.cur_cursor();
        let _len: usize = self.text.as_str().as_bytes().len();
        proof {
            encode_utf8_valid_utf8(self.text@);
            softbreak::lemma_soft_break_around(b, pos as int);
        }
        let mut prev: Option<usize> = None;
        if let Some(soft_break) = softbreak::soft_break_before(self.text.as_str(), pos) {
            if soft_break.end == pos {
                prev = grapheme::prev_boundary(self.text.as_str(), soft_break.start);
            }
        }
        self.list_backspace_to(cursor, prev, layout)
    }

    /// Handle backspace as [`TextStroke::list_backspace`] does, where `prev` is the start of the
    /// user-perceived character in front of the automatic line break, if there is one.
    pub fn list_backspace_to<L: Fn(&TextStroke) -> Option<Vec<Line>>>(
        &mut self,
        cursor: &mut TextCursor,
        prev: Option<usize>,
        layout: &L,
    ) -> (r: bool)
        requires
            bytes::at_boundary(encode_utf8(old(self).text@), old(cursor).pos as int),
            break_ending_at(encode_utf8(old(self).text@), old(cursor).pos as int) matches Some(start)
                ==> (prev matches Some(p) ==> p <= start && bytes::at_boundary(
                encode_utf8(old(self).text@),
                p as int,
            )),
            reflow::lays_out(*layout),
        ensures
            backspace_leads_to(
                *layout,
                prev,
                *old(self),
                *old(cursor),
                *final(self),
                *final(cursor),
                r,
            ),
            final(self).model(seq![final(cursor).pos]).valid(),
            at_end(*old(self), old(cursor).pos) ==> at_end(*final(self), final(cursor).pos),
            final(self).same_base_style(old(self)),
    {
        let ghost b = encode_utf8(self.text@);
        let pos: usize = cursor.cur_cursor();
        let _len: usize = self.text.as_str().as_bytes().len();
        proof {
            encode_utf8_valid_utf8(self.text@);
            softbreak::lemma_soft_break_around(b, pos as int);
            syntax::lemma_item_at(b, pos as int);
        }
        let mut soft_break: Option<usize> = None;
        if let Some(r) = softbreak::soft_break_before(self.text.as_str(), pos) {
            if r.end == pos {
                soft_break = Some(r.start);
            }
        }
        let (start, end): (usize, usize) = match soft_break {
            Some(start) => match prev {
                Some(p) => (p, start),
                None => {
                    return false;
                },
            },
            None => match syntax::list_item_at(self.text.as_str(), pos) {
                Some(item) => {
                    if pos != item.content_start {
                        return false;
                    }
                    (item.marker_start, item.content_start)
                },
                None => {
                    return false;
                },
            },
        };
        self.list_remove(start, end, cursor, layout);
        true
    }

    /// Handle delete in front of an automatic line break, which removes what follows the break,
    /// and at the end of a paragraph followed by a list item, which removes the item's marker
    /// together with the newline.
    ///
    /// Returns `false` without changing anything otherwise.
    pub fn list_delete<L: Fn(&TextStroke) -> Option<Vec<Line>>>(
        &mut self,
        cursor: &mut TextCursor,
        layout: &L,
    ) -> (r: bool)
        requires
            bytes::at_boundary(encode_utf8(old(self).text@), old(cursor).pos as int),
            reflow::lays_out(*layout),
        ensures
            delete_leads_to(
                *layout,
                end_behind_break(old(self).text@, old(cursor).pos),
                *old(self),
                *old(cursor),
                *final(self),
                *final(cursor),
                r,
            ),
            final(self).model(seq![final(cursor).pos]).valid(),
            at_end(*old(self), old(cursor).pos) ==> at_end(*final(self), final(cursor).pos),
            final(self).same_base_style(old(self)),
    {
        let ghost b = encode_utf8(self.text@);
        let pos: usize = cursor.cur_cursor();
        let bytes = self.text.as_str().as_bytes();
        let _len: usize = bytes.len();
        let mut next: Option<usize> = None;
        if syntax::has_three(bytes, pos, 0xe2, 0x80, 0xa8) {
            proof {
                encode_utf8_valid_utf8(self.text@);
                lemma_break_starting_at(b, pos as int);
            }
            let end: usize = softbreak::skip_indent(bytes, pos + 3);
            next = grapheme::next_boundary(self.text.as_str(), end);
        }
        self.list_delete_to(cursor, next, layout)
    }

    /// Handle delete as [`TextStroke::list_delete`] does, where `next` is the end of the
    /// user-perceived character behind the automatic line break, if there is one.
    pub fn list_delete_to<L: Fn(&TextStroke) -> Option<Vec<Line>>>(
        &mut self,
        cursor: &mut TextCursor,
        next: Option<usize>,
        layout: &L,
    ) -> (r: bool)
        requires
            bytes::at_boundary(encode_utf8(old(self).text@), old(cursor).pos as int),
            break_starting_at(encode_utf8(old(self).text@), old(cursor).pos as int) matches Some(end)
                ==> (next matches Some(n) ==> end <= n && bytes::at_boundary(
                encode_utf8(old(self).text@),
                n as int,
            )),
            reflow::lays_out(*layout),
        ensures
            delete_leads_to(
                *layout,
                next,
                *old(self),
                *old(cursor),
                *final(self),
                *final(cursor),
                r,
            ),
            final(self).model(seq![final(cursor).pos]).valid(),
            at_end(*old(self), old(cursor).pos) ==> at_end(*final(self), final(cursor).pos),
            final(self).same_base_style(old(self)),
    {
        let ghost b = encode_utf8(self.text@);
        let pos: usize = cursor.cur_cursor();
        let bytes = self.text.as_str().as_bytes();
        let len: usize = bytes.len();
        proof {
            encode_utf8_valid_utf8(self.text@);
        }
        let (start, end): (usize, usize) = if syntax::has_three(bytes, pos, 0xe2, 0x80, 0xa8) {
            proof {
                lemma_break_starting_at(b, pos as int);
            }
            let end: usize = softbreak::skip_indent(bytes, pos + 3);
            match next {
                Some(n) => (end, n),
                None => {
                    return false;
                },
            }
        } else {
            assert(break_starting_at(b, pos as int) is None);
            if pos < len && bytes[pos] == 0x0a {
                proof {
                    bytes::lemma_step(b, pos as int);
                    syntax::lemma_item_at(b, pos + 1);
                }
                match syntax::list_item_at(self.text.as_str(), pos + 1) {
                    Some(item) => (pos, item.content_start),
                    None => {
                        return false;
                    },
                }
            } else {
                return false;
            }
        };
        self.list_remove(start, end, cursor, layout);
        true
    }

    /// Remove a range and bring the lists up to date.
    fn list_remove<L: Fn(&TextStroke) -> Option<Vec<Line>>>(
        &mut self,
        start: usize,
        end: usize,
        cursor: &mut TextCursor,
        layout: &L,
    )
        requires
            bytes::at_boundary(encode_utf8(old(self).text@), old(cursor).pos as int),
            start <= end,
            bytes::at_boundary(encode_utf8(old(self).text@), start as int),
            bytes::at_boundary(encode_utf8(old(self).text@), end as int),
            encode_utf8(old(self).text@).len() <= usize::MAX,
            reflow::lays_out(*layout),
        ensures
            relayout_leads_to(
                *layout,
                old(self).model(seq![old(cursor).pos]).edited(
                    renumber::removal(start as int, end as int),
                ),
                *old(self),
                *final(self),
                seq![final(cursor).pos],
            ),
            old(self).model(seq![old(cursor).pos]).edited(
                renumber::removal(start as int, end as int),
            ).valid(),
            final(cursor).len == encode_utf8(final(self).text@).len(),
            final(self).model(seq![final(cursor).pos]).valid(),
            at_end(*old(self), old(cursor).pos) ==> at_end(*final(self), final(cursor).pos),
            final(self).same_base_style(old(self)),
    {
        let ghost m = self.model(seq![cursor.pos]);
        let mut positions: Vec<usize> = Vec::new();
        positions.push(cursor.cur_cursor());
        proof {
            encode_utf8_valid_utf8(self.text@);
            assert(positions@ =~= m.positions);
            reveal_strlit("");
            assert(encode_utf8(""@) =~= Seq::<u8>::empty());
            encode_utf8_valid_utf8(""@);
        }
        self.replace_range_mapped(Range { start, end }, "", &mut positions);
        assert(self.model(positions@) == m.edited(renumber::removal(start as int, end as int)));
        self.finish_edit(&mut positions, cursor, layout);
    }
}

/// The indentation behind an automatic line break ends between two characters.
pub proof fn lemma_break_starting_at(b: Seq<u8>, pos: int)
    requires
        valid_utf8(b),
        syntax::soft_break_at(b, pos),
    ensures
        pos + 3 <= softbreak::indent_end(b, pos + 3) <= b.len(),
        bytes::at_boundary(b, softbreak::indent_end(b, pos + 3)),
{
    bytes::lemma_step(b, pos);
    softbreak::lemma_indent_end(b, pos + 3);
    softbreak::lemma_indent_end_boundary(b, pos + 3);
}

// ---------------------------------------------------------------------------------------------
// Typing and copying

/// Whether the typed text is a space.
pub open spec fn is_space(typed: Option<&str>) -> bool {
    typed matches Some(t) && t@ == seq![' ']
}

/// The positions of the cursor and, where there is one, of the other end of the selection.
pub open spec fn cursor_positions(pos: usize, selection: Option<usize>) -> Seq<usize> {
    match selection {
        Some(s) => seq![pos, s],
        None => seq![pos],
    }
}

/// The position of the other end of the selection.
pub open spec fn position_of(selection_cursor: Option<&mut TextCursor>) -> Option<usize> {
    match selection_cursor {
        Some(s) => Some(s.pos),
        None => None,
    }
}

/// What is copied of a range of the text.
pub open spec fn copied(b: Seq<u8>, start: int, end: int) -> Seq<u8> {
    softbreak::stripped(b.subrange(start, end))
}

impl EditModel {
    /// With a `- ` or `* ` in front of the first position turned into a bullet, if a space was
    /// typed there.
    pub open spec fn typed(self, typed: Option<&str>) -> EditModel {
        if is_space(typed) {
            self.edited_if(autoformat_edit(self.text, self.positions[0] as int))
        } else {
            self
        }
    }
}

/// Whether bringing the lists up to date after `typed` was typed led from one text with its cursors to
/// another. Text without lists is left alone.
pub open spec fn update_leads_to<L: Fn(&TextStroke) -> Option<Vec<Line>>>(
    layout: L,
    typed: Option<&str>,
    before: TextStroke,
    cursors: (TextCursor, Option<TextCursor>),
    after: TextStroke,
    moved: (TextCursor, Option<TextCursor>),
) -> bool {
    let selection = match cursors.1 {
        Some(s) => Some(s.pos),
        None => None,
    };
    let m = before.model(cursor_positions(cursors.0.pos, selection));
    if !is_space(typed) && !softbreak::has_soft_break(m.text) && syntax::items(m.text).len() == 0 {
        after == before && moved == cursors
    } else {
        &&& m.typed(typed).valid()
        &&& cursors_follow(layout, m.typed(typed), before, after, moved.0, moved.1)
    }
}

impl TextStroke {
    /// Bring the lists up to date after the text was edited.
    ///
    /// Turns a typed `- ` or `* ` at the start of a paragraph into a bullet, renumbers the numbered
    /// lists and recreates the hanging indents of wrapped list items. `typed` is the text that was
    /// just typed at the cursor, if any.
    ///
    /// Returns whether the text changed.
    pub fn update_lists<L: Fn(&TextStroke) -> Option<Vec<Line>>>(
        &mut self,
        cursor: &mut TextCursor,
        selection_cursor: Option<&mut TextCursor>,
        typed: Option<&str>,
        layout: &L,
    ) -> (r: bool)
        requires
            bytes::at_boundary(encode_utf8(old(self).text@), old(cursor).pos as int),
            selection_cursor matches Some(s) ==> bytes::at_boundary(
                encode_utf8(old(self).text@),
                s.pos as int,
            ),
            reflow::lays_out(*layout),
        ensures
            r == (final(self).text@ != old(self).text@),
            update_leads_to(
                *layout,
                typed,
                *old(self),
                (
                    *old(cursor),
                    match selection_cursor {
                        Some(s) => Some(*s),
                        None => None,
                    },
                ),
                *final(self),
                (
                    *final(cursor),
                    match selection_cursor {
                        Some(s) => Some(*final(s)),
                        None => None,
                    },
                ),
            ),
            at_end(*old(self), old(cursor).pos) ==> at_end(*final(self), final(cursor).pos),
            selection_cursor matches Some(s) ==> at_end(*old(self), s.pos) ==> at_end(
                *final(self),
                final(s).pos,
            ),
            final(self).same_base_style(old(self)),
    {
        let ghost before = *self;
        let typed_space: bool = match typed {
            Some(t) => is_one_space(t),
            None => false,
        };
        if !typed_space && !softbreak::contains_soft_break(self.text.as_str())
            && syntax::list_items(self.text.as_str()).len() == 0 {
            return false;
        }
        let text_before: String = self.text.clone();
        let pos: usize = cursor.cur_cursor();
        let mut positions: Vec<usize> = Vec::new();
        positions.push(pos);
        if let Some(s) = &selection_cursor {
            positions.push(s.cur_cursor());
        }
        let _len: usize = self.text.as_str().as_bytes().len();
        let ghost m = before.model(cursor_positions(pos, position_of(selection_cursor)));
        proof {
            encode_utf8_valid_utf8(self.text@);
            assert(positions@ =~= m.positions);
        }
        if typed_space {
            self.autoformat_bullet(pos, &mut positions);
        }
        let ghost edited = self.model(positions@);
        assert(edited == m.typed(typed));
        self.relayout_lists(&mut positions, layout);
        assert(relayout_leads_to(*layout, edited, before, *self, positions@));
        let len: usize = self.text.as_str().as_bytes().len();
        *cursor = TextCursor::new(positions[0], len);
        if let Some(s) = selection_cursor {
            *s = TextCursor::new(positions[1], len);
        }
        self.text != text_before
    }

    /// The text in the given range, without the automatic line breaks.
    pub fn text_without_soft_breaks(&self, range: Range<usize>) -> (r: String)
        requires
            range.start <= range.end,
            bytes::at_boundary(encode_utf8(self.text@), range.start as int),
            bytes::at_boundary(encode_utf8(self.text@), range.end as int),
        ensures
            encode_utf8(r@) == copied(
                encode_utf8(self.text@),
                range.start as int,
                range.end as int,
            ),
    {
        let text = bytes::substr(self.text.as_str(), range.start, range.end);
        let b = text.as_bytes();
        let n: usize = b.len();
        let mut out = String::new();
        // Start of the text that was not copied yet.
        let mut from: usize = 0;
        let mut i: usize = 0;
        proof {
            encode_utf8_valid_utf8(text@);
            bytes::lemma_boundary(b@, 0);
            assert(encode_utf8(out@) + b@.subrange(0, 0) + softbreak::stripped_from(b@, 0)
                =~= softbreak::stripped(b@));
        }
        while i < n
            invariant
                n == b@.len(),
                b@ == encode_utf8(text@),
                valid_utf8(b@),
                from <= i <= n,
                bytes::at_boundary(b@, from as int),
                encode_utf8(out@) + b@.subrange(from as int, i as int) + softbreak::stripped_from(
                    b@,
                    i as int,
                ) == softbreak::stripped(b@),
            decreases n - i,
        {
            if syntax::has_three(b, i, 0xe2, 0x80, 0xa8) {
                assert(syntax::soft_break_at(b@, i as int));
                proof {
                    lemma_break_starting_at(b@, i as int);
                }
                let piece = bytes::substr(text, from, i);
                proof {
                    bytes::lemma_encode_concat(out@, piece@);
                }
                out.append(piece);
                i = softbreak::skip_indent(b, i + 3);
                from = i;
                assert(b@.subrange(from as int, i as int) =~= Seq::<u8>::empty());
                assert(encode_utf8(out@) + b@.subrange(from as int, i as int) =~= encode_utf8(
                    out@,
                ));
            } else {
                assert(!syntax::soft_break_at(b@, i as int));
                assert(encode_utf8(out@) + b@.subrange(from as int, i + 1)
                    + softbreak::stripped_from(b@, i + 1) =~= encode_utf8(out@) + b@.subrange(
                    from as int,
                    i as int,
                ) + softbreak::stripped_from(b@, i as int));
                i += 1;
            }
        }
        proof {
            bytes::lemma_boundary(b@, n as int);
        }
        let piece = bytes::substr(text, from, n);
        proof {
            bytes::lemma_encode_concat(out@, piece@);
            assert(softbreak::stripped_from(b@, n as int) =~= Seq::<u8>::empty());
            assert(encode_utf8(out@ + piece@) =~= softbreak::stripped(b@));
        }
        out.append(piece);
        out
    }
}

/// Whether the text is a single space.
fn is_one_space(text: &str) -> (r: bool)
    ensures
        r == (text@ == seq![' ']),
{
    let b = text.as_bytes();
    let r: bool = b.len() == 1 && b[0] == 0x20;
    proof {
        bytes::lemma_encode_one(' ');
        bytes::lemma_utf8_ascii(' ');
        if r {
            assert(b@ =~= encode_utf8(seq![' ']));
            bytes::lemma_encode_injective(text@, seq![' ']);
        }
    }
    r
}

// ---------------------------------------------------------------------------------------------
// Laws

/// Where the cursor belongs it stays, in whichever direction it is said to move.
pub proof fn law_the_cursor_comes_to_rest(b: Seq<u8>, pos: int, forward: bool, again: bool)
    requires
        valid_utf8(b),
        b.len() <= usize::MAX,
        0 <= pos,
        clamps_to_boundary(b, pos),
    ensures
        normalized(b, normalized(b, pos, forward), again) == normalized(b, pos, forward),
{
    let p = if pos <= b.len() {
        pos
    } else {
        b.len() as int
    };
    bytes::lemma_boundary(b, p);
    lemma_normalized(b, pos, forward);
    let n = normalized(b, pos, forward);
    softbreak::lemma_soft_break_around(b, p);
    softbreak::lemma_soft_break_around(b, n);
    syntax::lemma_item_at(b, p);
    syntax::lemma_item_at(b, n);
    syntax::lemma_para_start(b, p);
    syntax::lemma_para_end(b, p);
    match softbreak::soft_break_around(b, p) {
        Some(r) if p < r.end => {
            softbreak::lemma_indent_end(b, r.start + 3);
            softbreak::lemma_indent_end(b, n);
            lemma_break_in_item(b, r.start as int);
            // The paragraph holds the whole break.
            lemma_same_paragraph(b, r.start as int, r.end as int);
        },
        _ => if let Some(item) = syntax::item_at(b, p) {
            if p < item.content_start {
                if n == item.content_start {
                    lemma_same_paragraph(b, p, n);
                    lemma_behind_marker(b, item);
                } else {
                    syntax::lemma_para_end_unique(b, n, n);
                    softbreak::lemma_indent_end(b, n);
                }
            }
        },
    }
}

/// Positions without a newline between them lie in the same paragraph.
proof fn lemma_same_paragraph(b: Seq<u8>, p: int, q: int)
    requires
        0 <= p <= q <= b.len(),
        forall|i: int| p <= i < q ==> b[i] != 0x0a,
    ensures
        syntax::para_start(b, p) == syntax::para_start(b, q),
        syntax::para_end(b, p) == syntax::para_end(b, q),
{
    syntax::lemma_para_start(b, p);
    syntax::lemma_para_start_unique(b, q, syntax::para_start(b, p));
    syntax::lemma_para_end(b, q);
    syntax::lemma_para_end_unique(b, p, syntax::para_end(b, q));
}

/// Automatic line breaks in list items come behind the marker.
pub proof fn lemma_break_in_item(b: Seq<u8>, s: int)
    requires
        valid_utf8(b),
        b.len() <= usize::MAX,
        syntax::soft_break_at(b, s),
    ensures
        syntax::item_at(b, s) matches Some(item) ==> item.content_start <= s,
{
    syntax::lemma_item_at(b, s);
    syntax::lemma_para_start(b, s);
    syntax::lemma_para_end(b, s);
    syntax::lemma_para_boundaries(b, s);
    syntax::lemma_item_in(b, syntax::para_start(b, s), syntax::para_end(b, s));
    if let Some(item) = syntax::item_at(b, s) {
        syntax::lemma_digits_end(b, item.marker_start as int, item.end as int);
    }
}

/// Behind the marker of an item there is no indentation of a wrapped line.
pub proof fn lemma_behind_marker(b: Seq<u8>, item: ListItem)
    requires
        valid_utf8(b),
        b.len() <= usize::MAX,
        item.content_start <= b.len(),
        syntax::item_at(b, item.content_start as int) == Some(item),
    ensures
        softbreak::soft_break_around(b, item.content_start as int) is None,
{
    let cs = item.content_start as int;
    syntax::lemma_item_at(b, cs);
    syntax::lemma_para_boundaries(b, cs);
    syntax::lemma_para_start(b, cs);
    syntax::lemma_para_end(b, cs);
    syntax::lemma_item_in(b, syntax::para_start(b, cs), syntax::para_end(b, cs));
    syntax::lemma_digits_end(b, item.marker_start as int, item.end as int);
    assert(softbreak::indent_start(b, cs) == softbreak::indent_start(b, cs - 1));
    assert(softbreak::indent_start(b, cs - 1) == cs - 1);
}

/// Text that does not wrap, or is not aligned at the start, gets no automatic line breaks: it only
/// loses those it had, and gets its numbers.
pub proof fn law_text_that_is_not_wrapped_is_not_broken<
    L: Fn(&TextStroke) -> Option<Vec<Line>>,
>(layout: L, m: EditModel, base: TextStroke, to: TextStroke, end: Seq<usize>)
    requires
        relayout_leads_to(layout, m, base, to, end),
        !base.text_style.wraps || base.text_style.alignment != TextAlignment::Start,
    ensures
        to.model(end) == m.relaid(),
{
}

/// Copying the text of lists that were brought up to date gives their text as it was before the
/// wrapped lines were lined up, when the layout does not wrap lines in front of spaces.
pub proof fn law_lists_are_copied_without_soft_breaks<
    L: Fn(&TextStroke) -> Option<Vec<Line>>,
>(layout: L, m: EditModel, base: TextStroke, to: TextStroke, end: Seq<usize>)
    requires
        reflow::lays_out(layout),
        reflow::wraps_behind_spaces(layout),
        m.text.len() <= usize::MAX,
        valid_utf8(m.text),
        m.relaid().text.len() <= usize::MAX,
        relayout_leads_to(layout, m, base, to, end),
    ensures
        softbreak::stripped(encode_utf8(to.text@)) == m.relaid().text,
{
    let relaid = choose|relaid: TextStroke| #[trigger]
        relaid.model(m.relaid().positions) == m.relaid() && relaid.same_base_style(&base)
            && reflow::reflowed(layout, relaid, m.relaid().positions, to, end);
    numbering::law_updating_again_changes_no_text(m);
    encode_utf8_valid_utf8(relaid.text@);
    softbreak::law_stripping_changes_nothing_else(m.relaid().text);
    if base.text_style.wraps && base.text_style.alignment == TextAlignment::Start {
        reflow::law_lining_up_keeps_the_text(
            layout,
            relaid,
            m.relaid().positions,
            Seq::empty(),
            reflow::MAX_REFLOW_ITERATIONS as nat,
            to,
            end,
        );
    }
}

} // verus!
