//! Hanging indents: lining up the wrapped lines of list items.
//!
//! Where lines wrap is found by laying the text out. The functions here take what a layout says,
//! and put automatic line breaks with an indentation into the text.

use crate::attrs;
use crate::bytes;
use crate::edit;
use crate::edit::{Edit, EditModel, TextAlignment, TextStroke};
use crate::marker;
use crate::renumber;
use crate::softbreak;
use crate::syntax;
use std::ops::Range;
use vstd::prelude::*;
use vstd::utf8::*;

verus! {

broadcast use syntax::group_char_bytes;

/// Upper bound for the hanging indents inserted in one go.
pub const MAX_REFLOW_ITERATIONS: usize = 2000;

/// The indentation of a wrapped line.
#[derive(Debug, Clone, Copy, PartialEq, Eq, Structural)]
pub struct Indent {
    pub spaces: usize,
    pub hair_spaces: usize,
}

/// A line of a text that was laid out.
#[derive(Debug, Clone, Copy, PartialEq, Eq, Structural)]
pub struct Line {
    /// Where the line starts in the text.
    pub start: usize,
    /// The indentation that lines it up with the text of the list item it belongs to. There is
    /// none when it belongs to no item, and when the indentation does not fit.
    pub indent: Option<Indent>,
}

impl Indent {
    /// The automatic line break with the indentation.
    pub open spec fn chars(self) -> Seq<char> {
        seq![syntax::SOFT_BREAK] + marker::repeated(' ', self.spaces as nat) + marker::repeated(
            syntax::HAIR_SPACE,
            self.hair_spaces as nat,
        )
    }

    /// The automatic line break with the indentation.
    pub fn soft_break(self) -> (r: String)
        ensures
            r@ == self.chars(),
    {
        let mut s = String::new();
        s.push(syntax::SOFT_BREAK);
        marker::push_repeated(&mut s, ' ', self.spaces);
        marker::push_repeated(&mut s, syntax::HAIR_SPACE, self.hair_spaces);
        assert(s@ =~= self.chars());
        s
    }
}

/// Whether a line of a list item that starts at `pos` wrapped without an automatic line break.
pub open spec fn unmarked_wrap(b: Seq<u8>, skipped: Seq<usize>, pos: usize) -> bool {
    &&& !(pos > 0 && b[pos - 1] == 0x0a)
    &&& !syntax::soft_break_at(b, pos - 3)
    &&& !syntax::soft_break_at(b, pos as int)
    &&& !skipped.contains(pos)
    &&& syntax::item_at(b, pos as int) matches Some(item) && item.start < pos
}

/// The first of the lines from `k` on that wrapped without an automatic line break.
pub open spec fn first_wrap(b: Seq<u8>, skipped: Seq<usize>, lines: Seq<Line>, k: int) -> Option<
    int,
>
    decreases lines.len() - k,
{
    if k >= lines.len() {
        None
    } else if unmarked_wrap(b, skipped, lines[k].start) {
        Some(k)
    } else {
        first_wrap(b, skipped, lines, k + 1)
    }
}

impl EditModel {
    /// With the part of the attributes between two positions removed.
    pub open spec fn with_cut_attrs(self, start: int, end: int) -> EditModel {
        EditModel {
            text: self.text,
            attrs: attrs::cut(self.attrs, start, end),
            positions: self.positions,
        }
    }

    /// With an automatic line break inserted. The indentation gets no attributes.
    pub open spec fn with_soft_break(self, pos: int, indent: Indent) -> EditModel {
        let text = encode_utf8(indent.chars());
        self.edited(Edit { start: pos, end: pos, text }).with_cut_attrs(pos, pos + text.len())
    }

    /// What one round of lining up changes, given how the text is laid out: nothing more when all
    /// wraps are dealt with. Wraps that are left as they are, because the indentation does not fit,
    /// are skipped from then on.
    pub open spec fn reflow_round(self, skipped: Seq<usize>, lines: Seq<Line>) -> Option<
        (EditModel, Seq<usize>),
    > {
        match first_wrap(self.text, skipped, lines, 1) {
            None => None,
            Some(k) => {
                let pos = lines[k].start;
                match softbreak::soft_break_around(self.text, lines[k - 1].start as int) {
                    Some(r) if r.end == pos => Some(
                        (
                            self.edited(renumber::removal(r.start as int, r.end as int)),
                            skipped.push(r.start),
                        ),
                    ),
                    _ => match lines[k].indent {
                        None => Some((self, skipped.push(pos))),
                        Some(indent) => Some((self.with_soft_break(pos as int, indent), skipped)),
                    },
                }
            },
        }
    }
}

/// Lines that start between characters of the text.
pub open spec fn lines_fit(b: Seq<u8>, lines: Seq<Line>) -> bool {
    forall|k: int|
        0 <= k < lines.len() ==> bytes::at_boundary(b, (#[trigger] lines[k]).start as int)
}

/// Whether a line of a list item that starts at `pos` wrapped without an automatic line break.
fn is_unmarked_wrap(text: &str, skipped: &Vec<usize>, pos: usize) -> (r: bool)
    requires
        bytes::at_boundary(encode_utf8(text@), pos as int),
    ensures
        r == unmarked_wrap(encode_utf8(text@), skipped@, pos),
{
    let b = text.as_bytes();
    if pos > 0 && b[pos - 1] == 0x0a {
        return false;
    }
    if pos >= 3 && syntax::has_three(b, pos - 3, 0xe2, 0x80, 0xa8) {
        return false;
    }
    assert(!syntax::soft_break_at(b@, pos - 3));
    if syntax::has_three(b, pos, 0xe2, 0x80, 0xa8) {
        return false;
    }
    let mut k: usize = 0;
    while k < skipped.len()
        invariant
            k <= skipped@.len(),
            forall|j: int| 0 <= j < k ==> skipped@[j] != pos,
        decreases skipped@.len() - k,
    {
        if skipped[k] == pos {
            assert(skipped@.contains(pos));
            return false;
        }
        k += 1;
    }
    match syntax::list_item_at(text, pos) {
        Some(item) => item.start < pos,
        None => false,
    }
}

impl TextStroke {
    /// One round of lining up the wrapped lines of list items, given how the text is laid out.
    ///
    /// Deals with the first line of a list item that wrapped without an automatic line break, and
    /// returns whether there was one.
    pub fn reflow_round(
        &mut self,
        lines: &Vec<Line>,
        skipped: &mut Vec<usize>,
        positions: &mut Vec<usize>,
    ) -> (r: bool)
        requires
            old(self).model(old(positions)@).valid(),
            lines_fit(encode_utf8(old(self).text@), lines@),
        ensures
            match old(self).model(old(positions)@).reflow_round(old(skipped)@, lines@) {
                None => !r && *final(self) == *old(self) && *final(skipped) == *old(skipped)
                    && *final(positions) == *old(positions),
                Some((m, s)) => r && final(self).model(final(positions)@) == m && final(skipped)@
                    == s,
            },
            final(self).model(final(positions)@).valid(),
            final(positions)@.len() == old(positions)@.len(),
            final(self).same_base_style(old(self)),
    {
        let ghost b = encode_utf8(self.text@);
        let mut k: usize = 1;
        while k < lines.len()
            invariant
                1 <= k,
                b == encode_utf8(self.text@),
                lines_fit(b, lines@),
                first_wrap(b, skipped@, lines@, k as int) == first_wrap(b, skipped@, lines@, 1),
                *self == *old(self),
                *skipped == *old(skipped),
                *positions == *old(positions),
                self.model(positions@).valid(),
            decreases lines@.len() - k,
        {
            let pos: usize = lines[k].start;
            let prev: usize = lines[k - 1].start;
            assert(bytes::at_boundary(b, lines@[k as int].start as int));
            assert(bytes::at_boundary(b, lines@[k - 1].start as int));
            if is_unmarked_wrap(self.text.as_str(), skipped, pos) {
                assert(first_wrap(b, skipped@, lines@, 1) == Some(k as int));
                let indent = lines[k].indent;
                self.deal_with_wrap(pos, prev, indent, skipped, positions);
                return true;
            }
            k += 1;
        }
        assert(first_wrap(b, skipped@, lines@, 1) is None);
        false
    }

    /// Line up the line that starts at `pos`, if that can be done.
    fn deal_with_wrap(
        &mut self,
        pos: usize,
        prev: usize,
        indent: Option<Indent>,
        skipped: &mut Vec<usize>,
        positions: &mut Vec<usize>,
    )
        requires
            old(self).model(old(positions)@).valid(),
            bytes::at_boundary(encode_utf8(old(self).text@), pos as int),
            bytes::at_boundary(encode_utf8(old(self).text@), prev as int),
        ensures
            ({
                let m = old(self).model(old(positions)@);
                let after = final(self).model(final(positions)@);
                match softbreak::soft_break_around(m.text, prev as int) {
                    Some(r) if r.end == pos => after == m.edited(
                        renumber::removal(r.start as int, r.end as int),
                    ) && final(skipped)@ == old(skipped)@.push(r.start),
                    _ => match indent {
                        None => after == m && final(skipped)@ == old(skipped)@.push(pos),
                        Some(indent) => after == m.with_soft_break(pos as int, indent)
                            && final(skipped)@ == old(skipped)@,
                    },
                }
            }),
            final(self).model(final(positions)@).valid(),
            final(positions)@.len() == old(positions)@.len(),
            final(self).same_base_style(old(self)),
    {
        let ghost b = encode_utf8(self.text@);
        let ghost m = self.model(positions@);
        // When the previous line holds nothing but the indentation, the following word does not
        // fit next to it. Then this wrap is left without the indentation.
        if let Some(r) = softbreak::soft_break_before(self.text.as_str(), prev) {
            if r.end == pos {
                proof {
                    softbreak::lemma_soft_break_around(b, prev as int);
                    assert(encode_utf8(""@) =~= Seq::<u8>::empty()) by {
                        reveal_strlit("");
                    }
                    encode_utf8_valid_utf8(""@);
                }
                let range: Range<usize> = Range { start: r.start, end: r.end };
                self.replace_range_mapped(range, "", positions);
                skipped.push(r.start);
                return;
            }
        }
        match indent {
            None => {
                skipped.push(pos);
            },
            Some(indent) => {
                let soft_break = indent.soft_break();
                proof {
                    encode_utf8_valid_utf8(soft_break@);
                    bytes::lemma_splice(b, pos as int, pos as int, encode_utf8(soft_break@));
                }
                let len: usize = soft_break.as_str().as_bytes().len();
                self.replace_range_mapped(Range { start: pos, end: pos }, soft_break.as_str(), positions);
                let new_len: usize = self.text.as_str().as_bytes().len();
                assert(pos + len <= new_len);
                let ghost inserted = self.model(positions@);
                // The indentation is measured without the ranged attributes, so it must not get any.
                self.remove_attrs_for_range(Range { start: pos, end: pos + len });
                assert(self.model(positions@) == inserted.with_cut_attrs(pos as int, pos + len));
            },
        }
    }
}

/// A layout that can be asked for any text, and whose lines start between characters of the text.
pub open spec fn lays_out<L: Fn(&TextStroke) -> Option<Vec<Line>>>(layout: L) -> bool {
    &&& forall|t: &TextStroke| #[trigger] call_requires(layout, (t,))
    &&& forall|t: &TextStroke, answer: Option<Vec<Line>>| #[trigger]
        call_ensures(layout, (t,), answer) ==> (answer matches Some(lines) ==> lines_fit(
            encode_utf8(t.text@),
            lines@,
        ))
}

/// Whether at most `rounds` rounds lead from one text to another, where each round gets an answer
/// of the layout for the text it starts with. Rounds end when no list item is left to line up, and
/// when the text cannot be laid out.
pub open spec fn reflow_leads_to<L: Fn(&TextStroke) -> Option<Vec<Line>>>(
    layout: L,
    from: TextStroke,
    positions: Seq<usize>,
    skipped: Seq<usize>,
    rounds: nat,
    to: TextStroke,
    end: Seq<usize>,
) -> bool
    decreases rounds,
{
    if rounds == 0 || syntax::items(encode_utf8(from.text@)).len() == 0 {
        to == from && end == positions
    } else {
        exists|answer: Option<Vec<Line>>| #[trigger]
            call_ensures(layout, (&from,), answer) && match answer {
                None => to == from && end == positions,
                Some(lines) => match from.model(positions).reflow_round(skipped, lines@) {
                    None => to == from && end == positions,
                    Some((m, s)) => exists|next: TextStroke|
                        next.model(m.positions) == m && m.valid()
                            && #[trigger] next.same_base_style(&from) && reflow_leads_to(
                            layout,
                            next,
                            m.positions,
                            s,
                            (rounds - 1) as nat,
                            to,
                            end,
                        ),
                },
            }
    }
}

/// Whether lining up the wrapped lines of list items leads from one text to another. Only texts
/// that wrap and are aligned at the start are lined up.
pub open spec fn reflowed<L: Fn(&TextStroke) -> Option<Vec<Line>>>(
    layout: L,
    from: TextStroke,
    positions: Seq<usize>,
    to: TextStroke,
    end: Seq<usize>,
) -> bool {
    if from.text_style.wraps && from.text_style.alignment == TextAlignment::Start {
        reflow_leads_to(
            layout,
            from,
            positions,
            Seq::empty(),
            MAX_REFLOW_ITERATIONS as nat,
            to,
            end,
        )
    } else {
        to == from && end == positions
    }
}

impl TextStroke {
    /// Insert automatic line breaks with an indentation where list items wrap, so that the wrapped
    /// lines line up with the start of the item's text. `layout` lays out a text.
    ///
    /// Expects that there are no automatic line breaks in the text.
    pub fn reflow_list_items<L: Fn(&TextStroke) -> Option<Vec<Line>>>(
        &mut self,
        positions: &mut Vec<usize>,
        layout: &L,
    )
        requires
            old(self).model(old(positions)@).valid(),
            lays_out(*layout),
        ensures
            reflowed(*layout, *old(self), old(positions)@, *final(self), final(positions)@),
            final(self).model(final(positions)@).valid(),
            final(positions)@.len() == old(positions)@.len(),
            final(self).same_base_style(old(self)),
    {
        if !self.text_style.wraps || self.text_style.alignment != TextAlignment::Start {
            return;
        }
        let ghost from = *self;
        let ghost start = positions@;
        let mut skipped: Vec<usize> = Vec::new();
        let mut rounds: usize = MAX_REFLOW_ITERATIONS;
        assert(skipped@ =~= Seq::<usize>::empty());
        while rounds > 0
            invariant
                lays_out(*layout),
                self.model(positions@).valid(),
                self.same_base_style(&from),
                positions@.len() == start.len(),
                from == *old(self),
                start == old(positions)@,
                from.text_style.wraps,
                from.text_style.alignment == TextAlignment::Start,
                forall|to: TextStroke, end: Seq<usize>| #[trigger]
                    reflow_leads_to(
                        *layout,
                        *self,
                        positions@,
                        skipped@,
                        rounds as nat,
                        to,
                        end,
                    ) ==> reflowed(*layout, from, start, to, end),
            decreases rounds,
        {
            if syntax::list_items(self.text.as_str()).len() == 0 {
                assert(reflow_leads_to(
                    *layout,
                    *self,
                    positions@,
                    skipped@,
                    rounds as nat,
                    *self,
                    positions@,
                ));
                return;
            }
            let ghost now = *self;
            let ghost here = positions@;
            let ghost before = skipped@;
            let answer = layout(self);
            match answer {
                None => {
                    assert(call_ensures(*layout, (&now,), answer));
                    assert(reflow_leads_to(
                        *layout,
                        now,
                        here,
                        before,
                        rounds as nat,
                        now,
                        here,
                    ));
                    return;
                },
                Some(lines) => {
                    assert(call_ensures(*layout, (&now,), Some(lines)));
                    let again = self.reflow_round(&lines, &mut skipped, positions);
                    if !again {
                        assert(reflow_leads_to(
                            *layout,
                            now,
                            here,
                            before,
                            rounds as nat,
                            now,
                            here,
                        ));
                        return;
                    }
                    rounds -= 1;
                    assert forall|to: TextStroke, end: Seq<usize>| #[trigger]
                        reflow_leads_to(
                            *layout,
                            *self,
                            positions@,
                            skipped@,
                            rounds as nat,
                            to,
                            end,
                        ) implies reflowed(*layout, from, start, to, end) by {
                        assert(self.same_base_style(&now));
                        assert(reflow_leads_to(
                            *layout,
                            now,
                            here,
                            before,
                            (rounds + 1) as nat,
                            to,
                            end,
                        ));
                    }
                },
            }
        }
        assert(reflow_leads_to(*layout, *self, positions@, skipped@, 0, *self, positions@));
    }
}

// ---------------------------------------------------------------------------------------------
// Laws

/// Lines that do not start with a space or a hair space.
pub open spec fn lines_start_with_text(b: Seq<u8>, lines: Seq<Line>) -> bool {
    forall|k: int|
        0 <= k < lines.len() ==> !softbreak::starts_indented(
            b.subrange((#[trigger] lines[k]).start as int, b.len() as int),
        )
}

/// A layout that does not wrap lines in front of spaces.
pub open spec fn wraps_behind_spaces<L: Fn(&TextStroke) -> Option<Vec<Line>>>(layout: L) -> bool {
    forall|t: &TextStroke, answer: Option<Vec<Line>>| #[trigger]
        call_ensures(layout, (t,), answer) ==> (answer matches Some(lines) ==> lines_start_with_text(
            encode_utf8(t.text@),
            lines@,
        ))
}

proof fn lemma_repeated_indent(c: char, n: nat, w: Seq<u8>)
    requires
        syntax::indents(c),
    ensures
        softbreak::indent_end(encode_utf8(marker::repeated(c, n)) + w, 0) == encode_utf8(
            marker::repeated(c, n),
        ).len() + softbreak::indent_end(w, 0),
    decreases n,
{
    let t = encode_utf8(marker::repeated(c, n));
    if n == 0 {
        assert(marker::repeated(c, n) =~= Seq::<char>::empty());
        assert(t =~= Seq::<u8>::empty());
        assert(t + w =~= w);
    } else {
        let rest = encode_utf8(marker::repeated(c, (n - 1) as nat));
        lemma_repeated_indent(c, (n - 1) as nat, w);
        assert(marker::repeated(c, n) =~= seq![c] + marker::repeated(c, (n - 1) as nat));
        bytes::lemma_encode_concat(seq![c], marker::repeated(c, (n - 1) as nat));
        bytes::lemma_encode_one(c);
        let first = bytes::utf8(c);
        assert(t + w =~= first + (rest + w));
        softbreak::lemma_indent_end_suffix(first, rest + w, 0);
        if c == ' ' {
            bytes::lemma_utf8_ascii(c);
            assert((t + w)[0] == 0x20);
            assert(softbreak::indent_end(t + w, 0) == softbreak::indent_end(t + w, 1));
        } else {
            syntax::lemma_encodings();
            assert(syntax::three_at(t + w, 0, 0xe2, 0x80, 0x8a));
            assert(softbreak::indent_end(t + w, 0) == softbreak::indent_end(t + w, 3));
        }
    }
}

/// What is inserted at a wrap is an automatic line break with its indentation.
pub proof fn lemma_indent_bytes(indent: Indent)
    ensures
        ({
            let t = encode_utf8(indent.chars());
            &&& valid_utf8(t)
            &&& syntax::soft_break_at(t, 0)
            &&& softbreak::indent_end(t, 3) == t.len()
        }),
{
    let t = encode_utf8(indent.chars());
    let spaces = marker::repeated(' ', indent.spaces as nat);
    let hairs = marker::repeated(syntax::HAIR_SPACE, indent.hair_spaces as nat);
    let a = encode_utf8(spaces);
    let b = encode_utf8(hairs);
    encode_utf8_valid_utf8(indent.chars());
    bytes::lemma_encode_concat(seq![syntax::SOFT_BREAK] + spaces, hairs);
    bytes::lemma_encode_concat(seq![syntax::SOFT_BREAK], spaces);
    bytes::lemma_encode_one(syntax::SOFT_BREAK);
    syntax::lemma_encodings();
    let first = bytes::utf8(syntax::SOFT_BREAK);
    assert(t =~= first + (a + b));
    assert(syntax::three_at(t, 0, 0xe2, 0x80, 0xa8));
    softbreak::lemma_indent_end_suffix(first, a + b, 0);
    lemma_repeated_indent(' ', indent.spaces as nat, b);
    lemma_repeated_indent(
        syntax::HAIR_SPACE,
        indent.hair_spaces as nat,
        Seq::<u8>::empty(),
    );
    assert(b + Seq::<u8>::empty() =~= b);
}

/// An automatic line break with its indentation, taken out of the text.
pub proof fn lemma_break_bytes(b: Seq<u8>, start: int, end: int)
    requires
        valid_utf8(b),
        bytes::at_boundary(b, start),
        bytes::at_boundary(b, end),
        syntax::soft_break_at(b, start),
        end == softbreak::indent_end(b, start + 3),
        !softbreak::starts_indented(b.subrange(end, b.len() as int)),
    ensures
        syntax::soft_break_at(b.subrange(start, end), 0),
        softbreak::indent_end(b.subrange(start, end), 3) == end - start,
{
    softbreak::lemma_indent_end(b, start + 3);
    let x = b.subrange(0, start);
    let broken = b.subrange(start, end);
    let y = b.subrange(end, b.len() as int);
    bytes::lemma_sub_valid(b, start, end);
    assert(broken[0] == b[start] && broken[1] == b[start + 1] && broken[2] == b[start + 2]);
    softbreak::lemma_indent_end(broken, 3);
    assert(b =~= x + (broken + y));
    softbreak::lemma_indent_end_suffix(x, broken + y, 3);
    softbreak::lemma_indent_end_prefix(broken, y, 3);
}

/// A round of lining up changes nothing but automatic line breaks, when lines do not wrap in front
/// of spaces.
pub proof fn law_a_round_keeps_the_text(m: EditModel, skipped: Seq<usize>, lines: Seq<Line>)
    requires
        valid_utf8(m.text),
        m.text.len() <= usize::MAX,
        lines_fit(m.text, lines),
        lines_start_with_text(m.text, lines),
    ensures
        m.reflow_round(skipped, lines) matches Some((after, _)) ==> softbreak::stripped(after.text)
            == softbreak::stripped(m.text),
{
    let b = m.text;
    if let Some(k) = first_wrap(b, skipped, lines, 1) {
        lemma_first_wrap(b, skipped, lines, 1);
        let pos = lines[k].start as int;
        let prev = lines[k - 1].start as int;
        assert(bytes::at_boundary(b, lines[k].start as int));
        assert(bytes::at_boundary(b, lines[k - 1].start as int));
        assert(!softbreak::starts_indented(b.subrange(lines[k].start as int, b.len() as int)));
        softbreak::lemma_soft_break_around(b, prev);
        match softbreak::soft_break_around(b, prev) {
            Some(r) if r.end == pos => {
                let x = b.subrange(0, r.start as int);
                let broken = b.subrange(r.start as int, r.end as int);
                let y = b.subrange(r.end as int, b.len() as int);
                bytes::lemma_sub_valid(b, r.start as int, r.end as int);
                lemma_break_bytes(b, r.start as int, r.end as int);
                assert(b =~= x + broken + y);
                softbreak::law_soft_breaks_are_invisible(x, broken, y);
                assert(bytes::splice(b, r.start as int, r.end as int, Seq::<u8>::empty()) =~= x + y);
            },
            _ => {
                if let Some(indent) = lines[k].indent {
                    let t = encode_utf8(indent.chars());
                    let x = b.subrange(0, pos);
                    let y = b.subrange(pos, b.len() as int);
                    lemma_indent_bytes(indent);
                    bytes::lemma_sub_valid(b, pos, pos);
                    softbreak::law_soft_breaks_are_invisible(x, t, y);
                    assert(b =~= x + y);
                }
            },
        }
    }
}

pub proof fn lemma_first_wrap(b: Seq<u8>, skipped: Seq<usize>, lines: Seq<Line>, k: int)
    requires
        0 <= k,
    ensures
        first_wrap(b, skipped, lines, k) matches Some(j) ==> k <= j < lines.len() && unmarked_wrap(
            b,
            skipped,
            lines[j].start,
        ),
    decreases lines.len() - k,
{
    if k < lines.len() && !unmarked_wrap(b, skipped, lines[k].start) {
        lemma_first_wrap(b, skipped, lines, k + 1);
    }
}

/// Lining up changes nothing but automatic line breaks, when the layout does not wrap lines in
/// front of spaces.
pub proof fn law_lining_up_keeps_the_text<L: Fn(&TextStroke) -> Option<Vec<Line>>>(
    layout: L,
    from: TextStroke,
    positions: Seq<usize>,
    skipped: Seq<usize>,
    rounds: nat,
    to: TextStroke,
    end: Seq<usize>,
)
    requires
        lays_out(layout),
        wraps_behind_spaces(layout),
        encode_utf8(from.text@).len() <= usize::MAX,
        reflow_leads_to(layout, from, positions, skipped, rounds, to, end),
    ensures
        softbreak::stripped(encode_utf8(to.text@)) == softbreak::stripped(encode_utf8(from.text@)),
    decreases rounds,
{
    if rounds > 0 && syntax::items(encode_utf8(from.text@)).len() > 0 {
        let m = from.model(positions);
        let answer = choose|answer: Option<Vec<Line>>| #[trigger]
            call_ensures(layout, (&from,), answer) && match answer {
                None => to == from && end == positions,
                Some(lines) => match m.reflow_round(skipped, lines@) {
                    None => to == from && end == positions,
                    Some((m, s)) => exists|next: TextStroke|
                        next.model(m.positions) == m && m.valid()
                            && #[trigger] next.same_base_style(&from) && reflow_leads_to(
                            layout,
                            next,
                            m.positions,
                            s,
                            (rounds - 1) as nat,
                            to,
                            end,
                        ),
                },
            };
        if let Some(lines) = answer {
            if let Some((n, s)) = m.reflow_round(skipped, lines@) {
                let next = choose|next: TextStroke|
                    next.model(n.positions) == n && n.valid() && #[trigger] next.same_base_style(
                        &from,
                    ) && reflow_leads_to(
                        layout,
                        next,
                        n.positions,
                        s,
                        (rounds - 1) as nat,
                        to,
                        end,
                    );
                encode_utf8_valid_utf8(from.text@);
                law_a_round_keeps_the_text(m, skipped, lines@);
                law_lining_up_keeps_the_text(
                    layout,
                    next,
                    n.positions,
                    s,
                    (rounds - 1) as nat,
                    to,
                    end,
                );
            }
        }
    }
}

/// Lining up leaves positions at the end of the text at its end.
pub proof fn law_lining_up_keeps_ends<L: Fn(&TextStroke) -> Option<Vec<Line>>>(
    layout: L,
    from: TextStroke,
    positions: Seq<usize>,
    skipped: Seq<usize>,
    rounds: nat,
    to: TextStroke,
    end: Seq<usize>,
)
    requires
        lays_out(layout),
        encode_utf8(from.text@).len() <= usize::MAX,
        reflow_leads_to(layout, from, positions, skipped, rounds, to, end),
    ensures
        from.model(positions).keeps_ends(to.model(end)),
    decreases rounds,
{
    if rounds > 0 && syntax::items(encode_utf8(from.text@)).len() > 0 {
        let m = from.model(positions);
        let answer = choose|answer: Option<Vec<Line>>| #[trigger]
            call_ensures(layout, (&from,), answer) && match answer {
                None => to == from && end == positions,
                Some(lines) => match m.reflow_round(skipped, lines@) {
                    None => to == from && end == positions,
                    Some((m, s)) => exists|next: TextStroke|
                        next.model(m.positions) == m && m.valid()
                            && #[trigger] next.same_base_style(&from) && reflow_leads_to(
                            layout,
                            next,
                            m.positions,
                            s,
                            (rounds - 1) as nat,
                            to,
                            end,
                        ),
                },
            };
        if let Some(lines) = answer {
            if let Some((n, s)) = m.reflow_round(skipped, lines@) {
                let next = choose|next: TextStroke|
                    next.model(n.positions) == n && n.valid() && #[trigger] next.same_base_style(
                        &from,
                    ) && reflow_leads_to(
                        layout,
                        next,
                        n.positions,
                        s,
                        (rounds - 1) as nat,
                        to,
                        end,
                    );
                encode_utf8_valid_utf8(from.text@);
                lemma_a_round_keeps_ends(m, skipped, lines@);
                law_lining_up_keeps_ends(
                    layout,
                    next,
                    n.positions,
                    s,
                    (rounds - 1) as nat,
                    to,
                    end,
                );
            }
        }
    }
}

proof fn lemma_a_round_keeps_ends(m: EditModel, skipped: Seq<usize>, lines: Seq<Line>)
    requires
        valid_utf8(m.text),
        m.text.len() <= usize::MAX,
        lines_fit(m.text, lines),
        m.reflow_round(skipped, lines) matches Some((after, _)) ==> after.text.len() <= usize::MAX,
    ensures
        m.reflow_round(skipped, lines) matches Some((after, _)) ==> m.keeps_ends(after),
{
    let b = m.text;
    if let Some(k) = first_wrap(b, skipped, lines, 1) {
        lemma_first_wrap(b, skipped, lines, 1);
        let pos = lines[k].start as int;
        assert(bytes::at_boundary(b, lines[k].start as int));
        assert(bytes::at_boundary(b, lines[k - 1].start as int));
        softbreak::lemma_soft_break_around(b, lines[k - 1].start as int);
        match softbreak::soft_break_around(b, lines[k - 1].start as int) {
            Some(r) if r.end == pos => {
                edit::law_edits_keep_ends(m, renumber::removal(r.start as int, r.end as int));
            },
            _ => {
                if let Some(indent) = lines[k].indent {
                    let text = encode_utf8(indent.chars());
                    edit::law_edits_keep_ends(m, Edit { start: pos, end: pos, text });
                }
            },
        }
    }
}

/// Whether exactly `n` rounds lead from one text to another, and skip the wraps at the positions `s`
/// from then on.
pub open spec fn rounds_lead_to<L: Fn(&TextStroke) -> Option<Vec<Line>>>(
    layout: L,
    from: TextStroke,
    positions: Seq<usize>,
    skipped: Seq<usize>,
    n: nat,
    to: TextStroke,
    end: Seq<usize>,
    s: Seq<usize>,
) -> bool
    decreases n,
{
    if n == 0 {
        to == from && end == positions && s == skipped
    } else {
        syntax::items(encode_utf8(from.text@)).len() > 0 && exists|lines: Vec<Line>| #[trigger]
            call_ensures(layout, (&from,), Some(lines)) && match from.model(positions).reflow_round(
                skipped,
                lines@,
            ) {
                None => false,
                Some((m, t)) => exists|next: TextStroke|
                    next.model(m.positions) == m && m.valid() && #[trigger] next.same_base_style(
                        &from,
                    ) && rounds_lead_to(
                        layout,
                        next,
                        m.positions,
                        t,
                        (n - 1) as nat,
                        to,
                        end,
                        s,
                    ),
            }
    }
}

/// Whether the line `k` is left without an automatic line break from then on, with its wrap at `pos`:
/// because the indentation does not fit, or because the following word does not fit next to it. In
/// the latter case the automatic line break is taken out.
pub open spec fn left_by(b: Seq<u8>, lines: Seq<Line>, k: int, pos: usize) -> bool {
    &&& 0 < k < lines.len()
    &&& match softbreak::soft_break_around(b, lines[k - 1].start as int) {
        Some(r) if r.end == lines[k].start => pos == r.start,
        _ => lines[k].indent is None && pos == lines[k].start,
    }
}

/// Whether an answer of the layout makes that the wrap at `pos` is left without an automatic line
/// break.
pub open spec fn left_alone<L: Fn(&TextStroke) -> Option<Vec<Line>>>(layout: L, pos: usize) -> bool {
    exists|t: TextStroke, lines: Vec<Line>, k: int|
        #![trigger call_ensures(layout, (&t,), Some(lines)), left_by(encode_utf8(t.text@), lines@, k, pos)]
        call_ensures(layout, (&t,), Some(lines)) && left_by(encode_utf8(t.text@), lines@, k, pos)
}

/// Whether an answer of the layout for the text shows no wrap of a list item without an automatic
/// line break, apart from those at the skipped positions.
pub open spec fn wraps_marked<L: Fn(&TextStroke) -> Option<Vec<Line>>>(
    layout: L,
    t: TextStroke,
    skipped: Seq<usize>,
) -> bool {
    exists|lines: Vec<Line>| #[trigger]
        call_ensures(layout, (&t,), Some(lines)) && forall|k: int|
            1 <= k < lines@.len() ==> !unmarked_wrap(
                encode_utf8(t.text@),
                skipped,
                (#[trigger] lines@[k]).start,
            )
}

/// Whether lining up came to its end after `n` of at most `rounds` rounds: all of them were needed,
/// there is no list item, the text cannot be laid out, or every wrap of a list item is marked with an
/// automatic line break. Only wraps that an answer of the layout makes to be left alone are not.
pub open spec fn lined_up_after<L: Fn(&TextStroke) -> Option<Vec<Line>>>(
    layout: L,
    from: TextStroke,
    positions: Seq<usize>,
    skipped: Seq<usize>,
    rounds: nat,
    to: TextStroke,
    end: Seq<usize>,
    n: nat,
    s: Seq<usize>,
) -> bool {
    &&& n <= rounds
    &&& rounds_lead_to(layout, from, positions, skipped, n, to, end, s)
    &&& forall|pos: usize| #[trigger] s.contains(pos) ==> skipped.contains(pos) || left_alone(
        layout,
        pos,
    )
    &&& {
        ||| n == rounds
        ||| syntax::items(encode_utf8(to.text@)).len() == 0
        ||| call_ensures(layout, (&to,), None::<Vec<Line>>)
        ||| wraps_marked(layout, to, s)
    }
}

/// Every wrap of a list item is marked with an automatic line break, unless all rounds were needed,
/// the text cannot be laid out, or an answer of the layout makes that the wrap is left alone.
pub proof fn law_every_wrap_is_marked<L: Fn(&TextStroke) -> Option<Vec<Line>>>(
    layout: L,
    from: TextStroke,
    positions: Seq<usize>,
    skipped: Seq<usize>,
    rounds: nat,
    to: TextStroke,
    end: Seq<usize>,
)
    requires
        reflow_leads_to(layout, from, positions, skipped, rounds, to, end),
    ensures
        exists|n: nat, s: Seq<usize>| #[trigger]
            lined_up_after(layout, from, positions, skipped, rounds, to, end, n, s),
    decreases rounds,
{
    let b = encode_utf8(from.text@);
    if rounds == 0 || syntax::items(b).len() == 0 {
        assert(rounds_lead_to(layout, from, positions, skipped, 0, to, end, skipped));
        assert(lined_up_after(layout, from, positions, skipped, rounds, to, end, 0, skipped));
    } else {
        let m = from.model(positions);
        let answer = choose|answer: Option<Vec<Line>>| #[trigger]
            call_ensures(layout, (&from,), answer) && match answer {
                None => to == from && end == positions,
                Some(lines) => match m.reflow_round(skipped, lines@) {
                    None => to == from && end == positions,
                    Some((m, s)) => exists|next: TextStroke|
                        next.model(m.positions) == m && m.valid()
                            && #[trigger] next.same_base_style(&from) && reflow_leads_to(
                            layout,
                            next,
                            m.positions,
                            s,
                            (rounds - 1) as nat,
                            to,
                            end,
                        ),
                },
            };
        match answer {
            None => {
                assert(rounds_lead_to(layout, from, positions, skipped, 0, to, end, skipped));
                assert(lined_up_after(layout, from, positions, skipped, rounds, to, end, 0, skipped));
            },
            Some(lines) => match m.reflow_round(skipped, lines@) {
                None => {
                    lemma_no_wrap(b, skipped, lines@, 1);
                    assert(rounds_lead_to(layout, from, positions, skipped, 0, to, end, skipped));
                    assert(wraps_marked(layout, to, skipped));
                    assert(lined_up_after(
                        layout,
                        from,
                        positions,
                        skipped,
                        rounds,
                        to,
                        end,
                        0,
                        skipped,
                    ));
                },
                Some((m1, s1)) => {
                    let next = choose|next: TextStroke|
                        next.model(m1.positions) == m1 && m1.valid()
                            && #[trigger] next.same_base_style(&from) && reflow_leads_to(
                            layout,
                            next,
                            m1.positions,
                            s1,
                            (rounds - 1) as nat,
                            to,
                            end,
                        );
                    law_every_wrap_is_marked(
                        layout,
                        next,
                        m1.positions,
                        s1,
                        (rounds - 1) as nat,
                        to,
                        end,
                    );
                    let (n, s) = choose|n: nat, s: Seq<usize>| #[trigger]
                        lined_up_after(
                            layout,
                            next,
                            m1.positions,
                            s1,
                            (rounds - 1) as nat,
                            to,
                            end,
                            n,
                            s,
                        );
                    lemma_one_round_more(
                        layout,
                        from,
                        positions,
                        skipped,
                        rounds,
                        lines,
                        next,
                        to,
                        end,
                        n,
                        s,
                    );
                },
            },
        }
    }
}

proof fn lemma_one_round_more<L: Fn(&TextStroke) -> Option<Vec<Line>>>(
    layout: L,
    from: TextStroke,
    positions: Seq<usize>,
    skipped: Seq<usize>,
    rounds: nat,
    lines: Vec<Line>,
    next: TextStroke,
    to: TextStroke,
    end: Seq<usize>,
    n: nat,
    s: Seq<usize>,
)
    requires
        rounds > 0,
        syntax::items(encode_utf8(from.text@)).len() > 0,
        call_ensures(layout, (&from,), Some(lines)),
        from.model(positions).reflow_round(skipped, lines@) matches Some((m, t)) && next.model(
            m.positions,
        ) == m && m.valid() && next.same_base_style(&from) && lined_up_after(
            layout,
            next,
            m.positions,
            t,
            (rounds - 1) as nat,
            to,
            end,
            n,
            s,
        ),
    ensures
        lined_up_after(layout, from, positions, skipped, rounds, to, end, n + 1, s),
{
    let b = encode_utf8(from.text@);
    let m = from.model(positions);
    let (m1, t) = m.reflow_round(skipped, lines@)->0;
    assert(rounds_lead_to(layout, from, positions, skipped, n + 1, to, end, s)) by {
        assert(call_ensures(layout, (&from,), Some(lines)));
        assert(next.same_base_style(&from));
        assert((n + 1 - 1) as nat == n);
    }
    assert forall|pos: usize| #[trigger] s.contains(pos) implies skipped.contains(pos)
        || left_alone(layout, pos) by {
        if !left_alone(layout, pos) {
            assert(t.contains(pos));
            lemma_skipped_by_a_round(m, skipped, lines@, pos);
            if !skipped.contains(pos) {
                let k = first_wrap(b, skipped, lines@, 1)->0;
                assert(left_by(encode_utf8(from.text@), lines@, k, pos));
                assert(call_ensures(layout, (&from,), Some(lines)));
            }
        }
    }
}

/// What a round skips from then on is what it leaves alone.
proof fn lemma_skipped_by_a_round(m: EditModel, skipped: Seq<usize>, lines: Seq<Line>, pos: usize)
    requires
        m.reflow_round(skipped, lines) matches Some((_, s)) && s.contains(pos),
    ensures
        skipped.contains(pos) || (first_wrap(m.text, skipped, lines, 1) matches Some(k) && left_by(
            m.text,
            lines,
            k,
            pos,
        )),
{
    lemma_first_wrap(m.text, skipped, lines, 1);
    let (_, s) = m.reflow_round(skipped, lines)->0;
    let j = choose|j: int| 0 <= j < s.len() && s[j] == pos;
    if j < skipped.len() {
        assert(skipped[j] == pos);
    }
}

proof fn lemma_no_wrap(b: Seq<u8>, skipped: Seq<usize>, lines: Seq<Line>, j: int)
    requires
        first_wrap(b, skipped, lines, j) is None,
    ensures
        forall|k: int|
            j <= k < lines.len() ==> !unmarked_wrap(b, skipped, (#[trigger] lines[k]).start),
    decreases lines.len() - j,
{
    if j < lines.len() {
        lemma_no_wrap(b, skipped, lines, j + 1);
    }
}

/// Only list items get automatic line breaks: a round inserts one inside an item, takes one out, or
/// leaves the text as it is.
pub proof fn law_only_items_are_broken(m: EditModel, skipped: Seq<usize>, lines: Seq<Line>)
    requires
        valid_utf8(m.text),
        m.text.len() <= usize::MAX,
        lines_fit(m.text, lines),
    ensures
        m.reflow_round(skipped, lines) matches Some((after, _)) ==> {
            ||| after == m
            ||| exists|r: Range<usize>|
                syntax::soft_break_at(m.text, r.start as int) && #[trigger] m.edited(
                    renumber::removal(r.start as int, r.end as int),
                ) == after
            ||| exists|pos: int, indent: Indent|
                #[trigger] m.with_soft_break(pos, indent) == after && (syntax::item_at(
                    m.text,
                    pos,
                ) matches Some(item) && item.start < pos <= item.end)
        },
{
    let b = m.text;
    if let Some(k) = first_wrap(b, skipped, lines, 1) {
        lemma_first_wrap(b, skipped, lines, 1);
        let pos = lines[k].start as int;
        assert(bytes::at_boundary(b, lines[k].start as int));
        assert(bytes::at_boundary(b, lines[k - 1].start as int));
        softbreak::lemma_soft_break_around(b, lines[k - 1].start as int);
        syntax::lemma_item_at(b, pos);
    }
}

} // verus!
