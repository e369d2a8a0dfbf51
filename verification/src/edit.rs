//! Text with ranged attributes, and edits that keep positions and attributes in place.

use crate::bytes;
use std::ops::Range;
use vstd::prelude::*;
use vstd::utf8::*;

verus! {

/// How the lines of a text are aligned.
#[derive(Debug, Clone, Copy, PartialEq, Eq, Structural)]
pub enum TextAlignment {
    Start,
    Center,
    End,
    Fill,
}

/// The slant of a font.
#[derive(Debug, Clone, Copy, PartialEq, Eq, Structural)]
pub enum FontStyle {
    Regular,
    Italic,
}

/// An attribute of a part of the text.
///
/// Font families, font sizes and colors are referred to by keys: the same key stands for the same
/// value.
#[derive(Debug, Clone, Copy, PartialEq, Eq, Structural)]
pub enum TextAttribute {
    FontFamily(u64),
    FontSize(u64),
    FontWeight(u16),
    TextColor(u64),
    Style(FontStyle),
    Underline(bool),
    Strikethrough(bool),
}

/// The kinds of attributes. A later attribute overrides an earlier one of the same kind.
#[derive(Debug, Clone, Copy, PartialEq, Eq, Structural)]
pub enum AttributeKind {
    FontFamily,
    FontSize,
    FontWeight,
    TextColor,
    Style,
    Underline,
    Strikethrough,
}

/// An attribute and the bytes of the text it applies to.
#[derive(Debug, PartialEq, Eq)]
pub struct RangedTextAttribute {
    pub attribute: TextAttribute,
    pub range: Range<usize>,
}

impl Clone for RangedTextAttribute {
    fn clone(&self) -> (r: Self)
        ensures
            r == *self,
    {
        RangedTextAttribute {
            attribute: self.attribute,
            range: Range { start: self.range.start, end: self.range.end },
        }
    }
}

/// The style of a text.
#[derive(Debug)]
pub struct TextStyle {
    pub ranged_text_attributes: Vec<RangedTextAttribute>,
    pub alignment: TextAlignment,
    /// Whether the text has a maximum width, at which its lines wrap.
    pub wraps: bool,
}

/// A text with its style.
#[derive(Debug)]
pub struct TextStroke {
    pub text: String,
    pub text_style: TextStyle,
}

/// A position, or the largest one there is.
pub open spec fn at_most_max(pos: int) -> usize {
    if pos <= usize::MAX {
        pos as usize
    } else {
        usize::MAX
    }
}

/// A replacement of the bytes from `start` to `end`.
pub struct Edit {
    pub start: int,
    pub end: int,
    pub text: Seq<u8>,
}

/// What edits change: the text, its attributes, and the positions that are kept in place.
#[verifier::ext_equal]
pub struct EditModel {
    pub text: Seq<u8>,
    pub attrs: Seq<RangedTextAttribute>,
    pub positions: Seq<usize>,
}

impl Edit {
    /// Whether the edit replaces whole characters of the text by other characters.
    pub open spec fn fits(self, text: Seq<u8>) -> bool {
        &&& self.start <= self.end
        &&& bytes::at_boundary(text, self.start)
        &&& bytes::at_boundary(text, self.end)
        &&& valid_utf8(self.text)
    }

    /// Where a position ends up. Positions inside the replaced range end up behind the
    /// replacement.
    pub open spec fn map_start(self, pos: int) -> int {
        if pos < self.start {
            pos
        } else if pos >= self.end {
            pos - (self.end - self.start) + self.text.len()
        } else {
            self.start + self.text.len()
        }
    }

    /// Where the end of an attribute ends up. An attribute that ends where text is inserted does
    /// not cover that text.
    pub open spec fn map_end(self, pos: int) -> int {
        if pos <= self.start {
            pos
        } else {
            self.map_start(pos)
        }
    }

    /// Where the range of an attribute ends up. An attribute may reach beyond the end of the text,
    /// up to the largest position there is.
    pub open spec fn map_range(self, r: Range<usize>) -> Range<usize> {
        Range {
            start: at_most_max(self.map_start(r.start as int)),
            end: at_most_max(self.map_end(r.end as int)),
        }
    }

    /// The attributes after the edit. Those that cover nothing any more are dropped.
    pub open spec fn map_attrs(self, attrs: Seq<RangedTextAttribute>) -> Seq<RangedTextAttribute>
        decreases attrs.len(),
    {
        if attrs.len() == 0 {
            Seq::empty()
        } else {
            let before = self.map_attrs(attrs.drop_last());
            let range = self.map_range(attrs.last().range);
            if range.start < range.end {
                before.push(RangedTextAttribute { attribute: attrs.last().attribute, range })
            } else {
                before
            }
        }
    }
}

impl EditModel {
    /// Text with positions that lie between its characters.
    pub open spec fn valid(self) -> bool {
        &&& valid_utf8(self.text)
        &&& self.text.len() <= usize::MAX
        &&& forall|k: int|
            0 <= k < self.positions.len() ==> bytes::at_boundary(
                self.text,
                (#[trigger] self.positions[k]) as int,
            )
    }

    /// Whether positions at the end of the text are at the end of the other text.
    pub open spec fn keeps_ends(self, after: EditModel) -> bool {
        &&& after.positions.len() == self.positions.len()
        &&& forall|k: int|
            0 <= k < self.positions.len() && #[trigger] self.positions[k] == self.text.len()
                ==> after.positions[k] == after.text.len()
    }

    /// The result of one edit.
    pub open spec fn edited(self, e: Edit) -> EditModel {
        EditModel {
            text: bytes::splice(self.text, e.start, e.end, e.text),
            attrs: e.map_attrs(self.attrs),
            positions: self.positions.map_values(|p: usize| e.map_start(p as int) as usize),
        }
    }

    /// The result of several edits, made from the last one to the first one.
    pub open spec fn edited_all(self, edits: Seq<Edit>) -> EditModel
        decreases edits.len(),
    {
        if edits.len() == 0 {
            self
        } else {
            self.edited(edits.last()).edited_all(edits.drop_last())
        }
    }
}

/// Edits that fit the text, come in order and do not overlap.
pub open spec fn edits_fit(text: Seq<u8>, edits: Seq<Edit>) -> bool {
    &&& forall|k: int| 0 <= k < edits.len() ==> (#[trigger] edits[k]).fits(text)
    &&& forall|j: int, k: int|
        0 <= j < k < edits.len() ==> (#[trigger] edits[j]).end <= (#[trigger] edits[k]).start
}

/// Making the last edit leaves the text in front of it as it is, so the others still fit.
pub proof fn lemma_edits_fit_rest(text: Seq<u8>, edits: Seq<Edit>)
    requires
        valid_utf8(text),
        edits_fit(text, edits),
        edits.len() > 0,
    ensures
        edits_fit(
            bytes::splice(text, edits.last().start, edits.last().end, edits.last().text),
            edits.drop_last(),
        ),
{
    let last = edits.last();
    let after = bytes::splice(text, last.start, last.end, last.text);
    assert(edits[edits.len() - 1].fits(text));
    bytes::lemma_splice(text, last.start, last.end, last.text);
    let rest = edits.drop_last();
    assert forall|k: int| 0 <= k < rest.len() implies (#[trigger] rest[k]).fits(after) by {
        let e = rest[k];
        assert(e == edits[k]);
        assert(e.fits(text));
        assert(edits[k].end <= edits[edits.len() - 1].start);
        if e.end < last.start {
            assert(after[e.end] == text[e.end]);
        }
        if e.start < last.start {
            assert(after[e.start] == text[e.start]);
        }
    }
}

/// Positions stay between characters.
pub proof fn lemma_edited_valid(m: EditModel, e: Edit)
    requires
        m.valid(),
        e.fits(m.text),
        bytes::splice(m.text, e.start, e.end, e.text).len() <= usize::MAX,
    ensures
        m.edited(e).valid(),
{
    bytes::lemma_splice(m.text, e.start, e.end, e.text);
    let n = m.edited(e);
    assert forall|k: int| 0 <= k < n.positions.len() implies bytes::at_boundary(
        n.text,
        (#[trigger] n.positions[k]) as int,
    ) by {
        let p = m.positions[k] as int;
        assert(bytes::at_boundary(m.text, p));
        if p < e.start {
            assert(n.text[p] == m.text[p]);
        } else if e.end <= p < m.text.len() {
            assert(n.text[p - (e.end - e.start) + e.text.len()] == m.text[p]);
        }
    }
}

/// The text from `from` on after the edits: what lies between them is left as it is.
pub open spec fn applied(text: Seq<u8>, from: int, edits: Seq<Edit>) -> Seq<u8>
    decreases edits.len(),
{
    if edits.len() == 0 {
        text.subrange(from, text.len() as int)
    } else {
        text.subrange(from, edits[0].start) + edits[0].text + applied(
            text,
            edits[0].end,
            edits.drop_first(),
        )
    }
}

/// Edits of the text from `from` on that come in order and do not overlap.
pub open spec fn edits_in_order(text: Seq<u8>, from: int, edits: Seq<Edit>) -> bool {
    &&& 0 <= from <= text.len()
    &&& forall|k: int|
        0 <= k < edits.len() ==> from <= (#[trigger] edits[k]).start <= edits[k].end <= text.len()
    &&& forall|j: int, k: int|
        0 <= j < k < edits.len() ==> (#[trigger] edits[j]).end <= (#[trigger] edits[k]).start
}

/// The last edit can be made first.
pub proof fn lemma_applied_last(text: Seq<u8>, from: int, edits: Seq<Edit>)
    requires
        edits_in_order(text, from, edits),
        edits.len() > 0,
    ensures
        applied(text, from, edits) == applied(
            bytes::splice(text, edits.last().start, edits.last().end, edits.last().text),
            from,
            edits.drop_last(),
        ),
    decreases edits.len(),
{
    let last = edits.last();
    let after = bytes::splice(text, last.start, last.end, last.text);
    assert(edits[edits.len() - 1] == last);
    let first = edits[0];
    let rest = edits.drop_first();
    if edits.len() == 1 {
        assert(edits.drop_last() =~= Seq::<Edit>::empty());
        assert(rest =~= Seq::<Edit>::empty());
        assert(applied(text, first.end, rest) == text.subrange(first.end, text.len() as int));
        assert(after.subrange(from, after.len() as int) =~= text.subrange(from, first.start)
            + first.text + text.subrange(first.end, text.len() as int));
    } else {
        assert(edits[0].end <= edits[edits.len() - 1].start);
        assert forall|k: int| 0 <= k < rest.len() implies first.end <= (#[trigger] rest[k]).start
            <= rest[k].end <= text.len() by {
            assert(rest[k] == edits[k + 1]);
            assert(edits[0].end <= edits[k + 1].start);
        }
        assert forall|j: int, k: int| 0 <= j < k < rest.len() implies (#[trigger] rest[j]).end <= (
        #[trigger] rest[k]).start by {
            assert(rest[k] == edits[k + 1]);
            assert(rest[j] == edits[j + 1]);
        }
        lemma_applied_last(text, first.end, rest);
        assert(rest.last() == last);
        assert(rest.drop_last() =~= edits.drop_last().drop_first());
        assert(edits.drop_last()[0] == first);
        assert(after.subrange(from, first.start) =~= text.subrange(from, first.start));
    }
}

/// Edits in front of `cut` leave the text behind it as it is.
pub proof fn lemma_applied_tail(text: Seq<u8>, from: int, edits: Seq<Edit>, cut: int)
    requires
        edits_in_order(text, from, edits),
        from <= cut <= text.len(),
        forall|k: int| 0 <= k < edits.len() ==> (#[trigger] edits[k]).end <= cut,
    ensures
        applied(text, from, edits) == applied(text.take(cut), from, edits) + text.subrange(
            cut,
            text.len() as int,
        ),
    decreases edits.len(),
{
    let head = text.take(cut);
    let tail = text.subrange(cut, text.len() as int);
    if edits.len() == 0 {
        assert(text.subrange(from, text.len() as int) =~= head.subrange(from, cut) + tail);
    } else {
        let first = edits[0];
        let rest = edits.drop_first();
        assert forall|k: int| 0 <= k < rest.len() implies first.end <= (#[trigger] rest[k]).start
            <= rest[k].end <= text.len() && rest[k].end <= cut by {
            assert(rest[k] == edits[k + 1]);
            assert(edits[0].end <= edits[k + 1].start);
        }
        assert forall|j: int, k: int| 0 <= j < k < rest.len() implies (#[trigger] rest[j]).end <= (
        #[trigger] rest[k]).start by {
            assert(rest[k] == edits[k + 1]);
            assert(rest[j] == edits[j + 1]);
        }
        lemma_applied_tail(text, first.end, rest, cut);
        assert(head.subrange(from, first.start) =~= text.subrange(from, first.start));
        assert(applied(text, from, edits) =~= applied(head, from, edits) + tail);
    }
}

/// Making edits from the last one to the first one puts each replacement in its place.
pub proof fn lemma_edited_all_text(m: EditModel, edits: Seq<Edit>)
    requires
        valid_utf8(m.text),
        edits_fit(m.text, edits),
    ensures
        m.edited_all(edits).text == applied(m.text, 0, edits),
        valid_utf8(m.edited_all(edits).text),
    decreases edits.len(),
{
    if edits.len() == 0 {
        assert(m.text.subrange(0, m.text.len() as int) =~= m.text);
    } else {
        let last = edits.last();
        lemma_edits_fit_rest(m.text, edits);
        assert(edits[edits.len() - 1].fits(m.text));
        bytes::lemma_splice(m.text, last.start, last.end, last.text);
        lemma_edited_all_text(m.edited(last), edits.drop_last());
        lemma_applied_last(m.text, 0, edits);
    }
}

/// Edits leave positions at the end of the text at its end.
pub proof fn law_edits_keep_ends(m: EditModel, e: Edit)
    requires
        0 <= e.start <= e.end <= m.text.len(),
        m.edited(e).text.len() <= usize::MAX,
    ensures
        m.keeps_ends(m.edited(e)),
{
}

/// Edits keep positions in their order.
pub proof fn law_edits_keep_the_order_of_positions(e: Edit, p: int, q: int)
    requires
        e.start <= e.end,
        p <= q,
    ensures
        e.map_start(p) <= e.map_start(q),
{
}

/// An edit puts its text in the place of its range, and leaves the text in front of the range and behind
/// it as it is.
pub proof fn law_edits_change_only_their_range(m: EditModel, e: Edit, i: int)
    requires
        0 <= e.start <= e.end <= m.text.len(),
    ensures
        m.edited(e).text.len() == m.text.len() - (e.end - e.start) + e.text.len(),
        0 <= i < e.start ==> m.edited(e).text[i] == m.text[i],
        0 <= i < e.text.len() ==> m.edited(e).text[e.start + i] == e.text[i],
        0 <= i < m.text.len() - e.end ==> m.edited(e).text[e.start + e.text.len() + i] == m.text[e.end
            + i],
{
}

/// Positions stay with the text around them. Those in front of the replaced text keep their distance
/// from the start of the text, those behind it keep their distance from its end, and those inside it end
/// up behind the replacement.
pub proof fn law_positions_stay_with_their_text(m: EditModel, e: Edit, k: int)
    requires
        0 <= e.start <= e.end <= m.text.len(),
        m.edited(e).text.len() <= usize::MAX,
        0 <= k < m.positions.len(),
        m.positions[k] <= m.text.len(),
    ensures
        m.edited(e).positions.len() == m.positions.len(),
        m.positions[k] < e.start ==> m.edited(e).positions[k] == m.positions[k],
        m.positions[k] >= e.end ==> m.edited(e).text.len() - m.edited(e).positions[k]
            == m.text.len() - m.positions[k],
        e.start <= m.positions[k] < e.end ==> m.edited(e).positions[k] == e.start + e.text.len(),
{
}

/// The model of a text holds all that edits change, and the base style is all the rest.
pub proof fn law_models_hold_the_text(one: TextStroke, other: TextStroke, positions: Seq<usize>)
    requires
        one.model(positions) == other.model(positions),
        one.same_base_style(&other),
    ensures
        one.text@ == other.text@,
        one.text_style.ranged_text_attributes@ == other.text_style.ranged_text_attributes@,
        one.text_style.alignment == other.text_style.alignment,
        one.text_style.wraps == other.text_style.wraps,
        one.model(positions).positions == positions,
{
    bytes::lemma_encode_injective(one.text@, other.text@);
}

impl TextStroke {
    /// The parts of the text that edits change, with the positions kept in place.
    pub open spec fn model(&self, positions: Seq<usize>) -> EditModel {
        EditModel {
            text: encode_utf8(self.text@),
            attrs: self.text_style.ranged_text_attributes@,
            positions,
        }
    }

    /// Whether the style apart from the ranged attributes is the same.
    pub open spec fn same_base_style(&self, other: &TextStroke) -> bool {
        &&& self.text_style.alignment == other.text_style.alignment
        &&& self.text_style.wraps == other.text_style.wraps
    }

    /// Replace the text in `range`, keeping `positions` and the ranged text attributes in place.
    ///
    /// Positions inside the replaced range end up behind the replacement. Text inserted at the
    /// boundary of an attribute is not covered by it.
    pub fn replace_range_mapped(
        &mut self,
        range: Range<usize>,
        replacement: &str,
        positions: &mut Vec<usize>,
    )
        requires
            old(self).model(old(positions)@).valid(),
            (Edit {
                start: range.start as int,
                end: range.end as int,
                text: encode_utf8(replacement@),
            }).fits(encode_utf8(old(self).text@)),
        ensures
            final(self).model(final(positions)@) == old(self).model(old(positions)@).edited(
                (Edit {
                    start: range.start as int,
                    end: range.end as int,
                    text: encode_utf8(replacement@),
                }),
            ),
            final(self).model(final(positions)@).valid(),
            old(self).model(old(positions)@).keeps_ends(final(self).model(final(positions)@)),
            final(self).same_base_style(old(self)),
    {
        let start: usize = range.start;
        let end: usize = range.end;
        let ghost e = Edit { start: start as int, end: end as int, text: encode_utf8(replacement@) };
        let ghost m = self.model(positions@);
        let len: usize = self.text.as_str().as_bytes().len();
        let added: usize = replacement.as_bytes().len();
        proof {
            bytes::lemma_boundary(m.text, 0);
        }
        let head = bytes::substr(self.text.as_str(), 0, start);
        let tail = bytes::substr(self.text.as_str(), end, len);
        let mut out: String = head.to_owned();
        out.append(replacement);
        out.append(tail);
        proof {
            bytes::lemma_encode_concat(head@, replacement@);
            bytes::lemma_encode_concat(head@ + replacement@, tail@);
            assert(encode_utf8(out@) =~= m.edited(e).text);
        }
        let new_len: usize = out.as_str().as_bytes().len();
        proof {
            lemma_edited_valid(m, e);
            law_edits_keep_ends(m, e);
        }
        self.text = out;

        let mut i: usize = 0;
        let ghost before = positions@;
        while i < positions.len()
            invariant
                e == (Edit { start: start as int, end: end as int, text: e.text }),
                start <= end <= len,
                added == e.text.len(),
                len - (end - start) + added == new_len,
                before.len() == positions@.len(),
                i <= positions@.len(),
                forall|k: int| 0 <= k < before.len() ==> #[trigger] before[k] <= len,
                forall|k: int|
                    0 <= k < i ==> #[trigger] positions@[k] == e.map_start(before[k] as int) as usize,
                forall|k: int| i <= k < before.len() ==> #[trigger] positions@[k] == before[k],
            decreases positions@.len() - i,
        {
            let pos: usize = positions[i];
            assert(pos == before[i as int]);
            positions.set(i, map_start(start, end, added, pos));
            i += 1;
        }
        assert(positions@ =~= m.edited(e).positions);

        let mut kept: Vec<RangedTextAttribute> = Vec::new();
        let mut j: usize = 0;
        while j < self.text_style.ranged_text_attributes.len()
            invariant
                e == (Edit { start: start as int, end: end as int, text: e.text }),
                start <= end <= len,
                added == e.text.len(),
                len - (end - start) + added == new_len,
                self.text_style.ranged_text_attributes@ == m.attrs,
                j <= m.attrs.len(),
                kept@ == e.map_attrs(m.attrs.take(j as int)),
            decreases m.attrs.len() - j,
        {
            let attr = &self.text_style.ranged_text_attributes[j];
            assert(*attr == m.attrs[j as int]);
            assert(m.attrs.take(j + 1).drop_last() =~= m.attrs.take(j as int));
            let s: usize = map_start(start, end, added, attr.range.start);
            let t: usize = map_end(start, end, added, attr.range.end);
            if s < t {
                kept.push(
                    RangedTextAttribute { attribute: attr.attribute, range: Range { start: s, end: t } },
                );
            }
            j += 1;
        }
        assert(m.attrs.take(j as int) =~= m.attrs);
        self.text_style.ranged_text_attributes = kept;
    }

    /// Make several replacements, from the last one to the first one, so the positions of those in
    /// front stay valid.
    pub fn replace_all_mapped(&mut self, edits: &Vec<Replacement>, positions: &mut Vec<usize>)
        requires
            old(self).model(old(positions)@).valid(),
            edits_fit(encode_utf8(old(self).text@), replacements(edits@)),
        ensures
            final(self).model(final(positions)@) == old(self).model(old(positions)@).edited_all(
                replacements(edits@),
            ),
            final(self).model(final(positions)@).valid(),
            old(self).model(old(positions)@).keeps_ends(final(self).model(final(positions)@)),
            final(self).same_base_style(old(self)),
    {
        let ghost all = replacements(edits@);
        let ghost m = self.model(positions@);
        let mut k: usize = edits.len();
        assert(all.take(k as int) =~= all);
        while k > 0
            invariant
                k <= edits@.len(),
                all == replacements(edits@),
                self.model(positions@).valid(),
                edits_fit(encode_utf8(self.text@), all.take(k as int)),
                self.model(positions@).edited_all(all.take(k as int)) == m.edited_all(all),
                m.keeps_ends(self.model(positions@)),
                self.same_base_style(old(self)),
            decreases k,
        {
            let ghost rest = all.take(k as int);
            proof {
                assert(rest.drop_last() =~= all.take(k - 1));
                assert(rest.last() == all[k - 1]);
                assert(rest[k - 1].fits(encode_utf8(self.text@)));
                lemma_edits_fit_rest(encode_utf8(self.text@), rest);
            }
            k -= 1;
            let edit = &edits[k];
            let range: Range<usize> = Range { start: edit.range.start, end: edit.range.end };
            self.replace_range_mapped(range, edit.text.as_str(), positions);
        }
        assert(all.take(0) =~= Seq::<Edit>::empty());
    }
}

/// Text to put in the place of a range.
#[derive(Debug)]
pub struct Replacement {
    pub range: Range<usize>,
    pub text: String,
}

impl Replacement {
    /// The edit that the replacement stands for.
    pub open spec fn edit(self) -> Edit {
        Edit { start: self.range.start as int, end: self.range.end as int, text: encode_utf8(self.text@) }
    }
}

/// The edits that the replacements stand for.
pub open spec fn replacements(r: Seq<Replacement>) -> Seq<Edit> {
    r.map_values(|x: Replacement| x.edit())
}

/// Where a position ends up when `added` bytes replace those from `start` to `end`.
fn map_start(start: usize, end: usize, added: usize, pos: usize) -> (r: usize)
    requires
        start <= end,
        start + added <= usize::MAX,
    ensures
        forall|text: Seq<u8>|
            text.len() == added ==> r == at_most_max(
                #[trigger] (Edit { start: start as int, end: end as int, text }).map_start(
                    pos as int,
                ),
            ),
{
    if pos < start {
        pos
    } else if pos >= end {
        (pos - (end - start)).saturating_add(added)
    } else {
        start + added
    }
}

/// Where the end of an attribute ends up when `added` bytes replace those from `start` to `end`.
fn map_end(start: usize, end: usize, added: usize, pos: usize) -> (r: usize)
    requires
        start <= end,
        start + added <= usize::MAX,
    ensures
        forall|text: Seq<u8>|
            text.len() == added ==> r == at_most_max(
                #[trigger] (Edit { start: start as int, end: end as int, text }).map_end(
                    pos as int,
                ),
            ),
{
    if pos <= start {
        pos
    } else {
        map_start(start, end, added, pos)
    }
}

} // verus!
