//! How text looks, and that bringing lists up to date again changes nothing.

use crate::attrs;
use crate::bytes;
use crate::edit;
use crate::edit::{AttributeKind, Edit, EditModel, RangedTextAttribute, TextAlignment, TextAttribute, TextStroke};
use crate::lists;
use crate::numbering;
use crate::reflow;
use crate::reflow::{Indent, Line};
use crate::renumber;
use crate::softbreak;
use crate::syntax;
use vstd::prelude::*;
use vstd::utf8::*;

verus! {

broadcast use syntax::group_char_bytes;

/// The attribute of the given kind that applies to each byte of the text.
pub open spec fn look(m: EditModel, kind: AttributeKind) -> Seq<Option<TextAttribute>> {
    Seq::new(m.text.len(), |p: int| attrs::effective(m.attrs, kind, p))
}

/// Whether two texts are the same and look the same.
pub open spec fn looks_alike(a: EditModel, b: EditModel) -> bool {
    &&& a.text == b.text
    &&& forall|kind: AttributeKind| #[trigger] look(a, kind) == look(b, kind)
}

/// Whether the ranges of the attributes do not end before they start.
pub open spec fn ordered(attrs: Seq<RangedTextAttribute>) -> bool {
    forall|k: int| 0 <= k < attrs.len() ==> (#[trigger] attrs[k]).range.start <= attrs[k].range.end
}

// ---------------------------------------------------------------------------------------------
// Single edits

/// Removing a range removes its look.
proof fn lemma_look_removed(m: EditModel, s: int, e: int, kind: AttributeKind)
    requires
        0 <= s <= e <= m.text.len() <= usize::MAX,
    ensures
        look(m.edited(renumber::removal(s, e)), kind) == look(m, kind).subrange(0, s) + look(
            m,
            kind,
        ).subrange(e, m.text.len() as int),
{
    let edit = renumber::removal(s, e);
    let after = m.edited(edit);
    let expected = look(m, kind).subrange(0, s) + look(m, kind).subrange(e, m.text.len() as int);
    assert(after.text.len() == m.text.len() - (e - s));
    assert forall|q: int| 0 <= q < after.text.len() implies #[trigger] look(after, kind)[q]
        == expected[q] by {
        let p = if q < s {
            q
        } else {
            q + (e - s)
        };
        attrs::law_edits_keep_attributes_in_place(m, edit, kind, p);
    }
    assert(look(after, kind) =~= expected);
}

/// An automatic line break has no look, and leaves the look of the rest.
proof fn lemma_look_soft_break(m: EditModel, pos: int, indent: Indent, kind: AttributeKind)
    requires
        0 <= pos <= m.text.len(),
        m.with_soft_break(pos, indent).text.len() <= usize::MAX,
    ensures
        look(m.with_soft_break(pos, indent), kind) == look(m, kind).subrange(0, pos) + Seq::new(
            encode_utf8(indent.chars()).len(),
            |i: int| None::<TextAttribute>,
        ) + look(m, kind).subrange(pos, m.text.len() as int),
{
    let text = encode_utf8(indent.chars());
    let n = text.len();
    let e = Edit { start: pos, end: pos, text };
    let inserted = m.edited(e);
    let after = m.with_soft_break(pos, indent);
    let expected = look(m, kind).subrange(0, pos) + Seq::new(n, |i: int| None::<TextAttribute>) + look(
        m,
        kind,
    ).subrange(pos, m.text.len() as int);
    assert(after.text.len() == m.text.len() + n);
    assert forall|q: int| 0 <= q < after.text.len() implies #[trigger] look(after, kind)[q]
        == expected[q] by {
        attrs::law_cutting_only_clears_the_range(inserted.attrs, pos, pos + n, kind, q);
        if q < pos {
            attrs::law_edits_keep_attributes_in_place(m, e, kind, q);
        } else if q >= pos + n {
            attrs::law_edits_keep_attributes_in_place(m, e, kind, q - n);
        }
    }
    assert(look(after, kind) =~= expected);
}

proof fn lemma_edited_ordered(e: Edit, attrs: Seq<RangedTextAttribute>)
    ensures
        ordered(e.map_attrs(attrs)),
    decreases attrs.len(),
{
    if attrs.len() > 0 {
        lemma_edited_ordered(e, attrs.drop_last());
    }
}

proof fn lemma_cut_ordered(attrs: Seq<RangedTextAttribute>, start: int, end: int)
    requires
        ordered(attrs),
        0 <= start <= end <= usize::MAX,
    ensures
        ordered(attrs::cut(attrs, start, end)),
    decreases attrs.len(),
{
    if attrs.len() > 0 {
        let rest = attrs.drop_last();
        assert forall|k: int| 0 <= k < rest.len() implies (#[trigger] rest[k]).range.start
            <= rest[k].range.end by {
            assert(rest[k] == attrs[k]);
        }
        lemma_cut_ordered(rest, start, end);
        assert(attrs[attrs.len() - 1].range.start <= attrs[attrs.len() - 1].range.end);
        let left = attrs::cut_one(attrs.last(), start, end);
        assert(ordered(left));
    }
}

proof fn lemma_edited_all_ordered(m: EditModel, edits: Seq<Edit>)
    requires
        ordered(m.attrs),
    ensures
        ordered(m.edited_all(edits).attrs),
    decreases edits.len(),
{
    if edits.len() > 0 {
        lemma_edited_ordered(edits.last(), m.attrs);
        lemma_edited_all_ordered(m.edited(edits.last()), edits.drop_last());
    }
}

// ---------------------------------------------------------------------------------------------
// Removing automatic line breaks

/// What is left from `from` on of something that goes with the text, when the ranges of the edits
/// are removed.
pub open spec fn left_over<T>(s: Seq<T>, from: int, edits: Seq<Edit>) -> Seq<T>
    decreases edits.len(),
{
    if edits.len() == 0 {
        s.subrange(from, s.len() as int)
    } else {
        s.subrange(from, edits[0].start) + left_over(s, edits[0].end, edits.drop_first())
    }
}

/// The last range can be removed first.
proof fn lemma_left_over_last<T>(text: Seq<u8>, s: Seq<T>, from: int, edits: Seq<Edit>)
    requires
        edit::edits_in_order(text, from, edits),
        s.len() == text.len(),
        edits.len() > 0,
    ensures
        left_over(s, from, edits) == left_over(
            s.subrange(0, edits.last().start) + s.subrange(edits.last().end, s.len() as int),
            from,
            edits.drop_last(),
        ),
    decreases edits.len(),
{
    let last = edits.last();
    let after = s.subrange(0, last.start) + s.subrange(last.end, s.len() as int);
    assert(edits[edits.len() - 1] == last);
    let first = edits[0];
    let rest = edits.drop_first();
    if edits.len() == 1 {
        assert(edits.drop_last() =~= Seq::<Edit>::empty());
        assert(rest =~= Seq::<Edit>::empty());
        assert(left_over(s, first.end, rest) == s.subrange(first.end, s.len() as int));
        assert(after.subrange(from, after.len() as int) =~= s.subrange(from, first.start)
            + s.subrange(first.end, s.len() as int));
    } else {
        assert(edits[0].end <= edits[edits.len() - 1].start);
        assert forall|k: int| 0 <= k < rest.len() implies first.end <= (#[trigger] rest[k]).start
            <= rest[k].end <= text.len() by {
            assert(rest[k] == edits[k + 1]);
            assert(edits[0].end <= edits[k + 1].start);
        }
        assert forall|j: int, k: int| 0 <= j < k < rest.len() implies (#[trigger] rest[j]).end <= (
        #[trigger] rest[k]).start by {
            assert(rest[k] == edits[k + 1]);
            assert(rest[j] == edits[j + 1]);
        }
        lemma_left_over_last(text, s, first.end, rest);
        assert(rest.last() == last);
        assert(rest.drop_last() =~= edits.drop_last().drop_first());
        assert(edits.drop_last()[0] == first);
        assert(after.subrange(from, first.start) =~= s.subrange(from, first.start));
    }
}

/// Removing ranges removes their look.
proof fn lemma_look_left_over(m: EditModel, edits: Seq<Edit>, kind: AttributeKind)
    requires
        valid_utf8(m.text),
        m.text.len() <= usize::MAX,
        edit::edits_fit(m.text, edits),
        forall|k: int|
            0 <= k < edits.len() ==> #[trigger] edits[k] == renumber::removal(
                edits[k].start,
                edits[k].end,
            ),
    ensures
        look(m.edited_all(edits), kind) == left_over(look(m, kind), 0, edits),
    decreases edits.len(),
{
    let seen = look(m, kind);
    if edits.len() == 0 {
        assert(seen.subrange(0, seen.len() as int) =~= seen);
    } else {
        let last = edits.last();
        let rest = edits.drop_last();
        let after = m.edited(last);
        assert(edits[edits.len() - 1].fits(m.text));
        assert(edits[edits.len() - 1] == renumber::removal(last.start, last.end));
        bytes::lemma_splice(m.text, last.start, last.end, last.text);
        edit::lemma_edits_fit_rest(m.text, edits);
        assert forall|k: int| 0 <= k < rest.len() implies #[trigger] rest[k] == renumber::removal(
            rest[k].start,
            rest[k].end,
        ) by {
            assert(rest[k] == edits[k]);
        }
        lemma_look_left_over(after, rest, kind);
        lemma_look_removed(m, last.start, last.end, kind);
        assert(edit::edits_in_order(m.text, 0, edits)) by {
            assert forall|k: int| 0 <= k < edits.len() implies 0 <= (#[trigger] edits[k]).start
                <= edits[k].end <= m.text.len() by {
                assert(edits[k].fits(m.text));
            }
        }
        lemma_left_over_last(m.text, seen, 0, edits);
    }
}

/// What is left when automatic line breaks are removed one by one.
proof fn lemma_left_over_stripped<T>(b: Seq<u8>, s: Seq<T>, from: int, i: int)
    requires
        valid_utf8(b),
        b.len() <= usize::MAX,
        s.len() == b.len(),
        0 <= from <= i <= b.len(),
    ensures
        left_over(s, from, renumber::removals(softbreak::soft_breaks_from(b, i))) == s.subrange(
            from,
            i,
        ) + softbreak::stripped_along(b, s, i),
    decreases b.len() - i,
{
    let edits = renumber::removals(softbreak::soft_breaks_from(b, i));
    if i >= b.len() {
        assert(edits =~= Seq::<Edit>::empty());
        assert(s.subrange(from, i) + softbreak::stripped_along(b, s, i) =~= s.subrange(
            from,
            s.len() as int,
        ));
    } else if syntax::soft_break_at(b, i) {
        let end = softbreak::indent_end(b, i + 3);
        softbreak::lemma_indent_end(b, i + 3);
        renumber::lemma_no_soft_breaks_between(b, i + 3, end);
        lemma_left_over_stripped(b, s, end, end);
        let rest = renumber::removals(softbreak::soft_breaks_from(b, end));
        assert(edits.drop_first() =~= rest);
        assert(edits[0] == renumber::removal(i, end));
        assert(s.subrange(end, end) + softbreak::stripped_along(b, s, end)
            =~= softbreak::stripped_along(b, s, end));
    } else {
        lemma_left_over_stripped(b, s, from, i + 1);
        assert(s.subrange(from, i + 1) + softbreak::stripped_along(b, s, i + 1) =~= s.subrange(
            from,
            i,
        ) + softbreak::stripped_along(b, s, i));
    }
}

/// Text without its automatic line breaks looks as it did with them.
pub proof fn law_removing_soft_breaks_keeps_the_look(m: EditModel, kind: AttributeKind)
    requires
        valid_utf8(m.text),
        m.text.len() <= usize::MAX,
    ensures
        look(m.without_soft_breaks(), kind) == softbreak::stripped_along(
            m.text,
            look(m, kind),
            0,
        ),
{
    let edits = renumber::removals(softbreak::soft_breaks(m.text));
    renumber::lemma_removals(m.text);
    lemma_look_left_over(m, edits, kind);
    lemma_left_over_stripped(m.text, look(m, kind), 0, 0);
    assert(look(m, kind).subrange(0, 0) + softbreak::stripped_along(m.text, look(m, kind), 0)
        =~= softbreak::stripped_along(m.text, look(m, kind), 0));
}

// ---------------------------------------------------------------------------------------------
// Lining up

/// Taking out an automatic line break changes the look of nothing else.
proof fn lemma_taking_out_keeps_the_look(m: EditModel, start: int, end: int, kind: AttributeKind)
    requires
        valid_utf8(m.text),
        m.text.len() <= usize::MAX,
        bytes::at_boundary(m.text, start),
        bytes::at_boundary(m.text, end),
        start <= end,
        syntax::soft_break_at(m.text, start),
        end == softbreak::indent_end(m.text, start + 3),
        !softbreak::starts_indented(m.text.subrange(end, m.text.len() as int)),
    ensures
        ({
            let after = m.edited(renumber::removal(start, end));
            softbreak::stripped_along(after.text, look(after, kind), 0)
                == softbreak::stripped_along(m.text, look(m, kind), 0)
        }),
{
    let b = m.text;
    let len = b.len() as int;
    let seen = look(m, kind);
    let x = b.subrange(0, start);
    let broken = b.subrange(start, end);
    let y = b.subrange(end, len);
    let u = seen.subrange(0, start);
    let v = seen.subrange(start, end);
    let w = seen.subrange(end, len);
    bytes::lemma_sub_valid(b, start, end);
    reflow::lemma_break_bytes(b, start, end);
    lemma_look_removed(m, start, end, kind);
    softbreak::lemma_invisible_along(x, broken, y, u, v, w, 0);
    assert(b =~= x + broken + y);
    assert(seen =~= u + v + w);
    assert(m.edited(renumber::removal(start, end)).text =~= x + y);
}

/// Putting in an automatic line break changes the look of nothing else.
proof fn lemma_putting_in_keeps_the_look(
    m: EditModel,
    pos: int,
    indent: Indent,
    kind: AttributeKind,
)
    requires
        valid_utf8(m.text),
        bytes::at_boundary(m.text, pos),
        m.with_soft_break(pos, indent).text.len() <= usize::MAX,
        !softbreak::starts_indented(m.text.subrange(pos, m.text.len() as int)),
    ensures
        ({
            let after = m.with_soft_break(pos, indent);
            softbreak::stripped_along(after.text, look(after, kind), 0)
                == softbreak::stripped_along(m.text, look(m, kind), 0)
        }),
{
    let b = m.text;
    let len = b.len() as int;
    let seen = look(m, kind);
    let t = encode_utf8(indent.chars());
    let x = b.subrange(0, pos);
    let y = b.subrange(pos, len);
    let u = seen.subrange(0, pos);
    let v = Seq::new(t.len(), |i: int| None::<TextAttribute>);
    let w = seen.subrange(pos, len);
    reflow::lemma_indent_bytes(indent);
    bytes::lemma_sub_valid(b, pos, pos);
    lemma_look_soft_break(m, pos, indent, kind);
    softbreak::lemma_invisible_along(x, t, y, u, v, w, 0);
    assert(b =~= x + y);
    assert(seen =~= u + w);
    assert(m.with_soft_break(pos, indent).text =~= x + t + y);
}

/// A round of lining up changes the look of nothing but automatic line breaks.
proof fn lemma_a_round_keeps_the_look(
    m: EditModel,
    skipped: Seq<usize>,
    lines: Seq<Line>,
    kind: AttributeKind,
)
    requires
        valid_utf8(m.text),
        m.text.len() <= usize::MAX,
        ordered(m.attrs),
        reflow::lines_fit(m.text, lines),
        reflow::lines_start_with_text(m.text, lines),
        m.reflow_round(skipped, lines) matches Some((after, _)) ==> after.text.len() <= usize::MAX,
    ensures
        m.reflow_round(skipped, lines) matches Some((after, _)) ==> softbreak::stripped_along(
            after.text,
            look(after, kind),
            0,
        ) == softbreak::stripped_along(m.text, look(m, kind), 0) && ordered(after.attrs),
{
    let b = m.text;
    if let Some(k) = reflow::first_wrap(b, skipped, lines, 1) {
        reflow::lemma_first_wrap(b, skipped, lines, 1);
        let pos = lines[k].start as int;
        let prev = lines[k - 1].start as int;
        assert(bytes::at_boundary(b, lines[k].start as int));
        assert(bytes::at_boundary(b, lines[k - 1].start as int));
        assert(!softbreak::starts_indented(b.subrange(lines[k].start as int, b.len() as int)));
        softbreak::lemma_soft_break_around(b, prev);
        match softbreak::soft_break_around(b, prev) {
            Some(r) if r.end == pos => {
                lemma_taking_out_keeps_the_look(m, r.start as int, r.end as int, kind);
                lemma_edited_ordered(renumber::removal(r.start as int, r.end as int), m.attrs);
            },
            _ => {
                if let Some(indent) = lines[k].indent {
                    let t = encode_utf8(indent.chars());
                    let e = Edit { start: pos, end: pos, text: t };
                    lemma_putting_in_keeps_the_look(m, pos, indent, kind);
                    lemma_edited_ordered(e, m.attrs);
                    lemma_cut_ordered(e.map_attrs(m.attrs), pos, pos + t.len());
                }
            },
        }
    }
}

/// What one round of lining up leads to, after an answer of the layout.
spec fn next_round<L: Fn(&TextStroke) -> Option<Vec<Line>>>(
    layout: L,
    from: TextStroke,
    positions: Seq<usize>,
    skipped: Seq<usize>,
    rounds: nat,
    to: TextStroke,
    end: Seq<usize>,
    answer: Option<Vec<Line>>,
) -> bool {
    match answer {
        None => to == from && end == positions,
        Some(lines) => match from.model(positions).reflow_round(skipped, lines@) {
            None => to == from && end == positions,
            Some((m, s)) => exists|next: TextStroke|
                next.model(m.positions) == m && m.valid() && #[trigger] next.same_base_style(&from)
                    && reflow::reflow_leads_to(
                    layout,
                    next,
                    m.positions,
                    s,
                    (rounds - 1) as nat,
                    to,
                    end,
                ),
        },
    }
}

/// Lining up changes the look of nothing but automatic line breaks, when the layout does not wrap
/// lines in front of spaces. The base style stays.
pub proof fn law_lining_up_keeps_the_look<L: Fn(&TextStroke) -> Option<Vec<Line>>>(
    layout: L,
    from: TextStroke,
    positions: Seq<usize>,
    skipped: Seq<usize>,
    rounds: nat,
    to: TextStroke,
    end: Seq<usize>,
    kind: AttributeKind,
)
    requires
        reflow::lays_out(layout),
        reflow::wraps_behind_spaces(layout),
        encode_utf8(from.text@).len() <= usize::MAX,
        ordered(from.model(positions).attrs),
        reflow::reflow_leads_to(layout, from, positions, skipped, rounds, to, end),
    ensures
        softbreak::stripped_along(encode_utf8(to.text@), look(to.model(end), kind), 0)
            == softbreak::stripped_along(
            encode_utf8(from.text@),
            look(from.model(positions), kind),
            0,
        ),
        ordered(to.model(end).attrs),
        to.same_base_style(&from),
    decreases rounds,
{
    let m = from.model(positions);
    if rounds > 0 && syntax::items(m.text).len() > 0 {
        let answer = choose|answer: Option<Vec<Line>>| #[trigger]
            call_ensures(layout, (&from,), answer) && next_round(
                layout,
                from,
                positions,
                skipped,
                rounds,
                to,
                end,
                answer,
            );
        if let Some(lines) = answer {
            if let Some((n, s)) = m.reflow_round(skipped, lines@) {
                let next = choose|next: TextStroke|
                    next.model(n.positions) == n && n.valid() && #[trigger] next.same_base_style(
                        &from,
                    ) && reflow::reflow_leads_to(
                        layout,
                        next,
                        n.positions,
                        s,
                        (rounds - 1) as nat,
                        to,
                        end,
                    );
                encode_utf8_valid_utf8(from.text@);
                lemma_a_round_keeps_the_look(m, skipped, lines@, kind);
                law_lining_up_keeps_the_look(
                    layout,
                    next,
                    n.positions,
                    s,
                    (rounds - 1) as nat,
                    to,
                    end,
                    kind,
                );
            }
        }
    }
}

// ---------------------------------------------------------------------------------------------
// Doing it again

/// Whether two answers of a layout are the same.
pub open spec fn same_answer(a: Option<Vec<Line>>, b: Option<Vec<Line>>) -> bool {
    match a {
        None => b is None,
        Some(x) => b matches Some(y) && x@ == y@,
    }
}

/// A layout that gives the same answer for texts that look the same.
pub open spec fn depends_on_the_look<L: Fn(&TextStroke) -> Option<Vec<Line>>>(layout: L) -> bool {
    forall|a: &TextStroke, b: &TextStroke, x: Option<Vec<Line>>, y: Option<Vec<Line>>|
        #[trigger] call_ensures(layout, (a,), x) && #[trigger] call_ensures(layout, (b,), y)
            && a.same_base_style(b) && looks_alike(a.model(Seq::empty()), b.model(Seq::empty()))
            ==> same_answer(x, y)
}

/// A round of lining up does the same to texts that look the same.
proof fn lemma_rounds_alike(a: EditModel, b: EditModel, skipped: Seq<usize>, lines: Seq<Line>)
    requires
        looks_alike(a, b),
        valid_utf8(a.text),
        a.text.len() <= usize::MAX,
        reflow::lines_fit(a.text, lines),
        a.reflow_round(skipped, lines) matches Some((after, _)) ==> after.text.len() <= usize::MAX,
    ensures
        match a.reflow_round(skipped, lines) {
            None => b.reflow_round(skipped, lines) is None,
            Some((x, s)) => b.reflow_round(skipped, lines) matches Some((y, t)) && s == t
                && looks_alike(x, y),
        },
{
    let text = a.text;
    if let Some(k) = reflow::first_wrap(text, skipped, lines, 1) {
        reflow::lemma_first_wrap(text, skipped, lines, 1);
        let pos = lines[k].start as int;
        let prev = lines[k - 1].start as int;
        assert(bytes::at_boundary(text, lines[k].start as int));
        assert(bytes::at_boundary(text, lines[k - 1].start as int));
        softbreak::lemma_soft_break_around(text, prev);
        let (x, _) = a.reflow_round(skipped, lines)->0;
        let (y, _) = b.reflow_round(skipped, lines)->0;
        assert forall|kind: AttributeKind| #[trigger] look(x, kind) == look(y, kind) by {
            assert(look(a, kind) == look(b, kind));
            match softbreak::soft_break_around(text, prev) {
                Some(r) if r.end == pos => {
                    lemma_look_removed(a, r.start as int, r.end as int, kind);
                    lemma_look_removed(b, r.start as int, r.end as int, kind);
                },
                _ => {
                    if let Some(indent) = lines[k].indent {
                        lemma_look_soft_break(a, pos, indent, kind);
                        lemma_look_soft_break(b, pos, indent, kind);
                    }
                },
            }
        }
    }
}

/// Lining up texts that look the same leads to texts that look the same.
pub proof fn law_lining_up_depends_on_the_look<L: Fn(&TextStroke) -> Option<Vec<Line>>>(
    layout: L,
    skipped: Seq<usize>,
    rounds: nat,
    from_a: TextStroke,
    positions_a: Seq<usize>,
    to_a: TextStroke,
    end_a: Seq<usize>,
    from_b: TextStroke,
    positions_b: Seq<usize>,
    to_b: TextStroke,
    end_b: Seq<usize>,
)
    requires
        reflow::lays_out(layout),
        depends_on_the_look(layout),
        encode_utf8(from_a.text@).len() <= usize::MAX,
        from_a.same_base_style(&from_b),
        looks_alike(from_a.model(positions_a), from_b.model(positions_b)),
        reflow::reflow_leads_to(layout, from_a, positions_a, skipped, rounds, to_a, end_a),
        reflow::reflow_leads_to(layout, from_b, positions_b, skipped, rounds, to_b, end_b),
    ensures
        looks_alike(to_a.model(end_a), to_b.model(end_b)),
    decreases rounds,
{
    let a = from_a.model(positions_a);
    let b = from_b.model(positions_b);
    if rounds > 0 && syntax::items(a.text).len() > 0 {
        let x = choose|x: Option<Vec<Line>>| #[trigger]
            call_ensures(layout, (&from_a,), x) && next_round(
                layout,
                from_a,
                positions_a,
                skipped,
                rounds,
                to_a,
                end_a,
                x,
            );
        let y = choose|y: Option<Vec<Line>>| #[trigger]
            call_ensures(layout, (&from_b,), y) && next_round(
                layout,
                from_b,
                positions_b,
                skipped,
                rounds,
                to_b,
                end_b,
                y,
            );
        assert forall|kind: AttributeKind| #[trigger]
            look(from_a.model(Seq::empty()), kind) == look(from_b.model(Seq::empty()), kind) by {
            assert(look(a, kind) == look(b, kind));
            assert(look(from_a.model(Seq::empty()), kind) =~= look(a, kind));
            assert(look(from_b.model(Seq::empty()), kind) =~= look(b, kind));
        }
        assert(looks_alike(from_a.model(Seq::empty()), from_b.model(Seq::empty())));
        assert(same_answer(x, y));
        if let Some(lines) = x {
            encode_utf8_valid_utf8(from_a.text@);
            if let Some((m, s)) = a.reflow_round(skipped, lines@) {
                let next_a = choose|next: TextStroke|
                    next.model(m.positions) == m && m.valid() && #[trigger] next.same_base_style(
                        &from_a,
                    ) && reflow::reflow_leads_to(
                        layout,
                        next,
                        m.positions,
                        s,
                        (rounds - 1) as nat,
                        to_a,
                        end_a,
                    );
                lemma_rounds_alike(a, b, skipped, lines@);
                let (n, t) = b.reflow_round(skipped, lines@)->0;
                let next_b = choose|next: TextStroke|
                    next.model(n.positions) == n && n.valid() && #[trigger] next.same_base_style(
                        &from_b,
                    ) && reflow::reflow_leads_to(
                        layout,
                        next,
                        n.positions,
                        s,
                        (rounds - 1) as nat,
                        to_b,
                        end_b,
                    );
                law_lining_up_depends_on_the_look(
                    layout,
                    s,
                    (rounds - 1) as nat,
                    next_a,
                    m.positions,
                    to_a,
                    end_a,
                    next_b,
                    n.positions,
                    to_b,
                    end_b,
                );
            } else {
                lemma_rounds_alike(a, b, skipped, lines@);
            }
        }
    }
}

/// The attributes of up to date lists are ordered.
proof fn lemma_relaid_ordered(m: EditModel)
    requires
        ordered(m.attrs),
    ensures
        ordered(m.without_soft_breaks().attrs),
        ordered(m.relaid().attrs),
{
    let stripped = m.without_soft_breaks();
    let merged = stripped.with_merged_attrs();
    lemma_edited_all_ordered(m, renumber::removals(softbreak::soft_breaks(m.text)));
    attrs::law_merging_keeps_the_look(stripped.attrs, AttributeKind::Underline, 0);
    lemma_edited_all_ordered(
        merged,
        renumber::number_edits(merged.text, syntax::paragraphs(merged.text)),
    );
}

/// Where lists are up to date apart from the automatic line breaks, bringing them up to date removes
/// these and changes nothing else.
proof fn lemma_relaid_again(m: EditModel, n: EditModel)
    requires
        valid_utf8(m.text),
        m.text.len() <= usize::MAX,
        m.relaid().text.len() <= usize::MAX,
        valid_utf8(n.text),
        n.text.len() <= usize::MAX,
        ordered(n.attrs),
        softbreak::stripped(n.text) == m.relaid().text,
        forall|kind: AttributeKind| #[trigger]
            softbreak::stripped_along(n.text, look(n, kind), 0) == look(m.relaid(), kind),
    ensures
        looks_alike(n.relaid(), m.relaid()),
{
    let before = m.without_soft_breaks().with_merged_attrs();
    let stripped = n.without_soft_breaks();
    let merged = stripped.with_merged_attrs();
    renumber::law_removing_soft_breaks_strips_the_text(n);
    renumber::lemma_removals(m.text);
    edit::lemma_edited_all_text(m, renumber::removals(softbreak::soft_breaks(m.text)));
    renumber::law_removing_soft_breaks_strips_the_text(m);
    softbreak::lemma_stripped_len(m.text, 0);
    numbering::law_renumbering_again_changes_nothing(before);
    assert(renumber::number_edits(merged.text, syntax::paragraphs(merged.text))
        =~= Seq::<Edit>::empty());
    assert(n.relaid() == merged);
    lemma_relaid_ordered(n);
    assert forall|kind: AttributeKind| #[trigger] look(merged, kind) == look(m.relaid(), kind) by {
        law_removing_soft_breaks_keeps_the_look(n, kind);
        assert(softbreak::stripped_along(n.text, look(n, kind), 0) == look(m.relaid(), kind));
        assert forall|p: int| 0 <= p < merged.text.len() implies #[trigger] look(merged, kind)[p]
            == look(stripped, kind)[p] by {
            attrs::law_merging_keeps_the_look(stripped.attrs, kind, p);
        }
        assert(look(merged, kind) =~= look(stripped, kind));
    }
}

/// Bringing lists up to date again changes neither their text nor their look, when the layout depends
/// on the look alone and does not wrap lines in front of spaces.
pub proof fn law_updating_again_changes_nothing<L: Fn(&TextStroke) -> Option<Vec<Line>>>(
    layout: L,
    m: EditModel,
    base: TextStroke,
    to: TextStroke,
    end: Seq<usize>,
    positions: Seq<usize>,
    again: TextStroke,
    again_end: Seq<usize>,
)
    requires
        reflow::lays_out(layout),
        reflow::wraps_behind_spaces(layout),
        depends_on_the_look(layout),
        valid_utf8(m.text),
        m.text.len() <= usize::MAX,
        m.relaid().text.len() <= usize::MAX,
        ordered(m.attrs),
        lists::relayout_leads_to(layout, m, base, to, end),
        encode_utf8(to.text@).len() <= usize::MAX,
        lists::relayout_leads_to(layout, to.model(positions), to, again, again_end),
    ensures
        again.text@ == to.text@,
        looks_alike(again.model(again_end), to.model(end)),
{
    let n = to.model(positions);
    let first = choose|relaid: TextStroke| #[trigger]
        relaid.model(m.relaid().positions) == m.relaid() && relaid.same_base_style(&base)
            && reflow::reflowed(layout, relaid, m.relaid().positions, to, end);
    let second = choose|relaid: TextStroke| #[trigger]
        relaid.model(n.relaid().positions) == n.relaid() && relaid.same_base_style(&to)
            && reflow::reflowed(layout, relaid, n.relaid().positions, again, again_end);
    let wraps = base.text_style.wraps && base.text_style.alignment == TextAlignment::Start;
    lists::law_lists_are_copied_without_soft_breaks(layout, m, base, to, end);
    numbering::law_updating_again_changes_no_text(m);
    lemma_relaid_ordered(m);
    encode_utf8_valid_utf8(to.text@);
    assert forall|kind: AttributeKind| #[trigger]
        softbreak::stripped_along(n.text, look(n, kind), 0) == look(m.relaid(), kind) by {
        let seen = look(m.relaid(), kind);
        softbreak::lemma_nothing_to_strip(m.relaid().text, seen, 0);
        assert(seen.subrange(0, seen.len() as int) =~= seen);
        assert(look(n, kind) =~= look(to.model(end), kind));
        if wraps {
            law_lining_up_keeps_the_look(
                layout,
                first,
                m.relaid().positions,
                Seq::empty(),
                reflow::MAX_REFLOW_ITERATIONS as nat,
                to,
                end,
                kind,
            );
        }
    }
    if wraps {
        law_lining_up_keeps_the_look(
            layout,
            first,
            m.relaid().positions,
            Seq::empty(),
            reflow::MAX_REFLOW_ITERATIONS as nat,
            to,
            end,
            AttributeKind::Underline,
        );
    }
    lemma_relaid_again(m, n);
    if wraps {
        law_lining_up_depends_on_the_look(
            layout,
            Seq::empty(),
            reflow::MAX_REFLOW_ITERATIONS as nat,
            second,
            n.relaid().positions,
            again,
            again_end,
            first,
            m.relaid().positions,
            to,
            end,
        );
    }
    bytes::lemma_encode_injective(again.text@, to.text@);
}

} // verus!
