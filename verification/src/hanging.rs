//! Wrapped list items get hanging indents.

use crate::bytes;
use crate::edit::{EditModel, TextAlignment, TextStroke};
use crate::lists;
use crate::numbering;
use crate::plain;
use crate::reflow;
use crate::reflow::{Indent, Line};
use crate::softbreak;
use crate::syntax;
use crate::typing;
use vstd::prelude::*;
use vstd::utf8::*;

verus! {

broadcast use syntax::group_char_bytes;

/// Whether the automatic line break at `i` in the text `b` is what the layout of the text `t` asks
/// for in front of the line `k`: with the indentation that lines it up, at the place where the line
/// starts. Apart from automatic line breaks the texts are the same.
pub open spec fn asks_for(t: Seq<u8>, lines: Seq<Line>, k: int, b: Seq<u8>, i: int) -> bool {
    &&& 0 < k < lines.len()
    &&& lines[k].indent matches Some(indent) && b.subrange(i, softbreak::indent_end(b, i + 3))
        == encode_utf8(indent.chars())
    &&& softbreak::stripped(t.subrange(0, lines[k].start as int)) == softbreak::stripped(
        b.subrange(0, i),
    )
    &&& softbreak::stripped(t) == softbreak::stripped(b)
}

/// Whether an answer of the layout asks for the automatic line break at `i`.
pub open spec fn asked_for<L: Fn(&TextStroke) -> Option<Vec<Line>>>(
    layout: L,
    b: Seq<u8>,
    i: int,
) -> bool {
    exists|t: TextStroke, lines: Vec<Line>, k: int|
        #![trigger call_ensures(layout, (&t,), Some(lines)), asks_for(encode_utf8(t.text@), lines@, k, b, i)]
        call_ensures(layout, (&t,), Some(lines)) && asks_for(
            encode_utf8(t.text@),
            lines@,
            k,
            b,
            i,
        )
}

/// Whether all automatic line breaks are as the layout asks for.
pub open spec fn all_asked_for<L: Fn(&TextStroke) -> Option<Vec<Line>>>(
    layout: L,
    b: Seq<u8>,
) -> bool {
    forall|i: int| #[trigger] syntax::soft_break_at(b, i) ==> asked_for(layout, b, i)
}

// ---------------------------------------------------------------------------------------------
// The other automatic line breaks

/// Three pieces of text: an automatic line break with its indentation, and what stands around it.
spec fn broken(x: Seq<u8>, br: Seq<u8>, y: Seq<u8>) -> bool {
    &&& valid_utf8(x)
    &&& valid_utf8(br)
    &&& syntax::soft_break_at(br, 0)
    &&& softbreak::indent_end(br, 3) == br.len()
    &&& !softbreak::starts_indented(y)
}

/// Automatic line breaks in front of another one do not depend on it.
proof fn lemma_break_in_front(x: Seq<u8>, br: Seq<u8>, y: Seq<u8>, i: int)
    requires
        broken(x, br, y),
        0 <= i < x.len(),
    ensures
        syntax::soft_break_at(x + br + y, i) == syntax::soft_break_at(x + y, i),
        syntax::soft_break_at(x + y, i) ==> {
            let e = softbreak::indent_end(x + y, i + 3);
            &&& softbreak::indent_end(x + br + y, i + 3) == e
            &&& i + 3 <= e <= x.len()
            &&& (x + br + y).subrange(i, e) == (x + y).subrange(i, e)
            &&& (x + br + y).subrange(0, i) == (x + y).subrange(0, i)
        },
{
    let z = x + br + y;
    let behind = br + y;
    assert(z =~= x + behind);
    assert(behind[0] == br[0] && behind[1] == br[1] && behind[2] == br[2]);
    assert(!softbreak::starts_indented(behind));
    softbreak::lemma_soft_break_prefix(x, behind, i);
    softbreak::lemma_soft_break_prefix(x, y, i);
    if syntax::soft_break_at(x, i) {
        softbreak::lemma_indent_end_prefix(x, behind, i + 3);
        softbreak::lemma_indent_end_prefix(x, y, i + 3);
        softbreak::lemma_indent_end(x, i + 3);
        let e = softbreak::indent_end(x, i + 3);
        assert(z.subrange(i, e) =~= (x + y).subrange(i, e));
        assert(z.subrange(0, i) =~= (x + y).subrange(0, i));
    }
}

/// Automatic line breaks behind another one do not depend on it.
proof fn lemma_break_behind(x: Seq<u8>, br: Seq<u8>, y: Seq<u8>, i: int)
    requires
        broken(x, br, y),
        0 <= i,
    ensures
        ({
            let p = x.len() + i;
            let q = x.len() + br.len() + i;
            &&& syntax::soft_break_at(x + br + y, q) == syntax::soft_break_at(x + y, p)
            &&& syntax::soft_break_at(x + y, p) ==> {
                let e = softbreak::indent_end(x + y, p + 3);
                &&& softbreak::indent_end(x + br + y, q + 3) == e + br.len()
                &&& (x + br + y).subrange(q, e + br.len()) == (x + y).subrange(p, e)
                &&& softbreak::stripped((x + br + y).subrange(0, q)) == softbreak::stripped(
                    (x + y).subrange(0, p),
                )
            }
        }),
{
    let p = x.len() + i;
    let q = x.len() + br.len() + i;
    let z = x + br + y;
    if i <= y.len() {
        softbreak::lemma_three_suffix(x + br, y, i);
        softbreak::lemma_three_suffix(x, y, i);
        assert((x + br).len() + i == q);
    }
    if syntax::soft_break_at(x + y, p) {
        softbreak::lemma_indent_end_suffix(x + br, y, i + 3);
        softbreak::lemma_indent_end_suffix(x, y, i + 3);
        softbreak::lemma_indent_end(y, i + 3);
        let e = softbreak::indent_end(x + y, p + 3);
        assert((x + br).len() + (i + 3) == q + 3);
        assert(z.subrange(q, e + br.len()) =~= (x + y).subrange(p, e));
        let front = y.subrange(0, i);
        assert(z.subrange(0, q) =~= x + br + front);
        assert((x + y).subrange(0, p) =~= x + front);
        assert(!softbreak::starts_indented(front)) by {
            if front.len() > 0 {
                assert(front[0] == y[0]);
                if syntax::hair_at(front, 0) {
                    assert(front[1] == y[1] && front[2] == y[2]);
                }
            }
        }
        softbreak::law_soft_breaks_are_invisible(x, br, front);
    }
}

/// An automatic line break with its indentation, found in the text.
proof fn lemma_break_found(x: Seq<u8>, br: Seq<u8>, y: Seq<u8>, i: int)
    requires
        broken(x, br, y),
        0 <= i < br.len(),
        syntax::soft_break_at(x + br + y, x.len() + i),
    ensures
        i == 0,
        softbreak::indent_end(x + br + y, x.len() + 3int) == x.len() + br.len(),
{
    let behind = br + y;
    assert(x + br + y =~= x + behind);
    softbreak::lemma_three_suffix(x, behind, i);
    softbreak::lemma_soft_break_prefix(br, y, i);
    softbreak::lemma_indent_end(br, 3);
    softbreak::lemma_indent_end_suffix(x, behind, 3);
    softbreak::lemma_indent_end_prefix(br, y, 3);
    assert(br[1] == 0x80 && br[2] == 0xa8);
}

/// What was asked for stays asked for when another automatic line break is put in or taken out.
proof fn lemma_still_asked_for<L: Fn(&TextStroke) -> Option<Vec<Line>>>(
    layout: L,
    b: Seq<u8>,
    i: int,
    c: Seq<u8>,
    j: int,
)
    requires
        asked_for(layout, b, i),
        b.subrange(i, softbreak::indent_end(b, i + 3)) == c.subrange(
            j,
            softbreak::indent_end(c, j + 3),
        ),
        softbreak::stripped(b.subrange(0, i)) == softbreak::stripped(c.subrange(0, j)),
        softbreak::stripped(b) == softbreak::stripped(c),
    ensures
        asked_for(layout, c, j),
{
    let (t, lines, k) = choose|t: TextStroke, lines: Vec<Line>, k: int|
        #![trigger call_ensures(layout, (&t,), Some(lines)), asks_for(encode_utf8(t.text@), lines@, k, b, i)]
        call_ensures(layout, (&t,), Some(lines)) && asks_for(
            encode_utf8(t.text@),
            lines@,
            k,
            b,
            i,
        );
    assert(call_ensures(layout, (&t,), Some(lines)));
    assert(asks_for(encode_utf8(t.text@), lines@, k, c, j));
}

/// Taking an automatic line break out leaves the others as the layout asks for.
proof fn lemma_taken_out<L: Fn(&TextStroke) -> Option<Vec<Line>>>(
    layout: L,
    x: Seq<u8>,
    br: Seq<u8>,
    y: Seq<u8>,
)
    requires
        broken(x, br, y),
        all_asked_for(layout, x + br + y),
    ensures
        all_asked_for(layout, x + y),
{
    let b = x + br + y;
    let c = x + y;
    softbreak::law_soft_breaks_are_invisible(x, br, y);
    assert forall|i: int| #[trigger] syntax::soft_break_at(c, i) implies asked_for(layout, c, i) by {
        if i < x.len() {
            lemma_break_in_front(x, br, y, i);
            assert(syntax::soft_break_at(b, i));
            lemma_still_asked_for(layout, b, i, c, i);
        } else {
            lemma_break_behind(x, br, y, i - x.len());
            assert(syntax::soft_break_at(b, i + br.len()));
            lemma_still_asked_for(layout, b, i + br.len(), c, i);
        }
    }
}

/// Putting in an automatic line break that the layout asks for leaves all of them as it asks for.
proof fn lemma_put_in<L: Fn(&TextStroke) -> Option<Vec<Line>>>(
    layout: L,
    x: Seq<u8>,
    br: Seq<u8>,
    y: Seq<u8>,
)
    requires
        broken(x, br, y),
        all_asked_for(layout, x + y),
        asked_for(layout, x + br + y, x.len() as int),
    ensures
        all_asked_for(layout, x + br + y),
{
    let b = x + y;
    let c = x + br + y;
    softbreak::law_soft_breaks_are_invisible(x, br, y);
    assert forall|i: int| #[trigger] syntax::soft_break_at(c, i) implies asked_for(layout, c, i) by {
        if i < x.len() {
            lemma_break_in_front(x, br, y, i);
            assert(syntax::soft_break_at(b, i));
            lemma_still_asked_for(layout, b, i, c, i);
        } else if i < x.len() + br.len() {
            lemma_break_found(x, br, y, i - x.len());
        } else {
            lemma_break_behind(x, br, y, i - x.len() - br.len());
            assert(syntax::soft_break_at(b, i - br.len()));
            lemma_still_asked_for(layout, b, i - br.len(), c, i);
        }
    }
}

// ---------------------------------------------------------------------------------------------
// Laws

/// A round of lining up leaves all automatic line breaks as the layout asks for.
proof fn lemma_a_round_asks<L: Fn(&TextStroke) -> Option<Vec<Line>>>(
    layout: L,
    from: TextStroke,
    positions: Seq<usize>,
    skipped: Seq<usize>,
    lines: Vec<Line>,
)
    requires
        call_ensures(layout, (&from,), Some(lines)),
        reflow::lines_fit(encode_utf8(from.text@), lines@),
        reflow::lines_start_with_text(encode_utf8(from.text@), lines@),
        encode_utf8(from.text@).len() <= usize::MAX,
        all_asked_for(layout, encode_utf8(from.text@)),
    ensures
        from.model(positions).reflow_round(skipped, lines@) matches Some((m, _)) ==> all_asked_for(
            layout,
            m.text,
        ),
{
    let b = encode_utf8(from.text@);
    encode_utf8_valid_utf8(from.text@);
    if let Some(k) = reflow::first_wrap(b, skipped, lines@, 1) {
        reflow::lemma_first_wrap(b, skipped, lines@, 1);
        let pos = lines@[k].start as int;
        let prev = lines@[k - 1].start as int;
        assert(bytes::at_boundary(b, lines@[k].start as int));
        assert(bytes::at_boundary(b, lines@[k - 1].start as int));
        assert(!softbreak::starts_indented(b.subrange(lines@[k].start as int, b.len() as int)));
        softbreak::lemma_soft_break_around(b, prev);
        match softbreak::soft_break_around(b, prev) {
            Some(r) if r.end == pos => {
                let x = b.subrange(0, r.start as int);
                let br = b.subrange(r.start as int, pos);
                let y = b.subrange(pos, b.len() as int);
                bytes::lemma_sub_valid(b, r.start as int, pos);
                reflow::lemma_break_bytes(b, r.start as int, pos);
                assert(b =~= x + br + y);
                lemma_taken_out(layout, x, br, y);
                assert(bytes::splice(b, r.start as int, pos, Seq::<u8>::empty()) =~= x + y);
            },
            _ => {
                if let Some(indent) = lines@[k].indent {
                    let br = encode_utf8(indent.chars());
                    let x = b.subrange(0, pos);
                    let y = b.subrange(pos, b.len() as int);
                    let c = x + br + y;
                    reflow::lemma_indent_bytes(indent);
                    bytes::lemma_sub_valid(b, pos, pos);
                    assert(b =~= x + y);
                    softbreak::law_soft_breaks_are_invisible(x, br, y);
                    assert(c =~= x + (br + y));
                    softbreak::lemma_three_suffix(x, br + y, 0);
                    assert((br + y)[0] == br[0] && (br + y)[1] == br[1] && (br + y)[2] == br[2]);
                    assert(syntax::soft_break_at(br + y, 0));
                    lemma_break_found(x, br, y, 0);
                    assert(c.subrange(pos, pos + br.len()) =~= br);
                    assert(c.subrange(0, pos) =~= x);
                    assert(asks_for(encode_utf8(from.text@), lines@, k, c, pos));
                    assert(call_ensures(layout, (&from,), Some(lines)));
                    assert(asked_for(layout, c, pos));
                    lemma_put_in(layout, x, br, y);
                }
            },
        }
    }
}

/// Lining up puts in automatic line breaks where an answer of the layout has a line start, with the
/// indentation that lines it up, when lines do not wrap in front of spaces.
pub proof fn law_lining_up_follows_the_layout<L: Fn(&TextStroke) -> Option<Vec<Line>>>(
    layout: L,
    from: TextStroke,
    positions: Seq<usize>,
    skipped: Seq<usize>,
    rounds: nat,
    to: TextStroke,
    end: Seq<usize>,
)
    requires
        reflow::lays_out(layout),
        reflow::wraps_behind_spaces(layout),
        encode_utf8(from.text@).len() <= usize::MAX,
        all_asked_for(layout, encode_utf8(from.text@)),
        reflow::reflow_leads_to(layout, from, positions, skipped, rounds, to, end),
    ensures
        all_asked_for(layout, encode_utf8(to.text@)),
    decreases rounds,
{
    if rounds > 0 && syntax::items(encode_utf8(from.text@)).len() > 0 {
        let m = from.model(positions);
        let answer = choose|answer: Option<Vec<Line>>| #[trigger]
            call_ensures(layout, (&from,), answer) && match answer {
                None => to == from && end == positions,
                Some(lines) => match m.reflow_round(skipped, lines@) {
                    None => to == from && end == positions,
                    Some((m, s)) => exists|next: TextStroke|
                        next.model(m.positions) == m && m.valid()
                            && #[trigger] next.same_base_style(&from) && reflow::reflow_leads_to(
                            layout,
                            next,
                            m.positions,
                            s,
                            (rounds - 1) as nat,
                            to,
                            end,
                        ),
                },
            };
        if let Some(lines) = answer {
            if let Some((n, s)) = m.reflow_round(skipped, lines@) {
                let next = choose|next: TextStroke|
                    next.model(n.positions) == n && n.valid() && #[trigger] next.same_base_style(
                        &from,
                    ) && reflow::reflow_leads_to(
                        layout,
                        next,
                        n.positions,
                        s,
                        (rounds - 1) as nat,
                        to,
                        end,
                    );
                lemma_a_round_asks(layout, from, positions, skipped, lines);
                law_lining_up_follows_the_layout(
                    layout,
                    next,
                    n.positions,
                    s,
                    (rounds - 1) as nat,
                    to,
                    end,
                );
            }
        }
    }
}

/// Wrapped list items get a hanging indent, when lines do not wrap in front of spaces:
/// - Each automatic line break stands where an answer of the layout has a line start, with the
///   indentation that lines it up with the text of the item.
/// - Every wrap of an item is marked with one, unless all rounds were needed, the text cannot be laid
///   out, or an answer of the layout makes that the wrap is left alone.
/// - Paragraphs that are no items have none, and are as they were.
/// - Without them the text is the one that was lined up.
/// - Positions at its end stay at the end.
pub proof fn law_wrapped_items_get_a_hanging_indent<L: Fn(&TextStroke) -> Option<Vec<Line>>>(
    layout: L,
    m: EditModel,
    base: TextStroke,
    to: TextStroke,
    end: Seq<usize>,
)
    requires
        reflow::lays_out(layout),
        reflow::wraps_behind_spaces(layout),
        valid_utf8(m.text),
        m.text.len() <= usize::MAX,
        m.relaid().text.len() <= usize::MAX,
        base.text_style.wraps,
        base.text_style.alignment == TextAlignment::Start,
        lists::relayout_leads_to(layout, m, base, to, end),
    ensures
        all_asked_for(layout, encode_utf8(to.text@)),
        exists|relaid: TextStroke, n: nat, s: Seq<usize>|
            relaid.model(m.relaid().positions) == m.relaid() && #[trigger] reflow::lined_up_after(
                layout,
                relaid,
                m.relaid().positions,
                Seq::empty(),
                reflow::MAX_REFLOW_ITERATIONS as nat,
                to,
                end,
                n,
                s,
            ),
        plain::plain_kept(softbreak::stripped(m.text), encode_utf8(to.text@)),
        forall|k: int|
            0 <= k < syntax::paragraphs(softbreak::stripped(m.text)).len()
                && #[trigger] numbering::item_of(softbreak::stripped(m.text), k) is None
                ==> !softbreak::has_soft_break(numbering::paragraph(encode_utf8(to.text@), k)),
        softbreak::stripped(encode_utf8(to.text@)) == m.relaid().text,
        m.relaid().keeps_ends(to.model(end)),
{
    let relaid = choose|relaid: TextStroke| #[trigger]
        relaid.model(m.relaid().positions) == m.relaid() && relaid.same_base_style(&base)
            && reflow::reflowed(layout, relaid, m.relaid().positions, to, end);
    let positions = m.relaid().positions;
    let rounds = reflow::MAX_REFLOW_ITERATIONS as nat;
    let none = Seq::<usize>::empty();
    numbering::law_updating_again_changes_no_text(m);
    assert(all_asked_for(layout, encode_utf8(relaid.text@)));
    law_lining_up_follows_the_layout(layout, relaid, positions, none, rounds, to, end);
    reflow::law_every_wrap_is_marked(layout, relaid, positions, none, rounds, to, end);
    reflow::law_lining_up_keeps_ends(layout, relaid, positions, none, rounds, to, end);
    plain::law_updating_changes_only_items(layout, m, base, to, end);
    lists::law_lists_are_copied_without_soft_breaks(layout, m, base, to, end);
}

// ---------------------------------------------------------------------------------------------
// Rounds

/// A line wrapped without an automatic line break if it starts inside a list item, behind the start of
/// its paragraph, with no automatic line break right in front of it or right behind. Wraps that are
/// skipped do not count.
pub proof fn law_lines_inside_items_are_wraps(b: Seq<u8>, skipped: Seq<usize>, pos: usize)
    requires
        valid_utf8(b),
        b.len() <= usize::MAX,
        pos <= b.len(),
    ensures
        reflow::unmarked_wrap(b, skipped, pos) <==> {
            &&& syntax::item_at(b, pos as int) is Some
            &&& 0 < pos && b[pos - 1] != 0x0a
            &&& !bytes::has_at(b, pos - 3, encode_utf8(seq!['\u{2028}']))
            &&& !bytes::has_at(b, pos as int, encode_utf8(seq!['\u{2028}']))
            &&& forall|i: int| 0 <= i < skipped.len() ==> #[trigger] skipped[i] != pos
        },
{
    syntax::lemma_item_at(b, pos as int);
    bytes::lemma_encode_one('\u{2028}');
    reveal(syntax::soft_break_at);
    assert(syntax::soft_break_at(b, pos - 3) == bytes::has_at(b, pos - 3, bytes::utf8('\u{2028}')));
    assert(syntax::soft_break_at(b, pos as int) == bytes::has_at(
        b,
        pos as int,
        bytes::utf8('\u{2028}'),
    ));
    if 0 < pos {
        syntax::lemma_para_start(b, pos - 1);
    }
    if skipped.contains(pos) {
        let i = choose|i: int| 0 <= i < skipped.len() && skipped[i] == pos;
        assert(skipped[i] == pos);
    }
}

/// A round of lining up deals with the first wrap. If an automatic line break with nothing behind its
/// indentation stands in front of it, the break did not help: it is taken out, and its place is skipped
/// from then on. If there is no indentation that fits, the wrap is skipped. Otherwise an automatic line
/// break with the indentation is put there. Without wraps the lining up is finished.
pub proof fn law_a_round_deals_with_the_first_wrap(
    m: EditModel,
    skipped: Seq<usize>,
    lines: Seq<Line>,
    k: int,
)
    requires
        valid_utf8(m.text),
        m.text.len() <= usize::MAX,
        reflow::lines_fit(m.text, lines),
        1 <= k <= lines.len(),
        forall|j: int|
            1 <= j < k ==> !reflow::unmarked_wrap(m.text, skipped, (#[trigger] lines[j]).start),
        k < lines.len() ==> reflow::unmarked_wrap(m.text, skipped, lines[k].start),
    ensures
        k == lines.len() ==> m.reflow_round(skipped, lines) is None,
        k < lines.len() ==> {
            let pos = lines[k].start;
            let (after, s) = m.reflow_round(skipped, lines)->0;
            &&& m.reflow_round(skipped, lines) is Some
            &&& forall|start: int| #[trigger]
                syntax::soft_break_at(m.text, start) && start + 3 <= lines[k - 1].start <= pos
                    && softbreak::indent_end(m.text, start + 3) == pos ==> after.text == bytes::splice(
                    m.text,
                    start,
                    pos as int,
                    Seq::empty(),
                ) && s == skipped.push(start as usize)
            &&& (forall|start: int| #[trigger]
                syntax::soft_break_at(m.text, start) && start + 3 <= lines[k - 1].start <= pos
                    ==> softbreak::indent_end(m.text, start + 3) != pos) ==> match lines[k].indent {
                None => after == m && s == skipped.push(pos),
                Some(indent) => after.text == bytes::splice(
                    m.text,
                    pos as int,
                    pos as int,
                    encode_utf8(indent.chars()),
                ) && s == skipped,
            }
        },
{
    let b = m.text;
    lemma_first_wrap_is(b, skipped, lines, 1, k);
    if k < lines.len() {
        let pos = lines[k].start;
        let before = lines[k - 1].start as int;
        assert(bytes::at_boundary(b, lines[k - 1].start as int));
        softbreak::lemma_soft_break_around(b, before);
        assert forall|start: int| #[trigger]
            syntax::soft_break_at(b, start) && start + 3 <= before <= pos && softbreak::indent_end(
                b,
                start + 3,
            ) == pos implies (softbreak::soft_break_around(b, before) matches Some(r) && r.start
            == start && r.end == pos) by {
            typing::lemma_break_is_found(b, start, before);
        }
    }
}

proof fn lemma_first_wrap_is(b: Seq<u8>, skipped: Seq<usize>, lines: Seq<Line>, j: int, k: int)
    requires
        1 <= j <= k <= lines.len(),
        forall|i: int| j <= i < k ==> !reflow::unmarked_wrap(b, skipped, (#[trigger] lines[i]).start),
        k < lines.len() ==> reflow::unmarked_wrap(b, skipped, lines[k].start),
    ensures
        reflow::first_wrap(b, skipped, lines, j) == (if k < lines.len() {
            Some(k)
        } else {
            None
        }),
    decreases k - j,
{
    if j < k {
        assert(!reflow::unmarked_wrap(b, skipped, lines[j].start));
        lemma_first_wrap_is(b, skipped, lines, j + 1, k);
    }
}

/// The automatic line break of an indentation is a line separator, followed by its spaces and its hair
/// spaces.
pub proof fn law_indentations_are_spaces(indent: Indent, i: int)
    requires
        0 <= i <= indent.spaces + indent.hair_spaces,
    ensures
        indent.chars().len() == 1 + indent.spaces + indent.hair_spaces,
        indent.chars()[i] == if i == 0 {
            '\u{2028}'
        } else if i <= indent.spaces {
            ' '
        } else {
            '\u{200a}'
        },
{
}

/// Only text that wraps and is aligned at the start is lined up, in as many rounds as it takes, but not in
/// more than two thousand. Other text is left as it is.
pub proof fn law_text_that_wraps_is_lined_up<L: Fn(&TextStroke) -> Option<Vec<Line>>>(
    layout: L,
    from: TextStroke,
    positions: Seq<usize>,
    to: TextStroke,
    end: Seq<usize>,
)
    requires
        reflow::reflowed(layout, from, positions, to, end),
    ensures
        from.text_style.wraps && from.text_style.alignment == TextAlignment::Start
            ==> reflow::reflow_leads_to(layout, from, positions, Seq::empty(), 2000, to, end),
        !from.text_style.wraps || from.text_style.alignment != TextAlignment::Start ==> to == from
            && end == positions,
{
}

} // verus!
