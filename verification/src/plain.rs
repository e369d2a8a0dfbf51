//! Paragraphs that are no list items are left as they are.

use crate::bytes;
use crate::edit;
use crate::edit::{EditModel, TextAlignment, TextStroke};
use crate::lists;
use crate::numbering;
use crate::reflow;
use crate::reflow::Line;
use crate::renumber;
use crate::softbreak;
use crate::syntax;
use vstd::prelude::*;
use vstd::utf8::*;

verus! {

broadcast use syntax::group_char_bytes;

/// Whether the other text has as many paragraphs, and those that are no list items are the same.
pub open spec fn plain_kept(b: Seq<u8>, c: Seq<u8>) -> bool {
    &&& syntax::paragraphs(c).len() == syntax::paragraphs(b).len()
    &&& forall|k: int|
        0 <= k < syntax::paragraphs(b).len() && #[trigger] numbering::item_of(b, k) is None
            ==> numbering::paragraph(c, k) == numbering::paragraph(b, k)
}

// ---------------------------------------------------------------------------------------------
// Edits inside a paragraph

/// Text that stands `d` bytes further has its paragraphs there.
pub proof fn lemma_paragraphs_shift(b: Seq<u8>, from: int, c: Seq<u8>, d: int)
    requires
        numbering::same_bytes(b, from, b.len() as int, c, d),
        c.len() == b.len() + d,
        b.len() <= usize::MAX,
        c.len() <= usize::MAX,
    ensures
        syntax::paragraphs_from(c, from + d).len() == syntax::paragraphs_from(b, from).len(),
        forall|k: int|
            #![trigger syntax::paragraphs_from(b, from)[k]]
            #![trigger syntax::paragraphs_from(c, from + d)[k]]
            0 <= k < syntax::paragraphs_from(b, from).len() ==> {
                let r = syntax::paragraphs_from(b, from)[k];
                let q = syntax::paragraphs_from(c, from + d)[k];
                &&& from <= r.start <= r.end <= b.len()
                &&& q.start == r.start + d
                &&& q.end == r.end + d
            },
    decreases b.len() - from,
{
    let end = syntax::para_end(b, from);
    syntax::lemma_para_end(b, from);
    assert forall|i: int| from + d <= i < end + d implies c[i] != 0x0a by {
        assert(b[i - d] == c[i - d + d]);
    }
    if end < b.len() {
        assert(b[end] == c[end + d]);
    }
    syntax::lemma_para_end_unique(c, from + d, end + d);
    if end < b.len() {
        assert(numbering::same_bytes(b, end + 1, b.len() as int, c, d));
        lemma_paragraphs_shift(b, end + 1, c, d);
        assert(end + d + 1 == end + 1 + d);
        let pb = syntax::paragraphs_from(b, from);
        let pc = syntax::paragraphs_from(c, from + d);
        let rb = syntax::paragraphs_from(b, end + 1);
        let rc = syntax::paragraphs_from(c, end + 1 + d);
        assert forall|k: int|
            #![trigger pb[k]]
            #![trigger pc[k]]
            0 <= k < pb.len() implies from <= pb[k].start <= pb[k].end <= b.len() && pc[k].start
            == pb[k].start + d && pc[k].end == pb[k].end + d by {
            if k > 0 {
                assert(pb[k] == rb[k - 1]);
                assert(pc[k] == rc[k - 1]);
            }
        }
    }
}

/// An edit inside a paragraph leaves the other paragraphs as they are.
pub proof fn lemma_edit_in_paragraph(b: Seq<u8>, s: int, e: int, text: Seq<u8>, start: int)
    requires
        0 <= start <= s <= e <= b.len() <= usize::MAX,
        bytes::splice(b, s, e, text).len() <= usize::MAX,
        forall|i: int| 0 <= i < text.len() ==> #[trigger] text[i] != 0x0a,
        forall|i: int| s <= i < e ==> b[i] != 0x0a,
    ensures
        ({
            let c = bytes::splice(b, s, e, text);
            let pb = syntax::paragraphs_from(b, start);
            let pc = syntax::paragraphs_from(c, start);
            &&& pc.len() == pb.len()
            &&& forall|k: int|
                0 <= k < pb.len() && !(pb[k].start <= s && e <= pb[k].end) ==> c.subrange(
                    pc[k].start as int,
                    pc[k].end as int,
                ) == #[trigger] b.subrange(pb[k].start as int, pb[k].end as int)
        }),
    decreases b.len() - start,
{
    let c = bytes::splice(b, s, e, text);
    let d = text.len() - (e - s);
    let end = syntax::para_end(b, start);
    let pb = syntax::paragraphs_from(b, start);
    let pc = syntax::paragraphs_from(c, start);
    syntax::lemma_para_end(b, start);
    assert(c.len() == b.len() + d);
    assert forall|i: int| 0 <= i < s implies c[i] == b[i] by {}
    assert forall|i: int| e <= i < b.len() implies #[trigger] b[i] == c[i + d] by {}
    if end < s {
        assert forall|i: int| start <= i < end implies c[i] != 0x0a by {
            assert(b[i] != 0x0a);
        }
        syntax::lemma_para_end_unique(c, start, end);
        lemma_edit_in_paragraph(b, s, e, text, end + 1);
        let rb = syntax::paragraphs_from(b, end + 1);
        let rc = syntax::paragraphs_from(c, end + 1);
        assert forall|k: int|
            0 <= k < pb.len() && !(pb[k].start <= s && e <= pb[k].end) implies c.subrange(
            pc[k].start as int,
            pc[k].end as int,
        ) == #[trigger] b.subrange(pb[k].start as int, pb[k].end as int) by {
            if k > 0 {
                assert(pb[k] == rb[k - 1]);
                assert(pc[k] == rc[k - 1]);
                assert(b.subrange(rb[k - 1].start as int, rb[k - 1].end as int) == c.subrange(
                    rc[k - 1].start as int,
                    rc[k - 1].end as int,
                ));
            } else {
                assert(c.subrange(start, end) =~= b.subrange(start, end));
            }
        }
    } else {
        assert(e <= end) by {
            if end < e {
                assert(b[end] != 0x0a);
            }
        }
        assert forall|i: int| start <= i < end + d implies c[i] != 0x0a by {
            if i < s {
                assert(b[i] != 0x0a);
            } else if i < s + text.len() {
                assert(c[i] == text[i - s]);
            } else {
                assert(b[i - d] == c[i - d + d]);
            }
        }
        if end < b.len() {
            assert(b[end] == c[end + d]);
        }
        syntax::lemma_para_end_unique(c, start, end + d);
        if end < b.len() {
            assert(numbering::same_bytes(b, end + 1, b.len() as int, c, d));
            lemma_paragraphs_shift(b, end + 1, c, d);
            assert(end + d + 1 == end + 1 + d);
            let rb = syntax::paragraphs_from(b, end + 1);
            let rc = syntax::paragraphs_from(c, end + 1 + d);
            assert forall|k: int|
                0 <= k < pb.len() && !(pb[k].start <= s && e <= pb[k].end) implies c.subrange(
                pc[k].start as int,
                pc[k].end as int,
            ) == #[trigger] b.subrange(pb[k].start as int, pb[k].end as int) by {
                assert(k > 0);
                assert(pb[k] == rb[k - 1]);
                assert(pc[k] == rc[k - 1]);
                assert(c.subrange(pc[k].start as int, pc[k].end as int) =~= b.subrange(
                    pb[k].start as int,
                    pb[k].end as int,
                ));
            }
        }
    }
}

/// An edit inside an item leaves paragraphs that are no items as they are.
proof fn lemma_edit_in_item(b: Seq<u8>, s: int, e: int, text: Seq<u8>)
    requires
        valid_utf8(b),
        0 <= s <= e <= b.len() <= usize::MAX,
        bytes::splice(b, s, e, text).len() <= usize::MAX,
        forall|i: int| 0 <= i < text.len() ==> #[trigger] text[i] != 0x0a,
        forall|i: int| s <= i < e ==> b[i] != 0x0a,
        syntax::item_at(b, e) is Some,
    ensures
        plain_kept(b, bytes::splice(b, s, e, text)),
{
    let c = bytes::splice(b, s, e, text);
    let p = syntax::paragraphs(b);
    lemma_edit_in_paragraph(b, s, e, text, 0);
    syntax::lemma_paragraphs(b);
    assert forall|k: int| 0 <= k < p.len() && #[trigger] numbering::item_of(b, k) is None implies
        numbering::paragraph(c, k) == numbering::paragraph(b, k) by {
        let r = p[k];
        assert(syntax::is_paragraph(b, p[k]));
        if r.start <= s && e <= r.end {
            syntax::lemma_para_start_unique(b, e, r.start as int);
            syntax::lemma_para_end_unique(b, e, r.end as int);
        }
        assert(numbering::paragraph(b, k) == b.subrange(r.start as int, r.end as int));
    }
}

// ---------------------------------------------------------------------------------------------
// Laws

/// What is left as it is twice is left as it is.
proof fn lemma_plain_kept_twice(b: Seq<u8>, c: Seq<u8>, d: Seq<u8>)
    requires
        valid_utf8(b),
        valid_utf8(c),
        b.len() <= usize::MAX,
        c.len() <= usize::MAX,
        plain_kept(b, c),
        plain_kept(c, d),
    ensures
        plain_kept(b, d),
{
    syntax::lemma_paragraphs(b);
    syntax::lemma_paragraphs(c);
    assert forall|k: int|
        0 <= k < syntax::paragraphs(b).len() && #[trigger] numbering::item_of(b, k) is None implies
        numbering::paragraph(d, k) == numbering::paragraph(b, k) by {
        let r = syntax::paragraphs(b)[k];
        let q = syntax::paragraphs(c)[k];
        assert(syntax::is_paragraph(b, syntax::paragraphs(b)[k]));
        assert(syntax::is_paragraph(c, syntax::paragraphs(c)[k]));
        let x = numbering::paragraph(b, k);
        assert(x == numbering::paragraph(c, k));
        assert(x.len() == r.end - r.start && x.len() == q.end - q.start);
        assert forall|i: int| r.start <= i < r.end implies #[trigger] b[i] == c[i + (q.start
            - r.start)] by {
            assert(x[i - r.start] == b[i]);
            assert(numbering::paragraph(c, k)[i - r.start] == c[i - r.start + q.start]);
        }
        numbering::lemma_item_in_shift(
            b,
            r.start as int,
            r.end as int,
            c,
            q.start - r.start,
        );
        assert(numbering::item_of(c, k) is None);
    }
}

/// A round of lining up leaves paragraphs that are no list items as they are.
pub proof fn law_a_round_breaks_only_items(m: EditModel, skipped: Seq<usize>, lines: Seq<Line>)
    requires
        valid_utf8(m.text),
        m.text.len() <= usize::MAX,
        reflow::lines_fit(m.text, lines),
        m.reflow_round(skipped, lines) matches Some((after, _)) ==> after.text.len() <= usize::MAX,
    ensures
        m.reflow_round(skipped, lines) matches Some((after, _)) ==> plain_kept(m.text, after.text),
{
    let b = m.text;
    if let Some(k) = reflow::first_wrap(b, skipped, lines, 1) {
        reflow::lemma_first_wrap(b, skipped, lines, 1);
        let pos = lines[k].start as int;
        assert(bytes::at_boundary(b, lines[k].start as int));
        assert(bytes::at_boundary(b, lines[k - 1].start as int));
        softbreak::lemma_soft_break_around(b, lines[k - 1].start as int);
        match softbreak::soft_break_around(b, lines[k - 1].start as int) {
            Some(r) if r.end == pos => {
                lemma_edit_in_item(b, r.start as int, pos, Seq::empty());
            },
            _ => {
                if let Some(indent) = lines[k].indent {
                    let text = encode_utf8(indent.chars());
                    reflow::lemma_indent_bytes(indent);
                    softbreak::lemma_indent_end(text, 3);
                    lemma_edit_in_item(b, pos, pos, text);
                }
            },
        }
    }
}

/// Lining up leaves paragraphs that are no list items as they are.
pub proof fn law_lining_up_breaks_only_items<L: Fn(&TextStroke) -> Option<Vec<Line>>>(
    layout: L,
    from: TextStroke,
    positions: Seq<usize>,
    skipped: Seq<usize>,
    rounds: nat,
    to: TextStroke,
    end: Seq<usize>,
)
    requires
        reflow::lays_out(layout),
        encode_utf8(from.text@).len() <= usize::MAX,
        reflow::reflow_leads_to(layout, from, positions, skipped, rounds, to, end),
    ensures
        plain_kept(encode_utf8(from.text@), encode_utf8(to.text@)),
    decreases rounds,
{
    if rounds > 0 && syntax::items(encode_utf8(from.text@)).len() > 0 {
        let m = from.model(positions);
        let answer = choose|answer: Option<Vec<Line>>| #[trigger]
            call_ensures(layout, (&from,), answer) && match answer {
                None => to == from && end == positions,
                Some(lines) => match m.reflow_round(skipped, lines@) {
                    None => to == from && end == positions,
                    Some((m, s)) => exists|next: TextStroke|
                        next.model(m.positions) == m && m.valid()
                            && #[trigger] next.same_base_style(&from) && reflow::reflow_leads_to(
                            layout,
                            next,
                            m.positions,
                            s,
                            (rounds - 1) as nat,
                            to,
                            end,
                        ),
                },
            };
        if let Some(lines) = answer {
            if let Some((n, s)) = m.reflow_round(skipped, lines@) {
                let next = choose|next: TextStroke|
                    next.model(n.positions) == n && n.valid() && #[trigger] next.same_base_style(
                        &from,
                    ) && reflow::reflow_leads_to(
                        layout,
                        next,
                        n.positions,
                        s,
                        (rounds - 1) as nat,
                        to,
                        end,
                    );
                encode_utf8_valid_utf8(from.text@);
                law_a_round_breaks_only_items(m, skipped, lines@);
                law_lining_up_breaks_only_items(
                    layout,
                    next,
                    n.positions,
                    s,
                    (rounds - 1) as nat,
                    to,
                    end,
                );
                lemma_plain_kept_twice(m.text, n.text, encode_utf8(to.text@));
            }
        }
    }
}

/// Bringing lists up to date leaves paragraphs that are no list items as they are, apart from the
/// automatic line breaks that are taken out. They get no new ones.
pub proof fn law_updating_changes_only_items<L: Fn(&TextStroke) -> Option<Vec<Line>>>(
    layout: L,
    m: EditModel,
    base: TextStroke,
    to: TextStroke,
    end: Seq<usize>,
)
    requires
        reflow::lays_out(layout),
        valid_utf8(m.text),
        m.text.len() <= usize::MAX,
        m.relaid().text.len() <= usize::MAX,
        lists::relayout_leads_to(layout, m, base, to, end),
    ensures
        plain_kept(softbreak::stripped(m.text), encode_utf8(to.text@)),
        forall|k: int|
            0 <= k < syntax::paragraphs(softbreak::stripped(m.text)).len()
                && #[trigger] numbering::item_of(softbreak::stripped(m.text), k) is None
                ==> !softbreak::has_soft_break(numbering::paragraph(encode_utf8(to.text@), k)),
{
    let relaid = choose|relaid: TextStroke| #[trigger]
        relaid.model(m.relaid().positions) == m.relaid() && relaid.same_base_style(&base)
            && reflow::reflowed(layout, relaid, m.relaid().positions, to, end);
    let stripped = m.without_soft_breaks().with_merged_attrs();
    let b = softbreak::stripped(m.text);
    let c = m.relaid().text;
    let d = encode_utf8(to.text@);
    renumber::law_removing_soft_breaks_strips_the_text(m);
    softbreak::law_stripped_text_has_no_soft_breaks(m.text);
    softbreak::lemma_stripped_len(m.text, 0);
    renumber::lemma_removals(m.text);
    edit::lemma_edited_all_text(m, renumber::removals(softbreak::soft_breaks(m.text)));
    encode_utf8_valid_utf8(relaid.text@);
    assert(plain_kept(b, c)) by {
        syntax::lemma_paragraphs(b);
        numbering::lemma_renumbered_paragraph(stripped, 0);
        assert forall|k: int|
            0 <= k < syntax::paragraphs(b).len() && #[trigger] numbering::item_of(
                b,
                k,
            ) is None implies numbering::paragraph(c, k) == numbering::paragraph(b, k) by {
            numbering::law_only_items_are_renumbered(stripped, k);
        }
    }
    if relaid.text_style.wraps && relaid.text_style.alignment == TextAlignment::Start {
        law_lining_up_breaks_only_items(
            layout,
            relaid,
            m.relaid().positions,
            Seq::empty(),
            reflow::MAX_REFLOW_ITERATIONS as nat,
            to,
            end,
        );
    }
    lemma_plain_kept_twice(b, c, d);
    assert forall|k: int|
        0 <= k < syntax::paragraphs(b).len() && #[trigger] numbering::item_of(b, k) is None implies
        !softbreak::has_soft_break(numbering::paragraph(d, k)) by {
        syntax::lemma_paragraphs(b);
        let r = syntax::paragraphs(b)[k];
        assert(syntax::is_paragraph(b, syntax::paragraphs(b)[k]));
        let x = numbering::paragraph(b, k);
        assert forall|i: int| !#[trigger] syntax::soft_break_at(x, i) by {
            if syntax::soft_break_at(x, i) {
                assert(x[i] == b[i + r.start] && x[i + 1] == b[i + 1 + r.start] && x[i + 2] == b[i
                    + 2 + r.start]);
                assert(syntax::soft_break_at(b, i + r.start));
            }
        }
    }
}

} // verus!
