//! Indenting and outdenting moves the items that the selection reaches, and nothing else.

use crate::bytes;
use crate::edit;
use crate::edit::EditModel;
use crate::lists;
use crate::marker;
use crate::numbering;
use crate::plain;
use crate::syntax;
use crate::syntax::{ListItem, Marker};
use crate::typing;
use std::ops::Range;
use vstd::prelude::*;
use vstd::utf8::*;

verus! {

broadcast use syntax::group_char_bytes;

// ---------------------------------------------------------------------------------------------
// Paragraphs around an edit

/// Where a paragraph is after an edit inside one paragraph, which makes the text longer by `d` bytes.
pub open spec fn range_after(r: Range<usize>, s: int, e: int, d: int, after: Range<usize>) -> bool {
    if r.end < s {
        after == r
    } else if r.start > e {
        after.start == r.start + d && after.end == r.end + d
    } else {
        after.start == r.start && after.end == r.end + d
    }
}

/// An edit inside a paragraph leaves the paragraphs in front where they are, and moves those behind.
pub proof fn lemma_ranges_after(b: Seq<u8>, s: int, e: int, text: Seq<u8>, start: int)
    requires
        0 <= start <= s <= e <= b.len() <= usize::MAX,
        bytes::splice(b, s, e, text).len() <= usize::MAX,
        forall|i: int| 0 <= i < text.len() ==> #[trigger] text[i] != 0x0a,
        forall|i: int| s <= i < e ==> b[i] != 0x0a,
    ensures
        ({
            let c = bytes::splice(b, s, e, text);
            let pb = syntax::paragraphs_from(b, start);
            let pc = syntax::paragraphs_from(c, start);
            &&& pc.len() == pb.len()
            &&& forall|k: int|
                #![trigger pb[k]]
                #![trigger pc[k]]
                0 <= k < pb.len() ==> range_after(pb[k], s, e, text.len() - (e - s), pc[k])
        }),
    decreases b.len() - start,
{
    let c = bytes::splice(b, s, e, text);
    let d = text.len() - (e - s);
    let end = syntax::para_end(b, start);
    let pb = syntax::paragraphs_from(b, start);
    let pc = syntax::paragraphs_from(c, start);
    syntax::lemma_para_end(b, start);
    assert(c.len() == b.len() + d);
    assert forall|i: int| 0 <= i < s implies c[i] == b[i] by {}
    assert forall|i: int| e <= i < b.len() implies #[trigger] b[i] == c[i + d] by {}
    if end < s {
        assert forall|i: int| start <= i < end implies c[i] != 0x0a by {
            assert(b[i] != 0x0a);
        }
        syntax::lemma_para_end_unique(c, start, end);
        lemma_ranges_after(b, s, e, text, end + 1);
        let rb = syntax::paragraphs_from(b, end + 1);
        let rc = syntax::paragraphs_from(c, end + 1);
        assert forall|k: int|
            #![trigger pb[k]]
            #![trigger pc[k]]
            0 <= k < pb.len() implies range_after(pb[k], s, e, d, pc[k]) by {
            if k > 0 {
                assert(pb[k] == rb[k - 1]);
                assert(pc[k] == rc[k - 1]);
            }
        }
    } else {
        assert(e <= end) by {
            if end < e {
                assert(b[end] != 0x0a);
            }
        }
        assert forall|i: int| start <= i < end + d implies c[i] != 0x0a by {
            if i < s {
                assert(b[i] != 0x0a);
            } else if i < s + text.len() {
                assert(c[i] == text[i - s]);
            } else {
                assert(b[i - d] == c[i - d + d]);
            }
        }
        if end < b.len() {
            assert(b[end] == c[end + d]);
        }
        syntax::lemma_para_end_unique(c, start, end + d);
        if end < b.len() {
            assert(numbering::same_bytes(b, end + 1, b.len() as int, c, d));
            plain::lemma_paragraphs_shift(b, end + 1, c, d);
            assert(end + d + 1 == end + 1 + d);
            let rb = syntax::paragraphs_from(b, end + 1);
            let rc = syntax::paragraphs_from(c, end + 1 + d);
            assert forall|k: int|
                #![trigger pb[k]]
                #![trigger pc[k]]
                0 <= k < pb.len() implies range_after(pb[k], s, e, d, pc[k]) by {
                if k > 0 {
                    assert(pb[k] == rb[k - 1]);
                    assert(pc[k] == rc[k - 1]);
                }
            }
        }
    }
}

// ---------------------------------------------------------------------------------------------
// Moving items

/// Whether a paragraph of the text is one of the items that are moved.
pub open spec fn is_moved(items: Seq<ListItem>, start: int, lo: int, hi: int, outdent: bool) -> bool {
    exists|j: int| 0 <= j < items.len() && moves(#[trigger] items[j], start, lo, hi, outdent)
}

/// Whether an item that starts at `start` is moved.
pub open spec fn moves(item: ListItem, start: int, lo: int, hi: int, outdent: bool) -> bool {
    item.start == start && lists::touched(item, lo, hi) && lists::changed_level(
        item.level as int,
        outdent,
    ) != item.level
}

/// The paragraph of an item, moved to another level.
pub open spec fn moved_paragraph(b: Seq<u8>, item: ListItem, level: int) -> Seq<u8> {
    lists::level_edit(item, level).text + b.subrange(item.marker_end as int, item.end as int)
}

/// What an item has to be for its paragraph to be moved.
spec fn item_fits(b: Seq<u8>, x: ListItem) -> bool {
    &&& syntax::well_placed(b, x)
    &&& syntax::is_paragraph(b, Range { start: x.start, end: x.end })
    &&& match x.marker {
        Marker::Bullet(_) => x.marker_start + 3 == x.marker_end,
        Marker::Number { delim, .. } => (delim == '.' || delim == ')') && x.marker_start + 2
            <= x.marker_end,
    }
}

/// Items that are whole paragraphs of the text, in order.
spec fn items_fit(b: Seq<u8>, items: Seq<ListItem>) -> bool {
    &&& forall|j: int| 0 <= j < items.len() ==> item_fits(b, #[trigger] items[j])
    &&& forall|i: int, j: int|
        0 <= i < j < items.len() ==> (#[trigger] items[i]).end < (#[trigger] items[j]).start
}

/// The tabs and the marker of an item that is moved have no newline, and are at most a tab longer.
proof fn lemma_prefix(b: Seq<u8>, item: ListItem, outdent: bool)
    requires
        item_fits(b, item),
    ensures
        ({
            let text = lists::level_edit(
                item,
                lists::changed_level(item.level as int, outdent),
            ).text;
            &&& valid_utf8(text)
            &&& forall|i: int| 0 <= i < text.len() ==> #[trigger] text[i] != 0x0a
            &&& text.len() <= item.marker_end - item.start + 1
        }),
{
    let level = lists::changed_level(item.level as int, outdent);
    let m = item.marker.moved(level);
    let t = encode_utf8(marker::repeated('\t', level as nat));
    let w = encode_utf8(m.chars());
    let text = lists::level_edit(item, level).text;
    encode_utf8_valid_utf8(marker::repeated('\t', level as nat) + m.chars());
    bytes::lemma_encode_concat(marker::repeated('\t', level as nat), m.chars());
    typing::lemma_tab_bytes(level as nat);
    let c = w + seq![0x20u8];
    assert(w.len() <= 3) by {
        match m {
            Marker::Bullet(x) => {
                bytes::lemma_encode_one(x);
                syntax::lemma_encodings();
                assert(m.chars() =~= seq![x]);
            },
            Marker::Number { n, delim } => {
                numbering::law_numbers_are_read_as_written(1);
                bytes::lemma_encode_one(delim);
                bytes::lemma_utf8_ascii(delim);
                bytes::lemma_encode_concat(marker::decimal(1), seq![delim]);
                assert(m.chars() =~= marker::decimal(1) + seq![delim]);
                assert(marker::decimal(1).len() == 1);
                assert(w.len() == 2);
            },
        }
    }
    assert(item.marker is Number ==> w.len() == 2) by {
        if let Marker::Number { n, delim } = m {
            numbering::law_numbers_are_read_as_written(1);
            bytes::lemma_encode_one(delim);
            bytes::lemma_utf8_ascii(delim);
            bytes::lemma_encode_concat(marker::decimal(1), seq![delim]);
            assert(m.chars() =~= marker::decimal(1) + seq![delim]);
            assert(marker::decimal(1).len() == 1);
        }
    }
    typing::lemma_marker_reads(c, 0, c.len() as int, 0, m);
    assert forall|i: int| 0 <= i < text.len() implies #[trigger] text[i] != 0x0a by {
        if i < level {
            assert(text[i] == t[i]);
        } else {
            assert(text[i] == w[i - level]);
        }
    }
}

/// Items in front of an edit are where they were.
proof fn lemma_items_in_front_fit(b: Seq<u8>, items: Seq<ListItem>, e: edit::Edit)
    requires
        valid_utf8(b),
        items_fit(b, items),
        items.len() > 0,
        e.fits(b),
        e.start == items.last().start,
    ensures
        items_fit(bytes::splice(b, e.start, e.end, e.text), items.drop_last()),
{
    let c = bytes::splice(b, e.start, e.end, e.text);
    let rest = items.drop_last();
    let last = items.last();
    assert(items[items.len() - 1] == last);
    assert forall|j: int| 0 <= j < rest.len() implies item_fits(c, #[trigger] rest[j]) by {
        let x = items[j];
        assert(rest[j] == x);
        assert(item_fits(b, items[j]));
        assert(items[j].end < items[items.len() - 1].start);
        assert(bytes::at_boundary(b, e.start));
        assert forall|i: int| 0 <= i < e.start implies c[i] == b[i] by {}
        assert(c[x.end as int] == b[x.end as int]);
    }
    assert forall|i: int, j: int| 0 <= i < j < rest.len() implies (#[trigger] rest[i]).end < (
    #[trigger] rest[j]).start by {
        assert(rest[i] == items[i] && rest[j] == items[j]);
    }
}

/// The paragraphs after one item was moved.
proof fn lemma_one_moved(b: Seq<u8>, item: ListItem, outdent: bool, k: int)
    requires
        valid_utf8(b),
        b.len() < usize::MAX,
        item_fits(b, item),
        0 <= k < syntax::paragraphs(b).len(),
    ensures
        ({
            let level = lists::changed_level(item.level as int, outdent);
            let e = lists::level_edit(item, level);
            let c = bytes::splice(b, e.start, e.end, e.text);
            let start = syntax::paragraphs(b)[k].start;
            let after = syntax::paragraphs(c)[k].start;
            &&& e.fits(b)
            &&& syntax::paragraphs(c).len() == syntax::paragraphs(b).len()
            &&& start != item.start ==> numbering::paragraph(c, k) == numbering::paragraph(b, k)
            &&& start == item.start ==> numbering::paragraph(c, k) == moved_paragraph(b, item, level)
                && after == item.start
            &&& start < item.start ==> after == start
            &&& start > item.start ==> after > item.start
        }),
{
    let level = lists::changed_level(item.level as int, outdent);
    let e = lists::level_edit(item, level);
    let c = bytes::splice(b, e.start, e.end, e.text);
    let d = e.text.len() - (e.end - e.start);
    let pb = syntax::paragraphs(b);
    let pc = syntax::paragraphs(c);
    lemma_prefix(b, item, outdent);
    lemma_ranges_after(b, e.start, e.end, e.text, 0);
    syntax::lemma_paragraphs(b);
    let r = pb[k];
    assert(syntax::is_paragraph(b, pb[k]));
    assert(range_after(pb[k], e.start, e.end, d, pc[k]));
    // Paragraphs do not overlap.
    if r.start < item.start {
        assert(r.end < item.start) by {
            assert(b[item.start - 1] == 0x0a);
        }
        assert(numbering::paragraph(c, k) =~= numbering::paragraph(b, k));
    } else if r.start > item.start {
        assert(r.start > item.end) by {
            assert(b[r.start - 1] == 0x0a);
        }
        assert(numbering::paragraph(c, k) =~= numbering::paragraph(b, k));
    } else {
        assert(r.end == item.end) by {
            if r.end < item.end {
                assert(b[r.end as int] == 0x0a);
            } else if item.end < r.end {
                assert(b[item.end as int] == 0x0a);
            }
        }
        assert(numbering::paragraph(c, k) =~= moved_paragraph(b, item, level));
    }
}

/// Whether the paragraph `k` of a text reads in the other text as it should when the given items are
/// moved.
spec fn moved_as_wanted(
    b: Seq<u8>,
    c: Seq<u8>,
    items: Seq<ListItem>,
    lo: int,
    hi: int,
    outdent: bool,
    k: int,
) -> bool {
    let start = syntax::paragraphs(b)[k].start as int;
    &&& syntax::paragraphs(c).len() == syntax::paragraphs(b).len()
    &&& !is_moved(items, start, lo, hi, outdent) ==> numbering::paragraph(c, k)
        == numbering::paragraph(b, k)
    &&& forall|j: int|
        0 <= j < items.len() && moves(#[trigger] items[j], start, lo, hi, outdent)
            ==> numbering::paragraph(c, k) == moved_paragraph(
            b,
            items[j],
            lists::changed_level(items[j].level as int, outdent),
        )
}

/// Of items in order only one starts at a place.
proof fn lemma_only_one_starts(items: Seq<ListItem>, start: int, lo: int, hi: int, outdent: bool)
    requires
        items.len() > 0,
        forall|j: int| 0 <= j < items.len() - 1 ==> (#[trigger] items[j]).start < items.last().start,
    ensures
        start >= items.last().start ==> !is_moved(items.drop_last(), start, lo, hi, outdent),
        start != items.last().start || !moves(items.last(), start, lo, hi, outdent) ==> is_moved(
            items.drop_last(),
            start,
            lo,
            hi,
            outdent,
        ) == is_moved(items, start, lo, hi, outdent),
{
    let rest = items.drop_last();
    assert forall|j: int| 0 <= j < rest.len() implies #[trigger] rest[j] == items[j] by {}
    if is_moved(rest, start, lo, hi, outdent) {
        let j = choose|j: int|
            0 <= j < rest.len() && moves(#[trigger] rest[j], start, lo, hi, outdent);
        assert(rest[j] == items[j]);
        assert(moves(items[j], start, lo, hi, outdent));
    }
    if is_moved(items, start, lo, hi, outdent) && !moves(items.last(), start, lo, hi, outdent) {
        let j = choose|j: int|
            0 <= j < items.len() && moves(#[trigger] items[j], start, lo, hi, outdent);
        assert(j < rest.len());
        assert(moves(rest[j], start, lo, hi, outdent));
    }
}

/// The last item stays.
proof fn lemma_last_stays(
    b: Seq<u8>,
    c: Seq<u8>,
    items: Seq<ListItem>,
    lo: int,
    hi: int,
    outdent: bool,
    k: int,
)
    requires
        items.len() > 0,
        forall|j: int| 0 <= j < items.len() - 1 ==> (#[trigger] items[j]).start < items.last().start,
        !moves(items.last(), items.last().start as int, lo, hi, outdent),
        moved_as_wanted(b, c, items.drop_last(), lo, hi, outdent, k),
    ensures
        moved_as_wanted(b, c, items, lo, hi, outdent, k),
{
    let start = syntax::paragraphs(b)[k].start as int;
    let rest = items.drop_last();
    lemma_only_one_starts(items, start, lo, hi, outdent);
    assert forall|j: int|
        0 <= j < items.len() && moves(
            #[trigger] items[j],
            start,
            lo,
            hi,
            outdent,
        ) implies numbering::paragraph(c, k) == moved_paragraph(
        b,
        items[j],
        lists::changed_level(items[j].level as int, outdent),
    ) by {
        assert(j < rest.len());
        assert(rest[j] == items[j]);
    }
}

/// The last item is moved, to the text `b1`, and then the others.
proof fn lemma_last_moves(
    b: Seq<u8>,
    b1: Seq<u8>,
    c: Seq<u8>,
    items: Seq<ListItem>,
    lo: int,
    hi: int,
    outdent: bool,
    k: int,
)
    requires
        items.len() > 0,
        forall|j: int| 0 <= j < items.len() - 1 ==> (#[trigger] items[j]).start < items.last().start,
        moves(items.last(), items.last().start as int, lo, hi, outdent),
        moved_as_wanted(b1, c, items.drop_last(), lo, hi, outdent, k),
        forall|j: int|
            0 <= j < items.len() - 1 ==> moved_paragraph(
                b1,
                #[trigger] items[j],
                lists::changed_level(items[j].level as int, outdent),
            ) == moved_paragraph(
                b,
                items[j],
                lists::changed_level(items[j].level as int, outdent),
            ),
        ({
            let item = items.last();
            let start = syntax::paragraphs(b)[k].start;
            let after = syntax::paragraphs(b1)[k].start;
            &&& syntax::paragraphs(b1).len() == syntax::paragraphs(b).len()
            &&& start != item.start ==> numbering::paragraph(b1, k) == numbering::paragraph(b, k)
            &&& start == item.start ==> numbering::paragraph(b1, k) == moved_paragraph(
                b,
                item,
                lists::changed_level(item.level as int, outdent),
            ) && after == item.start
            &&& start < item.start ==> after == start
            &&& start > item.start ==> after > item.start
        }),
    ensures
        moved_as_wanted(b, c, items, lo, hi, outdent, k),
{
    let item = items.last();
    let rest = items.drop_last();
    let start = syntax::paragraphs(b)[k].start as int;
    let after = syntax::paragraphs(b1)[k].start as int;
    lemma_only_one_starts(items, start, lo, hi, outdent);
    lemma_only_one_starts(items, after, lo, hi, outdent);
    if !is_moved(items, start, lo, hi, outdent) {
        assert(start != item.start) by {
            if start == item.start {
                assert(moves(items[items.len() - 1], start, lo, hi, outdent));
            }
        }
        assert(!is_moved(rest, after, lo, hi, outdent));
    }
    assert forall|j: int|
        0 <= j < items.len() && moves(
            #[trigger] items[j],
            start,
            lo,
            hi,
            outdent,
        ) implies numbering::paragraph(c, k) == moved_paragraph(
        b,
        items[j],
        lists::changed_level(items[j].level as int, outdent),
    ) by {
        if j < rest.len() {
            assert(items[j].start < item.start);
            assert(rest[j] == items[j]);
            assert(moves(rest[j], after, lo, hi, outdent));
        } else {
            assert(items[j] == item);
            assert(!is_moved(rest, after, lo, hi, outdent));
        }
    }
}

/// Moving the given items changes their paragraphs, and no others.
proof fn lemma_moved(
    m: EditModel,
    items: Seq<ListItem>,
    lo: int,
    hi: int,
    outdent: bool,
    k: int,
)
    requires
        valid_utf8(m.text),
        m.text.len() + items.len() <= usize::MAX,
        items_fit(m.text, items),
        0 <= k < syntax::paragraphs(m.text).len(),
    ensures
        ({
            let c = m.edited_all(lists::level_edits(items, lo, hi, outdent)).text;
            &&& valid_utf8(c)
            &&& c.len() <= m.text.len() + items.len()
            &&& moved_as_wanted(m.text, c, items, lo, hi, outdent, k)
        }),
    decreases items.len(),
{
    let b = m.text;
    let edits = lists::level_edits(items, lo, hi, outdent);
    if items.len() > 0 {
        let rest = items.drop_last();
        let item = items.last();
        let level = lists::changed_level(item.level as int, outdent);
        let c = m.edited_all(edits).text;
        assert forall|j: int| 0 <= j < items.len() - 1 implies (#[trigger] items[j]).start
            < item.start by {
            assert(items[j].end < items[items.len() - 1].start);
            assert(item_fits(b, items[j]));
        }
        assert(item_fits(b, items[items.len() - 1]));
        if !moves(item, item.start as int, lo, hi, outdent) {
            assert(items_fit(b, rest)) by {
                assert forall|j: int| 0 <= j < rest.len() implies item_fits(b, #[trigger] rest[j]) by {
                    assert(rest[j] == items[j]);
                }
                assert forall|i: int, j: int| 0 <= i < j < rest.len() implies (
                #[trigger] rest[i]).end < (#[trigger] rest[j]).start by {
                    assert(rest[i] == items[i] && rest[j] == items[j]);
                }
            }
            assert(edits == lists::level_edits(rest, lo, hi, outdent));
            lemma_moved(m, rest, lo, hi, outdent, k);
            lemma_last_stays(b, c, items, lo, hi, outdent, k);
        } else {
            let e = lists::level_edit(item, level);
            let m1 = m.edited(e);
            assert(edits.drop_last() =~= lists::level_edits(rest, lo, hi, outdent));
            assert(edits.last() == e);
            lemma_prefix(b, item, outdent);
            lemma_one_moved(b, item, outdent, k);
            bytes::lemma_splice(b, e.start, e.end, e.text);
            lemma_items_in_front_fit(b, items, e);
            lemma_moved(m1, rest, lo, hi, outdent, k);
            assert forall|j: int| 0 <= j < items.len() - 1 implies moved_paragraph(
                m1.text,
                #[trigger] items[j],
                lists::changed_level(items[j].level as int, outdent),
            ) == moved_paragraph(
                b,
                items[j],
                lists::changed_level(items[j].level as int, outdent),
            ) by {
                assert(items[j].end < items[items.len() - 1].start);
                assert(item_fits(b, items[j]));
                assert(m1.text.subrange(items[j].marker_end as int, items[j].end as int)
                    =~= b.subrange(items[j].marker_end as int, items[j].end as int));
            }
            lemma_last_moves(b, m1.text, c, items, lo, hi, outdent, k);
        }
    }
}

// ---------------------------------------------------------------------------------------------
// Laws

/// Items that the text has, each of which is a whole paragraph.
proof fn lemma_items_of_text(b: Seq<u8>)
    requires
        valid_utf8(b),
        b.len() <= usize::MAX,
    ensures
        items_fit(b, syntax::items(b)),
{
    let items = syntax::items(b);
    syntax::lemma_paragraphs(b);
    syntax::lemma_items(b);
    assert forall|j: int| 0 <= j < items.len() implies item_fits(b, #[trigger] items[j]) by {
        lemma_item_of_paragraphs(b, syntax::paragraphs(b), j);
    }
}

proof fn lemma_item_of_paragraphs(b: Seq<u8>, ranges: Seq<Range<usize>>, j: int)
    requires
        valid_utf8(b),
        b.len() <= usize::MAX,
        forall|k: int| 0 <= k < ranges.len() ==> syntax::is_paragraph(b, #[trigger] ranges[k]),
        0 <= j < syntax::items_among(b, ranges).len(),
    ensures
        item_fits(b, syntax::items_among(b, ranges)[j]),
    decreases ranges.len(),
{
    let last = ranges.last();
    let rest = ranges.drop_last();
    assert(syntax::is_paragraph(b, ranges[ranges.len() - 1]));
    if j < syntax::items_among(b, rest).len() {
        assert forall|k: int| 0 <= k < rest.len() implies syntax::is_paragraph(b, #[trigger] rest[k]) by {
            assert(rest[k] == ranges[k]);
        }
        lemma_item_of_paragraphs(b, rest, j);
    } else {
        syntax::lemma_item_in(b, last.start as int, last.end as int);
        let x = syntax::items_among(b, ranges)[j];
        syntax::lemma_digits_end(b, x.marker_start as int, x.end as int);
    }
}

/// Items are found at the paragraphs that are items.
pub proof fn lemma_items_are_found(b: Seq<u8>, ranges: Seq<Range<usize>>, k: int)
    requires
        0 <= k < ranges.len(),
        syntax::item_in(b, ranges[k].start as int, ranges[k].end as int) is Some,
    ensures
        exists|j: int|
            0 <= j < syntax::items_among(b, ranges).len() && #[trigger] syntax::items_among(
                b,
                ranges,
            )[j] == syntax::item_in(b, ranges[k].start as int, ranges[k].end as int)->0,
    decreases ranges.len(),
{
    let rest = ranges.drop_last();
    let before = syntax::items_among(b, rest);
    let all = syntax::items_among(b, ranges);
    if k < rest.len() {
        assert(rest[k] == ranges[k]);
        lemma_items_are_found(b, rest, k);
        let j = choose|j: int|
            0 <= j < before.len() && #[trigger] before[j] == syntax::item_in(
                b,
                ranges[k].start as int,
                ranges[k].end as int,
            )->0;
        assert(all[j] == before[j]);
    } else {
        assert(all[all.len() - 1] == syntax::item_in(
            b,
            ranges[k].start as int,
            ranges[k].end as int,
        )->0);
    }
}

/// An item that does not move is not among those that do.
proof fn lemma_not_moved(
    b: Seq<u8>,
    items: Seq<ListItem>,
    j: int,
    lo: int,
    hi: int,
    outdent: bool,
)
    requires
        items_fit(b, items),
        0 <= j < items.len(),
        !moves(items[j], items[j].start as int, lo, hi, outdent),
    ensures
        !is_moved(items, items[j].start as int, lo, hi, outdent),
{
    let start = items[j].start as int;
    if is_moved(items, start, lo, hi, outdent) {
        let i = choose|i: int|
            0 <= i < items.len() && moves(#[trigger] items[i], start, lo, hi, outdent);
        assert(item_fits(b, items[i]));
        assert(item_fits(b, items[j]));
        if i < j {
            assert(items[i].end < items[j].start);
        } else if j < i {
            assert(items[j].end < items[i].start);
        }
    }
}

/// A paragraph with the same bytes reads as the same item.
proof fn lemma_same_item(b: Seq<u8>, c: Seq<u8>, k: int)
    requires
        valid_utf8(b),
        b.len() <= usize::MAX,
        c.len() <= usize::MAX,
        syntax::is_paragraph(b, syntax::paragraphs(b)[k]),
        syntax::is_paragraph(c, syntax::paragraphs(c)[k]),
        numbering::paragraph(c, k) == numbering::paragraph(b, k),
    ensures
        numbering::alike(numbering::item_of(b, k), numbering::item_of(c, k)),
        numbering::item_of(b, k) matches Some(x) ==> {
            let y = numbering::item_of(c, k)->0;
            b.subrange(x.content_start as int, x.end as int) == c.subrange(
                y.content_start as int,
                y.end as int,
            )
        },
{
    let r = syntax::paragraphs(b)[k];
    let q = syntax::paragraphs(c)[k];
    let x = numbering::paragraph(b, k);
    let d = q.start - r.start;
    assert(x.len() == r.end - r.start && x.len() == q.end - q.start);
    assert forall|i: int| r.start <= i < r.end implies #[trigger] b[i] == c[i + d] by {
        assert(x[i - r.start] == b[i]);
        assert(numbering::paragraph(c, k)[i - r.start] == c[i - r.start + q.start]);
    }
    numbering::lemma_item_in_shift(b, r.start as int, r.end as int, c, d);
    if let Some(item) = numbering::item_of(b, k) {
        syntax::lemma_item_in(b, r.start as int, r.end as int);
        let y = numbering::item_of(c, k)->0;
        assert(item.end == r.end && y.end == q.end);
        assert(b.subrange(item.content_start as int, item.end as int) =~= c.subrange(
            y.content_start as int,
            y.end as int,
        ));
    }
}

/// A moved paragraph reads as an item of its new level.
proof fn lemma_moved_item(b: Seq<u8>, x: ListItem, outdent: bool, c: Seq<u8>, k: int)
    requires
        c.len() <= usize::MAX,
        item_fits(b, x),
        syntax::is_paragraph(c, syntax::paragraphs(c)[k]),
        numbering::paragraph(c, k) == moved_paragraph(
            b,
            x,
            lists::changed_level(x.level as int, outdent),
        ),
    ensures
        ({
            let level = lists::changed_level(x.level as int, outdent);
            numbering::item_of(c, k) matches Some(y) && {
                &&& y.level == level
                &&& y.marker == x.marker.moved(level)
                &&& b.subrange(x.content_start as int, x.end as int) == c.subrange(
                    y.content_start as int,
                    y.end as int,
                )
            }
        }),
{
    let level = lists::changed_level(x.level as int, outdent);
    let m = x.marker.moved(level);
    let t = encode_utf8(marker::repeated('\t', level as nat));
    let w = encode_utf8(m.chars());
    let q = syntax::paragraphs(c)[k];
    let s = q.start as int;
    let n = w.len() as int;
    let text = numbering::paragraph(c, k);
    bytes::lemma_encode_concat(marker::repeated('\t', level as nat), m.chars());
    typing::lemma_tab_bytes(level as nat);
    assert(text =~= t + w + b.subrange(x.marker_end as int, x.end as int));
    assert forall|i: int| 0 <= i < text.len() implies #[trigger] text[i] == c[s + i] by {}
    assert forall|j: int| s <= j < s + level implies #[trigger] c[j] == 0x09 by {
        assert(text[j - s] == c[s + (j - s)]);
        assert(text[j - s] == t[j - s]);
    }
    assert forall|j: int| 0 <= j < n implies #[trigger] c[s + level + j] == w[j] by {
        assert(text[level + j] == c[s + (level + j)]);
    }
    assert(text[level + n] == c[s + (level + n)]);
    assert(text[level + n] == b[x.marker_end as int]);
    typing::lemma_marker_reads(c, s, q.end as int, level, m);
    let y = numbering::item_of(c, k)->0;
    assert(y.end == q.end);
    assert(c.subrange(y.content_start as int, y.end as int) =~= text.subrange(
        level + n + 1,
        text.len() as int,
    ));
    assert(b.subrange(x.content_start as int, x.end as int) =~= text.subrange(
        level + n + 1,
        text.len() as int,
    ));
}

/// Whether a position belongs to a selection, whichever of its ends comes first.
pub open spec fn selects(one: int, other: int, p: int) -> bool {
    one <= p <= other || other <= p <= one
}

/// Indenting and outdenting changes the level of exactly the list items whose paragraphs share a
/// position with the selection, by one, but not below zero or beyond the largest level. They keep
/// the kind of their marker and all of their text. All other paragraphs are left as they are.
pub proof fn law_selected_items_change_their_level(m: EditModel, outdent: bool, k: int, p: int)
    requires
        valid_utf8(m.text),
        m.text.len() + syntax::items(m.text).len() <= usize::MAX,
        m.positions.len() == 2,
        0 <= k < syntax::paragraphs(m.text).len(),
    ensures
        ({
            let b = m.text;
            let c = m.with_levels_changed(outdent).text;
            let r = syntax::paragraphs(b)[k];
            let q = syntax::paragraphs(c)[k];
            let reached = selects(m.positions[0] as int, m.positions[1] as int, p) && r.start <= p
                <= r.end;
            let unreached = forall|i: int| #[trigger]
                selects(m.positions[0] as int, m.positions[1] as int, i) ==> !(r.start <= i <= r.end);
            &&& syntax::paragraphs(c).len() == syntax::paragraphs(b).len()
            &&& numbering::item_of(b, k) is None || unreached ==> numbering::paragraph(c, k)
                == numbering::paragraph(b, k)
            &&& (numbering::item_of(b, k) matches Some(x) && reached) ==> {
                let x = numbering::item_of(b, k)->0;
                numbering::item_of(c, k) matches Some(y) && {
                    &&& y.level == if outdent {
                        if x.level > 0 {
                            x.level - 1
                        } else {
                            0
                        }
                    } else if x.level < 8 {
                        x.level + 1
                    } else {
                        8
                    }
                    &&& y.marker is Bullet <==> x.marker is Bullet
                    &&& y.marker is Number ==> y.marker->delim == x.marker->delim
                    &&& y.level == x.level ==> y.marker == x.marker
                    &&& b.subrange(x.content_start as int, x.end as int) == c.subrange(
                        y.content_start as int,
                        y.end as int,
                    )
                }
            }
            &&& reached && numbering::item_of(b, k) is Some ==> m.touches_items()
        }),
{
    let b = m.text;
    let items = syntax::items(b);
    let lo = m.lo();
    let hi = m.hi();
    let c = m.with_levels_changed(outdent).text;
    let r = syntax::paragraphs(b)[k];
    lemma_items_of_text(b);
    lemma_moved(m, items, lo, hi, outdent, k);
    syntax::lemma_paragraphs(b);
    syntax::lemma_paragraphs(c);
    assert(syntax::is_paragraph(b, syntax::paragraphs(b)[k]));
    assert(syntax::is_paragraph(c, syntax::paragraphs(c)[k]));
    let item = numbering::item_of(b, k);
    if let Some(x) = item {
        lemma_items_are_found(b, syntax::paragraphs(b), k);
        let j = choose|j: int| 0 <= j < items.len() && #[trigger] items[j] == x;
        syntax::lemma_item_in(b, r.start as int, r.end as int);
        assert(item_fits(b, items[j]));
        let touched = lists::touched(x, lo, hi);
        if touched {
            // The larger of the two starts is shared.
            let shared = if lo <= x.start {
                x.start as int
            } else {
                lo
            };
            assert(selects(m.positions[0] as int, m.positions[1] as int, shared));
            assert(m.touches_items());
            let level = lists::changed_level(x.level as int, outdent);
            if level != x.level {
                assert(moves(items[j], r.start as int, lo, hi, outdent));
                lemma_moved_item(b, x, outdent, c, k);
            } else {
                lemma_not_moved(b, items, j, lo, hi, outdent);
                lemma_same_item(b, c, k);
            }
        } else {
            lemma_not_moved(b, items, j, lo, hi, outdent);
        }
    } else {
        assert(!is_moved(items, r.start as int, lo, hi, outdent)) by {
            if is_moved(items, r.start as int, lo, hi, outdent) {
                let j = choose|j: int|
                    0 <= j < items.len() && moves(
                        #[trigger] items[j],
                        r.start as int,
                        lo,
                        hi,
                        outdent,
                    );
                syntax::lemma_items_among(b, syntax::paragraphs(b));
                let x = items[j];
                assert(x.end == r.end) by {
                    assert(item_fits(b, items[j]));
                    if x.end < r.end {
                        assert(b[x.end as int] == 0x0a);
                    } else if r.end < x.end {
                        assert(b[r.end as int] == 0x0a);
                    }
                }
            }
        }
    }
}

/// Where the selection reaches no list item, none is found, so that nothing is changed.
pub proof fn law_without_selected_items_nothing_is_found(m: EditModel)
    requires
        valid_utf8(m.text),
        m.text.len() <= usize::MAX,
        m.positions.len() == 2,
        forall|k: int, p: int|
            #![trigger syntax::paragraphs(m.text)[k], selects(m.positions[0] as int, m.positions[1] as int, p)]
            0 <= k < syntax::paragraphs(m.text).len() && numbering::item_of(m.text, k) is Some
                && selects(m.positions[0] as int, m.positions[1] as int, p) ==> !(
            syntax::paragraphs(m.text)[k].start <= p <= syntax::paragraphs(m.text)[k].end),
    ensures
        !m.touches_items(),
{
    let b = m.text;
    let items = syntax::items(b);
    if m.touches_items() {
        let j = choose|j: int|
            0 <= j < items.len() && lists::touched(#[trigger] items[j], m.lo(), m.hi());
        let x = items[j];
        let k = lemma_items_are_paragraphs(b, syntax::paragraphs(b), j);
        syntax::lemma_paragraphs(b);
        assert(syntax::is_paragraph(b, syntax::paragraphs(b)[k]));
        let r = syntax::paragraphs(b)[k];
        syntax::lemma_item_in(b, r.start as int, r.end as int);
        let shared = if m.lo() <= x.start {
            x.start as int
        } else {
            m.lo()
        };
        assert(selects(m.positions[0] as int, m.positions[1] as int, shared));
        assert(r.start <= shared <= r.end);
    }
}

pub proof fn lemma_items_are_paragraphs(b: Seq<u8>, ranges: Seq<Range<usize>>, j: int) -> (k: int)
    requires
        0 <= j < syntax::items_among(b, ranges).len(),
    ensures
        0 <= k < ranges.len(),
        syntax::item_in(b, ranges[k].start as int, ranges[k].end as int) == Some(
            syntax::items_among(b, ranges)[j],
        ),
    decreases ranges.len(),
{
    let rest = ranges.drop_last();
    if j < syntax::items_among(b, rest).len() {
        let k = lemma_items_are_paragraphs(b, rest, j);
        assert(rest[k] == ranges[k]);
        k
    } else {
        ranges.len() - 1
    }
}

/// A list item that a cursor is in is reached, so it is found.
pub proof fn law_the_item_at_the_cursor_is_found(m: EditModel, i: int)
    requires
        valid_utf8(m.text),
        m.text.len() <= usize::MAX,
        m.positions.len() == 2,
        0 <= i < 2,
        m.positions[i] <= m.text.len(),
        syntax::item_at(m.text, m.positions[i] as int) is Some,
    ensures
        m.touches_items(),
{
    let b = m.text;
    let p = m.positions[i] as int;
    let k = lemma_paragraph_of(b, 0, p);
    syntax::lemma_paragraphs(b);
    assert(syntax::is_paragraph(b, syntax::paragraphs(b)[k]));
    let r = syntax::paragraphs(b)[k];
    syntax::lemma_para_start_unique(b, p, r.start as int);
    syntax::lemma_para_end_unique(b, p, r.end as int);
    lemma_items_are_found(b, syntax::paragraphs(b), k);
    syntax::lemma_item_in(b, r.start as int, r.end as int);
    let items = syntax::items(b);
    let j = choose|j: int|
        0 <= j < items.len() && #[trigger] items[j] == syntax::item_in(
            b,
            r.start as int,
            r.end as int,
        )->0;
    assert(lists::touched(items[j], m.lo(), m.hi()));
}

/// Every position lies in a paragraph.
pub proof fn lemma_paragraph_of(b: Seq<u8>, start: int, p: int) -> (k: int)
    requires
        0 <= start <= p <= b.len() <= usize::MAX,
    ensures
        0 <= k < syntax::paragraphs_from(b, start).len(),
        syntax::paragraphs_from(b, start)[k].start <= p <= syntax::paragraphs_from(b, start)[k].end,
    decreases b.len() - start,
{
    let end = syntax::para_end(b, start);
    syntax::lemma_para_end(b, start);
    if p <= end {
        0
    } else {
        let k = lemma_paragraph_of(b, end + 1, p);
        assert(syntax::paragraphs_from(b, start)[k + 1] == syntax::paragraphs_from(b, end + 1)[k]);
        k + 1
    }
}

} // verus!
