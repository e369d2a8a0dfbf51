//! Removing automatic line breaks, and numbering lists.

use crate::attrs;
use crate::edit;
use crate::edit::{Edit, EditModel, Replacement, TextStroke};
use crate::softbreak;
use crate::syntax;
use crate::syntax::{ListItem, Marker};
use std::ops::Range;
use vstd::prelude::*;
use vstd::utf8::*;

verus! {

broadcast use syntax::group_char_bytes;

/// Removing a range.
pub open spec fn removal(start: int, end: int) -> Edit {
    Edit { start, end, text: Seq::empty() }
}

/// The edits that remove the given ranges.
pub open spec fn removals(ranges: Seq<Range<usize>>) -> Seq<Edit> {
    ranges.map_values(|r: Range<usize>| removal(r.start as int, r.end as int))
}

/// The counters of a list when an item of the given level comes: one for each level up to it, with
/// deeper ones forgotten and missing ones not started.
pub open spec fn counters_up_to(counters: Seq<Option<u32>>, level: int) -> Seq<Option<u32>> {
    Seq::new(
        (level + 1) as nat,
        |i: int|
            if i < counters.len() {
                counters[i]
            } else {
                None
            },
    )
}

/// The number an item gets: the one after the previous number of its level, or its own if it is
/// the first.
pub open spec fn wanted_number(previous: Option<u32>, n: u32) -> u32 {
    match previous {
        Some(prev) => if prev < u32::MAX {
            (prev + 1) as u32
        } else {
            u32::MAX
        },
        None => n,
    }
}

/// The counters behind an item.
pub open spec fn counters_after(counters: Seq<Option<u32>>, item: Option<ListItem>) -> Seq<
    Option<u32>,
> {
    match item {
        None => Seq::empty(),
        Some(item) => {
            let c = counters_up_to(counters, item.level as int);
            match item.marker {
                Marker::Number { n, .. } => c.update(
                    item.level as int,
                    Some(wanted_number(c[item.level as int], n)),
                ),
                Marker::Bullet(_) => c.update(item.level as int, None),
            }
        },
    }
}

/// The counters behind the given paragraphs.
pub open spec fn counters(b: Seq<u8>, ranges: Seq<Range<usize>>) -> Seq<Option<u32>>
    decreases ranges.len(),
{
    if ranges.len() == 0 {
        Seq::empty()
    } else {
        counters_after(
            counters(b, ranges.drop_last()),
            syntax::item_in(b, ranges.last().start as int, ranges.last().end as int),
        )
    }
}

/// The edit that gives an item its number, if it has another one.
pub open spec fn number_edit(counters: Seq<Option<u32>>, item: ListItem) -> Option<Edit> {
    match item.marker {
        Marker::Number { n, delim } => {
            let wanted = wanted_number(
                counters_up_to(counters, item.level as int)[item.level as int],
                n,
            );
            if wanted != n {
                Some(
                    Edit {
                        start: item.marker_start as int,
                        end: item.marker_end as int,
                        text: encode_utf8((Marker::Number { n: wanted, delim }).chars()),
                    },
                )
            } else {
                None
            }
        },
        Marker::Bullet(_) => None,
    }
}

/// The edits that renumber the given paragraphs.
pub open spec fn number_edits(b: Seq<u8>, ranges: Seq<Range<usize>>) -> Seq<Edit>
    decreases ranges.len(),
{
    if ranges.len() == 0 {
        Seq::empty()
    } else {
        let before = number_edits(b, ranges.drop_last());
        match syntax::item_in(b, ranges.last().start as int, ranges.last().end as int) {
            Some(item) => match number_edit(counters(b, ranges.drop_last()), item) {
                Some(e) => before.push(e),
                None => before,
            },
            None => before,
        }
    }
}

impl EditModel {
    /// Without the automatic line breaks.
    pub open spec fn without_soft_breaks(self) -> EditModel {
        self.edited_all(removals(softbreak::soft_breaks(self.text)))
    }

    /// With touching attributes merged.
    pub open spec fn with_merged_attrs(self) -> EditModel {
        EditModel { text: self.text, attrs: attrs::merged(self.attrs), positions: self.positions }
    }

    /// With each numbered list numbered consecutively.
    pub open spec fn renumbered(self) -> EditModel {
        self.edited_all(number_edits(self.text, syntax::paragraphs(self.text)))
    }

    /// With the lists brought up to date.
    pub open spec fn relaid(self) -> EditModel {
        self.without_soft_breaks().with_merged_attrs().renumbered()
    }
}

/// The edits that renumber paragraphs come in order.
pub proof fn lemma_number_edits(b: Seq<u8>, ranges: Seq<Range<usize>>)
    requires
        valid_utf8(b),
        b.len() <= usize::MAX,
        forall|k: int| 0 <= k < ranges.len() ==> syntax::is_paragraph(b, #[trigger] ranges[k]),
        forall|j: int, k: int|
            0 <= j < k < ranges.len() ==> (#[trigger] ranges[j]).end < (#[trigger] ranges[k]).start,
    ensures
        edit::edits_fit(b, number_edits(b, ranges)),
        forall|k: int|
            0 <= k < number_edits(b, ranges).len() ==> ranges.len() > 0 && (
            #[trigger] number_edits(b, ranges)[k]).end <= ranges.last().end,
    decreases ranges.len(),
{
    if ranges.len() > 0 {
        let last = ranges.last();
        let rest = ranges.drop_last();
        lemma_number_edits(b, rest);
        assert(syntax::is_paragraph(b, ranges[ranges.len() - 1]));
        syntax::lemma_item_in(b, last.start as int, last.end as int);
        if let Some(item) = syntax::item_in(b, last.start as int, last.end as int) {
            if let Some(e) = number_edit(counters(b, rest), item) {
                let before = number_edits(b, rest);
                let all = before.push(e);
                let wanted = wanted_number(
                    counters_up_to(counters(b, rest), item.level as int)[item.level as int],
                    item.marker->n,
                );
                encode_utf8_valid_utf8(
                    (Marker::Number { n: wanted, delim: item.marker->delim }).chars(),
                );
                assert(e.fits(b));
                assert forall|j: int, k: int| 0 <= j < k < all.len() implies (#[trigger] all[j]).end
                    <= (#[trigger] all[k]).start by {
                    if k == before.len() {
                        assert(before[j].end <= rest.last().end);
                        assert(ranges[ranges.len() - 2].end < ranges[ranges.len() - 1].start);
                    }
                }
            }
        }
    }
}

/// The removals of automatic line breaks come in order.
pub proof fn lemma_removals(b: Seq<u8>)
    requires
        valid_utf8(b),
        b.len() <= usize::MAX,
    ensures
        edit::edits_fit(b, removals(softbreak::soft_breaks(b))),
{
    softbreak::lemma_soft_breaks_from(b, 0);
    let s = softbreak::soft_breaks(b);
    let r = removals(s);
    assert forall|k: int| 0 <= k < r.len() implies (#[trigger] r[k]).fits(b) by {
        assert(s[k].start <= s[k].end);
    }
    assert forall|j: int, k: int| 0 <= j < k < r.len() implies (#[trigger] r[j]).end <= (
    #[trigger] r[k]).start by {
        assert(s[j].end <= s[k].start);
    }
}

impl TextStroke {
    /// Number the items of each numbered list consecutively. The first item of a list keeps its
    /// number, so lists can start at any number.
    pub fn renumber_lists(&mut self, positions: &mut Vec<usize>)
        requires
            old(self).model(old(positions)@).valid(),
        ensures
            final(self).model(final(positions)@) == old(self).model(old(positions)@).renumbered(),
            final(self).model(final(positions)@).valid(),
            old(self).model(old(positions)@).keeps_ends(final(self).model(final(positions)@)),
            final(self).same_base_style(old(self)),
    {
        let ghost b = encode_utf8(self.text@);
        let mut edits: Vec<Replacement> = Vec::new();
        // The number of the previous item for each level of the current list.
        let mut counts: Vec<Option<u32>> = Vec::new();
        let ranges = syntax::paragraph_ranges(self.text.as_str());
        proof {
            syntax::lemma_paragraphs(b);
        }
        let mut k: usize = 0;
        assert(edit::replacements(edits@) =~= number_edits(b, ranges@.take(0)));
        while k < ranges.len()
            invariant
                b == encode_utf8(self.text@),
                valid_utf8(b),
                b.len() <= usize::MAX,
                self == old(self),
                ranges@ == syntax::paragraphs(b),
                k <= ranges@.len(),
                forall|j: int|
                    0 <= j < ranges@.len() ==> syntax::is_paragraph(b, #[trigger] ranges@[j]),
                counts@ == counters(b, ranges@.take(k as int)),
                edit::replacements(edits@) == number_edits(b, ranges@.take(k as int)),
            decreases ranges@.len() - k,
        {
            assert(syntax::is_paragraph(b, ranges@[k as int]));
            assert(ranges@.take(k + 1).drop_last() =~= ranges@.take(k as int));
            let start: usize = ranges[k].start;
            let end: usize = ranges[k].end;
            let ghost before = counts@;
            let ghost done = edit::replacements(edits@);
            proof {
                syntax::lemma_item_in(b, start as int, end as int);
            }
            match syntax::parse_list_item(self.text.as_str(), Range { start, end }) {
                None => {
                    counts.clear();
                },
                Some(item) => {
                    let level: usize = item.level;
                    counts.truncate(level + 1);
                    while counts.len() < level + 1
                        invariant
                            level < usize::MAX,
                            counts@.len() <= level + 1,
                            forall|i: int|
                                0 <= i < counts@.len() ==> #[trigger] counts@[i] == (if i
                                    < before.len() {
                                    before[i]
                                } else {
                                    None
                                }),
                            counts@.len() < level + 1 ==> before.len() <= counts@.len(),
                        decreases level + 1 - counts@.len(),
                    {
                        counts.push(None);
                    }
                    assert(counts@ =~= counters_up_to(before, level as int));
                    match item.marker {
                        Marker::Number { n, delim } => {
                            let wanted: u32 = match counts[level] {
                                Some(prev) => prev.saturating_add(1),
                                None => n,
                            };
                            if wanted != n {
                                let text = (Marker::Number { n: wanted, delim }).text();
                                edits.push(
                                    Replacement {
                                        range: Range {
                                            start: item.marker_start,
                                            end: item.marker_end,
                                        },
                                        text,
                                    },
                                );
                                assert(edit::replacements(edits@) =~= done.push(
                                    number_edit(before, item)->0,
                                ));
                            }
                            counts.set(level, Some(wanted));
                        },
                        Marker::Bullet(_) => {
                            counts.set(level, None);
                        },
                    }
                },
            }
            assert(counts@ =~= counters(b, ranges@.take(k + 1)));
            k += 1;
        }
        proof {
            assert(ranges@.take(k as int) =~= ranges@);
            lemma_number_edits(b, ranges@);
        }
        self.replace_all_mapped(&edits, positions);
    }

    /// Remove the automatic line breaks and renumber the lists.
    pub fn renumber_stripped(&mut self, positions: &mut Vec<usize>)
        requires
            old(self).model(old(positions)@).valid(),
        ensures
            final(self).model(final(positions)@) == old(self).model(old(positions)@).relaid(),
            final(self).model(final(positions)@).valid(),
            old(self).model(old(positions)@).keeps_ends(final(self).model(final(positions)@)),
            final(self).same_base_style(old(self)),
    {
        let ghost b = encode_utf8(self.text@);
        let breaks = softbreak::soft_break_ranges(self.text.as_str());
        let mut edits: Vec<Replacement> = Vec::new();
        let mut k: usize = 0;
        while k < breaks.len()
            invariant
                k <= breaks@.len(),
                edit::replacements(edits@) == removals(breaks@.take(k as int)),
            decreases breaks@.len() - k,
        {
            let ghost done = edit::replacements(edits@);
            let range: Range<usize> = Range { start: breaks[k].start, end: breaks[k].end };
            edits.push(Replacement { range, text: String::new() });
            proof {
                let e = removal(breaks@[k as int].start as int, breaks@[k as int].end as int);
                assert(encode_utf8(edits@.last().text@) =~= e.text);
                assert(edits@.last().edit() == e);
                assert(edit::replacements(edits@) =~= done.push(e));
                assert(removals(breaks@.take(k + 1)) =~= removals(breaks@.take(k as int)).push(e));
            }
            k += 1;
        }
        proof {
            assert(breaks@.take(k as int) =~= breaks@);
            lemma_removals(b);
        }
        self.replace_all_mapped(&edits, positions);
        let ghost m = self.model(positions@);
        self.merge_adjacent_attrs();
        assert(self.model(positions@) == m.with_merged_attrs());
        self.renumber_lists(positions);
    }
}

// ---------------------------------------------------------------------------------------------
// Laws

/// Removing the automatic line breaks one by one leaves the text without them.
pub proof fn law_removing_soft_breaks_strips_the_text(m: EditModel)
    requires
        valid_utf8(m.text),
        m.text.len() <= usize::MAX,
    ensures
        m.without_soft_breaks().text == softbreak::stripped(m.text),
{
    lemma_removals(m.text);
    edit::lemma_edited_all_text(m, removals(softbreak::soft_breaks(m.text)));
    lemma_applied_removals(m.text, 0, 0);
    assert(m.text.subrange(0, 0) + softbreak::stripped(m.text) =~= softbreak::stripped(m.text));
}

proof fn lemma_applied_removals(b: Seq<u8>, from: int, i: int)
    requires
        valid_utf8(b),
        b.len() <= usize::MAX,
        0 <= from <= i <= b.len(),
    ensures
        edit::applied(b, from, removals(softbreak::soft_breaks_from(b, i))) == b.subrange(from, i)
            + softbreak::stripped_from(b, i),
    decreases b.len() - i,
{
    let edits = removals(softbreak::soft_breaks_from(b, i));
    if i >= b.len() {
        assert(edits =~= Seq::<Edit>::empty());
        assert(b.subrange(from, i) + softbreak::stripped_from(b, i) =~= b.subrange(
            from,
            b.len() as int,
        ));
    } else if syntax::soft_break_at(b, i) {
        let end = softbreak::indent_end(b, i + 3);
        softbreak::lemma_indent_end(b, i + 3);
        lemma_no_soft_breaks_between(b, i + 3, end);
        lemma_applied_removals(b, end, end);
        let rest = removals(softbreak::soft_breaks_from(b, end));
        assert(edits.drop_first() =~= rest);
        assert(edits[0] == removal(i, end));
        assert(b.subrange(end, end) + softbreak::stripped_from(b, end)
            =~= softbreak::stripped_from(b, end));
        assert(edit::applied(b, from, edits) =~= b.subrange(from, i) + softbreak::stripped_from(
            b,
            i,
        ));
    } else {
        lemma_applied_removals(b, from, i + 1);
        assert(b.subrange(from, i + 1) + softbreak::stripped_from(b, i + 1) =~= b.subrange(from, i)
            + softbreak::stripped_from(b, i));
    }
}

pub proof fn lemma_no_soft_breaks_between(b: Seq<u8>, i: int, j: int)
    requires
        0 <= i <= j <= b.len(),
        forall|k: int| i <= k < j ==> !#[trigger] syntax::soft_break_at(b, k),
    ensures
        softbreak::soft_breaks_from(b, i) == softbreak::soft_breaks_from(b, j),
    decreases j - i,
{
    if i < j {
        assert(!syntax::soft_break_at(b, i));
        lemma_no_soft_breaks_between(b, i + 1, j);
    }
}

} // verus!
