//! Numbered lists are numbered consecutively.

use crate::bytes;
use crate::edit;
use crate::edit::{Edit, EditModel};
use crate::marker;
use crate::renumber;
use crate::softbreak;
use crate::syntax;
use crate::syntax::{ListItem, Marker};
use std::ops::Range;
use vstd::prelude::*;
use vstd::utf8::*;

verus! {

broadcast use syntax::group_char_bytes;

// ---------------------------------------------------------------------------------------------
// The same paragraph at another place

/// Whether the bytes of `b` from `s` to `e` stand in `c` too, `d` bytes further.
pub open spec fn same_bytes(b: Seq<u8>, s: int, e: int, c: Seq<u8>, d: int) -> bool {
    &&& 0 <= s <= e <= b.len()
    &&& 0 <= s + d
    &&& e + d <= c.len()
    &&& forall|k: int| s <= k < e ==> #[trigger] b[k] == c[k + d]
}

/// Whether two items, if they are items, have the same level and marker.
pub open spec fn alike(x: Option<ListItem>, y: Option<ListItem>) -> bool {
    match x {
        None => y is None,
        Some(x) => y matches Some(y) && x.level == y.level && x.marker == y.marker,
    }
}

pub proof fn lemma_decimal_value_shift(b: Seq<u8>, i: int, j: int, c: Seq<u8>, d: int)
    requires
        same_bytes(b, i, j, c, d),
    ensures
        syntax::decimal_value(b, i, j) == syntax::decimal_value(c, i + d, j + d),
    decreases j - i,
{
    if i < j {
        lemma_decimal_value_shift(b, i, j - 1, c, d);
        assert(b[j - 1] == c[j - 1 + d]);
    }
}

/// Whether a paragraph is a list item depends on its bytes alone.
pub proof fn lemma_item_in_shift(b: Seq<u8>, s: int, e: int, c: Seq<u8>, d: int)
    requires
        same_bytes(b, s, e, c, d),
        b.len() <= usize::MAX,
        c.len() <= usize::MAX,
    ensures
        alike(syntax::item_in(b, s, e), syntax::item_in(c, s + d, e + d)),
        syntax::item_in(b, s, e) matches Some(x) ==> syntax::item_in(
            c,
            s + d,
            e + d,
        )->0.content_start == x.content_start + d,
{
    let ms = syntax::tabs_end(b, s, e);
    syntax::lemma_tabs_end(b, s, e);
    assert(ms < e ==> b[ms] == c[ms + d]);
    assert forall|j: int| s + d <= j < ms + d implies c[j] == 0x09 by {
        assert(b[j - d] == 0x09);
    }
    syntax::lemma_tabs_end_unique(c, s + d, e + d, ms + d);
    let de = syntax::digits_end(b, ms, e);
    syntax::lemma_digits_end(b, ms, e);
    assert(de < e ==> b[de] == c[de + d]);
    assert forall|j: int| ms + d <= j < de + d implies syntax::is_digit(c[j]) by {
        assert(syntax::is_digit(b[j - d]));
    }
    syntax::lemma_digits_end_unique(c, ms + d, e + d, de + d);
    lemma_decimal_value_shift(b, ms, de, c, d);
    if ms + 3 <= e {
        assert(b[ms] == c[ms + d]);
        assert(b[ms + 1] == c[ms + 1 + d]);
        assert(b[ms + 2] == c[ms + 2 + d]);
    }
    if let Some((_, me)) = syntax::marker_at(b, ms, e) {
        if me < e {
            assert(b[me] == c[me + d]);
        }
    }
}

// ---------------------------------------------------------------------------------------------
// The text of numbers

/// Reading a number gives back the number that was written.
pub proof fn law_numbers_are_read_as_written(n: nat)
    ensures
        ({
            let d = encode_utf8(marker::decimal(n));
            &&& d.len() == marker::decimal(n).len() >= 1
            &&& forall|i: int| 0 <= i < d.len() ==> syntax::is_digit(#[trigger] d[i])
            &&& syntax::decimal_value(d, 0, d.len() as int) == n
        }),
    decreases n,
{
    let c = (0x30 + n % 10) as char;
    let d = encode_utf8(marker::decimal(n));
    bytes::lemma_utf8_ascii(c);
    bytes::lemma_encode_one(c);
    if n < 10 {
        assert(marker::decimal(n) == seq![c]);
        assert(d == seq![c as u8]);
        assert(syntax::decimal_value(d, 0, 0) == 0);
        assert(syntax::decimal_value(d, 0, 1) == n);
    } else {
        law_numbers_are_read_as_written(n / 10);
        let front = encode_utf8(marker::decimal(n / 10));
        bytes::lemma_encode_concat(marker::decimal(n / 10), seq![c]);
        assert(marker::decimal(n) =~= marker::decimal(n / 10) + seq![c]);
        assert(d == front + seq![c as u8]);
        let k = front.len() as int;
        assert(same_bytes(front, 0, k, d, 0));
        lemma_decimal_value_shift(front, 0, k, d, 0);
        assert(d[k] == c as u8);
        assert(syntax::decimal_value(d, 0, k + 1) == syntax::decimal_value(d, 0, k) * 10 + n % 10);
    }
}

/// Numbers below a power of ten have no more digits than that.
pub proof fn lemma_decimal_len(n: nat, k: nat)
    requires
        n < syntax::pow10(k),
        k > 0,
    ensures
        marker::decimal(n).len() <= k,
    decreases n,
{
    if n >= 10 {
        if k == 1 {
            assert(syntax::pow10(1) == 10 * syntax::pow10(0));
        } else {
            lemma_decimal_len(n / 10, (k - 1) as nat);
        }
    }
}

// ---------------------------------------------------------------------------------------------
// Paragraphs with their new number

/// The paragraph with its number changed to the one it should have.
pub open spec fn new_paragraph(b: Seq<u8>, counters: Seq<Option<u32>>, r: Range<usize>) -> Seq<u8> {
    let old = b.subrange(r.start as int, r.end as int);
    match syntax::item_in(b, r.start as int, r.end as int) {
        Some(item) => match renumber::number_edit(counters, item) {
            Some(e) => bytes::splice(old, e.start - r.start, e.end - r.start, e.text),
            None => old,
        },
        None => old,
    }
}

/// How a paragraph reads after it got its number. Numbers with more than six digits make it an item
/// no more.
pub open spec fn became(
    counters: Seq<Option<u32>>,
    before: Option<ListItem>,
    after: Option<ListItem>,
) -> bool {
    match before {
        None => after is None,
        Some(x) => match x.marker {
            Marker::Bullet(_) => alike(before, after),
            Marker::Number { n, delim } => after matches Some(y) ==> y.level == x.level && y.marker
                == (Marker::Number {
                n: renumber::wanted_number(
                    renumber::counters_up_to(counters, x.level as int)[x.level as int],
                    n,
                ),
                delim,
            }),
        },
    }
}

/// A paragraph of tabs, a number and a space reads as an item with that number, unless it has too
/// many digits.
pub proof fn lemma_read_number(c: Seq<u8>, at: int, end: int, level: int, w: u32, delim: char)
    requires
        0 <= at,
        0 <= level,
        at + level + marker::decimal(w as nat).len() + 2 <= end <= c.len() <= usize::MAX,
        delim == '.' || delim == ')',
        forall|j: int| at <= j < at + level ==> #[trigger] c[j] == 0x09,
        forall|j: int|
            0 <= j < marker::decimal(w as nat).len() ==> #[trigger] c[at + level + j]
                == encode_utf8(marker::decimal(w as nat))[j],
        c[at + level + marker::decimal(w as nat).len()] == delim as u8,
        c[at + level + marker::decimal(w as nat).len() + 1] == 0x20,
    ensures
        syntax::item_in(c, at, end) matches Some(y) ==> y.level == level && y.marker == (
        Marker::Number { n: w, delim }) && y.content_start == at + level + marker::decimal(
            w as nat,
        ).len() + 2,
        marker::decimal(w as nat).len() <= 6 ==> syntax::item_in(c, at, end) is Some,
{
    let digits = encode_utf8(marker::decimal(w as nat));
    law_numbers_are_read_as_written(w as nat);
    let n = digits.len() as int;
    let ms = at + level;
    assert(c[ms + 0] == digits[0]);
    assert(syntax::is_digit(digits[0]));
    syntax::lemma_tabs_end_unique(c, at, end, ms);
    assert forall|j: int| ms <= j < ms + n implies syntax::is_digit(c[j]) by {
        assert(c[ms + (j - ms)] == digits[j - ms]);
        assert(syntax::is_digit(digits[j - ms]));
    }
    syntax::lemma_digits_end_unique(c, ms, end, ms + n);
    assert forall|k: int| 0 <= k < n implies #[trigger] digits[k] == c[k + ms] by {
        assert(c[ms + k] == digits[k]);
    }
    lemma_decimal_value_shift(digits, 0, n, c, ms);
    assert(syntax::bullet_at(c, ms) is None);
}

/// A paragraph whose number stays has the bytes it had.
proof fn lemma_kept_paragraph(b: Seq<u8>, r: Range<usize>, q: Seq<u8>, c: Seq<u8>, at: int)
    requires
        b.len() <= usize::MAX,
        c.len() <= usize::MAX,
        syntax::is_paragraph(b, r),
        0 <= at,
        at + q.len() <= c.len(),
        c.subrange(at, at + q.len()) == q,
        q == b.subrange(r.start as int, r.end as int),
    ensures
        alike(
            syntax::item_in(b, r.start as int, r.end as int),
            syntax::item_in(c, at, at + q.len()),
        ),
        forall|i: int| 0 <= i < q.len() ==> #[trigger] q[i] != 0x0a,
{
    let s = r.start as int;
    let e = r.end as int;
    assert forall|k: int| s <= k < e implies #[trigger] b[k] == c[k + (at - s)] by {
        assert(q[k - s] == b[k]);
        assert(c.subrange(at, at + q.len())[k - s] == c[k - s + at]);
    }
    lemma_item_in_shift(b, s, e, c, at - s);
    assert forall|i: int| 0 <= i < q.len() implies #[trigger] q[i] != 0x0a by {
        assert(q[i] == b[i + s]);
    }
}

/// A paragraph that gets another number has that number.
proof fn lemma_changed_paragraph(
    b: Seq<u8>,
    r: Range<usize>,
    item: ListItem,
    w: u32,
    q: Seq<u8>,
    c: Seq<u8>,
    at: int,
)
    requires
        valid_utf8(b),
        b.len() <= usize::MAX,
        c.len() <= usize::MAX,
        syntax::is_paragraph(b, r),
        syntax::item_in(b, r.start as int, r.end as int) == Some(item),
        item.marker is Number,
        0 <= at,
        at + q.len() <= c.len(),
        c.subrange(at, at + q.len()) == q,
        q == bytes::splice(
            b.subrange(r.start as int, r.end as int),
            item.marker_start - r.start,
            item.marker_end - r.start,
            encode_utf8((Marker::Number { n: w, delim: item.marker->delim }).chars()),
        ),
    ensures
        syntax::item_in(c, at, at + q.len()) matches Some(y) ==> y.level == item.level && y.marker
            == (Marker::Number { n: w, delim: item.marker->delim }),
        forall|i: int| 0 <= i < q.len() ==> #[trigger] q[i] != 0x0a,
{
    let s = r.start as int;
    let e = r.end as int;
    let end = at + q.len();
    let delim = item.marker->delim;
    syntax::lemma_item_in(b, s, e);
    let ms = item.marker_start as int;
    let me = item.marker_end as int;
    syntax::lemma_digits_end(b, ms, e);
    let level = ms - s;
    let digits = encode_utf8(marker::decimal(w as nat));
    law_numbers_are_read_as_written(w as nat);
    let n = digits.len() as int;
    let text = encode_utf8((Marker::Number { n: w, delim }).chars());
    assert(text == digits + seq![delim as u8]) by {
        bytes::lemma_encode_concat(marker::decimal(w as nat), seq![delim]);
        bytes::lemma_encode_one(delim);
        bytes::lemma_utf8_ascii(delim);
        assert(marker::decimal(w as nat).push(delim) =~= marker::decimal(w as nat) + seq![delim]);
    }
    let old = b.subrange(s, e);
    assert(q.len() == level + n + 1 + (e - me));
    assert forall|i: int| 0 <= i < q.len() implies #[trigger] q[i] == c[at + i] by {
        assert(c.subrange(at, end)[i] == c[at + i]);
    }
    assert forall|j: int| at <= j < at + level implies #[trigger] c[j] == 0x09 by {
        assert(q[j - at] == c[at + (j - at)]);
        assert(q[j - at] == old[j - at]);
        assert(old[j - at] == b[j - at + s]);
    }
    assert forall|j: int| 0 <= j < n implies #[trigger] c[at + level + j] == digits[j] by {
        assert(q[level + j] == c[at + (level + j)]);
        assert(q[level + j] == text[j]);
    }
    assert(q[level + n] == c[at + (level + n)]);
    assert(q[level + n] == text[n]);
    assert(q[level + n + 1] == c[at + (level + n + 1)]);
    assert(q[level + n + 1] == old[me - s]);
    assert(old[me - s] == b[me]);
    lemma_read_number(c, at, end, level, w, delim);
    assert forall|i: int| 0 <= i < q.len() implies #[trigger] q[i] != 0x0a by {
        if i < level {
            assert(q[i] == old[i]);
            assert(old[i] == b[i + s]);
        } else if i < level + n {
            assert(q[i] == text[i - level]);
            assert(syntax::is_digit(digits[i - level]));
        } else if i > level + n {
            assert(q[i] == old[i - (level + n + 1) + (me - s)]);
            assert(old[i - (level + n + 1) + (me - s)] == b[i - (level + n + 1) + me]);
        }
    }
}

proof fn lemma_new_paragraph(
    b: Seq<u8>,
    counters: Seq<Option<u32>>,
    r: Range<usize>,
    q: Seq<u8>,
    c: Seq<u8>,
    at: int,
)
    requires
        valid_utf8(b),
        b.len() <= usize::MAX,
        c.len() <= usize::MAX,
        syntax::is_paragraph(b, r),
        q == new_paragraph(b, counters, r),
        0 <= at,
        at + q.len() <= c.len(),
        c.subrange(at, at + q.len()) == q,
    ensures
        became(
            counters,
            syntax::item_in(b, r.start as int, r.end as int),
            syntax::item_in(c, at, at + q.len()),
        ),
        forall|i: int| 0 <= i < q.len() ==> #[trigger] q[i] != 0x0a,
{
    match syntax::item_in(b, r.start as int, r.end as int) {
        None => {
            lemma_kept_paragraph(b, r, q, c, at);
        },
        Some(item) => match renumber::number_edit(counters, item) {
            None => {
                lemma_kept_paragraph(b, r, q, c, at);
            },
            Some(_) => {
                let w = renumber::wanted_number(
                    renumber::counters_up_to(counters, item.level as int)[item.level as int],
                    item.marker->n,
                );
                lemma_changed_paragraph(b, r, item, w, q, c, at);
            },
        },
    }
}

// ---------------------------------------------------------------------------------------------
// Counting again

/// Whether the first counters know nothing that the second ones do not know.
pub open spec fn known_to(x: Seq<Option<u32>>, y: Seq<Option<u32>>) -> bool {
    forall|l: int| 0 <= l < x.len() && (#[trigger] x[l]) is Some ==> l < y.len() && y[l] == x[l]
}

proof fn lemma_counting_again(
    x: Seq<Option<u32>>,
    y: Seq<Option<u32>>,
    before: Option<ListItem>,
    after: Option<ListItem>,
)
    requires
        known_to(x, y),
        became(y, before, after),
    ensures
        known_to(renumber::counters_after(x, after), renumber::counters_after(y, before)),
        after matches Some(item) ==> renumber::number_edit(x, item) is None,
{
    if let Some(item) = after {
        let level = item.level as int;
        let ux = renumber::counters_up_to(x, level);
        let uy = renumber::counters_up_to(y, level);
        assert(known_to(ux, uy)) by {
            assert forall|l: int| 0 <= l < ux.len() && (#[trigger] ux[l]) is Some implies uy[l]
                == ux[l] by {
                assert(x[l] is Some);
            }
        }
        assert(ux[level] is Some ==> uy[level] == ux[level]);
    }
}

proof fn lemma_counting_alike(b: Seq<u8>, c: Seq<u8>, ranges: Seq<Range<usize>>)
    requires
        forall|k: int|
            0 <= k < ranges.len() ==> syntax::item_in(
                b,
                (#[trigger] ranges[k]).start as int,
                ranges[k].end as int,
            ) == syntax::item_in(c, ranges[k].start as int, ranges[k].end as int),
    ensures
        renumber::counters(b, ranges) == renumber::counters(c, ranges),
        renumber::number_edits(b, ranges) == renumber::number_edits(c, ranges),
    decreases ranges.len(),
{
    if ranges.len() > 0 {
        let rest = ranges.drop_last();
        assert forall|k: int| 0 <= k < rest.len() implies syntax::item_in(
            b,
            (#[trigger] rest[k]).start as int,
            rest[k].end as int,
        ) == syntax::item_in(c, rest[k].start as int, rest[k].end as int) by {
            assert(rest[k] == ranges[k]);
        }
        lemma_counting_alike(b, c, rest);
        assert(ranges.last() == ranges[ranges.len() - 1]);
    }
}

// ---------------------------------------------------------------------------------------------
// The text, paragraph by paragraph

/// The text up to the end of the first `k` paragraphs, renumbered.
pub open spec fn renumbered_up_to(b: Seq<u8>, k: int) -> Seq<u8> {
    let p = syntax::paragraphs(b);
    edit::applied(b.take(p[k - 1].end as int), 0, renumber::number_edits(b, p.take(k)))
}

/// Text without newlines is one paragraph.
proof fn lemma_single_paragraph(q: Seq<u8>)
    requires
        forall|i: int| 0 <= i < q.len() ==> #[trigger] q[i] != 0x0a,
    ensures
        syntax::paragraphs(q) == seq![Range { start: 0usize, end: q.len() as usize }],
{
    syntax::lemma_para_end_unique(q, 0, q.len() as int);
    assert(syntax::paragraphs(q) =~= seq![Range { start: 0usize, end: q.len() as usize }]);
}

/// A newline and text without newlines add a paragraph.
proof fn lemma_added_paragraph(t: Seq<u8>, q: Seq<u8>, start: int)
    requires
        0 <= start <= t.len(),
        forall|i: int| 0 <= i < q.len() ==> #[trigger] q[i] != 0x0a,
    ensures
        syntax::paragraphs_from(t + seq![0x0au8] + q, start) == syntax::paragraphs_from(
            t,
            start,
        ).push(
            Range {
                start: (t.len() + 1) as usize,
                end: (t.len() + 1 + q.len()) as usize,
            },
        ),
    decreases t.len() - start,
{
    let c = t + seq![0x0au8] + q;
    let end = syntax::para_end(t, start);
    syntax::lemma_para_end(t, start);
    assert forall|i: int| start <= i < end implies c[i] != 0x0a by {
        assert(t[i] == c[i]);
    }
    syntax::lemma_para_end_unique(c, start, end);
    let last = Range { start: (t.len() + 1) as usize, end: (t.len() + 1 + q.len()) as usize };
    let first = seq![Range { start: start as usize, end: end as usize }];
    if end < t.len() {
        lemma_added_paragraph(t, q, end + 1);
        assert(first + syntax::paragraphs_from(t, end + 1).push(last) =~= (first
            + syntax::paragraphs_from(t, end + 1)).push(last));
    } else {
        assert forall|i: int| t.len() + 1 <= i < c.len() implies c[i] != 0x0a by {
            assert(c[i] == q[i - t.len() - 1]);
        }
        syntax::lemma_para_end_unique(c, t.len() + 1int, c.len() as int);
        assert(syntax::paragraphs_from(c, t.len() + 1int) =~= seq![last]);
        assert(first + seq![last] =~= first.push(last));
    }
}

/// Edits inside the paragraphs in front leave the following paragraph as it is.
proof fn lemma_number_edits_in_order(b: Seq<u8>, k: int)
    requires
        valid_utf8(b),
        b.len() <= usize::MAX,
        1 <= k <= syntax::paragraphs(b).len(),
    ensures
        ({
            let p = syntax::paragraphs(b);
            let edits = renumber::number_edits(b, p.take(k));
            &&& syntax::is_paragraph(b, p[k - 1])
            &&& edit::edits_in_order(b, 0, edits)
            &&& forall|j: int| 0 <= j < edits.len() ==> (#[trigger] edits[j]).end <= p[k - 1].end
        }),
{
    let p = syntax::paragraphs(b);
    let edits = renumber::number_edits(b, p.take(k));
    syntax::lemma_paragraphs(b);
    assert forall|j: int| 0 <= j < k implies syntax::is_paragraph(b, #[trigger] p.take(k)[j]) by {
        assert(p.take(k)[j] == p[j]);
    }
    assert forall|i: int, j: int| 0 <= i < j < k implies (#[trigger] p.take(k)[i]).end < (
    #[trigger] p.take(k)[j]).start by {
        assert(p.take(k)[i] == p[i]);
        assert(p.take(k)[j] == p[j]);
    }
    renumber::lemma_number_edits(b, p.take(k));
    assert(p.take(k).last() == p[k - 1]);
    assert forall|j: int| 0 <= j < edits.len() implies 0 <= (#[trigger] edits[j]).start
        <= edits[j].end <= b.len() by {
        assert(edits[j].fits(b));
    }
}

/// The first paragraph of the renumbered text.
proof fn lemma_first_paragraph(b: Seq<u8>)
    requires
        valid_utf8(b),
        b.len() <= usize::MAX,
    ensures
        renumbered_up_to(b, 1) == new_paragraph(b, Seq::empty(), syntax::paragraphs(b)[0]),
{
    let p = syntax::paragraphs(b);
    let r = p[0];
    syntax::lemma_paragraphs(b);
    lemma_number_edits_in_order(b, 1);
    let head = b.take(r.end as int);
    assert(p.take(1).drop_last() =~= Seq::<Range<usize>>::empty());
    assert(p.take(1).last() == r);
    assert(head =~= b.subrange(0, r.end as int));
    let edits = renumber::number_edits(b, p.take(1));
    assert(renumber::number_edits(b, p.take(1).drop_last()) =~= Seq::<Edit>::empty());
    assert(renumber::counters(b, p.take(1).drop_last()) =~= Seq::<Option<u32>>::empty());
    syntax::lemma_item_in(b, 0, r.end as int);
    if edits.len() == 0 {
        assert(head.subrange(0, head.len() as int) =~= head);
    } else {
        let e = edits[0];
        assert(edits.drop_first() =~= Seq::<Edit>::empty());
        assert(edit::applied(head, e.end, edits.drop_first()) == head.subrange(
            e.end,
            head.len() as int,
        ));
        assert(edit::applied(head, 0, edits) =~= bytes::splice(head, e.start, e.end, e.text));
    }
}

/// The following paragraphs of the renumbered text.
proof fn lemma_next_paragraph(b: Seq<u8>, k: int)
    requires
        valid_utf8(b),
        b.len() <= usize::MAX,
        1 <= k < syntax::paragraphs(b).len(),
    ensures
        renumbered_up_to(b, k + 1) == renumbered_up_to(b, k) + seq![0x0au8] + new_paragraph(
            b,
            renumber::counters(b, syntax::paragraphs(b).take(k)),
            syntax::paragraphs(b)[k],
        ),
{
    let p = syntax::paragraphs(b);
    let r = p[k];
    let s = r.start as int;
    let e = r.end as int;
    let cut = p[k - 1].end as int;
    syntax::lemma_paragraphs(b);
    lemma_number_edits_in_order(b, k);
    lemma_number_edits_in_order(b, k + 1);
    assert(p[k - 1].end + 1 == p[k].start);
    let edits = renumber::number_edits(b, p.take(k));
    assert(p.take(k + 1).drop_last() =~= p.take(k));
    assert(p.take(k + 1).last() == r);
    let counters = renumber::counters(b, p.take(k));
    assert(b[s - 1] == 0x0a);
    match syntax::item_in(b, s, e) {
        None => {
            lemma_next_kept(b, edits, cut, e);
        },
        Some(item) => match renumber::number_edit(counters, item) {
            None => {
                lemma_next_kept(b, edits, cut, e);
            },
            Some(edit) => {
                syntax::lemma_item_in(b, s, e);
                lemma_next_changed(b, edits, cut, e, edit);
            },
        },
    }
}

proof fn lemma_next_kept(b: Seq<u8>, edits: Seq<Edit>, cut: int, e: int)
    requires
        edit::edits_in_order(b, 0, edits),
        forall|j: int| 0 <= j < edits.len() ==> (#[trigger] edits[j]).end <= cut,
        0 <= cut < e <= b.len(),
        b[cut] == 0x0a,
    ensures
        edit::applied(b.take(e), 0, edits) == edit::applied(b.take(cut), 0, edits) + seq![0x0au8]
            + b.subrange(cut + 1, e),
{
    let head = b.take(e);
    edit::lemma_applied_tail(head, 0, edits, cut);
    assert(head.take(cut) =~= b.take(cut));
    assert(head.subrange(cut, e) =~= seq![0x0au8] + b.subrange(cut + 1, e));
    assert(edit::applied(head, 0, edits) =~= edit::applied(b.take(cut), 0, edits) + seq![0x0au8]
        + b.subrange(cut + 1, e));
}

proof fn lemma_next_changed(b: Seq<u8>, edits: Seq<Edit>, cut: int, e: int, edit: Edit)
    requires
        edit::edits_in_order(b, 0, edits),
        forall|j: int| 0 <= j < edits.len() ==> (#[trigger] edits[j]).end <= cut,
        0 <= cut < e <= b.len(),
        b[cut] == 0x0a,
        cut < edit.start <= edit.end <= e,
    ensures
        edit::applied(b.take(e), 0, edits.push(edit)) == edit::applied(b.take(cut), 0, edits)
            + seq![0x0au8] + bytes::splice(
            b.subrange(cut + 1, e),
            edit.start - (cut + 1),
            edit.end - (cut + 1),
            edit.text,
        ),
{
    let head = b.take(e);
    let all = edits.push(edit);
    assert forall|j: int| 0 <= j < all.len() implies 0 <= (#[trigger] all[j]).start <= all[j].end
        <= head.len() by {
        if j < edits.len() {
            assert(all[j] == edits[j]);
        }
    }
    assert forall|i: int, j: int| 0 <= i < j < all.len() implies (#[trigger] all[i]).end <= (
    #[trigger] all[j]).start by {
        assert(all[i] == edits[i]);
        if j < edits.len() {
            assert(all[j] == edits[j]);
        }
    }
    edit::lemma_applied_last(head, 0, all);
    assert(all.drop_last() =~= edits);
    let after = bytes::splice(head, edit.start, edit.end, edit.text);
    assert(after.take(cut) =~= b.take(cut));
    edit::lemma_applied_tail(after, 0, edits, cut);
    let q = bytes::splice(
        b.subrange(cut + 1, e),
        edit.start - (cut + 1),
        edit.end - (cut + 1),
        edit.text,
    );
    assert(after.subrange(cut, after.len() as int) =~= seq![0x0au8] + q);
    assert(edit::applied(after, 0, edits) =~= edit::applied(b.take(cut), 0, edits) + seq![0x0au8]
        + q);
}

/// Whether all numbers in the text are as they should be, and counting them again tells nothing
/// that the given counters do not know.
pub open spec fn settled(t: Seq<u8>, counters: Seq<Option<u32>>) -> bool {
    let p = syntax::paragraphs(t);
    &&& renumber::number_edits(t, p).len() == 0
    &&& known_to(renumber::counters(t, p), counters)
    &&& forall|j: int| 0 <= j < p.len() ==> (#[trigger] p[j]).start <= p[j].end <= t.len()
}

proof fn lemma_settled_first(b: Seq<u8>, r: Range<usize>, q: Seq<u8>)
    requires
        valid_utf8(b),
        b.len() <= usize::MAX,
        syntax::is_paragraph(b, r),
        q == new_paragraph(b, Seq::empty(), r),
        q.len() <= usize::MAX,
    ensures
        settled(
            q,
            renumber::counters_after(
                Seq::empty(),
                syntax::item_in(b, r.start as int, r.end as int),
            ),
        ),
{
    let item = syntax::item_in(b, r.start as int, r.end as int);
    let p = syntax::paragraphs(q);
    assert(q.subrange(0, 0int + q.len()) =~= q);
    lemma_new_paragraph(b, Seq::empty(), r, q, q, 0);
    lemma_single_paragraph(q);
    assert(p.drop_last() =~= Seq::<Range<usize>>::empty());
    lemma_counting_again(Seq::empty(), Seq::empty(), item, syntax::item_in(q, 0, q.len() as int));
    assert(renumber::counters(q, p.drop_last()) == Seq::<Option<u32>>::empty());
    assert(renumber::number_edits(q, p.drop_last()) == Seq::<Edit>::empty());
}

proof fn lemma_settled_next(
    b: Seq<u8>,
    counters: Seq<Option<u32>>,
    r: Range<usize>,
    t: Seq<u8>,
    q: Seq<u8>,
)
    requires
        valid_utf8(b),
        b.len() <= usize::MAX,
        syntax::is_paragraph(b, r),
        q == new_paragraph(b, counters, r),
        settled(t, counters),
        t.len() + 1 + q.len() <= usize::MAX,
    ensures
        settled(
            t + seq![0x0au8] + q,
            renumber::counters_after(
                counters,
                syntax::item_in(b, r.start as int, r.end as int),
            ),
        ),
{
    let item = syntax::item_in(b, r.start as int, r.end as int);
    let c = t + seq![0x0au8] + q;
    let at = t.len() + 1int;
    let p = syntax::paragraphs(c);
    let front = syntax::paragraphs(t);
    assert(c.subrange(at, at + q.len()) =~= q);
    lemma_new_paragraph(b, counters, r, q, c, at);
    lemma_added_paragraph(t, q, 0);
    let last = Range { start: at as usize, end: (at + q.len()) as usize };
    assert(p == front.push(last));
    assert(p.drop_last() =~= front);
    assert(p.last() == last);
    // The paragraphs in front read as before.
    assert forall|j: int| 0 <= j < front.len() implies syntax::item_in(
        t,
        (#[trigger] front[j]).start as int,
        front[j].end as int,
    ) == syntax::item_in(c, front[j].start as int, front[j].end as int) by {
        lemma_item_in_prefix(t, c, front[j].start as int, front[j].end as int);
    }
    lemma_counting_alike(t, c, front);
    lemma_counting_again(
        renumber::counters(t, front),
        counters,
        item,
        syntax::item_in(c, at, at + q.len()),
    );
    assert forall|j: int| 0 <= j < p.len() implies (#[trigger] p[j]).start <= p[j].end
        <= c.len() by {
        if j < front.len() {
            assert(p[j] == front[j]);
        }
    }
}

/// What was renumbered is numbered as it should be.
proof fn lemma_renumbered_up_to(b: Seq<u8>, k: int)
    requires
        valid_utf8(b),
        b.len() <= usize::MAX,
        1 <= k <= syntax::paragraphs(b).len(),
        renumbered_up_to(b, k).len() <= usize::MAX,
    ensures
        settled(
            renumbered_up_to(b, k),
            renumber::counters(b, syntax::paragraphs(b).take(k)),
        ),
    decreases k,
{
    let ranges = syntax::paragraphs(b);
    let r = ranges[k - 1];
    syntax::lemma_paragraphs(b);
    assert(syntax::is_paragraph(b, ranges[k - 1]));
    assert(ranges.take(k).drop_last() =~= ranges.take(k - 1));
    assert(ranges.take(k).last() == r);
    let counters = renumber::counters(b, ranges.take(k - 1));
    let q = new_paragraph(b, counters, r);
    if k == 1 {
        lemma_first_paragraph(b);
        assert(ranges.take(0) =~= Seq::<Range<usize>>::empty());
        assert(counters == Seq::<Option<u32>>::empty());
        lemma_settled_first(b, r, q);
    } else {
        let t = renumbered_up_to(b, k - 1);
        lemma_next_paragraph(b, k - 1);
        lemma_renumbered_up_to(b, k - 1);
        lemma_settled_next(b, counters, r, t, q);
    }
}

/// The renumbered text has the paragraphs of the text, with their new numbers.
proof fn lemma_renumbered_paragraphs(b: Seq<u8>, k: int)
    requires
        valid_utf8(b),
        b.len() <= usize::MAX,
        1 <= k <= syntax::paragraphs(b).len(),
        renumbered_up_to(b, k).len() <= usize::MAX,
    ensures
        syntax::paragraphs(renumbered_up_to(b, k)).len() == k,
        forall|j: int|
            0 <= j < k ==> (#[trigger] syntax::paragraphs(renumbered_up_to(b, k))[j]).start
                <= syntax::paragraphs(renumbered_up_to(b, k))[j].end <= renumbered_up_to(b, k).len(),
        forall|j: int|
            0 <= j < k ==> #[trigger] paragraph(renumbered_up_to(b, k), j) == new_paragraph(
                b,
                renumber::counters(b, syntax::paragraphs(b).take(j)),
                syntax::paragraphs(b)[j],
            ),
    decreases k,
{
    let ranges = syntax::paragraphs(b);
    let r = ranges[k - 1];
    let c = renumbered_up_to(b, k);
    syntax::lemma_paragraphs(b);
    assert(syntax::is_paragraph(b, ranges[k - 1]));
    let counters = renumber::counters(b, ranges.take(k - 1));
    let q = new_paragraph(b, counters, r);
    if k == 1 {
        lemma_first_paragraph(b);
        assert(ranges.take(0) =~= Seq::<Range<usize>>::empty());
        assert(counters == Seq::<Option<u32>>::empty());
        assert(q.subrange(0, 0int + q.len()) =~= q);
        lemma_new_paragraph(b, Seq::empty(), r, q, q, 0);
        lemma_single_paragraph(q);
    } else {
        let t = renumbered_up_to(b, k - 1);
        lemma_next_paragraph(b, k - 1);
        lemma_renumbered_paragraphs(b, k - 1);
        let at = t.len() + 1int;
        assert(c.subrange(at, at + q.len()) =~= q);
        lemma_new_paragraph(b, counters, r, q, c, at);
        lemma_added_paragraph(t, q, 0);
        let front = syntax::paragraphs(t);
        let p = syntax::paragraphs(c);
        assert(p[k - 1] == Range { start: at as usize, end: (at + q.len()) as usize });
        assert forall|j: int| 0 <= j < k - 1 implies #[trigger] paragraph(c, j) == paragraph(
            t,
            j,
        ) by {
            assert(p[j] == front[j]);
            assert(paragraph(c, j) =~= paragraph(t, j));
        }
        assert forall|j: int| 0 <= j < k implies (#[trigger] p[j]).start <= p[j].end <= c.len() by {
            if j < k - 1 {
                assert(p[j] == front[j]);
            }
        }
    }
}

/// Text that is added behind a paragraph does not change how it reads.
proof fn lemma_item_in_prefix(t: Seq<u8>, c: Seq<u8>, s: int, e: int)
    requires
        t.len() <= c.len() <= usize::MAX,
        forall|i: int| #![trigger t[i]] #![trigger c[i]] 0 <= i < t.len() ==> t[i] == c[i],
        0 <= s <= e <= t.len(),
    ensures
        syntax::item_in(t, s, e) == syntax::item_in(c, s, e),
{
    assert forall|k: int| s <= k < e implies #[trigger] t[k] == c[k + 0] by {}
    let ms = syntax::tabs_end(t, s, e);
    syntax::lemma_tabs_end(t, s, e);
    syntax::lemma_tabs_end_unique(c, s, e, ms);
    let de = syntax::digits_end(t, ms, e);
    syntax::lemma_digits_end(t, ms, e);
    syntax::lemma_digits_end_unique(c, ms, e, de);
    lemma_decimal_value_shift(t, ms, de, c, 0);
}

// ---------------------------------------------------------------------------------------------
// Laws

/// After lists were renumbered all numbers are as they should be, so renumbering them again changes
/// nothing.
pub proof fn law_renumbering_again_changes_nothing(m: EditModel)
    requires
        valid_utf8(m.text),
        m.text.len() <= usize::MAX,
        m.renumbered().text.len() <= usize::MAX,
    ensures
        renumber::number_edits(
            m.renumbered().text,
            syntax::paragraphs(m.renumbered().text),
        ).len() == 0,
        m.renumbered().renumbered() == m.renumbered(),
{
    let b = m.text;
    let p = syntax::paragraphs(b);
    let n = p.len() as int;
    syntax::lemma_paragraphs(b);
    renumber::lemma_number_edits(b, p);
    edit::lemma_edited_all_text(m, renumber::number_edits(b, p));
    assert(p.take(n) =~= p);
    assert(b.take(p[n - 1].end as int) =~= b);
    lemma_renumbered_up_to(b, n);
}

/// Renumbering leaves paragraphs that are no items as they are.
pub proof fn law_only_items_are_renumbered(m: EditModel, k: int)
    requires
        valid_utf8(m.text),
        m.text.len() <= usize::MAX,
        m.renumbered().text.len() <= usize::MAX,
        0 <= k < syntax::paragraphs(m.text).len(),
        item_of(m.text, k) is None,
    ensures
        syntax::paragraphs(m.renumbered().text).len() == syntax::paragraphs(m.text).len(),
        paragraph(m.renumbered().text, k) == paragraph(m.text, k),
{
    lemma_renumbered_paragraph(m, k);
}

pub proof fn lemma_renumbered_paragraph(m: EditModel, k: int)
    requires
        valid_utf8(m.text),
        m.text.len() <= usize::MAX,
        m.renumbered().text.len() <= usize::MAX,
        0 <= k < syntax::paragraphs(m.text).len(),
    ensures
        syntax::paragraphs(m.renumbered().text).len() == syntax::paragraphs(m.text).len(),
        paragraph(m.renumbered().text, k) == new_paragraph(
            m.text,
            renumber::counters(m.text, syntax::paragraphs(m.text).take(k)),
            syntax::paragraphs(m.text)[k],
        ),
{
    let b = m.text;
    let p = syntax::paragraphs(b);
    let n = p.len() as int;
    syntax::lemma_paragraphs(b);
    renumber::lemma_number_edits(b, p);
    edit::lemma_edited_all_text(m, renumber::number_edits(b, p));
    assert(p.take(n) =~= p);
    assert(b.take(p[n - 1].end as int) =~= b);
    lemma_renumbered_paragraphs(b, n);
}

/// The items of a numbered list are numbered consecutively: an item has the number that follows that
/// of the previous item of its level, with nothing but deeper items in between.
pub proof fn law_lists_are_numbered_consecutively(m: EditModel, j: int, k: int)
    requires
        valid_utf8(m.text),
        m.text.len() <= usize::MAX,
        m.renumbered().text.len() <= usize::MAX,
        0 <= j < k < syntax::paragraphs(m.renumbered().text).len(),
        item_of(m.renumbered().text, j) matches Some(x) && x.marker is Number,
        item_of(m.renumbered().text, k) matches Some(y) && y.marker is Number,
        item_of(m.renumbered().text, j)->0.level == item_of(m.renumbered().text, k)->0.level,
        forall|i: int|
            j < i < k ==> (#[trigger] item_of(m.renumbered().text, i) matches Some(z) && z.level
                > item_of(m.renumbered().text, j)->0.level),
    ensures
        item_of(m.renumbered().text, k)->0.marker->n == item_of(
            m.renumbered().text,
            j,
        )->0.marker->n + 1,
{
    let t = m.renumbered().text;
    let p = syntax::paragraphs(t);
    law_renumbering_again_changes_nothing(m);
    lemma_renumbered_valid(m);
    syntax::lemma_paragraphs(t);
    assert(syntax::is_paragraph(t, p[j]));
    syntax::lemma_item_in(t, p[j].start as int, p[j].end as int);
    lemma_counter_behind(t, j, k);
    lemma_no_number_edits(t, p, k + 1);
    assert(p.take(k + 1).drop_last() =~= p.take(k));
    assert(p.take(k + 1).last() == p[k]);
}

/// The list item that a paragraph is, if it is one.
pub open spec fn item_of(t: Seq<u8>, k: int) -> Option<ListItem> {
    let r = syntax::paragraphs(t)[k];
    syntax::item_in(t, r.start as int, r.end as int)
}

/// The bytes of a paragraph.
pub open spec fn paragraph(t: Seq<u8>, k: int) -> Seq<u8> {
    let r = syntax::paragraphs(t)[k];
    t.subrange(r.start as int, r.end as int)
}

/// Deeper items leave the counter of a level as it is.
proof fn lemma_counter_behind(t: Seq<u8>, j: int, k: int)
    requires
        renumber::number_edits(t, syntax::paragraphs(t)).len() == 0,
        0 <= j < k <= syntax::paragraphs(t).len(),
        item_of(t, j) matches Some(x) && x.marker is Number,
        forall|i: int|
            j < i < k ==> (#[trigger] item_of(t, i) matches Some(z) && z.level > item_of(
                t,
                j,
            )->0.level),
    ensures
        ({
            let x = item_of(t, j)->0;
            let counters = renumber::counters(t, syntax::paragraphs(t).take(k));
            counters.len() > x.level && counters[x.level as int] == Some(x.marker->n)
        }),
    decreases k - j,
{
    let p = syntax::paragraphs(t);
    assert(p.take(k).drop_last() =~= p.take(k - 1));
    assert(p.take(k).last() == p[k - 1]);
    if k == j + 1 {
        lemma_no_number_edits(t, p, k);
    } else {
        lemma_counter_behind(t, j, k - 1);
        assert(item_of(t, k - 1) is Some);
    }
}

/// Lists can start at any number: the first item of a list keeps its number. In front of it, apart
/// from deeper items, stands nothing, a paragraph that is no item, an item of a smaller level, or an
/// item of its level with a bullet.
pub proof fn law_the_first_item_keeps_its_number(m: EditModel, j: int, k: int)
    requires
        valid_utf8(m.text),
        m.text.len() <= usize::MAX,
        m.renumbered().text.len() <= usize::MAX,
        -1 <= j < k < syntax::paragraphs(m.text).len(),
        item_of(m.text, k) is Some,
        j == -1 || starts_a_list(item_of(m.text, j), item_of(m.text, k)->0.level as int),
        forall|i: int|
            j < i < k ==> (#[trigger] item_of(m.text, i) matches Some(z) && z.level > item_of(
                m.text,
                k,
            )->0.level),
    ensures
        paragraph(m.renumbered().text, k) == paragraph(m.text, k),
{
    lemma_no_counter_behind(m.text, j, k, item_of(m.text, k)->0.level as int);
    lemma_renumbered_paragraph(m, k);
}

/// Whether a list of the given level can start behind such a paragraph.
pub open spec fn starts_a_list(before: Option<ListItem>, level: int) -> bool {
    match before {
        None => true,
        Some(item) => item.level < level || item.level == level && item.marker is Bullet,
    }
}

/// Deeper items do not start the counter of a level.
proof fn lemma_no_counter_behind(t: Seq<u8>, j: int, k: int, level: int)
    requires
        0 <= level,
        -1 <= j < k <= syntax::paragraphs(t).len(),
        j == -1 || starts_a_list(item_of(t, j), level),
        forall|i: int|
            j < i < k ==> (#[trigger] item_of(t, i) matches Some(z) && z.level > level),
    ensures
        ({
            let counters = renumber::counters(t, syntax::paragraphs(t).take(k));
            counters.len() > level ==> counters[level] is None
        }),
    decreases k - j,
{
    let p = syntax::paragraphs(t);
    if k > 0 {
        assert(p.take(k).drop_last() =~= p.take(k - 1));
        assert(p.take(k).last() == p[k - 1]);
        if j < k - 1 {
            lemma_no_counter_behind(t, j, k - 1, level);
            assert(item_of(t, k - 1) is Some);
        }
    }
}

proof fn lemma_renumbered_valid(m: EditModel)
    requires
        valid_utf8(m.text),
        m.text.len() <= usize::MAX,
    ensures
        valid_utf8(m.renumbered().text),
{
    syntax::lemma_paragraphs(m.text);
    renumber::lemma_number_edits(m.text, syntax::paragraphs(m.text));
    edit::lemma_edited_all_text(m, renumber::number_edits(m.text, syntax::paragraphs(m.text)));
}

proof fn lemma_no_number_edits(b: Seq<u8>, ranges: Seq<Range<usize>>, k: int)
    requires
        renumber::number_edits(b, ranges).len() == 0,
        0 <= k <= ranges.len(),
    ensures
        renumber::number_edits(b, ranges.take(k)).len() == 0,
    decreases ranges.len(),
{
    if k == ranges.len() {
        assert(ranges.take(k) =~= ranges);
    } else {
        lemma_no_number_edits(b, ranges.drop_last(), k);
        assert(ranges.drop_last().take(k) =~= ranges.take(k));
    }
}

/// Once lists are up to date, no automatic line break is left, and bringing them up to date again
/// does not change the text.
pub proof fn law_updating_again_changes_no_text(m: EditModel)
    requires
        valid_utf8(m.text),
        m.text.len() <= usize::MAX,
        m.relaid().text.len() <= usize::MAX,
    ensures
        !softbreak::has_soft_break(m.relaid().text),
        m.relaid().relaid() == m.relaid().with_merged_attrs(),
{
    let stripped = m.without_soft_breaks().with_merged_attrs();
    renumber::law_removing_soft_breaks_strips_the_text(m);
    softbreak::law_stripped_text_has_no_soft_breaks(m.text);
    renumber::lemma_removals(m.text);
    edit::lemma_edited_all_text(m, renumber::removals(softbreak::soft_breaks(m.text)));
    softbreak::lemma_stripped_len(m.text, 0);
    let edits = renumber::number_edits(stripped.text, syntax::paragraphs(stripped.text));
    syntax::lemma_paragraphs(stripped.text);
    renumber::lemma_number_edits(stripped.text, syntax::paragraphs(stripped.text));
    lemma_number_edits_ascii(stripped.text, syntax::paragraphs(stripped.text));
    lemma_ascii_edits_make_no_soft_breaks(stripped, edits);
    law_renumbering_again_changes_nothing(stripped);
    let n = m.relaid();
    softbreak::lemma_no_soft_breaks(n.text, 0);
    assert(renumber::removals(softbreak::soft_breaks(n.text)) =~= Seq::<Edit>::empty());
    assert(n.without_soft_breaks() == n);
}

/// Whether an edit puts in some characters, all of them ASCII.
spec fn puts_ascii(e: Edit) -> bool {
    &&& e.text.len() > 0
    &&& forall|i: int| 0 <= i < e.text.len() ==> #[trigger] e.text[i] < 0x80
}

proof fn lemma_number_edits_ascii(b: Seq<u8>, ranges: Seq<Range<usize>>)
    requires
        valid_utf8(b),
        b.len() <= usize::MAX,
        forall|k: int| 0 <= k < ranges.len() ==> syntax::is_paragraph(b, #[trigger] ranges[k]),
    ensures
        forall|k: int|
            0 <= k < renumber::number_edits(b, ranges).len() ==> puts_ascii(
                #[trigger] renumber::number_edits(b, ranges)[k],
            ),
    decreases ranges.len(),
{
    if ranges.len() > 0 {
        let r = ranges.last();
        let rest = ranges.drop_last();
        assert(syntax::is_paragraph(b, ranges[ranges.len() - 1]));
        assert forall|k: int| 0 <= k < rest.len() implies syntax::is_paragraph(
            b,
            #[trigger] rest[k],
        ) by {
            assert(rest[k] == ranges[k]);
        }
        lemma_number_edits_ascii(b, rest);
        syntax::lemma_item_in(b, r.start as int, r.end as int);
        if let Some(item) = syntax::item_in(b, r.start as int, r.end as int) {
            let counters = renumber::counters(b, rest);
            if let Some(e) = renumber::number_edit(counters, item) {
                let w = renumber::wanted_number(
                    renumber::counters_up_to(counters, item.level as int)[item.level as int],
                    item.marker->n,
                );
                let delim = item.marker->delim;
                law_numbers_are_read_as_written(w as nat);
                let digits = encode_utf8(marker::decimal(w as nat));
                bytes::lemma_encode_concat(marker::decimal(w as nat), seq![delim]);
                bytes::lemma_encode_one(delim);
                bytes::lemma_utf8_ascii(delim);
                assert(marker::decimal(w as nat).push(delim) =~= marker::decimal(w as nat)
                    + seq![delim]);
                assert(e.text == digits + seq![delim as u8]);
                assert forall|i: int| 0 <= i < e.text.len() implies #[trigger] e.text[i]
                    < 0x80 by {
                    if i < digits.len() {
                        assert(e.text[i] == digits[i]);
                        assert(syntax::is_digit(digits[i]));
                    }
                }
                assert(puts_ascii(e));
            }
        }
        let before = renumber::number_edits(b, rest);
        let all = renumber::number_edits(b, ranges);
        assert forall|k: int| 0 <= k < all.len() implies puts_ascii(#[trigger] all[k]) by {
            if k < before.len() {
                assert(all[k] == before[k]);
            }
        }
    }
}

proof fn lemma_ascii_edits_make_no_soft_breaks(m: EditModel, edits: Seq<Edit>)
    requires
        valid_utf8(m.text),
        edit::edits_fit(m.text, edits),
        forall|k: int| 0 <= k < edits.len() ==> puts_ascii(#[trigger] edits[k]),
        !softbreak::has_soft_break(m.text),
    ensures
        !softbreak::has_soft_break(m.edited_all(edits).text),
    decreases edits.len(),
{
    if edits.len() > 0 {
        let e = edits.last();
        let after = m.edited(e);
        let rest = edits.drop_last();
        assert(edits[edits.len() - 1].fits(m.text));
        assert(puts_ascii(edits[edits.len() - 1]));
        bytes::lemma_splice(m.text, e.start, e.end, e.text);
        edit::lemma_edits_fit_rest(m.text, edits);
        assert forall|k: int| 0 <= k < rest.len() implies puts_ascii(#[trigger] rest[k]) by {
            assert(rest[k] == edits[k]);
        }
        let t = after.text;
        assert forall|i: int| !#[trigger] syntax::soft_break_at(t, i) by {
            if syntax::soft_break_at(t, i) {
                let d = e.text.len() - (e.end - e.start);
                assert forall|k: int| e.start <= k < e.start + e.text.len() implies t[k] < 0x80 by {
                    assert(t[k] == e.text[k - e.start]);
                }
                if i < e.start {
                    assert(i + 2 < e.start) by {
                        if i + 1 >= e.start {
                            assert(t[i + 1] < 0x80);
                        } else if i + 2 >= e.start {
                            assert(t[i + 2] < 0x80);
                        }
                    }
                    assert(t[i] == m.text[i]);
                    assert(t[i + 1] == m.text[i + 1]);
                    assert(t[i + 2] == m.text[i + 2]);
                    assert(syntax::soft_break_at(m.text, i));
                } else if i < e.start + e.text.len() {
                    assert(t[i] < 0x80);
                } else {
                    assert(t[i] == m.text[i - d]);
                    assert(t[i + 1] == m.text[i + 1 - d]);
                    assert(t[i + 2] == m.text[i + 2 - d]);
                    assert(syntax::soft_break_at(m.text, i - d));
                }
            }
        }
        lemma_ascii_edits_make_no_soft_breaks(after, rest);
    }
}

} // verus!
