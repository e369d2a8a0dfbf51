//! Automatic line breaks and the indentation behind them.

use crate::bytes;
use crate::syntax;
use std::ops::Range;
use vstd::prelude::*;
use vstd::utf8::*;

verus! {

broadcast use syntax::group_char_bytes;

/// End of the spaces and hair spaces from `i` on.
pub open spec fn indent_end(b: Seq<u8>, i: int) -> int
    decreases b.len() - i,
{
    if 0 <= i < b.len() && b[i] == 0x20 {
        indent_end(b, i + 1)
    } else if 0 <= i < b.len() && syntax::hair_at(b, i) {
        indent_end(b, i + 3)
    } else {
        i
    }
}

/// Start of the spaces and hair spaces in front of `i`.
pub open spec fn indent_start(b: Seq<u8>, i: int) -> int
    decreases i,
{
    if 0 < i <= b.len() && b[i - 1] == 0x20 {
        indent_start(b, i - 1)
    } else if 3 <= i <= b.len() && syntax::hair_at(b, i - 3) {
        indent_start(b, i - 3)
    } else {
        i
    }
}

/// The automatic line break with its indentation, if `pos` lies behind the break.
pub open spec fn soft_break_around(b: Seq<u8>, pos: int) -> Option<Range<usize>> {
    let s = indent_start(b, pos);
    if s >= 3 && syntax::soft_break_at(b, s - 3) {
        Some(Range { start: (s - 3) as usize, end: indent_end(b, pos) as usize })
    } else {
        None
    }
}

/// The automatic line breaks with their indentation from `i` on.
pub open spec fn soft_breaks_from(b: Seq<u8>, i: int) -> Seq<Range<usize>>
    decreases b.len() - i,
{
    if i < 0 || i >= b.len() {
        Seq::empty()
    } else if syntax::soft_break_at(b, i) {
        seq![Range { start: i as usize, end: indent_end(b, i + 3) as usize }] + soft_breaks_from(
            b,
            i + 3,
        )
    } else {
        soft_breaks_from(b, i + 1)
    }
}

/// All automatic line breaks with their indentation.
pub open spec fn soft_breaks(b: Seq<u8>) -> Seq<Range<usize>> {
    soft_breaks_from(b, 0)
}

/// What goes with the text `b` from `i` on, without that of automatic line breaks and their
/// indentation: `s` holds something for each byte.
pub open spec fn stripped_along<T>(b: Seq<u8>, s: Seq<T>, i: int) -> Seq<T>
    decreases b.len() - i,
{
    if i < 0 || i >= b.len() {
        Seq::empty()
    } else if syntax::soft_break_at(b, i) {
        proof {
            lemma_indent_end(b, i + 3);
        }
        stripped_along(b, s, indent_end(b, i + 3))
    } else {
        seq![s[i]] + stripped_along(b, s, i + 1)
    }
}

/// The text from `i` on without automatic line breaks and their indentation.
pub open spec fn stripped_from(b: Seq<u8>, i: int) -> Seq<u8> {
    stripped_along(b, b, i)
}

/// The text without automatic line breaks and their indentation.
pub open spec fn stripped(b: Seq<u8>) -> Seq<u8> {
    stripped_from(b, 0)
}

/// Whether an automatic line break is left in the text.
pub open spec fn has_soft_break(b: Seq<u8>) -> bool {
    exists|i: int| syntax::soft_break_at(b, i)
}

pub proof fn lemma_indent_end(b: Seq<u8>, i: int)
    requires
        0 <= i <= b.len(),
    ensures
        i <= indent_end(b, i) <= b.len(),
        forall|j: int| i <= j < indent_end(b, i) ==> !#[trigger] syntax::soft_break_at(b, j),
        forall|j: int| i <= j < indent_end(b, i) ==> b[j] != 0x0a,
        indent_end(b, indent_end(b, i)) == indent_end(b, i),
    decreases b.len() - i,
{
    if i < b.len() && b[i] == 0x20 {
        lemma_indent_end(b, i + 1);
    } else if i < b.len() && syntax::hair_at(b, i) {
        lemma_indent_end(b, i + 3);
    }
}

pub proof fn lemma_indent_end_boundary(b: Seq<u8>, i: int)
    requires
        valid_utf8(b),
        bytes::at_boundary(b, i),
    ensures
        bytes::at_boundary(b, indent_end(b, i)),
    decreases b.len() - i,
{
    if i < b.len() && b[i] == 0x20 {
        bytes::lemma_step(b, i);
        lemma_indent_end_boundary(b, i + 1);
    } else if i < b.len() && syntax::hair_at(b, i) {
        bytes::lemma_step(b, i);
        lemma_indent_end_boundary(b, i + 3);
    }
}

pub proof fn lemma_indent_start(b: Seq<u8>, i: int)
    requires
        0 <= i <= b.len(),
    ensures
        0 <= indent_start(b, i) <= i,
        forall|j: int| indent_start(b, i) <= j < i ==> b[j] != 0x0a,
        forall|j: int| indent_start(b, i) <= j < i ==> !#[trigger] syntax::soft_break_at(b, j),
    decreases i,
{
    if 0 < i && b[i - 1] == 0x20 {
        lemma_indent_start(b, i - 1);
    } else if 3 <= i && syntax::hair_at(b, i - 3) {
        lemma_indent_start(b, i - 3);
    }
}

/// The indentation found backwards from its end is the one found forwards from its start.
pub proof fn lemma_indent_start_end(b: Seq<u8>, i: int)
    requires
        0 <= i <= b.len(),
    ensures
        indent_end(b, indent_start(b, i)) == indent_end(b, i),
    decreases i,
{
    lemma_indent_start(b, i);
    if 0 < i && b[i - 1] == 0x20 {
        lemma_indent_start_end(b, i - 1);
    } else if 3 <= i && syntax::hair_at(b, i - 3) {
        lemma_indent_start_end(b, i - 3);
    }
}

pub proof fn lemma_soft_break_around(b: Seq<u8>, pos: int)
    requires
        valid_utf8(b),
        b.len() <= usize::MAX,
        bytes::at_boundary(b, pos),
    ensures
        soft_break_around(b, pos) matches Some(r) ==> {
            &&& r.start + 3 <= pos <= r.end <= b.len()
            &&& syntax::soft_break_at(b, r.start as int)
            &&& r.end == indent_end(b, r.start + 3)
            &&& bytes::at_boundary(b, r.start as int)
            &&& bytes::at_boundary(b, r.end as int)
            &&& forall|j: int| r.start <= j < r.end ==> b[j] != 0x0a
        },
{
    lemma_indent_start(b, pos);
    lemma_indent_end(b, pos);
    lemma_indent_end_boundary(b, pos);
    lemma_indent_start_end(b, pos);
}

/// Ranges of whole characters in the text from `from` on that come in order and do not overlap.
pub open spec fn in_order(b: Seq<u8>, ranges: Seq<Range<usize>>, from: int) -> bool {
    &&& forall|k: int|
        0 <= k < ranges.len() ==> from <= (#[trigger] ranges[k]).start <= ranges[k].end <= b.len()
            && bytes::at_boundary(b, ranges[k].start as int) && bytes::at_boundary(
            b,
            ranges[k].end as int,
        )
    &&& forall|j: int, k: int|
        0 <= j < k < ranges.len() ==> (#[trigger] ranges[j]).end <= (#[trigger] ranges[k]).start
}

pub proof fn lemma_soft_breaks_from(b: Seq<u8>, i: int)
    requires
        valid_utf8(b),
        b.len() <= usize::MAX,
        0 <= i <= b.len(),
    ensures
        in_order(b, soft_breaks_from(b, i), i),
        forall|k: int|
            0 <= k < soft_breaks_from(b, i).len() ==> syntax::soft_break_at(
                b,
                (#[trigger] soft_breaks_from(b, i)[k]).start as int,
            ) && soft_breaks_from(b, i)[k].end == indent_end(
                b,
                soft_breaks_from(b, i)[k].start + 3,
            ),
    decreases b.len() - i,
{
    let s = soft_breaks_from(b, i);
    if i < b.len() && syntax::soft_break_at(b, i) {
        bytes::lemma_step(b, i);
        lemma_soft_breaks_from(b, i + 3);
        lemma_indent_end(b, i + 3);
        lemma_indent_end_boundary(b, i + 3);
        let rest = soft_breaks_from(b, i + 3);
        let end = indent_end(b, i + 3);
        assert forall|k: int| 0 <= k < rest.len() implies end <= (#[trigger] rest[k]).start by {
            assert(syntax::soft_break_at(b, rest[k].start as int));
        }
        assert forall|k: int| 0 <= k < s.len() implies i <= (#[trigger] s[k]).start <= s[k].end
            <= b.len() && bytes::at_boundary(b, s[k].start as int) && bytes::at_boundary(
            b,
            s[k].end as int,
        ) && syntax::soft_break_at(b, s[k].start as int) && s[k].end == indent_end(
            b,
            s[k].start + 3,
        ) by {
            if k > 0 {
                assert(s[k] == rest[k - 1]);
            }
        }
        assert forall|j: int, k: int| 0 <= j < k < s.len() implies (#[trigger] s[j]).end <= (
        #[trigger] s[k]).start by {
            assert(s[k] == rest[k - 1]);
            if j > 0 {
                assert(s[j] == rest[j - 1]);
            }
        }
    } else if i < b.len() {
        lemma_soft_breaks_from(b, i + 1);
    }
}

/// The range of the automatic line break with its indentation, if `pos` lies behind the break.
pub fn soft_break_before(text: &str, pos: usize) -> (r: Option<Range<usize>>)
    requires
        bytes::at_boundary(encode_utf8(text@), pos as int),
    ensures
        r == soft_break_around(encode_utf8(text@), pos as int),
{
    let b = text.as_bytes();
    let n: usize = b.len();
    let mut s: usize = pos;
    loop
        invariant
            n == b@.len(),
            s <= pos <= n,
            indent_start(b@, s as int) == indent_start(b@, pos as int),
        ensures
            s <= pos,
            s as int == indent_start(b@, pos as int),
        decreases s,
    {
        if s > 0 && b[s - 1] == 0x20 {
            s -= 1;
        } else if s >= 3 && syntax::has_three(b, s - 3, 0xe2, 0x80, 0x8a) {
            s -= 3;
        } else {
            break;
        }
    }
    if s >= 3 && syntax::has_three(b, s - 3, 0xe2, 0x80, 0xa8) {
        let end: usize = skip_indent(b, pos);
        Some(Range { start: s - 3, end })
    } else {
        None
    }
}

/// End of the spaces and hair spaces from `from` on.
pub(crate) fn skip_indent(b: &[u8], from: usize) -> (r: usize)
    requires
        from <= b@.len(),
    ensures
        r as int == indent_end(b@, from as int),
        from <= r <= b@.len(),
{
    let n: usize = b.len();
    let mut e: usize = from;
    loop
        invariant
            n == b@.len(),
            from <= e <= n,
            indent_end(b@, e as int) == indent_end(b@, from as int),
        ensures
            from <= e <= n,
            e as int == indent_end(b@, from as int),
        decreases n - e,
    {
        if e < n && b[e] == 0x20 {
            e += 1;
        } else if syntax::has_three(b, e, 0xe2, 0x80, 0x8a) {
            e += 3;
        } else {
            break;
        }
    }
    e
}

/// The ranges of all automatic line breaks with their indentation.
pub fn soft_break_ranges(text: &str) -> (r: Vec<Range<usize>>)
    ensures
        r@ == soft_breaks(encode_utf8(text@)),
{
    let b = text.as_bytes();
    let n: usize = b.len();
    let mut ranges: Vec<Range<usize>> = Vec::new();
    let mut i: usize = 0;
    while i < n
        invariant
            n == b@.len(),
            i <= n,
            ranges@ + soft_breaks_from(b@, i as int) == soft_breaks(b@),
        decreases n - i,
    {
        if syntax::has_three(b, i, 0xe2, 0x80, 0xa8) {
            let end: usize = skip_indent(b, i + 3);
            ranges.push(Range { start: i, end });
            assert(ranges@ + soft_breaks_from(b@, i + 3) =~= soft_breaks(b@));
            i += 3;
        } else {
            assert(!syntax::soft_break_at(b@, i as int));
            i += 1;
        }
    }
    assert(ranges@ =~= soft_breaks(b@));
    ranges
}

/// Whether the text contains an automatic line break.
pub fn contains_soft_break(text: &str) -> (r: bool)
    ensures
        r == has_soft_break(encode_utf8(text@)),
{
    let b = text.as_bytes();
    let n: usize = b.len();
    let mut i: usize = 0;
    while i < n
        invariant
            n == b@.len(),
            b@ == encode_utf8(text@),
            i <= n,
            forall|j: int| j < i ==> !#[trigger] syntax::soft_break_at(b@, j),
        decreases n - i,
    {
        if syntax::has_three(b, i, 0xe2, 0x80, 0xa8) {
            assert(syntax::soft_break_at(b@, i as int));
            return true;
        }
        i += 1;
    }
    false
}

/// What was stripped of automatic line breaks contains none: removing one never makes another one
/// out of what stood around it.
pub proof fn law_stripped_text_has_no_soft_breaks(b: Seq<u8>)
    requires
        valid_utf8(b),
    ensures
        !has_soft_break(stripped(b)),
{
    lemma_stripped_from(b, 0);
}

/// Text without automatic line breaks is left as it is. So stripping twice is stripping once.
pub proof fn law_stripping_changes_nothing_else(b: Seq<u8>)
    requires
        valid_utf8(b),
    ensures
        !has_soft_break(b) ==> stripped(b) == b,
        stripped(stripped(b)) == stripped(b),
{
    law_stripped_text_has_no_soft_breaks(b);
    if !has_soft_break(b) {
        lemma_nothing_to_strip(b, b, 0);
        assert(b.subrange(0, b.len() as int) =~= b);
    }
    let s = stripped(b);
    lemma_nothing_to_strip(s, s, 0);
    assert(s.subrange(0, s.len() as int) =~= s);
}

/// Where there is no automatic line break, nothing is stripped.
pub proof fn lemma_nothing_to_strip<T>(b: Seq<u8>, s: Seq<T>, i: int)
    requires
        !has_soft_break(b),
        s.len() == b.len(),
        0 <= i <= b.len(),
    ensures
        stripped_along(b, s, i) == s.subrange(i, s.len() as int),
    decreases b.len() - i,
{
    if i < b.len() {
        lemma_nothing_to_strip(b, s, i + 1);
        assert(!syntax::soft_break_at(b, i));
        assert(s.subrange(i, s.len() as int) =~= seq![s[i]] + s.subrange(i + 1, s.len() as int));
    } else {
        assert(s.subrange(i, s.len() as int) =~= Seq::<T>::empty());
    }
}

proof fn lemma_stripped_from(b: Seq<u8>, i: int)
    requires
        valid_utf8(b),
        0 <= i <= b.len(),
    ensures
        forall|j: int| !#[trigger] syntax::soft_break_at(stripped_from(b, i), j),
    decreases b.len() - i,
{
    let s = stripped_from(b, i);
    if i < b.len() && syntax::soft_break_at(b, i) {
        lemma_indent_end(b, i + 3);
        lemma_stripped_from(b, indent_end(b, i + 3));
        assert(s == stripped_from(b, indent_end(b, i + 3)));
    } else if i < b.len() {
        lemma_stripped_from(b, i + 1);
        let rest = stripped_from(b, i + 1);
        assert forall|j: int| !#[trigger] syntax::soft_break_at(s, j) by {
            if syntax::soft_break_at(s, j) {
                if j == 0 {
                    // The first byte of a character is followed by the others.
                    bytes::lemma_step(b, i);
                    assert(is_continuation_byte(b[i + 1]));
                    assert(is_continuation_byte(b[i + 2]));
                    assert(!syntax::soft_break_at(b, i + 1));
                    assert(!syntax::soft_break_at(b, i + 2));
                    assert(s[1] == rest[0]);
                    assert(s[2] == rest[1]);
                    assert(rest[1] == stripped_from(b, i + 2)[0]);
                    assert(syntax::three_at(b, i, 0xe2, 0x80, 0xa8));
                } else if j > 0 {
                    assert(s[j] == rest[j - 1]);
                    assert(s[j + 1] == rest[j]);
                    assert(s[j + 2] == rest[j + 1]);
                    assert(syntax::soft_break_at(rest, j - 1));
                }
            }
        }
    } else {
        assert forall|j: int| !#[trigger] syntax::soft_break_at(s, j) by {
            assert(s.len() == 0);
        }
    }
}

/// Stripping makes the text no longer.
pub proof fn lemma_stripped_len(b: Seq<u8>, i: int)
    requires
        0 <= i <= b.len(),
    ensures
        stripped_from(b, i).len() <= b.len() - i,
    decreases b.len() - i,
{
    if i < b.len() && syntax::soft_break_at(b, i) {
        lemma_indent_end(b, i + 3);
        lemma_stripped_len(b, indent_end(b, i + 3));
    } else if i < b.len() {
        lemma_stripped_len(b, i + 1);
    }
}

/// Where there is no automatic line break, none is found.
pub proof fn lemma_no_soft_breaks(b: Seq<u8>, i: int)
    requires
        !has_soft_break(b),
        0 <= i,
    ensures
        soft_breaks_from(b, i) == Seq::<Range<usize>>::empty(),
    decreases b.len() - i,
{
    if i < b.len() {
        assert(!syntax::soft_break_at(b, i));
        lemma_no_soft_breaks(b, i + 1);
    }
}

/// Whether the text starts with a space or a hair space.
pub open spec fn starts_indented(b: Seq<u8>) -> bool {
    b.len() > 0 && (b[0] == 0x20 || syntax::hair_at(b, 0))
}

/// An indentation ends where text follows that does not start with one.
pub proof fn lemma_indent_end_prefix(x: Seq<u8>, w: Seq<u8>, i: int)
    requires
        valid_utf8(x),
        !starts_indented(w),
        0 <= i <= x.len(),
    ensures
        indent_end(x + w, i) == indent_end(x, i),
    decreases x.len() - i,
{
    let z = x + w;
    if i == x.len() {
        assert(syntax::hair_at(z, i) ==> syntax::hair_at(w, 0)) by {
            if syntax::hair_at(z, i) {
                assert(z[i] == w[0] && z[i + 1] == w[1] && z[i + 2] == w[2]);
            }
        }
        assert(!syntax::hair_at(x, i));
        assert(i < z.len() ==> z[i] == w[0]);
    } else {
        assert(z[i] == x[i]);
        if syntax::hair_at(z, i) {
            bytes::lemma_step(x, i);
            assert(z[i + 1] == x[i + 1] && z[i + 2] == x[i + 2]);
            assert(syntax::hair_at(x, i));
        }
        if syntax::hair_at(x, i) {
            assert(z[i + 1] == x[i + 1] && z[i + 2] == x[i + 2]);
            assert(syntax::hair_at(z, i));
            lemma_indent_end_prefix(x, w, i + 3);
        } else if x[i] == 0x20 {
            lemma_indent_end_prefix(x, w, i + 1);
        }
    }
}

/// Automatic line breaks are found where they stand in the first of two texts.
pub proof fn lemma_soft_break_prefix(x: Seq<u8>, w: Seq<u8>, i: int)
    requires
        valid_utf8(x),
        0 <= i < x.len(),
    ensures
        syntax::soft_break_at(x + w, i) == syntax::soft_break_at(x, i),
{
    let z = x + w;
    assert(z[i] == x[i]);
    if syntax::soft_break_at(z, i) {
        bytes::lemma_step(x, i);
        assert(z[i + 1] == x[i + 1] && z[i + 2] == x[i + 2]);
    }
    if syntax::soft_break_at(x, i) {
        assert(z[i + 1] == x[i + 1] && z[i + 2] == x[i + 2]);
    }
}

/// What is stripped from the end of a text does not depend on what is in front.
proof fn lemma_stripped_suffix<T>(x: Seq<u8>, w: Seq<u8>, u: Seq<T>, v: Seq<T>, i: int)
    requires
        u.len() == x.len(),
        v.len() == w.len(),
        0 <= i <= w.len(),
    ensures
        stripped_along(x + w, u + v, x.len() + i) == stripped_along(w, v, i),
    decreases w.len() - i,
{
    let z = x + w;
    let j = x.len() + i;
    if i < w.len() {
        assert(z[j] == w[i]);
        assert((u + v)[j] == v[i]);
        lemma_three_suffix(x, w, i);
        if syntax::soft_break_at(w, i) {
            lemma_indent_end(w, i + 3);
            lemma_indent_end_suffix(x, w, i + 3);
            lemma_stripped_suffix(x, w, u, v, indent_end(w, i + 3));
        } else {
            lemma_stripped_suffix(x, w, u, v, i + 1);
        }
    }
}

pub proof fn lemma_three_suffix(x: Seq<u8>, w: Seq<u8>, i: int)
    requires
        0 <= i <= w.len(),
    ensures
        syntax::soft_break_at(x + w, x.len() + i) == syntax::soft_break_at(w, i),
        syntax::hair_at(x + w, x.len() + i) == syntax::hair_at(w, i),
{
    let z = x + w;
    let j = x.len() + i;
    if i + 3 <= w.len() {
        assert(z[j] == w[i] && z[j + 1] == w[i + 1] && z[j + 2] == w[i + 2]);
    }
}

pub proof fn lemma_indent_end_suffix(x: Seq<u8>, w: Seq<u8>, i: int)
    requires
        0 <= i <= w.len(),
    ensures
        indent_end(x + w, x.len() + i) == x.len() + indent_end(w, i),
    decreases w.len() - i,
{
    lemma_three_suffix(x, w, i);
    if i < w.len() {
        assert((x + w)[x.len() + i] == w[i]);
        if w[i] == 0x20 {
            lemma_indent_end_suffix(x, w, i + 1);
        } else if syntax::hair_at(w, i) {
            lemma_indent_end_suffix(x, w, i + 3);
        }
    }
}

/// An automatic line break with its indentation, between two texts of which the second does not
/// start with an indentation, is all that is stripped there.
pub proof fn law_soft_breaks_are_invisible(x: Seq<u8>, soft_break: Seq<u8>, y: Seq<u8>)
    requires
        valid_utf8(x),
        valid_utf8(soft_break),
        syntax::soft_break_at(soft_break, 0),
        indent_end(soft_break, 3) == soft_break.len(),
        !starts_indented(y),
    ensures
        stripped(x + soft_break + y) == stripped(x + y),
{
    lemma_invisible_along(x, soft_break, y, x, soft_break, y, 0);
}

/// What goes with an automatic line break is stripped with it.
pub proof fn lemma_invisible_along<T>(
    x: Seq<u8>,
    soft_break: Seq<u8>,
    y: Seq<u8>,
    u: Seq<T>,
    v: Seq<T>,
    w: Seq<T>,
    i: int,
)
    requires
        valid_utf8(x),
        valid_utf8(soft_break),
        syntax::soft_break_at(soft_break, 0),
        indent_end(soft_break, 3) == soft_break.len(),
        !starts_indented(y),
        u.len() == x.len(),
        v.len() == soft_break.len(),
        w.len() == y.len(),
        0 <= i <= x.len(),
    ensures
        stripped_along(x + soft_break + y, u + v + w, i) == stripped_along(x + y, u + w, i),
    decreases x.len() - i,
{
    let behind = soft_break + y;
    let z = x + soft_break + y;
    let s = u + v + w;
    assert(z =~= x + behind);
    assert(s =~= u + (v + w));
    assert(behind[0] == soft_break[0] && behind[1] == soft_break[1] && behind[2] == soft_break[2]);
    assert(!starts_indented(behind));
    if i == x.len() {
        lemma_stripped_suffix(x, behind, u, v + w, 0);
        lemma_stripped_suffix(x, y, u, w, 0);
        assert(syntax::soft_break_at(behind, 0));
        lemma_indent_end_prefix(soft_break, y, 3);
        lemma_stripped_suffix(soft_break, y, v, w, 0);
        assert(stripped_along(behind, v + w, 0) == stripped_along(
            behind,
            v + w,
            soft_break.len() as int,
        ));
    } else {
        lemma_soft_break_prefix(x, behind, i);
        lemma_soft_break_prefix(x, y, i);
        if syntax::soft_break_at(x, i) {
            lemma_indent_end_prefix(x, behind, i + 3);
            lemma_indent_end_prefix(x, y, i + 3);
            lemma_indent_end(x, i + 3);
            lemma_invisible_along(x, soft_break, y, u, v, w, indent_end(x, i + 3));
        } else {
            lemma_invisible_along(x, soft_break, y, u, v, w, i + 1);
            assert(s[i] == u[i]);
            assert((u + w)[i] == u[i]);
        }
    }
}

} // verus!
