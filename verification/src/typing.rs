//! What typing in lists does.

use crate::bytes;
use crate::lists;
use crate::marker;
use crate::numbering;
use crate::softbreak;
use crate::syntax;
use crate::syntax::{ListItem, Marker};
use crate::whitespace;
use vstd::prelude::*;
use vstd::utf8::*;

verus! {

broadcast use syntax::group_char_bytes;

/// Text of white space only contains nothing that a marker is made of.
proof fn lemma_blank_bytes(text: Seq<char>)
    requires
        whitespace::blank(text),
    ensures
        forall|j: int|
            0 <= j < encode_utf8(text).len() ==> !syntax::is_digit(#[trigger] encode_utf8(text)[j]),
        forall|j: int| (#[trigger] syntax::bullet_at(encode_utf8(text), j)) is None,
    decreases text.len(),
{
    let b = encode_utf8(text);
    if text.len() == 0 {
        assert forall|j: int| (#[trigger] syntax::bullet_at(b, j)) is None by {
            assert(b.len() == 0);
        }
    } else {
        let c = text[0];
        let rest = text.drop_first();
        let first = bytes::utf8(c);
        let tail = encode_utf8(rest);
        assert(whitespace::white_space(text[0]));
        assert forall|i: int| 0 <= i < rest.len() implies whitespace::white_space(
            #[trigger] rest[i],
        ) by {
            assert(rest[i] == text[i + 1]);
        }
        lemma_blank_bytes(rest);
        bytes::lemma_encode_one(c);
        bytes::lemma_encode_concat(seq![c], rest);
        assert(text =~= seq![c] + rest);
        assert(b == first + tail);
        bytes::lemma_utf8_bytes(c);
        let k = first.len() as int;
        assert forall|j: int| 0 <= j < b.len() implies !syntax::is_digit(#[trigger] b[j]) by {
            if j < k {
                assert(b[j] == first[j]);
            } else {
                assert(b[j] == tail[j - k]);
            }
        }
        assert forall|j: int| (#[trigger] syntax::bullet_at(b, j)) is None by {
            if syntax::bullet_at(b, j) is Some {
                let bullet = syntax::bullet_at(b, j)->0;
                if j == 0 {
                    assert(b[0] == first[0]);
                    assert(b[1] == first[1]);
                    assert(b[2] == first[2]);
                    syntax::lemma_encodings();
                    assert(first =~= bytes::utf8(bullet));
                    bytes::lemma_encode_one(bullet);
                    bytes::lemma_encode_injective(seq![c], seq![bullet]);
                    assert(seq![c][0] == seq![bullet][0]);
                } else if j < k {
                    assert(b[j] == first[j]);
                } else {
                    assert(b[j] == tail[j - k]);
                    assert(b[j + 1] == tail[j + 1 - k]);
                    assert(b[j + 2] == tail[j + 2 - k]);
                    assert(syntax::bullet_at(tail, j - k) is Some);
                }
            }
        }
    }
}

/// A newline in an empty item of the outermost level ends the list: the paragraph is an item no
/// more.
pub proof fn law_a_newline_in_an_empty_item_ends_the_list(b: Seq<u8>, pos: int, item: ListItem)
    requires
        valid_utf8(b),
        b.len() <= usize::MAX,
        0 <= pos,
        lists::clamps_to_boundary(b, pos),
        syntax::item_at(b, lists::normalized(b, pos, true)) == Some(item),
        whitespace::blank(lists::content(b, item)),
        item.level == 0,
    ensures
        ({
            let (_, e) = lists::newline_edit(b, pos)->0;
            syntax::item_at(
                bytes::splice(b, e.start, e.end, e.text),
                item.start as int,
            ) is None
        }),
{
    let (_, e) = lists::newline_edit(b, pos)->0;
    let n = lists::normalized(b, pos, true);
    lists::lemma_normalized(b, pos, true);
    syntax::lemma_item_at(b, n);
    syntax::lemma_para_start(b, n);
    syntax::lemma_para_end(b, n);
    let s = item.start as int;
    let cs = item.content_start as int;
    let len = item.end - cs;
    let c = bytes::splice(b, s, cs, Seq::<u8>::empty());
    let content = b.subrange(cs, item.end as int);
    assert(bytes::splice(b, e.start, e.end, e.text) =~= c);
    assert forall|i: int| s <= i < s + len implies #[trigger] c[i] == content[i - s] by {}
    assert forall|i: int| s <= i < s + len implies c[i] != 0x0a by {
        assert(content[i - s] == b[i - s + cs]);
    }
    if s > 0 {
        assert(c[s - 1] == b[s - 1]);
    }
    if s + len < c.len() {
        assert(c[s + len] == b[item.end as int]);
    }
    syntax::lemma_para_start_unique(c, s, s);
    syntax::lemma_para_end_unique(c, s, s + len);
    bytes::lemma_sub_valid(b, cs, item.end as int);
    decode_utf8_encode_utf8(content);
    lemma_blank_bytes(lists::content(b, item));
    let ms = syntax::tabs_end(c, s, s + len);
    syntax::lemma_tabs_end(c, s, s + len);
    syntax::lemma_digits_end(c, ms, s + len);
    if ms < s + len {
        assert(c[ms] == content[ms - s]);
        assert(!syntax::is_digit(content[ms - s]));
        if ms + 3 <= s + len && syntax::bullet_at(c, ms) is Some {
            assert(c[ms + 1] == content[ms + 1 - s]);
            assert(c[ms + 2] == content[ms + 2 - s]);
            assert(syntax::bullet_at(content, ms - s) is Some);
        }
    }
}

/// A newline in an item with text continues the list: behind the newline there is an item of the
/// same level with the following marker, and the cursor is at the start of its text. Numbers with
/// more than six digits are left out, since they are not read as markers.
pub proof fn law_a_newline_continues_the_list(b: Seq<u8>, pos: int, item: ListItem)
    requires
        valid_utf8(b),
        b.len() <= usize::MAX,
        0 <= pos,
        lists::clamps_to_boundary(b, pos),
        syntax::item_at(b, lists::normalized(b, pos, true)) == Some(item),
        !whitespace::blank(lists::content(b, item)),
        item.marker.following() matches Marker::Number { n, .. } ==> n < 1_000_000,
        ({
            let (_, e) = lists::newline_edit(b, pos)->0;
            bytes::splice(b, e.start, e.end, e.text).len() <= usize::MAX
        }),
    ensures
        ({
            let (at, e) = lists::newline_edit(b, pos)->0;
            let cursor = e.map_start(at as int);
            syntax::item_at(bytes::splice(b, e.start, e.end, e.text), cursor) matches Some(y)
                && y.level == item.level && y.marker == item.marker.following() && y.content_start
                == cursor
        }),
{
    let n = lists::normalized(b, pos, true);
    lists::lemma_normalized(b, pos, true);
    syntax::lemma_item_at(b, n);
    syntax::lemma_para_start(b, n);
    syntax::lemma_para_end(b, n);
    syntax::lemma_para_boundaries(b, n);
    syntax::lemma_item_in(b, item.start as int, item.end as int);
    syntax::lemma_digits_end(b, item.marker_start as int, item.end as int);
    let (at, _) = lists::newline_edit(b, pos)->0;
    lemma_new_item(b, at as int, item.end as int, item.level as nat, item.marker.following());
}

/// The bytes that start a new item.
spec fn item_prefix(level: nat, m: Marker) -> Seq<u8> {
    encode_utf8(seq!['\n'] + marker::repeated('\t', level) + m.chars() + seq![' '])
}

proof fn lemma_item_prefix(level: nat, m: Marker)
    ensures
        item_prefix(level, m) == seq![0x0au8] + encode_utf8(marker::repeated('\t', level))
            + encode_utf8(m.chars()) + seq![0x20u8],
{
    let tabs = marker::repeated('\t', level);
    syntax::lemma_encodings();
    bytes::lemma_encode_one('\n');
    bytes::lemma_encode_one(' ');
    bytes::lemma_encode_concat(seq!['\n'] + tabs + m.chars(), seq![' ']);
    bytes::lemma_encode_concat(seq!['\n'] + tabs, m.chars());
    bytes::lemma_encode_concat(seq!['\n'], tabs);
}

proof fn lemma_new_item(b: Seq<u8>, at: int, end: int, level: nat, m: Marker)
    requires
        0 <= at <= end <= b.len(),
        end == b.len() || b[end] == 0x0a,
        forall|i: int| at <= i < end ==> b[i] != 0x0a,
        b.len() + item_prefix(level, m).len() <= usize::MAX,
        m matches Marker::Bullet(x) ==> x == '•' || x == '◦' || x == '▪',
        m matches Marker::Number { n, delim } ==> n < 1_000_000 && (delim == '.' || delim == ')'),
    ensures
        ({
            let text = item_prefix(level, m);
            syntax::item_at(bytes::splice(b, at, at, text), at + text.len()) matches Some(y)
                && y.level == level && y.marker == m && y.content_start == at + text.len()
        }),
{
    let text = item_prefix(level, m);
    let t = encode_utf8(marker::repeated('\t', level));
    let w = encode_utf8(m.chars());
    lemma_item_prefix(level, m);
    lemma_tab_bytes(level);
    let c = bytes::splice(b, at, at, text);
    let k = w.len() as int;
    let start = at + 1;
    let stop = end + text.len();
    let cursor = at + text.len();
    assert forall|i: int| 0 <= i < text.len() implies #[trigger] text[i] == c[at + i] by {}
    assert forall|j: int| start <= j < start + level implies #[trigger] c[j] == 0x09 by {
        assert(text[j - at] == c[at + (j - at)]);
        assert(text[j - at] == t[j - at - 1]);
    }
    assert forall|j: int| 0 <= j < k implies #[trigger] c[start + level + j] == w[j] by {
        assert(text[1 + level + j] == c[at + (1 + level + j)]);
        assert(text[1 + level + j] == w[j]);
    }
    assert(text[0] == c[at + 0]);
    assert(text[1 + level + k] == c[at + (1 + level + k)]);
    lemma_marker_reads(c, start, stop, level as int, m);
    assert forall|i: int| start <= i < stop implies c[i] != 0x0a by {
        if i < start + level {
            assert(c[i] == 0x09);
        } else if i < start + level + k {
            assert(c[start + level + (i - start - level)] == w[i - start - level]);
        } else if i >= cursor {
            assert(c[i] == b[i - text.len()]);
        }
    }
    if stop < c.len() {
        assert(c[stop] == b[end]);
    }
    syntax::lemma_para_start_unique(c, cursor, start);
    syntax::lemma_para_end_unique(c, cursor, stop);
}

/// A typed `- ` or `* ` at the start of a paragraph makes it a list item with the bullet of its
/// level, and the cursor is at the start of its text.
pub proof fn law_a_typed_dash_becomes_a_bullet(b: Seq<u8>, pos: int)
    requires
        0 <= pos <= b.len(),
        b.len() + 2 <= usize::MAX,
        lists::autoformat_edit(b, pos) is Some,
    ensures
        ({
            let e = lists::autoformat_edit(b, pos)->0;
            let cursor = e.map_start(pos);
            let level = e.start - syntax::para_start(b, pos);
            syntax::item_at(bytes::splice(b, e.start, e.end, e.text), cursor) matches Some(y)
                && y.level == level && y.marker == Marker::Bullet(syntax::spec_bullet(level))
                && y.content_start == cursor
        }),
{
    let e = lists::autoformat_edit(b, pos)->0;
    let start = syntax::para_start(b, pos);
    let end = syntax::para_end(b, pos);
    let dash = e.start;
    let level = dash - start;
    syntax::lemma_para_start(b, pos);
    syntax::lemma_para_end(b, pos);
    syntax::lemma_tabs_end(b, start, pos);
    let m = Marker::Bullet(syntax::spec_bullet(level));
    let w = encode_utf8(m.chars());
    bytes::lemma_encode_one(syntax::spec_bullet(level));
    assert(m.chars() =~= seq![syntax::spec_bullet(level)]);
    syntax::lemma_encodings();
    let c = bytes::splice(b, dash, dash + 1, w);
    assert forall|j: int| start <= j < start + level implies #[trigger] c[j] == 0x09 by {
        assert(c[j] == b[j]);
    }
    assert forall|j: int| 0 <= j < w.len() implies #[trigger] c[start + level + j] == w[j] by {}
    assert(c[dash + 3] == b[dash + 1]);
    lemma_marker_reads(c, start, end + 2, level, m);
    assert forall|i: int| start <= i < end + 2 implies c[i] != 0x0a by {
        if i < dash {
            assert(c[i] == b[i]);
        } else if i < dash + 3 {
            assert(c[start + level + (i - dash)] == w[i - dash]);
        } else {
            assert(c[i] == b[i - 2]);
        }
    }
    if start > 0 {
        assert(c[start - 1] == b[start - 1]);
    }
    if end + 2 < c.len() {
        assert(c[end + 2] == b[end]);
    }
    syntax::lemma_para_start_unique(c, pos + 2, start);
    syntax::lemma_para_end_unique(c, pos + 2, end + 2);
}

/// An item that is moved to another level is an item of that level, with the marker of that level.
pub proof fn law_items_move_to_their_level(b: Seq<u8>, item: ListItem, level: int)
    requires
        valid_utf8(b),
        b.len() <= usize::MAX,
        item.start <= b.len(),
        syntax::item_at(b, item.start as int) == Some(item),
        0 <= level,
        ({
            let e = lists::level_edit(item, level);
            bytes::splice(b, e.start, e.end, e.text).len() <= usize::MAX
        }),
    ensures
        ({
            let e = lists::level_edit(item, level);
            syntax::item_at(bytes::splice(b, e.start, e.end, e.text), item.start as int) matches Some(
                y,
            ) && y.level == level && y.marker == item.marker.moved(level)
        }),
{
    let e = lists::level_edit(item, level);
    let c = bytes::splice(b, e.start, e.end, e.text);
    let start = item.start as int;
    let end = item.end as int;
    let me = item.marker_end as int;
    syntax::lemma_item_at(b, start);
    syntax::lemma_para_start(b, start);
    syntax::lemma_para_end(b, start);
    syntax::lemma_para_boundaries(b, start);
    syntax::lemma_item_in(b, start, end);
    syntax::lemma_digits_end(b, item.marker_start as int, end);
    let m = item.marker.moved(level);
    let t = encode_utf8(marker::repeated('\t', level as nat));
    let w = encode_utf8(m.chars());
    let k = w.len() as int;
    bytes::lemma_encode_concat(marker::repeated('\t', level as nat), m.chars());
    lemma_tab_bytes(level as nat);
    let stop = end - (me - start) + level + k;
    assert(e.text == t + w);
    assert forall|j: int| start <= j < start + level implies #[trigger] c[j] == 0x09 by {
        assert(c[j] == e.text[j - start]);
        assert(e.text[j - start] == t[j - start]);
    }
    assert forall|j: int| 0 <= j < k implies #[trigger] c[start + level + j] == w[j] by {
        assert(c[start + level + j] == e.text[level + j]);
    }
    assert(c[start + level + k] == b[me]);
    lemma_marker_reads(c, start, stop, level, m);
    assert forall|i: int| start <= i < stop implies c[i] != 0x0a by {
        if i < start + level {
            assert(c[i] == 0x09);
        } else if i < start + level + k {
            assert(c[start + level + (i - start - level)] == w[i - start - level]);
        } else {
            assert(c[i] == b[i - (level + k) + (me - start)]);
        }
    }
    if start > 0 {
        assert(c[start - 1] == b[start - 1]);
    }
    if stop < c.len() {
        assert(c[stop] == b[end]);
    }
    syntax::lemma_para_start_unique(c, start, start);
    syntax::lemma_para_end_unique(c, start, stop);
}

/// Outdenting undoes indenting, as long as the item can be indented. Its marker is then the one of
/// its level.
pub proof fn law_outdenting_undoes_indenting(level: int, m: Marker)
    requires
        0 <= level < syntax::MAX_LEVEL,
    ensures
        lists::changed_level(level, false) == level + 1,
        lists::changed_level(lists::changed_level(level, false), true) == level,
        m.moved(lists::changed_level(level, false)).moved(level) == m.moved(level),
{
}

/// Whether an edit leaves all text apart from its own range as it is, in front of it and behind it.
pub open spec fn changes_only(b: Seq<u8>, start: int, end: int, c: Seq<u8>, len: int) -> bool {
    &&& 0 <= start <= end <= b.len()
    &&& 0 <= len
    &&& c.len() == b.len() - (end - start) + len
    &&& forall|i: int| 0 <= i < start ==> #[trigger] c[i] == b[i]
    &&& forall|i: int| end <= i < b.len() ==> c[i - (end - start) + len] == #[trigger] b[i]
}

/// A newline is only handled in a list item, which is where the cursor belongs when it moves forward.
/// In an item with text it is put where the cursor belongs: the text in front of it and the text
/// behind it stay as they are, and the cursor ends up in front of the latter.
pub proof fn law_a_newline_keeps_the_text_around_it(b: Seq<u8>, pos: int)
    requires
        valid_utf8(b),
        b.len() <= usize::MAX,
        0 <= pos,
        lists::clamps_to_boundary(b, pos),
    ensures
        lists::newline_edit(b, pos) is None <==> syntax::item_at(
            b,
            lists::normalized(b, pos, true),
        ) is None,
        lists::newline_edit(b, pos) matches Some((at, e)) ==> {
            let item = syntax::item_at(b, lists::normalized(b, pos, true))->0;
            let c = bytes::splice(b, e.start, e.end, e.text);
            &&& at == lists::normalized(b, pos, true)
            &&& item.content_start <= at
            &&& !whitespace::blank(lists::content(b, item)) ==> {
                &&& changes_only(b, at as int, at as int, c, e.text.len() as int)
                &&& c[at as int] == 0x0a
                &&& e.map_start(at as int) == at + e.text.len()
            }
            &&& whitespace::blank(lists::content(b, item)) && item.level == 0 ==> {
                &&& changes_only(b, item.start as int, item.content_start as int, c, 0)
                &&& e.map_start(at as int) == at - (item.content_start - item.start)
            }
            &&& whitespace::blank(lists::content(b, item)) && item.level > 0 ==> {
                &&& changes_only(
                    b,
                    item.start as int,
                    item.marker_end as int,
                    c,
                    e.text.len() as int,
                )
                &&& c.len() <= usize::MAX ==> (syntax::item_at(c, item.start as int) matches Some(y)
                    && y.level == item.level - 1 && (y.marker is Bullet <==> item.marker is Bullet)
                    && (y.marker is Number ==> y.marker->delim == item.marker->delim))
            }
        },
{
    let n = lists::normalized(b, pos, true);
    lists::lemma_normalized(b, pos, true);
    law_cursors_belong_outside_of_markers(b, pos, true);
    if let Some(item) = syntax::item_at(b, n) {
        syntax::lemma_item_at(b, n);
        let (at, e) = lists::newline_edit(b, pos)->0;
        let c = bytes::splice(b, e.start, e.end, e.text);
        if !whitespace::blank(lists::content(b, item)) {
            lemma_item_prefix(item.level as nat, item.marker.following());
            assert(e.text == item_prefix(item.level as nat, item.marker.following()));
            assert(c[at as int] == e.text[0]);
        } else if item.level > 0 {
            syntax::lemma_para_start(b, n);
            syntax::lemma_para_end(b, n);
            syntax::lemma_para_start_unique(b, item.start as int, item.start as int);
            syntax::lemma_para_end_unique(b, item.start as int, item.end as int);
            assert(syntax::item_at(b, item.start as int) == Some(item));
            if c.len() <= usize::MAX {
                law_items_move_to_their_level(b, item, item.level - 1);
            }
        }
    }
}

/// Whether a position lies in front of the text of a list item, or in the indentation behind an
/// automatic line break.
pub open spec fn forbidden(b: Seq<u8>, p: int) -> bool {
    ||| syntax::item_at(b, p) matches Some(item) && p < item.content_start
    ||| exists|i: int| #[trigger]
        syntax::soft_break_at(b, i) && i + 3 <= p < softbreak::indent_end(b, i + 3)
}

/// The cursor belongs where it is, or to the next position in its direction that is neither in front of
/// the text of an item nor in an indentation. Only in front of the text of the first paragraph there is
/// none when it moves backwards, and it moves to the start of that text. A cursor behind the end belongs
/// to the end.
pub proof fn law_cursors_belong_outside_of_markers(b: Seq<u8>, pos: int, forward: bool)
    requires
        valid_utf8(b),
        b.len() <= usize::MAX,
        0 <= pos,
        lists::clamps_to_boundary(b, pos),
    ensures
        ({
            let p = if pos <= b.len() {
                pos
            } else {
                b.len() as int
            };
            let n = lists::normalized(b, pos, forward);
            &&& 0 <= n <= b.len()
            &&& bytes::at_boundary(b, n)
            &&& !forbidden(b, n)
            &&& !forbidden(b, p) ==> n == p
            &&& forward ==> p <= n && forall|q: int|
                p <= q < n && bytes::at_boundary(b, q) ==> #[trigger] forbidden(b, q)
            &&& !forward && n <= p ==> forall|q: int|
                n < q <= p && bytes::at_boundary(b, q) ==> #[trigger] forbidden(b, q)
            &&& !forward && n > p ==> (syntax::item_at(b, p) matches Some(item) && item.start == 0 && n
                == item.content_start)
        }),
{
    let p = if pos <= b.len() {
        pos
    } else {
        b.len() as int
    };
    let n = lists::normalized(b, pos, forward);
    bytes::lemma_boundary(b, p);
    lists::lemma_normalized(b, pos, forward);
    lists::law_the_cursor_comes_to_rest(b, pos, forward, forward);
    lemma_forbidden(b, p);
    lemma_forbidden(b, n);
    softbreak::lemma_soft_break_around(b, p);
    syntax::lemma_item_at(b, p);
    assert forall|q: int|
        (p <= q < n || n < q <= p) && bytes::at_boundary(b, q) && !(!forward && n
            > p) implies #[trigger] forbidden(b, q) by {
        match softbreak::soft_break_around(b, p) {
            Some(r) if p < r.end => {
                if q < r.start + 3 {
                    bytes::lemma_step(b, r.start as int);
                    assert(r.start < q);
                }
                assert(syntax::soft_break_at(b, r.start as int));
            },
            _ => {
                let item = syntax::item_at(b, p)->0;
                syntax::lemma_para_start(b, p);
                syntax::lemma_para_end(b, p);
                assert(item.start <= q < item.content_start);
                syntax::lemma_para_start_unique(b, q, item.start as int);
                syntax::lemma_para_end_unique(b, q, item.end as int);
            },
        }
    }
}

/// A position is forbidden exactly where the cursor does not come to rest.
proof fn lemma_forbidden(b: Seq<u8>, p: int)
    requires
        valid_utf8(b),
        b.len() <= usize::MAX,
        bytes::at_boundary(b, p),
    ensures
        forbidden(b, p) <==> lists::normalized(b, p, true) != p,
        forbidden(b, p) <==> lists::normalized(b, p, false) != p,
{
    softbreak::lemma_soft_break_around(b, p);
    syntax::lemma_item_at(b, p);
    if exists|i: int| #[trigger]
        syntax::soft_break_at(b, i) && i + 3 <= p < softbreak::indent_end(b, i + 3) {
        let i = choose|i: int| #[trigger]
            syntax::soft_break_at(b, i) && i + 3 <= p < softbreak::indent_end(b, i + 3);
        lemma_break_is_found(b, i, p);
    }
}

/// Behind an automatic line break, inside its indentation or at the end of it, the break is found.
pub proof fn lemma_break_is_found(b: Seq<u8>, i: int, p: int)
    requires
        valid_utf8(b),
        b.len() <= usize::MAX,
        syntax::soft_break_at(b, i),
        bytes::at_boundary(b, p),
        i + 3 <= p <= softbreak::indent_end(b, i + 3),
    ensures
        softbreak::soft_break_around(b, p) matches Some(r) && r.start == i && r.end
            == softbreak::indent_end(b, i + 3),
{
    softbreak::lemma_indent_end(b, i + 3);
    bytes::lemma_step(b, i);
    assert(softbreak::indent_start(b, i + 3) == i + 3);
    lemma_indent_around(b, i + 3, p);
    softbreak::lemma_soft_break_around(b, p);
}

/// From inside an indentation its two ends are found.
proof fn lemma_indent_around(b: Seq<u8>, i: int, p: int)
    requires
        valid_utf8(b),
        bytes::at_boundary(b, i),
        bytes::at_boundary(b, p),
        i <= p <= softbreak::indent_end(b, i),
    ensures
        softbreak::indent_start(b, p) == softbreak::indent_start(b, i),
        softbreak::indent_end(b, p) == softbreak::indent_end(b, i),
    decreases b.len() - i,
{
    if i < p {
        bytes::lemma_step(b, i);
        if b[i] == 0x20 {
            lemma_indent_around(b, i + 1, p);
        } else {
            assert(syntax::hair_at(b, i));
            if p < i + 3 {
                assert(is_continuation_byte(b[p]));
            }
            lemma_indent_around(b, i + 3, p);
        }
    }
}

/// Backspace at the start of the text of an item removes its marker and the space behind it, and nothing
/// else: the tabs stay, and the cursor is behind them.
pub proof fn law_backspace_removes_the_marker(
    b: Seq<u8>,
    pos: int,
    prev: Option<usize>,
    item: ListItem,
)
    requires
        valid_utf8(b),
        b.len() <= usize::MAX,
        0 <= pos <= b.len(),
        syntax::item_at(b, pos) == Some(item),
        pos == item.content_start,
    ensures
        lists::backspace_edit(b, pos, prev) matches Some(e) && {
            let c = bytes::splice(b, e.start, e.end, e.text);
            &&& changes_only(b, item.start + item.level, pos, c, 0)
            &&& e.map_start(pos) == item.start + item.level
        },
{
    syntax::lemma_item_at(b, pos);
    lists::lemma_behind_marker(b, item);
}

/// Backspace at the start of a wrapped line removes what is in front of the automatic line break, from
/// the given position on, and nothing else. Where nothing is in front, nothing happens.
pub proof fn law_backspace_reaches_over_the_break(
    b: Seq<u8>,
    start: int,
    pos: int,
    prev: Option<usize>,
)
    requires
        valid_utf8(b),
        b.len() <= usize::MAX,
        syntax::soft_break_at(b, start),
        pos == softbreak::indent_end(b, start + 3),
        prev matches Some(p) ==> p <= start,
    ensures
        lists::backspace_edit(b, pos, prev) is Some <==> prev is Some,
        lists::backspace_edit(b, pos, prev) matches Some(e) ==> {
            let c = bytes::splice(b, e.start, e.end, e.text);
            &&& changes_only(b, prev->0 as int, start, c, 0)
            &&& e.map_start(pos) == pos - (start - prev->0)
        },
{
    softbreak::lemma_indent_end(b, start + 3);
    bytes::lemma_step(b, start);
    softbreak::lemma_indent_end_boundary(b, start + 3);
    lemma_break_is_found(b, start, pos);
}

/// Backspace anywhere else is not handled.
pub proof fn law_backspace_is_left_alone_elsewhere(b: Seq<u8>, pos: int, prev: Option<usize>)
    requires
        valid_utf8(b),
        b.len() <= usize::MAX,
        bytes::at_boundary(b, pos),
        syntax::item_at(b, pos) matches Some(item) ==> pos != item.content_start,
        forall|i: int| #[trigger]
            syntax::soft_break_at(b, i) ==> softbreak::indent_end(b, i + 3) != pos,
    ensures
        lists::backspace_edit(b, pos, prev) is None,
{
    softbreak::lemma_soft_break_around(b, pos);
}

/// Delete in front of an automatic line break removes what follows the break with its indentation, up to
/// the given position, and nothing else. Where nothing follows, nothing happens. The cursor stays.
pub proof fn law_delete_reaches_over_the_break(b: Seq<u8>, pos: int, next: Option<usize>)
    requires
        valid_utf8(b),
        b.len() <= usize::MAX,
        syntax::soft_break_at(b, pos),
        next matches Some(n) ==> softbreak::indent_end(b, pos + 3) <= n <= b.len(),
    ensures
        lists::delete_edit(b, pos, next) is Some <==> next is Some,
        lists::delete_edit(b, pos, next) matches Some(e) ==> {
            let c = bytes::splice(b, e.start, e.end, e.text);
            &&& changes_only(b, softbreak::indent_end(b, pos + 3), next->0 as int, c, 0)
            &&& e.map_start(pos) == pos
        },
{
    softbreak::lemma_indent_end(b, pos + 3);
}

/// Delete at the end of a paragraph that a list item follows joins them: the newline, the tabs, the
/// marker and its space are removed, and nothing else, so that the text of the item follows. The cursor
/// stays.
pub proof fn law_delete_joins_the_next_item(b: Seq<u8>, pos: int, next: Option<usize>, item: ListItem)
    requires
        valid_utf8(b),
        b.len() <= usize::MAX,
        0 <= pos < b.len(),
        b[pos] == 0x0a,
        syntax::item_at(b, pos + 1) == Some(item),
    ensures
        item.start == pos + 1,
        lists::delete_edit(b, pos, next) matches Some(e) && {
            let c = bytes::splice(b, e.start, e.end, e.text);
            &&& changes_only(b, pos, item.content_start as int, c, 0)
            &&& e.map_start(pos) == pos
        },
{
    syntax::lemma_item_at(b, pos + 1);
    syntax::lemma_para_start_unique(b, pos + 1, pos + 1);
}

/// Delete anywhere else is not handled.
pub proof fn law_delete_is_left_alone_elsewhere(b: Seq<u8>, pos: int, next: Option<usize>)
    requires
        0 <= pos <= b.len(),
        !syntax::soft_break_at(b, pos),
        pos < b.len() && b[pos] == 0x0a ==> syntax::item_at(b, pos + 1) is None,
    ensures
        lists::delete_edit(b, pos, next) is None,
{
}

/// A dash or a star becomes a bullet exactly when it was typed with a space behind nothing but tabs at
/// the start of a paragraph. Only that character is replaced.
pub proof fn law_only_leading_dashes_become_bullets(b: Seq<u8>, pos: int)
    requires
        0 <= pos <= b.len(),
    ensures
        lists::autoformat_edit(b, pos) is Some <==> {
            &&& syntax::para_start(b, pos) + 2 <= pos
            &&& b[pos - 1] == 0x20
            &&& b[pos - 2] == 0x2d || b[pos - 2] == 0x2a
            &&& forall|i: int| syntax::para_start(b, pos) <= i < pos - 2 ==> b[i] == 0x09
        },
        lists::autoformat_edit(b, pos) matches Some(e) ==> e.start == pos - 2 && e.end == pos - 1,
{
    let start = syntax::para_start(b, pos);
    syntax::lemma_para_start(b, pos);
    syntax::lemma_tabs_end(b, start, pos);
    if start + 2 <= pos && (b[pos - 2] == 0x2d || b[pos - 2] == 0x2a) && (forall|i: int|
        start <= i < pos - 2 ==> b[i] == 0x09) {
        syntax::lemma_tabs_end_unique(b, start, pos, pos - 2);
    }
}

/// Numbers count on by one in a list, with the same delimiter, and bullets stay. Moved to another level,
/// bullets are the ones of that level, which repeat after three levels, and numbers keep their delimiter
/// and start anew.
pub proof fn law_markers_follow_their_list(m: Marker, level: int)
    requires
        0 <= level,
    ensures
        m is Bullet ==> m.following() == m,
        m matches Marker::Number { n, delim } ==> {
            &&& n < u32::MAX ==> m.following() == (Marker::Number { n: (n + 1) as u32, delim })
            &&& n == u32::MAX ==> m.following() == m
            &&& m.moved(level) == (Marker::Number { n: 1, delim })
        },
        m is Bullet ==> m.moved(level) is Bullet,
        m.moved(level + 3) == m.moved(level),
        m is Bullet ==> m.moved(level) != m.moved(level + 1) && m.moved(level) != m.moved(level + 2),
        m is Bullet ==> m.moved(0) == Marker::Bullet('•') && m.moved(1) == Marker::Bullet('◦')
            && m.moved(2) == Marker::Bullet('▪'),
{
}

pub proof fn lemma_tab_bytes(n: nat)
    ensures
        encode_utf8(marker::repeated('\t', n)).len() == n,
        forall|i: int|
            0 <= i < n ==> #[trigger] encode_utf8(marker::repeated('\t', n))[i] == 0x09,
    decreases n,
{
    let t = marker::repeated('\t', n);
    if n == 0 {
        assert(t =~= Seq::<char>::empty());
    } else {
        let rest = marker::repeated('\t', (n - 1) as nat);
        lemma_tab_bytes((n - 1) as nat);
        syntax::lemma_encodings();
        bytes::lemma_encode_one('\t');
        bytes::lemma_encode_concat(seq!['\t'], rest);
        assert(t =~= seq!['\t'] + rest);
        assert(encode_utf8(t) =~= seq![0x09u8] + encode_utf8(rest));
    }
}

/// A paragraph of tabs, a marker and a space reads as an item with that marker.
pub proof fn lemma_marker_reads(c: Seq<u8>, start: int, end: int, level: int, m: Marker)
    requires
        0 <= start,
        0 <= level,
        start + level + encode_utf8(m.chars()).len() + 1 <= end <= c.len() <= usize::MAX,
        m matches Marker::Bullet(x) ==> x == '•' || x == '◦' || x == '▪',
        m matches Marker::Number { n, delim } ==> n < 1_000_000 && (delim == '.' || delim == ')'),
        forall|j: int| start <= j < start + level ==> #[trigger] c[j] == 0x09,
        forall|j: int|
            0 <= j < encode_utf8(m.chars()).len() ==> #[trigger] c[start + level + j]
                == encode_utf8(m.chars())[j],
        c[start + level + encode_utf8(m.chars()).len()] == 0x20,
    ensures
        syntax::item_in(c, start, end) matches Some(y) && y.level == level && y.marker == m
            && y.content_start == start + level + encode_utf8(m.chars()).len() + 1,
        forall|j: int| 0 <= j < encode_utf8(m.chars()).len() ==> #[trigger] encode_utf8(
            m.chars(),
        )[j] != 0x0a,
{
    let w = encode_utf8(m.chars());
    match m {
        Marker::Bullet(x) => {
            bytes::lemma_encode_one(x);
            syntax::lemma_encodings();
            assert(m.chars() =~= seq![x]);
            assert(c[start + level + 0] == w[0]);
            assert(c[start + level + 1] == w[1]);
            assert(c[start + level + 2] == w[2]);
            syntax::lemma_tabs_end_unique(c, start, end, start + level);
            assert(syntax::bullet_at(c, start + level) == Some(x));
        },
        Marker::Number { n, delim } => {
            let digits = encode_utf8(marker::decimal(n as nat));
            numbering::law_numbers_are_read_as_written(n as nat);
            bytes::lemma_encode_one(delim);
            bytes::lemma_utf8_ascii(delim);
            bytes::lemma_encode_concat(marker::decimal(n as nat), seq![delim]);
            assert(m.chars() =~= marker::decimal(n as nat) + seq![delim]);
            assert(w == digits + seq![delim as u8]);
            assert forall|j: int| 0 <= j < digits.len() implies #[trigger] c[start + level + j]
                == digits[j] by {
                assert(c[start + level + j] == w[j]);
            }
            assert(c[start + level + digits.len()] == w[digits.len() as int]);
            numbering::lemma_read_number(c, start, end, level, n, delim);
            syntax::lemma_pow10_values();
            numbering::lemma_decimal_len(n as nat, 6);
            assert forall|j: int| 0 <= j < w.len() implies #[trigger] w[j] != 0x0a by {
                if j < digits.len() {
                    assert(w[j] == digits[j]);
                    assert(syntax::is_digit(digits[j]));
                }
            }
        },
    }
}

} // verus!
