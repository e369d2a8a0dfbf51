//! Merging and cutting the ranged attributes of a text.

use crate::edit::{AttributeKind, Edit, EditModel, RangedTextAttribute, TextAttribute, TextStroke};
use std::ops::Range;
use vstd::prelude::*;

verus! {

impl TextAttribute {
    /// The kind of the attribute.
    pub open spec fn spec_kind(self) -> AttributeKind {
        match self {
            TextAttribute::FontFamily(_) => AttributeKind::FontFamily,
            TextAttribute::FontSize(_) => AttributeKind::FontSize,
            TextAttribute::FontWeight(_) => AttributeKind::FontWeight,
            TextAttribute::TextColor(_) => AttributeKind::TextColor,
            TextAttribute::Style(_) => AttributeKind::Style,
            TextAttribute::Underline(_) => AttributeKind::Underline,
            TextAttribute::Strikethrough(_) => AttributeKind::Strikethrough,
        }
    }

    /// The kind of the attribute.
    pub fn kind(self) -> (r: AttributeKind)
        ensures
            r == self.spec_kind(),
    {
        match self {
            TextAttribute::FontFamily(_) => AttributeKind::FontFamily,
            TextAttribute::FontSize(_) => AttributeKind::FontSize,
            TextAttribute::FontWeight(_) => AttributeKind::FontWeight,
            TextAttribute::TextColor(_) => AttributeKind::TextColor,
            TextAttribute::Style(_) => AttributeKind::Style,
            TextAttribute::Underline(_) => AttributeKind::Underline,
            TextAttribute::Strikethrough(_) => AttributeKind::Strikethrough,
        }
    }
}

impl RangedTextAttribute {
    /// Whether the attribute applies to the byte at `p`.
    pub open spec fn covers(self, p: int) -> bool {
        self.range.start <= p < self.range.end
    }

    /// Whether the two ranges overlap or touch.
    pub open spec fn touches(self, other: RangedTextAttribute) -> bool {
        self.range.start <= other.range.end && other.range.start <= self.range.end
    }

    /// The attribute with the smallest range that holds both ranges.
    pub open spec fn joined(self, other: RangedTextAttribute) -> RangedTextAttribute {
        RangedTextAttribute {
            attribute: self.attribute,
            range: Range {
                start: if other.range.start < self.range.start {
                    other.range.start
                } else {
                    self.range.start
                },
                end: if other.range.end > self.range.end {
                    other.range.end
                } else {
                    self.range.end
                },
            },
        }
    }
}

/// The index of the last attribute of the given kind.
pub open spec fn latest_of_kind(attrs: Seq<RangedTextAttribute>, kind: AttributeKind) -> Option<int>
    decreases attrs.len(),
{
    if attrs.len() == 0 {
        None
    } else if attrs.last().attribute.spec_kind() == kind {
        Some(attrs.len() - 1)
    } else {
        latest_of_kind(attrs.drop_last(), kind)
    }
}

/// Adds an attribute behind the others. If the latest one of its kind is the same and touches it,
/// that one is extended instead.
pub open spec fn merged_with(
    attrs: Seq<RangedTextAttribute>,
    attr: RangedTextAttribute,
) -> Seq<RangedTextAttribute> {
    match latest_of_kind(attrs, attr.attribute.spec_kind()) {
        Some(i) => if attrs[i].attribute == attr.attribute && attrs[i].touches(attr) {
            attrs.update(i, attrs[i].joined(attr))
        } else {
            attrs.push(attr)
        },
        None => attrs.push(attr),
    }
}

/// The attributes with touching ones that are the same merged.
pub open spec fn merged(attrs: Seq<RangedTextAttribute>) -> Seq<RangedTextAttribute>
    decreases attrs.len(),
{
    if attrs.len() == 0 {
        Seq::empty()
    } else {
        merged_with(merged(attrs.drop_last()), attrs.last())
    }
}

/// What is left of one attribute outside of the range from `start` to `end`.
pub open spec fn cut_one(attr: RangedTextAttribute, start: int, end: int) -> Seq<
    RangedTextAttribute,
> {
    if attr.range.end > start && attr.range.start < end {
        let left = if attr.range.start < start {
            seq![
                RangedTextAttribute {
                    attribute: attr.attribute,
                    range: Range { start: attr.range.start, end: start as usize },
                },
            ]
        } else {
            Seq::empty()
        };
        let right = if attr.range.end > end {
            seq![
                RangedTextAttribute {
                    attribute: attr.attribute,
                    range: Range { start: end as usize, end: attr.range.end },
                },
            ]
        } else {
            Seq::empty()
        };
        left + right
    } else {
        seq![attr]
    }
}

/// What is left of the attributes outside of the range from `start` to `end`.
pub open spec fn cut(attrs: Seq<RangedTextAttribute>, start: int, end: int) -> Seq<
    RangedTextAttribute,
>
    decreases attrs.len(),
{
    if attrs.len() == 0 {
        Seq::empty()
    } else {
        cut(attrs.drop_last(), start, end) + cut_one(attrs.last(), start, end)
    }
}

/// The attribute of the given kind that applies to the byte at `p`: the last one that covers it.
pub open spec fn effective(attrs: Seq<RangedTextAttribute>, kind: AttributeKind, p: int) -> Option<
    TextAttribute,
>
    decreases attrs.len(),
{
    if attrs.len() == 0 {
        None
    } else if attrs.last().attribute.spec_kind() == kind && attrs.last().covers(p) {
        Some(attrs.last().attribute)
    } else {
        effective(attrs.drop_last(), kind, p)
    }
}

proof fn lemma_latest(attrs: Seq<RangedTextAttribute>, kind: AttributeKind)
    ensures
        latest_of_kind(attrs, kind) matches Some(i) ==> {
            &&& 0 <= i < attrs.len()
            &&& attrs[i].attribute.spec_kind() == kind
            &&& forall|j: int|
                i < j < attrs.len() ==> (#[trigger] attrs[j]).attribute.spec_kind() != kind
        },
        latest_of_kind(attrs, kind) is None ==> forall|j: int|
            0 <= j < attrs.len() ==> (#[trigger] attrs[j]).attribute.spec_kind() != kind,
    decreases attrs.len(),
{
    if attrs.len() > 0 && attrs.last().attribute.spec_kind() != kind {
        let rest = attrs.drop_last();
        lemma_latest(rest, kind);
        assert forall|j: int|
            0 <= j < attrs.len() && (latest_of_kind(attrs, kind) is Some ==> j > latest_of_kind(
                attrs,
                kind,
            )->0) implies (#[trigger] attrs[j]).attribute.spec_kind() != kind by {
            if j < attrs.len() - 1 {
                assert(rest[j] == attrs[j]);
            }
        }
    }
}

/// Extending one attribute changes what applies at `p` only if nothing behind it does.
proof fn lemma_effective_update(
    attrs: Seq<RangedTextAttribute>,
    i: int,
    a: RangedTextAttribute,
    kind: AttributeKind,
    p: int,
)
    requires
        0 <= i < attrs.len(),
        a.attribute == attrs[i].attribute,
        a.attribute.spec_kind() == kind ==> forall|j: int|
            i < j < attrs.len() ==> (#[trigger] attrs[j]).attribute.spec_kind() != kind,
    ensures
        effective(attrs.update(i, a), kind, p) == (if a.attribute.spec_kind() == kind && a.covers(p) {
            Some(a.attribute)
        } else if a.attribute.spec_kind() == kind {
            effective(attrs.take(i), kind, p)
        } else {
            effective(attrs, kind, p)
        }),
    decreases attrs.len(),
{
    let n = attrs.update(i, a);
    if i == attrs.len() - 1 {
        assert(n.drop_last() =~= attrs.take(i));
        assert(attrs.drop_last() =~= attrs.take(i));
    } else {
        let rest = attrs.drop_last();
        assert(n.drop_last() =~= rest.update(i, a));
        assert(rest.take(i) =~= attrs.take(i));
        assert forall|j: int| a.attribute.spec_kind() == kind && i < j < rest.len() implies (
        #[trigger] rest[j]).attribute.spec_kind() != kind by {
            assert(rest[j] == attrs[j]);
        }
        lemma_effective_update(rest, i, a, kind, p);
        assert(n.last() == attrs[attrs.len() - 1]);
    }
}

proof fn lemma_effective_merged_with(
    attrs: Seq<RangedTextAttribute>,
    attr: RangedTextAttribute,
    kind: AttributeKind,
    p: int,
)
    requires
        attr.range.start <= attr.range.end,
        forall|k: int|
            0 <= k < attrs.len() ==> (#[trigger] attrs[k]).range.start <= attrs[k].range.end,
    ensures
        effective(merged_with(attrs, attr), kind, p) == effective(attrs.push(attr), kind, p),
        forall|k: int|
            0 <= k < merged_with(attrs, attr).len() ==> (#[trigger] merged_with(
                attrs,
                attr,
            )[k]).range.start <= merged_with(attrs, attr)[k].range.end,
{
    let own = attr.attribute.spec_kind();
    lemma_latest(attrs, own);
    assert(attrs.push(attr).drop_last() =~= attrs);
    if let Some(i) = latest_of_kind(attrs, own) {
        if attrs[i].attribute == attr.attribute && attrs[i].touches(attr) {
            let joined = attrs[i].joined(attr);
            lemma_effective_update(attrs, i, joined, kind, p);
            lemma_effective_update(attrs, i, attrs[i], kind, p);
            assert(attrs.update(i, attrs[i]) =~= attrs);
        }
    }
}

/// Merging changes no attribute of any byte of the text.
pub proof fn law_merging_keeps_the_look(
    attrs: Seq<RangedTextAttribute>,
    kind: AttributeKind,
    p: int,
)
    requires
        forall|k: int|
            0 <= k < attrs.len() ==> (#[trigger] attrs[k]).range.start <= attrs[k].range.end,
    ensures
        effective(merged(attrs), kind, p) == effective(attrs, kind, p),
        forall|k: int|
            0 <= k < merged(attrs).len() ==> (#[trigger] merged(attrs)[k]).range.start <= merged(
                attrs,
            )[k].range.end,
    decreases attrs.len(),
{
    if attrs.len() > 0 {
        let rest = attrs.drop_last();
        assert forall|k: int| 0 <= k < rest.len() implies (#[trigger] rest[k]).range.start
            <= rest[k].range.end by {
            assert(rest[k] == attrs[k]);
        }
        assert(attrs[attrs.len() - 1].range.start <= attrs[attrs.len() - 1].range.end);
        law_merging_keeps_the_look(rest, kind, p);
        lemma_effective_merged_with(merged(rest), attrs.last(), kind, p);
        assert(merged(rest).push(attrs.last()).drop_last() =~= merged(rest));
    }
}

proof fn lemma_effective_concat(
    a: Seq<RangedTextAttribute>,
    b: Seq<RangedTextAttribute>,
    kind: AttributeKind,
    p: int,
)
    ensures
        effective(a + b, kind, p) == (if effective(b, kind, p) is Some {
            effective(b, kind, p)
        } else {
            effective(a, kind, p)
        }),
    decreases b.len(),
{
    if b.len() == 0 {
        assert(a + b =~= a);
    } else {
        assert((a + b).drop_last() =~= a + b.drop_last());
        lemma_effective_concat(a, b.drop_last(), kind, p);
    }
}

/// Cutting a range out removes the attributes of its bytes, and changes no others.
pub proof fn law_cutting_only_clears_the_range(
    attrs: Seq<RangedTextAttribute>,
    start: int,
    end: int,
    kind: AttributeKind,
    p: int,
)
    requires
        0 <= start <= end <= usize::MAX,
    ensures
        effective(cut(attrs, start, end), kind, p) == (if start <= p < end {
            None
        } else {
            effective(attrs, kind, p)
        }),
    decreases attrs.len(),
{
    if attrs.len() > 0 {
        let last = attrs.last();
        law_cutting_only_clears_the_range(attrs.drop_last(), start, end, kind, p);
        let left = cut_one(last, start, end);
        lemma_effective_concat(cut(attrs.drop_last(), start, end), left, kind, p);
        reveal_with_fuel(effective, 3);
        if left.len() == 2 {
            assert(left.drop_last() =~= seq![left[0]]);
            assert(seq![left[0]].drop_last() =~= Seq::<RangedTextAttribute>::empty());
        } else if left.len() == 1 {
            assert(left.drop_last() =~= Seq::<RangedTextAttribute>::empty());
        }
    }
}

/// Edits keep attributes in place: what applied to a byte that is not replaced still does.
pub proof fn law_edits_keep_attributes_in_place(m: EditModel, e: Edit, kind: AttributeKind, p: int)
    requires
        0 <= e.start <= e.end <= m.text.len(),
        m.edited(e).text.len() <= usize::MAX,
        0 <= p < m.text.len(),
        p < e.start || e.end <= p,
    ensures
        effective(m.edited(e).attrs, kind, e.map_start(p)) == effective(m.attrs, kind, p),
{
    lemma_effective_mapped(m.attrs, e, kind, p);
}

proof fn lemma_effective_mapped(
    attrs: Seq<RangedTextAttribute>,
    e: Edit,
    kind: AttributeKind,
    p: int,
)
    requires
        0 <= e.start <= e.end,
        0 <= p,
        p < e.start || e.end <= p,
        e.map_start(p) < usize::MAX,
    ensures
        effective(e.map_attrs(attrs), kind, e.map_start(p)) == effective(attrs, kind, p),
    decreases attrs.len(),
{
    if attrs.len() > 0 {
        lemma_effective_mapped(attrs.drop_last(), e, kind, p);
        let range = e.map_range(attrs.last().range);
        if range.start < range.end {
            let mapped = RangedTextAttribute { attribute: attrs.last().attribute, range };
            assert(e.map_attrs(attrs).drop_last() =~= e.map_attrs(attrs.drop_last()));
            assert(mapped.covers(e.map_start(p)) == attrs.last().covers(p));
        }
    }
}

/// Text that is inserted at the boundary of attributes is not covered by them.
pub proof fn law_inserted_text_is_not_covered(m: EditModel, e: Edit, kind: AttributeKind, q: int)
    requires
        0 <= e.start == e.end <= m.text.len(),
        m.edited(e).text.len() <= usize::MAX,
        forall|k: int|
            0 <= k < m.attrs.len() ==> e.start <= (#[trigger] m.attrs[k]).range.start
                || m.attrs[k].range.end <= e.start,
        e.start <= q < e.start + e.text.len(),
    ensures
        effective(m.edited(e).attrs, kind, q) is None,
{
    lemma_not_covered(m.attrs, e, kind, q);
}

proof fn lemma_not_covered(
    attrs: Seq<RangedTextAttribute>,
    e: Edit,
    kind: AttributeKind,
    q: int,
)
    requires
        0 <= e.start == e.end,
        e.start + e.text.len() <= usize::MAX,
        forall|k: int|
            0 <= k < attrs.len() ==> e.start <= (#[trigger] attrs[k]).range.start
                || attrs[k].range.end <= e.start,
        e.start <= q < e.start + e.text.len(),
    ensures
        effective(e.map_attrs(attrs), kind, q) is None,
    decreases attrs.len(),
{
    if attrs.len() > 0 {
        let rest = attrs.drop_last();
        assert forall|k: int| 0 <= k < rest.len() implies e.start <= (#[trigger] rest[k]).range.start
            || rest[k].range.end <= e.start by {
            assert(rest[k] == attrs[k]);
        }
        lemma_not_covered(rest, e, kind, q);
        let last = attrs[attrs.len() - 1];
        let range = e.map_range(last.range);
        if range.start < range.end {
            assert(e.map_attrs(attrs).drop_last() =~= e.map_attrs(rest));
        }
    }
}

/// Text that is put inside of an attribute gets it, unless a later one of its kind applies.
pub proof fn law_inserted_text_inside_is_covered(m: EditModel, e: Edit, k: int, q: int)
    requires
        0 <= e.start <= e.end <= m.text.len(),
        m.edited(e).text.len() <= usize::MAX,
        0 <= k < m.attrs.len(),
        m.attrs[k].range.start < e.start,
        e.end < m.attrs[k].range.end <= m.text.len(),
        forall|j: int|
            k < j < m.attrs.len() ==> (#[trigger] m.attrs[j]).attribute.spec_kind()
                != m.attrs[k].attribute.spec_kind(),
        e.start <= q < e.start + e.text.len(),
    ensures
        effective(m.edited(e).attrs, m.attrs[k].attribute.spec_kind(), q) == Some(m.attrs[k].attribute),
{
    lemma_covered(m.attrs, e, k, q);
}

proof fn lemma_covered(attrs: Seq<RangedTextAttribute>, e: Edit, k: int, q: int)
    requires
        0 <= e.start <= e.end,
        0 <= k < attrs.len(),
        attrs[k].range.start < e.start,
        e.end < attrs[k].range.end,
        attrs[k].range.end - (e.end - e.start) + e.text.len() <= usize::MAX,
        forall|j: int|
            k < j < attrs.len() ==> (#[trigger] attrs[j]).attribute.spec_kind()
                != attrs[k].attribute.spec_kind(),
        e.start <= q < e.start + e.text.len(),
    ensures
        effective(e.map_attrs(attrs), attrs[k].attribute.spec_kind(), q) == Some(attrs[k].attribute),
    decreases attrs.len(),
{
    let range = e.map_range(attrs.last().range);
    if range.start < range.end {
        assert(e.map_attrs(attrs).drop_last() =~= e.map_attrs(attrs.drop_last()));
    }
    if k < attrs.len() - 1 {
        let rest = attrs.drop_last();
        assert(attrs[attrs.len() - 1].attribute.spec_kind() != attrs[k].attribute.spec_kind());
        assert forall|j: int| k < j < rest.len() implies (#[trigger] rest[j]).attribute.spec_kind()
            != rest[k].attribute.spec_kind() by {
            assert(rest[j] == attrs[j]);
        }
        lemma_covered(rest, e, k, q);
    }
}

/// An attribute that touches the same one in front of it becomes one with it, so the attributes do not
/// get more and more. Merging never adds any.
pub proof fn law_touching_attributes_become_one(
    attrs: Seq<RangedTextAttribute>,
    attr: RangedTextAttribute,
)
    requires
        attrs.len() > 0,
        attrs.last().attribute == attr.attribute,
        attrs.last().range.start <= attr.range.end,
        attr.range.start <= attrs.last().range.end,
    ensures
        merged(attrs.push(attr)).len() == merged(attrs).len(),
        merged(attrs).len() <= attrs.len(),
{
    let rest = attrs.drop_last();
    lemma_merged_len(attrs);
    assert(attrs.push(attr).drop_last() =~= attrs);
    let kind = attr.attribute.spec_kind();
    let now = merged(attrs);
    lemma_latest(merged(rest), kind);
    lemma_latest(now, kind);
    if now.len() == merged(rest).len() {
        let i = latest_of_kind(merged(rest), kind)->0;
        assert(now[i].attribute.spec_kind() == kind);
        let j = latest_of_kind(now, kind)->0;
        if i < j {
            assert(now[j] == merged(rest)[j]);
        }
        assert(i == j);
    } else {
        assert(now.last() == attrs.last());
    }
}

proof fn lemma_merged_len(attrs: Seq<RangedTextAttribute>)
    ensures
        merged(attrs).len() <= attrs.len(),
    decreases attrs.len(),
{
    if attrs.len() > 0 {
        lemma_merged_len(attrs.drop_last());
        lemma_latest(merged(attrs.drop_last()), attrs.last().attribute.spec_kind());
    }
}

/// Cutting leaves no attributes that apply to nothing, if there were none.
pub proof fn law_cutting_leaves_nothing_empty(
    attrs: Seq<RangedTextAttribute>,
    start: int,
    end: int,
    k: int,
)
    requires
        0 <= start <= end <= usize::MAX,
        forall|i: int|
            0 <= i < attrs.len() ==> (#[trigger] attrs[i]).range.start < attrs[i].range.end,
        0 <= k < cut(attrs, start, end).len(),
    ensures
        cut(attrs, start, end)[k].range.start < cut(attrs, start, end)[k].range.end,
    decreases attrs.len(),
{
    let rest = attrs.drop_last();
    let before = cut(rest, start, end);
    let last = attrs[attrs.len() - 1];
    assert forall|i: int| 0 <= i < rest.len() implies (#[trigger] rest[i]).range.start
        < rest[i].range.end by {
        assert(rest[i] == attrs[i]);
    }
    assert(last.range.start < last.range.end);
    if k < before.len() {
        law_cutting_leaves_nothing_empty(rest, start, end, k);
    } else {
        assert(cut(attrs, start, end)[k] == cut_one(last, start, end)[k - before.len()]);
    }
}

/// Edits leave no attributes that apply to nothing.
pub proof fn law_edits_leave_nothing_empty(m: EditModel, e: Edit, k: int)
    requires
        0 <= k < m.edited(e).attrs.len(),
    ensures
        m.edited(e).attrs[k].range.start < m.edited(e).attrs[k].range.end,
{
    lemma_nothing_empty(m.attrs, e, k);
}

proof fn lemma_nothing_empty(attrs: Seq<RangedTextAttribute>, e: Edit, k: int)
    requires
        0 <= k < e.map_attrs(attrs).len(),
    ensures
        e.map_attrs(attrs)[k].range.start < e.map_attrs(attrs)[k].range.end,
    decreases attrs.len(),
{
    let before = e.map_attrs(attrs.drop_last());
    if k < before.len() {
        lemma_nothing_empty(attrs.drop_last(), e, k);
    }
}

/// Attributes override each other exactly if they say the same thing of the text.
pub proof fn law_attributes_are_of_their_own_kind(a: TextAttribute, b: TextAttribute)
    ensures
        a.spec_kind() == b.spec_kind() <==> {
            ||| a is FontFamily && b is FontFamily
            ||| a is FontSize && b is FontSize
            ||| a is FontWeight && b is FontWeight
            ||| a is TextColor && b is TextColor
            ||| a is Style && b is Style
            ||| a is Underline && b is Underline
            ||| a is Strikethrough && b is Strikethrough
        },
{
}

impl TextStroke {
    /// Merge touching ranged text attributes that are the same. The automatic line breaks split
    /// the attributes, without this they would get split into ever more parts.
    pub fn merge_adjacent_attrs(&mut self)
        ensures
            final(self).text@ == old(self).text@,
            final(self).text_style.ranged_text_attributes@ == merged(
                old(self).text_style.ranged_text_attributes@,
            ),
            final(self).same_base_style(old(self)),
    {
        let ghost attrs = self.text_style.ranged_text_attributes@;
        let mut done: Vec<RangedTextAttribute> = Vec::new();
        let mut j: usize = 0;
        while j < self.text_style.ranged_text_attributes.len()
            invariant
                j <= attrs.len(),
                attrs == self.text_style.ranged_text_attributes@,
                done@ == merged(attrs.take(j as int)),
            decreases attrs.len() - j,
        {
            let attr = self.text_style.ranged_text_attributes[j].clone();
            assert(attrs.take(j + 1).drop_last() =~= attrs.take(j as int));
            // Only merge with the latest attribute of the same kind, so attributes that override
            // each other keep their order.
            let own: AttributeKind = attr.attribute.kind();
            let ghost before = done@;
            let mut i: usize = done.len();
            assert(before.take(i as int) =~= before);
            while i > 0 && done[i - 1].attribute.kind() != own
                invariant
                    i <= done@.len(),
                    done@ == before,
                    own == attr.attribute.spec_kind(),
                    latest_of_kind(before, own) == latest_of_kind(before.take(i as int), own),
                decreases i,
            {
                assert(before.take(i as int).drop_last() =~= before.take(i - 1));
                i -= 1;
            }
            proof {
                assert(i > 0 ==> before.take(i as int).last() == before[i - 1]);
            }
            if i > 0 {
                let latest = done[i - 1].clone();
                if latest.attribute == attr.attribute && latest.range.start <= attr.range.end
                    && attr.range.start <= latest.range.end {
                    let start: usize = if attr.range.start < latest.range.start {
                        attr.range.start
                    } else {
                        latest.range.start
                    };
                    let end: usize = if attr.range.end > latest.range.end {
                        attr.range.end
                    } else {
                        latest.range.end
                    };
                    done.set(
                        i - 1,
                        RangedTextAttribute {
                            attribute: latest.attribute,
                            range: Range { start, end },
                        },
                    );
                } else {
                    done.push(attr);
                }
            } else {
                done.push(attr);
            }
            assert(done@ =~= merged_with(before, attrs[j as int]));
            j += 1;
        }
        assert(attrs.take(j as int) =~= attrs);
        self.text_style.ranged_text_attributes = done;
    }

    /// Remove the attributes from a range of the text. Attributes that reach out of it are cut.
    pub fn remove_attrs_for_range(&mut self, range: Range<usize>)
        ensures
            final(self).text@ == old(self).text@,
            final(self).text_style.ranged_text_attributes@ == cut(
                old(self).text_style.ranged_text_attributes@,
                range.start as int,
                range.end as int,
            ),
            final(self).same_base_style(old(self)),
    {
        let ghost attrs = self.text_style.ranged_text_attributes@;
        let start: usize = range.start;
        let end: usize = range.end;
        let mut done: Vec<RangedTextAttribute> = Vec::new();
        let mut j: usize = 0;
        while j < self.text_style.ranged_text_attributes.len()
            invariant
                j <= attrs.len(),
                attrs == self.text_style.ranged_text_attributes@,
                done@ == cut(attrs.take(j as int), start as int, end as int),
            decreases attrs.len() - j,
        {
            let attr = self.text_style.ranged_text_attributes[j].clone();
            assert(attrs.take(j + 1).drop_last() =~= attrs.take(j as int));
            let ghost before = done@;
            if attr.range.end > start && attr.range.start < end {
                if attr.range.start < start {
                    done.push(
                        RangedTextAttribute {
                            attribute: attr.attribute,
                            range: Range { start: attr.range.start, end: start },
                        },
                    );
                }
                if attr.range.end > end {
                    done.push(
                        RangedTextAttribute {
                            attribute: attr.attribute,
                            range: Range { start: end, end: attr.range.end },
                        },
                    );
                }
            } else {
                done.push(attr);
            }
            assert(done@ =~= before + cut_one(attrs[j as int], start as int, end as int));
            j += 1;
        }
        assert(attrs.take(j as int) =~= attrs);
        self.text_style.ranged_text_attributes = done;
    }
}

} // verus!
