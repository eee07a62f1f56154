//! Duplicate text items.
use crate::scalar::Scalar;
use crate::types::TextItem;
use vstd::prelude::*;

verus! {

use crate::exact::{
    lemma_negated, lemma_quotient_at_least, lemma_quotient_at_most, lemma_round_numbers,
    lemma_signed, lemma_sum_at_least, lemma_sum_at_most, one,
};
use crate::rounding::{lemma_nearest, magnitude, nearest};
use crate::scalar::{fraction, lemma_order_by_value, signed};
use crate::types::{item_views, TextItemView};

/// The left, right, top and bottom of what two boxes share.
pub open spec fn shared_box(a: TextItemView, b: TextItemView) -> (Scalar, Scalar, Scalar, Scalar) {
    (
        a.x.larger(b.x),
        a.x.sum(a.width).smaller(b.x.sum(b.width)),
        a.y.larger(b.y),
        a.y.sum(a.height).smaller(b.y.sum(b.height)),
    )
}

/// Whether the boxes of two items overlap.
pub open spec fn overlap(a: TextItemView, b: TextItemView) -> bool {
    let (left, right, top, bottom) = shared_box(a, b);
    !right.at_most(left) && !bottom.at_most(top)
}

/// Whether two boxes cover more than half of the smaller one together, and the larger one is at
/// most five times as large.
pub open spec fn coincide(a: TextItemView, b: TextItemView) -> bool {
    let (left, right, top, bottom) = shared_box(a, b);
    let intersection = right.difference(left).product(bottom.difference(top));
    let area_a = a.width.product(a.height);
    let area_b = b.width.product(b.height);
    let small = area_a.smaller(area_b);
    let large = area_a.larger(area_b);
    &&& signed(false, 0).less(small)
    &&& fraction(1, 2).less(intersection.quotient(small))
    &&& !fraction(5, 1).less(large.quotient(small))
}

/// In what way an item is repeated by another.
#[derive(Clone, Copy, Debug, PartialEq, Eq, Structural)]
pub enum Repeat {
    /// The same text, with any overlap.
    SameText,
    /// Different texts that nearly coincide.
    SameBox,
}

/// In what way `b` repeats `a`, if it does.
pub open spec fn repeat(a: TextItemView, b: TextItemView) -> Option<Repeat> {
    if !overlap(a, b) {
        None
    } else if a.text == b.text {
        Some(Repeat::SameText)
    } else if coincide(a, b) {
        Some(Repeat::SameBox)
    } else {
        None
    }
}

/// In what way the item at `i` is repeated by the first one from `from` on that repeats it.
pub open spec fn first_repeat(items: Seq<TextItemView>, i: int, from: int) -> Option<Repeat>
    decreases items.len() - from,
{
    if from >= items.len() {
        None
    } else if repeat(items[i], items[from]) is Some {
        repeat(items[i], items[from])
    } else {
        first_repeat(items, i, from + 1)
    }
}

/// Whether two items show the same thing: the same text with any overlap, or different texts
/// that nearly coincide.
pub open spec fn duplicates(a: TextItemView, b: TextItemView) -> bool {
    overlap(a, b) && (a.text == b.text || coincide(a, b))
}

/// Whether the item at `i` is repeated by one from `from` on.
pub open spec fn repeated_later(items: Seq<TextItemView>, i: int, from: int) -> bool {
    exists|j: int| from <= j < items.len() && duplicates(items[i], #[trigger] items[j])
}

/// What is left of the items from `from` on: those that no later item repeats.
pub open spec fn last_of_each(items: Seq<TextItemView>, from: int) -> Seq<TextItemView>
    decreases items.len() - from,
{
    if from >= items.len() {
        Seq::empty()
    } else if repeated_later(items, from, from + 1) {
        last_of_each(items, from + 1)
    } else {
        seq![items[from]] + last_of_each(items, from + 1)
    }
}

/// The items that no later item repeats, in order.
pub open spec fn deduplicated(items: Seq<TextItemView>) -> Seq<TextItemView> {
    last_of_each(items, 0)
}

/// An item is repeated in some way if and only if a later one is its duplicate.
pub proof fn lemma_first_repeat(items: Seq<TextItemView>, i: int, from: int)
    requires
        0 <= from,
    ensures
        first_repeat(items, i, from) is Some == repeated_later(items, i, from),
    decreases items.len() - from,
{
    if from < items.len() {
        lemma_first_repeat(items, i, from + 1);
        if duplicates(items[i], items[from]) {
            assert(repeated_later(items, i, from));
        }
    }
}

fn repeat_between(a: &TextItem, b: &TextItem) -> (r: Option<Repeat>)
    ensures
        r == repeat(a@, b@),
{
    let ix_left: Scalar = a.x.max(b.x);
    let ix_right: Scalar = a.x.plus(a.width).min(b.x.plus(b.width));
    let iy_top: Scalar = a.y.max(b.y);
    let iy_bottom: Scalar = a.y.plus(a.height).min(b.y.plus(b.height));
    if ix_right.le(ix_left) || iy_bottom.le(iy_top) {
        return None;
    }
    if a.text == b.text {
        return Some(Repeat::SameText);
    }
    let intersection: Scalar = ix_right.minus(ix_left).times(iy_bottom.minus(iy_top));
    let area_a: Scalar = a.width.times(a.height);
    let area_b: Scalar = b.width.times(b.height);
    let smaller_area: Scalar = area_a.min(area_b);
    if !Scalar::zero().lt(smaller_area) || !Scalar::ratio(1, 2).lt(
        intersection.over(smaller_area),
    ) {
        return None;
    }
    let larger_area: Scalar = area_a.max(area_b);
    if Scalar::ratio(5, 1).lt(larger_area.over(smaller_area)) {
        None
    } else {
        Some(Repeat::SameBox)
    }
}

/// In what way the item at `i` is repeated by the first later one that repeats it.
pub fn repeat_of(items: &[TextItem], i: usize) -> (r: Option<Repeat>)
    requires
        i < items@.len(),
    ensures
        r == first_repeat(item_views(items@), i as int, i + 1),
{
    let ghost views = item_views(items@);
    let len: usize = items.len();
    let mut j: usize = i + 1;
    while j < len
        invariant
            i < j <= len == items@.len() == views.len(),
            views == item_views(items@),
            first_repeat(views, i as int, i + 1) == first_repeat(views, i as int, j as int),
        decreases len - j,
    {
        let found: Option<Repeat> = repeat_between(&items[i], &items[j]);
        assert(views[i as int] == items@[i as int]@ && views[j as int] == items@[j as int]@);
        if found.is_some() {
            return found;
        }
        j = j + 1;
    }
    None
}

/// Removes every item that a later one repeats: with the same text and any overlap, or with
/// different text and nearly the same box.
pub fn dedup_overlapping_items(items: &mut Vec<TextItem>)
    ensures
        item_views(final(items)@) == deduplicated(item_views(old(items)@)),
{
    let ghost before = items@;
    let ghost views = item_views(before);
    let len: usize = items.len();
    let mut repeated: Vec<bool> = Vec::new();
    let mut i: usize = 0;
    while i < len
        invariant
            i <= len == items.len() == views.len(),
            repeated.len() == i,
            items@ == before,
            views == item_views(before),
            forall|k: int| 0 <= k < i ==> #[trigger] repeated@[k] == repeated_later(views, k, k + 1),
        decreases len - i,
    {
        proof {
            lemma_first_repeat(views, i as int, i + 1);
        }
        repeated.push(repeat_of(items.as_slice(), i).is_some());
        i = i + 1;
    }
    let mut n: usize = len;
    assert(before.take(len as int) == before);
    assert(views.take(len as int) == views);
    while n > 0
        invariant
            n <= len == views.len() == repeated.len(),
            n <= items.len(),
            views == item_views(before),
            item_views(items@) == views.take(n as int) + last_of_each(views, n as int),
            forall|k: int|
                0 <= k < len ==> #[trigger] repeated@[k] == repeated_later(views, k, k + 1),
        decreases n,
    {
        let ghost held = item_views(items@);
        n = n - 1;
        if repeated[n] {
            let _ = items.remove(n);
            proof {
                assert(item_views(items@) =~= held.remove(n as int));
                assert(held.remove(n as int) =~= views.take(n as int) + last_of_each(
                    views,
                    n as int,
                ));
            }
        } else {
            proof {
                assert(held =~= views.take(n as int) + last_of_each(views, n as int));
            }
        }
    }
    assert(views.take(0) + last_of_each(views, 0) =~= deduplicated(views));
}

/// The indices of the items from `from` on that no later item repeats.
pub open spec fn survivors(items: Seq<TextItemView>, from: int) -> Seq<int>
    decreases items.len() - from,
{
    if from >= items.len() {
        Seq::empty()
    } else if repeated_later(items, from, from + 1) {
        survivors(items, from + 1)
    } else {
        seq![from] + survivors(items, from + 1)
    }
}

proof fn lemma_survivors(items: Seq<TextItemView>, from: int)
    requires
        0 <= from <= items.len(),
    ensures
        ({
            let kept = survivors(items, from);
            let left = last_of_each(items, from);
            &&& left.len() == kept.len()
            &&& forall|k: int|
                0 <= k < kept.len() ==> {
                    &&& from <= #[trigger] kept[k] < items.len()
                    &&& !repeated_later(items, kept[k], kept[k] + 1)
                    &&& left[k] == items[kept[k]]
                }
            &&& forall|j: int, k: int| 0 <= j < k < kept.len() ==> kept[j] < kept[k]
            &&& forall|i: int|
                from <= i < items.len() && !repeated_later(items, i, i + 1) ==> kept.contains(i)
        }),
    decreases items.len() - from,
{
    if from < items.len() {
        lemma_survivors(items, from + 1);
        let rest = survivors(items, from + 1);
        let kept = survivors(items, from);
        if !repeated_later(items, from, from + 1) {
            assert forall|i: int|
                from <= i < items.len() && !repeated_later(items, i, i + 1) implies kept.contains(
                i,
            ) by {
                if i == from {
                    assert(kept[0] == from);
                } else {
                    assert(rest.contains(i));
                    let k = choose|k: int| 0 <= k < rest.len() && rest[k] == i;
                    assert(kept[k + 1] == i);
                }
            }
        }
    }
}

/// What is left are exactly the items that no later item repeats, in their order.
pub proof fn lemma_deduplicated_survivors(items: Seq<TextItemView>)
    ensures
        ({
            let kept = survivors(items, 0);
            let left = deduplicated(items);
            &&& left == kept.map_values(|i: int| items[i])
            &&& forall|j: int, k: int| 0 <= j < k < kept.len() ==> kept[j] < kept[k]
            &&& forall|i: int|
                kept.contains(i) <==> 0 <= i < items.len() && !repeated_later(items, i, i + 1)
        }),
{
    lemma_survivors(items, 0);
    assert(deduplicated(items) =~= survivors(items, 0).map_values(|i: int| items[i]));
}

/// What is left holds no duplicates: no item is repeated by a later one.
pub proof fn lemma_deduplicated_distinct(items: Seq<TextItemView>)
    ensures
        forall|i: int, j: int|
            0 <= i < j < deduplicated(items).len() ==> !duplicates(
                #[trigger] deduplicated(items)[i],
                #[trigger] deduplicated(items)[j],
            ),
{
    lemma_survivors(items, 0);
    let kept = survivors(items, 0);
    let left = deduplicated(items);
    assert forall|i: int, j: int| 0 <= i < j < left.len() implies !duplicates(
        #[trigger] left[i],
        #[trigger] left[j],
    ) by {
        assert(!repeated_later(items, kept[i], kept[i] + 1));
        assert(left[j] == items[kept[j]]);
    }
}

proof fn lemma_distinct_kept(items: Seq<TextItemView>, from: int)
    requires
        0 <= from <= items.len(),
        forall|i: int, j: int|
            0 <= i < j < items.len() ==> !duplicates(#[trigger] items[i], #[trigger] items[j]),
    ensures
        last_of_each(items, from) == items.skip(from),
    decreases items.len() - from,
{
    if from < items.len() {
        lemma_distinct_kept(items, from + 1);
        assert(!repeated_later(items, from, from + 1));
        assert(items.skip(from) =~= seq![items[from]] + items.skip(from + 1));
    } else {
        assert(items.skip(from) =~= Seq::empty());
    }
}

/// A list without duplicates stays as it is.
pub proof fn lemma_distinct_unchanged(items: Seq<TextItemView>)
    requires
        forall|i: int, j: int|
            0 <= i < j < items.len() ==> !duplicates(#[trigger] items[i], #[trigger] items[j]),
    ensures
        deduplicated(items) == items,
{
    lemma_distinct_kept(items, 0);
    assert(items.skip(0) =~= items);
}

/// Removing duplicates twice removes them once.
pub proof fn lemma_deduplicated_idempotent(items: Seq<TextItemView>)
    ensures
        deduplicated(deduplicated(items)) == deduplicated(items),
{
    lemma_deduplicated_distinct(items);
    lemma_distinct_unchanged(deduplicated(items));
}

/// Of items that repeat each other the last one stays: the final item always does.
pub proof fn lemma_deduplicated_keeps_last(items: Seq<TextItemView>)
    requires
        items.len() > 0,
    ensures
        deduplicated(items).len() > 0,
        deduplicated(items).last() == items.last(),
{
    lemma_survivors(items, 0);
    let kept = survivors(items, 0);
    let n = items.len() - 1;
    assert(!repeated_later(items, n, n + 1));
    assert(kept.contains(n));
    let k = choose|k: int| 0 <= k < kept.len() && kept[k] == n;
    if k < kept.len() - 1 {
        assert(kept[k] < kept[kept.len() - 1]);
    }
}

/// Whether the place and the size of an item are numbers.
pub open spec fn placed(item: TextItemView) -> bool {
    item.x.finite() && item.y.finite() && item.width.finite() && item.height.finite()
}

/// Whether two boxes lie beside or above each other: one ends, exactly, where the other begins or
/// before.
pub open spec fn apart(a: TextItemView, b: TextItemView) -> bool {
    ||| a.x.value() + a.width.value() <= b.x.value()
    ||| b.x.value() + b.width.value() <= a.x.value()
    ||| a.y.value() + a.height.value() <= b.y.value()
    ||| b.y.value() + b.height.value() <= a.y.value()
}

/// Of two intervals one of which ends before the other begins nothing is shared.
proof fn lemma_nothing_shared(a: Scalar, m: Scalar, b: Scalar, n: Scalar)
    requires
        a.finite() && m.finite() && b.finite() && n.finite(),
        a.value() + m.value() <= b.value() || b.value() + n.value() <= a.value(),
    ensures
        a.sum(m).smaller(b.sum(n)).at_most(a.larger(b)),
{
    lemma_order_by_value(a, b);
    lemma_order_by_value(b, a);
    if a.value() + m.value() <= b.value() {
        lemma_sum_at_most(a, m, b);
    } else {
        lemma_sum_at_most(b, n, a);
    }
    if b.value() + n.value() <= 0 {
        lemma_sum_at_most(b, n, signed(false, 0));
    } else {
        lemma_sum_at_least(b, n, signed(false, 0));
    }
    if a.value() + m.value() <= 0 {
        lemma_sum_at_most(a, m, signed(false, 0));
    } else {
        lemma_sum_at_least(a, m, signed(false, 0));
    }
}

/// Items whose boxes lie apart are no duplicates, whatever they say.
pub proof fn lemma_apart_never_duplicates(a: TextItemView, b: TextItemView)
    requires
        placed(a) && placed(b),
        apart(a, b),
    ensures
        !duplicates(a, b),
{
    if a.x.value() + a.width.value() <= b.x.value() || b.x.value() + b.width.value()
        <= a.x.value() {
        lemma_nothing_shared(a.x, a.width, b.x, b.width);
    } else {
        lemma_nothing_shared(a.y, a.height, b.y, b.height);
    }
}

/// An item that lies apart from all later ones stays.
pub proof fn lemma_apart_item_stays(items: Seq<TextItemView>, i: int)
    requires
        0 <= i < items.len(),
        forall|j: int|
            i <= j < items.len() ==> placed(#[trigger] items[j]) && (j > i ==> apart(
                items[i],
                items[j],
            )),
    ensures
        survivors(items, 0).contains(i),
        deduplicated(items).contains(items[i]),
{
    let kept = survivors(items, 0);
    assert forall|j: int| i + 1 <= j < items.len() implies !duplicates(
        items[i],
        #[trigger] items[j],
    ) by {
        lemma_apart_never_duplicates(items[i], items[j]);
    }
    assert(!repeated_later(items, i, i + 1));
    lemma_survivors(items, 0);
    assert(kept.contains(i));
    let k = choose|k: int| 0 <= k < kept.len() && kept[k] == i;
    assert(last_of_each(items, 0)[k] == items[kept[k]]);
}

/// A list of items that all lie apart, such as the cells of a table, stays whole.
pub proof fn lemma_apart_items_stay(items: Seq<TextItemView>)
    requires
        forall|i: int| 0 <= i < items.len() ==> placed(#[trigger] items[i]),
        forall|i: int, j: int|
            0 <= i < j < items.len() ==> apart(#[trigger] items[i], #[trigger] items[j]),
    ensures
        deduplicated(items) == items,
{
    assert forall|i: int, j: int| 0 <= i < j < items.len() implies !duplicates(
        #[trigger] items[i],
        #[trigger] items[j],
    ) by {
        lemma_apart_never_duplicates(items[i], items[j]);
    }
    lemma_distinct_unchanged(items);
}

/// Whether a box with sides at `left`, `right`, `top` and `bottom` lies, exactly, in that of an
/// item.
pub open spec fn holds(
    item: TextItemView,
    left: Scalar,
    right: Scalar,
    top: Scalar,
    bottom: Scalar,
) -> bool {
    &&& item.x.value() <= left.value()
    &&& right.value() <= item.x.value() + item.width.value()
    &&& item.y.value() <= top.value()
    &&& bottom.value() <= item.y.value() + item.height.value()
}

proof fn lemma_something_shared(
    a: Scalar,
    m: Scalar,
    b: Scalar,
    n: Scalar,
    from: Scalar,
    to: Scalar,
)
    requires
        a.finite() && m.finite() && b.finite() && n.finite() && from.finite() && to.finite(),
        from.value() < to.value(),
        a.value() <= from.value() && to.value() <= a.value() + m.value(),
        b.value() <= from.value() && to.value() <= b.value() + n.value(),
    ensures
        a.larger(b).less(a.sum(m).smaller(b.sum(n))),
{
    lemma_order_by_value(a, from);
    lemma_order_by_value(b, from);
    lemma_order_by_value(a, b);
    lemma_order_by_value(from, to);
    lemma_sum_at_least(a, m, to);
    lemma_sum_at_least(b, n, to);
}

/// Of two items with the same text whose boxes share any area, the earlier one goes.
pub proof fn lemma_same_text_goes(
    items: Seq<TextItemView>,
    i: int,
    j: int,
    left: Scalar,
    right: Scalar,
    top: Scalar,
    bottom: Scalar,
)
    requires
        0 <= i < j < items.len(),
        items[i].text == items[j].text,
        placed(items[i]) && placed(items[j]),
        left.finite() && right.finite() && top.finite() && bottom.finite(),
        left.value() < right.value() && top.value() < bottom.value(),
        holds(items[i], left, right, top, bottom) && holds(items[j], left, right, top, bottom),
    ensures
        repeat(items[i], items[j]) == Some(Repeat::SameText),
        !survivors(items, 0).contains(i),
{
    let (a, b) = (items[i], items[j]);
    lemma_something_shared(a.x, a.width, b.x, b.width, left, right);
    lemma_something_shared(a.y, a.height, b.y, b.height, top, bottom);
    lemma_deduplicated_survivors(items);
    assert(duplicates(items[i], items[j]));
    assert(repeated_later(items, i, i + 1));
}

/// The area that an item covers, rounded.
pub open spec fn area(item: TextItemView) -> Scalar {
    item.width.product(item.height)
}

/// The area that two boxes share, where they share any: between the larger of the lefts and tops
/// and the smaller of the rights and bottoms, each step rounded.
pub open spec fn shared_area(a: TextItemView, b: TextItemView) -> Scalar {
    a.x.sum(a.width).smaller(b.x.sum(b.width)).difference(a.x.larger(b.x)).product(
        a.y.sum(a.height).smaller(b.y.sum(b.height)).difference(a.y.larger(b.y)),
    )
}

/// Whether the sides and areas of two items are numbers, none of them out of range.
pub open spec fn measured(a: TextItemView, b: TextItemView) -> bool {
    &&& placed(a) && placed(b)
    &&& a.x.sum(a.width).finite() && a.y.sum(a.height).finite()
    &&& b.x.sum(b.width).finite() && b.y.sum(b.height).finite()
    &&& area(a).finite() && area(b).finite() && shared_area(a, b).finite()
}

proof fn lemma_positive(a: Scalar)
    requires
        a.finite(),
        a.value() > 0,
    ensures
        !a.negative(),
        signed(false, 0).less(a),
{
    lemma_order_by_value(signed(false, 0), a);
    lemma_order_by_value(a, signed(false, 0));
}

proof fn lemma_product_not_negative(a: Scalar, b: Scalar)
    requires
        !a.negative() && !b.negative(),
        a.product(b).finite(),
    ensures
        !a.product(b).negative(),
{
    reveal(Scalar::product);
    let (num, den) = (
        magnitude(a.position()) * magnitude(b.position()),
        vstd::arithmetic::power2::pow2(149) as int,
    );
    vstd::arithmetic::power2::lemma_pow2_pos(149);
    lemma_nearest(num, den);
    lemma_signed(false, nearest(num, den));
}

proof fn lemma_shared_area(a: TextItemView, b: TextItemView)
    requires
        measured(a, b),
        overlap(a, b),
    ensures
        !shared_area(a, b).negative(),
{
    let (left, right) = (a.x.larger(b.x), a.x.sum(a.width).smaller(b.x.sum(b.width)));
    let (top, bottom) = (a.y.larger(b.y), a.y.sum(a.height).smaller(b.y.sum(b.height)));
    lemma_order_by_value(right, left);
    lemma_order_by_value(bottom, top);
    let (w, h) = (right.difference(left), bottom.difference(top));
    lemma_difference_not_negative(right, left);
    lemma_difference_not_negative(bottom, top);
    lemma_product_not_negative(w, h);
}

proof fn lemma_difference_not_negative(a: Scalar, b: Scalar)
    requires
        a.finite() && b.finite(),
        a.value() > b.value(),
    ensures
        !a.difference(b).negative(),
{
    reveal(Scalar::sum);
    lemma_negated(b);
    let exact = a.value() - b.value();
    lemma_nearest(exact, 1);
    lemma_signed(false, nearest(exact, 1));
}

/// Different texts are no duplicates where their boxes share at most half of the smaller one.
pub proof fn lemma_half_covered_stays(a: TextItemView, b: TextItemView)
    requires
        measured(a, b),
        a.text != b.text,
        area(a).value() <= area(b).value() ==> 2 * shared_area(a, b).value() <= area(a).value(),
        area(b).value() <= area(a).value() ==> 2 * shared_area(a, b).value() <= area(b).value(),
    ensures
        !duplicates(a, b),
{
    let (i, s) = (shared_area(a, b), area(a).smaller(area(b)));
    lemma_order_by_value(area(a), area(b));
    lemma_order_by_value(area(b), area(a));
    if overlap(a, b) && signed(false, 0).less(s) {
        lemma_order_by_value(signed(false, 0), s);
        lemma_shared_area(a, b);
        lemma_round_numbers();
        let half = fraction(1, 2);
        assert(i.value() * one() <= half.value() * s.value()) by (nonlinear_arith)
            requires
                2 * i.value() <= s.value(),
                2 * half.value() == one(),
                one() > 0,
        ;
        lemma_positive(half);
        lemma_positive(s);
        lemma_quotient_at_most(i, s, half);
    }
}

/// Different texts are no duplicates where the box of one is, by some number over five, that many
/// times as large as the other.
pub proof fn lemma_much_larger_stays(a: TextItemView, b: TextItemView, times: Scalar)
    requires
        measured(a, b),
        a.text != b.text,
        times.finite() && times.value() > 5 * one(),
        times.value() * area(a).value() <= area(b).value() * one() || times.value() * area(
            b,
        ).value() <= area(a).value() * one(),
    ensures
        !duplicates(a, b),
{
    let (s, l) = (area(a).smaller(area(b)), area(a).larger(area(b)));
    lemma_order_by_value(area(a), area(b));
    lemma_order_by_value(area(b), area(a));
    lemma_round_numbers();
    if signed(false, 0).less(s) {
        lemma_order_by_value(signed(false, 0), s);
        lemma_positive(s);
        lemma_positive(l);
        let (t, x, y, u) = (times.value(), area(a).value(), area(b).value(), one());
        assert(t * s.value() <= l.value() * u) by (nonlinear_arith)
            requires
                t * x <= y * u || t * y <= x * u,
                x <= y ==> s.value() == x && l.value() == y,
                y <= x ==> s.value() == y && l.value() == x,
                t > u,
                u > 0,
                x > 0,
                y > 0,
        ;
        lemma_quotient_at_least(l, s, times);
        lemma_order_by_value(fraction(5, 1), times);
    }
}

/// Different texts are duplicates where their boxes share, by some number over one half, that
/// much of the smaller one, and the larger one is at most five times as large.
pub proof fn lemma_mostly_covered_goes(a: TextItemView, b: TextItemView, share: Scalar)
    requires
        measured(a, b),
        a.text != b.text,
        a.x.larger(b.x).less(a.x.sum(a.width).smaller(b.x.sum(b.width))),
        a.y.larger(b.y).less(a.y.sum(a.height).smaller(b.y.sum(b.height))),
        area(a).value() > 0 && area(b).value() > 0,
        share.finite() && 2 * share.value() > one(),
        area(a).value() <= area(b).value() ==> share.value() * area(a).value() <= shared_area(
            a,
            b,
        ).value() * one() && area(b).value() <= 5 * area(a).value(),
        area(b).value() <= area(a).value() ==> share.value() * area(b).value() <= shared_area(
            a,
            b,
        ).value() * one() && area(a).value() <= 5 * area(b).value(),
    ensures
        repeat(a, b) == Some(Repeat::SameBox),
        duplicates(a, b),
{
    let (s, l) = (area(a).smaller(area(b)), area(a).larger(area(b)));
    let i = shared_area(a, b);
    lemma_order_by_value(area(a), area(b));
    lemma_order_by_value(area(b), area(a));
    lemma_round_numbers();
    lemma_positive(s);
    lemma_positive(l);
    lemma_shared_area(a, b);
    lemma_quotient_at_least(i, s, share);
    lemma_order_by_value(fraction(1, 2), share);
    let five = fraction(5, 1);
    lemma_positive(five);
    assert(l.value() * one() <= five.value() * s.value()) by (nonlinear_arith)
        requires
            l.value() <= 5 * s.value(),
            five.value() == 5 * one(),
            one() > 0,
    ;
    lemma_quotient_at_most(l, s, five);
}

/// The way in which an item is repeated is that of the first later item which repeats it, and it
/// tells whether the two have the same text.
pub proof fn lemma_first_repeat_is_first(items: Seq<TextItemView>, i: int, from: int)
    requires
        0 <= from,
    ensures
        match first_repeat(items, i, from) {
            Some(way) => exists|j: int|
                #![trigger items[j]]
                from <= j < items.len() && duplicates(items[i], items[j]) && (way
                    == Repeat::SameText <==> items[i].text == items[j].text) && forall|k: int|
                    from <= k < j ==> !duplicates(items[i], #[trigger] items[k]),
            None => forall|j: int|
                from <= j < items.len() ==> !duplicates(items[i], #[trigger] items[j]),
        },
    decreases items.len() - from,
{
    if from < items.len() {
        lemma_first_repeat_is_first(items, i, from + 1);
        if repeat(items[i], items[from]) is Some {
            assert(duplicates(items[i], items[from]));
        }
    }
}

/// Different texts are no duplicates where one of them covers no area.
pub proof fn lemma_without_area_stays(a: TextItemView, b: TextItemView)
    requires
        a.text != b.text,
        area(a).finite() && area(b).finite(),
        area(a).value() <= 0 || area(b).value() <= 0,
    ensures
        !duplicates(a, b),
{
    let zero = signed(false, 0);
    lemma_order_by_value(area(a), area(b));
    lemma_order_by_value(area(b), area(a));
    lemma_order_by_value(zero, area(a));
    lemma_order_by_value(zero, area(b));
}

} // verus!
