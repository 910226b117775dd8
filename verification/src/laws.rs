//! Laws of the index and of its queries, proved over the models that the
//! contracts of the library speak of.

use vstd::prelude::*;
use crate::content::{Element, Location};
use crate::frame::{
    distinct_locations, frame_entries, item_entries, items_entries, Entry, Frame, FrameItem,
    GroupItem, Meta,
};
use crate::geometry::{lemma_pre_concat_applies_in_turn, Affine, Place, Point, Vector};
use crate::introspector::{lemma_located, located, place_of};
use crate::query::rank;
use crate::order::{increasing, lemma_lists_is_ordered, lemma_ordered_lists, lists, ordered};
use crate::selector::{
    answer, lemma_selected_and, lemma_selected_or, selected, snapshots, SelectorView,
};

verus! {

/// Every answer is in document order: it holds the snapshots at a run of
/// document indices that rises strictly, so that no index occurs twice, and
/// each of them is an index of the document.
pub proof fn law_answer_in_document_order(entries: Seq<Entry>, selector: SelectorView)
    ensures
        ({
            let idx = ordered(entries.len(), selected(entries, selector));
            &&& answer(entries, selector) == snapshots(entries, idx)
            &&& increasing(idx)
            &&& idx.no_duplicates()
            &&& forall|j: int| 0 <= j < idx.len() ==> 0 <= #[trigger] idx[j] < entries.len()
        }),
{
    let idx = ordered(entries.len(), selected(entries, selector));
    lemma_ordered_lists(entries.len(), selected(entries, selector));
    assert forall|a: int, b: int| 0 <= a < idx.len() && 0 <= b < idx.len() && a != b implies idx[a]
        != idx[b] by {
        if a < b {
            assert(idx[a] < idx[b]);
        } else {
            assert(idx[b] < idx[a]);
        }
    }
}

/// In an index that holds no location twice, the elements of an answer rise
/// strictly in document index, and so no element occurs twice in it.
pub proof fn law_answer_rises(entries: Seq<Entry>, selector: SelectorView, a: int, b: int)
    requires
        distinct_locations(entries),
        0 <= a < b < answer(entries, selector).len(),
    ensures
        rank(entries, answer(entries, selector)[a].location) < rank(
            entries,
            answer(entries, selector)[b].location,
        ),
        answer(entries, selector)[a].location != answer(entries, selector)[b].location,
{
    let idx = ordered(entries.len(), selected(entries, selector));
    lemma_ordered_lists(entries.len(), selected(entries, selector));
    assert(0 <= idx[a] < entries.len());
    assert(0 <= idx[b] < entries.len());
    assert(idx[a] < idx[b]);
    lemma_located(entries, idx[a]);
    lemma_located(entries, idx[b]);
}

/// Range selectors cut where they should. Where the inner selector selects
/// every element and the first element that the boundary selects has the
/// document index `k`, the elements before it are those with the indices
/// from zero up to `k`, and the elements after it those from `k` on; the
/// boundary itself is among them exactly where the range is inclusive.
pub proof fn law_range(entries: Seq<Entry>, inner: SelectorView, bound: SelectorView, k: int)
    requires
        forall|i: int| 0 <= i < entries.len() ==> selected(entries, inner).contains(i),
        ordered(entries.len(), selected(entries, bound)).len() > 0,
        ordered(entries.len(), selected(entries, bound))[0] == k,
    ensures
        0 <= k < entries.len(),
        ordered(
            entries.len(),
            selected(
                entries,
                SelectorView::Before {
                    selector: Box::new(inner),
                    end: Box::new(bound),
                    inclusive: true,
                },
            ),
        ) == Seq::new((k + 1) as nat, |i: int| i),
        ordered(
            entries.len(),
            selected(
                entries,
                SelectorView::Before {
                    selector: Box::new(inner),
                    end: Box::new(bound),
                    inclusive: false,
                },
            ),
        ) == Seq::new(k as nat, |i: int| i),
        ordered(
            entries.len(),
            selected(
                entries,
                SelectorView::After {
                    selector: Box::new(inner),
                    start: Box::new(bound),
                    inclusive: true,
                },
            ),
        ) == Seq::new((entries.len() - k) as nat, |i: int| k + i),
        ordered(
            entries.len(),
            selected(
                entries,
                SelectorView::After {
                    selector: Box::new(inner),
                    start: Box::new(bound),
                    inclusive: false,
                },
            ),
        ) == Seq::new((entries.len() - k - 1) as nat, |i: int| k + 1 + i),
{
    let n = entries.len();
    lemma_ordered_lists(n, selected(entries, bound));
    let bounds = ordered(n, selected(entries, bound));
    assert(0 <= bounds[0] < n);
    let upto = Seq::new((k + 1) as nat, |i: int| i);
    let below = Seq::new(k as nat, |i: int| i);
    let from = Seq::new((n - k) as nat, |i: int| k + i);
    let above = Seq::new((n - k - 1) as nat, |i: int| k + 1 + i);
    let before_with = selected(
        entries,
        SelectorView::Before { selector: Box::new(inner), end: Box::new(bound), inclusive: true },
    );
    let before_without = selected(
        entries,
        SelectorView::Before { selector: Box::new(inner), end: Box::new(bound), inclusive: false },
    );
    let after_with = selected(
        entries,
        SelectorView::After { selector: Box::new(inner), start: Box::new(bound), inclusive: true },
    );
    let after_without = selected(
        entries,
        SelectorView::After { selector: Box::new(inner), start: Box::new(bound), inclusive: false },
    );
    assert forall|i: int| 0 <= i < n && before_with.contains(i) implies #[trigger] upto.contains(
        i,
    ) by {
        assert(upto[i] == i);
    }
    assert forall|j: int| 0 <= j < upto.len() implies 0 <= #[trigger] upto[j] < n
        && before_with.contains(upto[j]) by {
        assert(selected(entries, inner).contains(j));
    }
    assert(lists(upto, n, before_with));
    lemma_lists_is_ordered(upto, n, before_with);
    assert forall|i: int| 0 <= i < n && before_without.contains(i) implies #[trigger] below.contains(
        i,
    ) by {
        assert(below[i] == i);
    }
    assert forall|j: int| 0 <= j < below.len() implies 0 <= #[trigger] below[j] < n
        && before_without.contains(below[j]) by {
        assert(selected(entries, inner).contains(j));
    }
    assert(lists(below, n, before_without));
    lemma_lists_is_ordered(below, n, before_without);
    assert forall|i: int| 0 <= i < n && after_with.contains(i) implies #[trigger] from.contains(
        i,
    ) by {
        assert(from[i - k] == i);
    }
    assert forall|j: int| 0 <= j < from.len() implies 0 <= #[trigger] from[j] < n
        && after_with.contains(from[j]) by {
        assert(selected(entries, inner).contains(k + j));
    }
    assert(lists(from, n, after_with));
    lemma_lists_is_ordered(from, n, after_with);
    assert forall|i: int| 0 <= i < n && after_without.contains(i) implies #[trigger] above.contains(
        i,
    ) by {
        assert(above[i - k - 1] == i);
    }
    assert forall|j: int| 0 <= j < above.len() implies 0 <= #[trigger] above[j] < n
        && after_without.contains(above[j]) by {
        assert(selected(entries, inner).contains(k + 1 + j));
    }
    assert(lists(above, n, after_without));
    lemma_lists_is_ordered(above, n, after_without);
}

/// An intersection does not depend on the order of its two selectors:
/// either way it selects the same set of elements and answers with the same
/// list.
pub proof fn law_and_commutes(entries: Seq<Entry>, a: SelectorView, b: SelectorView)
    ensures
        selected(entries, SelectorView::And(seq![a, b])) == selected(
            entries,
            SelectorView::And(seq![b, a]),
        ),
        answer(entries, SelectorView::And(seq![a, b])) == answer(
            entries,
            SelectorView::And(seq![b, a]),
        ),
{
    let ab = seq![a, b];
    let ba = seq![b, a];
    let left = selected(entries, SelectorView::And(ab));
    let right = selected(entries, SelectorView::And(ba));
    assert forall|i: int| left.contains(i) <==> right.contains(i) by {
        lemma_selected_and(entries, ab, i);
        lemma_selected_and(entries, ba, i);
        if left.contains(i) {
            assert(selected(entries, ab[0]).contains(i));
            assert(selected(entries, ab[1]).contains(i));
            assert forall|k: int| 0 <= k < ba.len() implies selected(
                entries,
                #[trigger] ba[k],
            ).contains(i) by {}
        }
        if right.contains(i) {
            assert(selected(entries, ba[0]).contains(i));
            assert(selected(entries, ba[1]).contains(i));
            assert forall|k: int| 0 <= k < ab.len() implies selected(
                entries,
                #[trigger] ab[k],
            ).contains(i) by {}
        }
    }
    assert(left =~= right);
}

/// An intersection selects what both of its selectors select.
pub proof fn law_and_selects_common(entries: Seq<Entry>, a: SelectorView, b: SelectorView, i: int)
    ensures
        selected(entries, SelectorView::And(seq![a, b])).contains(i) <==> selected(
            entries,
            a,
        ).contains(i) && selected(entries, b).contains(i),
{
    let ab = seq![a, b];
    lemma_selected_and(entries, ab, i);
    if selected(entries, a).contains(i) && selected(entries, b).contains(i) {
        assert forall|k: int| 0 <= k < ab.len() implies selected(entries, #[trigger] ab[k]).contains(
            i,
        ) by {}
    }
    if selected(entries, SelectorView::And(ab)).contains(i) {
        assert(selected(entries, ab[0]).contains(i));
        assert(selected(entries, ab[1]).contains(i));
    }
}

/// A union lists an element once, whether one of its selectors selects it
/// or both: the element's document index stands at exactly one place of the
/// listing.
pub proof fn law_or_lists_once(entries: Seq<Entry>, a: SelectorView, b: SelectorView, i: int)
    requires
        0 <= i < entries.len(),
        selected(entries, a).contains(i) || selected(entries, b).contains(i),
    ensures
        ({
            let idx = ordered(entries.len(), selected(entries, SelectorView::Or(seq![a, b])));
            exists|j: int|
                0 <= j < idx.len() && #[trigger] idx[j] == i && forall|other: int|
                    0 <= other < idx.len() && idx[other] == i ==> other == j
        }),
{
    let ab = seq![a, b];
    let set = selected(entries, SelectorView::Or(ab));
    let idx = ordered(entries.len(), set);
    lemma_selected_or(entries, ab, i);
    if selected(entries, a).contains(i) {
        assert(selected(entries, ab[0]).contains(i));
    } else {
        assert(selected(entries, ab[1]).contains(i));
    }
    lemma_ordered_lists(entries.len(), set);
    assert(idx.contains(i));
    let j = choose|j: int| 0 <= j < idx.len() && idx[j] == i;
    assert forall|other: int| 0 <= other < idx.len() && idx[other] == i implies other == j by {
        if other < j {
            assert(idx[other] < idx[j]);
        } else if j < other {
            assert(idx[j] < idx[other]);
        }
    }
}

/// A location at which no element stands resolves to the origin of page one.
pub proof fn law_unknown_location(entries: Seq<Entry>, location: Location)
    requires
        forall|i: int| 0 <= i < entries.len() ==> (#[trigger] entries[i]).0.location != location,
    ensures
        place_of(entries, location) == (Place { page: 1, point: Vector::origin() }),
{
    let set = selected(entries, SelectorView::Location(location));
    lemma_ordered_lists(entries.len(), set);
    let at = located(entries, location);
    if at.len() > 0 {
        assert(set.contains(at[0]));
        assert(entries[at[0]].0.location == location);
    }
}

/// In an index that holds no location twice, the location of an element
/// resolves to the place at which that element landed.
pub proof fn law_known_location(entries: Seq<Entry>, k: int)
    requires
        distinct_locations(entries),
        0 <= k < entries.len(),
    ensures
        place_of(entries, entries[k].0.location) == entries[k].1,
{
    lemma_located(entries, k);
}

/// Nested transforms compose from the inside out. A point seen through an
/// inner group, which stands at `inner_offset` in an outer group, which
/// stands at `outer_offset` on the page, lands where the inner transform,
/// the inner offset, the outer transform and the outer offset take it, in
/// this order.
pub proof fn law_nested_transforms(
    outer: Affine,
    outer_offset: Vector,
    inner: Affine,
    inner_offset: Vector,
    p: Vector,
)
    ensures
        Affine::identity().descend(outer_offset, outer).descend(inner_offset, inner).apply(p)
            == outer.apply(inner.apply(p).plus(inner_offset)).plus(outer_offset),
{
    let id = Affine::identity();
    let outer_move = Affine::translate(outer_offset.x, outer_offset.y);
    let inner_move = Affine::translate(inner_offset.x, inner_offset.y);
    let page_to_outer = id.descend(outer_offset, outer);
    let q = inner.apply(p);
    lemma_pre_concat_applies_in_turn(page_to_outer.pre_concat(inner_move), inner, p);
    lemma_pre_concat_applies_in_turn(page_to_outer, inner_move, q);
    assert(inner_move.apply(q) == q.plus(inner_offset));
    let r = q.plus(inner_offset);
    lemma_pre_concat_applies_in_turn(id.pre_concat(outer_move), outer, r);
    lemma_pre_concat_applies_in_turn(id, outer_move, outer.apply(r));
    assert(outer_move.apply(outer.apply(r)) == outer.apply(r).plus(outer_offset));
    assert(id.apply(outer.apply(r).plus(outer_offset)) == outer.apply(r).plus(outer_offset));
}

/// An element that stands two groups deep on a page is recorded at the
/// point to which the nested transforms take its own point.
pub proof fn law_nested_element(
    page: Frame,
    number: int,
    outer_at: Point,
    outer: GroupItem,
    inner_at: Point,
    inner: GroupItem,
    at: Point,
    elem: Element,
)
    requires
        page.items@ == seq![(outer_at, FrameItem::Group(outer))],
        outer.frame.items@ == seq![(inner_at, FrameItem::Group(inner))],
        inner.frame.items@ == seq![(at, FrameItem::Meta(Meta::Elem(elem)))],
    ensures
        frame_entries(page, number, Affine::identity()) == seq![
            (
                elem,
                Place {
                    page: number,
                    point: outer.transform@.apply(
                        inner.transform@.apply(at@).plus(inner_at@),
                    ).plus(outer_at@),
                },
            ),
        ],
{
    let id = Affine::identity();
    let first = id.descend(outer_at@, outer.transform@);
    let second = first.descend(inner_at@, inner.transform@);
    law_nested_transforms(outer.transform@, outer_at@, inner.transform@, inner_at@, at@);
    lemma_single_item(inner.frame.items@, number, second);
    lemma_single_item(outer.frame.items@, number, first);
    lemma_single_item(page.items@, number, id);
    reveal_with_fuel(frame_entries, 4);
    reveal_with_fuel(item_entries, 4);
    assert(frame_entries(inner.frame, number, second) == item_entries(
        inner.frame.items@[0],
        number,
        second,
    ));
    assert(frame_entries(outer.frame, number, first) == item_entries(
        outer.frame.items@[0],
        number,
        first,
    ));
    assert(frame_entries(page, number, id) == item_entries(page.items@[0], number, id));
}

/// What the walk meets in a run of one item is what it meets in that item.
proof fn lemma_single_item(items: Seq<(Point, FrameItem)>, page: int, ts: Affine)
    requires
        items.len() == 1,
    ensures
        items_entries(items, page, ts) == item_entries(items[0], page, ts),
{
    reveal_with_fuel(items_entries, 3);
    assert(items.drop_last() =~= Seq::empty());
    assert(items_entries(items.drop_last(), page, ts) =~= Seq::empty());
    assert(items_entries(items, page, ts) =~= item_entries(items[0], page, ts));
}

} // verus!
