//! The evaluation of selectors against the index.
//!
//! Every list that the evaluation handles is in document order, so that an
//! element is found in a list by a binary search on its document index.

use vstd::prelude::*;
use crate::content::{Element, Label, Location};
use crate::frame::{distinct_locations, Entry};
use crate::introspector::{labelled, lemma_located, located, places, Introspector};
use crate::order::{
    increasing, lemma_filter_start, lemma_filter_step, lemma_lists_is_ordered,
    lemma_ordered_lists, lemma_ordered_members, lists, ordered, reach,
};
use crate::selector::{
    answer, lemma_or_none, lemma_or_step, lemma_selected_and, lemma_views, selected, snapshots,
    views, Selector, SelectorView,
};
use crate::store::{list_at, list_items, list_len, list_new, list_push, slot_at, slot_len};

verus! {

/// The document index of the element at a location. A location at which no
/// element stands ranks behind every element: it has the largest number
/// that an index can be.
pub open spec fn rank(entries: Seq<Entry>, location: Location) -> int {
    let at = located(entries, location);
    if at.len() == 0 {
        usize::MAX as int
    } else {
        at[0]
    }
}

/// The first of an answer, if it has one.
pub open spec fn first_of(items: Seq<Element>) -> Option<Element> {
    if items.len() == 0 {
        None
    } else {
        Some(items[0])
    }
}

/// The items of a list from one place up to another, as a list of their own.
fn slice_of(list: &ecow::EcoVec<Element>, from: usize, to: usize) -> (r: ecow::EcoVec<Element>)
    requires
        from <= to <= list_items(*list).len(),
    ensures
        list_items(r) == list_items(*list).subrange(from as int, to as int),
{
    let mut out = list_new();
    let mut i: usize = from;
    while i < to
        invariant
            from <= i <= to <= list_items(*list).len(),
            list_items(out) == list_items(*list).subrange(from as int, i as int),
        decreases to - i,
    {
        list_push(&mut out, list_at(list, i).snapshot());
        proof {
            assert(list_items(out) =~= list_items(*list).subrange(from as int, i + 1));
        }
        i = i + 1;
    }
    out
}

impl Introspector {
    /// Get the index of this element among all.
    fn index(&self, elem: &Element) -> (r: usize)
        requires
            self.wf(),
        ensures
            r == rank(self@.entries, elem.location),
    {
        match self.find(elem.location) {
            Some(i) => i,
            None => usize::MAX,
        }
    }

    /// Perform a binary search for `elem` among the `list`, whose items stand
    /// at the document indices `idx`, in ascending order. Answers the place of
    /// the element in the list or, where it has none, the place at which it
    /// would have to stand.
    fn binary_search(
        &self,
        list: &ecow::EcoVec<Element>,
        elem: &Element,
        Ghost(idx): Ghost<Seq<int>>,
    ) -> (r: Result<usize, usize>)
        requires
            self.wf(),
            increasing(idx),
            forall|j: int| 0 <= j < idx.len() ==> 0 <= #[trigger] idx[j] < self@.entries.len(),
            list_items(*list) == snapshots(self@.entries, idx),
        ensures
            match r {
                Ok(i) => i < idx.len() && idx[i as int] == rank(self@.entries, elem.location),
                Err(i) => {
                    &&& i <= idx.len()
                    &&& forall|j: int| 0 <= j < i ==> idx[j] < rank(self@.entries, elem.location)
                    &&& forall|j: int|
                        i <= j < idx.len() ==> idx[j] > rank(self@.entries, elem.location)
                },
            },
    {
        let key: usize = self.index(elem);
        let mut lo: usize = 0;
        let mut hi: usize = list_len(list);
        while lo < hi
            invariant
                self.wf(),
                increasing(idx),
                forall|j: int| 0 <= j < idx.len() ==> 0 <= #[trigger] idx[j] < self@.entries.len(),
                list_items(*list) == snapshots(self@.entries, idx),
                key == rank(self@.entries, elem.location),
                lo <= hi <= idx.len(),
                forall|j: int| 0 <= j < lo ==> idx[j] < key,
                forall|j: int| hi <= j < idx.len() ==> idx[j] > key,
            decreases hi - lo,
        {
            let mid: usize = lo + (hi - lo) / 2;
            let probe: usize = self.index(list_at(list, mid));
            proof {
                self.lemma_wf_view();
                assert(list_items(*list)[mid as int] == self@.entries[idx[mid as int]].0);
                lemma_located(self@.entries, idx[mid as int]);
                assert(probe == idx[mid as int]);
            }
            if probe == key {
                return Ok(mid);
            } else if probe < key {
                proof {
                    assert forall|j: int| 0 <= j < mid + 1 implies idx[j] < key by {
                        if j < mid {
                            assert(idx[j] < idx[mid as int]);
                        }
                    }
                }
                lo = mid + 1;
            } else {
                proof {
                    assert forall|j: int| mid <= j < idx.len() implies idx[j] > key by {
                        if j > mid {
                            assert(idx[mid as int] < idx[j]);
                        }
                    }
                }
                hi = mid;
            }
        }
        Err(lo)
    }

    /// The elements that answer to a selector which looks at one element
    /// alone, found by going through all elements in document order.
    fn scan(&self, selector: &Selector) -> (r: ecow::EcoVec<Element>)
        requires
            self.wf(),
            selector@ is Elem || selector@ is Regex || selector@ is Can,
        ensures
            list_items(r) == answer(self@.entries, selector@),
    {
        let ghost entries = self@.entries;
        let ghost set = selected(entries, selector@);
        let n: usize = self.len();
        let mut out = list_new();
        let mut i: usize = 0;
        while i < n
            invariant
                i <= n,
                n == entries.len(),
                entries == self@.entries,
                set == selected(entries, selector@),
                selector@ is Elem || selector@ is Regex || selector@ is Can,
                list_items(out) == snapshots(entries, ordered(i as nat, set)),
            decreases n - i,
        {
            let elem = self.elem_at(i);
            if selector.matches(elem) {
                let ghost had = ordered(i as nat, set);
                list_push(&mut out, elem.snapshot());
                proof {
                    assert(set.contains(i as int));
                    assert(list_items(out) =~= snapshots(entries, had.push(i as int)));
                }
            } else {
                proof {
                    assert(!set.contains(i as int));
                }
            }
            i = i + 1;
        }
        out
    }

    /// The elements that carry a label, in document order.
    fn by_label(&self, label: Label) -> (r: ecow::EcoVec<Element>)
        requires
            self.wf(),
        ensures
            list_items(r) == answer(self@.entries, SelectorView::Label(label)),
    {
        let ghost entries = self@.entries;
        let ghost idx = labelled(entries, label);
        proof {
            lemma_ordered_lists(entries.len(), selected(entries, SelectorView::Label(label)));
        }
        let mut out = list_new();
        match self.slot_of(label) {
            None => {
                proof {
                    assert(list_items(out) =~= snapshots(entries, idx));
                }
            },
            Some(slot) => {
                let count: usize = slot_len(slot);
                let mut j: usize = 0;
                while j < count
                    invariant
                        j <= count,
                        count == idx.len(),
                        entries == self@.entries,
                        idx == places(*slot),
                        forall|k: int| 0 <= k < idx.len() ==> 0 <= #[trigger] idx[k] < entries.len(),
                        list_items(out) == snapshots(entries, idx.take(j as int)),
                    decreases count - j,
                {
                    let place: usize = slot_at(slot, j);
                    proof {
                        assert(idx[j as int] == place);
                    }
                    let ghost had = list_items(out);
                    list_push(&mut out, self.elem_at(place).snapshot());
                    proof {
                        assert(list_items(out) =~= snapshots(entries, idx.take(j + 1)));
                    }
                    j = j + 1;
                }
                proof {
                    assert(idx.take(count as int) =~= idx);
                }
            },
        }
        out
    }

    /// The element at a location, as a list of one, or the empty list.
    fn at_location(&self, location: Location) -> (r: ecow::EcoVec<Element>)
        requires
            self.wf(),
        ensures
            list_items(r) == answer(self@.entries, SelectorView::Location(location)),
    {
        let mut out = list_new();
        match self.get(location) {
            Some(elem) => {
                list_push(&mut out, elem.snapshot());
                proof {
                    assert(list_items(out) =~= snapshots(
                        self@.entries,
                        located(self@.entries, location),
                    ));
                }
            },
            None => {
                proof {
                    assert(list_items(out) =~= snapshots(
                        self@.entries,
                        located(self@.entries, location),
                    ));
                }
            },
        }
        out
    }

    /// Of a list in document order, the part before the boundary element:
    /// the whole list where there is no boundary.
    fn cut_before(
        &self,
        list: ecow::EcoVec<Element>,
        end: &Option<Element>,
        inclusive: bool,
        Ghost(selector): Ghost<SelectorView>,
        Ghost(bound): Ghost<SelectorView>,
    ) -> (r: ecow::EcoVec<Element>)
        requires
            self.wf(),
            list_items(list) == answer(self@.entries, selector),
            *end == first_of(answer(self@.entries, bound)),
        ensures
            list_items(r) == answer(
                self@.entries,
                SelectorView::Before { selector: Box::new(selector), end: Box::new(bound), inclusive },
            ),
    {
        let ghost entries = self@.entries;
        let ghost n = entries.len();
        let ghost inner = selected(entries, selector);
        let ghost idx = ordered(n, inner);
        let ghost bounds = ordered(n, selected(entries, bound));
        let ghost target = selected(
            entries,
            SelectorView::Before { selector: Box::new(selector), end: Box::new(bound), inclusive },
        );
        match end {
            None => {
                proof {
                    assert(answer(entries, bound).len() == bounds.len());
                }
                list
            },
            Some(elem) => {
                proof {
                    lemma_ordered_lists(n, inner);
                    lemma_ordered_lists(n, selected(entries, bound));
                    self.lemma_wf_view();
                    assert(answer(entries, bound).len() == bounds.len());
                    assert(*elem == entries[bounds[0]].0);
                    lemma_located(entries, bounds[0]);
                }
                let count: usize = list_len(&list);
                let found = self.binary_search(&list, elem, Ghost(idx));
                let split: usize = match found {
                    Ok(i) => if inclusive {
                        i + 1
                    } else {
                        i
                    },
                    Err(i) => i,
                };
                let out = slice_of(&list, 0, split);
                proof {
                    let b = bounds[0];
                    let kept = idx.take(split as int);
                    assert forall|j: int| 0 <= j < kept.len() implies 0 <= #[trigger] kept[j] < n
                        && target.contains(kept[j]) by {
                        assert(kept[j] == idx[j]);
                        match found {
                            Ok(i) => {
                                if j < i {
                                    assert(idx[j] < idx[i as int]);
                                }
                            },
                            Err(i) => {},
                        }
                    }
                    assert forall|m: int| 0 <= m < n && target.contains(m) implies #[trigger] kept.contains(
                        m,
                    ) by {
                        assert(idx.contains(m));
                        let j = choose|j: int| 0 <= j < idx.len() && idx[j] == m;
                        match found {
                            Ok(i) => {
                                if j > i {
                                    assert(idx[i as int] < idx[j]);
                                }
                            },
                            Err(i) => {},
                        }
                        assert(kept[j] == m);
                    }
                    assert(lists(kept, n, target));
                    lemma_lists_is_ordered(kept, n, target);
                    assert(list_items(out) =~= snapshots(entries, kept));
                }
                out
            },
        }
    }

    /// Of a list in document order, the part after the boundary element: the
    /// whole list where there is no boundary.
    fn cut_after(
        &self,
        list: ecow::EcoVec<Element>,
        start: &Option<Element>,
        inclusive: bool,
        Ghost(selector): Ghost<SelectorView>,
        Ghost(bound): Ghost<SelectorView>,
    ) -> (r: ecow::EcoVec<Element>)
        requires
            self.wf(),
            list_items(list) == answer(self@.entries, selector),
            *start == first_of(answer(self@.entries, bound)),
        ensures
            list_items(r) == answer(
                self@.entries,
                SelectorView::After { selector: Box::new(selector), start: Box::new(bound), inclusive },
            ),
    {
        let ghost entries = self@.entries;
        let ghost n = entries.len();
        let ghost inner = selected(entries, selector);
        let ghost idx = ordered(n, inner);
        let ghost bounds = ordered(n, selected(entries, bound));
        let ghost target = selected(
            entries,
            SelectorView::After { selector: Box::new(selector), start: Box::new(bound), inclusive },
        );
        match start {
            None => {
                proof {
                    assert(answer(entries, bound).len() == bounds.len());
                }
                list
            },
            Some(elem) => {
                proof {
                    lemma_ordered_lists(n, inner);
                    lemma_ordered_lists(n, selected(entries, bound));
                    self.lemma_wf_view();
                    assert(answer(entries, bound).len() == bounds.len());
                    assert(*elem == entries[bounds[0]].0);
                    lemma_located(entries, bounds[0]);
                }
                let count: usize = list_len(&list);
                let found = self.binary_search(&list, elem, Ghost(idx));
                let split: usize = match found {
                    Ok(i) => if inclusive {
                        i
                    } else {
                        i + 1
                    },
                    Err(i) => i,
                };
                let out = slice_of(&list, split, count);
                proof {
                    let b = bounds[0];
                    let kept = idx.skip(split as int);
                    assert forall|j: int| 0 <= j < kept.len() implies 0 <= #[trigger] kept[j] < n
                        && target.contains(kept[j]) by {
                        assert(kept[j] == idx[j + split]);
                        match found {
                            Ok(i) => {
                                if j + split > i {
                                    assert(idx[i as int] < idx[j + split]);
                                }
                            },
                            Err(i) => {},
                        }
                    }
                    assert forall|m: int| 0 <= m < n && target.contains(m) implies #[trigger] kept.contains(
                        m,
                    ) by {
                        assert(idx.contains(m));
                        let j = choose|j: int| 0 <= j < idx.len() && idx[j] == m;
                        match found {
                            Ok(i) => {
                                if j < i {
                                    assert(idx[j] < idx[i as int]);
                                }
                            },
                            Err(i) => {},
                        }
                        assert(kept[j - split] == m);
                    }
                    assert forall|i: int, j: int| 0 <= i < j < kept.len() implies kept[i]
                        < kept[j] by {
                        assert(idx[i + split] < idx[j + split]);
                    }
                    assert(lists(kept, n, target));
                    lemma_lists_is_ordered(kept, n, target);
                    assert(list_items(out) =~= snapshots(entries, kept));
                }
                out
            },
        }
    }

    /// The elements that stand in every one of the lists: those of the
    /// shortest list that a binary search finds in each of the others.
    fn intersect(
        &self,
        results: &Vec<ecow::EcoVec<Element>>,
        Ghost(selectors): Ghost<Seq<SelectorView>>,
    ) -> (r: ecow::EcoVec<Element>)
        requires
            self.wf(),
            results@.len() == selectors.len(),
            forall|k: int|
                0 <= k < selectors.len() ==> list_items(#[trigger] results@[k]) == answer(
                    self@.entries,
                    selectors[k],
                ),
        ensures
            list_items(r) == answer(self@.entries, SelectorView::And(selectors)),
    {
        let ghost entries = self@.entries;
        let ghost n = entries.len();
        let ghost target = selected(entries, SelectorView::And(selectors));
        let mut out = list_new();
        if results.len() == 0 {
            proof {
                lemma_ordered_lists(n, target);
                if ordered(n, target).len() > 0 {
                    lemma_selected_and(entries, selectors, ordered(n, target)[0]);
                }
                assert(ordered(n, target) =~= Seq::empty());
                assert(list_items(out) =~= snapshots(entries, ordered(n, target)));
            }
            return out;
        }
        let mut shortest: usize = 0;
        let mut k: usize = 1;
        while k < results.len()
            invariant
                shortest < results.len(),
                1 <= k <= results.len(),
            decreases results.len() - k,
        {
            if list_len(&results[k]) < list_len(&results[shortest]) {
                shortest = k;
            }
            k = k + 1;
        }
        let probe = &results[shortest];
        let ghost part = selected(entries, selectors[shortest as int]);
        let ghost idx = ordered(n, part);
        proof {
            lemma_ordered_lists(n, part);
            self.lemma_wf_view();
            assert forall|x: int| 0 <= x < n && target.contains(x) implies part.contains(x) by {
                lemma_selected_and(entries, selectors, x);
                assert(selected(entries, selectors[shortest as int]).contains(x));
            }
            lemma_filter_start(idx, n, part, target);
            assert(list_items(*probe) == snapshots(entries, idx));
            assert(list_items(out) =~= snapshots(entries, ordered(reach(idx, 0, n), target)));
        }
        let count: usize = list_len(probe);
        let mut c: usize = 0;
        while c < count
            invariant
                self.wf(),
                entries == self@.entries,
                n == entries.len(),
                distinct_locations(entries),
                target == selected(entries, SelectorView::And(selectors)),
                results@.len() == selectors.len(),
                forall|k: int|
                    0 <= k < selectors.len() ==> list_items(#[trigger] results@[k]) == answer(
                        entries,
                        selectors[k],
                    ),
                shortest < results.len(),
                *probe == results@[shortest as int],
                part == selected(entries, selectors[shortest as int]),
                idx == ordered(n, part),
                lists(idx, n, part),
                forall|x: int| 0 <= x < n && target.contains(x) ==> part.contains(x),
                count == idx.len(),
                c <= count,
                list_items(*probe) == snapshots(entries, idx),
                list_items(out) == snapshots(entries, ordered(reach(idx, c as int, n), target)),
            decreases count - c,
        {
            let candidate = list_at(probe, c);
            let ghost here = idx[c as int];
            proof {
                assert(0 <= idx[c as int] < n);
                assert(*candidate == entries[here].0);
                lemma_located(entries, here);
                assert(rank(entries, candidate.location) == here);
            }
            let mut keep = true;
            let mut k: usize = 0;
            while k < results.len() && keep
                invariant
                    self.wf(),
                    entries == self@.entries,
                    n == entries.len(),
                    results@.len() == selectors.len(),
                    forall|k: int|
                        0 <= k < selectors.len() ==> list_items(#[trigger] results@[k]) == answer(
                            entries,
                            selectors[k],
                        ),
                    target == selected(entries, SelectorView::And(selectors)),
                    shortest < results.len(),
                    part == selected(entries, selectors[shortest as int]),
                    part.contains(here),
                    0 <= here < n,
                    rank(entries, candidate.location) == here,
                    k <= results.len(),
                    keep ==> forall|w: int|
                        0 <= w < k ==> #[trigger] selected(entries, selectors[w]).contains(here),
                    !keep ==> !target.contains(here),
                decreases results.len() - k + if keep { 1nat } else { 0nat },
            {
                if k != shortest {
                    let ghost other_set = selected(entries, selectors[k as int]);
                    let ghost other = ordered(n, other_set);
                    proof {
                        lemma_ordered_lists(n, other_set);
                    }
                    let found = self.binary_search(&results[k], candidate, Ghost(other));
                    match found {
                        Ok(i) => {
                            proof {
                                assert(other[i as int] == here);
                                assert(other_set.contains(other[i as int]));
                            }
                        },
                        Err(i) => {
                            proof {
                                if other_set.contains(here) {
                                    assert(other.contains(here));
                                    let j = choose|j: int| 0 <= j < other.len() && other[j] == here;
                                    assert(false);
                                }
                                assert(!selected(entries, selectors[k as int]).contains(here));
                                lemma_selected_and(entries, selectors, here);
                            }
                            keep = false;
                        },
                    }
                }
                k = k + 1;
            }
            proof {
                lemma_filter_step(idx, n, part, target, c as int);
            }
            if keep {
                let ghost had = ordered(reach(idx, c as int, n), target);
                list_push(&mut out, candidate.snapshot());
                proof {
                    lemma_selected_and(entries, selectors, here);
                    assert(target.contains(here));
                    assert(list_items(out) =~= snapshots(entries, had.push(here)));
                }
            }
            c = c + 1;
        }
        out
    }

    /// The elements that stand in at least one of the lists, in document
    /// order, each once: every element of every list is marked at its
    /// document index, and the marked elements are then gathered in order.
    fn unite(
        &self,
        results: &Vec<ecow::EcoVec<Element>>,
        Ghost(selectors): Ghost<Seq<SelectorView>>,
    ) -> (r: ecow::EcoVec<Element>)
        requires
            self.wf(),
            results@.len() == selectors.len(),
            forall|k: int|
                0 <= k < selectors.len() ==> list_items(#[trigger] results@[k]) == answer(
                    self@.entries,
                    selectors[k],
                ),
        ensures
            list_items(r) == answer(self@.entries, SelectorView::Or(selectors)),
    {
        let ghost entries = self@.entries;
        let ghost target = selected(entries, SelectorView::Or(selectors));
        let n: usize = self.len();
        let mut marks: Vec<bool> = Vec::new();
        let mut i: usize = 0;
        while i < n
            invariant
                i <= n,
                marks@.len() == i,
                forall|t: int| 0 <= t < i ==> !marks@[t],
            decreases n - i,
        {
            marks.push(false);
            i = i + 1;
        }
        proof {
            self.lemma_wf_view();
            assert forall|t: int| 0 <= t < n implies (marks@[t] <==> selected(
                entries,
                SelectorView::Or(selectors.take(0)),
            ).contains(t)) by {
                lemma_or_none(entries, selectors, t);
            }
        }
        let mut k: usize = 0;
        while k < results.len()
            invariant
                self.wf(),
                entries == self@.entries,
                n == entries.len(),
                distinct_locations(entries),
                results@.len() == selectors.len(),
                forall|k: int|
                    0 <= k < selectors.len() ==> list_items(#[trigger] results@[k]) == answer(
                        entries,
                        selectors[k],
                    ),
                k <= results.len(),
                marks@.len() == n,
                forall|t: int|
                    0 <= t < n ==> (#[trigger] marks@[t] <==> selected(
                        entries,
                        SelectorView::Or(selectors.take(k as int)),
                    ).contains(t)),
            decreases results.len() - k,
        {
            let list = &results[k];
            let ghost part = selected(entries, selectors[k as int]);
            let ghost idx = ordered(n as nat, part);
            let ghost so_far = selected(entries, SelectorView::Or(selectors.take(k as int)));
            proof {
                lemma_ordered_lists(n as nat, part);
            }
            let count: usize = list_len(list);
            let mut j: usize = 0;
            while j < count
                invariant
                    self.wf(),
                    entries == self@.entries,
                    n == entries.len(),
                    distinct_locations(entries),
                    list_items(*list) == snapshots(entries, idx),
                    lists(idx, n as nat, part),
                    count == idx.len(),
                    j <= count,
                    marks@.len() == n,
                    forall|t: int|
                        0 <= t < n ==> (#[trigger] marks@[t] <==> so_far.contains(t) || idx.take(
                            j as int,
                        ).contains(t)),
                decreases count - j,
            {
                let elem = list_at(list, j);
                proof {
                    assert(0 <= idx[j as int] < n);
                    assert(*elem == entries[idx[j as int]].0);
                    lemma_located(entries, idx[j as int]);
                }
                let place: usize = self.index(elem);
                let ghost before = marks@;
                marks.set(place, true);
                proof {
                    let shorter = idx.take(j as int);
                    let longer = idx.take(j + 1);
                    assert(place == idx[j as int]);
                    assert(marks@ == before.update(place as int, true));
                    assert forall|t: int| 0 <= t < n implies (marks@[t] <==> so_far.contains(t)
                        || longer.contains(t)) by {
                        assert(before[t] <==> so_far.contains(t) || shorter.contains(t));
                        if shorter.contains(t) {
                            let w = choose|w: int| 0 <= w < shorter.len() && shorter[w] == t;
                            assert(longer[w] == t);
                        }
                        if t == place {
                            assert(longer[j as int] == t);
                        }
                        if longer.contains(t) {
                            let w = choose|w: int| 0 <= w < longer.len() && longer[w] == t;
                            if w < j {
                                assert(shorter[w] == t);
                            }
                        }
                    }
                }
                j = j + 1;
            }
            proof {
                assert(idx.take(count as int) =~= idx);
                assert forall|t: int| 0 <= t < n implies (marks@[t] <==> selected(
                    entries,
                    SelectorView::Or(selectors.take(k + 1)),
                ).contains(t)) by {
                    lemma_or_step(entries, selectors, k as int, t);
                    lemma_ordered_members(n as nat, part, t);
                }
            }
            k = k + 1;
        }
        proof {
            assert(selectors.take(results.len() as int) =~= selectors);
        }
        let mut out = list_new();
        let mut i: usize = 0;
        while i < n
            invariant
                i <= n,
                n == entries.len(),
                entries == self@.entries,
                marks@.len() == n,
                forall|t: int| 0 <= t < n ==> (#[trigger] marks@[t] <==> target.contains(t)),
                list_items(out) == snapshots(entries, ordered(i as nat, target)),
            decreases n - i,
        {
            if marks[i] {
                let ghost had = ordered(i as nat, target);
                list_push(&mut out, self.elem_at(i).snapshot());
                proof {
                    assert(list_items(out) =~= snapshots(entries, had.push(i as int)));
                }
            }
            i = i + 1;
        }
        out
    }

    /// Query for all matching elements: the snapshots of the elements that
    /// the selector selects, in document order, each once. The index stays
    /// what it was; only the answer is remembered, unless the selector asks
    /// for a location, which is looked up directly. Nothing that was
    /// remembered under a fingerprint is forgotten, though an answer gives
    /// way to that of another selector with the same fingerprint.
    pub fn query(&mut self, selector: &Selector) -> (r: ecow::EcoVec<Element>)
        requires
            old(self).wf(),
        ensures
            final(self).wf(),
            final(self)@ == old(self)@,
            list_items(r) == answer(old(self)@.entries, selector@),
            !(selector@ is Location) ==> final(self).remembers(selector@),
            old(self).remembers(selector@) || selector@ is Location ==> *final(self) == *old(self),
            old(self).remembered().subset_of(final(self).remembered()),
        decreases *selector, 0nat,
    {
        if let Selector::Location(location) = selector {
            return self.at_location(*location);
        }
        let key: u128 = selector.fingerprint();
        if let Some(known) = self.recall(key, selector) {
            return known;
        }
        let output = match selector {
            Selector::Label(label) => self.by_label(*label),
            Selector::Location(location) => self.at_location(*location),
            Selector::Before { selector: inner, end, inclusive } => {
                let list = self.query(inner);
                let bound = self.query_first(end);
                self.cut_before(list, &bound, *inclusive, Ghost((*inner)@), Ghost((*end)@))
            },
            Selector::After { selector: inner, start, inclusive } => {
                let list = self.query(inner);
                let bound = self.query_first(start);
                self.cut_after(list, &bound, *inclusive, Ghost((*inner)@), Ghost((*start)@))
            },
            Selector::And(selectors) => {
                let results = self.query_all(selectors);
                proof {
                    lemma_views(selectors@);
                }
                self.intersect(&results, Ghost(views(selectors@)))
            },
            Selector::Or(selectors) => {
                let results = self.query_all(selectors);
                proof {
                    lemma_views(selectors@);
                }
                self.unite(&results, Ghost(views(selectors@)))
            },
            _ => self.scan(selector),
        };
        self.remember(key, selector, &output);
        output
    }

    /// The answers to a run of selectors, one for each.
    fn query_all(&mut self, selectors: &Vec<Selector>) -> (r: Vec<ecow::EcoVec<Element>>)
        requires
            old(self).wf(),
        ensures
            final(self).wf(),
            final(self)@ == old(self)@,
            old(self).remembered().subset_of(final(self).remembered()),
            r@.len() == selectors@.len(),
            forall|k: int|
                0 <= k < selectors@.len() ==> list_items(#[trigger] r@[k]) == answer(
                    old(self)@.entries,
                    selectors@[k]@,
                ),
        decreases *selectors, 0nat,
    {
        let mut results: Vec<ecow::EcoVec<Element>> = Vec::new();
        let mut k: usize = 0;
        while k < selectors.len()
            invariant
                self.wf(),
                self@ == old(self)@,
                old(self).remembered().subset_of(self.remembered()),
                k <= selectors.len(),
                results@.len() == k,
                forall|w: int|
                    0 <= w < k ==> list_items(#[trigger] results@[w]) == answer(
                        old(self)@.entries,
                        selectors@[w]@,
                    ),
            decreases selectors.len() - k,
        {
            let list = self.query(&selectors[k]);
            results.push(list);
            k = k + 1;
        }
        results
    }

    /// Query for the first element that matches the selector.
    pub fn query_first(&mut self, selector: &Selector) -> (r: Option<Element>)
        requires
            old(self).wf(),
        ensures
            final(self).wf(),
            final(self)@ == old(self)@,
            old(self).remembered().subset_of(final(self).remembered()),
            r == first_of(answer(old(self)@.entries, selector@)),
        decreases *selector, 1nat,
    {
        match selector {
            Selector::Location(location) => match self.get(*location) {
                Some(elem) => Some(elem.snapshot()),
                None => None,
            },
            _ => {
                let list = self.query(selector);
                if list_len(&list) == 0 {
                    None
                } else {
                    Some(list_at(&list, 0).snapshot())
                }
            },
        }
    }
}

} // verus!
