//! The index over the elements of a document, and the queries against it.

use vstd::prelude::*;
use vstd::string::StringExecFns;
use std::collections::HashMap;
use crate::content::{Element, Label, Location, Numbering};
use crate::frame::{
    distinct_locations, document_entries, document_numberings, frame_entries, frame_fits,
    frame_numberings, indexable, item_numberings, items_entries, items_fit, items_numberings,
    latest, lemma_distinct_prefix, lemma_items_step, lemma_latest_in_turn, lemma_pages_prefix,
    lemma_pages_step, lemma_walk_fails, Entry, Frame, FrameItem, Meta,
};
use crate::geometry::{Affine, Place, Point, Position, Transform, Vector};
use crate::order::{
    lemma_lists_is_ordered, lemma_ordered_agrees, lemma_ordered_lists, lists, ordered,
};
use crate::selector::{answer, fingerprint_of, selected, Selector, SelectorView};
use crate::store::{
    has_key, list_clone, list_items, map_entries, map_get_index_of, map_insert, map_len,
    map_value_at, map_with_capacity, slot_at, slot_items, slot_len, slot_new, slot_push,
    Slot, MAX_RESERVE,
};

verus! {

/// An index as a mathematical value: the page count it was built with, its
/// elements in document order, and the numbering of each page that the walk
/// has reached.
pub struct IndexView {
    pub pages: nat,
    pub entries: Seq<Entry>,
    pub numberings: Seq<Option<Numbering>>,
}

/// The index that a document gives rise to.
pub open spec fn document_index(pages: Seq<Frame>) -> IndexView {
    IndexView {
        pages: pages.len(),
        entries: document_entries(pages),
        numberings: document_numberings(pages),
    }
}

/// The document indices of the elements at a location: none or one.
pub open spec fn located(entries: Seq<Entry>, location: Location) -> Seq<int> {
    ordered(entries.len(), selected(entries, SelectorView::Location(location)))
}

/// The document indices of the elements that carry a label, in ascending
/// order.
pub open spec fn labelled(entries: Seq<Entry>, label: Label) -> Seq<int> {
    ordered(entries.len(), selected(entries, SelectorView::Label(label)))
}

/// Where the element at a location lands; the origin of page one where no
/// element stands at that location.
pub open spec fn place_of(entries: Seq<Entry>, location: Location) -> Place {
    let at = located(entries, location);
    if at.len() == 0 {
        Place { page: 1, point: Vector::origin() }
    } else {
        entries[at[0]].1
    }
}

/// The numbering recorded for the page of the element at a location: none
/// where no element stands at that location, or where nothing was recorded
/// for its page.
pub open spec fn numbering_of(index: IndexView, location: Location) -> Option<Numbering> {
    let at = located(index.entries, location);
    if at.len() == 0 {
        None
    } else {
        let page = index.entries[at[0]].1.page;
        if 1 <= page <= index.numberings.len() {
            index.numberings[page - 1]
        } else {
            None
        }
    }
}

/// Where no location occurs twice, the one element at the location of the
/// element with index `k` is that element.
pub proof fn lemma_located(entries: Seq<Entry>, k: int)
    requires
        distinct_locations(entries),
        0 <= k < entries.len(),
    ensures
        located(entries, entries[k].0.location) == seq![k],
{
    let set = selected(entries, SelectorView::Location(entries[k].0.location));
    let only = seq![k];
    assert forall|i: int| 0 <= i < entries.len() && set.contains(i) implies #[trigger] only.contains(
        i,
    ) by {
        if i != k {
            assert(entries[i].0.location == entries[k].0.location);
        }
        assert(only[0] == i);
    }
    assert(set.contains(k));
    assert(lists(only, entries.len(), set));
    lemma_lists_is_ordered(only, entries.len(), set);
}

/// Why a label does not name one element.
#[derive(Clone, Copy, Debug, PartialEq, Eq, Structural)]
pub enum LabelError {
    /// No element carries the label.
    Missing(Label),
    /// More than one element carries the label.
    Ambiguous(Label),
}

impl LabelError {
    /// The label that does not name one element.
    pub fn label(&self) -> (r: Label)
        ensures
            r == match *self {
                LabelError::Missing(label) => label,
                LabelError::Ambiguous(label) => label,
            },
    {
        match self {
            LabelError::Missing(label) => *label,
            LabelError::Ambiguous(label) => *label,
        }
    }

    /// What went wrong, in words, for a label whose text is `name`.
    pub fn message(&self, name: &str) -> (r: String)
        ensures
            r@ == match *self {
                LabelError::Missing(_) => "label `"@ + name@ + "` does not exist in the document"@,
                LabelError::Ambiguous(_) => "label `"@ + name@
                    + "` occurs multiple times in the document"@,
            },
    {
        let mut text = String::from_str("label `");
        text.append(name);
        match self {
            LabelError::Missing(_) => {
                text.append("` does not exist in the document");
            },
            LabelError::Ambiguous(_) => {
                text.append("` occurs multiple times in the document");
            },
        }
        text
    }
}

/// A remembered answer, with the selector that was asked.
struct Remembered {
    selector: Selector,
    output: ecow::EcoVec<Element>,
}

/// Can be queried for elements and their positions.
pub struct Introspector {
    /// The number of pages in the document.
    pages: usize,
    /// All elements, in document order, each under the number of its
    /// location.
    elems: indexmap::IndexMap<u128, (Element, Position)>,
    /// The page numberings, indexed by page number minus one.
    page_numberings: Vec<Option<Numbering>>,
    /// The answers given so far, each under the fingerprint of its selector.
    queries: HashMap<u128, Remembered>,
    /// For each label in use, the document indices of the elements that carry
    /// it.
    label_cache: HashMap<u64, Slot>,
}

/// The entries that an element map stands for.
pub open spec fn entries_of(stored: Seq<(u128, (Element, Position))>) -> Seq<Entry> {
    Seq::new(stored.len(), |i: int| (stored[i].1.0, stored[i].1.1@))
}

/// The places of a slot as mathematical integers.
pub open spec fn places(slot: Slot) -> Seq<int> {
    Seq::new(slot_items(slot).len(), |j: int| slot_items(slot)[j] as int)
}

impl View for Introspector {
    type V = IndexView;

    closed spec fn view(&self) -> IndexView {
        IndexView {
            pages: self.pages as nat,
            entries: entries_of(map_entries(self.elems)),
            numberings: self.page_numberings@,
        }
    }
}

impl Introspector {
    /// The invariant of the index: every element is stored under its own
    /// location and stands on a page of the document, no location occurs
    /// twice, each label's slot lists the elements that carry it, and every
    /// remembered answer is the answer to its selector.
    pub closed spec fn wf(&self) -> bool {
        let stored = map_entries(self.elems);
        let entries = self@.entries;
        &&& forall|i: int|
            0 <= i < stored.len() ==> (#[trigger] stored[i]).0 == stored[i].1.0.location.hash
        &&& forall|i: int|
            0 <= i < stored.len() ==> 1 <= (#[trigger] stored[i]).1.1.page <= self.pages
        &&& distinct_locations(entries)
        &&& self.page_numberings@.len() <= self.pages
        &&& forall|id: u64| #[trigger]
            self.label_cache@.contains_key(id) ==> places(self.label_cache@[id]) == ordered(
                entries.len(),
                selected(entries, SelectorView::Label(Label { id })),
            )
        &&& forall|id: u64|
            !(#[trigger] self.label_cache@.contains_key(id)) ==> ordered(
                entries.len(),
                selected(entries, SelectorView::Label(Label { id })),
            ).len() == 0
        &&& forall|key: u128| #[trigger]
            self.queries@.contains_key(key) ==> list_items(self.queries@[key].output) == answer(
                entries,
                self.queries@[key].selector@,
            )
    }

    /// What the invariant says of the view: no location occurs twice, and
    /// every element stands on a page of the document.
    pub proof fn lemma_wf_view(&self)
        requires
            self.wf(),
        ensures
            distinct_locations(self@.entries),
            forall|i: int|
                0 <= i < self@.entries.len() ==> 1 <= (#[trigger] self@.entries[i]).1.page
                    <= self@.pages,
            forall|i: int|
                0 <= i < self@.entries.len() ==> (#[trigger] self@.entries[i]).1.point.fits(),
            self@.numberings.len() <= self@.pages,
    {
        let stored = map_entries(self.elems);
        assert forall|i: int| 0 <= i < self@.entries.len() implies 1 <= (
        #[trigger] self@.entries[i]).1.page <= self@.pages && self@.entries[i].1.point.fits() by {
            assert(1 <= stored[i].1.1.page <= self.pages);
        }
    }

    /// Whether the answer to a selector is remembered under the selector's
    /// fingerprint.
    pub closed spec fn remembers(&self, selector: SelectorView) -> bool {
        &&& self.queries@.contains_key(fingerprint_of(selector))
        &&& self.queries@[fingerprint_of(selector)].selector@ == selector
    }

    /// The fingerprints under which an answer is remembered.
    pub closed spec fn remembered(&self) -> Set<u128> {
        self.queries@.dom()
    }

    /// Whether no answer has been remembered yet.
    pub closed spec fn fresh(&self) -> bool {
        self.queries@ =~= Map::empty()
    }

    /// Create a new introspector.
    pub fn new(frames: &[Frame]) -> (r: Introspector)
        requires
            indexable(frames@),
        ensures
            r.wf(),
            r.fresh(),
            r@ == document_index(frames@),
    {
        Self::with_capacity(frames, 0)
    }

    /// Create a new introspector with a given capacity.
    pub fn with_capacity(frames: &[Frame], capacity: usize) -> (r: Introspector)
        requires
            indexable(frames@),
        ensures
            r.wf(),
            r.fresh(),
            r@ == document_index(frames@),
    {
        match Self::try_with_capacity(frames, capacity) {
            Some(introspector) => introspector,
            None => Self::empty(frames.len(), capacity),
        }
    }

    /// Create a new introspector, where the document can be indexed: where
    /// its walk stays in machine coordinates and meets no location twice.
    pub fn try_new(frames: &[Frame]) -> (r: Option<Introspector>)
        ensures
            r.is_some() <==> indexable(frames@),
            r.is_some() ==> r.unwrap().wf() && r.unwrap().fresh() && r.unwrap()@ == document_index(
                frames@,
            ),
    {
        Self::try_with_capacity(frames, 0)
    }

    /// Create a new introspector with a given capacity, where the document
    /// can be indexed.
    pub fn try_with_capacity(frames: &[Frame], capacity: usize) -> (r: Option<Introspector>)
        ensures
            r.is_some() <==> indexable(frames@),
            r.is_some() ==> r.unwrap().wf() && r.unwrap().fresh() && r.unwrap()@ == document_index(
                frames@,
            ),
    {
        let mut introspector = Self::empty(frames.len(), capacity);
        let mut i: usize = 0;
        while i < frames.len()
            invariant
                i <= frames.len(),
                introspector.wf(),
                introspector.fresh(),
                introspector@.pages == frames.len(),
                introspector@.entries == document_entries(frames@.take(i as int)),
                introspector@.numberings == document_numberings(frames@.take(i as int)),
                forall|k: int| 0 <= k < i ==> frame_fits(#[trigger] frames@[k], Affine::identity()),
            decreases frames.len() - i,
        {
            proof {
                lemma_pages_step(frames@, i as int);
                lemma_pages_prefix(frames@, i + 1);
            }
            introspector.begin_page();
            let ok = introspector.extract(&frames[i], i + 1, Transform::identity());
            if !ok {
                proof {
                    if indexable(frames@) {
                        lemma_distinct_prefix(
                            document_entries(frames@.take(i + 1)),
                            document_entries(frames@),
                        );
                    }
                }
                return None;
            }
            i = i + 1;
        }
        proof {
            assert(frames@.take(frames.len() as int) =~= frames@);
            introspector.lemma_wf_view();
        }
        Some(introspector)
    }

    /// An index of a document of `pages` pages in which nothing was met. The
    /// capacity is a hint: room is reserved for that many elements, up to a
    /// limit.
    fn empty(pages: usize, capacity: usize) -> (r: Introspector)
        ensures
            r.wf(),
            r.fresh(),
            r@ == (IndexView {
                pages: pages as nat,
                entries: Seq::empty(),
                numberings: Seq::empty(),
            }),
    {
        let room: usize = if capacity > MAX_RESERVE {
            MAX_RESERVE
        } else {
            capacity
        };
        let r = Introspector {
            pages,
            elems: map_with_capacity(room),
            page_numberings: Vec::with_capacity(room),
            queries: HashMap::new(),
            label_cache: HashMap::with_capacity(room),
        };
        proof {
            assert(r@.entries =~= Seq::empty());
            assert(r@.numberings =~= Seq::empty());
            assert forall|id: u64|
                ordered(
                    r@.entries.len(),
                    #[trigger] selected(r@.entries, SelectorView::Label(Label { id })),
                ).len() == 0 by {}
        }
        r
    }

    /// Opens the numbering slot of the next page, with no numbering in it.
    fn begin_page(&mut self)
        requires
            old(self).wf(),
            old(self).fresh(),
            old(self)@.numberings.len() < old(self)@.pages,
        ensures
            final(self).wf(),
            final(self).fresh(),
            final(self)@.pages == old(self)@.pages,
            final(self)@.entries == old(self)@.entries,
            final(self)@.numberings == old(self)@.numberings.push(None),
    {
        self.page_numberings.push(None);
    }

    /// Records one element at the end of the index and, where it carries a
    /// label, in that label's slot.
    fn insert_element(&mut self, elem: Element, position: Position)
        requires
            old(self).wf(),
            old(self).fresh(),
            located(old(self)@.entries, elem.location).len() == 0,
            1 <= position.page <= old(self)@.pages,
        ensures
            final(self).wf(),
            final(self).fresh(),
            final(self)@.pages == old(self)@.pages,
            final(self)@.numberings == old(self)@.numberings,
            final(self)@.entries == old(self)@.entries.push((elem, position@)),
    {
        let ghost before = self@.entries;
        let ghost stored = map_entries(self.elems);
        let ghost old_labels = self.label_cache@;
        let index: usize = map_len(&self.elems);
        let label = elem.label;
        let key: u128 = elem.location.hash;
        proof {
            let set = selected(before, SelectorView::Location(elem.location));
            lemma_ordered_lists(before.len(), set);
            if has_key(stored, key) {
                let k = choose|k: int| 0 <= k < stored.len() && (#[trigger] stored[k]).0 == key;
                assert(stored[k].0 == stored[k].1.0.location.hash);
                assert(set.contains(k));
                assert(ordered(before.len(), set).contains(k));
            }
        }
        let previous = map_insert(&mut self.elems, key, (elem, position));
        assert(previous.is_none());
        let ghost after = self@.entries;
        proof {
            assert(after =~= before.push((elem, position@)));
            assert forall|i: int, j: int| 0 <= i < j < after.len() implies (
            #[trigger] after[i]).0.location != (#[trigger] after[j]).0.location by {
                if j == before.len() {
                    let set = selected(before, SelectorView::Location(elem.location));
                    lemma_ordered_lists(before.len(), set);
                    if before[i].0.location == elem.location {
                        assert(set.contains(i));
                        assert(ordered(before.len(), set).contains(i));
                    }
                } else {
                    assert(before[i].0.location != before[j].0.location);
                }
            }
            assert forall|id: u64|
                ordered(
                    after.len(),
                    #[trigger] selected(after, SelectorView::Label(Label { id })),
                ) == if label == Some(Label { id }) {
                    ordered(
                        before.len(),
                        selected(before, SelectorView::Label(Label { id })),
                    ).push(before.len() as int)
                } else {
                    ordered(before.len(), selected(before, SelectorView::Label(Label { id })))
                } by {
                lemma_ordered_agrees(
                    before.len(),
                    selected(after, SelectorView::Label(Label { id })),
                    selected(before, SelectorView::Label(Label { id })),
                );
            }
        }
        match label {
            Some(label) => {
                let mut slot = match self.label_cache.remove(&label.id) {
                    Some(slot) => slot,
                    None => slot_new(),
                };
                let ghost had = places(slot);
                slot_push(&mut slot, index);
                proof {
                    assert(places(slot) =~= had.push(index as int));
                    assert(had == ordered(
                        before.len(),
                        selected(before, SelectorView::Label(label)),
                    )) by {
                        if old_labels.contains_key(label.id) {
                            assert(had == places(old_labels[label.id]));
                        } else {
                            assert(had =~= Seq::empty());
                        }
                    }
                }
                self.label_cache.insert(label.id, slot);
                proof {
                    assert forall|id: u64| #[trigger]
                        self.label_cache@.contains_key(id) implies places(self.label_cache@[id])
                        == ordered(
                        after.len(),
                        selected(after, SelectorView::Label(Label { id })),
                    ) by {
                        if id != label.id {
                            assert(old_labels.contains_key(id));
                        }
                    }
                    assert forall|id: u64|
                        !(#[trigger] self.label_cache@.contains_key(id)) implies ordered(
                        after.len(),
                        selected(after, SelectorView::Label(Label { id })),
                    ).len() == 0 by {
                        assert(!old_labels.contains_key(id));
                    }
                }
            },
            None => {
                proof {
                    assert forall|id: u64| #[trigger]
                        self.label_cache@.contains_key(id) implies places(self.label_cache@[id])
                        == ordered(
                        after.len(),
                        selected(after, SelectorView::Label(Label { id })),
                    ) by {}
                    assert forall|id: u64|
                        !(#[trigger] self.label_cache@.contains_key(id)) implies ordered(
                        after.len(),
                        selected(after, SelectorView::Label(Label { id })),
                    ).len() == 0 by {}
                }
            },
        }
    }

    /// Extract metadata from a frame. Answers whether the walk went through:
    /// whether it stayed in machine coordinates and met no location that the
    /// index holds already.
    fn extract(&mut self, frame: &Frame, page: usize, ts: Transform) -> (ok: bool)
        requires
            old(self).wf(),
            old(self).fresh(),
            1 <= page <= old(self)@.pages,
            old(self)@.numberings.len() == page,
        ensures
            ok <==> frame_fits(*frame, ts@) && distinct_locations(
                old(self)@.entries + frame_entries(*frame, page as int, ts@),
            ),
            ok ==> final(self).wf() && final(self).fresh() && final(self)@ == (IndexView {
                pages: old(self)@.pages,
                entries: old(self)@.entries + frame_entries(*frame, page as int, ts@),
                numberings: old(self)@.numberings.update(
                    page - 1,
                    latest(old(self)@.numberings[page - 1], frame_numberings(*frame)),
                ),
            }),
        decreases *frame,
    {
        let ghost before = self@.entries;
        let ghost numbered = self@.numberings;
        let ghost items = frame.items@;
        let mut i: usize = 0;
        while i < frame.items.len()
            invariant
                i <= frame.items.len(),
                items == frame.items@,
                1 <= page <= self@.pages,
                self.wf(),
                self.fresh(),
                self@.pages == old(self)@.pages,
                before == old(self)@.entries,
                numbered == old(self)@.numberings,
                self@.entries == before + items_entries(items.take(i as int), page as int, ts@),
                numbered.len() == page,
                self@.numberings == numbered.update(
                    page - 1,
                    latest(numbered[page - 1], items_numberings(items.take(i as int))),
                ),
                items_fit(items.take(i as int), ts@),
            decreases frame.items.len() - i,
        {
            let ghost current = self@.entries;
            proof {
                lemma_items_step(items, i as int, page as int, ts@);
            }
            let pos: Point = frame.items[i].0;
            match &frame.items[i].1 {
                FrameItem::Group(group) => {
                    let moved = match ts.pre_concat(Transform::translate(pos.x, pos.y)) {
                        Some(moved) => moved,
                        None => {
                            proof {
                                lemma_walk_fails(before, items, i as int, page as int, ts@);
                            }
                            return false;
                        },
                    };
                    let inner = match moved.pre_concat(group.transform) {
                        Some(inner) => inner,
                        None => {
                            proof {
                                lemma_walk_fails(before, items, i as int, page as int, ts@);
                            }
                            return false;
                        },
                    };
                    if !self.extract(&group.frame, page, inner) {
                        proof {
                            lemma_walk_fails(before, items, i as int, page as int, ts@);
                        }
                        return false;
                    }
                    proof {
                        assert(self@.entries =~= before + items_entries(
                            items.take(i + 1),
                            page as int,
                            ts@,
                        ));
                        lemma_latest_in_turn(
                            numbered[page - 1],
                            items_numberings(items.take(i as int)),
                            item_numberings(items[i as int]),
                        );
                        assert(self@.numberings =~= numbered.update(
                            page - 1,
                            latest(numbered[page - 1], items_numberings(items.take(i + 1))),
                        ));
                    }
                },
                FrameItem::Meta(Meta::Elem(content)) => {
                    if self.find(content.location).is_some() {
                        proof {
                            let met = (*content, Place { page: page as int, point: ts@.apply(pos@) });
                            let k = located(current, content.location)[0];
                            lemma_ordered_lists(
                                current.len(),
                                selected(current, SelectorView::Location(content.location)),
                            );
                            let longer = current + seq![met];
                            assert(longer[k].0.location == longer[current.len() as int].0.location);
                            lemma_walk_fails(before, items, i as int, page as int, ts@);
                        }
                        return false;
                    }
                    let point = match pos.transform(ts) {
                        Some(point) => point,
                        None => {
                            proof {
                                lemma_walk_fails(before, items, i as int, page as int, ts@);
                            }
                            return false;
                        },
                    };
                    self.insert_element(content.snapshot(), Position { page, point });
                    proof {
                        assert(self@.entries =~= before + items_entries(
                            items.take(i + 1),
                            page as int,
                            ts@,
                        ));
                        lemma_latest_in_turn(
                            numbered[page - 1],
                            items_numberings(items.take(i as int)),
                            item_numberings(items[i as int]),
                        );
                        assert(self@.numberings =~= numbered.update(
                            page - 1,
                            latest(numbered[page - 1], items_numberings(items.take(i + 1))),
                        ));
                    }
                },
                FrameItem::Meta(Meta::PageNumbering(numbering)) => {
                    self.page_numberings.set(page - 1, *numbering);
                    proof {
                        assert(self@.entries =~= before + items_entries(
                            items.take(i + 1),
                            page as int,
                            ts@,
                        ));
                        lemma_latest_in_turn(
                            numbered[page - 1],
                            items_numberings(items.take(i as int)),
                            item_numberings(items[i as int]),
                        );
                        assert(self@.numberings =~= numbered.update(
                            page - 1,
                            latest(numbered[page - 1], items_numberings(items.take(i + 1))),
                        ));
                    }
                },
                _ => {
                    proof {
                        assert(self@.entries =~= before + items_entries(
                            items.take(i + 1),
                            page as int,
                            ts@,
                        ));
                        lemma_latest_in_turn(
                            numbered[page - 1],
                            items_numberings(items.take(i as int)),
                            item_numberings(items[i as int]),
                        );
                        assert(self@.numberings =~= numbered.update(
                            page - 1,
                            latest(numbered[page - 1], items_numberings(items.take(i + 1))),
                        ));
                    }
                },
            }
            i = i + 1;
        }
        proof {
            assert(items.take(items.len() as int) =~= items);
        }
        true
    }

    /// The snapshot of the element with a document index.
    pub(crate) fn elem_at(&self, index: usize) -> (r: &Element)
        requires
            index < self@.entries.len(),
        ensures
            *r == self@.entries[index as int].0,
    {
        &map_value_at(&self.elems, index).0
    }

    /// The slot of a label: the document indices of the elements that carry
    /// it, where there are any.
    pub(crate) fn slot_of(&self, label: Label) -> (r: Option<&Slot>)
        requires
            self.wf(),
        ensures
            match r {
                Some(slot) => places(*slot) == labelled(self@.entries, label),
                None => labelled(self@.entries, label).len() == 0,
            },
    {
        self.label_cache.get(&label.id)
    }

    /// The document index of the element at a location, if there is one.
    pub(crate) fn find(&self, location: Location) -> (r: Option<usize>)
        requires
            self.wf(),
        ensures
            match r {
                Some(i) => i < self@.entries.len() && located(self@.entries, location) == seq![
                    i as int,
                ],
                None => located(self@.entries, location).len() == 0,
            },
    {
        let found = map_get_index_of(&self.elems, location.hash);
        proof {
            let stored = map_entries(self.elems);
            let entries = self@.entries;
            let set = selected(entries, SelectorView::Location(location));
            lemma_ordered_lists(entries.len(), set);
            match found {
                Some(i) => {
                    assert(stored[i as int].0 == stored[i as int].1.0.location.hash);
                    assert(entries[i as int].0.location == location);
                    let only = seq![i as int];
                    assert forall|k: int| 0 <= k < entries.len() && set.contains(
                        k,
                    ) implies #[trigger] only.contains(k) by {
                        if k != i {
                            assert(entries[k].0.location == entries[i as int].0.location);
                        }
                        assert(only[0] == k);
                    }
                    assert(lists(only, entries.len(), set));
                    lemma_lists_is_ordered(only, entries.len(), set);
                },
                None => {
                    let at = located(entries, location);
                    if at.len() > 0 {
                        let k = at[0];
                        assert(0 <= k < entries.len() && set.contains(k));
                        assert(stored[k].0 == stored[k].1.0.location.hash);
                        assert(has_key(stored, location.hash));
                    }
                },
            }
        }
        found
    }

    /// Get an element by its location.
    pub(crate) fn get(&self, location: Location) -> (r: Option<&Element>)
        requires
            self.wf(),
        ensures
            match r {
                Some(elem) => located(self@.entries, location).len() == 1 && *elem
                    == self@.entries[located(self@.entries, location)[0]].0,
                None => located(self@.entries, location).len() == 0,
            },
    {
        match self.find(location) {
            Some(i) => Some(&map_value_at(&self.elems, i).0),
            None => None,
        }
    }

    /// All elements, in document order.
    pub fn all(&self) -> (r: Vec<Element>)
        ensures
            r@ == Seq::new(self@.entries.len(), |i: int| self@.entries[i].0),
    {
        let n: usize = map_len(&self.elems);
        let mut out: Vec<Element> = Vec::new();
        let mut i: usize = 0;
        while i < n
            invariant
                i <= n,
                n == self@.entries.len(),
                n == map_entries(self.elems).len(),
                out@ == Seq::new(i as nat, |k: int| self@.entries[k].0),
            decreases n - i,
        {
            out.push(map_value_at(&self.elems, i).0.snapshot());
            proof {
                assert(out@ =~= Seq::new((i + 1) as nat, |k: int| self@.entries[k].0));
            }
            i = i + 1;
        }
        out
    }

    /// The answer that is remembered for a selector, if one is.
    pub(crate) fn recall(&self, key: u128, selector: &Selector) -> (r: Option<ecow::EcoVec<Element>>)
        requires
            self.wf(),
            key == fingerprint_of(selector@),
        ensures
            r.is_some() <==> self.remembers(selector@),
            r.is_some() ==> list_items(r.unwrap()) == answer(self@.entries, selector@),
    {
        match self.queries.get(&key) {
            Some(known) => {
                if known.selector.same(selector) {
                    Some(list_clone(&known.output))
                } else {
                    None
                }
            },
            None => None,
        }
    }

    /// Remembers the answer to a selector under its fingerprint.
    pub(crate) fn remember(&mut self, key: u128, selector: &Selector, output: &ecow::EcoVec<Element>)
        requires
            old(self).wf(),
            key == fingerprint_of(selector@),
            list_items(*output) == answer(old(self)@.entries, selector@),
        ensures
            final(self).wf(),
            final(self)@ == old(self)@,
            final(self).remembers(selector@),
            old(self).remembered().subset_of(final(self).remembered()),
    {
        let known = Remembered { selector: selector.duplicate(), output: list_clone(output) };
        self.queries.insert(key, known);
    }

    /// Find the position for the given location: where its element lands,
    /// or the origin of page one where the location is unknown.
    pub fn position(&self, location: Location) -> (r: Position)
        requires
            self.wf(),
        ensures
            r@ == place_of(self@.entries, location),
            r.page >= 1,
    {
        match self.find(location) {
            Some(i) => map_value_at(&self.elems, i).1,
            None => Position { page: 1, point: Point::zero() },
        }
    }

    /// Find the page number for the given location.
    pub fn page(&self, location: Location) -> (r: usize)
        requires
            self.wf(),
        ensures
            r == place_of(self@.entries, location).page,
            r >= 1,
    {
        self.position(location).page
    }

    /// Gets the page numbering for the given location, if any.
    pub fn page_numbering(&self, location: Location) -> (r: Option<Numbering>)
        requires
            self.wf(),
        ensures
            r == numbering_of(self@, location),
    {
        match self.find(location) {
            Some(i) => {
                let page: usize = map_value_at(&self.elems, i).1.page;
                if page - 1 < self.page_numberings.len() {
                    self.page_numberings[page - 1]
                } else {
                    None
                }
            },
            None => None,
        }
    }

    /// Query for a unique element with the label: the element that carries
    /// it where there is one such element, and otherwise whether there is
    /// none or more than one.
    pub fn query_label(&self, label: Label) -> (r: Result<&Element, LabelError>)
        requires
            self.wf(),
        ensures
            match r {
                Ok(elem) => labelled(self@.entries, label).len() == 1 && *elem
                    == self@.entries[labelled(self@.entries, label)[0]].0,
                Err(LabelError::Missing(l)) => labelled(self@.entries, label).len() == 0 && l
                    == label,
                Err(LabelError::Ambiguous(l)) => labelled(self@.entries, label).len() >= 2 && l
                    == label,
            },
    {
        proof {
            lemma_ordered_lists(
                self@.entries.len(),
                selected(self@.entries, SelectorView::Label(label)),
            );
        }
        match self.slot_of(label) {
            None => Err(LabelError::Missing(label)),
            Some(slot) => {
                let count: usize = slot_len(slot);
                if count == 0 {
                    Err(LabelError::Missing(label))
                } else if count > 1 {
                    Err(LabelError::Ambiguous(label))
                } else {
                    let place: usize = slot_at(slot, 0);
                    proof {
                        assert(places(*slot)[0] == place);
                    }
                    Ok(&map_value_at(&self.elems, place).0)
                }
            },
        }
    }

    /// Get the number of elements.
    pub fn len(&self) -> (n: usize)
        ensures
            n == self@.entries.len(),
    {
        map_len(&self.elems)
    }

    /// The total number of pages, and one where the document has none.
    pub fn pages(&self) -> (n: usize)
        ensures
            n >= 1,
            n == if self@.pages == 0 {
                1
            } else {
                self@.pages
            },
    {
        if self.pages == 0 {
            1
        } else {
            self.pages
        }
    }
}

impl Default for Introspector {
    /// The index of a document without pages.
    fn default() -> (r: Introspector)
        ensures
            r.wf(),
            r.fresh(),
            r@ == document_index(Seq::empty()),
    {
        proof {
            assert(document_numberings(Seq::<Frame>::empty()) =~= Seq::empty());
        }
        Self::empty(0, 0)
    }
}

} // verus!
