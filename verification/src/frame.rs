//! Laid-out frames, and what a walk over them meets.
//!
//! A page is a frame; a frame is a list of positioned items; an item may be a
//! group that holds a frame of its own under a transform. The walk goes
//! through the pages in turn and through each frame front to back, entering
//! a group where it stands.

use vstd::prelude::*;
use crate::content::{Element, Numbering};
use crate::geometry::{Affine, Place, Point, Transform};

verus! {

/// A finished frame: positioned items, front to back.
#[derive(Debug)]
pub struct Frame {
    pub items: Vec<(Point, FrameItem)>,
}

/// One item of a frame.
#[derive(Debug)]
pub enum FrameItem {
    /// A frame of its own, seen through a transform.
    Group(GroupItem),
    /// A marker that the layout left for introspection.
    Meta(Meta),
    /// Anything that is only drawn: text, a shape, an image.
    Other,
}

/// A nested frame with the transform that applies to its items.
#[derive(Debug)]
pub struct GroupItem {
    pub frame: Frame,
    pub transform: Transform,
}

/// A marker in a frame.
#[derive(Debug)]
pub enum Meta {
    /// An element stands here.
    Elem(Element),
    /// The page that holds this marker is numbered in this way, or not at
    /// all.
    PageNumbering(Option<Numbering>),
    /// A marker that the index has no use for.
    Hide,
}

/// What the walk records of one element: its snapshot and where it lands.
pub type Entry = (Element, Place);

/// The elements met in a frame that is seen under `ts` on page `page`, in the
/// order in which the walk meets them.
pub open spec fn frame_entries(frame: Frame, page: int, ts: Affine) -> Seq<Entry>
    decreases frame, 0nat,
{
    items_entries(frame.items@, page, ts)
}

/// The elements met in a run of items.
pub open spec fn items_entries(items: Seq<(Point, FrameItem)>, page: int, ts: Affine) -> Seq<Entry>
    decreases items, 1nat,
{
    if items.len() == 0 {
        Seq::empty()
    } else {
        items_entries(items.drop_last(), page, ts) + item_entries(items.last(), page, ts)
    }
}

/// The elements met in one item: those of a group's frame under the composed
/// transform, an element marker's own element at its transformed point, and
/// nothing else.
pub open spec fn item_entries(item: (Point, FrameItem), page: int, ts: Affine) -> Seq<Entry>
    decreases item, 0nat,
{
    match item.1 {
        FrameItem::Group(group) => frame_entries(
            group.frame,
            page,
            ts.descend(item.0@, group.transform@),
        ),
        FrameItem::Meta(Meta::Elem(elem)) => seq![(elem, Place { page, point: ts.apply(item.0@) })],
        _ => Seq::empty(),
    }
}

/// The numberings met in a frame, in the order in which the walk meets them.
pub open spec fn frame_numberings(frame: Frame) -> Seq<Option<Numbering>>
    decreases frame, 0nat,
{
    items_numberings(frame.items@)
}

/// The numberings met in a run of items.
pub open spec fn items_numberings(items: Seq<(Point, FrameItem)>) -> Seq<Option<Numbering>>
    decreases items, 1nat,
{
    if items.len() == 0 {
        Seq::empty()
    } else {
        items_numberings(items.drop_last()) + item_numberings(items.last())
    }
}

/// The numberings met in one item.
pub open spec fn item_numberings(item: (Point, FrameItem)) -> Seq<Option<Numbering>>
    decreases item, 0nat,
{
    match item.1 {
        FrameItem::Group(group) => frame_numberings(group.frame),
        FrameItem::Meta(Meta::PageNumbering(numbering)) => seq![numbering],
        _ => Seq::empty(),
    }
}

/// Whether every transform and point that the walk computes in a frame can
/// be held in machine coordinates.
pub open spec fn frame_fits(frame: Frame, ts: Affine) -> bool
    decreases frame, 0nat,
{
    items_fit(frame.items@, ts)
}

/// Whether the walk over a run of items stays in machine coordinates.
pub open spec fn items_fit(items: Seq<(Point, FrameItem)>, ts: Affine) -> bool
    decreases items, 1nat,
{
    items.len() == 0 || (items_fit(items.drop_last(), ts) && item_fits(items.last(), ts))
}

/// Whether the walk over one item stays in machine coordinates.
pub open spec fn item_fits(item: (Point, FrameItem), ts: Affine) -> bool
    decreases item, 0nat,
{
    match item.1 {
        FrameItem::Group(group) => {
            &&& ts.pre_concat(Affine::translate(item.0@.x, item.0@.y)).fits()
            &&& ts.descend(item.0@, group.transform@).fits()
            &&& frame_fits(group.frame, ts.descend(item.0@, group.transform@))
        },
        FrameItem::Meta(Meta::Elem(_)) => ts.apply(item.0@).fits(),
        _ => true,
    }
}

/// The elements of a document, page after page; the first page is page one.
pub open spec fn document_entries(pages: Seq<Frame>) -> Seq<Entry>
    decreases pages.len(),
{
    if pages.len() == 0 {
        Seq::empty()
    } else {
        document_entries(pages.drop_last()) + frame_entries(
            pages.last(),
            pages.len() as int,
            Affine::identity(),
        )
    }
}

/// The numbering that stands for a page on which the walk has met the
/// numberings `met`, where `before` stood for it until then: the last one
/// met, and `before` where none was met.
pub open spec fn latest(before: Option<Numbering>, met: Seq<Option<Numbering>>) -> Option<
    Numbering,
> {
    if met.len() == 0 {
        before
    } else {
        met.last()
    }
}

/// The numberings of a document, one for each page: the last one that the
/// walk meets on the page, and none where it meets none.
pub open spec fn document_numberings(pages: Seq<Frame>) -> Seq<Option<Numbering>> {
    Seq::new(pages.len(), |i: int| latest(None, frame_numberings(pages[i])))
}

/// Whether the walk over every page stays in machine coordinates.
pub open spec fn document_fits(pages: Seq<Frame>) -> bool {
    forall|i: int| 0 <= i < pages.len() ==> frame_fits(#[trigger] pages[i], Affine::identity())
}

/// Whether no two entries stand at one location.
pub open spec fn distinct_locations(entries: Seq<Entry>) -> bool {
    forall|i: int, j: int|
        0 <= i < j < entries.len() ==> (#[trigger] entries[i]).0.location != (
        #[trigger] entries[j]).0.location
}

/// Whether a document can be indexed: its walk stays in machine coordinates
/// and meets no location twice.
pub open spec fn indexable(pages: Seq<Frame>) -> bool {
    document_fits(pages) && distinct_locations(document_entries(pages))
}

/// Taking one more item into a run adds what the walk meets in that item.
pub proof fn lemma_items_step(items: Seq<(Point, FrameItem)>, i: int, page: int, ts: Affine)
    requires
        0 <= i < items.len(),
    ensures
        items_entries(items.take(i + 1), page, ts) == items_entries(items.take(i), page, ts)
            + item_entries(items[i], page, ts),
        items_numberings(items.take(i + 1)) == items_numberings(items.take(i)) + item_numberings(
            items[i],
        ),
        items_fit(items.take(i + 1), ts) == (items_fit(items.take(i), ts) && item_fits(
            items[i],
            ts,
        )),
{
    assert(items.take(i + 1).drop_last() =~= items.take(i));
    assert(items.take(i + 1).last() == items[i]);
}

/// What the walk meets in the front of a run is the front of what it meets
/// in the whole run, and the walk over the front stays in machine
/// coordinates where the walk over the whole run does.
pub proof fn lemma_items_prefix(items: Seq<(Point, FrameItem)>, k: int, page: int, ts: Affine)
    requires
        0 <= k <= items.len(),
    ensures
        items_entries(items.take(k), page, ts).is_prefix_of(items_entries(items, page, ts)),
        items_fit(items, ts) ==> items_fit(items.take(k), ts),
    decreases items.len(),
{
    if k == items.len() {
        assert(items.take(k) =~= items);
    } else {
        lemma_items_prefix(items.drop_last(), k, page, ts);
        assert(items.drop_last().take(k) =~= items.take(k));
    }
}

/// Where no two entries of a sequence stand at one location, neither do two
/// of its front.
pub proof fn lemma_distinct_prefix(front: Seq<Entry>, whole: Seq<Entry>)
    requires
        front.is_prefix_of(whole),
        distinct_locations(whole),
    ensures
        distinct_locations(front),
{
    assert forall|i: int, j: int| 0 <= i < j < front.len() implies (#[trigger] front[i]).0.location
        != (#[trigger] front[j]).0.location by {
        assert(front[i] == whole[i]);
        assert(front[j] == whole[j]);
    }
}

/// A walk that goes wrong at one item goes wrong as a whole: where the walk
/// leaves machine coordinates in the item at `i`, or meets a location for the
/// second time by the end of that item, the walk over the whole run does so
/// too.
pub proof fn lemma_walk_fails(
    before: Seq<Entry>,
    items: Seq<(Point, FrameItem)>,
    i: int,
    page: int,
    ts: Affine,
)
    requires
        0 <= i < items.len(),
        !item_fits(items[i], ts) || !distinct_locations(
            before + items_entries(items.take(i), page, ts) + item_entries(items[i], page, ts),
        ),
    ensures
        !(items_fit(items, ts) && distinct_locations(before + items_entries(items, page, ts))),
{
    lemma_items_step(items, i, page, ts);
    lemma_items_prefix(items, i + 1, page, ts);
    if items_fit(items, ts) && distinct_locations(before + items_entries(items, page, ts)) {
        let front = items_entries(items.take(i + 1), page, ts);
        let whole = items_entries(items, page, ts);
        assert((before + front).is_prefix_of(before + whole));
        lemma_distinct_prefix(before + front, before + whole);
        assert(before + front =~= before + items_entries(items.take(i), page, ts) + item_entries(
            items[i],
            page,
            ts,
        ));
    }
}

/// Taking one more page into a document adds what the walk meets on that
/// page.
pub proof fn lemma_pages_step(pages: Seq<Frame>, i: int)
    requires
        0 <= i < pages.len(),
    ensures
        document_entries(pages.take(i + 1)) == document_entries(pages.take(i)) + frame_entries(
            pages[i],
            i + 1,
            Affine::identity(),
        ),
        document_numberings(pages.take(i + 1)) == document_numberings(pages.take(i)).push(
            latest(None, frame_numberings(pages[i])),
        ),
{
    assert(pages.take(i + 1).drop_last() =~= pages.take(i));
    assert(pages.take(i + 1).last() == pages[i]);
    assert(document_numberings(pages.take(i + 1)) =~= document_numberings(pages.take(i)).push(
        latest(None, frame_numberings(pages[i])),
    ));
}

/// Meeting one run of numberings and then another is meeting both in turn.
pub proof fn lemma_latest_in_turn(
    before: Option<Numbering>,
    first: Seq<Option<Numbering>>,
    second: Seq<Option<Numbering>>,
)
    ensures
        latest(latest(before, first), second) == latest(before, first + second),
{
    if second.len() == 0 {
        assert(first + second =~= first);
    } else {
        assert((first + second).last() == second.last());
    }
}

/// What the walk meets on the first pages of a document is the front of what
/// it meets in the whole document.
pub proof fn lemma_pages_prefix(pages: Seq<Frame>, k: int)
    requires
        0 <= k <= pages.len(),
    ensures
        document_entries(pages.take(k)).is_prefix_of(document_entries(pages)),
    decreases pages.len(),
{
    if k == pages.len() {
        assert(pages.take(k) =~= pages);
    } else {
        lemma_pages_prefix(pages.drop_last(), k);
        assert(pages.drop_last().take(k) =~= pages.take(k));
    }
}

impl Frame {
    /// A frame with the given items, front to back.
    pub fn new(items: Vec<(Point, FrameItem)>) -> (r: Frame)
        ensures
            r.items == items,
    {
        Frame { items }
    }
}

} // verus!
