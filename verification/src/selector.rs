//! Selectors: the closed algebra of queries, and what each one selects.

use vstd::prelude::*;
use crate::content::{Element, Label, Location};
use crate::frame::Entry;
use crate::order::ordered;
use crate::store::{pattern_matches, regex_match};

verus! {

/// A query against the elements of a document.
#[derive(Debug)]
pub enum Selector {
    /// The elements of one kind.
    Elem(u64),
    /// The elements that carry a label.
    Label(Label),
    /// The text elements whose text a regular expression matches somewhere.
    Regex(String),
    /// The elements that have all of the given capabilities, one bit for
    /// each.
    Can(u64),
    /// The element at a location.
    Location(Location),
    /// The elements that at least one of the selectors selects; none where
    /// there is no selector.
    Or(Vec<Selector>),
    /// The elements that every one of the selectors selects; none where
    /// there is no selector.
    And(Vec<Selector>),
    /// Of the elements that `selector` selects, those before the first one
    /// that `end` selects; that one too where `inclusive` is set.
    Before { selector: Box<Selector>, end: Box<Selector>, inclusive: bool },
    /// Of the elements that `selector` selects, those after the first one
    /// that `start` selects; that one too where `inclusive` is set.
    After { selector: Box<Selector>, start: Box<Selector>, inclusive: bool },
}

/// A selector as a mathematical value.
pub enum SelectorView {
    Elem(u64),
    Label(Label),
    Regex(Seq<char>),
    Can(u64),
    Location(Location),
    Or(Seq<SelectorView>),
    And(Seq<SelectorView>),
    Before { selector: Box<SelectorView>, end: Box<SelectorView>, inclusive: bool },
    After { selector: Box<SelectorView>, start: Box<SelectorView>, inclusive: bool },
}

/// The views of a run of selectors.
pub open spec fn views(selectors: Seq<Selector>) -> Seq<SelectorView>
    decreases selectors, 1nat,
{
    if selectors.len() == 0 {
        Seq::empty()
    } else {
        views(selectors.drop_last()).push(selectors.last()@)
    }
}

impl View for Selector {
    type V = SelectorView;

    open spec fn view(&self) -> SelectorView
        decreases *self, 0nat,
    {
        match *self {
            Selector::Elem(kind) => SelectorView::Elem(kind),
            Selector::Label(label) => SelectorView::Label(label),
            Selector::Regex(pattern) => SelectorView::Regex(pattern@),
            Selector::Can(capabilities) => SelectorView::Can(capabilities),
            Selector::Location(location) => SelectorView::Location(location),
            Selector::Or(selectors) => SelectorView::Or(views(selectors@)),
            Selector::And(selectors) => SelectorView::And(views(selectors@)),
            Selector::Before { selector, end, inclusive } => SelectorView::Before {
                selector: Box::new((*selector)@),
                end: Box::new((*end)@),
                inclusive,
            },
            Selector::After { selector, start, inclusive } => SelectorView::After {
                selector: Box::new((*selector)@),
                start: Box::new((*start)@),
                inclusive,
            },
        }
    }
}

/// Whether an element answers to a selector that looks at one element alone:
/// its kind, its text or its capabilities.
pub open spec fn element_matches(selector: SelectorView, elem: Element) -> bool {
    match selector {
        SelectorView::Elem(kind) => elem.kind == kind,
        SelectorView::Regex(pattern) => elem.text is Some && regex_match(
            pattern,
            elem.text->0@,
        ) == Some(true),
        SelectorView::Can(capabilities) => elem.capabilities & capabilities == capabilities,
        _ => false,
    }
}

/// The document indices that a selector selects among `entries`.
pub open spec fn selected(entries: Seq<Entry>, selector: SelectorView) -> Set<int>
    decreases selector,
{
    match selector {
        SelectorView::Label(label) => Set::new(
            |i: int| 0 <= i < entries.len() && entries[i].0.label == Some(label),
        ),
        SelectorView::Location(location) => Set::new(
            |i: int| 0 <= i < entries.len() && entries[i].0.location == location,
        ),
        SelectorView::Or(selectors) => Set::new(
            |i: int|
                exists|k: int|
                    0 <= k < selectors.len() && selected(entries, #[trigger] selectors[k]).contains(
                        i,
                    ),
        ),
        SelectorView::And(selectors) => Set::new(
            |i: int|
                selectors.len() > 0 && forall|k: int|
                    0 <= k < selectors.len() ==> selected(entries, #[trigger] selectors[k]).contains(
                        i,
                    ),
        ),
        SelectorView::Before { selector, end, inclusive } => {
            let inner = selected(entries, *selector);
            let bounds = ordered(entries.len(), selected(entries, *end));
            if bounds.len() == 0 {
                inner
            } else {
                Set::new(
                    |i: int| inner.contains(i) && (i < bounds[0] || (inclusive && i == bounds[0])),
                )
            }
        },
        SelectorView::After { selector, start, inclusive } => {
            let inner = selected(entries, *selector);
            let bounds = ordered(entries.len(), selected(entries, *start));
            if bounds.len() == 0 {
                inner
            } else {
                Set::new(
                    |i: int| inner.contains(i) && (i > bounds[0] || (inclusive && i == bounds[0])),
                )
            }
        },
        _ => Set::new(|i: int| 0 <= i < entries.len() && element_matches(selector, entries[i].0)),
    }
}

/// The snapshots at the given document indices, in the order given.
pub open spec fn snapshots(entries: Seq<Entry>, idx: Seq<int>) -> Seq<Element> {
    Seq::new(idx.len(), |j: int| entries[idx[j]].0)
}

/// What a query for `selector` answers: the snapshots of the elements it
/// selects, in document order, each once.
pub open spec fn answer(entries: Seq<Entry>, selector: SelectorView) -> Seq<Element> {
    snapshots(entries, ordered(entries.len(), selected(entries, selector)))
}

/// What a union selects: what at least one of its selectors selects.
pub proof fn lemma_selected_or(entries: Seq<Entry>, selectors: Seq<SelectorView>, i: int)
    ensures
        selected(entries, SelectorView::Or(selectors)).contains(i) <==> exists|k: int|
            0 <= k < selectors.len() && selected(entries, #[trigger] selectors[k]).contains(i),
{
}

/// What an intersection selects: what every one of its selectors selects,
/// and nothing where it has no selector.
pub proof fn lemma_selected_and(entries: Seq<Entry>, selectors: Seq<SelectorView>, i: int)
    ensures
        selected(entries, SelectorView::And(selectors)).contains(i) <==> selectors.len() > 0
            && forall|k: int|
            0 <= k < selectors.len() ==> selected(entries, #[trigger] selectors[k]).contains(i),
{
}

/// A union over no selector selects nothing.
pub proof fn lemma_or_none(entries: Seq<Entry>, selectors: Seq<SelectorView>, i: int)
    ensures
        !selected(entries, SelectorView::Or(selectors.take(0))).contains(i),
{
    lemma_selected_or(entries, selectors.take(0), i);
}

/// A union over one selector more selects what the union selected and what
/// that selector selects.
pub proof fn lemma_or_step(entries: Seq<Entry>, selectors: Seq<SelectorView>, k: int, i: int)
    requires
        0 <= k < selectors.len(),
    ensures
        selected(entries, SelectorView::Or(selectors.take(k + 1))).contains(i) <==> selected(
            entries,
            SelectorView::Or(selectors.take(k)),
        ).contains(i) || selected(entries, selectors[k]).contains(i),
{
    let shorter = selectors.take(k);
    let longer = selectors.take(k + 1);
    lemma_selected_or(entries, shorter, i);
    lemma_selected_or(entries, longer, i);
    if selected(entries, SelectorView::Or(longer)).contains(i) {
        let w = choose|w: int|
            0 <= w < longer.len() && selected(entries, #[trigger] longer[w]).contains(i);
        if w < k {
            assert(selected(entries, shorter[w]).contains(i));
        }
    }
    if selected(entries, SelectorView::Or(shorter)).contains(i) {
        let w = choose|w: int|
            0 <= w < shorter.len() && selected(entries, #[trigger] shorter[w]).contains(i);
        assert(selected(entries, longer[w]).contains(i));
    }
    if selected(entries, selectors[k]).contains(i) {
        assert(selected(entries, longer[k]).contains(i));
    }
}

/// The view of a run of selectors is the run of their views.
pub proof fn lemma_views(selectors: Seq<Selector>)
    ensures
        views(selectors).len() == selectors.len(),
        forall|i: int| 0 <= i < selectors.len() ==> (#[trigger] views(selectors)[i]) == selectors[i]@,
    decreases selectors.len(),
{
    reveal_with_fuel(views, 2);
    if selectors.len() > 0 {
        lemma_views(selectors.drop_last());
        assert(views(selectors) == views(selectors.drop_last()).push(selectors.last()@));
    } else {
        assert(views(selectors) == Seq::<SelectorView>::empty());
    }
}

/// Folds one value into a fingerprint.
pub open spec fn mix(h: u128, v: u128) -> u128 {
    vstd::wrapping::u128_specs::wrapping_mul(
        h ^ v,
        0x0000_0000_0100_0000_0000_0000_0000_013b,
    )
}

/// Folds the characters of a text into a fingerprint, front to back.
pub open spec fn mix_text(h: u128, text: Seq<char>) -> u128
    decreases text.len(),
{
    if text.len() == 0 {
        h
    } else {
        mix(mix_text(h, text.drop_last()), text.last() as u128)
    }
}

/// Folds the fingerprints of a run of selectors into a fingerprint, front to
/// back.
pub open spec fn mix_all(h: u128, selectors: Seq<SelectorView>) -> u128
    decreases selectors, 1nat,
{
    if selectors.len() == 0 {
        h
    } else {
        mix(mix_all(h, selectors.drop_last()), fingerprint_of(selectors.last()))
    }
}

/// The fingerprint of a selector: a number that depends on what the
/// selector says and on nothing else.
pub open spec fn fingerprint_of(selector: SelectorView) -> u128
    decreases selector, 0nat,
{
    let seed: u128 = 0x6c62_272e_07bb_0142_62b8_2175_6295_c58d;
    match selector {
        SelectorView::Elem(kind) => mix(mix(seed, 1), kind as u128),
        SelectorView::Label(label) => mix(mix(seed, 2), label.id as u128),
        SelectorView::Regex(pattern) => mix_text(mix(seed, 3), pattern),
        SelectorView::Can(capabilities) => mix(mix(seed, 4), capabilities as u128),
        SelectorView::Location(location) => mix(mix(seed, 5), location.hash),
        SelectorView::Or(selectors) => mix_all(mix(seed, 6), selectors),
        SelectorView::And(selectors) => mix_all(mix(seed, 7), selectors),
        SelectorView::Before { selector, end, inclusive } => mix(
            mix(mix(mix(seed, 8), fingerprint_of(*selector)), fingerprint_of(*end)),
            if inclusive {
                1
            } else {
                0
            },
        ),
        SelectorView::After { selector, start, inclusive } => mix(
            mix(mix(mix(seed, 9), fingerprint_of(*selector)), fingerprint_of(*start)),
            if inclusive {
                1
            } else {
                0
            },
        ),
    }
}

fn mix_in(h: u128, v: u128) -> (r: u128)
    ensures
        r == mix(h, v),
{
    (h ^ v).wrapping_mul(0x0000_0000_0100_0000_0000_0000_0000_013b)
}

fn mix_in_text(h: u128, text: &str) -> (r: u128)
    ensures
        r == mix_text(h, text@),
{
    let n: usize = text.unicode_len();
    let mut acc: u128 = h;
    let mut i: usize = 0;
    while i < n
        invariant
            i <= n,
            n == text@.len(),
            acc == mix_text(h, text@.take(i as int)),
        decreases n - i,
    {
        let c: char = text.get_char(i);
        proof {
            assert(text@.take(i + 1).drop_last() =~= text@.take(i as int));
        }
        acc = mix_in(acc, c as u128);
        i = i + 1;
    }
    proof {
        assert(text@.take(n as int) =~= text@);
    }
    acc
}

impl Selector {
    /// Whether an element answers to this selector, where the selector looks
    /// at one element alone: its kind, its text or its capabilities. No
    /// element answers to a selector of another form.
    pub fn matches(&self, elem: &Element) -> (r: bool)
        ensures
            r == element_matches(self@, *elem),
    {
        match self {
            Selector::Elem(kind) => elem.kind == *kind,
            Selector::Regex(pattern) => match &elem.text {
                Some(text) => Self::verdict(pattern_matches(pattern.as_str(), text.as_str())),
                None => false,
            },
            Selector::Can(capabilities) => elem.capabilities & *capabilities == *capabilities,
            _ => false,
        }
    }

    /// What a match of a pattern against a text counts for: a hit where the
    /// pattern is a regular expression and matches, a miss otherwise.
    pub fn verdict(outcome: Option<bool>) -> (r: bool)
        ensures
            r == (outcome == Some(true)),
    {
        match outcome {
            Some(hit) => hit,
            None => false,
        }
    }

    /// The fingerprint of this selector. Selectors that say the same have
    /// the same fingerprint.
    pub fn fingerprint(&self) -> (r: u128)
        ensures
            r == fingerprint_of(self@),
        decreases *self,
    {
        let seed: u128 = 0x6c62_272e_07bb_0142_62b8_2175_6295_c58d;
        match self {
            Selector::Elem(kind) => mix_in(mix_in(seed, 1), *kind as u128),
            Selector::Label(label) => mix_in(mix_in(seed, 2), label.id as u128),
            Selector::Regex(pattern) => mix_in_text(mix_in(seed, 3), pattern.as_str()),
            Selector::Can(capabilities) => mix_in(mix_in(seed, 4), *capabilities as u128),
            Selector::Location(location) => mix_in(mix_in(seed, 5), location.hash),
            Selector::Or(selectors) => Self::fingerprint_all(mix_in(seed, 6), selectors),
            Selector::And(selectors) => Self::fingerprint_all(mix_in(seed, 7), selectors),
            Selector::Before { selector, end, inclusive } => {
                let inner: u128 = selector.fingerprint();
                let bound: u128 = end.fingerprint();
                let flag: u128 = if *inclusive {
                    1
                } else {
                    0
                };
                mix_in(mix_in(mix_in(mix_in(seed, 8), inner), bound), flag)
            },
            Selector::After { selector, start, inclusive } => {
                let inner: u128 = selector.fingerprint();
                let bound: u128 = start.fingerprint();
                let flag: u128 = if *inclusive {
                    1
                } else {
                    0
                };
                mix_in(mix_in(mix_in(mix_in(seed, 9), inner), bound), flag)
            },
        }
    }

    fn fingerprint_all(h: u128, selectors: &Vec<Selector>) -> (r: u128)
        ensures
            r == mix_all(h, views(selectors@)),
        decreases *selectors,
    {
        let mut acc: u128 = h;
        let mut i: usize = 0;
        while i < selectors.len()
            invariant
                i <= selectors.len(),
                acc == mix_all(h, views(selectors@.take(i as int))),
            decreases selectors.len() - i,
        {
            let part: u128 = selectors[i].fingerprint();
            proof {
                assert(selectors@.take(i + 1).drop_last() =~= selectors@.take(i as int));
                assert(views(selectors@.take(i + 1)).drop_last() =~= views(
                    selectors@.take(i as int),
                ));
            }
            acc = mix_in(acc, part);
            i = i + 1;
        }
        proof {
            assert(selectors@.take(selectors.len() as int) =~= selectors@);
        }
        acc
    }

    /// A selector that says the same as this one.
    pub fn duplicate(&self) -> (r: Selector)
        ensures
            r@ == self@,
        decreases *self,
    {
        match self {
            Selector::Elem(kind) => Selector::Elem(*kind),
            Selector::Label(label) => Selector::Label(*label),
            Selector::Regex(pattern) => Selector::Regex(pattern.clone()),
            Selector::Can(capabilities) => Selector::Can(*capabilities),
            Selector::Location(location) => Selector::Location(*location),
            Selector::Or(selectors) => Selector::Or(Self::duplicate_all(selectors)),
            Selector::And(selectors) => Selector::And(Self::duplicate_all(selectors)),
            Selector::Before { selector, end, inclusive } => Selector::Before {
                selector: Box::new(selector.duplicate()),
                end: Box::new(end.duplicate()),
                inclusive: *inclusive,
            },
            Selector::After { selector, start, inclusive } => Selector::After {
                selector: Box::new(selector.duplicate()),
                start: Box::new(start.duplicate()),
                inclusive: *inclusive,
            },
        }
    }

    fn duplicate_all(selectors: &Vec<Selector>) -> (r: Vec<Selector>)
        ensures
            views(r@) == views(selectors@),
        decreases *selectors,
    {
        let mut out: Vec<Selector> = Vec::new();
        let mut i: usize = 0;
        while i < selectors.len()
            invariant
                i <= selectors.len(),
                out@.len() == i,
                forall|k: int| 0 <= k < i ==> (#[trigger] out@[k])@ == selectors@[k]@,
            decreases selectors.len() - i,
        {
            out.push(selectors[i].duplicate());
            i = i + 1;
        }
        proof {
            lemma_views(out@);
            lemma_views(selectors@);
            assert(views(out@) =~= views(selectors@));
        }
        out
    }

    /// Whether this selector says the same as `other`.
    pub fn same(&self, other: &Selector) -> (r: bool)
        ensures
            r == (self@ == other@),
        decreases *self,
    {
        match (self, other) {
            (Selector::Elem(a), Selector::Elem(b)) => *a == *b,
            (Selector::Label(a), Selector::Label(b)) => a.id == b.id,
            (Selector::Regex(a), Selector::Regex(b)) => *a == *b,
            (Selector::Can(a), Selector::Can(b)) => *a == *b,
            (Selector::Location(a), Selector::Location(b)) => a.hash == b.hash,
            (Selector::Or(a), Selector::Or(b)) => Self::same_all(a, b),
            (Selector::And(a), Selector::And(b)) => Self::same_all(a, b),
            (
                Selector::Before { selector: a, end: c, inclusive: x },
                Selector::Before { selector: b, end: d, inclusive: y },
            ) => *x == *y && a.same(b) && c.same(d),
            (
                Selector::After { selector: a, start: c, inclusive: x },
                Selector::After { selector: b, start: d, inclusive: y },
            ) => *x == *y && a.same(b) && c.same(d),
            _ => false,
        }
    }

    fn same_all(left: &Vec<Selector>, right: &Vec<Selector>) -> (r: bool)
        ensures
            r == (views(left@) == views(right@)),
        decreases *left,
    {
        proof {
            lemma_views(left@);
            lemma_views(right@);
        }
        if left.len() != right.len() {
            return false;
        }
        let mut i: usize = 0;
        while i < left.len()
            invariant
                i <= left.len(),
                left.len() == right.len(),
                views(left@).len() == left.len(),
                views(right@).len() == right.len(),
                forall|k: int| 0 <= k < left.len() ==> (#[trigger] views(left@)[k]) == left@[k]@,
                forall|k: int| 0 <= k < right.len() ==> (#[trigger] views(right@)[k]) == right@[k]@,
                forall|k: int| 0 <= k < i ==> (#[trigger] left@[k])@ == right@[k]@,
            decreases left.len() - i,
        {
            if !left[i].same(&right[i]) {
                proof {
                    assert(views(left@)[i as int] != views(right@)[i as int]);
                }
                return false;
            }
            i = i + 1;
        }
        proof {
            assert(views(left@) =~= views(right@));
        }
        true
    }
}

} // verus!
