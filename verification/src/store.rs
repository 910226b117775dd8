//! The outside code that the index rests on, and what is taken on trust
//! about it.
//!
//! Each collection is known to the proofs only through the sequence of items
//! it holds, and the matching of regular expressions only by name. The
//! functions of this module say what each outside operation does; their
//! bodies are not verified.

use vstd::prelude::*;
use crate::content::Element;
use crate::geometry::Position;

verus! {

/// The most room that is reserved ahead of time, in elements.
pub const MAX_RESERVE: usize = 0x1_0000;

/// `indexmap::IndexMap`: a hash map that keeps its entries in the order in
/// which they were inserted. Of a map nothing is known but its entries.
#[verifier::external_type_specification]
#[verifier::external_body]
#[verifier::reject_recursive_types(K)]
#[verifier::reject_recursive_types(V)]
#[verifier::reject_recursive_types(S)]
pub struct ExIndexMap<K, V, S>(indexmap::IndexMap<K, V, S>);

/// The places, in document order, of the elements that carry one label.
///
/// It holds a `smallvec::SmallVec` with room for one place, so that a label
/// which occurs once needs no allocation. Of a slot nothing is known but the
/// places it holds.
#[verifier::external_body]
pub struct Slot {
    places: smallvec::SmallVec<[usize; 1]>,
}

/// `ecow::EcoVec`: a vector that is cheap to clone, since clones share their
/// items until one of them is changed. Of a vector nothing is known but its
/// items.
#[verifier::external_type_specification]
#[verifier::external_body]
#[verifier::reject_recursive_types(T)]
pub struct ExEcoVec<T>(ecow::EcoVec<T>);

/// The entries of an element map, in the order in which they were inserted:
/// each is a key with the snapshot and position stored under it.
pub uninterp spec fn map_entries(m: indexmap::IndexMap<u128, (Element, Position)>) -> Seq<(u128, (Element, Position))>;

/// The places that a slot holds, front to back.
pub uninterp spec fn slot_items(s: Slot) -> Seq<usize>;

/// The items of a list of snapshots, front to back.
pub uninterp spec fn list_items(l: ecow::EcoVec<Element>) -> Seq<Element>;

/// Whether a regular expression matches somewhere in a text; `None` where
/// the pattern is no regular expression.
pub uninterp spec fn regex_match(pattern: Seq<char>, text: Seq<char>) -> Option<bool>;

/// Whether some entry of `entries` has the key `key`.
pub open spec fn has_key(entries: Seq<(u128, (Element, Position))>, key: u128) -> bool {
    exists|i: int| 0 <= i < entries.len() && (#[trigger] entries[i]).0 == key
}

/// `IndexMap::with_capacity`, for a room that can be allocated: a new map
/// holds no entry, whatever room was asked for.
#[verifier::external_body]
pub(crate) fn map_with_capacity(capacity: usize) -> (m: indexmap::IndexMap<
    u128,
    (Element, Position),
>)
    requires
        capacity <= MAX_RESERVE,
    ensures
        map_entries(m) == Seq::<(u128, (Element, Position))>::empty(),
{
    indexmap::IndexMap::with_capacity(capacity)
}

/// `IndexMap::len`: the number of entries.
#[verifier::external_body]
pub(crate) fn map_len(m: &indexmap::IndexMap<u128, (Element, Position)>) -> (n: usize)
    ensures
        n == map_entries(*m).len(),
{
    m.len()
}

/// `IndexMap::insert`, under a key that the map does not hold: the entry goes
/// last, the entries before it stay as they are, and nothing is returned.
#[verifier::external_body]
pub(crate) fn map_insert(
    m: &mut indexmap::IndexMap<u128, (Element, Position)>,
    key: u128,
    value: (Element, Position),
) -> (previous: Option<(Element, Position)>)
    requires
        !has_key(map_entries(*old(m)), key),
    ensures
        previous.is_none(),
        map_entries(*final(m)) == map_entries(*old(m)).push((key, value)),
{
    m.insert(key, value)
}

/// `IndexMap::get_index_of`: the place of an entry with the given key, or
/// nothing where no entry has that key.
#[verifier::external_body]
pub(crate) fn map_get_index_of(
    m: &indexmap::IndexMap<u128, (Element, Position)>,
    key: u128,
) -> (found: Option<usize>)
    ensures
        match found {
            Some(i) => i < map_entries(*m).len() && map_entries(*m)[i as int].0 == key,
            None => !has_key(map_entries(*m), key),
        },
{
    m.get_index_of(&key)
}

/// Indexing an `IndexMap` by a place below its length: the value of the entry
/// at that place.
#[verifier::external_body]
pub(crate) fn map_value_at(m: &indexmap::IndexMap<u128, (Element, Position)>, index: usize) -> (r:
    &(Element, Position))
    requires
        index < map_entries(*m).len(),
    ensures
        *r == map_entries(*m)[index as int].1,
{
    &m[index]
}

/// `SmallVec::new`: a new vector holds no item.
#[verifier::external_body]
pub(crate) fn slot_new() -> (s: Slot)
    ensures
        slot_items(s) == Seq::<usize>::empty(),
{
    Slot { places: smallvec::SmallVec::new() }
}

/// `SmallVec::push`: the item goes last.
#[verifier::external_body]
pub(crate) fn slot_push(s: &mut Slot, value: usize)
    ensures
        slot_items(*final(s)) == slot_items(*old(s)).push(value),
{
    s.places.push(value)
}

/// `SmallVec::len`: the number of items.
#[verifier::external_body]
pub(crate) fn slot_len(s: &Slot) -> (n: usize)
    ensures
        n == slot_items(*s).len(),
{
    s.places.len()
}

/// Indexing a `SmallVec` by a place below its length: the item at that place.
#[verifier::external_body]
pub(crate) fn slot_at(s: &Slot, index: usize) -> (r: usize)
    requires
        index < slot_items(*s).len(),
    ensures
        r == slot_items(*s)[index as int],
{
    s.places[index]
}

/// `EcoVec::new`: a new list holds no item.
#[verifier::external_body]
pub(crate) fn list_new() -> (l: ecow::EcoVec<Element>)
    ensures
        list_items(l) == Seq::<Element>::empty(),
{
    ecow::EcoVec::new()
}

/// `EcoVec::push`: the item goes last.
#[verifier::external_body]
pub(crate) fn list_push(l: &mut ecow::EcoVec<Element>, value: Element)
    ensures
        list_items(*final(l)) == list_items(*old(l)).push(value),
{
    l.push(value)
}

/// `EcoVec::len`: the number of items.
#[verifier::external_body]
pub(crate) fn list_len(l: &ecow::EcoVec<Element>) -> (n: usize)
    ensures
        n == list_items(*l).len(),
{
    l.len()
}

/// Indexing an `EcoVec` by a place below its length: the item at that place.
#[verifier::external_body]
pub(crate) fn list_at(l: &ecow::EcoVec<Element>, index: usize) -> (r: &Element)
    requires
        index < list_items(*l).len(),
    ensures
        *r == list_items(*l)[index as int],
{
    &l[index]
}

/// `EcoVec::clone`: the clone shares the items of the list it was made from.
#[verifier::external_body]
pub(crate) fn list_clone(l: &ecow::EcoVec<Element>) -> (r: ecow::EcoVec<Element>)
    ensures
        list_items(r) == list_items(*l),
{
    l.clone()
}

/// `Regex::new` and `Regex::is_match`: whether the pattern, taken as a
/// regular expression, matches somewhere in the text; nothing where the
/// pattern does not compile.
#[verifier::external_body]
pub(crate) fn pattern_matches(pattern: &str, text: &str) -> (r: Option<bool>)
    ensures
        r == regex_match(pattern@, text@),
{
    match regex::Regex::new(pattern) {
        Ok(re) => Some(re.is_match(text)),
        Err(_) => None,
    }
}

} // verus!
