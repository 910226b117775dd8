//! The values that the index stores: locations, labels, numberings and
//! element snapshots.

use vstd::prelude::*;

verus! {

/// The identity of one element instance in a laid-out document.
#[derive(Clone, Copy, Debug, PartialEq, Eq, Hash, Structural)]
pub struct Location {
    pub hash: u128,
}

/// A name that an author gave to an element, as an interned identifier.
#[derive(Clone, Copy, Debug, PartialEq, Eq, Hash, Structural)]
pub struct Label {
    pub id: u64,
}

/// A page numbering. The index stores and returns it and never looks inside.
#[derive(Clone, Copy, Debug, PartialEq, Eq, Hash, Structural)]
pub struct Numbering {
    pub id: u64,
}

/// An immutable snapshot of one element of the document.
#[derive(Clone, Debug, PartialEq, Eq)]
pub struct Element {
    /// Where the element stands in the document.
    pub location: Location,
    /// The label that the element carries, if any.
    pub label: Option<Label>,
    /// The kind of element this is.
    pub kind: u64,
    /// The capabilities of the element, one bit for each.
    pub capabilities: u64,
    /// The text of the element, where it is a piece of text.
    pub text: Option<String>,
}

impl Element {
    /// An element of the given kind at `location`, with no label, no
    /// capability and no text.
    pub fn new(location: Location, kind: u64) -> (r: Element)
        ensures
            r == (Element { location, label: None, kind, capabilities: 0, text: None }),
    {
        Element { location, label: None, kind, capabilities: 0, text: None }
    }

    /// This element with `label` in place of its label.
    pub fn with_label(self, label: Label) -> (r: Element)
        ensures
            r == (Element { label: Some(label), ..self }),
    {
        Element { label: Some(label), ..self }
    }

    /// This element with `capabilities` in place of its capabilities.
    pub fn with_capabilities(self, capabilities: u64) -> (r: Element)
        ensures
            r == (Element { capabilities, ..self }),
    {
        Element { capabilities, ..self }
    }

    /// This element with `text` in place of its text.
    pub fn with_text(self, text: String) -> (r: Element)
        ensures
            r == (Element { text: Some(text), ..self }),
    {
        Element { text: Some(text), ..self }
    }

    /// Where the element stands in the document.
    pub fn location(&self) -> (r: Location)
        ensures
            r == self.location,
    {
        self.location
    }

    /// The label that the element carries, if any.
    pub fn label(&self) -> (r: Option<Label>)
        ensures
            r == self.label,
    {
        self.label
    }

    /// A copy of this snapshot, equal to it in every field.
    pub fn snapshot(&self) -> (r: Element)
        ensures
            r == *self,
    {
        let text = match &self.text {
            Some(t) => Some(t.clone()),
            None => None,
        };
        Element {
            location: self.location,
            label: self.label,
            kind: self.kind,
            capabilities: self.capabilities,
            text,
        }
    }
}

} // verus!
