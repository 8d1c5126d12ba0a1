//! Errors of the conversion.
use vstd::prelude::*;
use crate::element::{debug_of, quote, Element};
use crate::text;

verus! {

/// An attribute that an element must carry is absent: the attribute's name and
/// a rendering of the element.
#[derive(Debug)]
pub struct MissingAttribute(pub String, pub String);

/// A child element that must be present is absent: what was looked for and a
/// rendering of the parent element.
#[derive(Debug)]
pub struct MissingElement(pub String, pub String);

/// A construct that the conversion does not handle: what it is and a rendering
/// of the element that holds it.
#[derive(Debug)]
pub struct UnsupportedError(pub String, pub String);

/// A register-group reference chain nested deeper than the resolver allows.
#[derive(Debug)]
pub struct RecursiveRegisterGroupError {
    pub group_name: String,
}

impl MissingAttribute {
    /// The attribute `attr` is missing on `el`.
    pub fn new(attr: &str, el: &Element) -> (r: Self)
        ensures
            r.0@ == attr@,
            r.1@ == debug_of(el),
    {
        MissingAttribute(text::owned(attr), el.debug())
    }
}

impl MissingElement {
    /// The child `name` is missing in `el`.
    pub fn new(name: &str, el: &Element) -> (r: Self)
        ensures
            r.0@ == name@,
            r.1@ == debug_of(el),
    {
        MissingElement(text::owned(name), el.debug())
    }
}

impl UnsupportedError {
    /// `what`, found in `el`, is not supported.
    pub fn new(what: &str, el: &Element) -> (r: Self)
        ensures
            r.0@ == what@,
            r.1@ == debug_of(el),
    {
        UnsupportedError(text::owned(what), el.debug())
    }
}

impl RecursiveRegisterGroupError {
    pub fn new(group_name: String) -> (r: Self)
        ensures
            r.group_name == group_name,
    {
        RecursiveRegisterGroupError { group_name }
    }
}

/// Every failure of the conversion.
#[derive(Debug)]
pub enum Error {
    MissingAttribute(MissingAttribute),
    MissingElement(MissingElement),
    MissingValueGroup(MissingElement),
    UnsupportedMask(UnsupportedError),
    UnsupportedAccessMode(UnsupportedError),
    Unsupported(UnsupportedError),
    RecursiveRegisterGroup(RecursiveRegisterGroupError),
    InvalidInteger(String),
    /// Two interrupts on different vectors carry the same name.
    InterruptNameClash(String),
    /// An address computed from a base and offsets does not fit in a `usize`.
    AddressOverflow(String),
    NoCpuPeripheral,
}

/// A prefix of a prefix of a list is a prefix of the list.
pub proof fn lemma_prefix_trans<T>(a: Seq<T>, b: Seq<T>, c: Seq<T>)
    requires
        a.is_prefix_of(b),
        b.is_prefix_of(c),
    ensures
        a.is_prefix_of(c),
{
    assert forall|t: int| 0 <= t < a.len() implies a[t] == c[t] by {
        assert(b[t] == a[t]);
    }
}

/// A flaw of the description that the conversion recovers from.
#[derive(Debug)]
pub enum Warning {
    /// A field's `rw` attribute is empty; the field is taken as read-write.
    EmptyAccessMode(String),
    /// Values of the field's enumeration that do not fit its mask were dropped.
    InvalidValuesDropped(String),
    /// No value of the field's enumeration fits its mask; the field is unrestricted-unsafe.
    EmptyEnumeration(String),
    /// Two interrupts share a vector: the names of both and the merged name.
    InterruptsMerged(String, String, String),
    /// The pin fields of the ports could not be added.
    PortFieldsSkipped,
}

/// An error that can describe itself in one human-readable message.
pub trait DisplayError {
    fn format(&self) -> String;
}

impl DisplayError for MissingAttribute {
    fn format(&self) -> String {
        let mut s = text::join("Missing attribute ", quote(self.0.as_str()).as_str());
        s.append(" on\n   ");
        s.append(self.1.as_str());
        s
    }
}

impl DisplayError for MissingElement {
    fn format(&self) -> String {
        let mut s = text::join("Missing child ", quote(self.0.as_str()).as_str());
        s.append(" in\n   ");
        s.append(self.1.as_str());
        s
    }
}

impl DisplayError for UnsupportedError {
    fn format(&self) -> String {
        let mut s = text::join(self.0.as_str(), " is unsupported in element\n    ");
        s.append(self.1.as_str());
        s
    }
}

impl DisplayError for RecursiveRegisterGroupError {
    fn format(&self) -> String {
        text::join(
            "Recursive register group reference detected leading to ",
            self.group_name.as_str(),
        )
    }
}

impl DisplayError for Error {
    fn format(&self) -> String {
        match self {
            Error::MissingAttribute(e) => e.format(),
            Error::MissingElement(e) => e.format(),
            Error::MissingValueGroup(e) => e.format(),
            Error::UnsupportedMask(e) => e.format(),
            Error::UnsupportedAccessMode(e) => e.format(),
            Error::Unsupported(e) => e.format(),
            Error::RecursiveRegisterGroup(e) => e.format(),
            Error::InvalidInteger(t) => text::join("Invalid integer ", quote(t.as_str()).as_str()),
            Error::AddressOverflow(n) => text::join3(
                "Address of ",
                n.as_str(),
                " does not fit in the address space",
            ),
            Error::InterruptNameClash(n) => text::join3(
                "Interrupt name ",
                n.as_str(),
                " is used on more than one vector",
            ),
            Error::NoCpuPeripheral => text::owned(
                "No `CPU` peripheral found, to which interrupts can be added!",
            ),
        }
    }
}

} // verus!
