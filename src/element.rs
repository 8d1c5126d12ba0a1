//! The attributed element tree that a chip description is read from.
use vstd::prelude::*;
use crate::error::{Error, MissingAttribute, MissingElement};
use crate::text;

verus! {

/// An element of a description: its name (with the namespace prefix written
/// before it, if any), its attributes in document order, and its child
/// elements.
#[derive(Debug)]
pub struct Element {
    /// The namespace prefix written before the name, if any.
    pub prefix: Option<String>,
    pub name: String,
    pub attributes: Vec<(String, String)>,
    pub children: Vec<Element>,
}

/// The value of the first attribute named `name` in `attrs`.
pub open spec fn attr_in(attrs: Seq<(String, String)>, name: Seq<char>) -> Option<Seq<char>>
    decreases attrs.len(),
{
    if attrs.len() == 0 {
        None
    } else if attrs[0].0@ == name {
        Some(attrs[0].1@)
    } else {
        attr_in(attrs.drop_first(), name)
    }
}

/// The value of the attribute `name` of `e`.
pub open spec fn attr_of(e: &Element, name: Seq<char>) -> Option<Seq<char>> {
    attr_in(e.attributes@, name)
}

/// Whether child `i` is the first child of `e` that satisfies `p`.
pub open spec fn is_first_child(e: &Element, i: int, p: spec_fn(Element) -> bool) -> bool {
    0 <= i < e.children@.len() && p(e.children@[i]) && forall|j: int|
        0 <= j < i ==> !p(#[trigger] e.children@[j])
}

/// Whether some child of `e` satisfies `p`.
pub open spec fn has_child(e: &Element, p: spec_fn(Element) -> bool) -> bool {
    exists|i: int| 0 <= i < e.children@.len() && p(#[trigger] e.children@[i])
}

/// The first child of `e` named `name`, where there is one.
pub open spec fn first_named(e: Element, name: Seq<char>) -> Element {
    e.children@[choose|i: int| is_first_child(&e, i, named(name))]
}

/// The first child of `e` that satisfies `p`, where there is one.
pub open spec fn first_carrying(e: Element, p: spec_fn(Element) -> bool) -> Element {
    e.children@[choose|i: int| is_first_child(&e, i, p)]
}

/// Whether an element is named `name`.
pub open spec fn named(name: Seq<char>) -> spec_fn(Element) -> bool {
    |c: Element| c.name@ == name
}

/// Whether an element, named `name` where one is given, has the attribute
/// `attr` with the value `value`.
pub open spec fn carries(name: Option<Seq<char>>, attr: Seq<char>, value: Seq<char>) -> spec_fn(Element) -> bool {
    |c: Element|
        (name matches Some(n) ==> c.name@ == n) && attr_of(&c, attr) == Some(value)
}

/// The elements of `v` that are named `name`, in order.
pub open spec fn named_among(v: Seq<Element>, name: Seq<char>) -> Seq<Element> {
    v.filter(|c: Element| c.name@ == name)
}

/// The value of the attribute `name` of `e`, where it is present and not empty.
pub open spec fn nonempty_attr_of(e: &Element, name: Seq<char>) -> Option<Seq<char>> {
    match attr_of(e, name) {
        Some(v) => if v.len() > 0 {
            Some(v)
        } else {
            None
        },
        None => None,
    }
}

/// The view of an optional string.
pub open spec fn opt_view(o: Option<String>) -> Option<Seq<char>> {
    match o {
        Some(s) => Some(s@),
        None => None,
    }
}

/// The attributes `attrs` as a start tag lists them: each as name, `=`, the
/// value in quotes, and a space.
pub open spec fn attrs_text(attrs: Seq<(String, String)>) -> Seq<char>
    decreases attrs.len(),
{
    if attrs.len() == 0 {
        Seq::empty()
    } else {
        attrs_text(attrs.drop_last()) + attrs.last().0@ + "="@ + debug_text(attrs.last().1@) + " "@
    }
}

/// The one-line rendering of an element's start tag.
pub open spec fn debug_of(e: &Element) -> Seq<char> {
    "<"@ + prefix_text(e.prefix) + e.name@ + " "@ + attrs_text(e.attributes@) + "...>"@
}

/// A namespace prefix as a start tag shows it: followed by a colon.
pub open spec fn prefix_text(p: Option<String>) -> Seq<char> {
    match p {
        Some(x) => x@ + ":"@,
        None => Seq::empty(),
    }
}

pub uninterp spec fn debug_text(s: Seq<char>) -> Seq<char>;

/// Relies on `str`'s `Debug` formatting: the text in double quotes, with
/// escapes.
#[verifier::external_body]
fn quoted(s: &str) -> (r: String)
    ensures
        r@ == debug_text(s@),
{
    format!("{:?}", s)
}

/// `s` in double quotes, as the description's diagnostics show text.
pub fn quote(s: &str) -> (r: String)
    ensures
        r@ == debug_text(s@),
{
    quoted(s)
}

impl Element {
    /// A one-line rendering of the element's start tag, for diagnostics.
    pub fn debug(&self) -> (r: String)
        ensures
            r@ == debug_of(self),
    {
        let mut s = text::owned("<");
        match &self.prefix {
            Some(x) => {
                s.append(x.as_str());
                s.append(":");
            },
            None => {},
        }
        s.append(self.name.as_str());
        s.append(" ");
        let ghost head = "<"@ + prefix_text(self.prefix) + self.name@ + " "@;
        assert(self.attributes@.subrange(0, 0) =~= Seq::<(String, String)>::empty());
        assert(s@ =~= head + attrs_text(self.attributes@.subrange(0, 0)));
        let mut i: usize = 0;
        while i < self.attributes.len()
            invariant
                i <= self.attributes@.len(),
                head == "<"@ + prefix_text(self.prefix) + self.name@ + " "@,
                s@ == head + attrs_text(self.attributes@.subrange(0, i as int)),
            decreases self.attributes@.len() - i,
        {
            let (k, v) = &self.attributes[i];
            s.append(k.as_str());
            s.append("=");
            let q = quoted(v.as_str());
            s.append(q.as_str());
            s.append(" ");
            proof {
                let sub = self.attributes@.subrange(0, i + 1);
                assert(sub.drop_last() =~= self.attributes@.subrange(0, i as int));
                assert(sub.last() == self.attributes@[i as int]);
                assert(s@ =~= head + attrs_text(sub));
            }
            i = i + 1;
        }
        s.append("...>");
        assert(self.attributes@.subrange(0, i as int) =~= self.attributes@);
        assert(s@ =~= debug_of(self));
        s
    }

    /// The value of the attribute `name`.
    pub fn attr(&self, name: &str) -> (r: Result<&String, Error>)
        ensures
            r is Ok <==> attr_of(self, name@) is Some,
            r matches Ok(v) ==> Some(v@) == attr_of(self, name@),
            r matches Err(e) ==> e is MissingAttribute,
    {
        let mut i: usize = 0;
        assert(self.attributes@.skip(0) =~= self.attributes@);
        while i < self.attributes.len()
            invariant
                i <= self.attributes@.len(),
                attr_of(self, name@) == attr_in(self.attributes@.skip(i as int), name@),
            decreases self.attributes@.len() - i,
        {
            assert(self.attributes@.skip(i as int).drop_first() =~= self.attributes@.skip(i + 1));
            if text::equal(self.attributes[i].0.as_str(), name) {
                return Ok(&self.attributes[i].1);
            }
            i = i + 1;
        }
        Err(Error::MissingAttribute(MissingAttribute(text::owned(name), self.debug())))
    }

    /// The value of the attribute `name`, if present.
    pub fn attr_opt(&self, name: &str) -> (r: Option<&String>)
        ensures
            r is Some <==> attr_of(self, name@) is Some,
            r matches Some(v) ==> Some(v@) == attr_of(self, name@),
    {
        match self.attr(name) {
            Ok(v) => Some(v),
            Err(_) => None,
        }
    }

    /// A copy of the attribute `name`, where it is present and not empty.
    pub fn nonempty_attr(&self, name: &str) -> (r: Option<String>)
        ensures
            opt_view(r) == nonempty_attr_of(self, name@),
    {
        match self.attr_opt(name) {
            Some(v) => if v.unicode_len() > 0 {
                Some(v.clone())
            } else {
                None
            },
            None => None,
        }
    }

    /// The first child named `name`.
    pub fn first_child(&self, name: &str) -> (r: Result<&Element, Error>)
        ensures
            r is Ok <==> has_child(self, named(name@)),
            r matches Ok(c) ==> exists|i: int|
                is_first_child(self, i, named(name@)) && *c == self.children@[i],
            r matches Ok(c) ==> *c == first_named(*self, name@),
            r matches Err(e) ==> e is MissingElement,
    {
        let mut i: usize = 0;
        while i < self.children.len()
            invariant
                i <= self.children@.len(),
                forall|j: int| 0 <= j < i ==> !named(name@)(#[trigger] self.children@[j]),
            decreases self.children@.len() - i,
        {
            if text::equal(self.children[i].name.as_str(), name) {
                assert(is_first_child(self, i as int, named(name@)));
                proof {
                    let k = choose|k: int| is_first_child(self, k, named(name@));
                    if k < i {
                        assert(!named(name@)(self.children@[k]));
                    } else if k > i {
                        assert(!named(name@)(self.children@[i as int]));
                    }
                }
                return Ok(&self.children[i]);
            }
            i = i + 1;
        }
        Err(Error::MissingElement(MissingElement(text::owned(name), self.debug())))
    }

    /// The first child, named `name` where one is given, whose attribute
    /// `attr` has the value `value`.
    pub fn first_child_by_attr(&self, name: Option<&str>, attr: &str, value: &str) -> (r: Result<
        &Element,
        Error,
    >)
        ensures
            r is Ok <==> has_child(
                self,
                carries(
                    match name {
                        Some(n) => Some(n@),
                        None => None,
                    },
                    attr@,
                    value@,
                ),
            ),
            r matches Ok(c) ==> exists|i: int|
                is_first_child(
                    self,
                    i,
                    carries(
                        match name {
                            Some(n) => Some(n@),
                            None => None,
                        },
                        attr@,
                        value@,
                    ),
                ) && *c == self.children@[i],
            r matches Ok(c) ==> *c == first_carrying(
                *self,
                carries(
                    match name {
                        Some(n) => Some(n@),
                        None => None,
                    },
                    attr@,
                    value@,
                ),
            ),
            r matches Err(e) ==> e is MissingElement,
    {
        let ghost p = carries(
            match name {
                Some(n) => Some(n@),
                None => None,
            },
            attr@,
            value@,
        );
        let mut i: usize = 0;
        while i < self.children.len()
            invariant
                i <= self.children@.len(),
                p == carries(
                    match name {
                        Some(n) => Some(n@),
                        None => None,
                    },
                    attr@,
                    value@,
                ),
                forall|j: int| 0 <= j < i ==> !p(#[trigger] self.children@[j]),
            decreases self.children@.len() - i,
        {
            let c = &self.children[i];
            let name_ok = match name {
                Some(n) => text::equal(c.name.as_str(), n),
                None => true,
            };
            if name_ok {
                match c.attr_opt(attr) {
                    Some(v) => {
                        if text::equal(v.as_str(), value) {
                            assert(is_first_child(self, i as int, p));
                            proof {
                                let k = choose|k: int| is_first_child(self, k, p);
                                if k < i {
                                    assert(!p(self.children@[k]));
                                } else if k > i {
                                    assert(!p(self.children@[i as int]));
                                }
                            }
                            return Ok(c);
                        }
                    },
                    None => {},
                }
            }
            i = i + 1;
        }
        let what = match name {
            Some(n) => n,
            None => "???",
        };
        let mut s = text::join3("<", what, " ");
        s.append(attr);
        s.append("='");
        s.append(value);
        s.append("'>");
        Err(Error::MissingElement(MissingElement(s, self.debug())))
    }

    /// The children named `name`, in document order.
    pub fn children_named(&self, name: &str) -> (r: Vec<&Element>)
        ensures
            r@.map_values(|c: &Element| *c) == named_among(self.children@, name@),
    {
        let mut r: Vec<&Element> = Vec::new();
        let mut i: usize = 0;
        while i < self.children.len()
            invariant
                i <= self.children@.len(),
                r@.map_values(|c: &Element| *c) == named_among(
                    self.children@.subrange(0, i as int),
                    name@,
                ),
            decreases self.children@.len() - i,
        {
            let ghost before = r@;
            let c = &self.children[i];
            proof {
                assert(self.children@.subrange(0, i + 1) =~= self.children@.subrange(
                    0,
                    i as int,
                ).push(*c));
                self.children@.subrange(0, i as int).lemma_filter_push(*c, |c: Element| c.name@ == name@);
            }
            if text::equal(c.name.as_str(), name) {
                r.push(c);
                assert(r@.map_values(|c: &Element| *c) =~= before.map_values(|c: &Element| *c).push(*c));
            }
            i = i + 1;
        }
        assert(self.children@.subrange(0, i as int) =~= self.children@);
        r
    }
}

} // verus!
