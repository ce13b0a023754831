//! Element nodes: a tag with attributes, event handlers and an optional
//! reference.

use crate::assoc::{distinct, lemma_position, lemma_put_distinct, position, put};
use crate::dom_ref::{same_ref, DomRef};
use std::sync::Arc;
use vstd::prelude::*;
use vstd::std_specs::cmp::PartialEqSpecImpl;
use vstd::string::*;

verus! {

/// An HTML tag such as `<div>` or `<span>`.  `H` is the type of the event
/// handlers.
///
/// Attributes and handlers are kept in the order in which their names were
/// first set; a name occurs once.
pub struct HtmlElement<H> {
    pub tag_name: &'static str,
    pub attributes: Vec<(String, String)>,
    pub callbacks: Vec<(String, H)>,
    pub dom_ref: Option<Arc<DomRef>>,
}

/// An element in the making.  `T` is `()` until the tag name is set.
pub struct HtmlElementBuilder<T, H> {
    pub tag_name: T,
    pub attributes: Vec<(String, String)>,
    pub callbacks: Vec<(String, H)>,
    pub dom_ref: Option<Arc<DomRef>>,
}

/// A list of named entries, the names as text.
pub open spec fn named<X>(list: Seq<(String, X)>) -> Seq<(Seq<char>, X)> {
    Seq::new(list.len(), |i: int| (list[i].0@, list[i].1))
}

/// A list of attributes, names and values as text.
pub open spec fn texts(list: Seq<(String, String)>) -> Seq<(Seq<char>, Seq<char>)> {
    Seq::new(list.len(), |i: int| (list[i].0@, list[i].1@))
}

/// Whether two texts are the same.
pub fn str_eq(a: &str, b: &str) -> (r: bool)
    ensures
        r == (a@ == b@),
{
    let left = String::from_str(a);
    let right = String::from_str(b);
    left == right
}

/// Every entry of `list` stands in `other` under its name with its value.
pub open spec fn covers(
    list: Seq<(Seq<char>, Seq<char>)>,
    other: Seq<(Seq<char>, Seq<char>)>,
) -> bool {
    forall|i: int|
        0 <= i < list.len() ==> (position(other, (#[trigger] list[i]).0) matches Some(j)
            && other[j].1 == list[i].1)
}

/// Whether every attribute of `list` stands in `other` with its value.
fn covered(list: &Vec<(String, String)>, other: &Vec<(String, String)>) -> (r: bool)
    ensures
        r == covers(texts(list@), texts(other@)),
{
    let mut i: usize = 0;
    while i < list.len()
        invariant
            i <= list@.len(),
            forall|k: int|
                0 <= k < i ==> (position(texts(other@), (#[trigger] texts(list@)[k]).0) matches Some(
                    j,
                ) && texts(other@)[j].1 == texts(list@)[k].1),
        decreases list@.len() - i,
    {
        let ghost entry = texts(list@)[i as int];
        let found = find_attribute(other, list[i].0.as_str());
        let same = match found {
            Some(j) => list[i].1 == other[j].1,
            None => false,
        };
        if !same {
            assert(!(position(texts(other@), entry.0) matches Some(j) && texts(other@)[j].1
                == entry.1));
            return false;
        }
        i = i + 1;
    }
    true
}

/// Where the attribute `name` stands, if it does.
fn find_attribute(list: &Vec<(String, String)>, name: &str) -> (r: Option<usize>)
    ensures
        match r {
            Some(i) => position(texts(list@), name@) == Some(i as int) && i < list@.len(),
            None => position(texts(list@), name@) is None,
        },
{
    let key = String::from_str(name);
    let mut i: usize = 0;
    while i < list.len()
        invariant
            i <= list@.len(),
            key@ == name@,
            forall|j: int| 0 <= j < i ==> texts(list@)[j].0 != name@,
        decreases list@.len() - i,
    {
        if list[i].0 == key {
            proof {
                lemma_position(texts(list@), name@, i as int);
            }
            return Some(i);
        }
        i = i + 1;
    }
    None
}

impl<H> PartialEq for HtmlElement<H> {
    /// Elements are equal when they have the same tag and the same
    /// attributes, whatever their order, neither has an event handler, and
    /// they carry the same reference or none.
    fn eq(&self, other: &Self) -> (r: bool)
        ensures
            r ==> {
                &&& self.tag_name@ == other.tag_name@
                &&& covers(self.attrs(), other.attrs())
                &&& covers(other.attrs(), self.attrs())
                &&& self.handlers().len() == 0
                &&& other.handlers().len() == 0
                &&& self.dom_ref == other.dom_ref
            },
            self.tag_name@ != other.tag_name@ ==> !r,
            !covers(self.attrs(), other.attrs()) ==> !r,
            !covers(other.attrs(), self.attrs()) ==> !r,
            self.handlers().len() > 0 || other.handlers().len() > 0 ==> !r,
            (self.dom_ref is None) != (other.dom_ref is None) ==> !r,
            self.dom_ref is None && other.dom_ref is None ==> r == {
                &&& self.tag_name@ == other.tag_name@
                &&& covers(self.attrs(), other.attrs())
                &&& covers(other.attrs(), self.attrs())
                &&& self.handlers().len() == 0
                &&& other.handlers().len() == 0
            },
    {
        str_eq(self.tag_name, other.tag_name) && covered(&self.attributes, &other.attributes)
            && covered(&other.attributes, &self.attributes) && self.callbacks.len() == 0
            && other.callbacks.len() == 0 && same_ref(&self.dom_ref, &other.dom_ref)
    }
}

impl<H> PartialEqSpecImpl for HtmlElement<H> {
    open spec fn obeys_eq_spec() -> bool {
        false
    }

    open spec fn eq_spec(&self, other: &Self) -> bool {
        arbitrary()
    }
}

/// Where `name` stands among the entries, if it does.
fn find<X>(list: &Vec<(String, X)>, name: &str) -> (r: Option<usize>)
    ensures
        match r {
            Some(i) => position(named(list@), name@) == Some(i as int) && i < list@.len(),
            None => position(named(list@), name@) is None,
        },
{
    let key = String::from_str(name);
    let mut i: usize = 0;
    while i < list.len()
        invariant
            i <= list@.len(),
            key@ == name@,
            forall|j: int| 0 <= j < i ==> named(list@)[j].0 != name@,
        decreases list@.len() - i,
    {
        if list[i].0 == key {
            proof {
                lemma_position(named(list@), name@, i as int);
            }
            return Some(i);
        }
        i = i + 1;
    }
    None
}

/// Puts `value` under `name`.
fn put_entry<X>(list: &mut Vec<(String, X)>, name: &str, value: X)
    ensures
        named(final(list)@) == put(named(old(list)@), name@, value),
{
    match find(list, name) {
        Some(i) => {
            list[i] = (String::from_str(name), value);
            assert(named(list@) =~= put(named(old(list)@), name@, value));
        },
        None => {
            list.push((String::from_str(name), value));
            assert(named(list@) =~= put(named(old(list)@), name@, value));
        },
    }
}

/// Puts the attribute `value` under `name`.
fn put_attribute(list: &mut Vec<(String, String)>, name: &str, value: &str)
    ensures
        texts(final(list)@) == put(texts(old(list)@), name@, value@),
{
    let key = String::from_str(name);
    let mut i: usize = 0;
    while i < list.len()
        invariant
            i <= list@.len(),
            key@ == name@,
            *list == *old(list),
            forall|j: int| 0 <= j < i ==> texts(list@)[j].0 != name@,
        decreases list@.len() - i,
    {
        if list[i].0 == key {
            proof {
                lemma_position(texts(list@), name@, i as int);
            }
            list[i] = (key, String::from_str(value));
            assert(texts(list@) =~= put(texts(old(list)@), name@, value@));
            return ;
        }
        i = i + 1;
    }
    list.push((key, String::from_str(value)));
    assert(texts(list@) =~= put(texts(old(list)@), name@, value@));
}

impl<H> HtmlElement<H> {
    /// The attributes, names and values as text.
    pub open spec fn attrs(&self) -> Seq<(Seq<char>, Seq<char>)> {
        texts(self.attributes@)
    }

    /// The event handlers, the names as text.
    pub open spec fn handlers(&self) -> Seq<(Seq<char>, H)> {
        named(self.callbacks@)
    }

    /// Starts an element; `tag_name` has to follow before it can be built.
    pub fn new() -> (r: HtmlElementBuilder<(), H>)
        ensures
            r.attrs() == Seq::<(Seq<char>, Seq<char>)>::empty(),
            r.handlers() == Seq::<(Seq<char>, H)>::empty(),
            r.dom_ref is None,
    {
        let r = HtmlElementBuilder {
            tag_name: (),
            attributes: Vec::new(),
            callbacks: Vec::new(),
            dom_ref: None,
        };
        assert(r.attrs() =~= Seq::empty());
        assert(r.handlers() =~= Seq::empty());
        r
    }

    /// The name of the tag.
    pub fn tag_name(&self) -> (r: &str)
        ensures
            r@ == self.tag_name@,
    {
        self.tag_name
    }

    /// The attributes: for a `<div id="foo" class="bar">` the pairs
    /// `("id", "foo")` and `("class", "bar")`.
    pub fn attributes(&self) -> (r: &Vec<(String, String)>)
        ensures
            *r == self.attributes,
    {
        &self.attributes
    }

    /// The event handlers, each under the name of its event.
    pub fn callbacks(&self) -> (r: &Vec<(String, H)>)
        ensures
            *r == self.callbacks,
    {
        &self.callbacks
    }

    /// The handler of the event `name`, if one is set.
    pub fn callback(&self, name: &str) -> (r: Option<&H>)
        ensures
            match r {
                Some(handler) => position(self.handlers(), name@) matches Some(i)
                    && *handler == self.handlers()[i].1,
                None => position(self.handlers(), name@) is None,
            },
    {
        match find(&self.callbacks, name) {
            Some(i) => Some(&self.callbacks[i].1),
            None => None,
        }
    }

    /// The reference that the element carries.
    pub fn dom_ref(&self) -> (r: &Option<Arc<DomRef>>)
        ensures
            *r == self.dom_ref,
    {
        &self.dom_ref
    }
}

impl<T, H> HtmlElementBuilder<T, H> {
    /// The attributes set so far, names and values as text.
    pub open spec fn attrs(&self) -> Seq<(Seq<char>, Seq<char>)> {
        texts(self.attributes@)
    }

    /// The event handlers set so far, the names as text.
    pub open spec fn handlers(&self) -> Seq<(Seq<char>, H)> {
        named(self.callbacks@)
    }

    /// Sets one attribute; a value that was set under the name before is
    /// replaced.  `HtmlElement::new().tag_name("div").attr("id", "foo")`
    /// builds a `<div id="foo">`.
    pub fn attr(self, key: &str, value: &str) -> (r: Self)
        ensures
            r.attrs() == put(self.attrs(), key@, value@),
            distinct(self.attrs()) ==> distinct(r.attrs()),
            r.handlers() == self.handlers(),
            r.tag_name == self.tag_name,
            r.dom_ref == self.dom_ref,
    {
        let mut r = self;
        put_attribute(&mut r.attributes, key, value);
        proof {
            if distinct(self.attrs()) {
                lemma_put_distinct(self.attrs(), key@, value@);
            }
        }
        r
    }

    /// Sets the handler of one event; a handler that was set for the event
    /// before is replaced.
    pub fn on(self, key: &str, handler: H) -> (r: Self)
        ensures
            r.handlers() == put(self.handlers(), key@, handler),
            distinct(self.handlers()) ==> distinct(r.handlers()),
            r.attrs() == self.attrs(),
            r.tag_name == self.tag_name,
            r.dom_ref == self.dom_ref,
    {
        let mut r = self;
        put_entry(&mut r.callbacks, key, handler);
        proof {
            if distinct(self.handlers()) {
                lemma_put_distinct(self.handlers(), key@, handler);
            }
        }
        r
    }

    /// Lets the element carry a reference.
    pub fn dom_ref(self, dom_ref: Arc<DomRef>) -> (r: Self)
        ensures
            r.dom_ref == Some(dom_ref),
            r.attrs() == self.attrs(),
            r.handlers() == self.handlers(),
            r.tag_name == self.tag_name,
    {
        let mut r = self;
        r.dom_ref = Some(dom_ref);
        r
    }
}

impl<H> HtmlElementBuilder<(), H> {
    /// Sets the name of the tag.
    pub fn tag_name(self, tag_name: &'static str) -> (r: HtmlElementBuilder<&'static str, H>)
        ensures
            r.tag_name == tag_name,
            r.attrs() == self.attrs(),
            r.handlers() == self.handlers(),
            r.dom_ref == self.dom_ref,
    {
        HtmlElementBuilder {
            tag_name,
            attributes: self.attributes,
            callbacks: self.callbacks,
            dom_ref: self.dom_ref,
        }
    }
}

impl<H> HtmlElementBuilder<&'static str, H> {
    /// The element.
    pub fn build(self) -> (r: HtmlElement<H>)
        ensures
            r.tag_name == self.tag_name,
            r.attrs() == self.attrs(),
            r.handlers() == self.handlers(),
            r.dom_ref == self.dom_ref,
    {
        HtmlElement {
            tag_name: self.tag_name,
            attributes: self.attributes,
            callbacks: self.callbacks,
            dom_ref: self.dom_ref,
        }
    }
}

} // verus!
