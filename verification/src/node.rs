//! The nodes of an HTML document.

use crate::comment::{HtmlComment, HtmlCommentBuilder};
use crate::element::{Element, ElementView};
use crate::html_element::{HtmlElement, HtmlElementBuilder};
use std::sync::Arc;
use vstd::prelude::*;
use vstd::std_specs::cmp::PartialEqSpecImpl;
use vstd::string::*;

verus! {

/// A node of an HTML document: an element, a text or a comment.  `H` is the
/// type of the event handlers.
pub enum HtmlNode<H> {
    Element(Arc<HtmlElement<H>>),
    Text(String),
    Comment(HtmlComment),
}

impl<H> HtmlNode<H> {
    /// Starts an element with the given tag.
    pub fn element(tag_name: &'static str) -> (r: HtmlElementBuilder<&'static str, H>)
        ensures
            r.tag_name == tag_name,
            r.attrs() == Seq::<(Seq<char>, Seq<char>)>::empty(),
            r.handlers() == Seq::<(Seq<char>, H)>::empty(),
            r.dom_ref is None,
    {
        HtmlElement::new().tag_name(tag_name)
    }

    /// A text node.
    pub fn text(text: String) -> (r: Self)
        ensures
            r == HtmlNode::<H>::Text(text),
    {
        HtmlNode::Text(text)
    }

    /// Starts a comment with the given text.
    pub fn comment(text: &str) -> (r: HtmlCommentBuilder<String>)
        ensures
            r.text@ == text@,
            r.dom_ref is None,
    {
        HtmlComment::new().text(text)
    }

    /// The element, if the node is one.
    pub fn as_element(&self) -> (r: Option<&HtmlElement<H>>)
        ensures
            match self {
                HtmlNode::Element(element) => r == Some(&**element),
                _ => r is None,
            },
    {
        match self {
            HtmlNode::Element(element) => Some(&**element),
            _ => None,
        }
    }

    /// The node with children.
    pub fn children<C, V>(self, children: Vec<Element<C, HtmlNode<H>, V>>) -> (r: Element<
        C,
        HtmlNode<H>,
        V,
    >)
        ensures
            r@ == ElementView::Node(self, Element::views(children@)),
    {
        Element::Node(self, children)
    }
}

impl<H> Clone for HtmlNode<H> {
    /// An element is shared, a text or a comment copied.
    fn clone(&self) -> (r: Self)
        ensures
            r == *self,
    {
        match self {
            HtmlNode::Element(element) => HtmlNode::Element(element.clone()),
            HtmlNode::Text(text) => HtmlNode::Text(text.clone()),
            HtmlNode::Comment(comment) => HtmlNode::Comment(comment.clone()),
        }
    }
}

impl<H> PartialEq for HtmlNode<H> {
    /// Nodes are equal when they are of the same kind and their contents are
    /// equal.
    fn eq(&self, other: &Self) -> (r: bool)
        ensures
            r ==> match (*self, *other) {
                (HtmlNode::Element(a), HtmlNode::Element(b)) => a.tag_name@ == b.tag_name@,
                (HtmlNode::Text(a), HtmlNode::Text(b)) => a@ == b@,
                (HtmlNode::Comment(a), HtmlNode::Comment(b)) => a.text@ == b.text@,
                _ => false,
            },
            (self matches HtmlNode::Text(a) && other matches HtmlNode::Text(b) && a@ == b@) ==> r,
    {
        match (self, other) {
            (HtmlNode::Element(a), HtmlNode::Element(b)) => (**a).eq(&**b),
            (HtmlNode::Text(a), HtmlNode::Text(b)) => *a == *b,
            (HtmlNode::Comment(a), HtmlNode::Comment(b)) => a.eq(b),
            _ => false,
        }
    }
}

impl<H> PartialEqSpecImpl for HtmlNode<H> {
    open spec fn obeys_eq_spec() -> bool {
        false
    }

    open spec fn eq_spec(&self, other: &Self) -> bool {
        arbitrary()
    }
}

impl<H> HtmlElement<H> {
    /// The element as a node.
    pub fn into_node(self) -> (r: HtmlNode<H>)
        ensures
            r == HtmlNode::Element(Arc::new(self)),
    {
        HtmlNode::Element(Arc::new(self))
    }

    /// The element with children.
    pub fn children<C, V>(self, children: Vec<Element<C, HtmlNode<H>, V>>) -> (r: Element<
        C,
        HtmlNode<H>,
        V,
    >)
        ensures
            r@ == ElementView::Node(
                HtmlNode::Element(Arc::new(self)),
                Element::views(children@),
            ),
    {
        Element::Node(HtmlNode::Element(Arc::new(self)), children)
    }
}

/// Starts an element with the given tag.
pub fn tag<H>(tag_name: &'static str) -> (r: HtmlElementBuilder<&'static str, H>)
    ensures
        r.tag_name == tag_name,
        r.attrs() == Seq::<(Seq<char>, Seq<char>)>::empty(),
        r.handlers() == Seq::<(Seq<char>, H)>::empty(),
        r.dom_ref is None,
{
    HtmlElement::new().tag_name(tag_name)
}

/// A text node without children, as an element of the description.
pub fn text<C, H, V>(content: &str) -> (r: Element<C, HtmlNode<H>, V>)
    ensures
        r@ matches ElementView::Node(HtmlNode::Text(text), children) && text@ == content@
            && children.len() == 0,
{
    let r = Element::Node(HtmlNode::Text(String::from_str(content)), Vec::new());
    assert(Element::<C, HtmlNode<H>, V>::views(Seq::empty()) =~= Seq::empty());
    r
}

} // verus!
