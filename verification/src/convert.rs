//! Conversions into nodes and descriptions, so that `into()` can stand where
//! one is expected.

use crate::comment::HtmlComment;
use crate::component::Component;
use crate::element::{Element, ElementView};
use crate::html_element::HtmlElement;
use crate::node::HtmlNode;
use std::sync::Arc;
use vstd::prelude::*;
use vstd::std_specs::convert::FromSpecImpl;

verus! {

impl<C, N, V> From<Vec<Element<C, N, V>>> for Element<C, N, V> {
    /// A list of descriptions is the fragment of them.
    fn from(children: Vec<Element<C, N, V>>) -> (r: Self) {
        Element::Fragment(children)
    }
}

impl<C, N, V> FromSpecImpl<Vec<Element<C, N, V>>> for Element<C, N, V> {
    open spec fn obeys_from_spec() -> bool {
        true
    }

    open spec fn from_spec(children: Vec<Element<C, N, V>>) -> Self {
        Element::Fragment(children)
    }
}

impl<C: Component, N, V> From<C> for Element<C, N, V> {
    /// The props of a component are the description of that component.
    fn from(component: C) -> (r: Self) {
        Element::Component(Arc::new(component))
    }
}

impl<C: Component, N, V> FromSpecImpl<C> for Element<C, N, V> {
    open spec fn obeys_from_spec() -> bool {
        true
    }

    open spec fn from_spec(component: C) -> Self {
        Element::Component(Arc::new(component))
    }
}

impl<H> From<HtmlElement<H>> for HtmlNode<H> {
    fn from(element: HtmlElement<H>) -> (r: Self) {
        HtmlNode::Element(Arc::new(element))
    }
}

impl<H> FromSpecImpl<HtmlElement<H>> for HtmlNode<H> {
    open spec fn obeys_from_spec() -> bool {
        true
    }

    open spec fn from_spec(element: HtmlElement<H>) -> Self {
        HtmlNode::Element(Arc::new(element))
    }
}

impl<H> From<HtmlComment> for HtmlNode<H> {
    fn from(comment: HtmlComment) -> (r: Self) {
        HtmlNode::Comment(comment)
    }
}

impl<H> FromSpecImpl<HtmlComment> for HtmlNode<H> {
    open spec fn obeys_from_spec() -> bool {
        true
    }

    open spec fn from_spec(comment: HtmlComment) -> Self {
        HtmlNode::Comment(comment)
    }
}

impl<H> From<String> for HtmlNode<H> {
    /// A text is the text node of it.
    fn from(text: String) -> (r: Self) {
        HtmlNode::Text(text)
    }
}

impl<H> FromSpecImpl<String> for HtmlNode<H> {
    open spec fn obeys_from_spec() -> bool {
        true
    }

    open spec fn from_spec(text: String) -> Self {
        HtmlNode::Text(text)
    }
}

impl<C, N, V> From<()> for Element<C, N, V> {
    /// Nothing is the empty fragment.
    fn from(nothing: ()) -> (r: Self)
        ensures
            r@ == ElementView::<C, N, V>::Fragment(Seq::empty()),
    {
        let r = Element::Fragment(Vec::new());
        assert(Element::<C, N, V>::views(Seq::empty()) =~= Seq::empty());
        r
    }
}

impl<C, N, V> FromSpecImpl<()> for Element<C, N, V> {
    open spec fn obeys_from_spec() -> bool {
        false
    }

    open spec fn from_spec(nothing: ()) -> Self {
        arbitrary()
    }
}

impl<C, N: From<String>, V> From<String> for Element<C, N, V> {
    /// A text is the node that the node type makes of it, without children.
    fn from(value: String) -> (r: Self)
        ensures
            r@ matches ElementView::Node(node, children) && children.len() == 0 && call_ensures(
                N::from,
                (value,),
                node,
            ),
    {
        let r = Element::Node(N::from(value), Vec::new());
        assert(Element::<C, N, V>::views(Seq::empty()) =~= Seq::empty());
        r
    }
}

impl<C, N: From<String>, V> FromSpecImpl<String> for Element<C, N, V> {
    open spec fn obeys_from_spec() -> bool {
        false
    }

    open spec fn from_spec(value: String) -> Self {
        arbitrary()
    }
}

impl<C, H, V> From<HtmlNode<H>> for Element<C, HtmlNode<H>, V> {
    /// A node is the description of that node without children.
    fn from(node: HtmlNode<H>) -> (r: Self)
        ensures
            r@ == ElementView::<C, HtmlNode<H>, V>::Node(node, Seq::empty()),
    {
        let r = Element::Node(node, Vec::new());
        assert(Element::<C, HtmlNode<H>, V>::views(Seq::empty()) =~= Seq::empty());
        r
    }
}

impl<C, H, V> FromSpecImpl<HtmlNode<H>> for Element<C, HtmlNode<H>, V> {
    open spec fn obeys_from_spec() -> bool {
        false
    }

    open spec fn from_spec(node: HtmlNode<H>) -> Self {
        arbitrary()
    }
}

impl<C, H, V> From<HtmlElement<H>> for Element<C, HtmlNode<H>, V> {
    /// An element is the description of that element without children.
    fn from(element: HtmlElement<H>) -> (r: Self)
        ensures
            r@ == ElementView::<C, HtmlNode<H>, V>::Node(
                HtmlNode::Element(Arc::new(element)),
                Seq::empty(),
            ),
    {
        let r = Element::Node(HtmlNode::Element(Arc::new(element)), Vec::new());
        assert(Element::<C, HtmlNode<H>, V>::views(Seq::empty()) =~= Seq::empty());
        r
    }
}

impl<C, H, V> FromSpecImpl<HtmlElement<H>> for Element<C, HtmlNode<H>, V> {
    open spec fn obeys_from_spec() -> bool {
        false
    }

    open spec fn from_spec(element: HtmlElement<H>) -> Self {
        arbitrary()
    }
}

impl<C, H, V> From<HtmlComment> for Element<C, HtmlNode<H>, V> {
    /// A comment is the description of that comment without children.
    fn from(comment: HtmlComment) -> (r: Self)
        ensures
            r@ == ElementView::<C, HtmlNode<H>, V>::Node(HtmlNode::Comment(comment), Seq::empty()),
    {
        let r = Element::Node(HtmlNode::Comment(comment), Vec::new());
        assert(Element::<C, HtmlNode<H>, V>::views(Seq::empty()) =~= Seq::empty());
        r
    }
}

impl<C, H, V> FromSpecImpl<HtmlComment> for Element<C, HtmlNode<H>, V> {
    open spec fn obeys_from_spec() -> bool {
        false
    }

    open spec fn from_spec(comment: HtmlComment) -> Self {
        arbitrary()
    }
}

} // verus!
