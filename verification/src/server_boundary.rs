//! The mark that a server-rendered part of a page begins with.

use crate::comment::HtmlComment;
use crate::component::Component;
use crate::dom_ref::DomRef;
use crate::element::{Element, ElementView};
use crate::node::HtmlNode;
use std::marker::PhantomData;
use std::sync::Arc;
use vstd::prelude::*;
use vstd::std_specs::cmp::PartialEqSpecImpl;
use vstd::string::*;

verus! {

/// The component that stands where a server-rendered part begins.  It
/// renders a comment that carries `root`, so that the client can find the
/// place again.  `E` is the error type of the tree it is part of.
pub struct ServerBoundary<E> {
    pub _pd: PhantomData<E>,
    pub root: Arc<DomRef>,
}

/// A server boundary in the making.  `T` is `()` until the root is set.
pub struct ServerBoundaryBuilder<T> {
    pub root: T,
}

impl<E> PartialEq for ServerBoundary<E> {
    /// Any two boundaries count as equal: a boundary never renders anew for
    /// its own sake.
    fn eq(&self, other: &Self) -> (r: bool) {
        true
    }
}

impl<E> PartialEqSpecImpl for ServerBoundary<E> {
    open spec fn obeys_eq_spec() -> bool {
        true
    }

    open spec fn eq_spec(&self, other: &Self) -> bool {
        true
    }
}

impl<E> Component for ServerBoundary<E> {
    fn kind(&self) -> (r: u64)
        ensures
            r == 0,
    {
        0
    }
}

impl<E> ServerBoundary<E> {
    /// Starts a boundary; `root` has to follow before it can be built.
    pub fn new() -> (r: ServerBoundaryBuilder<()>) {
        ServerBoundaryBuilder { root: () }
    }

    /// The text of the comment that marks the beginning.
    pub open spec fn mark() -> Seq<char> {
        "bloom-sb-start"@
    }

    /// What the boundary renders: the comment that marks the beginning, which
    /// carries the root reference.
    pub fn render<C, H, V>(&self) -> (r: Element<C, HtmlNode<H>, V>)
        ensures
            ({
                &&& r@ matches ElementView::Fragment(children)
                &&& children.len() == 1
                &&& children[0] matches ElementView::Node(HtmlNode::Comment(comment), inside)
                &&& comment.text@ == Self::mark()
                &&& comment.dom_ref == Some(self.root)
                &&& inside.len() == 0
            }),
    {
        let comment = HtmlComment::new().text("bloom-sb-start").dom_ref(self.root.clone()).build();
        let node: HtmlNode<H> = HtmlNode::Comment(comment);
        let inner: Element<C, HtmlNode<H>, V> = node.children(Vec::new());
        let mut children: Vec<Element<C, HtmlNode<H>, V>> = Vec::new();
        children.push(inner);
        let r = Element::fragment(children);
        assert(Element::<C, HtmlNode<H>, V>::views(Seq::empty()) =~= Seq::empty());
        r
    }
}

impl ServerBoundaryBuilder<()> {
    /// Sets the reference that the mark will carry.
    pub fn root(self, root: Arc<DomRef>) -> (r: ServerBoundaryBuilder<Arc<DomRef>>)
        ensures
            r.root == root,
    {
        ServerBoundaryBuilder { root }
    }
}

impl ServerBoundaryBuilder<Arc<DomRef>> {
    /// The boundary.
    pub fn build<E>(self) -> (r: ServerBoundary<E>)
        ensures
            r.root == self.root,
    {
        ServerBoundary { _pd: PhantomData, root: self.root }
    }
}

} // verus!
