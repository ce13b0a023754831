//! Rendering a description once, as a stream of nodes in document order.

use crate::effect::reversed;
use crate::element::{Element, ElementView};
use crate::hook::{Hook, HookView};
use crate::render_queue::ContextMap;
use std::collections::HashMap;
use std::sync::Arc;
use vstd::prelude::*;

verus! {

/// The descriptions that are still to render on one level of the walk.
pub struct Frame<C, N, V> {
    /// What is left of the level, the next description last.
    pub pending: Vec<Element<C, N, V>>,
    /// The values provided to the level.
    pub context: ContextMap<V>,
    /// Whether the level is the inside of a node, which is left when the
    /// level is done.
    pub node: bool,
}

/// The mathematical value of a [`Frame`].
pub struct FrameView<C, N, V> {
    /// What is left of the level, the next description first.
    pub pending: Seq<ElementView<C, N, V>>,
    pub context: Map<u64, Arc<V>>,
    pub node: bool,
}

impl<C, N, V> Frame<C, N, V> {
    pub open spec fn view(&self) -> FrameView<C, N, V> {
        FrameView {
            pending: Seq::new(
                self.pending@.len(),
                |i: int| self.pending@[self.pending@.len() - 1 - i]@,
            ),
            context: self.context@,
            node: self.node,
        }
    }

    /// The level that holds `elements`, the first of them next.
    pub fn new(elements: Vec<Element<C, N, V>>, context: ContextMap<V>, node: bool) -> (r: Self)
        ensures
            r@ == (FrameView { pending: Element::views(elements@), context: context@, node }),
    {
        let r = Frame { pending: reversed(elements), context, node };
        assert(r@.pending =~= Element::views(elements@));
        r
    }
}

/// A walk over a description in document order.  Components are rendered by
/// the host when the walk comes to them; what they render is walked in their
/// place.
pub struct NodeStream<C, N, V> {
    /// The levels that are open, the innermost last.
    pub stack: Vec<Frame<C, N, V>>,
    /// Whether the host owes the render of a component.
    pub awaiting: bool,
}

/// The mathematical value of a [`NodeStream`].
pub struct StreamView<C, N, V> {
    pub stack: Seq<FrameView<C, N, V>>,
    pub awaiting: bool,
}

/// What a step of the walk came to.
#[verifier::reject_recursive_types(V)]
#[verifier::reject_recursive_types(U)]
#[verifier::reject_recursive_types(A)]
#[verifier::reject_recursive_types(F)]
#[verifier::reject_recursive_types(K)]
pub enum StreamItem<C, N, V, U: FnOnce(Arc<V>) -> Arc<V>, A, F: FnOnce(A) -> K, K: FnOnce()> {
    /// A node; its children follow, up to the matching `Leave`.
    Enter(N),
    /// The end of the children of the node that was entered last.
    Leave,
    /// A component: render it once with `hook` at hand and report with
    /// `rendered`.
    Render { component: Arc<C>, hook: Hook<V, U, A, F, K> },
    /// Nothing to report; step again.
    Continue,
    /// A render is outstanding: `rendered` has to be called first.
    Awaiting,
    /// The walk is over.
    End,
}

/// The mathematical value of a [`StreamItem`].
#[verifier::reject_recursive_types(V)]
#[verifier::reject_recursive_types(A)]
#[verifier::reject_recursive_types(F)]
#[verifier::reject_recursive_types(K)]
pub enum StreamItemView<C, N, V, A, F: FnOnce(A) -> K, K: FnOnce()> {
    Enter(N),
    Leave,
    Render { component: Arc<C>, hook: HookView<V, A, F, K> },
    Continue,
    Awaiting,
    End,
}

impl<C, N, V, U: FnOnce(Arc<V>) -> Arc<V>, A, F: FnOnce(A) -> K, K: FnOnce()> StreamItem<
    C,
    N,
    V,
    U,
    A,
    F,
    K,
> {
    pub open spec fn view(&self) -> StreamItemView<C, N, V, A, F, K> {
        match self {
            StreamItem::Enter(node) => StreamItemView::Enter(*node),
            StreamItem::Leave => StreamItemView::Leave,
            StreamItem::Render { component, hook } => StreamItemView::Render {
                component: *component,
                hook: hook@,
            },
            StreamItem::Continue => StreamItemView::Continue,
            StreamItem::Awaiting => StreamItemView::Awaiting,
            StreamItem::End => StreamItemView::End,
        }
    }
}

impl<C, N, V> StreamView<C, N, V> {
    /// The walk over `element` before its first step: one level that holds
    /// the description, with nothing provided.
    pub open spec fn start(element: ElementView<C, N, V>) -> Self {
        StreamView {
            stack: seq![FrameView { pending: seq![element], context: Map::empty(), node: false }],
            awaiting: false,
        }
    }

    /// One step led from this state to `post` and came to `item`.
    ///
    /// While a render is outstanding nothing happens.  Without an open level
    /// the walk is over.  A level that is done is closed, which leaves the
    /// node whose inside it was.  Otherwise the next description of the
    /// innermost level is taken: a node is entered and its children become
    /// the innermost level; the children of a fragment or a provider become
    /// the innermost level, those of a provider with its value in the
    /// context; a component is handed to the host with a hook that knows the
    /// context of the level.
    pub open spec fn polled<A, F: FnOnce(A) -> K, K: FnOnce()>(
        self,
        post: Self,
        item: StreamItemView<C, N, V, A, F, K>,
    ) -> bool {
        if self.awaiting {
            post == self && item == StreamItemView::<C, N, V, A, F, K>::Awaiting
        } else if self.stack.len() == 0 {
            post == self && item == StreamItemView::<C, N, V, A, F, K>::End
        } else {
            let top = self.stack.last();
            let rest = self.stack.drop_last();
            if top.pending.len() == 0 {
                &&& post == (StreamView { stack: rest, awaiting: false })
                &&& item == if top.node {
                    StreamItemView::<C, N, V, A, F, K>::Leave
                } else {
                    StreamItemView::<C, N, V, A, F, K>::Continue
                }
            } else {
                let open = rest.push(FrameView { pending: top.pending.skip(1), ..top });
                match top.pending[0] {
                    ElementView::Component(component) => {
                        &&& post == (StreamView { stack: open, awaiting: true })
                        &&& item == StreamItemView::<C, N, V, A, F, K>::Render {
                            component,
                            hook: HookView::<V, A, F, K>::fresh(
                                0,
                                Map::empty(),
                                Map::empty(),
                                top.context,
                            ),
                        }
                    },
                    ElementView::Node(node, children) => {
                        &&& post == (StreamView {
                            stack: open.push(
                                FrameView { pending: children, context: top.context, node: true },
                            ),
                            awaiting: false,
                        })
                        &&& item == StreamItemView::<C, N, V, A, F, K>::Enter(node)
                    },
                    ElementView::Fragment(children) => {
                        &&& post == (StreamView {
                            stack: open.push(
                                FrameView { pending: children, context: top.context, node: false },
                            ),
                            awaiting: false,
                        })
                        &&& item == StreamItemView::<C, N, V, A, F, K>::Continue
                    },
                    ElementView::Provider(key, value, children) => {
                        &&& post == (StreamView {
                            stack: open.push(
                                FrameView {
                                    pending: children,
                                    context: top.context.insert(key, value),
                                    node: false,
                                },
                            ),
                            awaiting: false,
                        })
                        &&& item == StreamItemView::<C, N, V, A, F, K>::Continue
                    },
                }
            }
        }
    }

    /// The host reported the render that the walk waited for.  What the
    /// component rendered is walked next; a failed render leaves the walk
    /// where it was, behind the component.
    pub open spec fn supplied<E>(
        self,
        result: Result<ElementView<C, N, V>, E>,
        post: Self,
        failed: Option<E>,
    ) -> bool {
        if !self.awaiting {
            post == self && failed is None
        } else {
            match result {
                Ok(element) => {
                    &&& failed is None
                    &&& post == (StreamView {
                        stack: if self.stack.len() == 0 {
                            self.stack
                        } else {
                            self.stack.drop_last().push(
                                FrameView {
                                    pending: seq![element] + self.stack.last().pending,
                                    ..self.stack.last()
                                },
                            )
                        },
                        awaiting: false,
                    })
                },
                Err(error) => {
                    &&& failed == Some(error)
                    &&& post == (StreamView { awaiting: false, ..self })
                },
            }
        }
    }
}

impl<C, N, V> NodeStream<C, N, V> {
    pub open spec fn view(&self) -> StreamView<C, N, V> {
        StreamView {
            stack: Seq::new(self.stack@.len(), |i: int| self.stack@[i]@),
            awaiting: self.awaiting,
        }
    }

    /// Takes one step of the walk.
    pub fn poll_next<U: FnOnce(Arc<V>) -> Arc<V>, A, F: FnOnce(A) -> K, K: FnOnce()>(
        &mut self,
    ) -> (item: StreamItem<C, N, V, U, A, F, K>)
        ensures
            old(self)@.polled(final(self)@, item@),
    {
        if self.awaiting {
            return StreamItem::Awaiting;
        }
        let mut top = match self.stack.pop() {
            Some(frame) => frame,
            None => {
                return StreamItem::End;
            },
        };
        let ghost rest = self@.stack;
        assert(rest =~= old(self)@.stack.drop_last());
        let ghost before = top@;
        let element = match top.pending.pop() {
            Some(element) => element,
            None => {
                return if top.node {
                    StreamItem::Leave
                } else {
                    StreamItem::Continue
                };
            },
        };
        assert(top@.pending =~= before.pending.skip(1));
        assert(element@ == before.pending[0]);
        match element {
            Element::Component(component) => {
                let hook = Hook::from_context(top.context.clone());
                self.stack.push(top);
                self.awaiting = true;
                assert(self@.stack =~= rest.push(top@));
                StreamItem::Render { component, hook }
            },
            Element::Node(node, children) => {
                let inside = Frame::new(children, top.context.clone(), true);
                self.stack.push(top);
                self.stack.push(inside);
                assert(self@.stack =~= rest.push(top@).push(inside@));
                StreamItem::Enter(node)
            },
            Element::Fragment(children) => {
                let inside = Frame::new(children, top.context.clone(), false);
                self.stack.push(top);
                self.stack.push(inside);
                assert(self@.stack =~= rest.push(top@).push(inside@));
                StreamItem::Continue
            },
            Element::Provider(key, value, children) => {
                let mut context = (*top.context).clone();
                context.insert(key, value);
                let inside = Frame::new(children, Arc::new(context), false);
                self.stack.push(top);
                self.stack.push(inside);
                assert(self@.stack =~= rest.push(top@).push(inside@));
                StreamItem::Continue
            },
        }
    }

    /// Takes the host's report of the render that the walk waits for.  An
    /// error of the render is handed on.
    pub fn rendered<E>(&mut self, result: Result<Element<C, N, V>, E>) -> (r: Result<(), E>)
        ensures
            old(self)@.supplied(
                match result {
                    Ok(element) => Ok(element@),
                    Err(error) => Err(error),
                },
                final(self)@,
                match r {
                    Ok(_) => None,
                    Err(error) => Some(error),
                },
            ),
    {
        if !self.awaiting {
            return Ok(());
        }
        self.awaiting = false;
        match result {
            Ok(element) => {
                match self.stack.pop() {
                    Some(top) => {
                        let ghost rest = self@.stack;
                        let ghost before = top@;
                        let mut top = top;
                        top.pending.push(element);
                        assert(top@.pending =~= seq![element@] + before.pending);
                        self.stack.push(top);
                        assert(self@.stack =~= old(self)@.stack.drop_last().push(top@));
                    },
                    None => {
                        assert(self@.stack =~= old(self)@.stack);
                    },
                }
                Ok(())
            },
            Err(error) => {
                assert(self@.stack =~= old(self)@.stack);
                Err(error)
            },
        }
    }

    /// Closes the innermost level without walking what is left of it.
    pub fn skip(&mut self)
        ensures
            final(self)@ == (StreamView {
                stack: if old(self)@.stack.len() == 0 {
                    old(self)@.stack
                } else {
                    old(self)@.stack.drop_last()
                },
                ..old(self)@
            }),
    {
        let _ = self.stack.pop();
        assert(self@.stack =~= if old(self)@.stack.len() == 0 {
            old(self)@.stack
        } else {
            old(self)@.stack.drop_last()
        });
    }
}

/// The walk over `element`, with nothing provided at the start.
pub fn render_stream<C, N, V>(element: Element<C, N, V>) -> (r: NodeStream<C, N, V>)
    ensures
        r@ == StreamView::start(element@),
{
    let mut pending: Vec<Element<C, N, V>> = Vec::new();
    pending.push(element);
    let frame = Frame { pending, context: Arc::new(HashMap::new()), node: false };
    assert(frame@.pending =~= seq![element@]);
    let mut stack: Vec<Frame<C, N, V>> = Vec::new();
    stack.push(frame);
    let r = NodeStream { stack, awaiting: false };
    assert(r@.stack =~= seq![frame@]);
    r
}

} // verus!
