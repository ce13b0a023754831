//! The object model: what realizes the output nodes.

use crate::render_loop::Demand;
use std::sync::Arc;
use vstd::prelude::*;

verus! {

/// What the render loop needs of an object model.  A browser document is
/// one; a list that records the calls is another.
pub trait ObjectModel {
    /// The payload of an output node.
    type Node;

    /// Realizes `node` as a child of `parent`, in front of `sibling` or,
    /// without one, at the end.
    fn create(
        &mut self,
        node: &Arc<Self::Node>,
        parent: &Arc<Self::Node>,
        sibling: &Option<Arc<Self::Node>>,
    );

    /// Takes what realizes `node` out of `parent`.
    fn remove(&mut self, node: &Arc<Self::Node>, parent: &Arc<Self::Node>);

    /// Makes what realizes `node` realize `next`.
    fn update(&mut self, node: &Arc<Self::Node>, next: &Arc<Self::Node>);
}

/// A node that realizes itself.
pub trait Node {
    /// Shows the node under `parent`, in front of `sibling` or at the end.
    fn paint(&self, parent: &Arc<Self>, sibling: &Option<Arc<Self>>);

    /// Makes the node show what `next` describes.
    fn update(&self, next: &Arc<Self>);

    /// Takes the node out of `parent`.
    fn remove(&self, parent: &Arc<Self>);
}

/// Carries out a demand on the object model: a demand to create, update or
/// remove a node is answered by one call of the method of that name, with
/// what the demand holds.  A demand that is for the host itself is handed
/// back.
pub fn perform<
    O: ObjectModel,
    C,
    V,
    P,
    U: FnOnce(Arc<V>) -> Arc<V>,
    A,
    F: FnOnce(A) -> K,
    K: FnOnce(),
>(object_model: &mut O, demand: Demand<C, O::Node, V, P, U, A, F, K>) -> (left: Option<
    Demand<C, O::Node, V, P, U, A, F, K>,
>)
    ensures
        match demand {
            Demand::Create { .. } => left is None,
            Demand::Update { .. } => left is None,
            Demand::Remove { .. } => left is None,
            _ => left == Some(demand),
        },
        demand matches Demand::Create { node, parent, sibling } ==> exists|model: &mut O|
            call_ensures(O::create, (model, &node, &parent, &sibling), ()),
        demand matches Demand::Update { node, next } ==> exists|model: &mut O|
            call_ensures(O::update, (model, &node, &next), ()),
        demand matches Demand::Remove { node, parent } ==> exists|model: &mut O|
            call_ensures(O::remove, (model, &node, &parent), ()),
{
    match demand {
        Demand::Create { node, parent, sibling } => {
            object_model.create(&node, &parent, &sibling);
            None
        },
        Demand::Update { node, next } => {
            object_model.update(&node, &next);
            None
        },
        Demand::Remove { node, parent } => {
            object_model.remove(&node, &parent);
            None
        },
        other => Some(other),
    }
}

} // verus!
