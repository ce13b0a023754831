//! What renders leave behind.  A render that is not ready changes nothing
//! but the instance that waits for it, and asks nothing of the object model;
//! once it is ready, what it rendered is mounted and created.  A render that
//! came to its end leaves its state slots and references with the instance,
//! and the next render of the instance starts from them.

use crate::component::AnyComponent;
use crate::element::ElementView;
use crate::hook::HookView;
use crate::lifecycle::{create_demands, lemma_create_nodes};
use crate::quiescence::{follows, lemma_at_push};
use crate::reconcile::{lemma_fresh_plain, plain};
use crate::render_loop::{waiting_for, DemandView, LoopView};
use crate::render_queue::{ContextView, ItemView};
use crate::suspense::RunOrSuspendResult;
use crate::tree::{InstanceView, TreeView};
use std::sync::Arc;
use vstd::prelude::*;

verus! {

/// The work list at the beginning of a cycle: the visit of the root.
pub open spec fn root_visit<C, N, V, P>(ctx: ContextView<N, V>) -> Seq<ItemView<C, N, V, P>> {
    seq![ItemView::Reload { current: Seq::empty(), ctx }]
}

/// The tree is one component that has no child yet, with the handle of a
/// suspended render or without one.
pub open spec fn unmounted_root<C, N, V, P>(tree: TreeView<C, N, V, P>, handle: Option<P>) -> bool {
    &&& tree matches TreeView::Component(instance)
    &&& instance.child is None
    &&& instance.render_result == handle
}

/// What mounting a plain description asks of the host: the creation of its
/// output nodes, in document order.
pub open spec fn mounting<C, N, V, P, A, F: FnOnce(A) -> K, K: FnOnce()>(
    element: ElementView<C, N, V>,
    ids: u64,
    ctx: ContextView<N, V>,
) -> Seq<DemandView<C, N, V, P, A, F, K>> {
    create_demands(TreeView::<C, N, V, P>::from_element(element, ids).0, ctx)
}

/// A render that suspends for the first time leaves the loop as it was, but
/// for the handle of the render, which is kept with the instance: nothing is
/// put on the work list, no effect and no cleanup is queued, the instance
/// keeps its child, and the loop waits no longer.
pub proof fn lemma_first_suspension<
    C: AnyComponent,
    N,
    V,
    P,
    U: FnOnce(Arc<V>) -> Arc<V>,
    A,
    F: FnOnce(A) -> K,
    K: FnOnce(),
    E,
>(
    pre: LoopView<C, N, V, P, U, A, F, K>,
    instance: InstanceView<C, N, V, P>,
    pending: P,
    post: LoopView<C, N, V, P, U, A, F, K>,
    failed: Option<E>,
)
    requires
        pre.awaiting matches Some(awaited) && !awaited.resumed,
        pre.tree.at(pre.awaiting->0.current) == Some(TreeView::Component(instance)),
        pre.reported(RunOrSuspendResult::Suspend(pending), post, failed),
    ensures
        failed is None,
        post == (LoopView {
            tree: pre.tree.put(
                pre.awaiting->0.current,
                TreeView::Component(InstanceView { render_result: Some(pending), ..instance }),
            ),
            awaiting: None,
            ..pre
        }),
        post.tree.at(pre.awaiting->0.current) == Some(
            TreeView::Component(InstanceView { render_result: Some(pending), ..instance }),
        ),
{
    pre.tree.lemma_at_put(
        pre.awaiting->0.current,
        TreeView::Component(InstanceView { render_result: Some(pending), ..instance }),
    );
}

/// A cycle in which the component at the root renders for the first time
/// and suspends asks the host to render and nothing else: nothing is
/// created, updated or removed, and the loop is idle with the handle of the
/// render kept at the root.
pub proof fn lemma_suspended_cycle<
    C: AnyComponent,
    N,
    V,
    P,
    U: FnOnce(Arc<V>) -> Arc<V>,
    A,
    F: FnOnce(A) -> K,
    K: FnOnce(),
    E,
>(
    begin: LoopView<C, N, V, P, U, A, F, K>,
    ctx: ContextView<N, V>,
    asked: LoopView<C, N, V, P, U, A, F, K>,
    first: DemandView<C, N, V, P, A, F, K>,
    pending: P,
    told: LoopView<C, N, V, P, U, A, F, K>,
    failed: Option<E>,
    end: LoopView<C, N, V, P, U, A, F, K>,
    last: DemandView<C, N, V, P, A, F, K>,
)
    requires
        begin.awaiting is None,
        begin.items == root_visit::<C, N, V, P>(ctx),
        unmounted_root(begin.tree, None),
        begin.stepped(asked, first),
        asked.reported(RunOrSuspendResult::Suspend(pending), told, failed),
        told.stepped(end, last),
    ensures
        first is Render,
        failed is None,
        last == DemandView::<C, N, V, P, A, F, K>::Idle,
        end == told,
        told.items.len() == 0,
        told.effects == begin.effects,
        told.cleared == begin.cleared,
        unmounted_root(told.tree, Some(pending)),
{
    let top = Seq::<usize>::empty();
    let rest = LoopView { items: begin.items.drop_last(), ..begin };
    assert(begin.items.last() == (ItemView::<C, N, V, P>::Reload { current: top, ctx }));
    assert(rest.visited(true, top, ctx, asked, first));
    assert(rest.tree.at(top) == Some(begin.tree));
    assert(begin.items.drop_last() =~= Seq::<ItemView<C, N, V, P>>::empty());
    let hook = first->Render_hook;
    let instance = begin.tree->Component_0;
    let rendering = TreeView::Component(InstanceView { state: hook.state, ..instance });
    assert(asked.tree == rendering);
    assert(asked.tree.at(top) == Some(rendering));
}

/// A cycle that finds the render at the root ready mounts what it rendered:
/// the host is asked to look at the render again, and when the render gave a
/// plain description, the steps that follow ask for the creation of its
/// output nodes, in document order, under the root of the loop.
pub proof fn lemma_resolved_cycle<
    C: AnyComponent,
    N,
    V,
    P,
    U: FnOnce(Arc<V>) -> Arc<V>,
    A,
    F: FnOnce(A) -> K,
    K: FnOnce(),
    E,
>(
    begin: LoopView<C, N, V, P, U, A, F, K>,
    ctx: ContextView<N, V>,
    pending: P,
    asked: LoopView<C, N, V, P, U, A, F, K>,
    first: DemandView<C, N, V, P, A, F, K>,
    element: ElementView<C, N, V>,
    hook: HookView<V, A, F, K>,
    failed: Option<E>,
    states: Seq<LoopView<C, N, V, P, U, A, F, K>>,
    demands: Seq<DemandView<C, N, V, P, A, F, K>>,
)
    requires
        begin.awaiting is None,
        begin.items == root_visit::<C, N, V, P>(ctx),
        unmounted_root(begin.tree, Some(pending)),
        waiting_for(begin.inbox, begin.tree->Component_0.id).len() == 0,
        begin.stepped(asked, first),
        plain(element),
        follows(states, demands),
        states.len() > 0,
        asked.reported(RunOrSuspendResult::Done((Ok(element), hook)), states[0], failed),
        mounting::<C, N, V, P, A, F, K>(element, begin.ids, ctx).len() <= demands.len(),
    ensures
        first == (DemandView::<C, N, V, P, A, F, K>::Resume { pending }),
        failed is None,
        demands.subrange(
            0,
            mounting::<C, N, V, P, A, F, K>(element, begin.ids, ctx).len() as int,
        ) == mounting::<C, N, V, P, A, F, K>(element, begin.ids, ctx),
{
    let top = Seq::<usize>::empty();
    let below = top.push(0);
    let rest = LoopView { items: begin.items.drop_last(), ..begin };
    let instance = begin.tree->Component_0;
    let fresh = TreeView::<C, N, V, P>::from_element(element, begin.ids).0;
    assert(begin.items.last() == (ItemView::<C, N, V, P>::Reload { current: top, ctx }));
    assert(rest.visited(true, top, ctx, asked, first));
    assert(rest.tree.at(top) == Some(begin.tree));
    assert(begin.items.drop_last() =~= Seq::<ItemView<C, N, V, P>>::empty());
    let resumed = TreeView::Component(InstanceView { render_result: None, ..instance });
    assert(asked.tree == resumed);
    assert(asked.tree.at(top) == Some(resumed));
    let mounted = TreeView::Component(
        InstanceView {
            child: Some(Box::new(fresh)),
            render_result: None,
            state: hook.state,
            refs: hook.refs,
            ..instance
        },
    );
    assert(states[0].tree == mounted);
    assert(mounted.at(top) == Some(mounted));
    lemma_at_push(mounted, top, mounted, 0);
    assert(states[0].tree.at(below) == Some(fresh));
    assert(states[0].items.last() == (ItemView::<C, N, V, P>::Create { current: below, ctx }));
    lemma_fresh_plain::<C, N, V, P>(element, begin.ids);
    lemma_create_nodes(states, demands, 0, below, ctx, fresh);
}

/// What a render left in its hook stays with the instance: once the render
/// that came to its end is reported, the instance holds the state slots and
/// the references of the hook, those that the render seeded among them.
pub proof fn lemma_slots_stored<
    C: AnyComponent,
    N,
    V,
    P,
    U: FnOnce(Arc<V>) -> Arc<V>,
    A,
    F: FnOnce(A) -> K,
    K: FnOnce(),
    E,
>(
    pre: LoopView<C, N, V, P, U, A, F, K>,
    result: Result<ElementView<C, N, V>, E>,
    hook: HookView<V, A, F, K>,
    post: LoopView<C, N, V, P, U, A, F, K>,
    failed: Option<E>,
)
    requires
        pre.awaiting is Some,
        pre.tree.at(pre.awaiting->0.current) matches Some(TreeView::Component(_)),
        pre.reported(RunOrSuspendResult::Done((result, hook)), post, failed),
    ensures
        post.tree.at(pre.awaiting->0.current) matches Some(TreeView::Component(after))
            && after.state == hook.state && after.refs == hook.refs,
{
    let current = pre.awaiting->0.current;
    let instance = pre.tree.at(current)->0->Component_0;
    let settled = InstanceView {
        render_result: None,
        state: hook.state,
        refs: hook.refs,
        ..instance
    };
    pre.tree.lemma_at_put(current, TreeView::Component(settled));
    if result is Ok && instance.child is None {
        let child = TreeView::<C, N, V, P>::from_element(result->Ok_0, pre.ids).0;
        pre.tree.lemma_at_put(
            current,
            TreeView::Component(InstanceView { child: Some(Box::new(child)), ..settled }),
        );
    }
}

/// A render of an instance for which no update waits starts from the state
/// slots and the references that the instance holds: what an earlier render
/// seeded is found, and the default is not called again.
pub proof fn lemma_render_finds_slots<
    C: AnyComponent,
    N,
    V,
    P,
    U: FnOnce(Arc<V>) -> Arc<V>,
    A,
    F: FnOnce(A) -> K,
    K: FnOnce(),
>(
    pre: LoopView<C, N, V, P, U, A, F, K>,
    current: Seq<usize>,
    ctx: ContextView<N, V>,
    instance: InstanceView<C, N, V, P>,
    post: LoopView<C, N, V, P, U, A, F, K>,
    demand: DemandView<C, N, V, P, A, F, K>,
)
    requires
        pre.begun(current, ctx, instance, post, demand),
        waiting_for(pre.inbox, instance.id).len() == 0,
    ensures
        demand is Render,
        demand->Render_hook.state == instance.state,
        demand->Render_hook.refs == instance.refs,
        demand->Render_hook.state_index == 0,
{
}

} // verus!
