//! A subtree in which nothing changed costs nothing: a visit passes through
//! it without a render and without a demand on the object model.

use crate::component::{compared, AnyComponent, ComponentDiff};
use crate::element::ElementView;
use crate::render_loop::{fanned, waiting_for, DemandView, LoopView};
use crate::render_queue::{ContextView, ItemView};
use crate::state::StateUpdate;
use crate::tree::TreeView;
use std::sync::Arc;
use vstd::prelude::*;

verus! {

/// Nothing in the subtree has a reason to render: every component in it has
/// rendered, is not suspended, and has no update waiting.
pub open spec fn quiet<C, N, V, P, U: FnOnce(Arc<V>) -> Arc<V>>(
    tree: TreeView<C, N, V, P>,
    inbox: Map<u64, Seq<StateUpdate<V, U>>>,
) -> bool
    decreases tree, 0int,
{
    match tree {
        TreeView::Component(instance) => {
            &&& waiting_for(inbox, instance.id).len() == 0
            &&& instance.render_result is None
            &&& instance.child matches Some(child) && quiet(*child, inbox)
        },
        TreeView::Node(_, children) => all_quiet(children, inbox, 0),
        TreeView::Fragment(children) => all_quiet(children, inbox, 0),
        TreeView::Provider(_, _, children) => all_quiet(children, inbox, 0),
    }
}

/// The children from position `from` on are quiet, and there are no more of
/// them than a path can count.
pub open spec fn all_quiet<C, N, V, P, U: FnOnce(Arc<V>) -> Arc<V>>(
    children: Seq<TreeView<C, N, V, P>>,
    inbox: Map<u64, Seq<StateUpdate<V, U>>>,
    from: int,
) -> bool
    decreases children, 1int, children.len() - from,
{
    if 0 <= from < children.len() {
        quiet(children[from], inbox) && all_quiet(children, inbox, from + 1)
    } else {
        children.len() <= usize::MAX
    }
}

/// How many steps a visit of a quiet subtree takes: one for every node in it.
pub open spec fn visits<C, N, V, P>(tree: TreeView<C, N, V, P>) -> nat
    decreases tree, 0int,
{
    match tree {
        TreeView::Component(instance) => match instance.child {
            Some(child) => 1 + visits(*child),
            None => 1,
        },
        TreeView::Node(_, children) => 1 + visits_from(children, 0),
        TreeView::Fragment(children) => 1 + visits_from(children, 0),
        TreeView::Provider(_, _, children) => 1 + visits_from(children, 0),
    }
}

/// How many steps the visits of the children from position `from` on take.
pub open spec fn visits_from<C, N, V, P>(children: Seq<TreeView<C, N, V, P>>, from: int) -> nat
    decreases children, 1int, children.len() - from,
{
    if 0 <= from < children.len() {
        visits(children[from]) + visits_from(children, from + 1)
    } else {
        0
    }
}

/// The states are the states of the render loop before and after a run of
/// steps, and the demands are what the steps asked of the host.
#[verifier::opaque]
pub open spec fn follows<
    C: AnyComponent,
    N,
    V,
    P,
    U: FnOnce(Arc<V>) -> Arc<V>,
    A,
    F: FnOnce(A) -> K,
    K: FnOnce(),
>(
    states: Seq<LoopView<C, N, V, P, U, A, F, K>>,
    demands: Seq<DemandView<C, N, V, P, A, F, K>>,
) -> bool {
    &&& states.len() == demands.len() + 1
    &&& forall|i: int|
        0 <= i < demands.len() ==> (#[trigger] states[i]).stepped(states[i + 1], demands[i])
}

/// Every step of a run leads from one state to the next.
pub proof fn lemma_follows_step<
    C: AnyComponent,
    N,
    V,
    P,
    U: FnOnce(Arc<V>) -> Arc<V>,
    A,
    F: FnOnce(A) -> K,
    K: FnOnce(),
>(
    states: Seq<LoopView<C, N, V, P, U, A, F, K>>,
    demands: Seq<DemandView<C, N, V, P, A, F, K>>,
    i: int,
)
    requires
        follows(states, demands),
        0 <= i < demands.len(),
    ensures
        states.len() == demands.len() + 1,
        states[i].stepped(states[i + 1], demands[i]),
{
    reveal(follows);
}

/// The path to a child of a node leads to that child.
pub proof fn lemma_at_push<C, N, V, P>(
    tree: TreeView<C, N, V, P>,
    path: Seq<usize>,
    node: TreeView<C, N, V, P>,
    i: usize,
)
    requires
        tree.at(path) == Some(node),
    ensures
        tree.at(path.push(i)) == node.child(i as int),
    decreases path.len(),
{
    let longer = path.push(i);
    if path.len() == 0 {
        assert(longer[0] == i);
        assert(longer.skip(1) =~= Seq::<usize>::empty());
        match tree.child(i as int) {
            Some(child) => {
                assert(child.at(longer.skip(1)) == Some(child));
            },
            None => {},
        }
    } else {
        assert(longer[0] == path[0]);
        assert(longer.skip(1) =~= path.skip(1).push(i));
        let child = tree.child(path[0] as int)->0;
        lemma_at_push(child, path.skip(1), node, i);
    }
}

/// A visit of a quiet subtree passes through it in `visits` steps.  None of
/// the steps asks anything of the host, and afterwards the loop is as it was
/// before, but for the visit, which is off the work list.
pub proof fn lemma_quiet_visit<
    C: AnyComponent,
    N,
    V,
    P,
    U: FnOnce(Arc<V>) -> Arc<V>,
    A,
    F: FnOnce(A) -> K,
    K: FnOnce(),
>(
    states: Seq<LoopView<C, N, V, P, U, A, F, K>>,
    demands: Seq<DemandView<C, N, V, P, A, F, K>>,
    k: int,
    current: Seq<usize>,
    ctx: ContextView<N, V>,
    tree: TreeView<C, N, V, P>,
)
    requires
        follows(states, demands),
        0 <= k,
        k + visits(tree) <= demands.len(),
        states[k].awaiting is None,
        states[k].items.len() > 0,
        states[k].items.last() == (ItemView::<C, N, V, P>::Reload { current, ctx }),
        states[k].tree.at(current) == Some(tree),
        quiet(tree, states[k].inbox),
    ensures
        states[k + visits(tree)] == (LoopView {
            items: states[k].items.drop_last(),
            ..states[k]
        }),
        forall|i: int|
            k <= i < k + visits(tree) ==> demands[i] == DemandView::<C, N, V, P, A, F, K>::Continue,
    decreases tree, 0int,
{
    let pre = states[k];
    let post = states[k + 1];
    let rest = LoopView { items: pre.items.drop_last(), ..pre };
    lemma_follows_step(states, demands, k);
    assert(rest.visited(true, current, ctx, post, demands[k]));
    match tree {
        TreeView::Component(instance) => {
            let child = *instance.child->0;
            lemma_at_push(pre.tree, current, tree, 0);
            assert(post.items.drop_last() =~= rest.items);
            lemma_quiet_visit(states, demands, k + 1, current.push(0), ctx, child);
        },
        TreeView::Node(node, children) => {
            let base = ContextView { parent: node, sibling: None, context: ctx.context };
            lemma_all_quiet_bound(children, pre.inbox, 0);
            let all = fanned::<C, N, V, P>(true, current, children, base, None, true);
            assert(all.take(children.len() as int) =~= all);
            assert forall|i: int| 0 <= i < children.len() implies post.tree.at(
                current.push(i as usize),
            ) == Some(children[i]) by {
                lemma_at_push(pre.tree, current, tree, i as usize);
            }
            lemma_quiet_children(
                states,
                demands,
                k + 1,
                current,
                children,
                rest.items,
                base,
                None,
                0,
            );
        },
        TreeView::Fragment(children) => {
            lemma_all_quiet_bound(children, pre.inbox, 0);
            let all = fanned::<C, N, V, P>(true, current, children, ctx, ctx.sibling, true);
            assert(all.take(children.len() as int) =~= all);
            assert forall|i: int| 0 <= i < children.len() implies post.tree.at(
                current.push(i as usize),
            ) == Some(children[i]) by {
                lemma_at_push(pre.tree, current, tree, i as usize);
            }
            lemma_quiet_children(
                states,
                demands,
                k + 1,
                current,
                children,
                rest.items,
                ctx,
                ctx.sibling,
                0,
            );
        },
        TreeView::Provider(key, value, children) => {
            let base = ContextView { context: ctx.context.insert(key, value), ..ctx };
            lemma_all_quiet_bound(children, pre.inbox, 0);
            let all = fanned::<C, N, V, P>(true, current, children, base, ctx.sibling, true);
            assert(all.take(children.len() as int) =~= all);
            assert forall|i: int| 0 <= i < children.len() implies post.tree.at(
                current.push(i as usize),
            ) == Some(children[i]) by {
                lemma_at_push(pre.tree, current, tree, i as usize);
            }
            lemma_quiet_children(
                states,
                demands,
                k + 1,
                current,
                children,
                rest.items,
                base,
                ctx.sibling,
                0,
            );
        },
    }
}

/// A component that is described again with props that compare equal does
/// not render again, and neither does anything below it that is quiet: the
/// update and the visit that it turns into pass in `1 + visits` steps, none
/// of which asks anything of the host, and afterwards the loop is as it was
/// before, but for the update, which is off the work list.
pub proof fn lemma_equal_props<
    C: AnyComponent,
    N,
    V,
    P,
    U: FnOnce(Arc<V>) -> Arc<V>,
    A,
    F: FnOnce(A) -> K,
    K: FnOnce(),
>(
    states: Seq<LoopView<C, N, V, P, U, A, F, K>>,
    demands: Seq<DemandView<C, N, V, P, A, F, K>>,
    k: int,
    current: Seq<usize>,
    component: Arc<C>,
    ctx: ContextView<N, V>,
    tree: TreeView<C, N, V, P>,
)
    requires
        follows(states, demands),
        0 <= k,
        k + 1 + visits(tree) <= demands.len(),
        states[k].awaiting is None,
        states[k].items.len() > 0,
        states[k].items.last() == (ItemView::<C, N, V, P>::Update {
            current,
            next: ElementView::Component(component),
            ctx,
        }),
        states[k].tree.at(current) == Some(tree),
        tree matches TreeView::Component(instance) && forall|diff: ComponentDiff|
            compared(component, instance.component, diff) ==> diff == ComponentDiff::Equal,
        quiet(tree, states[k].inbox),
    ensures
        states[k + 1 + visits(tree)] == (LoopView {
            items: states[k].items.drop_last(),
            ..states[k]
        }),
        forall|i: int|
            k <= i < k + 1 + visits(tree) ==> demands[i] == DemandView::<
                C,
                N,
                V,
                P,
                A,
                F,
                K,
            >::Continue,
{
    let pre = states[k];
    let post = states[k + 1];
    let rest = LoopView { items: pre.items.drop_last(), ..pre };
    lemma_follows_step(states, demands, k);
    assert(rest.updated(current, ElementView::Component(component), ctx, post, demands[k]));
    let instance = tree->Component_0;
    let diff = choose|diff: ComponentDiff| #[trigger]
        compared(component, instance.component, diff) && rest.compared_to(
            current,
            instance,
            component,
            ctx,
            diff,
            post,
            demands[k],
        );
    assert(diff == ComponentDiff::Equal);
    assert(post.items.drop_last() =~= rest.items);
    lemma_quiet_visit(states, demands, k + 1, current, ctx, tree);
}

/// A cycle over a tree in which nothing changed asks nothing of the host:
/// when the visit of the root is all that waits and the tree is quiet, the
/// loop passes through the tree without a demand, leaves everything as it
/// was, and is idle afterwards.
pub proof fn lemma_quiet_cycle<
    C: AnyComponent,
    N,
    V,
    P,
    U: FnOnce(Arc<V>) -> Arc<V>,
    A,
    F: FnOnce(A) -> K,
    K: FnOnce(),
>(
    states: Seq<LoopView<C, N, V, P, U, A, F, K>>,
    demands: Seq<DemandView<C, N, V, P, A, F, K>>,
    ctx: ContextView<N, V>,
)
    requires
        follows(states, demands),
        visits(states[0].tree) < demands.len(),
        states[0].awaiting is None,
        states[0].items == seq![ItemView::<C, N, V, P>::Reload { current: Seq::empty(), ctx }],
        quiet(states[0].tree, states[0].inbox),
    ensures
        states[visits(states[0].tree) as int] == (LoopView { items: Seq::empty(), ..states[0] }),
        forall|i: int|
            0 <= i < visits(states[0].tree) ==> demands[i] == DemandView::<
                C,
                N,
                V,
                P,
                A,
                F,
                K,
            >::Continue,
        demands[visits(states[0].tree) as int] == DemandView::<C, N, V, P, A, F, K>::Idle,
        states[visits(states[0].tree) as int + 1] == states[visits(states[0].tree) as int],
{
    let n = visits(states[0].tree) as int;
    lemma_quiet_visit(states, demands, 0, Seq::empty(), ctx, states[0].tree);
    assert(states[0].items.drop_last() =~= Seq::<ItemView<C, N, V, P>>::empty());
    lemma_follows_step(states, demands, n);
}

/// Quiet children are no more than a path can count.
proof fn lemma_all_quiet_bound<C, N, V, P, U: FnOnce(Arc<V>) -> Arc<V>>(
    children: Seq<TreeView<C, N, V, P>>,
    inbox: Map<u64, Seq<StateUpdate<V, U>>>,
    from: int,
)
    requires
        0 <= from <= children.len(),
        all_quiet(children, inbox, from),
    ensures
        children.len() <= usize::MAX,
    decreases children.len() - from,
{
    if from < children.len() {
        lemma_all_quiet_bound(children, inbox, from + 1);
    }
}

/// The visits of quiet children that wait on top of the work list pass
/// through them one child after the other.
proof fn lemma_quiet_children<
    C: AnyComponent,
    N,
    V,
    P,
    U: FnOnce(Arc<V>) -> Arc<V>,
    A,
    F: FnOnce(A) -> K,
    K: FnOnce(),
>(
    states: Seq<LoopView<C, N, V, P, U, A, F, K>>,
    demands: Seq<DemandView<C, N, V, P, A, F, K>>,
    k: int,
    current: Seq<usize>,
    children: Seq<TreeView<C, N, V, P>>,
    rest: Seq<ItemView<C, N, V, P>>,
    base: ContextView<N, V>,
    last: Option<Arc<N>>,
    from: int,
)
    requires
        follows(states, demands),
        0 <= from <= children.len() <= usize::MAX,
        0 <= k,
        k + visits_from(children, from) <= demands.len(),
        states[k].awaiting is None,
        states[k].items == rest + fanned::<C, N, V, P>(
            true,
            current,
            children,
            base,
            last,
            true,
        ).take(children.len() - from),
        forall|i: int|
            from <= i < children.len() ==> states[k].tree.at(#[trigger] current.push(i as usize))
                == Some(children[i]),
        all_quiet(children, states[k].inbox, from),
    ensures
        states[k + visits_from(children, from)] == (LoopView { items: rest, ..states[k] }),
        forall|i: int|
            k <= i < k + visits_from(children, from) ==> demands[i] == DemandView::<
                C,
                N,
                V,
                P,
                A,
                F,
                K,
            >::Continue,
    decreases children, 1int, children.len() - from,
{
    let all = fanned::<C, N, V, P>(true, current, children, base, last, true);
    let open = children.len() - from;
    if from == children.len() {
        assert(all.take(0) =~= Seq::<ItemView<C, N, V, P>>::empty());
        assert(rest + all.take(0) =~= rest);
    } else {
        let pre = states[k];
        let top = all[open - 1];
        assert(all.take(open).last() == top);
        assert((rest + all.take(open)).last() == top);
        assert((rest + all.take(open)).drop_last() =~= rest + all.take(open - 1));
        assert(current.push(from as usize) == current.push((children.len() - 1 - (open - 1)) as usize));
        let within = ContextView {
            sibling: crate::render_loop::sibling_for(children, from, last, true),
            ..base
        };
        assert(top == ItemView::<C, N, V, P>::Reload {
            current: current.push(from as usize),
            ctx: within,
        });
        lemma_quiet_visit(
            states,
            demands,
            k,
            current.push(from as usize),
            within,
            children[from],
        );
        let next = k + visits(children[from]);
        lemma_quiet_children(
            states,
            demands,
            next,
            current,
            children,
            rest,
            base,
            last,
            from + 1,
        );
    }
}

} // verus!
