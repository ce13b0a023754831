//! What mounting and unmounting ask of the host: a subtree of output nodes is
//! created node by node in document order, and a subtree that left the tree
//! is removed node by node, every cleanup of its components queued.

use crate::component::AnyComponent;
use crate::quiescence::{follows, lemma_at_push, lemma_follows_step};
use crate::render_loop::{fanned, sibling_for, teardown, DemandView, LoopView};
use crate::render_queue::{ContextView, ItemView};
use crate::tree::TreeView;
use std::sync::Arc;
use vstd::prelude::*;

verus! {

/// The subtree holds no component, and no node in it has more children than
/// a path can count.
pub open spec fn nodes_only<C, N, V, P>(tree: TreeView<C, N, V, P>) -> bool
    decreases tree, 0int,
{
    match tree {
        TreeView::Component(_) => false,
        TreeView::Node(_, children) => nodes_only_from(children, 0),
        TreeView::Fragment(children) => nodes_only_from(children, 0),
        TreeView::Provider(_, _, children) => nodes_only_from(children, 0),
    }
}

/// The children from position `from` on hold no component.
pub open spec fn nodes_only_from<C, N, V, P>(children: Seq<TreeView<C, N, V, P>>, from: int) -> bool
    decreases children, 1int, children.len() - from,
{
    if 0 <= from < children.len() {
        nodes_only(children[from]) && nodes_only_from(children, from + 1)
    } else {
        children.len() <= usize::MAX
    }
}

/// What the creation of a subtree without components asks of the host, step
/// by step: every output node is created under the output node above it, the
/// children of a node at its end, one after the other; the children of a
/// fragment or a provider stand in the place of their parent and are put in
/// front of what follows them.  A fragment or a provider itself asks nothing.
pub open spec fn create_demands<C, N, V, P, A, F: FnOnce(A) -> K, K: FnOnce()>(
    tree: TreeView<C, N, V, P>,
    ctx: ContextView<N, V>,
) -> Seq<DemandView<C, N, V, P, A, F, K>>
    decreases tree, 0int,
{
    match tree {
        TreeView::Component(_) => Seq::empty(),
        TreeView::Node(node, children) => seq![
            DemandView::Create { node, parent: ctx.parent, sibling: ctx.sibling },
        ] + create_demands_from(
            children,
            ContextView { parent: node, sibling: None, context: ctx.context },
            None,
            false,
            0,
        ),
        TreeView::Fragment(children) => seq![DemandView::Continue] + create_demands_from(
            children,
            ctx,
            ctx.sibling,
            true,
            0,
        ),
        TreeView::Provider(key, value, children) => seq![DemandView::Continue]
            + create_demands_from(
            children,
            ContextView { context: ctx.context.insert(key, value), ..ctx },
            ctx.sibling,
            true,
            0,
        ),
    }
}

/// What the creation of the children from position `from` on asks of the
/// host.
pub open spec fn create_demands_from<C, N, V, P, A, F: FnOnce(A) -> K, K: FnOnce()>(
    children: Seq<TreeView<C, N, V, P>>,
    base: ContextView<N, V>,
    last: Option<Arc<N>>,
    chain: bool,
    from: int,
) -> Seq<DemandView<C, N, V, P, A, F, K>>
    decreases children, 1int, children.len() - from,
{
    if 0 <= from < children.len() {
        create_demands(
            children[from],
            ContextView { sibling: sibling_for(children, from, last, chain), ..base },
        ) + create_demands_from(children, base, last, chain, from + 1)
    } else {
        Seq::empty()
    }
}

/// The parts of a run of demands add up.
proof fn lemma_run_adds<D>(demands: Seq<D>, from: int, middle: int, to: int)
    requires
        0 <= from <= middle <= to <= demands.len(),
    ensures
        demands.subrange(from, to) == demands.subrange(from, middle) + demands.subrange(
            middle,
            to,
        ),
{
    assert(demands.subrange(from, to) =~= demands.subrange(from, middle) + demands.subrange(
        middle,
        to,
    ));
}

/// Children without components are no more than a path can count.
proof fn lemma_nodes_only_bound<C, N, V, P>(children: Seq<TreeView<C, N, V, P>>, from: int)
    requires
        0 <= from <= children.len(),
        nodes_only_from(children, from),
    ensures
        children.len() <= usize::MAX,
    decreases children.len() - from,
{
    if from < children.len() {
        lemma_nodes_only_bound(children, from + 1);
    }
}

/// The item that waits on top when the items for the children from position
/// `from` on are left of a fan: the item for child `from`; below it wait the
/// items for the children after it.
proof fn lemma_fan_top<C, N, V, P>(
    reload: bool,
    current: Seq<usize>,
    children: Seq<TreeView<C, N, V, P>>,
    rest: Seq<ItemView<C, N, V, P>>,
    base: ContextView<N, V>,
    last: Option<Arc<N>>,
    chain: bool,
    from: int,
)
    requires
        0 <= from < children.len(),
    ensures
        ({
            let items = fanned::<C, N, V, P>(reload, current, children, base, last, chain);
            let open = children.len() - from;
            let stack = rest + items.take(open);
            &&& stack.len() > 0
            &&& stack.last() == crate::render_loop::visit::<C, N, V, P>(
                reload,
                current.push(from as usize),
                ContextView { sibling: sibling_for(children, from, last, chain), ..base },
            )
            &&& stack.drop_last() == rest + items.take(open - 1)
        }),
{
    let items = fanned::<C, N, V, P>(reload, current, children, base, last, chain);
    let open = children.len() - from;
    let top = items[open - 1];
    assert(items.take(open).last() == top);
    assert((rest + items.take(open)).last() == top);
    assert((rest + items.take(open)).drop_last() =~= rest + items.take(open - 1));
    assert(current.push(from as usize) == current.push((children.len() - 1 - (open - 1)) as usize));
}

/// Creating a subtree without components asks the host for exactly the
/// output nodes of the subtree, in document order, and for nothing else;
/// afterwards the loop is as it was before, but for the creation, which is
/// off the work list.
pub proof fn lemma_create_nodes<
    C: AnyComponent,
    N,
    V,
    P,
    U: FnOnce(Arc<V>) -> Arc<V>,
    A,
    F: FnOnce(A) -> K,
    K: FnOnce(),
>(
    states: Seq<LoopView<C, N, V, P, U, A, F, K>>,
    demands: Seq<DemandView<C, N, V, P, A, F, K>>,
    k: int,
    current: Seq<usize>,
    ctx: ContextView<N, V>,
    tree: TreeView<C, N, V, P>,
)
    requires
        follows(states, demands),
        0 <= k,
        k + create_demands::<C, N, V, P, A, F, K>(tree, ctx).len() <= demands.len(),
        states[k].awaiting is None,
        states[k].items.len() > 0,
        states[k].items.last() == (ItemView::<C, N, V, P>::Create { current, ctx }),
        states[k].tree.at(current) == Some(tree),
        nodes_only(tree),
    ensures
        states[k + create_demands::<C, N, V, P, A, F, K>(tree, ctx).len()] == (LoopView {
            items: states[k].items.drop_last(),
            ..states[k]
        }),
        demands.subrange(k, k + create_demands::<C, N, V, P, A, F, K>(tree, ctx).len())
            == create_demands::<C, N, V, P, A, F, K>(tree, ctx),
    decreases tree, 0int,
{
    let pre = states[k];
    let post = states[k + 1];
    let rest = LoopView { items: pre.items.drop_last(), ..pre };
    let all = create_demands::<C, N, V, P, A, F, K>(tree, ctx);
    lemma_follows_step(states, demands, k);
    assert(rest.visited(false, current, ctx, post, demands[k]));
    assert(demands.subrange(k, k + 1) =~= seq![demands[k]]);
    match tree {
        TreeView::Component(_) => {},
        TreeView::Node(node, children) => {
            let base = ContextView { parent: node, sibling: None, context: ctx.context };
            lemma_nodes_only_bound(children, 0);
            let items = fanned::<C, N, V, P>(false, current, children, base, None, false);
            assert(items.take(children.len() as int) =~= items);
            assert forall|i: int| 0 <= i < children.len() implies post.tree.at(
                current.push(i as usize),
            ) == Some(children[i]) by {
                lemma_at_push(pre.tree, current, tree, i as usize);
            }
            lemma_create_children(
                states,
                demands,
                k + 1,
                current,
                children,
                rest.items,
                base,
                None,
                false,
                0,
            );
            lemma_run_adds(demands, k, k + 1, k + all.len());
        },
        TreeView::Fragment(children) => {
            lemma_nodes_only_bound(children, 0);
            let items = fanned::<C, N, V, P>(false, current, children, ctx, ctx.sibling, true);
            assert(items.take(children.len() as int) =~= items);
            assert forall|i: int| 0 <= i < children.len() implies post.tree.at(
                current.push(i as usize),
            ) == Some(children[i]) by {
                lemma_at_push(pre.tree, current, tree, i as usize);
            }
            lemma_create_children(
                states,
                demands,
                k + 1,
                current,
                children,
                rest.items,
                ctx,
                ctx.sibling,
                true,
                0,
            );
            lemma_run_adds(demands, k, k + 1, k + all.len());
        },
        TreeView::Provider(key, value, children) => {
            let base = ContextView { context: ctx.context.insert(key, value), ..ctx };
            lemma_nodes_only_bound(children, 0);
            let items = fanned::<C, N, V, P>(false, current, children, base, ctx.sibling, true);
            assert(items.take(children.len() as int) =~= items);
            assert forall|i: int| 0 <= i < children.len() implies post.tree.at(
                current.push(i as usize),
            ) == Some(children[i]) by {
                lemma_at_push(pre.tree, current, tree, i as usize);
            }
            lemma_create_children(
                states,
                demands,
                k + 1,
                current,
                children,
                rest.items,
                base,
                ctx.sibling,
                true,
                0,
            );
            lemma_run_adds(demands, k, k + 1, k + all.len());
        },
    }
}

/// The creations of children without components that wait on top of the
/// work list are carried out one child after the other.
proof fn lemma_create_children<
    C: AnyComponent,
    N,
    V,
    P,
    U: FnOnce(Arc<V>) -> Arc<V>,
    A,
    F: FnOnce(A) -> K,
    K: FnOnce(),
>(
    states: Seq<LoopView<C, N, V, P, U, A, F, K>>,
    demands: Seq<DemandView<C, N, V, P, A, F, K>>,
    k: int,
    current: Seq<usize>,
    children: Seq<TreeView<C, N, V, P>>,
    rest: Seq<ItemView<C, N, V, P>>,
    base: ContextView<N, V>,
    last: Option<Arc<N>>,
    chain: bool,
    from: int,
)
    requires
        follows(states, demands),
        0 <= from <= children.len() <= usize::MAX,
        0 <= k,
        k + create_demands_from::<C, N, V, P, A, F, K>(children, base, last, chain, from).len()
            <= demands.len(),
        states[k].awaiting is None,
        states[k].items == rest + fanned::<C, N, V, P>(
            false,
            current,
            children,
            base,
            last,
            chain,
        ).take(children.len() - from),
        forall|i: int|
            from <= i < children.len() ==> states[k].tree.at(#[trigger] current.push(i as usize))
                == Some(children[i]),
        nodes_only_from(children, from),
    ensures
        states[k + create_demands_from::<C, N, V, P, A, F, K>(
            children,
            base,
            last,
            chain,
            from,
        ).len()] == (LoopView { items: rest, ..states[k] }),
        demands.subrange(
            k,
            k + create_demands_from::<C, N, V, P, A, F, K>(children, base, last, chain, from).len(),
        ) == create_demands_from::<C, N, V, P, A, F, K>(children, base, last, chain, from),
    decreases children, 1int, children.len() - from,
{
    let all = create_demands_from::<C, N, V, P, A, F, K>(children, base, last, chain, from);
    if from == children.len() {
        let items = fanned::<C, N, V, P>(false, current, children, base, last, chain);
        assert(items.take(0) =~= Seq::<ItemView<C, N, V, P>>::empty());
        assert(rest + items.take(0) =~= rest);
        assert(demands.subrange(k, k) =~= all);
    } else {
        lemma_fan_top(false, current, children, rest, base, last, chain, from);
        let within = ContextView { sibling: sibling_for(children, from, last, chain), ..base };
        let first = create_demands::<C, N, V, P, A, F, K>(children[from], within);
        lemma_create_nodes(
            states,
            demands,
            k,
            current.push(from as usize),
            within,
            children[from],
        );
        let next = k + first.len();
        lemma_create_children(
            states,
            demands,
            next,
            current,
            children,
            rest,
            base,
            last,
            chain,
            from + 1,
        );
        lemma_run_adds(demands, k, next, k + all.len());
    }
}

/// What the removal of a subtree asks of the host, step by step: every
/// output node is removed from the output node above it, the last child of a
/// node first.  A component, a fragment or a provider itself asks nothing.
pub open spec fn remove_demands<C, N, V, P, A, F: FnOnce(A) -> K, K: FnOnce()>(
    tree: TreeView<C, N, V, P>,
    parent: Arc<N>,
) -> Seq<DemandView<C, N, V, P, A, F, K>>
    decreases tree, 0int,
{
    match tree {
        TreeView::Component(instance) => seq![DemandView::Continue] + match instance.child {
            Some(child) => remove_demands(*child, parent),
            None => Seq::empty(),
        },
        TreeView::Node(node, children) => seq![DemandView::Remove { node, parent }]
            + remove_demands_among(children, node, children.len() as int),
        TreeView::Fragment(children) => seq![DemandView::Continue] + remove_demands_among(
            children,
            parent,
            children.len() as int,
        ),
        TreeView::Provider(_, _, children) => seq![DemandView::Continue] + remove_demands_among(
            children,
            parent,
            children.len() as int,
        ),
    }
}

/// What the removal of the first `count` children asks of the host, the last
/// of them first.
pub open spec fn remove_demands_among<C, N, V, P, A, F: FnOnce(A) -> K, K: FnOnce()>(
    children: Seq<TreeView<C, N, V, P>>,
    parent: Arc<N>,
    count: int,
) -> Seq<DemandView<C, N, V, P, A, F, K>>
    decreases children, 1int, count,
{
    if 0 < count <= children.len() {
        remove_demands(children[count - 1], parent) + remove_demands_among(
            children,
            parent,
            count - 1,
        )
    } else {
        Seq::empty()
    }
}

/// The instances whose cleanups the removal of a subtree queues, in the
/// order in which it comes to them.
pub open spec fn unmounted<C, N, V, P>(tree: TreeView<C, N, V, P>) -> Seq<u64>
    decreases tree, 0int,
{
    match tree {
        TreeView::Component(instance) => seq![instance.id] + match instance.child {
            Some(child) => unmounted(*child),
            None => Seq::empty(),
        },
        TreeView::Node(_, children) => unmounted_among(children, children.len() as int),
        TreeView::Fragment(children) => unmounted_among(children, children.len() as int),
        TreeView::Provider(_, _, children) => unmounted_among(children, children.len() as int),
    }
}

/// The instances whose cleanups the removal of the first `count` children
/// queues.
pub open spec fn unmounted_among<C, N, V, P>(children: Seq<TreeView<C, N, V, P>>, count: int) -> Seq<
    u64,
>
    decreases children, 1int, count,
{
    if 0 < count <= children.len() {
        unmounted(children[count - 1]) + unmounted_among(children, count - 1)
    } else {
        Seq::empty()
    }
}

/// Removing a subtree asks the host to remove exactly the output nodes of the
/// subtree, and queues the cleanups of exactly the components in it;
/// afterwards the loop is as it was before in everything else, but for the
/// removal, which is off the work list.
pub proof fn lemma_remove_subtree<
    C: AnyComponent,
    N,
    V,
    P,
    U: FnOnce(Arc<V>) -> Arc<V>,
    A,
    F: FnOnce(A) -> K,
    K: FnOnce(),
>(
    states: Seq<LoopView<C, N, V, P, U, A, F, K>>,
    demands: Seq<DemandView<C, N, V, P, A, F, K>>,
    k: int,
    tree: TreeView<C, N, V, P>,
    parent: Arc<N>,
)
    requires
        follows(states, demands),
        0 <= k,
        k + remove_demands::<C, N, V, P, A, F, K>(tree, parent).len() <= demands.len(),
        states[k].awaiting is None,
        states[k].items.len() > 0,
        states[k].items.last() == (ItemView::<C, N, V, P>::Remove { current: tree, parent }),
    ensures
        states[k + remove_demands::<C, N, V, P, A, F, K>(tree, parent).len()] == (LoopView {
            items: states[k].items.drop_last(),
            cleared: states[k].cleared + unmounted(tree),
            ..states[k]
        }),
        demands.subrange(k, k + remove_demands::<C, N, V, P, A, F, K>(tree, parent).len())
            == remove_demands::<C, N, V, P, A, F, K>(tree, parent),
    decreases tree, 0int,
{
    let pre = states[k];
    let post = states[k + 1];
    let rest = LoopView { items: pre.items.drop_last(), ..pre };
    let all = remove_demands::<C, N, V, P, A, F, K>(tree, parent);
    assert(rest.removed(tree, parent, post, demands[k])) by {
        lemma_follows_step(states, demands, k);
    }
    assert(demands.subrange(k, k + 1) =~= seq![demands[k]]);
    match tree {
        TreeView::Component(instance) => {
            match instance.child {
                Some(child) => {
                    assert(post.items.drop_last() =~= rest.items);
                    lemma_remove_subtree(states, demands, k + 1, *child, parent);
                    lemma_run_adds(demands, k, k + 1, k + all.len());
                    assert(pre.cleared.push(instance.id) + unmounted(*child) =~= pre.cleared
                        + unmounted(tree));
                },
                None => {
                    assert(pre.cleared.push(instance.id) =~= pre.cleared + unmounted(tree));
                },
            }
        },
        TreeView::Node(node, children) => {
            lemma_remove_level(states, demands, k, children, rest.items, node);
        },
        TreeView::Fragment(children) => {
            lemma_remove_level(states, demands, k, children, rest.items, parent);
        },
        TreeView::Provider(_, _, children) => {
            lemma_remove_level(states, demands, k, children, rest.items, parent);
        },
    }
}

/// The steps after the one that took a node with children off the work list
/// and queued the removal of its children.
proof fn lemma_remove_level<
    C: AnyComponent,
    N,
    V,
    P,
    U: FnOnce(Arc<V>) -> Arc<V>,
    A,
    F: FnOnce(A) -> K,
    K: FnOnce(),
>(
    states: Seq<LoopView<C, N, V, P, U, A, F, K>>,
    demands: Seq<DemandView<C, N, V, P, A, F, K>>,
    k: int,
    children: Seq<TreeView<C, N, V, P>>,
    rest: Seq<ItemView<C, N, V, P>>,
    parent: Arc<N>,
)
    requires
        follows(states, demands),
        0 <= k,
        k + 1 + remove_demands_among::<C, N, V, P, A, F, K>(
            children,
            parent,
            children.len() as int,
        ).len() <= demands.len(),
        states[k].awaiting is None,
        states[k + 1] == (LoopView { items: rest + teardown(children, parent), ..states[k] }),
    ensures
        states[k + 1 + remove_demands_among::<C, N, V, P, A, F, K>(
            children,
            parent,
            children.len() as int,
        ).len()] == (LoopView {
            items: rest,
            cleared: states[k].cleared + unmounted_among(children, children.len() as int),
            ..states[k]
        }),
        demands.subrange(
            k,
            k + 1 + remove_demands_among::<C, N, V, P, A, F, K>(
                children,
                parent,
                children.len() as int,
            ).len(),
        ) == seq![demands[k]] + remove_demands_among::<C, N, V, P, A, F, K>(
            children,
            parent,
            children.len() as int,
        ),
    decreases children, 2int,
{
    let count = children.len() as int;
    let items = teardown(children, parent);
    let n = remove_demands_among::<C, N, V, P, A, F, K>(children, parent, count).len();
    assert(items.take(count) =~= items);
    lemma_remove_children(states, demands, k + 1, children, rest, parent, count);
    assert(demands.subrange(k, k + 1) =~= seq![demands[k]]);
    lemma_run_adds(demands, k, k + 1, k + 1 + n);
}

/// The removals of children that wait on top of the work list are carried
/// out one child after the other, the last of them first.
proof fn lemma_remove_children<
    C: AnyComponent,
    N,
    V,
    P,
    U: FnOnce(Arc<V>) -> Arc<V>,
    A,
    F: FnOnce(A) -> K,
    K: FnOnce(),
>(
    states: Seq<LoopView<C, N, V, P, U, A, F, K>>,
    demands: Seq<DemandView<C, N, V, P, A, F, K>>,
    k: int,
    children: Seq<TreeView<C, N, V, P>>,
    rest: Seq<ItemView<C, N, V, P>>,
    parent: Arc<N>,
    count: int,
)
    requires
        follows(states, demands),
        0 <= count <= children.len(),
        0 <= k,
        k + remove_demands_among::<C, N, V, P, A, F, K>(children, parent, count).len()
            <= demands.len(),
        states[k].awaiting is None,
        states[k].items == rest + teardown(children, parent).take(count),
    ensures
        states[k + remove_demands_among::<C, N, V, P, A, F, K>(children, parent, count).len()]
            == (LoopView {
            items: rest,
            cleared: states[k].cleared + unmounted_among(children, count),
            ..states[k]
        }),
        demands.subrange(
            k,
            k + remove_demands_among::<C, N, V, P, A, F, K>(children, parent, count).len(),
        ) == remove_demands_among::<C, N, V, P, A, F, K>(children, parent, count),
    decreases children, 1int, count,
{
    let items = teardown(children, parent);
    let all = remove_demands_among::<C, N, V, P, A, F, K>(children, parent, count);
    if count == 0 {
        assert(items.take(0) =~= Seq::<ItemView<C, N, V, P>>::empty());
        assert(rest + items.take(0) =~= rest);
        assert(demands.subrange(k, k) =~= all);
        assert(states[k].cleared + unmounted_among(children, 0) =~= states[k].cleared);
    } else {
        let top = items[count - 1];
        assert(items.take(count).last() == top);
        assert((rest + items.take(count)).last() == top);
        assert((rest + items.take(count)).drop_last() =~= rest + items.take(count - 1));
        let first = remove_demands::<C, N, V, P, A, F, K>(children[count - 1], parent);
        lemma_remove_subtree(states, demands, k, children[count - 1], parent);
        let next = k + first.len();
        lemma_remove_children(states, demands, next, children, rest, parent, count - 1);
        lemma_run_adds(demands, k, next, k + all.len());
        assert(states[k].cleared + unmounted(children[count - 1]) + unmounted_among(
            children,
            count - 1,
        ) =~= states[k].cleared + unmounted_among(children, count));
    }
}

} // verus!
