//! Reconciliation without components: holding a subtree of plain output
//! nodes against a description of plain output nodes changes the tree to
//! what the description describes, and asks the host for exactly the
//! updates, creations and removals that tell the two apart.  With or
//! without components, a node that was held against a description has the
//! shape of the description at its top.

use crate::component::{compared, AnyComponent, ComponentDiff};
use crate::element::ElementView;
use crate::lifecycle::{
    create_demands, lemma_create_nodes, lemma_remove_subtree, nodes_only, nodes_only_from,
    remove_demands, unmounted, unmounted_among,
};
use crate::quiescence::{follows, lemma_at_push, lemma_follows_step};
use crate::render_loop::{
    creations, diffed_children, kept, removals, sibling_for, updates, DemandView, LoopView,
};
use crate::render_queue::{ContextView, ItemView};
use crate::tree::{InstanceView, TreeView};
use std::sync::Arc;
use vstd::prelude::*;

verus! {

/// The description holds no component, and no list of children in it is
/// longer than a path can count.
pub open spec fn plain<C, N, V>(element: ElementView<C, N, V>) -> bool
    decreases element, 0int,
{
    match element {
        ElementView::Component(_) => false,
        ElementView::Node(_, children) => plain_from(children, 0),
        ElementView::Fragment(children) => plain_from(children, 0),
        ElementView::Provider(_, _, children) => plain_from(children, 0),
    }
}

/// The descriptions from position `from` on are plain.
pub open spec fn plain_from<C, N, V>(children: Seq<ElementView<C, N, V>>, from: int) -> bool
    decreases children, 1int, children.len() - from,
{
    if 0 <= from < children.len() {
        plain(children[from]) && plain_from(children, from + 1)
    } else {
        children.len() <= usize::MAX
    }
}

/// Every one of plain descriptions is plain, and they are no more than a
/// path can count.
pub proof fn lemma_plain_each<C, N, V>(children: Seq<ElementView<C, N, V>>, from: int, i: int)
    requires
        0 <= from <= children.len(),
        plain_from(children, from),
    ensures
        children.len() <= usize::MAX,
        from <= i < children.len() ==> plain(children[i]),
    decreases children.len() - from,
{
    if from < children.len() {
        lemma_plain_each(children, from + 1, i);
    }
}

/// Every one of the subtrees without components is without components.
pub proof fn lemma_nodes_only_each<C, N, V, P>(
    children: Seq<TreeView<C, N, V, P>>,
    from: int,
    i: int,
)
    requires
        0 <= from <= children.len(),
        nodes_only_from(children, from),
    ensures
        children.len() <= usize::MAX,
        from <= i < children.len() ==> nodes_only(children[i]),
    decreases children.len() - from,
{
    if from < children.len() {
        lemma_nodes_only_each(children, from + 1, i);
    }
}

/// Subtrees that are each without components are without components
/// together.
pub proof fn lemma_nodes_only_all<C, N, V, P>(children: Seq<TreeView<C, N, V, P>>, from: int)
    requires
        0 <= from <= children.len() <= usize::MAX,
        forall|i: int| from <= i < children.len() ==> nodes_only(#[trigger] children[i]),
    ensures
        nodes_only_from(children, from),
    decreases children.len() - from,
{
    if from < children.len() {
        lemma_nodes_only_all(children, from + 1);
    }
}

/// The fresh subtree for a plain description holds no component and uses no
/// identifier.
pub proof fn lemma_fresh_plain<C, N, V, P>(element: ElementView<C, N, V>, ids: u64)
    requires
        plain(element),
    ensures
        TreeView::<C, N, V, P>::from_element(element, ids).1 == ids,
        nodes_only(TreeView::<C, N, V, P>::from_element(element, ids).0),
    decreases element, 0int,
{
    match element {
        ElementView::Component(_) => {},
        ElementView::Node(_, children) => {
            lemma_fresh_plain_all::<C, N, V, P>(children, ids, children.len() as int);
            assert(children.take(children.len() as int) =~= children);
            lemma_nodes_only_all(TreeView::<C, N, V, P>::from_elements(children, ids).0, 0);
        },
        ElementView::Fragment(children) => {
            lemma_fresh_plain_all::<C, N, V, P>(children, ids, children.len() as int);
            assert(children.take(children.len() as int) =~= children);
            lemma_nodes_only_all(TreeView::<C, N, V, P>::from_elements(children, ids).0, 0);
        },
        ElementView::Provider(_, _, children) => {
            lemma_fresh_plain_all::<C, N, V, P>(children, ids, children.len() as int);
            assert(children.take(children.len() as int) =~= children);
            lemma_nodes_only_all(TreeView::<C, N, V, P>::from_elements(children, ids).0, 0);
        },
    }
}

/// The fresh subtrees for the first `count` of plain descriptions hold no
/// component and use no identifier; each is the fresh subtree of its
/// description.
pub proof fn lemma_fresh_plain_all<C, N, V, P>(
    children: Seq<ElementView<C, N, V>>,
    ids: u64,
    count: int,
)
    requires
        0 <= count <= children.len(),
        plain_from(children, 0),
    ensures
        children.len() <= usize::MAX,
        TreeView::<C, N, V, P>::from_elements(children.take(count), ids).1 == ids,
        TreeView::<C, N, V, P>::from_elements(children.take(count), ids).0.len() == count,
        forall|i: int|
            0 <= i < count ==> (#[trigger] TreeView::<C, N, V, P>::from_elements(
                children.take(count),
                ids,
            ).0[i]) == TreeView::<C, N, V, P>::from_element(children[i], ids).0 && nodes_only(
                TreeView::<C, N, V, P>::from_element(children[i], ids).0,
            ),
    decreases children, 1int, count,
{
    lemma_plain_each(children, 0, 0);
    if count > 0 {
        lemma_fresh_plain_all::<C, N, V, P>(children, ids, count - 1);
        lemma_plain_each(children, 0, count - 1);
        lemma_fresh_plain::<C, N, V, P>(children[count - 1], ids);
        assert(children.take(count).drop_last() =~= children.take(count - 1));
        assert(children.take(count).last() == children[count - 1]);
    }
}

/// The removal of a subtree without components queues no cleanups.
pub proof fn lemma_nothing_unmounted<C, N, V, P>(tree: TreeView<C, N, V, P>)
    requires
        nodes_only(tree),
    ensures
        unmounted(tree) == Seq::<u64>::empty(),
    decreases tree, 0int,
{
    match tree {
        TreeView::Component(_) => {},
        TreeView::Node(_, children) => {
            lemma_nothing_unmounted_among(children, children.len() as int);
        },
        TreeView::Fragment(children) => {
            lemma_nothing_unmounted_among(children, children.len() as int);
        },
        TreeView::Provider(_, _, children) => {
            lemma_nothing_unmounted_among(children, children.len() as int);
        },
    }
}

/// The removal of subtrees without components queues no cleanups.
pub proof fn lemma_nothing_unmounted_among<C, N, V, P>(
    children: Seq<TreeView<C, N, V, P>>,
    count: int,
)
    requires
        0 <= count <= children.len(),
        nodes_only_from(children, 0),
    ensures
        unmounted_among(children, count) == Seq::<u64>::empty(),
    decreases children, 1int, count,
{
    if count > 0 {
        lemma_nodes_only_each(children, 0, count - 1);
        lemma_nothing_unmounted(children[count - 1]);
        lemma_nothing_unmounted_among(children, count - 1);
        assert(unmounted(children[count - 1]) + unmounted_among(children, count - 1)
            =~= Seq::<u64>::empty());
    }
}

/// Descriptions that are each plain are plain together.
pub proof fn lemma_plain_all<C, N, V>(children: Seq<ElementView<C, N, V>>, from: int)
    requires
        0 <= from <= children.len() <= usize::MAX,
        forall|i: int| from <= i < children.len() ==> plain(#[trigger] children[i]),
    ensures
        plain_from(children, from),
    decreases children.len() - from,
{
    if from < children.len() {
        lemma_plain_all(children, from + 1);
    }
}

/// What a subtree is after it was held against a plain description: where
/// the kinds agree, the node of the description with the children held
/// against each other position by position; otherwise the fresh subtree of
/// the description.
pub open spec fn reconciled<C, N, V, P>(
    tree: TreeView<C, N, V, P>,
    element: ElementView<C, N, V>,
    ids: u64,
) -> TreeView<C, N, V, P>
    decreases element, 0int,
{
    match (tree, element) {
        (TreeView::Node(_, children), ElementView::Node(payload, elements)) => TreeView::Node(
            Arc::new(payload),
            reconciled_children(children, elements, ids),
        ),
        (TreeView::Fragment(children), ElementView::Fragment(elements)) => TreeView::Fragment(
            reconciled_children(children, elements, ids),
        ),
        (
            TreeView::Provider(_, _, children),
            ElementView::Provider(key, value, elements),
        ) => TreeView::Provider(key, value, reconciled_children(children, elements, ids)),
        _ => TreeView::<C, N, V, P>::from_element(element, ids).0,
    }
}

/// What a list of children is after it was held against a list of plain
/// descriptions: as long as the descriptions; every child that has a
/// description at its position held against it; fresh subtrees for the
/// descriptions beyond the children.
pub open spec fn reconciled_children<C, N, V, P>(
    children: Seq<TreeView<C, N, V, P>>,
    elements: Seq<ElementView<C, N, V>>,
    ids: u64,
) -> Seq<TreeView<C, N, V, P>>
    decreases elements, 1int,
{
    Seq::new(
        elements.len(),
        |i: int|
            if 0 <= i < elements.len() {
                if i < children.len() {
                    reconciled(children[i], elements[i], ids)
                } else {
                    TreeView::<C, N, V, P>::from_element(elements[i], ids).0
                }
            } else {
                TreeView::hole()
            },
    )
}

/// The tree mirrors the description: whatever stood there before, a subtree
/// that was held against a plain description is the fresh subtree of that
/// description.
pub proof fn lemma_reconciled_mirrors<C, N, V, P>(
    tree: TreeView<C, N, V, P>,
    element: ElementView<C, N, V>,
    ids: u64,
)
    requires
        plain(element),
    ensures
        reconciled(tree, element, ids) == TreeView::<C, N, V, P>::from_element(element, ids).0,
    decreases element, 0int,
{
    match (tree, element) {
        (TreeView::Node(_, children), ElementView::Node(_, elements)) => {
            lemma_reconciled_children_mirror(children, elements, ids);
        },
        (TreeView::Fragment(children), ElementView::Fragment(elements)) => {
            lemma_reconciled_children_mirror(children, elements, ids);
        },
        (TreeView::Provider(_, _, children), ElementView::Provider(_, _, elements)) => {
            lemma_reconciled_children_mirror(children, elements, ids);
        },
        _ => {},
    }
}

/// Children that were held against plain descriptions are the fresh subtrees
/// of those descriptions.
proof fn lemma_reconciled_children_mirror<C, N, V, P>(
    children: Seq<TreeView<C, N, V, P>>,
    elements: Seq<ElementView<C, N, V>>,
    ids: u64,
)
    requires
        plain_from(elements, 0),
    ensures
        reconciled_children(children, elements, ids) == TreeView::<C, N, V, P>::from_elements(
            elements,
            ids,
        ).0,
    decreases elements, 1int,
{
    let held = reconciled_children(children, elements, ids);
    let fresh = TreeView::<C, N, V, P>::from_elements(elements, ids).0;
    lemma_fresh_plain_all::<C, N, V, P>(elements, ids, elements.len() as int);
    assert(elements.take(elements.len() as int) =~= elements);
    assert forall|i: int| 0 <= i < elements.len() implies held[i] == fresh[i] by {
        lemma_plain_each(elements, 0, i);
        if i < children.len() {
            lemma_reconciled_mirrors(children[i], elements[i], ids);
        }
    }
    assert(held =~= fresh);
}

/// What holding a subtree without components against a plain description
/// asks of the host, step by step.
///
/// Where the kinds agree, an output node is updated, and then its children
/// are held against the new children; a fragment or a provider only has its
/// children held against the new ones.  Where the kinds differ, the fresh
/// subtree is created and then the old one removed.
pub open spec fn update_demands<C, N, V, P, A, F: FnOnce(A) -> K, K: FnOnce()>(
    tree: TreeView<C, N, V, P>,
    element: ElementView<C, N, V>,
    ctx: ContextView<N, V>,
    ids: u64,
) -> Seq<DemandView<C, N, V, P, A, F, K>>
    decreases element, 0int,
{
    match (tree, element) {
        (TreeView::Node(old, children), ElementView::Node(payload, elements)) => {
            let new = Arc::new(payload);
            seq![DemandView::Update { node: old, next: new }] + diff_demands(
                children,
                elements,
                ContextView { parent: new, sibling: None, context: ctx.context },
                ids,
            )
        },
        (TreeView::Fragment(children), ElementView::Fragment(elements)) => seq![
            DemandView::Continue,
        ] + diff_demands(children, elements, ctx, ids),
        (TreeView::Provider(_, _, children), ElementView::Provider(key, value, elements)) => seq![
            DemandView::Continue,
        ] + diff_demands(
            children,
            elements,
            ContextView { context: ctx.context.insert(key, value), ..ctx },
            ids,
        ),
        _ => seq![DemandView::Continue] + create_demands(
            TreeView::<C, N, V, P>::from_element(element, ids).0,
            ctx,
        ) + remove_demands(tree, ctx.parent),
    }
}

/// What holding a list of children against a list of plain descriptions asks
/// of the host: first the children that are kept are held against their
/// descriptions, from the first on; then the fresh children are created, from
/// the first on; then the children that are dropped are removed, from the
/// first on.
pub open spec fn diff_demands<C, N, V, P, A, F: FnOnce(A) -> K, K: FnOnce()>(
    children: Seq<TreeView<C, N, V, P>>,
    elements: Seq<ElementView<C, N, V>>,
    ctx: ContextView<N, V>,
    ids: u64,
) -> Seq<DemandView<C, N, V, P, A, F, K>>
    decreases elements, 2int,
{
    update_demands_from(children, elements, ctx, ids, 0) + create_demands_each(
        elements,
        ctx,
        ids,
        children.len() as int,
    ) + remove_demands_each(children, ctx.parent, elements.len() as int)
}

/// What holding the kept children from position `from` on against their
/// descriptions asks of the host.
pub open spec fn update_demands_from<C, N, V, P, A, F: FnOnce(A) -> K, K: FnOnce()>(
    children: Seq<TreeView<C, N, V, P>>,
    elements: Seq<ElementView<C, N, V>>,
    ctx: ContextView<N, V>,
    ids: u64,
    from: int,
) -> Seq<DemandView<C, N, V, P, A, F, K>>
    decreases elements, 1int, elements.len() - from,
{
    let keep = kept(children.len() as int, elements.len() as int);
    if 0 <= from < keep {
        update_demands(
            children[from],
            elements[from],
            ContextView {
                sibling: sibling_for(children.take(keep), from, ctx.sibling, true),
                ..ctx
            },
            ids,
        ) + update_demands_from(children, elements, ctx, ids, from + 1)
    } else {
        Seq::empty()
    }
}

/// What creating the fresh children for the descriptions from position
/// `from` on asks of the host.
pub open spec fn create_demands_each<C, N, V, P, A, F: FnOnce(A) -> K, K: FnOnce()>(
    elements: Seq<ElementView<C, N, V>>,
    ctx: ContextView<N, V>,
    ids: u64,
    from: int,
) -> Seq<DemandView<C, N, V, P, A, F, K>>
    decreases elements.len() - from,
{
    if 0 <= from < elements.len() {
        create_demands(TreeView::<C, N, V, P>::from_element(elements[from], ids).0, ctx)
            + create_demands_each(elements, ctx, ids, from + 1)
    } else {
        Seq::empty()
    }
}

/// What removing the children from position `from` on asks of the host.
pub open spec fn remove_demands_each<C, N, V, P, A, F: FnOnce(A) -> K, K: FnOnce()>(
    children: Seq<TreeView<C, N, V, P>>,
    parent: Arc<N>,
    from: int,
) -> Seq<DemandView<C, N, V, P, A, F, K>>
    decreases children.len() - from,
{
    if 0 <= from < children.len() {
        remove_demands(children[from], parent) + remove_demands_each(children, parent, from + 1)
    } else {
        Seq::empty()
    }
}

/// A node with the kept children from position `from` on held against their
/// descriptions.
pub open spec fn settled<C, N, V, P>(
    node: TreeView<C, N, V, P>,
    children: Seq<TreeView<C, N, V, P>>,
    elements: Seq<ElementView<C, N, V>>,
    ids: u64,
    from: int,
) -> TreeView<C, N, V, P>
    decreases elements.len() - from,
{
    let keep = kept(children.len() as int, elements.len() as int);
    if 0 <= from < keep {
        settled(
            node.with_child(from, reconciled(children[from], elements[from], ids)),
            children,
            elements,
            ids,
            from + 1,
        )
    } else {
        node
    }
}

/// Putting a node in the place of a child is putting the parent with that
/// child in the place of the parent.
pub proof fn lemma_put_child<C, N, V, P>(
    tree: TreeView<C, N, V, P>,
    path: Seq<usize>,
    node: TreeView<C, N, V, P>,
    i: usize,
    child: TreeView<C, N, V, P>,
)
    requires
        tree.at(path) == Some(node),
        node.child(i as int) is Some,
    ensures
        tree.put(path.push(i), child) == tree.put(path, node.with_child(i as int, child)),
    decreases path.len(),
{
    let longer = path.push(i);
    if path.len() == 0 {
        assert(longer[0] == i);
        assert(longer.skip(1) =~= Seq::<usize>::empty());
        let old = tree.child(i as int)->0;
        assert(old.put(longer.skip(1), child) == child);
    } else {
        assert(longer[0] == path[0]);
        assert(longer.skip(1) =~= path.skip(1).push(i));
        let below = tree.child(path[0] as int)->0;
        lemma_put_child(below, path.skip(1), node, i, child);
        assert(tree.put(longer, child) == tree.with_child(
            path[0] as int,
            below.put(longer.skip(1), child),
        ));
    }
}

/// The parts of a run of demands add up.
proof fn lemma_run_adds<D>(demands: Seq<D>, from: int, middle: int, to: int)
    requires
        0 <= from <= middle <= to <= demands.len(),
    ensures
        demands.subrange(from, to) == demands.subrange(from, middle) + demands.subrange(
            middle,
            to,
        ),
{
    assert(demands.subrange(from, to) =~= demands.subrange(from, middle) + demands.subrange(
        middle,
        to,
    ));
}

/// The removals of dropped children without components that wait on top of
/// the work list are carried out from the first dropped child on.
proof fn lemma_remove_each<
    C: AnyComponent,
    N,
    V,
    P,
    U: FnOnce(Arc<V>) -> Arc<V>,
    A,
    F: FnOnce(A) -> K,
    K: FnOnce(),
>(
    states: Seq<LoopView<C, N, V, P, U, A, F, K>>,
    demands: Seq<DemandView<C, N, V, P, A, F, K>>,
    k: int,
    children: Seq<TreeView<C, N, V, P>>,
    parent: Arc<N>,
    below: Seq<ItemView<C, N, V, P>>,
    keep: int,
    from: int,
)
    requires
        follows(states, demands),
        0 <= keep <= from <= children.len(),
        0 <= k,
        k + remove_demands_each::<C, N, V, P, A, F, K>(children, parent, from).len()
            <= demands.len(),
        states[k].awaiting is None,
        states[k].items == below + removals(children, keep, parent).take(children.len() - from),
        nodes_only_from(children, 0),
    ensures
        states[k + remove_demands_each::<C, N, V, P, A, F, K>(children, parent, from).len()]
            == (LoopView { items: below, ..states[k] }),
        demands.subrange(
            k,
            k + remove_demands_each::<C, N, V, P, A, F, K>(children, parent, from).len(),
        ) == remove_demands_each::<C, N, V, P, A, F, K>(children, parent, from),
    decreases children.len() - from,
{
    let items = removals(children, keep, parent);
    let open = children.len() - from;
    let all = remove_demands_each::<C, N, V, P, A, F, K>(children, parent, from);
    if from == children.len() {
        assert(items.take(0) =~= Seq::<ItemView<C, N, V, P>>::empty());
        assert(below + items.take(0) =~= below);
        assert(demands.subrange(k, k) =~= all);
    } else {
        let top = items[open - 1];
        assert(top == ItemView::<C, N, V, P>::Remove { current: children[from], parent });
        assert(items.take(open).last() == top);
        assert((below + items.take(open)).last() == top);
        assert((below + items.take(open)).drop_last() =~= below + items.take(open - 1));
        lemma_nodes_only_each(children, 0, from);
        lemma_nothing_unmounted(children[from]);
        lemma_remove_subtree(states, demands, k, children[from], parent);
        let next = k + remove_demands::<C, N, V, P, A, F, K>(children[from], parent).len();
        assert(states[k].cleared + Seq::<u64>::empty() =~= states[k].cleared);
        lemma_remove_each(states, demands, next, children, parent, below, keep, from + 1);
        lemma_run_adds(demands, k, next, k + all.len());
    }
}

/// The creations of fresh children for plain descriptions that wait on top
/// of the work list are carried out from the first fresh child on.
proof fn lemma_create_each<
    C: AnyComponent,
    N,
    V,
    P,
    U: FnOnce(Arc<V>) -> Arc<V>,
    A,
    F: FnOnce(A) -> K,
    K: FnOnce(),
>(
    states: Seq<LoopView<C, N, V, P, U, A, F, K>>,
    demands: Seq<DemandView<C, N, V, P, A, F, K>>,
    k: int,
    current: Seq<usize>,
    elements: Seq<ElementView<C, N, V>>,
    ctx: ContextView<N, V>,
    ids: u64,
    below: Seq<ItemView<C, N, V, P>>,
    first: int,
    from: int,
)
    requires
        follows(states, demands),
        0 <= first <= from <= elements.len(),
        0 <= k,
        k + create_demands_each::<C, N, V, P, A, F, K>(elements, ctx, ids, from).len()
            <= demands.len(),
        states[k].awaiting is None,
        states[k].items == below + creations::<C, N, V, P>(
            current,
            first,
            elements.len() as int,
            ctx,
        ).take(elements.len() - from),
        forall|i: int|
            from <= i < elements.len() ==> states[k].tree.at(#[trigger] current.push(i as usize))
                == Some(TreeView::<C, N, V, P>::from_element(elements[i], ids).0),
        plain_from(elements, 0),
    ensures
        states[k + create_demands_each::<C, N, V, P, A, F, K>(elements, ctx, ids, from).len()]
            == (LoopView { items: below, ..states[k] }),
        demands.subrange(
            k,
            k + create_demands_each::<C, N, V, P, A, F, K>(elements, ctx, ids, from).len(),
        ) == create_demands_each::<C, N, V, P, A, F, K>(elements, ctx, ids, from),
    decreases elements.len() - from,
{
    let items = creations::<C, N, V, P>(current, first, elements.len() as int, ctx);
    let open = elements.len() - from;
    let all = create_demands_each::<C, N, V, P, A, F, K>(elements, ctx, ids, from);
    if from == elements.len() {
        assert(items.take(0) =~= Seq::<ItemView<C, N, V, P>>::empty());
        assert(below + items.take(0) =~= below);
        assert(demands.subrange(k, k) =~= all);
    } else {
        let fresh = TreeView::<C, N, V, P>::from_element(elements[from], ids).0;
        let top = items[open - 1];
        assert(elements.len() - 1 - (open - 1) == from);
        assert(top == ItemView::<C, N, V, P>::Create {
            current: current.push(from as usize),
            ctx,
        });
        assert(items.take(open).last() == top);
        assert((below + items.take(open)).last() == top);
        assert((below + items.take(open)).drop_last() =~= below + items.take(open - 1));
        lemma_plain_each(elements, 0, from);
        lemma_fresh_plain::<C, N, V, P>(elements[from], ids);
        lemma_create_nodes(states, demands, k, current.push(from as usize), ctx, fresh);
        let next = k + create_demands::<C, N, V, P, A, F, K>(fresh, ctx).len();
        lemma_create_each(
            states,
            demands,
            next,
            current,
            elements,
            ctx,
            ids,
            below,
            first,
            from + 1,
        );
        lemma_run_adds(demands, k, next, k + all.len());
    }
}

/// A node that is not a component, with other children.
pub open spec fn rebuilt<C, N, V, P>(
    node: TreeView<C, N, V, P>,
    children: Seq<TreeView<C, N, V, P>>,
) -> TreeView<C, N, V, P> {
    match node {
        TreeView::Component(_) => node,
        TreeView::Node(payload, _) => TreeView::Node(payload, children),
        TreeView::Fragment(_) => TreeView::Fragment(children),
        TreeView::Provider(key, value, _) => TreeView::Provider(key, value, children),
    }
}

/// A list of children with the kept ones from position `from` on held
/// against their descriptions.
pub open spec fn settled_children<C, N, V, P>(
    kids: Seq<TreeView<C, N, V, P>>,
    children: Seq<TreeView<C, N, V, P>>,
    elements: Seq<ElementView<C, N, V>>,
    ids: u64,
    from: int,
) -> Seq<TreeView<C, N, V, P>> {
    let keep = kept(children.len() as int, elements.len() as int);
    Seq::new(
        kids.len(),
        |j: int|
            if from <= j < keep {
                reconciled(children[j], elements[j], ids)
            } else {
                kids[j]
            },
    )
}

/// Settling a node settles its children.
proof fn lemma_settled<C, N, V, P>(
    node: TreeView<C, N, V, P>,
    kids: Seq<TreeView<C, N, V, P>>,
    children: Seq<TreeView<C, N, V, P>>,
    elements: Seq<ElementView<C, N, V>>,
    ids: u64,
    from: int,
)
    requires
        node !is Component,
        0 <= from <= kept(children.len() as int, elements.len() as int) <= kids.len(),
    ensures
        settled(rebuilt(node, kids), children, elements, ids, from) == rebuilt(
            node,
            settled_children(kids, children, elements, ids, from),
        ),
    decreases elements.len() - from,
{
    let keep = kept(children.len() as int, elements.len() as int);
    if from < keep {
        let next = reconciled(children[from], elements[from], ids);
        assert(rebuilt(node, kids).with_child(from, next) == rebuilt(node, kids.update(from, next)));
        lemma_settled(node, kids.update(from, next), children, elements, ids, from + 1);
        assert(settled_children(kids.update(from, next), children, elements, ids, from + 1)
            =~= settled_children(kids, children, elements, ids, from));
    } else {
        assert(settled_children(kids, children, elements, ids, from) =~= kids);
    }
}

/// The kept children that wait on top of the work list are held against
/// their descriptions from the first on.
proof fn lemma_update_children<
    C: AnyComponent,
    N,
    V,
    P,
    U: FnOnce(Arc<V>) -> Arc<V>,
    A,
    F: FnOnce(A) -> K,
    K: FnOnce(),
>(
    states: Seq<LoopView<C, N, V, P, U, A, F, K>>,
    demands: Seq<DemandView<C, N, V, P, A, F, K>>,
    k: int,
    current: Seq<usize>,
    children: Seq<TreeView<C, N, V, P>>,
    elements: Seq<ElementView<C, N, V>>,
    ctx: ContextView<N, V>,
    ids: u64,
    below: Seq<ItemView<C, N, V, P>>,
    node: TreeView<C, N, V, P>,
    from: int,
)
    requires
        follows(states, demands),
        0 <= k,
        0 <= from <= kept(children.len() as int, elements.len() as int),
        k + update_demands_from::<C, N, V, P, A, F, K>(children, elements, ctx, ids, from).len()
            <= demands.len(),
        states[k].awaiting is None,
        states[k].ids == ids,
        states[k].items == below + updates(
            current,
            children,
            elements,
            kept(children.len() as int, elements.len() as int),
            ctx,
        ).take(kept(children.len() as int, elements.len() as int) - from),
        states[k].tree.at(current) == Some(node),
        node !is Component,
        forall|j: int|
            from <= j < kept(children.len() as int, elements.len() as int) ==> node.child(j)
                == Some(#[trigger] children[j]),
        nodes_only_from(children, 0),
        plain_from(elements, 0),
    ensures
        states[k + update_demands_from::<C, N, V, P, A, F, K>(
            children,
            elements,
            ctx,
            ids,
            from,
        ).len()] == (LoopView {
            items: below,
            tree: states[k].tree.put(current, settled(node, children, elements, ids, from)),
            ..states[k]
        }),
        demands.subrange(
            k,
            k + update_demands_from::<C, N, V, P, A, F, K>(children, elements, ctx, ids, from).len(),
        ) == update_demands_from::<C, N, V, P, A, F, K>(children, elements, ctx, ids, from),
    decreases elements, 1int, elements.len() - from,
{
    let keep = kept(children.len() as int, elements.len() as int);
    let items = updates(current, children, elements, keep, ctx);
    let open = keep - from;
    let all = update_demands_from::<C, N, V, P, A, F, K>(children, elements, ctx, ids, from);
    let tree = states[k].tree;
    lemma_nodes_only_each(children, 0, 0);
    if from == keep {
        assert(items.take(0) =~= Seq::<ItemView<C, N, V, P>>::empty());
        assert(below + items.take(0) =~= below);
        assert(demands.subrange(k, k) =~= all);
        tree.lemma_put_same(current);
    } else {
        let within = ContextView {
            sibling: sibling_for(children.take(keep), from, ctx.sibling, true),
            ..ctx
        };
        let top = items[open - 1];
        assert(keep - 1 - (open - 1) == from);
        assert(top == ItemView::<C, N, V, P>::Update {
            current: current.push(from as usize),
            next: elements[from],
            ctx: within,
        });
        assert(items.take(open).last() == top);
        assert((below + items.take(open)).last() == top);
        assert((below + items.take(open)).drop_last() =~= below + items.take(open - 1));
        lemma_nodes_only_each(children, 0, from);
        lemma_plain_each(elements, 0, from);
        lemma_at_push(tree, current, node, from as usize);
        lemma_update_plain(
            states,
            demands,
            k,
            current.push(from as usize),
            elements[from],
            within,
            children[from],
        );
        let first = update_demands::<C, N, V, P, A, F, K>(
            children[from],
            elements[from],
            within,
            ids,
        );
        let next = k + first.len();
        let held = reconciled(children[from], elements[from], ids);
        let after = node.with_child(from, held);
        lemma_put_child(tree, current, node, from as usize, held);
        tree.lemma_at_put(current, after);
        assert forall|j: int| from + 1 <= j < keep implies after.child(j) == Some(
            #[trigger] children[j],
        ) by {
            assert(node.child(j) == Some(children[j]));
        }
        lemma_update_children(
            states,
            demands,
            next,
            current,
            children,
            elements,
            ctx,
            ids,
            below,
            after,
            from + 1,
        );
        tree.lemma_put_put(current, after, settled(after, children, elements, ids, from + 1));
        lemma_run_adds(demands, k, next, k + all.len());
    }
}

/// Holding a subtree of plain output nodes against a plain description
/// changes the subtree to what the description describes, and asks the host
/// for exactly the updates of the nodes that stay, the creations of the nodes
/// that are new and the removals of the nodes that are gone; afterwards the
/// loop is as it was before in everything else, but for the update, which is
/// off the work list.
pub proof fn lemma_update_plain<
    C: AnyComponent,
    N,
    V,
    P,
    U: FnOnce(Arc<V>) -> Arc<V>,
    A,
    F: FnOnce(A) -> K,
    K: FnOnce(),
>(
    states: Seq<LoopView<C, N, V, P, U, A, F, K>>,
    demands: Seq<DemandView<C, N, V, P, A, F, K>>,
    k: int,
    current: Seq<usize>,
    element: ElementView<C, N, V>,
    ctx: ContextView<N, V>,
    tree: TreeView<C, N, V, P>,
)
    requires
        follows(states, demands),
        0 <= k,
        k + update_demands::<C, N, V, P, A, F, K>(tree, element, ctx, states[k].ids).len()
            <= demands.len(),
        states[k].awaiting is None,
        states[k].items.len() > 0,
        states[k].items.last() == (ItemView::<C, N, V, P>::Update {
            current,
            next: element,
            ctx,
        }),
        states[k].tree.at(current) == Some(tree),
        nodes_only(tree),
        plain(element),
    ensures
        states[k + update_demands::<C, N, V, P, A, F, K>(
            tree,
            element,
            ctx,
            states[k].ids,
        ).len()] == (LoopView {
            items: states[k].items.drop_last(),
            tree: states[k].tree.put(current, reconciled(tree, element, states[k].ids)),
            ..states[k]
        }),
        demands.subrange(
            k,
            k + update_demands::<C, N, V, P, A, F, K>(tree, element, ctx, states[k].ids).len(),
        ) == update_demands::<C, N, V, P, A, F, K>(tree, element, ctx, states[k].ids),
    decreases element, 0int,
{
    let pre = states[k];
    let post = states[k + 1];
    let ids = pre.ids;
    let rest = LoopView { items: pre.items.drop_last(), ..pre };
    let all = update_demands::<C, N, V, P, A, F, K>(tree, element, ctx, ids);
    assert(rest.updated(current, element, ctx, post, demands[k])) by {
        lemma_follows_step(states, demands, k);
    }
    assert(demands.subrange(k, k + 1) =~= seq![demands[k]]);
    match (tree, element) {
        (TreeView::Node(old, children), ElementView::Node(payload, elements)) => {
            let new = Arc::new(payload);
            let inner = ContextView { parent: new, sibling: None, context: ctx.context };
            lemma_diffed_plain(
                states,
                demands,
                k,
                current,
                children,
                elements,
                inner,
                rest.items,
                tree,
                TreeView::Node(new, Seq::empty()),
            );
        },
        (TreeView::Fragment(children), ElementView::Fragment(elements)) => {
            lemma_diffed_plain(
                states,
                demands,
                k,
                current,
                children,
                elements,
                ctx,
                rest.items,
                tree,
                TreeView::Fragment(Seq::empty()),
            );
        },
        (
            TreeView::Provider(_, _, children),
            ElementView::Provider(key, value, elements),
        ) => {
            let inner = ContextView { context: ctx.context.insert(key, value), ..ctx };
            lemma_diffed_plain(
                states,
                demands,
                k,
                current,
                children,
                elements,
                inner,
                rest.items,
                tree,
                TreeView::Provider(key, value, Seq::empty()),
            );
        },
        _ => {
            assert(rest.replaced(current, tree, element, ctx, post));
            lemma_replaced_plain(states, demands, k, current, element, ctx, tree, rest.items);
        },
    }
}

/// The steps after the one that took the update of a subtree without
/// components off the work list and put the fresh subtree of a plain
/// description of another kind in its place.
proof fn lemma_replaced_plain<
    C: AnyComponent,
    N,
    V,
    P,
    U: FnOnce(Arc<V>) -> Arc<V>,
    A,
    F: FnOnce(A) -> K,
    K: FnOnce(),
>(
    states: Seq<LoopView<C, N, V, P, U, A, F, K>>,
    demands: Seq<DemandView<C, N, V, P, A, F, K>>,
    k: int,
    current: Seq<usize>,
    element: ElementView<C, N, V>,
    ctx: ContextView<N, V>,
    tree: TreeView<C, N, V, P>,
    rest: Seq<ItemView<C, N, V, P>>,
)
    requires
        follows(states, demands),
        0 <= k,
        k + 1 + create_demands::<C, N, V, P, A, F, K>(
            TreeView::<C, N, V, P>::from_element(element, states[k].ids).0,
            ctx,
        ).len() + remove_demands::<C, N, V, P, A, F, K>(tree, ctx.parent).len() <= demands.len(),
        states[k].awaiting is None,
        states[k].tree.at(current) == Some(tree),
        (LoopView { items: rest, ..states[k] }).replaced(current, tree, element, ctx, states[k + 1]),
        nodes_only(tree),
        plain(element),
    ensures
        states[k + 1 + create_demands::<C, N, V, P, A, F, K>(
            TreeView::<C, N, V, P>::from_element(element, states[k].ids).0,
            ctx,
        ).len() + remove_demands::<C, N, V, P, A, F, K>(tree, ctx.parent).len()] == (LoopView {
            items: rest,
            tree: states[k].tree.put(
                current,
                TreeView::<C, N, V, P>::from_element(element, states[k].ids).0,
            ),
            ..states[k]
        }),
        demands.subrange(
            k,
            k + 1 + create_demands::<C, N, V, P, A, F, K>(
                TreeView::<C, N, V, P>::from_element(element, states[k].ids).0,
                ctx,
            ).len() + remove_demands::<C, N, V, P, A, F, K>(tree, ctx.parent).len(),
        ) == seq![demands[k]] + create_demands::<C, N, V, P, A, F, K>(
            TreeView::<C, N, V, P>::from_element(element, states[k].ids).0,
            ctx,
        ) + remove_demands::<C, N, V, P, A, F, K>(tree, ctx.parent),
{
    let pre = states[k];
    let post = states[k + 1];
    let ids = pre.ids;
    let fresh = TreeView::<C, N, V, P>::from_element(element, ids).0;
    let removal = ItemView::<C, N, V, P>::Remove { current: tree, parent: ctx.parent };
    lemma_fresh_plain::<C, N, V, P>(element, ids);
    pre.tree.lemma_at_put(current, fresh);
    assert(post.items.drop_last() =~= rest.push(removal));
    lemma_create_nodes(states, demands, k + 1, current, ctx, fresh);
    let created = k + 1 + create_demands::<C, N, V, P, A, F, K>(fresh, ctx).len();
    lemma_nothing_unmounted(tree);
    assert(rest.push(removal).drop_last() =~= rest);
    lemma_remove_subtree(states, demands, created, tree, ctx.parent);
    let removed = created + remove_demands::<C, N, V, P, A, F, K>(tree, ctx.parent).len();
    assert(pre.cleared + Seq::<u64>::empty() =~= pre.cleared);
    assert(demands.subrange(k, k + 1) =~= seq![demands[k]]);
    lemma_run_adds(demands, k, k + 1, created);
    lemma_run_adds(demands, k, created, removed);
}

/// The children of a node after they were held against plain descriptions:
/// as many as the descriptions, the kept ones as they were, the others the
/// fresh subtrees of their descriptions, made without using an identifier.
/// Once the kept ones are held against their descriptions, they are what the
/// descriptions describe.
proof fn lemma_diffed_children<C, N, V, P>(
    children: Seq<TreeView<C, N, V, P>>,
    elements: Seq<ElementView<C, N, V>>,
    ids: u64,
)
    requires
        plain_from(elements, 0),
    ensures
        elements.len() <= usize::MAX,
        diffed_children(children, elements, ids).1 == ids,
        diffed_children(children, elements, ids).0.len() == elements.len(),
        forall|j: int|
            0 <= j < kept(children.len() as int, elements.len() as int) ==> (
            #[trigger] diffed_children(children, elements, ids).0[j]) == children[j],
        forall|j: int|
            kept(children.len() as int, elements.len() as int) <= j < elements.len() ==> (
            #[trigger] diffed_children(children, elements, ids).0[j]) == TreeView::<
                C,
                N,
                V,
                P,
            >::from_element(elements[j], ids).0,
        settled_children(diffed_children(children, elements, ids).0, children, elements, ids, 0)
            == reconciled_children(children, elements, ids),
{
    let keep = kept(children.len() as int, elements.len() as int);
    let kids = diffed_children(children, elements, ids).0;
    let beyond = elements.skip(keep);
    lemma_plain_each(elements, 0, 0);
    assert forall|i: int| 0 <= i < beyond.len() implies plain(#[trigger] beyond[i]) by {
        lemma_plain_each(elements, 0, keep + i);
    }
    lemma_plain_all(beyond, 0);
    lemma_fresh_plain_all::<C, N, V, P>(beyond, ids, beyond.len() as int);
    assert(beyond.take(beyond.len() as int) =~= beyond);
    let fresh = TreeView::<C, N, V, P>::from_elements(beyond, ids).0;
    assert(kids == children.take(keep) + fresh);
    assert forall|j: int| keep <= j < elements.len() implies (#[trigger] kids[j]) == TreeView::<
        C,
        N,
        V,
        P,
    >::from_element(elements[j], ids).0 by {
        assert(kids[j] == fresh[j - keep]);
        assert(beyond[j - keep] == elements[j]);
    }
    assert(settled_children(kids, children, elements, ids, 0) =~= reconciled_children(
        children,
        elements,
        ids,
    ));
}

/// The steps after the one that took the update of a node without
/// components off the work list and held its children against the plain
/// children of the description.  `shell` is the node as the description has
/// it, without its children.
proof fn lemma_diffed_plain<
    C: AnyComponent,
    N,
    V,
    P,
    U: FnOnce(Arc<V>) -> Arc<V>,
    A,
    F: FnOnce(A) -> K,
    K: FnOnce(),
>(
    states: Seq<LoopView<C, N, V, P, U, A, F, K>>,
    demands: Seq<DemandView<C, N, V, P, A, F, K>>,
    k: int,
    current: Seq<usize>,
    children: Seq<TreeView<C, N, V, P>>,
    elements: Seq<ElementView<C, N, V>>,
    ctx: ContextView<N, V>,
    rest: Seq<ItemView<C, N, V, P>>,
    tree: TreeView<C, N, V, P>,
    shell: TreeView<C, N, V, P>,
)
    requires
        follows(states, demands),
        0 <= k,
        k + 1 + diff_demands::<C, N, V, P, A, F, K>(children, elements, ctx, states[k].ids).len()
            <= demands.len(),
        states[k].awaiting is None,
        states[k].tree.at(current) == Some(tree),
        shell !is Component,
        (LoopView { items: rest, ..states[k] }).diffed(
            current,
            children,
            elements,
            ctx,
            rebuilt(shell, diffed_children(children, elements, states[k].ids).0),
            states[k + 1],
        ),
        nodes_only_from(children, 0),
        plain_from(elements, 0),
    ensures
        states[k + 1 + diff_demands::<C, N, V, P, A, F, K>(
            children,
            elements,
            ctx,
            states[k].ids,
        ).len()] == (LoopView {
            items: rest,
            tree: states[k].tree.put(
                current,
                rebuilt(shell, reconciled_children(children, elements, states[k].ids)),
            ),
            ..states[k]
        }),
        demands.subrange(
            k,
            k + 1 + diff_demands::<C, N, V, P, A, F, K>(
                children,
                elements,
                ctx,
                states[k].ids,
            ).len(),
        ) == seq![demands[k]] + diff_demands::<C, N, V, P, A, F, K>(
            children,
            elements,
            ctx,
            states[k].ids,
        ),
    decreases elements, 2int,
{
    let pre = states[k];
    let post = states[k + 1];
    let ids = pre.ids;
    let n = children.len() as int;
    let e = elements.len() as int;
    let keep = kept(n, e);
    let kids = diffed_children(children, elements, ids).0;
    let node = rebuilt(shell, kids);
    let gone = removals(children, keep, ctx.parent);
    let made = creations::<C, N, V, P>(current, n, e, ctx);
    let held = updates(current, children, elements, keep, ctx);
    let part_one = update_demands_from::<C, N, V, P, A, F, K>(children, elements, ctx, ids, 0);
    let part_two = create_demands_each::<C, N, V, P, A, F, K>(elements, ctx, ids, n);
    let part_three = remove_demands_each::<C, N, V, P, A, F, K>(children, ctx.parent, e);

    lemma_diffed_children::<C, N, V, P>(children, elements, ids);
    assert(post.ids == ids);

    // the kept children are held against their descriptions
    pre.tree.lemma_at_put(current, node);
    assert(held.take(keep) =~= held);
    assert(post.items =~= (rest + gone + made) + held.take(keep - 0));
    assert forall|j: int| 0 <= j < keep implies node.child(j) == Some(#[trigger] children[j]) by {
        assert(kids[j] == children[j]);
    }
    lemma_update_children(
        states,
        demands,
        k + 1,
        current,
        children,
        elements,
        ctx,
        ids,
        rest + gone + made,
        node,
        0,
    );
    let one = k + 1 + part_one.len();
    lemma_settled(shell, kids, children, elements, ids, 0);
    let done = rebuilt(shell, reconciled_children(children, elements, ids));
    pre.tree.lemma_put_put(current, node, done);
    let settled_tree = pre.tree.put(current, done);
    assert(states[one].tree == settled_tree);

    // the fresh children are created
    let two = one + part_two.len();
    if n <= e {
        assert(made.take(e - n) =~= made);
        assert(states[one].items =~= (rest + gone) + made.take(e - n));
        pre.tree.lemma_at_put(current, done);
        assert forall|i: int| n <= i < e implies settled_tree.at(
            #[trigger] current.push(i as usize),
        ) == Some(TreeView::<C, N, V, P>::from_element(elements[i], ids).0) by {
            lemma_at_push(settled_tree, current, done, i as usize);
        }
        lemma_create_each(states, demands, one, current, elements, ctx, ids, rest + gone, n, n);
    } else {
        assert(made =~= Seq::<ItemView<C, N, V, P>>::empty());
        assert(states[one].items =~= rest + gone);
        assert(part_two =~= Seq::<DemandView<C, N, V, P, A, F, K>>::empty());
    }

    // the dropped children are removed
    if e <= n {
        assert(gone.take(n - keep) =~= gone);
        assert(states[two].items =~= rest + gone.take(n - e));
        lemma_remove_each(states, demands, two, children, ctx.parent, rest, keep, e);
    } else {
        assert(gone =~= Seq::<ItemView<C, N, V, P>>::empty());
        assert(states[two].items =~= rest);
        assert(part_three =~= Seq::<DemandView<C, N, V, P, A, F, K>>::empty());
    }
    let three = two + part_three.len();
    assert(demands.subrange(k, k + 1) =~= seq![demands[k]]);
    lemma_run_adds(demands, k + 1, one, two);
    lemma_run_adds(demands, k + 1, two, three);
    lemma_run_adds(demands, k, k + 1, three);
}

/// A list of children that is held against a list of descriptions at least
/// as long has nothing removed: the host is asked to bring the children that
/// are there up to date and then to create the fresh subtrees of the
/// descriptions beyond them, and nothing else.
pub proof fn lemma_grow_demands<C, N, V, P, A, F: FnOnce(A) -> K, K: FnOnce()>(
    children: Seq<TreeView<C, N, V, P>>,
    elements: Seq<ElementView<C, N, V>>,
    ctx: ContextView<N, V>,
    ids: u64,
)
    requires
        children.len() <= elements.len(),
    ensures
        diff_demands::<C, N, V, P, A, F, K>(children, elements, ctx, ids) == update_demands_from::<
            C,
            N,
            V,
            P,
            A,
            F,
            K,
        >(children, elements, ctx, ids, 0) + create_demands_each::<C, N, V, P, A, F, K>(
            elements,
            ctx,
            ids,
            children.len() as int,
        ),
        children.len() == elements.len() ==> diff_demands::<C, N, V, P, A, F, K>(
            children,
            elements,
            ctx,
            ids,
        ) == update_demands_from::<C, N, V, P, A, F, K>(children, elements, ctx, ids, 0),
        children.len() + 1 == elements.len() ==> diff_demands::<C, N, V, P, A, F, K>(
            children,
            elements,
            ctx,
            ids,
        ) == update_demands_from::<C, N, V, P, A, F, K>(children, elements, ctx, ids, 0)
            + create_demands::<C, N, V, P, A, F, K>(
            TreeView::<C, N, V, P>::from_element(elements.last(), ids).0,
            ctx,
        ),
{
    let first = update_demands_from::<C, N, V, P, A, F, K>(children, elements, ctx, ids, 0);
    let second = create_demands_each::<C, N, V, P, A, F, K>(
        elements,
        ctx,
        ids,
        children.len() as int,
    );
    let third = remove_demands_each::<C, N, V, P, A, F, K>(
        children,
        ctx.parent,
        elements.len() as int,
    );
    assert(third =~= Seq::<DemandView<C, N, V, P, A, F, K>>::empty());
    assert(first + second + third =~= first + second);
    if children.len() == elements.len() {
        assert(first + second =~= first);
    }
    if children.len() + 1 == elements.len() {
        let only = create_demands::<C, N, V, P, A, F, K>(
            TreeView::<C, N, V, P>::from_element(elements.last(), ids).0,
            ctx,
        );
        assert(create_demands_each::<C, N, V, P, A, F, K>(
            elements,
            ctx,
            ids,
            children.len() as int + 1,
        ) =~= Seq::<DemandView<C, N, V, P, A, F, K>>::empty());
        assert(second =~= only);
    }
}

/// A list of children that is held against a list of descriptions at most
/// as long has nothing created: the host is asked to bring the children that
/// stay up to date and then to remove the children beyond them, and nothing
/// else.
pub proof fn lemma_shrink_demands<C, N, V, P, A, F: FnOnce(A) -> K, K: FnOnce()>(
    children: Seq<TreeView<C, N, V, P>>,
    elements: Seq<ElementView<C, N, V>>,
    ctx: ContextView<N, V>,
    ids: u64,
)
    requires
        elements.len() <= children.len(),
    ensures
        diff_demands::<C, N, V, P, A, F, K>(children, elements, ctx, ids) == update_demands_from::<
            C,
            N,
            V,
            P,
            A,
            F,
            K,
        >(children, elements, ctx, ids, 0) + remove_demands_each::<C, N, V, P, A, F, K>(
            children,
            ctx.parent,
            elements.len() as int,
        ),
        elements.len() + 1 == children.len() ==> diff_demands::<C, N, V, P, A, F, K>(
            children,
            elements,
            ctx,
            ids,
        ) == update_demands_from::<C, N, V, P, A, F, K>(children, elements, ctx, ids, 0)
            + remove_demands::<C, N, V, P, A, F, K>(children.last(), ctx.parent),
{
    let first = update_demands_from::<C, N, V, P, A, F, K>(children, elements, ctx, ids, 0);
    let second = create_demands_each::<C, N, V, P, A, F, K>(
        elements,
        ctx,
        ids,
        children.len() as int,
    );
    let third = remove_demands_each::<C, N, V, P, A, F, K>(
        children,
        ctx.parent,
        elements.len() as int,
    );
    assert(second =~= Seq::<DemandView<C, N, V, P, A, F, K>>::empty());
    assert(first + second + third =~= first + third);
    if elements.len() + 1 == children.len() {
        let only = remove_demands::<C, N, V, P, A, F, K>(children.last(), ctx.parent);
        assert(remove_demands_each::<C, N, V, P, A, F, K>(
            children,
            ctx.parent,
            elements.len() as int + 1,
        ) =~= Seq::<DemandView<C, N, V, P, A, F, K>>::empty());
        assert(third =~= only);
    }
}

/// The node has the shape of the description at its top: it is of the same
/// kind, holds what the description holds, and has as many children.
pub open spec fn shaped<C, N, V, P>(
    node: TreeView<C, N, V, P>,
    element: ElementView<C, N, V>,
) -> bool {
    match (node, element) {
        (TreeView::Component(_), ElementView::Component(_)) => true,
        (TreeView::Node(output, children), ElementView::Node(payload, elements)) => {
            *output == payload && children.len() == elements.len()
        },
        (TreeView::Fragment(children), ElementView::Fragment(elements)) => {
            children.len() == elements.len()
        },
        (TreeView::Provider(k, v, children), ElementView::Provider(key, value, elements)) => {
            k == key && v == value && children.len() == elements.len()
        },
        _ => false,
    }
}

/// The tree follows the description: whatever stood at a place, once it was
/// held against a description the node at that place has the shape of the
/// description, with or without components.
pub proof fn lemma_updated_shaped<
    C: AnyComponent,
    N,
    V,
    P,
    U: FnOnce(Arc<V>) -> Arc<V>,
    A,
    F: FnOnce(A) -> K,
    K: FnOnce(),
>(
    pre: LoopView<C, N, V, P, U, A, F, K>,
    current: Seq<usize>,
    next: ElementView<C, N, V>,
    ctx: ContextView<N, V>,
    post: LoopView<C, N, V, P, U, A, F, K>,
    demand: DemandView<C, N, V, P, A, F, K>,
)
    requires
        pre.tree.at(current) is Some,
        pre.updated(current, next, ctx, post, demand),
    ensures
        post.tree.at(current) is Some,
        shaped(post.tree.at(current)->0, next),
{
    let node = pre.tree.at(current)->0;
    let fresh = TreeView::<C, N, V, P>::from_element(next, pre.ids).0;
    pre.tree.lemma_at_put(current, fresh);
    match next {
        ElementView::Component(_) => {},
        ElementView::Node(_, elements) => {
            TreeView::<C, N, V, P>::lemma_from_elements_len(elements, pre.ids);
        },
        ElementView::Fragment(elements) => {
            TreeView::<C, N, V, P>::lemma_from_elements_len(elements, pre.ids);
        },
        ElementView::Provider(_, _, elements) => {
            TreeView::<C, N, V, P>::lemma_from_elements_len(elements, pre.ids);
        },
    }
    match (node, next) {
        (TreeView::Component(instance), ElementView::Component(component)) => {
            let diff = choose|diff: ComponentDiff| #[trigger]
                compared(component, instance.component, diff) && pre.compared_to(
                    current,
                    instance,
                    component,
                    ctx,
                    diff,
                    post,
                    demand,
                );
            if diff is NewProps {
                let hook = demand->Render_hook;
                pre.tree.lemma_at_put(
                    current,
                    TreeView::Component(
                        InstanceView { state: hook.state, component, ..instance },
                    ),
                );
            }
        },
        (TreeView::Node(_, children), ElementView::Node(payload, elements)) => {
            let keep = kept(children.len() as int, elements.len() as int);
            TreeView::<C, N, V, P>::lemma_from_elements_len(elements.skip(keep), pre.ids);
            pre.tree.lemma_at_put(
                current,
                TreeView::Node(Arc::new(payload), diffed_children(children, elements, pre.ids).0),
            );
        },
        (TreeView::Fragment(children), ElementView::Fragment(elements)) => {
            let keep = kept(children.len() as int, elements.len() as int);
            TreeView::<C, N, V, P>::lemma_from_elements_len(elements.skip(keep), pre.ids);
            pre.tree.lemma_at_put(
                current,
                TreeView::Fragment(diffed_children(children, elements, pre.ids).0),
            );
        },
        (TreeView::Provider(_, _, children), ElementView::Provider(key, value, elements)) => {
            let keep = kept(children.len() as int, elements.len() as int);
            TreeView::<C, N, V, P>::lemma_from_elements_len(elements.skip(keep), pre.ids);
            pre.tree.lemma_at_put(
                current,
                TreeView::Provider(key, value, diffed_children(children, elements, pre.ids).0),
            );
        },
        _ => {},
    }
}

} // verus!
