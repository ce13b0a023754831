//! The render loop: how every kind of work changes the persistent tree, what
//! work it leaves, and what it asks of the host.

use crate::assoc::put;
use crate::channel::{clone_sender, try_recv, unbounded, waiting};
use crate::component::{compared, AnyComponent, ComponentDiff};
use crate::effect::{Cleanup, Effect};
use crate::element::{Element, ElementView};
use crate::hook::{Hook, HookView};
use crate::render_queue::{ContextView, ItemView, RenderContext, RenderQueue, RenderQueueItem};
use crate::state::StateUpdate;
use crate::suspense::RunOrSuspendResult;
use crate::tree::{InstanceView, TreeComponent, TreeNode, TreeView};
use async_channel::{Receiver, Sender};
use std::collections::HashMap;
use std::sync::Arc;
use vstd::prelude::*;

verus! {

/// A copy of a path.
pub fn copy_path(path: &Vec<usize>) -> (r: Vec<usize>)
    ensures
        r@ == path@,
{
    let mut r: Vec<usize> = Vec::new();
    let mut k: usize = 0;
    while k < path.len()
        invariant
            k <= path@.len(),
            r@ == path@.take(k as int),
        decreases path@.len() - k,
    {
        r.push(path[k]);
        k = k + 1;
        assert(path@.take(k as int) =~= path@.take(k - 1).push(path@[k - 1]));
    }
    assert(path@.take(path@.len() as int) =~= path@);
    r
}

/// The path to the `i`-th child of the node at `path`.
pub fn child_path(path: &Vec<usize>, i: usize) -> (r: Vec<usize>)
    ensures
        r@ == path@.push(i),
{
    let mut r = copy_path(path);
    r.push(i);
    r
}

/// The node that follows child `i` of a list of children in the output:
/// the first output node of the child after it, or `last` for the last
/// child.  Where the children do not stand for themselves in the output
/// (`chain` is false) it is `last` for every child.
pub open spec fn sibling_for<C, N, V, P>(
    children: Seq<TreeView<C, N, V, P>>,
    i: int,
    last: Option<Arc<N>>,
    chain: bool,
) -> Option<Arc<N>> {
    if chain && i + 1 < children.len() {
        children[i + 1].first_node()
    } else {
        last
    }
}

/// The item that asks for the subtree at `current` to be created, or
/// visited when `reload` is set.
pub open spec fn visit<C, N, V, P>(reload: bool, current: Seq<usize>, ctx: ContextView<N, V>) -> ItemView<
    C,
    N,
    V,
    P,
> {
    if reload {
        ItemView::Reload { current, ctx }
    } else {
        ItemView::Create { current, ctx }
    }
}

/// The items that send the work on to every child of the node at `path`, in
/// the order in which they are put on the work list: the last child first, so
/// that the first child is taken first.  Every child gets the surroundings
/// `base` with the node that follows it.
pub open spec fn fanned<C, N, V, P>(
    reload: bool,
    path: Seq<usize>,
    children: Seq<TreeView<C, N, V, P>>,
    base: ContextView<N, V>,
    last: Option<Arc<N>>,
    chain: bool,
) -> Seq<ItemView<C, N, V, P>> {
    Seq::new(
        children.len(),
        |j: int|
            {
                let i = children.len() - 1 - j;
                visit(
                    reload,
                    path.push(i as usize),
                    ContextView { sibling: sibling_for(children, i, last, chain), ..base },
                )
            },
    )
}

/// Sends the work on to every child of the node at `path`.
pub fn fan<C, N, V, P, A, F: FnOnce(A) -> K, K: FnOnce()>(
    reload: bool,
    path: &Vec<usize>,
    children: &Vec<TreeNode<C, N, V, P>>,
    base: &RenderContext<N, V>,
    last: Option<Arc<N>>,
    chain: bool,
    queue: &mut RenderQueue<C, N, V, P, A, F, K>,
)
    ensures
        final(queue).items() == old(queue).items() + fanned(
            reload,
            path@,
            TreeNode::views(children@),
            base@,
            last,
            chain,
        ),
        final(queue).same_effects(old(queue)),
{
    let ghost all = fanned::<C, N, V, P>(
        reload,
        path@,
        TreeNode::views(children@),
        base@,
        last,
        chain,
    );
    let n = children.len();
    let mut i: usize = n;
    let mut sibling: Option<Arc<N>> = match &last {
        Some(node) => Some(node.clone()),
        None => None,
    };
    assert(old(queue).items() + all.take(0) =~= old(queue).items());
    while i > 0
        invariant
            i <= n,
            n == children@.len(),
            all == fanned::<C, N, V, P>(
                reload,
                path@,
                TreeNode::views(children@),
                base@,
                last,
                chain,
            ),
            queue.items() == old(queue).items() + all.take(n - i),
            queue.same_effects(old(queue)),
            i > 0 ==> sibling == sibling_for(TreeNode::views(children@), i - 1, last, chain),
        decreases i,
    {
        i = i - 1;
        let current = child_path(path, i);
        let ctx = base.with_sibling(sibling);
        if reload {
            queue.reload(current, ctx);
        } else {
            queue.create(current, ctx);
        }
        sibling =
        if chain {
            children[i].get_first_node()
        } else {
            match &last {
                Some(node) => Some(node.clone()),
                None => None,
            }
        };
        proof {
            let j = n - 1 - i;
            assert(all.take(j + 1) =~= all.take(j).push(all[j]));
            assert(old(queue).items() + all.take(j + 1) =~= (old(queue).items() + all.take(
                j,
            )).push(all[j]));
        }
    }
    assert(all.take(n as int) =~= all);
}

/// How many children a list keeps when it is held against a new list: the
/// length of the shorter of the two.
pub open spec fn kept(old_len: int, new_len: int) -> int {
    if old_len <= new_len {
        old_len
    } else {
        new_len
    }
}

/// How many positions lie in `from..to`.
pub open spec fn span(from: int, to: int) -> nat {
    if from < to {
        (to - from) as nat
    } else {
        0
    }
}

/// The items that tear down the children from position `keep` on, in the
/// order in which they are put on the work list: the last child first.
pub open spec fn removals<C, N, V, P>(
    children: Seq<TreeView<C, N, V, P>>,
    keep: int,
    parent: Arc<N>,
) -> Seq<ItemView<C, N, V, P>> {
    Seq::new(
        span(keep, children.len() as int),
        |j: int| ItemView::Remove { current: children[children.len() - 1 - j], parent },
    )
}

/// The items that create the children at the positions `from..to` of the node
/// at `path`, in the order in which they are put on the work list: the last
/// position first.
pub open spec fn creations<C, N, V, P>(
    path: Seq<usize>,
    from: int,
    to: int,
    ctx: ContextView<N, V>,
) -> Seq<ItemView<C, N, V, P>> {
    Seq::new(
        span(from, to),
        |j: int| ItemView::Create { current: path.push((to - 1 - j) as usize), ctx },
    )
}

/// The items that hold the first `keep` children of the node at `path`
/// against the descriptions at the same positions, in the order in which
/// they are put on the work list: the last position first.  Each child is
/// told the node that follows it: the first output node of the child after it
/// or, for the last of them, the node that follows the whole list.
pub open spec fn updates<C, N, V, P>(
    path: Seq<usize>,
    children: Seq<TreeView<C, N, V, P>>,
    elements: Seq<ElementView<C, N, V>>,
    keep: int,
    ctx: ContextView<N, V>,
) -> Seq<ItemView<C, N, V, P>> {
    Seq::new(
        span(0, keep),
        |j: int|
            {
                let i = keep - 1 - j;
                ItemView::Update {
                    current: path.push(i as usize),
                    next: elements[i],
                    ctx: ContextView {
                        sibling: sibling_for(children.take(keep), i, ctx.sibling, true),
                        ..ctx
                    },
                }
            },
    )
}

/// The children that a list has after it was held against a new list of
/// descriptions, and the next identifier that is free: the children that
/// have a description at their position, followed by fresh subtrees for the
/// descriptions beyond them.
pub open spec fn diffed_children<C, N, V, P>(
    children: Seq<TreeView<C, N, V, P>>,
    elements: Seq<ElementView<C, N, V>>,
    ids: u64,
) -> (Seq<TreeView<C, N, V, P>>, u64) {
    let keep = kept(children.len() as int, elements.len() as int);
    let (fresh, free) = TreeView::<C, N, V, P>::from_elements(elements.skip(keep), ids);
    (children.take(keep) + fresh, free)
}

/// The work that holding the children of the node at `path` against a new
/// list of descriptions leaves, in the order in which it is put on the work
/// list: the removals, then the creations, then the updates.  The work list
/// is last in first out, so the updates are taken first, from the first
/// child on.
pub open spec fn diffed_items<C, N, V, P>(
    path: Seq<usize>,
    children: Seq<TreeView<C, N, V, P>>,
    elements: Seq<ElementView<C, N, V>>,
    ctx: ContextView<N, V>,
) -> Seq<ItemView<C, N, V, P>> {
    let keep = kept(children.len() as int, elements.len() as int);
    removals(children, keep, ctx.parent) + creations(
        path,
        children.len() as int,
        elements.len() as int,
        ctx,
    ) + updates(path, children, elements, keep, ctx)
}

/// Holds the children of the node at `path` against a new list of
/// descriptions, position by position.
///
/// Children beyond the new list leave the tree and are queued for removal,
/// the last one first.  Descriptions beyond the old list become fresh
/// children and are queued for creation.  Every child that has a description
/// at its position stays where it is and is queued for an update with that
/// description.
pub fn update_children<C, N, V, P, A, F: FnOnce(A) -> K, K: FnOnce()>(
    tree_nodes: &mut Vec<TreeNode<C, N, V, P>>,
    elements: Vec<Element<C, N, V>>,
    path: &Vec<usize>,
    render_queue: &mut RenderQueue<C, N, V, P, A, F, K>,
    ctx: RenderContext<N, V>,
    ids: &mut u64,
)
    ensures
        (TreeNode::views(final(tree_nodes)@), *final(ids)) == diffed_children(
            TreeNode::views(old(tree_nodes)@),
            Element::views(elements@),
            *old(ids),
        ),
        final(render_queue).items() == old(render_queue).items() + diffed_items(
            path@,
            TreeNode::views(old(tree_nodes)@),
            Element::views(elements@),
            ctx@,
        ),
        final(render_queue).same_effects(old(render_queue)),
{
    let ghost before = TreeNode::views(tree_nodes@);
    let ghost next = Element::views(elements@);
    let ghost keep = kept(before.len() as int, next.len() as int);
    let ghost start = render_queue.items();
    let old_len = tree_nodes.len();
    let new_len = elements.len();
    let ghost gone = removals::<C, N, V, P>(before, keep, ctx@.parent);
    assert(start + gone.take(0) =~= start);
    while tree_nodes.len() > new_len
        invariant
            new_len == next.len(),
            old_len == before.len(),
            before == TreeNode::views(old(tree_nodes)@),
            keep == kept(before.len() as int, next.len() as int),
            keep <= tree_nodes@.len() <= old_len,
            TreeNode::views(tree_nodes@) == before.take(tree_nodes@.len() as int),
            gone == removals::<C, N, V, P>(before, keep, ctx@.parent),
            render_queue.items() == start + gone.take(old_len - tree_nodes@.len()),
            render_queue.same_effects(old(render_queue)),
            *ids == *old(ids),
        decreases tree_nodes@.len(),
    {
        let ghost j = old_len - tree_nodes@.len();
        let ghost nodes = tree_nodes@;
        let node = tree_nodes.pop().unwrap();
        render_queue.remove(node, ctx.parent.clone());
        proof {
            assert(TreeNode::views(tree_nodes@) =~= before.take(tree_nodes@.len() as int));
            assert(node@ == TreeNode::views(nodes)[nodes.len() - 1]);
            assert(gone.take(j + 1) =~= gone.take(j).push(gone[j]));
            assert(start + gone.take(j + 1) =~= (start + gone.take(j)).push(gone[j]));
        }
    }
    assert(gone.take(gone.len() as int) =~= gone);
    let ghost cleared = render_queue.items();
    let mut elements = elements;
    let extra = if new_len > old_len {
        elements.split_off(old_len)
    } else {
        Vec::new()
    };
    assert(Element::views(extra@) =~= next.skip(keep));
    assert(Element::views(elements@) =~= next.take(keep));
    let mut fresh = TreeNode::from_all(extra, ids);
    let ghost kept_nodes = tree_nodes@;
    let ghost fresh_nodes = fresh@;
    tree_nodes.append(&mut fresh);
    assert(TreeNode::views(tree_nodes@) =~= before.take(keep) + TreeNode::views(fresh_nodes));
    let ghost made = creations::<C, N, V, P>(path@, old_len as int, new_len as int, ctx@);
    let mut k: usize = new_len;
    assert(cleared + made.take(0) =~= cleared);
    while k > old_len
        invariant
            new_len == next.len(),
            old_len == before.len(),
            old_len <= k <= new_len || (new_len <= old_len && k == new_len),
            made == creations::<C, N, V, P>(path@, old_len as int, new_len as int, ctx@),
            new_len > old_len ==> render_queue.items() == cleared + made.take(new_len - k),
            new_len <= old_len ==> render_queue.items() == cleared,
            render_queue.same_effects(old(render_queue)),
        decreases k,
    {
        k = k - 1;
        render_queue.create(child_path(path, k), ctx.clone());
        proof {
            let j = new_len - 1 - k;
            assert(made.take(j + 1) =~= made.take(j).push(made[j]));
            assert(cleared + made.take(j + 1) =~= (cleared + made.take(j)).push(made[j]));
        }
    }
    assert(render_queue.items() == cleared + made) by {
        if new_len > old_len {
            assert(made.take(made.len() as int) =~= made);
        } else {
            assert(cleared + made =~= cleared);
        }
    }
    let ghost created = render_queue.items();
    let ghost held = updates::<C, N, V, P>(path@, before, next, keep, ctx@);
    let mut sibling: Option<Arc<N>> = match &ctx.sibling {
        Some(node) => Some(node.clone()),
        None => None,
    };
    assert(created + held.take(0) =~= created);
    while elements.len() > 0
        invariant
            keep == kept(before.len() as int, next.len() as int),
            new_len == next.len(),
            old_len == before.len(),
            elements@.len() <= keep,
            keep <= tree_nodes@.len(),
            Element::views(elements@) == next.take(elements@.len() as int),
            TreeNode::views(tree_nodes@).take(keep) == before.take(keep),
            held == updates::<C, N, V, P>(path@, before, next, keep, ctx@),
            render_queue.items() == created + held.take(keep - elements@.len()),
            render_queue.same_effects(old(render_queue)),
            elements@.len() > 0 ==> sibling == sibling_for(
                before.take(keep),
                elements@.len() - 1,
                ctx@.sibling,
                true,
            ),
        decreases elements@.len(),
    {
        let ghost j = keep - elements@.len();
        let ghost list = elements@;
        let element = elements.pop().unwrap();
        let i = elements.len();
        let following = tree_nodes[i].get_first_node();
        render_queue.update(child_path(path, i), element, ctx.with_sibling(sibling));
        sibling = following;
        proof {
            assert(Element::views(elements@) =~= next.take(elements@.len() as int));
            assert(element@ == Element::views(list)[i as int]);
            assert(TreeNode::views(tree_nodes@).take(keep)[i as int] == tree_nodes@[i as int]@);
            assert(held.take(j + 1) =~= held.take(j).push(held[j]));
            assert(created + held.take(j + 1) =~= (created + held.take(j)).push(held[j]));
        }
    }
    assert(held.take(held.len() as int) =~= held);
    assert(render_queue.items() =~= start + diffed_items(path@, before, next, ctx@));
}

/// A list that is held against a list at least as long loses no child: the
/// children stay as they are, exactly the descriptions beyond them are
/// created, and nothing is removed.
pub proof fn lemma_children_grow<C, N, V, P>(
    path: Seq<usize>,
    children: Seq<TreeView<C, N, V, P>>,
    elements: Seq<ElementView<C, N, V>>,
    ctx: ContextView<N, V>,
    ids: u64,
)
    requires
        children.len() <= elements.len(),
    ensures
        diffed_items(path, children, elements, ctx) == creations::<C, N, V, P>(
            path,
            children.len() as int,
            elements.len() as int,
            ctx,
        ) + updates(path, children, elements, children.len() as int, ctx),
        creations::<C, N, V, P>(path, children.len() as int, elements.len() as int, ctx).len()
            == elements.len() - children.len(),
        forall|j: int|
            0 <= j < elements.len() - children.len() ==> (#[trigger] creations::<C, N, V, P>(
                path,
                children.len() as int,
                elements.len() as int,
                ctx,
            )[j]) == (ItemView::<C, N, V, P>::Create {
                current: path.push((elements.len() - 1 - j) as usize),
                ctx,
            }),
        diffed_children(children, elements, ids).0.len() == elements.len(),
        diffed_children(children, elements, ids).0.take(children.len() as int) == children,
{
    let keep = kept(children.len() as int, elements.len() as int);
    assert(keep == children.len());
    assert(removals(children, keep, ctx.parent) =~= Seq::<ItemView<C, N, V, P>>::empty());
    assert(diffed_items(path, children, elements, ctx) =~= creations::<C, N, V, P>(
        path,
        children.len() as int,
        elements.len() as int,
        ctx,
    ) + updates(path, children, elements, children.len() as int, ctx));
    let fresh = TreeView::<C, N, V, P>::from_elements(elements.skip(keep), ids).0;
    TreeView::<C, N, V, P>::lemma_from_elements_len(elements.skip(keep), ids);
    assert(children.take(keep) =~= children);
    assert((children + fresh).take(children.len() as int) =~= children);
}

/// A list that is held against a list at most as long gains no child:
/// exactly the children beyond the new list are removed, the last one first,
/// nothing is created, no identifier is used, and the children that are kept
/// stay as they are.
pub proof fn lemma_children_shrink<C, N, V, P>(
    path: Seq<usize>,
    children: Seq<TreeView<C, N, V, P>>,
    elements: Seq<ElementView<C, N, V>>,
    ctx: ContextView<N, V>,
    ids: u64,
)
    requires
        elements.len() <= children.len(),
    ensures
        diffed_items(path, children, elements, ctx) == removals(
            children,
            elements.len() as int,
            ctx.parent,
        ) + updates(path, children, elements, elements.len() as int, ctx),
        removals(children, elements.len() as int, ctx.parent).len() == children.len()
            - elements.len(),
        forall|j: int|
            0 <= j < children.len() - elements.len() ==> (#[trigger] removals(
                children,
                elements.len() as int,
                ctx.parent,
            )[j]) == (ItemView::<C, N, V, P>::Remove {
                current: children[children.len() - 1 - j],
                parent: ctx.parent,
            }),
        diffed_children(children, elements, ids) == (children.take(elements.len() as int), ids),
{
    let keep = kept(children.len() as int, elements.len() as int);
    assert(keep == elements.len());
    assert(creations::<C, N, V, P>(path, children.len() as int, elements.len() as int, ctx)
        =~= Seq::<ItemView<C, N, V, P>>::empty());
    assert(diffed_items(path, children, elements, ctx) =~= removals(
        children,
        elements.len() as int,
        ctx.parent,
    ) + updates(path, children, elements, elements.len() as int, ctx));
    assert(elements.skip(keep) =~= Seq::<ElementView<C, N, V>>::empty());
    assert(children.take(keep) + Seq::<TreeView<C, N, V, P>>::empty() =~= children.take(keep));
}

/// Every child that is kept gets exactly one update, with the description at
/// its position; the updates are put on the work list from the last kept
/// child down to the first.
pub proof fn lemma_children_kept<C, N, V, P>(
    path: Seq<usize>,
    children: Seq<TreeView<C, N, V, P>>,
    elements: Seq<ElementView<C, N, V>>,
    ctx: ContextView<N, V>,
    i: int,
)
    requires
        0 <= i < kept(children.len() as int, elements.len() as int),
    ensures
        ({
            let keep = kept(children.len() as int, elements.len() as int);
            let held = updates(path, children, elements, keep, ctx);
            &&& held.len() == keep
            &&& held[keep - 1 - i] == (ItemView::<C, N, V, P>::Update {
                current: path.push(i as usize),
                next: elements[i],
                ctx: ContextView {
                    sibling: if i + 1 < keep {
                        children[i + 1].first_node()
                    } else {
                        ctx.sibling
                    },
                    ..ctx
                },
            })
        }),
{
}

/// Puts a fresh subtree for `element` in the place of `node`; the old subtree
/// is queued for removal and the new one for creation.  The work list is
/// last in first out, so the new subtree is created before the old one is
/// torn down.
pub fn replace_node<C, N, V, P, A, F: FnOnce(A) -> K, K: FnOnce()>(
    node: &mut TreeNode<C, N, V, P>,
    element: Element<C, N, V>,
    path: Vec<usize>,
    render_queue: &mut RenderQueue<C, N, V, P, A, F, K>,
    ctx: RenderContext<N, V>,
    ids: &mut u64,
)
    ensures
        (final(node)@, *final(ids)) == TreeView::<C, N, V, P>::from_element(element@, *old(ids)),
        final(render_queue).items() == old(render_queue).items().push(
            ItemView::Remove { current: old(node)@, parent: ctx@.parent },
        ).push(ItemView::Create { current: path@, ctx: ctx@ }),
        final(render_queue).same_effects(old(render_queue)),
{
    let mut old_node = TreeNode::from(element, ids);
    std::mem::swap(node, &mut old_node);
    render_queue.remove(old_node, ctx.parent.clone());
    render_queue.create(path, ctx);
}

/// What the render loop asks of its host after a step.
#[verifier::reject_recursive_types(V)]
#[verifier::reject_recursive_types(U)]
#[verifier::reject_recursive_types(A)]
#[verifier::reject_recursive_types(F)]
#[verifier::reject_recursive_types(K)]
pub enum Demand<C, N, V, P, U: FnOnce(Arc<V>) -> Arc<V>, A, F: FnOnce(A) -> K, K: FnOnce()> {
    /// Realize `node` as a child of `parent`, in front of `sibling` or, without
    /// one, at the end.
    Create { node: Arc<N>, parent: Arc<N>, sibling: Option<Arc<N>> },
    /// Make what realizes `node` realize `next`.
    Update { node: Arc<N>, next: Arc<N> },
    /// Take what realizes `node` out of `parent`.
    Remove { node: Arc<N>, parent: Arc<N> },
    /// Render `component` once with `hook` at hand and report with `rendered`.
    Render { component: Arc<C>, hook: Hook<V, U, A, F, K> },
    /// Look once more at a render that was suspended and report with
    /// `rendered`.
    Resume { pending: P },
    /// Nothing to do outside; step again.
    Continue,
    /// A render is outstanding: `rendered` has to be called first.
    Awaiting,
    /// The work list is empty: the cycle can end.
    Idle,
}

/// The mathematical value of a [`Demand`].
#[verifier::reject_recursive_types(V)]
#[verifier::reject_recursive_types(A)]
#[verifier::reject_recursive_types(F)]
#[verifier::reject_recursive_types(K)]
pub enum DemandView<C, N, V, P, A, F: FnOnce(A) -> K, K: FnOnce()> {
    Create { node: Arc<N>, parent: Arc<N>, sibling: Option<Arc<N>> },
    Update { node: Arc<N>, next: Arc<N> },
    Remove { node: Arc<N>, parent: Arc<N> },
    Render { component: Arc<C>, hook: HookView<V, A, F, K> },
    Resume { pending: P },
    Continue,
    Awaiting,
    Idle,
}

impl<C, N, V, P, U: FnOnce(Arc<V>) -> Arc<V>, A, F: FnOnce(A) -> K, K: FnOnce()> Demand<
    C,
    N,
    V,
    P,
    U,
    A,
    F,
    K,
> {
    pub open spec fn view(&self) -> DemandView<C, N, V, P, A, F, K> {
        match self {
            Demand::Create { node, parent, sibling } => DemandView::Create {
                node: *node,
                parent: *parent,
                sibling: *sibling,
            },
            Demand::Update { node, next } => DemandView::Update { node: *node, next: *next },
            Demand::Remove { node, parent } => DemandView::Remove { node: *node, parent: *parent },
            Demand::Render { component, hook } => DemandView::Render {
                component: *component,
                hook: hook@,
            },
            Demand::Resume { pending } => DemandView::Resume { pending: *pending },
            Demand::Continue => DemandView::Continue,
            Demand::Awaiting => DemandView::Awaiting,
            Demand::Idle => DemandView::Idle,
        }
    }

    /// A demand to render hands out a hook with these channels; every other
    /// demand carries none.
    pub open spec fn carries(&self, signal: Sender<()>, updater: Sender<StateUpdate<V, U>>) -> bool {
        self matches Demand::Render { hook, .. } ==> hook.signal == signal && hook.updater
            == updater
    }
}

/// The render that the loop waits for.
pub struct Awaited<N, V> {
    /// Where the component stands in the tree.
    pub current: Vec<usize>,
    /// The surroundings of the component.
    pub ctx: RenderContext<N, V>,
    /// Whether the render had been suspended before.
    pub resumed: bool,
}

/// The mathematical value of an [`Awaited`].
pub struct AwaitedView<N, V> {
    pub current: Seq<usize>,
    pub ctx: ContextView<N, V>,
    pub resumed: bool,
}

impl<N, V> Awaited<N, V> {
    pub open spec fn view(&self) -> AwaitedView<N, V> {
        AwaitedView { current: self.current@, ctx: self.ctx@, resumed: self.resumed }
    }
}

/// The state of the render loop between two steps.
///
/// The fields are open to the host so that it can look at the tree; it
/// changes them only through the functions of this type.
#[verifier::reject_recursive_types(V)]
#[verifier::reject_recursive_types(U)]
#[verifier::reject_recursive_types(A)]
#[verifier::reject_recursive_types(F)]
#[verifier::reject_recursive_types(K)]
pub struct RenderLoop<C, N, V, P, U: FnOnce(Arc<V>) -> Arc<V>, A, F: FnOnce(A) -> K, K: FnOnce()> {
    /// The output node that everything is mounted under.
    pub root: Arc<N>,
    /// The persistent tree.
    pub tree: TreeNode<C, N, V, P>,
    /// The work list, and the effects and cleanups.
    pub queue: RenderQueue<C, N, V, P, A, F, K>,
    /// The state updates that wait for the next render of their instance.
    pub inbox: HashMap<u64, Vec<StateUpdate<V, U>>>,
    /// The identifier of the next component instance.
    pub ids: u64,
    /// The render that the host owes.
    pub awaiting: Option<Awaited<N, V>>,
    /// Wakes the host's loop.
    pub signal: Sender<()>,
    /// The sending side of the update channel, shared with every hook.
    pub updater: Sender<StateUpdate<V, U>>,
    /// The receiving side of the update channel.
    pub updates: Receiver<StateUpdate<V, U>>,
}

/// The mathematical value of a [`RenderLoop`]: everything but its channels.
#[verifier::reject_recursive_types(V)]
#[verifier::reject_recursive_types(U)]
#[verifier::reject_recursive_types(A)]
#[verifier::reject_recursive_types(F)]
#[verifier::reject_recursive_types(K)]
pub struct LoopView<C, N, V, P, U: FnOnce(Arc<V>) -> Arc<V>, A, F: FnOnce(A) -> K, K: FnOnce()> {
    pub root: Arc<N>,
    pub tree: TreeView<C, N, V, P>,
    pub items: Seq<ItemView<C, N, V, P>>,
    pub effects: Seq<(u64, Seq<(u64, Effect<A, F, K>)>)>,
    pub cleanups: Map<u64, Seq<(u64, Cleanup<K>)>>,
    pub cleared: Seq<u64>,
    pub inbox: Map<u64, Seq<StateUpdate<V, U>>>,
    pub ids: u64,
    pub awaiting: Option<AwaitedView<N, V>>,
    pub signal: Sender<()>,
    pub updater: Sender<StateUpdate<V, U>>,
    pub updates: Receiver<StateUpdate<V, U>>,
}

/// The updates that wait for instance `id`, the oldest first.
pub open spec fn waiting_for<V, U: FnOnce(Arc<V>) -> Arc<V>>(
    inbox: Map<u64, Seq<StateUpdate<V, U>>>,
    id: u64,
) -> Seq<StateUpdate<V, U>> {
    if inbox.contains_key(id) {
        inbox[id]
    } else {
        Seq::empty()
    }
}

/// The items that tear down every child of a node that left the tree, in the
/// order in which they are put on the work list: the first child first.
pub open spec fn teardown<C, N, V, P>(children: Seq<TreeView<C, N, V, P>>, parent: Arc<N>) -> Seq<
    ItemView<C, N, V, P>,
> {
    Seq::new(children.len(), |j: int| ItemView::Remove { current: children[j], parent })
}

impl<C: AnyComponent, N, V, P, U: FnOnce(Arc<V>) -> Arc<V>, A, F: FnOnce(A) -> K, K: FnOnce()> LoopView<
    C,
    N,
    V,
    P,
    U,
    A,
    F,
    K,
> {
    /// The render of the instance at `current` has begun.  The updates that
    /// waited for the instance were applied to its state in their order and
    /// left the inbox; the host is asked to render the component with a hook
    /// that starts from that state, the instance's references and the context
    /// of its surroundings; the loop waits for the answer.
    pub open spec fn begun(
        self,
        current: Seq<usize>,
        ctx: ContextView<N, V>,
        instance: InstanceView<C, N, V, P>,
        post: Self,
        demand: DemandView<C, N, V, P, A, F, K>,
    ) -> bool {
        &&& demand matches DemandView::Render { component, hook }
        &&& component == instance.component
        &&& StateUpdate::folded(waiting_for(self.inbox, instance.id), instance.state, hook.state)
        &&& hook == HookView::<V, A, F, K>::fresh(
            instance.id,
            hook.state,
            instance.refs,
            ctx.context,
        )
        &&& post == (LoopView {
            tree: self.tree.put(
                current,
                TreeView::Component(InstanceView { state: hook.state, ..instance }),
            ),
            inbox: self.inbox.remove(instance.id),
            awaiting: Some(AwaitedView { current, ctx, resumed: false }),
            ..self
        })
    }

    /// A create (or, with `reload`, a visit) of the subtree at `current` was
    /// carried out.
    ///
    /// An output node is created by the host, and the work goes on to its
    /// children; on a visit nothing is asked of the host.  A fragment or a
    /// provider only sends the work on to its children.  A component renders,
    /// except on a visit when no update waits for it: then a suspended render
    /// is looked at again, or else the visit goes on to what the component
    /// rendered.  A path that leads nowhere is dropped.
    pub open spec fn visited(
        self,
        reload: bool,
        current: Seq<usize>,
        ctx: ContextView<N, V>,
        post: Self,
        demand: DemandView<C, N, V, P, A, F, K>,
    ) -> bool {
        match self.tree.at(current) {
            None => post == self && demand == DemandView::<C, N, V, P, A, F, K>::Continue,
            Some(TreeView::Component(instance)) => {
                if reload && waiting_for(self.inbox, instance.id).len() == 0 {
                    match instance.render_result {
                        Some(pending) => {
                            &&& demand == DemandView::<C, N, V, P, A, F, K>::Resume { pending }
                            &&& post == (LoopView {
                                tree: self.tree.put(
                                    current,
                                    TreeView::Component(
                                        InstanceView { render_result: None, ..instance },
                                    ),
                                ),
                                awaiting: Some(AwaitedView { current, ctx, resumed: true }),
                                ..self
                            })
                        },
                        None => match instance.child {
                            Some(_) => {
                                &&& demand == DemandView::<C, N, V, P, A, F, K>::Continue
                                &&& post == (LoopView {
                                    items: self.items.push(
                                        ItemView::Reload { current: current.push(0), ctx },
                                    ),
                                    ..self
                                })
                            },
                            None => self.begun(current, ctx, instance, post, demand),
                        },
                    }
                } else {
                    self.begun(current, ctx, instance, post, demand)
                }
            },
            Some(TreeView::Node(node, children)) => {
                &&& demand == if reload {
                    DemandView::<C, N, V, P, A, F, K>::Continue
                } else {
                    DemandView::<C, N, V, P, A, F, K>::Create {
                        node,
                        parent: ctx.parent,
                        sibling: ctx.sibling,
                    }
                }
                &&& post == (LoopView {
                    items: self.items + fanned(
                        reload,
                        current,
                        children,
                        ContextView { parent: node, sibling: None, context: ctx.context },
                        None,
                        reload,
                    ),
                    ..self
                })
            },
            Some(TreeView::Fragment(children)) => {
                &&& demand == DemandView::<C, N, V, P, A, F, K>::Continue
                &&& post == (LoopView {
                    items: self.items + fanned(reload, current, children, ctx, ctx.sibling, true),
                    ..self
                })
            },
            Some(TreeView::Provider(key, value, children)) => {
                &&& demand == DemandView::<C, N, V, P, A, F, K>::Continue
                &&& post == (LoopView {
                    items: self.items + fanned(
                        reload,
                        current,
                        children,
                        ContextView { context: ctx.context.insert(key, value), ..ctx },
                        ctx.sibling,
                        true,
                    ),
                    ..self
                })
            },
        }
    }

    /// The subtree `node` at `current` gave way to a fresh subtree for
    /// `next`: the old one is queued for removal and the new one for
    /// creation, and a component that stood there has its cleanups queued.
    pub open spec fn replaced(
        self,
        current: Seq<usize>,
        node: TreeView<C, N, V, P>,
        next: ElementView<C, N, V>,
        ctx: ContextView<N, V>,
        post: Self,
    ) -> bool {
        post == (LoopView {
            tree: self.tree.put(current, TreeView::<C, N, V, P>::from_element(next, self.ids).0),
            ids: TreeView::<C, N, V, P>::from_element(next, self.ids).1,
            items: self.items.push(ItemView::Remove { current: node, parent: ctx.parent }).push(
                ItemView::Create { current, ctx },
            ),
            cleared: match node {
                TreeView::Component(instance) => self.cleared.push(instance.id),
                _ => self.cleared,
            },
            ..self
        })
    }

    /// The children of the node at `current` were held against `elements`
    /// and the node became `node`, which holds the resulting children.
    pub open spec fn diffed(
        self,
        current: Seq<usize>,
        children: Seq<TreeView<C, N, V, P>>,
        elements: Seq<ElementView<C, N, V>>,
        ctx: ContextView<N, V>,
        node: TreeView<C, N, V, P>,
        post: Self,
    ) -> bool {
        post == (LoopView {
            tree: self.tree.put(current, node),
            ids: diffed_children(children, elements, self.ids).1,
            items: self.items + diffed_items(current, children, elements, ctx),
            ..self
        })
    }

    /// The component `instance` at `current` was held against the description
    /// `component`, and `compare` answered `diff`.  With the same kind and
    /// equal props the instance is only visited; with other props it takes
    /// them over and renders; another kind replaces it.
    pub open spec fn compared_to(
        self,
        current: Seq<usize>,
        instance: InstanceView<C, N, V, P>,
        component: Arc<C>,
        ctx: ContextView<N, V>,
        diff: ComponentDiff,
        post: Self,
        demand: DemandView<C, N, V, P, A, F, K>,
    ) -> bool {
        match diff {
            ComponentDiff::Equal => {
                &&& demand == DemandView::<C, N, V, P, A, F, K>::Continue
                &&& post == (LoopView {
                    items: self.items.push(ItemView::Reload { current, ctx }),
                    ..self
                })
            },
            ComponentDiff::NewProps => self.begun(
                current,
                ctx,
                InstanceView { component, ..instance },
                post,
                demand,
            ),
            ComponentDiff::NewType => {
                &&& demand == DemandView::<C, N, V, P, A, F, K>::Continue
                &&& self.replaced(
                    current,
                    TreeView::Component(instance),
                    ElementView::Component(component),
                    ctx,
                    post,
                )
            },
        }
    }

    /// The subtree at `current` was held against the description `next`.
    ///
    /// A component against a component is handled as `compare` answers.  An
    /// output node against an output node is updated by
    /// the host and its children are held against the new children.  A
    /// fragment against a fragment and a provider against a provider hold
    /// their children against the new ones, the provider with its new value in
    /// the context.  Everything else is replaced.  A path that leads nowhere
    /// is dropped.
    pub open spec fn updated(
        self,
        current: Seq<usize>,
        next: ElementView<C, N, V>,
        ctx: ContextView<N, V>,
        post: Self,
        demand: DemandView<C, N, V, P, A, F, K>,
    ) -> bool {
        match self.tree.at(current) {
            None => post == self && demand == DemandView::<C, N, V, P, A, F, K>::Continue,
            Some(node) => match (node, next) {
                (TreeView::Component(instance), ElementView::Component(component)) => {
                    exists|diff: ComponentDiff| #[trigger]
                        compared(component, instance.component, diff) && self.compared_to(
                            current,
                            instance,
                            component,
                            ctx,
                            diff,
                            post,
                            demand,
                        )
                },
                (TreeView::Node(old, children), ElementView::Node(payload, elements)) => {
                    let new = Arc::new(payload);
                    &&& demand == DemandView::<C, N, V, P, A, F, K>::Update { node: old, next: new }
                    &&& self.diffed(
                        current,
                        children,
                        elements,
                        ContextView { parent: new, sibling: None, context: ctx.context },
                        TreeView::Node(new, diffed_children(children, elements, self.ids).0),
                        post,
                    )
                },
                (TreeView::Fragment(children), ElementView::Fragment(elements)) => {
                    &&& demand == DemandView::<C, N, V, P, A, F, K>::Continue
                    &&& self.diffed(
                        current,
                        children,
                        elements,
                        ctx,
                        TreeView::Fragment(diffed_children(children, elements, self.ids).0),
                        post,
                    )
                },
                (
                    TreeView::Provider(_, _, children),
                    ElementView::Provider(key, value, elements),
                ) => {
                    &&& demand == DemandView::<C, N, V, P, A, F, K>::Continue
                    &&& self.diffed(
                        current,
                        children,
                        elements,
                        ContextView { context: ctx.context.insert(key, value), ..ctx },
                        TreeView::Provider(
                            key,
                            value,
                            diffed_children(children, elements, self.ids).0,
                        ),
                        post,
                    )
                },
                _ => {
                    &&& demand == DemandView::<C, N, V, P, A, F, K>::Continue
                    &&& self.replaced(current, node, next, ctx, post)
                },
            },
        }
    }

    /// The subtree `node`, which left the tree from under `parent`, was torn
    /// down by one level.  A component has its cleanups queued; an output node
    /// is removed by the host; the children are queued for removal, those of
    /// an output node under that node.
    pub open spec fn removed(
        self,
        node: TreeView<C, N, V, P>,
        parent: Arc<N>,
        post: Self,
        demand: DemandView<C, N, V, P, A, F, K>,
    ) -> bool {
        match node {
            TreeView::Component(instance) => {
                &&& demand == DemandView::<C, N, V, P, A, F, K>::Continue
                &&& post == (LoopView {
                    cleared: self.cleared.push(instance.id),
                    items: match instance.child {
                        Some(child) => self.items.push(
                            ItemView::Remove { current: *child, parent },
                        ),
                        None => self.items,
                    },
                    ..self
                })
            },
            TreeView::Node(output, children) => {
                &&& demand == DemandView::<C, N, V, P, A, F, K>::Remove { node: output, parent }
                &&& post == (LoopView { items: self.items + teardown(children, output), ..self })
            },
            TreeView::Fragment(children) => {
                &&& demand == DemandView::<C, N, V, P, A, F, K>::Continue
                &&& post == (LoopView { items: self.items + teardown(children, parent), ..self })
            },
            TreeView::Provider(_, _, children) => {
                &&& demand == DemandView::<C, N, V, P, A, F, K>::Continue
                &&& post == (LoopView { items: self.items + teardown(children, parent), ..self })
            },
        }
    }

    /// One step led from this state to `post` and asked `demand` of the host.
    ///
    /// While a render is outstanding nothing happens.  With an empty work
    /// list the loop is idle.  Otherwise the item that was put on the list
    /// last is taken off and carried out.
    pub open spec fn stepped(self, post: Self, demand: DemandView<C, N, V, P, A, F, K>) -> bool {
        if self.awaiting is Some {
            post == self && demand == DemandView::<C, N, V, P, A, F, K>::Awaiting
        } else if self.items.len() == 0 {
            post == self && demand == DemandView::<C, N, V, P, A, F, K>::Idle
        } else {
            let rest = LoopView { items: self.items.drop_last(), ..self };
            match self.items.last() {
                ItemView::Create { current, ctx } => rest.visited(false, current, ctx, post, demand),
                ItemView::Reload { current, ctx } => rest.visited(true, current, ctx, post, demand),
                ItemView::Update { current, next, ctx } => rest.updated(
                    current,
                    next,
                    ctx,
                    post,
                    demand,
                ),
                ItemView::Remove { current, parent } => rest.removed(current, parent, post, demand),
            }
        }
    }
}

/// Moves the waiting lists of the instances that are mounted in the subtree
/// from `from` to `into`.
fn keep_waiting<C, N, V, P, X>(
    tree: &TreeNode<C, N, V, P>,
    from: &mut HashMap<u64, X>,
    into: &mut HashMap<u64, X>,
)
    requires
        old(from)@.dom().disjoint(old(into)@.dom()),
    ensures
        final(from)@ == old(from)@.remove_keys(tree@.instances()),
        final(into)@ == old(into)@.union_prefer_right(old(from)@.restrict(tree@.instances())),
        final(from)@.dom().disjoint(final(into)@.dom()),
    decreases tree,
{
    match tree {
        TreeNode::Component(instance) => {
            match from.remove(&instance.id) {
                Some(list) => {
                    into.insert(instance.id, list);
                },
                None => {},
            }
            let ghost middle_from = from@;
            let ghost middle_into = into@;
            assert(middle_from =~= old(from)@.remove_keys(set![instance.id]));
            assert(middle_into =~= old(into)@.union_prefer_right(
                old(from)@.restrict(set![instance.id]),
            ));
            match &instance.child {
                Some(child) => {
                    keep_waiting(child, from, into);
                    assert(from@ =~= old(from)@.remove_keys(tree@.instances()));
                    assert(into@ =~= old(into)@.union_prefer_right(
                        old(from)@.restrict(tree@.instances()),
                    ));
                },
                None => {},
            }
        },
        TreeNode::Node(_, children) => keep_waiting_all(children, from, into),
        TreeNode::Fragment(children) => keep_waiting_all(children, from, into),
        TreeNode::Provider(_, _, children) => keep_waiting_all(children, from, into),
    }
}

/// Moves the waiting lists of the instances that are mounted in any of the
/// subtrees from `from` to `into`.
fn keep_waiting_all<C, N, V, P, X>(
    children: &Vec<TreeNode<C, N, V, P>>,
    from: &mut HashMap<u64, X>,
    into: &mut HashMap<u64, X>,
)
    requires
        old(from)@.dom().disjoint(old(into)@.dom()),
    ensures
        final(from)@ == old(from)@.remove_keys(
            TreeView::instances_among(TreeNode::views(children@), children@.len() as int),
        ),
        final(into)@ == old(into)@.union_prefer_right(
            old(from)@.restrict(
                TreeView::instances_among(TreeNode::views(children@), children@.len() as int),
            ),
        ),
        final(from)@.dom().disjoint(final(into)@.dom()),
    decreases children,
{
    let ghost all = TreeNode::views(children@);
    let mut i: usize = 0;
    assert(from@ =~= old(from)@.remove_keys(TreeView::instances_among(all, 0)));
    assert(into@ =~= old(into)@.union_prefer_right(
        old(from)@.restrict(TreeView::instances_among(all, 0)),
    ));
    while i < children.len()
        invariant
            i <= children@.len(),
            all == TreeNode::views(children@),
            old(from)@.dom().disjoint(old(into)@.dom()),
            from@ == old(from)@.remove_keys(TreeView::instances_among(all, i as int)),
            into@ == old(into)@.union_prefer_right(
                old(from)@.restrict(TreeView::instances_among(all, i as int)),
            ),
            from@.dom().disjoint(into@.dom()),
        decreases children@.len() - i,
    {
        keep_waiting(&children[i], from, into);
        proof {
            let before = TreeView::instances_among(all, i as int);
            let here = all[i as int].instances();
            assert(TreeView::instances_among(all, i + 1) == before.union(here));
            assert(from@ =~= old(from)@.remove_keys(before.union(here)));
            assert(into@ =~= old(into)@.union_prefer_right(
                old(from)@.restrict(before.union(here)),
            ));
        }
        i = i + 1;
    }
}

/// The inboxes after the updates were delivered one after the other, each
/// behind the updates that waited for its instance.
pub open spec fn delivered<V, U: FnOnce(Arc<V>) -> Arc<V>>(
    inbox: Map<u64, Seq<StateUpdate<V, U>>>,
    updates: Seq<StateUpdate<V, U>>,
) -> Map<u64, Seq<StateUpdate<V, U>>>
    decreases updates.len(),
{
    if updates.len() == 0 {
        inbox
    } else {
        let before = delivered(inbox, updates.drop_last());
        let update = updates.last();
        before.insert(update.instance(), waiting_for(before, update.instance()).push(update))
    }
}

impl<C, N, V, P, U: FnOnce(Arc<V>) -> Arc<V>, A, F: FnOnce(A) -> K, K: FnOnce()> RenderLoop<
    C,
    N,
    V,
    P,
    U,
    A,
    F,
    K,
> {
    pub open spec fn view(&self) -> LoopView<C, N, V, P, U, A, F, K> {
        LoopView {
            root: self.root,
            tree: self.tree@,
            items: self.queue.items(),
            effects: self.queue.effects(),
            cleanups: self.queue.cleanups(),
            cleared: self.queue.cleared(),
            inbox: self.inbox@.map_values(|list: Vec<StateUpdate<V, U>>| list@),
            ids: self.ids,
            awaiting: match self.awaiting {
                Some(awaited) => Some(awaited@),
                None => None,
            },
            signal: self.signal,
            updater: self.updater,
            updates: self.updates,
        }
    }

    /// A render loop that will mount `element` under `root`.  Nothing is
    /// queued yet.  `signal` is where state updates wake the host.
    pub fn new(root: Arc<N>, element: Element<C, N, V>, signal: Sender<()>) -> (r: Self)
        ensures
            r@ == (LoopView::<C, N, V, P, U, A, F, K> {
                root,
                tree: TreeView::<C, N, V, P>::from_element(element@, 0).0,
                items: Seq::empty(),
                effects: Seq::empty(),
                cleanups: Map::empty(),
                cleared: Seq::empty(),
                inbox: Map::empty(),
                ids: TreeView::<C, N, V, P>::from_element(element@, 0).1,
                awaiting: None,
                signal,
                updater: r.updater,
                updates: r.updates,
            }),
    {
        let mut ids: u64 = 0;
        let tree = TreeNode::from(element, &mut ids);
        let (updater, updates) = unbounded::<StateUpdate<V, U>>();
        let r = RenderLoop {
            root,
            tree,
            queue: RenderQueue::new(),
            inbox: HashMap::new(),
            ids,
            awaiting: None,
            signal,
            updater,
            updates,
        };
        assert(r@.inbox =~= Map::empty());
        r
    }

    /// Puts an update into the inbox of its instance, behind the updates that
    /// wait there.
    pub fn deliver(&mut self, update: StateUpdate<V, U>)
        ensures
            final(self)@ == (LoopView {
                inbox: old(self)@.inbox.insert(
                    update.instance(),
                    waiting_for(old(self)@.inbox, update.instance()).push(update),
                ),
                ..old(self)@
            }),
    {
        let id = update.target();
        let ghost before = self@.inbox;
        let mut list = match self.inbox.remove(&id) {
            Some(list) => list,
            None => Vec::new(),
        };
        list.push(update);
        self.inbox.insert(id, list);
        assert(self@.inbox =~= before.insert(id, waiting_for(before, id).push(update)));
    }

    /// Moves the updates that wait in the update channel into the inboxes of
    /// their instances, in the order in which the channel hands them out.
    /// Returns how many there were.  Updates that are sent while this runs may
    /// stay in the channel for the next time.
    pub fn collect(&mut self) -> (count: usize)
        ensures
            exists|received: Seq<StateUpdate<V, U>>|
                #![trigger delivered(old(self)@.inbox, received)]
                received.len() == count && final(self)@ == (LoopView {
                    inbox: delivered(old(self)@.inbox, received),
                    ..old(self)@
                }),
    {
        let limit = waiting(&self.updates);
        let mut count: usize = 0;
        let ghost received: Seq<StateUpdate<V, U>> = Seq::empty();
        while count < limit
            invariant
                received.len() == count,
                self@ == (LoopView { inbox: delivered(old(self)@.inbox, received), ..old(self)@ }),
            decreases limit - count,
        {
            match try_recv(&self.updates) {
                Some(update) => {
                    self.deliver(update);
                    count = count + 1;
                    proof {
                        let longer = received.push(update);
                        assert(longer.drop_last() =~= received);
                        received = longer;
                    }
                },
                None => {
                    return count;
                },
            }
        }
        count
    }

    /// Begins a cycle: collects the updates that arrived and queues a visit
    /// of the whole tree from the root.
    pub fn start(&mut self)
        ensures
            exists|received: Seq<StateUpdate<V, U>>|
                #![trigger delivered(old(self)@.inbox, received)]
                final(self)@ == (LoopView {
                    inbox: delivered(old(self)@.inbox, received),
                    items: old(self)@.items.push(
                        ItemView::Reload {
                            current: Seq::empty(),
                            ctx: ContextView {
                                parent: old(self)@.root,
                                sibling: None,
                                context: Map::empty(),
                            },
                        },
                    ),
                    ..old(self)@
                }),
    {
        let ghost pre = self@;
        let _ = self.collect();
        let ghost received = choose|received: Seq<StateUpdate<V, U>>|
            self@ == (LoopView { inbox: delivered(pre.inbox, received), ..pre });
        let ctx = RenderContext::new(self.root.clone(), None, Arc::new(HashMap::new()));
        self.queue.reload(Vec::new(), ctx);
        assert(self@ == (LoopView {
            inbox: delivered(pre.inbox, received),
            items: pre.items.push(
                ItemView::Reload {
                    current: Seq::empty(),
                    ctx: ContextView { parent: pre.root, sibling: None, context: Map::empty() },
                },
            ),
            ..pre
        }));
    }

    /// Ends a cycle: runs the cleanups of the instances that left the tree,
    /// settles the effects that were declared, and drops the updates of
    /// instances that are no longer mounted.  Updates of mounted instances
    /// wait on.
    pub fn finish(&mut self)
        ensures
            crate::render_queue::cleaned(old(self)@.cleanups, old(self)@.cleared),
            crate::render_queue::settled(
                old(self)@.effects,
                crate::render_queue::without(old(self)@.cleanups, old(self)@.cleared),
                final(self)@.cleanups,
            ),
            final(self)@ == (LoopView {
                effects: Seq::empty(),
                cleared: Seq::empty(),
                cleanups: final(self)@.cleanups,
                inbox: old(self)@.inbox.restrict(old(self)@.tree.instances()),
                ..old(self)@
            }),
    {
        self.queue.run_effects();
        let mut kept: HashMap<u64, Vec<StateUpdate<V, U>>> = HashMap::new();
        keep_waiting(&self.tree, &mut self.inbox, &mut kept);
        self.inbox = kept;
        assert(self@.inbox =~= old(self)@.inbox.restrict(old(self)@.tree.instances()));
    }
}

impl<C: AnyComponent, N, V, P, U: FnOnce(Arc<V>) -> Arc<V>, A, F: FnOnce(A) -> K, K: FnOnce()> LoopView<
    C,
    N,
    V,
    P,
    U,
    A,
    F,
    K,
> {
    /// The render of an instance that is held apart from the tree has begun:
    /// what `begun` says, told of the instance instead of the tree.
    pub open spec fn rendering(
        self,
        current: Seq<usize>,
        ctx: ContextView<N, V>,
        instance: InstanceView<C, N, V, P>,
        after: InstanceView<C, N, V, P>,
        post: Self,
        demand: DemandView<C, N, V, P, A, F, K>,
    ) -> bool {
        &&& demand matches DemandView::Render { component, hook }
        &&& component == instance.component
        &&& StateUpdate::folded(waiting_for(self.inbox, instance.id), instance.state, hook.state)
        &&& hook == HookView::<V, A, F, K>::fresh(
            instance.id,
            hook.state,
            instance.refs,
            ctx.context,
        )
        &&& after == (InstanceView { state: hook.state, ..instance })
        &&& post == (LoopView {
            inbox: self.inbox.remove(instance.id),
            awaiting: Some(AwaitedView { current, ctx, resumed: false }),
            ..self
        })
    }
}

impl<C: AnyComponent, N, V, P, U: FnOnce(Arc<V>) -> Arc<V>, A, F: FnOnce(A) -> K, K: FnOnce()> RenderLoop<
    C,
    N,
    V,
    P,
    U,
    A,
    F,
    K,
> {
    /// Begins the render of an instance: applies the updates that wait for
    /// it and asks the host to render with a fresh hook.
    fn render_component(
        &mut self,
        instance: &mut TreeComponent<C, N, V, P>,
        current: Vec<usize>,
        ctx: RenderContext<N, V>,
    ) -> (demand: Demand<C, N, V, P, U, A, F, K>)
        ensures
            old(self)@.rendering(
                current@,
                ctx@,
                old(instance)@,
                final(instance)@,
                final(self)@,
                demand@,
            ),
            demand.carries(old(self)@.signal, old(self)@.updater),
    {
        let ghost before = self@.inbox;
        let updates = match self.inbox.remove(&instance.id) {
            Some(list) => list,
            None => Vec::new(),
        };
        assert(self@.inbox =~= before.remove(instance.id));
        assert(updates@ == waiting_for(before, instance.id));
        StateUpdate::apply_all(updates, &mut instance.state);
        let hook = Hook::new(
            clone_sender(&self.signal),
            clone_sender(&self.updater),
            instance.id,
            instance.state.clone(),
            instance.refs.clone(),
            ctx.context.clone(),
        );
        let component = instance.component.clone();
        self.awaiting = Some(Awaited { current, ctx, resumed: false });
        Demand::Render { component, hook }
    }

    /// Carries out a create or a visit of a component that is held apart
    /// from the tree.
    fn visit_component(
        &mut self,
        reload: bool,
        instance: &mut TreeComponent<C, N, V, P>,
        current: Vec<usize>,
        ctx: RenderContext<N, V>,
    ) -> (demand: Demand<C, N, V, P, U, A, F, K>)
        ensures
            ({
                let pre = old(self)@;
                let before = old(instance)@;
                if reload && waiting_for(pre.inbox, before.id).len() == 0 {
                    match before.render_result {
                        Some(pending) => {
                            &&& demand@ == DemandView::<C, N, V, P, A, F, K>::Resume { pending }
                            &&& final(instance)@ == (InstanceView { render_result: None, ..before })
                            &&& final(self)@ == (LoopView {
                                awaiting: Some(
                                    AwaitedView { current: current@, ctx: ctx@, resumed: true },
                                ),
                                ..pre
                            })
                        },
                        None => match before.child {
                            Some(_) => {
                                &&& demand@ == DemandView::<C, N, V, P, A, F, K>::Continue
                                &&& final(instance)@ == before
                                &&& final(self)@ == (LoopView {
                                    items: pre.items.push(
                                        ItemView::Reload { current: current@.push(0), ctx: ctx@ },
                                    ),
                                    ..pre
                                })
                            },
                            None => pre.rendering(
                                current@,
                                ctx@,
                                before,
                                final(instance)@,
                                final(self)@,
                                demand@,
                            ),
                        },
                    }
                } else {
                    pre.rendering(current@, ctx@, before, final(instance)@, final(self)@, demand@)
                }
            }),
            demand.carries(old(self)@.signal, old(self)@.updater),
    {
        let idle = match self.inbox.get(&instance.id) {
            Some(list) => list.len() == 0,
            None => true,
        };
        if reload && idle {
            match instance.render_result.take() {
                Some(pending) => {
                    self.awaiting = Some(Awaited { current, ctx, resumed: true });
                    Demand::Resume { pending }
                },
                None => {
                    if instance.child.is_some() {
                        self.queue.reload(child_path(&current, 0), ctx);
                        Demand::Continue
                    } else {
                        self.render_component(instance, current, ctx)
                    }
                },
            }
        } else {
            self.render_component(instance, current, ctx)
        }
    }

    /// Carries out a create or, with `reload`, a visit of the subtree at
    /// `current`.
    fn visit(&mut self, reload: bool, current: Vec<usize>, ctx: RenderContext<N, V>) -> (demand:
        Demand<C, N, V, P, U, A, F, K>)
        ensures
            old(self)@.visited(reload, current@, ctx@, final(self)@, demand@),
            demand.carries(old(self)@.signal, old(self)@.updater),
    {
        let ghost pre = self@;
        let path = copy_path(&current);
        match self.tree.take_at(&path) {
            None => Demand::Continue,
            Some(node) => {
                let mut node = node;
                let ghost found = node@;
                proof {
                    pre.tree.lemma_put_put(current@, TreeView::hole(), found);
                    pre.tree.lemma_put_same(current@);
                }
                let demand = match &mut node {
                    TreeNode::Component(instance) => self.visit_component(
                        reload,
                        instance,
                        current,
                        ctx,
                    ),
                    TreeNode::Node(output, children) => {
                        let base = ctx.with_parent(output.clone());
                        fan(reload, &current, children, &base, None, reload, &mut self.queue);
                        if reload {
                            Demand::Continue
                        } else {
                            Demand::Create {
                                node: output.clone(),
                                parent: ctx.parent,
                                sibling: ctx.sibling,
                            }
                        }
                    },
                    TreeNode::Fragment(children) => {
                        let last = ctx.sibling();
                        fan(reload, &current, children, &ctx, last, true, &mut self.queue);
                        Demand::Continue
                    },
                    TreeNode::Provider(key, value, children) => {
                        let base = ctx.with_context(*key, value.clone());
                        let last = ctx.sibling();
                        fan(reload, &current, children, &base, last, true, &mut self.queue);
                        Demand::Continue
                    },
                };
                proof {
                    pre.tree.lemma_put_put(current@, TreeView::hole(), node@);
                }
                self.tree.put_at(&path, node);
                demand
            },
        }
    }

    /// Holds the subtree at `current` against the description `next`.
    fn update(&mut self, current: Vec<usize>, next: Element<C, N, V>, ctx: RenderContext<N, V>) -> (demand:
        Demand<C, N, V, P, U, A, F, K>)
        ensures
            old(self)@.updated(current@, next@, ctx@, final(self)@, demand@),
            demand.carries(old(self)@.signal, old(self)@.updater),
    {
        let ghost pre = self@;
        let ghost next_view = next@;
        let ghost ctx_view = ctx@;
        let ghost answer = ComponentDiff::Equal;
        let path = copy_path(&current);
        match self.tree.take_at(&path) {
            None => Demand::Continue,
            Some(node) => {
                let ghost found = node@;
                proof {
                    pre.tree.lemma_put_put(current@, TreeView::hole(), found);
                    pre.tree.lemma_put_same(current@);
                }
                let (node, demand) = match (node, next) {
                    (TreeNode::Component(instance), Element::Component(component)) => {
                        let mut instance = instance;
                        let diff = component.compare(&instance.component);
                        proof {
                            answer = diff;
                        }
                        match diff {
                            ComponentDiff::Equal => {
                                self.queue.reload(current, ctx);
                                (TreeNode::Component(instance), Demand::Continue)
                            },
                            ComponentDiff::NewProps => {
                                instance.component = component;
                                let demand = self.render_component(&mut instance, current, ctx);
                                (TreeNode::Component(instance), demand)
                            },
                            ComponentDiff::NewType => {
                                self.queue.queue_cleanups(instance.id);
                                let mut node = TreeNode::Component(instance);
                                replace_node(
                                    &mut node,
                                    Element::Component(component),
                                    current,
                                    &mut self.queue,
                                    ctx,
                                    &mut self.ids,
                                );
                                (node, Demand::Continue)
                            },
                        }
                    },
                    (TreeNode::Node(old, children), Element::Node(payload, elements)) => {
                        let mut children = children;
                        let new = Arc::new(payload);
                        let inner = ctx.with_parent(new.clone());
                        update_children(
                            &mut children,
                            elements,
                            &current,
                            &mut self.queue,
                            inner,
                            &mut self.ids,
                        );
                        (TreeNode::Node(new.clone(), children), Demand::Update { node: old, next: new })
                    },
                    (TreeNode::Fragment(children), Element::Fragment(elements)) => {
                        let mut children = children;
                        update_children(
                            &mut children,
                            elements,
                            &current,
                            &mut self.queue,
                            ctx,
                            &mut self.ids,
                        );
                        (TreeNode::Fragment(children), Demand::Continue)
                    },
                    (TreeNode::Provider(_, _, children), Element::Provider(key, value, elements)) => {
                        let mut children = children;
                        let inner = ctx.with_context(key, value.clone());
                        update_children(
                            &mut children,
                            elements,
                            &current,
                            &mut self.queue,
                            inner,
                            &mut self.ids,
                        );
                        (TreeNode::Provider(key, value, children), Demand::Continue)
                    },
                    (node, next) => {
                        let mut node = node;
                        match &node {
                            TreeNode::Component(instance) => {
                                self.queue.queue_cleanups(instance.id);
                            },
                            _ => {},
                        }
                        replace_node(
                            &mut node,
                            next,
                            current,
                            &mut self.queue,
                            ctx,
                            &mut self.ids,
                        );
                        (node, Demand::Continue)
                    },
                };
                proof {
                    pre.tree.lemma_put_put(current@, TreeView::hole(), node@);
                }
                self.tree.put_at(&path, node);
                proof {
                    match (found, next_view) {
                        (TreeView::Component(instance), ElementView::Component(component)) => {
                            assert(compared(component, instance.component, answer));
                            assert(pre.compared_to(
                                path@,
                                instance,
                                component,
                                ctx_view,
                                answer,
                                self@,
                                demand@,
                            ));
                        },
                        _ => {},
                    }
                }
                demand
            },
        }
    }

    /// Tears down by one level a subtree that left the tree from under
    /// `parent`.
    fn remove(&mut self, current: TreeNode<C, N, V, P>, parent: Arc<N>) -> (demand: Demand<
        C,
        N,
        V,
        P,
        U,
        A,
        F,
        K,
    >)
        ensures
            old(self)@.removed(current@, parent, final(self)@, demand@),
    {
        match current {
            TreeNode::Component(instance) => {
                self.queue.queue_cleanups(instance.id);
                match instance.child {
                    Some(child) => {
                        self.queue.remove(*child, parent);
                    },
                    None => {},
                }
                Demand::Continue
            },
            TreeNode::Node(output, children) => {
                self.remove_all(children, output.clone());
                Demand::Remove { node: output, parent }
            },
            TreeNode::Fragment(children) => {
                self.remove_all(children, parent);
                Demand::Continue
            },
            TreeNode::Provider(_, _, children) => {
                self.remove_all(children, parent);
                Demand::Continue
            },
        }
    }

    /// Queues every child of a node that left the tree for removal.
    fn remove_all(&mut self, children: Vec<TreeNode<C, N, V, P>>, parent: Arc<N>)
        ensures
            final(self)@ == (LoopView {
                items: old(self)@.items + teardown(TreeNode::views(children@), parent),
                ..old(self)@
            }),
    {
        let ghost all = teardown(TreeNode::views(children@), parent);
        let ghost start = self@.items;
        assert(start + all.take(0) =~= start);
        for child in it: children
            invariant
                it.seq() == children@,
                all == teardown(TreeNode::views(children@), parent),
                self@ == (LoopView { items: start + all.take(it.index() as int), ..old(self)@ }),
        {
            let ghost k = it.index() as int;
            self.queue.remove(child, parent.clone());
            proof {
                assert(all.take(k + 1) =~= all.take(k).push(all[k]));
                assert(start + all.take(k + 1) =~= (start + all.take(k)).push(all[k]));
            }
        }
        assert(all.take(all.len() as int) =~= all);
    }

    /// Takes one item off the work list and carries it out.  What the host
    /// has to do about it is the result.  The hook of a demand to render
    /// carries the loop's own channels: updates that the render's state
    /// handles queue reach this loop and wake its host.
    pub fn step(&mut self) -> (demand: Demand<C, N, V, P, U, A, F, K>)
        ensures
            old(self)@.stepped(final(self)@, demand@),
            demand.carries(old(self)@.signal, old(self)@.updater),
    {
        if self.awaiting.is_some() {
            return Demand::Awaiting;
        }
        match self.queue.next() {
            None => Demand::Idle,
            Some(RenderQueueItem::Create { current, ctx }) => self.visit(false, current, ctx),
            Some(RenderQueueItem::Reload { current, ctx }) => self.visit(true, current, ctx),
            Some(RenderQueueItem::Update { current, next, ctx }) => self.update(current, next, ctx),
            Some(RenderQueueItem::Remove { current, parent }) => self.remove(current, parent),
        }
    }
}

/// What the host reports of a render: that it is suspended, with the handle
/// to look at it again, or the description that it gave or the error that
/// it failed with, together with the hook as the render left it.
pub type Outcome<C, N, V, P, U, A, F, K, E> = RunOrSuspendResult<
    (Result<Element<C, N, V>, E>, Hook<V, U, A, F, K>),
    P,
>;

/// The mathematical value of an [`Outcome`].
pub type OutcomeView<C, N, V, P, A, F, K, E> = RunOrSuspendResult<
    (Result<ElementView<C, N, V>, E>, HookView<V, A, F, K>),
    P,
>;

/// The value of an outcome.
pub open spec fn outcome_view<
    C,
    N,
    V,
    P,
    U: FnOnce(Arc<V>) -> Arc<V>,
    A,
    F: FnOnce(A) -> K,
    K: FnOnce(),
    E,
>(outcome: Outcome<C, N, V, P, U, A, F, K, E>) -> OutcomeView<C, N, V, P, A, F, K, E> {
    match outcome {
        RunOrSuspendResult::Suspend(pending) => RunOrSuspendResult::Suspend(pending),
        RunOrSuspendResult::Done((result, hook)) => RunOrSuspendResult::Done(
            (
                match result {
                    Ok(element) => Ok(element@),
                    Err(error) => Err(error),
                },
                hook@,
            ),
        ),
    }
}

impl<C: AnyComponent, N, V, P, U: FnOnce(Arc<V>) -> Arc<V>, A, F: FnOnce(A) -> K, K: FnOnce()> LoopView<
    C,
    N,
    V,
    P,
    U,
    A,
    F,
    K,
> {
    /// The host reported the outcome of the render that the loop waited for;
    /// the loop went on to `post` and failed with `failed`, if it did.
    ///
    /// A suspended render is kept with the instance; if it had been suspended
    /// before, the visit goes on to what the instance rendered last.  A render
    /// that came to its end has its effects queued and the state slots and
    /// references of its hook stored with the instance.  If it gave a
    /// description, that is held against what the instance rendered last, or
    /// mounted where it rendered for the first time; if it failed, its error
    /// is handed on.  Without an outstanding render, or where the instance is
    /// no longer in its place, the report is dropped.
    pub open spec fn reported<E>(
        self,
        outcome: OutcomeView<C, N, V, P, A, F, K, E>,
        post: Self,
        failed: Option<E>,
    ) -> bool {
        match self.awaiting {
            None => post == self && failed is None,
            Some(awaited) => {
                let rest = LoopView { awaiting: None, ..self };
                let current = awaited.current;
                let ctx = awaited.ctx;
                match rest.tree.at(current) {
                    Some(TreeView::Component(instance)) => match outcome {
                        RunOrSuspendResult::Suspend(pending) => {
                            &&& failed is None
                            &&& post == (LoopView {
                                tree: rest.tree.put(
                                    current,
                                    TreeView::Component(
                                        InstanceView { render_result: Some(pending), ..instance },
                                    ),
                                ),
                                items: if awaited.resumed && instance.child is Some {
                                    rest.items.push(
                                        ItemView::Reload { current: current.push(0), ctx },
                                    )
                                } else {
                                    rest.items
                                },
                                ..rest
                            })
                        },
                        RunOrSuspendResult::Done((result, hook)) => {
                            let effects = put(rest.effects, instance.id, hook.effects);
                            let settled = InstanceView {
                                render_result: None,
                                state: hook.state,
                                refs: hook.refs,
                                ..instance
                            };
                            match result {
                                Ok(element) => {
                                    &&& failed is None
                                    &&& match instance.child {
                                        Some(_) => post == (LoopView {
                                            tree: rest.tree.put(
                                                current,
                                                TreeView::Component(settled),
                                            ),
                                            items: rest.items.push(
                                                ItemView::Update {
                                                    current: current.push(0),
                                                    next: element,
                                                    ctx,
                                                },
                                            ),
                                            effects,
                                            ..rest
                                        }),
                                        None => {
                                            let (child, free) = TreeView::<
                                                C,
                                                N,
                                                V,
                                                P,
                                            >::from_element(element, rest.ids);
                                            post == (LoopView {
                                                tree: rest.tree.put(
                                                    current,
                                                    TreeView::Component(
                                                        InstanceView {
                                                            child: Some(Box::new(child)),
                                                            ..settled
                                                        },
                                                    ),
                                                ),
                                                ids: free,
                                                items: rest.items.push(
                                                    ItemView::Create {
                                                        current: current.push(0),
                                                        ctx,
                                                    },
                                                ),
                                                effects,
                                                ..rest
                                            })
                                        },
                                    }
                                },
                                Err(error) => {
                                    &&& failed == Some(error)
                                    &&& post == (LoopView {
                                        tree: rest.tree.put(current, TreeView::Component(settled)),
                                        effects,
                                        ..rest
                                    })
                                },
                            }
                        },
                    },
                    _ => post == rest && failed is None,
                }
            },
        }
    }
}

impl<C: AnyComponent, N, V, P, U: FnOnce(Arc<V>) -> Arc<V>, A, F: FnOnce(A) -> K, K: FnOnce()> RenderLoop<
    C,
    N,
    V,
    P,
    U,
    A,
    F,
    K,
> {
    /// Takes the host's report of the render that the loop waits for.  An
    /// error of the render is handed on; the loop has then come to its end.
    pub fn rendered<E>(&mut self, outcome: Outcome<C, N, V, P, U, A, F, K, E>) -> (r: Result<(), E>)
        ensures
            old(self)@.reported(
                outcome_view(outcome),
                final(self)@,
                match r {
                    Ok(_) => None,
                    Err(error) => Some(error),
                },
            ),
    {
        let ghost pre = self@;
        let awaited = match self.awaiting.take() {
            Some(awaited) => awaited,
            None => {
                return Ok(());
            },
        };
        let ghost rest = self@;
        let Awaited { current, ctx, resumed } = awaited;
        let mut instance = match self.tree.take_at(&current) {
            Some(TreeNode::Component(instance)) => instance,
            Some(node) => {
                proof {
                    rest.tree.lemma_put_put(current@, TreeView::hole(), node@);
                    rest.tree.lemma_put_same(current@);
                }
                self.tree.put_at(&current, node);
                return Ok(());
            },
            None => {
                return Ok(());
            },
        };
        let ghost before = instance@;
        let mut failed: Option<E> = None;
        match outcome {
            RunOrSuspendResult::Suspend(pending) => {
                instance.render_result = Some(pending);
                if resumed && instance.child.is_some() {
                    self.queue.reload(child_path(&current, 0), ctx);
                }
            },
            RunOrSuspendResult::Done((result, hook)) => {
                instance.render_result = None;
                let Hook { effects, state, refs, .. } = hook;
                self.queue.queue_effects(instance.id, effects);
                instance.state = state;
                instance.refs = refs;
                match result {
                    Ok(element) => {
                        if instance.child.is_some() {
                            self.queue.update(child_path(&current, 0), element, ctx);
                        } else {
                            let child = TreeNode::from(element, &mut self.ids);
                            instance.child = Some(Box::new(child));
                            self.queue.create(child_path(&current, 0), ctx);
                        }
                    },
                    Err(error) => {
                        failed = Some(error);
                    },
                }
            },
        }
        proof {
            rest.tree.lemma_put_put(current@, TreeView::hole(), TreeView::Component(instance@));
        }
        self.tree.put_at(&current, TreeNode::Component(instance));
        match failed {
            Some(error) => Err(error),
            None => Ok(()),
        }
    }
}

} // verus!
