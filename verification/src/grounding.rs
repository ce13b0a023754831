//! The work list is grounded in the tree: every piece of work that names a
//! node by its path names a node that is there, and no two pieces of work
//! reach into each other's subtree.  Steps and reports keep it so.

use crate::component::{compared, AnyComponent, ComponentDiff};
use crate::element::{Element, ElementView};
use crate::quiescence::lemma_at_push;
use crate::render_loop::{
    creations, diffed_children, diffed_items, fanned, kept, removals, teardown, updates,
    DemandView, LoopView, OutcomeView,
};
use crate::render_queue::{ContextView, ItemView};
use crate::suspense::RunOrSuspendResult;
use crate::tree::{InstanceView, TreeNode, TreeView};
use std::sync::Arc;
use vstd::prelude::*;

verus! {

/// Neither path leads through the node of the other: the subtrees that they
/// lead to have nothing in common.
pub open spec fn apart(p: Seq<usize>, q: Seq<usize>) -> bool {
    !p.is_prefix_of(q) && !q.is_prefix_of(p)
}

/// The path by which a piece of work names its node; a removal carries its
/// subtree with it and names none.
pub open spec fn path_of<C, N, V, P>(item: ItemView<C, N, V, P>) -> Option<Seq<usize>> {
    match item {
        ItemView::Create { current, .. } => Some(current),
        ItemView::Reload { current, .. } => Some(current),
        ItemView::Update { current, .. } => Some(current),
        ItemView::Remove { .. } => None,
    }
}

/// No node of the subtree has more children than a path can count.
pub open spec fn sized<C, N, V, P>(tree: TreeView<C, N, V, P>) -> bool
    decreases tree, 0int,
{
    match tree {
        TreeView::Component(instance) => match instance.child {
            Some(child) => sized(*child),
            None => true,
        },
        TreeView::Node(_, children) => sized_from(children, 0),
        TreeView::Fragment(children) => sized_from(children, 0),
        TreeView::Provider(_, _, children) => sized_from(children, 0),
    }
}

/// The children are no more than a path can count, and those from position
/// `from` on are sized.
pub open spec fn sized_from<C, N, V, P>(children: Seq<TreeView<C, N, V, P>>, from: int) -> bool
    decreases children, 1int, children.len() - from,
{
    if 0 <= from < children.len() {
        sized(children[from]) && sized_from(children, from + 1)
    } else {
        children.len() <= usize::MAX
    }
}

/// No list of children in the description is longer than a path can count.
pub open spec fn sized_element<C, N, V>(element: ElementView<C, N, V>) -> bool
    decreases element, 0int,
{
    match element {
        ElementView::Component(_) => true,
        ElementView::Node(_, children) => sized_elements(children, 0),
        ElementView::Fragment(children) => sized_elements(children, 0),
        ElementView::Provider(_, _, children) => sized_elements(children, 0),
    }
}

/// The descriptions are no more than a path can count, and those from
/// position `from` on are sized.
pub open spec fn sized_elements<C, N, V>(children: Seq<ElementView<C, N, V>>, from: int) -> bool
    decreases children, 1int, children.len() - from,
{
    if 0 <= from < children.len() {
        sized_element(children[from]) && sized_elements(children, from + 1)
    } else {
        children.len() <= usize::MAX
    }
}

/// Every one of sized children is sized.
proof fn lemma_sized_each<C, N, V, P>(children: Seq<TreeView<C, N, V, P>>, from: int, i: int)
    requires
        0 <= from <= children.len(),
        sized_from(children, from),
    ensures
        children.len() <= usize::MAX,
        from <= i < children.len() ==> sized(children[i]),
    decreases children.len() - from,
{
    if from < children.len() {
        lemma_sized_each(children, from + 1, i);
    }
}

/// Children that are each sized are sized together.
proof fn lemma_sized_all<C, N, V, P>(children: Seq<TreeView<C, N, V, P>>, from: int)
    requires
        0 <= from <= children.len() <= usize::MAX,
        forall|i: int| from <= i < children.len() ==> sized(#[trigger] children[i]),
    ensures
        sized_from(children, from),
    decreases children.len() - from,
{
    if from < children.len() {
        lemma_sized_all(children, from + 1);
    }
}

/// Every one of sized descriptions is sized.
proof fn lemma_sized_element_each<C, N, V>(
    children: Seq<ElementView<C, N, V>>,
    from: int,
    i: int,
)
    requires
        0 <= from <= children.len(),
        sized_elements(children, from),
    ensures
        children.len() <= usize::MAX,
        from <= i < children.len() ==> sized_element(children[i]),
    decreases children.len() - from,
{
    if from < children.len() {
        lemma_sized_element_each(children, from + 1, i);
    }
}

/// The fresh subtree for a sized description is sized.
pub proof fn lemma_fresh_sized<C, N, V, P>(element: ElementView<C, N, V>, ids: u64)
    requires
        sized_element(element),
    ensures
        sized(TreeView::<C, N, V, P>::from_element(element, ids).0),
    decreases element, 0int,
{
    match element {
        ElementView::Component(_) => {},
        ElementView::Node(_, children) => {
            lemma_fresh_sized_all::<C, N, V, P>(children, ids, children.len() as int);
            assert(children.take(children.len() as int) =~= children);
            lemma_sized_all(TreeView::<C, N, V, P>::from_elements(children, ids).0, 0);
        },
        ElementView::Fragment(children) => {
            lemma_fresh_sized_all::<C, N, V, P>(children, ids, children.len() as int);
            assert(children.take(children.len() as int) =~= children);
            lemma_sized_all(TreeView::<C, N, V, P>::from_elements(children, ids).0, 0);
        },
        ElementView::Provider(_, _, children) => {
            lemma_fresh_sized_all::<C, N, V, P>(children, ids, children.len() as int);
            assert(children.take(children.len() as int) =~= children);
            lemma_sized_all(TreeView::<C, N, V, P>::from_elements(children, ids).0, 0);
        },
    }
}

/// The fresh subtrees for the first `count` of sized descriptions are as
/// many and sized.
proof fn lemma_fresh_sized_all<C, N, V, P>(
    children: Seq<ElementView<C, N, V>>,
    ids: u64,
    count: int,
)
    requires
        0 <= count <= children.len(),
        sized_elements(children, 0),
    ensures
        children.len() <= usize::MAX,
        TreeView::<C, N, V, P>::from_elements(children.take(count), ids).0.len() == count,
        forall|i: int|
            0 <= i < count ==> sized(
                #[trigger] TreeView::<C, N, V, P>::from_elements(children.take(count), ids).0[i],
            ),
    decreases children, 1int, count,
{
    lemma_sized_element_each(children, 0, 0);
    if count > 0 {
        lemma_fresh_sized_all::<C, N, V, P>(children, ids, count - 1);
        lemma_sized_element_each(children, 0, count - 1);
        let before = TreeView::<C, N, V, P>::from_elements(children.take(count - 1), ids);
        lemma_fresh_sized::<C, N, V, P>(children[count - 1], before.1);
        assert(children.take(count).drop_last() =~= children.take(count - 1));
        assert(children.take(count).last() == children[count - 1]);
    }
}

/// What a path leads to in a sized tree is sized.
pub proof fn lemma_at_sized<C, N, V, P>(
    tree: TreeView<C, N, V, P>,
    path: Seq<usize>,
    node: TreeView<C, N, V, P>,
)
    requires
        sized(tree),
        tree.at(path) == Some(node),
    ensures
        sized(node),
    decreases path.len(),
{
    if path.len() > 0 {
        let child = tree.child(path[0] as int)->0;
        lemma_child_sized(tree, path[0] as int);
        lemma_at_sized(child, path.skip(1), node);
    }
}

/// A child of a sized node is sized.
proof fn lemma_child_sized<C, N, V, P>(tree: TreeView<C, N, V, P>, i: int)
    requires
        sized(tree),
        tree.child(i) is Some,
    ensures
        sized(tree.child(i)->0),
{
    match tree {
        TreeView::Component(_) => {},
        TreeView::Node(_, children) => lemma_sized_each(children, 0, i),
        TreeView::Fragment(children) => lemma_sized_each(children, 0, i),
        TreeView::Provider(_, _, children) => lemma_sized_each(children, 0, i),
    }
}

/// A sized node with a sized child in the place of one of its children is
/// sized.
proof fn lemma_with_child_sized<C, N, V, P>(
    tree: TreeView<C, N, V, P>,
    i: int,
    child: TreeView<C, N, V, P>,
)
    requires
        sized(tree),
        tree.child(i) is Some,
        sized(child),
    ensures
        sized(tree.with_child(i, child)),
{
    match tree {
        TreeView::Component(_) => {},
        TreeView::Node(_, children) => lemma_update_sized(children, i, child),
        TreeView::Fragment(children) => lemma_update_sized(children, i, child),
        TreeView::Provider(_, _, children) => lemma_update_sized(children, i, child),
    }
}

/// Sized children with a sized child in the place of one of them are sized.
proof fn lemma_update_sized<C, N, V, P>(
    children: Seq<TreeView<C, N, V, P>>,
    i: int,
    child: TreeView<C, N, V, P>,
)
    requires
        sized_from(children, 0),
        0 <= i < children.len(),
        sized(child),
    ensures
        sized_from(children.update(i, child), 0),
{
    let after = children.update(i, child);
    lemma_sized_each(children, 0, 0);
    assert forall|j: int| 0 <= j < after.len() implies sized(#[trigger] after[j]) by {
        lemma_sized_each(children, 0, j);
    }
    lemma_sized_all(after, 0);
}

/// A sized tree with a sized node put somewhere in it is sized.
pub proof fn lemma_put_sized<C, N, V, P>(
    tree: TreeView<C, N, V, P>,
    path: Seq<usize>,
    node: TreeView<C, N, V, P>,
)
    requires
        sized(tree),
        sized(node),
    ensures
        sized(tree.put(path, node)),
    decreases path.len(),
{
    if path.len() > 0 {
        match tree.child(path[0] as int) {
            Some(child) => {
                lemma_child_sized(tree, path[0] as int);
                lemma_put_sized(child, path.skip(1), node);
                lemma_with_child_sized(tree, path[0] as int, child.put(path.skip(1), node));
            },
            None => {},
        }
    }
}

/// Putting a node somewhere does not change what a path leads to that is
/// apart from there.
pub proof fn lemma_put_apart<C, N, V, P>(
    tree: TreeView<C, N, V, P>,
    p: Seq<usize>,
    q: Seq<usize>,
    node: TreeView<C, N, V, P>,
)
    requires
        apart(p, q),
    ensures
        tree.put(p, node).at(q) == tree.at(q),
    decreases p.len(),
{
    if p.len() == 0 {
        assert(p.is_prefix_of(q));
    } else if q.len() == 0 {
        assert(q.is_prefix_of(p));
    } else {
        match tree.child(p[0] as int) {
            Some(child) => {
                let changed = tree.with_child(p[0] as int, child.put(p.skip(1), node));
                if p[0] == q[0] {
                    lemma_apart_rest(p, q);
                    lemma_put_apart(child, p.skip(1), q.skip(1), node);
                    assert(changed.child(q[0] as int) == Some(child.put(p.skip(1), node)));
                } else {
                    assert(changed.child(q[0] as int) == tree.child(q[0] as int));
                }
            },
            None => {},
        }
    }
}

/// One path that leads through the node of another does so from the first
/// step on.
proof fn lemma_prefix_rest(p: Seq<usize>, q: Seq<usize>)
    requires
        p.len() > 0,
        q.len() > 0,
        p[0] == q[0],
        p.skip(1).is_prefix_of(q.skip(1)),
    ensures
        p.is_prefix_of(q),
{
    let front = q.subrange(0, p.len() as int);
    assert forall|k: int| 0 <= k < p.len() implies p[k] == front[k] by {
        if k > 0 {
            assert(p[k] == p.skip(1)[k - 1]);
            assert(p.skip(1)[k - 1] == q.skip(1).subrange(0, p.len() - 1)[k - 1]);
            assert(q.skip(1)[k - 1] == q[k]);
        }
    }
    assert(p =~= front);
}

/// Two paths that are apart and start with the same step are apart after it.
proof fn lemma_apart_rest(p: Seq<usize>, q: Seq<usize>)
    requires
        p.len() > 0,
        q.len() > 0,
        p[0] == q[0],
        apart(p, q),
    ensures
        apart(p.skip(1), q.skip(1)),
{
    if p.skip(1).is_prefix_of(q.skip(1)) {
        lemma_prefix_rest(p, q);
    }
    if q.skip(1).is_prefix_of(p.skip(1)) {
        lemma_prefix_rest(q, p);
    }
}

/// The paths to two children of a node are apart.
proof fn lemma_apart_siblings(p: Seq<usize>, i: usize, j: usize)
    requires
        i != j,
    ensures
        apart(p.push(i), p.push(j)),
{
    let a = p.push(i);
    let b = p.push(j);
    if a.is_prefix_of(b) {
        assert(a[p.len() as int] == b.subrange(0, a.len() as int)[p.len() as int]);
    }
    if b.is_prefix_of(a) {
        assert(b[p.len() as int] == a.subrange(0, b.len() as int)[p.len() as int]);
    }
}

/// Descriptions that are each sized are sized together.
proof fn lemma_sized_element_all<C, N, V>(children: Seq<ElementView<C, N, V>>, from: int)
    requires
        0 <= from <= children.len() <= usize::MAX,
        forall|i: int| from <= i < children.len() ==> sized_element(#[trigger] children[i]),
    ensures
        sized_elements(children, from),
    decreases children.len() - from,
{
    if from < children.len() {
        lemma_sized_element_all(children, from + 1);
    }
}

/// A path that is apart from another is apart from every path that leads
/// through the node of the other.
proof fn lemma_apart_under(q: Seq<usize>, p: Seq<usize>, r: Seq<usize>)
    requires
        apart(q, p),
        p.is_prefix_of(r),
    ensures
        apart(q, r),
{
    if q.is_prefix_of(r) {
        if q.len() <= p.len() {
            assert(q =~= p.subrange(0, q.len() as int));
        } else {
            assert(p =~= q.subrange(0, p.len() as int));
        }
    }
    if r.is_prefix_of(q) {
        assert(p =~= q.subrange(0, p.len() as int));
    }
}

/// The piece of work names a node that is in the tree, and what it holds
/// the node against is sized.
pub open spec fn item_grounded<C, N, V, P>(
    tree: TreeView<C, N, V, P>,
    item: ItemView<C, N, V, P>,
) -> bool {
    match item {
        ItemView::Create { current, .. } => tree.at(current) is Some,
        ItemView::Reload { current, .. } => tree.at(current) is Some,
        ItemView::Update { current, next, .. } => tree.at(current) is Some && sized_element(next),
        ItemView::Remove { current, .. } => true,
    }
}

/// The two pieces of work do not reach into each other's subtree.
pub open spec fn items_apart<C, N, V, P>(a: ItemView<C, N, V, P>, b: ItemView<C, N, V, P>) -> bool {
    match (path_of(a), path_of(b)) {
        (Some(p), Some(q)) => apart(p, q),
        _ => true,
    }
}

/// The piece of work names nothing at or below the path, nor above it.
pub open spec fn item_clear<C, N, V, P>(item: ItemView<C, N, V, P>, path: Seq<usize>) -> bool {
    match path_of(item) {
        Some(q) => apart(q, path),
        None => true,
    }
}

/// No piece of work names the node at the path, one below it or one above
/// it.
pub open spec fn clear_of<C, N, V, P>(items: Seq<ItemView<C, N, V, P>>, path: Seq<usize>) -> bool {
    forall|i: int| 0 <= i < items.len() ==> item_clear(#[trigger] items[i], path)
}

/// The work list is grounded in the tree: the tree is sized, every piece of
/// work names a node that is there, and no two pieces reach into each
/// other's subtree.
pub open spec fn work_grounded<C, N, V, P>(
    tree: TreeView<C, N, V, P>,
    items: Seq<ItemView<C, N, V, P>>,
) -> bool {
    &&& sized(tree)
    &&& forall|i: int| 0 <= i < items.len() ==> item_grounded(tree, #[trigger] items[i])
    &&& forall|i: int, j: int|
        0 <= i < j < items.len() ==> items_apart(#[trigger] items[i], #[trigger] items[j])
}

/// The loop is grounded: its work list is grounded in its tree, and the
/// instance whose render is outstanding is in the tree, out of the reach of
/// all the work that waits.
pub open spec fn grounded<
    C: AnyComponent,
    N,
    V,
    P,
    U: FnOnce(Arc<V>) -> Arc<V>,
    A,
    F: FnOnce(A) -> K,
    K: FnOnce(),
>(state: LoopView<C, N, V, P, U, A, F, K>) -> bool {
    &&& work_grounded(state.tree, state.items)
    &&& match state.awaiting {
        Some(awaited) => state.tree.at(awaited.current) is Some && clear_of(
            state.items,
            awaited.current,
        ),
        None => true,
    }
}

/// Work that is added below a path stays grounded where the tree changed
/// only at or below that path and the rest of the work is clear of it.
proof fn lemma_extend<C, N, V, P>(
    tree: TreeView<C, N, V, P>,
    items: Seq<ItemView<C, N, V, P>>,
    p: Seq<usize>,
    changed: TreeView<C, N, V, P>,
    added: Seq<ItemView<C, N, V, P>>,
)
    requires
        work_grounded(tree, items),
        clear_of(items, p),
        sized(changed),
        forall|q: Seq<usize>| apart(q, p) ==> #[trigger] changed.at(q) == tree.at(q),
        forall|k: int| 0 <= k < added.len() ==> item_grounded(changed, #[trigger] added[k]),
        forall|k: int|
            0 <= k < added.len() ==> match path_of(#[trigger] added[k]) {
                Some(q) => p.is_prefix_of(q),
                None => true,
            },
        forall|k: int, l: int|
            0 <= k < l < added.len() ==> items_apart(#[trigger] added[k], #[trigger] added[l]),
    ensures
        work_grounded(changed, items + added),
        clear_of(items + added, p) <==> forall|k: int|
            0 <= k < added.len() ==> path_of(#[trigger] added[k]) is None,
{
    let all = items + added;
    assert forall|i: int| 0 <= i < all.len() implies item_grounded(changed, #[trigger] all[i]) by {
        if i < items.len() {
            assert(all[i] == items[i]);
            assert(item_grounded(tree, items[i]));
            assert(item_clear(items[i], p));
            match path_of(items[i]) {
                Some(q) => {
                    assert(changed.at(q) == tree.at(q));
                },
                None => {},
            }
        } else {
            assert(all[i] == added[i - items.len()]);
        }
    }
    assert forall|i: int, j: int| 0 <= i < j < all.len() implies items_apart(
        #[trigger] all[i],
        #[trigger] all[j],
    ) by {
        if j < items.len() {
            assert(all[i] == items[i] && all[j] == items[j]);
        } else if i < items.len() {
            assert(all[i] == items[i]);
            assert(all[j] == added[j - items.len()]);
            assert(item_clear(items[i], p));
            match (path_of(all[i]), path_of(all[j])) {
                (Some(q), Some(r)) => lemma_apart_under(q, p, r),
                _ => {},
            }
        } else {
            assert(all[i] == added[i - items.len()]);
            assert(all[j] == added[j - items.len()]);
        }
    }
    if forall|k: int| 0 <= k < added.len() ==> path_of(#[trigger] added[k]) is None {
        assert forall|i: int| 0 <= i < all.len() implies item_clear(#[trigger] all[i], p) by {
            if i < items.len() {
                assert(all[i] == items[i]);
            } else {
                assert(all[i] == added[i - items.len()]);
            }
        }
    }
    if clear_of(all, p) {
        assert forall|k: int| 0 <= k < added.len() implies path_of(#[trigger] added[k]) is None by {
            assert(all[items.len() + k] == added[k]);
            assert(item_clear(all[items.len() + k], p));
        }
    }
}

/// Work that names children of the node at a path, each piece another
/// child, meets what [`lemma_extend`] asks of added work.
proof fn lemma_slots<C, N, V, P>(
    changed: TreeView<C, N, V, P>,
    p: Seq<usize>,
    node: TreeView<C, N, V, P>,
    added: Seq<ItemView<C, N, V, P>>,
    slot: spec_fn(int) -> int,
)
    requires
        changed.at(p) == Some(node),
        forall|k: int|
            0 <= k < added.len() ==> match #[trigger] added[k] {
                ItemView::Update { next, .. } => sized_element(next),
                _ => true,
            },
        forall|k: int|
            0 <= k < added.len() ==> match path_of(#[trigger] added[k]) {
                Some(q) => {
                    &&& 0 <= slot(k) <= usize::MAX
                    &&& node.child(slot(k)) is Some
                    &&& q == p.push(slot(k) as usize)
                },
                None => true,
            },
        forall|k: int, l: int|
            0 <= k < l < added.len() && path_of(added[k]) is Some && path_of(added[l]) is Some
                ==> #[trigger] slot(k) != #[trigger] slot(l),
    ensures
        forall|k: int| 0 <= k < added.len() ==> item_grounded(changed, #[trigger] added[k]),
        forall|k: int|
            0 <= k < added.len() ==> match path_of(#[trigger] added[k]) {
                Some(q) => p.is_prefix_of(q),
                None => true,
            },
        forall|k: int, l: int|
            0 <= k < l < added.len() ==> items_apart(#[trigger] added[k], #[trigger] added[l]),
{
    assert forall|k: int| 0 <= k < added.len() implies item_grounded(
        changed,
        #[trigger] added[k],
    ) && match path_of(added[k]) {
        Some(q) => p.is_prefix_of(q),
        None => true,
    } by {
        match path_of(added[k]) {
            Some(q) => {
                lemma_at_push(changed, p, node, slot(k) as usize);
                assert(p =~= q.subrange(0, p.len() as int));
            },
            None => {},
        }
    }
    assert forall|k: int, l: int| 0 <= k < l < added.len() implies items_apart(
        #[trigger] added[k],
        #[trigger] added[l],
    ) by {
        match (path_of(added[k]), path_of(added[l])) {
            (Some(q), Some(r)) => {
                assert(slot(k) != slot(l));
                lemma_apart_siblings(p, slot(k) as usize, slot(l) as usize);
            },
            _ => {},
        }
    }
}

/// Work that is added below a path stays grounded where a sized node was
/// put at that path and the rest of the work is clear of it.
proof fn lemma_put_grounded<C, N, V, P>(
    tree: TreeView<C, N, V, P>,
    items: Seq<ItemView<C, N, V, P>>,
    p: Seq<usize>,
    node: TreeView<C, N, V, P>,
    added: Seq<ItemView<C, N, V, P>>,
)
    requires
        work_grounded(tree, items),
        clear_of(items, p),
        tree.at(p) is Some,
        sized(node),
        forall|k: int|
            0 <= k < added.len() ==> item_grounded(tree.put(p, node), #[trigger] added[k]),
        forall|k: int|
            0 <= k < added.len() ==> match path_of(#[trigger] added[k]) {
                Some(q) => p.is_prefix_of(q),
                None => true,
            },
        forall|k: int, l: int|
            0 <= k < l < added.len() ==> items_apart(#[trigger] added[k], #[trigger] added[l]),
    ensures
        work_grounded(tree.put(p, node), items + added),
        tree.put(p, node).at(p) == Some(node),
        clear_of(items + added, p) <==> forall|k: int|
            0 <= k < added.len() ==> path_of(#[trigger] added[k]) is None,
{
    let changed = tree.put(p, node);
    lemma_put_sized(tree, p, node);
    tree.lemma_at_put(p, node);
    assert forall|q: Seq<usize>| apart(q, p) implies #[trigger] changed.at(q) == tree.at(q) by {
        lemma_put_apart(tree, p, q, node);
    }
    lemma_extend(tree, items, p, changed, added);
}

/// The work that sends a visit on to every child of a node is grounded.
proof fn lemma_fanned_grounded<C, N, V, P>(
    tree: TreeView<C, N, V, P>,
    items: Seq<ItemView<C, N, V, P>>,
    p: Seq<usize>,
    node: TreeView<C, N, V, P>,
    children: Seq<TreeView<C, N, V, P>>,
    reload: bool,
    base: ContextView<N, V>,
    last: Option<Arc<N>>,
    chain: bool,
)
    requires
        work_grounded(tree, items),
        clear_of(items, p),
        tree.at(p) == Some(node),
        children.len() <= usize::MAX,
        forall|i: int| 0 <= i < children.len() ==> node.child(i) is Some,
    ensures
        work_grounded(tree, items + fanned(reload, p, children, base, last, chain)),
{
    let added = fanned(reload, p, children, base, last, chain);
    let slot = |k: int| children.len() - 1 - k;
    lemma_slots(tree, p, node, added, slot);
    lemma_extend(tree, items, p, tree, added);
}

/// The children that a list has after it was held against sized
/// descriptions are as many as the descriptions and sized.
proof fn lemma_diffed_sized<C, N, V, P>(
    children: Seq<TreeView<C, N, V, P>>,
    elements: Seq<ElementView<C, N, V>>,
    ids: u64,
)
    requires
        sized_from(children, 0),
        sized_elements(elements, 0),
    ensures
        diffed_children(children, elements, ids).0.len() == elements.len(),
        elements.len() <= usize::MAX,
        sized_from(diffed_children(children, elements, ids).0, 0),
{
    let keep = kept(children.len() as int, elements.len() as int);
    let rest = elements.skip(keep);
    let fresh = TreeView::<C, N, V, P>::from_elements(rest, ids).0;
    let kids = diffed_children(children, elements, ids).0;
    lemma_sized_element_each(elements, 0, 0);
    assert forall|i: int| 0 <= i < rest.len() implies sized_element(#[trigger] rest[i]) by {
        lemma_sized_element_each(elements, 0, keep + i);
    }
    lemma_sized_element_all(rest, 0);
    lemma_fresh_sized_all::<C, N, V, P>(rest, ids, rest.len() as int);
    assert(rest.take(rest.len() as int) =~= rest);
    assert forall|i: int| 0 <= i < kids.len() implies sized(#[trigger] kids[i]) by {
        if i < keep {
            lemma_sized_each(children, 0, i);
        } else {
            assert(kids[i] == fresh[i - keep]);
        }
    }
    lemma_sized_all(kids, 0);
}

/// The work that holding the children of a node against sized descriptions
/// leaves is grounded in the tree with the resulting node in its place.
proof fn lemma_diffed_grounded<C, N, V, P>(
    tree: TreeView<C, N, V, P>,
    items: Seq<ItemView<C, N, V, P>>,
    p: Seq<usize>,
    children: Seq<TreeView<C, N, V, P>>,
    elements: Seq<ElementView<C, N, V>>,
    ctx: ContextView<N, V>,
    node: TreeView<C, N, V, P>,
)
    requires
        work_grounded(tree, items),
        clear_of(items, p),
        tree.at(p) is Some,
        sized(node),
        sized_elements(elements, 0),
        forall|i: int| 0 <= i < elements.len() ==> node.child(i) is Some,
    ensures
        work_grounded(tree.put(p, node), items + diffed_items(p, children, elements, ctx)),
{
    let changed = tree.put(p, node);
    let added = diffed_items(p, children, elements, ctx);
    let keep = kept(children.len() as int, elements.len() as int);
    let gone = removals(children, keep, ctx.parent);
    let made = creations::<C, N, V, P>(p, children.len() as int, elements.len() as int, ctx);
    let held = updates(p, children, elements, keep, ctx);
    let slot = |k: int|
        if k < gone.len() + made.len() {
            elements.len() - 1 - (k - gone.len())
        } else {
            keep - 1 - (k - gone.len() - made.len())
        };
    lemma_sized_element_each(elements, 0, 0);
    tree.lemma_at_put(p, node);
    assert forall|k: int| 0 <= k < added.len() implies match #[trigger] added[k] {
        ItemView::Update { next, .. } => sized_element(next),
        _ => true,
    } by {
        if k < gone.len() {
            assert(added[k] == gone[k]);
        } else if k < gone.len() + made.len() {
            assert(added[k] == made[k - gone.len()]);
        } else {
            let j = k - gone.len() - made.len();
            assert(added[k] == held[j]);
            lemma_sized_element_each(elements, 0, keep - 1 - j);
        }
    }
    assert forall|k: int| 0 <= k < added.len() implies match path_of(#[trigger] added[k]) {
        Some(q) => {
            &&& 0 <= slot(k) <= usize::MAX
            &&& node.child(slot(k)) is Some
            &&& q == p.push(slot(k) as usize)
        },
        None => true,
    } by {
        if k < gone.len() {
            assert(added[k] == gone[k]);
        } else if k < gone.len() + made.len() {
            assert(added[k] == made[k - gone.len()]);
        } else {
            assert(added[k] == held[k - gone.len() - made.len()]);
        }
    }
    assert forall|k: int, l: int|
        0 <= k < l < added.len() && path_of(added[k]) is Some && path_of(
            added[l],
        ) is Some implies #[trigger] slot(k) != #[trigger] slot(l) by {
        if k < gone.len() {
            assert(added[k] == gone[k]);
        }
        if l < gone.len() {
            assert(added[l] == gone[l]);
        }
    }
    lemma_slots(changed, p, node, added, slot);
    lemma_put_grounded(tree, items, p, node, added);
}

/// A render that begins leaves the loop grounded.
proof fn lemma_begun_grounded<
    C: AnyComponent,
    N,
    V,
    P,
    U: FnOnce(Arc<V>) -> Arc<V>,
    A,
    F: FnOnce(A) -> K,
    K: FnOnce(),
>(
    rest: LoopView<C, N, V, P, U, A, F, K>,
    current: Seq<usize>,
    ctx: ContextView<N, V>,
    instance: InstanceView<C, N, V, P>,
    post: LoopView<C, N, V, P, U, A, F, K>,
    demand: DemandView<C, N, V, P, A, F, K>,
)
    requires
        work_grounded(rest.tree, rest.items),
        clear_of(rest.items, current),
        rest.tree.at(current) is Some,
        sized(TreeView::Component(instance)),
        rest.begun(current, ctx, instance, post, demand),
    ensures
        grounded(post),
{
    let hook = demand->Render_hook;
    let node = TreeView::Component(InstanceView { state: hook.state, ..instance });
    let nothing = Seq::<ItemView<C, N, V, P>>::empty();
    lemma_put_grounded(rest.tree, rest.items, current, node, nothing);
    assert(rest.items + nothing =~= rest.items);
}

/// A replacement leaves the work grounded.
proof fn lemma_replaced_grounded<
    C: AnyComponent,
    N,
    V,
    P,
    U: FnOnce(Arc<V>) -> Arc<V>,
    A,
    F: FnOnce(A) -> K,
    K: FnOnce(),
>(
    rest: LoopView<C, N, V, P, U, A, F, K>,
    current: Seq<usize>,
    node: TreeView<C, N, V, P>,
    next: ElementView<C, N, V>,
    ctx: ContextView<N, V>,
    post: LoopView<C, N, V, P, U, A, F, K>,
)
    requires
        work_grounded(rest.tree, rest.items),
        clear_of(rest.items, current),
        rest.tree.at(current) is Some,
        rest.awaiting is None,
        sized_element(next),
        rest.replaced(current, node, next, ctx, post),
    ensures
        grounded(post),
{
    let fresh = TreeView::<C, N, V, P>::from_element(next, rest.ids).0;
    let added = seq![
        ItemView::Remove { current: node, parent: ctx.parent },
        ItemView::Create { current, ctx },
    ];
    lemma_fresh_sized::<C, N, V, P>(next, rest.ids);
    rest.tree.lemma_at_put(current, fresh);
    lemma_put_grounded(rest.tree, rest.items, current, fresh, added);
    assert(rest.items + added =~= rest.items.push(added[0]).push(added[1]));
}

/// A step that creates or visits a subtree leaves the loop grounded.
proof fn lemma_visited_grounded<
    C: AnyComponent,
    N,
    V,
    P,
    U: FnOnce(Arc<V>) -> Arc<V>,
    A,
    F: FnOnce(A) -> K,
    K: FnOnce(),
>(
    rest: LoopView<C, N, V, P, U, A, F, K>,
    reload: bool,
    current: Seq<usize>,
    ctx: ContextView<N, V>,
    post: LoopView<C, N, V, P, U, A, F, K>,
    demand: DemandView<C, N, V, P, A, F, K>,
)
    requires
        work_grounded(rest.tree, rest.items),
        clear_of(rest.items, current),
        rest.awaiting is None,
        rest.visited(reload, current, ctx, post, demand),
    ensures
        grounded(post),
{
    match rest.tree.at(current) {
        None => {},
        Some(node) => {
            lemma_at_sized(rest.tree, current, node);
            match node {
                TreeView::Component(instance) => {
                    if post.awaiting is Some {
                        if demand is Resume {
                            let settled = TreeView::Component(
                                InstanceView { render_result: None, ..instance },
                            );
                            let nothing = Seq::<ItemView<C, N, V, P>>::empty();
                            lemma_put_grounded(rest.tree, rest.items, current, settled, nothing);
                            assert(rest.items + nothing =~= rest.items);
                        } else {
                            lemma_begun_grounded(rest, current, ctx, instance, post, demand);
                        }
                    } else {
                        let added = seq![
                            ItemView::<C, N, V, P>::Reload { current: current.push(0), ctx },
                        ];
                        let slot = |k: int| 0int;
                        lemma_slots(rest.tree, current, node, added, slot);
                        lemma_extend(rest.tree, rest.items, current, rest.tree, added);
                        assert(rest.items + added =~= rest.items.push(added[0]));
                    }
                },
                TreeView::Node(output, children) => {
                    lemma_sized_each(children, 0, 0);
                    lemma_fanned_grounded(
                        rest.tree,
                        rest.items,
                        current,
                        node,
                        children,
                        reload,
                        ContextView { parent: output, sibling: None, context: ctx.context },
                        None,
                        reload,
                    );
                },
                TreeView::Fragment(children) => {
                    lemma_sized_each(children, 0, 0);
                    lemma_fanned_grounded(
                        rest.tree,
                        rest.items,
                        current,
                        node,
                        children,
                        reload,
                        ctx,
                        ctx.sibling,
                        true,
                    );
                },
                TreeView::Provider(key, value, children) => {
                    lemma_sized_each(children, 0, 0);
                    lemma_fanned_grounded(
                        rest.tree,
                        rest.items,
                        current,
                        node,
                        children,
                        reload,
                        ContextView { context: ctx.context.insert(key, value), ..ctx },
                        ctx.sibling,
                        true,
                    );
                },
            }
        },
    }
}

/// A step that holds children against sized descriptions leaves the loop
/// grounded.
proof fn lemma_diffed_step<
    C: AnyComponent,
    N,
    V,
    P,
    U: FnOnce(Arc<V>) -> Arc<V>,
    A,
    F: FnOnce(A) -> K,
    K: FnOnce(),
>(
    rest: LoopView<C, N, V, P, U, A, F, K>,
    current: Seq<usize>,
    children: Seq<TreeView<C, N, V, P>>,
    elements: Seq<ElementView<C, N, V>>,
    ctx: ContextView<N, V>,
    node: TreeView<C, N, V, P>,
    post: LoopView<C, N, V, P, U, A, F, K>,
)
    requires
        work_grounded(rest.tree, rest.items),
        clear_of(rest.items, current),
        rest.tree.at(current) is Some,
        rest.awaiting is None,
        sized_from(children, 0),
        sized_elements(elements, 0),
        forall|i: int|
            node.child(i) == TreeView::nth(diffed_children(children, elements, rest.ids).0, i),
        sized(node) <== sized_from(diffed_children(children, elements, rest.ids).0, 0),
        rest.diffed(current, children, elements, ctx, node, post),
    ensures
        grounded(post),
{
    lemma_diffed_sized(children, elements, rest.ids);
    lemma_diffed_grounded(rest.tree, rest.items, current, children, elements, ctx, node);
}

/// A step that holds a subtree against a sized description leaves the loop
/// grounded.
proof fn lemma_updated_grounded<
    C: AnyComponent,
    N,
    V,
    P,
    U: FnOnce(Arc<V>) -> Arc<V>,
    A,
    F: FnOnce(A) -> K,
    K: FnOnce(),
>(
    rest: LoopView<C, N, V, P, U, A, F, K>,
    current: Seq<usize>,
    next: ElementView<C, N, V>,
    ctx: ContextView<N, V>,
    post: LoopView<C, N, V, P, U, A, F, K>,
    demand: DemandView<C, N, V, P, A, F, K>,
)
    requires
        work_grounded(rest.tree, rest.items),
        clear_of(rest.items, current),
        rest.awaiting is None,
        sized_element(next),
        rest.updated(current, next, ctx, post, demand),
    ensures
        grounded(post),
{
    match rest.tree.at(current) {
        None => {},
        Some(node) => {
            lemma_at_sized(rest.tree, current, node);
            match (node, next) {
                (TreeView::Component(instance), ElementView::Component(component)) => {
                    let diff = choose|diff: ComponentDiff| #[trigger]
                        compared(component, instance.component, diff) && rest.compared_to(
                            current,
                            instance,
                            component,
                            ctx,
                            diff,
                            post,
                            demand,
                        );
                    match diff {
                        ComponentDiff::Equal => {
                            let added = seq![ItemView::<C, N, V, P>::Reload { current, ctx }];
                            lemma_extend(rest.tree, rest.items, current, rest.tree, added);
                            assert(rest.items + added =~= rest.items.push(added[0]));
                        },
                        ComponentDiff::NewProps => {
                            lemma_begun_grounded(
                                rest,
                                current,
                                ctx,
                                InstanceView { component, ..instance },
                                post,
                                demand,
                            );
                        },
                        ComponentDiff::NewType => {
                            lemma_replaced_grounded(rest, current, node, next, ctx, post);
                        },
                    }
                },
                (TreeView::Node(old, children), ElementView::Node(payload, elements)) => {
                    let new = Arc::new(payload);
                    lemma_diffed_step(
                        rest,
                        current,
                        children,
                        elements,
                        ContextView { parent: new, sibling: None, context: ctx.context },
                        TreeView::Node(new, diffed_children(children, elements, rest.ids).0),
                        post,
                    );
                },
                (TreeView::Fragment(children), ElementView::Fragment(elements)) => {
                    lemma_diffed_step(
                        rest,
                        current,
                        children,
                        elements,
                        ctx,
                        TreeView::Fragment(diffed_children(children, elements, rest.ids).0),
                        post,
                    );
                },
                (
                    TreeView::Provider(_, _, children),
                    ElementView::Provider(key, value, elements),
                ) => {
                    lemma_diffed_step(
                        rest,
                        current,
                        children,
                        elements,
                        ContextView { context: ctx.context.insert(key, value), ..ctx },
                        TreeView::Provider(
                            key,
                            value,
                            diffed_children(children, elements, rest.ids).0,
                        ),
                        post,
                    );
                },
                _ => {
                    lemma_replaced_grounded(rest, current, node, next, ctx, post);
                },
            }
        },
    }
}

/// Work that names no node can be added to grounded work.
proof fn lemma_pathless<C, N, V, P>(
    tree: TreeView<C, N, V, P>,
    items: Seq<ItemView<C, N, V, P>>,
    added: Seq<ItemView<C, N, V, P>>,
)
    requires
        work_grounded(tree, items),
        forall|k: int| 0 <= k < added.len() ==> path_of(#[trigger] added[k]) is None,
    ensures
        work_grounded(tree, items + added),
{
    let all = items + added;
    assert forall|i: int| 0 <= i < all.len() implies item_grounded(tree, #[trigger] all[i]) by {
        if i < items.len() {
            assert(all[i] == items[i]);
        } else {
            assert(all[i] == added[i - items.len()]);
        }
    }
    assert forall|i: int, j: int| 0 <= i < j < all.len() implies items_apart(
        #[trigger] all[i],
        #[trigger] all[j],
    ) by {
        if j < items.len() {
            assert(all[i] == items[i] && all[j] == items[j]);
        } else {
            assert(all[j] == added[j - items.len()]);
        }
    }
}

/// A step that tears a subtree down by one level leaves the loop grounded.
proof fn lemma_removed_grounded<
    C: AnyComponent,
    N,
    V,
    P,
    U: FnOnce(Arc<V>) -> Arc<V>,
    A,
    F: FnOnce(A) -> K,
    K: FnOnce(),
>(
    rest: LoopView<C, N, V, P, U, A, F, K>,
    node: TreeView<C, N, V, P>,
    parent: Arc<N>,
    post: LoopView<C, N, V, P, U, A, F, K>,
    demand: DemandView<C, N, V, P, A, F, K>,
)
    requires
        work_grounded(rest.tree, rest.items),
        rest.awaiting is None,
        rest.removed(node, parent, post, demand),
    ensures
        grounded(post),
{
    match node {
        TreeView::Component(instance) => match instance.child {
            Some(child) => {
                let added = seq![ItemView::<C, N, V, P>::Remove { current: *child, parent }];
                lemma_pathless(rest.tree, rest.items, added);
                assert(rest.items + added =~= rest.items.push(added[0]));
            },
            None => {},
        },
        TreeView::Node(output, children) => {
            lemma_pathless(rest.tree, rest.items, teardown(children, output));
        },
        TreeView::Fragment(children) => {
            lemma_pathless(rest.tree, rest.items, teardown(children, parent));
        },
        TreeView::Provider(_, _, children) => {
            lemma_pathless(rest.tree, rest.items, teardown(children, parent));
        },
    }
}

/// Grounded work without the piece that was put on the list last is
/// grounded, and clear of what that piece names.
proof fn lemma_rest_grounded<C, N, V, P>(
    tree: TreeView<C, N, V, P>,
    items: Seq<ItemView<C, N, V, P>>,
)
    requires
        work_grounded(tree, items),
        items.len() > 0,
    ensures
        work_grounded(tree, items.drop_last()),
        item_grounded(tree, items.last()),
        match path_of(items.last()) {
            Some(p) => clear_of(items.drop_last(), p),
            None => true,
        },
{
    let rest = items.drop_last();
    assert forall|i: int| 0 <= i < rest.len() implies item_grounded(tree, #[trigger] rest[i]) by {
        assert(rest[i] == items[i]);
    }
    assert forall|i: int, j: int| 0 <= i < j < rest.len() implies items_apart(
        #[trigger] rest[i],
        #[trigger] rest[j],
    ) by {
        assert(rest[i] == items[i] && rest[j] == items[j]);
    }
    match path_of(items.last()) {
        Some(p) => {
            assert forall|i: int| 0 <= i < rest.len() implies item_clear(#[trigger] rest[i], p) by {
                assert(rest[i] == items[i]);
                assert(items_apart(items[i], items[items.len() - 1]));
            }
        },
        None => {},
    }
}

/// In a grounded loop the piece of work that is taken next names a node that
/// is in the tree: no step drops work because its path leads nowhere.
pub proof fn lemma_next_found<
    C: AnyComponent,
    N,
    V,
    P,
    U: FnOnce(Arc<V>) -> Arc<V>,
    A,
    F: FnOnce(A) -> K,
    K: FnOnce(),
>(state: LoopView<C, N, V, P, U, A, F, K>)
    requires
        grounded(state),
        state.items.len() > 0,
    ensures
        match path_of(state.items.last()) {
            Some(path) => state.tree.at(path) is Some,
            None => true,
        },
{
    lemma_rest_grounded(state.tree, state.items);
}

/// Every step keeps the loop grounded: whatever work a step leaves names
/// nodes that are in the tree, and no two pieces of it reach into each
/// other's subtree.
pub proof fn lemma_step_grounded<
    C: AnyComponent,
    N,
    V,
    P,
    U: FnOnce(Arc<V>) -> Arc<V>,
    A,
    F: FnOnce(A) -> K,
    K: FnOnce(),
>(
    pre: LoopView<C, N, V, P, U, A, F, K>,
    post: LoopView<C, N, V, P, U, A, F, K>,
    demand: DemandView<C, N, V, P, A, F, K>,
)
    requires
        grounded(pre),
        pre.stepped(post, demand),
    ensures
        grounded(post),
{
    if pre.awaiting is None && pre.items.len() > 0 {
        let rest = LoopView { items: pre.items.drop_last(), ..pre };
        lemma_rest_grounded(pre.tree, pre.items);
        match pre.items.last() {
            ItemView::Create { current, ctx } => {
                lemma_visited_grounded(rest, false, current, ctx, post, demand);
            },
            ItemView::Reload { current, ctx } => {
                lemma_visited_grounded(rest, true, current, ctx, post, demand);
            },
            ItemView::Update { current, next, ctx } => {
                lemma_updated_grounded(rest, current, next, ctx, post, demand);
            },
            ItemView::Remove { current, parent } => {
                lemma_removed_grounded(rest, current, parent, post, demand);
            },
        }
    }
}

/// Every report of a render with a sized description keeps the loop
/// grounded.
pub proof fn lemma_report_grounded<
    C: AnyComponent,
    N,
    V,
    P,
    U: FnOnce(Arc<V>) -> Arc<V>,
    A,
    F: FnOnce(A) -> K,
    K: FnOnce(),
    E,
>(
    pre: LoopView<C, N, V, P, U, A, F, K>,
    outcome: OutcomeView<C, N, V, P, A, F, K, E>,
    post: LoopView<C, N, V, P, U, A, F, K>,
    failed: Option<E>,
)
    requires
        grounded(pre),
        pre.reported(outcome, post, failed),
        match outcome {
            RunOrSuspendResult::Done((Ok(element), _)) => sized_element(element),
            _ => true,
        },
    ensures
        grounded(post),
{
    match pre.awaiting {
        None => {},
        Some(awaited) => {
            let current = awaited.current;
            let ctx = awaited.ctx;
            let nothing = Seq::<ItemView<C, N, V, P>>::empty();
            assert(pre.items + nothing =~= pre.items);
            match pre.tree.at(current) {
                Some(TreeView::Component(instance)) => {
                    let node = TreeView::Component(instance);
                    lemma_at_sized(pre.tree, current, node);
                    match outcome {
                        RunOrSuspendResult::Suspend(pending) => {
                            let after = TreeView::Component(
                                InstanceView { render_result: Some(pending), ..instance },
                            );
                            pre.tree.lemma_at_put(current, after);
                            if awaited.resumed && instance.child is Some {
                                let added = seq![
                                    ItemView::<C, N, V, P>::Reload {
                                        current: current.push(0),
                                        ctx,
                                    },
                                ];
                                let slot = |k: int| 0int;
                                lemma_slots(
                                    pre.tree.put(current, after),
                                    current,
                                    after,
                                    added,
                                    slot,
                                );
                                lemma_put_grounded(pre.tree, pre.items, current, after, added);
                                assert(pre.items + added =~= pre.items.push(added[0]));
                            } else {
                                lemma_put_grounded(pre.tree, pre.items, current, after, nothing);
                            }
                        },
                        RunOrSuspendResult::Done((result, hook)) => {
                            let settled = InstanceView {
                                render_result: None,
                                state: hook.state,
                                refs: hook.refs,
                                ..instance
                            };
                            match result {
                                Ok(element) => match instance.child {
                                    Some(_) => {
                                        let after = TreeView::Component(settled);
                                        let added = seq![
                                            ItemView::<C, N, V, P>::Update {
                                                current: current.push(0),
                                                next: element,
                                                ctx,
                                            },
                                        ];
                                        let slot = |k: int| 0int;
                                        pre.tree.lemma_at_put(current, after);
                                        lemma_slots(
                                            pre.tree.put(current, after),
                                            current,
                                            after,
                                            added,
                                            slot,
                                        );
                                        lemma_put_grounded(
                                            pre.tree,
                                            pre.items,
                                            current,
                                            after,
                                            added,
                                        );
                                        assert(pre.items + added =~= pre.items.push(added[0]));
                                    },
                                    None => {
                                        let child = TreeView::<C, N, V, P>::from_element(
                                            element,
                                            pre.ids,
                                        ).0;
                                        let after = TreeView::Component(
                                            InstanceView {
                                                child: Some(Box::new(child)),
                                                ..settled
                                            },
                                        );
                                        let added = seq![
                                            ItemView::<C, N, V, P>::Create {
                                                current: current.push(0),
                                                ctx,
                                            },
                                        ];
                                        let slot = |k: int| 0int;
                                        lemma_fresh_sized::<C, N, V, P>(element, pre.ids);
                                        pre.tree.lemma_at_put(current, after);
                                        lemma_slots(
                                            pre.tree.put(current, after),
                                            current,
                                            after,
                                            added,
                                            slot,
                                        );
                                        lemma_put_grounded(
                                            pre.tree,
                                            pre.items,
                                            current,
                                            after,
                                            added,
                                        );
                                        assert(pre.items + added =~= pre.items.push(added[0]));
                                    },
                                },
                                Err(_) => {
                                    lemma_put_grounded(
                                        pre.tree,
                                        pre.items,
                                        current,
                                        TreeView::Component(settled),
                                        nothing,
                                    );
                                },
                            }
                        },
                    }
                },
                _ => {},
            }
        },
    }
}

/// Every tree that the library holds is sized.
pub proof fn lemma_tree_sized<C, N, V, P>(node: TreeNode<C, N, V, P>)
    ensures
        sized(node@),
    decreases node,
{
    match node {
        TreeNode::Component(instance) => match instance.child {
            Some(child) => lemma_tree_sized(*child),
            None => {},
        },
        TreeNode::Node(_, children) => lemma_trees_sized(children),
        TreeNode::Fragment(children) => lemma_trees_sized(children),
        TreeNode::Provider(_, _, children) => lemma_trees_sized(children),
    }
}

/// Every list of trees that the library holds is sized.
proof fn lemma_trees_sized<C, N, V, P>(children: Vec<TreeNode<C, N, V, P>>)
    ensures
        sized_from(TreeNode::views(children@), 0),
    decreases children,
{
    let views = TreeNode::views(children@);
    assert(children.len() == children@.len());
    assert forall|i: int| 0 <= i < views.len() implies sized(#[trigger] views[i]) by {
        lemma_tree_sized(children@[i]);
    }
    lemma_sized_all(views, 0);
}

/// Every description that the library holds is sized.
pub proof fn lemma_element_sized<C, N, V>(element: Element<C, N, V>)
    ensures
        sized_element(element@),
    decreases element,
{
    match element {
        Element::Component(_) => {},
        Element::Node(_, children) => lemma_elements_sized(children),
        Element::Fragment(children) => lemma_elements_sized(children),
        Element::Provider(_, _, children) => lemma_elements_sized(children),
    }
}

/// Every list of descriptions that the library holds is sized.
proof fn lemma_elements_sized<C, N, V>(children: Vec<Element<C, N, V>>)
    ensures
        sized_elements(Element::views(children@), 0),
    decreases children,
{
    let views = Element::views(children@);
    assert(children.len() == children@.len());
    assert forall|i: int| 0 <= i < views.len() implies sized_element(#[trigger] views[i]) by {
        lemma_element_sized(children@[i]);
    }
    lemma_sized_element_all(views, 0);
}

/// A cycle begins grounded: a loop that waits for no render and has no work
/// left is grounded once the visit of the root is queued.
pub proof fn lemma_start_grounded<
    C: AnyComponent,
    N,
    V,
    P,
    U: FnOnce(Arc<V>) -> Arc<V>,
    A,
    F: FnOnce(A) -> K,
    K: FnOnce(),
>(
    pre: LoopView<C, N, V, P, U, A, F, K>,
    post: LoopView<C, N, V, P, U, A, F, K>,
    ctx: ContextView<N, V>,
)
    requires
        sized(pre.tree),
        pre.items.len() == 0,
        pre.awaiting is None,
        post == (LoopView {
            inbox: post.inbox,
            items: pre.items.push(ItemView::Reload { current: Seq::empty(), ctx }),
            ..pre
        }),
    ensures
        grounded(post),
{
}

} // verus!
