//! Component instances are numbered: while the supply of identifiers lasts,
//! no two instances in the tree have the same identifier, and every
//! identifier in the tree was handed out before.  Steps and reports keep it
//! so, which is what lets updates, effects and cleanups find their instance
//! by its identifier alone.

use crate::component::{compared, AnyComponent, ComponentDiff};
use crate::element::ElementView;
use crate::render_loop::{diffed_children, kept, DemandView, LoopView, OutcomeView};
use crate::render_queue::{ContextView, ItemView};
use crate::suspense::RunOrSuspendResult;
use crate::tree::{InstanceView, TreeView};
use std::sync::Arc;
use vstd::prelude::*;

verus! {

/// The identifier of the component instance that the path leads to, if it
/// leads to one.
pub open spec fn id_at<C, N, V, P>(tree: TreeView<C, N, V, P>, path: Seq<usize>) -> Option<u64> {
    match tree.at(path) {
        Some(TreeView::Component(instance)) => Some(instance.id),
        _ => None,
    }
}

/// No two component instances of the subtree have the same identifier.
pub open spec fn unique<C, N, V, P>(tree: TreeView<C, N, V, P>) -> bool {
    forall|p: Seq<usize>, q: Seq<usize>|
        (#[trigger] id_at(tree, p)) is Some && id_at(tree, p) == #[trigger] id_at(tree, q) ==> p
            == q
}

/// Every identifier in the subtree is less than `bound`.
pub open spec fn below<C, N, V, P>(tree: TreeView<C, N, V, P>, bound: u64) -> bool {
    forall|p: Seq<usize>|
        match #[trigger] id_at(tree, p) {
            Some(id) => id < bound,
            None => true,
        }
}

/// Every identifier in the subtree is at least `bound`.
pub open spec fn above<C, N, V, P>(tree: TreeView<C, N, V, P>, bound: u64) -> bool {
    forall|p: Seq<usize>|
        match #[trigger] id_at(tree, p) {
            Some(id) => bound <= id,
            None => true,
        }
}

/// A path in two parts leads to where the second part leads from the node
/// that the first part leads to.
pub proof fn lemma_at_join<C, N, V, P>(tree: TreeView<C, N, V, P>, p: Seq<usize>, r: Seq<usize>)
    ensures
        tree.at(p + r) == match tree.at(p) {
            Some(node) => node.at(r),
            None => None,
        },
    decreases p.len(),
{
    let whole = p + r;
    if p.len() == 0 {
        assert(whole =~= r);
    } else {
        assert(whole[0] == p[0]);
        assert(whole.skip(1) =~= p.skip(1) + r);
        match tree.child(p[0] as int) {
            Some(child) => lemma_at_join(child, p.skip(1), r),
            None => {},
        }
    }
}

/// Putting a node somewhere below a place does not change which instance
/// stands at that place.
pub proof fn lemma_put_above<C, N, V, P>(
    tree: TreeView<C, N, V, P>,
    q: Seq<usize>,
    s: Seq<usize>,
    node: TreeView<C, N, V, P>,
)
    requires
        s.len() > 0,
    ensures
        id_at(tree.put(q + s, node), q) == id_at(tree, q),
    decreases q.len(),
{
    let whole = q + s;
    if q.len() == 0 {
        assert(whole =~= s);
    } else {
        assert(whole[0] == q[0]);
        assert(whole.skip(1) =~= q.skip(1) + s);
        match tree.child(q[0] as int) {
            Some(child) => {
                let changed = child.put(whole.skip(1), node);
                lemma_put_above(child, q.skip(1), s, node);
                assert(tree.with_child(q[0] as int, changed).child(q[0] as int) == Some(changed));
            },
            None => {},
        }
    }
}

/// Which instance stands at a place after a node was put somewhere: at or
/// below where it was put, what stands there in the node; everywhere else,
/// what stood there before.
pub proof fn lemma_id_after_put<C, N, V, P>(
    tree: TreeView<C, N, V, P>,
    p: Seq<usize>,
    old_node: TreeView<C, N, V, P>,
    node: TreeView<C, N, V, P>,
    q: Seq<usize>,
)
    requires
        tree.at(p) == Some(old_node),
    ensures
        p.is_prefix_of(q) ==> id_at(tree.put(p, node), q) == id_at(node, q.skip(p.len() as int))
            && id_at(tree, q) == id_at(old_node, q.skip(p.len() as int)),
        !p.is_prefix_of(q) ==> id_at(tree.put(p, node), q) == id_at(tree, q),
{
    if p.is_prefix_of(q) {
        let r = q.skip(p.len() as int);
        assert(q =~= p + r);
        tree.lemma_at_put(p, node);
        lemma_at_join(tree.put(p, node), p, r);
        lemma_at_join(tree, p, r);
    } else if q.is_prefix_of(p) {
        let s = p.skip(q.len() as int);
        assert(p =~= q + s);
        if s.len() == 0 {
            assert(p =~= q);
        }
        lemma_put_above(tree, q, s, node);
    } else {
        crate::grounding::lemma_put_apart(tree, p, q, node);
    }
}

/// A subtree of a tree with distinct identifiers has distinct identifiers,
/// within the same bound.
pub proof fn lemma_sub_numbered<C, N, V, P>(
    tree: TreeView<C, N, V, P>,
    p: Seq<usize>,
    node: TreeView<C, N, V, P>,
    bound: u64,
)
    requires
        unique(tree),
        below(tree, bound),
        tree.at(p) == Some(node),
    ensures
        unique(node),
        below(node, bound),
        forall|r: Seq<usize>| #[trigger] id_at(node, r) == id_at(tree, p + r),
{
    assert forall|r: Seq<usize>| #[trigger] id_at(node, r) == id_at(tree, p + r) by {
        lemma_at_join(tree, p, r);
    }
    assert forall|r: Seq<usize>, s: Seq<usize>|
        (#[trigger] id_at(node, r)) is Some && id_at(node, r) == #[trigger] id_at(
            node,
            s,
        ) implies r == s by {
        assert(id_at(tree, p + r) == id_at(tree, p + s));
        assert((p + r).skip(p.len() as int) =~= r);
        assert((p + s).skip(p.len() as int) =~= s);
    }
    assert forall|r: Seq<usize>| true implies match #[trigger] id_at(node, r) {
        Some(id) => id < bound,
        None => true,
    } by {
        assert(id_at(node, r) == id_at(tree, p + r));
    }
}

/// A tree keeps distinct identifiers when a node is put into it whose
/// instances either stood at the same place before or are new, and the new
/// ones are distinct.
pub proof fn lemma_put_numbered<C, N, V, P>(
    tree: TreeView<C, N, V, P>,
    p: Seq<usize>,
    old_node: TreeView<C, N, V, P>,
    node: TreeView<C, N, V, P>,
    bound: u64,
    free: u64,
)
    requires
        unique(tree),
        below(tree, bound),
        tree.at(p) == Some(old_node),
        bound <= free,
        below(node, free),
        forall|r: Seq<usize>|
            match #[trigger] id_at(node, r) {
                Some(id) => id_at(old_node, r) == Some(id) || bound <= id,
                None => true,
            },
        forall|r: Seq<usize>, s: Seq<usize>|
            (#[trigger] id_at(node, r)) matches Some(id) && bound <= id && id_at(node, r)
                == #[trigger] id_at(node, s) ==> r == s,
    ensures
        unique(tree.put(p, node)),
        below(tree.put(p, node), free),
{
    let changed = tree.put(p, node);
    assert forall|q: Seq<usize>| true implies match #[trigger] id_at(changed, q) {
        Some(id) => id < free,
        None => true,
    } by {
        lemma_id_after_put(tree, p, old_node, node, q);
        if p.is_prefix_of(q) {
            assert(id_at(changed, q) == id_at(node, q.skip(p.len() as int)));
        } else {
            assert(id_at(changed, q) == id_at(tree, q));
        }
    }
    assert forall|q: Seq<usize>, t: Seq<usize>|
        (#[trigger] id_at(changed, q)) is Some && id_at(changed, q) == #[trigger] id_at(
            changed,
            t,
        ) implies q == t by {
        lemma_id_after_put(tree, p, old_node, node, q);
        lemma_id_after_put(tree, p, old_node, node, t);
        let id = id_at(changed, q)->0;
        let r = q.skip(p.len() as int);
        let s = t.skip(p.len() as int);
        if p.is_prefix_of(q) && p.is_prefix_of(t) {
            assert(q =~= p + r);
            assert(t =~= p + s);
            assert(id_at(node, r) == Some(id) && id_at(node, s) == Some(id));
            if bound <= id {
                assert(r == s);
            } else {
                assert(id_at(tree, q) == Some(id) && id_at(tree, t) == Some(id));
            }
        } else if p.is_prefix_of(q) {
            assert(id_at(node, r) == Some(id));
            assert(id_at(tree, t) == Some(id));
            assert(id_at(tree, q) == Some(id));
        } else if p.is_prefix_of(t) {
            assert(id_at(node, s) == Some(id));
            assert(id_at(tree, q) == Some(id));
            assert(id_at(tree, t) == Some(id));
        } else {
            assert(id_at(tree, q) == Some(id) && id_at(tree, t) == Some(id));
        }
    }
}

/// The subtrees have distinct identifiers, each within itself and among
/// each other, all of them from `lo` on and less than `hi`.
pub open spec fn list_numbered<C, N, V, P>(
    nodes: Seq<TreeView<C, N, V, P>>,
    lo: u64,
    hi: u64,
) -> bool {
    &&& forall|i: int|
        0 <= i < nodes.len() ==> unique(#[trigger] nodes[i]) && above(nodes[i], lo) && below(
            nodes[i],
            hi,
        )
    &&& forall|i: int, j: int, p: Seq<usize>, q: Seq<usize>|
        0 <= i < nodes.len() && 0 <= j < nodes.len() && i != j && (#[trigger] id_at(
            nodes[i],
            p,
        )) is Some ==> id_at(nodes[i], p) != #[trigger] id_at(nodes[j], q)
}

/// Which instance a path leads to in a node that is no component: the one
/// that the rest of the path leads to in the child that its first step
/// chooses.
pub proof fn lemma_id_in_children<C, N, V, P>(
    node: TreeView<C, N, V, P>,
    children: Seq<TreeView<C, N, V, P>>,
    r: Seq<usize>,
)
    requires
        !(node is Component),
        forall|i: int| node.child(i) == TreeView::nth(children, i),
    ensures
        id_at(node, r) == if r.len() > 0 && r[0] < children.len() {
            id_at(children[r[0] as int], r.skip(1))
        } else {
            None
        },
{
    if r.len() > 0 {
        assert(node.child(r[0] as int) == TreeView::nth(children, r[0] as int));
    }
}

/// A node that is no component and whose children are numbered has distinct
/// identifiers within the same bounds.
pub proof fn lemma_container_numbered<C, N, V, P>(
    node: TreeView<C, N, V, P>,
    children: Seq<TreeView<C, N, V, P>>,
    lo: u64,
    hi: u64,
)
    requires
        !(node is Component),
        forall|i: int| node.child(i) == TreeView::nth(children, i),
        list_numbered(children, lo, hi),
    ensures
        unique(node),
        above(node, lo),
        below(node, hi),
{
    assert forall|r: Seq<usize>| true implies match #[trigger] id_at(node, r) {
        Some(id) => lo <= id < hi,
        None => true,
    } by {
        lemma_id_in_children(node, children, r);
        if r.len() > 0 && r[0] < children.len() {
            assert(id_at(node, r) == id_at(children[r[0] as int], r.skip(1)));
        }
    }
    assert forall|r: Seq<usize>, s: Seq<usize>|
        (#[trigger] id_at(node, r)) is Some && id_at(node, r) == #[trigger] id_at(
            node,
            s,
        ) implies r == s by {
        lemma_id_in_children(node, children, r);
        lemma_id_in_children(node, children, s);
        let i = r[0] as int;
        let j = s[0] as int;
        assert(id_at(children[i], r.skip(1)) == id_at(children[j], s.skip(1)));
        if i == j {
            assert(r.skip(1) == s.skip(1));
            assert(r =~= seq![r[0]] + r.skip(1));
            assert(s =~= seq![s[0]] + s.skip(1));
        }
    }
}

/// The fresh subtree for a description has distinct identifiers, the ones
/// from `first` up to the next that is free, as long as the supply lasts.
pub proof fn lemma_fresh_numbered<C, N, V, P>(element: ElementView<C, N, V>, first: u64)
    requires
        TreeView::<C, N, V, P>::from_element(element, first).1 < u64::MAX,
    ensures
        first <= TreeView::<C, N, V, P>::from_element(element, first).1,
        unique(TreeView::<C, N, V, P>::from_element(element, first).0),
        above(TreeView::<C, N, V, P>::from_element(element, first).0, first),
        below(
            TreeView::<C, N, V, P>::from_element(element, first).0,
            TreeView::<C, N, V, P>::from_element(element, first).1,
        ),
    decreases element, 0int,
{
    let (node, free) = TreeView::<C, N, V, P>::from_element(element, first);
    match element {
        ElementView::Component(_) => {
            assert forall|r: Seq<usize>| true implies #[trigger] id_at(node, r) == if r.len()
                == 0 {
                Some(first)
            } else {
                None
            } by {}
            assert forall|r: Seq<usize>, s: Seq<usize>|
                (#[trigger] id_at(node, r)) is Some && id_at(node, r) == #[trigger] id_at(
                    node,
                    s,
                ) implies r == s by {
                assert(r =~= s);
            }
        },
        ElementView::Node(_, children) => {
            lemma_fresh_numbered_all::<C, N, V, P>(children, first);
            let nodes = TreeView::<C, N, V, P>::from_elements(children, first).0;
            lemma_container_numbered(node, nodes, first, free);
        },
        ElementView::Fragment(children) => {
            lemma_fresh_numbered_all::<C, N, V, P>(children, first);
            let nodes = TreeView::<C, N, V, P>::from_elements(children, first).0;
            lemma_container_numbered(node, nodes, first, free);
        },
        ElementView::Provider(_, _, children) => {
            lemma_fresh_numbered_all::<C, N, V, P>(children, first);
            let nodes = TreeView::<C, N, V, P>::from_elements(children, first).0;
            lemma_container_numbered(node, nodes, first, free);
        },
    }
}

/// The fresh subtrees for a list of descriptions are numbered from `first`
/// up to the next identifier that is free, as long as the supply lasts.
pub proof fn lemma_fresh_numbered_all<C, N, V, P>(elements: Seq<ElementView<C, N, V>>, first: u64)
    requires
        TreeView::<C, N, V, P>::from_elements(elements, first).1 < u64::MAX,
    ensures
        first <= TreeView::<C, N, V, P>::from_elements(elements, first).1,
        TreeView::<C, N, V, P>::from_elements(elements, first).0.len() == elements.len(),
        list_numbered(
            TreeView::<C, N, V, P>::from_elements(elements, first).0,
            first,
            TreeView::<C, N, V, P>::from_elements(elements, first).1,
        ),
    decreases elements, 1int, elements.len(),
{
    if elements.len() > 0 {
        let (front, middle) = TreeView::<C, N, V, P>::from_elements(elements.drop_last(), first);
        let (node, free) = TreeView::<C, N, V, P>::from_element(elements.last(), middle);
        lemma_fresh_numbered::<C, N, V, P>(elements.last(), middle);
        lemma_fresh_numbered_all::<C, N, V, P>(elements.drop_last(), first);
        lemma_list_push(front, node, first, middle, free);
    }
}

/// Numbered subtrees stay numbered when a subtree follows them whose
/// identifiers start where theirs end.
proof fn lemma_list_push<C, N, V, P>(
    front: Seq<TreeView<C, N, V, P>>,
    node: TreeView<C, N, V, P>,
    lo: u64,
    middle: u64,
    hi: u64,
)
    requires
        lo <= middle <= hi,
        list_numbered(front, lo, middle),
        unique(node),
        above(node, middle),
        below(node, hi),
    ensures
        list_numbered(front.push(node), lo, hi),
{
    let all = front.push(node);
    assert forall|i: int| 0 <= i < all.len() implies unique(#[trigger] all[i]) && above(
        all[i],
        lo,
    ) && below(all[i], hi) by {
        if i < front.len() {
            assert(all[i] == front[i]);
            assert forall|p: Seq<usize>| true implies match #[trigger] id_at(all[i], p) {
                Some(id) => id < hi,
                None => true,
            } by {
                assert(below(front[i], middle));
            }
        } else {
            assert forall|p: Seq<usize>| true implies match #[trigger] id_at(all[i], p) {
                Some(id) => lo <= id,
                None => true,
            } by {
                assert(above(node, middle));
            }
        }
    }
    assert forall|i: int, j: int, p: Seq<usize>, q: Seq<usize>|
        0 <= i < all.len() && 0 <= j < all.len() && i != j && (#[trigger] id_at(
            all[i],
            p,
        )) is Some implies id_at(all[i], p) != #[trigger] id_at(all[j], q) by {
        if i < front.len() && j < front.len() {
            assert(all[i] == front[i] && all[j] == front[j]);
        } else if i < front.len() {
            assert(all[i] == front[i]);
            assert(below(front[i], middle));
            assert(above(node, middle));
        } else {
            assert(all[j] == front[j]);
            assert(below(front[j], middle));
            assert(above(node, middle));
        }
    }
}

/// The loop's instances are numbered: no two in the tree have the same
/// identifier, and every identifier in the tree is less than the next one
/// that the loop hands out.
pub open spec fn numbered<
    C: AnyComponent,
    N,
    V,
    P,
    U: FnOnce(Arc<V>) -> Arc<V>,
    A,
    F: FnOnce(A) -> K,
    K: FnOnce(),
>(state: LoopView<C, N, V, P, U, A, F, K>) -> bool {
    unique(state.tree) && below(state.tree, state.ids)
}

/// Two instances with the same identifier and the same child have the same
/// instances at the same places.
proof fn lemma_same_instance<C, N, V, P>(
    a: InstanceView<C, N, V, P>,
    b: InstanceView<C, N, V, P>,
)
    requires
        a.id == b.id,
        a.child == b.child,
    ensures
        forall|r: Seq<usize>| #[trigger]
            id_at(TreeView::Component(a), r) == id_at(TreeView::Component(b), r),
{
    assert forall|r: Seq<usize>| #[trigger]
        id_at(TreeView::Component(a), r) == id_at(TreeView::Component(b), r) by {
        if r.len() > 0 {
            assert(TreeView::Component(a).child(r[0] as int) == TreeView::Component(b).child(
                r[0] as int,
            ));
        }
    }
}

/// A tree stays numbered when a node is put into it that has the same
/// instances at the same places as the node that stood there.
proof fn lemma_put_same_ids<C, N, V, P>(
    tree: TreeView<C, N, V, P>,
    p: Seq<usize>,
    old_node: TreeView<C, N, V, P>,
    node: TreeView<C, N, V, P>,
    bound: u64,
)
    requires
        unique(tree),
        below(tree, bound),
        tree.at(p) == Some(old_node),
        forall|r: Seq<usize>| #[trigger] id_at(node, r) == id_at(old_node, r),
    ensures
        unique(tree.put(p, node)),
        below(tree.put(p, node), bound),
{
    lemma_sub_numbered(tree, p, old_node, bound);
    assert forall|r: Seq<usize>| true implies match #[trigger] id_at(node, r) {
        Some(id) => id < bound && id_at(old_node, r) == Some(id),
        None => true,
    } by {
        assert(id_at(node, r) == id_at(old_node, r));
    }
    lemma_put_numbered(tree, p, old_node, node, bound, bound);
}

/// A tree stays numbered when the fresh subtree for a description takes the
/// place of a node, as long as the supply of identifiers lasts.
proof fn lemma_put_fresh<C, N, V, P>(
    tree: TreeView<C, N, V, P>,
    p: Seq<usize>,
    old_node: TreeView<C, N, V, P>,
    element: ElementView<C, N, V>,
    bound: u64,
)
    requires
        unique(tree),
        below(tree, bound),
        tree.at(p) == Some(old_node),
        TreeView::<C, N, V, P>::from_element(element, bound).1 < u64::MAX,
    ensures
        unique(tree.put(p, TreeView::<C, N, V, P>::from_element(element, bound).0)),
        below(
            tree.put(p, TreeView::<C, N, V, P>::from_element(element, bound).0),
            TreeView::<C, N, V, P>::from_element(element, bound).1,
        ),
{
    let (node, free) = TreeView::<C, N, V, P>::from_element(element, bound);
    lemma_fresh_numbered::<C, N, V, P>(element, bound);
    lemma_put_numbered(tree, p, old_node, node, bound, free);
}

/// A tree stays numbered when an instance that has not rendered yet gets
/// the fresh subtree for what it rendered as its child, as long as the
/// supply of identifiers lasts.
proof fn lemma_put_mounted<C, N, V, P>(
    tree: TreeView<C, N, V, P>,
    p: Seq<usize>,
    instance: InstanceView<C, N, V, P>,
    mounted: InstanceView<C, N, V, P>,
    element: ElementView<C, N, V>,
    bound: u64,
)
    requires
        unique(tree),
        below(tree, bound),
        tree.at(p) == Some(TreeView::Component(instance)),
        TreeView::<C, N, V, P>::from_element(element, bound).1 < u64::MAX,
        mounted.id == instance.id,
        mounted.child == Some(Box::new(TreeView::<C, N, V, P>::from_element(element, bound).0)),
    ensures
        unique(tree.put(p, TreeView::Component(mounted))),
        below(
            tree.put(p, TreeView::Component(mounted)),
            TreeView::<C, N, V, P>::from_element(element, bound).1,
        ),
{
    let (child, free) = TreeView::<C, N, V, P>::from_element(element, bound);
    let old_node = TreeView::Component(instance);
    let node = TreeView::Component(mounted);
    lemma_fresh_numbered::<C, N, V, P>(element, bound);
    lemma_sub_numbered(tree, p, old_node, bound);
    let top = Seq::<usize>::empty();
    assert(id_at(old_node, top) == Some(instance.id));
    assert forall|r: Seq<usize>| true implies #[trigger] id_at(node, r) == if r.len() == 0 {
        Some(instance.id)
    } else if r[0] == 0 {
        id_at(child, r.skip(1))
    } else {
        None
    } by {}
    assert forall|r: Seq<usize>| true implies match #[trigger] id_at(node, r) {
        Some(id) => (id_at(old_node, r) == Some(id) || bound <= id) && id < free,
        None => true,
    } by {
        if r.len() == 0 {
            assert(r =~= top);
        } else if r[0] == 0 {
            assert(id_at(node, r) == id_at(child, r.skip(1)));
        }
    }
    assert forall|r: Seq<usize>, s: Seq<usize>|
        (#[trigger] id_at(node, r)) matches Some(id) && bound <= id && id_at(node, r)
            == #[trigger] id_at(node, s) implies r == s by {
        assert(id_at(child, r.skip(1)) == id_at(child, s.skip(1)));
        assert(r.skip(1) == s.skip(1));
        assert(r =~= seq![r[0]] + r.skip(1));
        assert(s =~= seq![s[0]] + s.skip(1));
    }
    lemma_put_numbered(tree, p, old_node, node, bound, free);
}

/// A tree stays numbered when the children of a node are held against a
/// list of descriptions, as long as the supply of identifiers lasts.
proof fn lemma_put_diffed<C, N, V, P>(
    tree: TreeView<C, N, V, P>,
    p: Seq<usize>,
    old_node: TreeView<C, N, V, P>,
    children: Seq<TreeView<C, N, V, P>>,
    elements: Seq<ElementView<C, N, V>>,
    node: TreeView<C, N, V, P>,
    bound: u64,
)
    requires
        unique(tree),
        below(tree, bound),
        tree.at(p) == Some(old_node),
        !(old_node is Component),
        forall|i: int| old_node.child(i) == TreeView::nth(children, i),
        !(node is Component),
        forall|i: int|
            node.child(i) == TreeView::nth(diffed_children(children, elements, bound).0, i),
        diffed_children(children, elements, bound).1 < u64::MAX,
    ensures
        unique(tree.put(p, node)),
        below(tree.put(p, node), diffed_children(children, elements, bound).1),
{
    let keep = kept(children.len() as int, elements.len() as int);
    let (fresh, free) = TreeView::<C, N, V, P>::from_elements(elements.skip(keep), bound);
    let kids = diffed_children(children, elements, bound).0;
    lemma_fresh_numbered_all::<C, N, V, P>(elements.skip(keep), bound);
    lemma_sub_numbered(tree, p, old_node, bound);
    assert forall|r: Seq<usize>| true implies match #[trigger] id_at(node, r) {
        Some(id) => {
            &&& id < free
            &&& r.len() > 0
            &&& r[0] < kids.len()
            &&& if r[0] < keep {
                id_at(old_node, r) == Some(id) && id < bound
            } else {
                bound <= id && id_at(node, r) == id_at(fresh[r[0] - keep], r.skip(1))
            }
        },
        None => true,
    } by {
        lemma_id_in_children(node, kids, r);
        lemma_id_in_children(old_node, children, r);
        if r.len() > 0 && r[0] < kids.len() {
            if r[0] < keep {
                assert(kids[r[0] as int] == children[r[0] as int]);
                assert(id_at(node, r) == id_at(old_node, r));
            } else {
                assert(kids[r[0] as int] == fresh[r[0] - keep]);
                assert(above(fresh[r[0] - keep], bound));
                assert(below(fresh[r[0] - keep], free));
            }
        }
    }
    assert forall|r: Seq<usize>, s: Seq<usize>|
        (#[trigger] id_at(node, r)) matches Some(id) && bound <= id && id_at(node, r)
            == #[trigger] id_at(node, s) implies r == s by {
        let i = r[0] - keep;
        let j = s[0] - keep;
        assert(id_at(fresh[i], r.skip(1)) == id_at(fresh[j], s.skip(1)));
        assert(i == j);
        assert(r.skip(1) == s.skip(1));
        assert(r =~= seq![r[0]] + r.skip(1));
        assert(s =~= seq![s[0]] + s.skip(1));
    }
    lemma_put_numbered(tree, p, old_node, node, bound, free);
}

/// A render that begins leaves the instances numbered.
proof fn lemma_begun_numbered<
    C: AnyComponent,
    N,
    V,
    P,
    U: FnOnce(Arc<V>) -> Arc<V>,
    A,
    F: FnOnce(A) -> K,
    K: FnOnce(),
>(
    rest: LoopView<C, N, V, P, U, A, F, K>,
    current: Seq<usize>,
    ctx: ContextView<N, V>,
    mounted: InstanceView<C, N, V, P>,
    instance: InstanceView<C, N, V, P>,
    post: LoopView<C, N, V, P, U, A, F, K>,
    demand: DemandView<C, N, V, P, A, F, K>,
)
    requires
        numbered(rest),
        rest.tree.at(current) == Some(TreeView::Component(mounted)),
        instance.id == mounted.id,
        instance.child == mounted.child,
        rest.begun(current, ctx, instance, post, demand),
    ensures
        numbered(post),
{
    let hook = demand->Render_hook;
    let settled = InstanceView { state: hook.state, ..instance };
    lemma_same_instance(settled, mounted);
    lemma_put_same_ids(
        rest.tree,
        current,
        TreeView::Component(mounted),
        TreeView::Component(settled),
        rest.ids,
    );
}

/// A step that holds a subtree against a description leaves the instances
/// numbered, as long as the supply of identifiers lasts.
proof fn lemma_updated_numbered<
    C: AnyComponent,
    N,
    V,
    P,
    U: FnOnce(Arc<V>) -> Arc<V>,
    A,
    F: FnOnce(A) -> K,
    K: FnOnce(),
>(
    rest: LoopView<C, N, V, P, U, A, F, K>,
    current: Seq<usize>,
    next: ElementView<C, N, V>,
    ctx: ContextView<N, V>,
    post: LoopView<C, N, V, P, U, A, F, K>,
    demand: DemandView<C, N, V, P, A, F, K>,
)
    requires
        numbered(rest),
        rest.updated(current, next, ctx, post, demand),
        post.ids < u64::MAX,
    ensures
        numbered(post),
{
    match rest.tree.at(current) {
        None => {},
        Some(node) => match (node, next) {
            (TreeView::Component(instance), ElementView::Component(component)) => {
                let diff = choose|diff: ComponentDiff| #[trigger]
                    compared(component, instance.component, diff) && rest.compared_to(
                        current,
                        instance,
                        component,
                        ctx,
                        diff,
                        post,
                        demand,
                    );
                match diff {
                    ComponentDiff::Equal => {},
                    ComponentDiff::NewProps => {
                        lemma_begun_numbered(
                            rest,
                            current,
                            ctx,
                            instance,
                            InstanceView { component, ..instance },
                            post,
                            demand,
                        );
                    },
                    ComponentDiff::NewType => {
                        lemma_put_fresh(rest.tree, current, node, next, rest.ids);
                    },
                }
            },
            (TreeView::Node(_, children), ElementView::Node(payload, elements)) => {
                lemma_put_diffed(
                    rest.tree,
                    current,
                    node,
                    children,
                    elements,
                    TreeView::Node(
                        Arc::new(payload),
                        diffed_children(children, elements, rest.ids).0,
                    ),
                    rest.ids,
                );
            },
            (TreeView::Fragment(children), ElementView::Fragment(elements)) => {
                lemma_put_diffed(
                    rest.tree,
                    current,
                    node,
                    children,
                    elements,
                    TreeView::Fragment(diffed_children(children, elements, rest.ids).0),
                    rest.ids,
                );
            },
            (TreeView::Provider(_, _, children), ElementView::Provider(key, value, elements)) => {
                lemma_put_diffed(
                    rest.tree,
                    current,
                    node,
                    children,
                    elements,
                    TreeView::Provider(
                        key,
                        value,
                        diffed_children(children, elements, rest.ids).0,
                    ),
                    rest.ids,
                );
            },
            _ => {
                lemma_put_fresh(rest.tree, current, node, next, rest.ids);
            },
        },
    }
}

/// A step that creates or visits a subtree leaves the instances numbered.
proof fn lemma_visited_numbered<
    C: AnyComponent,
    N,
    V,
    P,
    U: FnOnce(Arc<V>) -> Arc<V>,
    A,
    F: FnOnce(A) -> K,
    K: FnOnce(),
>(
    rest: LoopView<C, N, V, P, U, A, F, K>,
    reload: bool,
    current: Seq<usize>,
    ctx: ContextView<N, V>,
    post: LoopView<C, N, V, P, U, A, F, K>,
    demand: DemandView<C, N, V, P, A, F, K>,
)
    requires
        numbered(rest),
        rest.visited(reload, current, ctx, post, demand),
    ensures
        numbered(post),
{
    match rest.tree.at(current) {
        Some(TreeView::Component(instance)) => {
            if demand is Resume {
                let settled = InstanceView { render_result: None, ..instance };
                lemma_same_instance(settled, instance);
                lemma_put_same_ids(
                    rest.tree,
                    current,
                    TreeView::Component(instance),
                    TreeView::Component(settled),
                    rest.ids,
                );
            } else if demand is Render {
                lemma_begun_numbered(rest, current, ctx, instance, instance, post, demand);
            }
        },
        _ => {},
    }
}

/// Every step keeps the instances numbered, as long as the supply of
/// identifiers lasts.
pub proof fn lemma_step_numbered<
    C: AnyComponent,
    N,
    V,
    P,
    U: FnOnce(Arc<V>) -> Arc<V>,
    A,
    F: FnOnce(A) -> K,
    K: FnOnce(),
>(
    pre: LoopView<C, N, V, P, U, A, F, K>,
    post: LoopView<C, N, V, P, U, A, F, K>,
    demand: DemandView<C, N, V, P, A, F, K>,
)
    requires
        numbered(pre),
        pre.stepped(post, demand),
        post.ids < u64::MAX,
    ensures
        numbered(post),
{
    if pre.awaiting is None && pre.items.len() > 0 {
        let rest = LoopView { items: pre.items.drop_last(), ..pre };
        match pre.items.last() {
            ItemView::Create { current, ctx } => {
                lemma_visited_numbered(rest, false, current, ctx, post, demand);
            },
            ItemView::Reload { current, ctx } => {
                lemma_visited_numbered(rest, true, current, ctx, post, demand);
            },
            ItemView::Update { current, next, ctx } => {
                lemma_updated_numbered(rest, current, next, ctx, post, demand);
            },
            ItemView::Remove { current, parent } => {},
        }
    }
}

/// Every report of a render keeps the instances numbered, as long as the
/// supply of identifiers lasts.
pub proof fn lemma_report_numbered<
    C: AnyComponent,
    N,
    V,
    P,
    U: FnOnce(Arc<V>) -> Arc<V>,
    A,
    F: FnOnce(A) -> K,
    K: FnOnce(),
    E,
>(
    pre: LoopView<C, N, V, P, U, A, F, K>,
    outcome: OutcomeView<C, N, V, P, A, F, K, E>,
    post: LoopView<C, N, V, P, U, A, F, K>,
    failed: Option<E>,
)
    requires
        numbered(pre),
        pre.reported(outcome, post, failed),
        post.ids < u64::MAX,
    ensures
        numbered(post),
{
    match pre.awaiting {
        None => {},
        Some(awaited) => {
            let current = awaited.current;
            match pre.tree.at(current) {
                Some(TreeView::Component(instance)) => {
                    let node = TreeView::Component(instance);
                    match outcome {
                        RunOrSuspendResult::Suspend(pending) => {
                            let parked = InstanceView { render_result: Some(pending), ..instance };
                            lemma_same_instance(parked, instance);
                            lemma_put_same_ids(
                                pre.tree,
                                current,
                                node,
                                TreeView::Component(parked),
                                pre.ids,
                            );
                        },
                        RunOrSuspendResult::Done((result, hook)) => {
                            let settled = InstanceView {
                                render_result: None,
                                state: hook.state,
                                refs: hook.refs,
                                ..instance
                            };
                            lemma_same_instance(settled, instance);
                            match result {
                                Ok(element) => match instance.child {
                                    Some(_) => {
                                        lemma_put_same_ids(
                                            pre.tree,
                                            current,
                                            node,
                                            TreeView::Component(settled),
                                            pre.ids,
                                        );
                                    },
                                    None => {
                                        let child = TreeView::<C, N, V, P>::from_element(
                                            element,
                                            pre.ids,
                                        ).0;
                                        lemma_put_mounted(
                                            pre.tree,
                                            current,
                                            instance,
                                            InstanceView {
                                                child: Some(Box::new(child)),
                                                ..settled
                                            },
                                            element,
                                            pre.ids,
                                        );
                                    },
                                },
                                Err(_) => {
                                    lemma_put_same_ids(
                                        pre.tree,
                                        current,
                                        node,
                                        TreeView::Component(settled),
                                        pre.ids,
                                    );
                                },
                            }
                        },
                    }
                },
                _ => {},
            }
        },
    }
}

/// A loop that starts with the fresh tree for a description has its
/// instances numbered, as long as the supply of identifiers lasts.
pub proof fn lemma_new_numbered<C, N, V, P>(element: ElementView<C, N, V>)
    requires
        TreeView::<C, N, V, P>::from_element(element, 0).1 < u64::MAX,
    ensures
        unique(TreeView::<C, N, V, P>::from_element(element, 0).0),
        below(
            TreeView::<C, N, V, P>::from_element(element, 0).0,
            TreeView::<C, N, V, P>::from_element(element, 0).1,
        ),
{
    lemma_fresh_numbered::<C, N, V, P>(element, 0);
}

} // verus!
