//! The persistent mirror of the description that was applied last.

use crate::element::{Element, ElementView};
use std::collections::HashMap;
use std::sync::Arc;
use vstd::prelude::*;

verus! {

/// A mounted component: its props, what its hooks stored, and what it
/// rendered.  `P` is the handle of a render that has not finished yet.
pub struct TreeComponent<C, N, V, P> {
    /// Tells this instance from every other one that was ever mounted.
    pub id: u64,
    /// The props it rendered with last.
    pub component: Arc<C>,
    /// The state slots, by call order.
    pub state: HashMap<u16, Arc<V>>,
    /// A render that was handed to the spawner and has not been picked up.
    pub render_result: Option<P>,
    /// What it rendered, once it has.
    pub child: Option<Box<TreeNode<C, N, V, P>>>,
    /// The references, by call order.
    pub refs: HashMap<u16, Arc<V>>,
}

/// One position of the persistent tree.
pub enum TreeNode<C, N, V, P> {
    Component(TreeComponent<C, N, V, P>),
    Node(Arc<N>, Vec<TreeNode<C, N, V, P>>),
    Fragment(Vec<TreeNode<C, N, V, P>>),
    Provider(u64, Arc<V>, Vec<TreeNode<C, N, V, P>>),
}

/// The mathematical value of a [`TreeComponent`].
pub struct InstanceView<C, N, V, P> {
    pub id: u64,
    pub component: Arc<C>,
    pub state: Map<u16, Arc<V>>,
    pub render_result: Option<P>,
    pub child: Option<Box<TreeView<C, N, V, P>>>,
    pub refs: Map<u16, Arc<V>>,
}

/// The mathematical value of a [`TreeNode`].
pub enum TreeView<C, N, V, P> {
    Component(InstanceView<C, N, V, P>),
    Node(Arc<N>, Seq<TreeView<C, N, V, P>>),
    Fragment(Seq<TreeView<C, N, V, P>>),
    Provider(u64, Arc<V>, Seq<TreeView<C, N, V, P>>),
}

/// The identifier that follows `id`.  The supply stops at the largest value
/// instead of starting over.
pub open spec fn next_id(id: u64) -> u64 {
    if id < u64::MAX {
        (id + 1) as u64
    } else {
        id
    }
}

impl<C, N, V, P> InstanceView<C, N, V, P> {
    /// A component that has not rendered yet.
    pub open spec fn fresh(id: u64, component: Arc<C>) -> Self {
        InstanceView {
            id,
            component,
            state: Map::empty(),
            render_result: None,
            child: None,
            refs: Map::empty(),
        }
    }
}

impl<C, N, V, P> TreeView<C, N, V, P> {
    /// What stands where a node has been taken out.
    pub open spec fn hole() -> Self {
        TreeView::Fragment(Seq::empty())
    }

    /// The `i`-th child, if there is one.  A component has at most one.
    pub open spec fn child(self, i: int) -> Option<Self> {
        match self {
            TreeView::Component(instance) => match instance.child {
                Some(child) => if i == 0 {
                    Some(*child)
                } else {
                    None
                },
                None => None,
            },
            TreeView::Node(_, children) => Self::nth(children, i),
            TreeView::Fragment(children) => Self::nth(children, i),
            TreeView::Provider(_, _, children) => Self::nth(children, i),
        }
    }

    pub open spec fn nth(children: Seq<Self>, i: int) -> Option<Self> {
        if 0 <= i < children.len() {
            Some(children[i])
        } else {
            None
        }
    }

    /// The same node with its `i`-th child replaced.
    pub open spec fn with_child(self, i: int, child: Self) -> Self {
        match self {
            TreeView::Component(instance) => TreeView::Component(
                InstanceView { child: Some(Box::new(child)), ..instance },
            ),
            TreeView::Node(node, children) => TreeView::Node(node, children.update(i, child)),
            TreeView::Fragment(children) => TreeView::Fragment(children.update(i, child)),
            TreeView::Provider(key, value, children) => TreeView::Provider(
                key,
                value,
                children.update(i, child),
            ),
        }
    }

    /// The node that the path leads to, each step choosing a child.
    pub open spec fn at(self, path: Seq<usize>) -> Option<Self>
        decreases path.len(),
    {
        if path.len() == 0 {
            Some(self)
        } else {
            match self.child(path[0] as int) {
                Some(child) => child.at(path.skip(1)),
                None => None,
            }
        }
    }

    /// The tree with the node at the path replaced; unchanged where the path
    /// leaves the tree.
    pub open spec fn put(self, path: Seq<usize>, node: Self) -> Self
        decreases path.len(),
    {
        if path.len() == 0 {
            node
        } else {
            match self.child(path[0] as int) {
                Some(child) => self.with_child(path[0] as int, child.put(path.skip(1), node)),
                None => self,
            }
        }
    }

    /// The first output node of the subtree in document order: what a node
    /// that is inserted just before this subtree has to be put in front of.
    pub open spec fn first_node(self) -> Option<Arc<N>>
        decreases self, 0int,
    {
        match self {
            TreeView::Component(instance) => match instance.child {
                Some(child) => child.first_node(),
                None => None,
            },
            TreeView::Node(node, _) => Some(node),
            TreeView::Fragment(children) => Self::first_node_from(children, 0),
            TreeView::Provider(_, _, children) => Self::first_node_from(children, 0),
        }
    }

    /// The first output node among `children[from..]`.
    pub open spec fn first_node_from(children: Seq<Self>, from: int) -> Option<Arc<N>>
        decreases children, 1int, children.len() - from,
    {
        if 0 <= from < children.len() {
            match children[from].first_node() {
                Some(node) => Some(node),
                None => Self::first_node_from(children, from + 1),
            }
        } else {
            None
        }
    }

    /// The identifiers of the component instances that are mounted in the
    /// subtree.
    pub open spec fn instances(self) -> Set<u64>
        decreases self, 0int,
    {
        match self {
            TreeView::Component(instance) => match instance.child {
                Some(child) => child.instances().insert(instance.id),
                None => set![instance.id],
            },
            TreeView::Node(_, children) => Self::instances_among(children, children.len() as int),
            TreeView::Fragment(children) => Self::instances_among(children, children.len() as int),
            TreeView::Provider(_, _, children) => Self::instances_among(
                children,
                children.len() as int,
            ),
        }
    }

    /// The identifiers of the component instances that are mounted in the
    /// first `count` of the children.
    pub open spec fn instances_among(children: Seq<Self>, count: int) -> Set<u64>
        decreases children, 1int, count,
    {
        if 0 < count <= children.len() {
            Self::instances_among(children, count - 1).union(children[count - 1].instances())
        } else {
            Set::empty()
        }
    }

    /// The fresh subtree for a description, with the identifiers taken from
    /// `first` on, and the next identifier that is free.
    pub open spec fn from_element(element: ElementView<C, N, V>, first: u64) -> (Self, u64)
        decreases element, 0int,
    {
        match element {
            ElementView::Component(component) => (
                TreeView::Component(InstanceView::fresh(first, component)),
                next_id(first),
            ),
            ElementView::Node(node, children) => {
                let (nodes, next) = Self::from_elements(children, first);
                (TreeView::Node(Arc::new(node), nodes), next)
            },
            ElementView::Fragment(children) => {
                let (nodes, next) = Self::from_elements(children, first);
                (TreeView::Fragment(nodes), next)
            },
            ElementView::Provider(key, value, children) => {
                let (nodes, next) = Self::from_elements(children, first);
                (TreeView::Provider(key, value, nodes), next)
            },
        }
    }

    /// The fresh subtrees for a list of descriptions, numbered from left to
    /// right.
    pub open spec fn from_elements(elements: Seq<ElementView<C, N, V>>, first: u64) -> (
        Seq<Self>,
        u64,
    )
        decreases elements, 1int, elements.len(),
    {
        if elements.len() == 0 {
            (Seq::empty(), first)
        } else {
            let (nodes, middle) = Self::from_elements(elements.drop_last(), first);
            let (node, next) = Self::from_element(elements.last(), middle);
            (nodes.push(node), next)
        }
    }
}

impl<C, N, V, P> TreeComponent<C, N, V, P> {
    pub open spec fn view(&self) -> InstanceView<C, N, V, P>
        decreases self, 0int,
    {
        InstanceView {
            id: self.id,
            component: self.component,
            state: self.state@,
            render_result: self.render_result,
            child: match self.child {
                Some(child) => Some(Box::new(child.view())),
                None => None,
            },
            refs: self.refs@,
        }
    }

    /// A component that has not rendered yet.
    pub fn new(component: Arc<C>, id: u64) -> (r: Self)
        ensures
            r@ == InstanceView::<C, N, V, P>::fresh(id, component),
    {
        TreeComponent {
            id,
            component,
            state: HashMap::new(),
            render_result: None,
            child: None,
            refs: HashMap::new(),
        }
    }
}

impl<C, N, V, P> TreeNode<C, N, V, P> {
    pub open spec fn view(&self) -> TreeView<C, N, V, P>
        decreases self, 1int,
    {
        match self {
            TreeNode::Component(instance) => TreeView::Component(instance.view()),
            TreeNode::Node(node, children) => TreeView::Node(*node, Self::views(children@)),
            TreeNode::Fragment(children) => TreeView::Fragment(Self::views(children@)),
            TreeNode::Provider(key, value, children) => TreeView::Provider(
                *key,
                *value,
                Self::views(children@),
            ),
        }
    }

    /// The values of a list of nodes, one for one.
    pub open spec fn views(list: Seq<Self>) -> Seq<TreeView<C, N, V, P>>
        decreases list, 2int,
    {
        Seq::new(
            list.len(),
            |i: int|
                if 0 <= i < list.len() {
                    list[i].view()
                } else {
                    TreeView::hole()
                },
        )
    }

    /// The first output node of the subtree, if it has one.
    pub fn get_first_node(&self) -> (r: Option<Arc<N>>)
        ensures
            r == self@.first_node(),
        decreases self,
    {
        match self {
            TreeNode::Component(instance) => match &instance.child {
                Some(child) => child.get_first_node(),
                None => None,
            },
            TreeNode::Node(node, _) => Some(node.clone()),
            TreeNode::Fragment(children) => Self::first_node_of(children),
            TreeNode::Provider(_, _, children) => Self::first_node_of(children),
        }
    }

    /// The first output node that any of the nodes has, from left to right.
    pub fn first_node_of(children: &Vec<Self>) -> (r: Option<Arc<N>>)
        ensures
            r == TreeView::first_node_from(Self::views(children@), 0),
        decreases children,
    {
        let mut i: usize = 0;
        while i < children.len()
            invariant
                i <= children.len(),
                TreeView::first_node_from(Self::views(children@), 0) == TreeView::first_node_from(
                    Self::views(children@),
                    i as int,
                ),
            decreases children.len() - i,
        {
            let found = children[i].get_first_node();
            if found.is_some() {
                return found;
            }
            i = i + 1;
        }
        None
    }

    /// The views of a list that grew by one node.
    pub proof fn lemma_views_push(list: Seq<Self>, node: Self)
        ensures
            Self::views(list.push(node)) == Self::views(list).push(node@),
    {
        assert(Self::views(list.push(node)) =~= Self::views(list).push(node@));
    }

    /// The views of a list in which one node was replaced.
    pub proof fn lemma_views_update(list: Seq<Self>, i: int, node: Self)
        requires
            0 <= i < list.len(),
        ensures
            Self::views(list.update(i, node)) == Self::views(list).update(i, node@),
    {
        assert(Self::views(list.update(i, node)) =~= Self::views(list).update(i, node@));
    }

    /// The fresh subtree for a description.  Every component in it gets the
    /// next identifier from `ids`.
    pub fn from(element: Element<C, N, V>, ids: &mut u64) -> (r: Self)
        ensures
            (r@, *final(ids)) == TreeView::<C, N, V, P>::from_element(element@, *old(ids)),
        decreases element,
    {
        match element {
            Element::Component(component) => {
                let id: u64 = *ids;
                if id < u64::MAX {
                    *ids = id + 1;
                }
                TreeNode::Component(TreeComponent::new(component, id))
            },
            Element::Node(node, children) => {
                let nodes = Self::from_all(children, ids);
                TreeNode::Node(Arc::new(node), nodes)
            },
            Element::Fragment(children) => {
                let nodes = Self::from_all(children, ids);
                TreeNode::Fragment(nodes)
            },
            Element::Provider(key, value, children) => {
                let nodes = Self::from_all(children, ids);
                TreeNode::Provider(key, value, nodes)
            },
        }
    }

    /// The fresh subtrees for a list of descriptions, from left to right.
    pub fn from_all(elements: Vec<Element<C, N, V>>, ids: &mut u64) -> (r: Vec<Self>)
        ensures
            (Self::views(r@), *final(ids)) == TreeView::<C, N, V, P>::from_elements(
                Element::views(elements@),
                *old(ids),
            ),
        decreases elements,
    {
        let mut nodes: Vec<Self> = Vec::new();
        let ghost all = Element::views(elements@);
        assert(Self::views(nodes@) =~= Seq::empty());
        assert(all.take(0) =~= Seq::empty());
        for element in it: elements
            invariant
                it.seq() == elements@,
                all == Element::views(elements@),
                (Self::views(nodes@), *ids) == TreeView::<C, N, V, P>::from_elements(
                    all.take(it.index() as int),
                    *old(ids),
                ),
        {
            let ghost k = it.index() as int;
            let ghost before = nodes@;
            let node = Self::from(element, ids);
            nodes.push(node);
            proof {
                Self::lemma_views_push(before, node);
                assert(all.take(k + 1).drop_last() =~= all.take(k));
                assert(all.take(k + 1).last() == element@);
            }
        }
        assert(all.take(elements@.len() as int) =~= all);
        nodes
    }

    /// Takes the node at the path out of the tree and leaves a hole in its
    /// place.  Nothing happens where the path leaves the tree.
    pub fn take_at(&mut self, path: &Vec<usize>) -> (r: Option<Self>)
        ensures
            match old(self)@.at(path@) {
                Some(node) => r matches Some(taken) && taken@ == node && final(self)@ == old(
                    self,
                )@.put(path@, TreeView::hole()),
                None => r is None && final(self)@ == old(self)@,
            },
    {
        assert(path@.skip(0) =~= path@);
        self.take_from(path, 0)
    }

    /// Puts `node` where the path leads; the node that stood there is
    /// dropped.  Nothing changes where the path leaves the tree.
    pub fn put_at(&mut self, path: &Vec<usize>, node: Self)
        ensures
            final(self)@ == old(self)@.put(path@, node@),
    {
        assert(path@.skip(0) =~= path@);
        self.put_from(path, 0, node)
    }

    /// Takes the node at `path[depth..]` out of the subtree and leaves a hole
    /// in its place.
    fn take_from(&mut self, path: &Vec<usize>, depth: usize) -> (r: Option<Self>)
        requires
            depth <= path.len(),
        ensures
            match old(self)@.at(path@.skip(depth as int)) {
                Some(node) => r matches Some(taken) && taken@ == node && final(self)@ == old(
                    self,
                )@.put(path@.skip(depth as int), TreeView::hole()),
                None => r is None && final(self)@ == old(self)@,
            },
        decreases path.len() - depth, 0int,
    {
        if depth == path.len() {
            let mut node = TreeNode::Fragment(Vec::new());
            assert(node@ == TreeView::<C, N, V, P>::hole()) by {
                assert(Self::views(Seq::empty()) =~= Seq::empty());
            }
            std::mem::swap(self, &mut node);
            return Some(node);
        }
        let i: usize = path[depth];
        proof {
            assert(path@.skip(depth as int)[0] == i);
            assert(path@.skip(depth as int).skip(1) =~= path@.skip(depth as int + 1));
        }
        match self {
            TreeNode::Component(instance) => {
                if i == 0 {
                    match &mut instance.child {
                        Some(child) => child.take_from(path, depth + 1),
                        None => None,
                    }
                } else {
                    None
                }
            },
            TreeNode::Node(_, children) => Self::take_in(children, i, path, depth + 1),
            TreeNode::Fragment(children) => Self::take_in(children, i, path, depth + 1),
            TreeNode::Provider(_, _, children) => Self::take_in(children, i, path, depth + 1),
        }
    }

    /// Takes the node at `path[depth..]` out of the `i`-th of the children.
    fn take_in(children: &mut Vec<Self>, i: usize, path: &Vec<usize>, depth: usize) -> (r: Option<
        Self,
    >)
        requires
            depth <= path.len(),
        ensures
            final(children)@.len() == old(children)@.len(),
            match TreeView::nth(Self::views(old(children)@), i as int) {
                Some(child) => match child.at(path@.skip(depth as int)) {
                    Some(node) => r matches Some(taken) && taken@ == node && Self::views(
                        final(children)@,
                    ) == Self::views(old(children)@).update(
                        i as int,
                        child.put(path@.skip(depth as int), TreeView::hole()),
                    ),
                    None => r is None && Self::views(final(children)@) == Self::views(
                        old(children)@,
                    ),
                },
                None => r is None && Self::views(final(children)@) == Self::views(old(children)@),
            },
        decreases path.len() - depth, 1int,
    {
        if i < children.len() {
            let ghost before = children@;
            let r = children[i].take_from(path, depth);
            proof {
                assert(children@ =~= before.update(i as int, children@[i as int]));
                Self::lemma_views_update(before, i as int, children@[i as int]);
                assert(Self::views(before).update(i as int, before[i as int]@) =~= Self::views(
                    before,
                ));
            }
            r
        } else {
            None
        }
    }

    /// Puts `node` where `path[depth..]` leads in the subtree.
    fn put_from(&mut self, path: &Vec<usize>, depth: usize, node: Self)
        requires
            depth <= path.len(),
        ensures
            final(self)@ == old(self)@.put(path@.skip(depth as int), node@),
        decreases path.len() - depth, 0int,
    {
        if depth == path.len() {
            *self = node;
            return ;
        }
        let i: usize = path[depth];
        proof {
            assert(path@.skip(depth as int)[0] == i);
            assert(path@.skip(depth as int).skip(1) =~= path@.skip(depth as int + 1));
        }
        match self {
            TreeNode::Component(instance) => {
                if i == 0 {
                    match &mut instance.child {
                        Some(child) => child.put_from(path, depth + 1, node),
                        None => {},
                    }
                }
            },
            TreeNode::Node(_, children) => Self::put_in(children, i, path, depth + 1, node),
            TreeNode::Fragment(children) => Self::put_in(children, i, path, depth + 1, node),
            TreeNode::Provider(_, _, children) => Self::put_in(children, i, path, depth + 1, node),
        }
    }

    /// Puts `node` where `path[depth..]` leads in the `i`-th of the children.
    fn put_in(children: &mut Vec<Self>, i: usize, path: &Vec<usize>, depth: usize, node: Self)
        requires
            depth <= path.len(),
        ensures
            Self::views(final(children)@) == match TreeView::nth(
                Self::views(old(children)@),
                i as int,
            ) {
                Some(child) => Self::views(old(children)@).update(
                    i as int,
                    child.put(path@.skip(depth as int), node@),
                ),
                None => Self::views(old(children)@),
            },
        decreases path.len() - depth, 1int,
    {
        if i < children.len() {
            let ghost before = children@;
            children[i].put_from(path, depth, node);
            proof {
                assert(children@ =~= before.update(i as int, children@[i as int]));
                Self::lemma_views_update(before, i as int, children@[i as int]);
            }
        }
    }
}

impl<C, N, V, P> TreeView<C, N, V, P> {
    /// Every description gives one subtree.
    pub proof fn lemma_from_elements_len(elements: Seq<ElementView<C, N, V>>, first: u64)
        ensures
            Self::from_elements(elements, first).0.len() == elements.len(),
        decreases elements.len(),
    {
        if elements.len() > 0 {
            Self::lemma_from_elements_len(elements.drop_last(), first);
        }
    }

    /// Putting a node where one was taken from fills the hole again, whatever
    /// was put there in between.
    pub proof fn lemma_put_put(self, path: Seq<usize>, first: Self, second: Self)
        ensures
            self.put(path, first).put(path, second) == self.put(path, second),
        decreases path.len(),
    {
        if path.len() > 0 {
            let i = path[0] as int;
            match self.child(i) {
                Some(child) => {
                    child.lemma_put_put(path.skip(1), first, second);
                    let a = child.put(path.skip(1), first);
                    let b = child.put(path.skip(1), second);
                    assert(self.with_child(i, a).child(i) == Some(a));
                    assert(self.with_child(i, a).with_child(i, b) == self.with_child(i, b)) by {
                        match self {
                            TreeView::Component(_) => {},
                            TreeView::Node(_, children) => {
                                assert(children.update(i, a).update(i, b) =~= children.update(i, b));
                            },
                            TreeView::Fragment(children) => {
                                assert(children.update(i, a).update(i, b) =~= children.update(i, b));
                            },
                            TreeView::Provider(_, _, children) => {
                                assert(children.update(i, a).update(i, b) =~= children.update(i, b));
                            },
                        }
                    }
                },
                None => {},
            }
        }
    }

    /// What was put at a path of the tree is found there.
    pub proof fn lemma_at_put(self, path: Seq<usize>, node: Self)
        requires
            self.at(path) is Some,
        ensures
            self.put(path, node).at(path) == Some(node),
        decreases path.len(),
    {
        if path.len() > 0 {
            let i = path[0] as int;
            let child = self.child(i)->0;
            child.lemma_at_put(path.skip(1), node);
            assert(self.with_child(i, child.put(path.skip(1), node)).child(i) == Some(
                child.put(path.skip(1), node),
            ));
        }
    }

    /// Putting back what stands at a path changes nothing.
    pub proof fn lemma_put_same(self, path: Seq<usize>)
        requires
            self.at(path) is Some,
        ensures
            self.put(path, self.at(path)->0) == self,
        decreases path.len(),
    {
        if path.len() > 0 {
            let i = path[0] as int;
            let child = self.child(i)->0;
            child.lemma_put_same(path.skip(1));
            match self {
                TreeView::Component(_) => {},
                TreeView::Node(_, children) => {
                    assert(children.update(i, child) =~= children);
                },
                TreeView::Fragment(children) => {
                    assert(children.update(i, child) =~= children);
                },
                TreeView::Provider(_, _, children) => {
                    assert(children.update(i, child) =~= children);
                },
            }
        }
    }
}

} // verus!
