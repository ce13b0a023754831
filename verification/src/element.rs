//! The declarative description that a render step returns.

use crate::component::{compared, tells_apart, AnyComponent, ComponentDiff};
use std::sync::Arc;
use vstd::prelude::*;
use vstd::std_specs::cmp::{PartialEqSpec, PartialEqSpecImpl};

verus! {

/// One description of a piece of user interface.
///
/// `C` is the props type of the components, `N` the payload of an output node
/// and `V` the type of the values that providers hand down.
pub enum Element<C, N, V> {
    /// A component, by its props.
    Component(Arc<C>),
    /// An output node and what it contains.
    Node(N, Vec<Element<C, N, V>>),
    /// Children without a node of their own.
    Fragment(Vec<Element<C, N, V>>),
    /// Children that can look up the value under the key.
    Provider(u64, Arc<V>, Vec<Element<C, N, V>>),
}

/// The mathematical value of an [`Element`].
pub enum ElementView<C, N, V> {
    Component(Arc<C>),
    Node(N, Seq<ElementView<C, N, V>>),
    Fragment(Seq<ElementView<C, N, V>>),
    Provider(u64, Arc<V>, Seq<ElementView<C, N, V>>),
}

impl<C, N, V> Element<C, N, V> {
    /// The value of one element.
    pub open spec fn view(&self) -> ElementView<C, N, V>
        decreases self, 0int,
    {
        match self {
            Element::Component(c) => ElementView::Component(*c),
            Element::Node(n, children) => ElementView::Node(*n, Self::views(children@)),
            Element::Fragment(children) => ElementView::Fragment(Self::views(children@)),
            Element::Provider(k, v, children) => ElementView::Provider(
                *k,
                *v,
                Self::views(children@),
            ),
        }
    }

    /// The values of a list of elements, one for one.
    pub open spec fn views(list: Seq<Self>) -> Seq<ElementView<C, N, V>>
        decreases list, 1int,
    {
        Seq::new(
            list.len(),
            |i: int|
                if 0 <= i < list.len() {
                    list[i].view()
                } else {
                    ElementView::Fragment(Seq::empty())
                },
        )
    }

    /// Groups children without giving them a node of their own.
    pub fn fragment(children: Vec<Element<C, N, V>>) -> (r: Self)
        ensures
            r@ == ElementView::Fragment(Self::views(children@)),
    {
        Element::Fragment(children)
    }
}

impl<C, N, V> ElementView<C, N, V> {
    /// `copy` is a copy of this description: the same shape, the components
    /// and provided values shared, and every node a clone of the node in its
    /// place.
    pub open spec fn copied(self, copy: Self) -> bool
        where N: Clone
        decreases self, 0int,
    {
        match (self, copy) {
            (ElementView::Component(a), ElementView::Component(b)) => a == b,
            (ElementView::Node(a, children), ElementView::Node(b, copies)) => cloned(a, b)
                && Self::all_copied(children, copies),
            (ElementView::Fragment(children), ElementView::Fragment(copies)) => Self::all_copied(
                children,
                copies,
            ),
            (
                ElementView::Provider(key, value, children),
                ElementView::Provider(other_key, other_value, copies),
            ) => key == other_key && value == other_value && Self::all_copied(children, copies),
            _ => false,
        }
    }

    /// `copies` are copies of the descriptions, one for one.
    pub open spec fn all_copied(list: Seq<Self>, copies: Seq<Self>) -> bool
        where N: Clone
        decreases list, 1int, list.len(),
    {
        &&& list.len() == copies.len()
        &&& list.len() > 0 ==> Self::all_copied(list.drop_last(), copies.drop_last())
            && list.last().copied(copies.last())
    }

    /// The two descriptions describe the same: the same shape, components
    /// that compare equal, nodes that are equal, and providers of the very
    /// same value.
    pub open spec fn alike(self, other: Self) -> bool
        where C: AnyComponent, N: PartialEq
        decreases self, 0int,
    {
        match (self, other) {
            (ElementView::Component(a), ElementView::Component(b)) => compared(
                a,
                b,
                ComponentDiff::Equal,
            ),
            (ElementView::Node(a, children), ElementView::Node(b, others)) => (N::obeys_eq_spec()
                ==> a.eq_spec(&b)) && Self::all_alike(children, others),
            (ElementView::Fragment(children), ElementView::Fragment(others)) => Self::all_alike(
                children,
                others,
            ),
            (
                ElementView::Provider(_, value, children),
                ElementView::Provider(_, other_value, others),
            ) => value == other_value && Self::all_alike(children, others),
            _ => false,
        }
    }

    /// The descriptions are alike, one for one.
    pub open spec fn all_alike(list: Seq<Self>, others: Seq<Self>) -> bool
        where C: AnyComponent, N: PartialEq
        decreases list, 1int, list.len(),
    {
        &&& list.len() == others.len()
        &&& list.len() > 0 ==> Self::all_alike(list.drop_last(), others.drop_last())
            && list.last().alike(others.last())
    }
}

/// `Arc::ptr_eq` of std: whether two handles lead to the same allocation.
/// Handles of one allocation lead to one value; that is all that is claimed.
#[verifier::external_body]
fn same_allocation<V>(a: &Arc<V>, b: &Arc<V>) -> (same: bool)
    ensures
        same ==> *a == *b,
{
    Arc::ptr_eq(a, b)
}

impl<C, N: Clone, V> Element<C, N, V> {
    /// Copies of the descriptions, one for one.
    fn clone_all(list: &Vec<Self>) -> (r: Vec<Self>)
        ensures
            ElementView::all_copied(Self::views(list@), Self::views(r@)),
        decreases list, 1int,
    {
        let ghost all = Self::views(list@);
        let mut copies: Vec<Self> = Vec::new();
        let mut i: usize = 0;
        assert(Self::views(copies@) =~= Seq::empty());
        assert(all.take(0) =~= Seq::empty());
        while i < list.len()
            invariant
                i <= list@.len(),
                all == Self::views(list@),
                ElementView::all_copied(all.take(i as int), Self::views(copies@)),
            decreases list@.len() - i,
        {
            let ghost before = Self::views(copies@);
            let copy = list[i].clone();
            copies.push(copy);
            proof {
                let prefix = all.take(i + 1);
                let after = Self::views(copies@);
                assert(prefix.drop_last() =~= all.take(i as int));
                assert(after.drop_last() =~= before);
                assert(prefix.last() == list@[i as int]@);
                assert(after.last() == copy@);
            }
            i = i + 1;
        }
        assert(all.take(all.len() as int) =~= all);
        copies
    }
}

impl<C, N: Clone, V> Clone for Element<C, N, V> {
    /// A copy of the description.  Components and provided values are
    /// shared, nodes cloned.
    fn clone(&self) -> (r: Self)
        ensures
            self@.copied(r@),
        decreases self, 0int,
    {
        match self {
            Element::Component(component) => Element::Component(component.clone()),
            Element::Fragment(children) => Element::Fragment(Self::clone_all(children)),
            Element::Node(node, children) => Element::Node(node.clone(), Self::clone_all(children)),
            Element::Provider(key, value, children) => Element::Provider(
                *key,
                value.clone(),
                Self::clone_all(children),
            ),
        }
    }
}

impl<C: AnyComponent, N: PartialEq, V> Element<C, N, V> {
    /// Whether the lists are of one length and `==` holds at every position.
    fn eq_all(list: &Vec<Self>, others: &Vec<Self>) -> (r: bool)
        ensures
            r ==> ElementView::all_alike(Self::views(list@), Self::views(others@)),
            !r ==> ElementView::any_unlike(Self::views(list@), Self::views(others@)),
        decreases list, 1int,
    {
        if list.len() != others.len() {
            return false;
        }
        let ghost all = Self::views(list@);
        let ghost all_others = Self::views(others@);
        let mut i: usize = 0;
        assert(all.take(0) =~= Seq::empty());
        assert(all_others.take(0) =~= Seq::empty());
        while i < list.len()
            invariant
                i <= list@.len(),
                list@.len() == others@.len(),
                all == Self::views(list@),
                all_others == Self::views(others@),
                ElementView::all_alike(all.take(i as int), all_others.take(i as int)),
            decreases list@.len() - i,
        {
            if !list[i].eq(&others[i]) {
                proof {
                    assert(all[i as int] == list@[i as int]@);
                    assert(all_others[i as int] == others@[i as int]@);
                    ElementView::lemma_unlike_at(all, all_others, i as int);
                }
                return false;
            }
            proof {
                let prefix = all.take(i + 1);
                let other_prefix = all_others.take(i + 1);
                assert(prefix.drop_last() =~= all.take(i as int));
                assert(other_prefix.drop_last() =~= all_others.take(i as int));
                assert(prefix.last() == list@[i as int]@);
                assert(other_prefix.last() == others@[i as int]@);
            }
            i = i + 1;
        }
        assert(all.take(all.len() as int) =~= all);
        assert(all_others.take(all.len() as int) =~= all_others);
        true
    }
}

impl<C: AnyComponent, N: PartialEq, V> PartialEq for Element<C, N, V> {
    /// Descriptions are equal only when they are alike, and unequal only
    /// when they can be told apart.
    fn eq(&self, other: &Self) -> (r: bool)
        ensures
            r ==> self@.alike(other@),
            !r ==> self@.unlike(other@),
        decreases self, 0int,
    {
        match (self, other) {
            (Element::Component(a), Element::Component(b)) => {
                let diff = a.compare(&**b);
                assert(compared(*a, *b, diff));
                match diff {
                    ComponentDiff::Equal => true,
                    _ => {
                        assert(tells_apart(*a, *b));
                        false
                    },
                }
            },
            (Element::Node(a, children), Element::Node(b, others)) => a == b && Self::eq_all(
                children,
                others,
            ),
            (Element::Fragment(children), Element::Fragment(others)) => Self::eq_all(
                children,
                others,
            ),
            (Element::Provider(_, value, children), Element::Provider(_, other_value, others)) => {
                same_allocation(value, other_value) && Self::eq_all(children, others)
            },
            _ => false,
        }
    }
}

impl<C: AnyComponent, N: PartialEq, V> PartialEqSpecImpl for Element<C, N, V> {
    open spec fn obeys_eq_spec() -> bool {
        false
    }

    open spec fn eq_spec(&self, other: &Self) -> bool {
        arbitrary()
    }
}

impl<C, N, V> ElementView<C, N, V> {
    /// The two descriptions can be told apart: they are of different kinds,
    /// or they are components that can compare other than equal, or nodes
    /// that are not equal or whose children can be told apart, or fragments
    /// whose children can be told apart.  Two providers can always be told
    /// apart: whether they hand down the very same value is a matter of
    /// where the value lives, not of what it is.
    pub open spec fn unlike(self, other: Self) -> bool
        where C: AnyComponent, N: PartialEq
        decreases self, 0int,
    {
        match (self, other) {
            (ElementView::Component(a), ElementView::Component(b)) => tells_apart(a, b),
            (ElementView::Node(a, children), ElementView::Node(b, others)) => (N::obeys_eq_spec()
                ==> !a.eq_spec(&b)) || Self::any_unlike(children, others),
            (ElementView::Fragment(children), ElementView::Fragment(others)) => Self::any_unlike(
                children,
                others,
            ),
            _ => true,
        }
    }

    /// The lists are of different lengths, or at some position the two
    /// descriptions can be told apart.
    pub open spec fn any_unlike(list: Seq<Self>, others: Seq<Self>) -> bool
        where C: AnyComponent, N: PartialEq
        decreases list, 1int, list.len(),
    {
        ||| list.len() != others.len()
        ||| list.len() > 0 && (Self::any_unlike(list.drop_last(), others.drop_last())
            || list.last().unlike(others.last()))
    }

    /// Lists of one length in which the descriptions at one position can be
    /// told apart can be told apart.
    pub proof fn lemma_unlike_at(list: Seq<Self>, others: Seq<Self>, i: int)
        where C: AnyComponent, N: PartialEq
        requires
            list.len() == others.len(),
            0 <= i < list.len(),
            list[i].unlike(others[i]),
        ensures
            Self::any_unlike(list, others),
        decreases list.len(),
    {
        if i < list.len() - 1 {
            Self::lemma_unlike_at(list.drop_last(), others.drop_last(), i);
        }
    }
}

} // verus!
