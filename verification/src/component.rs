//! Components and how two descriptions of a component differ.

use std::sync::Arc;
use vstd::prelude::*;
use vstd::std_specs::cmp::PartialEqSpec;

verus! {

/// How a freshly described component relates to the one mounted at the same
/// position.
#[derive(Clone, Copy, Debug, PartialEq, Eq, Structural)]
pub enum ComponentDiff {
    /// Another kind of component: the mounted instance is torn down.
    NewType,
    /// The same kind with other props: the instance lives on and renders again.
    NewProps,
    /// The same kind with equal props: nothing has to render.
    Equal,
}

/// The props of a component.
///
/// One type stands for every kind of component that an application has
/// (usually an enum with one variant per kind).  `kind` tells the kinds
/// apart, `==` the props of one kind.
pub trait Component: PartialEq + Sized {
    /// The kind of component that the value describes.
    fn kind(&self) -> u64;
}

/// What the render loop asks of a component's props.  Every [`Component`]
/// has it.
pub trait AnyComponent: Sized {
    /// Compares a fresh description with the one that is mounted at the same
    /// position.
    fn compare(&self, mounted: &Self) -> ComponentDiff;
}

/// How two descriptions differ, given their kinds and whether their props
/// are equal.
pub open spec fn decided(kind: u64, mounted_kind: u64, equal: bool) -> ComponentDiff {
    if kind != mounted_kind {
        ComponentDiff::NewType
    } else if equal {
        ComponentDiff::Equal
    } else {
        ComponentDiff::NewProps
    }
}

impl<C: Component> AnyComponent for C {
    /// Another kind is a new type; the same kind is equal or has new props,
    /// as `==` says.
    fn compare(&self, mounted: &Self) -> (d: ComponentDiff)
        ensures
            exists|kind: u64, mounted_kind: u64, equal: bool|
                #![trigger decided(kind, mounted_kind, equal)]
                {
                    &&& call_ensures(C::kind, (self,), kind)
                    &&& call_ensures(C::kind, (mounted,), mounted_kind)
                    &&& C::obeys_eq_spec() ==> equal == self.eq_spec(mounted)
                    &&& d == decided(kind, mounted_kind, equal)
                },
    {
        let kind = self.kind();
        let mounted_kind = mounted.kind();
        if kind != mounted_kind {
            assert(ComponentDiff::NewType == decided(kind, mounted_kind, self.eq_spec(mounted)));
            ComponentDiff::NewType
        } else if self == mounted {
            assert(ComponentDiff::Equal == decided(kind, mounted_kind, true));
            ComponentDiff::Equal
        } else {
            assert(ComponentDiff::NewProps == decided(kind, mounted_kind, false));
            ComponentDiff::NewProps
        }
    }
}

/// `compare` can answer `diff` when a fresh description `next` is held
/// against the mounted one.
pub open spec fn compared<C: AnyComponent>(next: Arc<C>, mounted: Arc<C>, diff: ComponentDiff) -> bool {
    call_ensures(C::compare, (&*next, &*mounted), diff)
}

/// `compare` can answer other than `Equal` when a fresh description `next`
/// is held against the mounted one.
pub open spec fn tells_apart<C: AnyComponent>(next: Arc<C>, mounted: Arc<C>) -> bool {
    exists|diff: ComponentDiff| #[trigger]
        compared(next, mounted, diff) && diff != ComponentDiff::Equal
}

} // verus!
