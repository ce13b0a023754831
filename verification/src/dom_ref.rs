//! References to what realizes a node in the object model.

use std::collections::HashMap;
use std::sync::atomic::{AtomicU16, Ordering};
use std::sync::Arc;
use vstd::prelude::*;
use vstd::std_specs::cmp::PartialEqSpecImpl;

verus! {

/// A reference that an element or a comment carries so that the component
/// that rendered it can reach what realizes it.  It holds the key under which
/// a registry keeps that object; zero while there is none.
///
/// The key sits in an atomic cell that every holder of the reference shares,
/// so nothing is known of it from one look to the next.
pub struct DomRef {
    key: AtomicU16,
}

/// The objects that realize the nodes which carry a reference, by key.  `D`
/// is the type of the objects.
pub struct DomRegistry<D> {
    nodes: HashMap<u16, D>,
}

impl<D> DomRegistry<D> {
    /// The objects by key.
    pub closed spec fn view(&self) -> Map<u16, D> {
        self.nodes@
    }

    /// A registry that holds nothing.
    pub fn new() -> (r: Self)
        ensures
            r@ == Map::<u16, D>::empty(),
    {
        DomRegistry { nodes: HashMap::new() }
    }

    /// The smallest key from 1 on under which nothing is kept.  The largest
    /// key is never given out; `None` when every other key is taken.
    pub fn free_key(&self) -> (r: Option<u16>)
        ensures
            match r {
                Some(key) => {
                    &&& 1 <= key < u16::MAX
                    &&& !self@.contains_key(key)
                    &&& forall|taken: u16| 1 <= taken < key ==> self@.contains_key(taken)
                },
                None => forall|taken: u16| 1 <= taken < u16::MAX ==> self@.contains_key(taken),
            },
    {
        let mut key: u16 = 1;
        while key < u16::MAX
            invariant
                1 <= key <= u16::MAX,
                forall|taken: u16| 1 <= taken < key ==> self@.contains_key(taken),
            decreases u16::MAX - key,
        {
            if !self.nodes.contains_key(&key) {
                return Some(key);
            }
            key = key + 1;
        }
        None
    }

    /// Keeps `element` under `key`, in the place of what was kept there.
    pub fn insert(&mut self, key: u16, element: D)
        ensures
            final(self)@ == old(self)@.insert(key, element),
    {
        self.nodes.insert(key, element);
    }

    /// What is kept under `key`.
    pub fn get(&self, key: u16) -> (r: Option<&D>)
        ensures
            match r {
                Some(element) => self@.contains_key(key) && self@[key] == *element,
                None => !self@.contains_key(key),
            },
    {
        self.nodes.get(&key)
    }

    /// Forgets what is kept under `key`.
    pub fn remove(&mut self, key: u16)
        ensures
            final(self)@ == old(self)@.remove(key),
    {
        let _ = self.nodes.remove(&key);
    }
}

impl DomRef {
    /// A reference that is bound to nothing yet.
    pub fn new() -> (r: Self) {
        DomRef { key: AtomicU16::new(0) }
    }

    /// The key that the reference holds at this moment.
    pub fn key(&self) -> (r: u16) {
        self.key.load(Ordering::Relaxed)
    }

    /// Binds the reference to a key.
    pub fn bind(&self, key: u16) {
        self.key.store(key, Ordering::Relaxed)
    }

    /// Keeps `element` as what the reference leads to.  A reference that has
    /// no key yet gets the smallest free one.  Says whether the element was
    /// kept; it is not when the reference needs a key and none is free.
    pub fn set<D>(&self, registry: &mut DomRegistry<D>, element: D) -> (kept: bool)
        ensures
            kept ==> exists|key: u16| #[trigger]
                old(registry)@.insert(key, element) == final(registry)@ && key != 0,
            !kept ==> final(registry)@ == old(registry)@ && forall|taken: u16|
                1 <= taken < u16::MAX ==> old(registry)@.contains_key(taken),
    {
        let current = self.key();
        let key = if current != 0 {
            current
        } else {
            match registry.free_key() {
                Some(key) => {
                    self.bind(key);
                    key
                },
                None => {
                    return false;
                },
            }
        };
        registry.insert(key, element);
        assert(old(registry)@.insert(key, element) == registry@);
        true
    }

    /// What the registry keeps under the key that the reference holds now.
    pub fn get<'a, D>(&self, registry: &'a DomRegistry<D>) -> (r: Option<&'a D>)
        ensures
            exists|key: u16| #[trigger] kept_under(registry@, key, r),
    {
        let key = self.key();
        let r = registry.get(key);
        assert(kept_under(registry@, key, r));
        r
    }

    /// Forgets what the reference leads to.
    pub fn release<D>(&self, registry: &mut DomRegistry<D>)
        ensures
            exists|key: u16| #[trigger] old(registry)@.remove(key) == final(registry)@,
    {
        let key = self.key();
        registry.remove(key);
        assert(old(registry)@.remove(key) == registry@);
    }
}

/// Whether two optional references are the same reference, or both none.
pub fn same_ref(a: &Option<Arc<DomRef>>, b: &Option<Arc<DomRef>>) -> (same: bool)
    ensures
        same ==> *a == *b,
        (a is None) != (b is None) ==> !same,
        a is None && b is None ==> same,
{
    match (a, b) {
        (Some(a), Some(b)) => same_object(&**a, &**b),
        (None, None) => true,
        _ => false,
    }
}

/// `std::ptr::eq`: whether two references lead to the same object.  One
/// object has one value; that is all that is claimed.
#[verifier::external_body]
fn same_object(a: &DomRef, b: &DomRef) -> (same: bool)
    ensures
        same ==> *a == *b,
{
    std::ptr::eq(a, b)
}

impl PartialEq for DomRef {
    /// A reference equals itself only.
    fn eq(&self, other: &Self) -> (r: bool)
        ensures
            r ==> *self == *other,
    {
        same_object(self, other)
    }
}

impl PartialEqSpecImpl for DomRef {
    open spec fn obeys_eq_spec() -> bool {
        false
    }

    open spec fn eq_spec(&self, other: &Self) -> bool {
        arbitrary()
    }
}

impl Default for DomRef {
    fn default() -> (r: Self) {
        DomRef::new()
    }
}

/// `found` is what a registry that keeps `kept` holds under `key`: the object
/// that is kept there, or nothing where nothing is kept there.
pub open spec fn kept_under<D>(kept: Map<u16, D>, key: u16, found: Option<&D>) -> bool {
    match found {
        Some(element) => kept.contains_key(key) && kept[key] == *element,
        None => !kept.contains_key(key),
    }
}

} // verus!
