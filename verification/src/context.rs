//! Values that a part of the tree provides to everything below it.

use crate::element::{Element, ElementView};
use crate::hook::Hook;
use crate::render_queue::ContextMap;
use std::collections::HashMap;
use std::sync::Arc;
use vstd::prelude::*;

verus! {

/// A value to provide under a key.  `children` turns it into the element
/// that provides it.
pub struct Provider<V> {
    pub key: u64,
    pub value: Arc<V>,
}

impl<V> Provider<V> {
    /// A provider of `value` under `key`.
    pub fn new(key: u64, value: V) -> (r: Self)
        ensures
            r.key == key,
            *r.value == value,
    {
        Provider { key, value: Arc::new(value) }
    }

    /// The element that provides the value to `children`.
    pub fn children<C, N>(self, children: Vec<Element<C, N, V>>) -> (r: Element<C, N, V>)
        ensures
            r@ == ElementView::Provider(self.key, self.value, Element::views(children@)),
    {
        Element::Provider(self.key, self.value, children)
    }
}

/// The value provided under `key` by the nearest provider above the
/// component that renders, or a default value where there is none or no
/// render is under way.
pub fn use_context<V: Default, U: FnOnce(Arc<V>) -> Arc<V>, A, F: FnOnce(A) -> K, K: FnOnce()>(
    hook: Option<&Hook<V, U, A, F, K>>,
    key: u64,
) -> (r: Arc<V>)
    ensures
        match hook {
            Some(h) if h.context@.contains_key(key) => r == h.context@[key],
            _ => call_ensures(V::default, (), *r),
        },
{
    match hook {
        Some(h) => match h.context.get(&key) {
            Some(value) => value.clone(),
            None => Arc::new(V::default()),
        },
        None => Arc::new(V::default()),
    }
}

/// Everything that is provided to the component that renders; nothing where
/// no render is under way.
pub fn _get_context<V, U: FnOnce(Arc<V>) -> Arc<V>, A, F: FnOnce(A) -> K, K: FnOnce()>(
    hook: Option<&Hook<V, U, A, F, K>>,
) -> (r: ContextMap<V>)
    ensures
        r@ == match hook {
            Some(h) => h.context@,
            None => Map::<u64, Arc<V>>::empty(),
        },
{
    match hook {
        Some(h) => h.context.clone(),
        None => Arc::new(HashMap::new()),
    }
}

} // verus!
