//! References: values that an instance keeps from its first render on.

use crate::hook::{Hook, HookView};
use std::sync::Arc;
use vstd::prelude::*;

verus! {

/// The reference of the next reference slot of the component that renders.
/// The first render to reach the slot fills it with a default value; every
/// later render gets that same value.  Outside a render the result is a fresh
/// default value.
pub fn use_ref<V: Default, U: FnOnce(Arc<V>) -> Arc<V>, A, F: FnOnce(A) -> K, K: FnOnce()>(
    hook: Option<&mut Hook<V, U, A, F, K>>,
) -> (r: Arc<V>)
    requires
        hook matches Some(h) ==> h.ref_index < u16::MAX,
    ensures
        match hook {
            Some(h) => {
                if h.refs@.contains_key(h.ref_index) {
                    &&& r == h.refs@[h.ref_index]
                    &&& final(h)@ == (HookView { ref_index: (h.ref_index + 1) as u16, ..h@ })
                } else {
                    &&& call_ensures(V::default, (), *r)
                    &&& final(h)@ == (HookView {
                        refs: h.refs@.insert(h.ref_index, r),
                        ref_index: (h.ref_index + 1) as u16,
                        ..h@
                    })
                }
            },
            None => call_ensures(V::default, (), *r),
        },
{
    use_ref_with_default(hook, V::default)
}

/// The reference of the next reference slot of the component that renders.
/// The first render to reach the slot fills it with what `default` returns;
/// every later render gets that same value and `default` is not called.
/// Outside a render the result is what `default` returns.
pub fn use_ref_with_default<
    V,
    U: FnOnce(Arc<V>) -> Arc<V>,
    A,
    F: FnOnce(A) -> K,
    K: FnOnce(),
    D: FnOnce() -> V,
>(hook: Option<&mut Hook<V, U, A, F, K>>, default: D) -> (r: Arc<V>)
    requires
        call_requires(default, ()),
        hook matches Some(h) ==> h.ref_index < u16::MAX,
    ensures
        match hook {
            Some(h) => {
                if h.refs@.contains_key(h.ref_index) {
                    &&& r == h.refs@[h.ref_index]
                    &&& final(h)@ == (HookView { ref_index: (h.ref_index + 1) as u16, ..h@ })
                } else {
                    &&& call_ensures(default, (), *r)
                    &&& final(h)@ == (HookView {
                        refs: h.refs@.insert(h.ref_index, r),
                        ref_index: (h.ref_index + 1) as u16,
                        ..h@
                    })
                }
            },
            None => call_ensures(default, (), *r),
        },
{
    match hook {
        Some(h) => {
            let index = h.ref_index;
            h.ref_index = index + 1;
            let found = match h.refs.get(&index) {
                Some(value) => Some(value.clone()),
                None => None,
            };
            match found {
                Some(value) => value,
                None => {
                    let value = Arc::new(default());
                    h.refs.insert(index, value.clone());
                    value
                },
            }
        },
        None => Arc::new(default()),
    }
}

} // verus!
