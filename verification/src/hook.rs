//! What a component's render has at hand: its state, references and context,
//! and the effects it declares.

use crate::channel::bounded;
use crate::effect::Effect;
use crate::render_queue::ContextMap;
use crate::state::StateUpdate;
use async_channel::Sender;
use std::collections::HashMap;
use std::sync::Arc;
use vstd::prelude::*;

verus! {

/// The hook state of one render of one component instance.  The hook
/// functions take it by call order: every `use_state` takes the next state
/// slot, every `use_ref` the next reference.
#[verifier::reject_recursive_types(V)]
#[verifier::reject_recursive_types(U)]
#[verifier::reject_recursive_types(A)]
#[verifier::reject_recursive_types(F)]
#[verifier::reject_recursive_types(K)]
pub struct Hook<V, U: FnOnce(Arc<V>) -> Arc<V>, A, F: FnOnce(A) -> K, K: FnOnce()> {
    /// Wakes the render loop.
    pub signal: Sender<()>,
    /// Carries state updates to the render loop.
    pub updater: Sender<StateUpdate<V, U>>,
    /// The instance that renders.
    pub instance: u64,
    /// The state slots: as they were when the render began, with what
    /// `use_state` has filled the empty ones since.
    pub state: HashMap<u16, Arc<V>>,
    /// The state slot that the next `use_state` takes.
    pub state_index: u16,
    /// The effects declared so far, each with its fingerprint.
    pub effects: Vec<(u64, Effect<A, F, K>)>,
    /// The references of the instance.
    pub refs: HashMap<u16, Arc<V>>,
    /// The reference that the next `use_ref` takes.
    pub ref_index: u16,
    /// The values provided above the instance.
    pub context: ContextMap<V>,
}

/// The mathematical value of a [`Hook`]: everything but its channels.
#[verifier::reject_recursive_types(V)]
#[verifier::reject_recursive_types(A)]
#[verifier::reject_recursive_types(F)]
#[verifier::reject_recursive_types(K)]
pub struct HookView<V, A, F: FnOnce(A) -> K, K: FnOnce()> {
    pub instance: u64,
    pub state: Map<u16, Arc<V>>,
    pub state_index: u16,
    pub effects: Seq<(u64, Effect<A, F, K>)>,
    pub refs: Map<u16, Arc<V>>,
    pub ref_index: u16,
    pub context: Map<u64, Arc<V>>,
}

impl<V, A, F: FnOnce(A) -> K, K: FnOnce()> HookView<V, A, F, K> {
    /// The hook state at the start of a render.
    pub open spec fn fresh(
        instance: u64,
        state: Map<u16, Arc<V>>,
        refs: Map<u16, Arc<V>>,
        context: Map<u64, Arc<V>>,
    ) -> Self {
        HookView {
            instance,
            state,
            state_index: 0,
            effects: Seq::empty(),
            refs,
            ref_index: 0,
            context,
        }
    }
}

impl<V, U: FnOnce(Arc<V>) -> Arc<V>, A, F: FnOnce(A) -> K, K: FnOnce()> Hook<V, U, A, F, K> {
    pub open spec fn view(&self) -> HookView<V, A, F, K> {
        HookView {
            instance: self.instance,
            state: self.state@,
            state_index: self.state_index,
            effects: self.effects@,
            refs: self.refs@,
            ref_index: self.ref_index,
            context: self.context@,
        }
    }

    /// The hook state for a render of `instance` that starts from the given
    /// state, references and context.
    pub fn new(
        signal: Sender<()>,
        updater: Sender<StateUpdate<V, U>>,
        instance: u64,
        state: HashMap<u16, Arc<V>>,
        refs: HashMap<u16, Arc<V>>,
        context: ContextMap<V>,
    ) -> (r: Self)
        ensures
            r@ == HookView::<V, A, F, K>::fresh(instance, state@, refs@, context@),
            r.signal == signal,
            r.updater == updater,
    {
        Hook {
            signal,
            updater,
            instance,
            state,
            state_index: 0,
            effects: Vec::new(),
            refs,
            ref_index: 0,
            context,
        }
    }

    /// The hook state for a render outside the render loop: no state, no
    /// references, and channels that nobody listens to.
    pub fn from_context(context: ContextMap<V>) -> (r: Self)
        ensures
            r@ == HookView::<V, A, F, K>::fresh(0, Map::empty(), Map::empty(), context@),
    {
        let (signal, _) = bounded::<()>(1);
        let (updater, _) = bounded::<StateUpdate<V, U>>(1);
        Hook {
            signal,
            updater,
            instance: 0,
            state: HashMap::new(),
            state_index: 0,
            effects: Vec::new(),
            refs: HashMap::new(),
            ref_index: 0,
            context,
        }
    }
}

} // verus!
