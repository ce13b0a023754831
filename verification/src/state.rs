//! State slots and the updates that are queued for them.

use crate::channel::{bounded, clone_sender, try_send};
use crate::hook::{Hook, HookView};
use async_channel::Sender;
use std::collections::HashMap;
use std::sync::Arc;
use vstd::prelude::*;

verus! {

/// A queued update of one state slot of one component instance: a function
/// from the slot's value to its next value.
#[verifier::reject_recursive_types(V)]
#[verifier::reject_recursive_types(U)]
pub struct StateUpdate<V, U: FnOnce(Arc<V>) -> Arc<V>> {
    instance: u64,
    index: u16,
    fallback: Arc<V>,
    update: U,
}

impl<V, U: FnOnce(Arc<V>) -> Arc<V>> StateUpdate<V, U> {
    #[verifier::type_invariant]
    spec fn total(self) -> bool {
        Self::accepts_all(self.update)
    }

    /// The function takes every value.
    pub open spec fn accepts_all(update: U) -> bool {
        forall|value: Arc<V>| call_requires(update, (value,))
    }

    /// The component instance whose state is updated.
    pub closed spec fn instance(self) -> u64 {
        self.instance
    }

    /// The slot that is updated.
    pub closed spec fn index(self) -> u16 {
        self.index
    }

    /// What the function is called with while the slot is empty.
    pub closed spec fn fallback(self) -> Arc<V> {
        self.fallback
    }

    /// The function.
    pub closed spec fn update(self) -> U {
        self.update
    }

    /// What the function is called with when the slots are `state`.
    pub open spec fn current(self, state: Map<u16, Arc<V>>) -> Arc<V> {
        if state.contains_key(self.index()) {
            state[self.index()]
        } else {
            self.fallback()
        }
    }

    /// `after` is what the slots `before` become by this update: its slot holds
    /// a value that the function gives for the current one, and no other slot
    /// changes.
    pub open spec fn applied(self, before: Map<u16, Arc<V>>, after: Map<u16, Arc<V>>) -> bool {
        &&& after.contains_key(self.index())
        &&& after == before.insert(self.index(), after[self.index()])
        &&& call_ensures(self.update(), (self.current(before),), after[self.index()])
    }

    /// `after` is what the slots `before` become by the updates one after the
    /// other, each seeing what the one before it left.
    pub open spec fn folded(
        updates: Seq<Self>,
        before: Map<u16, Arc<V>>,
        after: Map<u16, Arc<V>>,
    ) -> bool
        decreases updates.len(),
    {
        if updates.len() == 0 {
            after == before
        } else {
            exists|middle: Map<u16, Arc<V>>|
                Self::folded(updates.drop_last(), before, middle) && #[trigger] updates.last().applied(
                    middle,
                    after,
                )
        }
    }

    /// The function gives one value for every value it is called with.
    pub open spec fn single_valued(self) -> bool {
        forall|value: Arc<V>, one: Arc<V>, other: Arc<V>|
            call_ensures(self.update(), (value,), one) && call_ensures(
                self.update(),
                (value,),
                other,
            ) ==> one == other
    }

    /// Updates whose functions give one value for every value lead from given
    /// slots to one result only: the result depends on nothing but the slots,
    /// the updates and their order.
    pub proof fn lemma_folded_unique(
        updates: Seq<Self>,
        before: Map<u16, Arc<V>>,
        one: Map<u16, Arc<V>>,
        other: Map<u16, Arc<V>>,
    )
        requires
            forall|i: int| 0 <= i < updates.len() ==> (#[trigger] updates[i]).single_valued(),
            Self::folded(updates, before, one),
            Self::folded(updates, before, other),
        ensures
            one == other,
        decreases updates.len(),
    {
        if updates.len() > 0 {
            let last = updates.last();
            let middle_one = choose|middle: Map<u16, Arc<V>>|
                Self::folded(updates.drop_last(), before, middle) && #[trigger] last.applied(
                    middle,
                    one,
                );
            let middle_other = choose|middle: Map<u16, Arc<V>>|
                Self::folded(updates.drop_last(), before, middle) && #[trigger] last.applied(
                    middle,
                    other,
                );
            assert forall|i: int| 0 <= i < updates.drop_last().len() implies (
            #[trigger] updates.drop_last()[i]).single_valued() by {
                assert(updates[i].single_valued());
            }
            Self::lemma_folded_unique(updates.drop_last(), before, middle_one, middle_other);
            assert(last.single_valued());
            assert(one[last.index()] == other[last.index()]);
            assert(one =~= other);
        }
    }

    /// Updates that are queued behind others apply to what the others left:
    /// applying a list of updates is applying its first part and then the
    /// rest.
    pub proof fn lemma_folded_append(
        first: Seq<Self>,
        rest: Seq<Self>,
        before: Map<u16, Arc<V>>,
        middle: Map<u16, Arc<V>>,
        after: Map<u16, Arc<V>>,
    )
        requires
            Self::folded(first, before, middle),
            Self::folded(rest, middle, after),
        ensures
            Self::folded(first + rest, before, after),
        decreases rest.len(),
    {
        if rest.len() == 0 {
            assert(first + rest =~= first);
        } else {
            let last = rest.last();
            let inner = choose|inner: Map<u16, Arc<V>>|
                Self::folded(rest.drop_last(), middle, inner) && #[trigger] last.applied(
                    inner,
                    after,
                );
            Self::lemma_folded_append(first, rest.drop_last(), before, middle, inner);
            assert((first + rest).drop_last() =~= first + rest.drop_last());
            assert((first + rest).last() == last);
        }
    }

    /// An update of slot `index` of instance `instance`.
    pub fn new(instance: u64, index: u16, fallback: Arc<V>, update: U) -> (r: Self)
        requires
            Self::accepts_all(update),
        ensures
            r.instance() == instance,
            r.index() == index,
            r.fallback() == fallback,
            r.update() == update,
    {
        StateUpdate { instance, index, fallback, update }
    }

    /// The instance that the update is for.
    pub fn target(&self) -> (r: u64)
        ensures
            r == self.instance(),
    {
        self.instance
    }

    /// Calls the function with the slot's value, or with the fallback while
    /// the slot is empty, and stores what it returns in the slot.
    pub fn apply(self, state: &mut HashMap<u16, Arc<V>>)
        ensures
            self.applied(old(state)@, final(state)@),
    {
        proof {
            use_type_invariant(&self);
        }
        let current = match state.get(&self.index) {
            Some(value) => value.clone(),
            None => self.fallback,
        };
        let next = (self.update)(current);
        state.insert(self.index, next);
    }

    /// Applies the updates in the order of the list.
    pub fn apply_all(updates: Vec<Self>, state: &mut HashMap<u16, Arc<V>>)
        ensures
            Self::folded(updates@, old(state)@, final(state)@),
    {
        for update in it: updates
            invariant
                it.seq() == updates@,
                Self::folded(updates@.take(it.index() as int), old(state)@, state@),
        {
            let ghost k = it.index() as int;
            let ghost middle = state@;
            update.apply(state);
            proof {
                assert(updates@.take(k + 1).drop_last() =~= updates@.take(k));
                assert(updates@.take(k + 1).last() == update);
            }
        }
        assert(updates@.take(updates@.len() as int) =~= updates@);
    }
}

/// The handle of one state slot that a render got from `use_state`: the value
/// of the slot at that render, and the way to queue updates of it.
#[verifier::reject_recursive_types(V)]
#[verifier::reject_recursive_types(U)]
pub struct State<V, U: FnOnce(Arc<V>) -> Arc<V>> {
    pub value: Arc<V>,
    pub signal: Sender<()>,
    pub updater: Sender<StateUpdate<V, U>>,
    pub instance: u64,
    pub index: u16,
}

impl<V, U: FnOnce(Arc<V>) -> Arc<V>> State<V, U> {
    /// The value of the slot at the render that made this handle.
    pub fn get(&self) -> (r: &Arc<V>)
        ensures
            *r == self.value,
    {
        &self.value
    }

    /// The update that `update` queues for `callback`.
    pub fn message(&self, callback: U) -> (r: StateUpdate<V, U>)
        requires
            StateUpdate::<V, U>::accepts_all(callback),
        ensures
            r.instance() == self.instance,
            r.index() == self.index,
            r.fallback() == self.value,
            r.update() == callback,
    {
        StateUpdate::new(self.instance, self.index, self.value.clone(), callback)
    }

    /// Queues `callback` as the next update of the slot and wakes the render
    /// loop.  Where nobody listens any more the update is dropped.
    pub fn update(&self, callback: U)
        requires
            StateUpdate::<V, U>::accepts_all(callback),
    {
        let message = self.message(callback);
        let _ = try_send(&self.updater, message);
        let _ = try_send(&self.signal, ());
    }

    /// Another handle of the same slot.
    pub fn share(&self) -> (r: Self)
        ensures
            r == *self,
    {
        State {
            value: self.value.clone(),
            signal: clone_sender(&self.signal),
            updater: clone_sender(&self.updater),
            instance: self.instance,
            index: self.index,
        }
    }

    /// A handle that belongs to no instance: its updates reach nobody.
    pub fn mock(value: V) -> (r: Self)
        ensures
            *r.value == value,
            r.instance == 0,
            r.index == 0,
    {
        let (signal, _) = bounded::<()>(1);
        let (updater, _) = bounded::<StateUpdate<V, U>>(1);
        State { value: Arc::new(value), signal, updater, instance: 0, index: 0 }
    }
}

impl<V, U: FnOnce(Arc<V>) -> Arc<V>> Clone for State<V, U> {
    fn clone(&self) -> (r: Self)
        ensures
            r == *self,
    {
        self.share()
    }
}

impl<V, U: FnOnce(Arc<V>) -> Arc<V>> std::ops::Deref for State<V, U> {
    type Target = V;

    /// The value of the slot at the render that made this handle.
    fn deref(&self) -> (r: &V)
        ensures
            *r == *self.value,
    {
        &*self.value
    }
}

/// The handle of the next state slot of the component that renders.  An
/// empty slot is first filled with what `default` returns; a slot that holds
/// a value keeps it, and `default` is not called.  The handle carries the
/// value of the slot and the channels of the hook.  Outside a render the
/// result is a handle of `default`'s value that belongs to no instance.
pub fn use_state<
    V,
    U: FnOnce(Arc<V>) -> Arc<V>,
    A,
    F: FnOnce(A) -> K,
    K: FnOnce(),
    D: FnOnce() -> V,
>(hook: Option<&mut Hook<V, U, A, F, K>>, default: D) -> (state: State<V, U>)
    requires
        call_requires(default, ()),
        hook matches Some(h) ==> h.state_index < u16::MAX,
    ensures
        match hook {
            Some(h) => {
                &&& state.instance == h.instance
                &&& state.index == h.state_index
                &&& state.signal == h.signal
                &&& state.updater == h.updater
                &&& final(h).signal == h.signal
                &&& final(h).updater == h.updater
                &&& if h.state@.contains_key(h.state_index) {
                    &&& state.value == h.state@[h.state_index]
                    &&& final(h)@ == (HookView { state_index: (h.state_index + 1) as u16, ..h@ })
                } else {
                    &&& call_ensures(default, (), *state.value)
                    &&& final(h)@ == (HookView {
                        state: h@.state.insert(h.state_index, state.value),
                        state_index: (h.state_index + 1) as u16,
                        ..h@
                    })
                }
            },
            None => {
                &&& state.instance == 0
                &&& state.index == 0
                &&& call_ensures(default, (), *state.value)
            },
        },
{
    match hook {
        Some(h) => {
            let signal = clone_sender(&h.signal);
            let updater = clone_sender(&h.updater);
            let index = h.state_index;
            h.state_index = index + 1;
            let found = match h.state.get(&index) {
                Some(value) => Some(value.clone()),
                None => None,
            };
            let value = match found {
                Some(value) => value,
                None => {
                    let seed = Arc::new(default());
                    h.state.insert(index, seed.clone());
                    seed
                },
            };
            State { value, signal, updater, instance: h.instance, index }
        },
        None => State::mock(default()),
    }
}

} // verus!
