//! Effects: work that runs once a render has been committed, and the cleanup
//! that undoes it.

use crate::hook::{Hook, HookView};
use std::collections::hash_map::DefaultHasher;
use std::hash::{Hash, Hasher};
use std::marker::PhantomData;
use std::sync::Arc;
use vstd::prelude::*;

verus! {

/// What undoes an effect.  It runs at most once.
#[verifier::reject_recursive_types(K)]
pub struct Cleanup<K: FnOnce()> {
    thunk: K,
}

impl<K: FnOnce()> Cleanup<K> {
    #[verifier::type_invariant]
    spec fn callable(self) -> bool {
        call_requires(self.thunk, ())
    }

    /// The function that `run` calls.
    pub closed spec fn thunk(self) -> K {
        self.thunk
    }

    /// Wraps a function that can be called as it stands.
    pub fn new(thunk: K) -> (r: Self)
        requires
            call_requires(thunk, ()),
        ensures
            r.thunk() == thunk,
    {
        Cleanup { thunk }
    }

    /// Calls the function.
    pub fn run(self)
        ensures
            call_ensures(self.thunk(), (), ()),
    {
        proof {
            use_type_invariant(&self);
        }
        (self.thunk)()
    }
}

/// An effect that a render declared: a function and the dependency it is
/// called with.  Calling it gives the cleanup.
#[verifier::reject_recursive_types(A)]
#[verifier::reject_recursive_types(F)]
#[verifier::reject_recursive_types(K)]
pub struct Effect<A, F: FnOnce(A) -> K, K: FnOnce()> {
    arg: A,
    effect: F,
    cleanup: PhantomData<K>,
}

impl<A, F: FnOnce(A) -> K, K: FnOnce()> Effect<A, F, K> {
    #[verifier::type_invariant]
    spec fn callable(self) -> bool {
        Self::runnable(self.arg, self.effect)
    }

    /// The function can be called with the dependency, and whatever it returns
    /// can be called in turn.
    pub open spec fn runnable(arg: A, effect: F) -> bool {
        &&& call_requires(effect, (arg,))
        &&& forall|k: K| call_ensures(effect, (arg,), k) ==> call_requires(k, ())
    }

    /// The dependency that the function is called with.
    pub closed spec fn arg(self) -> A {
        self.arg
    }

    /// The function that `run` calls.
    pub closed spec fn effect(self) -> F {
        self.effect
    }

    /// An effect that calls `effect` with `arg`.
    pub fn new(arg: A, effect: F) -> (r: Self)
        requires
            Self::runnable(arg, effect),
        ensures
            r.arg() == arg,
            r.effect() == effect,
    {
        Effect { arg, effect, cleanup: PhantomData }
    }

    /// Calls the function with the dependency and wraps what it returns.
    pub fn run(self) -> (r: Cleanup<K>)
        ensures
            call_ensures(self.effect(), (self.arg(),), r.thunk()),
    {
        proof {
            use_type_invariant(&self);
        }
        let k = (self.effect)(self.arg);
        Cleanup::new(k)
    }
}

/// What becomes of one effect slot of a component when a render has declared
/// its effects anew.
#[verifier::reject_recursive_types(A)]
#[verifier::reject_recursive_types(F)]
#[verifier::reject_recursive_types(K)]
pub enum Slot<A, F: FnOnce(A) -> K, K: FnOnce()> {
    /// The fingerprint is the one of the render before: the cleanup of that
    /// render stays as it is and the new effect is dropped without running.
    Retain(u64, Cleanup<K>),
    /// The fingerprint changed: the cleanup runs, then the effect, whose
    /// cleanup is stored under the new fingerprint.
    Replace(Cleanup<K>, u64, Effect<A, F, K>),
    /// The slot holds no cleanup yet: the effect runs and its cleanup is
    /// stored under the fingerprint.
    Start(u64, Effect<A, F, K>),
}

/// What becomes of the effects that a render declared, slot by slot, given
/// the cleanups that are stored for the component.
///
/// Slot `i` of the effects is held against slot `i` of the cleanups.  An
/// effect whose slot holds no cleanup starts: every effect of a component
/// without stored cleanups, and every effect beyond the stored ones.  A
/// cleanup beyond the effects is dropped.
pub open spec fn planned<A, F: FnOnce(A) -> K, K: FnOnce()>(
    effects: Seq<(u64, Effect<A, F, K>)>,
    previous: Option<Seq<(u64, Cleanup<K>)>>,
) -> Seq<Slot<A, F, K>> {
    let cleanups = match previous {
        Some(cleanups) => cleanups,
        None => Seq::empty(),
    };
    Seq::new(
        effects.len(),
        |i: int|
            if i < cleanups.len() {
                if effects[i].0 == cleanups[i].0 {
                    Slot::Retain(cleanups[i].0, cleanups[i].1)
                } else {
                    Slot::Replace(cleanups[i].1, effects[i].0, effects[i].1)
                }
            } else {
                Slot::Start(effects[i].0, effects[i].1)
            },
    )
}

/// `next` is what a plan leaves as the stored cleanups once it was carried
/// out: slot by slot, the retained cleanup, or under the new fingerprint a
/// cleanup that the effect returned.  The cleanup of a replaced slot was
/// called.
pub open spec fn executed<A, F: FnOnce(A) -> K, K: FnOnce()>(
    plan: Seq<Slot<A, F, K>>,
    next: Seq<(u64, Cleanup<K>)>,
) -> bool {
    &&& next.len() == plan.len()
    &&& forall|i: int|
        0 <= i < plan.len() ==> match #[trigger] plan[i] {
            Slot::Retain(hash, cleanup) => next[i] == (hash, cleanup),
            Slot::Replace(cleanup, hash, effect) => {
                &&& call_ensures(cleanup.thunk(), (), ())
                &&& next[i].0 == hash
                &&& call_ensures(effect.effect(), (effect.arg(),), next[i].1.thunk())
            },
            Slot::Start(hash, effect) => next[i].0 == hash && call_ensures(
                effect.effect(),
                (effect.arg(),),
                next[i].1.thunk(),
            ),
        }
}

/// The list in the opposite order.
pub fn reversed<T>(list: Vec<T>) -> (r: Vec<T>)
    ensures
        r@ == list@.reverse(),
{
    let mut list = list;
    let ghost all = list@;
    let mut r: Vec<T> = Vec::new();
    while list.len() > 0
        invariant
            list@.len() + r@.len() == all.len(),
            list@ == all.take(list@.len() as int),
            forall|j: int| 0 <= j < r@.len() ==> r@[j] == all[all.len() - 1 - j],
        decreases list@.len(),
    {
        let item = list.pop().unwrap();
        r.push(item);
    }
    assert(r@ =~= all.reverse());
    r
}

/// Holds the effects that a render declared against the cleanups that are
/// stored for the component.  Nothing runs yet.
pub fn plan<A, F: FnOnce(A) -> K, K: FnOnce()>(
    effects: Vec<(u64, Effect<A, F, K>)>,
    previous: Option<Vec<(u64, Cleanup<K>)>>,
) -> (r: Vec<Slot<A, F, K>>)
    ensures
        r@ == planned(
            effects@,
            match previous {
                Some(cleanups) => Some(cleanups@),
                None => None,
            },
        ),
{
    let ghost old_effects = effects@;
    let ghost wanted = planned(
        old_effects,
        match &previous {
            Some(cleanups) => Some(cleanups@),
            None => None,
        },
    );
    let mut slots: Vec<Slot<A, F, K>> = Vec::new();
    let mut effects = reversed(effects);
    let stored: Vec<(u64, Cleanup<K>)> = match previous {
        Some(cleanups) => cleanups,
        None => Vec::new(),
    };
    let ghost old_cleanups = stored@;
    let mut cleanups = reversed(stored);
    while effects.len() > 0
        invariant
            effects@.len() + slots@.len() == old_effects.len(),
            wanted.len() == old_effects.len(),
            cleanups@.len() == if slots@.len() <= old_cleanups.len() {
                old_cleanups.len() - slots@.len()
            } else {
                0
            },
            forall|j: int|
                0 <= j < effects@.len() ==> effects@[j] == old_effects[old_effects.len() - 1 - j],
            forall|j: int|
                0 <= j < cleanups@.len() ==> cleanups@[j] == old_cleanups[old_cleanups.len() - 1
                    - j],
            forall|i: int|
                0 <= i < old_effects.len() ==> wanted[i] == if i < old_cleanups.len() {
                    if old_effects[i].0 == old_cleanups[i].0 {
                        Slot::Retain(old_cleanups[i].0, old_cleanups[i].1)
                    } else {
                        Slot::Replace(old_cleanups[i].1, old_effects[i].0, old_effects[i].1)
                    }
                } else {
                    Slot::Start(old_effects[i].0, old_effects[i].1)
                },
            forall|i: int| 0 <= i < slots@.len() ==> slots@[i] == wanted[i],
        decreases effects@.len(),
    {
        let (hash, effect) = effects.pop().unwrap();
        match cleanups.pop() {
            Some((old_hash, cleanup)) => {
                if hash == old_hash {
                    slots.push(Slot::Retain(old_hash, cleanup));
                } else {
                    slots.push(Slot::Replace(cleanup, hash, effect));
                }
            },
            None => {
                slots.push(Slot::Start(hash, effect));
            },
        }
    }
    assert(slots@ =~= wanted);
    slots
}

/// Carries a plan out, slot by slot in the order of the plan: a retained
/// cleanup is kept; for a replaced slot the old cleanup runs and then the
/// effect; for a started slot the effect runs.  Returns the cleanups to store.
pub fn execute<A, F: FnOnce(A) -> K, K: FnOnce()>(plan: Vec<Slot<A, F, K>>) -> (r: Vec<
    (u64, Cleanup<K>),
>)
    ensures
        executed(plan@, r@),
{
    let mut next: Vec<(u64, Cleanup<K>)> = Vec::new();
    for slot in it: plan
        invariant
            it.seq() == plan@,
            executed(plan@.take(it.index() as int), next@),
    {
        match slot {
            Slot::Retain(hash, cleanup) => {
                next.push((hash, cleanup));
            },
            Slot::Replace(cleanup, hash, effect) => {
                cleanup.run();
                let fresh = effect.run();
                next.push((hash, fresh));
            },
            Slot::Start(hash, effect) => {
                let fresh = effect.run();
                next.push((hash, fresh));
            },
        }
    }
    assert(plan@.take(plan@.len() as int) =~= plan@);
    next
}

/// An effect whose fingerprint did not change is not run again and its
/// cleanup is kept without running; one whose fingerprint changed has the old
/// cleanup run before it runs itself.
pub proof fn lemma_effect_reuse<A, F: FnOnce(A) -> K, K: FnOnce()>(
    effects: Seq<(u64, Effect<A, F, K>)>,
    cleanups: Seq<(u64, Cleanup<K>)>,
    i: int,
)
    requires
        0 <= i < effects.len(),
        i < cleanups.len(),
    ensures
        effects[i].0 == cleanups[i].0 ==> planned(effects, Some(cleanups))[i] == Slot::<A, F, K>::Retain(
            cleanups[i].0,
            cleanups[i].1,
        ),
        effects[i].0 != cleanups[i].0 ==> planned(effects, Some(cleanups))[i] == Slot::<A, F, K>::Replace(
            cleanups[i].1,
            effects[i].0,
            effects[i].1,
        ),
{
}

/// Once the plan is carried out, an effect whose fingerprint changed has had
/// the cleanup of its slot called and has run itself, and what it returned
/// is stored under the new fingerprint.
pub proof fn lemma_changed_dependency<A, F: FnOnce(A) -> K, K: FnOnce()>(
    effects: Seq<(u64, Effect<A, F, K>)>,
    cleanups: Seq<(u64, Cleanup<K>)>,
    next: Seq<(u64, Cleanup<K>)>,
    i: int,
)
    requires
        0 <= i < effects.len(),
        i < cleanups.len(),
        effects[i].0 != cleanups[i].0,
        executed(planned(effects, Some(cleanups)), next),
    ensures
        call_ensures(cleanups[i].1.thunk(), (), ()),
        next[i].0 == effects[i].0,
        call_ensures(effects[i].1.effect(), (effects[i].1.arg(),), next[i].1.thunk()),
{
    let plan = planned(effects, Some(cleanups));
    assert(plan[i] == Slot::<A, F, K>::Replace(cleanups[i].1, effects[i].0, effects[i].1));
}

/// An effect whose slot holds no cleanup starts: it runs, and its cleanup is
/// stored under its fingerprint.  The plan has a slot for every effect.
pub proof fn lemma_effect_start<A, F: FnOnce(A) -> K, K: FnOnce()>(
    effects: Seq<(u64, Effect<A, F, K>)>,
    previous: Option<Seq<(u64, Cleanup<K>)>>,
    i: int,
)
    requires
        0 <= i < effects.len(),
        previous matches Some(cleanups) ==> cleanups.len() <= i,
    ensures
        planned(effects, previous).len() == effects.len(),
        planned(effects, previous)[i] == Slot::<A, F, K>::Start(effects[i].0, effects[i].1),
{
}

/// `Hash::hash` of std: feeds a value to a hasher.  What the value feeds is
/// up to its implementation of `Hash`; nothing is claimed of the hasher
/// afterwards.
#[verifier::external_body]
fn hash_into<A: Hash>(arg: &A, state: &mut DefaultHasher) {
    arg.hash(state)
}

/// The fingerprint of a dependency: what a fresh default hasher makes of it.
fn fingerprint<A: Hash>(arg: &A) -> (r: u64) {
    let mut state = DefaultHasher::new();
    hash_into(arg, &mut state);
    state.finish()
}

/// Declares an effect of the component that renders under the fingerprint of
/// its dependency: `effect` is to be called with `arg` once the render is
/// committed, unless the effect that the render before declared in the same
/// place had the same fingerprint.  The effect is recorded behind the effects
/// that the render declared before it.  Outside a render nothing happens.
pub fn declare_effect<V, U: FnOnce(Arc<V>) -> Arc<V>, A, F: FnOnce(A) -> K, K: FnOnce()>(
    hook: Option<&mut Hook<V, U, A, F, K>>,
    fingerprint: u64,
    arg: A,
    effect: F,
)
    requires
        Effect::<A, F, K>::runnable(arg, effect),
    ensures
        hook matches Some(h) ==> {
            let declared = final(h)@.effects.last();
            &&& final(h)@ == (HookView { effects: h@.effects.push(declared), ..h@ })
            &&& declared.0 == fingerprint
            &&& declared.1.arg() == arg
            &&& declared.1.effect() == effect
            &&& final(h).signal == h.signal
            &&& final(h).updater == h.updater
        },
{
    match hook {
        Some(h) => {
            h.effects.push((fingerprint, Effect::new(arg, effect)));
        },
        None => {},
    }
}

/// Declares an effect of the component that renders, as [`declare_effect`]
/// does, under the fingerprint that the default hasher makes of `arg`.
pub fn use_effect<V, U: FnOnce(Arc<V>) -> Arc<V>, A: Hash, F: FnOnce(A) -> K, K: FnOnce()>(
    hook: Option<&mut Hook<V, U, A, F, K>>,
    arg: A,
    effect: F,
)
    requires
        Effect::<A, F, K>::runnable(arg, effect),
    ensures
        hook matches Some(h) ==> {
            let declared = final(h)@.effects.last();
            &&& final(h)@ == (HookView { effects: h@.effects.push(declared), ..h@ })
            &&& declared.1.arg() == arg
            &&& declared.1.effect() == effect
            &&& final(h).signal == h.signal
            &&& final(h).updater == h.updater
        },
{
    let hash = fingerprint(&arg);
    declare_effect(hook, hash, arg, effect)
}

/// Effects that are declared with the fingerprints of the render before,
/// slot by slot, change nothing: every cleanup is kept as it is, none runs,
/// and no effect runs either.
pub proof fn lemma_same_dependencies<A, F: FnOnce(A) -> K, K: FnOnce()>(
    effects: Seq<(u64, Effect<A, F, K>)>,
    cleanups: Seq<(u64, Cleanup<K>)>,
    next: Seq<(u64, Cleanup<K>)>,
)
    requires
        effects.len() == cleanups.len(),
        forall|i: int| 0 <= i < effects.len() ==> (#[trigger] effects[i]).0 == cleanups[i].0,
        executed(planned(effects, Some(cleanups)), next),
    ensures
        next == cleanups,
        forall|i: int|
            0 <= i < effects.len() ==> (#[trigger] planned(effects, Some(cleanups))[i])
                is Retain,
{
    let plan = planned(effects, Some(cleanups));
    assert forall|i: int| 0 <= i < effects.len() implies (#[trigger] plan[i]) is Retain by {
        assert(effects[i].0 == cleanups[i].0);
    }
    assert forall|i: int| 0 <= i < next.len() implies next[i] == cleanups[i] by {
        assert(plan[i] is Retain);
    }
    assert(next =~= cleanups);
}

} // verus!
