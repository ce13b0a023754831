//! The work list of a render cycle, and the effects and cleanups that wait
//! for its end.

use crate::assoc::{lemma_position, put};
use crate::effect::{execute, executed, plan, planned, Cleanup, Effect};
use crate::element::{Element, ElementView};
use crate::tree::{TreeNode, TreeView};
use std::collections::HashMap;
use std::sync::Arc;
use vstd::prelude::*;

verus! {

/// The values that providers hand down, by key.
pub type ContextMap<V> = Arc<HashMap<u64, Arc<V>>>;

/// What a work item knows of its surroundings: the output node it is under,
/// the output node that follows it there, and the values provided above it.
pub struct RenderContext<N, V> {
    pub parent: Arc<N>,
    pub sibling: Option<Arc<N>>,
    pub context: ContextMap<V>,
}

/// The mathematical value of a [`RenderContext`].
pub struct ContextView<N, V> {
    pub parent: Arc<N>,
    pub sibling: Option<Arc<N>>,
    pub context: Map<u64, Arc<V>>,
}

impl<N, V> Clone for RenderContext<N, V> {
    fn clone(&self) -> (r: Self)
        ensures
            r@ == self@,
    {
        RenderContext {
            parent: self.parent.clone(),
            sibling: self.sibling(),
            context: self.context.clone(),
        }
    }
}

impl<N, V> RenderContext<N, V> {
    /// The node that follows, once more.
    pub fn sibling(&self) -> (r: Option<Arc<N>>)
        ensures
            r == self.sibling,
    {
        match &self.sibling {
            Some(sibling) => Some(sibling.clone()),
            None => None,
        }
    }

    pub open spec fn view(&self) -> ContextView<N, V> {
        ContextView { parent: self.parent, sibling: self.sibling, context: self.context@ }
    }

    pub fn new(parent: Arc<N>, sibling: Option<Arc<N>>, context: ContextMap<V>) -> (r: Self)
        ensures
            r@ == (ContextView { parent, sibling, context: context@ }),
    {
        RenderContext { parent, sibling, context }
    }

    /// The surroundings of the last child of `parent`.
    pub fn with_parent(&self, parent: Arc<N>) -> (r: Self)
        ensures
            r@ == (ContextView { parent, sibling: None, context: self@.context }),
    {
        RenderContext { parent, sibling: None, context: self.context.clone() }
    }

    /// The surroundings of a child of `parent` that `sibling` follows.
    pub fn with_parent_and_sibling(&self, parent: Arc<N>, sibling: Option<Arc<N>>) -> (r: Self)
        ensures
            r@ == (ContextView { parent, sibling, context: self@.context }),
    {
        RenderContext { parent, sibling, context: self.context.clone() }
    }

    /// The same surroundings with another node following.
    pub fn with_sibling(&self, sibling: Option<Arc<N>>) -> (r: Self)
        ensures
            r@ == (ContextView { sibling, ..self@ }),
    {
        RenderContext { parent: self.parent.clone(), sibling, context: self.context.clone() }
    }

    /// The same surroundings with `value` provided under `key`.
    pub fn with_context(&self, key: u64, value: Arc<V>) -> (r: Self)
        ensures
            r@ == (ContextView { context: self@.context.insert(key, value), ..self@ }),
    {
        let mut context = (*self.context).clone();
        context.insert(key, value);
        RenderContext {
            parent: self.parent.clone(),
            sibling: self.sibling(),
            context: Arc::new(context),
        }
    }

    /// The surroundings with another node following and `value` provided
    /// under `key`.
    pub fn with_sibling_and_context(&self, sibling: Option<Arc<N>>, key: u64, value: Arc<V>) -> (r:
        Self)
        ensures
            r@ == (ContextView {
                sibling,
                context: self@.context.insert(key, value),
                ..self@
            }),
    {
        let mut context = (*self.context).clone();
        context.insert(key, value);
        RenderContext { parent: self.parent.clone(), sibling, context: Arc::new(context) }
    }
}

/// One piece of work.  A node of the persistent tree is named by the path
/// that leads to it from the root.
#[allow(inconsistent_fields)]
pub enum RenderQueueItem<C, N, V, P> {
    /// Realize the subtree at the path, which is new.
    Create { current: Vec<usize>, ctx: RenderContext<N, V> },
    /// Visit the subtree at the path, whose description did not change.
    Reload { current: Vec<usize>, ctx: RenderContext<N, V> },
    /// Hold the subtree at the path against a new description.
    Update { current: Vec<usize>, next: Element<C, N, V>, ctx: RenderContext<N, V> },
    /// Tear down a subtree that has left the tree.
    Remove { current: TreeNode<C, N, V, P>, parent: Arc<N> },
}

/// The mathematical value of a [`RenderQueueItem`].
#[allow(inconsistent_fields)]
pub enum ItemView<C, N, V, P> {
    Create { current: Seq<usize>, ctx: ContextView<N, V> },
    Reload { current: Seq<usize>, ctx: ContextView<N, V> },
    Update { current: Seq<usize>, next: ElementView<C, N, V>, ctx: ContextView<N, V> },
    Remove { current: TreeView<C, N, V, P>, parent: Arc<N> },
}

impl<C, N, V, P> RenderQueueItem<C, N, V, P> {
    pub open spec fn view(&self) -> ItemView<C, N, V, P> {
        match self {
            RenderQueueItem::Create { current, ctx } => ItemView::Create {
                current: current@,
                ctx: ctx@,
            },
            RenderQueueItem::Reload { current, ctx } => ItemView::Reload {
                current: current@,
                ctx: ctx@,
            },
            RenderQueueItem::Update { current, next, ctx } => ItemView::Update {
                current: current@,
                next: next@,
                ctx: ctx@,
            },
            RenderQueueItem::Remove { current, parent } => ItemView::Remove {
                current: current@,
                parent: *parent,
            },
        }
    }

    /// The values of a list of items, one for one.
    pub open spec fn views(list: Seq<Self>) -> Seq<ItemView<C, N, V, P>> {
        Seq::new(list.len(), |i: int| list[i]@)
    }
}

/// The effects that a render declared, each with its fingerprint.
pub type Effects<A, F, K> = Vec<(u64, Effect<A, F, K>)>;

/// The cleanups of the effects that ran, each under the fingerprint that its
/// effect had.
pub type Cleanups<K> = Vec<(u64, Cleanup<K>)>;

/// The work list of the render loop, last in first out, together with the
/// effects that the renders of this cycle declared, the cleanups that are
/// stored for every component instance, and the instances whose cleanups have
/// to run because they left the tree.
#[verifier::reject_recursive_types(A)]
#[verifier::reject_recursive_types(F)]
#[verifier::reject_recursive_types(K)]
pub struct RenderQueue<C, N, V, P, A, F: FnOnce(A) -> K, K: FnOnce()> {
    queue: Vec<RenderQueueItem<C, N, V, P>>,
    effects: Vec<(u64, Effects<A, F, K>)>,
    cleanups: HashMap<u64, Cleanups<K>>,
    clear_cleanups: Vec<u64>,
}

/// The stored cleanups without those of the instances in `ids`.
pub open spec fn without<K: FnOnce()>(
    cleanups: Map<u64, Seq<(u64, Cleanup<K>)>>,
    ids: Seq<u64>,
) -> Map<u64, Seq<(u64, Cleanup<K>)>>
    decreases ids.len(),
{
    if ids.len() == 0 {
        cleanups
    } else {
        without(cleanups, ids.drop_last()).remove(ids.last())
    }
}

/// Every cleanup that is stored for one of the instances in `ids` was called.
pub open spec fn cleaned<K: FnOnce()>(
    cleanups: Map<u64, Seq<(u64, Cleanup<K>)>>,
    ids: Seq<u64>,
) -> bool {
    forall|i: int, j: int|
        0 <= i < ids.len() && cleanups.contains_key(ids[i]) && 0 <= j < cleanups[ids[i]].len()
            ==> call_ensures((#[trigger] cleanups[ids[i]][j]).1.thunk(), (), ())
}

/// What is still stored once the cleanups of some instances were dropped was
/// stored before, and what is no longer stored belongs to one of them.
proof fn lemma_without<K: FnOnce()>(
    cleanups: Map<u64, Seq<(u64, Cleanup<K>)>>,
    ids: Seq<u64>,
    id: u64,
)
    ensures
        without(cleanups, ids).contains_key(id) ==> cleanups.contains_key(id) && without(
            cleanups,
            ids,
        )[id] == cleanups[id],
        cleanups.contains_key(id) && !without(cleanups, ids).contains_key(id) ==> exists|i: int|
            0 <= i < ids.len() && #[trigger] ids[i] == id,
    decreases ids.len(),
{
    if ids.len() > 0 {
        lemma_without(cleanups, ids.drop_last(), id);
        if cleanups.contains_key(id) && !without(cleanups, ids).contains_key(id) {
            if without(cleanups, ids.drop_last()).contains_key(id) {
                assert(ids[ids.len() - 1] == id);
            } else {
                let i = choose|i: int| 0 <= i < ids.len() - 1 && #[trigger] ids.drop_last()[i] == id;
                assert(ids[i] == id);
            }
        }
    }
}

/// `after` is what the stored cleanups `before` become when the queued
/// effects are settled instance by instance in the order of the queue: each
/// instance's effects are held against its stored cleanups, the plan is
/// carried out, and what it leaves is stored for the instance.
pub open spec fn settled<A, F: FnOnce(A) -> K, K: FnOnce()>(
    queued: Seq<(u64, Seq<(u64, Effect<A, F, K>)>)>,
    before: Map<u64, Seq<(u64, Cleanup<K>)>>,
    after: Map<u64, Seq<(u64, Cleanup<K>)>>,
) -> bool
    decreases queued.len(),
{
    if queued.len() == 0 {
        after == before
    } else {
        exists|middle: Map<u64, Seq<(u64, Cleanup<K>)>>|
            #![trigger settled_one(queued.last().0, queued.last().1, middle, after)]
            settled(queued.drop_last(), before, middle) && settled_one(
                queued.last().0,
                queued.last().1,
                middle,
                after,
            )
    }
}

/// Settling one more instance extends what was settled before it.
proof fn lemma_settled_step<A, F: FnOnce(A) -> K, K: FnOnce()>(
    queued: Seq<(u64, Seq<(u64, Effect<A, F, K>)>)>,
    before: Map<u64, Seq<(u64, Cleanup<K>)>>,
    middle: Map<u64, Seq<(u64, Cleanup<K>)>>,
    after: Map<u64, Seq<(u64, Cleanup<K>)>>,
)
    requires
        queued.len() > 0,
        settled(queued.drop_last(), before, middle),
        settled_one(queued.last().0, queued.last().1, middle, after),
    ensures
        settled(queued, before, after),
{
}

/// `after` is what the stored cleanups `before` become when the effects of
/// one instance are settled.
pub open spec fn settled_one<A, F: FnOnce(A) -> K, K: FnOnce()>(
    id: u64,
    effects: Seq<(u64, Effect<A, F, K>)>,
    before: Map<u64, Seq<(u64, Cleanup<K>)>>,
    after: Map<u64, Seq<(u64, Cleanup<K>)>>,
) -> bool {
    &&& after.contains_key(id)
    &&& after == before.insert(id, after[id])
    &&& executed(
        planned(
            effects,
            if before.contains_key(id) {
                Some(before[id])
            } else {
                None
            },
        ),
        after[id],
    )
}

impl<C, N, V, P, A, F: FnOnce(A) -> K, K: FnOnce()> RenderQueue<C, N, V, P, A, F, K> {
    /// The work that waits, the next item last.
    pub closed spec fn items(&self) -> Seq<ItemView<C, N, V, P>> {
        RenderQueueItem::views(self.queue@)
    }

    /// The effects that the renders of this cycle declared, by instance, in
    /// the order in which the instances first rendered.
    pub closed spec fn effects(&self) -> Seq<(u64, Seq<(u64, Effect<A, F, K>)>)> {
        Seq::new(self.effects@.len(), |i: int| (self.effects@[i].0, self.effects@[i].1@))
    }

    /// The cleanups that are stored, by instance.
    pub closed spec fn cleanups(&self) -> Map<u64, Seq<(u64, Cleanup<K>)>> {
        self.cleanups@.map_values(|list: Cleanups<K>| list@)
    }

    /// The instances whose cleanups run at the end of the cycle.
    pub closed spec fn cleared(&self) -> Seq<u64> {
        self.clear_cleanups@
    }

    /// Two queues hold the same effects, cleanups and instances to clear.
    pub open spec fn same_effects(&self, other: &Self) -> bool {
        &&& self.effects() == other.effects()
        &&& self.cleanups() == other.cleanups()
        &&& self.cleared() == other.cleared()
    }

    /// A queue without work, effects or cleanups.
    pub fn new() -> (r: Self)
        ensures
            r.items() == Seq::<ItemView<C, N, V, P>>::empty(),
            r.effects() == Seq::<(u64, Seq<(u64, Effect<A, F, K>)>)>::empty(),
            r.cleanups() == Map::<u64, Seq<(u64, Cleanup<K>)>>::empty(),
            r.cleared() == Seq::<u64>::empty(),
    {
        let r = RenderQueue {
            queue: Vec::new(),
            effects: Vec::new(),
            cleanups: HashMap::new(),
            clear_cleanups: Vec::new(),
        };
        assert(r.items() =~= Seq::empty());
        assert(r.effects() =~= Seq::empty());
        assert(r.cleanups() =~= Map::empty());
        r
    }

    /// Puts an item on the work list.
    fn push(&mut self, item: RenderQueueItem<C, N, V, P>)
        ensures
            final(self).items() == old(self).items().push(item@),
            final(self).same_effects(old(self)),
    {
        self.queue.push(item);
        assert(self.items() =~= old(self).items().push(item@));
    }

    /// Asks for the subtree at the path to be realized.
    pub fn create(&mut self, current: Vec<usize>, ctx: RenderContext<N, V>)
        ensures
            final(self).items() == old(self).items().push(
                ItemView::Create { current: current@, ctx: ctx@ },
            ),
            final(self).same_effects(old(self)),
    {
        self.push(RenderQueueItem::Create { current, ctx })
    }

    /// Asks for the subtree at the path to be visited.
    pub fn reload(&mut self, current: Vec<usize>, ctx: RenderContext<N, V>)
        ensures
            final(self).items() == old(self).items().push(
                ItemView::Reload { current: current@, ctx: ctx@ },
            ),
            final(self).same_effects(old(self)),
    {
        self.push(RenderQueueItem::Reload { current, ctx })
    }

    /// Asks for the subtree at the path to be held against `next`.
    pub fn update(&mut self, current: Vec<usize>, next: Element<C, N, V>, ctx: RenderContext<N, V>)
        ensures
            final(self).items() == old(self).items().push(
                ItemView::Update { current: current@, next: next@, ctx: ctx@ },
            ),
            final(self).same_effects(old(self)),
    {
        self.push(RenderQueueItem::Update { current, next, ctx })
    }

    /// Asks for a subtree that left the tree to be torn down under `parent`.
    pub fn remove(&mut self, current: TreeNode<C, N, V, P>, parent: Arc<N>)
        ensures
            final(self).items() == old(self).items().push(
                ItemView::Remove { current: current@, parent },
            ),
            final(self).same_effects(old(self)),
    {
        self.push(RenderQueueItem::Remove { current, parent })
    }

    /// Takes the item that was put on the list last.
    pub fn next(&mut self) -> (r: Option<RenderQueueItem<C, N, V, P>>)
        ensures
            final(self).same_effects(old(self)),
            match r {
                Some(item) => old(self).items().len() > 0 && item@ == old(self).items().last()
                    && final(self).items() == old(self).items().drop_last(),
                None => old(self).items().len() == 0 && final(self).items() == old(self).items(),
            },
    {
        let r = self.queue.pop();
        assert(self.items() =~= if r is Some {
            old(self).items().drop_last()
        } else {
            old(self).items()
        });
        r
    }

    /// Stores the effects that the render of instance `id` declared, in the
    /// place of any that were stored for it in this cycle.
    pub fn queue_effects(&mut self, id: u64, effects: Effects<A, F, K>)
        ensures
            final(self).effects() == put(old(self).effects(), id, effects@),
            final(self).items() == old(self).items(),
            final(self).cleanups() == old(self).cleanups(),
            final(self).cleared() == old(self).cleared(),
    {
        let mut i: usize = 0;
        while i < self.effects.len()
            invariant
                i <= self.effects@.len(),
                *self == *old(self),
                forall|j: int| 0 <= j < i ==> self.effects()[j].0 != id,
            decreases self.effects@.len() - i,
        {
            if self.effects[i].0 == id {
                proof {
                    lemma_position(self.effects(), id, i as int);
                }
                self.effects[i] = (id, effects);
                assert(self.effects() =~= old(self).effects().update(i as int, (id, effects@)));
                return ;
            }
            i = i + 1;
        }
        self.effects.push((id, effects));
        assert(self.effects() =~= old(self).effects().push((id, effects@)));
    }

    /// Notes that instance `id` left the tree: its cleanups run at the end of
    /// the cycle.
    pub fn queue_cleanups(&mut self, id: u64)
        ensures
            final(self).cleared() == old(self).cleared().push(id),
            final(self).items() == old(self).items(),
            final(self).effects() == old(self).effects(),
            final(self).cleanups() == old(self).cleanups(),
    {
        self.clear_cleanups.push(id);
    }

    /// Ends a cycle.  First the cleanups of every instance that left the tree
    /// run, in the order in which they were stored, and are dropped.  Then the
    /// queued effects are settled instance by instance: each effect is held
    /// against the stored cleanup of its slot, an unchanged fingerprint keeps
    /// the cleanup, a changed one runs the cleanup and then the effect, an
    /// effect whose slot holds no cleanup runs, and what results is stored
    /// for the next cycle.
    pub fn run_effects(&mut self)
        ensures
            final(self).items() == old(self).items(),
            final(self).effects() == Seq::<(u64, Seq<(u64, Effect<A, F, K>)>)>::empty(),
            final(self).cleared() == Seq::<u64>::empty(),
            cleaned(old(self).cleanups(), old(self).cleared()),
            settled(
                old(self).effects(),
                without(old(self).cleanups(), old(self).cleared()),
                final(self).cleanups(),
            ),
    {
        let mut cleared: Vec<u64> = Vec::new();
        std::mem::swap(&mut cleared, &mut self.clear_cleanups);
        for id in it: cleared
            invariant
                it.seq() == cleared@,
                cleared@ == old(self).cleared(),
                self.items() == old(self).items(),
                self.effects() == old(self).effects(),
                self.cleared() == Seq::<u64>::empty(),
                self.cleanups() == without(old(self).cleanups(), cleared@.take(it.index() as int)),
                cleaned(old(self).cleanups(), cleared@.take(it.index() as int)),
        {
            let ghost k = it.index() as int;
            let ghost before = self.cleanups();
            let ghost stored = old(self).cleanups();
            proof {
                lemma_without(stored, cleared@.take(k), id);
            }
            match self.cleanups.remove(&id) {
                Some(list) => {
                    assert(before.contains_key(id) && before[id] == list@);
                    for entry in inner: list
                        invariant
                            inner.seq() == list@,
                            forall|j: int|
                                0 <= j < inner.index() ==> call_ensures(
                                    (#[trigger] list@[j]).1.thunk(),
                                    (),
                                    (),
                                ),
                    {
                        entry.1.run();
                    }
                },
                None => {
                    assert(!before.contains_key(id));
                },
            }
            proof {
                assert(self.cleanups() =~= before.remove(id));
                assert(cleared@.take(k + 1).drop_last() =~= cleared@.take(k));
                let ids = cleared@.take(k + 1);
                assert forall|i: int, j: int|
                    0 <= i < ids.len() && stored.contains_key(ids[i]) && 0 <= j
                        < stored[ids[i]].len() implies call_ensures(
                    (#[trigger] stored[ids[i]][j]).1.thunk(),
                    (),
                    (),
                ) by {
                    if i < k {
                        assert(ids[i] == cleared@.take(k)[i]);
                    } else if !before.contains_key(id) {
                        let e = choose|e: int|
                            0 <= e < cleared@.take(k).len() && #[trigger] cleared@.take(k)[e] == id;
                        assert(stored[cleared@.take(k)[e]][j] == stored[ids[i]][j]);
                    }
                }
            }
        }
        assert(cleared@.take(cleared@.len() as int) =~= cleared@);
        let ghost start = self.cleanups();
        let ghost queued_view = self.effects();
        let mut queued: Vec<(u64, Effects<A, F, K>)> = Vec::new();
        std::mem::swap(&mut queued, &mut self.effects);
        assert(self.effects() =~= Seq::empty());
        for entry in it: queued
            invariant
                it.seq() == queued@,
                queued_view.len() == queued@.len(),
                forall|i: int|
                    0 <= i < queued@.len() ==> queued_view[i] == (queued@[i].0, queued@[i].1@),
                self.items() == old(self).items(),
                self.effects() == Seq::<(u64, Seq<(u64, Effect<A, F, K>)>)>::empty(),
                self.cleared() == Seq::<u64>::empty(),
                settled(queued_view.take(it.index() as int), start, self.cleanups()),
        {
            let ghost k = it.index() as int;
            let ghost middle = self.cleanups();
            let (id, effects) = entry;
            let previous = self.cleanups.remove(&id);
            let next = execute(plan(effects, previous));
            self.cleanups.insert(id, next);
            proof {
                assert(self.cleanups() =~= middle.insert(id, next@));
                assert(queued_view.take(k + 1).drop_last() =~= queued_view.take(k));
                assert(queued_view.take(k + 1).last() == (id, effects@));
                assert(settled_one(id, effects@, middle, self.cleanups()));
                lemma_settled_step(queued_view.take(k + 1), start, middle, self.cleanups());
            }
        }
        assert(queued_view.take(queued@.len() as int) =~= queued_view);
    }
}

} // verus!
