use bloom::{
    _get_context, use_context, use_effect, use_ref, use_ref_with_default, use_state, Element,
    Hook, Provider, State, StateUpdate,
};
use std::collections::HashMap;
use std::sync::Arc;

type Update = Box<dyn FnOnce(Arc<i32>) -> Arc<i32>>;
type CleanupFn = Box<dyn FnOnce()>;
type EffectFn = Box<dyn FnOnce(String) -> CleanupFn>;
type TestHook = Hook<i32, Update, String, EffectFn, CleanupFn>;

fn hook(state: &[(u16, i32)], refs: &[(u16, i32)], context: &[(u64, i32)]) -> (
    TestHook,
    async_channel::Receiver<()>,
    async_channel::Receiver<StateUpdate<i32, Update>>,
) {
    let (signal, signals) = async_channel::bounded(1);
    let (updater, updates) = async_channel::unbounded();
    let state = state.iter().map(|(index, value)| (*index, Arc::new(*value))).collect();
    let refs = refs.iter().map(|(index, value)| (*index, Arc::new(*value))).collect();
    let context: HashMap<u64, Arc<i32>> =
        context.iter().map(|(key, value)| (*key, Arc::new(*value))).collect();
    (Hook::new(signal, updater, 5, state, refs, Arc::new(context)), signals, updates)
}

fn add(n: i32) -> Update {
    Box::new(move |value: Arc<i32>| Arc::new(*value + n))
}

fn times(n: i32) -> Update {
    Box::new(move |value: Arc<i32>| Arc::new(*value * n))
}

fn nothing() -> EffectFn {
    Box::new(|_| Box::new(|| {}) as CleanupFn)
}

#[test]
fn use_state_takes_the_slots_in_call_order() {
    let (mut hook, _signals, _updates) = hook(&[(1, 10)], &[], &[]);
    let first = use_state(Some(&mut hook), || 1);
    let second = use_state(Some(&mut hook), || panic!("the slot is filled"));
    let third = use_state(Some(&mut hook), || 3);
    assert_eq!((first.index, **first.get()), (0, 1));
    assert_eq!((second.index, **second.get()), (1, 10));
    assert_eq!((third.index, **third.get()), (2, 3));
    assert_eq!(first.instance, 5);
    assert_eq!(hook.state_index, 3);
    // the slots that were empty hold what their defaults gave
    let mut slots: Vec<(u16, i32)> = hook.state.iter().map(|(k, v)| (*k, **v)).collect();
    slots.sort();
    assert_eq!(slots, vec![(0, 1), (1, 10), (2, 3)]);
}

#[test]
fn use_state_seeds_an_empty_slot_once() {
    let (mut hook, _signals, _updates) = hook(&[], &[], &[]);
    let first = use_state(Some(&mut hook), || 7);
    assert_eq!((first.index, **first.get()), (0, 7));
    assert_eq!(hook.state.get(&0).map(|v| **v), Some(7));
    // the render that follows starts from the slots that this one left
    let mut later: TestHook = Hook::new(
        hook.signal.clone(),
        hook.updater.clone(),
        hook.instance,
        hook.state.clone(),
        hook.refs.clone(),
        hook.context.clone(),
    );
    let again = use_state(Some(&mut later), || panic!("the slot is filled"));
    let next = use_state(Some(&mut later), || 8);
    assert_eq!((again.index, **again.get()), (0, 7));
    assert_eq!((next.index, **next.get()), (1, 8));
}

#[test]
fn use_state_outside_a_render_gives_a_handle_that_reaches_nobody() {
    let state: State<i32, Update> = use_state::<i32, Update, String, EffectFn, CleanupFn, _>(None, || 4);
    assert_eq!((state.instance, state.index, **state.get()), (0, 0, 4));
    state.update(add(1));
    let mock: State<i32, Update> = State::mock(9);
    mock.update(add(1));
    assert_eq!(**mock.get(), 9);
}

#[test]
fn update_queues_the_message_and_wakes_the_loop() {
    let (mut hook, signals, updates) = hook(&[(0, 10)], &[], &[]);
    let state = use_state(Some(&mut hook), || 0);
    assert!(signals.try_recv().is_err());
    state.update(add(1));
    state.share().update(times(3));
    assert!(signals.try_recv().is_ok());
    assert!(signals.try_recv().is_err());

    let first = updates.try_recv().unwrap();
    let second = updates.try_recv().unwrap();
    assert!(updates.try_recv().is_err());
    assert_eq!((first.target(), second.target()), (5, 5));

    let mut slots: HashMap<u16, Arc<i32>> = HashMap::new();
    StateUpdate::apply_all(vec![first, second], &mut slots);
    // the slot is empty, so the first update starts from the value of the handle
    assert_eq!(slots.get(&0).map(|value| **value), Some(33));
}

#[test]
fn updates_fold_over_the_slot_in_their_order() {
    let state: State<i32, Update> = State {
        index: 2,
        instance: 1,
        ..State::mock(100)
    };
    let mut slots: HashMap<u16, Arc<i32>> = HashMap::new();
    slots.insert(2, Arc::new(1));
    slots.insert(3, Arc::new(7));
    StateUpdate::apply_all(
        vec![state.message(add(2)), state.message(times(10)), state.message(add(-5))],
        &mut slots,
    );
    assert_eq!(slots.get(&2).map(|value| **value), Some(25));
    assert_eq!(slots.get(&3).map(|value| **value), Some(7));

    let other = State { index: 3, ..state.share() };
    StateUpdate::apply_all(vec![other.message(times(2)), state.message(times(2))], &mut slots);
    assert_eq!(slots.get(&2).map(|value| **value), Some(50));
    assert_eq!(slots.get(&3).map(|value| **value), Some(14));

    StateUpdate::<i32, Update>::apply_all(Vec::new(), &mut slots);
    assert_eq!(slots.len(), 2);
}

#[test]
fn an_update_of_an_empty_slot_starts_from_the_fallback() {
    let mut slots: HashMap<u16, Arc<i32>> = HashMap::new();
    StateUpdate::new(1, 4, Arc::new(6), add(1)).apply(&mut slots);
    assert_eq!(slots.get(&4).map(|value| **value), Some(7));
    StateUpdate::new(1, 4, Arc::new(100), add(1)).apply(&mut slots);
    assert_eq!(slots.get(&4).map(|value| **value), Some(8));
}

#[test]
fn use_ref_fills_a_slot_once() {
    let (mut hook, _signals, _updates) = hook(&[], &[(1, 11)], &[]);
    let first = use_ref_with_default(Some(&mut hook), || 1);
    let second = use_ref_with_default(Some(&mut hook), || panic!("the slot is filled"));
    let third: Arc<i32> = use_ref(Some(&mut hook));
    assert_eq!((*first, *second, *third), (1, 11, 0));
    assert_eq!(hook.ref_index, 3);
    assert_eq!(hook.refs.len(), 3);
    assert!(Arc::ptr_eq(&first, &hook.refs[&0]));

    hook.ref_index = 0;
    let again = use_ref_with_default(Some(&mut hook), || panic!("the slot is filled"));
    assert!(Arc::ptr_eq(&first, &again));
}

#[test]
fn use_ref_outside_a_render_gives_a_fresh_value() {
    let plain: Arc<i32> = use_ref::<i32, Update, String, EffectFn, CleanupFn>(None);
    assert_eq!(*plain, 0);
    let made = use_ref_with_default::<i32, Update, String, EffectFn, CleanupFn, _>(None, || 8);
    assert_eq!(*made, 8);
}

#[test]
fn use_effect_declares_with_a_fingerprint_of_the_dependency() {
    let (mut hook, _signals, _updates) = hook(&[], &[], &[]);
    use_effect(Some(&mut hook), "a".to_string(), nothing());
    use_effect(Some(&mut hook), "b".to_string(), nothing());
    use_effect(Some(&mut hook), "a".to_string(), nothing());
    assert_eq!(hook.effects.len(), 3);
    assert_eq!(hook.effects[0].0, hook.effects[2].0);
    assert_ne!(hook.effects[0].0, hook.effects[1].0);
    use_effect::<i32, Update, String, EffectFn, CleanupFn>(None, "a".to_string(), nothing());
}

#[test]
fn use_context_finds_what_is_provided_or_a_default() {
    let (hook, _signals, _updates) = hook(&[], &[], &[(1, 10), (2, 20)]);
    assert_eq!(*use_context(Some(&hook), 2), 20);
    assert_eq!(*use_context(Some(&hook), 3), 0);
    assert_eq!(*use_context::<i32, Update, String, EffectFn, CleanupFn>(None, 1), 0);
    assert_eq!(_get_context(Some(&hook)).len(), 2);
    assert!(_get_context::<i32, Update, String, EffectFn, CleanupFn>(None).is_empty());
}

#[test]
fn a_hook_outside_the_loop_starts_empty() {
    let context: HashMap<u64, Arc<i32>> = [(1, Arc::new(5))].into_iter().collect();
    let hook = TestHook::from_context(Arc::new(context));
    assert_eq!((hook.instance, hook.state_index, hook.ref_index), (0, 0, 0));
    assert!(hook.state.is_empty() && hook.refs.is_empty() && hook.effects.is_empty());
    assert_eq!(*use_context(Some(&hook), 1), 5);
}

#[test]
fn a_provider_wraps_its_children() {
    let provider = Provider::new(7, 70);
    assert_eq!((provider.key, *provider.value), (7, 70));
    let element: Element<(), String, i32> = provider.children(vec![Element::fragment(vec![])]);
    match element {
        Element::Provider(key, value, children) => {
            assert_eq!((key, *value, children.len()), (7, 70, 1));
            assert!(matches!(&children[0], Element::Fragment(inner) if inner.is_empty()));
        }
        _ => panic!("a provider is a provider element"),
    }
}
