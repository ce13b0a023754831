use bloom::{
    perform, use_context, use_effect, use_ref_with_default, use_state, AnyComponent, Component,
    ComponentDiff, Demand, Element, Hook, ObjectModel, Provider, RenderLoop, RunOrSuspendResult,
    State, TreeNode,
};
use std::cell::RefCell;
use std::rc::Rc;
use std::sync::Arc;

#[derive(Debug, PartialEq)]
struct MockNode(i32);

type Update = Box<dyn FnOnce(Arc<i32>) -> Arc<i32>>;
type CleanupFn = Box<dyn FnOnce()>;
type EffectFn = Box<dyn FnOnce(u64) -> CleanupFn>;
type TestHook = Hook<i32, Update, u64, EffectFn, CleanupFn>;
type TestElement = Element<Kind, MockNode, i32>;
type TestLoop = RenderLoop<Kind, MockNode, i32, u32, Update, u64, EffectFn, CleanupFn>;

/// The components of these tests, one variant per kind.
#[derive(Debug, Clone, PartialEq)]
enum Kind {
    /// Renders `Node(0)`.
    Basic,
    /// Counts in a state slot; bumps the counter once, from its first render.
    AutoCounter,
    /// A node with three children; the node shows a counter.
    MultiContent,
    /// Suspends until the flag is set, then renders `Node(0)`.
    Async(Rc<RefCell<bool>>),
    /// Declares one effect with the given dependency.
    Effect(u64),
    /// Renders the given number of leaf nodes under a fragment.
    List(i32),
    /// Renders a fragment that holds `Basic` with the props given.
    Wrap(i32),
    /// Renders `Node(n)`.
    Leaf(i32),
    /// A node with as many leaf children as its state says, three at first.
    Grow,
    /// Renders a fragment that holds `Basic`; counts its renders in a state.
    Parent,
    /// Declares an effect whose dependency is its first state; a second
    /// state only makes it render again.
    Watcher,
    /// Renders `Effect(1)` while its state is zero and `Leaf(5)` afterwards.
    Switch,
    /// Renders `Node` of the value provided under key 9.
    Reader,
    /// Renders `Node` of a reference that it fills with 41 plus the number
    /// of the render.
    Keeper,
    /// Fails.
    Broken,
    /// Suspends on its first attempt and fails on the second.
    BrokenLater(Rc<RefCell<bool>>),
    /// Renders `Counter` below it; suspends while the flag is down and its
    /// own state is not zero.
    Outer(Rc<RefCell<bool>>),
    /// Renders `Node` of its state.
    Counter,
    /// Renders `Labelled` with its state as the label.
    Relabel,
    /// Renders a node with a child at first, a fragment of two nodes after
    /// its state has changed.
    Reshape,
    /// Renders a node and a component under a node, in the other order after
    /// its state has changed.
    Swap,
    /// Declares an effect with dependency 7, whatever its label.
    Labelled(i32),
    /// Renders `Node` of a state whose default is 41 plus the number of the
    /// render; a second state only makes it render again.
    Seeded,
    /// Declares no effect while its state is zero and one afterwards.
    LateEffect,
}

impl Component for Kind {
    fn kind(&self) -> u64 {
        match self {
            Kind::Basic => 0,
            Kind::AutoCounter => 1,
            Kind::MultiContent => 2,
            Kind::Async(_) => 3,
            Kind::Effect(_) => 4,
            Kind::List(_) => 5,
            Kind::Wrap(_) => 6,
            Kind::Leaf(_) => 7,
            Kind::Grow => 8,
            Kind::Parent => 9,
            Kind::Watcher => 10,
            Kind::Switch => 11,
            Kind::Reader => 12,
            Kind::Keeper => 13,
            Kind::Broken => 14,
            Kind::BrokenLater(_) => 15,
            Kind::Outer(_) => 16,
            Kind::Counter => 17,
            Kind::Relabel => 18,
            Kind::Labelled(_) => 19,
            Kind::Reshape => 20,
            Kind::Swap => 21,
            Kind::Seeded => 22,
            Kind::LateEffect => 23,
        }
    }
}

#[derive(Default)]
struct MockObjectModel {
    created: Vec<i32>,
    updated: Vec<i32>,
    removed: Vec<i32>,
}

impl ObjectModel for MockObjectModel {
    type Node = MockNode;

    fn create(&mut self, node: &Arc<MockNode>, _: &Arc<MockNode>, _: &Option<Arc<MockNode>>) {
        self.created.push(node.0);
    }

    fn update(&mut self, _: &Arc<MockNode>, next: &Arc<MockNode>) {
        self.updated.push(next.0);
    }

    fn remove(&mut self, node: &Arc<MockNode>, _: &Arc<MockNode>) {
        self.removed.push(node.0);
    }
}

impl MockObjectModel {
    fn take(&mut self) -> (Vec<i32>, Vec<i32>, Vec<i32>) {
        (
            std::mem::take(&mut self.created),
            std::mem::take(&mut self.updated),
            std::mem::take(&mut self.removed),
        )
    }
}

struct Host {
    render_loop: TestLoop,
    object_model: MockObjectModel,
    signal: async_channel::Receiver<()>,
    renders: Vec<Kind>,
    log: Rc<RefCell<Vec<String>>>,
    /// The renders that are suspended, each with a hook as it was when the
    /// render began.
    parked: Vec<(Kind, TestHook)>,
    /// The state handles of the render that ran last, by slot.
    states: Vec<State<i32, Update>>,
    /// The state handle of the `Outer` that rendered last.
    outer: Option<State<i32, Update>>,
    failed: Option<String>,
}

fn add(n: i32) -> Update {
    Box::new(move |value: Arc<i32>| Arc::new(*value + n))
}

fn node(n: i32, children: Vec<TestElement>) -> TestElement {
    Element::Node(MockNode(n), children)
}

fn component(kind: Kind) -> TestElement {
    Element::Component(Arc::new(kind))
}

/// A hook that starts where `hook` started: a suspended render goes on with
/// what it had when it began.
fn begin_again(hook: &TestHook) -> TestHook {
    Hook::new(
        hook.signal.clone(),
        hook.updater.clone(),
        hook.instance,
        hook.state.clone(),
        hook.refs.clone(),
        hook.context.clone(),
    )
}

enum Rendered {
    Ready(TestElement),
    Pending,
    Failed(String),
}

impl Host {
    fn new(element: TestElement) -> Host {
        let (sender, receiver) = async_channel::bounded::<()>(1);
        sender.try_send(()).unwrap();
        Host {
            render_loop: RenderLoop::new(Arc::new(MockNode(0)), element, sender),
            object_model: MockObjectModel::default(),
            signal: receiver,
            renders: Vec::new(),
            log: Rc::new(RefCell::new(Vec::new())),
            parked: Vec::new(),
            states: Vec::new(),
            outer: None,
            failed: None,
        }
    }

    fn effect(&self, name: &'static str) -> EffectFn {
        let log = self.log.clone();
        Box::new(move |dependency: u64| {
            log.borrow_mut().push(format!("{} {}", name, dependency));
            let log = log.clone();
            let cleanup: CleanupFn = Box::new(move || {
                log.borrow_mut().push(format!("cleanup {}", dependency));
            });
            cleanup
        })
    }

    fn render(&mut self, kind: &Kind, hook: &mut TestHook) -> Rendered {
        self.renders.push(kind.clone());
        match kind {
            Kind::Basic => Rendered::Ready(node(0, vec![])),
            Kind::Leaf(n) => Rendered::Ready(node(*n, vec![])),
            Kind::AutoCounter => {
                let counter = use_state(Some(hook), || 0);
                if **counter.get() == 0 {
                    counter.update(Box::new(|count: Arc<i32>| Arc::new(*count + 1)));
                }
                Rendered::Ready(node(**counter.get(), vec![]))
            }
            Kind::MultiContent => {
                let counter = use_state(Some(hook), || 0);
                if **counter.get() == 0 {
                    counter.update(Box::new(|count: Arc<i32>| Arc::new(*count + 1)));
                }
                Rendered::Ready(node(
                    **counter.get(),
                    vec![node(3, vec![]), node(4, vec![]), node(5, vec![])],
                ))
            }
            Kind::Async(flag) => {
                if *flag.borrow() {
                    Rendered::Ready(node(0, vec![]))
                } else {
                    Rendered::Pending
                }
            }
            Kind::Effect(dependency) => {
                let log = self.log.clone();
                let effect: EffectFn = Box::new(move |dependency: u64| {
                    log.borrow_mut().push(format!("effect {}", dependency));
                    let log = log.clone();
                    let cleanup: CleanupFn = Box::new(move || {
                        log.borrow_mut().push(format!("cleanup {}", dependency));
                    });
                    cleanup
                });
                use_effect(Some(hook), *dependency, effect);
                Rendered::Ready(node(0, vec![]))
            }
            Kind::List(count) => Rendered::Ready(Element::fragment(
                (0..*count).map(|n| node(10 + n, vec![])).collect(),
            )),
            Kind::Wrap(_) => Rendered::Ready(Element::fragment(vec![component(Kind::Basic)])),
            Kind::Grow => {
                let count = use_state(Some(hook), || 3);
                let children = (0..**count.get()).map(|n| node(10 + n, vec![])).collect();
                self.states = vec![count];
                Rendered::Ready(node(100, children))
            }
            Kind::Parent => {
                let renders = use_state(Some(hook), || 0);
                self.states = vec![renders];
                Rendered::Ready(Element::fragment(vec![component(Kind::Basic)]))
            }
            Kind::Watcher => {
                let dependency = use_state(Some(&mut *hook), || 7);
                let tick = use_state(Some(&mut *hook), || 0);
                use_effect(Some(hook), **dependency.get() as u64, self.effect("effect"));
                self.states = vec![dependency, tick];
                Rendered::Ready(node(0, vec![]))
            }
            Kind::Switch => {
                let state = use_state(Some(hook), || 0);
                let child = if **state.get() == 0 { Kind::Effect(1) } else { Kind::Leaf(5) };
                self.states = vec![state];
                Rendered::Ready(component(child))
            }
            Kind::Reader => Rendered::Ready(node(*use_context(Some(hook), 9), vec![])),
            Kind::Keeper => {
                let render = self.renders.len() as i32;
                let kept = use_ref_with_default(Some(&mut *hook), || 41 + render);
                let tick = use_state(Some(hook), || 0);
                self.states = vec![tick];
                Rendered::Ready(node(*kept, vec![]))
            }
            Kind::Outer(flag) => {
                let state = use_state(Some(hook), || 0);
                let waiting = **state.get() != 0 && !*flag.borrow();
                self.outer = Some(state);
                if waiting {
                    Rendered::Pending
                } else {
                    Rendered::Ready(component(Kind::Counter))
                }
            }
            Kind::Counter => {
                let state = use_state(Some(hook), || 0);
                let value = **state.get();
                self.states = vec![state];
                Rendered::Ready(node(value, vec![]))
            }
            Kind::Swap => {
                let state = use_state(Some(hook), || 0);
                let mut children = vec![node(1, vec![]), component(Kind::Leaf(2))];
                if **state.get() != 0 {
                    children.reverse();
                }
                self.states = vec![state];
                Rendered::Ready(node(9, children))
            }
            Kind::Reshape => {
                let state = use_state(Some(hook), || 0);
                let shape = if **state.get() == 0 {
                    node(1, vec![node(2, vec![]), node(3, vec![node(4, vec![])])])
                } else {
                    Element::fragment(vec![node(5, vec![node(6, vec![])]), node(7, vec![])])
                };
                self.states = vec![state];
                Rendered::Ready(shape)
            }
            Kind::Relabel => {
                let label = use_state(Some(hook), || 0);
                let child = Kind::Labelled(**label.get());
                self.states = vec![label];
                Rendered::Ready(component(child))
            }
            Kind::Labelled(label) => {
                use_effect(Some(hook), 7, self.effect("labelled"));
                Rendered::Ready(node(*label, vec![]))
            }
            Kind::Seeded => {
                let render = self.renders.len() as i32;
                let seeded = use_state(Some(&mut *hook), || 41 + render);
                let tick = use_state(Some(hook), || 0);
                let value = **seeded.get();
                self.states = vec![tick];
                Rendered::Ready(node(value, vec![]))
            }
            Kind::LateEffect => {
                let state = use_state(Some(&mut *hook), || 0);
                if **state.get() != 0 {
                    use_effect(Some(hook), 3, self.effect("late"));
                }
                self.states = vec![state];
                Rendered::Ready(node(0, vec![]))
            }
            Kind::Broken => Rendered::Failed("broken".to_string()),
            Kind::BrokenLater(flag) => {
                if *flag.borrow() {
                    Rendered::Failed("broken later".to_string())
                } else {
                    Rendered::Pending
                }
            }
        }
    }

    /// Runs one cycle if the loop was woken; says whether it ran.
    fn cycle(&mut self) -> bool {
        if self.signal.try_recv().is_err() {
            return false;
        }
        self.render_loop.start();
        loop {
            let demand = match perform(&mut self.object_model, self.render_loop.step()) {
                Some(demand) => demand,
                None => continue,
            };
            match demand {
                Demand::Create { .. } | Demand::Update { .. } | Demand::Remove { .. } => {
                    unreachable!()
                }
                Demand::Render { component, hook } => {
                    let mut hook = hook;
                    let again = begin_again(&hook);
                    let outcome = match self.render(&component, &mut hook) {
                        Rendered::Ready(element) => RunOrSuspendResult::Done((Ok(element), hook)),
                        Rendered::Failed(error) => RunOrSuspendResult::Done((Err(error), hook)),
                        Rendered::Pending => {
                            self.parked.push(((*component).clone(), again));
                            RunOrSuspendResult::Suspend(0)
                        }
                    };
                    if let Err(error) = self.render_loop.rendered(outcome) {
                        self.failed = Some(error);
                        return true;
                    }
                }
                Demand::Resume { pending } => {
                    let (kind, mut hook) = self.parked.pop().unwrap();
                    let again = begin_again(&hook);
                    let outcome = match self.render(&kind, &mut hook) {
                        Rendered::Ready(element) => RunOrSuspendResult::Done((Ok(element), hook)),
                        Rendered::Failed(error) => RunOrSuspendResult::Done((Err(error), hook)),
                        Rendered::Pending => {
                            self.parked.push((kind, again));
                            RunOrSuspendResult::Suspend(pending)
                        }
                    };
                    if let Err(error) = self.render_loop.rendered(outcome) {
                        self.failed = Some(error);
                        return true;
                    }
                }
                Demand::Continue => {}
                Demand::Awaiting => panic!("no render is outstanding"),
                Demand::Idle => break,
            }
        }
        self.render_loop.finish();
        true
    }

    fn wake(&self) {
        let _ = self.render_loop.signal.try_send(());
    }
}

#[test]
fn render_basic_component() {
    let mut host = Host::new(component(Kind::Basic));
    assert!(host.cycle());
    assert_eq!(host.object_model.take(), (vec![0], vec![], vec![]));
}

#[test]
fn with_callback() {
    let mut host = Host::new(component(Kind::AutoCounter));
    assert!(host.cycle());
    assert_eq!(host.object_model.take(), (vec![0], vec![], vec![]));
    assert!(host.cycle());
    assert_eq!(host.object_model.take(), (vec![], vec![1], vec![]));
    assert!(!host.cycle());
}

#[test]
fn update_order() {
    let mut host = Host::new(component(Kind::MultiContent));
    assert!(host.cycle());
    assert_eq!(host.object_model.take(), (vec![0, 3, 4, 5], vec![], vec![]));
    assert!(host.cycle());
    assert_eq!(host.object_model.take(), (vec![], vec![1, 3, 4, 5], vec![]));
}

#[test]
fn async_component() {
    let flag = Rc::new(RefCell::new(false));
    let mut host = Host::new(component(Kind::Async(flag.clone())));
    assert!(host.cycle());
    assert_eq!(host.object_model.take(), (vec![], vec![], vec![]));
    assert!(!host.cycle());

    *flag.borrow_mut() = true;
    host.wake();
    assert!(host.cycle());
    assert_eq!(host.object_model.take(), (vec![0], vec![], vec![]));
}

#[test]
fn with_effect() {
    let mut host = Host::new(component(Kind::Effect(7)));
    assert!(host.cycle());
    assert_eq!(*host.log.borrow(), vec!["effect 7".to_string()]);
}

#[test]
fn compare_tells_kinds_and_props_apart() {
    assert!(Kind::Leaf(1).compare(&Kind::Leaf(1)) == ComponentDiff::Equal);
    assert!(Kind::Leaf(1).compare(&Kind::Leaf(2)) == ComponentDiff::NewProps);
    assert!(Kind::Leaf(1).compare(&Kind::List(1)) == ComponentDiff::NewType);
    assert!(Kind::Basic.compare(&Kind::Basic) == ComponentDiff::Equal);
}

#[test]
fn equal_props_do_not_render_again() {
    let mut host = Host::new(component(Kind::Parent));
    assert!(host.cycle());
    assert_eq!(host.renders, vec![Kind::Parent, Kind::Basic]);
    assert_eq!(host.object_model.take(), (vec![0], vec![], vec![]));

    host.states[0].update(add(1));
    assert!(host.cycle());
    assert_eq!(host.renders, vec![Kind::Parent, Kind::Basic, Kind::Parent]);
    assert_eq!(host.object_model.take(), (vec![], vec![], vec![]));
}

#[test]
fn a_cycle_without_updates_renders_nothing() {
    let mut host = Host::new(node(1, vec![component(Kind::Basic), component(Kind::Leaf(2))]));
    assert!(host.cycle());
    assert_eq!(host.object_model.take(), (vec![0, 2], vec![], vec![]));
    let renders = host.renders.len();

    host.wake();
    assert!(host.cycle());
    assert_eq!(host.renders.len(), renders);
    assert_eq!(host.object_model.take(), (vec![], vec![], vec![]));
}

#[test]
fn a_longer_child_list_creates_only_the_new_child() {
    let mut host = Host::new(component(Kind::Grow));
    assert!(host.cycle());
    assert_eq!(host.object_model.take(), (vec![100, 10, 11, 12], vec![], vec![]));

    host.states[0].update(add(1));
    assert!(host.cycle());
    let (created, updated, removed) = host.object_model.take();
    assert_eq!(created, vec![13]);
    assert_eq!(removed, Vec::<i32>::new());
    assert_eq!(updated, vec![100, 10, 11, 12]);
}

#[test]
fn a_shorter_child_list_removes_only_the_last_child() {
    let mut host = Host::new(component(Kind::Grow));
    assert!(host.cycle());
    host.object_model.take();

    host.states[0].update(add(-1));
    assert!(host.cycle());
    let (created, updated, removed) = host.object_model.take();
    assert_eq!(created, Vec::<i32>::new());
    assert_eq!(removed, vec![12]);
    assert_eq!(updated, vec![100, 10, 11]);
}

#[test]
fn removals_go_from_the_first_dropped_child_to_the_last() {
    let mut host = Host::new(component(Kind::Grow));
    assert!(host.cycle());
    host.object_model.take();

    host.states[0].update(add(-3));
    assert!(host.cycle());
    assert_eq!(host.object_model.take(), (vec![], vec![100], vec![10, 11, 12]));
}

#[test]
fn updates_apply_in_the_order_in_which_they_were_queued() {
    let mut host = Host::new(component(Kind::Grow));
    assert!(host.cycle());
    host.object_model.take();

    host.states[0].update(add(2));
    host.states[0].update(Box::new(|value: Arc<i32>| Arc::new(*value * 2)));
    host.states[0].update(add(-9));
    assert!(host.cycle());
    // ((3 + 2) * 2) - 9 = 1
    assert_eq!(host.object_model.take(), (vec![], vec![100, 10], vec![11, 12]));
    assert_eq!(**host.states[0].get(), 1);
}

#[test]
fn an_effect_with_the_same_dependency_is_not_run_again() {
    let mut host = Host::new(component(Kind::Watcher));
    assert!(host.cycle());
    assert_eq!(*host.log.borrow(), vec!["effect 7"]);

    host.states[1].update(add(1));
    assert!(host.cycle());
    assert_eq!(host.renders.len(), 2);
    assert_eq!(*host.log.borrow(), vec!["effect 7"]);
}

#[test]
fn a_changed_dependency_runs_the_cleanup_before_the_effect() {
    let mut host = Host::new(component(Kind::Watcher));
    assert!(host.cycle());

    host.states[0].update(add(1));
    assert!(host.cycle());
    assert_eq!(*host.log.borrow(), vec!["effect 7", "cleanup 7", "effect 8"]);

    host.states[1].update(add(1));
    assert!(host.cycle());
    assert_eq!(*host.log.borrow(), vec!["effect 7", "cleanup 7", "effect 8"]);
}

#[test]
fn another_kind_replaces_the_instance_and_runs_its_cleanups() {
    let mut host = Host::new(component(Kind::Switch));
    assert!(host.cycle());
    assert_eq!(host.object_model.take(), (vec![0], vec![], vec![]));
    assert_eq!(*host.log.borrow(), vec!["effect 1"]);

    host.states[0].update(add(1));
    assert!(host.cycle());
    assert_eq!(host.object_model.take(), (vec![5], vec![], vec![0]));
    assert_eq!(*host.log.borrow(), vec!["effect 1", "cleanup 1"]);
}

#[test]
fn a_provider_hands_its_value_down() {
    let element = node(
        1,
        vec![
            Provider::new(9, 42).children(vec![Element::fragment(vec![component(Kind::Reader)])]),
            component(Kind::Reader),
        ],
    );
    let mut host = Host::new(element);
    assert!(host.cycle());
    assert_eq!(host.object_model.take(), (vec![42, 0], vec![], vec![]));
}

#[test]
fn a_reference_stays_what_the_first_render_made_it() {
    let mut host = Host::new(component(Kind::Keeper));
    assert!(host.cycle());
    assert_eq!(host.object_model.take(), (vec![42], vec![], vec![]));

    host.states[0].update(add(1));
    assert!(host.cycle());
    assert_eq!(host.renders.len(), 2);
    assert_eq!(host.object_model.take(), (vec![], vec![42], vec![]));
}

#[test]
fn a_failed_render_ends_the_loop_with_its_error() {
    let mut host = Host::new(node(1, vec![component(Kind::Broken), node(2, vec![])]));
    assert!(host.cycle());
    assert_eq!(host.failed, Some("broken".to_string()));
    assert_eq!(host.object_model.take(), (vec![], vec![], vec![]));
}

#[test]
fn a_suspended_render_can_fail_later() {
    let flag = Rc::new(RefCell::new(false));
    let mut host = Host::new(component(Kind::BrokenLater(flag.clone())));
    assert!(host.cycle());
    assert_eq!(host.failed, None);

    *flag.borrow_mut() = true;
    host.wake();
    assert!(host.cycle());
    assert_eq!(host.failed, Some("broken later".to_string()));
}

#[test]
fn the_loop_waits_for_the_render_it_asked_for() {
    let mut host = Host::new(component(Kind::Basic));
    host.render_loop.start();
    assert!(matches!(host.render_loop.step(), Demand::Render { .. }));
    assert!(matches!(host.render_loop.step(), Demand::Awaiting));
    assert!(matches!(host.render_loop.step(), Demand::Awaiting));
    let hook = TestHook::from_context(Arc::default());
    let outcome = RunOrSuspendResult::Done((Ok::<_, String>(node(3, vec![])), hook));
    host.render_loop.rendered(outcome).unwrap();
    match host.render_loop.step() {
        Demand::Create { node, parent, sibling } => {
            assert_eq!((node.0, parent.0, sibling), (3, 0, None));
        }
        _ => panic!("the node is created next"),
    }
    assert!(matches!(host.render_loop.step(), Demand::Idle));
}

#[test]
fn a_report_that_nobody_asked_for_is_dropped() {
    let mut host = Host::new(node(1, vec![]));
    let hook = TestHook::from_context(Arc::default());
    let outcome = RunOrSuspendResult::Done((Err::<TestElement, _>("late".to_string()), hook));
    assert_eq!(host.render_loop.rendered(outcome), Ok(()));
    assert!(matches!(host.render_loop.step(), Demand::Idle));
}

#[test]
fn a_fragment_tells_each_child_the_node_that_follows_it() {
    let mut host = Host::new(node(
        1,
        vec![Element::fragment(vec![node(2, vec![]), node(3, vec![])]), node(4, vec![])],
    ));
    assert!(host.cycle());
    host.object_model.take();

    host.wake();
    host.signal.try_recv().unwrap();
    host.render_loop.start();
    // visiting the root node and then its first child, the fragment
    assert!(matches!(host.render_loop.step(), Demand::Continue));
    assert!(matches!(host.render_loop.step(), Demand::Continue));
    match &host.render_loop.tree {
        TreeNode::Node(root, children) => {
            assert_eq!(root.0, 1);
            assert_eq!(children.len(), 2);
            assert_eq!(children[0].get_first_node().map(|node| node.0), Some(2));
            assert_eq!(children[1].get_first_node().map(|node| node.0), Some(4));
        }
        _ => panic!("the root is a node"),
    }
}

#[test]
fn updates_for_an_instance_that_left_are_dropped() {
    let mut host = Host::new(component(Kind::Switch));
    assert!(host.cycle());
    let old = host.states[0].share();
    host.states[0].update(add(1));
    assert!(host.cycle());
    assert_eq!(host.object_model.take(), (vec![0, 5], vec![], vec![0]));

    let stale = State::<i32, Update> { instance: 77, ..old };
    stale.update(add(1));
    assert!(host.cycle());
    assert_eq!(host.renders.len(), 4);
    assert_eq!(host.object_model.take(), (vec![], vec![], vec![]));
}

#[test]
fn the_first_cycle_visits_the_root_and_creates_what_components_render() {
    // every cycle begins with a visit of the root, the first one too: output
    // nodes that the root description holds itself count as mounted
    let mut host = Host::new(node(1, vec![node(2, vec![]), component(Kind::Leaf(3))]));
    assert!(host.cycle());
    assert_eq!(host.object_model.take(), (vec![3], vec![], vec![]));
}

#[test]
fn updates_wait_for_an_instance_that_a_suspended_render_hides() {
    let flag = Rc::new(RefCell::new(false));
    let mut host = Host::new(component(Kind::Outer(flag.clone())));
    assert!(host.cycle());
    assert_eq!(host.object_model.take(), (vec![0], vec![], vec![]));

    // both are woken; the outer one suspends, so the inner one is not reached
    host.states[0].update(add(5));
    host.outer.as_ref().unwrap().update(add(1));
    assert!(host.cycle());
    assert_eq!(host.object_model.take(), (vec![], vec![], vec![]));

    // the outer one resumes with the same child, which then takes its update
    *flag.borrow_mut() = true;
    host.wake();
    assert!(host.cycle());
    assert_eq!(host.object_model.take(), (vec![], vec![5], vec![]));
}

#[test]
fn cleanups_stay_with_an_instance_that_gets_new_props() {
    let mut host = Host::new(component(Kind::Relabel));
    assert!(host.cycle());
    assert_eq!(*host.log.borrow(), vec!["labelled 7"]);
    assert_eq!(host.object_model.take(), (vec![0], vec![], vec![]));

    // new props render the instance again; its effect has the dependency it had
    host.states[0].update(add(1));
    assert!(host.cycle());
    assert_eq!(host.renders, vec![Kind::Relabel, Kind::Labelled(0), Kind::Relabel, Kind::Labelled(1)]);
    assert_eq!(host.object_model.take(), (vec![], vec![1], vec![]));
    assert_eq!(*host.log.borrow(), vec!["labelled 7"]);
}

#[test]
fn another_kind_of_node_is_created_before_the_old_one_is_removed() {
    let mut host = Host::new(component(Kind::Reshape));
    assert!(host.cycle());
    assert_eq!(host.object_model.take(), (vec![1, 2, 3, 4], vec![], vec![]));

    host.states[0].update(add(1));
    host.signal.try_recv().unwrap();
    host.render_loop.start();
    let mut seen = Vec::new();
    loop {
        match host.render_loop.step() {
            Demand::Create { node, parent, sibling } => {
                seen.push(format!("create {} under {} before {:?}", node.0, parent.0, sibling.map(|s| s.0)))
            }
            Demand::Update { node, next } => seen.push(format!("update {} to {}", node.0, next.0)),
            Demand::Remove { node, parent } => seen.push(format!("remove {} from {}", node.0, parent.0)),
            Demand::Render { component, hook } => {
                let mut hook = hook;
                match host.render(&component, &mut hook) {
                    Rendered::Ready(element) => host
                        .render_loop
                        .rendered(RunOrSuspendResult::Done((Ok::<_, String>(element), hook)))
                        .unwrap(),
                    _ => panic!("the render is ready"),
                }
            }
            Demand::Idle => break,
            _ => {}
        }
    }
    host.render_loop.finish();
    assert_eq!(
        seen,
        vec![
            "create 5 under 0 before Some(7)",
            "create 6 under 5 before None",
            "create 7 under 0 before None",
            "remove 1 from 0",
            "remove 3 from 1",
            "remove 4 from 3",
            "remove 2 from 1",
        ]
    );
}

#[test]
fn children_that_trade_places_are_replaced_where_they_stand() {
    let mut host = Host::new(component(Kind::Swap));
    assert!(host.cycle());
    assert_eq!(host.object_model.take(), (vec![9, 1, 2], vec![], vec![]));
    assert_eq!(host.renders, vec![Kind::Swap, Kind::Leaf(2)]);

    host.states[0].update(add(1));
    assert!(host.cycle());
    // the component is mounted anew in the first place and the node created
    // anew in the second; nothing moves
    assert_eq!(host.renders, vec![Kind::Swap, Kind::Leaf(2), Kind::Swap, Kind::Leaf(2)]);
    assert_eq!(host.object_model.take(), (vec![2, 1], vec![9], vec![1, 2]));
}

fn identifiers(node: &TreeNode<Kind, MockNode, i32, u32>, found: &mut Vec<u64>) {
    match node {
        TreeNode::Component(instance) => {
            found.push(instance.id);
            if let Some(child) = &instance.child {
                identifiers(child, found);
            }
        }
        TreeNode::Node(_, children)
        | TreeNode::Fragment(children)
        | TreeNode::Provider(_, _, children) => {
            for child in children {
                identifiers(child, found);
            }
        }
    }
}

#[test]
fn instances_keep_distinct_identifiers() {
    let mut host = Host::new(component(Kind::Swap));
    assert!(host.cycle());
    let mut first = Vec::new();
    identifiers(&host.render_loop.tree, &mut first);
    assert_eq!(first, vec![0, 1]);
    assert_eq!(host.render_loop.ids, 2);

    host.states[0].update(add(1));
    assert!(host.cycle());
    // the instance that was mounted anew has an identifier of its own
    let mut second = Vec::new();
    identifiers(&host.render_loop.tree, &mut second);
    assert_eq!(second, vec![0, 2]);
    assert_eq!(host.render_loop.ids, 3);
}

#[test]
fn a_state_slot_keeps_what_the_first_render_seeded() {
    let mut host = Host::new(component(Kind::Seeded));
    assert!(host.cycle());
    assert_eq!(host.object_model.take(), (vec![42], vec![], vec![]));

    host.states[0].update(add(1));
    assert!(host.cycle());
    assert_eq!(host.renders.len(), 2);
    // the default of the second render would have given 43
    assert_eq!(host.object_model.take(), (vec![], vec![42], vec![]));
}

#[test]
fn an_effect_that_is_declared_in_a_later_render_runs() {
    let mut host = Host::new(component(Kind::LateEffect));
    assert!(host.cycle());
    assert_eq!(*host.log.borrow(), Vec::<String>::new());

    host.states[0].update(add(1));
    assert!(host.cycle());
    assert_eq!(*host.log.borrow(), vec!["late 3"]);
}

#[test]
fn the_hook_of_a_render_carries_the_channels_of_the_loop() {
    let mut host = Host::new(component(Kind::Counter));
    assert!(host.cycle());
    assert_eq!(host.object_model.take(), (vec![0], vec![], vec![]));
    // the handle that the render got wakes this host and reaches this loop
    assert!(!host.cycle());
    host.states[0].update(add(5));
    assert!(host.cycle());
    assert_eq!(host.object_model.take(), (vec![], vec![5], vec![]));
}
