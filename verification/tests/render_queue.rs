use bloom::effect::{execute, plan, reversed, Slot};
use bloom::render_loop::{child_path, fan, replace_node, update_children};
use bloom::{
    Cleanup, Effect, Element, RenderContext, RenderQueue, RenderQueueItem, TreeNode,
};
use std::cell::RefCell;
use std::collections::HashMap;
use std::rc::Rc;
use std::sync::Arc;

type CleanupFn = Box<dyn FnOnce()>;
type EffectFn = Box<dyn FnOnce(u64) -> CleanupFn>;
type Queue = RenderQueue<(), String, i32, (), u64, EffectFn, CleanupFn>;
type Tree = TreeNode<(), String, i32, ()>;
type Log = Rc<RefCell<Vec<String>>>;

fn context(parent: &str, sibling: Option<&str>) -> RenderContext<String, i32> {
    RenderContext::new(
        Arc::new(parent.to_string()),
        sibling.map(|sibling| Arc::new(sibling.to_string())),
        Arc::new(HashMap::new()),
    )
}

fn leaf(name: &str) -> Element<(), String, i32> {
    Element::Node(name.to_string(), vec![])
}

fn effect(log: &Log, name: &'static str, hash: u64) -> (u64, Effect<u64, EffectFn, CleanupFn>) {
    let log = log.clone();
    let thunk: EffectFn = Box::new(move |dependency: u64| {
        log.borrow_mut().push(format!("run {} {}", name, dependency));
        let log = log.clone();
        let cleanup: CleanupFn =
            Box::new(move || log.borrow_mut().push(format!("clean {} {}", name, dependency)));
        cleanup
    });
    (hash, Effect::new(hash, thunk))
}

/// What the items of the queue are, taken off one by one.
fn drain(queue: &mut Queue) -> Vec<String> {
    let mut seen = Vec::new();
    while let Some(item) = queue.next() {
        seen.push(match item {
            RenderQueueItem::Create { current, ctx } => {
                format!("create {:?} under {} before {:?}", current, ctx.parent, ctx.sibling)
            }
            RenderQueueItem::Reload { current, ctx } => {
                format!("reload {:?} under {} before {:?}", current, ctx.parent, ctx.sibling)
            }
            RenderQueueItem::Update { current, next, ctx } => {
                let next = match next {
                    Element::Node(name, _) => name,
                    _ => "?".to_string(),
                };
                format!("update {:?} to {} before {:?}", current, next, ctx.sibling)
            }
            RenderQueueItem::Remove { current, parent } => {
                let name = current.get_first_node().map(|node| (*node).clone());
                format!("remove {:?} from {}", name, parent)
            }
        });
    }
    seen
}

#[test]
fn basic_render_queue() {
    let mut root: Tree = TreeNode::Fragment(Vec::new());
    let child: Tree = TreeNode::Fragment(Vec::new());

    let mut queue = Queue::new();

    queue.reload(Vec::new(), RenderContext::new(Arc::new("".to_string()), None, Arc::default()));

    let item = queue.next().unwrap();

    match item {
        RenderQueueItem::Reload { current, .. } => {
            assert_eq!(current, Vec::<usize>::new());

            queue.create(
                child_path(&current, 0),
                RenderContext::new(Arc::new("".to_string()), None, Arc::default()),
            );
            match &mut root {
                TreeNode::Fragment(children) => children.push(child),
                _ => panic!("Unexpected item"),
            }
        }
        _ => panic!("Unexpected item"),
    }

    let item = queue.next().unwrap();

    match item {
        RenderQueueItem::Create { current, .. } => {
            assert_eq!(current, vec![0]);
            assert!(root.take_at(&current).is_some());
        }
        _ => panic!("Unexpected item"),
    }
    assert!(queue.next().is_none());
}

#[test]
fn the_queue_hands_out_the_last_item_first() {
    let mut queue = Queue::new();
    queue.create(vec![1], context("p", None));
    queue.update(vec![2], leaf("n"), context("p", Some("s")));
    queue.remove(TreeNode::Node(Arc::new("gone".to_string()), vec![]), Arc::new("p".to_string()));
    queue.reload(vec![], context("root", None));
    assert_eq!(
        drain(&mut queue),
        vec![
            "reload [] under root before None",
            "remove Some(\"gone\") from p",
            "update [2] to n before Some(\"s\")",
            "create [1] under p before None",
        ]
    );
}

#[test]
fn render_context_variants() {
    let base = RenderContext::<String, i32>::new(
        Arc::new("p".to_string()),
        Some(Arc::new("s".to_string())),
        Arc::new(HashMap::new()),
    );
    let inner = base.with_parent(Arc::new("q".to_string()));
    assert_eq!((inner.parent.as_str(), inner.sibling.clone()), ("q", None));
    let both = base.with_parent_and_sibling(Arc::new("q".to_string()), Some(Arc::new("t".to_string())));
    assert_eq!((both.parent.as_str(), both.sibling.as_deref().map(String::as_str)), ("q", Some("t")));
    let next = base.with_sibling(None);
    assert_eq!((next.parent.as_str(), next.sibling.clone()), ("p", None));
    let provided = base.with_context(3, Arc::new(30)).with_context(4, Arc::new(40));
    assert_eq!(provided.context.get(&3).map(|value| **value), Some(30));
    assert_eq!(provided.context.get(&4).map(|value| **value), Some(40));
    assert_eq!(provided.sibling.as_deref().map(String::as_str), Some("s"));
    assert!(base.context.is_empty());
    let replaced = provided.with_sibling_and_context(None, 3, Arc::new(31));
    assert_eq!(replaced.context.get(&3).map(|value| **value), Some(31));
    assert_eq!(replaced.context.len(), 2);
    assert_eq!(replaced.sibling, None);
    let copy = replaced.clone();
    assert_eq!(copy.context.len(), 2);
    assert_eq!(copy.parent.as_str(), "p");
}

#[test]
fn children_are_queued_last_first_with_their_following_node() {
    let children: Vec<Tree> = vec![
        TreeNode::Node(Arc::new("a".to_string()), vec![]),
        TreeNode::Fragment(vec![]),
        TreeNode::Node(Arc::new("c".to_string()), vec![]),
    ];
    let mut queue = Queue::new();
    fan(true, &vec![7], &children, &context("p", None), Some(Arc::new("z".to_string())), true, &mut queue);
    assert_eq!(
        drain(&mut queue),
        vec![
            "reload [7, 0] under p before None",
            "reload [7, 1] under p before Some(\"c\")",
            "reload [7, 2] under p before Some(\"z\")",
        ]
    );
    fan(false, &vec![], &children, &context("p", None), None, false, &mut queue);
    assert_eq!(
        drain(&mut queue),
        vec![
            "create [0] under p before None",
            "create [1] under p before None",
            "create [2] under p before None",
        ]
    );
}

#[test]
fn growing_children_are_created_and_the_rest_updated() {
    let mut ids = 0;
    let mut nodes: Vec<Tree> = TreeNode::from_all(vec![leaf("a"), leaf("b"), leaf("c")], &mut ids);
    let mut queue = Queue::new();
    update_children(
        &mut nodes,
        vec![leaf("A"), leaf("B"), leaf("C"), leaf("D")],
        &vec![5],
        &mut queue,
        context("p", Some("after")),
        &mut ids,
    );
    assert_eq!(nodes.len(), 4);
    assert_eq!(nodes[3].get_first_node().as_deref().map(String::as_str), Some("D"));
    assert_eq!(nodes[0].get_first_node().as_deref().map(String::as_str), Some("a"));
    assert_eq!(
        drain(&mut queue),
        vec![
            "update [5, 0] to A before Some(\"b\")",
            "update [5, 1] to B before Some(\"c\")",
            "update [5, 2] to C before Some(\"after\")",
            "create [5, 3] under p before Some(\"after\")",
        ]
    );
}

#[test]
fn shrinking_children_are_removed_and_the_rest_updated() {
    let mut ids = 0;
    let mut nodes: Vec<Tree> = TreeNode::from_all(vec![leaf("a"), leaf("b"), leaf("c")], &mut ids);
    let mut queue = Queue::new();
    update_children(&mut nodes, vec![leaf("A"), leaf("B")], &vec![], &mut queue, context("p", None), &mut ids);
    assert_eq!(nodes.len(), 2);
    assert_eq!(
        drain(&mut queue),
        vec![
            "update [0] to A before Some(\"b\")",
            "update [1] to B before None",
            "remove Some(\"c\") from p",
        ]
    );
    update_children(&mut nodes, vec![], &vec![], &mut queue, context("p", None), &mut ids);
    assert!(nodes.is_empty());
    assert_eq!(drain(&mut queue), vec!["remove Some(\"a\") from p", "remove Some(\"b\") from p"]);
}

#[test]
fn a_replaced_node_is_created_before_the_old_one_is_removed() {
    let mut ids = 0;
    let mut node: Tree = TreeNode::from(leaf("old"), &mut ids);
    let mut queue = Queue::new();
    replace_node(&mut node, leaf("new"), vec![2], &mut queue, context("p", None), &mut ids);
    assert_eq!(node.get_first_node().as_deref().map(String::as_str), Some("new"));
    assert_eq!(
        drain(&mut queue),
        vec!["create [2] under p before None", "remove Some(\"old\") from p"]
    );
}

#[test]
fn reversed_turns_a_list_around() {
    assert_eq!(reversed(vec![1, 2, 3]), vec![3, 2, 1]);
    assert_eq!(reversed(Vec::<i32>::new()), Vec::<i32>::new());
}

#[test]
fn a_plan_without_cleanups_starts_every_effect() {
    let log: Log = Log::default();
    let slots = plan(vec![effect(&log, "a", 1), effect(&log, "b", 2)], None);
    assert!(matches!(slots[0], Slot::Start(1, _)));
    assert!(matches!(slots[1], Slot::Start(2, _)));
    assert!(log.borrow().is_empty());
    let stored = execute(slots);
    assert_eq!(*log.borrow(), vec!["run a 1", "run b 2"]);
    assert_eq!(stored.iter().map(|entry| entry.0).collect::<Vec<_>>(), vec![1, 2]);
}

#[test]
fn a_plan_holds_effects_against_cleanups_slot_by_slot() {
    let log: Log = Log::default();
    let first = execute(plan(vec![effect(&log, "a", 1), effect(&log, "b", 2), effect(&log, "c", 3)], None));
    log.borrow_mut().clear();

    let slots = plan(vec![effect(&log, "a", 1), effect(&log, "b", 20), effect(&log, "c", 3)], Some(first));
    assert!(matches!(slots[0], Slot::Retain(1, _)));
    assert!(matches!(slots[1], Slot::Replace(_, 20, _)));
    assert!(matches!(slots[2], Slot::Retain(3, _)));
    let second = execute(slots);
    assert_eq!(*log.borrow(), vec!["clean b 2", "run b 20"]);
    assert_eq!(second.iter().map(|entry| entry.0).collect::<Vec<_>>(), vec![1, 20, 3]);

    log.borrow_mut().clear();
    for (_, cleanup) in second {
        cleanup.run();
    }
    assert_eq!(*log.borrow(), vec!["clean a 1", "clean b 20", "clean c 3"]);
}

#[test]
fn an_effect_beyond_the_stored_cleanups_starts() {
    let log: Log = Log::default();
    let first = execute(plan(vec![effect(&log, "a", 1)], None));
    log.borrow_mut().clear();
    let slots = plan(vec![effect(&log, "a", 1), effect(&log, "b", 2)], Some(first));
    assert_eq!(slots.len(), 2);
    assert!(matches!(slots[0], Slot::Retain(1, _)));
    assert!(matches!(slots[1], Slot::Start(2, _)));
    let second = execute(slots);
    assert_eq!(*log.borrow(), vec!["run b 2"]);
    assert_eq!(second.iter().map(|entry| entry.0).collect::<Vec<_>>(), vec![1, 2]);

    // a cleanup beyond the effects is dropped
    log.borrow_mut().clear();
    let slots = plan::<u64, EffectFn, CleanupFn>(Vec::new(), Some(second));
    assert_eq!(slots.len(), 0);
    assert_eq!(*log.borrow(), Vec::<String>::new());
}

#[test]
fn an_instance_that_declares_its_first_effect_later_has_it_run() {
    let log: Log = Log::default();
    let mut queue = Queue::new();
    queue.queue_effects(1, Vec::new());
    queue.run_effects();
    queue.queue_effects(1, vec![effect(&log, "late", 4)]);
    queue.run_effects();
    assert_eq!(*log.borrow(), vec!["run late 4"]);

    log.borrow_mut().clear();
    queue.queue_cleanups(1);
    queue.run_effects();
    assert_eq!(*log.borrow(), vec!["clean late 4"]);
}

#[test]
fn the_end_of_a_cycle_clears_first_and_settles_then() {
    let log: Log = Log::default();
    let mut queue = Queue::new();
    queue.queue_effects(1, vec![effect(&log, "one", 1)]);
    queue.queue_effects(2, vec![effect(&log, "two", 2)]);
    queue.run_effects();
    assert_eq!(*log.borrow(), vec!["run one 1", "run two 2"]);

    log.borrow_mut().clear();
    queue.queue_effects(2, vec![effect(&log, "two", 3)]);
    queue.queue_cleanups(1);
    queue.queue_cleanups(1);
    queue.queue_cleanups(9);
    queue.run_effects();
    assert_eq!(*log.borrow(), vec!["clean one 1", "clean two 2", "run two 3"]);

    log.borrow_mut().clear();
    queue.run_effects();
    assert!(log.borrow().is_empty());
}

#[test]
fn effects_queued_twice_for_an_instance_replace_the_first() {
    let log: Log = Log::default();
    let mut queue = Queue::new();
    queue.queue_effects(1, vec![effect(&log, "first", 1)]);
    queue.queue_effects(2, vec![effect(&log, "other", 2)]);
    queue.queue_effects(1, vec![effect(&log, "second", 1)]);
    queue.run_effects();
    assert_eq!(*log.borrow(), vec!["run second 1", "run other 2"]);
}

#[test]
fn cleanup_and_effect_run_what_they_wrap() {
    let log: Log = Log::default();
    let (_, effect) = effect(&log, "e", 4);
    let cleanup: Cleanup<CleanupFn> = effect.run();
    assert_eq!(*log.borrow(), vec!["run e 4"]);
    cleanup.run();
    assert_eq!(*log.borrow(), vec!["run e 4", "clean e 4"]);
    let seen = log.clone();
    Cleanup::new(move || seen.borrow_mut().push("plain".to_string())).run();
    assert_eq!(log.borrow().last().map(String::as_str), Some("plain"));
}
