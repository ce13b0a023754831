use bloom::{Element, TreeComponent, TreeNode};
use std::sync::Arc;

type Tree = TreeNode<&'static str, i32, i32, ()>;
type Description = Element<&'static str, i32, i32>;

fn description() -> Description {
    Element::Node(
        1,
        vec![
            Element::Component(Arc::new("a")),
            Element::Fragment(vec![
                Element::Fragment(vec![]),
                Element::Provider(3, Arc::new(30), vec![Element::Component(Arc::new("b"))]),
                Element::Node(2, vec![]),
            ]),
            Element::Node(4, vec![Element::Component(Arc::new("c"))]),
        ],
    )
}

fn ids(tree: &Tree, seen: &mut Vec<(u64, &'static str)>) {
    match tree {
        TreeNode::Component(instance) => {
            seen.push((instance.id, *instance.component));
            assert!(instance.child.is_none() && instance.render_result.is_none());
            assert!(instance.state.is_empty() && instance.refs.is_empty());
        }
        TreeNode::Node(_, children)
        | TreeNode::Fragment(children)
        | TreeNode::Provider(_, _, children) => children.iter().for_each(|child| ids(child, seen)),
    }
}

#[test]
fn a_fresh_tree_numbers_its_components_in_document_order() {
    let mut next = 10;
    let tree: Tree = TreeNode::from(description(), &mut next);
    let mut seen = Vec::new();
    ids(&tree, &mut seen);
    assert_eq!(seen, vec![(10, "a"), (11, "b"), (12, "c")]);
    assert_eq!(next, 13);
}

#[test]
fn identifiers_stop_at_the_largest() {
    let mut next = u64::MAX - 1;
    let tree: Tree = TreeNode::from(description(), &mut next);
    let mut seen = Vec::new();
    ids(&tree, &mut seen);
    assert_eq!(seen, vec![(u64::MAX - 1, "a"), (u64::MAX, "b"), (u64::MAX, "c")]);
    assert_eq!(next, u64::MAX);
}

#[test]
fn the_first_node_is_the_first_in_document_order() {
    let mut next = 0;
    let mut tree: Tree = TreeNode::from(description(), &mut next);
    assert_eq!(tree.get_first_node().map(|node| *node), Some(1));
    let fragment = tree.take_at(&vec![1]).unwrap();
    assert_eq!(fragment.get_first_node().map(|node| *node), Some(2));
    let component = tree.take_at(&vec![0]).unwrap();
    assert_eq!(component.get_first_node().map(|node| *node), None);
    let empty: Tree = TreeNode::Fragment(vec![]);
    assert_eq!(empty.get_first_node(), None);
    assert_eq!(Tree::first_node_of(&vec![]), None);

    let mut mounted: TreeComponent<&'static str, i32, i32, ()> = TreeComponent::new(Arc::new("m"), 1);
    mounted.child = Some(Box::new(fragment));
    assert_eq!(TreeNode::Component(mounted).get_first_node().map(|node| *node), Some(2));
}

#[test]
fn take_leaves_a_hole_and_put_fills_it() {
    let mut next = 0;
    let mut tree: Tree = TreeNode::from(description(), &mut next);
    let path = vec![1, 2];
    let taken = tree.take_at(&path).unwrap();
    assert!(matches!(&taken, TreeNode::Node(node, _) if **node == 2));
    assert!(matches!(tree.take_at(&path), Some(TreeNode::Fragment(hole)) if hole.is_empty()));
    tree.put_at(&path, TreeNode::Node(Arc::new(20), vec![]));
    assert!(matches!(tree.take_at(&path), Some(TreeNode::Node(node, _)) if *node == 20));

    // a path that leaves the tree leads nowhere
    assert!(tree.take_at(&vec![3]).is_none());
    assert!(tree.take_at(&vec![0, 0]).is_none());
    assert!(tree.take_at(&vec![1, 0, 0]).is_none());
    tree.put_at(&vec![5, 5], TreeNode::Node(Arc::new(99), vec![]));
    assert_eq!(tree.get_first_node().map(|node| *node), Some(1));

    assert!(matches!(tree.take_at(&vec![2]), Some(TreeNode::Node(node, _)) if *node == 4));
    // the empty path is the tree itself
    assert!(matches!(tree.take_at(&vec![]), Some(TreeNode::Node(node, _)) if *node == 1));
}

#[test]
fn the_child_of_a_component_is_at_position_zero() {
    let mut mounted: TreeComponent<&'static str, i32, i32, ()> = TreeComponent::new(Arc::new("m"), 1);
    mounted.child = Some(Box::new(TreeNode::Node(Arc::new(8), vec![])));
    let mut tree: Tree = TreeNode::Component(mounted);
    assert!(tree.take_at(&vec![1]).is_none());
    assert!(matches!(tree.take_at(&vec![0]), Some(TreeNode::Node(node, _)) if *node == 8));
    tree.put_at(&vec![0], TreeNode::Node(Arc::new(9), vec![]));
    assert_eq!(tree.get_first_node().map(|node| *node), Some(9));
}

#[test]
fn a_fragment_is_a_fragment() {
    let element: Description = Element::fragment(vec![Element::Node(1, vec![])]);
    assert!(matches!(element, Element::Fragment(children) if children.len() == 1));
}

#[derive(Debug, PartialEq, Clone)]
struct Props(u64, i32);

impl bloom::Component for Props {
    fn kind(&self) -> u64 {
        self.0
    }
}

type Props3 = Element<Props, i32, i32>;

fn sample(value: &Arc<i32>, props: i32, node: i32) -> Props3 {
    Element::Fragment(vec![
        Element::Provider(1, value.clone(), vec![Element::Node(node, vec![])]),
        Props(1, props).into(),
    ])
}

#[test]
fn descriptions_are_equal_when_they_are_alike() {
    let value = Arc::new(5);
    let one = sample(&value, 1, 2);
    assert!(one == sample(&value, 1, 2));
    assert!(one == one.clone());
    assert!(one != sample(&value, 9, 2));
    assert!(one != sample(&value, 1, 9));
    // a provider of another value is another provider, equal as the values may be
    assert!(one != sample(&Arc::new(5), 1, 2));
    assert!(one != Element::Fragment(vec![]));
    assert!(Props3::from(()) == Element::Fragment(vec![]));
    assert!(Props3::from(vec![Element::Node(1, vec![])]) == Element::fragment(vec![Element::Node(1, vec![])]));
    assert!(Props3::from(Props(1, 1)) != Props3::from(Props(2, 1)));
}

#[test]
fn a_copy_shares_components_and_values() {
    let value = Arc::new(5);
    let one = sample(&value, 1, 2);
    match one.clone() {
        Element::Fragment(children) => match (&children[0], &children[1]) {
            (Element::Provider(key, copy, inside), Element::Component(_)) => {
                assert_eq!(*key, 1);
                assert!(Arc::ptr_eq(copy, &value));
                assert!(matches!(inside[0], Element::Node(2, _)));
            }
            _ => panic!("the copy has the shape of what was copied"),
        },
        _ => panic!("the copy has the shape of what was copied"),
    }
}
