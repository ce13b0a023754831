use bloom::{
    render_to_string, AnyComponent, ComponentDiff, DomRef, DomRegistry, Element, HtmlNode,
    Interner, ServerBoundary,
};
use std::sync::Arc;

#[test]
fn the_same_text_is_interned_once() {
    let mut interner = Interner::new();
    let div = interner.interned("div".to_string());
    let span = interner.interned("span".to_string());
    let again = interner.interned("div".to_string());
    assert_eq!((div, span, again), ("div", "span", "div"));
    assert!(std::ptr::eq(div, again));
    assert!(!std::ptr::eq(div, span));
}

#[test]
fn the_smallest_free_key_is_given_out() {
    let mut registry: DomRegistry<&'static str> = DomRegistry::new();
    assert_eq!(registry.free_key(), Some(1));
    registry.insert(1, "a");
    registry.insert(2, "b");
    registry.insert(4, "d");
    assert_eq!(registry.free_key(), Some(3));
    registry.remove(1);
    assert_eq!(registry.free_key(), Some(1));
    assert_eq!(registry.get(2), Some(&"b"));
    assert_eq!(registry.get(1), None);
}

#[test]
fn the_largest_key_is_never_given_out() {
    let mut registry: DomRegistry<u16> = DomRegistry::new();
    for key in 1..u16::MAX {
        registry.insert(key, key);
    }
    assert_eq!(registry.free_key(), None);
    let reference = DomRef::new();
    assert!(!reference.set(&mut registry, 0));
    assert_eq!(reference.key(), 0);
    registry.remove(700);
    assert!(reference.set(&mut registry, 0));
    assert_eq!(reference.key(), 700);
}

#[test]
fn a_reference_leads_to_what_was_set() {
    let mut registry: DomRegistry<&'static str> = DomRegistry::new();
    let first = DomRef::new();
    let second = DomRef::default();
    assert_eq!(first.get(&registry), None);
    assert!(first.set(&mut registry, "one"));
    assert!(second.set(&mut registry, "two"));
    assert_eq!((first.key(), second.key()), (1, 2));
    assert_eq!(first.get(&registry), Some(&"one"));
    assert!(first.set(&mut registry, "uno"));
    assert_eq!((first.key(), first.get(&registry)), (1, Some(&"uno")));
    first.release(&mut registry);
    assert_eq!(first.get(&registry), None);
    assert_eq!(second.get(&registry), Some(&"two"));
}

#[test]
fn a_server_boundary_renders_its_mark() {
    let root = Arc::new(DomRef::new());
    let boundary: ServerBoundary<String> = ServerBoundary::<String>::new().root(root.clone()).build();
    let element: Element<(), HtmlNode<()>, ()> = boundary.render();
    assert_eq!(render_to_string(&element), Some("<!--bloom-sb-start-->".to_string()));
    match &element {
        Element::Fragment(children) => match &children[0] {
            Element::Node(HtmlNode::Comment(comment), _) => {
                assert!(Arc::ptr_eq(comment.dom_ref().as_ref().unwrap(), &root));
            }
            _ => panic!("the mark is a comment"),
        },
        _ => panic!("the boundary renders a fragment"),
    }
    let other: ServerBoundary<String> =
        ServerBoundary::<String>::new().root(Arc::new(DomRef::new())).build();
    assert!(boundary == other);
    assert!(boundary.compare(&other) == ComponentDiff::Equal);
}
