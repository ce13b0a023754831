use bloom::dom::{plan_update, plan_update_lowered, Hydration, Patch, Realized};
use bloom::{tag, HtmlComment, HtmlNode};

type Node = HtmlNode<()>;

fn element(tag_name: &str, attributes: &[&str]) -> Realized {
    Realized::Element {
        tag: tag_name.to_string(),
        attributes: attributes.iter().map(|name| name.to_string()).collect(),
    }
}

fn pairs(list: &[(&str, &str)]) -> Vec<(String, String)> {
    list.iter().map(|(name, value)| (name.to_string(), value.to_string())).collect()
}

fn attributes(patch: Patch) -> (Vec<(String, String)>, Vec<String>) {
    match patch {
        Patch::Attributes { set, remove } => (set, remove),
        _ => panic!("the element stays"),
    }
}

#[test]
fn an_element_with_the_same_tag_gets_its_attributes_patched() {
    let next: Node = tag::<()>("div").attr("id", "a").attr("class", "b").build().into();
    let (set, remove) = attributes(plan_update_lowered(
        &element("DIV", &["hidden", "class", "title"]),
        "div",
        &next,
    ));
    assert_eq!(set, pairs(&[("id", "a"), ("class", "b")]));
    assert_eq!(remove, vec!["hidden", "title"]);

    let (set, remove) = attributes(plan_update_lowered(&element("DIV", &[]), "div", &next));
    assert_eq!(set, pairs(&[("id", "a"), ("class", "b")]));
    assert!(remove.is_empty());
}

#[test]
fn the_tag_is_held_against_the_new_one_in_lower_case() {
    let next: Node = tag::<()>("div").attr("id", "a").build().into();
    assert!(matches!(plan_update(&element("DIV", &[]), &next), Patch::Attributes { .. }));
    assert!(matches!(plan_update(&element("div", &[]), &next), Patch::Attributes { .. }));
    assert!(matches!(plan_update(&element("SPAN", &[]), &next), Patch::Replace));
    assert!(matches!(plan_update_lowered(&element("DIV", &[]), "DIV", &next), Patch::Replace));
}

#[test]
fn a_text_is_set_when_it_differs() {
    let next: Node = HtmlNode::text("new".to_string());
    let same = Realized::Text { content: Some("new".to_string()) };
    let other = Realized::Text { content: Some("old".to_string()) };
    let none = Realized::Text { content: None };
    assert!(matches!(plan_update(&same, &next), Patch::Text(None)));
    assert!(matches!(plan_update(&other, &next), Patch::Text(Some(text)) if text == "new"));
    assert!(matches!(plan_update(&none, &next), Patch::Text(Some(text)) if text == "new"));
}

#[test]
fn another_kind_of_node_is_replaced() {
    let text: Node = HtmlNode::text("t".to_string());
    let div: Node = tag::<()>("div").build().into();
    let comment: Node = HtmlComment::new().text("c").build().into();
    assert!(matches!(plan_update(&element("DIV", &[]), &text), Patch::Replace));
    assert!(matches!(plan_update(&Realized::Text { content: None }, &div), Patch::Replace));
    assert!(matches!(plan_update(&Realized::Other, &div), Patch::Replace));
    assert!(matches!(plan_update(&Realized::Other, &text), Patch::Replace));
    assert!(matches!(plan_update(&element("DIV", &[]), &comment), Patch::Replace));
}

#[test]
fn new_children_adopt_the_existing_nodes_one_after_the_other() {
    let mut hydration = Hydration::hydrate();
    assert_eq!(hydration.next_index(1), Some(0));
    assert_eq!(hydration.next_index(1), Some(1));
    assert_eq!(hydration.next_index(2), Some(0));
    assert_eq!(hydration.next_index(1), Some(2));
    hydration.set_index(3, 7);
    assert_eq!(hydration.next_index(3), Some(7));
    assert_eq!(hydration.next_index(3), Some(8));
    hydration.set_index(4, u32::MAX);
    assert_eq!(hydration.next_index(4), None);
    hydration.finalize();
    assert_eq!(hydration.next_index(1), None);
}

#[test]
fn without_a_page_to_take_over_nothing_is_adopted() {
    let mut hydration = Hydration::new();
    assert_eq!(hydration.next_index(1), None);
    hydration.set_index(1, 3);
    assert_eq!(hydration.next_index(1), None);
}
