use bloom::tag::button;
use bloom::{tag, DomRef, HtmlComment, HtmlElement, HtmlNode};
use std::sync::Arc;

type Handler = Box<dyn Fn(u32) -> u32>;

#[test]
fn build_button() {
    let button: HtmlElement<Handler> =
        button::<Handler>().on("click", Box::new(|event| event + 1)).build();

    let callback = button.callback("click");
    assert_eq!(callback.map(|handler| handler(1)), Some(2));
    assert!(button.callback("keydown").is_none());
    assert_eq!(button.callbacks().len(), 1);
}

#[test]
fn a_handler_replaces_the_one_of_the_same_event() {
    let element: HtmlElement<Handler> = tag::<Handler>("div")
        .on("click", Box::new(|event| event + 1))
        .on("input", Box::new(|event| event + 2))
        .on("click", Box::new(|event| event + 3))
        .build();
    assert_eq!(element.callbacks().len(), 2);
    assert_eq!(element.callbacks()[0].0, "click");
    assert_eq!(element.callback("click").map(|handler| handler(0)), Some(3));
    assert_eq!(element.callback("input").map(|handler| handler(0)), Some(2));
}

#[test]
fn element_builder_keeps_what_it_is_given() {
    let reference = Arc::new(DomRef::new());
    let element: HtmlElement<Handler> =
        HtmlElement::new().tag_name("span").attr("id", "a").dom_ref(reference.clone()).build();
    assert_eq!(element.tag_name(), "span");
    assert_eq!(element.attributes(), &vec![("id".to_string(), "a".to_string())]);
    assert!(Arc::ptr_eq(element.dom_ref().as_ref().unwrap(), &reference));
    let node = element.into_node();
    assert_eq!(node.as_element().map(|element| element.tag_name()), Some("span"));
    let text: HtmlNode<Handler> = HtmlNode::text("x".to_string());
    assert!(text.as_element().is_none());
}

#[test]
fn comment_builder_keeps_what_it_is_given() {
    let reference = Arc::new(DomRef::new());
    let comment = HtmlComment::new().dom_ref(reference.clone()).text("foo").build();
    assert_eq!(comment.text(), "foo");
    assert!(Arc::ptr_eq(comment.dom_ref().as_ref().unwrap(), &reference));
    let plain = HtmlNode::<Handler>::comment("bar").build();
    assert_eq!(plain.text(), "bar");
    assert!(plain.dom_ref().is_none());
}

#[test]
fn a_reference_is_unbound_until_it_is_bound() {
    let reference = DomRef::default();
    assert_eq!(reference.key(), 0);
    reference.bind(7);
    assert_eq!(reference.key(), 7);
}

#[test]
fn elements_are_equal_whatever_the_order_of_their_attributes() {
    let one: HtmlElement<Handler> = tag::<Handler>("div").attr("a", "1").attr("b", "2").build();
    let two: HtmlElement<Handler> = tag::<Handler>("div").attr("b", "2").attr("a", "1").build();
    let other_value: HtmlElement<Handler> = tag::<Handler>("div").attr("a", "1").attr("b", "3").build();
    let fewer: HtmlElement<Handler> = tag::<Handler>("div").attr("a", "1").build();
    let other_tag: HtmlElement<Handler> = tag::<Handler>("span").attr("a", "1").attr("b", "2").build();
    assert!(one == two);
    assert!(one != other_value);
    assert!(one != fewer);
    assert!(fewer != one);
    assert!(one != other_tag);
}

#[test]
fn an_element_with_a_handler_equals_nothing() {
    let plain: HtmlElement<Handler> = tag::<Handler>("div").build();
    let handled: HtmlElement<Handler> = tag::<Handler>("div").on("click", Box::new(|event| event)).build();
    assert!(plain == tag::<Handler>("div").build());
    assert!(handled != plain);
    assert!(plain != handled);
}

#[test]
fn a_reference_equals_itself_only() {
    let reference = Arc::new(DomRef::new());
    let other = Arc::new(DomRef::new());
    assert!(*reference == *reference.clone());
    assert!(*reference != *other);
    let carried: HtmlElement<Handler> = tag::<Handler>("div").dom_ref(reference.clone()).build();
    let same: HtmlElement<Handler> = tag::<Handler>("div").dom_ref(reference.clone()).build();
    let different: HtmlElement<Handler> = tag::<Handler>("div").dom_ref(other).build();
    let none: HtmlElement<Handler> = tag::<Handler>("div").build();
    assert!(carried == same);
    assert!(carried != different);
    assert!(carried != none);
}

#[test]
fn nodes_are_equal_when_kind_and_content_are() {
    let text: HtmlNode<Handler> = HtmlNode::text("a".to_string());
    assert!(text == text.clone());
    assert!(text != HtmlNode::text("b".to_string()));
    let comment: HtmlNode<Handler> = HtmlComment::new().text("a").build().into();
    assert!(comment == comment.clone());
    assert!(comment != text);
    let element: HtmlNode<Handler> = tag::<Handler>("p").attr("id", "x").build().into();
    assert!(element == element.clone());
    assert!(element != HtmlNode::from(tag::<Handler>("p").build()));
    assert!(HtmlNode::<Handler>::from("a".to_string()) == text);
}
