use bloom::tag::{button, div, script, span};
use bloom::{
    render_to_stream, render_to_string, serialize_node_open, text, use_context, Chunk, Element,
    Hook, HtmlComment, HtmlElement, HtmlNode, Provider, StringStream,
};
use std::sync::Arc;

type Handler = fn(u32);
type Update = Box<dyn FnOnce(Arc<String>) -> Arc<String>>;
type CleanupFn = Box<dyn FnOnce()>;
type EffectFn = Box<dyn FnOnce(u64) -> CleanupFn>;
type TestHook = Hook<String, Update, u64, EffectFn, CleanupFn>;
type Html = Element<Page, HtmlNode<Handler>, String>;

/// The components of these tests.
#[derive(Debug, Clone, PartialEq)]
enum Page {
    /// Greets the name it is given.
    Hello(String),
    /// Greets the name that is provided under key 1.
    Provided,
    /// Fails.
    Broken,
}

fn render(page: &Page, hook: &TestHook) -> Result<Html, String> {
    match page {
        Page::Hello(name) => {
            Ok(div().build().children(vec![text(&format!("Hello, {}!", name))]))
        }
        Page::Provided => {
            let name = use_context(Some(hook), 1);
            Ok(span().build().children(vec![text(&format!("Hello, {}!", name))]))
        }
        Page::Broken => Err("broken".to_string()),
    }
}

/// Drives a stream to its end; the pieces of text in the order they came.
fn drain(stream: &mut StringStream<Page, Handler, String>) -> Result<Vec<String>, String> {
    let mut chunks = Vec::new();
    loop {
        match stream.poll_next::<Update, u64, EffectFn, CleanupFn>() {
            Chunk::Text(text) => chunks.push(text),
            Chunk::Render { component, hook } => {
                stream.rendered(render(&component, &hook))?;
            }
            Chunk::Continue => {}
            Chunk::Awaiting => panic!("no render is outstanding"),
            Chunk::End => return Ok(chunks),
        }
    }
}

#[test]
fn render_simple_stream() {
    let element: Html = div().build().children(vec![text("foo")]);
    let mut stream = render_to_stream(element);
    let output = drain(&mut stream).unwrap().concat();
    assert_eq!(output, "<div>foo</div>");
}

#[test]
fn render_with_attributes() {
    let element: Html = div().attr("class", "foo").attr("id", "bar").build().children(vec![]);
    let mut stream = render_to_stream(element);
    let output = drain(&mut stream).unwrap().concat();
    assert!(output.contains("class=\"foo\""));
    assert!(output.contains("id=\"bar\""));
}

#[test]
fn render_simple_string() {
    let element: Html = div().build().children(vec![text("foo")]);
    let output = render_to_string(&element);
    assert_eq!(output, Some("<div>foo</div>".to_string()));
}

#[test]
fn stream_chunks_come_in_document_order() {
    let element: Html = div()
        .attr("id", "root")
        .build()
        .children(vec![text("a"), span().build().children(vec![text("b")]), text("c")]);
    let mut stream = render_to_stream(element);
    assert_eq!(
        drain(&mut stream).unwrap(),
        vec!["<div id=\"root\">", "a", "<span>", "b", "</span>", "c", "</div>"]
    );
}

#[test]
fn attributes_keep_the_order_in_which_they_were_set() {
    let element: HtmlElement<Handler> =
        div().attr("class", "foo").attr("id", "bar").attr("class", "baz").build();
    assert_eq!(serialize_node_open(&element), "<div class=\"baz\" id=\"bar\">");
    assert_eq!(
        element.attributes(),
        &vec![("class".to_string(), "baz".to_string()), ("id".to_string(), "bar".to_string())]
    );
}

#[test]
fn string_of_a_description_with_a_component_needs_a_render() {
    let element: Html = div().build().children(vec![Element::Component(Arc::new(Page::Broken))]);
    assert_eq!(render_to_string(&element), None);
}

#[test]
fn string_of_fragments_comments_and_providers() {
    let comment: HtmlNode<Handler> =
        HtmlNode::Comment(HtmlComment::new().text("bloom-sb-start").build());
    let element: Html = Element::fragment(vec![
        comment.children(vec![]),
        Provider::new(1, "x".to_string()).children(vec![
            script().attr("type", "module").build().children(vec![text("init();")]),
        ]),
        button().build().children(vec![]),
    ]);
    assert_eq!(
        render_to_string(&element),
        Some("<!--bloom-sb-start--><script type=\"module\">init();</script><button></button>".to_string())
    );
}

#[test]
fn stream_renders_components_where_they_stand() {
    let element: Html = div().build().children(vec![
        text("["),
        Element::Component(Arc::new(Page::Hello("World".to_string()))),
        text("]"),
    ]);
    let mut stream = render_to_stream(element);
    assert_eq!(
        drain(&mut stream).unwrap().concat(),
        "<div>[<div>Hello, World!</div>]</div>"
    );
}

#[test]
fn stream_hands_the_provided_value_to_components() {
    let element: Html = Provider::new(1, "Ada".to_string())
        .children(vec![Element::Component(Arc::new(Page::Provided))]);
    let mut stream = render_to_stream(element);
    assert_eq!(drain(&mut stream).unwrap().concat(), "<span>Hello, Ada!</span>");

    let outside: Html = Element::Component(Arc::new(Page::Provided));
    let mut stream = render_to_stream(outside);
    assert_eq!(drain(&mut stream).unwrap().concat(), "<span>Hello, !</span>");
}

#[test]
fn stream_hands_on_the_error_of_a_render() {
    let element: Html = div().build().children(vec![Element::Component(Arc::new(Page::Broken))]);
    let mut stream = render_to_stream(element);
    assert_eq!(drain(&mut stream), Err("broken".to_string()));
}

#[test]
fn stream_waits_for_the_render_it_asked_for() {
    let element: Html = Element::Component(Arc::new(Page::Hello("x".to_string())));
    let mut stream = render_to_stream(element);
    assert!(matches!(stream.poll_next::<Update, u64, EffectFn, CleanupFn>(), Chunk::Render { .. }));
    assert!(matches!(stream.poll_next::<Update, u64, EffectFn, CleanupFn>(), Chunk::Awaiting));
    stream.rendered(Ok::<Html, String>(text("done"))).unwrap();
    assert_eq!(drain(&mut stream).unwrap().concat(), "done");
}

#[test]
fn children_of_a_text_are_passed_over() {
    let odd: Html = HtmlNode::text("t".to_string()).children(vec![text("hidden")]);
    let element: Html = div().build().children(vec![odd, text("u")]);
    assert_eq!(render_to_string(&element), Some("<div>tu</div>".to_string()));
    let odd: Html = HtmlNode::text("t".to_string()).children(vec![text("hidden")]);
    let element: Html = div().build().children(vec![odd, text("u")]);
    let mut stream = render_to_stream(element);
    assert_eq!(drain(&mut stream).unwrap().concat(), "<div>tu</div>");
}
