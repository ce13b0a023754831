//! HTML text for nodes and for descriptions that hold no component.

use crate::element::{Element, ElementView};
use crate::html_element::{texts, HtmlElement};
use crate::node::HtmlNode;
use vstd::prelude::*;
use vstd::string::*;

verus! {

/// The text of a list of attributes: for each, a blank, the name, `="`, the
/// value and `"`.  Names and values are written as they are.
pub open spec fn attribute_text(attrs: Seq<(Seq<char>, Seq<char>)>) -> Seq<char>
    decreases attrs.len(),
{
    if attrs.len() == 0 {
        Seq::empty()
    } else {
        attribute_text(attrs.drop_last()) + seq![' '] + attrs.last().0 + seq!['=', '"']
            + attrs.last().1 + seq!['"']
    }
}

/// The opening tag of an element with the given name and attributes.
pub open spec fn open_tag(tag: Seq<char>, attrs: Seq<(Seq<char>, Seq<char>)>) -> Seq<char> {
    seq!['<'] + tag + attribute_text(attrs) + seq!['>']
}

/// The closing tag of an element with the given name.
pub open spec fn close_tag(tag: Seq<char>) -> Seq<char> {
    seq!['<', '/'] + tag + seq!['>']
}

/// The text of a comment.
pub open spec fn comment_text(text: Seq<char>) -> Seq<char> {
    seq!['<', '!', '-', '-'] + text + seq!['-', '-', '>']
}

/// The description holds no component.
pub open spec fn is_static<C, N, V>(element: ElementView<C, N, V>) -> bool
    decreases element, 0int,
{
    match element {
        ElementView::Component(_) => false,
        ElementView::Node(_, children) => all_static(children),
        ElementView::Fragment(children) => all_static(children),
        ElementView::Provider(_, _, children) => all_static(children),
    }
}

/// None of the descriptions holds a component.
pub open spec fn all_static<C, N, V>(elements: Seq<ElementView<C, N, V>>) -> bool
    decreases elements, 1int, elements.len(),
{
    if elements.len() == 0 {
        true
    } else {
        all_static(elements.drop_last()) && is_static(elements.last())
    }
}

/// The HTML text of a description.  An element is its opening tag, the text
/// of its children and its closing tag; a text node is its text and a
/// comment its text between `<!--` and `-->`, both without their children; a
/// fragment or a provider is the text of its children.  A component, which
/// only a render can turn into nodes, contributes nothing.
pub open spec fn markup<C, H, V>(element: ElementView<C, HtmlNode<H>, V>) -> Seq<char>
    decreases element, 0int,
{
    match element {
        ElementView::Component(_) => Seq::empty(),
        ElementView::Node(node, children) => match node {
            HtmlNode::Element(tag) => open_tag(tag.tag_name@, tag.attrs()) + markup_all(children)
                + close_tag(tag.tag_name@),
            HtmlNode::Text(text) => text@,
            HtmlNode::Comment(comment) => comment_text(comment.text@),
        },
        ElementView::Fragment(children) => markup_all(children),
        ElementView::Provider(_, _, children) => markup_all(children),
    }
}

/// The HTML text of a list of descriptions, one after the other.
pub open spec fn markup_all<C, H, V>(elements: Seq<ElementView<C, HtmlNode<H>, V>>) -> Seq<char>
    decreases elements, 1int, elements.len(),
{
    if elements.len() == 0 {
        Seq::empty()
    } else {
        markup_all(elements.drop_last()) + markup(elements.last())
    }
}

/// The opening tag of an element, with its attributes in their order.
pub fn serialize_node_open<H>(node: &HtmlElement<H>) -> (r: String)
    ensures
        r@ == open_tag(node.tag_name@, node.attrs()),
{
    proof {
        reveal_strlit("<");
        reveal_strlit(" ");
        reveal_strlit("=\"");
        reveal_strlit("\"");
        reveal_strlit(">");
    }
    let mut out = String::from_str("<");
    out.append(node.tag_name);
    let ghost head = out@;
    let ghost attrs = node.attrs();
    assert(head =~= seq!['<'] + node.tag_name@);
    assert(attrs.take(0) =~= Seq::empty());
    let mut i: usize = 0;
    while i < node.attributes.len()
        invariant
            i <= node.attributes@.len(),
            attrs == texts(node.attributes@),
            out@ == head + attribute_text(attrs.take(i as int)),
        decreases node.attributes@.len() - i,
    {
        let ghost before = out@;
        out.append(" ");
        out.append(node.attributes[i].0.as_str());
        out.append("=\"");
        out.append(node.attributes[i].1.as_str());
        out.append("\"");
        proof {
            reveal_strlit(" ");
            reveal_strlit("=\"");
            reveal_strlit("\"");
            let prefix = attrs.take(i + 1);
            assert(prefix.drop_last() =~= attrs.take(i as int));
            assert(prefix.last() == attrs[i as int]);
            assert(out@ =~= before + seq![' '] + attrs[i as int].0 + seq!['=', '"'] + attrs[i as int].1
                + seq!['"']);
            assert(out@ =~= head + attribute_text(prefix));
        }
        i = i + 1;
    }
    assert(attrs.take(attrs.len() as int) =~= attrs);
    out.append(">");
    assert(out@ =~= open_tag(node.tag_name@, node.attrs()));
    out
}

/// The closing tag of an element with the given name.
pub fn serialize_node_close(tag_name: &str) -> (r: String)
    ensures
        r@ == close_tag(tag_name@),
{
    proof {
        reveal_strlit("</");
        reveal_strlit(">");
    }
    let mut out = String::from_str("</");
    out.append(tag_name);
    out.append(">");
    assert(out@ =~= close_tag(tag_name@));
    out
}

/// A comment as HTML text.
pub fn serialize_comment(text: &str) -> (r: String)
    ensures
        r@ == comment_text(text@),
{
    proof {
        reveal_strlit("<!--");
        reveal_strlit("-->");
    }
    let mut out = String::from_str("<!--");
    out.append(text);
    out.append("-->");
    assert(out@ =~= comment_text(text@));
    out
}

/// Appends the HTML text of a description to `out`.  Says whether the
/// description was free of components; where it is not, what was appended is
/// of no use.
fn write_element<C, H, V>(element: &Element<C, HtmlNode<H>, V>, out: &mut String) -> (complete:
    bool)
    ensures
        complete == is_static(element@),
        complete ==> final(out)@ == old(out)@ + markup(element@),
    decreases element, 0int,
{
    match element {
        Element::Component(_) => false,
        Element::Node(node, children) => match node {
            HtmlNode::Element(tag) => {
                let open = serialize_node_open(tag);
                out.append(open.as_str());
                let complete = write_elements(children, out);
                let close = serialize_node_close(tag.tag_name);
                out.append(close.as_str());
                proof {
                    if complete {
                        assert(out@ =~= old(out)@ + markup(element@));
                    }
                }
                complete
            },
            HtmlNode::Text(text) => {
                out.append(text.as_str());
                scan(children)
            },
            HtmlNode::Comment(comment) => {
                let text = serialize_comment(comment.text.as_str());
                out.append(text.as_str());
                scan(children)
            },
        },
        Element::Fragment(children) => write_elements(children, out),
        Element::Provider(_, _, children) => write_elements(children, out),
    }
}

/// Appends the HTML text of a list of descriptions to `out`.
fn write_elements<C, H, V>(elements: &Vec<Element<C, HtmlNode<H>, V>>, out: &mut String) -> (complete:
    bool)
    ensures
        complete == all_static(Element::views(elements@)),
        complete ==> final(out)@ == old(out)@ + markup_all(Element::views(elements@)),
    decreases elements, 1int,
{
    let ghost all = Element::views(elements@);
    let mut complete = true;
    let mut i: usize = 0;
    assert(all.take(0) =~= Seq::empty());
    assert(out@ =~= old(out)@ + Seq::<char>::empty());
    while i < elements.len()
        invariant
            i <= elements@.len(),
            all == Element::views(elements@),
            complete == all_static(all.take(i as int)),
            complete ==> out@ == old(out)@ + markup_all(all.take(i as int)),
        decreases elements@.len() - i,
    {
        let ghost before = out@;
        let one = write_element(&elements[i], out);
        proof {
            let prefix = all.take(i + 1);
            assert(prefix.drop_last() =~= all.take(i as int));
            assert(prefix.last() == elements@[i as int]@);
            if complete && one {
                assert(out@ =~= old(out)@ + markup_all(prefix));
            }
        }
        complete = complete && one;
        i = i + 1;
    }
    assert(all.take(all.len() as int) =~= all);
    complete
}

/// Says whether a list of descriptions is free of components.
fn scan<C, N, V>(elements: &Vec<Element<C, N, V>>) -> (complete: bool)
    ensures
        complete == all_static(Element::views(elements@)),
    decreases elements, 1int,
{
    let ghost all = Element::views(elements@);
    let mut complete = true;
    let mut i: usize = 0;
    assert(all.take(0) =~= Seq::empty());
    while i < elements.len()
        invariant
            i <= elements@.len(),
            all == Element::views(elements@),
            complete == all_static(all.take(i as int)),
        decreases elements@.len() - i,
    {
        let one = scan_one(&elements[i]);
        proof {
            let prefix = all.take(i + 1);
            assert(prefix.drop_last() =~= all.take(i as int));
            assert(prefix.last() == elements@[i as int]@);
        }
        complete = complete && one;
        i = i + 1;
    }
    assert(all.take(all.len() as int) =~= all);
    complete
}

/// Says whether a description is free of components.
fn scan_one<C, N, V>(element: &Element<C, N, V>) -> (complete: bool)
    ensures
        complete == is_static(element@),
    decreases element, 0int,
{
    match element {
        Element::Component(_) => false,
        Element::Node(_, children) => scan(children),
        Element::Fragment(children) => scan(children),
        Element::Provider(_, _, children) => scan(children),
    }
}

/// The HTML text of a description that holds no component; `None` for one
/// that holds a component, which only a render can turn into nodes.
pub fn render_to_string<C, H, V>(element: &Element<C, HtmlNode<H>, V>) -> (r: Option<String>)
    ensures
        match r {
            Some(text) => is_static(element@) && text@ == markup(element@),
            None => !is_static(element@),
        },
{
    let mut out = String::new();
    if write_element(element, &mut out) {
        assert(out@ =~= markup(element@));
        Some(out)
    } else {
        None
    }
}

} // verus!
