//! Some common tags.

use crate::html_element::HtmlElementBuilder;
use crate::node::HtmlNode;
use vstd::prelude::*;

verus! {

/// Starts a `<div>`.
pub fn div<H>() -> (r: HtmlElementBuilder<&'static str, H>)
    ensures
        r.tag_name == "div",
        r.attrs() == Seq::<(Seq<char>, Seq<char>)>::empty(),
        r.handlers() == Seq::<(Seq<char>, H)>::empty(),
        r.dom_ref is None,
{
    HtmlNode::element("div")
}

/// Starts a `<span>`.
pub fn span<H>() -> (r: HtmlElementBuilder<&'static str, H>)
    ensures
        r.tag_name == "span",
        r.attrs() == Seq::<(Seq<char>, Seq<char>)>::empty(),
        r.handlers() == Seq::<(Seq<char>, H)>::empty(),
        r.dom_ref is None,
{
    HtmlNode::element("span")
}

/// Starts a `<button>`.
pub fn button<H>() -> (r: HtmlElementBuilder<&'static str, H>)
    ensures
        r.tag_name == "button",
        r.attrs() == Seq::<(Seq<char>, Seq<char>)>::empty(),
        r.handlers() == Seq::<(Seq<char>, H)>::empty(),
        r.dom_ref is None,
{
    HtmlNode::element("button")
}

/// Starts a `<script>`.
pub fn script<H>() -> (r: HtmlElementBuilder<&'static str, H>)
    ensures
        r.tag_name == "script",
        r.attrs() == Seq::<(Seq<char>, Seq<char>)>::empty(),
        r.handlers() == Seq::<(Seq<char>, H)>::empty(),
        r.dom_ref is None,
{
    HtmlNode::element("script")
}

} // verus!
