//! Comment nodes.

use crate::dom_ref::{same_ref, DomRef};
use std::sync::Arc;
use vstd::prelude::*;
use vstd::std_specs::cmp::PartialEqSpecImpl;
use vstd::string::*;

verus! {

/// An HTML comment (`<!-- text -->`).
pub struct HtmlComment {
    pub text: String,
    pub dom_ref: Option<Arc<DomRef>>,
}

impl HtmlComment {
    /// Starts a comment; `text` has to follow before it can be built.
    pub fn new() -> (r: HtmlCommentBuilder<()>)
        ensures
            r.dom_ref is None,
    {
        HtmlCommentBuilder { text: (), dom_ref: None }
    }

    /// The text of the comment.
    pub fn text(&self) -> (r: &String)
        ensures
            *r == self.text,
    {
        &self.text
    }

    /// The reference that the comment carries.
    pub fn dom_ref(&self) -> (r: &Option<Arc<DomRef>>)
        ensures
            *r == self.dom_ref,
    {
        &self.dom_ref
    }
}

impl Clone for HtmlComment {
    fn clone(&self) -> (r: Self)
        ensures
            r == *self,
    {
        HtmlComment {
            text: self.text.clone(),
            dom_ref: match &self.dom_ref {
                Some(dom_ref) => Some(dom_ref.clone()),
                None => None,
            },
        }
    }
}

impl PartialEq for HtmlComment {
    /// Comments are equal when they have the same text and carry the same
    /// reference or none.
    fn eq(&self, other: &Self) -> (r: bool)
        ensures
            r ==> self.text@ == other.text@ && self.dom_ref == other.dom_ref,
            self.text@ != other.text@ ==> !r,
            (self.dom_ref is None) != (other.dom_ref is None) ==> !r,
            self.dom_ref is None && other.dom_ref is None ==> r == (self.text@ == other.text@),
    {
        self.text == other.text && same_ref(&self.dom_ref, &other.dom_ref)
    }
}

impl PartialEqSpecImpl for HtmlComment {
    open spec fn obeys_eq_spec() -> bool {
        false
    }

    open spec fn eq_spec(&self, other: &Self) -> bool {
        arbitrary()
    }
}

/// A comment in the making.  `T` is `()` until the text is set.
pub struct HtmlCommentBuilder<T> {
    pub text: T,
    pub dom_ref: Option<Arc<DomRef>>,
}

impl<T> HtmlCommentBuilder<T> {
    /// Lets the comment carry a reference.
    pub fn dom_ref(self, dom_ref: Arc<DomRef>) -> (r: Self)
        ensures
            r.text == self.text,
            r.dom_ref == Some(dom_ref),
    {
        let mut r = self;
        r.dom_ref = Some(dom_ref);
        r
    }
}

impl HtmlCommentBuilder<()> {
    /// Sets the text of the comment.
    pub fn text(self, text: &str) -> (r: HtmlCommentBuilder<String>)
        ensures
            r.text@ == text@,
            r.dom_ref == self.dom_ref,
    {
        HtmlCommentBuilder { text: String::from_str(text), dom_ref: self.dom_ref }
    }
}

impl HtmlCommentBuilder<String> {
    /// The comment.
    pub fn build(self) -> (r: HtmlComment)
        ensures
            r.text == self.text,
            r.dom_ref == self.dom_ref,
    {
        HtmlComment { text: self.text, dom_ref: self.dom_ref }
    }
}

} // verus!
