//! Rendering a description once, as a stream of pieces of HTML text.

use crate::element::Element;
use crate::hook::{Hook, HookView};
use crate::node::HtmlNode;
use crate::render_stream::{
    render_stream, NodeStream, StreamItem, StreamItemView, StreamView,
};
use crate::serializer::{
    close_tag, comment_text, open_tag, serialize_comment, serialize_node_close,
    serialize_node_open,
};
use std::sync::Arc;
use vstd::prelude::*;
use vstd::string::*;

verus! {

/// A description on its way to HTML text.
pub struct StringStream<C, H, V> {
    /// The walk over the description.
    pub nodes: NodeStream<C, HtmlNode<H>, V>,
    /// The names of the elements that are open, the innermost last.
    pub tags: Vec<String>,
}

/// What a step of the stream gave.
#[verifier::reject_recursive_types(V)]
#[verifier::reject_recursive_types(U)]
#[verifier::reject_recursive_types(A)]
#[verifier::reject_recursive_types(F)]
#[verifier::reject_recursive_types(K)]
pub enum Chunk<C, V, U: FnOnce(Arc<V>) -> Arc<V>, A, F: FnOnce(A) -> K, K: FnOnce()> {
    /// The next piece of the text.
    Text(String),
    /// A component: render it once with `hook` at hand and report with
    /// `rendered`.
    Render { component: Arc<C>, hook: Hook<V, U, A, F, K> },
    /// No text this time; step again.
    Continue,
    /// A render is outstanding: `rendered` has to be called first.
    Awaiting,
    /// The text is complete.
    End,
}

/// The mathematical value of a [`Chunk`].
#[verifier::reject_recursive_types(V)]
#[verifier::reject_recursive_types(A)]
#[verifier::reject_recursive_types(F)]
#[verifier::reject_recursive_types(K)]
pub enum ChunkView<C, V, A, F: FnOnce(A) -> K, K: FnOnce()> {
    Text(Seq<char>),
    Render { component: Arc<C>, hook: HookView<V, A, F, K> },
    Continue,
    Awaiting,
    End,
}

impl<C, V, U: FnOnce(Arc<V>) -> Arc<V>, A, F: FnOnce(A) -> K, K: FnOnce()> Chunk<C, V, U, A, F, K> {
    pub open spec fn view(&self) -> ChunkView<C, V, A, F, K> {
        match self {
            Chunk::Text(text) => ChunkView::Text(text@),
            Chunk::Render { component, hook } => ChunkView::Render {
                component: *component,
                hook: hook@,
            },
            Chunk::Continue => ChunkView::Continue,
            Chunk::Awaiting => ChunkView::Awaiting,
            Chunk::End => ChunkView::End,
        }
    }
}

/// The names as text.
pub open spec fn names(tags: Seq<String>) -> Seq<Seq<char>> {
    Seq::new(tags.len(), |i: int| tags[i]@)
}

/// The step that gave `chunk` went on from a step of the walk that led from
/// `nodes` to `walked` and came to `item`, with the elements `tags` open.
/// An element gives its opening tag and is open from then on; a text gives
/// itself and a comment its text between `<!--` and `-->`, and the children
/// of either are passed over; the end of an element's children gives its
/// closing tag.  Everything else is handed on as it is.  `after` and `open`
/// are the walk and the open elements after the step.
pub open spec fn chunked<C, H, V, A, F: FnOnce(A) -> K, K: FnOnce()>(
    walked: StreamView<C, HtmlNode<H>, V>,
    item: StreamItemView<C, HtmlNode<H>, V, A, F, K>,
    tags: Seq<Seq<char>>,
    after: StreamView<C, HtmlNode<H>, V>,
    open: Seq<Seq<char>>,
    chunk: ChunkView<C, V, A, F, K>,
) -> bool {
    let passed = StreamView {
        stack: if walked.stack.len() == 0 {
            walked.stack
        } else {
            walked.stack.drop_last()
        },
        ..walked
    };
    match item {
        StreamItemView::Enter(HtmlNode::Element(element)) => {
            &&& after == walked
            &&& open == tags.push(element.tag_name@)
            &&& chunk == ChunkView::<C, V, A, F, K>::Text(
                open_tag(element.tag_name@, element.attrs()),
            )
        },
        StreamItemView::Enter(HtmlNode::Text(text)) => {
            &&& after == passed
            &&& open == tags
            &&& chunk == ChunkView::<C, V, A, F, K>::Text(text@)
        },
        StreamItemView::Enter(HtmlNode::Comment(comment)) => {
            &&& after == passed
            &&& open == tags
            &&& chunk == ChunkView::<C, V, A, F, K>::Text(comment_text(comment.text@))
        },
        StreamItemView::Leave => {
            &&& after == walked
            &&& if tags.len() == 0 {
                open == tags && chunk == ChunkView::<C, V, A, F, K>::Continue
            } else {
                open == tags.drop_last() && chunk == ChunkView::<C, V, A, F, K>::Text(
                    close_tag(tags.last()),
                )
            }
        },
        StreamItemView::Render { component, hook } => {
            &&& after == walked
            &&& open == tags
            &&& chunk == ChunkView::<C, V, A, F, K>::Render { component, hook }
        },
        StreamItemView::Continue => {
            &&& after == walked
            &&& open == tags
            &&& chunk == ChunkView::<C, V, A, F, K>::Continue
        },
        StreamItemView::Awaiting => {
            &&& after == walked
            &&& open == tags
            &&& chunk == ChunkView::<C, V, A, F, K>::Awaiting
        },
        StreamItemView::End => {
            &&& after == walked
            &&& open == tags
            &&& chunk == ChunkView::<C, V, A, F, K>::End
        },
    }
}

/// The mathematical value of a [`StringStream`].
pub struct StringView<C, H, V> {
    pub nodes: StreamView<C, HtmlNode<H>, V>,
    pub tags: Seq<Seq<char>>,
}

impl<C, H, V> StringView<C, H, V> {
    /// One step led from this state to `post` and gave `chunk`: a step of
    /// the walk, and the text for what it came to.
    pub open spec fn polled<A, F: FnOnce(A) -> K, K: FnOnce()>(
        self,
        post: Self,
        chunk: ChunkView<C, V, A, F, K>,
    ) -> bool {
        exists|
            walked: StreamView<C, HtmlNode<H>, V>,
            item: StreamItemView<C, HtmlNode<H>, V, A, F, K>,
        |
            #![trigger self.nodes.polled(walked, item)]
            self.nodes.polled(walked, item) && chunked(
                walked,
                item,
                self.tags,
                post.nodes,
                post.tags,
                chunk,
            )
    }
}

impl<C, H, V> StringStream<C, H, V> {
    pub open spec fn view(&self) -> StringView<C, H, V> {
        StringView { nodes: self.nodes@, tags: names(self.tags@) }
    }

    /// The stream over a walk that has not begun.
    pub fn new(root: NodeStream<C, HtmlNode<H>, V>) -> (r: Self)
        ensures
            r.nodes == root,
            r.tags@ == Seq::<String>::empty(),
    {
        StringStream { nodes: root, tags: Vec::new() }
    }

    /// Takes one step: a step of the walk, and the text for what it came to.
    pub fn poll_next<U: FnOnce(Arc<V>) -> Arc<V>, A, F: FnOnce(A) -> K, K: FnOnce()>(
        &mut self,
    ) -> (chunk: Chunk<C, V, U, A, F, K>)
        ensures
            old(self)@.polled(final(self)@, chunk@),
    {
        let item = self.nodes.poll_next::<U, A, F, K>();
        let ghost walked = self.nodes@;
        let ghost seen = item@;
        let ghost tags = names(self.tags@);
        let chunk = match item {
            StreamItem::Enter(HtmlNode::Element(element)) => {
                let text = serialize_node_open(&*element);
                self.tags.push(String::from_str(element.tag_name));
                assert(names(self.tags@) =~= tags.push(element.tag_name@));
                Chunk::Text(text)
            },
            StreamItem::Enter(HtmlNode::Text(text)) => {
                self.nodes.skip();
                Chunk::Text(text)
            },
            StreamItem::Enter(HtmlNode::Comment(comment)) => {
                self.nodes.skip();
                Chunk::Text(serialize_comment(comment.text.as_str()))
            },
            StreamItem::Leave => match self.tags.pop() {
                Some(tag) => {
                    assert(names(self.tags@) =~= tags.drop_last());
                    Chunk::Text(serialize_node_close(tag.as_str()))
                },
                None => Chunk::Continue,
            },
            StreamItem::Render { component, hook } => Chunk::Render { component, hook },
            StreamItem::Continue => Chunk::Continue,
            StreamItem::Awaiting => Chunk::Awaiting,
            StreamItem::End => Chunk::End,
        };
        assert(old(self)@.nodes.polled(walked, seen) && chunked(
            walked,
            seen,
            old(self)@.tags,
            self@.nodes,
            self@.tags,
            chunk@,
        ));
        chunk
    }

    /// Takes the host's report of the render that the stream waits for.  An
    /// error of the render is handed on.
    pub fn rendered<E>(&mut self, result: Result<Element<C, HtmlNode<H>, V>, E>) -> (r: Result<
        (),
        E,
    >)
        ensures
            final(self).tags == old(self).tags,
            old(self).nodes@.supplied(
                match result {
                    Ok(element) => Ok(element@),
                    Err(error) => Err(error),
                },
                final(self).nodes@,
                match r {
                    Ok(_) => None,
                    Err(error) => Some(error),
                },
            ),
    {
        self.nodes.rendered(result)
    }
}

/// The stream of the HTML text of `element`.
pub fn render_to_stream<C, H, V>(element: Element<C, HtmlNode<H>, V>) -> (r: StringStream<C, H, V>)
    ensures
        r.nodes@ == StreamView::start(element@),
        r.tags@ == Seq::<String>::empty(),
{
    StringStream::new(render_stream(element))
}

} // verus!
