//! The stream and the string agree: the pieces that the stream gives for a
//! description without components are, put together, its HTML text.

use crate::element::ElementView;
use crate::node::HtmlNode;
use crate::render_stream::{FrameView, StreamItemView, StreamView};
use crate::serializer::{all_static, is_static, markup, markup_all};
use crate::stream::{chunked, ChunkView, StringView};
use vstd::prelude::*;

verus! {

/// The text that a step gave; empty for a step that gave none.
pub open spec fn piece<C, V, A, F: FnOnce(A) -> K, K: FnOnce()>(chunk: ChunkView<C, V, A, F, K>) -> Seq<
    char,
> {
    match chunk {
        ChunkView::Text(text) => text,
        _ => Seq::empty(),
    }
}

/// The text that the steps `from..to` gave, put together.
pub open spec fn text_between<C, V, A, F: FnOnce(A) -> K, K: FnOnce()>(
    chunks: Seq<ChunkView<C, V, A, F, K>>,
    from: int,
    to: int,
) -> Seq<char>
    decreases to - from,
{
    if from < to {
        text_between(chunks, from, to - 1) + piece(chunks[to - 1])
    } else {
        Seq::empty()
    }
}

/// How many steps the stream takes for a description without components:
/// one to enter a node or a group and, unless it is a text or a comment, the
/// steps for its children and one to leave it.
pub open spec fn sends<C, H, V>(element: ElementView<C, HtmlNode<H>, V>) -> nat
    decreases element, 0int,
{
    match element {
        ElementView::Component(_) => 1,
        ElementView::Node(node, children) => match node {
            HtmlNode::Element(_) => 2 + sends_from(children, 0),
            _ => 1,
        },
        ElementView::Fragment(children) => 2 + sends_from(children, 0),
        ElementView::Provider(_, _, children) => 2 + sends_from(children, 0),
    }
}

/// How many steps the stream takes for the descriptions from position
/// `from` on.
pub open spec fn sends_from<C, H, V>(children: Seq<ElementView<C, HtmlNode<H>, V>>, from: int) -> nat
    decreases children, 1int, children.len() - from,
{
    if 0 <= from < children.len() {
        sends(children[from]) + sends_from(children, from + 1)
    } else {
        0
    }
}

/// The states are the states of a stream before and after a run of steps,
/// and the chunks are what the steps gave.
pub open spec fn streams<C, H, V, A, F: FnOnce(A) -> K, K: FnOnce()>(
    states: Seq<StringView<C, H, V>>,
    chunks: Seq<ChunkView<C, V, A, F, K>>,
) -> bool {
    &&& states.len() == chunks.len() + 1
    &&& forall|i: int|
        0 <= i < chunks.len() ==> (#[trigger] states[i]).polled(states[i + 1], chunks[i])
}

/// The text of steps that follow each other adds up.
pub proof fn lemma_text_adds<C, V, A, F: FnOnce(A) -> K, K: FnOnce()>(
    chunks: Seq<ChunkView<C, V, A, F, K>>,
    from: int,
    middle: int,
    to: int,
)
    requires
        from <= middle <= to,
    ensures
        text_between(chunks, from, to) == text_between(chunks, from, middle) + text_between(
            chunks,
            middle,
            to,
        ),
    decreases to - middle,
{
    if middle < to {
        lemma_text_adds(chunks, from, middle, to - 1);
        assert(text_between(chunks, from, to) =~= text_between(chunks, from, middle)
            + text_between(chunks, middle, to));
    } else {
        assert(text_between(chunks, from, to) =~= text_between(chunks, from, middle)
            + text_between(chunks, middle, to));
    }
}

/// The text of a list is the text of its first description followed by the
/// text of the rest.
pub proof fn lemma_markup_front<C, H, V>(elements: Seq<ElementView<C, HtmlNode<H>, V>>)
    requires
        elements.len() > 0,
    ensures
        markup_all(elements) == markup(elements[0]) + markup_all(elements.skip(1)),
        all_static(elements) == (is_static(elements[0]) && all_static(elements.skip(1))),
    decreases elements.len(),
{
    let rest = elements.skip(1);
    if elements.len() == 1 {
        assert(elements.drop_last() =~= Seq::<ElementView<C, HtmlNode<H>, V>>::empty());
        assert(rest =~= Seq::<ElementView<C, HtmlNode<H>, V>>::empty());
        assert(elements.last() == elements[0]);
        assert(markup_all(elements) =~= markup(elements[0]) + markup_all(rest));
    } else {
        lemma_markup_front(elements.drop_last());
        assert(elements.drop_last().skip(1) =~= rest.drop_last());
        assert(elements.drop_last()[0] == elements[0]);
        assert(rest.last() == elements.last());
        assert(markup_all(elements) =~= markup(elements[0]) + markup_all(rest));
    }
}

/// The stream gives the HTML text of a description without components, and
/// nothing else: when such a description is next on the innermost level, the
/// following `sends` steps give pieces that are, put together, its text;
/// none of them asks for a render; and afterwards the stream stands behind
/// the description, with the same elements open as before.
pub proof fn lemma_stream_gives_markup<C, H, V, A, F: FnOnce(A) -> K, K: FnOnce()>(
    states: Seq<StringView<C, H, V>>,
    chunks: Seq<ChunkView<C, V, A, F, K>>,
    k: int,
    element: ElementView<C, HtmlNode<H>, V>,
)
    requires
        streams(states, chunks),
        0 <= k,
        k + sends(element) <= chunks.len(),
        !states[k].nodes.awaiting,
        states[k].nodes.stack.len() > 0,
        states[k].nodes.stack.last().pending.len() > 0,
        states[k].nodes.stack.last().pending[0] == element,
        is_static(element),
    ensures
        states[k + sends(element)] == (StringView {
            nodes: StreamView {
                stack: states[k].nodes.stack.drop_last().push(
                    FrameView {
                        pending: states[k].nodes.stack.last().pending.skip(1),
                        ..states[k].nodes.stack.last()
                    },
                ),
                awaiting: false,
            },
            tags: states[k].tags,
        }),
        text_between(chunks, k, k + sends(element)) == markup(element),
        forall|i: int|
            k <= i < k + sends(element) ==> (chunks[i] is Text || chunks[i] is Continue),
    decreases element, 0int,
{
    let pre = states[k];
    let post = states[k + 1];
    let top = pre.nodes.stack.last();
    let behind = pre.nodes.stack.drop_last().push(
        FrameView { pending: top.pending.skip(1), ..top },
    );
    assert(pre.polled(post, chunks[k]));
    let (walked, item) = choose|
        walked: StreamView<C, HtmlNode<H>, V>,
        item: StreamItemView<C, HtmlNode<H>, V, A, F, K>,
    | #[trigger]
        pre.nodes.polled(walked, item) && chunked(
            walked,
            item,
            pre.tags,
            post.nodes,
            post.tags,
            chunks[k],
        );
    assert(text_between(chunks, k, k + 1) =~= piece(chunks[k])) by {
        assert(text_between(chunks, k, k) =~= Seq::<char>::empty());
    }
    match element {
        ElementView::Component(_) => {},
        ElementView::Node(node, children) => match node {
            HtmlNode::Element(tag) => {
                let inside = FrameView { pending: children, context: top.context, node: true };
                assert(walked.stack == behind.push(inside));
                assert(children.skip(0) =~= children);
                let n = sends_from(children, 0);
                lemma_stream_level(states, chunks, k + 1, children, 0);
                let last = k + 1 + n;
                let closing = states[last];
                let after = states[last + 1];
                assert(closing.nodes.stack.last().pending.len() == 0);
                assert(closing.polled(after, chunks[last]));
                let (left, close) = choose|
                    left: StreamView<C, HtmlNode<H>, V>,
                    close: StreamItemView<C, HtmlNode<H>, V, A, F, K>,
                | #[trigger]
                    closing.nodes.polled(left, close) && chunked(
                        left,
                        close,
                        closing.tags,
                        after.nodes,
                        after.tags,
                        chunks[last],
                    );
                assert(closing.nodes.stack.drop_last() =~= behind);
                assert(closing.tags.drop_last() =~= pre.tags);
                assert(text_between(chunks, last, last + 1) =~= piece(chunks[last])) by {
                    assert(text_between(chunks, last, last) =~= Seq::<char>::empty());
                }
                lemma_text_adds(chunks, k, k + 1, last);
                lemma_text_adds(chunks, k, last, last + 1);
                assert(text_between(chunks, k, last + 1) =~= markup(element));
            },
            HtmlNode::Text(_) => {
                assert(walked.stack.drop_last() =~= behind);
            },
            HtmlNode::Comment(_) => {
                assert(walked.stack.drop_last() =~= behind);
            },
        },
        ElementView::Fragment(children) => {
            let inside = FrameView { pending: children, context: top.context, node: false };
            assert(walked.stack == behind.push(inside));
            lemma_stream_group(states, chunks, k, children, behind, inside);
        },
        ElementView::Provider(key, value, children) => {
            let inside = FrameView {
                pending: children,
                context: top.context.insert(key, value),
                node: false,
            };
            assert(walked.stack == behind.push(inside));
            lemma_stream_group(states, chunks, k, children, behind, inside);
        },
    }
}

/// The steps for a fragment or a provider whose first step has opened the
/// level of its children.
proof fn lemma_stream_group<C, H, V, A, F: FnOnce(A) -> K, K: FnOnce()>(
    states: Seq<StringView<C, H, V>>,
    chunks: Seq<ChunkView<C, V, A, F, K>>,
    k: int,
    children: Seq<ElementView<C, HtmlNode<H>, V>>,
    behind: Seq<FrameView<C, HtmlNode<H>, V>>,
    inside: FrameView<C, HtmlNode<H>, V>,
)
    requires
        streams(states, chunks),
        0 <= k,
        k + 2 + sends_from(children, 0) <= chunks.len(),
        states[k + 1] == (StringView {
            nodes: StreamView { stack: behind.push(inside), awaiting: false },
            tags: states[k].tags,
        }),
        chunks[k] is Continue,
        inside.pending == children,
        !inside.node,
        all_static(children),
    ensures
        states[k + 2 + sends_from(children, 0)] == (StringView {
            nodes: StreamView { stack: behind, awaiting: false },
            tags: states[k].tags,
        }),
        text_between(chunks, k, k + 2 + sends_from(children, 0)) == markup_all(children),
        forall|i: int|
            k <= i < k + 2 + sends_from(children, 0) ==> (chunks[i] is Text
                || chunks[i] is Continue),
    decreases children, 2int,
{
    assert(children.skip(0) =~= children);
    let n = sends_from(children, 0);
    assert(behind.push(inside).last() == inside);
    assert(behind.push(inside).drop_last() =~= behind);
    lemma_stream_level(states, chunks, k + 1, children, 0);
    let last = k + 1 + n;
    let closing = states[last];
    let after = states[last + 1];
    assert(closing.polled(after, chunks[last]));
    let (left, close) = choose|
        left: StreamView<C, HtmlNode<H>, V>,
        close: StreamItemView<C, HtmlNode<H>, V, A, F, K>,
    | #[trigger]
        closing.nodes.polled(left, close) && chunked(
            left,
            close,
            closing.tags,
            after.nodes,
            after.tags,
            chunks[last],
        );
    assert(closing.nodes.stack.drop_last() =~= behind);
    assert(text_between(chunks, k, k + 1) =~= piece(chunks[k])) by {
        assert(text_between(chunks, k, k) =~= Seq::<char>::empty());
    }
    assert(text_between(chunks, last, last + 1) =~= piece(chunks[last])) by {
        assert(text_between(chunks, last, last) =~= Seq::<char>::empty());
    }
    lemma_text_adds(chunks, k, k + 1, last);
    lemma_text_adds(chunks, k, last, last + 1);
    assert(text_between(chunks, k, last + 1) =~= markup_all(children));
}

/// The steps for what is left of a level: the descriptions from position
/// `from` on, all without components.
proof fn lemma_stream_level<C, H, V, A, F: FnOnce(A) -> K, K: FnOnce()>(
    states: Seq<StringView<C, H, V>>,
    chunks: Seq<ChunkView<C, V, A, F, K>>,
    k: int,
    children: Seq<ElementView<C, HtmlNode<H>, V>>,
    from: int,
)
    requires
        streams(states, chunks),
        0 <= k,
        0 <= from <= children.len(),
        k + sends_from(children, from) <= chunks.len(),
        !states[k].nodes.awaiting,
        states[k].nodes.stack.len() > 0,
        states[k].nodes.stack.last().pending == children.skip(from),
        all_static(children.skip(from)),
    ensures
        states[k + sends_from(children, from)] == (StringView {
            nodes: StreamView {
                stack: states[k].nodes.stack.drop_last().push(
                    FrameView { pending: Seq::empty(), ..states[k].nodes.stack.last() },
                ),
                awaiting: false,
            },
            tags: states[k].tags,
        }),
        text_between(chunks, k, k + sends_from(children, from)) == markup_all(
            children.skip(from),
        ),
        forall|i: int|
            k <= i < k + sends_from(children, from) ==> (chunks[i] is Text
                || chunks[i] is Continue),
    decreases children, 1int, children.len() - from,
{
    let left = children.skip(from);
    let top = states[k].nodes.stack.last();
    if from == children.len() {
        assert(left =~= Seq::<ElementView<C, HtmlNode<H>, V>>::empty());
        assert(states[k].nodes.stack.drop_last().push(FrameView { pending: Seq::empty(), ..top })
            =~= states[k].nodes.stack);
        assert(text_between(chunks, k, k) =~= markup_all(left));
    } else {
        lemma_markup_front(left);
        assert(left[0] == children[from]);
        assert(left.skip(1) =~= children.skip(from + 1));
        lemma_stream_gives_markup(states, chunks, k, children[from]);
        let next = k + sends(children[from]);
        let behind = states[k].nodes.stack.drop_last().push(
            FrameView { pending: top.pending.skip(1), ..top },
        );
        assert(behind.last().pending == children.skip(from + 1));
        assert(behind.drop_last() =~= states[k].nodes.stack.drop_last());
        lemma_stream_level(states, chunks, next, children, from + 1);
        lemma_text_adds(chunks, k, next, next + sends_from(children, from + 1));
    }
}

} // verus!
