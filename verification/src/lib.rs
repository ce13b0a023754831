//! A reactive component runtime.
//!
//! Components describe a tree of [`Element`]s; the render loop keeps a
//! persistent mirror of the last description and turns every new description
//! into create / update / remove demands on an object model.  Everything in
//! this crate is sequential and free of I/O: the host performs the demands,
//! renders the components and hands the results back.
//!
//! The modules `quiescence`, `lifecycle`, `reconcile` and `streaming` hold
//! what is proved of whole runs of steps: that a visit of a subtree in which
//! nothing changed asks nothing of the host, what mounting, unmounting and
//! reconciling plain output nodes ask of it, and that the pieces of a stream
//! add up to the string.  The module `grounding` holds the invariant of the
//! work list: every piece of work names a node that is in the tree, and no
//! two pieces reach into each other's subtree.  The module `numbering` holds
//! the invariant of the identifiers: no two instances in the tree share one.
//! The module `renders` holds what a render leaves behind, ready or not.

pub mod assoc;
pub mod channel;
pub mod comment;
pub mod component;
pub mod context;
pub mod convert;
pub mod dom;
pub mod dom_ref;
pub mod effect;
pub mod element;
pub mod grounding;
pub mod hook;
pub mod html_element;
pub mod interned_str;
pub mod lifecycle;
pub mod node;
pub mod numbering;
pub mod object_model;
pub mod object_ref;
pub mod quiescence;
pub mod reconcile;
pub mod render_loop;
pub mod render_queue;
pub mod render_stream;
pub mod renders;
pub mod serializer;
pub mod server_boundary;
pub mod state;
pub mod stream;
pub mod streaming;
pub mod suspense;
pub mod tag;
pub mod tree;

pub use comment::{HtmlComment, HtmlCommentBuilder};
pub use component::{AnyComponent, Component, ComponentDiff};
pub use context::{_get_context, use_context, Provider};
pub use dom_ref::{DomRef, DomRegistry};
pub use effect::{declare_effect, use_effect, Cleanup, Effect};
pub use element::{Element, ElementView};
pub use hook::Hook;
pub use html_element::{HtmlElement, HtmlElementBuilder};
pub use interned_str::Interner;
pub use node::{tag, text, HtmlNode};
pub use object_model::{perform, Node, ObjectModel};
pub use object_ref::{use_ref, use_ref_with_default};
pub use render_loop::{Demand, Outcome, RenderLoop};
pub use render_queue::{ContextMap, RenderContext, RenderQueue, RenderQueueItem};
pub use render_stream::{render_stream, NodeStream, StreamItem};
pub use serializer::{render_to_string, serialize_node_open};
pub use server_boundary::{ServerBoundary, ServerBoundaryBuilder};
pub use state::{use_state, State, StateUpdate};
pub use stream::{render_to_stream, Chunk, StringStream};
pub use suspense::RunOrSuspendResult;
pub use tree::{TreeComponent, TreeNode};
