//! What a document object model has to do to follow the render loop: how a
//! realized node is brought up to date, and which existing node a new one
//! adopts while a pre-rendered page is taken over.

use crate::assoc::position;
use crate::html_element::texts;
use crate::node::HtmlNode;
use std::collections::HashMap;
use vstd::prelude::*;
use vstd::string::*;

verus! {

/// What the document holds for a node: what the planning has to know of it.
pub enum Realized {
    /// An element, with its tag name as the document reports it and the
    /// names of the attributes it has.
    Element { tag: String, attributes: Vec<String> },
    /// A text, with its content if the document reports one.
    Text { content: Option<String> },
    /// Anything else.
    Other,
}

/// How a realized node is made to realize another description.
pub enum Patch {
    /// A new node takes its place.
    Replace,
    /// It stays: the attributes in `set` are set, in this order, and then
    /// the attributes in `remove` are removed.
    Attributes { set: Vec<(String, String)>, remove: Vec<String> },
    /// It stays: its content is set to the text, if there is one to set.
    Text(Option<String>),
}

/// The mathematical value of a [`Patch`].
pub enum PatchView {
    Replace,
    Attributes { set: Seq<(Seq<char>, Seq<char>)>, remove: Seq<Seq<char>> },
    Text(Option<Seq<char>>),
}

impl Patch {
    pub open spec fn view(&self) -> PatchView {
        match self {
            Patch::Replace => PatchView::Replace,
            Patch::Attributes { set, remove } => PatchView::Attributes {
                set: texts(set@),
                remove: Seq::new(remove@.len(), |i: int| remove@[i]@),
            },
            Patch::Text(text) => PatchView::Text(
                match text {
                    Some(text) => Some(text@),
                    None => None,
                },
            ),
        }
    }
}

/// What `str::to_lowercase` makes of a text.
pub uninterp spec fn lowercase(text: Seq<char>) -> Seq<char>;

/// `str::to_lowercase` of std: the text in lower case.
#[verifier::external_body]
fn to_lowercase(text: &str) -> (r: String)
    ensures
        r@ == lowercase(text@),
{
    text.to_lowercase()
}

/// The names among `present` under which `wanted` holds no attribute, in
/// their order.
pub open spec fn stale(present: Seq<Seq<char>>, wanted: Seq<(Seq<char>, Seq<char>)>) -> Seq<
    Seq<char>,
>
    decreases present.len(),
{
    if present.len() == 0 {
        Seq::empty()
    } else {
        let rest = stale(present.drop_last(), wanted);
        if position(wanted, present.last()) is None {
            rest.push(present.last())
        } else {
            rest
        }
    }
}

/// The patch that makes a realized node realize `next`, given the tag name of
/// the realized node in lower case.
///
/// An element stays when the realized node is an element with the same tag:
/// every attribute of `next` is set and every attribute that the realized
/// node has beyond them is removed.  A text stays when the realized node is a
/// text: its content is set if it differs.  In every other case the node is
/// replaced.
pub open spec fn planned<H>(current: Realized, tag: Seq<char>, next: HtmlNode<H>) -> PatchView {
    match (current, next) {
        (Realized::Element { attributes, .. }, HtmlNode::Element(element)) => {
            if tag == element.tag_name@ {
                PatchView::Attributes {
                    set: element.attrs(),
                    remove: stale(
                        Seq::new(attributes@.len(), |i: int| attributes@[i]@),
                        element.attrs(),
                    ),
                }
            } else {
                PatchView::Replace
            }
        },
        (Realized::Text { content }, HtmlNode::Text(text)) => PatchView::Text(
            if content matches Some(present) && present@ == text@ {
                None
            } else {
                Some(text@)
            },
        ),
        _ => PatchView::Replace,
    }
}

/// Whether two texts are the same.
fn same_text(a: &String, b: &String) -> (r: bool)
    ensures
        r == (a@ == b@),
{
    *a == *b
}

/// Whether `wanted` holds an attribute under `name`.
fn wants(wanted: &Vec<(String, String)>, name: &String) -> (r: bool)
    ensures
        r == (position(texts(wanted@), name@) is Some),
{
    let mut i: usize = 0;
    while i < wanted.len()
        invariant
            i <= wanted@.len(),
            forall|j: int| 0 <= j < i ==> texts(wanted@)[j].0 != name@,
        decreases wanted@.len() - i,
    {
        if same_text(&wanted[i].0, name) {
            assert(texts(wanted@)[i as int].0 == name@);
            return true;
        }
        i = i + 1;
    }
    false
}

/// A copy of the attributes.
fn copy_attributes(list: &Vec<(String, String)>) -> (r: Vec<(String, String)>)
    ensures
        texts(r@) == texts(list@),
{
    let mut copy: Vec<(String, String)> = Vec::new();
    let mut i: usize = 0;
    while i < list.len()
        invariant
            i <= list@.len(),
            copy@.len() == i,
            forall|j: int| 0 <= j < i ==> texts(copy@)[j] == texts(list@)[j],
        decreases list@.len() - i,
    {
        copy.push((list[i].0.clone(), list[i].1.clone()));
        i = i + 1;
    }
    assert(texts(copy@) =~= texts(list@));
    copy
}

/// The patch that makes a realized node realize `next`, given the tag name of
/// the realized node in lower case.
pub fn plan_update_lowered<H>(current: &Realized, tag: &str, next: &HtmlNode<H>) -> (r: Patch)
    ensures
        r@ == planned(*current, tag@, *next),
{
    match (current, next) {
        (Realized::Element { attributes, .. }, HtmlNode::Element(element)) => {
            if crate::html_element::str_eq(tag, element.tag_name) {
                let ghost present = Seq::new(attributes@.len(), |i: int| attributes@[i]@);
                let ghost wanted = element.attrs();
                let mut remove: Vec<String> = Vec::new();
                let mut i: usize = 0;
                assert(present.take(0) =~= Seq::empty());
                assert(Seq::new(remove@.len(), |k: int| remove@[k]@) =~= stale(
                    present.take(0),
                    wanted,
                ));
                while i < attributes.len()
                    invariant
                        i <= attributes@.len(),
                        present == Seq::new(attributes@.len(), |k: int| attributes@[k]@),
                        wanted == texts(element.attributes@),
                        Seq::new(remove@.len(), |k: int| remove@[k]@) == stale(
                            present.take(i as int),
                            wanted,
                        ),
                    decreases attributes@.len() - i,
                {
                    let ghost before = Seq::new(remove@.len(), |k: int| remove@[k]@);
                    let keep = wants(&element.attributes, &attributes[i]);
                    if !keep {
                        remove.push(attributes[i].clone());
                    }
                    proof {
                        let prefix = present.take(i + 1);
                        assert(prefix.drop_last() =~= present.take(i as int));
                        assert(prefix.last() == attributes@[i as int]@);
                        let after = Seq::new(remove@.len(), |k: int| remove@[k]@);
                        if keep {
                            assert(after =~= before);
                        } else {
                            assert(after =~= before.push(attributes@[i as int]@));
                        }
                    }
                    i = i + 1;
                }
                assert(present.take(present.len() as int) =~= present);
                Patch::Attributes { set: copy_attributes(&element.attributes), remove }
            } else {
                Patch::Replace
            }
        },
        (Realized::Text { content }, HtmlNode::Text(text)) => {
            let same = match content {
                Some(present) => same_text(present, text),
                None => false,
            };
            if same {
                Patch::Text(None)
            } else {
                Patch::Text(Some(text.clone()))
            }
        },
        _ => Patch::Replace,
    }
}

/// The patch that makes a realized node realize `next`.  The tag name that
/// the document reports is held against the tag of `next` in lower case.
pub fn plan_update<H>(current: &Realized, next: &HtmlNode<H>) -> (r: Patch)
    ensures
        r@ == planned(
            *current,
            match current {
                Realized::Element { tag, .. } => lowercase(tag@),
                _ => Seq::empty(),
            },
            *next,
        ),
{
    match current {
        Realized::Element { tag, .. } => {
            let lowered = to_lowercase(tag.as_str());
            plan_update_lowered(current, lowered.as_str(), next)
        },
        _ => {
            let r = plan_update_lowered(current, "", next);
            proof {
                // the tag only matters for an element
                assert(planned(*current, ""@, *next) == planned(*current, Seq::empty(), *next));
            }
            r
        },
    }
}

/// Where the take-over of a pre-rendered page stands: for every parent, by
/// key, how many of its existing children have been adopted.
pub struct Hydration {
    cursors: Option<HashMap<u64, u32>>,
}

impl Hydration {
    /// The cursors by parent while a page is taken over; `None` otherwise.
    pub closed spec fn view(&self) -> Option<Map<u64, u32>> {
        match self.cursors {
            Some(cursors) => Some(cursors@),
            None => None,
        }
    }

    /// No page is taken over: every node is created anew.
    pub fn new() -> (r: Self)
        ensures
            r@ is None,
    {
        Hydration { cursors: None }
    }

    /// A page is taken over from its first nodes on.
    pub fn hydrate() -> (r: Self)
        ensures
            r@ == Some(Map::<u64, u32>::empty()),
    {
        Hydration { cursors: Some(HashMap::new()) }
    }

    /// The position among the existing children of `parent` of the node that
    /// a new child adopts, while a page is taken over; the next child of the
    /// parent then adopts the node after it.  `None` when no page is taken
    /// over, or when the parent has no further position.
    pub fn next_index(&mut self, parent: u64) -> (r: Option<u32>)
        ensures
            match old(self)@ {
                Some(cursors) => {
                    let index = if cursors.contains_key(parent) {
                        cursors[parent]
                    } else {
                        0
                    };
                    if index < u32::MAX {
                        r == Some(index) && final(self)@ == Some(
                            cursors.insert(parent, (index + 1) as u32),
                        )
                    } else {
                        r is None && final(self)@ == old(self)@
                    }
                },
                None => r is None && final(self)@ is None,
            },
    {
        match &mut self.cursors {
            Some(cursors) => {
                let index = match cursors.get(&parent) {
                    Some(index) => *index,
                    None => 0,
                };
                if index < u32::MAX {
                    cursors.insert(parent, index + 1);
                    Some(index)
                } else {
                    None
                }
            },
            None => None,
        }
    }

    /// Lets the children of `parent` adopt the existing nodes from position
    /// `index` on.  Nothing happens when no page is taken over.
    pub fn set_index(&mut self, parent: u64, index: u32)
        ensures
            final(self)@ == match old(self)@ {
                Some(cursors) => Some(cursors.insert(parent, index)),
                None => None,
            },
    {
        match &mut self.cursors {
            Some(cursors) => {
                cursors.insert(parent, index);
            },
            None => {},
        }
    }

    /// Ends the take-over: from now on every node is created anew.
    pub fn finalize(&mut self)
        ensures
            final(self)@ is None,
    {
        self.cursors = None;
    }
}

} // verus!
