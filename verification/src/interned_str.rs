//! Interned strings: one copy of every text, for as long as the process
//! lives.

use crate::html_element::str_eq;
use vstd::prelude::*;
use vstd::string::*;

verus! {

/// `Box::leak` of std, on the boxed text of a `String`: the same text, with a
/// lifetime that never ends because its memory is never given back.
#[verifier::external_body]
fn leak(text: String) -> (r: &'static str)
    ensures
        r@ == text@,
{
    Box::leak(text.into_boxed_str())
}

/// The texts that have been interned.
pub struct Interner {
    strings: Vec<&'static str>,
}

impl Interner {
    /// The interned texts, in the order in which they came.
    pub closed spec fn view(&self) -> Seq<Seq<char>> {
        Seq::new(self.strings@.len(), |i: int| self.strings@[i]@)
    }

    /// An interner that holds nothing.
    pub fn new() -> (r: Self)
        ensures
            r@ == Seq::<Seq<char>>::empty(),
    {
        let r = Interner { strings: Vec::new() };
        assert(r@ =~= Seq::empty());
        r
    }

    /// The interned copy of `text`.  A text that was interned before is not
    /// stored again.
    pub fn interned(&mut self, text: String) -> (r: &'static str)
        ensures
            r@ == text@,
            final(self)@ == if old(self)@.contains(text@) {
                old(self)@
            } else {
                old(self)@.push(text@)
            },
    {
        let mut i: usize = 0;
        while i < self.strings.len()
            invariant
                i <= self.strings@.len(),
                *self == *old(self),
                forall|j: int| 0 <= j < i ==> self@[j] != text@,
            decreases self.strings@.len() - i,
        {
            let known: &'static str = self.strings[i];
            if str_eq(known, text.as_str()) {
                assert(self@[i as int] == text@);
                return known;
            }
            i = i + 1;
        }
        let copy = leak(text);
        self.strings.push(copy);
        assert(self@ =~= old(self)@.push(text@));
        copy
    }
}

} // verus!
