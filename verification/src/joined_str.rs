//! A string made of a fixed head and tail around a borrowed middle part.

use vstd::prelude::*;

verus! {

/// Three pieces that render as `prefix`, then `infix`, then `suffix`.
pub struct JoinedStr<'a> {
    prefix: &'static str,
    infix: &'a str,
    suffix: &'static str,
}

impl<'a> JoinedStr<'a> {
    /// The three pieces, in rendering order.
    pub closed spec fn parts(self) -> (Seq<char>, Seq<char>, Seq<char>) {
        (self.prefix@, self.infix@, self.suffix@)
    }

    pub fn new(prefix: &'static str, infix: &'a str, suffix: &'static str) -> (r: JoinedStr<'a>)
        ensures
            r.parts() == (prefix@, infix@, suffix@),
    {
        JoinedStr { prefix, infix, suffix }
    }
}

} // verus!
