//! The compiled placeholder set.

use vstd::prelude::*;
use vstd::string::StringSliceAdditionalSpecFns;
use crate::matcher;
use crate::matcher::{Matcher, sparse_builds};

verus! {

/// Bytes of a pattern wrapped in the given brackets.
pub open spec fn spec_bracketed(pattern: Seq<u8>, open_b: Seq<u8>, close_b: Seq<u8>) -> Seq<u8> {
    open_b + pattern + close_b
}

/// Every pattern of `patterns` wrapped in the given brackets, in order.
pub open spec fn spec_all_bracketed(
    patterns: Seq<Seq<u8>>,
    open_b: Seq<u8>,
    close_b: Seq<u8>,
) -> Seq<Seq<u8>> {
    patterns.map_values(|p: Seq<u8>| spec_bracketed(p, open_b, close_b))
}

/// All patterns in the list are non-empty.
pub open spec fn spec_all_nonempty(patterns: Seq<Seq<u8>>) -> bool {
    forall|i: int| 0 <= i < patterns.len() ==> (#[trigger] patterns[i]).len() > 0
}

/// Matches `{placeholders}` against an incoming stream of bytes.
///
/// Construction is resource intensive and the result is meant to be cached;
/// it is immutable afterwards, so one value can serve many render passes.
pub struct Placeholders {
    m: Matcher,
}

impl View for Placeholders {
    type V = Seq<Seq<u8>>;

    /// A placeholder set is, abstractly, its ordered list of byte patterns;
    /// pattern ids are positions in this list.
    closed spec fn view(&self) -> Seq<Seq<u8>> {
        matcher_patterns_of(*self)
    }
}

/// The pattern list behind a placeholder set.
pub closed spec fn matcher_patterns_of(p: Placeholders) -> Seq<Seq<u8>> {
    matcher::matcher_patterns(p.m)
}

impl Placeholders {
    /// Picks the automaton backend: a dense table for small pattern counts,
    /// then the contiguous representation, then the always-available compact
    /// one.
    fn build(patterns: &Vec<Vec<u8>>) -> (r: Option<Matcher>)
        ensures
            r is Some <==> sparse_builds(patterns.deep_view()),
            r matches Some(m) ==> matcher::matcher_patterns(m) == patterns.deep_view()
                && matcher::matcher_fed(m) == Seq::<u8>::empty(),
    {
        if patterns.len() <= 100 {
            if let Some(m) = matcher::build_dense(patterns) {
                return Some(m);
            }
        }
        if let Some(m) = matcher::build_contiguous(patterns) {
            return Some(m);
        }
        matcher::build_sparse(patterns)
    }

    /// Compile a placeholder set from an ordered list of byte patterns.
    ///
    /// Empty patterns are rejected by contract: a zero-width match would
    /// break the streaming replacement. Construction is owed whenever the
    /// baseline automaton builds, which fails only on pathologically large
    /// pattern sets; `try_from_iter` decides that at run time.
    pub fn from_iter(placeholders: Vec<Vec<u8>>) -> (r: Self)
        requires
            spec_all_nonempty(placeholders.deep_view()),
            sparse_builds(placeholders.deep_view()),
        ensures
            r@ == placeholders.deep_view(),
    {
        match Self::build(&placeholders) {
            Some(m) => Placeholders { m },
            None => vstd::pervasive::unreached(),
        }
    }

    /// Compile a placeholder set, deciding at run time whether the pattern
    /// list is acceptable: `None` exactly when some pattern is empty or the
    /// baseline automaton cannot be built.
    pub fn try_from_iter(placeholders: Vec<Vec<u8>>) -> (r: Option<Self>)
        ensures
            r is Some <==> spec_all_nonempty(placeholders.deep_view()) && sparse_builds(
                placeholders.deep_view(),
            ),
            r matches Some(p) ==> p@ == placeholders.deep_view(),
    {
        let ghost views = placeholders.deep_view();
        let mut i: usize = 0;
        while i < placeholders.len()
            invariant
                0 <= i <= placeholders.len(),
                views == placeholders.deep_view(),
                views.len() == placeholders.len(),
                forall|k: int| 0 <= k < i ==> (#[trigger] views[k]).len() > 0,
            decreases placeholders.len() - i,
        {
            assert(placeholders@[i as int].deep_view() =~= placeholders@[i as int]@);
            if placeholders[i].len() == 0 {
                assert(views[i as int].len() == 0);
                return None;
            }
            i += 1;
        }
        match matcher::build_sparse(&placeholders) {
            Some(_probe) => Some(Self::from_iter(placeholders)),
            None => None,
        }
    }

    /// Compile a placeholder set from bare names, wrapping each in the given
    /// brackets first: `from_iter_with_brackets("{", "}", [name])` equals
    /// `from_iter(["{name}"])`.
    pub fn from_iter_with_brackets(
        open_bracket: &str,
        close_bracket: &str,
        placeholders: Vec<Vec<u8>>,
    ) -> (r: Self)
        requires
            spec_all_nonempty(
                spec_all_bracketed(
                    placeholders.deep_view(),
                    open_bracket.spec_bytes(),
                    close_bracket.spec_bytes(),
                ),
            ),
            sparse_builds(
                spec_all_bracketed(
                    placeholders.deep_view(),
                    open_bracket.spec_bytes(),
                    close_bracket.spec_bytes(),
                ),
            ),
        ensures
            r@ == spec_all_bracketed(
                placeholders.deep_view(),
                open_bracket.spec_bytes(),
                close_bracket.spec_bytes(),
            ),
    {
        let wrapped = bracket_all(open_bracket, close_bracket, &placeholders);
        Self::from_iter(wrapped)
    }

    /// As `from_iter_with_brackets`, deciding acceptability at run time.
    pub fn try_from_iter_with_brackets(
        open_bracket: &str,
        close_bracket: &str,
        placeholders: Vec<Vec<u8>>,
    ) -> (r: Option<Self>)
        ensures
            ({
                let wrapped = spec_all_bracketed(
                    placeholders.deep_view(),
                    open_bracket.spec_bytes(),
                    close_bracket.spec_bytes(),
                );
                &&& r is Some <==> spec_all_nonempty(wrapped) && sparse_builds(wrapped)
                &&& r matches Some(p) ==> p@ == wrapped
            }),
    {
        let wrapped = bracket_all(open_bracket, close_bracket, &placeholders);
        let ghost wviews = wrapped.deep_view();
        let mut i: usize = 0;
        while i < wrapped.len()
            invariant
                0 <= i <= wrapped.len(),
                wviews == wrapped.deep_view(),
                wviews.len() == wrapped.len(),
                wviews == spec_all_bracketed(
                    placeholders.deep_view(),
                    open_bracket.spec_bytes(),
                    close_bracket.spec_bytes(),
                ),
                forall|k: int| 0 <= k < i ==> (#[trigger] wviews[k]).len() > 0,
            decreases wrapped.len() - i,
        {
            assert(wrapped@[i as int].deep_view() =~= wrapped@[i as int]@);
            if wrapped[i].len() == 0 {
                assert(wviews[i as int].len() == 0);
                return None;
            }
            i += 1;
        }
        match matcher::build_sparse(&wrapped) {
            Some(_probe) => Some(
                Placeholders::from_iter_with_brackets(open_bracket, close_bracket, placeholders),
            ),
            None => None,
        }
    }

    /// How many placeholders were compiled in.
    pub fn len(&self) -> (r: usize)
        ensures
            r == self@.len(),
    {
        matcher::patterns_count(&self.m)
    }

    /// A scan cursor over this placeholder set, at the start state.
    pub(crate) fn start_scan(&self) -> (r: Matcher)
        ensures
            matcher::matcher_patterns(r) == self@,
            matcher::matcher_fed(r) == Seq::<u8>::empty(),
    {
        matcher::fresh(&self.m)
    }
}

impl Clone for Placeholders {
    /// Duplication is cheap and keeps the compiled pattern set, so one
    /// placeholder set can serve many renders.
    fn clone(&self) -> (r: Self)
        ensures
            r@ == self@,
    {
        Placeholders { m: matcher::fresh(&self.m) }
    }
}

impl Default for Placeholders {
    /// The empty placeholder set: a render with it replaces nothing.
    fn default() -> (r: Self)
        ensures
            r@ == Seq::<Seq<u8>>::empty(),
    {
        let empty: Vec<Vec<u8>> = Vec::new();
        proof {
            assert(empty.deep_view() =~= Seq::<Seq<u8>>::empty());
        }
        match matcher::build_sparse(&empty) {
            Some(m) => Placeholders { m },
            None => vstd::pervasive::unreached(),
        }
    }
}

/// Each pattern wrapped as `open ++ pattern ++ close`.
fn bracket_all(open_bracket: &str, close_bracket: &str, patterns: &Vec<Vec<u8>>) -> (r: Vec<
    Vec<u8>,
>)
    ensures
        r.deep_view() == spec_all_bracketed(
            patterns.deep_view(),
            open_bracket.spec_bytes(),
            close_bracket.spec_bytes(),
        ),
{
    let ghost views = patterns.deep_view();
    let ghost ob = open_bracket.spec_bytes();
    let ghost cb = close_bracket.spec_bytes();
    let mut out: Vec<Vec<u8>> = Vec::new();
    let mut i: usize = 0;
    while i < patterns.len()
        invariant
            0 <= i <= patterns.len(),
            views == patterns.deep_view(),
            views.len() == patterns.len(),
            ob == open_bracket.spec_bytes(),
            cb == close_bracket.spec_bytes(),
            out@.len() == i,
            forall|k: int| 0 <= k < i ==> (#[trigger] out@[k])@ == spec_bracketed(
                views[k],
                ob,
                cb,
            ),
        decreases patterns.len() - i,
    {
        let mut one: Vec<u8> = Vec::new();
        one.extend_from_slice(open_bracket.as_bytes());
        one.extend_from_slice(patterns[i].as_slice());
        one.extend_from_slice(close_bracket.as_bytes());
        assert(patterns[i as int].deep_view() =~= patterns@[i as int]@);
        assert(one@ =~= spec_bracketed(views[i as int], ob, cb));
        out.push(one);
        i += 1;
    }
    proof {
        assert forall|k: int| 0 <= k < views.len() implies out.deep_view()[k]
            == spec_all_bracketed(views, ob, cb)[k] by {
            assert(out@[k].deep_view() =~= out@[k]@);
        }
        assert(out.deep_view() =~= spec_all_bracketed(views, ob, cb));
    }
    out
}

} // verus!
