//! Trusted surface over the multi-pattern matching automaton.
//!
//! The automaton is compiled once from an ordered list of byte patterns and
//! then stepped byte by byte. A `Matcher` value carries the compiled
//! automaton together with its current state; its abstract content is the
//! pattern list it was built from and the bytes fed since the last reset.
//! The automaton runs with standard match semantics: after feeding a byte
//! sequence, the current state is a match state exactly when some pattern
//! ends there, that is, when some pattern is a suffix of the bytes fed.

use vstd::prelude::*;

verus! {

/// A compiled pattern automaton together with its current scan state.
///
/// Holds a dynamically chosen backend (dense table, contiguous or
/// noncontiguous transition representation) behind one object; the trait
/// object cannot be declared to the verifier, so the whole handle is opaque.
#[verifier::external_body]
pub struct Matcher {
    auto: std::sync::Arc<dyn aho_corasick::automaton::Automaton>,
    start: aho_corasick::automaton::StateID,
    state: aho_corasick::automaton::StateID,
}

/// The ordered pattern list the automaton was compiled from.
pub uninterp spec fn matcher_patterns(m: Matcher) -> Seq<Seq<u8>>;

/// The bytes fed to the automaton since its last reset.
pub uninterp spec fn matcher_fed(m: Matcher) -> Seq<u8>;

/// Which pattern the automaton reports when a match state is reached after
/// feeding `fed`: the automaton's own deterministic tie-break (fixed by
/// construction order), not redefined here.
pub uninterp spec fn chosen_pattern(patterns: Seq<Seq<u8>>, fed: Seq<u8>) -> int;

/// Whether the baseline (noncontiguous) automaton construction succeeds for
/// this pattern list; it fails only on pathologically large pattern sets.
pub uninterp spec fn sparse_builds(patterns: Seq<Seq<u8>>) -> bool;

/// Some pattern ends exactly at the end of `fed`.
pub open spec fn has_match(patterns: Seq<Seq<u8>>, fed: Seq<u8>) -> bool {
    exists|i: int| 0 <= i < patterns.len() && (#[trigger] patterns[i]).is_suffix_of(fed)
}

/// Pattern `j` ends exactly at the end of `fed`.
pub open spec fn suffix_candidate(patterns: Seq<Seq<u8>>, fed: Seq<u8>, j: int) -> bool {
    0 <= j < patterns.len() && patterns[j].is_suffix_of(fed)
}

/// The pattern a match state reports: when only one pattern ends here it is
/// that one; among several, the automaton's own fixed tie-break decides.
pub open spec fn pick_pattern(patterns: Seq<Seq<u8>>, fed: Seq<u8>) -> int {
    if exists|j: int|
        suffix_candidate(patterns, fed, j) && (forall|j2: int|
            suffix_candidate(patterns, fed, j2) ==> j2 == j) {
        choose|j: int|
            suffix_candidate(patterns, fed, j) && (forall|j2: int|
                suffix_candidate(patterns, fed, j2) ==> j2 == j)
    } else {
        chosen_pattern(patterns, fed)
    }
}

/// Relies on `aho_corasick::nfa::noncontiguous::Builder::build` and
/// `Automaton::start_state`: compiles the patterns into the always-available
/// compact automaton; success depends on the pattern list alone, and an
/// empty pattern list always builds.
#[verifier::external_body]
pub(crate) fn build_sparse(patterns: &Vec<Vec<u8>>) -> (r: Option<Matcher>)
    ensures
        r is Some <==> sparse_builds(patterns.deep_view()),
        patterns.deep_view().len() == 0 ==> r is Some,
        r matches Some(m) ==> matcher_patterns(m) == patterns.deep_view() && matcher_fed(m)
            == Seq::<u8>::empty(),
{
    let nfa = aho_corasick::nfa::noncontiguous::Builder::default().build(patterns.iter()).ok()?;
    let auto: std::sync::Arc<dyn aho_corasick::automaton::Automaton> = std::sync::Arc::new(nfa);
    let start = auto.start_state(aho_corasick::Anchored::No).ok()?;
    Some(Matcher { auto, start, state: start })
}

/// Relies on `aho_corasick::dfa::Builder::build_from_noncontiguous`: the
/// dense table backend, attempted only for small pattern counts; it encodes
/// the same patterns when it builds at all.
#[verifier::external_body]
pub(crate) fn build_dense(patterns: &Vec<Vec<u8>>) -> (r: Option<Matcher>)
    ensures
        r is Some ==> sparse_builds(patterns.deep_view()),
        r matches Some(m) ==> matcher_patterns(m) == patterns.deep_view() && matcher_fed(m)
            == Seq::<u8>::empty(),
{
    let nfa = aho_corasick::nfa::noncontiguous::Builder::default().build(patterns.iter()).ok()?;
    let dfa = aho_corasick::dfa::Builder::default().build_from_noncontiguous(&nfa).ok()?;
    let auto: std::sync::Arc<dyn aho_corasick::automaton::Automaton> = std::sync::Arc::new(dfa);
    let start = auto.start_state(aho_corasick::Anchored::No).ok()?;
    Some(Matcher { auto, start, state: start })
}

/// Relies on `aho_corasick::nfa::contiguous::Builder::build_from_noncontiguous`:
/// the contiguous backend with lower memory cost than the dense table.
#[verifier::external_body]
pub(crate) fn build_contiguous(patterns: &Vec<Vec<u8>>) -> (r: Option<Matcher>)
    ensures
        r is Some ==> sparse_builds(patterns.deep_view()),
        r matches Some(m) ==> matcher_patterns(m) == patterns.deep_view() && matcher_fed(m)
            == Seq::<u8>::empty(),
{
    let nfa = aho_corasick::nfa::noncontiguous::Builder::default().build(patterns.iter()).ok()?;
    let cnfa = aho_corasick::nfa::contiguous::Builder::default().build_from_noncontiguous(
        &nfa,
    ).ok()?;
    let auto: std::sync::Arc<dyn aho_corasick::automaton::Automaton> = std::sync::Arc::new(cnfa);
    let start = auto.start_state(aho_corasick::Anchored::No).ok()?;
    Some(Matcher { auto, start, state: start })
}

/// A copy of the automaton placed back at the start state recorded when it
/// was built, where it has read nothing.
#[verifier::external_body]
pub(crate) fn fresh(m: &Matcher) -> (r: Matcher)
    ensures
        matcher_patterns(r) == matcher_patterns(*m),
        matcher_fed(r) == Seq::<u8>::empty(),
{
    Matcher { auto: m.auto.clone(), start: m.start, state: m.start }
}

/// Relies on `Automaton::next_state` (unanchored): advances the automaton by
/// one byte of input.
#[verifier::external_body]
pub(crate) fn step(m: &mut Matcher, byte: u8)
    ensures
        matcher_patterns(*final(m)) == matcher_patterns(*old(m)),
        matcher_fed(*final(m)) == matcher_fed(*old(m)).push(byte),
{
    m.state = m.auto.next_state(aho_corasick::Anchored::No, m.state, byte);
}

/// Relies on `Automaton::is_match`: with standard match semantics the current
/// state is a match state exactly when some pattern ends at the current
/// position, that is, when some pattern is a suffix of the bytes fed since
/// the start state.
#[verifier::external_body]
pub(crate) fn is_match(m: &Matcher) -> (r: bool)
    ensures
        r == has_match(matcher_patterns(*m), matcher_fed(*m)),
{
    m.auto.is_match(m.state)
}

/// Relies on `Automaton::match_pattern`: for a match state, the first
/// reported pattern is one that ends at the current position, so when a
/// single pattern ends here it is that one; among several, the automaton's
/// fixed tie-break decides, named `chosen_pattern`.
#[verifier::external_body]
pub(crate) fn match_pattern(m: &Matcher) -> (r: usize)
    requires
        has_match(matcher_patterns(*m), matcher_fed(*m)),
    ensures
        0 <= r < matcher_patterns(*m).len(),
        matcher_patterns(*m)[r as int].is_suffix_of(matcher_fed(*m)),
        r == pick_pattern(matcher_patterns(*m), matcher_fed(*m)),
        !(exists|j: int|
            suffix_candidate(matcher_patterns(*m), matcher_fed(*m), j) && (forall|j2: int|
                suffix_candidate(matcher_patterns(*m), matcher_fed(*m), j2) ==> j2 == j)) ==> r
            == chosen_pattern(matcher_patterns(*m), matcher_fed(*m)),
{
    m.auto.match_pattern(m.state, 0).as_usize()
}

/// Relies on `Automaton::pattern_len`: the byte length of the pattern with
/// the given id.
#[verifier::external_body]
pub(crate) fn pattern_len(m: &Matcher, id: usize) -> (r: usize)
    requires
        id < matcher_patterns(*m).len(),
    ensures
        r == matcher_patterns(*m)[id as int].len(),
{
    m.auto.pattern_len(aho_corasick::PatternID::new(id).unwrap())
}

/// Relies on `Automaton::patterns_len`: how many patterns were compiled in.
#[verifier::external_body]
pub(crate) fn patterns_count(m: &Matcher) -> (r: usize)
    ensures
        r == matcher_patterns(*m).len(),
{
    m.auto.patterns_len()
}

} // verus!
