use vstd::prelude::*;

verus! {

/// The score that the skim fuzzy matcher (with its default configuration)
/// assigns to a candidate text against a query pattern: `None` when the
/// pattern does not fuzzy-match the candidate at all, `Some(score)` with
/// higher scores for closer matches. The exact value is a pure function of
/// the two strings; its definition is left to the matcher.
pub uninterp spec fn skim_score(choice: Seq<char>, pattern: Seq<char>) -> Option<i64>;

/// Relies on `fuzzy_matcher::skim::SkimMatcherV2::fuzzy_match` under the
/// default configuration: the returned score is a deterministic function of
/// the candidate and the pattern alone.
#[verifier::external_body]
pub(crate) fn fuzzy_score(choice: &str, pattern: &str) -> (r: Option<i64>)
    ensures
        r == skim_score(choice@, pattern@),
{
    let matcher = fuzzy_matcher::skim::SkimMatcherV2::default();
    fuzzy_matcher::FuzzyMatcher::fuzzy_match(&matcher, choice, pattern)
}

} // verus!
