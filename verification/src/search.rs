//! The first heading of a list that satisfies a condition.

use crate::outline::HeadingView;
use vstd::prelude::*;

verus! {

/// The index of the first heading of `hs` that satisfies `p`, if any does.
pub open spec fn first_match(hs: Seq<HeadingView>, p: spec_fn(HeadingView) -> bool) -> Option<int>
    decreases hs.len(),
{
    if hs.len() == 0 {
        None
    } else if p(hs[0]) {
        Some(0)
    } else {
        match first_match(hs.drop_first(), p) {
            Some(i) => Some(i + 1),
            None => None,
        }
    }
}

/// The first match satisfies `p` and nothing before it does; where there is
/// none, no heading satisfies `p`.
pub proof fn lemma_first_match(hs: Seq<HeadingView>, p: spec_fn(HeadingView) -> bool)
    ensures
        match first_match(hs, p) {
            Some(i) => 0 <= i < hs.len() && p(hs[i]) && forall|j: int|
                0 <= j < i ==> !p(#[trigger] hs[j]),
            None => forall|j: int| 0 <= j < hs.len() ==> !p(#[trigger] hs[j]),
        },
    decreases hs.len(),
{
    if hs.len() > 0 && !p(hs[0]) {
        let t = hs.drop_first();
        lemma_first_match(t, p);
        match first_match(t, p) {
            Some(i) => {
                assert(hs[i + 1] == t[i]);
                assert forall|j: int| 0 <= j < i + 1 implies !p(#[trigger] hs[j]) by {
                    if j > 0 {
                        assert(hs[j] == t[j - 1]);
                    }
                }
            },
            None => {
                assert forall|j: int| 0 <= j < hs.len() implies !p(#[trigger] hs[j]) by {
                    if j > 0 {
                        assert(hs[j] == t[j - 1]);
                    }
                }
            },
        }
    }
}

/// A heading that satisfies `p`, with none before it that does, is the first
/// match.
pub proof fn lemma_first_match_is(hs: Seq<HeadingView>, p: spec_fn(HeadingView) -> bool, i: int)
    requires
        0 <= i < hs.len(),
        p(hs[i]),
        forall|j: int| 0 <= j < i ==> !p(#[trigger] hs[j]),
    ensures
        first_match(hs, p) == Some(i),
{
    lemma_first_match(hs, p);
}

/// Where no heading satisfies `p`, there is no first match.
pub proof fn lemma_first_match_none(hs: Seq<HeadingView>, p: spec_fn(HeadingView) -> bool)
    requires
        forall|j: int| 0 <= j < hs.len() ==> !p(#[trigger] hs[j]),
    ensures
        first_match(hs, p) is None,
{
    lemma_first_match(hs, p);
}

} // verus!
