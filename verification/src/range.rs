//! Section ranges and subsections, computed from the list of headings.

use crate::outline::{ordered, views, Heading, HeadingView};
use crate::search::{first_match, lemma_first_match, lemma_first_match_is, lemma_first_match_none};
use vstd::prelude::*;

verus! {

/// The predicate "stands after line `start` and is no deeper than `level`":
/// such a heading ends the section that a heading of that level opened on
/// that line.
pub open spec fn closes(start: nat, level: nat) -> spec_fn(HeadingView) -> bool {
    |h: HeadingView| h.line_number > start && h.level <= level
}

/// The predicate "stands after line `start` and is deeper than `level`".
pub open spec fn below(start: nat, level: nat) -> spec_fn(HeadingView) -> bool {
    |h: HeadingView| h.line_number > start && h.level > level
}

/// The predicate "stands on a line from `start` up to, not including, `end`,
/// or to the end of the text where `end` is absent, and is no deeper than
/// `max_depth`".
pub open spec fn within(start: nat, end: Option<nat>, max_depth: nat) -> spec_fn(
    HeadingView,
) -> bool {
    |h: HeadingView|
        h.line_number >= start && (end matches Some(e) ==> h.line_number < e) && h.level
            <= max_depth
}

/// The line on which the section of `h` ends: that of the first heading
/// of `hs` after `h` that is no deeper than `h`. Absent where the section
/// runs to the end of the text.
pub open spec fn section_end(hs: Seq<HeadingView>, h: HeadingView) -> Option<nat> {
    match first_match(hs, closes(h.line_number, h.level)) {
        Some(i) => Some(hs[i].line_number),
        None => None,
    }
}

/// The views of the headings that `refs` refers to.
pub open spec fn referents(refs: Seq<&Heading>) -> Seq<HeadingView> {
    Seq::new(refs.len(), |i: int| refs[i]@)
}

/// In a list in document order the end of a section is the smallest line
/// number, among the headings after `h` that are no deeper than `h`.
pub proof fn lemma_section_end_is_smallest(hs: Seq<HeadingView>, h: HeadingView)
    requires
        ordered(hs),
    ensures
        section_end(hs, h) matches Some(e) ==> forall|j: int|
            0 <= j < hs.len() && closes(h.line_number, h.level)(#[trigger] hs[j]) ==> e
                <= hs[j].line_number,
{
    lemma_first_match(hs, closes(h.line_number, h.level));
}

/// In a list in document order, every heading inside the range of `h` is
/// deeper than `h`, and the first heading at or after the
/// end of the range stands on that line and is no deeper than `h`. Where the
/// range has no end, every heading after `h` is deeper than `h`.
pub proof fn lemma_range_nesting(hs: Seq<HeadingView>, h: HeadingView)
    requires
        ordered(hs),
    ensures
        match section_end(hs, h) {
            Some(e) => {
                &&& h.line_number < e
                &&& forall|j: int|
                    0 <= j < hs.len() && h.line_number < (#[trigger] hs[j]).line_number < e
                        ==> hs[j].level > h.level
                &&& exists|i: int|
                    {
                        &&& 0 <= i < hs.len()
                        &&& hs[i].line_number == e
                        &&& hs[i].level <= h.level
                        &&& forall|j: int|
                            0 <= j < hs.len() && (#[trigger] hs[j]).line_number >= e ==> i <= j
                    }
            },
            None => forall|j: int|
                0 <= j < hs.len() && h.line_number < (#[trigger] hs[j]).line_number
                    ==> hs[j].level > h.level,
        },
{
    let p = closes(h.line_number, h.level);
    lemma_first_match(hs, p);
    match first_match(hs, p) {
        Some(i) => {
            let e = hs[i].line_number;
            assert forall|j: int|
                0 <= j < hs.len() && h.line_number < (#[trigger] hs[j]).line_number
                    < e implies hs[j].level > h.level by {
                if hs[j].level <= h.level {
                    assert(p(hs[j]));
                }
            }
            assert forall|j: int| 0 <= j < hs.len() && (#[trigger] hs[j]).line_number
                >= e implies i <= j by {}
        },
        None => {
            assert forall|j: int|
                0 <= j < hs.len() && h.line_number < (
                #[trigger] hs[j]).line_number implies hs[j].level > h.level by {
                assert(!p(hs[j]));
            }
        },
    }
}

/// The line range of a section: its first line, and the line on which it
/// ends.
///
/// The section of `heading` ends on the line of the next heading that is no
/// deeper than `heading`; it has no end line where it runs to the end of the
/// text.
pub fn get_section_range(headings: &[Heading], heading: &Heading) -> (out: (
    usize,
    Option<usize>,
))
    ensures
        out.0 == heading.line_number,
        match out.1 {
            Some(e) => section_end(views(headings@), heading@) == Some(e as nat) && e > out.0,
            None => section_end(views(headings@), heading@) is None,
        },
        ordered(views(headings@)) ==> (out.1 matches Some(e) ==> forall|j: int|
            0 <= j < headings.len() && (#[trigger] headings[j]).line_number > heading.line_number
                && headings[j].level <= heading.level ==> e <= headings[j].line_number),
{
    let ghost hs = views(headings@);
    let ghost p = closes(heading@.line_number, heading@.level);
    let start = heading.line_number;
    let mut i: usize = 0;
    while i < headings.len()
        invariant
            i <= headings.len(),
            hs == views(headings@),
            start == heading.line_number,
            p == closes(heading@.line_number, heading@.level),
            forall|j: int| 0 <= j < i ==> !p(#[trigger] hs[j]),
        decreases headings.len() - i,
    {
        let h = &headings[i];
        if h.line_number > start && h.level <= heading.level {
            proof {
                lemma_first_match_is(hs, p, i as int);
                if ordered(hs) {
                    lemma_section_end_is_smallest(hs, heading@);
                    assert forall|j: int|
                        0 <= j < headings.len() && (#[trigger] headings[j]).line_number
                            > heading.line_number && headings[j].level
                            <= heading.level implies h.line_number
                        <= headings[j].line_number by {
                        assert(p(hs[j]));
                    }
                }
            }
            return (start, Some(h.line_number));
        }
        i += 1;
    }
    proof {
        lemma_first_match_none(hs, p);
    }
    (start, None)
}

/// The headings within a line range that are no deeper than `max_depth`, in
/// document order. The range runs from line `start` up to, not including,
/// line `end`, or to the end of the text where `end` is absent.
pub fn get_subsections(
    headings: &[Heading],
    start: usize,
    end: Option<usize>,
    max_depth: u8,
) -> (out: Vec<&Heading>)
    ensures
        referents(out@) == views(headings@).filter(
            within(
                start as nat,
                match end {
                    Some(e) => Some(e as nat),
                    None => None,
                },
                max_depth as nat,
            ),
        ),
{
    let ghost hs = views(headings@);
    let ghost p = within(
        start as nat,
        match end {
            Some(e) => Some(e as nat),
            None => None,
        },
        max_depth as nat,
    );
    let mut out: Vec<&Heading> = Vec::new();
    let mut i: usize = 0;
    proof {
        reveal(Seq::filter);
        assert(hs.take(0).filter(p) == Seq::<HeadingView>::empty());
    }
    while i < headings.len()
        invariant
            i <= headings.len(),
            hs == views(headings@),
            p == within(
                start as nat,
                match end {
                    Some(e) => Some(e as nat),
                    None => None,
                },
                max_depth as nat,
            ),
            referents(out@) == hs.take(i as int).filter(p),
        decreases headings.len() - i,
    {
        let h = &headings[i];
        let before_end = match end {
            Some(e) => h.line_number < e,
            None => true,
        };
        let ghost before = referents(out@);
        proof {
            reveal(Seq::filter);
            let next = hs.take(i + 1);
            assert(next.drop_last() == hs.take(i as int));
            assert(next.last() == h@);
        }
        if h.line_number >= start && before_end && h.level <= max_depth {
            out.push(h);
            assert(referents(out@) == before.push(h@));
        }
        i += 1;
    }
    assert(hs.take(headings.len() as int) == hs);
    out
}

/// The first subsection of a section: the first heading after `heading`
/// that is deeper than it, if there is one.
pub fn get_first_subsection<'a>(headings: &'a [Heading], heading: &Heading) -> (out: Option<
    &'a Heading,
>)
    ensures
        match first_match(views(headings@), below(heading@.line_number, heading@.level)) {
            Some(i) => out == Some(&headings[i]),
            None => out is None,
        },
{
    let ghost hs = views(headings@);
    let ghost p = below(heading@.line_number, heading@.level);
    let mut i: usize = 0;
    while i < headings.len()
        invariant
            i <= headings.len(),
            hs == views(headings@),
            p == below(heading@.line_number, heading@.level),
            forall|j: int| 0 <= j < i ==> !p(#[trigger] hs[j]),
        decreases headings.len() - i,
    {
        let h = &headings[i];
        if h.line_number > heading.line_number && h.level > heading.level {
            proof {
                lemma_first_match_is(hs, p, i as int);
            }
            return Some(h);
        }
        i += 1;
    }
    proof {
        lemma_first_match_none(hs, p);
    }
    None
}

} // verus!
