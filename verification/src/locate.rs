//! The section locator: from a query, a line number or a text, to a heading.

use crate::chars::{chars_of, contains, is_substring, lowercase, same_chars, to_lowercase};
use crate::outline::{views, Heading, HeadingView};
use crate::search::{first_match, lemma_first_match, lemma_first_match_is, lemma_first_match_none};
use vstd::prelude::*;

verus! {

/// A decimal digit.
pub open spec fn is_digit(c: char) -> bool {
    '0' <= c <= '9'
}

/// The number that a decimal digit stands for.
pub open spec fn digit_value(c: char) -> nat {
    (c as u32 - '0' as u32) as nat
}

/// The number that a run of decimal digits stands for.
pub open spec fn digits_value(s: Seq<char>) -> nat
    decreases s.len(),
{
    if s.len() == 0 {
        0
    } else {
        digits_value(s.drop_last()) * 10 + digit_value(s.last())
    }
}

/// `q` without one `+` at its start, if it has one.
pub open spec fn unsigned(q: Seq<char>) -> Seq<char> {
    if q.len() > 0 && q[0] == '+' {
        q.drop_first()
    } else {
        q
    }
}

/// A query that is a number: one or more decimal digits, after one `+` or none.
pub open spec fn is_number(q: Seq<char>) -> bool {
    unsigned(q).len() > 0 && forall|i: int|
        0 <= i < unsigned(q).len() ==> is_digit(#[trigger] unsigned(q)[i])
}

/// The number that a query which is a number stands for.
pub open spec fn number_value(q: Seq<char>) -> nat {
    digits_value(unsigned(q))
}

/// The predicate "stands on line `n`".
pub open spec fn on_line(n: nat) -> spec_fn(HeadingView) -> bool {
    |h: HeadingView| h.line_number == n
}

/// The predicate "has exactly the text `q`".
pub open spec fn titled(q: Seq<char>) -> spec_fn(HeadingView) -> bool {
    |h: HeadingView| h.text == q
}

/// The predicate "the lower-case form of the text holds `folded`".
pub open spec fn mentions(folded: Seq<char>) -> spec_fn(HeadingView) -> bool {
    |h: HeadingView| is_substring(folded, lowercase(h.text))
}

/// The index of the heading that the query `q` names in `hs`, if it names
/// one. A number names the heading on that line and nothing else. Any other
/// query names the first heading with exactly that text, and where there is
/// none the first whose lower-case text holds the lower-case query.
pub open spec fn locate(hs: Seq<HeadingView>, q: Seq<char>) -> Option<int> {
    if is_number(q) {
        first_match(hs, on_line(number_value(q)))
    } else if first_match(hs, titled(q)) is Some {
        first_match(hs, titled(q))
    } else {
        first_match(hs, mentions(lowercase(q)))
    }
}

/// `out` is the heading of `hs` that the query `q` names, or nothing where it
/// names none.
pub open spec fn is_located(hs: Seq<Heading>, q: Seq<char>, out: Option<&Heading>) -> bool {
    match locate(views(hs), q) {
        Some(i) => out == Some(&hs[i]),
        None => out is None,
    }
}

/// A prefix of a run of digits stands for no larger a number than the run.
pub proof fn lemma_digits_value_prefix(s: Seq<char>, i: int)
    requires
        0 <= i <= s.len(),
    ensures
        digits_value(s.take(i)) <= digits_value(s),
    decreases s.len(),
{
    if i == s.len() {
        assert(s.take(i) == s);
    } else {
        assert(s.drop_last().take(i) == s.take(i));
        lemma_digits_value_prefix(s.drop_last(), i);
    }
}

/// Whether the query `q` is a number.
pub fn is_number_text(q: &[char]) -> (b: bool)
    ensures
        b == is_number(q@),
{
    let n = q.len();
    let from: usize = if n > 0 && q[0] == '+' {
        1
    } else {
        0
    };
    if from == n {
        return false;
    }
    let ghost d = unsigned(q@);
    let mut i: usize = from;
    while i < n
        invariant
            n == q.len(),
            from <= i <= n,
            d == unsigned(q@),
            d.len() == n - from,
            forall|j: int| 0 <= j < i - from ==> is_digit(#[trigger] d[j]),
        decreases n - i,
    {
        let c = q[i];
        if !('0' <= c && c <= '9') {
            assert(d[i - from] == c);
            return false;
        }
        assert(d[i - from] == c);
        i += 1;
    }
    true
}

/// The number that the query `q` stands for, where a `usize` holds it.
pub fn number_of(q: &[char]) -> (out: Option<usize>)
    requires
        is_number(q@),
    ensures
        match out {
            Some(n) => n == number_value(q@),
            None => number_value(q@) > usize::MAX,
        },
{
    let n = q.len();
    let from: usize = if q[0] == '+' {
        1
    } else {
        0
    };
    let ghost d = unsigned(q@);
    let mut acc: usize = 0;
    let mut i: usize = from;
    while i < n
        invariant
            n == q.len(),
            from <= i <= n,
            d == unsigned(q@),
            d.len() == n - from,
            forall|j: int| 0 <= j < d.len() ==> is_digit(#[trigger] d[j]),
            acc == digits_value(d.take(i - from)),
        decreases n - i,
    {
        let c = q[i];
        assert(d[i - from] == c);
        let v: usize = (c as u32 - '0' as u32) as usize;
        proof {
            let next = d.take(i - from + 1);
            assert(next.drop_last() == d.take(i - from));
            assert(next.last() == c);
            assert(digits_value(next) == acc * 10 + v);
            lemma_digits_value_prefix(d, i - from + 1);
        }
        if acc > (usize::MAX - v) / 10 {
            return None;
        }
        acc = acc * 10 + v;
        i += 1;
    }
    assert(d.take(d.len() as int) == d);
    Some(acc)
}

/// The index of the first text of `texts` that holds `needle`, if any does.
pub fn first_containing(texts: &Vec<Vec<char>>, needle: &[char]) -> (out: Option<usize>)
    ensures
        match out {
            Some(i) => i < texts.len() && is_substring(needle@, texts[i as int]@) && forall|j: int|
                0 <= j < i ==> !is_substring(needle@, (#[trigger] texts[j])@),
            None => forall|j: int|
                0 <= j < texts.len() ==> !is_substring(needle@, (#[trigger] texts[j])@),
        },
{
    let mut i: usize = 0;
    while i < texts.len()
        invariant
            i <= texts.len(),
            forall|j: int| 0 <= j < i ==> !is_substring(needle@, (#[trigger] texts[j])@),
        decreases texts.len() - i,
    {
        if contains(texts[i].as_slice(), needle) {
            return Some(i);
        }
        i += 1;
    }
    None
}

/// Finds a section by line number or heading text.
///
/// A query that is a number names the heading on that line. Any other query
/// names the first heading with exactly that text, and where there is none
/// the first heading whose text holds the query, letter case apart.
pub fn find_section<'a>(headings: &'a [Heading], section: &str) -> (out: Option<&'a Heading>)
    ensures
        is_located(headings@, section@, out),
{
    let ghost hs = views(headings@);
    let q = chars_of(section);
    if is_number_text(q.as_slice()) {
        let ghost p = on_line(number_value(section@));
        match number_of(q.as_slice()) {
            Some(n) => {
                let mut i: usize = 0;
                while i < headings.len()
                    invariant
                        i <= headings.len(),
                        hs == views(headings@),
                        is_number(section@),
                        n == number_value(section@),
                        p == on_line(n as nat),
                        forall|j: int| 0 <= j < i ==> !p(#[trigger] hs[j]),
                    decreases headings.len() - i,
                {
                    if headings[i].line_number == n {
                        proof {
                            lemma_first_match_is(hs, p, i as int);
                        }
                        return Some(&headings[i]);
                    }
                    i += 1;
                }
                proof {
                    lemma_first_match_none(hs, p);
                }
                return None;
            },
            None => {
                proof {
                    lemma_first_match_none(hs, p);
                }
                return None;
            },
        }
    }
    let ghost exact = titled(section@);
    let mut i: usize = 0;
    while i < headings.len()
        invariant
            i <= headings.len(),
            hs == views(headings@),
            !is_number(section@),
            exact == titled(section@),
            q@ == section@,
            forall|j: int| 0 <= j < i ==> !exact(#[trigger] hs[j]),
        decreases headings.len() - i,
    {
        let text = chars_of(headings[i].text.as_str());
        if same_chars(text.as_slice(), q.as_slice()) {
            proof {
                lemma_first_match_is(hs, exact, i as int);
            }
            return Some(&headings[i]);
        }
        i += 1;
    }
    proof {
        lemma_first_match_none(hs, exact);
    }
    let folded_query = to_lowercase(section);
    let needle = chars_of(folded_query.as_str());
    let ghost loose = mentions(lowercase(section@));
    let mut folded: Vec<Vec<char>> = Vec::new();
    let mut i: usize = 0;
    while i < headings.len()
        invariant
            i <= headings.len(),
            hs == views(headings@),
            folded.len() == i,
            forall|j: int| 0 <= j < i ==> (#[trigger] folded[j])@ == lowercase(hs[j].text),
        decreases headings.len() - i,
    {
        let low = to_lowercase(headings[i].text.as_str());
        folded.push(chars_of(low.as_str()));
        i += 1;
    }
    match first_containing(&folded, needle.as_slice()) {
        Some(i) => {
            proof {
                assert forall|j: int| 0 <= j < i implies !loose(#[trigger] hs[j]) by {
                    assert(folded[j]@ == lowercase(hs[j].text));
                }
                assert(folded[i as int]@ == lowercase(hs[i as int].text));
                lemma_first_match_is(hs, loose, i as int);
            }
            Some(&headings[i])
        },
        None => {
            proof {
                assert forall|j: int| 0 <= j < hs.len() implies !loose(#[trigger] hs[j]) by {
                    assert(folded[j]@ == lowercase(hs[j].text));
                }
                lemma_first_match_none(hs, loose);
            }
            None
        },
    }
}

/// A list of headings and a query leave one answer: two headings that the
/// query names in the list are the same.
pub proof fn lemma_location_is_unique(
    hs: Seq<Heading>,
    q: Seq<char>,
    a: Option<&Heading>,
    b: Option<&Heading>,
)
    requires
        is_located(hs, q, a),
        is_located(hs, q, b),
    ensures
        a == b,
{
}

/// A query that is a number names the heading on that line or nothing,
/// whatever the texts of the headings are.
pub proof fn lemma_number_names_line(hs: Seq<HeadingView>, q: Seq<char>)
    requires
        is_number(q),
    ensures
        match locate(hs, q) {
            Some(i) => 0 <= i < hs.len() && hs[i].line_number == number_value(q),
            None => forall|j: int|
                0 <= j < hs.len() ==> (#[trigger] hs[j]).line_number != number_value(q),
        },
{
    lemma_first_match(hs, on_line(number_value(q)));
}

} // verus!
