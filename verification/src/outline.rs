//! The heading scanner: from a text to its ordered list of headings.

use crate::chars::{
    chars_of, exactly, lemma_prefix_len_bounds, lemma_prefix_len_is, lemma_trim_is_trimmed,
    prefix_len, skip_leading_whitespace, string_of, trim, trim_start, trim_whitespace,
};
use crate::lines::{contents, lines, split_lines};
use vstd::prelude::*;

verus! {

/// A markdown heading with its location and level.
#[derive(Debug, Clone, PartialEq, Eq)]
pub struct Heading {
    /// Line number (1-indexed).
    pub line_number: usize,
    /// Heading level (1 to 6, for `#` to `######`).
    pub level: u8,
    /// The heading text, without the `#` prefix and surrounding white space.
    pub text: String,
}

/// What a heading is, as plain values.
pub struct HeadingView {
    pub line_number: nat,
    pub level: nat,
    pub text: Seq<char>,
}

impl View for Heading {
    type V = HeadingView;

    open spec fn view(&self) -> HeadingView {
        HeadingView {
            line_number: self.line_number as nat,
            level: self.level as nat,
            text: self.text@,
        }
    }
}

impl HeadingView {
    /// A heading as a scanner gives it: on a line of the text, with a level
    /// from 1 to 6 and a text without surrounding white space.
    pub open spec fn well_formed(self) -> bool {
        &&& self.line_number >= 1
        &&& 1 <= self.level <= 6
        &&& trim(self.text) == self.text
    }
}

/// The views of the headings of `hs`.
pub open spec fn views(hs: Seq<Heading>) -> Seq<HeadingView> {
    Seq::new(hs.len(), |i: int| hs[i]@)
}

/// A list of headings in document order: line numbers strictly increase.
pub open spec fn ordered(hs: Seq<HeadingView>) -> bool {
    forall|i: int, j: int| 0 <= i < j < hs.len() ==> hs[i].line_number < hs[j].line_number
}

/// A fence marker: after leading white space the line begins with three
/// backticks or three tildes.
pub open spec fn is_fence(line: Seq<char>) -> bool {
    let t = trim_start(line);
    t.len() >= 3 && t[0] == t[1] && t[1] == t[2] && (t[0] == '`' || t[0] == '~')
}

/// The number of `#` that `line` begins with after its leading white space.
pub open spec fn hashes(line: Seq<char>) -> nat {
    prefix_len(trim_start(line), exactly('#'))
}

/// A heading line: after leading white space, one to six `#` and then a space.
pub open spec fn is_heading_line(line: Seq<char>) -> bool {
    let t = trim_start(line);
    let k = hashes(line);
    1 <= k <= 6 && k < t.len() && t[k as int] == ' '
}

/// The text of a heading line: what follows the `#`s and the space, without
/// surrounding white space.
pub open spec fn heading_text(line: Seq<char>) -> Seq<char> {
    trim(trim_start(line).skip(hashes(line) as int + 1))
}

/// Whether line `i` (counted from 0) lies after a fence marker that opened a
/// code block and that no later marker before line `i` has closed.
pub open spec fn in_fence(ls: Seq<Seq<char>>, i: int) -> bool
    decreases i,
{
    if i <= 0 {
        false
    } else {
        in_fence(ls, i - 1) != is_fence(ls[i - 1])
    }
}

/// Whether line `i` (counted from 0) gives a heading: it is a heading line
/// outside every fenced code block.
pub open spec fn emits(ls: Seq<Seq<char>>, i: int) -> bool {
    !in_fence(ls, i) && is_heading_line(ls[i])
}

/// The heading that line `i` (counted from 0) gives, if it gives one.
pub open spec fn heading_at(ls: Seq<Seq<char>>, i: int) -> HeadingView {
    HeadingView {
        line_number: (i + 1) as nat,
        level: hashes(ls[i]),
        text: heading_text(ls[i]),
    }
}

/// The headings that the first `n` lines of `ls` give, in order.
pub open spec fn headings_in(ls: Seq<Seq<char>>, n: int) -> Seq<HeadingView>
    decreases n,
{
    if n <= 0 {
        Seq::empty()
    } else if emits(ls, n - 1) {
        headings_in(ls, n - 1).push(heading_at(ls, n - 1))
    } else {
        headings_in(ls, n - 1)
    }
}

/// The headings of the text `c`, in document order.
pub open spec fn outline(c: Seq<char>) -> Seq<HeadingView> {
    headings_in(lines(c), lines(c).len() as int)
}

/// A heading line is no fence marker.
pub proof fn lemma_heading_line_is_no_fence(line: Seq<char>)
    requires
        is_heading_line(line),
    ensures
        !is_fence(line),
{
    lemma_prefix_len_bounds(trim_start(line), exactly('#'));
}

/// Whether `line` is a fence marker.
pub fn line_is_fence(line: &[char]) -> (b: bool)
    ensures
        b == is_fence(line@),
{
    let t = skip_leading_whitespace(line);
    t.len() >= 3 && t[0] == t[1] && t[1] == t[2] && (t[0] == '`' || t[0] == '~')
}

/// The level and the text of `line` if it is a heading line.
pub fn heading_of_line(line: &[char]) -> (out: Option<(u8, String)>)
    ensures
        out is Some <==> is_heading_line(line@),
        out matches Some(h) ==> h.0 == hashes(line@) && h.1@ == heading_text(line@),
{
    let t = skip_leading_whitespace(line);
    let n = t.len();
    if n == 0 || t[0] != '#' {
        proof {
            lemma_prefix_len_is(t@, exactly('#'), 0);
        }
        return None;
    }
    let mut level: u8 = 1;
    while level < 6 && (level as usize) < n && t[level as usize] == '#'
        invariant
            n == t.len(),
            1 <= level <= 6,
            level <= n,
            forall|j: int| 0 <= j < level ==> #[trigger] t@[j] == '#',
        decreases 6 - level,
    {
        level += 1;
    }
    let k = level as usize;
    if k < n && t[k] == ' ' {
        proof {
            lemma_prefix_len_is(t@, exactly('#'), k as int);
        }
        let rest = trim_whitespace(&t[k + 1..n]);
        assert(t@.subrange(k + 1, n as int) == t@.skip(k + 1));
        Some((level, string_of(rest)))
    } else {
        proof {
            let p = exactly('#');
            let m = prefix_len(t@, p) as int;
            lemma_prefix_len_bounds(t@, p);
            if m < k {
                assert(p(t@[m]));
            } else if m == k {
            } else {
                assert(p(t@[k as int]));
                assert(k == 6);
            }
        }
        None
    }
}

/// What holds of the headings that lines give: they are in document order,
/// each stands for a line that gives a heading, with a level from 1 to 6, and
/// each such line has its heading.
pub proof fn lemma_headings_in(ls: Seq<Seq<char>>, n: int)
    requires
        0 <= n <= ls.len(),
    ensures
        ordered(headings_in(ls, n)),
        forall|i: int|
            0 <= i < headings_in(ls, n).len() ==> {
                let h = #[trigger] headings_in(ls, n)[i];
                &&& h.well_formed()
                &&& h.line_number <= n
                &&& emits(ls, h.line_number - 1)
                &&& h == heading_at(ls, h.line_number - 1)
            },
        forall|k: int|
            0 <= k < n && #[trigger] emits(ls, k) ==> exists|i: int|
                0 <= i < headings_in(ls, n).len() && headings_in(ls, n)[i] == heading_at(ls, k),
    decreases n,
{
    if n > 0 {
        lemma_headings_in(ls, n - 1);
        let prev = headings_in(ls, n - 1);
        let cur = headings_in(ls, n);
        if emits(ls, n - 1) {
            let h = heading_at(ls, n - 1);
            assert(cur == prev.push(h));
            lemma_trim_is_trimmed(trim_start(ls[n - 1]).skip(hashes(ls[n - 1]) as int + 1));
            assert forall|i: int| 0 <= i < cur.len() implies {
                let g = #[trigger] cur[i];
                &&& g.well_formed()
                &&& g.line_number <= n
                &&& emits(ls, g.line_number - 1)
                &&& g == heading_at(ls, g.line_number - 1)
            } by {
                if i < prev.len() {
                    assert(cur[i] == prev[i]);
                }
            }
            assert forall|i: int, j: int| 0 <= i < j < cur.len() implies cur[i].line_number
                < cur[j].line_number by {
                assert(cur[i] == prev[i]);
                if j < prev.len() {
                    assert(cur[j] == prev[j]);
                }
            }
            assert forall|k: int| 0 <= k < n && #[trigger] emits(ls, k) implies exists|i: int|
                0 <= i < cur.len() && cur[i] == heading_at(ls, k) by {
                if k < n - 1 {
                    let i = choose|i: int| 0 <= i < prev.len() && prev[i] == heading_at(ls, k);
                    assert(cur[i] == heading_at(ls, k));
                } else {
                    assert(cur[prev.len() as int] == heading_at(ls, k));
                }
            }
        } else {
            assert(cur == prev);
        }
    }
}

/// After a fence marker that opens a code block, every line up to and
/// including the next fence marker lies inside the block.
pub proof fn lemma_inside_open_fence(ls: Seq<Seq<char>>, open: int, k: int)
    requires
        0 <= open < k,
        !in_fence(ls, open),
        is_fence(ls[open]),
        forall|j: int| open < j < k ==> !is_fence(#[trigger] ls[j]),
    ensures
        in_fence(ls, k),
    decreases k - open,
{
    if k > open + 1 {
        lemma_inside_open_fence(ls, open, k - 1);
    }
}

/// From a fence marker that opens a code block to line `last`, which is the
/// next fence marker or a line before it, no line has a heading in the
/// outline, whatever the lines hold.
pub proof fn lemma_fenced_lines_have_no_heading(c: Seq<char>, open: int, last: int)
    requires
        0 <= open <= last < lines(c).len(),
        !in_fence(lines(c), open),
        is_fence(lines(c)[open]),
        forall|j: int| open < j < last ==> !is_fence(#[trigger] lines(c)[j]),
    ensures
        forall|i: int|
            0 <= i < outline(c).len() ==> !(open + 1 <= (#[trigger] outline(c)[i]).line_number
                <= last + 1),
{
    let ls = lines(c);
    lemma_headings_in(ls, ls.len() as int);
    assert forall|i: int| 0 <= i < outline(c).len() implies !(open + 1 <= (
    #[trigger] outline(c)[i]).line_number <= last + 1) by {
        let k = outline(c)[i].line_number - 1;
        if open <= k <= last {
            if k == open {
                lemma_heading_line_is_no_fence(ls[k]);
            } else {
                lemma_inside_open_fence(ls, open, k);
            }
        }
    }
}

/// A line whose `#`s are followed by the end of the line or by anything but
/// a space has no heading in the outline.
pub proof fn lemma_no_space_no_heading(c: Seq<char>, k: int)
    requires
        0 <= k < lines(c).len(),
        hashes(lines(c)[k]) >= 1,
        hashes(lines(c)[k]) == trim_start(lines(c)[k]).len() || trim_start(
            lines(c)[k],
        )[hashes(lines(c)[k]) as int] != ' ',
    ensures
        forall|i: int|
            0 <= i < outline(c).len() ==> (#[trigger] outline(c)[i]).line_number != k + 1,
{
    lemma_headings_in(lines(c), lines(c).len() as int);
}

/// A line outside fenced code blocks with one to six `#`s and then a space
/// has its heading in the outline, with the number of `#`s as its level.
pub proof fn lemma_space_gives_heading(c: Seq<char>, k: int)
    requires
        0 <= k < lines(c).len(),
        !in_fence(lines(c), k),
        1 <= hashes(lines(c)[k]) <= 6,
        hashes(lines(c)[k]) < trim_start(lines(c)[k]).len(),
        trim_start(lines(c)[k])[hashes(lines(c)[k]) as int] == ' ',
    ensures
        exists|i: int|
            0 <= i < outline(c).len() && outline(c)[i] == (HeadingView {
                line_number: (k + 1) as nat,
                level: hashes(lines(c)[k]),
                text: heading_text(lines(c)[k]),
            }),
{
    let ls = lines(c);
    lemma_headings_in(ls, ls.len() as int);
    assert(emits(ls, k));
    let i = choose|i: int| 0 <= i < outline(c).len() && outline(c)[i] == heading_at(ls, k);
    assert(outline(c)[i] == heading_at(ls, k));
}

/// Parses all headings of a markdown text.
///
/// Returns the headings in document order with their line numbers and
/// levels, and skips what stands inside fenced code blocks.
pub fn parse_headings(content: &str) -> (out: Vec<Heading>)
    ensures
        views(out@) == outline(content@),
        ordered(views(out@)),
        forall|i: int|
            0 <= i < out.len() ==> (#[trigger] out[i])@.well_formed() && out[i].line_number
                <= lines(content@).len(),
{
    let chars = chars_of(content);
    let ls = split_lines(chars.as_slice());
    let ghost all = lines(content@);
    let mut out: Vec<Heading> = Vec::new();
    let mut fenced = false;
    let mut i: usize = 0;
    while i < ls.len()
        invariant
            i <= ls.len(),
            contents(ls@) == all,
            views(out@) == headings_in(all, i as int),
            fenced == in_fence(all, i as int),
        decreases ls.len() - i,
    {
        let line = ls[i];
        assert(line@ == all[i as int]);
        let ghost before = views(out@);
        if line_is_fence(line) {
            proof {
                if is_heading_line(line@) {
                    lemma_heading_line_is_no_fence(line@);
                }
            }
            fenced = !fenced;
        } else if !fenced {
            match heading_of_line(line) {
                Some((level, text)) => {
                    out.push(Heading { line_number: i + 1, level, text });
                    assert(views(out@) == before.push(heading_at(all, i as int)));
                },
                None => {},
            }
        }
        i += 1;
    }
    proof {
        lemma_headings_in(all, all.len() as int);
        assert forall|i: int| 0 <= i < out.len() implies (#[trigger] out[i])@.well_formed()
            && out[i].line_number <= all.len() by {
            assert(views(out@)[i] == out[i]@);
        }
    }
    out
}

} // verus!
