//! The extractor and the formatter: the text of a line range, and outline
//! entries.

use crate::chars::{chars_of, string_of};
use crate::lines::{
    contents, join_lines, join_range, lemma_lines_newline_free, lemma_split_of_join, lines,
    newline_free, split_lines, split_newlines,
};
use crate::outline::{lemma_headings_in, outline, Heading, HeadingView};
use crate::range::{closes, section_end};
use crate::search::lemma_first_match;
use vstd::prelude::*;

verus! {

/// A line number, or none, as a plain value.
pub open spec fn line_of(end: Option<usize>) -> Option<nat> {
    match end {
        Some(e) => Some(e as nat),
        None => None,
    }
}

/// The index of the first line of a range that starts on line `start` of a
/// text of `n` lines: where `start` is no line of the text, the range starts
/// with the first line.
pub open spec fn first_index(n: nat, start: nat) -> int {
    if 1 <= start <= n {
        start - 1
    } else {
        0
    }
}

/// The index after the last line of a range that ends before line `end` of a
/// text of `n` lines: the range ends with the last line at the latest, and
/// there where `end` is absent.
pub open spec fn end_index(n: nat, end: Option<nat>) -> int {
    match end {
        Some(e) => if e == 0 {
            0
        } else if e - 1 <= n {
            e - 1
        } else {
            n as int
        },
        None => n as int,
    }
}

/// The lines of `c` from line `start` up to, not including, line `end`.
pub open spec fn section_lines(c: Seq<char>, start: nat, end: Option<nat>) -> Seq<Seq<char>> {
    let ls = lines(c);
    let a = first_index(ls.len(), start);
    let b = end_index(ls.len(), end);
    if a < b {
        ls.subrange(a, b)
    } else {
        Seq::empty()
    }
}

/// The text of the lines of `c` from line `start` up to, not including, line
/// `end`: these lines with `\n` between them and none at the end.
pub open spec fn section_text(c: Seq<char>, start: nat, end: Option<nat>) -> Seq<char> {
    join_lines(section_lines(c, start, end))
}

/// The line before which the intro of a section ends: the line of its first
/// subsection, or else the line on which the section ends.
pub open spec fn intro_end(first_subsection: Option<&Heading>, section_end: Option<usize>) -> Option<
    nat,
> {
    match first_subsection {
        Some(s) => Some(s.line_number as nat),
        None => line_of(section_end),
    }
}

/// Extracts the text of a section from the document.
///
/// Returns the lines from line `start` up to, not including, line `end`, or
/// to the end of the document where `end` is absent, joined by `\n`.
pub fn extract_section(content: &str, start: usize, end: Option<usize>) -> (out: String)
    ensures
        out@ == section_text(content@, start as nat, line_of(end)),
{
    let chars = chars_of(content);
    let ls = split_lines(chars.as_slice());
    let n = ls.len();
    let a: usize = if 1 <= start && start <= n {
        start - 1
    } else {
        0
    };
    let b: usize = match end {
        Some(e) => if e == 0 {
            0
        } else if e - 1 <= n {
            e - 1
        } else {
            n
        },
        None => n,
    };
    if a < b {
        join_range(&ls, a, b)
    } else {
        String::new()
    }
}

/// Extracts the intro of a section: its text up to its first subsection, or
/// the whole section where it has none.
///
/// `section_end` is the line on which the section ends.
pub fn extract_section_intro(
    content: &str,
    heading: &Heading,
    first_subsection: Option<&Heading>,
    section_end: Option<usize>,
) -> (out: String)
    ensures
        out@ == section_text(
            content@,
            heading.line_number as nat,
            intro_end(first_subsection, section_end),
        ),
{
    let end = match first_subsection {
        Some(s) => Some(s.line_number),
        None => section_end,
    };
    extract_section(content, heading.line_number, end)
}

/// The text of a range that starts on a line of `c` and ends after it, split at each `\n`, gives the lines of the range, each
/// as it stands in `c` without its terminator.
pub proof fn lemma_range_round_trip(c: Seq<char>, start: nat, end: Option<nat>)
    requires
        1 <= start <= lines(c).len(),
        end matches Some(e) ==> start < e,
    ensures
        split_newlines(section_text(c, start, end)) == lines(c).subrange(
            start - 1,
            end_index(lines(c).len(), end),
        ),
{
    let ls = lines(c);
    let part = section_lines(c, start, end);
    lemma_lines_newline_free(c);
    assert forall|i: int| 0 <= i < part.len() implies newline_free(#[trigger] part[i]) by {
        assert(part[i] == ls[start - 1 + i]);
    }
    lemma_split_of_join(part);
}

/// For every heading of the outline of `c`, the text of its section, split at each `\n`, gives the lines of `c` from the
/// line of the heading up to the line before the end of the section, or to
/// the last line where the section has no end: as many lines as the range
/// spans, each as it stands in `c` without its terminator.
pub proof fn lemma_section_round_trip(c: Seq<char>, k: int)
    requires
        0 <= k < outline(c).len(),
    ensures
        ({
            let h = outline(c)[k];
            let end = section_end(outline(c), h);
            let fields = split_newlines(section_text(c, h.line_number, end));
            &&& 1 <= h.line_number <= lines(c).len()
            &&& end matches Some(e) ==> h.line_number < e <= lines(c).len()
            &&& fields.len() == match end {
                Some(e) => e - h.line_number,
                None => lines(c).len() - h.line_number + 1,
            }
            &&& forall|i: int|
                0 <= i < fields.len() ==> #[trigger] fields[i] == lines(c)[h.line_number - 1 + i]
        }),
{
    let hs = outline(c);
    let h = hs[k];
    lemma_headings_in(lines(c), lines(c).len() as int);
    lemma_first_match(hs, closes(h.line_number, h.level));
    lemma_range_round_trip(c, h.line_number, section_end(hs, h));
}

/// The character of a decimal digit.
pub open spec fn digit_char(d: nat) -> char {
    ('0' as nat + d) as char
}

/// The decimal numeral of `n`, without leading zeros.
pub open spec fn decimal(n: nat) -> Seq<char>
    decreases n,
{
    if n < 10 {
        seq![digit_char(n)]
    } else {
        decimal(n / 10).push(digit_char(n % 10))
    }
}

/// `n` spaces.
pub open spec fn spaces(n: nat) -> Seq<char> {
    Seq::new(n, |i: int| ' ')
}

/// `s` behind as many spaces as bring it to `width` characters; `s` itself
/// where it is that long or longer.
pub open spec fn right_justified(s: Seq<char>, width: nat) -> Seq<char> {
    if s.len() >= width {
        s
    } else {
        spaces((width - s.len()) as nat) + s
    }
}

/// The outline entry of a heading: its line number, right-justified in four
/// characters, then a colon, two spaces for each level below the first, and
/// the text.
pub open spec fn outline_entry(h: HeadingView) -> Seq<char> {
    right_justified(decimal(h.line_number), 4) + seq![':'] + spaces((2 * (h.level - 1)) as nat)
        + h.text
}

/// Appends the decimal numeral of `n` to `out`.
fn push_decimal(out: &mut Vec<char>, n: usize)
    ensures
        final(out)@ == old(out)@ + decimal(n as nat),
    decreases n,
{
    if n >= 10 {
        push_decimal(out, n / 10);
    }
    let d: u8 = (n % 10) as u8;
    out.push(('0' as u8 + d) as char);
}

/// Appends `n` spaces to `out`.
fn push_spaces(out: &mut String, n: usize)
    ensures
        final(out)@ == old(out)@ + spaces(n as nat),
{
    let mut i: usize = 0;
    while i < n
        invariant
            i <= n,
            out@ == old(out)@ + spaces(i as nat),
        decreases n - i,
    {
        out.push(' ');
        assert(spaces(i as nat).push(' ') == spaces((i + 1) as nat));
        i += 1;
    }
}

/// Formats a heading as an outline entry, with its line number and an indent
/// by its level.
pub fn format_outline_entry(heading: &Heading) -> (out: String)
    requires
        heading.level >= 1,
    ensures
        out@ == outline_entry(heading@),
{
    let mut digits: Vec<char> = Vec::new();
    push_decimal(&mut digits, heading.line_number);
    let mut out = String::new();
    if digits.len() < 4 {
        push_spaces(&mut out, 4 - digits.len());
    }
    out.append(string_of(digits.as_slice()).as_str());
    out.push(':');
    let indent: usize = 2 * ((heading.level - 1) as usize);
    push_spaces(&mut out, indent);
    out.append(heading.text.as_str());
    out
}

} // verus!
