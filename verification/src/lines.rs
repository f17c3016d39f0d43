//! Lines of a text: splitting at line terminators and joining with `\n`.

use crate::chars::{lemma_prefix_len_bounds, lemma_prefix_len_is, prefix_len};
use vstd::prelude::*;

verus! {

/// The predicate "is not the character `x`".
pub open spec fn other_than(x: char) -> spec_fn(char) -> bool {
    |c: char| c != x
}

/// `l` without one carriage return at its end, if it has one.
pub open spec fn strip_cr(l: Seq<char>) -> Seq<char> {
    if l.len() > 0 && l.last() == '\r' {
        l.drop_last()
    } else {
        l
    }
}

/// The lines of `c`. A line ends at `\n`, or at `\r\n`, or at the end of
/// the text; the terminator is not part of the line, and a terminator at the
/// end of the text starts no further line.
pub open spec fn lines(c: Seq<char>) -> Seq<Seq<char>>
    decreases c.len(),
{
    let k = prefix_len(c, other_than('\n')) as int;
    if c.len() == 0 {
        Seq::empty()
    } else if k >= c.len() {
        seq![c]
    } else {
        seq![strip_cr(c.take(k))] + lines(c.skip(k + 1))
    }
}

/// The fields of `s` that `\n` separates: one more than `s` has `\n`.
pub open spec fn split_newlines(s: Seq<char>) -> Seq<Seq<char>>
    decreases s.len(),
{
    let k = prefix_len(s, other_than('\n')) as int;
    if k >= s.len() {
        seq![s]
    } else {
        seq![s.take(k)] + split_newlines(s.skip(k + 1))
    }
}

/// The lines `ls` with `\n` between each two neighbours.
pub open spec fn join_lines(ls: Seq<Seq<char>>) -> Seq<char>
    decreases ls.len(),
{
    if ls.len() == 0 {
        Seq::empty()
    } else if ls.len() == 1 {
        ls[0]
    } else {
        join_lines(ls.drop_last()) + seq!['\n'] + ls.last()
    }
}

/// No character of `l` is `\n`.
pub open spec fn newline_free(l: Seq<char>) -> bool {
    forall|i: int| 0 <= i < l.len() ==> #[trigger] l[i] != '\n'
}

/// No line of a text holds a `\n`.
pub proof fn lemma_lines_newline_free(c: Seq<char>)
    ensures
        forall|i: int| 0 <= i < lines(c).len() ==> newline_free(#[trigger] lines(c)[i]),
    decreases c.len(),
{
    let p = other_than('\n');
    let k = prefix_len(c, p) as int;
    lemma_prefix_len_bounds(c, p);
    if c.len() == 0 {
    } else if k >= c.len() {
        assert(newline_free(c)) by {
            assert forall|i: int| 0 <= i < c.len() implies #[trigger] c[i] != '\n' by {
                assert(p(c[i]));
            }
        }
    } else {
        let head = strip_cr(c.take(k));
        let tail = lines(c.skip(k + 1));
        lemma_lines_newline_free(c.skip(k + 1));
        assert(newline_free(head)) by {
            assert forall|i: int| 0 <= i < head.len() implies #[trigger] head[i] != '\n' by {
                assert(head[i] == c[i]);
                assert(p(c[i]));
            }
        }
        assert forall|i: int| 0 <= i < lines(c).len() implies newline_free(
            #[trigger] lines(c)[i],
        ) by {
            if i > 0 {
                assert(lines(c)[i] == tail[i - 1]);
            }
        }
    }
}

/// A text without `\n` is one field.
pub proof fn lemma_split_newline_free(b: Seq<char>)
    requires
        newline_free(b),
    ensures
        split_newlines(b) == seq![b],
{
    assert forall|i: int| 0 <= i < b.len() implies other_than('\n')(#[trigger] b[i]) by {}
    lemma_prefix_len_is(b, other_than('\n'), b.len() as int);
}

/// A `\n` and a text without `\n`, appended to `a`, add that text as one
/// more field.
pub proof fn lemma_split_append(a: Seq<char>, b: Seq<char>)
    requires
        newline_free(b),
    ensures
        split_newlines(a + seq!['\n'] + b) == split_newlines(a).push(b),
    decreases a.len(),
{
    let p = other_than('\n');
    let s = a + seq!['\n'] + b;
    let k = prefix_len(a, p) as int;
    lemma_prefix_len_bounds(a, p);
    assert forall|i: int| 0 <= i < k implies p(#[trigger] s[i]) by {
        assert(s[i] == a[i]);
    }
    assert(!p(s[k])) by {
        if k < a.len() {
            assert(s[k] == a[k]);
        } else {
            assert(s[k] == '\n');
        }
    }
    lemma_prefix_len_is(s, p, k);
    assert(s.take(k) == a.take(k));
    if k < a.len() {
        let rest = a.skip(k + 1);
        assert(s.skip(k + 1) == rest + seq!['\n'] + b);
        lemma_split_append(rest, b);
        assert(split_newlines(s) == seq![a.take(k)] + split_newlines(rest).push(b));
        assert(split_newlines(a) == seq![a.take(k)] + split_newlines(rest));
    } else {
        assert(a.take(k) == a);
        assert(s.skip(k + 1) == b);
        lemma_split_newline_free(b);
        assert(split_newlines(a) == seq![a]);
        assert(seq![a] + seq![b] == seq![a].push(b));
    }
}

/// Joining one or more lines that hold no `\n`, and splitting the result at
/// each `\n`, gives the same lines back.
pub proof fn lemma_split_of_join(ls: Seq<Seq<char>>)
    requires
        ls.len() >= 1,
        forall|i: int| 0 <= i < ls.len() ==> newline_free(#[trigger] ls[i]),
    ensures
        split_newlines(join_lines(ls)) == ls,
    decreases ls.len(),
{
    if ls.len() == 1 {
        lemma_split_newline_free(ls[0]);
        assert(seq![ls[0]] == ls);
    } else {
        let init = ls.drop_last();
        assert forall|i: int| 0 <= i < init.len() implies newline_free(#[trigger] init[i]) by {
            assert(init[i] == ls[i]);
        }
        lemma_split_of_join(init);
        lemma_split_append(join_lines(init), ls.last());
        assert(init.push(ls.last()) == ls);
    }
}

/// What each slice of `v` holds.
pub open spec fn contents(v: Seq<&[char]>) -> Seq<Seq<char>> {
    Seq::new(v.len(), |i: int| v[i]@)
}

/// The slice `l` without one carriage return at its end, if it has one.
fn without_cr(l: &[char]) -> (out: &[char])
    ensures
        out@ == strip_cr(l@),
{
    let n = l.len();
    if n > 0 && l[n - 1] == '\r' {
        &l[0..n - 1]
    } else {
        l
    }
}

/// Splits `c` into its lines.
pub fn split_lines(c: &[char]) -> (out: Vec<&[char]>)
    ensures
        contents(out@) == lines(c@),
{
    let n = c.len();
    let mut out: Vec<&[char]> = Vec::new();
    let mut start: usize = 0;
    assert(c@.skip(0) == c@);
    while start < n
        invariant
            n == c.len(),
            start <= n,
            lines(c@) == contents(out@) + lines(c@.skip(start as int)),
        decreases n - start,
    {
        let mut end: usize = start;
        while end < n && c[end] != '\n'
            invariant
                n == c.len(),
                start <= end <= n,
                forall|j: int| start <= j < end ==> #[trigger] c@[j] != '\n',
            decreases n - end,
        {
            end += 1;
        }
        let ghost rest = c@.skip(start as int);
        let ghost before = contents(out@);
        proof {
            assert forall|i: int| 0 <= i < end - start implies other_than('\n')(
                #[trigger] rest[i],
            ) by {
                assert(rest[i] == c@[start + i]);
            }
            lemma_prefix_len_is(rest, other_than('\n'), end - start);
        }
        if end == n {
            out.push(&c[start..end]);
            proof {
                assert(c@.subrange(start as int, end as int) == rest);
                assert(lines(rest) == seq![rest]);
                assert(lines(c@.skip(n as int)) == Seq::<Seq<char>>::empty());
                assert(contents(out@) == before + seq![rest]);
            }
            start = n;
        } else {
            let line = without_cr(&c[start..end]);
            out.push(line);
            proof {
                assert(c@.subrange(start as int, end as int) == rest.take(end - start));
                assert(rest.skip(end - start + 1) == c@.skip(end + 1));
                assert(lines(rest) == seq![line@] + lines(c@.skip(end + 1)));
                assert(contents(out@) == before + seq![line@]);
            }
            start = end + 1;
        }
    }
    assert(lines(c@.skip(n as int)) == Seq::<Seq<char>>::empty());
    out
}

/// The lines of `ls` from index `from` up to, not including, index `to`,
/// joined by `\n`.
pub fn join_range(ls: &Vec<&[char]>, from: usize, to: usize) -> (out: String)
    requires
        from <= to <= ls.len(),
    ensures
        out@ == join_lines(contents(ls@).subrange(from as int, to as int)),
{
    let ghost all = contents(ls@);
    let mut out = String::new();
    let mut i: usize = from;
    assert(all.subrange(from as int, from as int) == Seq::<Seq<char>>::empty());
    while i < to
        invariant
            from <= i <= to <= ls.len(),
            all == contents(ls@),
            out@ == join_lines(all.subrange(from as int, i as int)),
        decreases to - i,
    {
        let ghost before = out@;
        if i > from {
            out.push('\n');
        }
        let line = ls[i];
        let mut j: usize = 0;
        while j < line.len()
            invariant
                j <= line.len(),
                out@ == (if i > from {
                    before + seq!['\n']
                } else {
                    before
                }) + line@.take(j as int),
            decreases line.len() - j,
        {
            out.push(line[j]);
            j += 1;
        }
        proof {
            let next = all.subrange(from as int, i + 1);
            assert(line@.take(line.len() as int) == line@);
            assert(next.drop_last() == all.subrange(from as int, i as int));
            assert(next.last() == line@);
        }
        i += 1;
    }
    out
}

} // verus!
