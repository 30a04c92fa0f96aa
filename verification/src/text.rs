use vstd::prelude::*;
use vstd::slice::slice_subrange;

verus! {

/// A stretch of a text: the characters from `start` up to, not including,
/// `end`.
#[derive(Clone, Copy, Debug)]
pub struct Span {
    pub start: usize,
    pub end: usize,
}

impl Span {
    /// The characters of `text` that the span covers.
    pub open spec fn of(self, text: Seq<char>) -> Seq<char> {
        text.subrange(self.start as int, self.end as int)
    }

    /// Whether the span lies within a text of `len` characters.
    pub open spec fn within(self, len: nat) -> bool {
        self.start <= self.end <= len
    }
}

/// Where `c` first occurs in `s`; the length of `s` where it does not occur.
pub open spec fn first_index_of(s: Seq<char>, c: char) -> nat
    decreases s.len(),
{
    if s.len() == 0 || s[0] == c {
        0
    } else {
        1 + first_index_of(s.drop_first(), c)
    }
}

/// A line without the carriage return that may end it.
pub open spec fn strip_cr(line: Seq<char>) -> Seq<char> {
    if line.len() > 0 && line.last() == '\r' {
        line.drop_last()
    } else {
        line
    }
}

/// The lines of a text. Each line feed ends a line, and a carriage return
/// just before it belongs to the line ending. What follows the last line
/// feed is a line too, unless it is empty.
pub open spec fn lines(s: Seq<char>) -> Seq<Seq<char>>
    decreases s.len(),
{
    let k = first_index_of(s, '\n');
    if s.len() == 0 {
        Seq::empty()
    } else if k >= s.len() {
        seq![s]
    } else {
        seq![strip_cr(s.subrange(0, k as int))] + lines(s.subrange(k as int + 1, s.len() as int))
    }
}

/// The pieces of a text between occurrences of `sep`. A text without `sep`
/// is one piece, the empty text included.
pub open spec fn fields(s: Seq<char>, sep: char) -> Seq<Seq<char>>
    decreases s.len(),
{
    let k = first_index_of(s, sep);
    if k >= s.len() {
        seq![s]
    } else {
        seq![s.subrange(0, k as int)] + fields(s.subrange(k as int + 1, s.len() as int), sep)
    }
}

/// Whether `spans` mark, one by one and in order, the `pieces` within `text`.
pub open spec fn spans_mark(text: Seq<char>, spans: Seq<Span>, pieces: Seq<Seq<char>>) -> bool {
    &&& spans.len() == pieces.len()
    &&& forall|i: int|
        0 <= i < spans.len() ==> (#[trigger] spans[i]).within(text.len()) && spans[i].of(text)
            == pieces[i]
}

/// `first_index_of` is the one position before which `c` does not occur and
/// at which it does, or the text ends.
pub proof fn lemma_first_index_of(s: Seq<char>, c: char, m: int)
    requires
        0 <= m <= s.len(),
        forall|t: int| 0 <= t < m ==> s[t] != c,
        m < s.len() ==> s[m] == c,
    ensures
        first_index_of(s, c) == m,
    decreases s.len(),
{
    if s.len() > 0 && m > 0 {
        let rest = s.drop_first();
        assert forall|t: int| 0 <= t < m - 1 implies rest[t] != c by {
            assert(rest[t] == s[t + 1]);
        }
        lemma_first_index_of(rest, c, m - 1);
    }
}

/// Lines of `least` characters or more, each, take up that many in the
/// text: the text is at least `least` times as long as it has lines.
pub proof fn lemma_long_lines(s: Seq<char>, least: nat)
    requires
        forall|i: int| 0 <= i < lines(s).len() ==> (#[trigger] lines(s)[i]).len() >= least,
    ensures
        least * lines(s).len() <= s.len(),
    decreases s.len(),
{
    let k = first_index_of(s, '\n');
    let count = lines(s).len();
    if s.len() == 0 {
        assert(least * count == 0) by (nonlinear_arith)
            requires
                count == 0,
        ;
    } else if k >= s.len() {
        assert(lines(s)[0] == s);
        assert(least * count == least) by (nonlinear_arith)
            requires
                count == 1,
        ;
    } else {
        let rest = s.subrange(k as int + 1, s.len() as int);
        let first = strip_cr(s.subrange(0, k as int));
        assert(lines(s) == seq![first] + lines(rest));
        assert(lines(s)[0] == first);
        assert forall|i: int| 0 <= i < lines(rest).len() implies (#[trigger] lines(rest)[i]).len()
            >= least by {
            assert(lines(s)[i + 1] == lines(rest)[i]);
        }
        lemma_long_lines(rest, least);
        assert(least * count == least + least * lines(rest).len()) by (nonlinear_arith)
            requires
                count == 1 + lines(rest).len(),
        ;
    }
}

/// The characters of `s`, in order.
pub fn chars_of(s: &str) -> (out: Vec<char>)
    ensures
        out@ == s@,
{
    let mut out: Vec<char> = Vec::new();
    for c in it: s.chars()
        invariant
            out@ == s@.subrange(0, it.index() as int),
            it.seq() == s@,
    {
        out.push(c);
    }
    out
}

/// The position of the first `c` in `text` at or after `from`; the length
/// of `text` where there is none.
pub fn find_from(text: &[char], from: usize, c: char) -> (at: usize)
    requires
        from <= text@.len(),
    ensures
        from <= at <= text@.len(),
        at - from == first_index_of(text@.subrange(from as int, text@.len() as int), c),
{
    let n: usize = text.len();
    let mut at: usize = from;
    while at < n && text[at] != c
        invariant
            n == text@.len(),
            from <= at <= n,
            forall|t: int| from <= t < at ==> text@[t] != c,
        decreases n - at,
    {
        at = at + 1;
    }
    proof {
        lemma_first_index_of(text@.subrange(from as int, n as int), c, at - from);
    }
    at
}

/// Marks the lines of `text`.
pub fn line_spans(text: &[char]) -> (out: Vec<Span>)
    ensures
        spans_mark(text@, out@, lines(text@)),
{
    let n: usize = text.len();
    let mut out: Vec<Span> = Vec::new();
    let ghost mut done: Seq<Seq<char>> = Seq::empty();
    let mut pos: usize = 0;
    proof {
        assert(text@.subrange(0, n as int) =~= text@);
        assert(done + lines(text@) =~= lines(text@));
    }
    while pos < n
        invariant
            n == text@.len(),
            pos <= n,
            spans_mark(text@, out@, done),
            lines(text@) == done + lines(text@.subrange(pos as int, n as int)),
        decreases n - pos,
    {
        let ghost tail = text@.subrange(pos as int, n as int);
        let stop: usize = find_from(text, pos, '\n');
        let end: usize = if stop < n && stop > pos && text[stop - 1] == '\r' {
            stop - 1
        } else {
            stop
        };
        let span = Span { start: pos, end };
        let ghost piece = span.of(text@);
        proof {
            if stop < n {
                assert(tail.subrange(0, stop - pos) =~= text@.subrange(pos as int, stop as int));
                assert(piece =~= strip_cr(tail.subrange(0, stop - pos)));
                assert(tail.subrange(stop - pos + 1, tail.len() as int) =~= text@.subrange(
                    stop + 1,
                    n as int,
                ));
                assert(lines(tail) == seq![piece] + lines(text@.subrange(stop + 1, n as int)));
            } else {
                assert(piece =~= tail);
                assert(lines(tail) == seq![piece]);
                assert(text@.subrange(n as int, n as int) =~= Seq::<char>::empty());
                assert(lines(tail) =~= seq![piece] + lines(text@.subrange(n as int, n as int)));
            }
        }
        out.push(span);
        proof {
            let next: int = if stop < n { stop + 1 } else { n as int };
            assert(done + (seq![piece] + lines(text@.subrange(next, n as int))) =~= done.push(piece)
                + lines(text@.subrange(next, n as int)));
            done = done.push(piece);
        }
        pos = if stop < n { stop + 1 } else { n };
    }
    proof {
        assert(text@.subrange(n as int, n as int) =~= Seq::<char>::empty());
        assert(lines(text@) =~= done);
    }
    out
}

/// Marks the pieces of `text` between occurrences of `sep`.
pub fn field_spans(text: &[char], sep: char) -> (out: Vec<Span>)
    ensures
        spans_mark(text@, out@, fields(text@, sep)),
{
    let n: usize = text.len();
    let mut out: Vec<Span> = Vec::new();
    let ghost mut done: Seq<Seq<char>> = Seq::empty();
    let mut pos: usize = 0;
    proof {
        assert(text@.subrange(0, n as int) =~= text@);
        assert(done + fields(text@, sep) =~= fields(text@, sep));
    }
    loop
        invariant_except_break
            n == text@.len(),
            pos <= n,
            spans_mark(text@, out@, done),
            fields(text@, sep) == done + fields(text@.subrange(pos as int, n as int), sep),
        ensures
            spans_mark(text@, out@, fields(text@, sep)),
        decreases n - pos,
    {
        let ghost tail = text@.subrange(pos as int, n as int);
        let stop: usize = find_from(text, pos, sep);
        let span = Span { start: pos, end: stop };
        let ghost piece = span.of(text@);
        out.push(span);
        if stop >= n {
            proof {
                assert(piece =~= tail);
                assert(fields(text@, sep) =~= done.push(piece));
            }
            break;
        }
        proof {
            assert(tail.subrange(0, stop - pos) =~= piece);
            assert(tail.subrange(stop - pos + 1, tail.len() as int) =~= text@.subrange(
                stop + 1,
                n as int,
            ));
            let rest = fields(text@.subrange(stop + 1, n as int), sep);
            assert(fields(tail, sep) == seq![piece] + rest);
            assert(done + (seq![piece] + rest) =~= done.push(piece) + rest);
            done = done.push(piece);
        }
        pos = stop + 1;
    }
    out
}

/// The characters of `text` that `span` covers.
pub fn span_slice<'a>(text: &'a [char], span: &Span) -> (out: &'a [char])
    requires
        span.within(text@.len()),
    ensures
        out@ == span.of(text@),
{
    slice_subrange(text, span.start, span.end)
}

} // verus!
