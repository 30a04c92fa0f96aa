use crate::decimal::{
    digits_of, is_digit, lemma_render_nat_digits, parse_i64, parse_i64_spec,
    render_int, render_nat,
};
use crate::text::{chars_of, field_spans, fields, find_from, first_index_of, span_slice, spans_mark};
use vstd::prelude::*;
use vstd::slice::slice_subrange;
use vstd::string::{StrSliceExecFns, StringExecFns};

verus! {

/// An inclusive range of identifiers, from `start` up to `end`. Where
/// `start` is above `end` the range holds nothing.
#[derive(Clone, Copy, Debug, PartialEq, Eq, Structural)]
pub struct IdRange {
    pub start: i64,
    pub end: i64,
}

/// A piece of text that is no range. It holds the piece as it was read.
#[derive(Debug)]
pub struct ParseError(pub String);

/// Whether the first `k` characters of `s` come again right behind
/// themselves, `k` being at least one and at most half the length of `s`.
pub open spec fn repeats_at(s: Seq<char>, k: int) -> bool {
    &&& 1 <= k
    &&& 2 * k <= s.len()
    &&& s.subrange(0, k) == s.subrange(k, 2 * k)
}

/// Whether `s` starts with some block of characters written twice in a row.
/// Only the start of `s` is looked at: what follows the two blocks is free.
pub open spec fn is_invalid(s: Seq<char>) -> bool {
    exists|k: int| repeats_at(s, k)
}

/// What an identifier adds to a sum of invalid ones: itself where its
/// decimal form is invalid, nothing otherwise.
pub open spec fn id_weight(id: int) -> int {
    if is_invalid(render_int(id)) {
        id
    } else {
        0
    }
}

/// The sum of the invalid identifiers from `start` up to `end`, both
/// included.
pub open spec fn invalid_sum_between(start: int, end: int) -> int
    decreases end - start + 1,
{
    if start > end {
        0
    } else {
        invalid_sum_between(start, end - 1) + id_weight(end)
    }
}

impl IdRange {
    /// The sum of the invalid identifiers of the range.
    pub open spec fn spec_invalid_sum(self) -> int {
        invalid_sum_between(self.start as int, self.end as int)
    }
}

/// The sum of the invalid identifiers of all of `ranges`.
pub open spec fn total_invalid(ranges: Seq<IdRange>) -> int
    decreases ranges.len(),
{
    if ranges.len() == 0 {
        0
    } else {
        total_invalid(ranges.drop_last()) + ranges.last().spec_invalid_sum()
    }
}

/// The range that `s` denotes: two decimal integers with a `-` between
/// them, the first `-` of `s` being the one that separates. `None` for
/// every other text.
pub open spec fn parse_range(s: Seq<char>) -> Option<IdRange> {
    let k = first_index_of(s, '-') as int;
    if k >= s.len() {
        None
    } else {
        match (parse_i64_spec(s.subrange(0, k)), parse_i64_spec(s.subrange(k + 1, s.len() as int))) {
            (Some(start), Some(end)) => Some(IdRange { start, end }),
            _ => None,
        }
    }
}

/// Whether every one of `pieces` denotes a range.
pub open spec fn all_ranges(pieces: Seq<Seq<char>>) -> bool {
    forall|i: int| 0 <= i < pieces.len() ==> parse_range(#[trigger] pieces[i]) is Some
}

/// The ranges that `pieces` denote, one by one.
pub open spec fn ranges_of(pieces: Seq<Seq<char>>) -> Seq<IdRange> {
    Seq::new(pieces.len(), |i: int| parse_range(pieces[i]).unwrap())
}

/// Whether `k` is the first of `pieces` that denotes no range.
pub open spec fn first_bad_range(pieces: Seq<Seq<char>>, k: int) -> bool {
    &&& 0 <= k < pieces.len()
    &&& parse_range(pieces[k]) is None
    &&& forall|j: int| 0 <= j < k ==> parse_range(#[trigger] pieces[j]) is Some
}

/// A text of one character is never invalid: there is no room for a block
/// and its repetition.
pub proof fn lemma_single_char_valid(s: Seq<char>)
    requires
        s.len() <= 1,
    ensures
        !is_invalid(s),
{
}

/// A block written twice in a row makes an invalid text, whatever follows.
pub proof fn lemma_repeated_block_invalid(block: Seq<char>, rest: Seq<char>)
    requires
        block.len() >= 1,
    ensures
        is_invalid(block + block + rest),
{
    let s = block + block + rest;
    let k = block.len() as int;
    assert(s.subrange(0, k) =~= block);
    assert(s.subrange(k, 2 * k) =~= block);
    assert(repeats_at(s, k));
}

/// A range that holds nothing sums to 0, and a range of one identifier to
/// that identifier where it is invalid, to 0 where it is not.
pub proof fn lemma_invalid_sum_small_ranges(start: int, end: int)
    ensures
        start > end ==> invalid_sum_between(start, end) == 0,
        start == end ==> invalid_sum_between(start, end) == id_weight(start),
{
    if start == end {
        assert(invalid_sum_between(start, end - 1) == 0);
    }
}

/// No negative number is invalid: its sign stands at the start only.
pub proof fn lemma_negative_is_valid(id: int)
    requires
        id < 0,
    ensures
        !is_invalid(render_int(id)),
        id_weight(id) == 0,
{
    let s = render_int(id);
    let body = render_nat((-id) as nat);
    lemma_render_nat_digits((-id) as nat);
    assert forall|k: int| !repeats_at(s, k) by {
        if repeats_at(s, k) {
            assert(s.subrange(0, k)[0] == s[0]);
            assert(s.subrange(k, 2 * k)[0] == s[k]);
            assert(s[k] == body[k - 1]);
            assert(is_digit(body[k - 1]));
        }
    }
}

/// An identifier adds nothing negative to the sum.
pub proof fn lemma_id_weight_nonnegative(id: int)
    ensures
        id_weight(id) >= 0,
{
    if id < 0 {
        lemma_negative_is_valid(id);
    }
}

/// The sum over a range grows with the range: cut short at `mid`, it is
/// neither negative nor more than the whole.
pub proof fn lemma_invalid_sum_monotonic(start: int, mid: int, end: int)
    requires
        mid <= end,
    ensures
        0 <= invalid_sum_between(start, mid) <= invalid_sum_between(start, end),
    decreases end - mid, end - start + 1,
{
    if mid < end {
        lemma_invalid_sum_monotonic(start, mid, end - 1);
        lemma_id_weight_nonnegative(end);
        if start > end {
        }
    } else if start <= end {
        lemma_invalid_sum_monotonic(start, end - 1, end - 1);
        lemma_id_weight_nonnegative(end);
    }
}

/// The sum of all ranges is neither negative nor less than the sum of any
/// first few of them.
pub proof fn lemma_total_invalid_monotonic(ranges: Seq<IdRange>, count: int)
    requires
        0 <= count <= ranges.len(),
    ensures
        0 <= total_invalid(ranges.subrange(0, count)) <= total_invalid(ranges),
    decreases ranges.len() - count,
{
    if count == ranges.len() {
        assert(ranges.subrange(0, count) =~= ranges);
        lemma_total_invalid_nonnegative(ranges);
    } else {
        let shorter = ranges.drop_last();
        assert(shorter.subrange(0, count) =~= ranges.subrange(0, count));
        lemma_total_invalid_monotonic(shorter, count);
        let last = ranges.last();
        lemma_invalid_sum_monotonic(last.start as int, last.end as int, last.end as int);
    }
}

/// The sum of all ranges is not negative.
pub proof fn lemma_total_invalid_nonnegative(ranges: Seq<IdRange>)
    ensures
        total_invalid(ranges) >= 0,
    decreases ranges.len(),
{
    if ranges.len() > 0 {
        lemma_total_invalid_nonnegative(ranges.drop_last());
        let last = ranges.last();
        lemma_invalid_sum_monotonic(last.start as int, last.end as int, last.end as int);
    }
}

/// Whether the first `size` characters of `text` are the same as the next
/// `size`.
fn block_repeats(text: &[char], size: usize) -> (out: bool)
    requires
        1 <= size,
        2 * size <= text@.len(),
    ensures
        out == repeats_at(text@, size as int),
{
    let mut i: usize = 0;
    while i < size
        invariant
            i <= size,
            2 * size <= text@.len(),
            forall|j: int| 0 <= j < i ==> #[trigger] text@[j] == text@[size + j],
        decreases size - i,
    {
        if text[i] != text[size + i] {
            assert(text@.subrange(0, size as int)[i as int] != text@.subrange(
                size as int,
                2 * size,
            )[i as int]);
            return false;
        }
        i = i + 1;
    }
    assert(text@.subrange(0, size as int) =~= text@.subrange(size as int, 2 * size));
    true
}

/// Whether `text` starts with some block written twice in a row.
pub fn has_repeated_block(text: &[char]) -> (out: bool)
    ensures
        out == is_invalid(text@),
{
    let half: usize = text.len() / 2;
    let mut size: usize = 1;
    while size <= half
        invariant
            half == text@.len() / 2,
            text@.len() <= usize::MAX,
            1 <= size <= half + 1,
            forall|k: int| 1 <= k < size ==> !repeats_at(text@, k),
        decreases half + 1 - size,
    {
        if block_repeats(text, size) {
            return true;
        }
        size = size + 1;
    }
    assert forall|k: int| !repeats_at(text@, k) by {
        if k >= size {
            assert(2 * k > text@.len());
        }
    }
    false
}

/// Whether the identifier written as `s` is invalid: whether `s` starts
/// with some block written twice in a row.
pub fn is_invalid_id(s: &str) -> (out: bool)
    requires
        s@.len() > 0,
    ensures
        out == is_invalid(s@),
{
    let text = chars_of(s);
    has_repeated_block(text.as_slice())
}

impl IdRange {
    /// The range from `start` up to `end`, both included.
    pub fn new(start: i64, end: i64) -> (out: IdRange)
        ensures
            out == (IdRange { start, end }),
    {
        IdRange { start, end }
    }

    /// Adds up the invalid identifiers of the range, as far as a signed
    /// 64-bit integer can hold the sum: `None` where it cannot.
    pub fn checked_invalid_sum(&self) -> (out: Option<i64>)
        ensures
            match out {
                Some(sum) => sum == self.spec_invalid_sum(),
                None => self.spec_invalid_sum() > i64::MAX,
            },
    {
        let start: i64 = self.start;
        let end: i64 = self.end;
        if start > end {
            return Some(0);
        }
        let mut sum: i64 = 0;
        let mut id: i64 = start;
        loop
            invariant_except_break
                start == self.start,
                end == self.end,
                start <= id <= end,
                0 <= sum == invalid_sum_between(start as int, id - 1),
            ensures
                sum == invalid_sum_between(start as int, end as int),
            decreases end - id,
        {
            proof {
                lemma_invalid_sum_monotonic(start as int, id as int, end as int);
                lemma_id_weight_nonnegative(id as int);
            }
            let digits = digits_of(id);
            if has_repeated_block(digits.as_slice()) {
                if id > i64::MAX - sum {
                    return None;
                }
                sum = sum + id;
            }
            if id == end {
                break;
            }
            id = id + 1;
        }
        Some(sum)
    }

    /// Adds up the invalid identifiers of the range. An empty range gives
    /// 0; a range of one identifier gives that identifier or 0.
    pub fn invalid_sum(&self) -> (out: i64)
        requires
            self.spec_invalid_sum() <= i64::MAX,
        ensures
            out == self.spec_invalid_sum(),
            self.start > self.end ==> out == 0,
            self.start == self.end ==> out == id_weight(self.start as int),
    {
        proof {
            lemma_invalid_sum_small_ranges(self.start as int, self.end as int);
        }
        self.checked_invalid_sum().unwrap()
    }

    /// Reads a range from one piece of text: two decimal integers with a
    /// `-` between them. Any other piece comes back in the error, as it was
    /// given.
    pub fn from_chars(text: &[char]) -> (out: Option<IdRange>)
        ensures
            out == parse_range(text@),
    {
        let n: usize = text.len();
        let dash: usize = find_from(text, 0, '-');
        assert(text@.subrange(0, n as int) =~= text@);
        if dash >= n {
            return None;
        }
        let first = parse_i64(slice_subrange(text, 0, dash));
        let second = parse_i64(slice_subrange(text, dash + 1, n));
        match (first, second) {
            (Some(start), Some(end)) => Some(IdRange { start, end }),
            _ => None,
        }
    }

    /// Reads a range from one piece of text: two decimal integers with a
    /// `-` between them. Any other piece comes back in the error, as it was
    /// given.
    pub fn from_str(s: &str) -> (out: Result<IdRange, ParseError>)
        ensures
            match out {
                Ok(r) => parse_range(s@) == Some(r),
                Err(e) => parse_range(s@) is None && e.0@ == s@,
            },
    {
        let text = chars_of(s);
        match IdRange::from_chars(text.as_slice()) {
            Some(r) => Ok(r),
            None => Err(ParseError(s.to_owned())),
        }
    }
}

/// Reads one range from each piece of `file` between commas. The first
/// piece that is no range ends the reading and comes back in the error.
pub fn parse_input(file: &str) -> (out: Result<Vec<IdRange>, ParseError>)
    ensures
        match out {
            Ok(v) => all_ranges(fields(file@, ',')) && v@ == ranges_of(fields(file@, ',')),
            Err(e) => exists|k: int| #[trigger]
                first_bad_range(fields(file@, ','), k) && e.0@ == fields(file@, ',')[k],
        },
{
    let text = chars_of(file);
    let spans = field_spans(text.as_slice(), ',');
    let ghost pieces = fields(file@, ',');
    let mut out: Vec<IdRange> = Vec::new();
    let mut i: usize = 0;
    while i < spans.len()
        invariant
            text@ == file@,
            pieces == fields(file@, ','),
            spans_mark(text@, spans@, pieces),
            i <= spans@.len(),
            out@.len() == i,
            forall|j: int| 0 <= j < i ==> parse_range(#[trigger] pieces[j]) == Some(out@[j]),
        decreases spans@.len() - i,
    {
        let span = spans[i];
        assert(span.within(text@.len()) && span.of(text@) == pieces[i as int]);
        match IdRange::from_chars(span_slice(text.as_slice(), &span)) {
            Some(r) => {
                out.push(r);
            },
            None => {
                let piece = file.substring_char(span.start, span.end);
                assert(first_bad_range(pieces, i as int));
                return Err(ParseError(piece.to_owned()));
            },
        }
        i = i + 1;
    }
    assert(out@ =~= ranges_of(pieces));
    Ok(out)
}

/// Adds up the invalid identifiers of all of `ranges`, as far as a signed
/// 64-bit integer can hold the sum: `None` where it cannot.
pub fn checked_total_invalid_ids(ranges: &[IdRange]) -> (out: Option<i64>)
    ensures
        match out {
            Some(total) => total == total_invalid(ranges@),
            None => total_invalid(ranges@) > i64::MAX,
        },
{
    let n: usize = ranges.len();
    let mut total: i64 = 0;
    let mut i: usize = 0;
    assert(ranges@.subrange(0, 0) =~= Seq::<IdRange>::empty());
    while i < n
        invariant
            n == ranges@.len(),
            i <= n,
            0 <= total == total_invalid(ranges@.subrange(0, i as int)),
        decreases n - i,
    {
        let ghost grown = ranges@.subrange(0, i + 1);
        proof {
            assert(grown.drop_last() =~= ranges@.subrange(0, i as int));
            assert(grown.last() == ranges@[i as int]);
            lemma_total_invalid_monotonic(ranges@, i + 1);
            lemma_total_invalid_nonnegative(grown);
        }
        match ranges[i].checked_invalid_sum() {
            Some(sum) => {
                if sum > i64::MAX - total {
                    return None;
                }
                total = total + sum;
            },
            None => {
                return None;
            },
        }
        i = i + 1;
    }
    assert(ranges@.subrange(0, n as int) =~= ranges@);
    Some(total)
}

/// Adds up the invalid identifiers of all of `input`.
pub fn total_count_invalid_ids(input: Vec<IdRange>) -> (out: i64)
    requires
        total_invalid(input@) <= i64::MAX,
    ensures
        out == total_invalid(input@),
{
    checked_total_invalid_ids(input.as_slice()).unwrap()
}

impl ParseError {
    /// What went wrong, for a reader: the piece that was refused, after a
    /// few words that say what was expected.
    pub fn message(&self) -> (out: String)
        ensures
            out@ == "not a correct ID range format "@ + self.0@,
    {
        let mut out = "not a correct ID range format ".to_owned();
        out.append(self.0.as_str());
        out
    }
}

impl core::str::FromStr for IdRange {
    type Err = ParseError;

    /// Reads a range from one piece of text, as the method `from_str` of the
    /// type itself does: any piece that is no range comes back in the error.
    fn from_str(s: &str) -> (out: Result<Self, ParseError>)
        ensures
            match out {
                Ok(r) => parse_range(s@) == Some(r),
                Err(e) => parse_range(s@) is None && e.0@ == s@,
            },
    {
        IdRange::from_str(s)
    }
}

} // verus!
