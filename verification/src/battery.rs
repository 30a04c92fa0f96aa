use crate::decimal::{
    all_digits, digit_value, digits_value, is_digit, lemma_render_nat_digits, parse_int,
    render_nat, unsigned_part,
};
use crate::text::{chars_of, line_spans, lines, span_slice, spans_mark};
use vstd::prelude::*;
use vstd::string::{StrSliceExecFns, StringExecFns};

verus! {

/// A bank of batteries: one decimal digit for each battery, in the order
/// in which they stand.
#[derive(Debug)]
pub struct BatteryBank {
    digits: Vec<u8>,
}

/// A line that is no bank. It holds the line as it was read.
#[derive(Debug)]
pub struct ParseError(pub String);

/// Whether every entry of `digits` is a decimal digit, 0 to 9.
pub open spec fn is_bank(digits: Seq<u8>) -> bool {
    forall|i: int| 0 <= i < digits.len() ==> #[trigger] digits[i] < 10
}

/// The number written by the digit at `i` followed by the digit at `j`.
pub open spec fn pair_value(digits: Seq<u8>, i: int, j: int) -> int {
    10 * digits[i] + digits[j]
}

/// Whether `v` is the joltage of `digits`: the largest number that two of
/// the digits write, the earlier one first. With fewer than two digits
/// there is no pair, and the joltage is 0.
pub open spec fn is_max_joltage(digits: Seq<u8>, v: int) -> bool {
    if digits.len() < 2 {
        v == 0
    } else {
        &&& exists|i: int, j: int|
            0 <= i < j < digits.len() && #[trigger] pair_value(digits, i, j) == v
        &&& forall|i: int, j: int|
            0 <= i < j < digits.len() ==> #[trigger] pair_value(digits, i, j) <= v
    }
}

/// The joltage of `digits`.
pub open spec fn max_joltage(digits: Seq<u8>) -> int {
    choose|v: int| is_max_joltage(digits, v)
}

impl View for BatteryBank {
    type V = Seq<u8>;

    closed spec fn view(&self) -> Seq<u8> {
        self.digits@
    }
}

impl BatteryBank {
    #[verifier::type_invariant]
    spec fn holds_digits(self) -> bool {
        is_bank(self.digits@)
    }
}

/// The joltage of all of `banks` together.
pub open spec fn total_joltage(banks: Seq<BatteryBank>) -> int
    decreases banks.len(),
{
    if banks.len() == 0 {
        0
    } else {
        total_joltage(banks.drop_last()) + max_joltage(banks.last()@)
    }
}

/// The digits that `s` denotes, one for each character. `None` where a
/// character of `s` is no decimal digit.
pub open spec fn parse_bank(s: Seq<char>) -> Option<Seq<u8>> {
    if all_digits(s) {
        Some(Seq::new(s.len(), |i: int| digit_value(s[i]) as u8))
    } else {
        None
    }
}

/// Whether every one of `pieces` denotes a bank.
pub open spec fn all_banks(pieces: Seq<Seq<char>>) -> bool {
    forall|i: int| 0 <= i < pieces.len() ==> parse_bank(#[trigger] pieces[i]) is Some
}

/// Whether `banks` are what `pieces` denote, one by one.
pub open spec fn banks_of(pieces: Seq<Seq<char>>, banks: Seq<BatteryBank>) -> bool {
    &&& banks.len() == pieces.len()
    &&& forall|i: int|
        0 <= i < pieces.len() ==> parse_bank(#[trigger] pieces[i]) == Some(banks[i]@)
}

/// Whether `k` is the first of `pieces` that denotes no bank.
pub open spec fn first_bad_bank(pieces: Seq<Seq<char>>, k: int) -> bool {
    &&& 0 <= k < pieces.len()
    &&& parse_bank(pieces[k]) is None
    &&& forall|j: int| 0 <= j < k ==> parse_bank(#[trigger] pieces[j]) is Some
}

/// There is one joltage only: a value that is the joltage of `digits` is
/// `max_joltage(digits)`.
pub proof fn lemma_max_joltage_unique(digits: Seq<u8>, v: int)
    requires
        is_max_joltage(digits, v),
    ensures
        max_joltage(digits) == v,
{
    let w = max_joltage(digits);
    assert(is_max_joltage(digits, w));
    if digits.len() >= 2 {
        let (i, j) = choose|i: int, j: int|
            0 <= i < j < digits.len() && #[trigger] pair_value(digits, i, j) == v;
        let (a, b) = choose|a: int, b: int|
            0 <= a < b < digits.len() && #[trigger] pair_value(digits, a, b) == w;
        assert(pair_value(digits, i, j) <= w);
        assert(pair_value(digits, a, b) <= v);
    }
}

/// A bank with no battery or with one only has joltage 0.
pub proof fn lemma_short_bank_joltage(digits: Seq<u8>)
    requires
        digits.len() < 2,
    ensures
        max_joltage(digits) == 0,
{
    lemma_max_joltage_unique(digits, 0);
}

/// The number that two digits write is the one read from their decimal
/// forms set side by side.
pub proof fn lemma_pair_value_is_concatenation(digits: Seq<u8>, i: int, j: int)
    requires
        is_bank(digits),
        0 <= i < digits.len(),
        0 <= j < digits.len(),
    ensures
        parse_int(render_nat(digits[i] as nat) + render_nat(digits[j] as nat)) == Some(
            pair_value(digits, i, j),
        ),
{
    let joined = render_nat(digits[i] as nat) + render_nat(digits[j] as nat);
    lemma_render_nat_digits(digits[i] as nat);
    lemma_render_nat_digits(digits[j] as nat);
    assert(joined.len() == 2);
    assert(joined.drop_last() =~= render_nat(digits[i] as nat));
    assert(joined.last() == render_nat(digits[j] as nat)[0]);
    assert(render_nat(digits[j] as nat).drop_last() =~= Seq::<char>::empty());
    assert(digits_value(render_nat(digits[j] as nat)) == digit_value(joined.last()));
    assert(unsigned_part(joined) == joined);
    assert(all_digits(joined));
}

/// A joltage is never negative.
pub proof fn lemma_max_joltage_nonnegative(digits: Seq<u8>)
    ensures
        max_joltage(digits) >= 0,
{
    if digits.len() < 2 {
        lemma_short_bank_joltage(digits);
    } else {
        let lowest = pair_value(digits, 0, 1);
        let best = joltage_exists(digits);
        lemma_max_joltage_unique(digits, best);
        assert(lowest <= best);
    }
}

/// Every sequence of digits has a joltage; the lemma gives it.
pub proof fn joltage_exists(digits: Seq<u8>) -> (v: int)
    ensures
        is_max_joltage(digits, v),
    decreases digits.len(),
{
    if digits.len() < 2 {
        0
    } else if digits.len() == 2 {
        let v = pair_value(digits, 0, 1);
        v
    } else {
        // The best pair either lies within all but the last digit, or ends
        // with the last digit.
        let shorter = digits.drop_last();
        let last = digits.len() - 1;
        let inner = joltage_exists(shorter);
        let (a, b) = choose|a: int, b: int|
            0 <= a < b < shorter.len() && #[trigger] pair_value(shorter, a, b) == inner;
        assert(pair_value(digits, a, b) == inner);
        let first = largest_index(shorter);
        let outer = pair_value(digits, first, last);
        let v = if inner >= outer { inner } else { outer };
        assert forall|i: int, j: int| 0 <= i < j < digits.len() implies #[trigger] pair_value(
            digits,
            i,
            j,
        ) <= v by {
            if j < last {
                assert(pair_value(shorter, i, j) <= inner);
            } else {
                assert(shorter[i] <= shorter[first]);
            }
        }
        v
    }
}

/// The place of a largest entry of a sequence that is not empty.
pub proof fn largest_index(digits: Seq<u8>) -> (at: int)
    requires
        digits.len() > 0,
    ensures
        0 <= at < digits.len(),
        forall|i: int| 0 <= i < digits.len() ==> digits[i] <= digits[at],
    decreases digits.len(),
{
    if digits.len() == 1 {
        0
    } else {
        let at = largest_index(digits.drop_last());
        let last = digits.len() - 1;
        assert forall|i: int| 0 <= i < last implies digits[i] <= digits[at] by {
            assert(digits.drop_last()[i] == digits[i]);
        }
        if digits[last] > digits[at] {
            last
        } else {
            at
        }
    }
}

/// The joltage of all banks is neither negative nor less than that of any
/// first few of them.
pub proof fn lemma_total_joltage_monotonic(banks: Seq<BatteryBank>, count: int)
    requires
        0 <= count <= banks.len(),
    ensures
        0 <= total_joltage(banks.subrange(0, count)) <= total_joltage(banks),
    decreases banks.len(),
{
    if banks.len() == 0 {
        assert(banks.subrange(0, count) =~= banks);
    } else {
        let shorter = banks.drop_last();
        lemma_max_joltage_nonnegative(banks.last()@);
        if count == banks.len() {
            assert(banks.subrange(0, count) =~= banks);
            lemma_total_joltage_monotonic(shorter, count - 1);
        } else {
            assert(shorter.subrange(0, count) =~= banks.subrange(0, count));
            lemma_total_joltage_monotonic(shorter, count);
        }
    }
}

impl BatteryBank {
    /// The digits of the bank, one for each battery.
    pub fn digits(&self) -> (out: &Vec<u8>)
        ensures
            out@ == self@,
            is_bank(self@),
    {
        proof {
            use_type_invariant(self);
        }
        &self.digits
    }

    /// The joltage of the bank: the largest number that two of its digits
    /// write, the earlier one first; 0 where the bank has fewer than two
    /// batteries.
    pub fn joltage(&self) -> (out: i64)
        ensures
            is_max_joltage(self@, out as int),
            out == max_joltage(self@),
            self@.len() < 2 ==> out == 0,
            0 <= out <= 99,
    {
        proof {
            use_type_invariant(self);
        }
        let n: usize = self.digits.len();
        let mut best: i64 = 0;
        let ghost mut first: int = 0;
        let ghost mut second: int = 0;
        let mut i: usize = 0;
        while i < n
            invariant
                n == self.digits@.len(),
                is_bank(self.digits@),
                i <= n,
                0 <= best <= 99,
                forall|a: int, b: int|
                    0 <= a < b < n && a < i ==> #[trigger] pair_value(self.digits@, a, b) <= best,
                i >= 1 && n >= 2 ==> 0 <= first < second < n && pair_value(
                    self.digits@,
                    first,
                    second,
                ) == best,
                !(i >= 1 && n >= 2) ==> best == 0,
            decreases n - i,
        {
            let mut j: usize = i + 1;
            while j < n
                invariant
                    n == self.digits@.len(),
                    is_bank(self.digits@),
                    i < j <= n,
                    0 <= best <= 99,
                    forall|a: int, b: int|
                        0 <= a < b < n && (a < i || (a == i && b < j)) ==> #[trigger] pair_value(
                            self.digits@,
                            a,
                            b,
                        ) <= best,
                    (i >= 1 && n >= 2) || j > i + 1 ==> 0 <= first < second < n && pair_value(
                        self.digits@,
                        first,
                        second,
                    ) == best,
                    !((i >= 1 && n >= 2) || j > i + 1) ==> best == 0,
                decreases n - j,
            {
                let value: i64 = 10 * (self.digits[i] as i64) + (self.digits[j] as i64);
                assert(value == pair_value(self.digits@, i as int, j as int));
                if value >= best {
                    best = value;
                    proof {
                        first = i as int;
                        second = j as int;
                    }
                }
                j = j + 1;
            }
            i = i + 1;
        }
        proof {
            if n >= 2 {
                assert(pair_value(self.digits@, first, second) == best);
            }
            lemma_max_joltage_unique(self@, best as int);
        }
        best
    }

    /// Reads a bank from the characters of one line.
    pub fn from_chars(text: &[char]) -> (out: Option<BatteryBank>)
        ensures
            match out {
                Some(bank) => parse_bank(text@) == Some(bank@),
                None => parse_bank(text@) is None,
            },
    {
        let n: usize = text.len();
        let mut digits: Vec<u8> = Vec::with_capacity(n);
        let mut i: usize = 0;
        while i < n
            invariant
                n == text@.len(),
                i <= n,
                digits@.len() == i,
                forall|j: int| 0 <= j < i ==> is_digit(#[trigger] text@[j]),
                forall|j: int| 0 <= j < i ==> #[trigger] digits@[j] == digit_value(text@[j]),
            decreases n - i,
        {
            let c: char = text[i];
            if !('0' <= c && c <= '9') {
                assert(!is_digit(text@[i as int]));
                return None;
            }
            digits.push((c as u32 - '0' as u32) as u8);
            i = i + 1;
        }
        assert(digits@ =~= parse_bank(text@).unwrap());
        Some(BatteryBank { digits })
    }

    /// Reads a bank from one line: a digit for each battery. A line with any
    /// other character comes back in the error, as it was given.
    pub fn from_str(s: &str) -> (out: Result<BatteryBank, ParseError>)
        ensures
            match out {
                Ok(bank) => parse_bank(s@) == Some(bank@),
                Err(e) => parse_bank(s@) is None && e.0@ == s@,
            },
    {
        let text = chars_of(s);
        match BatteryBank::from_chars(text.as_slice()) {
            Some(bank) => Ok(bank),
            None => Err(ParseError(s.to_owned())),
        }
    }
}

/// Reads one bank from each line of `file`. The first line that is no bank
/// ends the reading and comes back in the error.
pub fn parse_input(file: &str) -> (out: Result<Vec<BatteryBank>, ParseError>)
    ensures
        match out {
            Ok(v) => all_banks(lines(file@)) && banks_of(lines(file@), v@),
            Err(e) => exists|k: int| #[trigger]
                first_bad_bank(lines(file@), k) && e.0@ == lines(file@)[k],
        },
{
    let text = chars_of(file);
    let spans = line_spans(text.as_slice());
    let ghost pieces = lines(file@);
    let mut out: Vec<BatteryBank> = Vec::new();
    let mut i: usize = 0;
    while i < spans.len()
        invariant
            text@ == file@,
            pieces == lines(file@),
            spans_mark(text@, spans@, pieces),
            i <= spans@.len(),
            out@.len() == i,
            forall|j: int| 0 <= j < i ==> parse_bank(#[trigger] pieces[j]) == Some(out@[j]@),
        decreases spans@.len() - i,
    {
        let span = spans[i];
        assert(span.within(text@.len()) && span.of(text@) == pieces[i as int]);
        match BatteryBank::from_chars(span_slice(text.as_slice(), &span)) {
            Some(bank) => {
                out.push(bank);
            },
            None => {
                let line = file.substring_char(span.start, span.end);
                assert(first_bad_bank(pieces, i as int));
                return Err(ParseError(line.to_owned()));
            },
        }
        i = i + 1;
    }
    Ok(out)
}

/// Adds up the joltage of all of `banks`, as far as a signed 64-bit
/// integer can hold the sum: `None` where it cannot.
pub fn checked_total_output_joltage(banks: &[BatteryBank]) -> (out: Option<i64>)
    ensures
        match out {
            Some(total) => total == total_joltage(banks@),
            None => total_joltage(banks@) > i64::MAX,
        },
{
    let n: usize = banks.len();
    let mut total: i64 = 0;
    let mut i: usize = 0;
    assert(banks@.subrange(0, 0) =~= Seq::<BatteryBank>::empty());
    while i < n
        invariant
            n == banks@.len(),
            i <= n,
            0 <= total == total_joltage(banks@.subrange(0, i as int)),
        decreases n - i,
    {
        let ghost grown = banks@.subrange(0, i + 1);
        proof {
            assert(grown.drop_last() =~= banks@.subrange(0, i as int));
            assert(grown.last() == banks@[i as int]);
            lemma_total_joltage_monotonic(banks@, i + 1);
        }
        let joltage: i64 = banks[i].joltage();
        if joltage > i64::MAX - total {
            return None;
        }
        total = total + joltage;
        i = i + 1;
    }
    assert(banks@.subrange(0, n as int) =~= banks@);
    Some(total)
}

/// Adds up the joltage of all of `banks`.
pub fn total_output_joltage(banks: &[BatteryBank]) -> (out: i64)
    requires
        total_joltage(banks@) <= i64::MAX,
    ensures
        out == total_joltage(banks@),
{
    checked_total_output_joltage(banks).unwrap()
}

impl ParseError {
    /// What went wrong, for a reader: the line that was refused, after a
    /// few words that say what was expected.
    pub fn message(&self) -> (out: String)
        ensures
            out@ == "not a correct battery format "@ + self.0@,
    {
        let mut out = "not a correct battery format ".to_owned();
        out.append(self.0.as_str());
        out
    }
}

impl core::str::FromStr for BatteryBank {
    type Err = ParseError;

    /// Reads a bank from one line, as the method `from_str` of the type
    /// itself does: any line that is no bank comes back in the error.
    fn from_str(s: &str) -> (out: Result<Self, ParseError>)
        ensures
            match out {
                Ok(bank) => parse_bank(s@) == Some(bank@),
                Err(e) => parse_bank(s@) is None && e.0@ == s@,
            },
    {
        BatteryBank::from_str(s)
    }
}

} // verus!
