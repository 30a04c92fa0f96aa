use vstd::prelude::*;
use vstd::string::StringExecFns;

verus! {

/// Whether `c` is one of the ten ASCII decimal digits.
pub open spec fn is_digit(c: char) -> bool {
    '0' <= c <= '9'
}

/// The number that the ASCII digit `c` stands for.
pub open spec fn digit_value(c: char) -> int {
    c as int - '0' as int
}

/// Whether `s` holds ASCII decimal digits only.
pub open spec fn all_digits(s: Seq<char>) -> bool {
    forall|i: int| 0 <= i < s.len() ==> is_digit(#[trigger] s[i])
}

/// The number that a run of digits denotes in base ten, the last digit
/// counting least. The empty run denotes zero.
pub open spec fn digits_value(s: Seq<char>) -> int
    decreases s.len(),
{
    if s.len() == 0 {
        0
    } else {
        10 * digits_value(s.drop_last()) + digit_value(s.last())
    }
}

/// What follows an optional leading sign.
pub open spec fn unsigned_part(s: Seq<char>) -> Seq<char> {
    if s.len() > 0 && (s[0] == '-' || s[0] == '+') {
        s.subrange(1, s.len() as int)
    } else {
        s
    }
}

/// The integer that `s` denotes: an optional `+` or `-`, then at least one
/// digit and nothing else. `None` for every other text.
pub open spec fn parse_int(s: Seq<char>) -> Option<int> {
    let body = unsigned_part(s);
    if body.len() == 0 || !all_digits(body) {
        None
    } else if s[0] == '-' {
        Some(-digits_value(body))
    } else {
        Some(digits_value(body))
    }
}

/// `parse_int`, kept to what a signed 64-bit integer can hold.
pub open spec fn parse_i64_spec(s: Seq<char>) -> Option<i64> {
    match parse_int(s) {
        Some(v) => if i64::MIN <= v <= i64::MAX {
            Some(v as i64)
        } else {
            None
        },
        None => None,
    }
}

/// A run of digits denotes a non-negative number.
pub proof fn lemma_digits_value_nonnegative(s: Seq<char>)
    requires
        all_digits(s),
    ensures
        digits_value(s) >= 0,
    decreases s.len(),
{
    if s.len() > 0 {
        lemma_digits_value_nonnegative(s.drop_last());
    }
}

/// A run of digits denotes at least what any of its prefixes denotes.
pub proof fn lemma_digits_value_prefix(s: Seq<char>, k: int)
    requires
        all_digits(s),
        0 <= k <= s.len(),
    ensures
        digits_value(s.subrange(0, k)) <= digits_value(s),
    decreases s.len(),
{
    if k == s.len() {
        assert(s.subrange(0, k) =~= s);
    } else {
        lemma_digits_value_prefix(s.drop_last(), k);
        assert(s.drop_last().subrange(0, k) =~= s.subrange(0, k));
        lemma_digits_value_nonnegative(s.drop_last());
    }
}

/// Reads a signed decimal integer: an optional sign, then digits only.
/// Leading zeros are accepted; a value outside the 64-bit signed range is
/// not.
pub fn parse_i64(text: &[char]) -> (out: Option<i64>)
    ensures
        out == parse_i64_spec(text@),
{
    let n: usize = text.len();
    if n == 0 {
        return None;
    }
    let negative: bool = text[0] == '-';
    let start: usize = if text[0] == '-' || text[0] == '+' { 1 } else { 0 };
    if start == n {
        return None;
    }
    let ghost body = unsigned_part(text@);
    let mut magnitude: u128 = 0;
    let mut i: usize = start;
    while i < n
        invariant
            n == text@.len(),
            start <= i <= n,
            body == unsigned_part(text@),
            body == text@.subrange(start as int, n as int),
            all_digits(body.subrange(0, i - start)),
            magnitude == digits_value(body.subrange(0, i - start)),
            magnitude <= 0x8000_0000_0000_0000,
        decreases n - i,
    {
        let c: char = text[i];
        if !('0' <= c && c <= '9') {
            assert(!is_digit(body[i - start]));
            return None;
        }
        let d: u128 = (c as u32 - '0' as u32) as u128;
        let next: u128 = magnitude * 10 + d;
        let ghost grown = body.subrange(0, i - start + 1);
        proof {
            assert(grown.drop_last() =~= body.subrange(0, i - start));
            assert(grown.last() == c);
            assert forall|j: int| 0 <= j < grown.len() implies is_digit(#[trigger] grown[j]) by {
                if j < grown.len() - 1 {
                    assert(grown[j] == body.subrange(0, i - start)[j]);
                }
            }
            assert(next == digits_value(grown));
        }
        if next > 0x8000_0000_0000_0000 {
            proof {
                if all_digits(body) {
                    lemma_digits_value_prefix(body, i - start + 1);
                }
            }
            return None;
        }
        magnitude = next;
        i = i + 1;
    }
    assert(body.subrange(0, n - start) =~= body);
    if negative {
        if magnitude == 0x8000_0000_0000_0000 {
            Some(i64::MIN)
        } else {
            Some(-(magnitude as i64))
        }
    } else if magnitude == 0x8000_0000_0000_0000 {
        None
    } else {
        Some(magnitude as i64)
    }
}

/// The ASCII digit that stands for `d`, for `d` below ten.
pub open spec fn digit_char(d: int) -> char {
    (d + 48) as u8 as char
}

/// The digits of `n` in base ten, the most significant first and without
/// leading zeros; zero is written `0`.
pub open spec fn render_nat(n: nat) -> Seq<char>
    decreases n,
{
    if n < 10 {
        seq![digit_char(n as int)]
    } else {
        render_nat(n / 10).push(digit_char((n % 10) as int))
    }
}

/// `n` in base ten, with a leading `-` where it is negative.
pub open spec fn render_int(n: int) -> Seq<char> {
    if n < 0 {
        seq!['-'] + render_nat((-n) as nat)
    } else {
        render_nat(n as nat)
    }
}

/// What `render_nat` writes is a non-empty run of digits that denotes the
/// number it was given and starts with no sign.
pub proof fn lemma_render_nat_digits(n: nat)
    ensures
        render_nat(n).len() >= 1,
        all_digits(render_nat(n)),
        digits_value(render_nat(n)) == n,
        is_digit(render_nat(n)[0]),
    decreases n,
{
    let r = render_nat(n);
    if n < 10 {
        assert(r.drop_last() =~= Seq::<char>::empty());
        assert(digits_value(r.drop_last()) == 0);
        assert(digit_value(digit_char(n as int)) == n);
    } else {
        let head = render_nat(n / 10);
        lemma_render_nat_digits(n / 10);
        assert(r.drop_last() =~= head);
        assert(r.last() == digit_char((n % 10) as int));
        assert(digit_value(digit_char((n % 10) as int)) == n % 10);
        assert(r[0] == head[0]);
        assert forall|i: int| 0 <= i < r.len() implies is_digit(#[trigger] r[i]) by {
            if i < head.len() {
                assert(r[i] == head[i]);
            }
        }
    }
}

/// Reading what `render_int` wrote gives the number back.
pub proof fn lemma_parse_render(n: int)
    ensures
        parse_int(render_int(n)) == Some(n),
{
    let r = render_int(n);
    if n < 0 {
        let body = render_nat((-n) as nat);
        lemma_render_nat_digits((-n) as nat);
        assert(r[0] == '-');
        assert(unsigned_part(r) =~= body);
    } else {
        lemma_render_nat_digits(n as nat);
        assert(unsigned_part(r) == r);
    }
}

/// The ASCII digit for a number below ten.
pub fn digit_to_char(d: u8) -> (c: char)
    requires
        d < 10,
    ensures
        c == digit_char(d as int),
{
    (d + 48) as char
}

/// Writes `n` in base ten, as `render_int` states it.
pub fn digits_of(n: i64) -> (out: Vec<char>)
    ensures
        out@ == render_int(n as int),
{
    let mut rest: u64 = if n < 0 { (-(n as i128)) as u64 } else { n as u64 };
    let ghost magnitude: nat = rest as nat;
    let mut low: Vec<char> = Vec::new();
    // `low` collects the digits from the least significant upwards.
    while rest >= 10
        invariant
            render_nat(magnitude) == render_nat(rest as nat) + low@.reverse(),
        decreases rest,
    {
        let d: u8 = (rest % 10) as u8;
        let ghost before = low@;
        low.push(digit_to_char(d));
        proof {
            let c = digit_char(d as int);
            assert(render_nat(rest as nat) == render_nat((rest / 10) as nat).push(c));
            assert(low@.reverse() =~= seq![c] + before.reverse());
            assert(render_nat((rest / 10) as nat).push(c) + before.reverse()
                =~= render_nat((rest / 10) as nat) + low@.reverse());
        }
        rest = rest / 10;
    }
    let mut out: Vec<char> = Vec::new();
    if n < 0 {
        out.push('-');
    }
    out.push(digit_to_char(rest as u8));
    let ghost head = out@;
    assert(head + low@.reverse() =~= render_int(n as int));
    let mut k: usize = low.len();
    while k > 0
        invariant
            k <= low@.len(),
            out@ == head + low@.reverse().subrange(0, low@.len() - k),
        decreases k,
    {
        k = k - 1;
        out.push(low[k]);
        assert(out@ =~= head + low@.reverse().subrange(0, low@.len() - k));
    }
    assert(low@.reverse().subrange(0, low@.len() as int) =~= low@.reverse());
    out
}

/// Appends one character of a written integer, a digit or the minus sign,
/// to `out`.
pub fn push_decimal_char(out: &mut String, c: char)
    requires
        is_digit(c) || c == '-',
    ensures
        final(out)@ == old(out)@.push(c),
{
    proof {
        reveal_strlit("0");
        reveal_strlit("1");
        reveal_strlit("2");
        reveal_strlit("3");
        reveal_strlit("4");
        reveal_strlit("5");
        reveal_strlit("6");
        reveal_strlit("7");
        reveal_strlit("8");
        reveal_strlit("9");
        reveal_strlit("-");
    }
    let piece: &str = match c {
        '0' => "0",
        '1' => "1",
        '2' => "2",
        '3' => "3",
        '4' => "4",
        '5' => "5",
        '6' => "6",
        '7' => "7",
        '8' => "8",
        '9' => "9",
        _ => "-",
    };
    assert(piece@ =~= seq![c]);
    let ghost before = out@;
    out.append(piece);
    assert(out@ =~= before.push(c));
}

/// Writes `n` in base ten as a string.
pub fn decimal_string(n: i64) -> (out: String)
    ensures
        out@ == render_int(n as int),
{
    let digits = digits_of(n);
    proof {
        if n < 0 {
            lemma_render_nat_digits((-n) as nat);
        } else {
            lemma_render_nat_digits(n as nat);
        }
    }
    let mut out = String::new();
    let mut i: usize = 0;
    while i < digits.len()
        invariant
            i <= digits@.len(),
            out@ == digits@.subrange(0, i as int),
            forall|j: int| 0 <= j < digits@.len() ==> is_digit(#[trigger] digits@[j]) || digits@[j] == '-',
        decreases digits@.len() - i,
    {
        push_decimal_char(&mut out, digits[i]);
        i = i + 1;
        assert(out@ =~= digits@.subrange(0, i as int));
    }
    assert(digits@.subrange(0, digits@.len() as int) =~= digits@);
    out
}

} // verus!
