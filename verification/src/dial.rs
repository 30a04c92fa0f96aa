use crate::decimal::{
    decimal_string, lemma_parse_render, lemma_render_nat_digits, parse_i64, parse_i64_spec,
    render_int,
};
use crate::text::{chars_of, lemma_long_lines, line_spans, lines, span_slice, spans_mark};
use vstd::prelude::*;
use vstd::slice::slice_subrange;
use vstd::string::{StrSliceExecFns, StringExecFns};

verus! {

/// The number of positions on the dial.
pub const DIAL_SIZE: i64 = 100;

/// Where the dial points before the first instruction.
pub const STARTING_POSITION: i64 = 50;

/// One instruction: turn the dial left or right by so many positions.
#[derive(Clone, Copy, Debug, PartialEq, Eq, Structural)]
pub enum Rotation {
    Left(i64),
    Right(i64),
}

/// A line that is no rotation. It holds the line as it was read.
#[derive(Debug)]
pub struct ParseError(pub String);

impl Rotation {
    /// By how many positions the dial is turned.
    pub open spec fn amount(self) -> int {
        match self {
            Rotation::Left(a) => a as int,
            Rotation::Right(a) => a as int,
        }
    }

    /// The change of position: negative to the left, positive to the right.
    pub open spec fn delta(self) -> int {
        match self {
            Rotation::Left(a) => -(a as int),
            Rotation::Right(a) => a as int,
        }
    }

    /// A rotation turns the dial by a non-negative amount.
    pub open spec fn wf(self) -> bool {
        self.amount() >= 0
    }
}

/// Whether `p` is a position of the dial.
pub open spec fn on_dial(p: int) -> bool {
    0 <= p < 100
}

/// The position reached from `position` by `rotation`. The dial is a circle:
/// position 99 is followed by position 0.
pub open spec fn turned(position: int, rotation: Rotation) -> int {
    (position + rotation.delta()) % 100
}

/// The position reached from `start` after `rotations`, taken in order.
pub open spec fn final_position(start: int, rotations: Seq<Rotation>) -> int
    decreases rotations.len(),
{
    if rotations.len() == 0 {
        start
    } else {
        final_position(turned(start, rotations[0]), rotations.drop_first())
    }
}

/// How many of `rotations`, applied in order from `start`, leave the dial at
/// position 0.
pub open spec fn zero_landings(start: int, rotations: Seq<Rotation>) -> nat
    decreases rotations.len(),
{
    if rotations.len() == 0 {
        0
    } else {
        let next = turned(start, rotations[0]);
        let hit: nat = if next == 0 { 1 } else { 0 };
        hit + zero_landings(next, rotations.drop_first())
    }
}

/// The rotation that `s` denotes: `L` or `R`, then a decimal integer that is
/// not negative and fits in 64 bits. `None` for every other text.
pub open spec fn parse_rotation(s: Seq<char>) -> Option<Rotation> {
    if s.len() < 2 {
        None
    } else {
        match parse_i64_spec(s.subrange(1, s.len() as int)) {
            Some(a) => if a < 0 {
                None
            } else if s[0] == 'L' {
                Some(Rotation::Left(a))
            } else if s[0] == 'R' {
                Some(Rotation::Right(a))
            } else {
                None
            },
            None => None,
        }
    }
}

/// Whether every one of `pieces` denotes a rotation.
pub open spec fn all_rotations(pieces: Seq<Seq<char>>) -> bool {
    forall|i: int| 0 <= i < pieces.len() ==> parse_rotation(#[trigger] pieces[i]) is Some
}

/// The rotations that `pieces` denote, one by one.
pub open spec fn rotations_of(pieces: Seq<Seq<char>>) -> Seq<Rotation> {
    Seq::new(pieces.len(), |i: int| parse_rotation(pieces[i]).unwrap())
}

/// Whether `k` is the first of `pieces` that denotes no rotation.
pub open spec fn first_bad_rotation(pieces: Seq<Seq<char>>, k: int) -> bool {
    &&& 0 <= k < pieces.len()
    &&& parse_rotation(pieces[k]) is None
    &&& forall|j: int| 0 <= j < k ==> parse_rotation(#[trigger] pieces[j]) is Some
}

/// Wherever the dial stands and however far it is turned, it comes to rest
/// on one of its hundred positions.
pub proof fn lemma_turned_on_dial(position: int, rotation: Rotation)
    ensures
        on_dial(turned(position, rotation)),
{
}

/// Every position that a run of rotations reaches from a position of the
/// dial is a position of the dial.
pub proof fn lemma_final_position_on_dial(start: int, rotations: Seq<Rotation>)
    requires
        on_dial(start),
    ensures
        on_dial(final_position(start, rotations)),
    decreases rotations.len(),
{
    if rotations.len() > 0 {
        lemma_final_position_on_dial(turned(start, rotations[0]), rotations.drop_first());
    }
}

/// Turns the dial: the position reached from `position` by `rotation`.
pub fn turn(position: i64, rotation: Rotation) -> (out: i64)
    requires
        on_dial(position as int),
        rotation.wf(),
    ensures
        out == turned(position as int, rotation),
        on_dial(out as int),
{
    match rotation {
        Rotation::Left(amount) => {
            let wrapped: i64 = amount % DIAL_SIZE;
            if position - wrapped < 0 {
                position - wrapped + DIAL_SIZE
            } else {
                position - wrapped
            }
        },
        Rotation::Right(amount) => {
            let wrapped: i64 = amount % DIAL_SIZE;
            (position + wrapped) % DIAL_SIZE
        },
    }
}

impl Rotation {
    /// Reads a rotation from the characters of one line.
    pub fn from_chars(text: &[char]) -> (out: Option<Rotation>)
        ensures
            out == parse_rotation(text@),
            out is Some ==> out.unwrap().wf(),
    {
        let n: usize = text.len();
        if n < 2 {
            return None;
        }
        let direction: char = text[0];
        match parse_i64(slice_subrange(text, 1, n)) {
            Some(amount) => {
                if amount < 0 {
                    None
                } else if direction == 'L' {
                    Some(Rotation::Left(amount))
                } else if direction == 'R' {
                    Some(Rotation::Right(amount))
                } else {
                    None
                }
            },
            None => None,
        }
    }

    /// Reads a rotation from one line: `L` or `R`, then the amount in
    /// decimal. Any other line comes back in the error, as it was given.
    pub fn from_str(s: &str) -> (out: Result<Rotation, ParseError>)
        ensures
            match out {
                Ok(r) => parse_rotation(s@) == Some(r) && r.wf(),
                Err(e) => parse_rotation(s@) is None && e.0@ == s@,
            },
    {
        let text = chars_of(s);
        match Rotation::from_chars(text.as_slice()) {
            Some(r) => Ok(r),
            None => Err(ParseError(s.to_owned())),
        }
    }
}

/// `parse_input` on a text whose characters are at hand.
fn parse_lines(file: &str, text: &[char]) -> (out: Result<Vec<Rotation>, ParseError>)
    requires
        text@ == file@,
    ensures
        match out {
            Ok(v) => all_rotations(lines(file@)) && v@ == rotations_of(lines(file@)),
            Err(e) => exists|k: int| #[trigger]
                first_bad_rotation(lines(file@), k) && e.0@ == lines(file@)[k],
        },
{
    let spans = line_spans(text);
    let ghost pieces = lines(file@);
    let mut out: Vec<Rotation> = Vec::new();
    let mut i: usize = 0;
    while i < spans.len()
        invariant
            text@ == file@,
            pieces == lines(file@),
            spans_mark(text@, spans@, pieces),
            i <= spans@.len(),
            out@.len() == i,
            forall|j: int| 0 <= j < i ==> parse_rotation(#[trigger] pieces[j]) == Some(out@[j]),
        decreases spans@.len() - i,
    {
        let span = spans[i];
        assert(span.within(text@.len()) && span.of(text@) == pieces[i as int]);
        match Rotation::from_chars(span_slice(text, &span)) {
            Some(r) => {
                out.push(r);
            },
            None => {
                let line = file.substring_char(span.start, span.end);
                assert(first_bad_rotation(pieces, i as int));
                return Err(ParseError(line.to_owned()));
            },
        }
        i = i + 1;
    }
    assert(out@ =~= rotations_of(pieces));
    Ok(out)
}

/// Reads one rotation from each line of `file`. The first line that is no
/// rotation ends the reading and comes back in the error.
pub fn parse_input(file: &str) -> (out: Result<Vec<Rotation>, ParseError>)
    ensures
        match out {
            Ok(v) => all_rotations(lines(file@)) && v@ == rotations_of(lines(file@)),
            Err(e) => exists|k: int| #[trigger]
                first_bad_rotation(lines(file@), k) && e.0@ == lines(file@)[k],
        },
{
    let text = chars_of(file);
    parse_lines(file, text.as_slice())
}

/// Applies `rotations` in order from the starting position and counts how
/// many of them leave the dial at position 0.
pub fn count_zero_landings(rotations: &[Rotation]) -> (out: usize)
    requires
        forall|i: int| 0 <= i < rotations@.len() ==> (#[trigger] rotations@[i]).wf(),
    ensures
        out == zero_landings(STARTING_POSITION as int, rotations@),
        out <= rotations@.len(),
{
    let n: usize = rotations.len();
    let mut password: usize = 0;
    let mut position: i64 = STARTING_POSITION;
    let mut i: usize = 0;
    proof {
        assert(rotations@.subrange(0, n as int) =~= rotations@);
    }
    while i < n
        invariant
            n == rotations@.len(),
            i <= n,
            on_dial(position as int),
            password <= i,
            forall|j: int| 0 <= j < rotations@.len() ==> (#[trigger] rotations@[j]).wf(),
            zero_landings(STARTING_POSITION as int, rotations@) == password + zero_landings(
                position as int,
                rotations@.subrange(i as int, n as int),
            ),
        decreases n - i,
    {
        let ghost rest = rotations@.subrange(i as int, n as int);
        assert(rest[0] == rotations@[i as int]);
        assert(rest.drop_first() =~= rotations@.subrange(i + 1, n as int));
        position = turn(position, rotations[i]);
        if position == 0 {
            password = password + 1;
        }
        i = i + 1;
    }
    password
}

/// Reads the rotations of `input`, one per line, and counts how many of
/// them leave the dial at position 0. Fails on the first line that is no
/// rotation.
pub fn door_password(input: &str) -> (out: Result<i64, ParseError>)
    ensures
        match out {
            Ok(password) => all_rotations(lines(input@)) && password == zero_landings(
                STARTING_POSITION as int,
                rotations_of(lines(input@)),
            ),
            Err(e) => exists|k: int| #[trigger]
                first_bad_rotation(lines(input@), k) && e.0@ == lines(input@)[k],
        },
{
    let text = chars_of(input);
    match parse_lines(input, text.as_slice()) {
        Ok(rotations) => {
            let landings: usize = count_zero_landings(rotations.as_slice());
            proof {
                // A rotation takes two characters at least, so the lines
                // are at most half as many as the characters.
                assert forall|i: int| 0 <= i < lines(input@).len() implies (#[trigger] lines(
                    input@,
                )[i]).len() >= 2 by {
                    assert(parse_rotation(lines(input@)[i]) is Some);
                }
                lemma_long_lines(input@, 2);
            }
            Ok(landings as i64)
        },
        Err(e) => Err(e),
    }
}

/// `rotation` written as a line: its letter, then the amount in decimal.
pub open spec fn render_rotation(rotation: Rotation) -> Seq<char> {
    match rotation {
        Rotation::Left(a) => seq!['L'] + render_int(a as int),
        Rotation::Right(a) => seq!['R'] + render_int(a as int),
    }
}

/// A rotation that is written down and read again is the same rotation.
pub proof fn lemma_render_then_parse(rotation: Rotation)
    requires
        rotation.wf(),
    ensures
        parse_rotation(render_rotation(rotation)) == Some(rotation),
{
    let line = render_rotation(rotation);
    let a = rotation.amount();
    lemma_parse_render(a);
    lemma_render_nat_digits(a as nat);
    assert(line.subrange(1, line.len() as int) =~= render_int(a));
}

/// Whatever line the parser accepts: the rotation it gives, written down as
/// its letter and its amount, is read as that same rotation again.
pub proof fn lemma_parse_round_trip(s: Seq<char>)
    requires
        parse_rotation(s) is Some,
    ensures
        parse_rotation(render_rotation(parse_rotation(s).unwrap())) == parse_rotation(s),
{
    lemma_render_then_parse(parse_rotation(s).unwrap());
}

impl Rotation {
    /// Writes the rotation as a line: its letter, then the amount in decimal.
    pub fn render(&self) -> (out: String)
        ensures
            out@ == render_rotation(*self),
    {
        proof {
            reveal_strlit("L");
            reveal_strlit("R");
        }
        let (letter, amount): (&str, i64) = match self {
            Rotation::Left(a) => ("L", *a),
            Rotation::Right(a) => ("R", *a),
        };
        let mut out = letter.to_owned();
        out.append(decimal_string(amount).as_str());
        assert(out@ =~= render_rotation(*self));
        out
    }
}

impl ParseError {
    /// What went wrong, for a reader: the line that was refused, after a
    /// few words that say what was expected.
    pub fn message(&self) -> (out: String)
        ensures
            out@ == "not a correct rotation repr "@ + self.0@,
    {
        let mut out = "not a correct rotation repr ".to_owned();
        out.append(self.0.as_str());
        out
    }
}

impl core::str::FromStr for Rotation {
    type Err = ParseError;

    /// Reads a rotation from one line, as the method `from_str` of the type
    /// itself does: any line that is no rotation comes back in the error.
    fn from_str(s: &str) -> (out: Result<Self, ParseError>)
        ensures
            match out {
                Ok(r) => parse_rotation(s@) == Some(r) && r.wf(),
                Err(e) => parse_rotation(s@) is None && e.0@ == s@,
            },
    {
        Rotation::from_str(s)
    }
}

} // verus!
