use vstd::prelude::*;

use crate::combinator::{law_repeated_class_is_run, zero_or_more, Rule};
use crate::parser::{
    Input, class_accepts, expect_trail, lemma_pos_after_one, lemma_pos_after_trans, pos_after,
    CharClass, ExpectChar, Reason, ResultOf, SimpleError, SimplePosition, TextInput,
};

verus! {

broadcast use {
    crate::parser::lemma_pos_after_index,
    crate::parser::lemma_pos_after_trans,
    crate::parser::lemma_pos_after_refl,
};

// ---------------------------------------------------------------------------
// The grammar of the leaves, over the characters of the input
// ---------------------------------------------------------------------------

pub open spec fn is_digit(c: char) -> bool {
    class_accepts(CharClass::Digit, c)
}

pub open spec fn digit_val(c: char) -> nat {
    (c as int - '0' as int) as nat
}

/// The value of a run of decimal digits, most significant first.
pub open spec fn digits_value(d: Seq<char>) -> nat
    decreases d.len(),
{
    if d.len() == 0 {
        0
    } else {
        digits_value(d.drop_last()) * 10 + digit_val(d.last())
    }
}

/// The end of the longest run of characters of `cls` that starts at `i`.
pub open spec fn run_end(s: Seq<char>, cls: CharClass, i: int) -> int
    decreases s.len() - i,
{
    if 0 <= i < s.len() && class_accepts(cls, s[i]) {
        run_end(s, cls, i + 1)
    } else {
        i
    }
}

/// A non-negative integer at `i`: one `0`, or a non-zero digit and the digits after it.
/// Its magnitude must fit in `u64`.
pub open spec fn spec_positive_integer(s: Seq<char>, i: int) -> Option<(nat, int)> {
    if 0 <= i < s.len() && class_accepts(CharClass::OneToNine, s[i]) {
        let e = run_end(s, CharClass::Digit, i);
        let m = digits_value(s.subrange(i, e));
        if m <= u64::MAX {
            Some((m, e))
        } else {
            None
        }
    } else if 0 <= i < s.len() && s[i] == '0' {
        Some((0, i + 1))
    } else {
        None
    }
}

/// An integer at `i`, with an optional `-`; it must fit in `i64`.
pub open spec fn spec_integer(s: Seq<char>, i: int) -> Option<(int, int)> {
    if 0 <= i < s.len() && s[i] == '-' {
        match spec_positive_integer(s, i + 1) {
            Some((m, e)) => if m <= 0x8000_0000_0000_0000 {
                Some((-m, e))
            } else {
                None
            },
            None => None,
        }
    } else {
        match spec_positive_integer(s, i) {
            Some((m, e)) => if m <= i64::MAX {
                Some((m as int, e))
            } else {
                None
            },
            None => None,
        }
    }
}

/// An optional `.` and digits at `i`: magnitude, digit count, end. Absent, it is `(0, 0)`.
/// The magnitude must fit in `u64`.
pub open spec fn spec_fraction(s: Seq<char>, i: int) -> Option<(nat, nat, int)> {
    if 0 <= i && i + 1 < s.len() && s[i] == '.' && is_digit(s[i + 1]) {
        let e = run_end(s, CharClass::Digit, i + 1);
        let v = digits_value(s.subrange(i + 1, e));
        if v <= u64::MAX {
            Some((v, (e - i - 1) as nat, e))
        } else {
            None
        }
    } else {
        Some((0, 0, i))
    }
}

/// Where the digits of an exponent that starts at `i` begin, past `e`/`E` and the sign.
pub open spec fn exponent_digits_start(s: Seq<char>, i: int) -> int {
    if i + 1 < s.len() && class_accepts(CharClass::Sign, s[i + 1]) {
        i + 2
    } else {
        i + 1
    }
}

/// An optional exponent at `i`: `e` or `E`, an optional sign, digits. Absent, it is 0.
/// Its magnitude must fit in `i32`.
pub open spec fn spec_exponent(s: Seq<char>, i: int) -> Option<(int, int)> {
    let j = exponent_digits_start(s, i);
    if 0 <= i < s.len() && class_accepts(CharClass::E, s[i]) && j < s.len() && is_digit(s[j]) {
        let e = run_end(s, CharClass::Digit, j);
        let v = digits_value(s.subrange(j, e));
        if v <= i32::MAX {
            Some((if s[i + 1] == '-' { -v } else { v as int }, e))
        } else {
            None
        }
    } else {
        Some((0, i))
    }
}

/// A number at `i`: integer, fraction and exponent, each kept exactly.
pub open spec fn spec_number(s: Seq<char>, i: int) -> Option<(NumberValue, int)> {
    match spec_integer(s, i) {
        None => None,
        Some((n, e1)) => match spec_fraction(s, e1) {
            None => None,
            Some((f, fl, e2)) => match spec_exponent(s, e2) {
                None => None,
                Some((x, e3)) => Some((
                    NumberValue {
                        integer: n as i64,
                        fraction: f as u64,
                        fraction_length: fl as u32,
                        exponent: x as i32,
                    },
                    e3,
                )),
            },
        },
    }
}

// ---------------------------------------------------------------------------
// Numbers
// ---------------------------------------------------------------------------

/// A number, decomposed without rounding: the signed integer part, the digits after the
/// point as a magnitude and a count, and the exponent. The fraction takes the literal's
/// sign, so the value is `(integer ± fraction / 10^fraction_length) * 10^exponent`, with `-`
/// when `integer` is negative. Where the integer part is 0 the sign is lost: `-0.5` and
/// `0.5` decompose alike.
#[derive(Clone, Copy, Debug, PartialEq, Eq, Structural)]
pub struct NumberValue {
    pub integer: i64,
    pub fraction: u64,
    pub fraction_length: u32,
    pub exponent: i32,
}

/// Reads the run of digits at `current`; its value, where it fits in `u64`, and its end.
fn read_digits(input: &TextInput, current: SimplePosition) -> (r: (Option<u64>, SimplePosition))
    requires
        input.wf(),
        input.valid_pos(current),
    ensures
        r.1.index == run_end(input.text(), CharClass::Digit, current.index as int),
        r.1 == pos_after(input.text(), current, r.1.index as int),
        current.index <= r.1.index,
        current.index < input.text().len() && is_digit(input.text()[current.index as int])
            ==> current.index < r.1.index,
        input.valid_pos(r.1),
        r.0 == (if digits_value(input.text().subrange(current.index as int, r.1.index as int))
            <= u64::MAX {
            Some(digits_value(input.text().subrange(current.index as int, r.1.index as int)) as u64)
        } else {
            None::<u64>
        }),
{
    let ghost s = input.text();
    let ghost start = current.index as int;
    let mut pos = current;
    let mut val: Option<u64> = Some(0);
    assert(s.subrange(start, start) =~= Seq::<char>::empty());
    while (pos.index as usize) < input.chars.len() && '0' <= input.chars[pos.index as usize]
        && input.chars[pos.index as usize] <= '9'
        invariant
            input.wf(),
            s == input.text(),
            start == current.index,
            start <= pos.index <= s.len(),
            pos == pos_after(s, current, pos.index as int),
            input.valid_pos(pos),
            run_end(s, CharClass::Digit, start) == run_end(s, CharClass::Digit, pos.index as int),
            val == (if digits_value(s.subrange(start, pos.index as int)) <= u64::MAX {
                Some(digits_value(s.subrange(start, pos.index as int)) as u64)
            } else {
                None::<u64>
            }),
        decreases s.len() - pos.index,
    {
        let c = input.chars[pos.index as usize];
        let d = (c as u32 - '0' as u32) as u64;
        let ghost old_sub = s.subrange(start, pos.index as int);
        let ghost new_sub = s.subrange(start, pos.index + 1);
        assert(new_sub.drop_last() =~= old_sub);
        assert(new_sub.last() == c);
        let ghost dv_old = digits_value(old_sub);
        assert(digits_value(new_sub) == dv_old * 10 + d);
        val = match val {
            Some(v) => {
                if v <= (u64::MAX - d) / 10 {
                    assert(v * 10 + d <= u64::MAX) by (nonlinear_arith)
                        requires v <= (u64::MAX - d) / 10, d <= 9;
                    Some(v * 10 + d)
                } else {
                    assert(v * 10 + d > u64::MAX) by (nonlinear_arith)
                        requires v > (u64::MAX - d) / 10, d <= 9;
                    None
                }
            },
            None => {
                assert(dv_old * 10 + d > u64::MAX) by (nonlinear_arith)
                    requires dv_old > u64::MAX;
                None
            },
        };
        pos = pos.next(c);
    }
    proof {
        lemma_run_end_ge(s, CharClass::Digit, start + 1);
    }
    (val, pos)
}

/// A run ends at or after its start, and within the input if it starts there.
pub proof fn lemma_run_end_ge(s: Seq<char>, cls: CharClass, i: int)
    requires
        0 <= i,
    ensures
        i <= run_end(s, cls, i),
        i <= s.len() ==> run_end(s, cls, i) <= s.len(),
    decreases s.len() - i,
{
    if i < s.len() && class_accepts(cls, s[i]) {
        lemma_run_end_ge(s, cls, i + 1);
    }
}

pub struct Integer;

impl Integer {
    /// An integer: an optional `-`, then `0` or a non-zero digit and more digits.
    /// One whose value does not fit in `i64` is an error.
    #[verifier::rlimit(30)]
    pub fn parse(input: &TextInput, current: SimplePosition) -> (r: ResultOf<i64>)
        requires
            input.wf(),
            current.wf(),
        ensures
            r matches Ok((_, p)) ==> current.index < p.index,
            match spec_integer(input.text(), current.index as int) {
                Some((n, e)) => r matches Ok((v, p)) && v == n && p.index == e
                    && p == pos_after(input.text(), current, e)
                    && input.valid_pos(p),
                None => r matches Err(err) && err.trail() == seq![
                    (Some(current), Reason::Number),
                ],
            },
    {
        let ghost s = input.text();
        let negative = (current.index as usize) < input.chars.len()
            && input.chars[current.index as usize] == '-';
        let start = if negative {
            proof {
                lemma_pos_after_one(s, current);
            }
            current.next('-')
        } else {
            current
        };
        let i = start.index as usize;
        if i < input.chars.len() && '1' <= input.chars[i] && input.chars[i] <= '9' {
            let (val, end) = read_digits(input, start);
            proof {
                lemma_pos_after_trans(s, current, start.index as int, end.index as int);
            }
            match val {
                None => Err(SimpleError::at(current, Reason::Number)),
                Some(m) => {
                    if negative {
                        if m < 0x8000_0000_0000_0000 {
                            Ok((-(m as i64), end))
                        } else if m == 0x8000_0000_0000_0000 {
                            Ok((i64::MIN, end))
                        } else {
                            Err(SimpleError::at(current, Reason::Number))
                        }
                    } else if m <= i64::MAX as u64 {
                        Ok((m as i64, end))
                    } else {
                        Err(SimpleError::at(current, Reason::Number))
                    }
                },
            }
        } else if i < input.chars.len() && input.chars[i] == '0' {
            let end = start.next('0');
            proof {
                lemma_pos_after_one(s, start);
                lemma_pos_after_trans(s, current, start.index as int, end.index as int);
            }
            Ok((0, end))
        } else {
            Err(SimpleError::at(current, Reason::Number))
        }
    }
}

pub struct Fraction;

impl Fraction {
    /// An optional `.` followed by digits: magnitude and digit count, `(0, 0)` when absent.
    /// A magnitude that does not fit in `u64` is an error.
    pub fn parse(input: &TextInput, current: SimplePosition) -> (r: ResultOf<(u64, u32)>)
        requires
            input.wf(),
            input.valid_pos(current),
        ensures
            r matches Ok((_, p)) ==> current.index <= p.index,
            match spec_fraction(input.text(), current.index as int) {
                Some((f, fl, e)) => r matches Ok((v, p)) && v.0 == f && v.1 == fl
                    && p.index == e
                    && p == pos_after(input.text(), current, e) && input.valid_pos(p),
                None => r matches Err(err) && err.trail() == seq![
                    (Some(current), Reason::Number),
                ],
            },
    {
        let i = current.index as usize;
        if i + 1 < input.chars.len() && input.chars[i] == '.' && '0' <= input.chars[i + 1]
            && input.chars[i + 1] <= '9' {
            let start = current.next('.');
            let (val, end) = read_digits(input, start);
            proof {
                lemma_pos_after_one(input.text(), current);
                lemma_pos_after_trans(input.text(), current, start.index as int, end.index as int);
            }
            match val {
                None => Err(SimpleError::at(current, Reason::Number)),
                Some(v) => Ok(((v, end.index - start.index), end)),
            }
        } else {
            Ok(((0, 0), current))
        }
    }
}

pub struct Exponent;

impl Exponent {
    /// An optional exponent: `e` or `E`, an optional sign, digits; 0 when absent.
    /// A magnitude that does not fit in `i32` is an error.
    #[verifier::rlimit(30)]
    pub fn parse(input: &TextInput, current: SimplePosition) -> (r: ResultOf<i32>)
        requires
            input.wf(),
            input.valid_pos(current),
        ensures
            r matches Ok((_, p)) ==> current.index <= p.index,
            match spec_exponent(input.text(), current.index as int) {
                Some((x, e)) => r matches Ok((v, p)) && v == x && p.index == e
                    && p == pos_after(input.text(), current, e)
                    && input.valid_pos(p),
                None => r matches Err(err) && err.trail() == seq![
                    (Some(current), Reason::Number),
                ],
            },
    {
        let i = current.index as usize;
        let n = input.chars.len();
        if !(i < n && (input.chars[i] == 'e' || input.chars[i] == 'E')) {
            return Ok((0, current));
        }
        let after_e = current.next(input.chars[i]);
        proof {
            lemma_pos_after_one(input.text(), current);
        }
        let negative = i + 1 < n && input.chars[i + 1] == '-';
        let start = if i + 1 < n && (input.chars[i + 1] == '+' || input.chars[i + 1] == '-') {
            proof {
                lemma_pos_after_one(input.text(), after_e);
                lemma_pos_after_trans(input.text(), current, i + 1, i + 2);
            }
            after_e.next(input.chars[i + 1])
        } else {
            after_e
        };
        let j = start.index as usize;
        if !(j < n && '0' <= input.chars[j] && input.chars[j] <= '9') {
            return Ok((0, current));
        }
        let (val, end) = read_digits(input, start);
        proof {
            lemma_pos_after_trans(input.text(), current, start.index as int, end.index as int);
        }
        match val {
            Some(v) => {
                if v <= i32::MAX as u64 {
                    if negative {
                        Ok((-(v as i32), end))
                    } else {
                        Ok((v as i32, end))
                    }
                } else {
                    Err(SimpleError::at(current, Reason::Number))
                }
            },
            None => Err(SimpleError::at(current, Reason::Number)),
        }
    }
}

/// The trail of a failed number at `p`: one entry at the part that failed, the integer,
/// or a fraction or exponent whose value does not fit.
pub open spec fn number_trail(s: Seq<char>, p: SimplePosition) -> Seq<(Option<SimplePosition>, Reason)> {
    let i = p.index as int;
    match spec_integer(s, i) {
        None => seq![(Some(p), Reason::Number)],
        Some((_, e1)) => match spec_fraction(s, e1) {
            None => seq![(Some(pos_after(s, p, e1)), Reason::Number)],
            Some((_, _, e2)) => seq![(Some(pos_after(s, p, e2)), Reason::Number)],
        },
    }
}

pub struct Number;

impl Number {
    /// A number: integer, fraction and exponent, kept exactly.
    pub fn parse(input: &TextInput, current: SimplePosition) -> (r: ResultOf<NumberValue>)
        requires
            input.wf(),
            current.wf(),
        ensures
            r matches Ok((_, p)) ==> current.index < p.index,
            match spec_number(input.text(), current.index as int) {
                Some((v, e)) => r matches Ok((n, p)) && n == v && p.index == e
                    && p == pos_after(input.text(), current, e)
                    && input.valid_pos(p),
                None => r matches Err(err) && err.trail() == number_trail(input.text(), current),
            },
    {
        let (integer, next) = Integer::parse(input, current)?;
        let ((fraction, fraction_length), next) = Fraction::parse(input, next)?;
        let (exponent, next) = Exponent::parse(input, next)?;
        Ok((NumberValue { integer, fraction, fraction_length, exponent }, next))
    }
}

// ---------------------------------------------------------------------------
// Strings
// ---------------------------------------------------------------------------

pub open spec fn hex_val(c: char) -> nat {
    if '0' <= c <= '9' {
        (c as int - '0' as int) as nat
    } else if 'a' <= c <= 'f' {
        (c as int - 'a' as int + 10) as nat
    } else {
        (c as int - 'A' as int + 10) as nat
    }
}

pub open spec fn is_hex(c: char) -> bool {
    class_accepts(CharClass::Hex, c)
}

/// Whether `v` is a Unicode scalar value.
pub open spec fn is_scalar(v: int) -> bool {
    (0 <= v < 0xD800) || (0xE000 <= v <= 0x10FFFF)
}

/// The letters that stand for themselves after a backslash.
pub open spec fn is_escape_letter(c: char) -> bool {
    c == '"' || c == '\\' || c == '/' || c == 'b' || c == 'f' || c == 'n' || c == 'r' || c == 't'
}

/// The code point of the four hex digits at `i`, most significant first.
pub open spec fn hex4_value(s: Seq<char>, i: int) -> nat {
    hex_val(s[i]) * 4096 + hex_val(s[i + 1]) * 256 + hex_val(s[i + 2]) * 16 + hex_val(s[i + 3])
}

/// The escape whose letter is at `i` (just past the backslash): code point and end.
pub open spec fn spec_escape(s: Seq<char>, i: int) -> Option<(u32, int)> {
    if 0 <= i < s.len() && is_escape_letter(s[i]) {
        Some((s[i] as u32, i + 1))
    } else if 0 <= i && i + 4 < s.len() && s[i] == 'u' && is_hex(s[i + 1]) && is_hex(s[i + 2])
        && is_hex(s[i + 3]) && is_hex(s[i + 4]) && is_scalar(hex4_value(s, i + 1) as int) {
        Some((hex4_value(s, i + 1) as u32, i + 5))
    } else {
        None
    }
}

/// One character of a string at `i`: an escape, any character but `"`.
pub open spec fn spec_character(s: Seq<char>, i: int) -> Option<(u32, int)> {
    if 0 <= i < s.len() && s[i] == '\\' {
        spec_escape(s, i + 1)
    } else if 0 <= i < s.len() && s[i] != '"' {
        Some((s[i] as u32, i + 1))
    } else {
        None
    }
}

/// As many characters as match from `i`: their code points and the end.
pub open spec fn spec_characters(s: Seq<char>, i: int) -> (Seq<u32>, int)
    decreases s.len() - i,
{
    match spec_character(s, i) {
        Some((c, j)) => if i < j <= s.len() {
            let rest = spec_characters(s, j);
            (seq![c] + rest.0, rest.1)
        } else {
            (Seq::empty(), i)
        },
        None => (Seq::empty(), i),
    }
}

/// A string at `i`: `"`, characters, `"`; its code points and end.
pub open spec fn spec_string(s: Seq<char>, i: int) -> Option<(Seq<u32>, int)> {
    let (cs, e) = spec_characters(s, i + 1);
    if 0 <= i < s.len() && s[i] == '"' && 0 <= e < s.len() && s[e] == '"' {
        Some((cs, e + 1))
    } else {
        None
    }
}

/// The code points of a sequence of characters.
pub open spec fn codes(cs: Seq<char>) -> Seq<u32> {
    cs.map_values(|c: char| c as u32)
}

/// Relies on char::from_u32: `Some` exactly for scalar values, holding that code point.
#[verifier::external_body]
fn char_from_u32(v: u32) -> (r: Option<char>)
    ensures
        r is Some <==> is_scalar(v as int),
        r matches Some(c) ==> c as u32 == v,
{
    char::from_u32(v)
}

/// The trail of a failed hex digit at `p`.
pub open spec fn hex_trail(s: Seq<char>, p: SimplePosition) -> Seq<(Option<SimplePosition>, Reason)> {
    expect_trail(s, p).push((Some(p), Reason::Hex))
}

/// The index of the first of the four places after `i` that holds no hex digit, or
/// `i + 5` when all four do.
pub open spec fn first_non_hex(s: Seq<char>, i: int) -> int {
    if !(i + 1 < s.len() && is_hex(s[i + 1])) {
        i + 1
    } else if !(i + 2 < s.len() && is_hex(s[i + 2])) {
        i + 2
    } else if !(i + 3 < s.len() && is_hex(s[i + 3])) {
        i + 3
    } else if !(i + 4 < s.len() && is_hex(s[i + 4])) {
        i + 4
    } else {
        i + 5
    }
}

/// The trail of a failed escape whose letter should be at `p`.
pub open spec fn escape_trail(s: Seq<char>, p: SimplePosition) -> Seq<(Option<SimplePosition>, Reason)> {
    let i = p.index as int;
    if i >= s.len() {
        seq![(Some(p), Reason::OutOfBounds), (Some(p), Reason::Escape)]
    } else if s[i] == 'u' && first_non_hex(s, i) <= i + 4 {
        hex_trail(s, pos_after(s, p, first_non_hex(s, i))).push((Some(p), Reason::Escape))
    } else {
        seq![(Some(p), Reason::Escape)]
    }
}

/// The trail of a failed string character at `p`: past the end, a failed escape after a
/// backslash, or a `"`.
pub open spec fn character_trail(s: Seq<char>, p: SimplePosition) -> Seq<(Option<SimplePosition>, Reason)> {
    let i = p.index as int;
    if i >= s.len() {
        seq![(Some(p), Reason::OutOfBounds), (Some(p), Reason::Character)]
    } else if s[i] == '\\' {
        escape_trail(s, pos_after(s, p, i + 1))
    } else {
        seq![(Some(p), Reason::Character)]
    }
}

/// The trail of a failed string at `p`: the opening or the closing quote is missing.
pub open spec fn string_trail(s: Seq<char>, p: SimplePosition) -> Seq<(Option<SimplePosition>, Reason)> {
    let i = p.index as int;
    if 0 <= i < s.len() && s[i] == '"' {
        expect_trail(s, pos_after(s, p, spec_characters(s, i + 1).1)).push(
            (Some(p), Reason::String),
        )
    } else {
        expect_trail(s, p).push((Some(p), Reason::String))
    }
}

pub struct Hex;

impl Hex {
    /// One hex digit and its value.
    pub fn parse(input: &TextInput, current: SimplePosition) -> (r: ResultOf<u32>)
        requires
            input.wf(),
            current.wf(),
        ensures
            match r {
                Ok((v, p)) => current.index < input.text().len()
                    && is_hex(input.text()[current.index as int])
                    && v == hex_val(input.text()[current.index as int])
                    && p.index == current.index + 1
                    && p == pos_after(input.text(), current, current.index + 1)
                    && input.valid_pos(p),
                Err(e) => !(current.index < input.text().len()
                    && is_hex(input.text()[current.index as int]))
                    && e.trail() == hex_trail(input.text(), current),
            },
    {
        match (ExpectChar { class: CharClass::Hex }).parse(input, current) {
            Err(e) => Err(e.add_reason(Some(current), Reason::Hex)),
            Ok((c, next)) => {
                let v: u32 = if '0' <= c && c <= '9' {
                    c as u32 - '0' as u32
                } else if 'a' <= c && c <= 'f' {
                    c as u32 - 'a' as u32 + 10
                } else {
                    c as u32 - 'A' as u32 + 10
                };
                Ok((v, next))
            },
        }
    }
}

pub struct Escape;

impl Escape {
    /// What follows a backslash: a letter that stands for itself, or `u` and four hex
    /// digits that name a scalar value.
    #[verifier::rlimit(30)]
    pub fn parse(input: &TextInput, current: SimplePosition) -> (r: ResultOf<char>)
        requires
            input.wf(),
            current.wf(),
        ensures
            match spec_escape(input.text(), current.index as int) {
                Some((v, e)) => r matches Ok((c, p)) && c as u32 == v && p.index == e
                    && p == pos_after(input.text(), current, e)
                    && input.valid_pos(p),
                None => r matches Err(err) && err.trail() == escape_trail(input.text(), current),
            },
    {
        let (c, next) = match input.next(current) {
            Ok(x) => x,
            Err(e) => { return Err(e.add_reason(Some(current), Reason::Escape)); },
        };
        if c == '"' || c == '\\' || c == '/' || c == 'b' || c == 'f' || c == 'n' || c == 'r'
            || c == 't' {
            Ok((c, next))
        } else if c == 'u' {
            let ghost s = input.text();
            let ghost i = current.index as int;
            let (b1, n1) = match Hex::parse(input, next) {
                Ok(x) => x,
                Err(e) => { return Err(e.add_reason(Some(current), Reason::Escape)); },
            };
            proof {
                lemma_pos_after_trans(s, current, i + 1, i + 2);
            }
            let (b2, n2) = match Hex::parse(input, n1) {
                Ok(x) => x,
                Err(e) => { return Err(e.add_reason(Some(current), Reason::Escape)); },
            };
            proof {
                lemma_pos_after_trans(s, current, i + 2, i + 3);
            }
            let (b3, n3) = match Hex::parse(input, n2) {
                Ok(x) => x,
                Err(e) => { return Err(e.add_reason(Some(current), Reason::Escape)); },
            };
            proof {
                lemma_pos_after_trans(s, current, i + 3, i + 4);
            }
            let (b4, next) = match Hex::parse(input, n3) {
                Ok(x) => x,
                Err(e) => { return Err(e.add_reason(Some(current), Reason::Escape)); },
            };
            proof {
                lemma_pos_after_trans(s, current, i + 4, i + 5);
            }
            let v: u32 = b1 * 4096 + b2 * 256 + b3 * 16 + b4;
            match char_from_u32(v) {
                Some(c) => Ok((c, next)),
                None => Err(input.error_at(current, Reason::Escape)),
            }
        } else {
            Err(input.error_at(current, Reason::Escape))
        }
    }
}

pub struct Character;

impl Character {
    /// One character of a string: an escape after a backslash, any character but `"`.
    pub fn parse(input: &TextInput, current: SimplePosition) -> (r: ResultOf<char>)
        requires
            input.wf(),
            current.wf(),
        ensures
            match spec_character(input.text(), current.index as int) {
                Some((v, e)) => r matches Ok((c, p)) && c as u32 == v && p.index == e
                    && p == pos_after(input.text(), current, e)
                    && current.index < e && input.valid_pos(p),
                None => r matches Err(err) && err.trail() == character_trail(
                    input.text(),
                    current,
                ),
            },
    {
        let (c, next) = match input.next(current) {
            Ok(x) => x,
            Err(e) => { return Err(e.add_reason(Some(current), Reason::Character)); },
        };
        if c == '\\' {
            Escape::parse(input, next)
        } else if c == '"' {
            Err(input.error_at(current, Reason::Character))
        } else {
            Ok((c, next))
        }
    }
}

pub struct Characters;

impl Characters {
    /// As many characters as match, decoded; never fails.
    pub fn parse(input: &TextInput, current: SimplePosition) -> (r: (Vec<char>, SimplePosition))
        requires
            input.wf(),
            input.valid_pos(current),
        ensures
            codes(r.0@) == spec_characters(input.text(), current.index as int).0,
            r.1.index == spec_characters(input.text(), current.index as int).1,
            r.1 == pos_after(input.text(), current, r.1.index as int),
            current.index <= r.1.index,
            input.valid_pos(r.1),
    {
        let ghost s = input.text();
        let mut out: Vec<char> = Vec::new();
        let mut pos = current;
        loop
            invariant
                input.wf(),
                s == input.text(),
                input.valid_pos(pos),
                current.index <= pos.index,
                pos == pos_after(s, current, pos.index as int),
                input.valid_pos(current),
                spec_characters(s, current.index as int).0 == codes(out@)
                    + spec_characters(s, pos.index as int).0,
                spec_characters(s, current.index as int).1 == spec_characters(s, pos.index as int).1,
            decreases s.len() - pos.index,
        {
            match Character::parse(input, pos) {
                Ok((c, next)) => {
                    let ghost before = out@;
                    out.push(c);
                    assert(codes(out@) =~= codes(before) + seq![c as u32]);
                    assert(codes(before) + spec_characters(s, pos.index as int).0 =~= codes(out@)
                        + spec_characters(s, next.index as int).0);
                    proof {
                        lemma_pos_after_trans(s, current, pos.index as int, next.index as int);
                    }
                    pos = next;
                },
                Err(_) => {
                    assert(codes(out@) + spec_characters(s, pos.index as int).0 =~= codes(out@));
                    return (out, pos);
                },
            }
        }
    }
}

pub struct String;

impl String {
    /// A string: `"`, characters, `"`; its decoded characters.
    pub fn parse(input: &TextInput, current: SimplePosition) -> (r: ResultOf<Vec<char>>)
        requires
            input.wf(),
            current.wf(),
        ensures
            match spec_string(input.text(), current.index as int) {
                Some((cs, e)) => r matches Ok((v, p)) && codes(v@) == cs && p.index == e
                    && p == pos_after(input.text(), current, e)
                    && current.index < e && input.valid_pos(p),
                None => r matches Err(err) && err.trail() == string_trail(input.text(), current),
            },
    {
        let (_, next) = match (ExpectChar { class: CharClass::DoubleQuote }).parse(input, current) {
            Ok(x) => x,
            Err(e) => { return Err(e.add_reason(Some(current), Reason::String)); },
        };
        let (chars, next) = Characters::parse(input, next);
        match (ExpectChar { class: CharClass::DoubleQuote }).parse(input, next) {
            Ok((_, next)) => Ok((chars, next)),
            Err(e) => Err(e.add_reason(Some(current), Reason::String)),
        }
    }
}

pub struct Whitespace;

impl Whitespace {
    /// Skips spaces, tabs, carriage returns and line feeds; never fails.
    pub fn parse(input: &TextInput, current: SimplePosition) -> (r: SimplePosition)
        requires
            input.wf(),
            input.valid_pos(current),
        ensures
            r.index == run_end(input.text(), CharClass::Whitespace, current.index as int),
            r == pos_after(input.text(), current, r.index as int),
            current.index <= r.index,
            input.valid_pos(r),
    {
        let rule = zero_or_more(Rule::ExpectChar(CharClass::Whitespace));
        proof {
            law_repeated_class_is_run(CharClass::Whitespace, input.text(), current.index as int);
        }
        match rule.parse(input, current) {
            Ok((_, next)) => next,
            Err(_) => current,
        }
    }
}

// ---------------------------------------------------------------------------
// Values
// ---------------------------------------------------------------------------

/// Each character cut to the low eight bits of its code point.
pub open spec fn low_bytes(cs: Seq<char>) -> Seq<u8> {
    cs.map_values(|c: char| ((c as u32) % 256) as u8)
}

pub type JsonObject = Vec<(Vec<char>, JsonValue)>;

/// A parsed value. Object members keep their order, and a key may occur twice.
#[derive(Debug, PartialEq)]
pub enum JsonValue {
    Object(JsonObject),
    Array(Vec<JsonValue>),
    String(Vec<char>),
    Number(NumberValue),
    Boolean(bool),
    Null,
}

/// The mathematical content of a parsed value.
pub enum JsonModel {
    Object(Seq<(Seq<u32>, JsonModel)>),
    Array(Seq<JsonModel>),
    String(Seq<u32>),
    Number(NumberValue),
    Boolean(bool),
    Null,
}

/// Relies on String::push: appends the character.
#[verifier::external_body]
fn push_char(s: &mut std::string::String, c: char)
    ensures
        final(s)@ == old(s)@.push(c),
{
    s.push(c)
}

/// The models of the members of an object.
pub open spec fn pairs_model(o: Seq<(Vec<char>, JsonValue)>) -> Seq<(Seq<u32>, JsonModel)> {
    o.map_values(|m: (Vec<char>, JsonValue)| (codes(m.0@), m.1.model()))
}

/// The models of the items of an array.
pub open spec fn items_model(a: Seq<JsonValue>) -> Seq<JsonModel> {
    a.map_values(|v: JsonValue| v.model())
}

impl JsonValue {
    /// The members of an object.
    pub fn get_object(&self) -> (r: Result<&JsonObject, SimpleError>)
        ensures
            match self {
                JsonValue::Object(o) => r == Ok::<&JsonObject, SimpleError>(o),
                _ => r matches Err(e) && e.trail() == seq![
                    (None::<SimplePosition>, Reason::TypeMismatch),
                ],
            },
    {
        if let JsonValue::Object(obj) = self {
            return Ok(obj);
        }
        Err(SimpleError::plain_str(Reason::TypeMismatch))
    }

    /// The items of an array.
    pub fn get_array(&self) -> (r: Result<&Vec<JsonValue>, SimpleError>)
        ensures
            match self {
                JsonValue::Array(a) => r == Ok::<&Vec<JsonValue>, SimpleError>(a),
                _ => r matches Err(e) && e.trail() == seq![
                    (None::<SimplePosition>, Reason::TypeMismatch),
                ],
            },
    {
        if let JsonValue::Array(vec) = self {
            return Ok(vec);
        }
        Err(SimpleError::plain_str(Reason::TypeMismatch))
    }

    /// The characters of a string, as owned text.
    pub fn get_string(&self) -> (r: Result<std::string::String, SimpleError>)
        ensures
            match self {
                JsonValue::String(cs) => r matches Ok(t) && t@ == cs@,
                _ => r matches Err(e) && e.trail() == seq![
                    (None::<SimplePosition>, Reason::TypeMismatch),
                ],
            },
    {
        if let JsonValue::String(val) = self {
            let mut out = std::string::String::new();
            let mut i: usize = 0;
            while i < val.len()
                invariant
                    i <= val@.len(),
                    out@ == val@.subrange(0, i as int),
                decreases val@.len() - i,
            {
                push_char(&mut out, val[i]);
                i = i + 1;
                assert(out@ =~= val@.subrange(0, i as int));
            }
            assert(val@.subrange(0, val@.len() as int) =~= val@);
            return Ok(out);
        }
        Err(SimpleError::plain_str(Reason::TypeMismatch))
    }

    /// The characters of a string.
    pub fn get_chars(&self) -> (r: Result<Vec<char>, SimpleError>)
        ensures
            match self {
                JsonValue::String(cs) => r matches Ok(v) && v@ == cs@,
                _ => r matches Err(e) && e.trail() == seq![
                    (None::<SimplePosition>, Reason::TypeMismatch),
                ],
            },
    {
        if let JsonValue::String(val) = self {
            let mut out: Vec<char> = Vec::new();
            let mut i: usize = 0;
            while i < val.len()
                invariant
                    i <= val@.len(),
                    out@ == val@.subrange(0, i as int),
                decreases val@.len() - i,
            {
                out.push(val[i]);
                i = i + 1;
                assert(out@ =~= val@.subrange(0, i as int));
            }
            assert(val@.subrange(0, val@.len() as int) =~= val@);
            return Ok(out);
        }
        Err(SimpleError::plain_str(Reason::TypeMismatch))
    }

    /// The characters of a string, each cut to its low eight bits (lossy beyond ASCII).
    pub fn get_bytes(&self) -> (r: Result<Vec<u8>, SimpleError>)
        ensures
            match self {
                JsonValue::String(cs) => r matches Ok(v) && v@ == low_bytes(cs@),
                _ => r matches Err(e) && e.trail() == seq![
                    (None::<SimplePosition>, Reason::TypeMismatch),
                ],
            },
    {
        if let JsonValue::String(val) = self {
            let mut out: Vec<u8> = Vec::new();
            let mut i: usize = 0;
            while i < val.len()
                invariant
                    i <= val@.len(),
                    out@ == low_bytes(val@.subrange(0, i as int)),
                decreases val@.len() - i,
            {
                out.push(((val[i] as u32) % 256) as u8);
                i = i + 1;
                assert(out@ =~= low_bytes(val@.subrange(0, i as int)));
            }
            assert(val@.subrange(0, val@.len() as int) =~= val@);
            return Ok(out);
        }
        Err(SimpleError::plain_str(Reason::TypeMismatch))
    }

    /// The number of a number value, decomposed.
    pub fn get_number(&self) -> (r: Result<NumberValue, SimpleError>)
        ensures
            match self {
                JsonValue::Number(n) => r == Ok::<NumberValue, SimpleError>(*n),
                _ => r matches Err(e) && e.trail() == seq![
                    (None::<SimplePosition>, Reason::TypeMismatch),
                ],
            },
    {
        if let JsonValue::Number(val) = self {
            return Ok(*val);
        }
        Err(SimpleError::plain_str(Reason::TypeMismatch))
    }

    /// The truth value of a boolean.
    pub fn get_bool(&self) -> (r: Result<bool, SimpleError>)
        ensures
            match self {
                JsonValue::Boolean(b) => r == Ok::<bool, SimpleError>(*b),
                _ => r matches Err(e) && e.trail() == seq![
                    (None::<SimplePosition>, Reason::TypeMismatch),
                ],
            },
    {
        if let JsonValue::Boolean(val) = self {
            return Ok(*val);
        }
        Err(SimpleError::plain_str(Reason::TypeMismatch))
    }

    pub fn is_null(&self) -> (r: bool)
        ensures
            r == (self is Null),
    {
        if let JsonValue::Null = self {
            return true;
        }
        false
    }

    pub open spec fn model(self) -> JsonModel
        decreases self,
    {
        match self {
            JsonValue::Object(o) => JsonModel::Object(
                Seq::new(
                    o@.len(),
                    |i: int|
                        if 0 <= i < o@.len() {
                            (codes(o@[i].0@), o@[i].1.model())
                        } else {
                            (Seq::empty(), JsonModel::Null)
                        },
                ),
            ),
            JsonValue::Array(a) => JsonModel::Array(
                Seq::new(
                    a@.len(),
                    |i: int|
                        if 0 <= i < a@.len() {
                            a@[i].model()
                        } else {
                            JsonModel::Null
                        },
                ),
            ),
            JsonValue::String(cs) => JsonModel::String(codes(cs@)),
            JsonValue::Number(n) => JsonModel::Number(n),
            JsonValue::Boolean(b) => JsonModel::Boolean(b),
            JsonValue::Null => JsonModel::Null,
        }
    }
}

pub open spec fn ws_end(s: Seq<char>, i: int) -> int {
    run_end(s, CharClass::Whitespace, i)
}

/// Whether the characters of `w` stand at `i`.
pub open spec fn word_at(s: Seq<char>, i: int, w: Seq<char>) -> bool {
    0 <= i && i + w.len() <= s.len() && s.subrange(i, i + w.len()) == w
}

/// A value at `i`: tried as an object, an array, a string, a number, then as the words
/// `null`, `true` (four characters) and `false` (five); its model and end.
pub open spec fn spec_value(s: Seq<char>, i: int) -> Option<(JsonModel, int)>
    decreases s.len() - i, 3nat,
{
    if i < 0 || i > s.len() {
        None
    } else if let Some((ms, e)) = spec_object(s, i) {
        Some((JsonModel::Object(ms), e))
    } else if let Some((vs, e)) = spec_array(s, i) {
        Some((JsonModel::Array(vs), e))
    } else if let Some((cs, e)) = spec_string(s, i) {
        Some((JsonModel::String(cs), e))
    } else if let Some((n, e)) = spec_number(s, i) {
        Some((JsonModel::Number(n), e))
    } else if word_at(s, i, seq!['n', 'u', 'l', 'l']) {
        Some((JsonModel::Null, i + 4))
    } else if word_at(s, i, seq!['t', 'r', 'u', 'e']) {
        Some((JsonModel::Boolean(true), i + 4))
    } else if word_at(s, i, seq!['f', 'a', 'l', 's', 'e']) {
        Some((JsonModel::Boolean(false), i + 5))
    } else {
        None
    }
}

/// An object at `i`: `{`, members or only whitespace, `}`; its members and end.
pub open spec fn spec_object(s: Seq<char>, i: int) -> Option<(Seq<(Seq<u32>, JsonModel)>, int)>
    decreases s.len() - i, 2nat,
{
    if 0 <= i < s.len() && s[i] == '{' {
        let (ms, k) = match spec_members(s, i + 1) {
            Some((ms, e)) => (ms, e),
            None => (Seq::empty(), ws_end(s, i + 1)),
        };
        if 0 <= k < s.len() && s[k] == '}' {
            Some((ms, k + 1))
        } else {
            None
        }
    } else {
        None
    }
}

/// An array at `i`: `[`, elements or only whitespace, `]`; its items and end.
pub open spec fn spec_array(s: Seq<char>, i: int) -> Option<(Seq<JsonModel>, int)>
    decreases s.len() - i, 2nat,
{
    if 0 <= i < s.len() && s[i] == '[' {
        let (vs, k) = match spec_elements(s, i + 1) {
            Some((vs, e)) => (vs, e),
            None => (Seq::empty(), ws_end(s, i + 1)),
        };
        if 0 <= k < s.len() && s[k] == ']' {
            Some((vs, k + 1))
        } else {
            None
        }
    } else {
        None
    }
}

/// An element at `i`: whitespace, a value, whitespace; the value and end.
pub open spec fn spec_element(s: Seq<char>, i: int) -> Option<(JsonModel, int)>
    decreases s.len() - i, 4nat,
{
    let j = ws_end(s, i);
    if 0 <= i <= j <= s.len() {
        match spec_value(s, j) {
            Some((v, e)) => Some((v, ws_end(s, e))),
            None => None,
        }
    } else {
        None
    }
}

/// A member at `i`: whitespace, a string, whitespace, `:`, an element; key, value and end.
pub open spec fn spec_member(s: Seq<char>, i: int) -> Option<((Seq<u32>, JsonModel), int)>
    decreases s.len() - i, 4nat,
{
    match spec_string(s, ws_end(s, i)) {
        Some((key, e)) => {
            let k = ws_end(s, e);
            if 0 <= i < k < s.len() && s[k] == ':' {
                match spec_element(s, k + 1) {
                    Some((v, e2)) => Some(((key, v), e2)),
                    None => None,
                }
            } else {
                None
            }
        },
        None => None,
    }
}

/// Members at `i`: a member, then any number of `,` and a member; all of them and the end.
pub open spec fn spec_members(s: Seq<char>, i: int) -> Option<(Seq<(Seq<u32>, JsonModel)>, int)>
    decreases s.len() - i, 5nat,
{
    match spec_member(s, i) {
        Some((m, e)) => if 0 <= i < e <= s.len() {
            let rest = spec_more_members(s, e);
            Some((seq![m] + rest.0, rest.1))
        } else {
            None
        },
        None => None,
    }
}

/// The members of the `,` member pairs that follow at `i`, and their end.
pub open spec fn spec_more_members(s: Seq<char>, i: int) -> (Seq<(Seq<u32>, JsonModel)>, int)
    decreases s.len() - i, 0nat,
{
    if 0 <= i < s.len() && s[i] == ',' {
        match spec_member(s, i + 1) {
            Some((m, e)) => if i < e <= s.len() {
                let rest = spec_more_members(s, e);
                (seq![m] + rest.0, rest.1)
            } else {
                (Seq::empty(), i)
            },
            None => (Seq::empty(), i),
        }
    } else {
        (Seq::empty(), i)
    }
}

/// Elements at `i`: an element, then any number of `,` and an element; all and the end.
pub open spec fn spec_elements(s: Seq<char>, i: int) -> Option<(Seq<JsonModel>, int)>
    decreases s.len() - i, 5nat,
{
    match spec_element(s, i) {
        Some((v, e)) => if 0 <= i < e <= s.len() {
            let rest = spec_more_elements(s, e);
            Some((seq![v] + rest.0, rest.1))
        } else {
            None
        },
        None => None,
    }
}

/// The items of the `,` element pairs that follow at `i`, and their end.
pub open spec fn spec_more_elements(s: Seq<char>, i: int) -> (Seq<JsonModel>, int)
    decreases s.len() - i, 0nat,
{
    if 0 <= i < s.len() && s[i] == ',' {
        match spec_element(s, i + 1) {
            Some((v, e)) => if i < e <= s.len() {
                let rest = spec_more_elements(s, e);
                (seq![v] + rest.0, rest.1)
            } else {
                (Seq::empty(), i)
            },
            None => (Seq::empty(), i),
        }
    } else {
        (Seq::empty(), i)
    }
}

/// Whether `w` holds exactly the four characters given.
fn is_word4(w: &Vec<char>, a: char, b: char, c: char, d: char) -> (r: bool)
    requires
        w@.len() == 4,
    ensures
        r == (w@ == seq![a, b, c, d]),
{
    let r = w[0] == a && w[1] == b && w[2] == c && w[3] == d;
    assert(r ==> w@ =~= seq![a, b, c, d]);
    r
}

/// Whether `w` holds exactly the five characters given.
fn is_word5(w: &Vec<char>, a: char, b: char, c: char, d: char, e: char) -> (r: bool)
    requires
        w@.len() == 5,
    ensures
        r == (w@ == seq![a, b, c, d, e]),
{
    let r = w[0] == a && w[1] == b && w[2] == c && w[3] == d && w[4] == e;
    assert(r ==> w@ =~= seq![a, b, c, d, e]);
    r
}

/// Whether a number starts with `c`.
pub open spec fn starts_number(c: char) -> bool {
    c == '-' || is_digit(c)
}

/// The trail of a failed value at `p`. Where an object, an array, a string or a number has
/// begun (by its first character), its trail with `Value` added; else out of bounds where
/// fewer than five characters are left (the words are read four and five at a time), else
/// no rule matched.
pub open spec fn value_trail(s: Seq<char>, p: SimplePosition) -> Seq<(Option<SimplePosition>, Reason)>
    decreases s.len() - p.index, 3nat,
{
    let i = p.index as int;
    if i < s.len() && s[i] == '{' {
        object_trail(s, p).push((Some(p), Reason::Value))
    } else if i < s.len() && s[i] == '[' {
        array_trail(s, p).push((Some(p), Reason::Value))
    } else if i < s.len() && s[i] == '"' {
        string_trail(s, p).push((Some(p), Reason::Value))
    } else if i < s.len() && starts_number(s[i]) {
        number_trail(s, p).push((Some(p), Reason::Value))
    } else if p.index + 5 > s.len() {
        seq![(Some(p), Reason::OutOfBounds)]
    } else {
        seq![(Some(p), Reason::Value)]
    }
}

/// The trail of a failed element at `p`: the value's, past the leading whitespace.
pub open spec fn element_trail(s: Seq<char>, p: SimplePosition) -> Seq<(Option<SimplePosition>, Reason)>
    decreases s.len() - p.index, 4nat,
{
    let q = pos_after(s, p, ws_end(s, p.index as int));
    if p.index <= q.index <= s.len() {
        value_trail(s, q).push((Some(p), Reason::Element))
    } else {
        seq![(Some(p), Reason::OutOfBounds), (Some(p), Reason::Element)]
    }
}

/// The trail of a failed member at `p`: of its key, of its colon, or of its value.
pub open spec fn member_trail(s: Seq<char>, p: SimplePosition) -> Seq<(Option<SimplePosition>, Reason)>
    decreases s.len() - p.index, 4nat,
{
    let w = ws_end(s, p.index as int);
    let inner = match spec_string(s, w) {
        None => string_trail(s, pos_after(s, p, w)),
        Some((_, e)) => {
            let k = ws_end(s, e);
            let q = pos_after(s, p, k + 1);
            if k >= s.len() {
                seq![(Some(pos_after(s, p, k)), Reason::OutOfBounds)]
            } else if s[k] != ':' {
                seq![(Some(pos_after(s, p, k)), Reason::Character)]
            } else if p.index < q.index <= s.len() {
                element_trail(s, q)
            } else {
                Seq::empty()
            }
        },
    };
    inner.push((Some(p), Reason::Member))
}

/// The trail of failed members at `p`: the first member's.
pub open spec fn members_trail(s: Seq<char>, p: SimplePosition) -> Seq<(Option<SimplePosition>, Reason)>
    decreases s.len() - p.index, 5nat,
{
    member_trail(s, p).push((Some(p), Reason::Members))
}

/// The trail of failed elements at `p`: the first element's.
pub open spec fn elements_trail(s: Seq<char>, p: SimplePosition) -> Seq<(Option<SimplePosition>, Reason)>
    decreases s.len() - p.index, 5nat,
{
    element_trail(s, p).push((Some(p), Reason::Elements))
}

/// The trail of a failed object at `p`. Without its opening brace, that match's trail.
/// Where members fail and what follows the brace is not whitespace and a closing brace,
/// the members' trail. Else the missing closing brace's trail. `Object` is added to each.
pub open spec fn object_trail(s: Seq<char>, p: SimplePosition) -> Seq<(Option<SimplePosition>, Reason)>
    decreases s.len() - p.index, 2nat,
{
    let i = p.index as int;
    if 0 <= i < s.len() && s[i] == '{' {
        let q = pos_after(s, p, i + 1);
        let w = ws_end(s, i + 1);
        match spec_members(s, i + 1) {
            Some((_, e)) => expect_trail(s, pos_after(s, p, e)).push((Some(p), Reason::Object)),
            None => if !(w < s.len() && s[w] == '}') && p.index < q.index <= s.len() {
                members_trail(s, q).push((Some(p), Reason::Object))
            } else {
                expect_trail(s, pos_after(s, p, w)).push((Some(p), Reason::Object))
            },
        }
    } else {
        expect_trail(s, p).push((Some(p), Reason::Object))
    }
}

/// The trail of a failed array at `p`, in the same way as an object's: its opening
/// bracket's, the elements', or the closing bracket's, with `Array` added.
pub open spec fn array_trail(s: Seq<char>, p: SimplePosition) -> Seq<(Option<SimplePosition>, Reason)>
    decreases s.len() - p.index, 2nat,
{
    let i = p.index as int;
    if 0 <= i < s.len() && s[i] == '[' {
        let q = pos_after(s, p, i + 1);
        let w = ws_end(s, i + 1);
        match spec_elements(s, i + 1) {
            Some((_, e)) => expect_trail(s, pos_after(s, p, e)).push((Some(p), Reason::Array)),
            None => if !(w < s.len() && s[w] == ']') && p.index < q.index <= s.len() {
                elements_trail(s, q).push((Some(p), Reason::Array))
            } else {
                expect_trail(s, pos_after(s, p, w)).push((Some(p), Reason::Array))
            },
        }
    } else {
        expect_trail(s, p).push((Some(p), Reason::Array))
    }
}

pub struct Value;

impl Value {
    /// A value: an object, an array, a string, a number, or `null`, `true`, `false`,
    /// tried in that order at the same position. Where one of the first four has begun
    /// and fails, its trail is kept and `Value` added.
    #[verifier::rlimit(30)]
    pub fn parse(input: &TextInput, current: SimplePosition) -> (r: ResultOf<JsonValue>)
        requires
            input.wf(),
            current.wf(),
        ensures
            match spec_value(input.text(), current.index as int) {
                Some((m, e)) => r matches Ok((v, p)) && v.model() == m && p.index == e
                    && p == pos_after(input.text(), current, e)
                    && current.index < e && input.valid_pos(p),
                None => r matches Err(err) && err.trail() == value_trail(input.text(), current),
            },
        decreases input.text().len() - current.index, 3nat,
    {
        let i = current.index as usize;
        let first: Option<char> = if i < input.chars.len() {
            Some(input.chars[i])
        } else {
            None
        };
        match Object::parse(input, current) {
            Ok((output, next)) => {
                let ghost members = output@;
                let v = JsonValue::Object(output);
                assert(v.model() matches JsonModel::Object(ms) && ms =~= pairs_model(members));
                return Ok((v, next));
            },
            Err(e) => {
                if first == Some('{') {
                    return Err(e.add_reason(Some(current), Reason::Value));
                }
            },
        }
        match Array::parse(input, current) {
            Ok((output, next)) => {
                let ghost items = output@;
                let v = JsonValue::Array(output);
                assert(v.model() matches JsonModel::Array(vs) && vs =~= items_model(items));
                return Ok((v, next));
            },
            Err(e) => {
                if first == Some('[') {
                    return Err(e.add_reason(Some(current), Reason::Value));
                }
            },
        }
        match String::parse(input, current) {
            Ok((output, next)) => {
                return Ok((JsonValue::String(output), next));
            },
            Err(e) => {
                if first == Some('"') {
                    return Err(e.add_reason(Some(current), Reason::Value));
                }
            },
        }
        match Number::parse(input, current) {
            Ok((output, next)) => {
                return Ok((JsonValue::Number(output), next));
            },
            Err(e) => {
                if let Some(c) = first {
                    if c == '-' || ('0' <= c && c <= '9') {
                        return Err(e.add_reason(Some(current), Reason::Value));
                    }
                }
            },
        }
        let (word, next) = input.next_range(current, 4)?;
        if is_word4(&word, 'n', 'u', 'l', 'l') {
            return Ok((JsonValue::Null, next));
        }
        if is_word4(&word, 't', 'r', 'u', 'e') {
            return Ok((JsonValue::Boolean(true), next));
        }
        let (word, next) = input.next_range(current, 5)?;
        if is_word5(&word, 'f', 'a', 'l', 's', 'e') {
            return Ok((JsonValue::Boolean(false), next));
        }
        Err(input.error_at(current, Reason::Value))
    }
}

pub struct Object;

impl Object {
    /// An object: `{`, members or only whitespace, `}`. An empty object has no members.
    /// Where members fail and no `}` follows the whitespace, their trail is kept.
    pub fn parse(input: &TextInput, current: SimplePosition) -> (r: ResultOf<JsonObject>)
        requires
            input.wf(),
            current.wf(),
        ensures
            match spec_object(input.text(), current.index as int) {
                Some((ms, e)) => r matches Ok((o, p)) && pairs_model(o@) == ms && p.index == e
                    && p == pos_after(input.text(), current, e) && current.index < e
                    && input.valid_pos(p),
                None => r matches Err(err) && err.trail() == object_trail(input.text(), current),
            },
        decreases input.text().len() - current.index, 2nat,
    {
        let (_, next) = match (ExpectChar { class: CharClass::OpenCurlyBracket }).parse(input, current) {
            Ok(x) => x,
            Err(e) => { return Err(e.add_reason(Some(current), Reason::Object)); },
        };
        let (members, next) = match Members::parse(input, next) {
            Ok((m, p)) => (m, p),
            Err(e) => {
                let w = Whitespace::parse(input, next);
                if !((w.index as usize) < input.chars.len() && input.chars[w.index as usize] == '}') {
                    return Err(e.add_reason(Some(current), Reason::Object));
                }
                (Vec::new(), w)
            },
        };
        let (_, next) = match (ExpectChar { class: CharClass::CloseCurlyBracket }).parse(input, next) {
            Ok(x) => x,
            Err(e) => { return Err(e.add_reason(Some(current), Reason::Object)); },
        };
        Ok((members, next))
    }
}

pub struct Array;

impl Array {
    /// An array: `[`, elements or only whitespace, `]`. An empty array has no items.
    /// Where elements fail and no `]` follows the whitespace, their trail is kept.
    pub fn parse(input: &TextInput, current: SimplePosition) -> (r: ResultOf<Vec<JsonValue>>)
        requires
            input.wf(),
            current.wf(),
        ensures
            match spec_array(input.text(), current.index as int) {
                Some((vs, e)) => r matches Ok((a, p)) && items_model(a@) == vs && p.index == e
                    && p == pos_after(input.text(), current, e) && current.index < e
                    && input.valid_pos(p),
                None => r matches Err(err) && err.trail() == array_trail(input.text(), current),
            },
        decreases input.text().len() - current.index, 2nat,
    {
        let (_, next) = match (ExpectChar { class: CharClass::OpenSquareBracket }).parse(input, current) {
            Ok(x) => x,
            Err(e) => { return Err(e.add_reason(Some(current), Reason::Array)); },
        };
        let (elements, next) = match Elements::parse(input, next) {
            Ok((v, p)) => (v, p),
            Err(e) => {
                let w = Whitespace::parse(input, next);
                if !((w.index as usize) < input.chars.len() && input.chars[w.index as usize] == ']') {
                    return Err(e.add_reason(Some(current), Reason::Array));
                }
                (Vec::new(), w)
            },
        };
        let (_, next) = match (ExpectChar { class: CharClass::CloseSquareBracket }).parse(input, next) {
            Ok(x) => x,
            Err(e) => { return Err(e.add_reason(Some(current), Reason::Array)); },
        };
        Ok((elements, next))
    }
}

pub struct Element;

impl Element {
    /// A value with the whitespace around it.
    pub fn parse(input: &TextInput, current: SimplePosition) -> (r: ResultOf<JsonValue>)
        requires
            input.wf(),
            current.wf(),
        ensures
            match spec_element(input.text(), current.index as int) {
                Some((m, e)) => r matches Ok((v, p)) && v.model() == m && p.index == e
                    && p == pos_after(input.text(), current, e)
                    && current.index < e
                    && input.valid_pos(p),
                None => r matches Err(err) && err.trail() == element_trail(input.text(), current),
            },
        decreases input.text().len() - current.index, 4nat,
    {
        let next = if current.index as usize <= input.chars.len() {
            Whitespace::parse(input, current)
        } else {
            current
        };
        let (output, next) = match Value::parse(input, next) {
            Ok(x) => x,
            Err(e) => { return Err(e.add_reason(Some(current), Reason::Element)); },
        };
        let next2 = Whitespace::parse(input, next);
        Ok((output, next2))
    }
}

pub struct Member;

impl Member {
    /// A key and a value: whitespace, a string, whitespace, `:`, an element.
    pub fn parse(input: &TextInput, current: SimplePosition) -> (r: ResultOf<(Vec<char>, JsonValue)>)
        requires
            input.wf(),
            current.wf(),
        ensures
            match spec_member(input.text(), current.index as int) {
                Some((m, e)) => r matches Ok((kv, p)) && codes(kv.0@) == m.0
                    && kv.1.model() == m.1 && p.index == e
                    && p == pos_after(input.text(), current, e) && current.index < e
                    && input.valid_pos(p),
                None => r matches Err(err) && err.trail() == member_trail(input.text(), current),
            },
        decreases input.text().len() - current.index, 4nat,
    {
        let next = if current.index as usize <= input.chars.len() {
            Whitespace::parse(input, current)
        } else {
            current
        };
        let (key, next) = match String::parse(input, next) {
            Ok(x) => x,
            Err(e) => { return Err(e.add_reason(Some(current), Reason::Member)); },
        };
        let next = Whitespace::parse(input, next);
        let next = match input.next(next) {
            Ok((c, after)) => {
                if c == ':' {
                    after
                } else {
                    return Err(input.error_at(next, Reason::Character).add_reason(
                        Some(current),
                        Reason::Member,
                    ));
                }
            },
            Err(e) => { return Err(e.add_reason(Some(current), Reason::Member)); },
        };
        let (value, next) = match Element::parse(input, next) {
            Ok(x) => x,
            Err(e) => { return Err(e.add_reason(Some(current), Reason::Member)); },
        };
        Ok(((key, value), next))
    }
}

pub struct Members;

impl Members {
    /// Members separated by commas, at least one, in the order met.
    #[verifier::rlimit(30)]
    pub fn parse(input: &TextInput, current: SimplePosition) -> (r: ResultOf<JsonObject>)
        requires
            input.wf(),
            current.wf(),
        ensures
            match spec_members(input.text(), current.index as int) {
                Some((ms, e)) => r matches Ok((o, p)) && pairs_model(o@) == ms && p.index == e
                    && p == pos_after(input.text(), current, e) && current.index < e
                    && input.valid_pos(p),
                None => r matches Err(err) && err.trail() == members_trail(input.text(), current),
            },
        decreases input.text().len() - current.index, 5nat,
    {
        let ghost s = input.text();
        let (first, mut pos) = match Member::parse(input, current) {
            Ok(x) => x,
            Err(e) => { return Err(e.add_reason(Some(current), Reason::Members)); },
        };
        let mut result: JsonObject = Vec::new();
        result.push(first);
        assert(pairs_model(result@) =~= seq![(codes(first.0@), first.1.model())]);
        loop
            invariant
                input.wf(),
                s == input.text(),
                input.valid_pos(pos),
                current.index < pos.index,
                pos == pos_after(s, current, pos.index as int),
                input.valid_pos(current),
                spec_members(s, current.index as int) == Some(
                    (
                        pairs_model(result@) + spec_more_members(s, pos.index as int).0,
                        spec_more_members(s, pos.index as int).1,
                    ),
                ),
            decreases s.len() - pos.index,
        {
            if (pos.index as usize) < input.chars.len() && input.chars[pos.index as usize] == ',' {
                let after_comma = pos.next(',');
                proof {
                    lemma_pos_after_one(s, pos);
                    lemma_pos_after_trans(s, current, pos.index as int, after_comma.index as int);
                }
                match Member::parse(input, after_comma) {
                    Ok((m, next)) => {
                        let ghost before = result@;
                        result.push(m);
                        assert(pairs_model(result@) =~= pairs_model(before).push(
                            (codes(m.0@), m.1.model()),
                        ));
                        assert(pairs_model(result@) + spec_more_members(s, next.index as int).0
                            =~= pairs_model(before) + spec_more_members(s, pos.index as int).0);
                        proof {
                            lemma_pos_after_trans(s, current, after_comma.index as int, next.index as int);
                        }
                        pos = next;
                    },
                    Err(_) => {
                        assert(pairs_model(result@) + spec_more_members(s, pos.index as int).0
                            =~= pairs_model(result@));
                        return Ok((result, pos));
                    },
                }
            } else {
                return Ok((result, pos));
            }
        }
    }
}

pub struct Elements;

impl Elements {
    /// Elements separated by commas, at least one, in the order met.
    #[verifier::rlimit(30)]
    pub fn parse(input: &TextInput, current: SimplePosition) -> (r: ResultOf<Vec<JsonValue>>)
        requires
            input.wf(),
            current.wf(),
        ensures
            match spec_elements(input.text(), current.index as int) {
                Some((vs, e)) => r matches Ok((a, p)) && items_model(a@) == vs && p.index == e
                    && p == pos_after(input.text(), current, e) && current.index < e
                    && input.valid_pos(p),
                None => r matches Err(err) && err.trail() == elements_trail(input.text(), current),
            },
        decreases input.text().len() - current.index, 5nat,
    {
        let ghost s = input.text();
        let (first, mut pos) = match Element::parse(input, current) {
            Ok(x) => x,
            Err(e) => { return Err(e.add_reason(Some(current), Reason::Elements)); },
        };
        let mut result: Vec<JsonValue> = Vec::new();
        result.push(first);
        assert(items_model(result@) =~= seq![first.model()]);
        loop
            invariant
                input.wf(),
                s == input.text(),
                input.valid_pos(pos),
                current.index < pos.index,
                pos == pos_after(s, current, pos.index as int),
                input.valid_pos(current),
                spec_elements(s, current.index as int) == Some(
                    (
                        items_model(result@) + spec_more_elements(s, pos.index as int).0,
                        spec_more_elements(s, pos.index as int).1,
                    ),
                ),
            decreases s.len() - pos.index,
        {
            if (pos.index as usize) < input.chars.len() && input.chars[pos.index as usize] == ',' {
                let after_comma = pos.next(',');
                proof {
                    lemma_pos_after_one(s, pos);
                    lemma_pos_after_trans(s, current, pos.index as int, after_comma.index as int);
                }
                match Element::parse(input, after_comma) {
                    Ok((v, next)) => {
                        let ghost before = result@;
                        result.push(v);
                        assert(items_model(result@) =~= items_model(before).push(v.model()));
                        assert(items_model(result@) + spec_more_elements(s, next.index as int).0
                            =~= items_model(before) + spec_more_elements(s, pos.index as int).0);
                        proof {
                            lemma_pos_after_trans(s, current, after_comma.index as int, next.index as int);
                        }
                        pos = next;
                    },
                    Err(_) => {
                        assert(items_model(result@) + spec_more_elements(s, pos.index as int).0
                            =~= items_model(result@));
                        return Ok((result, pos));
                    },
                }
            } else {
                return Ok((result, pos));
            }
        }
    }
}

/// The top-level rule: one element.
pub fn parse_json(input: &TextInput, current: SimplePosition) -> (r: ResultOf<JsonValue>)
    requires
        input.wf(),
        current.wf(),
    ensures
        match spec_element(input.text(), current.index as int) {
            Some((m, e)) => r matches Ok((v, p)) && v.model() == m && p.index == e
                    && p == pos_after(input.text(), current, e)
                && input.valid_pos(p),
            None => r matches Err(err) && err.trail() == element_trail(input.text(), current),
        },
{
    Element::parse(input, current)
}

// ---------------------------------------------------------------------------
// Laws
// ---------------------------------------------------------------------------

pub open spec fn pow10(k: nat) -> nat
    decreases k,
{
    if k == 0 {
        1
    } else {
        10 * pow10((k - 1) as nat)
    }
}

/// Reading two runs of digits one after the other is reading the first, shifted left by
/// the length of the second, plus the second.
pub proof fn lemma_digits_value_concat(a: Seq<char>, b: Seq<char>)
    ensures
        digits_value(a + b) == digits_value(a) * pow10(b.len()) + digits_value(b),
    decreases b.len(),
{
    if b.len() == 0 {
        assert(a + b =~= a);
        assert(pow10(0) == 1);
        assert(digits_value(a) * 1 == digits_value(a));
    } else {
        let b0 = b.drop_last();
        assert((a + b).drop_last() =~= a + b0);
        assert((a + b).last() == b.last());
        lemma_digits_value_concat(a, b0);
        let x = digits_value(a);
        let p = pow10(b0.len());
        let y = digits_value(b0);
        let d = digit_val(b.last());
        assert(digits_value(a + b) == digits_value(a + b0) * 10 + d);
        assert(digits_value(b) == y * 10 + d);
        assert(pow10(b.len()) == 10 * p);
        assert((x * p + y) * 10 + d == x * (10 * p) + (y * 10 + d)) by (nonlinear_arith);
    }
}

/// Where the digits of the integer part of a number at `i` begin.
pub open spec fn integer_digits_start(s: Seq<char>, i: int) -> int {
    if s[i] == '-' {
        i + 1
    } else {
        i
    }
}

/// A number is decomposed without loss: the integer part is the value of its digits,
/// with the sign written before them, and the digits before and after the point, read
/// as one integer, equal the integer part's magnitude times `10^fraction_length` plus
/// the fraction. So `±I.F` is exactly `±(|integer| * 10^fraction_length + fraction)`
/// over `10^fraction_length`. Beyond rounding where a float is made of it, the one loss is
/// the sign of a literal whose integer part is 0 (`-0.5`).
pub proof fn law_number_is_exact(s: Seq<char>, i: int)
    requires
        s.len() < u32::MAX,
        spec_number(s, i) is Some,
    ensures
        ({
            let n = spec_number(s, i).unwrap().0;
            let a = integer_digits_start(s, i);
            let b = spec_integer(s, i).unwrap().1;
            let fl = n.fraction_length as int;
            let int_digits = s.subrange(a, b);
            let frac_digits = if fl > 0 {
                s.subrange(b + 1, b + 1 + fl)
            } else {
                Seq::empty()
            };
            &&& s[i] == '-' ==> n.integer == -digits_value(int_digits)
            &&& s[i] != '-' ==> n.integer == digits_value(int_digits)
            &&& digits_value(int_digits + frac_digits) == digits_value(int_digits) * pow10(
                fl as nat,
            ) + n.fraction
        }),
{
    let n = spec_number(s, i).unwrap().0;
    let a = integer_digits_start(s, i);
    let b = spec_integer(s, i).unwrap().1;
    assert(0 <= a < s.len());
    let int_digits = s.subrange(a, b);
    let m = spec_positive_integer(s, a).unwrap().0;
    if class_accepts(CharClass::OneToNine, s[a]) {
        lemma_run_end_ge(s, CharClass::Digit, a);
    } else {
        assert(s[a] == '0');
        assert(b == a + 1);
        assert(int_digits.drop_last() =~= Seq::<char>::empty());
        assert(int_digits.last() == '0');
        assert(digits_value(Seq::<char>::empty()) == 0);
        assert(digits_value(int_digits) == 0);
    }
    assert(m == digits_value(int_digits));
    if s[i] == '-' {
        assert(spec_integer(s, i).unwrap().0 == -m);
        assert(n.integer == -m);
    }
    let (f, fl, e2) = spec_fraction(s, b).unwrap();
    if 0 <= b && b + 1 < s.len() && s[b] == '.' && is_digit(s[b + 1]) {
        lemma_run_end_ge(s, CharClass::Digit, b + 2);
        lemma_run_end_ge(s, CharClass::Digit, b + 1);
        assert(e2 == b + 1 + fl);
        assert(fl > 0);
        assert(n.fraction_length == fl);
        assert(n.fraction == f);
        assert(f == digits_value(s.subrange(b + 1, b + 1 + fl)));
        lemma_digits_value_concat(int_digits, s.subrange(b + 1, b + 1 + fl));
    } else {
        assert(n.fraction_length == 0);
        assert(n.fraction == 0);
        assert(int_digits + Seq::<char>::empty() =~= int_digits);
        assert(pow10(0) == 1);
        assert(digits_value(int_digits) * 1 == digits_value(int_digits));
    }
}

/// A value read as a number is the number rule's result, so its parts are exact as
/// `law_number_is_exact` states: the parse keeps the literal's digits without rounding.
pub proof fn law_value_number_is_exact(s: Seq<char>, i: int)
    requires
        s.len() < u32::MAX,
        spec_value(s, i) matches Some((JsonModel::Number(_), _)),
    ensures
        spec_number(s, i) is Some,
        spec_value(s, i) == Some(
            (JsonModel::Number(spec_number(s, i).unwrap().0), spec_number(s, i).unwrap().1),
        ),
{
    law_number_is_exact(s, i);
}

} // verus!
