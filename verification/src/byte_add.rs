//! Three ways of adding two bytes: checked, wrapping and saturating.
use vstd::prelude::*;
use crate::text::{fields_of, split_fields, str_equals};

verus! {

/// The largest value a byte can hold.
pub open spec fn byte_max() -> int {
    255
}

/// The checked sum: the mathematical sum when it fits in a byte, `None` otherwise.
pub open spec fn spec_add_checked(a: u8, b: u8) -> Option<u8> {
    if a + b <= byte_max() {
        Some((a + b) as u8)
    } else {
        None
    }
}

/// The wrapping sum: the mathematical sum modulo 256.
pub open spec fn spec_add_wrapping(a: u8, b: u8) -> u8 {
    ((a + b) % 256) as u8
}

/// The saturating sum: the mathematical sum, clamped to 255.
pub open spec fn spec_add_saturating(a: u8, b: u8) -> u8 {
    if a + b <= byte_max() {
        (a + b) as u8
    } else {
        255u8
    }
}

/// Adds two bytes, returning `None` when the sum does not fit in a byte.
pub fn add_u8_checked(a: u8, b: u8) -> (res: Option<u8>)
    ensures
        res == spec_add_checked(a, b),
        res is Some <==> a + b <= 255,
        res matches Some(s) ==> s == a + b,
{
    let res: u16 = a as u16 + b as u16;
    if res > u8::MAX as u16 {
        None
    } else {
        Some(res as u8)
    }
}

/// Adds two bytes, wrapping around on overflow.
pub fn add_u8_wrapping(a: u8, b: u8) -> (res: u8)
    ensures
        res == spec_add_wrapping(a, b),
        a + b <= 255 ==> res == a + b,
        a + b > 255 ==> res == a + b - 256,
{
    let res: u16 = a as u16 + b as u16;
    proof {
        assert(res as u8 == res % 256) by (bit_vector);
    }
    res as u8
}

/// Adds two bytes, clamping the result to 255 on overflow.
pub fn add_u8_saturating(a: u8, b: u8) -> (res: u8)
    ensures
        res == spec_add_saturating(a, b),
        res == if a + b <= 255 { a + b } else { 255 },
{
    let res: u16 = a as u16 + b as u16;
    if res > u8::MAX as u16 {
        u8::MAX
    } else {
        res as u8
    }
}

/// The three additions agree wherever the sum fits in a byte; on overflow the
/// checked sum is absent, the saturating sum is 255 and the wrapping sum is
/// the sum less 256, which is smaller than both operands.
pub proof fn lemma_additions_agree(a: u8, b: u8)
    ensures
        spec_add_checked(a, b) matches Some(s) ==> s == spec_add_wrapping(a, b) && s
            == spec_add_saturating(a, b),
        spec_add_checked(a, b) is None ==> spec_add_saturating(a, b) == 255
            && spec_add_wrapping(a, b) < a && spec_add_wrapping(a, b) < b,
        spec_add_saturating(a, b) == match spec_add_checked(a, b) {
            Some(s) => s,
            None => 255u8,
        },
{
}

/// How two bytes are added.
#[derive(Debug, Clone, Copy, PartialEq, Eq, Structural)]
pub enum AddMode {
    /// `add_u8_checked`: overflow is an error.
    Checked,
    /// `add_u8_wrapping`: the sum wraps around.
    Wrapped,
    /// `add_u8_saturating`: the sum is clamped to 255.
    Saturated,
}

/// The mode named by `name`: `checked`, `wrapped` or `saturated`; `None`
/// for any other name.
pub fn parse_mode(name: &str) -> (mode: Option<AddMode>)
    ensures
        mode == Some(AddMode::Checked) <==> name@ == "checked"@,
        mode == Some(AddMode::Wrapped) <==> name@ == "wrapped"@,
        mode == Some(AddMode::Saturated) <==> name@ == "saturated"@,
{
    proof {
        reveal_strlit("checked");
        reveal_strlit("wrapped");
        reveal_strlit("saturated");
    }
    assert("checked"@[0] != "wrapped"@[0] && "checked"@[0] != "saturated"@[0] && "wrapped"@[0]
        != "saturated"@[0]);
    if str_equals(name, "checked") {
        Some(AddMode::Checked)
    } else if str_equals(name, "wrapped") {
        Some(AddMode::Wrapped)
    } else if str_equals(name, "saturated") {
        Some(AddMode::Saturated)
    } else {
        None
    }
}

/// Adds two bytes in the given mode; `None` only for a checked sum that
/// does not fit in a byte.
pub fn add_in_mode(mode: AddMode, a: u8, b: u8) -> (sum: Option<u8>)
    ensures
        mode == AddMode::Checked ==> sum == spec_add_checked(a, b),
        mode == AddMode::Wrapped ==> sum == Some(spec_add_wrapping(a, b)),
        mode == AddMode::Saturated ==> sum == Some(spec_add_saturating(a, b)),
{
    match mode {
        AddMode::Checked => add_u8_checked(a, b),
        AddMode::Wrapped => Some(add_u8_wrapping(a, b)),
        AddMode::Saturated => Some(add_u8_saturating(a, b)),
    }
}

/// Whether `c` is an ASCII decimal digit.
pub open spec fn is_decimal_digit(c: char) -> bool {
    48 <= (c as int) <= 57
}

/// The number written by the decimal digits `d`.
pub open spec fn decimal_value(d: Seq<char>) -> int
    decreases d.len(),
{
    if d.len() == 0 {
        0
    } else {
        decimal_value(d.drop_last()) * 10 + ((d.last() as int) - 48)
    }
}

/// `s` without a leading `+`, if it has one.
pub open spec fn unsigned_digits(s: Seq<char>) -> Seq<char> {
    if s.len() > 0 && s[0] == '+' {
        s.drop_first()
    } else {
        s
    }
}

/// Whether every character of `d` is a decimal digit.
pub open spec fn all_decimal_digits(d: Seq<char>) -> bool {
    forall|k: int| 0 <= k < d.len() ==> is_decimal_digit(#[trigger] d[k])
}

/// The byte that `s` denotes, as `u8::from_str` reads it: an optional `+`
/// followed by one or more decimal digits whose value is at most 255.
pub open spec fn spec_parse_u8(s: Seq<char>) -> Option<u8> {
    let d = unsigned_digits(s);
    if d.len() > 0 && all_decimal_digits(d) && decimal_value(d) <= 255 {
        Some(decimal_value(d) as u8)
    } else {
        None
    }
}

proof fn lemma_decimal_value_grows(d: Seq<char>, k: int)
    requires
        0 <= k <= d.len(),
        forall|m: int| 0 <= m < d.len() ==> is_decimal_digit(#[trigger] d[m]),
    ensures
        decimal_value(d) >= decimal_value(d.take(k)),
        decimal_value(d) >= 0,
    decreases d.len(),
{
    if d.len() > 0 {
        let dl = d.drop_last();
        assert forall|m: int| 0 <= m < dl.len() implies is_decimal_digit(#[trigger] dl[m]) by {
            assert(dl[m] == d[m]);
        }
        if k < d.len() {
            lemma_decimal_value_grows(dl, k);
            assert(dl.take(k) =~= d.take(k));
        } else {
            lemma_decimal_value_grows(dl, 0);
            assert(d.take(k) =~= d);
        }
    } else {
        assert(d.take(k) =~= d);
    }
}

/// Reads a byte as `u8::from_str` does: an optional `+` followed by one or
/// more decimal digits with a value of at most 255; `None` otherwise.
pub fn parse_u8(s: &str) -> (b: Option<u8>)
    ensures
        b == spec_parse_u8(s@),
{
    let n = s.unicode_len();
    let start: usize = if n > 0 && s.get_char(0) == '+' {
        1
    } else {
        0
    };
    let ghost d = unsigned_digits(s@);
    assert(d =~= s@.skip(start as int));
    if start == n {
        return None;
    }
    let mut acc: u32 = 0;
    let mut i: usize = start;
    while i < n
        invariant
            n == s@.len(),
            start <= i <= n,
            d == s@.skip(start as int),
            d == unsigned_digits(s@),
            forall|k: int| 0 <= k < i - start ==> is_decimal_digit(#[trigger] d[k]),
            acc == decimal_value(d.take(i - start)),
            acc <= 255,
        decreases n - i,
    {
        let c = s.get_char(i);
        let ghost j = i - start;
        assert(d[j] == c);
        if !('0' <= c && c <= '9') {
            assert(!is_decimal_digit(d[j]));
            assert(!all_decimal_digits(d));
            assert(spec_parse_u8(s@) is None);
            return None;
        }
        assert(is_decimal_digit(d[j]));
        assert(d.take(j + 1).drop_last() =~= d.take(j));
        let next = acc * 10 + (c as u32 - 48);
        assert(next == decimal_value(d.take(j + 1)));
        if next > 255 {
            proof {
                if all_decimal_digits(d) {
                    lemma_decimal_value_grows(d, j + 1);
                }
                assert(spec_parse_u8(s@) is None);
            }
            return None;
        }
        acc = next;
        i = i + 1;
    }
    assert(d.take(n - start) =~= d);
    Some(acc as u8)
}

/// Why two bytes could not be read from a line.
#[derive(Debug, Clone, Copy, PartialEq, Eq, Structural)]
pub enum ByteInputError {
    /// One of the first two fields is not a byte.
    InvalidNumber,
    /// The line has fewer than two fields.
    MissingNumber,
}

/// Reads the first two whitespace-separated fields of `line` as bytes. The
/// fields are read in order: a first field that is not a byte is
/// `InvalidNumber` whatever follows it.
pub fn read_two_bytes(line: &str) -> (res: Result<(u8, u8), ByteInputError>)
    ensures
        ({
            let f = split_fields(line@, false);
            &&& f.len() == 0 ==> res == Err::<(u8, u8), ByteInputError>(
                ByteInputError::MissingNumber,
            )
            &&& f.len() >= 1 && spec_parse_u8(f[0]) is None ==> res == Err::<(u8, u8), ByteInputError>(
                ByteInputError::InvalidNumber,
            )
            &&& f.len() == 1 && spec_parse_u8(f[0]) is Some ==> res == Err::<(u8, u8), ByteInputError>(
                ByteInputError::MissingNumber,
            )
            &&& f.len() >= 2 && spec_parse_u8(f[0]) is Some && spec_parse_u8(f[1]) is None ==> res
                == Err::<(u8, u8), ByteInputError>(ByteInputError::InvalidNumber)
            &&& f.len() >= 2 && spec_parse_u8(f[0]) is Some && spec_parse_u8(f[1]) is Some ==> res
                == Ok::<(u8, u8), ByteInputError>(
                (spec_parse_u8(f[0])->0, spec_parse_u8(f[1])->0),
            )
        }),
{
    let fields = fields_of(line, false);
    if fields.len() == 0 {
        return Err(ByteInputError::MissingNumber);
    }
    assert(fields@[0]@ == split_fields(line@, false)[0]);
    let a = match parse_u8(fields[0].as_str()) {
        Some(a) => a,
        None => {
            return Err(ByteInputError::InvalidNumber);
        },
    };
    if fields.len() < 2 {
        return Err(ByteInputError::MissingNumber);
    }
    assert(fields@[1]@ == split_fields(line@, false)[1]);
    let b = match parse_u8(fields[1].as_str()) {
        Some(b) => b,
        None => {
            return Err(ByteInputError::InvalidNumber);
        },
    };
    Ok((a, b))
}

} // verus!
