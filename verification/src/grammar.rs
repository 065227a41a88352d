//! Coordinates as they are typed: three integers with commas between them.

use vstd::prelude::*;
use crate::error::Error;
use crate::geometry::Coordinate;

verus! {

/// The byte that parts the fields.
pub const COMMA: u8 = 44;

/// Whether `b` is one of the digits `0` to `9`.
pub open spec fn is_digit(b: u8) -> bool {
    48 <= b <= 57
}

/// Whether `s` holds digits and nothing else.
pub open spec fn all_digits(s: Seq<u8>) -> bool {
    forall|i: int| 0 <= i < s.len() ==> is_digit(#[trigger] s[i])
}

/// The number that a run of digits stands for, in base ten.
pub open spec fn digits_value(s: Seq<u8>) -> nat
    decreases s.len(),
{
    if s.len() == 0 {
        0
    } else {
        digits_value(s.drop_last()) * 10 + (s.last() - 48) as nat
    }
}

/// The integer that a field stands for: a `+` or `-` or neither, then at
/// least one digit and nothing but digits, and a value that a signed 32-bit
/// number can hold. Anything else, blanks included, stands for no integer.
pub open spec fn field_value(s: Seq<u8>) -> Option<int> {
    let signed = s.len() > 0 && (s[0] == 43 || s[0] == 45);
    let digits = if signed { s.skip(1) } else { s };
    let value = if signed && s[0] == 45 { -(digits_value(digits) as int) } else { digits_value(digits) as int };
    if digits.len() > 0 && all_digits(digits) && i32::MIN <= value <= i32::MAX {
        Some(value)
    } else {
        None
    }
}

/// How many bytes stand before the first comma of `s`, or the length of `s`
/// where it has none.
pub open spec fn first_comma(s: Seq<u8>) -> int
    decreases s.len(),
{
    if s.len() == 0 || s[0] == COMMA {
        0
    } else {
        1 + first_comma(s.skip(1))
    }
}

/// The coordinate that a text names: what stands before the first comma is
/// `x`, what stands between the first and the second is `y`, and all that
/// follows the second is `z`. Each of the three has to be an integer, so a
/// text with fewer or more than two commas names no coordinate.
pub open spec fn named_coordinate(s: Seq<u8>) -> Option<Coordinate> {
    let i = first_comma(s);
    if i >= s.len() {
        None
    } else {
        let t = s.skip(i + 1);
        let j = first_comma(t);
        if j >= t.len() {
            None
        } else {
            match (field_value(s.take(i)), field_value(t.take(j)), field_value(t.skip(j + 1))) {
                (Some(x), Some(y), Some(z)) => Some(
                    Coordinate { x: x as i32, y: y as i32, z: z as i32 },
                ),
                _ => None,
            }
        }
    }
}

/// The place of the first comma at or behind `from`, or the length of the
/// text where none follows.
fn find_comma(s: &[u8], from: usize) -> (at: usize)
    requires
        from <= s@.len(),
    ensures
        from <= at <= s@.len(),
        at == from + first_comma(s@.skip(from as int)),
{
    let mut at: usize = from;
    while at < s.len() && s[at] != COMMA
        invariant
            from <= at <= s@.len(),
            first_comma(s@.skip(from as int)) == (at - from) + first_comma(s@.skip(at as int)),
        decreases s@.len() - at,
    {
        assert(s@.skip(at as int).skip(1) =~= s@.skip(at + 1));
        assert(s@.skip(at as int)[0] == s@[at as int]);
        at = at + 1;
    }
    assert(at < s@.len() ==> s@.skip(at as int)[0] == s@[at as int]);
    at
}

/// Reads the field that runs from `from` up to `to`.
fn parse_field(s: &[u8], from: usize, to: usize) -> (r: Option<i32>)
    requires
        from <= to <= s@.len(),
    ensures
        match field_value(s@.subrange(from as int, to as int)) {
            Some(v) => r == Some(v as i32),
            None => r.is_none(),
        },
{
    let ghost field = s@.subrange(from as int, to as int);
    if from == to {
        return None;
    }
    assert(field[0] == s@[from as int]);
    let negative: bool = s[from] == 45;
    let signed: bool = negative || s[from] == 43;
    let start: usize = if signed { from + 1 } else { from };
    let ghost digits = s@.subrange(start as int, to as int);
    assert(digits =~= if signed { field.skip(1) } else { field });
    if start == to {
        return None;
    }
    let mut acc: i64 = 0;
    let mut too_large: bool = false;
    let mut at: usize = start;
    while at < to
        invariant
            start <= at <= to <= s@.len(),
            digits == s@.subrange(start as int, to as int),
            field == s@.subrange(from as int, to as int),
            field.len() > 0,
            signed == (field[0] == 43 || field[0] == 45),
            negative == (field[0] == 45),
            digits == (if signed { field.skip(1) } else { field }),
            all_digits(digits.take(at - start)),
            0 <= acc <= 0x8000_0000,
            !too_large ==> acc == digits_value(digits.take(at - start)),
            too_large ==> digits_value(digits.take(at - start)) > 0x8000_0000,
        decreases to - at,
    {
        let b: u8 = s[at];
        let ghost seen = digits.take(at - start);
        let ghost more = digits.take(at - start + 1);
        assert(more.drop_last() =~= seen);
        assert(more.last() == b);
        if b < 48 || b > 57 {
            assert(!is_digit(digits[at - start]));
            return None;
        }
        if !too_large {
            acc = acc * 10 + (b - 48) as i64;
            if acc > 0x8000_0000 {
                too_large = true;
                acc = 0;
            }
        }
        at = at + 1;
    }
    assert(digits.take(at - start) =~= digits);
    if too_large {
        None
    } else if negative {
        Some((-acc) as i32)
    } else if acc > 0x7fff_ffff {
        None
    } else {
        Some(acc as i32)
    }
}

/// Reads a coordinate of the form `x,y,z`: three integers, each with or
/// without a sign, and a comma between them; no blanks, and nothing before
/// or behind.
pub fn parse_coordinate(arg: &[u8]) -> (r: Result<Coordinate, Error>)
    ensures
        match named_coordinate(arg@) {
            Some(c) => r == Ok::<Coordinate, Error>(c),
            None => r == Err::<Coordinate, Error>(Error::CoordinateGrammar),
        },
{
    let i: usize = find_comma(arg, 0);
    assert(arg@.skip(0) =~= arg@);
    if i >= arg.len() {
        return Err(Error::CoordinateGrammar);
    }
    let j: usize = find_comma(arg, i + 1);
    if j >= arg.len() {
        return Err(Error::CoordinateGrammar);
    }
    proof {
        let t = arg@.skip(i + 1);
        assert(arg@.take(i as int) =~= arg@.subrange(0, i as int));
        assert(t.take(j - (i + 1)) =~= arg@.subrange(i + 1, j as int));
        assert(t.skip(j - (i + 1) + 1) =~= arg@.subrange(j + 1, arg@.len() as int));
    }
    let x = parse_field(arg, 0, i);
    let y = parse_field(arg, i + 1, j);
    let z = parse_field(arg, j + 1, arg.len());
    match (x, y, z) {
        (Some(x), Some(y), Some(z)) => Ok(Coordinate { x, y, z }),
        _ => Err(Error::CoordinateGrammar),
    }
}

/// Behind a run of bytes without a comma, the first comma is found where
/// the run ends.
proof fn lemma_first_comma(a: Seq<u8>, rest: Seq<u8>)
    requires
        forall|i: int| 0 <= i < a.len() ==> a[i] != COMMA,
    ensures
        first_comma(a + seq![COMMA] + rest) == a.len(),
    decreases a.len(),
{
    let all = a + seq![COMMA] + rest;
    if a.len() == 0 {
        assert(all[0] == COMMA);
    } else {
        assert(all[0] == a[0]);
        assert(all.skip(1) =~= a.skip(1) + seq![COMMA] + rest);
        lemma_first_comma(a.skip(1), rest);
    }
}

/// A field that stands for an integer holds no comma.
proof fn lemma_field_has_no_comma(a: Seq<u8>)
    requires
        field_value(a).is_some(),
    ensures
        forall|i: int| 0 <= i < a.len() ==> a[i] != COMMA,
        first_comma(a) == a.len(),
{
    let signed = a.len() > 0 && (a[0] == 43 || a[0] == 45);
    let digits = if signed { a.skip(1) } else { a };
    assert forall|i: int| 0 <= i < a.len() implies a[i] != COMMA by {
        if signed && i > 0 {
            assert(is_digit(digits[i - 1]));
        } else if !signed {
            assert(is_digit(digits[i]));
        }
    }
    lemma_no_comma(a);
}

/// A run of bytes without a comma has its first comma nowhere.
proof fn lemma_no_comma(a: Seq<u8>)
    requires
        forall|i: int| 0 <= i < a.len() ==> a[i] != COMMA,
    ensures
        first_comma(a) == a.len(),
    decreases a.len(),
{
    if a.len() > 0 {
        lemma_no_comma(a.skip(1));
    }
}

/// Three integers with a comma between them name the coordinate of those
/// three integers.
pub proof fn lemma_three_fields(a: Seq<u8>, b: Seq<u8>, c: Seq<u8>)
    requires
        field_value(a).is_some(),
        field_value(b).is_some(),
        field_value(c).is_some(),
    ensures
        named_coordinate(a + seq![COMMA] + b + seq![COMMA] + c) == Some(
            Coordinate {
                x: field_value(a).unwrap() as i32,
                y: field_value(b).unwrap() as i32,
                z: field_value(c).unwrap() as i32,
            },
        ),
{
    let s = a + seq![COMMA] + b + seq![COMMA] + c;
    let t = b + seq![COMMA] + c;
    lemma_field_has_no_comma(a);
    lemma_field_has_no_comma(b);
    assert(s =~= a + seq![COMMA] + t);
    lemma_first_comma(a, t);
    lemma_first_comma(b, c);
    assert(s.take(a.len() as int) =~= a);
    assert(s.skip(a.len() as int + 1) =~= t);
    assert(t.take(b.len() as int) =~= b);
    assert(t.skip(b.len() as int + 1) =~= c);
}

/// A text that names a coordinate has exactly two commas: more fields than
/// three, or fewer, name none.
pub proof fn lemma_two_commas(s: Seq<u8>)
    requires
        named_coordinate(s).is_some(),
    ensures
        ({
            let i = first_comma(s);
            let t = s.skip(i + 1);
            let j = first_comma(t);
            &&& i < s.len()
            &&& j < t.len()
            &&& s[i] == COMMA
            &&& t[j] == COMMA
            &&& forall|k: int| 0 <= k < s.len() && k != i && k != i + 1 + j ==> s[k] != COMMA
        }),
{
    let i = first_comma(s);
    let t = s.skip(i + 1);
    let j = first_comma(t);
    let u = t.skip(j + 1);
    lemma_first_comma_bounds(s);
    lemma_first_comma_bounds(t);
    lemma_field_has_no_comma(s.take(i));
    lemma_field_has_no_comma(t.take(j));
    lemma_field_has_no_comma(u);
    assert forall|k: int| 0 <= k < s.len() && k != i && k != i + 1 + j implies s[k] != COMMA by {
        if k < i {
            assert(s.take(i)[k] == s[k]);
        } else if k < i + 1 + j {
            assert(t.take(j)[k - i - 1] == s[k]);
        } else {
            assert(u[k - i - j - 2] == s[k]);
        }
    }
}

/// The first comma is found inside the text or at its end, and where it is
/// found inside, a comma stands there.
proof fn lemma_first_comma_bounds(s: Seq<u8>)
    ensures
        0 <= first_comma(s) <= s.len(),
        first_comma(s) < s.len() ==> s[first_comma(s)] == COMMA,
    decreases s.len(),
{
    if s.len() > 0 && s[0] != COMMA {
        lemma_first_comma_bounds(s.skip(1));
    }
}

} // verus!
