//! The text form of a point: two integers on a line, set apart by
//! whitespace.

use crate::Point;
use vstd::prelude::*;

verus! {

/// `c` is whitespace: a character with the Unicode property `White_Space`.
pub open spec fn is_space(c: char) -> bool {
    let code = c as u32;
    ||| 0x09 <= code <= 0x0d
    ||| code == 0x20
    ||| code == 0x85
    ||| code == 0xa0
    ||| code == 0x1680
    ||| 0x2000 <= code <= 0x200a
    ||| code == 0x2028
    ||| code == 0x2029
    ||| code == 0x202f
    ||| code == 0x205f
    ||| code == 0x3000
}

/// `c` is one of the ten digits.
pub open spec fn is_digit(c: char) -> bool {
    0x30 <= c as u32 <= 0x39
}

/// Every character of `s` is a digit.
pub open spec fn all_digits(s: Seq<char>) -> bool {
    forall|i: int| 0 <= i < s.len() ==> is_digit(#[trigger] s[i])
}

/// The number that the digits of `s` write in base ten.
pub open spec fn decimal(s: Seq<char>) -> int
    decreases s.len(),
{
    if s.len() == 0 {
        0
    } else {
        decimal(s.drop_last()) * 10 + (s.last() as u32 - 0x30)
    }
}

/// The integer that `token` writes: an optional sign, then one digit or
/// more, and nothing else; nothing where the number is beyond `i32`.
pub open spec fn integer_of(token: Seq<char>) -> Option<i32> {
    let signed = token.len() > 0 && (token[0] == '-' || token[0] == '+');
    let digits = if signed {
        token.subrange(1, token.len() as int)
    } else {
        token
    };
    let value = if signed && token[0] == '-' {
        -decimal(digits)
    } else {
        decimal(digits)
    };
    if digits.len() > 0 && all_digits(digits) && i32::MIN <= value <= i32::MAX {
        Some(value as i32)
    } else {
        None
    }
}

/// The first position at or after `from` that holds no whitespace, or the
/// length of `s`.
pub open spec fn spaces_end(s: Seq<char>, from: int) -> int
    decreases s.len() - from,
{
    if 0 <= from < s.len() && is_space(s[from]) {
        spaces_end(s, from + 1)
    } else {
        from
    }
}

/// The first position at or after `from` that holds whitespace, or the
/// length of `s`.
pub open spec fn token_end(s: Seq<char>, from: int) -> int
    decreases s.len() - from,
{
    if 0 <= from < s.len() && !is_space(s[from]) {
        token_end(s, from + 1)
    } else {
        from
    }
}

/// The point that `line` writes: its first two runs of characters that
/// are no whitespace must each write an integer. What follows them is not
/// looked at.
pub open spec fn point_of(line: Seq<char>) -> Option<Point> {
    let a = spaces_end(line, 0);
    let b = token_end(line, a);
    let c = spaces_end(line, b);
    let d = token_end(line, c);
    if a == b || c == d {
        None
    } else {
        match (integer_of(line.subrange(a, b)), integer_of(line.subrange(c, d))) {
            (Some(x), Some(z)) => Some(Point { x, z }),
            _ => None,
        }
    }
}

/// Digits never write less when more digits follow.
proof fn lemma_decimal_grows(s: Seq<char>, upto: int)
    requires
        all_digits(s),
        0 <= upto <= s.len(),
    ensures
        0 <= decimal(s.take(upto)) <= decimal(s),
    decreases s.len() - upto,
{
    if upto == s.len() {
        assert(s.take(upto) =~= s);
        lemma_decimal_nonnegative(s);
    } else {
        lemma_decimal_grows(s, upto + 1);
        assert(s.take(upto + 1).drop_last() =~= s.take(upto));
        assert(is_digit(s[upto]));
        assert(all_digits(s.take(upto)));
        lemma_decimal_nonnegative(s.take(upto));
    }
}

/// Digits write no negative number.
proof fn lemma_decimal_nonnegative(s: Seq<char>)
    requires
        all_digits(s),
    ensures
        0 <= decimal(s),
    decreases s.len(),
{
    if s.len() > 0 {
        assert(all_digits(s.drop_last()));
        lemma_decimal_nonnegative(s.drop_last());
        assert(is_digit(s.last()));
    }
}

fn is_space_char(c: char) -> (space: bool)
    ensures
        space == is_space(c),
{
    let code = c as u32;
    (0x09 <= code && code <= 0x0d) || code == 0x20 || code == 0x85 || code == 0xa0 || code
        == 0x1680 || (0x2000 <= code && code <= 0x200a) || code == 0x2028 || code == 0x2029
        || code == 0x202f || code == 0x205f || code == 0x3000
}

fn skip_spaces(chars: &Vec<char>, from: usize) -> (end: usize)
    requires
        from <= chars@.len(),
    ensures
        from <= end <= chars@.len(),
        end == spaces_end(chars@, from as int),
{
    let mut i = from;
    while i < chars.len() && is_space_char(chars[i])
        invariant
            from <= i <= chars@.len(),
            spaces_end(chars@, i as int) == spaces_end(chars@, from as int),
        decreases chars@.len() - i,
    {
        i += 1;
    }
    i
}

fn skip_token(chars: &Vec<char>, from: usize) -> (end: usize)
    requires
        from <= chars@.len(),
    ensures
        from <= end <= chars@.len(),
        end == token_end(chars@, from as int),
{
    let mut i = from;
    while i < chars.len() && !is_space_char(chars[i])
        invariant
            from <= i <= chars@.len(),
            token_end(chars@, i as int) == token_end(chars@, from as int),
        decreases chars@.len() - i,
    {
        i += 1;
    }
    i
}

#[verifier::loop_isolation(false)]
fn parse_integer(chars: &Vec<char>, from: usize, to: usize) -> (value: Option<i32>)
    requires
        from <= to <= chars@.len(),
    ensures
        value == integer_of(chars@.subrange(from as int, to as int)),
{
    let ghost token = chars@.subrange(from as int, to as int);
    if from == to {
        return None;
    }
    let first = chars[from];
    assert(first == token[0]);
    let negative = first == '-';
    let start = if first == '-' || first == '+' {
        from + 1
    } else {
        from
    };
    let ghost digits = chars@.subrange(start as int, to as int);
    assert(digits =~= if start > from {
        token.subrange(1, token.len() as int)
    } else {
        token
    });
    if start == to {
        return None;
    }
    let mut acc: i64 = 0;
    let mut i = start;
    while i < to
        invariant
            start <= i <= to <= chars@.len(),
            digits == chars@.subrange(start as int, to as int),
            all_digits(digits.take(i - start)),
            acc == decimal(digits.take(i - start)),
            0 <= acc <= 2147483648,
        decreases to - i,
    {
        let code = chars[i] as u32;
        assert(chars@[i as int] == digits[i - start]);
        if code < 0x30 || code > 0x39 {
            return None;
        }
        proof {
            assert(digits.take(i - start + 1).drop_last() =~= digits.take(i - start));
            assert(digits.take(i - start + 1).last() == digits[i - start]);
            assert forall|j: int| 0 <= j < i - start + 1 implies is_digit(
                #[trigger] digits.take(i - start + 1)[j],
            ) by {
                if j < i - start {
                    assert(digits.take(i - start + 1)[j] == digits.take(i - start)[j]);
                }
            }
        }
        acc = acc * 10 + (code - 0x30) as i64;
        if acc > 2147483648 {
            proof {
                if all_digits(digits) {
                    lemma_decimal_grows(digits, i - start + 1);
                }
            }
            return None;
        }
        i += 1;
    }
    assert(digits.take(to - start) =~= digits);
    let value = if negative {
        -acc
    } else {
        acc
    };
    if value > 2147483647 {
        None
    } else {
        Some(value as i32)
    }
}

/// The characters of `line`, one by one.
fn characters(line: &str) -> (chars: Vec<char>)
    ensures
        chars@ == line@,
{
    let mut chars: Vec<char> = Vec::new();
    for c in it: line.chars()
        invariant
            it.seq() == line@,
            chars@ == line@.take(it.index() as int),
    {
        chars.push(c);
        assert(chars@ =~= line@.take(it.index() + 1));
    }
    assert(line@.take(line@.len() as int) =~= line@);
    chars
}

/// Reads a point from a line of text: the first two runs of characters
/// that are no whitespace must each write an integer of 32 bits in base
/// ten, with or without a sign. Nothing is handed out for a line with
/// fewer than two such runs, or with one that writes no such integer.
pub fn parse_point(line: &str) -> (point: Option<Point>)
    ensures
        point == point_of(line@),
{
    let chars = characters(line);
    let a = skip_spaces(&chars, 0);
    let b = skip_token(&chars, a);
    let c = skip_spaces(&chars, b);
    let d = skip_token(&chars, c);
    if a == b || c == d {
        return None;
    }
    let x = parse_integer(&chars, a, b);
    let z = parse_integer(&chars, c, d);
    match (x, z) {
        (Some(x), Some(z)) => Some(Point { x, z }),
        _ => None,
    }
}

} // verus!
