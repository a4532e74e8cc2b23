//! Reading a `left,top,width,height` crop rectangle from text.

use vstd::prelude::*;
use crate::geometry::Rect;
use crate::text::str_chars;

verus! {

/// Unicode white space, as `char::is_whitespace` classifies it.
pub open spec fn is_space(c: char) -> bool {
    let u = c as u32;
    (0x9 <= u <= 0xd) || u == 0x20 || u == 0x85 || u == 0xa0 || u == 0x1680 || (0x2000 <= u <= 0x200a)
        || u == 0x2028 || u == 0x2029 || u == 0x202f || u == 0x205f || u == 0x3000
}

fn is_space_exec(c: char) -> (b: bool)
    ensures
        b == is_space(c),
{
    let u = c as u32;
    (0x9 <= u && u <= 0xd) || u == 0x20 || u == 0x85 || u == 0xa0 || u == 0x1680 || (0x2000 <= u && u
        <= 0x200a) || u == 0x2028 || u == 0x2029 || u == 0x202f || u == 0x205f || u == 0x3000
}

/// The pieces of `s` between commas, as `str::split(',')` gives them.
pub open spec fn split_commas(s: Seq<char>) -> Seq<Seq<char>>
    decreases s.len(),
{
    if s.len() == 0 {
        seq![Seq::<char>::empty()]
    } else {
        let parts = split_commas(s.drop_last());
        if s.last() == ',' {
            parts.push(Seq::<char>::empty())
        } else {
            parts.update(parts.len() - 1, parts.last().push(s.last()))
        }
    }
}

pub open spec fn trim_start(s: Seq<char>) -> Seq<char>
    decreases s.len(),
{
    if s.len() > 0 && is_space(s[0]) {
        trim_start(s.drop_first())
    } else {
        s
    }
}

pub open spec fn trim_end(s: Seq<char>) -> Seq<char>
    decreases s.len(),
{
    if s.len() > 0 && is_space(s.last()) {
        trim_end(s.drop_last())
    } else {
        s
    }
}

/// `s` without leading and trailing white space.
pub open spec fn trim(s: Seq<char>) -> Seq<char> {
    trim_end(trim_start(s))
}

pub open spec fn is_digit(c: char) -> bool {
    '0' <= c && c <= '9'
}

pub open spec fn all_digits(d: Seq<char>) -> bool {
    forall|i: int| 0 <= i < d.len() ==> #[trigger] is_digit(d[i])
}

/// The number written by the decimal digits `d`.
pub open spec fn digits_value(d: Seq<char>) -> int
    decreases d.len(),
{
    if d.len() == 0 {
        0
    } else {
        10 * digits_value(d.drop_last()) + (d.last() as int - '0' as int)
    }
}

/// The `i32` that `s` writes, as `i32::from_str` reads it: an optional `+`
/// or `-`, then one or more decimal digits; `None` for anything else and for
/// values outside `i32`.
pub open spec fn parse_i32(s: Seq<char>) -> Option<i32> {
    if s.len() == 0 {
        None
    } else {
        let signed = s[0] == '-' || s[0] == '+';
        let digits = if signed { s.drop_first() } else { s };
        let v = if s[0] == '-' { -digits_value(digits) } else { digits_value(digits) };
        if digits.len() == 0 || !all_digits(digits) || v < i32::MIN || v > i32::MAX {
            None
        } else {
            Some(v as i32)
        }
    }
}

/// The rectangle that a `left,top,width,height` text gives: exactly four
/// comma-separated integers, each possibly surrounded by white space, with
/// a positive width and height.
pub open spec fn rect_from_spec(s: Seq<char>) -> Option<Rect> {
    let parts = split_commas(s);
    if parts.len() != 4 {
        None
    } else {
        match (
            parse_i32(trim(parts[0])),
            parse_i32(trim(parts[1])),
            parse_i32(trim(parts[2])),
            parse_i32(trim(parts[3])),
        ) {
            (Some(left), Some(top), Some(width), Some(height)) => if width > 0 && height > 0 {
                Some(Rect { left, top, width, height })
            } else {
                None
            },
            _ => None,
        }
    }
}

/// The field reads as an integer that is zero or negative.
pub open spec fn non_positive_field(field: Seq<char>) -> bool {
    match parse_i32(trim(field)) {
        Some(v) => v <= 0,
        None => false,
    }
}

/// A rectangle read from a specification has a positive width and height;
/// four integer fields whose width or height is zero or negative give none.
pub proof fn lemma_rect_from_spec_positive(s: Seq<char>)
    ensures
        rect_from_spec(s) matches Some(x) ==> x.width > 0 && x.height > 0,
        ({
            let parts = split_commas(s);
            parts.len() == 4 && (non_positive_field(parts[2]) || non_positive_field(parts[3]))
                ==> rect_from_spec(s) is None
        }),
{
}

pub(crate) proof fn lemma_digits_value_grows(d: Seq<char>, k: int)
    requires
        all_digits(d),
        0 <= k <= d.len(),
    ensures
        digits_value(d.take(k)) <= digits_value(d),
        0 <= digits_value(d.take(k)),
    decreases d.len(),
{
    if d.len() > 0 {
        if k == d.len() {
            assert(d.take(k) =~= d);
            lemma_digits_value_grows(d.drop_last(), k - 1);
            assert(d.drop_last().take(k - 1) =~= d.drop_last());
            assert(is_digit(d[d.len() - 1]));
        } else {
            assert(d.drop_last().take(k) =~= d.take(k));
            lemma_digits_value_grows(d.drop_last(), k);
            assert(is_digit(d[d.len() - 1]));
        }
    } else {
        assert(d.take(k) =~= d);
    }
}

/// Parses `chars[a..b]` as `i32::from_str` does.
fn parse_i32_range(chars: &Vec<char>, a: usize, b: usize) -> (r: Option<i32>)
    requires
        a <= b <= chars@.len(),
    ensures
        r == parse_i32(chars@.subrange(a as int, b as int)),
{
    let ghost s = chars@.subrange(a as int, b as int);
    if a == b {
        return None;
    }
    let first = chars[a];
    let neg = first == '-';
    let signed = first == '-' || first == '+';
    let start = if signed { a + 1 } else { a };
    let ghost digits = chars@.subrange(start as int, b as int);
    proof {
        assert(s[0] == first);
        assert(digits =~= if signed { s.drop_first() } else { s });
    }
    if start == b {
        return None;
    }
    let mut acc: i64 = 0;
    let mut k = start;
    while k < b
        invariant
            a <= start <= k <= b <= chars@.len(),
            digits == chars@.subrange(start as int, b as int),
            s == chars@.subrange(a as int, b as int),
            s.len() > 0,
            s[0] == first,
            neg == (first == '-'),
            signed == (first == '-' || first == '+'),
            digits == if signed { s.drop_first() } else { s },
            all_digits(digits.take(k - start)),
            acc == digits_value(digits.take(k - start)),
            0 <= acc <= 2147483648,
        decreases b - k,
    {
        let c = chars[k];
        if !('0' <= c && c <= '9') {
            proof {
                assert(digits[k - start] == c);
                assert(!is_digit(digits[k - start]));
                assert(!all_digits(digits));
                assert(parse_i32(s) is None);
            }
            return None;
        }
        let ghost prefix = digits.take(k - start);
        proof {
            assert(digits.take(k + 1 - start).drop_last() =~= prefix);
            assert(digits.take(k + 1 - start).last() == c);
            assert forall|i: int| 0 <= i < k + 1 - start implies #[trigger] is_digit(digits.take(k + 1 - start)[i]) by {
                if i < k - start {
                    assert(digits.take(k + 1 - start)[i] == prefix[i]);
                }
            }
        }
        acc = acc * 10 + (c as u32 - '0' as u32) as i64;
        proof {
            assert(acc == digits_value(digits.take(k + 1 - start)));
        }
        if acc > 2147483648 {
            proof {
                if all_digits(digits) {
                    lemma_digits_value_grows(digits, k + 1 - start);
                }
            }
            return None;
        }
        k = k + 1;
    }
    proof {
        assert(digits.take(b - start) =~= digits);
    }
    let v: i64 = if neg { -acc } else { acc };
    if v < -2147483648 || v > 2147483647 {
        return None;
    }
    Some(v as i32)
}

/// Index of the first non-space character of `chars[a..b]`, or `b`.
fn skip_spaces_forward(chars: &Vec<char>, a: usize, b: usize) -> (k: usize)
    requires
        a <= b <= chars@.len(),
    ensures
        a <= k <= b,
        trim_start(chars@.subrange(a as int, b as int)) == chars@.subrange(k as int, b as int),
{
    let mut k = a;
    while k < b && is_space_exec(chars[k])
        invariant
            a <= k <= b <= chars@.len(),
            trim_start(chars@.subrange(a as int, b as int)) == trim_start(chars@.subrange(k as int, b as int)),
        decreases b - k,
    {
        proof {
            assert(chars@.subrange(k as int, b as int).drop_first() =~= chars@.subrange(k + 1, b as int));
        }
        k = k + 1;
    }
    k
}

/// End of `chars[a..b]` once trailing spaces are dropped.
fn skip_spaces_backward(chars: &Vec<char>, a: usize, b: usize) -> (k: usize)
    requires
        a <= b <= chars@.len(),
    ensures
        a <= k <= b,
        trim_end(chars@.subrange(a as int, b as int)) == chars@.subrange(a as int, k as int),
{
    let mut k = b;
    while k > a && is_space_exec(chars[k - 1])
        invariant
            a <= k <= b <= chars@.len(),
            trim_end(chars@.subrange(a as int, b as int)) == trim_end(chars@.subrange(a as int, k as int)),
        decreases k - a,
    {
        proof {
            assert(chars@.subrange(a as int, k as int).drop_last() =~= chars@.subrange(a as int, k - 1));
        }
        k = k - 1;
    }
    k
}

/// Parses `chars[a..b]`, trimmed, as an `i32`.
fn parse_part(chars: &Vec<char>, a: usize, b: usize) -> (r: Option<i32>)
    requires
        a <= b <= chars@.len(),
    ensures
        r == parse_i32(trim(chars@.subrange(a as int, b as int))),
{
    let s = skip_spaces_forward(chars, a, b);
    let e = skip_spaces_backward(chars, s, b);
    parse_i32_range(chars, s, e)
}

/// Parses a `left,top,width,height` crop rectangle such as `682,165,688,916`;
/// `None` unless there are exactly four integers and the width and height
/// are positive.
pub fn parse_rect_spec(spec: &str) -> (r: Option<Rect>)
    ensures
        r == rect_from_spec(spec@),
        r matches Some(x) ==> x.width > 0 && x.height > 0,
        ({
            let parts = split_commas(spec@);
            parts.len() == 4 && (non_positive_field(parts[2]) || non_positive_field(parts[3])) ==> r is None
        }),
{
    proof {
        lemma_rect_from_spec_positive(spec@);
    }
    let chars = str_chars(spec);
    let n = chars.len();
    let ghost s = chars@;
    let mut vals: Vec<i32> = Vec::new();
    let mut all_ok = true;
    let ghost mut done: Seq<Seq<char>> = Seq::empty();
    let mut start: usize = 0;
    let mut i: usize = 0;
    proof {
        assert(s.take(0) =~= Seq::<char>::empty());
        assert(split_commas(s.take(0)) =~= done.push(s.subrange(0, 0)));
    }
    while i < n
        invariant
            s == chars@,
            n == s.len(),
            0 <= start <= i <= n,
            split_commas(s.take(i as int)) == done.push(s.subrange(start as int, i as int)),
            vals@.len() == done.len(),
            all_ok == forall|k: int| 0 <= k < done.len() ==> #[trigger] parse_i32(trim(done[k])) is Some,
            forall|k: int| 0 <= k < done.len() && parse_i32(trim(done[k])) is Some ==> parse_i32(trim(#[trigger] done[k]))
                == Some(vals@[k]),
        decreases n - i,
    {
        proof {
            assert(s.take(i + 1).drop_last() =~= s.take(i as int));
            assert(s.take(i + 1).last() == s[i as int]);
        }
        if chars[i] == ',' {
            let v = parse_part(&chars, start, i);
            let ghost part = s.subrange(start as int, i as int);
            let ghost old_done = done;
            match v {
                Some(x) => vals.push(x),
                None => {
                    vals.push(0);
                    all_ok = false;
                },
            }
            proof {
                done = done.push(part);
                assert(s.subrange(i + 1, i + 1) =~= Seq::<char>::empty());
                assert(split_commas(s.take(i + 1)) =~= done.push(s.subrange(i + 1, i + 1)));
                assert forall|k: int| 0 <= k < done.len() && parse_i32(trim(done[k])) is Some implies parse_i32(trim(#[trigger] done[k]))
                    == Some(vals@[k]) by {
                    if k < old_done.len() {
                        assert(done[k] == old_done[k]);
                    }
                }
                if all_ok {
                    assert forall|k: int| 0 <= k < done.len() implies #[trigger] parse_i32(trim(done[k])) is Some by {
                        if k < old_done.len() {
                            assert(done[k] == old_done[k]);
                        }
                    }
                } else {
                    if v is Some {
                        let k0 = choose|k: int| 0 <= k < old_done.len() && !(parse_i32(trim(old_done[k])) is Some);
                        assert(done[k0] == old_done[k0]);
                    } else {
                        assert(done[old_done.len() as int] == part);
                    }
                }
            }
            start = i + 1;
        } else {
            proof {
                assert(s.subrange(start as int, i + 1) =~= s.subrange(start as int, i as int).push(s[i as int]));
                assert(split_commas(s.take(i + 1)) =~= done.push(s.subrange(start as int, i + 1)));
            }
        }
        i = i + 1;
    }
    let last = parse_part(&chars, start, n);
    proof {
        assert(s.take(n as int) =~= s);
    }
    let ghost parts = done.push(s.subrange(start as int, n as int));
    if vals.len() != 3 || !all_ok {
        proof {
            if vals.len() == 3 {
                let k0 = choose|k: int| 0 <= k < done.len() && !(parse_i32(trim(done[k])) is Some);
                assert(parts[k0] == done[k0]);
            }
        }
        return None;
    }
    match last {
        None => None,
        Some(height) => {
            let left = vals[0];
            let top = vals[1];
            let width = vals[2];
            proof {
                assert(parts[0] == done[0] && parts[1] == done[1] && parts[2] == done[2]);
                assert(parse_i32(trim(done[0])) is Some);
                assert(parse_i32(trim(done[1])) is Some);
                assert(parse_i32(trim(done[2])) is Some);
            }
            if width <= 0 || height <= 0 {
                return None;
            }
            Some(Rect { left, top, width, height })
        },
    }
}

} // verus!
