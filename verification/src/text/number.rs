//! Decimal numbers as text.

use vstd::prelude::*;

use crate::text::chars::{chars_of, string_of};

verus! {

/// The digit for `d`.
pub open spec fn digit(d: nat) -> char {
    (48 + d) as u8 as char
}

pub open spec fn is_digit(c: char) -> bool {
    '0' <= c <= '9'
}

/// The number that a digit stands for.
pub open spec fn digit_value(c: char) -> nat {
    (c as u32 - 48) as nat
}

/// `n` in decimal digits, without leading zeros.
pub open spec fn decimal(n: nat) -> Seq<char>
    decreases n,
{
    if n < 10 {
        seq![digit(n)]
    } else {
        decimal(n / 10).push(digit(n % 10))
    }
}

/// `n` in decimal digits, with a minus sign in front where it is negative.
pub open spec fn decimal_int(n: int) -> Seq<char> {
    if n < 0 {
        seq!['-'] + decimal((-n) as nat)
    } else {
        decimal(n as nat)
    }
}

/// The number that a row of digits stands for.
pub open spec fn digits_value(s: Seq<char>) -> nat
    decreases s.len(),
{
    if s.len() == 0 {
        0
    } else {
        digits_value(s.drop_last()) * 10 + digit_value(s.last())
    }
}

pub open spec fn all_digits(s: Seq<char>) -> bool {
    forall|i: int| 0 <= i < s.len() ==> is_digit(#[trigger] s[i])
}

/// The number below `2^64` that `s` writes out: an optional plus sign, then one or more digits
/// and nothing else.
pub open spec fn parse_u64(s: Seq<char>) -> Option<u64> {
    let d = if s.len() > 0 && s[0] == '+' {
        s.skip(1)
    } else {
        s
    };
    if d.len() > 0 && all_digits(d) && digits_value(d) <= u64::MAX {
        Some(digits_value(d) as u64)
    } else {
        None
    }
}

fn digit_char(d: u64) -> (c: char)
    requires
        d < 10,
    ensures
        c == digit(d as nat),
{
    (48u8 + d as u8) as char
}

fn digits_of(n: u64) -> (r: Vec<char>)
    ensures
        r@ == decimal(n as nat),
    decreases n,
{
    if n < 10 {
        let mut v: Vec<char> = Vec::new();
        v.push(digit_char(n));
        v
    } else {
        let mut v: Vec<char> = digits_of(n / 10);
        v.push(digit_char(n % 10));
        v
    }
}

/// `n` in decimal digits.
pub fn u64_text(n: u64) -> (r: String)
    ensures
        r@ == decimal(n as nat),
{
    let v: Vec<char> = digits_of(n);
    proof {
        assert(v@.subrange(0, v@.len() as int) == v@);
    }
    string_of(&v, 0, v.len())
}

/// `n` in decimal digits.
pub fn usize_text(n: usize) -> (r: String)
    ensures
        r@ == decimal(n as nat),
{
    u64_text(n as u64)
}

/// `n` in decimal digits, with its sign.
pub fn i64_text(n: i64) -> (r: String)
    ensures
        r@ == decimal_int(n as int),
{
    if n < 0 {
        let m: u64 = if n == i64::MIN {
            0x8000_0000_0000_0000u64
        } else {
            (-n) as u64
        };
        let digits: String = u64_text(m);
        let mut out: String = String::new();
        out.push('-');
        out.append(digits.as_str());
        proof {
            assert(out@ =~= decimal_int(n as int));
        }
        out
    } else {
        u64_text(n as u64)
    }
}

proof fn lemma_prefix_value(s: Seq<char>, i: int)
    requires
        0 <= i <= s.len(),
    ensures
        digits_value(s.take(i)) <= digits_value(s),
    decreases s.len() - i,
{
    if i == s.len() {
        assert(s.take(i) == s);
    } else {
        lemma_prefix_value(s.drop_last(), i);
        assert(s.drop_last().take(i) == s.take(i));
    }
}

/// The number that `s` writes out.
pub fn u64_of(s: &str) -> (r: Option<u64>)
    ensures
        r == parse_u64(s@),
{
    let v: Vec<char> = chars_of(s);
    let n: usize = v.len();
    let from: usize = if n > 0 && v[0] == '+' {
        1
    } else {
        0
    };
    let ghost d = s@.skip(from as int);
    proof {
        assert(s@.skip(0) == s@);
    }
    if from == n {
        return None;
    }
    let mut total: u64 = 0;
    let mut i: usize = from;
    proof {
        assert(d.take(0) =~= seq![]);
    }
    while i < n
        invariant
            from <= i <= n == v@.len(),
            v@ == s@,
            d == s@.skip(from as int),
            d.len() > 0,
            parse_u64(s@) == (if all_digits(d) && digits_value(d) <= u64::MAX {
                Some(digits_value(d) as u64)
            } else {
                None
            }),
            total == digits_value(d.take(i - from)),
            all_digits(d.take(i - from)),
        decreases n - i,
    {
        let c: char = v[i];
        proof {
            assert(d[i - from] == c);
            assert(d.take(i - from + 1).drop_last() == d.take(i - from));
            assert(d.take(i - from + 1).last() == c);
            lemma_prefix_value(d, i - from + 1);
        }
        if !('0' <= c && c <= '9') {
            return None;
        }
        let x: u64 = (c as u32 - 48) as u64;
        if total > (u64::MAX - x) / 10 {
            proof {
                assert(total * 10 + x > u64::MAX) by (nonlinear_arith)
                    requires
                        total > (u64::MAX - x) / 10,
                        x <= 9,
                ;
            }
            return None;
        }
        proof {
            assert forall|j: int| 0 <= j < i - from + 1 implies is_digit(
                #[trigger] d.take(i - from + 1)[j],
            ) by {
                if j < i - from {
                    assert(d.take(i - from)[j] == d.take(i - from + 1)[j]);
                }
            }
        }
        total = total * 10 + x;
        i = i + 1;
    }
    proof {
        assert(d.take(d.len() as int) == d);
    }
    Some(total)
}

/// Reading a number back gives the number that was written out.
pub proof fn lemma_number_round_trip(n: u64)
    ensures
        parse_u64(decimal(n as nat)) == Some(n),
{
    lemma_decimal_digits(n as nat);
}

/// The digits of a number are digits, there is at least one, and they stand for the number.
pub proof fn lemma_decimal_digits(n: nat)
    ensures
        decimal(n).len() > 0,
        all_digits(decimal(n)),
        digits_value(decimal(n)) == n,
        is_digit(decimal(n)[0]),
    decreases n,
{
    if n < 10 {
        assert(decimal(n).drop_last() =~= seq![]);
        assert(digits_value(decimal(n).drop_last()) == 0);
        lemma_digit(n);
    } else {
        lemma_decimal_digits(n / 10);
        assert(decimal(n).drop_last() == decimal(n / 10));
        lemma_digit(n % 10);
    }
}

proof fn lemma_digit(d: nat)
    requires
        d < 10,
    ensures
        is_digit(digit(d)),
        digit_value(digit(d)) == d,
{
}

/// How numbers are written: in the digits of ASCII, each standing behind those for the higher powers
/// of ten, without leading zeros, and with a minus sign in front of those below zero.
pub proof fn lemma_decimal_writes(n: nat, d: nat)
    requires
        d < 10,
    ensures
        decimal(d).len() == 1 && decimal(d)[0] as u32 == 48 + d,
        n > 0 ==> decimal(n * 10 + d) == decimal(n) + decimal(d),
        n > 0 ==> decimal(n)[0] != '0',
        decimal_int(n as int) == decimal(n),
        n > 0 ==> decimal_int(-(n as int)) == seq!['-'] + decimal(n),
    decreases n,
{
    lemma_digit(d);
    if n > 0 {
        assert((n * 10 + d) / 10 == n);
        assert((n * 10 + d) % 10 == d);
        assert(decimal(n).push(digit(d)) =~= decimal(n) + decimal(d));
        if n < 10 {
            lemma_digit(n);
        } else {
            lemma_decimal_writes(n / 10, 0);
            lemma_decimal_digits(n / 10);
        }
    }
}

/// What is read as a number: one digit is its value, a digit behind a number that is read makes ten
/// times that number and the digit, and a plus sign may stand in front.
pub proof fn lemma_parse_digits(s: Seq<char>, c: char)
    requires
        '0' <= c <= '9',
    ensures
        parse_u64(seq![c]) == Some((c as u32 - 48) as u64),
        parse_u64(s) is Some && parse_u64(s)->0 * 10 + (c as u32 - 48) <= u64::MAX ==> parse_u64(
            s.push(c),
        ) == Some((parse_u64(s)->0 * 10 + (c as u32 - 48)) as u64),
        parse_u64(s) is Some && parse_u64(s)->0 * 10 + (c as u32 - 48) > u64::MAX ==> parse_u64(
            s.push(c),
        ) is None,
        s.len() > 0 && s[0] != '+' ==> parse_u64(seq!['+'] + s) == parse_u64(s),
{
    let one = seq![c];
    assert(one.drop_last() =~= Seq::<char>::empty());
    assert(digits_value(Seq::<char>::empty()) == 0);
    assert(digits_value(one) == digit_value(c));
    let signed = seq!['+'] + s;
    assert(signed.skip(1) =~= s);
    let d = if s.len() > 0 && s[0] == '+' {
        s.skip(1)
    } else {
        s
    };
    let t = s.push(c);
    if parse_u64(s) is Some {
        let e = if t[0] == '+' {
            t.skip(1)
        } else {
            t
        };
        assert(e =~= d.push(c));
        assert(e.drop_last() =~= d);
        assert(digits_value(e) == digits_value(d) * 10 + digit_value(c));
    }
}

/// What is not read as a number: nothing at all, and a text with anything but digits in it, behind a
/// plus sign that it may start with.
pub proof fn lemma_parse_refuses(s: Seq<char>, i: int)
    requires
        0 <= i < s.len(),
        !('0' <= s[i] <= '9'),
        s[i] != '+' || i > 0 || s.len() == 1,
    ensures
        parse_u64(s) is None,
        parse_u64(Seq::empty()) is None,
{
    let d = if s[0] == '+' {
        s.skip(1)
    } else {
        s
    };
    if s[0] == '+' && i > 0 {
        assert(d[i - 1] == s[i]);
    }
}

} // verus!
