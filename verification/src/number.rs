//! Decimal integers: reading them as `i32::from_str` does and writing them
//! as `format!("{}")` and `format!("{:0w}")` do.
use vstd::prelude::*;
use crate::text::{append, chars_of, digit_val, is_digit};

verus! {

pub open spec fn in_i32(x: int) -> bool {
    i32::MIN <= x <= i32::MAX
}

pub open spec fn all_digits(s: Seq<char>) -> bool {
    forall|i: int| 0 <= i < s.len() ==> is_digit(#[trigger] s[i])
}

/// Value of a string of decimal digits (leading zeros allowed).
pub open spec fn digits_value(s: Seq<char>) -> nat
    decreases s.len(),
{
    if s.len() == 0 {
        0
    } else {
        10 * digits_value(s.drop_last()) + (digit_val(s.last()) as nat)
    }
}

/// `i32::from_str`: an optional `+` or `-`, then at least one ASCII digit,
/// and the value must fit in an `i32`.
pub open spec fn parse_i32(s: Seq<char>) -> Option<int> {
    if s.len() > 0 && (s[0] == '+' || s[0] == '-') {
        let body = s.drop_first();
        if body.len() > 0 && all_digits(body) {
            let v = if s[0] == '-' {
                -digits_value(body)
            } else {
                digits_value(body) as int
            };
            if in_i32(v) {
                Some(v)
            } else {
                None
            }
        } else {
            None
        }
    } else if s.len() > 0 && all_digits(s) {
        if in_i32(digits_value(s) as int) {
            Some(digits_value(s) as int)
        } else {
            None
        }
    } else {
        None
    }
}

pub open spec fn opt_i32(o: Option<i32>) -> Option<int> {
    match o {
        Some(x) => Some(x as int),
        None => None,
    }
}

pub fn is_ascii_digit(c: char) -> (b: bool)
    ensures
        b == is_digit(c),
{
    '0' <= c && c <= '9'
}

proof fn lemma_digits_value_step(s: Seq<char>, i: int)
    requires
        0 <= i < s.len(),
        is_digit(s[i]),
    ensures
        digits_value(s.take(i + 1)) == 10 * digits_value(s.take(i)) + digit_val(s[i]),
{
    assert(s.take(i + 1).drop_last() =~= s.take(i));
}

/// Value of `v@.skip(from)` as a digit string, capped at `2^31`;
/// `None` when some character is not a digit.
fn capped_digits(v: &Vec<char>, from: usize) -> (r: Option<i64>)
    requires
        from <= v.len(),
    ensures
        r is Some <==> all_digits(v@.skip(from as int)),
        r matches Some(x) ==> x == if digits_value(v@.skip(from as int)) < 0x8000_0001 {
            digits_value(v@.skip(from as int)) as int
        } else {
            0x8000_0001
        },
{
    let ghost s = v@.skip(from as int);
    let mut acc: i64 = 0;
    let mut i = from;
    while i < v.len()
        invariant
            from <= i <= v.len(),
            s == v@.skip(from as int),
            all_digits(s.take(i - from)),
            acc == if digits_value(s.take(i - from)) < 0x8000_0001 {
                digits_value(s.take(i - from)) as int
            } else {
                0x8000_0001
            },
        decreases v.len() - i,
    {
        let c = v[i];
        if !is_ascii_digit(c) {
            assert(!is_digit(s[i - from]));
            return None;
        }
        let d = (c as u32 - '0' as u32) as i64;
        proof {
            lemma_digits_value_step(s, i - from);
            assert(s[i - from] == c);
        }
        if acc >= 0x8000_0001 {
            acc = 0x8000_0001;
        } else {
            acc = acc * 10 + d;
            if acc > 0x8000_0001 {
                acc = 0x8000_0001;
            }
        }
        proof {
            assert forall|j: int| 0 <= j < i + 1 - from implies is_digit(
                #[trigger] s.take(i + 1 - from)[j],
            ) by {
                if j < i - from {
                    assert(s.take(i + 1 - from)[j] == s.take(i - from)[j]);
                }
            }
        }
        i += 1;
    }
    assert(s.take(i - from) =~= s);
    Some(acc)
}

/// `i32::from_str` on the characters of `v`.
pub fn parse_i32_chars(v: &Vec<char>) -> (r: Option<i32>)
    ensures
        opt_i32(r) == parse_i32(v@),
{
    if v.len() == 0 {
        return None;
    }
    let signed = v[0] == '+' || v[0] == '-';
    let from: usize = if signed {
        1
    } else {
        0
    };
    if signed && v.len() == 1 {
        return None;
    }
    proof {
        assert(v@.skip(1) =~= v@.drop_first());
        assert(v@.skip(0) =~= v@);
    }
    match capped_digits(v, from) {
        None => None,
        Some(x) => {
            if v[0] == '-' {
                if x <= 0x8000_0000 {
                    Some((-x) as i32)
                } else {
                    None
                }
            } else if x <= 0x7fff_ffff {
                Some(x as i32)
            } else {
                None
            }
        },
    }
}

// ---------------------------------------------------------------------------
// Writing integers
// ---------------------------------------------------------------------------

pub open spec fn digit_char(d: nat) -> char {
    ((d + 48) as u32) as char
}

/// Decimal digits of a natural number, without leading zeros.
pub open spec fn dec(n: nat) -> Seq<char>
    decreases n,
{
    if n < 10 {
        seq![digit_char(n)]
    } else {
        dec(n / 10).push(digit_char(n % 10))
    }
}

pub open spec fn abs(i: int) -> nat {
    if i < 0 {
        (-i) as nat
    } else {
        i as nat
    }
}

/// `format!("{}", i)` for an integer.
pub open spec fn int_str(i: int) -> Seq<char> {
    if i < 0 {
        seq!['-'] + dec(abs(i))
    } else {
        dec(abs(i))
    }
}

pub open spec fn zeros(n: nat) -> Seq<char> {
    Seq::new(n, |_i: int| '0')
}

/// `format!("{:0w$}", i)`: sign, then zeros up to width `w`, then the digits.
pub open spec fn zero_pad(i: int, w: nat) -> Seq<char> {
    let sign: Seq<char> = if i < 0 {
        seq!['-']
    } else {
        seq![]
    };
    let digits = dec(abs(i));
    let fill: nat = if sign.len() + digits.len() < w {
        (w - sign.len() - digits.len()) as nat
    } else {
        0
    };
    sign + zeros(fill) + digits
}

fn digit_to_char(d: u64) -> (c: char)
    requires
        d < 10,
    ensures
        c == digit_char(d as nat),
{
    let b: u8 = (d as u8) + 48;
    b as char
}

/// Decimal digits of `n`.
pub fn nat_chars(n: u64) -> (r: Vec<char>)
    ensures
        r@ == dec(n as nat),
    decreases n,
{
    if n < 10 {
        let mut r: Vec<char> = Vec::new();
        r.push(digit_to_char(n));
        r
    } else {
        let mut r = nat_chars(n / 10);
        r.push(digit_to_char(n % 10));
        r
    }
}

/// `format!("{}", i)`.
pub fn int_chars(i: i64) -> (r: Vec<char>)
    ensures
        r@ == int_str(i as int),
{
    if i < 0 {
        let m: u64 = if i == i64::MIN {
            0x8000_0000_0000_0000
        } else {
            (-i) as u64
        };
        let mut r: Vec<char> = Vec::new();
        r.push('-');
        let d = nat_chars(m);
        append(&mut r, &d);
        r
    } else {
        nat_chars(i as u64)
    }
}

/// `format!("{:0w$}", i)`.
pub fn zero_pad_chars(i: i64, w: usize) -> (r: Vec<char>)
    ensures
        r@ == zero_pad(i as int, w as nat),
{
    let m: u64 = if i == i64::MIN {
        0x8000_0000_0000_0000
    } else if i < 0 {
        (-i) as u64
    } else {
        i as u64
    };
    let digits = nat_chars(m);
    let mut r: Vec<char> = Vec::new();
    let sign_len: usize = if i < 0 {
        r.push('-');
        1
    } else {
        0
    };
    let ghost sign = r@;
    if w > sign_len && digits.len() < w - sign_len {
        let fill = w - sign_len - digits.len();
        let mut k: usize = 0;
        while k < fill
            invariant
                k <= fill,
                r@ == sign + zeros(k as nat),
            decreases fill - k,
        {
            r.push('0');
            assert(zeros((k + 1) as nat) =~= zeros(k as nat).push('0'));
            k += 1;
        }
    } else {
        assert(sign + zeros(0) =~= sign);
    }
    append(&mut r, &digits);
    r
}

} // verus!

verus! {

pub proof fn lemma_digit_char(d: nat)
    requires
        d < 10,
    ensures
        is_digit(digit_char(d)),
        digit_val(digit_char(d)) == d,
{
}

/// The decimal digits of `n` are nonempty, are all digits, and read back as `n`.
pub proof fn lemma_dec(n: nat)
    ensures
        dec(n).len() >= 1,
        all_digits(dec(n)),
        digits_value(dec(n)) == n,
    decreases n,
{
    if n < 10 {
        lemma_digit_char(n);
        assert(dec(n).drop_last() =~= Seq::<char>::empty());
        assert(digits_value(Seq::<char>::empty()) == 0);
    } else {
        lemma_dec(n / 10);
        lemma_digit_char(n % 10);
        assert(dec(n).drop_last() =~= dec(n / 10));
        assert(dec(n).last() == digit_char(n % 10));
        assert(digits_value(dec(n)) == 10 * digits_value(dec(n / 10)) + (n % 10));
        assert(n == 10 * (n / 10) + n % 10);
        assert forall|i: int| 0 <= i < dec(n).len() implies is_digit(#[trigger] dec(n)[i]) by {
            if i < dec(n).len() - 1 {
                assert(dec(n)[i] == dec(n / 10)[i]);
            }
        }
    }
}

/// `i32::from_str` reads back what `dec` writes.
pub proof fn lemma_parse_dec(n: nat)
    requires
        n <= i32::MAX,
    ensures
        parse_i32(dec(n)) == Some(n as int),
{
    lemma_dec(n);
    assert(is_digit(dec(n)[0]));
}

} // verus!
