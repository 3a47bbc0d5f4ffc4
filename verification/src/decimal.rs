//! Exact arithmetic on decimal numerals (strings of digits of any length),
//! used to read decimal durations such as `7.7h` without rounding errors.
use vstd::prelude::*;
use crate::number::{all_digits, digit_char, digits_value, lemma_digit_char};
use crate::text::{digit_val, is_digit};

verus! {

pub open spec fn pow10(n: nat) -> nat
    decreases n,
{
    if n == 0 {
        1
    } else {
        10 * pow10((n - 1) as nat)
    }
}

pub proof fn lemma_pow10_pos(n: nat)
    ensures
        pow10(n) >= 1,
    decreases n,
{
    if n > 0 {
        lemma_pow10_pos((n - 1) as nat);
    }
}

pub open spec fn zero_digits(n: nat) -> Seq<char> {
    Seq::new(n, |_i: int| '0')
}

/// Value of a numeral followed by another: `dv(a + b) == dv(a) * 10^|b| + dv(b)`.
pub proof fn lemma_dv_concat(a: Seq<char>, b: Seq<char>)
    ensures
        digits_value(a + b) == digits_value(a) * pow10(b.len()) + digits_value(b),
    decreases b.len(),
{
    if b.len() == 0 {
        assert(a + b =~= a);
        assert(pow10(0) == 1);
        assert(digits_value(b) == 0);
    } else {
        lemma_dv_concat(a, b.drop_last());
        assert((a + b).drop_last() =~= a + b.drop_last());
        assert((a + b).last() == b.last());
        let p = pow10(b.drop_last().len());
        assert(pow10(b.len()) == 10 * p);
        assert(digits_value(a + b) == 10 * digits_value(a + b.drop_last()) + (digit_val(b.last()) as nat));
        assert(digits_value(b) == 10 * digits_value(b.drop_last()) + (digit_val(b.last()) as nat));
        assert(10 * (digits_value(a) * p + digits_value(b.drop_last())) == digits_value(a) * (10 * p)
            + 10 * digits_value(b.drop_last())) by (nonlinear_arith);
    }
}

pub proof fn lemma_dv_zeros(n: nat)
    ensures
        digits_value(zero_digits(n)) == 0,
        all_digits(zero_digits(n)),
    decreases n,
{
    if n > 0 {
        lemma_dv_zeros((n - 1) as nat);
        assert(zero_digits(n).drop_last() =~= zero_digits((n - 1) as nat));
    }
}

/// A numeral is below `10^len`.
pub proof fn lemma_dv_bound(s: Seq<char>)
    requires
        all_digits(s),
    ensures
        digits_value(s) < pow10(s.len()),
    decreases s.len(),
{
    if s.len() > 0 {
        let t = s.drop_last();
        assert forall|i: int| 0 <= i < t.len() implies is_digit(#[trigger] t[i]) by {
            assert(t[i] == s[i]);
        }
        lemma_dv_bound(t);
        assert(is_digit(s[s.len() - 1]));
        assert(digit_val(s.last()) <= 9);
        assert(digits_value(s) == 10 * digits_value(t) + (digit_val(s.last()) as nat));
        assert(pow10(s.len()) == 10 * pow10(t.len()));
    }
}

/// Leading zeros do not change a numeral's value.
pub proof fn lemma_dv_pad(n: nat, s: Seq<char>)
    ensures
        digits_value(zero_digits(n) + s) == digits_value(s),
{
    lemma_dv_concat(zero_digits(n), s);
    lemma_dv_zeros(n);
}

/// The suffix from position `i - 1` is its first digit followed by the
/// suffix from `i`.
pub proof fn lemma_dv_suffix_step(s: Seq<char>, i: int)
    requires
        1 <= i <= s.len(),
        is_digit(s[i - 1]),
    ensures
        digits_value(s.skip(i - 1)) == digit_val(s[i - 1]) * pow10((s.len() - i) as nat)
            + digits_value(s.skip(i)),
{
    assert(s.skip(i - 1) =~= seq![s[i - 1]] + s.skip(i));
    lemma_dv_concat(seq![s[i - 1]], s.skip(i));
    assert(seq![s[i - 1]].drop_last() =~= Seq::<char>::empty());
    assert(digits_value(Seq::<char>::empty()) == 0);
    assert(digits_value(seq![s[i - 1]]) == digit_val(s[i - 1]) as nat);
}

} // verus!

verus! {

fn zeros_vec(n: usize) -> (r: Vec<char>)
    ensures
        r@ == zero_digits(n as nat),
{
    let mut r: Vec<char> = Vec::new();
    let mut i: usize = 0;
    while i < n
        invariant
            i <= n,
            r@ == zero_digits(i as nat),
        decreases n - i,
    {
        r.push('0');
        assert(zero_digits((i + 1) as nat) =~= zero_digits(i as nat).push('0'));
        i += 1;
    }
    r
}

/// `a` with zeros in front up to length `len`.
fn pad_left(a: &Vec<char>, len: usize) -> (r: Vec<char>)
    requires
        a.len() <= len,
        all_digits(a@),
    ensures
        r.len() == len,
        all_digits(r@),
        digits_value(r@) == digits_value(a@),
{
    let mut r = zeros_vec(len - a.len());
    proof {
        lemma_dv_zeros((len - a.len()) as nat);
        lemma_dv_pad((len - a.len()) as nat, a@);
    }
    let ghost z = r@;
    crate::text::append(&mut r, a);
    assert forall|i: int| 0 <= i < r@.len() implies is_digit(#[trigger] r@[i]) by {
        if i < z.len() {
            assert(r@[i] == z[i]);
        } else {
            assert(r@[i] == a@[i - z.len()]);
        }
    }
    r
}

/// `a` followed by `n` zeros: `a * 10^n`.
pub fn shift_left(a: &Vec<char>, n: usize) -> (r: Vec<char>)
    requires
        all_digits(a@),
    ensures
        all_digits(r@),
        digits_value(r@) == digits_value(a@) * pow10(n as nat),
        r.len() == a.len() + n,
{
    let z = zeros_vec(n);
    proof {
        lemma_dv_zeros(n as nat);
        lemma_dv_concat(a@, z@);
    }
    let r = crate::text::concat(a, &z);
    assert forall|i: int| 0 <= i < r@.len() implies is_digit(#[trigger] r@[i]) by {
        if i < a@.len() {
            assert(r@[i] == a@[i]);
        } else {
            assert(r@[i] == z@[i - a@.len()]);
        }
    }
    r
}

fn digit_of(c: char) -> (d: u32)
    requires
        is_digit(c),
    ensures
        d == digit_val(c),
        d <= 9,
{
    c as u32 - '0' as u32
}

fn char_of(d: u32) -> (c: char)
    requires
        d <= 9,
    ensures
        c == digit_char(d as nat),
        is_digit(c),
        digit_val(c) == d,
{
    proof {
        lemma_digit_char(d as nat);
    }
    let b: u8 = (d as u8) + 48;
    b as char
}

proof fn lemma_set_suffix(r: Seq<char>, i: int, x: char)
    requires
        0 <= i < r.len(),
    ensures
        r.update(i, x).skip(i) == seq![x] + r.skip(i + 1),
{
    assert(r.update(i, x).skip(i) =~= seq![x] + r.skip(i + 1));
}

/// `c * a` for a single digit `c`.
pub fn mul_digit(a: &Vec<char>, c: u32) -> (r: Vec<char>)
    requires
        all_digits(a@),
        c <= 9,
        a.len() < usize::MAX,
    ensures
        all_digits(r@),
        digits_value(r@) == c * digits_value(a@),
        r.len() == a.len() + 1,
{
    let n = a.len();
    let mut r = zeros_vec(n + 1);
    proof {
        lemma_dv_zeros((n + 1) as nat);
        assert(r@.skip(n + 1) =~= Seq::<char>::empty());
        assert(a@.skip(n as int) =~= Seq::<char>::empty());
        assert(digits_value(Seq::<char>::empty()) == 0);
        assert(pow10(0) == 1);
    }
    let mut carry: u32 = 0;
    let mut i = n;
    while i > 0
        invariant
            i <= n == a.len(),
            r.len() == n + 1,
            all_digits(a@),
            all_digits(r@),
            c <= 9,
            carry <= 8,
            digits_value(r@.skip(i + 1)) + carry * pow10((n - i) as nat) == c * digits_value(
                a@.skip(i as int),
            ),
        decreases i,
    {
        let d = digit_of(a[i - 1]);
        assert(c * d <= 81) by (nonlinear_arith)
            requires
                c <= 9,
                d <= 9,
        ;
        let t = c * d + carry;
        let x = char_of(t % 10);
        let ghost old_r = r@;
        r.set(i, x);
        proof {
            lemma_set_suffix(old_r, i as int, x);
            lemma_dv_suffix_step(r@, i as int + 1);
            assert(r@.skip(i + 1) =~= old_r.skip(i + 1));
            lemma_dv_suffix_step(a@, i as int);
            let p = pow10((n - i) as nat);
            assert(pow10((n - i + 1) as nat) == 10 * p);
            let old_v = digits_value(old_r.skip(i + 1));
            assert(digits_value(r@.skip(i as int)) == (t % 10) * p + old_v);
            assert(old_v + carry * p == c * digits_value(a@.skip(i as int)));
            assert(digits_value(a@.skip(i - 1)) == d * p + digits_value(a@.skip(i as int)));
            assert((t % 10) * p + old_v + (t / 10) * (10 * p) == c * (d * p + digits_value(
                a@.skip(i as int),
            ))) by (nonlinear_arith)
                requires
                    t == c * d + carry,
                    old_v + carry * p == c * digits_value(a@.skip(i as int)),
            ;
            assert forall|j: int| 0 <= j < r@.len() implies is_digit(#[trigger] r@[j]) by {
                if j != i {
                    assert(r@[j] == old_r[j]);
                }
            }
        }
        carry = t / 10;
        i -= 1;
    }
    let x = char_of(carry);
    let ghost old_r = r@;
    r.set(0, x);
    proof {
        lemma_set_suffix(old_r, 0, x);
        assert(r@.skip(1) =~= old_r.skip(1));
        assert(r@.skip(0) =~= r@);
        assert(a@.skip(0) =~= a@);
        lemma_dv_suffix_step(r@, 1);
        assert forall|j: int| 0 <= j < r@.len() implies is_digit(#[trigger] r@[j]) by {
            if j != 0 {
                assert(r@[j] == old_r[j]);
            }
        }
    }
    r
}

} // verus!

verus! {

/// `a + b`.
pub fn add_num(a0: &Vec<char>, b0: &Vec<char>) -> (r: Vec<char>)
    requires
        all_digits(a0@),
        all_digits(b0@),
        a0.len() < usize::MAX,
        b0.len() < usize::MAX,
    ensures
        all_digits(r@),
        digits_value(r@) == digits_value(a0@) + digits_value(b0@),
        r.len() <= a0.len() + b0.len() + 1,
{
    let n = if a0.len() >= b0.len() {
        a0.len()
    } else {
        b0.len()
    };
    let a = pad_left(a0, n);
    let b = pad_left(b0, n);
    let mut r = zeros_vec(n + 1);
    proof {
        lemma_dv_zeros((n + 1) as nat);
        assert(r@.skip(n + 1) =~= Seq::<char>::empty());
        assert(a@.skip(n as int) =~= Seq::<char>::empty());
        assert(b@.skip(n as int) =~= Seq::<char>::empty());
        assert(digits_value(Seq::<char>::empty()) == 0);
        assert(pow10(0) == 1);
    }
    let mut carry: u32 = 0;
    let mut i = n;
    while i > 0
        invariant
            i <= n == a.len() == b.len(),
            r.len() == n + 1,
            all_digits(a@),
            all_digits(b@),
            all_digits(r@),
            carry <= 1,
            digits_value(r@.skip(i + 1)) + carry * pow10((n - i) as nat) == digits_value(
                a@.skip(i as int),
            ) + digits_value(b@.skip(i as int)),
        decreases i,
    {
        let da = digit_of(a[i - 1]);
        let db = digit_of(b[i - 1]);
        let t = da + db + carry;
        let x = char_of(t % 10);
        let ghost old_r = r@;
        r.set(i, x);
        proof {
            lemma_set_suffix(old_r, i as int, x);
            lemma_dv_suffix_step(r@, i as int + 1);
            assert(r@.skip(i + 1) =~= old_r.skip(i + 1));
            lemma_dv_suffix_step(a@, i as int);
            lemma_dv_suffix_step(b@, i as int);
            let p = pow10((n - i) as nat);
            assert(pow10((n - i + 1) as nat) == 10 * p);
            let old_v = digits_value(old_r.skip(i + 1));
            let va = digits_value(a@.skip(i as int));
            let vb = digits_value(b@.skip(i as int));
            assert(digits_value(r@.skip(i as int)) == (t % 10) * p + old_v);
            assert((t % 10) * p + old_v + (t / 10) * (10 * p) == (da * p + va) + (db * p + vb))
                by (nonlinear_arith)
                requires
                    t == da + db + carry,
                    old_v + carry * p == va + vb,
            ;
            assert forall|j: int| 0 <= j < r@.len() implies is_digit(#[trigger] r@[j]) by {
                if j != i {
                    assert(r@[j] == old_r[j]);
                }
            }
        }
        carry = t / 10;
        i -= 1;
    }
    let x = char_of(carry);
    let ghost old_r = r@;
    r.set(0, x);
    proof {
        lemma_set_suffix(old_r, 0, x);
        assert(r@.skip(1) =~= old_r.skip(1));
        assert(r@.skip(0) =~= r@);
        assert(a@.skip(0) =~= a@);
        assert(b@.skip(0) =~= b@);
        lemma_dv_suffix_step(r@, 1);
        assert forall|j: int| 0 <= j < r@.len() implies is_digit(#[trigger] r@[j]) by {
            if j != 0 {
                assert(r@[j] == old_r[j]);
            }
        }
    }
    r
}

/// `a - b` for `a >= b`.
pub fn sub_num(a0: &Vec<char>, b0: &Vec<char>) -> (r: Vec<char>)
    requires
        all_digits(a0@),
        all_digits(b0@),
        digits_value(a0@) >= digits_value(b0@),
    ensures
        all_digits(r@),
        digits_value(r@) == digits_value(a0@) - digits_value(b0@),
        r.len() <= a0.len() + b0.len(),
{
    let n = if a0.len() >= b0.len() {
        a0.len()
    } else {
        b0.len()
    };
    let a = pad_left(a0, n);
    let b = pad_left(b0, n);
    let mut r = zeros_vec(n);
    proof {
        lemma_dv_zeros(n as nat);
        assert(r@.skip(n as int) =~= Seq::<char>::empty());
        assert(a@.skip(n as int) =~= Seq::<char>::empty());
        assert(b@.skip(n as int) =~= Seq::<char>::empty());
        assert(digits_value(Seq::<char>::empty()) == 0);
        assert(pow10(0) == 1);
    }
    let mut borrow: u32 = 0;
    let mut i = n;
    while i > 0
        invariant
            i <= n == a.len() == b.len(),
            r.len() == n,
            all_digits(a@),
            all_digits(b@),
            all_digits(r@),
            borrow <= 1,
            digits_value(r@.skip(i as int)) - borrow * pow10((n - i) as nat) == digits_value(
                a@.skip(i as int),
            ) - digits_value(b@.skip(i as int)),
        decreases i,
    {
        let da = digit_of(a[i - 1]);
        let db = digit_of(b[i - 1]);
        let (x_d, nb) = if da >= db + borrow {
            (da - db - borrow, 0u32)
        } else {
            (da + 10 - db - borrow, 1u32)
        };
        let x = char_of(x_d);
        let ghost old_r = r@;
        r.set(i - 1, x);
        proof {
            lemma_set_suffix(old_r, i - 1, x);
            lemma_dv_suffix_step(r@, i as int);
            assert(r@.skip(i as int) =~= old_r.skip(i as int));
            lemma_dv_suffix_step(a@, i as int);
            lemma_dv_suffix_step(b@, i as int);
            let p = pow10((n - i) as nat);
            assert(pow10((n - i + 1) as nat) == 10 * p);
            let old_v = digits_value(old_r.skip(i as int));
            let va = digits_value(a@.skip(i as int));
            let vb = digits_value(b@.skip(i as int));
            assert(digits_value(r@.skip(i - 1)) == x_d * p + old_v);
            assert(x_d * p + old_v - nb * (10 * p) == (da * p + va) - (db * p + vb))
                by (nonlinear_arith)
                requires
                    x_d == da + 10 * nb - db - borrow,
                    old_v - borrow * p == va - vb,
            ;
            assert forall|j: int| 0 <= j < r@.len() implies is_digit(#[trigger] r@[j]) by {
                if j != i - 1 {
                    assert(r@[j] == old_r[j]);
                }
            }
        }
        borrow = nb;
        i -= 1;
    }
    proof {
        assert(r@.skip(0) =~= r@);
        assert(a@.skip(0) =~= a@);
        assert(b@.skip(0) =~= b@);
        lemma_dv_bound(r@);
        assert(i == 0);
        assert(digits_value(r@) - borrow * pow10(n as nat) == digits_value(a@) - digits_value(b@));
        assert(digits_value(a@) - digits_value(b@) >= 0);
        assert(borrow == 0);
    }
    r
}

proof fn lemma_dv_prefix_step(s: Seq<char>, i: int)
    requires
        0 <= i < s.len(),
        is_digit(s[i]),
    ensures
        digits_value(s.take(i + 1)) == 10 * digits_value(s.take(i)) + digit_val(s[i]),
{
    assert(s.take(i + 1).drop_last() =~= s.take(i));
}

/// Whether `a < b`.
pub fn less_num(a0: &Vec<char>, b0: &Vec<char>) -> (r: bool)
    requires
        all_digits(a0@),
        all_digits(b0@),
    ensures
        r == (digits_value(a0@) < digits_value(b0@)),
{
    let n = if a0.len() >= b0.len() {
        a0.len()
    } else {
        b0.len()
    };
    let a = pad_left(a0, n);
    let b = pad_left(b0, n);
    let mut i: usize = 0;
    while i < n && a[i] == b[i]
        invariant
            i <= n == a.len() == b.len(),
            all_digits(a@),
            all_digits(b@),
            a@.take(i as int) == b@.take(i as int),
        decreases n - i,
    {
        assert(a@.take(i + 1) =~= a@.take(i as int).push(a@[i as int]));
        assert(b@.take(i + 1) =~= b@.take(i as int).push(b@[i as int]));
        i += 1;
    }
    if i == n {
        assert(a@ =~= a@.take(n as int));
        assert(b@ =~= b@.take(n as int));
        return false;
    }
    let da = digit_of(a[i]);
    let db = digit_of(b[i]);
    proof {
        let p = pow10((n - i - 1) as nat);
        assert(a@ =~= a@.take(i + 1) + a@.skip(i + 1));
        assert(b@ =~= b@.take(i + 1) + b@.skip(i + 1));
        lemma_dv_concat(a@.take(i + 1), a@.skip(i + 1));
        lemma_dv_concat(b@.take(i + 1), b@.skip(i + 1));
        lemma_dv_prefix_step(a@, i as int);
        lemma_dv_prefix_step(b@, i as int);
        let ta = a@.skip(i + 1);
        let tb = b@.skip(i + 1);
        assert forall|j: int| 0 <= j < ta.len() implies is_digit(#[trigger] ta[j]) by {
            assert(ta[j] == a@[j + i + 1]);
        }
        assert forall|j: int| 0 <= j < tb.len() implies is_digit(#[trigger] tb[j]) by {
            assert(tb[j] == b@[j + i + 1]);
        }
        lemma_dv_bound(ta);
        lemma_dv_bound(tb);
        let q = digits_value(a@.take(i as int));
        let va = digits_value(ta);
        let vb = digits_value(tb);
        assert(digits_value(a@) == (10 * q + da) * p + va);
        assert(digits_value(b@) == (10 * q + db) * p + vb);
        assert(da < db ==> (10 * q + da) * p + va < (10 * q + db) * p + vb) by (nonlinear_arith)
            requires
                va < p,
                vb >= 0,
        ;
        assert(da > db ==> (10 * q + da) * p + va > (10 * q + db) * p + vb) by (nonlinear_arith)
            requires
                vb < p,
                va >= 0,
        ;
    }
    da < db
}

} // verus!

verus! {

/// Magnitudes at or above this one saturate any `i32`.
pub open spec fn mag_cap() -> nat {
    0x8000_0001
}

pub open spec fn min_nat(a: nat, b: nat) -> nat {
    if a <= b {
        a
    } else {
        b
    }
}

/// `min(dv(s), cap)`: the digits' value, saturated just above `i32`.
pub fn capped_value(s: &Vec<char>) -> (r: u64)
    requires
        all_digits(s@),
    ensures
        r == min_nat(digits_value(s@), mag_cap()),
{
    let mut acc: u64 = 0;
    let mut i: usize = 0;
    while i < s.len()
        invariant
            i <= s.len(),
            all_digits(s@),
            acc == min_nat(digits_value(s@.take(i as int)), mag_cap()),
        decreases s.len() - i,
    {
        let d = digit_of(s[i]);
        proof {
            lemma_dv_prefix_step(s@, i as int);
        }
        if acc >= 0x8000_0001 {
            acc = 0x8000_0001;
        } else {
            acc = acc * 10 + d as u64;
            if acc > 0x8000_0001 {
                acc = 0x8000_0001;
            }
        }
        i += 1;
    }
    assert(s@.take(s.len() as int) =~= s@);
    acc
}

proof fn lemma_round_split(q: int, r: int, r0: int, t: int, p: int)
    requires
        q >= 0,
        0 <= r0 <= 9,
        p >= 1,
        0 <= t < p,
        r == r0 * p + t,
    ensures
        crate::project::round_div(q * (10 * p) + r, 10 * p) == q + if r0 >= 5 {
            1int
        } else {
            0int
        },
{
    let b = 10 * p;
    let a = q * b + r;
    assert(0 <= r < b) by (nonlinear_arith)
        requires
            r == r0 * p + t,
            0 <= r0 <= 9,
            0 <= t < p,
            b == 10 * p,
    ;
    assert(a >= 0) by (nonlinear_arith)
        requires
            a == q * b + r,
            q >= 0,
            r >= 0,
            b >= 10,
    ;
    assert((2 * r >= b) == (r0 >= 5)) by (nonlinear_arith)
        requires
            r == r0 * p + t,
            0 <= r0 <= 9,
            0 <= t < p,
            b == 10 * p,
    ;
    assert((2 * a + b) / (2 * b) == q + if 2 * r >= b {
        1int
    } else {
        0int
    }) by (nonlinear_arith)
        requires
            a == q * b + r,
            0 <= r < b,
            b >= 1,
    ;
}

/// `round_div(dv(x), 10^k)`, saturated at `mag_cap()`.
pub fn round_capped(x0: &Vec<char>, k: usize) -> (r: u64)
    requires
        all_digits(x0@),
        k < usize::MAX,
    ensures
        r == min_nat(
            crate::project::round_div(digits_value(x0@) as int, pow10(k as nat) as int) as nat,
            mag_cap(),
        ),
{
    if k == 0 {
        assert(pow10(0) == 1);
        assert(crate::project::round_div(digits_value(x0@) as int, 1) == digits_value(x0@)) by (
        nonlinear_arith);
        return capped_value(x0);
    }
    let x = if x0.len() <= k {
        pad_left(x0, k + 1)
    } else {
        x0.clone()
    };
    let n = x.len();
    let q = crate::text::subvec(&x, 0, n - k);
    let rest = crate::text::subvec(&x, n - k, n);
    proof {
        assert(x@ =~= q@ + rest@);
        assert forall|j: int| 0 <= j < q@.len() implies is_digit(#[trigger] q@[j]) by {
            assert(q@[j] == x@[j]);
        }
        assert forall|j: int| 0 <= j < rest@.len() implies is_digit(#[trigger] rest@[j]) by {
            assert(rest@[j] == x@[j + n - k]);
        }
        lemma_dv_concat(q@, rest@);
        lemma_dv_suffix_step(rest@, 1);
        assert(rest@.skip(0) =~= rest@);
        let tail = rest@.skip(1);
        assert forall|j: int| 0 <= j < tail.len() implies is_digit(#[trigger] tail[j]) by {
            assert(tail[j] == rest@[j + 1]);
        }
        lemma_dv_bound(tail);
        lemma_pow10_pos((k - 1) as nat);
        assert(pow10(k as nat) == 10 * pow10((k - 1) as nat));
        lemma_round_split(
            digits_value(q@) as int,
            digits_value(rest@) as int,
            digit_val(rest@[0]),
            digits_value(tail) as int,
            pow10((k - 1) as nat) as int,
        );
    }
    let r0 = digit_of(x[n - k]);
    assert(rest@[0] == x@[n - k]);
    let qv = capped_value(&q);
    let up: u64 = if r0 >= 5 {
        1
    } else {
        0
    };
    let v = qv + up;
    if v > 0x8000_0001 {
        0x8000_0001
    } else {
        v
    }
}

} // verus!

verus! {

// ---------------------------------------------------------------------------
// Decimal numbers
// ---------------------------------------------------------------------------

/// The mantissa of a number as `f64::from_str` reads it: an optional sign,
/// digits, and an optional `.` with more digits, at least one digit in all.
/// The result is the sign, all digits in order, and how many of them follow
/// the point; the number is `±dv(digits) / 10^scale`.
pub open spec fn plain_decimal(s: Seq<char>) -> Option<(bool, Seq<char>, nat)> {
    let neg = s.len() > 0 && s[0] == '-';
    let body = if s.len() > 0 && (s[0] == '+' || s[0] == '-') {
        s.drop_first()
    } else {
        s
    };
    let k = crate::text::lead(body, crate::duration::not_char('.')) as int;
    let ip = body.take(k);
    let fp = if k < body.len() {
        body.skip(k + 1)
    } else {
        seq![]
    };
    if all_digits(ip) && all_digits(fp) && ip.len() + fp.len() > 0 {
        Some((neg, ip + fp, fp.len()))
    } else {
        None
    }
}

/// The number times `10^scale`.
pub open spec fn dec_value(d: (bool, Seq<char>, nat)) -> int {
    if d.0 {
        -digits_value(d.1)
    } else {
        digits_value(d.1) as int
    }
}

/// No nonzero digit after the point.
pub open spec fn is_whole(d: (bool, Seq<char>, nat)) -> bool {
    forall|i: int| d.1.len() - d.2 <= i < d.1.len() ==> #[trigger] d.1[i] == '0'
}

pub struct Decimal {
    pub neg: bool,
    pub digits: Vec<char>,
    pub scale: usize,
    pub whole_part: Vec<char>,
}

pub open spec fn decimal_view(d: Decimal) -> (bool, Seq<char>, nat) {
    (d.neg, d.digits@, d.scale as nat)
}

/// Reads a number without exponent (see `plain_decimal`); `whole_part`
/// holds the digits before the point.
fn parse_plain(s: &Vec<char>) -> (r: Option<Decimal>)
    requires
        s.len() < usize::MAX,
    ensures
        match r {
            Some(d) => plain_decimal(s@) == Some(decimal_view(d)) && all_digits(d.digits@)
                && d.whole_part@ == d.digits@.take(d.digits@.len() - d.scale) && d.scale
                <= d.digits@.len() && d.digits.len() <= s.len(),
            None => plain_decimal(s@) is None,
        },
{
    let neg = s.len() > 0 && s[0] == '-';
    let signed = s.len() > 0 && (s[0] == '+' || s[0] == '-');
    let body = if signed {
        crate::text::subvec(s, 1, s.len())
    } else {
        crate::text::subvec(s, 0, s.len())
    };
    assert(body@ =~= if s@.len() > 0 && (s@[0] == '+' || s@[0] == '-') {
        s@.drop_first()
    } else {
        s@
    });
    let mut k: usize = 0;
    while k < body.len() && body[k] != '.'
        invariant
            k <= body.len(),
            forall|i: int| 0 <= i < k ==> #[trigger] body@[i] != '.',
        decreases body.len() - k,
    {
        k += 1;
    }
    proof {
        assert forall|i: int| 0 <= i < k implies #[trigger] crate::duration::not_char('.')(body@[i]) by {}
        crate::text::lemma_lead_at(body@, crate::duration::not_char('.'), k as int);
    }
    let ip = crate::text::subvec(&body, 0, k);
    let fp = if k < body.len() {
        crate::text::subvec(&body, k + 1, body.len())
    } else {
        Vec::new()
    };
    proof {
        if k < body.len() {
            assert(fp@ =~= body@.skip(k + 1));
        } else {
            assert(fp@ =~= Seq::<char>::empty());
        }
        assert(ip@ =~= body@.take(k as int));
    }
    let ok_i = all_digit_vec(&ip);
    let ok_f = all_digit_vec(&fp);
    if !(ok_i && ok_f && ip.len() + fp.len() > 0) {
        return None;
    }
    let digits = crate::text::concat(&ip, &fp);
    proof {
        assert forall|i: int| 0 <= i < digits@.len() implies is_digit(#[trigger] digits@[i]) by {
            if i < ip@.len() {
                assert(digits@[i] == ip@[i]);
            } else {
                assert(digits@[i] == fp@[i - ip@.len()]);
            }
        }
        assert(digits@.take(digits@.len() - fp@.len()) =~= ip@);
    }
    Some(Decimal { neg, digits, scale: fp.len(), whole_part: ip })
}

/// Exponents beyond this magnitude count as this magnitude: on inputs of
/// fewer than a million characters that changes no rounded result, except
/// where two parts with such exponents cancel.
pub open spec fn exp_cap() -> nat {
    1_000_000
}

pub open spec fn not_exp_char() -> spec_fn(char) -> bool {
    |c: char| c != 'e' && c != 'E'
}

/// The exponent after `e`: an optional sign and at least one digit; its
/// magnitude is capped at `exp_cap()`.
pub open spec fn exponent(x: Seq<char>) -> Option<int> {
    let neg = x.len() > 0 && x[0] == '-';
    let body = if x.len() > 0 && (x[0] == '+' || x[0] == '-') {
        x.drop_first()
    } else {
        x
    };
    if body.len() > 0 && all_digits(body) {
        let v = min_nat(digits_value(body), exp_cap()) as int;
        Some(
            if neg {
                -v
            } else {
                v
            },
        )
    } else {
        None
    }
}

/// `d` times `10^e`, exactly: zeros are appended for a positive exponent and
/// the point moves left (with zeros in front where needed) for a negative one.
pub open spec fn fold_exponent(d: (bool, Seq<char>, nat), e: int) -> (bool, Seq<char>, nat) {
    if e >= d.2 {
        (d.0, d.1 + zero_digits((e - d.2) as nat), 0)
    } else {
        let ns = (d.2 - e) as nat;
        if ns <= d.1.len() {
            (d.0, d.1, ns)
        } else {
            (d.0, zero_digits((ns - d.1.len()) as nat) + d.1, ns)
        }
    }
}

/// A number as `f64::from_str` reads finite numbers: a mantissa (see
/// `plain_decimal`), then optionally `e` or `E` and an exponent, folded
/// exactly into the digits and the scale. The words `inf`, `infinity` and
/// `nan` are read by the callers.
pub open spec fn decimal(s: Seq<char>) -> Option<(bool, Seq<char>, nat)> {
    let j = crate::text::lead(s, not_exp_char()) as int;
    if j >= s.len() {
        plain_decimal(s)
    } else {
        match (plain_decimal(s.take(j)), exponent(s.skip(j + 1))) {
            (Some(d), Some(e)) => Some(fold_exponent(d, e)),
            _ => None,
        }
    }
}

/// `min(dv(s), exp_cap())`.
fn capped_exponent(s: &Vec<char>) -> (r: u64)
    requires
        all_digits(s@),
    ensures
        r == min_nat(digits_value(s@), exp_cap()),
{
    let mut acc: u64 = 0;
    let mut i: usize = 0;
    while i < s.len()
        invariant
            i <= s.len(),
            all_digits(s@),
            acc == min_nat(digits_value(s@.take(i as int)), exp_cap()),
        decreases s.len() - i,
    {
        let d = digit_of(s[i]);
        proof {
            lemma_dv_prefix_step(s@, i as int);
        }
        if acc >= 1_000_000 {
            acc = 1_000_000;
        } else {
            acc = acc * 10 + d as u64;
            if acc > 1_000_000 {
                acc = 1_000_000;
            }
        }
        i += 1;
    }
    assert(s@.take(s.len() as int) =~= s@);
    acc
}

fn parse_exponent(x: &Vec<char>) -> (r: Option<i64>)
    ensures
        match r {
            Some(e) => exponent(x@) == Some(e as int),
            None => exponent(x@) is None,
        },
{
    let neg = x.len() > 0 && x[0] == '-';
    let signed = x.len() > 0 && (x[0] == '+' || x[0] == '-');
    let body = if signed {
        crate::text::subvec(x, 1, x.len())
    } else {
        crate::text::subvec(x, 0, x.len())
    };
    assert(body@ =~= if x@.len() > 0 && (x@[0] == '+' || x@[0] == '-') {
        x@.drop_first()
    } else {
        x@
    });
    if body.len() == 0 || !all_digit_vec(&body) {
        return None;
    }
    let v = capped_exponent(&body) as i64;
    if neg {
        Some(-v)
    } else {
        Some(v)
    }
}

/// Reads a number (see `decimal`); `whole_part` holds the digits before the
/// point.
pub fn parse_decimal(s: &Vec<char>) -> (r: Option<Decimal>)
    requires
        s.len() < usize::MAX / 16,
    ensures
        match r {
            Some(d) => decimal(s@) == Some(decimal_view(d)) && all_digits(d.digits@)
                && d.whole_part@ == d.digits@.take(d.digits@.len() - d.scale) && d.scale
                <= d.digits@.len() && d.digits.len() <= s.len() + exp_cap(),
            None => decimal(s@) is None,
        },
{
    let mut j: usize = 0;
    while j < s.len() && s[j] != 'e' && s[j] != 'E'
        invariant
            j <= s.len(),
            forall|i: int| 0 <= i < j ==> #[trigger] not_exp_char()(s@[i]),
        decreases s.len() - j,
    {
        j += 1;
    }
    proof {
        crate::text::lemma_lead_at(s@, not_exp_char(), j as int);
    }
    if j == s.len() {
        return parse_plain(s);
    }
    let m = crate::text::subvec(s, 0, j);
    let x = crate::text::subvec(s, j + 1, s.len());
    assert(m@ =~= s@.take(j as int));
    assert(x@ =~= s@.skip(j + 1));
    let d = match parse_plain(&m) {
        Some(d) => d,
        None => {
            return None;
        },
    };
    let e = match parse_exponent(&x) {
        Some(e) => e,
        None => {
            return None;
        },
    };
    assert(-1_000_000 <= e <= 1_000_000);
    let ghost dv = decimal_view(d);
    if e >= d.scale as i64 {
        let z = zeros_vec((e - d.scale as i64) as usize);
        let digits = crate::text::concat(&d.digits, &z);
        proof {
            lemma_dv_zeros((e - d.scale) as nat);
            assert forall|i: int| 0 <= i < digits@.len() implies is_digit(#[trigger] digits@[i]) by {
                if i < d.digits@.len() {
                    assert(digits@[i] == d.digits@[i]);
                } else {
                    assert(digits@[i] == z@[i - d.digits@.len()]);
                }
            }
            assert(digits@.take(digits@.len() - 0) =~= digits@);
        }
        let whole = digits.clone();
        Some(Decimal { neg: d.neg, digits, scale: 0, whole_part: whole })
    } else {
        let ns = (d.scale as i64 - e) as usize;
        if ns <= d.digits.len() {
            let whole = crate::text::subvec(&d.digits, 0, d.digits.len() - ns);
            assert(whole@ =~= d.digits@.take(d.digits@.len() - ns));
            Some(Decimal { neg: d.neg, digits: d.digits, scale: ns, whole_part: whole })
        } else {
            let z = zeros_vec(ns - d.digits.len());
            let digits = crate::text::concat(&z, &d.digits);
            proof {
                lemma_dv_zeros((ns - d.digits.len()) as nat);
                assert forall|i: int| 0 <= i < digits@.len() implies is_digit(#[trigger] digits@[i]) by {
                    if i < z@.len() {
                        assert(digits@[i] == z@[i]);
                    } else {
                        assert(digits@[i] == d.digits@[i - z@.len()]);
                    }
                }
                assert(digits@.take(0) =~= Seq::<char>::empty());
            }
            Some(Decimal { neg: d.neg, digits, scale: ns, whole_part: Vec::new() })
        }
    }
}

fn all_digit_vec(v: &Vec<char>) -> (b: bool)
    ensures
        b == all_digits(v@),
{
    let mut i: usize = 0;
    while i < v.len()
        invariant
            i <= v.len(),
            forall|j: int| 0 <= j < i ==> is_digit(#[trigger] v@[j]),
        decreases v.len() - i,
    {
        if !(v[i] >= '0' && v[i] <= '9') {
            return false;
        }
        i += 1;
    }
    true
}

pub fn is_whole_exec(d: &Decimal) -> (b: bool)
    requires
        d.scale <= d.digits.len(),
    ensures
        b == is_whole(decimal_view(*d)),
{
    let mut i = d.digits.len() - d.scale;
    while i < d.digits.len()
        invariant
            d.digits.len() - d.scale <= i <= d.digits.len(),
            forall|j: int| d.digits.len() - d.scale <= j < i ==> #[trigger] d.digits@[j] == '0',
        decreases d.digits.len() - i,
    {
        if d.digits[i] != '0' {
            assert(decimal_view(*d).1[i as int] != '0');
            return false;
        }
        i += 1;
    }
    true
}

/// For a whole number, its value equals the value of the digits before the
/// point times `10^scale`.
pub proof fn lemma_whole_value(d: (bool, Seq<char>, nat))
    requires
        is_whole(d),
        d.2 <= d.1.len(),
        all_digits(d.1),
    ensures
        digits_value(d.1) == digits_value(d.1.take(d.1.len() - d.2)) * pow10(d.2),
{
    let w = d.1.take(d.1.len() - d.2);
    let f = d.1.skip(d.1.len() - d.2);
    assert(d.1 =~= w + f);
    lemma_dv_concat(w, f);
    assert(f =~= zero_digits(d.2)) by {
        assert forall|i: int| 0 <= i < f.len() implies f[i] == zero_digits(d.2)[i] by {
            assert(f[i] == d.1[i + d.1.len() - d.2]);
        }
    }
    lemma_dv_zeros(d.2);
}

} // verus!

verus! {

/// Whether the digits before the point are below 24.
pub fn less_than_24(d: &Decimal) -> (b: bool)
    requires
        all_digits(d.whole_part@),
    ensures
        b == (digits_value(d.whole_part@) < 24),
{
    let v = capped_value(&d.whole_part);
    v < 24
}

} // verus!
