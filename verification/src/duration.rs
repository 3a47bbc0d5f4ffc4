//! klog durations: `1h30m`, `45m`, `+2h`, `-30m`, `8h!`.
//!
//! A duration text is trimmed, loses one trailing `!` (a should-total
//! marker), then one leading sign, and what is left is read as hours and/or
//! minutes.
use vstd::prelude::*;
use crate::number::{
    abs, dec, digit_char, digits_value, in_i32, int_chars, nat_chars, opt_i32, parse_i32,
    parse_i32_chars, all_digits,
};
use crate::text::{
    append, chars_of, contains_char, is_digit, is_ws, lead, lemma_lead, lemma_lead_at, lemma_trail,
    lemma_trail_at, string_of, subvec, trail, trim, trim_chars, digit_val,
};

verus! {

/// Minutes in a working day when no positive day length is configured (7h42m).
pub const DEFAULT_DAY_MINUTES: i32 = 462;

pub open spec fn is_char(c: char) -> spec_fn(char) -> bool {
    |x: char| x == c
}

pub open spec fn not_char(c: char) -> spec_fn(char) -> bool {
    |x: char| x != c
}

/// `str::trim_end_matches(c)` for a single character.
pub open spec fn trim_end_char(s: Seq<char>, c: char) -> Seq<char> {
    s.take(s.len() - trail(s, is_char(c)))
}

/// Drops one trailing `!`.
pub open spec fn strip_bang(s: Seq<char>) -> Seq<char> {
    if s.len() > 0 && s.last() == '!' {
        s.drop_last()
    } else {
        s
    }
}

/// The trimmed duration text without its trailing `!`.
pub open spec fn duration_core(s: Seq<char>) -> Seq<char> {
    strip_bang(trim(s))
}

pub open spec fn has_bang(s: Seq<char>) -> bool {
    trim(s).len() > 0 && trim(s).last() == '!'
}

pub open spec fn is_neg(s: Seq<char>) -> bool {
    duration_core(s).len() > 0 && duration_core(s)[0] == '-'
}

pub open spec fn is_pos(s: Seq<char>) -> bool {
    duration_core(s).len() > 0 && duration_core(s)[0] == '+'
}

/// The duration text without its marker and sign.
pub open spec fn duration_body(s: Seq<char>) -> Seq<char> {
    if is_neg(s) || is_pos(s) {
        duration_core(s).drop_first()
    } else {
        duration_core(s)
    }
}

/// Hours and minutes written in a duration body: `<h>h<m>m`, `<h>h` or `<m>m`,
/// each number read as `i32::from_str` reads it.
pub open spec fn hm_parts(b: Seq<char>) -> Option<(int, int)> {
    if b.contains('h') && b.contains('m') {
        let k = lead(b, not_char('h')) as int;
        if k < b.len() && !b.skip(k + 1).contains('h') {
            match (parse_i32(b.take(k)), parse_i32(trim_end_char(b.skip(k + 1), 'm'))) {
                (Some(h), Some(m)) => Some((h, m)),
                _ => None,
            }
        } else {
            None
        }
    } else if b.contains('h') {
        match parse_i32(trim_end_char(b, 'h')) {
            Some(h) => Some((h, 0)),
            None => None,
        }
    } else if b.contains('m') {
        match parse_i32(trim_end_char(b, 'm')) {
            Some(m) => Some((0, m)),
            None => None,
        }
    } else {
        None
    }
}

pub open spec fn duration_hm(s: Seq<char>) -> Option<(int, int)> {
    hm_parts(duration_body(s))
}

/// Unsigned minutes `h * 60 + m` of a duration text.
pub open spec fn duration_magnitude(s: Seq<char>) -> Option<int> {
    match duration_hm(s) {
        Some((h, m)) => Some(h * 60 + m),
        None => None,
    }
}

/// Signed minutes of a duration text.
pub open spec fn parse_duration(s: Seq<char>) -> Option<int> {
    match duration_magnitude(s) {
        Some(t) => Some(
            if is_neg(s) {
                -t
            } else {
                t
            },
        ),
        None => None,
    }
}

/// `h * 60` and `h * 60 + m` stay within `i32`.
pub open spec fn magnitude_fits(s: Seq<char>) -> bool {
    match duration_hm(s) {
        Some((h, m)) => in_i32(h * 60) && in_i32(h * 60 + m),
        None => true,
    }
}

/// The signed minutes stay within `i32` at every step.
pub open spec fn duration_fits(s: Seq<char>) -> bool {
    magnitude_fits(s) && match duration_magnitude(s) {
        Some(t) => is_neg(s) ==> t != i32::MIN,
        None => true,
    }
}

// ---------------------------------------------------------------------------
// Reading
// ---------------------------------------------------------------------------

/// The pieces a duration text is read from.
pub struct DurationText {
    pub neg: bool,
    pub pos: bool,
    pub bang: bool,
    pub hm: Option<(i32, i32)>,
}

pub open spec fn opt_pair(o: Option<(i32, i32)>) -> Option<(int, int)> {
    match o {
        Some((a, b)) => Some((a as int, b as int)),
        None => None,
    }
}

pub fn trim_end_char_chars(v: &Vec<char>, c: char) -> (r: Vec<char>)
    ensures
        r@ == trim_end_char(v@, c),
        r.len() <= v.len(),
{
    let mut k = v.len();
    while k > 0 && v[k - 1] == c
        invariant
            k <= v.len(),
            forall|i: int| k <= i < v.len() ==> #[trigger] v@[i] == c,
        decreases k,
    {
        k -= 1;
    }
    proof {
        let s = v@;
        assert forall|i: int| s.len() - (s.len() - k) <= i < s.len() implies #[trigger] is_char(
            c,
        )(s[i]) by {}
        lemma_trail_at(s, is_char(c), s.len() - k);
    }
    subvec(v, 0, k)
}

fn hm_parts_chars(b: &Vec<char>) -> (r: Option<(i32, i32)>)
    ensures
        opt_pair(r) == hm_parts(b@),
{
    let has_h = contains_char(b, 'h');
    let has_m = contains_char(b, 'm');
    if has_h && has_m {
        let mut k: usize = 0;
        while k < b.len() && b[k] != 'h'
            invariant
                k <= b.len(),
                forall|i: int| 0 <= i < k ==> #[trigger] b@[i] != 'h',
            decreases b.len() - k,
        {
            k += 1;
        }
        proof {
            assert forall|i: int| 0 <= i < k implies #[trigger] not_char('h')(b@[i]) by {}
            lemma_lead_at(b@, not_char('h'), k as int);
        }
        if k == b.len() {
            return None;
        }
        let rest = subvec(b, k + 1, b.len());
        assert(rest@ =~= b@.skip(k + 1));
        if contains_char(&rest, 'h') {
            return None;
        }
        let hs = subvec(b, 0, k);
        assert(hs@ =~= b@.take(k as int));
        let ms = trim_end_char_chars(&rest, 'm');
        match (parse_i32_chars(&hs), parse_i32_chars(&ms)) {
            (Some(h), Some(m)) => Some((h, m)),
            _ => None,
        }
    } else if has_h {
        let hs = trim_end_char_chars(b, 'h');
        match parse_i32_chars(&hs) {
            Some(h) => Some((h, 0)),
            None => None,
        }
    } else if has_m {
        let ms = trim_end_char_chars(b, 'm');
        match parse_i32_chars(&ms) {
            Some(m) => Some((0, m)),
            None => None,
        }
    } else {
        None
    }
}

/// The sign of a duration text and what follows the sign.
pub fn duration_body_chars(s: &Vec<char>) -> (r: (bool, Vec<char>))
    ensures
        r.0 == is_neg(s@),
        r.1@ == duration_body(s@),
        r.1.len() <= s.len(),
{
    let t = trim_chars(s);
    let bang = t.len() > 0 && t[t.len() - 1] == '!';
    let core = if bang {
        subvec(&t, 0, t.len() - 1)
    } else {
        t
    };
    proof {
        if bang {
            assert(core@ =~= trim(s@).drop_last());
        }
        assert(core@ == duration_core(s@));
        crate::text::lemma_lead(s@, crate::text::ws());
        crate::text::lemma_trail(crate::text::trim_start(s@), crate::text::ws());
    }
    let neg = core.len() > 0 && core[0] == '-';
    let pos = core.len() > 0 && core[0] == '+';
    let body = if neg || pos {
        subvec(&core, 1, core.len())
    } else {
        core
    };
    proof {
        if neg || pos {
            assert(body@ =~= duration_core(s@).drop_first());
        }
    }
    (neg, body)
}

/// Splits a duration text into its marker, sign and hours/minutes.
pub fn read_duration(s: &Vec<char>) -> (r: DurationText)
    ensures
        r.neg == is_neg(s@),
        r.pos == is_pos(s@),
        r.bang == has_bang(s@),
        opt_pair(r.hm) == duration_hm(s@),
{
    let t = trim_chars(s);
    let bang = t.len() > 0 && t[t.len() - 1] == '!';
    let core = if bang {
        subvec(&t, 0, t.len() - 1)
    } else {
        t
    };
    proof {
        if bang {
            assert(core@ =~= trim(s@).drop_last());
        }
        assert(core@ == duration_core(s@));
    }
    let neg = core.len() > 0 && core[0] == '-';
    let pos = core.len() > 0 && core[0] == '+';
    let body = if neg || pos {
        subvec(&core, 1, core.len())
    } else {
        core
    };
    proof {
        if neg || pos {
            assert(body@ =~= duration_core(s@).drop_first());
        }
    }
    DurationText { neg, pos, bang, hm: hm_parts_chars(&body) }
}

/// Whether `h * 60 + m` of a duration text can be computed in `i32`.
pub fn magnitude_fits_chars(s: &Vec<char>) -> (b: bool)
    ensures
        b == magnitude_fits(s@),
{
    let d = read_duration(s);
    match d.hm {
        Some((h, m)) => {
            let hm: i64 = (h as i64) * 60;
            let t: i64 = hm + (m as i64);
            i32::MIN as i64 <= hm && hm <= i32::MAX as i64 && i32::MIN as i64 <= t && t
                <= i32::MAX as i64
        },
        None => true,
    }
}

/// Whether a duration text can be read as signed minutes in `i32`
/// (`parse_duration_to_minutes` asks for it).
pub fn duration_fits_chars(s: &Vec<char>) -> (b: bool)
    ensures
        b == duration_fits(s@),
{
    let d = read_duration(s);
    match d.hm {
        Some((h, m)) => {
            let hm: i64 = (h as i64) * 60;
            let t: i64 = hm + (m as i64);
            i32::MIN as i64 <= hm && hm <= i32::MAX as i64 && i32::MIN as i64 <= t && t
                <= i32::MAX as i64 && (!d.neg || t != i32::MIN as i64)
        },
        None => true,
    }
}

/// Reads a duration string (e.g. "1h30m", "45m", "+2h", "-30m", "8h!") as
/// signed minutes.
pub fn parse_duration_to_minutes(s: &str) -> (r: Option<i32>)
    requires
        duration_fits(s@),
    ensures
        opt_i32(r) == parse_duration(s@),
{
    let v = chars_of(s);
    let d = read_duration(&v);
    match d.hm {
        Some((h, m)) => {
            let total = h * 60 + m;
            if d.neg {
                Some(-total)
            } else {
                Some(total)
            }
        },
        None => None,
    }
}

// ---------------------------------------------------------------------------
// Writing
// ---------------------------------------------------------------------------

/// The klog duration text for a number of minutes: `1h30m`, `2h`, `45m`,
/// `-30m`, `0m`.
pub open spec fn duration_str(m: int) -> Seq<char> {
    if m == 0 {
        seq!['0', 'm']
    } else {
        let a = abs(m);
        let h = a / 60;
        let mm = a % 60;
        let sign: Seq<char> = if m < 0 {
            seq!['-']
        } else {
            seq![]
        };
        let body = if h > 0 && mm > 0 {
            dec(h) + seq!['h'] + dec(mm) + seq!['m']
        } else if h > 0 {
            dec(h) + seq!['h']
        } else {
            dec(mm) + seq!['m']
        };
        sign + body
    }
}

fn duration_chars(total_mins: i32) -> (r: Vec<char>)
    requires
        total_mins != i32::MIN,
    ensures
        r@ == duration_str(total_mins as int),
{
    let mut r: Vec<char> = Vec::new();
    if total_mins == 0 {
        r.push('0');
        r.push('m');
        return r;
    }
    let is_negative = total_mins < 0;
    let a: i32 = if is_negative {
        -total_mins
    } else {
        total_mins
    };
    let hours = a / 60;
    let minutes = a % 60;
    if is_negative {
        r.push('-');
    }
    let ghost sign = r@;
    if hours > 0 && minutes > 0 {
        let hd = nat_chars(hours as u64);
        append(&mut r, &hd);
        r.push('h');
        let md = nat_chars(minutes as u64);
        append(&mut r, &md);
        r.push('m');
    } else if hours > 0 {
        let hd = nat_chars(hours as u64);
        append(&mut r, &hd);
        r.push('h');
    } else {
        let md = nat_chars(minutes as u64);
        append(&mut r, &md);
        r.push('m');
    }
    assert(r@ =~= duration_str(total_mins as int));
    r
}

/// Converts total minutes back into a standard klog duration string (e.g.
/// "1h30m", "45m", "-30m").
pub fn format_minutes_to_duration(total_mins: i32) -> (r: String)
    requires
        total_mins != i32::MIN,
    ensures
        r@ == duration_str(total_mins as int),
{
    let v = duration_chars(total_mins);
    string_of(&v)
}

} // verus!

verus! {

proof fn lemma_trim_id(s: Seq<char>)
    requires
        s.len() > 0,
        !is_ws(s[0]),
        !is_ws(s.last()),
    ensures
        trim(s) == s,
{
    lemma_lead_at(s, crate::text::ws(), 0);
    assert(s.skip(0) =~= s);
    lemma_trail_at(s, crate::text::ws(), 0);
    assert(s.take(s.len() as int) =~= s);
}

proof fn lemma_trim_end_one(x: Seq<char>, c: char)
    requires
        x.len() > 0,
        x.last() != c,
    ensures
        trim_end_char(x.push(c), c) == x,
{
    let s = x.push(c);
    assert(s[s.len() - 2] == x.last());
    lemma_trail_at(s, is_char(c), 1);
    assert(s.take(s.len() - 1) =~= x);
}

proof fn lemma_digits_no(s: Seq<char>, c: char)
    requires
        all_digits(s),
        !is_digit(c),
    ensures
        !s.contains(c),
{
    if s.contains(c) {
        let i = choose|i: int| 0 <= i < s.len() && s[i] == c;
        assert(is_digit(s[i]));
    }
}

/// Writing minutes as a duration and reading the text back gives the same
/// minutes: `parse_duration_to_minutes(format_minutes_to_duration(m)) == Some(m)`.
#[verifier::spinoff_prover]
#[verifier::rlimit(40)]
pub proof fn law_duration_round_trip(m: int)
    requires
        in_i32(m),
        m != i32::MIN,
    ensures
        duration_fits(duration_str(m)),
        parse_duration(duration_str(m)) == Some(m),
{
    let s = duration_str(m);
    let a = abs(m);
    let h = a / 60;
    let mm = a % 60;
    crate::number::lemma_dec(h);
    crate::number::lemma_dec(mm);
    crate::number::lemma_dec(0);
    crate::number::lemma_parse_dec(h);
    crate::number::lemma_parse_dec(mm);
    crate::number::lemma_parse_dec(0);
    lemma_digits_no(dec(h), 'h');
    lemma_digits_no(dec(h), 'm');
    lemma_digits_no(dec(mm), 'h');
    lemma_digits_no(dec(mm), 'm');
    let body: Seq<char> = if m == 0 {
        seq!['0', 'm']
    } else if h > 0 && mm > 0 {
        dec(h) + seq!['h'] + dec(mm) + seq!['m']
    } else if h > 0 {
        dec(h) + seq!['h']
    } else {
        dec(mm) + seq!['m']
    };
    assert(is_digit(body[0])) by {
        if m == 0 {
        } else if h > 0 {
            assert(body[0] == dec(h)[0]);
        } else {
            assert(body[0] == dec(mm)[0]);
        }
    }
    assert(body.last() == 'h' || body.last() == 'm');
    if m < 0 {
        assert(s =~= seq!['-'] + body);
    } else {
        assert(s =~= body);
    }
    lemma_trim_id(s);
    assert(duration_core(s) == s);
    assert(duration_body(s) =~= body);
    if m == 0 {
        assert(body =~= dec(0).push('m'));
        assert(!body.contains('h')) by {
            assert(body[0] != 'h' && body[1] != 'h');
        }
        assert(body.contains('m')) by {
            assert(body[1] == 'm');
        }
        lemma_trim_end_one(dec(0), 'm');
    } else if h > 0 && mm > 0 {
        let k = dec(h).len() as int;
        assert(body[k] == 'h');
        assert(body.contains('h'));
        assert(body[body.len() - 1] == 'm');
        assert(body.contains('m'));
        assert forall|i: int| 0 <= i < k implies #[trigger] not_char('h')(body[i]) by {
            assert(body[i] == dec(h)[i]);
            assert(is_digit(dec(h)[i]));
        }
        lemma_lead_at(body, not_char('h'), k);
        assert(body.take(k) =~= dec(h));
        assert(body.skip(k + 1) =~= dec(mm).push('m'));
        assert(!body.skip(k + 1).contains('h')) by {
            if body.skip(k + 1).contains('h') {
                let t = body.skip(k + 1);
                let i = choose|i: int| 0 <= i < t.len() && #[trigger] t[i] == 'h';
                if i < dec(mm).len() {
                    assert(dec(mm)[i] == 'h');
                    assert(dec(mm).contains('h'));
                }
            }
        }
        lemma_trim_end_one(dec(mm), 'm');
        assert(h * 60 + mm == a);
    } else if h > 0 {
        assert(body =~= dec(h).push('h'));
        assert(body.contains('h')) by {
            assert(body[body.len() - 1] == 'h');
        }
        assert(!body.contains('m')) by {
            if body.contains('m') {
                let i = choose|i: int| 0 <= i < body.len() && body[i] == 'm';
                if i < dec(h).len() {
                    assert(dec(h)[i] == 'm');
                    assert(dec(h).contains('m'));
                }
            }
        }
        lemma_trim_end_one(dec(h), 'h');
        assert(h * 60 == a);
    } else {
        assert(body =~= dec(mm).push('m'));
        assert(body.contains('m')) by {
            assert(body[body.len() - 1] == 'm');
        }
        assert(!body.contains('h')) by {
            if body.contains('h') {
                let i = choose|i: int| 0 <= i < body.len() && body[i] == 'h';
                if i < dec(mm).len() {
                    assert(dec(mm)[i] == 'h');
                    assert(dec(mm).contains('h'));
                }
            }
        }
        lemma_trim_end_one(dec(mm), 'm');
        assert(mm == a);
    }
}

} // verus!

verus! {

// ---------------------------------------------------------------------------
// Day length and day counts
// ---------------------------------------------------------------------------

/// The day length in effect for a configured value: the configured minutes,
/// or 7h42m when nothing positive is configured.
pub open spec fn day_minutes(setting: int) -> int {
    if setting <= 0 {
        DEFAULT_DAY_MINUTES as int
    } else {
        setting
    }
}

/// The day length in effect for the configured value `setting`.
pub fn get_day_duration_minutes(setting: i32) -> (r: i32)
    ensures
        r == day_minutes(setting as int),
        r > 0,
{
    if setting <= 0 {
        DEFAULT_DAY_MINUTES
    } else {
        setting
    }
}

/// `minutes / day` in hundredths, rounded to the nearest hundredth with ties
/// going to the even hundredth.
pub open spec fn hundredths(minutes: int, day: int) -> int {
    let q = (minutes * 100) / day;
    let r = (minutes * 100) % day;
    if 2 * r > day || (2 * r == day && q % 2 == 1) {
        q + 1
    } else {
        q
    }
}

/// A day count written with at most two decimals and no trailing zeros:
/// `1`, `8.4`, `1.25`.
pub open spec fn days_str(minutes: int, day: int) -> Seq<char> {
    let q = hundredths(minutes, day);
    let whole = (q / 100) as nat;
    let frac = (q % 100) as nat;
    if frac == 0 {
        dec(whole)
    } else if frac % 10 == 0 {
        dec(whole) + seq!['.', digit_char(frac / 10)]
    } else {
        dec(whole) + seq!['.', digit_char(frac / 10), digit_char(frac % 10)]
    }
}

/// Writes `minutes / day` days with at most two decimals, dropping zeros at
/// the end (`1`, `8.4`, `12.6`, `1.25`).
pub fn format_days(minutes: i32, day: i32) -> (r: String)
    requires
        minutes >= 0,
        day > 0,
    ensures
        r@ == days_str(minutes as int, day as int),
{
    let v = days_chars(minutes, day);
    string_of(&v)
}

fn days_chars(minutes: i32, day: i32) -> (r: Vec<char>)
    requires
        minutes >= 0,
        day > 0,
    ensures
        r@ == days_str(minutes as int, day as int),
{
    let n: i64 = (minutes as i64) * 100;
    let d: i64 = day as i64;
    let q0: i64 = n / d;
    let rem: i64 = n % d;
    let q: i64 = if 2 * rem > d || (2 * rem == d && q0 % 2 == 1) {
        q0 + 1
    } else {
        q0
    };
    assert(q == hundredths(minutes as int, day as int));
    assert(q >= 0) by (nonlinear_arith)
        requires
            q0 == n / d,
            n >= 0,
            d > 0,
            q >= q0,
    ;
    let whole = (q / 100) as u64;
    let frac = (q % 100) as u64;
    let mut r = nat_chars(whole);
    if frac == 0 {
    } else if frac % 10 == 0 {
        r.push('.');
        r.push(digit_to_char_local(frac / 10));
    } else {
        r.push('.');
        r.push(digit_to_char_local(frac / 10));
        r.push(digit_to_char_local(frac % 10));
    }
    assert(r@ =~= days_str(minutes as int, day as int));
    r
}

fn digit_to_char_local(d: u64) -> (c: char)
    requires
        d < 10,
    ensures
        c == digit_char(d as nat),
{
    let b: u8 = (d as u8) + 48;
    b as char
}

/// The sign that a duration text was written with, as a prefix.
pub open spec fn sign_prefix(s: Seq<char>) -> Seq<char> {
    if is_neg(s) {
        seq!['-']
    } else if is_pos(s) {
        seq!['+']
    } else {
        seq![]
    }
}

/// A duration of at least one day becomes a day count (`8h!` with a day of
/// 8h becomes `1d!`); any other text stays as it is.
pub open spec fn convert_duration(s: Seq<char>, day: int) -> Seq<char> {
    match duration_magnitude(s) {
        Some(t) => if t >= day {
            sign_prefix(s) + days_str(t, day) + seq!['d'] + if has_bang(s) {
                seq!['!']
            } else {
                seq![]
            }
        } else {
            s
        },
        None => s,
    }
}

pub fn convert_chars(v: &Vec<char>, day_setting: i32) -> (r: Vec<char>)
    requires
        magnitude_fits(v@),
    ensures
        r@ == convert_duration(v@, day_minutes(day_setting as int)),
{
    let d = read_duration(v);
    match d.hm {
        None => v.clone(),
        Some((h, m)) => {
            let total = h * 60 + m;
            let day = get_day_duration_minutes(day_setting);
            if total >= day {
                let mut r: Vec<char> = Vec::new();
                if d.neg {
                    r.push('-');
                } else if d.pos {
                    r.push('+');
                }
                let days = days_chars(total, day);
                append(&mut r, &days);
                r.push('d');
                if d.bang {
                    r.push('!');
                }
                assert(r@ =~= convert_duration(v@, day_minutes(day_setting as int)));
                r
            } else {
                v.clone()
            }
        },
    }
}

/// Rewrites a duration of at least one (configured) day as a day count;
/// other text is returned unchanged.
pub fn convert_duration_string(s: &str, day_setting: i32) -> (r: String)
    requires
        magnitude_fits(s@),
    ensures
        r@ == convert_duration(s@, day_minutes(day_setting as int)),
{
    let v = chars_of(s);
    let r = convert_chars(&v, day_setting);
    string_of(&r)
}

} // verus!

verus! {

/// A whole number of days is written without decimals: `n` days of `day`
/// minutes read `n` (so `7h42m` with the default day is `1d`).
pub proof fn law_whole_days(n: nat, day: int)
    requires
        day > 0,
    ensures
        days_str(n * day, day) == dec(n),
{
    assert((n * day * 100) / day == n * 100 && (n * day * 100) % day == 0) by (nonlinear_arith)
        requires
            day > 0,
            n >= 0,
    ;
    assert(hundredths(n * day, day) == n * 100);
    assert((n * 100) / 100 == n && (n * 100) % 100 == 0) by (nonlinear_arith)
        requires
            n >= 0,
    ;
}

} // verus!
