//! The `day_duration` setting, searched for in JSON settings objects.
use vstd::prelude::*;
use crate::decimal::{
    add_num, dec_value, decimal, decimal_view, is_whole, less_num, mag_cap, min_nat, mul_digit,
    parse_decimal, pow10, round_capped, shift_left, sub_num, Decimal,
};
use crate::duration::{duration_body, duration_body_chars, is_neg, not_char, trim_end_char, trim_end_char_chars};
use crate::number::{all_digits, digits_value, opt_i32};
use crate::project::{clamp_i32, round_div};
use crate::protocol::ascii_lower;
use crate::text::{chars_of, contains_char, lead, lemma_lead_at, subvec};

verus! {

broadcast use vstd::string::group_string_axioms;

/// A JSON value as the settings arrive; object entries keep their order.
/// Numbers keep the decimal text they were written with.
#[derive(Debug, PartialEq)]
pub enum JsonValue {
    Null,
    Bool(bool),
    Number(String),
    Str(String),
    Array(Vec<JsonValue>),
    Object(Vec<(String, JsonValue)>),
}

/// Position of the first entry whose key is `key`.
pub open spec fn key_index(entries: Seq<(String, JsonValue)>, key: Seq<char>, i: int) -> int
    decreases entries.len() - i,
{
    if i < 0 || i >= entries.len() {
        entries.len() as int
    } else if entries[i].0@ == key {
        i
    } else {
        key_index(entries, key, i + 1)
    }
}

/// The value stored under `day_duration`: in an object that has the key,
/// its value; otherwise the first one found searching the members (object
/// entries and array items) in order, depth first.
pub open spec fn find_setting(v: JsonValue) -> Option<JsonValue>
    decreases v, 0nat,
{
    match v {
        JsonValue::Object(entries) => {
            let k = key_index(entries@, "day_duration"@, 0);
            if k < entries@.len() {
                Some(entries@[k].1)
            } else {
                find_in_entries(entries@, 0)
            }
        },
        JsonValue::Array(items) => find_in_items(items@, 0),
        _ => None,
    }
}

pub open spec fn find_in_entries(entries: Seq<(String, JsonValue)>, i: int) -> Option<JsonValue>
    decreases entries, (entries.len() - i) as nat,
{
    if i < 0 || i >= entries.len() {
        None
    } else {
        match find_setting(entries[i].1) {
            Some(x) => Some(x),
            None => find_in_entries(entries, i + 1),
        }
    }
}

pub open spec fn find_in_items(items: Seq<JsonValue>, i: int) -> Option<JsonValue>
    decreases items, (items.len() - i) as nat,
{
    if i < 0 || i >= items.len() {
        None
    } else {
        match find_setting(items[i]) {
            Some(x) => Some(x),
            None => find_in_items(items, i + 1),
        }
    }
}

pub open spec fn opt_ref(o: Option<&JsonValue>) -> Option<JsonValue> {
    match o {
        Some(x) => Some(*x),
        None => None,
    }
}

fn key_is(k: &String, key: &Vec<char>) -> (b: bool)
    ensures
        b == (k@ == key@),
{
    let kv = chars_of(k.as_str());
    crate::text::eq_chars(&kv, key)
}

/// Searches a JSON value for the `day_duration` setting (see `find_setting`).
pub fn find_day_duration_recursively(value: &JsonValue) -> (r: Option<&JsonValue>)
    ensures
        opt_ref(r) == find_setting(*value),
    decreases *value, 0nat,
{
    match value {
        JsonValue::Object(entries) => {
            let key = chars_of("day_duration");
            let mut i: usize = 0;
            while i < entries.len()
                invariant
                    i <= entries.len(),
                    key@ == "day_duration"@,
                    *value == JsonValue::Object(*entries),
                    key_index(entries@, "day_duration"@, 0) == key_index(
                        entries@,
                        "day_duration"@,
                        i as int,
                    ),
                decreases entries.len() - i,
            {
                if key_is(&entries[i].0, &key) {
                    return Some(&entries[i].1);
                }
                i += 1;
            }
            find_in_entries_exec(entries, 0)
        },
        JsonValue::Array(items) => find_in_items_exec(items, 0),
        _ => None,
    }
}

fn find_in_entries_exec(entries: &Vec<(String, JsonValue)>, i: usize) -> (r: Option<&JsonValue>)
    requires
        i <= entries.len(),
    ensures
        opt_ref(r) == find_in_entries(entries@, i as int),
    decreases entries@, (entries@.len() - i) as nat,
{
    if i >= entries.len() {
        return None;
    }
    assert(decreases_to!(entries@ => entries@[i as int].1));
    match find_day_duration_recursively(&entries[i].1) {
        Some(x) => Some(x),
        None => find_in_entries_exec(entries, i + 1),
    }
}

fn find_in_items_exec(items: &Vec<JsonValue>, i: usize) -> (r: Option<&JsonValue>)
    requires
        i <= items.len(),
    ensures
        opt_ref(r) == find_in_items(items@, i as int),
    decreases items@, (items@.len() - i) as nat,
{
    if i >= items.len() {
        return None;
    }
    match find_day_duration_recursively(&items[i]) {
        Some(x) => Some(x),
        None => find_in_items_exec(items, i + 1),
    }
}

} // verus!

verus! {

// ---------------------------------------------------------------------------
// Durations written with decimals
// ---------------------------------------------------------------------------

/// Minutes written by a duration text that may use decimals (`7.7h`,
/// `7h30m`, `450m`, `7.5`, `450`), exactly, as `(n, k)` for `n / 10^k`
/// minutes. A bare number is hours when it is a whole number below 24 or
/// has decimals, and minutes otherwise.
pub open spec fn flex_amount(s: Seq<char>) -> Option<(int, nat)> {
    let b = duration_body(s);
    if b.contains('h') && b.contains('m') {
        let k = lead(b, not_char('h')) as int;
        if k < b.len() && !b.skip(k + 1).contains('h') {
            match (decimal(b.take(k)), decimal(trim_end_char(b.skip(k + 1), 'm'))) {
                (Some(h), Some(m)) => Some(
                    (60 * dec_value(h) * pow10(m.2) + dec_value(m) * pow10(h.2), h.2 + m.2),
                ),
                _ => None,
            }
        } else {
            None
        }
    } else if b.contains('h') {
        match decimal(trim_end_char(b, 'h')) {
            Some(h) => Some((60 * dec_value(h), h.2)),
            None => None,
        }
    } else if b.contains('m') {
        match decimal(trim_end_char(b, 'm')) {
            Some(m) => Some((dec_value(m), m.2)),
            None => None,
        }
    } else {
        match decimal(b) {
            Some(v) => if is_whole(v) && dec_value(v) >= 24 * pow10(v.2) {
                Some((dec_value(v), v.2))
            } else {
                Some((60 * dec_value(v), v.2))
            },
            None => None,
        }
    }
}

/// A word `f64::from_str` reads: `inf` or `infinity` (with its sign) and
/// `nan`, in any case.
#[derive(PartialEq, Eq, Structural, Clone, Copy)]
pub enum Word {
    Inf(bool),
    Nan,
}

/// `t` lowercased (ASCII) is `w`.
pub open spec fn lower_eq(t: Seq<char>, w: Seq<char>) -> bool {
    t.len() == w.len() && forall|i: int| 0 <= i < t.len() ==> ascii_lower(#[trigger] t[i]) == w[i]
}

/// The word a number text is, after an optional sign.
pub open spec fn special_word(s: Seq<char>) -> Option<Word> {
    let neg = s.len() > 0 && s[0] == '-';
    let body = if s.len() > 0 && (s[0] == '+' || s[0] == '-') {
        s.drop_first()
    } else {
        s
    };
    if lower_eq(body, "inf"@) || lower_eq(body, "infinity"@) {
        Some(Word::Inf(neg))
    } else if lower_eq(body, "nan"@) {
        Some(Word::Nan)
    } else {
        None
    }
}

/// How a part of a duration text reads: `None` when it does not, `Some(None)`
/// for a finite number, `Some(Some(w))` for a word.
pub open spec fn part_kind(p: Seq<char>) -> Option<Option<Word>> {
    match special_word(p) {
        Some(w) => Some(Some(w)),
        None => match decimal(p) {
            Some(_) => Some(None),
            None => None,
        },
    }
}

/// The value of a duration text in minutes, with infinities and NaN as
/// floating point has them.
pub enum FlexValue {
    Exact(int, nat),
    Inf(bool),
    Nan,
}

pub open spec fn word_value(w: Word) -> FlexValue {
    match w {
        Word::Inf(n) => FlexValue::Inf(n),
        Word::Nan => FlexValue::Nan,
    }
}

/// `h * 60 + m` when at least one of them is a word: NaN wins, opposite
/// infinities give NaN, an infinity absorbs a finite number.
pub open spec fn combine_words(h: Option<Word>, m: Option<Word>) -> FlexValue {
    match (h, m) {
        (Some(Word::Nan), _) => FlexValue::Nan,
        (_, Some(Word::Nan)) => FlexValue::Nan,
        (Some(Word::Inf(a)), Some(Word::Inf(b))) => if a == b {
            FlexValue::Inf(a)
        } else {
            FlexValue::Nan
        },
        (Some(Word::Inf(a)), None) => FlexValue::Inf(a),
        (None, Some(Word::Inf(b))) => FlexValue::Inf(b),
        (None, None) => FlexValue::Nan,
    }
}

/// The value of a duration text that may use decimals or the words of
/// `f64::from_str` (see `flex_amount` for finite ones).
pub open spec fn flex_value(s: Seq<char>) -> Option<FlexValue> {
    let b = duration_body(s);
    let exact = match flex_amount(s) {
        Some((n, k)) => Some(FlexValue::Exact(n, k)),
        None => None,
    };
    if b.contains('h') && b.contains('m') {
        let k = lead(b, not_char('h')) as int;
        if k < b.len() && !b.skip(k + 1).contains('h') {
            match (part_kind(b.take(k)), part_kind(trim_end_char(b.skip(k + 1), 'm'))) {
                (Some(None), Some(None)) => exact,
                (Some(hw), Some(mw)) => Some(combine_words(hw, mw)),
                _ => None,
            }
        } else {
            None
        }
    } else if b.contains('h') {
        match part_kind(trim_end_char(b, 'h')) {
            Some(Some(w)) => Some(word_value(w)),
            Some(None) => exact,
            None => None,
        }
    } else if b.contains('m') {
        match part_kind(trim_end_char(b, 'm')) {
            Some(Some(w)) => Some(word_value(w)),
            Some(None) => exact,
            None => None,
        }
    } else {
        match part_kind(b) {
            Some(Some(w)) => Some(word_value(w)),
            Some(None) => exact,
            None => None,
        }
    }
}

/// Rounded minutes (halves away from zero, saturated to `i32`) before the
/// sign in front of the text is applied; an infinity saturates and NaN
/// gives 0, as `f64 as i32` does.
pub open spec fn flex_magnitude(s: Seq<char>) -> Option<int> {
    match flex_value(s) {
        Some(FlexValue::Exact(n, k)) => Some(clamp_i32(round_div(n, pow10(k) as int))),
        Some(FlexValue::Inf(neg)) => Some(
            if neg {
                i32::MIN as int
            } else {
                i32::MAX as int
            },
        ),
        Some(FlexValue::Nan) => Some(0),
        None => None,
    }
}

/// Minutes of a duration text that may use decimals; a `-` in front negates.
pub open spec fn parse_flexible(s: Seq<char>) -> Option<int> {
    match flex_magnitude(s) {
        Some(m) => Some(
            if is_neg(s) {
                -m
            } else {
                m
            },
        ),
        None => None,
    }
}

/// Negating the result stays within `i32`.
pub open spec fn flexible_fits(s: Seq<char>) -> bool {
    flex_magnitude(s) matches Some(m) ==> (is_neg(s) ==> m != i32::MIN)
}

/// An exact amount: `±dv(digits) / 10^scale`.
pub struct Amount {
    pub neg: bool,
    pub digits: Vec<char>,
    pub scale: usize,
}

pub open spec fn amount_value(a: Amount) -> (int, nat) {
    (
        if a.neg {
            -digits_value(a.digits@)
        } else {
            digits_value(a.digits@) as int
        },
        a.scale as nat,
    )
}

/// `60 * d` as a numeral.
fn times60(d: &Vec<char>) -> (r: Vec<char>)
    requires
        all_digits(d@),
        d.len() < usize::MAX / 4,
    ensures
        all_digits(r@),
        digits_value(r@) == 60 * digits_value(d@),
        r.len() == d.len() + 2,
{
    let six = mul_digit(d, 6);
    let r = shift_left(&six, 1);
    assert(pow10(1) == 10) by {
        assert(pow10(0) == 1);
    }
    r
}

/// `±a ± b` from magnitudes and signs.
fn signed_sum(an: bool, a: &Vec<char>, bn: bool, b: &Vec<char>) -> (r: (bool, Vec<char>))
    requires
        all_digits(a@),
        all_digits(b@),
        a.len() < usize::MAX / 2,
        b.len() < usize::MAX / 2,
    ensures
        all_digits(r.1@),
        (if r.0 {
            -digits_value(r.1@)
        } else {
            digits_value(r.1@) as int
        }) == (if an {
            -digits_value(a@)
        } else {
            digits_value(a@) as int
        }) + (if bn {
            -digits_value(b@)
        } else {
            digits_value(b@) as int
        }),
        r.1.len() <= a.len() + b.len() + 1,
{
    if an == bn {
        (an, add_num(a, b))
    } else if less_num(a, b) {
        (bn, sub_num(b, a))
    } else {
        (an, sub_num(a, b))
    }
}

fn first_index_of(v: &Vec<char>, c: char) -> (k: usize)
    ensures
        k == lead(v@, not_char(c)),
        k <= v.len(),
{
    let mut k: usize = 0;
    while k < v.len() && v[k] != c
        invariant
            k <= v.len(),
            forall|i: int| 0 <= i < k ==> #[trigger] v@[i] != c,
        decreases v.len() - k,
    {
        k += 1;
    }
    proof {
        assert forall|i: int| 0 <= i < k implies #[trigger] not_char(c)(v@[i]) by {}
        lemma_lead_at(v@, not_char(c), k as int);
    }
    k
}

/// The exact amount of a duration body (see `flex_amount`).
fn flex_amount_exec(s: &Vec<char>, body: &Vec<char>) -> (r: Option<Amount>)
    requires
        body@ == duration_body(s@),
        body.len() < usize::MAX / 16,
    ensures
        match r {
            Some(a) => flex_amount(s@) == Some(amount_value(a)) && all_digits(a.digits@)
                && a.scale < usize::MAX / 2,
            None => flex_amount(s@) is None,
        },
{
    let has_h = contains_char(body, 'h');
    let has_m = contains_char(body, 'm');
    if has_h && has_m {
        let k = first_index_of(body, 'h');
        if k == body.len() {
            return None;
        }
        let rest = subvec(body, k + 1, body.len());
        assert(rest@ =~= body@.skip(k + 1));
        if contains_char(&rest, 'h') {
            return None;
        }
        let hs = subvec(body, 0, k);
        assert(hs@ =~= body@.take(k as int));
        let ms = trim_end_char_chars(&rest, 'm');
        match (parse_decimal(&hs), parse_decimal(&ms)) {
            (Some(h), Some(m)) => {
                let h60 = times60(&h.digits);
                let a = shift_left(&h60, m.scale);
                let b = shift_left(&m.digits, h.scale);
                let (neg, n) = signed_sum(h.neg, &a, m.neg, &b);
                proof {
                    let hv = decimal_view(h);
                    let mv = decimal_view(m);
                    assert(dec_value(hv) * 60 * pow10(mv.2) == (if h.neg {
                        -digits_value(a@)
                    } else {
                        digits_value(a@) as int
                    })) by (nonlinear_arith)
                        requires
                            digits_value(a@) == 60 * digits_value(h.digits@) * pow10(mv.2),
                            dec_value(hv) == if h.neg {
                                -digits_value(h.digits@)
                            } else {
                                digits_value(h.digits@) as int
                            },
                    ;
                    assert(dec_value(mv) * pow10(hv.2) == (if m.neg {
                        -digits_value(b@)
                    } else {
                        digits_value(b@) as int
                    })) by (nonlinear_arith)
                        requires
                            digits_value(b@) == digits_value(m.digits@) * pow10(hv.2),
                            dec_value(mv) == if m.neg {
                                -digits_value(m.digits@)
                            } else {
                                digits_value(m.digits@) as int
                            },
                    ;
                    assert(60 * dec_value(hv) * pow10(mv.2) == dec_value(hv) * 60 * pow10(mv.2))
                        by (nonlinear_arith);
                }
                Some(Amount { neg, digits: n, scale: h.scale + m.scale })
            },
            _ => None,
        }
    } else if has_h {
        let hs = trim_end_char_chars(body, 'h');
        match parse_decimal(&hs) {
            Some(h) => {
                let n = times60(&h.digits);
                Some(Amount { neg: h.neg, digits: n, scale: h.scale })
            },
            None => None,
        }
    } else if has_m {
        let ms = trim_end_char_chars(body, 'm');
        match parse_decimal(&ms) {
            Some(m) => Some(Amount { neg: m.neg, digits: m.digits, scale: m.scale }),
            None => None,
        }
    } else {
        match parse_decimal(body) {
            Some(v) => {
                let whole = crate::decimal::is_whole_exec(&v);
                let minutes = whole && !v.neg && !crate::decimal::less_than_24(&v);
                proof {
                    let vv = decimal_view(v);
                    if whole && !v.neg {
                        crate::decimal::lemma_whole_value(vv);
                        crate::decimal::lemma_pow10_pos(vv.2);
                        assert((digits_value(v.whole_part@) < 24) == (digits_value(v.digits@) < 24
                            * pow10(vv.2))) by (nonlinear_arith)
                            requires
                                digits_value(v.digits@) == digits_value(v.whole_part@) * pow10(
                                    vv.2,
                                ),
                                pow10(vv.2) >= 1,
                        ;
                    }
                    if whole && v.neg {
                        crate::decimal::lemma_pow10_pos(vv.2);
                    }
                }
                if minutes {
                    Some(Amount { neg: v.neg, digits: v.digits, scale: v.scale })
                } else {
                    let n = times60(&v.digits);
                    Some(Amount { neg: v.neg, digits: n, scale: v.scale })
                }
            },
            None => None,
        }
    }
}

fn lower_eq_exec(t: &Vec<char>, w: &str) -> (b: bool)
    requires
        forall|i: int| 0 <= i < w@.len() ==> 'a' <= #[trigger] w@[i] <= 'z',
    ensures
        b == lower_eq(t@, w@),
{
    let wv = chars_of(w);
    if t.len() != wv.len() {
        return false;
    }
    let mut i: usize = 0;
    while i < t.len()
        invariant
            i <= t.len(),
            t.len() == wv.len(),
            wv@ == w@,
            forall|j: int| 0 <= j < w@.len() ==> 'a' <= #[trigger] w@[j] <= 'z',
            forall|j: int| 0 <= j < i ==> ascii_lower(#[trigger] t@[j]) == w@[j],
        decreases t.len() - i,
    {
        let c = t[i];
        let d = wv[i];
        assert('a' <= w@[i as int] <= 'z');
        let same = c == d || ('A' <= c && c <= 'Z' && (c as u32) + 32 == (d as u32));
        if !same {
            return false;
        }
        i += 1;
    }
    true
}

fn special_word_exec(s: &Vec<char>) -> (r: Option<Word>)
    ensures
        r == special_word(s@),
{
    let neg = s.len() > 0 && s[0] == '-';
    let signed = s.len() > 0 && (s[0] == '+' || s[0] == '-');
    let body = if signed {
        subvec(s, 1, s.len())
    } else {
        subvec(s, 0, s.len())
    };
    assert(body@ =~= if s@.len() > 0 && (s@[0] == '+' || s@[0] == '-') {
        s@.drop_first()
    } else {
        s@
    });
    proof {
        reveal_strlit("inf");
        reveal_strlit("infinity");
        reveal_strlit("nan");
    }
    if lower_eq_exec(&body, "inf") || lower_eq_exec(&body, "infinity") {
        Some(Word::Inf(neg))
    } else if lower_eq_exec(&body, "nan") {
        Some(Word::Nan)
    } else {
        None
    }
}

/// `part_kind` of a part: `None` when it does not read.
fn part_kind_exec(p: &Vec<char>) -> (r: Option<Option<Word>>)
    requires
        p.len() < usize::MAX / 16,
    ensures
        r == part_kind(p@),
{
    match special_word_exec(p) {
        Some(w) => Some(Some(w)),
        None => match parse_decimal(p) {
            Some(_) => Some(None),
            None => None,
        },
    }
}

/// What a duration body amounts to (see `flex_value`).
pub enum FlexOut {
    Exact(Amount),
    Inf(bool),
    Nan,
}

fn word_out(w: Word) -> (r: FlexOut)
    ensures
        r is Inf ==> word_value(w) == FlexValue::Inf(r->Inf_0),
        r is Nan ==> word_value(w) == FlexValue::Nan,
        r !is Exact,
{
    match w {
        Word::Inf(n) => FlexOut::Inf(n),
        Word::Nan => FlexOut::Nan,
    }
}

fn combine_out(h: Option<Word>, m: Option<Word>) -> (r: FlexOut)
    ensures
        r is Inf ==> combine_words(h, m) == FlexValue::Inf(r->Inf_0),
        r is Nan ==> combine_words(h, m) == FlexValue::Nan,
        r !is Exact,
{
    match (h, m) {
        (Some(Word::Nan), _) => FlexOut::Nan,
        (_, Some(Word::Nan)) => FlexOut::Nan,
        (Some(Word::Inf(a)), Some(Word::Inf(b))) => if a == b {
            FlexOut::Inf(a)
        } else {
            FlexOut::Nan
        },
        (Some(Word::Inf(a)), None) => FlexOut::Inf(a),
        (None, Some(Word::Inf(b))) => FlexOut::Inf(b),
        (None, None) => FlexOut::Nan,
    }
}

fn flex_value_exec(s: &Vec<char>, body: &Vec<char>) -> (r: Option<FlexOut>)
    requires
        body@ == duration_body(s@),
        body.len() < usize::MAX / 16,
    ensures
        match r {
            Some(FlexOut::Exact(a)) => flex_value(s@) == Some(
                FlexValue::Exact(amount_value(a).0, amount_value(a).1),
            ) && all_digits(a.digits@) && a.scale < usize::MAX / 2,
            Some(FlexOut::Inf(n)) => flex_value(s@) == Some(FlexValue::Inf(n)),
            Some(FlexOut::Nan) => flex_value(s@) == Some(FlexValue::Nan),
            None => flex_value(s@) is None,
        },
{
    let has_h = contains_char(body, 'h');
    let has_m = contains_char(body, 'm');
    let kinds: Option<Option<Word>> = if has_h && has_m {
        let k = first_index_of(body, 'h');
        if k == body.len() {
            return None;
        }
        let rest = subvec(body, k + 1, body.len());
        assert(rest@ =~= body@.skip(k + 1));
        if contains_char(&rest, 'h') {
            return None;
        }
        let hs = subvec(body, 0, k);
        assert(hs@ =~= body@.take(k as int));
        let ms = trim_end_char_chars(&rest, 'm');
        match (part_kind_exec(&hs), part_kind_exec(&ms)) {
            (Some(None), Some(None)) => Some(None),
            (Some(hw), Some(mw)) => {
                return Some(combine_out(hw, mw));
            },
            _ => {
                return None;
            },
        }
    } else if has_h {
        let hs = trim_end_char_chars(body, 'h');
        part_kind_exec(&hs)
    } else if has_m {
        let ms = trim_end_char_chars(body, 'm');
        part_kind_exec(&ms)
    } else {
        part_kind_exec(body)
    };
    match kinds {
        None => None,
        Some(Some(w)) => Some(word_out(w)),
        Some(None) => match flex_amount_exec(s, body) {
            Some(a) => Some(FlexOut::Exact(a)),
            None => None,
        },
    }
}

/// The sign in front of a duration text that may use decimals, and its
/// rounded, saturated minutes.
fn flexible_parts(s: &str) -> (r: Option<(bool, i32)>)
    requires
        s@.len() < usize::MAX / 16,
    ensures
        match r {
            Some((neg, c)) => neg == is_neg(s@) && flex_magnitude(s@) == Some(c as int),
            None => flex_magnitude(s@) is None,
        },
{
    let v = chars_of(s);
    let (neg, body) = duration_body_chars(&v);
    match flex_value_exec(&v, &body) {
        None => None,
        Some(FlexOut::Inf(n)) => Some((
            neg,
            if n {
                i32::MIN
            } else {
                i32::MAX
            },
        )),
        Some(FlexOut::Nan) => Some((neg, 0)),
        Some(FlexOut::Exact(a)) => {
            let m = round_capped(&a.digits, a.scale);
            proof {
                let d = pow10(a.scale as nat) as int;
                crate::decimal::lemma_pow10_pos(a.scale as nat);
                lemma_round_div_neg(digits_value(a.digits@) as int, d);
            }
            Some((neg, clamp_signed(a.neg, m)))
        },
    }
}

/// Whether a duration text that may use decimals can be read with its sign
/// applied in `i32` (`parse_duration_to_minutes_flexible` asks for it).
pub fn flexible_in_range(s: &str) -> (b: bool)
    requires
        s@.len() < usize::MAX / 16,
    ensures
        b == flexible_fits(s@),
{
    match flexible_parts(s) {
        Some((neg, c)) => !neg || c != i32::MIN,
        None => true,
    }
}

/// Reads a duration string that may contain decimals (e.g. "7.7h", "8h",
/// "7h30m", "450m") into total minutes, for configuration convenience. Also
/// reads bare numbers: "7.5" (hours), "8" (hours, below 24) or "450"
/// (minutes, from 24 on). Numbers are read as `f64::from_str` reads them
/// (exponents such as `1e1h`, and the words `inf`, `infinity` and `nan`),
/// taken exactly, and the minutes rounded half away from zero; an infinity
/// saturates and NaN gives 0.
pub fn parse_duration_to_minutes_flexible(s: &str) -> (r: Option<i32>)
    requires
        s@.len() < usize::MAX / 16,
        flexible_fits(s@),
    ensures
        opt_i32(r) == parse_flexible(s@),
{
    match flexible_parts(s) {
        None => None,
        Some((neg, c)) => {
            if neg {
                Some(-c)
            } else {
                Some(c)
            }
        },
    }
}

proof fn lemma_round_div_neg(n: int, d: int)
    requires
        n >= 0,
        d >= 1,
    ensures
        round_div(-n, d) == -round_div(n, d),
        round_div(n, d) >= 0,
{
    assert((2 * n + d) / (2 * d) >= 0) by (nonlinear_arith)
        requires
            n >= 0,
            d >= 1,
    ;
    if n == 0 {
        assert(d / (2 * d) == 0) by (nonlinear_arith)
            requires
                d >= 1,
        ;
    }
}

} // verus!

verus! {

/// The whole number a decimal with no fraction stands for.
pub open spec fn whole_value(d: (bool, Seq<char>, nat)) -> int {
    let w = digits_value(d.1.take(d.1.len() - d.2));
    if d.0 {
        -w
    } else {
        w as int
    }
}

/// Minutes that a `day_duration` setting stands for: a whole number below
/// 24 is hours and any other whole number minutes; a number with decimals is
/// hours, rounded to the minute; a string is read as a duration that may use
/// decimals.
pub open spec fn setting_minutes(v: JsonValue) -> Option<int> {
    match v {
        JsonValue::Number(t) => match decimal(t@) {
            Some(d) => if is_whole(d) {
                let val = clamp_i32(whole_value(d));
                if val < 24 {
                    Some(val * 60)
                } else {
                    Some(val)
                }
            } else {
                Some(clamp_i32(round_div(60 * dec_value(d), pow10(d.2) as int)))
            },
            None => None,
        },
        JsonValue::Str(s) => parse_flexible(s@),
        _ => None,
    }
}

/// The computation stays within `i32` and the texts fit in memory twice
/// over.
pub open spec fn setting_fits(v: JsonValue) -> bool {
    match v {
        JsonValue::Number(t) => t@.len() < usize::MAX / 16 && (decimal(t@) matches Some(d) ==> (
        is_whole(d) && clamp_i32(whole_value(d)) < 24 ==> clamp_i32(whole_value(d)) * 60
            >= i32::MIN)),
        JsonValue::Str(s) => s@.len() < usize::MAX / 16 && flexible_fits(s@),
        _ => true,
    }
}

fn clamp_signed(neg: bool, m: u64) -> (r: i32)
    requires
        m <= mag_cap(),
    ensures
        r == clamp_i32(
            if neg {
                -(m as int)
            } else {
                m as int
            },
        ),
{
    let val: i64 = if neg {
        -(m as i64)
    } else {
        m as i64
    };
    if val < i32::MIN as i64 {
        i32::MIN
    } else if val > i32::MAX as i64 {
        i32::MAX
    } else {
        val as i32
    }
}

/// Reads a `day_duration` setting (a number or a string) as minutes.
pub fn parse_day_duration_setting(value: &JsonValue) -> (r: Option<i32>)
    requires
        setting_fits(*value),
    ensures
        opt_i32(r) == setting_minutes(*value),
{
    match value {
        JsonValue::Number(t) => {
            let v = chars_of(t.as_str());
            match parse_decimal(&v) {
                None => None,
                Some(d) => {
                    if crate::decimal::is_whole_exec(&d) {
                        let m = crate::decimal::capped_value(&d.whole_part);
                        let val = clamp_signed(d.neg, m);
                        if val < 24 {
                            Some(val * 60)
                        } else {
                            Some(val)
                        }
                    } else {
                        let n = times60(&d.digits);
                        let m = round_capped(&n, d.scale);
                        proof {
                            crate::decimal::lemma_pow10_pos(d.scale as nat);
                            lemma_round_div_neg(digits_value(n@) as int, pow10(d.scale as nat) as int);
                        }
                        Some(clamp_signed(d.neg, m))
                    }
                },
            }
        },
        JsonValue::Str(s) => parse_duration_to_minutes_flexible(s.as_str()),
        _ => None,
    }
}

/// Whether a `day_duration` setting can be read without leaving `i32`
/// (`parse_day_duration_setting` asks for it).
pub fn setting_in_range(value: &JsonValue) -> (b: bool)
    ensures
        b == setting_fits(*value),
{
    match value {
        JsonValue::Number(t) => {
            let v = chars_of(t.as_str());
            if v.len() >= usize::MAX / 16 {
                return false;
            }
            match parse_decimal(&v) {
                None => true,
                Some(d) => {
                    if crate::decimal::is_whole_exec(&d) {
                        let m = crate::decimal::capped_value(&d.whole_part);
                        let val = clamp_signed(d.neg, m);
                        !(val < 24) || (val as i64) * 60 >= i32::MIN as i64
                    } else {
                        true
                    }
                },
            }
        },
        JsonValue::Str(s) => {
            let v = chars_of(s.as_str());
            if v.len() >= usize::MAX / 16 {
                return false;
            }
            flexible_in_range(s.as_str())
        },
        _ => true,
    }
}

} // verus!
