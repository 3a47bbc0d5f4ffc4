//! Markdown reports built from the output of `klog total` and `klog report`.
use vstd::prelude::*;
use crate::duration::{convert_chars, convert_duration, day_minutes, magnitude_fits, magnitude_fits_chars};
use crate::text::{
    append, append_str, chars_of, is_digit, lines, lines_of, starts_with, starts_with_chars,
    string_of, subvec, tokens, tokens_of, trim, trim_chars, views,
};

verus! {

broadcast use vstd::string::group_string_axioms;

pub open spec fn strip_prefix(s: Seq<char>, p: Seq<char>) -> Option<Seq<char>> {
    if starts_with(s, p) {
        Some(s.skip(p.len() as int))
    } else {
        None
    }
}

/// `Total:`, `Should:` and `Diff:` values of `klog total --diff` output; a
/// later line overrides an earlier one.
pub open spec fn total_fields(ls: Seq<Seq<char>>) -> (
    Option<Seq<char>>,
    Option<Seq<char>>,
    Option<Seq<char>>,
)
    decreases ls.len(),
{
    if ls.len() == 0 {
        (None, None, None)
    } else {
        let prev = total_fields(ls.drop_last());
        let l = ls.last();
        if starts_with(l, "Total:"@) {
            (Some(trim(l.skip("Total:"@.len() as int))), prev.1, prev.2)
        } else if starts_with(l, "Should:"@) {
            (prev.0, Some(trim(l.skip("Should:"@.len() as int))), prev.2)
        } else if starts_with(l, "Diff:"@) {
            (prev.0, prev.1, Some(trim(l.skip("Diff:"@.len() as int))))
        } else {
            prev
        }
    }
}

pub open spec fn opt_fits(o: Option<Seq<char>>) -> bool {
    match o {
        Some(v) => magnitude_fits(v),
        None => true,
    }
}

/// Every value the report converts can be read without leaving `i32`.
pub open spec fn total_output_fits(output: Seq<char>) -> bool {
    let f = total_fields(lines(output));
    opt_fits(f.0) && opt_fits(f.1) && opt_fits(f.2)
}

pub struct TotalValues {
    pub total: Option<Vec<char>>,
    pub should: Option<Vec<char>>,
    pub diff: Option<Vec<char>>,
}

pub open spec fn opt_chars(o: Option<Vec<char>>) -> Option<Seq<char>> {
    match o {
        Some(v) => Some(v@),
        None => None,
    }
}

/// The part of `l` after the prefix `p`, trimmed, when `l` starts with `p`.
fn field_after(l: &Vec<char>, p: &str) -> (r: Option<Vec<char>>)
    ensures
        opt_chars(r) == match strip_prefix(l@, p@) {
            Some(rest) => Some(trim(rest)),
            None => None,
        },
{
    let pv = chars_of(p);
    if starts_with_chars(l, &pv) {
        let rest = subvec(l, pv.len(), l.len());
        assert(rest@ =~= l@.skip(p@.len() as int));
        Some(trim_chars(&rest))
    } else {
        None
    }
}

pub fn read_total_fields(output: &Vec<char>) -> (r: TotalValues)
    ensures
        (opt_chars(r.total), opt_chars(r.should), opt_chars(r.diff)) == total_fields(
            lines(output@),
        ),
{
    let ls = lines_of(output);
    let ghost all = lines(output@);
    let mut total: Option<Vec<char>> = None;
    let mut should: Option<Vec<char>> = None;
    let mut diff: Option<Vec<char>> = None;
    let mut i: usize = 0;
    while i < ls.len()
        invariant
            i <= ls.len(),
            views(ls@) == all,
            (opt_chars(total), opt_chars(should), opt_chars(diff)) == total_fields(
                all.take(i as int),
            ),
        decreases ls.len() - i,
    {
        assert(all.take(i + 1).drop_last() =~= all.take(i as int));
        assert(all[i as int] == ls@[i as int]@);
        let l = &ls[i];
        if let Some(v) = field_after(l, "Total:") {
            total = Some(v);
        } else if let Some(v) = field_after(l, "Should:") {
            should = Some(v);
        } else if let Some(v) = field_after(l, "Diff:") {
            diff = Some(v);
        }
        i += 1;
    }
    assert(all.take(ls.len() as int) =~= all);
    TotalValues { total, should, diff }
}

// ---------------------------------------------------------------------------
// Day report
// ---------------------------------------------------------------------------

pub open spec fn opt_row(o: Option<Seq<char>>, pre: Seq<char>, post: Seq<char>, day: int) -> Seq<
    char,
> {
    match o {
        Some(v) => pre + convert_duration(v, day) + post,
        None => seq![],
    }
}

/// The Markdown day report for `date` from `klog total --date <date> --diff`
/// output; `None` when the output has no `Total:` line.
pub open spec fn day_report(date: Seq<char>, output: Seq<char>, day: int) -> Option<Seq<char>> {
    let f = total_fields(lines(output));
    match f.0 {
        None => None,
        Some(total) => Some(
            "### Day Report: "@ + date + "\n\n"@ + "| Metric | Value |\n"@ + "| :--- | :--- |\n"@
                + "| **Total** | **"@ + convert_duration(total, day) + "** |\n"@ + opt_row(
                f.1,
                "| Should | "@,
                " |\n"@,
                day,
            ) + opt_row(f.2, "| Diff | "@, " |\n"@, day),
        ),
    }
}

pub open spec fn opt_string(o: Option<String>) -> Option<Seq<char>> {
    match o {
        Some(s) => Some(s@),
        None => None,
    }
}

fn push_opt_row(r: &mut Vec<char>, o: &Option<Vec<char>>, pre: &str, post: &str, day_setting: i32)
    requires
        opt_fits(opt_chars(*o)),
    ensures
        final(r)@ == old(r)@ + opt_row(
            opt_chars(*o),
            pre@,
            post@,
            day_minutes(day_setting as int),
        ),
{
    match o {
        Some(v) => {
            append_str(r, pre);
            let c = convert_chars(v, day_setting);
            append(r, &c);
            append_str(r, post);
        },
        None => {
            assert(old(r)@ + seq![] =~= old(r)@);
        },
    }
}

/// Builds the Markdown day report for `date` from the output of
/// `klog total --date <date> --diff --no-style`.
pub fn run_klog_for_date(date: &str, total_output: &str, day_setting: i32) -> (r: Option<String>)
    requires
        total_output_fits(total_output@),
    ensures
        opt_string(r) == day_report(date@, total_output@, day_minutes(day_setting as int)),
{
    let out = chars_of(total_output);
    let f = read_total_fields(&out);
    let total = match &f.total {
        Some(t) => t,
        None => {
            return None;
        },
    };
    let mut r: Vec<char> = Vec::new();
    append_str(&mut r, "### Day Report: ");
    append_str(&mut r, date);
    append_str(&mut r, "\n\n");
    append_str(&mut r, "| Metric | Value |\n");
    append_str(&mut r, "| :--- | :--- |\n");
    append_str(&mut r, "| **Total** | **");
    let c = convert_chars(total, day_setting);
    append(&mut r, &c);
    append_str(&mut r, "** |\n");
    push_opt_row(&mut r, &f.should, "| Should | ", " |\n", day_setting);
    push_opt_row(&mut r, &f.diff, "| Diff | ", " |\n", day_setting);
    Some(string_of(&r))
}

/// The one-line day summary `Total: 6h  │  Should: 8h!  │  Diff: -2h`.
pub open spec fn day_summary(output: Seq<char>, day: int) -> Option<Seq<char>> {
    let f = total_fields(lines(output));
    match f.0 {
        None => None,
        Some(total) => Some(
            "Total: "@ + convert_duration(total, day) + opt_row(
                f.1,
                "  │  Should: "@,
                seq![],
                day,
            ) + opt_row(f.2, "  │  Diff: "@, seq![], day),
        ),
    }
}

/// Returns a compact single-line day summary for use in Code Lenses and
/// Inlay Hints, from the output of `klog total --date <date> --diff
/// --no-style`. Example: "Total: 6h  │  Should: 8h!  │  Diff: -2h"
pub fn get_day_summary_inline(total_output: &str, day_setting: i32) -> (r: Option<String>)
    requires
        total_output_fits(total_output@),
    ensures
        opt_string(r) == day_summary(total_output@, day_minutes(day_setting as int)),
{
    let out = chars_of(total_output);
    let f = read_total_fields(&out);
    let total = match &f.total {
        Some(t) => t,
        None => {
            return None;
        },
    };
    let mut r: Vec<char> = Vec::new();
    append_str(&mut r, "Total: ");
    let c = convert_chars(total, day_setting);
    append(&mut r, &c);
    push_opt_row(&mut r, &f.should, "  │  Should: ", "", day_setting);
    push_opt_row(&mut r, &f.diff, "  │  Diff: ", "", day_setting);
    proof {
        reveal_strlit("");
    }
    Some(string_of(&r))
}

} // verus!

verus! {

// ---------------------------------------------------------------------------
// Tag report
// ---------------------------------------------------------------------------

/// Index of the first element satisfying `p` at or after `i`, or `ts.len()`.
pub open spec fn find_first(ts: Seq<Seq<char>>, p: spec_fn(Seq<char>) -> bool, i: int) -> int
    decreases ts.len() - i,
{
    if i < 0 || i >= ts.len() {
        ts.len() as int
    } else if p(ts[i]) {
        i
    } else {
        find_first(ts, p, i + 1)
    }
}

pub open spec fn all_digit_chars(s: Seq<char>) -> bool {
    forall|i: int| 0 <= i < s.len() ==> is_digit(#[trigger] s[i])
}

pub open spec fn is_ascii_alpha(c: char) -> bool {
    ('a' <= c <= 'z') || ('A' <= c <= 'Z')
}

pub open spec fn all_alpha_chars(s: Seq<char>) -> bool {
    forall|i: int| 0 <= i < s.len() ==> is_ascii_alpha(#[trigger] s[i])
}

pub open spec fn has_digit(s: Seq<char>) -> bool {
    exists|i: int| 0 <= i < s.len() && is_digit(#[trigger] s[i])
}

/// Bytes in the UTF-8 encoding of one character.
pub open spec fn char_width(c: char) -> nat {
    if (c as u32) < 0x80 {
        1
    } else if (c as u32) < 0x800 {
        2
    } else if (c as u32) < 0x10000 {
        3
    } else {
        4
    }
}

/// Byte length of the UTF-8 encoding (what `str::len` returns).
pub open spec fn byte_len(s: Seq<char>) -> nat
    decreases s.len(),
{
    if s.len() == 0 {
        0
    } else {
        byte_len(s.drop_last()) + char_width(s.last())
    }
}

/// A day column token of `klog report`, such as `19.`.
pub open spec fn is_day_token(t: Seq<char>) -> bool {
    t.len() > 0 && t.last() == '.' && byte_len(t) <= 4 && all_digit_chars(t.drop_last())
}

pub open spec fn day_token() -> spec_fn(Seq<char>) -> bool {
    |t: Seq<char>| is_day_token(t)
}

/// A short token ending in `.`; the year and month come before the first one.
pub open spec fn is_dot_short(t: Seq<char>) -> bool {
    t.len() > 0 && t.last() == '.' && byte_len(t) <= 4
}

pub open spec fn dot_short() -> spec_fn(Seq<char>) -> bool {
    |t: Seq<char>| is_dot_short(t)
}

/// A weekday abbreviation, which `klog report` prints between the month and
/// the day.
pub open spec fn is_weekday_name(t: Seq<char>) -> bool {
    t == "Mon"@ || t == "Tue"@ || t == "Wed"@ || t == "Thu"@ || t == "Fri"@ || t == "Sat"@ || t
        == "Sun"@
}

/// A month token: three letters, such as `May`, and no weekday name.
pub open spec fn is_month_token(t: Seq<char>) -> bool {
    t.len() == 3 && all_alpha_chars(t) && !is_weekday_name(t)
}

/// The running year and month after reading the tokens before the day.
pub open spec fn scan_year_month(ts: Seq<Seq<char>>, year: Seq<char>, month: Seq<char>) -> (
    Seq<char>,
    Seq<char>,
)
    decreases ts.len(),
{
    if ts.len() == 0 {
        (year, month)
    } else {
        let prev = scan_year_month(ts.drop_last(), year, month);
        let t = ts.last();
        if t.len() == 4 && all_digit_chars(t) {
            (t, prev.1)
        } else if is_month_token(t) {
            (prev.0, t)
        } else {
            prev
        }
    }
}

/// The tokens of a `klog report` line that describes a day, with the
/// position of its day token; `None` for headers, separators and totals.
pub open spec fn report_row_tokens(line: Seq<char>) -> Option<(Seq<Seq<char>>, int)> {
    let t = trim(line);
    if t.len() == 0 || t[0] == '=' || t[0] == '[' || t == "Total"@ {
        None
    } else {
        let ts = tokens(t);
        let di = find_first(ts, day_token(), 0);
        if ts.len() < 2 || di >= ts.len() || !has_digit(ts.last()) {
            None
        } else {
            Some((ts, di))
        }
    }
}

/// The time value of a day line of `klog report`.
pub open spec fn row_time(line: Seq<char>) -> Option<Seq<char>> {
    match report_row_tokens(line) {
        Some((ts, _)) => Some(ts.last()),
        None => None,
    }
}

pub open spec fn trim_end_dots(s: Seq<char>) -> Seq<char> {
    crate::duration::trim_end_char(s, '.')
}

/// One table row per day line of `klog report`, carrying the year and month
/// forward from the lines that print them.
pub open spec fn tag_rows(ls: Seq<Seq<char>>, day: int) -> (Seq<char>, Seq<char>, Seq<char>)
    decreases ls.len(),
{
    if ls.len() == 0 {
        (seq![], seq![], seq![])
    } else {
        let prev = tag_rows(ls.drop_last(), day);
        match report_row_tokens(ls.last()) {
            None => prev,
            Some((ts, di)) => {
                let dp0 = find_first(ts, dot_short(), 0);
                let dp = if dp0 < ts.len() {
                    dp0
                } else {
                    0
                };
                let ym = scan_year_month(ts.take(dp), prev.1, prev.2);
                let label = trim(ym.0 + seq![' '] + ym.1 + seq![' '] + trim_end_dots(ts[di]));
                (
                    prev.0 + "| "@ + label + " | "@ + convert_duration(ts.last(), day) + " |\n"@,
                    ym.0,
                    ym.1,
                )
            },
        }
    }
}

/// The trimmed value of the first `Total:` line.
pub open spec fn first_total(ls: Seq<Seq<char>>) -> Option<Seq<char>>
    decreases ls.len(),
{
    if ls.len() == 0 {
        None
    } else if starts_with(ls[0], "Total:"@) {
        Some(trim(ls[0].skip("Total:"@.len() as int)))
    } else {
        first_total(ls.drop_first())
    }
}

pub open spec fn tag_report_fits(total_output: Option<Seq<char>>, report_output: Option<Seq<char>>) -> bool {
    &&& (report_output matches Some(r) ==> forall|i: int|
        0 <= i < lines(r).len() ==> (#[trigger] row_time(lines(r)[i]) matches Some(t) ==> magnitude_fits(t)))
    &&& (total_output matches Some(t) ==> opt_fits(first_total(lines(t))))
}

/// The Markdown tag report from the outputs of `klog total --tag <tag>` and
/// `klog report --tag <tag>`; `None` when neither command gave output.
pub open spec fn tag_report(
    tag: Seq<char>,
    total_output: Option<Seq<char>>,
    report_output: Option<Seq<char>>,
    day: int,
) -> Option<Seq<char>> {
    if total_output is None && report_output is None {
        None
    } else {
        let rows = match report_output {
            Some(r) => tag_rows(lines(r), day).0,
            None => seq![],
        };
        let total_row = match total_output {
            Some(t) => opt_row(first_total(lines(t)), "| **Total** | **"@, "** |\n"@, day),
            None => seq![],
        };
        Some(
            "### Tag Report: #"@ + tag + "\n\n"@ + "| Date | Time |\n"@ + "| :--- | :--- |\n"@
                + rows + total_row,
        )
    }
}

pub open spec fn opt_str(o: Option<&str>) -> Option<Seq<char>> {
    match o {
        Some(s) => Some(s@),
        None => None,
    }
}

fn is_digit_c(c: char) -> (b: bool)
    ensures
        b == is_digit(c),
{
    '0' <= c && c <= '9'
}

fn all_digits_exec(s: &Vec<char>, n: usize) -> (b: bool)
    requires
        n <= s.len(),
    ensures
        b == all_digit_chars(s@.take(n as int)),
{
    let mut i: usize = 0;
    while i < n
        invariant
            i <= n <= s.len(),
            forall|j: int| 0 <= j < i ==> is_digit(#[trigger] s@[j]),
        decreases n - i,
    {
        if !is_digit_c(s[i]) {
            assert(!is_digit(s@.take(n as int)[i as int]));
            return false;
        }
        i += 1;
    }
    assert forall|j: int| 0 <= j < n implies is_digit(#[trigger] s@.take(n as int)[j]) by {
        assert(s@.take(n as int)[j] == s@[j]);
    }
    true
}

fn all_alpha_exec(s: &Vec<char>) -> (b: bool)
    ensures
        b == all_alpha_chars(s@),
{
    let mut i: usize = 0;
    while i < s.len()
        invariant
            i <= s.len(),
            forall|j: int| 0 <= j < i ==> is_ascii_alpha(#[trigger] s@[j]),
        decreases s.len() - i,
    {
        let c = s[i];
        if !(('a' <= c && c <= 'z') || ('A' <= c && c <= 'Z')) {
            return false;
        }
        i += 1;
    }
    true
}

fn has_digit_exec(s: &Vec<char>) -> (b: bool)
    ensures
        b == has_digit(s@),
{
    let mut i: usize = 0;
    while i < s.len()
        invariant
            i <= s.len(),
            forall|j: int| 0 <= j < i ==> !is_digit(#[trigger] s@[j]),
        decreases s.len() - i,
    {
        if is_digit_c(s[i]) {
            return true;
        }
        i += 1;
    }
    false
}

fn char_width_exec(c: char) -> (n: usize)
    ensures
        n == char_width(c),
{
    let u = c as u32;
    if u < 0x80 {
        1
    } else if u < 0x800 {
        2
    } else if u < 0x10000 {
        3
    } else {
        4
    }
}

/// Whether the UTF-8 encoding of `s` takes at most `limit` bytes.
fn byte_len_at_most(s: &Vec<char>, limit: usize) -> (b: bool)
    requires
        limit <= 1000,
    ensures
        b == (byte_len(s@) <= limit),
{
    let mut total: usize = 0;
    let mut i: usize = 0;
    while i < s.len()
        invariant
            i <= s.len(),
            limit <= 1000,
            total == byte_len(s@.take(i as int)),
            total <= limit,
        decreases s.len() - i,
    {
        assert(s@.take(i + 1).drop_last() =~= s@.take(i as int));
        total = total + char_width_exec(s[i]);
        if total > limit {
            proof {
                lemma_byte_len_prefix(s@, i + 1);
            }
            return false;
        }
        i += 1;
    }
    assert(s@.take(s.len() as int) =~= s@);
    true
}

pub proof fn lemma_byte_len_prefix(s: Seq<char>, n: int)
    requires
        0 <= n <= s.len(),
    ensures
        byte_len(s.take(n)) <= byte_len(s),
    decreases s.len() - n,
{
    if n < s.len() {
        lemma_byte_len_prefix(s, n + 1);
        assert(s.take(n + 1).drop_last() =~= s.take(n));
    } else {
        assert(s.take(n) =~= s);
    }
}

fn is_day_token_exec(t: &Vec<char>) -> (b: bool)
    ensures
        b == is_day_token(t@),
{
    if t.len() == 0 || t[t.len() - 1] != '.' {
        return false;
    }
    if !byte_len_at_most(t, 4) {
        return false;
    }
    let r = all_digits_exec(t, t.len() - 1);
    assert(t@.take(t.len() - 1) =~= t@.drop_last());
    r
}

fn is_dot_short_exec(t: &Vec<char>) -> (b: bool)
    ensures
        b == is_dot_short(t@),
{
    t.len() > 0 && t[t.len() - 1] == '.' && byte_len_at_most(t, 4)
}

fn find_day_token(ts: &Vec<Vec<char>>) -> (r: usize)
    ensures
        r == find_first(views(ts@), day_token(), 0),
{
    let ghost v = views(ts@);
    let mut i: usize = 0;
    while i < ts.len()
        invariant
            i <= ts.len(),
            v == views(ts@),
            find_first(v, day_token(), 0) == find_first(v, day_token(), i as int),
        decreases ts.len() - i,
    {
        assert(v[i as int] == ts@[i as int]@);
        if is_day_token_exec(&ts[i]) {
            return i;
        }
        i += 1;
    }
    i
}

fn find_dot_short(ts: &Vec<Vec<char>>) -> (r: usize)
    ensures
        r == find_first(views(ts@), dot_short(), 0),
{
    let ghost v = views(ts@);
    let mut i: usize = 0;
    while i < ts.len()
        invariant
            i <= ts.len(),
            v == views(ts@),
            find_first(v, dot_short(), 0) == find_first(v, dot_short(), i as int),
        decreases ts.len() - i,
    {
        assert(v[i as int] == ts@[i as int]@);
        if is_dot_short_exec(&ts[i]) {
            return i;
        }
        i += 1;
    }
    i
}

fn eq_lit(a: &Vec<char>, s: &str) -> (r: bool)
    ensures
        r == (a@ == s@),
{
    let b = chars_of(s);
    crate::text::eq_chars(a, &b)
}

/// Splits a `klog report` line into its tokens and day position.
fn read_report_row(line: &Vec<char>) -> (r: Option<(Vec<Vec<char>>, usize)>)
    ensures
        match r {
            Some((ts, di)) => report_row_tokens(line@) == Some((views(ts@), di as int)),
            None => report_row_tokens(line@) is None,
        },
{
    let t = trim_chars(line);
    if t.len() == 0 || t[0] == '=' || t[0] == '[' || eq_lit(&t, "Total") {
        return None;
    }
    let ts = tokens_of(&t);
    if ts.len() < 2 {
        return None;
    }
    let di = find_day_token(&ts);
    if di >= ts.len() {
        return None;
    }
    assert(views(ts@).last() == ts@[ts.len() - 1]@);
    if !has_digit_exec(&ts[ts.len() - 1]) {
        return None;
    }
    Some((ts, di))
}

fn trim_end_dots_exec(v: &Vec<char>) -> (r: Vec<char>)
    ensures
        r@ == trim_end_dots(v@),
{
    let mut k = v.len();
    while k > 0 && v[k - 1] == '.'
        invariant
            k <= v.len(),
            forall|i: int| k <= i < v.len() ==> #[trigger] v@[i] == '.',
        decreases k,
    {
        k -= 1;
    }
    proof {
        let s = v@;
        let p = crate::duration::is_char('.');
        assert forall|i: int| s.len() - (s.len() - k) <= i < s.len() implies #[trigger] p(s[i]) by {}
        crate::text::lemma_trail_at(s, p, s.len() - k);
    }
    subvec(v, 0, k)
}

fn is_weekday_name_exec(t: &Vec<char>) -> (b: bool)
    ensures
        b == is_weekday_name(t@),
{
    eq_lit(t, "Mon") || eq_lit(t, "Tue") || eq_lit(t, "Wed") || eq_lit(t, "Thu") || eq_lit(t, "Fri")
        || eq_lit(t, "Sat") || eq_lit(t, "Sun")
}

/// Applies the year and month tokens among `ts[..n]`.
fn scan_year_month_exec(ts: &Vec<Vec<char>>, n: usize, year: &mut Vec<char>, month: &mut Vec<char>)
    requires
        n <= ts.len(),
    ensures
        (final(year)@, final(month)@) == scan_year_month(
            views(ts@).take(n as int),
            old(year)@,
            old(month)@,
        ),
{
    let ghost v = views(ts@);
    let ghost y0 = year@;
    let ghost m0 = month@;
    let mut i: usize = 0;
    while i < n
        invariant
            i <= n <= ts.len(),
            v == views(ts@),
            (year@, month@) == scan_year_month(v.take(i as int), y0, m0),
        decreases n - i,
    {
        assert(v.take(i + 1).drop_last() =~= v.take(i as int));
        assert(v.take(i + 1).last() == ts@[i as int]@);
        let t = &ts[i];
        if t.len() == 4 && all_digits_exec(t, 4) {
            assert(t@.take(4) =~= t@);
            *year = t.clone();
        } else if t.len() == 3 && all_alpha_exec(t) && !is_weekday_name_exec(t) {
            *month = t.clone();
        } else {
            proof {
                if t.len() == 4 {
                    assert(t@.take(4) =~= t@);
                }
            }
        }
        i += 1;
    }
}

fn first_total_exec(out: &Vec<char>) -> (r: Option<Vec<char>>)
    ensures
        opt_chars(r) == first_total(lines(out@)),
{
    let ls = lines_of(out);
    let ghost all = lines(out@);
    let mut i: usize = 0;
    assert(all.skip(0) =~= all);
    while i < ls.len()
        invariant
            i <= ls.len(),
            views(ls@) == all,
            all == lines(out@),
            first_total(all) == first_total(all.skip(i as int)),
        decreases ls.len() - i,
    {
        assert(all.skip(i as int)[0] == ls@[i as int]@);
        assert(all.skip(i as int).drop_first() =~= all.skip(i + 1));
        let f = field_after(&ls[i], "Total:");
        assert(all.skip(i as int).len() > 0);
        if let Some(v) = f {
            assert(starts_with(all.skip(i as int)[0], "Total:"@));
            assert(first_total(all.skip(i as int)) == Some(v@));
            return Some(v);
        }
        i += 1;
    }
    assert(all.skip(i as int).len() == 0);
    None
}

/// Builds the Markdown tag report from the outputs of
/// `klog total --tag <tag> --no-style` and `klog report --tag <tag> --no-style`
/// (`None` for a command that failed or printed nothing).
pub fn run_klog_for_tag(
    tag: &str,
    total_output: Option<&str>,
    report_output: Option<&str>,
    day_setting: i32,
) -> (r: Option<String>)
    requires
        tag_report_fits(opt_str(total_output), opt_str(report_output)),
    ensures
        opt_string(r) == tag_report(
            tag@,
            opt_str(total_output),
            opt_str(report_output),
            day_minutes(day_setting as int),
        ),
{
    if total_output.is_none() && report_output.is_none() {
        return None;
    }
    let ghost day = day_minutes(day_setting as int);
    let mut table: Vec<char> = Vec::new();
    append_str(&mut table, "### Tag Report: #");
    append_str(&mut table, tag);
    append_str(&mut table, "\n\n");
    append_str(&mut table, "| Date | Time |\n");
    append_str(&mut table, "| :--- | :--- |\n");
    let ghost head = table@;
    if let Some(report) = report_output {
        let rv = chars_of(report);
        let ls = lines_of(&rv);
        let ghost all = lines(report@);
        let mut cur_year: Vec<char> = Vec::new();
        let mut cur_month: Vec<char> = Vec::new();
        let mut i: usize = 0;
        while i < ls.len()
            invariant
                i <= ls.len(),
                views(ls@) == all,
                all == lines(report@),
                tag_report_fits(opt_str(total_output), opt_str(report_output)),
                report_output == Some(report),
                (table@, cur_year@, cur_month@) == {
                    let st = tag_rows(all.take(i as int), day);
                    (head + st.0, st.1, st.2)
                },
                day == day_minutes(day_setting as int),
            decreases ls.len() - i,
        {
            assert(all.take(i + 1).drop_last() =~= all.take(i as int));
            assert(all.take(i + 1).last() == ls@[i as int]@);
            if let Some((ts, di)) = read_report_row(&ls[i]) {
                let ghost tv = views(ts@);
                let dp0 = find_dot_short(&ts);
                let dp = if dp0 < ts.len() {
                    dp0
                } else {
                    0
                };
                scan_year_month_exec(&ts, dp, &mut cur_year, &mut cur_month);
                assert(tv[di as int] == ts@[di as int]@);
                let day_v = trim_end_dots_exec(&ts[di]);
                let mut label_raw = cur_year.clone();
                label_raw.push(' ');
                append(&mut label_raw, &cur_month);
                label_raw.push(' ');
                append(&mut label_raw, &day_v);
                let label = trim_chars(&label_raw);
                let last = &ts[ts.len() - 1];
                assert(tv.last() == last@);
                proof {
                    assert(row_time(all[i as int]) == Some(tv.last()));
                    assert(magnitude_fits(tv.last()));
                }
                let conv = convert_chars(last, day_setting);
                let ghost before = table@;
                append_str(&mut table, "| ");
                append(&mut table, &label);
                append_str(&mut table, " | ");
                append(&mut table, &conv);
                append_str(&mut table, " |\n");
                proof {
                    assert(label_raw@ =~= cur_year@ + seq![' '] + cur_month@ + seq![' '] + day_v@);
                    assert(table@ =~= before + "| "@ + label@ + " | "@ + conv@ + " |\n"@);
                }
            }
            i += 1;
        }
        assert(all.take(ls.len() as int) =~= all);
    }
    let ghost mid = table@;
    if let Some(total) = total_output {
        let tv = chars_of(total);
        let ft = first_total_exec(&tv);
        push_opt_row(&mut table, &ft, "| **Total** | **", "** |\n", day_setting);
    } else {
        assert(table@ =~= mid + seq![]);
    }
    proof {
        if report_output is None {
            assert(mid =~= head + seq![]);
        }
    }
    Some(string_of(&table))
}

} // verus!

verus! {

// ---------------------------------------------------------------------------
// Checking outputs before a report is built
// ---------------------------------------------------------------------------

fn opt_fits_exec(o: &Option<Vec<char>>) -> (b: bool)
    ensures
        b == opt_fits(opt_chars(*o)),
{
    match o {
        Some(v) => magnitude_fits_chars(v),
        None => true,
    }
}

/// Whether the day report and the day summary can be built from this
/// `klog total` output (`run_klog_for_date` and `get_day_summary_inline`
/// ask for it).
pub fn total_output_ok(total_output: &str) -> (b: bool)
    ensures
        b == total_output_fits(total_output@),
{
    let out = chars_of(total_output);
    let f = read_total_fields(&out);
    opt_fits_exec(&f.total) && opt_fits_exec(&f.should) && opt_fits_exec(&f.diff)
}

/// Whether every day line of a `klog report` output has a time that can be
/// converted.
fn report_rows_fit(report: &Vec<char>) -> (b: bool)
    ensures
        b == (forall|i: int|
            0 <= i < lines(report@).len() ==> (#[trigger] row_time(lines(report@)[i]) matches Some(
                t,
            ) ==> magnitude_fits(t))),
{
    let ls = lines_of(report);
    let ghost all = lines(report@);
    let mut i: usize = 0;
    while i < ls.len()
        invariant
            i <= ls.len(),
            views(ls@) == all,
            all == lines(report@),
            forall|j: int|
                0 <= j < i ==> (#[trigger] row_time(all[j]) matches Some(t) ==> magnitude_fits(t)),
        decreases ls.len() - i,
    {
        assert(all[i as int] == ls@[i as int]@);
        if let Some((ts, _di)) = read_report_row(&ls[i]) {
            assert(views(ts@).last() == ts@[ts.len() - 1]@);
            if !magnitude_fits_chars(&ts[ts.len() - 1]) {
                assert(row_time(all[i as int]) == Some(ts@[ts.len() - 1]@));
                assert(!(row_time(lines(report@)[i as int]) matches Some(t) ==> magnitude_fits(t)));
                return false;
            }
        }
        i += 1;
    }
    true
}

/// Whether the tag report can be built from these outputs
/// (`run_klog_for_tag` asks for it).
pub fn tag_outputs_ok(total_output: Option<&str>, report_output: Option<&str>) -> (b: bool)
    ensures
        b == tag_report_fits(opt_str(total_output), opt_str(report_output)),
{
    let rows_ok = match report_output {
        Some(r) => {
            let v = chars_of(r);
            report_rows_fit(&v)
        },
        None => true,
    };
    let total_ok = match total_output {
        Some(t) => {
            let v = chars_of(t);
            let f = first_total_exec(&v);
            opt_fits_exec(&f)
        },
        None => true,
    };
    rows_ok && total_ok
}

} // verus!

verus! {

// ---------------------------------------------------------------------------
// The `klog` runs behind the reports
// ---------------------------------------------------------------------------

fn owned_str(s: &str) -> (r: String)
    ensures
        r@ == s@,
{
    let v = chars_of(s);
    string_of(&v)
}

/// Arguments of `klog total --date <date> --diff --no-style`, whose output
/// the day report and the day summary read.
pub fn day_total_args(date: &str) -> (r: Vec<String>)
    ensures
        crate::project::string_views(r@) == seq!["total"@, "--date"@, date@, "--diff"@, "--no-style"@],
{
    let mut r: Vec<String> = Vec::new();
    r.push(owned_str("total"));
    r.push(owned_str("--date"));
    r.push(owned_str(date));
    r.push(owned_str("--diff"));
    r.push(owned_str("--no-style"));
    assert(crate::project::string_views(r@) =~= seq![
        "total"@,
        "--date"@,
        date@,
        "--diff"@,
        "--no-style"@,
    ]);
    r
}

/// Arguments of `klog total --tag <tag> --no-style` (the tag report's total).
pub fn tag_total_args(tag: &str) -> (r: Vec<String>)
    ensures
        crate::project::string_views(r@) == seq!["total"@, "--tag"@, tag@, "--no-style"@],
{
    let mut r: Vec<String> = Vec::new();
    r.push(owned_str("total"));
    r.push(owned_str("--tag"));
    r.push(owned_str(tag));
    r.push(owned_str("--no-style"));
    assert(crate::project::string_views(r@) =~= seq!["total"@, "--tag"@, tag@, "--no-style"@]);
    r
}

/// Arguments of `klog report --tag <tag> --no-style` (the tag report's rows).
pub fn tag_report_args(tag: &str) -> (r: Vec<String>)
    ensures
        crate::project::string_views(r@) == seq!["report"@, "--tag"@, tag@, "--no-style"@],
{
    let mut r: Vec<String> = Vec::new();
    r.push(owned_str("report"));
    r.push(owned_str("--tag"));
    r.push(owned_str(tag));
    r.push(owned_str("--no-style"));
    assert(crate::project::string_views(r@) =~= seq!["report"@, "--tag"@, tag@, "--no-style"@]);
    r
}

} // verus!

verus! {

/// Four ASCII digits, such as `2026`.
pub open spec fn is_year_text(t: Seq<char>) -> bool {
    t.len() == 4 && forall|i: int| 0 <= i < 4 ==> '0' <= #[trigger] t[i] <= '9'
}

/// Reading the tokens in front of a day keeps the year of the last year
/// token among them (whatever year was known before), and the year known
/// before when there is none; a later line's year therefore always replaces
/// an earlier one.
pub proof fn law_last_year_wins(ts: Seq<Seq<char>>, year: Seq<char>, month: Seq<char>)
    ensures
        forall|i: int|
            0 <= i < ts.len() && is_year_text(#[trigger] ts[i]) && (forall|j: int|
                i < j < ts.len() ==> !is_year_text(ts[j])) ==> scan_year_month(ts, year, month).0
                == ts[i],
        (forall|j: int| 0 <= j < ts.len() ==> !is_year_text(#[trigger] ts[j])) ==> scan_year_month(
            ts,
            year,
            month,
        ).0 == year,
    decreases ts.len(),
{
    if ts.len() > 0 {
        let init = ts.drop_last();
        law_last_year_wins(init, year, month);
        let t = ts.last();
        assert(is_year_text(t) == (t.len() == 4 && all_digit_chars(t))) by {
            if t.len() == 4 && all_digit_chars(t) {
                assert forall|i: int| 0 <= i < 4 implies '0' <= #[trigger] t[i] <= '9' by {
                    assert(is_digit(t[i]));
                }
            }
            if is_year_text(t) {
                assert forall|i: int| 0 <= i < t.len() implies is_digit(#[trigger] t[i]) by {
                    assert('0' <= t[i] <= '9');
                }
            }
        }
        assert forall|i: int|
            0 <= i < ts.len() && is_year_text(#[trigger] ts[i]) && (forall|j: int|
                i < j < ts.len() ==> !is_year_text(ts[j])) implies scan_year_month(ts, year, month).0
            == ts[i] by {
            if i < ts.len() - 1 {
                assert(!is_year_text(ts[ts.len() - 1]));
                assert(init[i] == ts[i]);
                assert forall|j: int| i < j < init.len() implies !is_year_text(init[j]) by {
                    assert(init[j] == ts[j]);
                }
            }
        }
        if forall|j: int| 0 <= j < ts.len() ==> !is_year_text(#[trigger] ts[j]) {
            assert(!is_year_text(ts[ts.len() - 1]));
            assert forall|j: int| 0 <= j < init.len() implies !is_year_text(#[trigger] init[j]) by {
                assert(init[j] == ts[j]);
            }
        }
    }
}

} // verus!

verus! {

/// The tokens of a `klog report` day line.
pub open spec fn row_ts(l: Seq<char>) -> Seq<Seq<char>> {
    match report_row_tokens(l) {
        Some((ts, _di)) => ts,
        None => seq![],
    }
}

/// The position of the day token of a `klog report` day line.
pub open spec fn row_di(l: Seq<char>) -> int {
    match report_row_tokens(l) {
        Some((_ts, di)) => di,
        None => 0,
    }
}

proof fn lemma_find_first(ts: Seq<Seq<char>>, p: spec_fn(Seq<char>) -> bool, i: int)
    requires
        0 <= i,
    ensures
        i <= find_first(ts, p, i) <= ts.len() || (i > ts.len() && find_first(ts, p, i) == ts.len()),
        forall|j: int| i <= j < find_first(ts, p, i) ==> !p(#[trigger] ts[j]),
        find_first(ts, p, i) < ts.len() ==> p(ts[find_first(ts, p, i)]),
    decreases ts.len() - i,
{
    if i < ts.len() && !p(ts[i]) {
        lemma_find_first(ts, p, i + 1);
    }
}

/// A `klog report` line that prints a year in front of its day labels its
/// row with that year: when `ts[k]` is the last year token before the day
/// token (and no token up to it ends in `.`), the row added for the line
/// starts with that year and the year carried on is that year.
pub proof fn law_row_takes_printed_year(ls: Seq<Seq<char>>, l: Seq<char>, day: int, k: int)
    requires
        report_row_tokens(l) is Some,
        0 <= k < row_di(l),
        is_year_text(row_ts(l)[k]),
        forall|j: int| 0 <= j <= k ==> !is_dot_short(#[trigger] row_ts(l)[j]),
        forall|j: int|
            k < j < row_di(l) ==> !is_year_text(#[trigger] row_ts(l)[j]),
    ensures
        tag_rows(ls.push(l), day).1 == row_ts(l)[k],
        tag_rows(ls.push(l), day).0 == tag_rows(ls, day).0 + "| "@ + trim(
            row_ts(l)[k] + seq![' '] + tag_rows(ls.push(l), day).2 + seq![' ']
                + trim_end_dots(row_ts(l)[row_di(l)]),
        ) + " | "@ + convert_duration(row_ts(l).last(), day) + " |\n"@,
{
    let ts = row_ts(l);
    let di = row_di(l);
    let all = ls.push(l);
    assert(all.drop_last() =~= ls);
    assert(all.last() == l);
    lemma_find_first(ts, day_token(), 0);
    assert(di == find_first(ts, day_token(), 0));
    assert(di < ts.len());
    assert(is_dot_short(ts[di]));
    lemma_find_first(ts, dot_short(), 0);
    let dp = find_first(ts, dot_short(), 0);
    assert(dp > k) by {
        if dp <= k {
            assert(dot_short()(ts[dp]));
        }
    }
    assert(dp <= di) by {
        if dp > di {
            assert(!dot_short()(ts[di]));
        }
    }
    let pre = ts.take(dp);
    let prev = tag_rows(ls, day);
    law_last_year_wins(pre, prev.1, prev.2);
    assert(pre[k] == ts[k]);
    assert forall|j: int| k < j < pre.len() implies !is_year_text(pre[j]) by {
        assert(pre[j] == ts[j]);
    }
}

} // verus!
