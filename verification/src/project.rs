//! The per-project breakdown built from `klog tags --values`: total time
//! per `#project=<name>` value and an end-of-month estimate.
use vstd::prelude::*;
use crate::calendar::{month_fits, month_in_range, month_length, weekdays_upto, working_days_in_month};
use crate::document::{find_latest_date_in_content, latest_date, opt_date};
use crate::duration::{
    convert_chars, convert_duration, day_minutes, duration_fits, duration_str, get_day_duration_minutes,
    law_duration_round_trip, magnitude_fits, parse_duration, read_duration,
};
use crate::number::{abs, dec, in_i32, nat_chars, zero_pad, zero_pad_chars};
use crate::report::{byte_len, char_width, find_first, opt_string};
use crate::text::{
    append, append_str, chars_of, lines, lines_of, starts_with, starts_with_chars, string_of,
    tokens, tokens_of, trim, trim_chars, views,
};

verus! {

broadcast use vstd::string::group_string_axioms;

// ---------------------------------------------------------------------------
// Reading `klog tags --values`
// ---------------------------------------------------------------------------

/// The `#project` line of `klog tags --values`.
pub open spec fn is_project_header(l: Seq<char>) -> bool {
    starts_with(l, "#project "@) || starts_with(l, "#project\t"@) || l == "#project"@
}

pub open spec fn project_header() -> spec_fn(Seq<char>) -> bool {
    |l: Seq<char>| is_project_header(l)
}

pub open spec fn is_indented(l: Seq<char>) -> bool {
    l.len() > 0 && (l[0] == ' ' || l[0] == '\t')
}

/// `(value, total)` pairs of the indented lines from `j` on, up to the first
/// line that is not indented.
pub open spec fn project_values_from(ls: Seq<Seq<char>>, j: int) -> Seq<(Seq<char>, Seq<char>)>
    decreases ls.len() - j,
{
    if j < 0 || j >= ls.len() || !is_indented(ls[j]) {
        seq![]
    } else {
        let parts = tokens(trim(ls[j]));
        let rest = project_values_from(ls, j + 1);
        if parts.len() >= 2 {
            seq![(parts[0], parts[1])] + rest
        } else {
            rest
        }
    }
}

/// The total written on the first `#project` line and the values listed
/// under it.
pub open spec fn project_section(ls: Seq<Seq<char>>) -> (
    Option<Seq<char>>,
    Seq<(Seq<char>, Seq<char>)>,
) {
    let k = find_first(ls, project_header(), 0);
    if k >= ls.len() {
        (None, seq![])
    } else {
        let ts = tokens(ls[k]);
        (
            if ts.len() >= 2 {
                Some(ts[1])
            } else {
                None
            },
            project_values_from(ls, k + 1),
        )
    }
}

// ---------------------------------------------------------------------------
// Estimates
// ---------------------------------------------------------------------------

pub open spec fn weekdays_in(y: int, m: int) -> int {
    weekdays_upto(y, m, month_length(y, m))
}

/// The month's working time `W * day` over the tracked total, as
/// `(numerator, denominator)`; present when the latest record date is known
/// and the total reads as a positive number of minutes.
pub open spec fn projection(
    latest: Option<(int, int, int)>,
    total: Option<Seq<char>>,
    day: int,
) -> Option<(int, int)> {
    match (latest, total) {
        (Some((y, m, _d)), Some(t)) => match parse_duration(t) {
            Some(tm) => if tm > 0 {
                Some((weekdays_in(y, m) * day, tm))
            } else {
                None
            },
            None => None,
        },
        _ => None,
    }
}

/// `a / b` rounded to the nearest integer, halves away from zero (`b > 0`).
pub open spec fn round_div(a: int, b: int) -> int {
    if a >= 0 {
        (a + a + b) / (b + b)
    } else {
        -((b - a - a) / (b + b))
    }
}

pub open spec fn clamp_i32(x: int) -> int {
    if x < i32::MIN {
        i32::MIN as int
    } else if x > i32::MAX {
        i32::MAX as int
    } else {
        x
    }
}

/// Projected minutes: `mins * num / den`, rounded and saturated to `i32`.
pub open spec fn estimate(mins: int, num: int, den: int) -> int {
    clamp_i32(round_div(mins * num, den))
}

/// Project values whose estimate is their tracked time.
pub open spec fn is_exempt(name: Seq<char>) -> bool {
    name == "ABSCP"@ || name == "RTTE"@ || name == "RTTS"@ || name == "ABSConv"@ || name
        == "ABSMal"@
}

/// The `Est. End` cell of a project value.
pub open spec fn est_cell(name: Seq<char>, raw: Seq<char>, proj: Option<(int, int)>, day: int) -> Seq<
    char,
> {
    match proj {
        None => "-"@,
        Some((num, den)) => if is_exempt(name) {
            convert_duration(raw, day)
        } else {
            match parse_duration(raw) {
                Some(mins) => convert_duration(duration_str(estimate(mins, num, den)), day),
                None => "-"@,
            }
        },
    }
}

/// The `Est. End` cell of the total: the month's working days times the day.
pub open spec fn total_est_cell(latest: Option<(int, int, int)>, day: int) -> Seq<char> {
    match latest {
        Some((y, m, _d)) => convert_duration(duration_str(weekdays_in(y, m) * day), day),
        None => "-"@,
    }
}

pub open spec fn total_cell(total: Option<Seq<char>>, day: int) -> Seq<char> {
    match total {
        Some(t) => convert_duration(t, day),
        None => "-"@,
    }
}

/// The breakdown's arithmetic stays within `i32` and the latest record names a real month.
///
/// `always` is set when the month's working time is shown even without a
/// total.
pub open spec fn project_inputs_ok(
    content: Seq<char>,
    output: Seq<char>,
    day: int,
    always: bool,
) -> bool {
    let sec = project_section(lines(output));
    let total = sec.0;
    let vals = sec.1;
    let latest = latest_date(lines(content));
    let proj = projection(latest, total, day);
    vals.len() > 0 ==> {
        &&& ((always || total is Some) ==> (latest matches Some((y, m, _d)) ==> 1 <= m <= 12
            && month_fits(y, m) && in_i32(weekdays_in(y, m) * day)))
        &&& (total matches Some(t) ==> magnitude_fits(t) && (latest is Some ==> duration_fits(t)))
        &&& forall|i: int|
            0 <= i < vals.len() ==> {
                &&& magnitude_fits(#[trigger] vals[i].1)
                &&& (proj matches Some((num, den)) ==> !is_exempt(vals[i].0) ==> {
                    &&& duration_fits(vals[i].1)
                    &&& (parse_duration(vals[i].1) matches Some(mins) ==> estimate(mins, num, den)
                        != i32::MIN)
                })
            }
    }
}

// ---------------------------------------------------------------------------
// Executable reading
// ---------------------------------------------------------------------------

pub struct ProjectValue {
    pub name: Vec<char>,
    pub total: Vec<char>,
}

pub open spec fn value_views(v: Seq<ProjectValue>) -> Seq<(Seq<char>, Seq<char>)> {
    v.map_values(|p: ProjectValue| (p.name@, p.total@))
}

fn is_project_header_exec(l: &Vec<char>) -> (b: bool)
    ensures
        b == is_project_header(l@),
{
    let a = chars_of("#project ");
    let b = chars_of("#project\t");
    let c = chars_of("#project");
    starts_with_chars(l, &a) || starts_with_chars(l, &b) || crate::text::eq_chars(l, &c)
}

/// The `#project` section of `klog tags --values` output.
fn read_project_section(output: &Vec<char>) -> (r: (Option<Vec<char>>, Vec<ProjectValue>))
    ensures
        (crate::report::opt_chars(r.0), value_views(r.1@)) == project_section(lines(output@)),
{
    let ls = lines_of(output);
    let ghost all = lines(output@);
    let mut k: usize = 0;
    while k < ls.len() && !is_project_header_exec(&ls[k])
        invariant
            k <= ls.len(),
            views(ls@) == all,
            find_first(all, project_header(), 0) == find_first(all, project_header(), k as int),
        decreases ls.len() - k,
    {
        assert(all[k as int] == ls@[k as int]@);
        k += 1;
    }
    if k >= ls.len() {
        return (None, Vec::new());
    }
    assert(all[k as int] == ls@[k as int]@);
    assert(project_header()(all[k as int]));
    let ts = tokens_of(&ls[k]);
    let total = if ts.len() >= 2 {
        assert(views(ts@)[1] == ts@[1]@);
        Some(ts[1].clone())
    } else {
        None
    };
    let mut vals: Vec<ProjectValue> = Vec::new();
    let mut j = k + 1;
    while j < ls.len() && ls[j].len() > 0 && (ls[j][0] == ' ' || ls[j][0] == '\t')
        invariant
            k < j <= ls.len(),
            views(ls@) == all,
            project_values_from(all, k + 1) == value_views(vals@) + project_values_from(
                all,
                j as int,
            ),
        decreases ls.len() - j,
    {
        assert(all[j as int] == ls@[j as int]@);
        let t = trim_chars(&ls[j]);
        let parts = tokens_of(&t);
        let ghost before = value_views(vals@);
        if parts.len() >= 2 {
            assert(views(parts@)[0] == parts@[0]@);
            assert(views(parts@)[1] == parts@[1]@);
            vals.push(ProjectValue { name: parts[0].clone(), total: parts[1].clone() });
            assert(value_views(vals@) =~= before + seq![(parts@[0]@, parts@[1]@)]);
        }
        j += 1;
    }
    proof {
        if j < ls.len() {
            assert(all[j as int] == ls@[j as int]@);
        }
        assert(project_values_from(all, j as int) =~= seq![]);
        assert(value_views(vals@) + seq![] =~= value_views(vals@));
    }
    (total, vals)
}

fn round_div_exec(a: i128, b: i128) -> (r: i128)
    requires
        b > 0,
        -0x1_0000_0000_0000_0000 <= a <= 0x1_0000_0000_0000_0000,
        b <= 0x1_0000_0000_0000_0000,
    ensures
        r == round_div(a as int, b as int),
{
    if a >= 0 {
        (a + a + b) / (b + b)
    } else {
        -((b - a - a) / (b + b))
    }
}

fn estimate_exec(mins: i32, num: i64, den: i32) -> (r: i32)
    requires
        den > 0,
        0 <= num <= 0x7fff_ffff,
    ensures
        r == estimate(mins as int, num as int, den as int),
{
    assert(-0x1_0000_0000_0000_0000 <= (mins as int) * (num as int) <= 0x1_0000_0000_0000_0000)
        by (nonlinear_arith)
        requires
            0 <= num <= 0x7fff_ffff,
            i32::MIN <= mins <= i32::MAX,
    ;
    let a: i128 = (mins as i128) * (num as i128);
    let q = round_div_exec(a, den as i128);
    if q < i32::MIN as i128 {
        i32::MIN
    } else if q > i32::MAX as i128 {
        i32::MAX
    } else {
        q as i32
    }
}

/// The three cells of one project row, before padding.
pub struct ProjectRow {
    pub name: Vec<char>,
    pub time: Vec<char>,
    pub est: Vec<char>,
}

pub open spec fn row_views(v: Seq<ProjectRow>) -> Seq<(Seq<char>, Seq<char>, Seq<char>)> {
    v.map_values(|r: ProjectRow| (r.name@, r.time@, r.est@))
}

/// The rows of the breakdown: the value name behind `prefix`, its total and
/// its estimate.
pub open spec fn project_rows(
    vals: Seq<(Seq<char>, Seq<char>)>,
    proj: Option<(int, int)>,
    day: int,
    prefix: Seq<char>,
) -> Seq<(Seq<char>, Seq<char>, Seq<char>)> {
    Seq::new(
        vals.len(),
        |i: int|
            (prefix + vals[i].0, convert_duration(vals[i].1, day), est_cell(vals[i].0, vals[i].1, proj, day)),
    )
}

/// Everything both project reports show.
pub struct ProjectData {
    pub has_total: bool,
    pub rows: Vec<ProjectRow>,
    pub total_cell: Vec<char>,
    pub total_est: Vec<char>,
}

/// The cells of both project reports before the shares are added.
pub open spec fn project_cells_spec(
    content: Seq<char>,
    output: Seq<char>,
    day: int,
    prefix: Seq<char>,
    always: bool,
) -> Option<(bool, Seq<(Seq<char>, Seq<char>, Seq<char>)>, Seq<char>, Seq<char>)> {
    let sec = project_section(lines(output));
    let latest = latest_date(lines(content));
    if sec.1.len() == 0 {
        None
    } else {
        Some(
            (
                sec.0 is Some,
                project_rows(sec.1, projection(latest, sec.0, day), day, prefix),
                total_cell(sec.0, day),
                if always || sec.0 is Some {
                    total_est_cell(latest, day)
                } else {
                    "-"@
                },
            ),
        )
    }
}

/// The tracked total in minutes, when it reads as a positive duration: the
/// base of the shares.
pub open spec fn share_base(total: Option<Seq<char>>) -> Option<int> {
    match total {
        Some(t) => match parse_duration(t) {
            Some(tm) => if tm > 0 {
                Some(tm)
            } else {
                None
            },
            None => None,
        },
        None => None,
    }
}

/// `part / whole` in percent with one decimal, halves rounded away from
/// zero: `40.0`, `100.0`, `-12.5`.
pub open spec fn percent_text(part: int, whole: int) -> Seq<char> {
    let q = round_div(part * 1000, whole);
    let a = abs(q);
    (if q < 0 {
        seq!['-']
    } else {
        seq![]
    }) + dec(a / 10) + seq!['.'] + dec(a % 10)
}

/// A cell with the share `part / base` behind it, in parentheses; the cell
/// is padded to `w` so that the parentheses line up. Without a part or a
/// base the cell stays as it is.
pub open spec fn pad_share(cell: Seq<char>, part: Option<int>, base: Option<int>, w: nat) -> Seq<char> {
    match (base, part) {
        (Some(b), Some(m)) => pad_right(cell, w) + " ("@ + percent_text(m, b) + "%)"@,
        _ => cell,
    }
}

/// A time cell with the share of `raw` in the tracked total behind it.
pub open spec fn with_share(time: Seq<char>, raw: Seq<char>, base: Option<int>, w: nat) -> Seq<char> {
    pad_share(time, parse_duration(raw), base, w)
}

/// The estimated minutes of a value: its tracked minutes projected to the
/// month, or kept as they are for an exempt value.
pub open spec fn est_minutes(name: Seq<char>, raw: Seq<char>, proj: Option<(int, int)>) -> Option<int> {
    match (proj, parse_duration(raw)) {
        (Some((num, den)), Some(m)) => Some(
            if is_exempt(name) {
                m
            } else {
                estimate(m, num, den)
            },
        ),
        _ => None,
    }
}

/// The base of the estimates' shares: the month's working time.
pub open spec fn est_base(proj: Option<(int, int)>) -> Option<int> {
    match proj {
        Some((num, _den)) => if num > 0 {
            Some(num)
        } else {
            None
        },
        None => None,
    }
}

pub open spec fn est_total(proj: Option<(int, int)>) -> Option<int> {
    match proj {
        Some((num, _den)) => Some(num),
        None => None,
    }
}

/// Everything both project reports show: whether `klog` printed a total,
/// the rows (name, time with its share of the tracked total, estimate with
/// its share of the month's working time), and the total row's time and
/// estimate with their shares.
pub open spec fn project_data_spec(
    content: Seq<char>,
    output: Seq<char>,
    day: int,
    prefix: Seq<char>,
    always: bool,
) -> Option<(bool, Seq<(Seq<char>, Seq<char>, Seq<char>)>, Seq<char>, Seq<char>)> {
    let sec = project_section(lines(output));
    match project_cells_spec(content, output, day, prefix, always) {
        None => None,
        Some((has_total, rows, tc, te)) => {
            let base = share_base(sec.0);
            let w = max_len(col(rows, 1), byte_len(tc));
            let proj = projection(latest_date(lines(content)), sec.0, day);
            let w2 = max_len(col(rows, 2), byte_len(te));
            Some(
                (
                    has_total,
                    Seq::new(
                        rows.len(),
                        |i: int|
                            (
                                rows[i].0,
                                with_share(rows[i].1, sec.1[i].1, base, w),
                                pad_share(
                                    rows[i].2,
                                    est_minutes(sec.1[i].0, sec.1[i].1, proj),
                                    est_base(proj),
                                    w2,
                                ),
                            ),
                    ),
                    match sec.0 {
                        Some(t) => with_share(tc, t, base, w),
                        None => tc,
                    },
                    pad_share(te, est_total(proj), est_base(proj), w2),
                ),
            )
        },
    }
}

fn is_exempt_exec(name: &Vec<char>) -> (b: bool)
    ensures
        b == is_exempt(name@),
{
    let a = chars_of("ABSCP");
    let b = chars_of("RTTE");
    let c = chars_of("RTTS");
    let d = chars_of("ABSConv");
    let e = chars_of("ABSMal");
    crate::text::eq_chars(name, &a) || crate::text::eq_chars(name, &b) || crate::text::eq_chars(
        name,
        &c,
    ) || crate::text::eq_chars(name, &d) || crate::text::eq_chars(name, &e)
}

fn dash() -> (r: Vec<char>)
    ensures
        r@ == "-"@,
{
    chars_of("-")
}

/// Minutes as a duration text, then converted to days when long enough.
fn minutes_cell(mins: i32, day_setting: i32) -> (r: Vec<char>)
    requires
        mins != i32::MIN,
    ensures
        r@ == convert_duration(duration_str(mins as int), day_minutes(day_setting as int)),
{
    proof {
        law_duration_round_trip(mins as int);
    }
    let s = crate::duration::format_minutes_to_duration(mins);
    let v = chars_of(s.as_str());
    convert_chars(&v, day_setting)
}

fn project_cells(
    content: &str,
    output: &str,
    day_setting: i32,
    prefix: &str,
    always: bool,
) -> (r: Option<ProjectData>)
    requires
        project_inputs_ok(content@, output@, day_minutes(day_setting as int), always),
    ensures
        match r {
            Some(d) => project_cells_spec(
                content@,
                output@,
                day_minutes(day_setting as int),
                prefix@,
                always,
            ) == Some((d.has_total, row_views(d.rows@), d.total_cell@, d.total_est@)),
            None => project_cells_spec(
                content@,
                output@,
                day_minutes(day_setting as int),
                prefix@,
                always,
            ) is None,
        },
{
    let ghost day = day_minutes(day_setting as int);
    let latest = find_latest_date_in_content(content);
    let ov = chars_of(output);
    let (total, vals) = read_project_section(&ov);
    if vals.len() == 0 {
        return None;
    }
    let dd = get_day_duration_minutes(day_setting);
    let ghost sec = project_section(lines(output@));
    let ghost glatest = latest_date(lines(content@));
    assert(sec.1.len() > 0);
    // The month's working time and the tracked total, when both are known.
    let mut proj: Option<(i64, i32)> = None;
    let mut month_work: Option<i32> = None;
    if latest.is_some() && (always || total.is_some()) {
        let (year, month, _d) = latest.unwrap();
        let wd = working_days_in_month(year, month);
        assert(in_i32(weekdays_in(year as int, month as int) * dd));
        assert(0 <= wd * dd) by (nonlinear_arith)
            requires
                wd >= 0,
                dd > 0,
        ;
        let work = wd * dd;
        month_work = Some(work);
        if let Some(t) = &total {
            let tv = string_of(t);
            if let Some(tm) = crate::duration::parse_duration_to_minutes(tv.as_str()) {
                if tm > 0 {
                    proj = Some((work as i64, tm));
                }
            }
        }
    }
    let ghost gproj = projection(glatest, sec.0, day);
    assert(match proj {
        Some((n, d)) => gproj == Some((n as int, d as int)),
        None => gproj is None,
    });
    let mut rows: Vec<ProjectRow> = Vec::new();
    let pre = chars_of(prefix);
    let mut i: usize = 0;
    while i < vals.len()
        invariant
            i <= vals.len(),
            value_views(vals@) == sec.1,
            sec == project_section(lines(output@)),
            glatest == latest_date(lines(content@)),
            gproj == projection(glatest, sec.0, day),
            day == day_minutes(day_setting as int),
            project_inputs_ok(content@, output@, day, always),
            sec.1.len() > 0,
            pre@ == prefix@,
            match proj {
                Some((n, d)) => gproj == Some((n as int, d as int)) && 0 <= n <= i32::MAX && d > 0,
                None => gproj is None,
            },
            row_views(rows@) =~= project_rows(sec.1, gproj, day, prefix@).take(i as int),
        decreases vals.len() - i,
    {
        let v = &vals[i];
        assert(sec.1[i as int] == (v.name@, v.total@));
        assert(magnitude_fits(sec.1[i as int].1));
        let time = convert_chars(&v.total, day_setting);
        let est = match proj {
            None => dash(),
            Some((num, den)) => {
                if is_exempt_exec(&v.name) {
                    convert_chars(&v.total, day_setting)
                } else {
                    let ts = string_of(&v.total);
                    match crate::duration::parse_duration_to_minutes(ts.as_str()) {
                        Some(mins) => {
                            let e = estimate_exec(mins, num, den);
                            minutes_cell(e, day_setting)
                        },
                        None => dash(),
                    }
                }
            },
        };
        let name = crate::text::concat(&pre, &v.name);
        let ghost before = row_views(rows@);
        rows.push(ProjectRow { name, time, est });
        assert(row_views(rows@) =~= before.push(project_rows(sec.1, gproj, day, prefix@)[i as int]));
        assert(project_rows(sec.1, gproj, day, prefix@).take(i + 1) =~= project_rows(
            sec.1,
            gproj,
            day,
            prefix@,
        ).take(i as int).push(project_rows(sec.1, gproj, day, prefix@)[i as int]));
        i += 1;
    }
    assert(project_rows(sec.1, gproj, day, prefix@).take(vals.len() as int) =~= project_rows(
        sec.1,
        gproj,
        day,
        prefix@,
    ));
    let total_c = match &total {
        Some(t) => convert_chars(t, day_setting),
        None => dash(),
    };
    let total_e = match month_work {
        Some(w) => minutes_cell(w, day_setting),
        None => dash(),
    };
    assert(total_e@ == if always || sec.0 is Some {
        total_est_cell(glatest, day)
    } else {
        "-"@
    });
    Some(ProjectData { has_total: total.is_some(), rows, total_cell: total_c, total_est: total_e })
}

fn percent_chars(part: i64, whole: i64) -> (r: Vec<char>)
    requires
        whole > 0,
        -0x40_0000_0000 <= part <= 0x40_0000_0000,
        whole <= 0x40_0000_0000,
    ensures
        r@ == percent_text(part as int, whole as int),
{
    let a: i128 = (part as i128) * 1000;
    assert(-0x1_0000_0000_0000 <= a <= 0x1_0000_0000_0000);
    let q = round_div_exec(a, whole as i128);
    assert(-0x2_0000_0000_0000 <= q <= 0x2_0000_0000_0000) by (nonlinear_arith)
        requires
            q == round_div(a as int, whole as int),
            -0x1_0000_0000_0000 <= a <= 0x1_0000_0000_0000,
            whole > 0,
    {
        if a >= 0 {
            assert((a + a + whole) / (whole + whole) <= a + 1);
        } else {
            assert((whole - a - a) / (whole + whole) <= -a + 1);
        }
    }
    let aq: u64 = if q < 0 {
        (-q) as u64
    } else {
        q as u64
    };
    let mut r: Vec<char> = Vec::new();
    if q < 0 {
        r.push('-');
    }
    let w = nat_chars(aq / 10);
    append(&mut r, &w);
    r.push('.');
    let f = nat_chars(aq % 10);
    append(&mut r, &f);
    assert(r@ =~= percent_text(part as int, whole as int));
    r
}

/// Signed minutes of a duration text, computed wide enough for any `i32`
/// hours and minutes.
fn duration_minutes_wide(v: &Vec<char>) -> (r: Option<i64>)
    ensures
        match r {
            Some(m) => parse_duration(v@) == Some(m as int) && -0x40_0000_0000 <= m
                <= 0x40_0000_0000,
            None => parse_duration(v@) is None,
        },
{
    let d = crate::duration::read_duration(v);
    match d.hm {
        Some((h, m)) => {
            let t: i64 = (h as i64) * 60 + (m as i64);
            if d.neg {
                Some(-t)
            } else {
                Some(t)
            }
        },
        None => None,
    }
}

fn pad_share_exec(cell: &Vec<char>, part: Option<i64>, base: Option<i64>, w: u128) -> (r: Vec<
    char,
>)
    requires
        base matches Some(b) ==> 0 < b <= 0x40_0000_0000,
        part matches Some(m) ==> -0x40_0000_0000 <= m <= 0x40_0000_0000,
    ensures
        r@ == pad_share(cell@, opt_wide(part), opt_wide(base), w as nat),
{
    match (base, part) {
        (Some(b), Some(m)) => {
            let mut r: Vec<char> = Vec::new();
            push_padded(&mut r, cell, w);
            append_str(&mut r, " (");
            let p = percent_chars(m, b);
            append(&mut r, &p);
            append_str(&mut r, "%)");
            r
        },
        _ => cell.clone(),
    }
}

fn share_cell(time: &Vec<char>, raw: &Vec<char>, base: Option<i64>, w: u128) -> (r: Vec<char>)
    requires
        base matches Some(b) ==> 0 < b <= 0x40_0000_0000,
    ensures
        r@ == with_share(time@, raw@, opt_wide(base), w as nat),
{
    let m = duration_minutes_wide(raw);
    pad_share_exec(time, m, base, w)
}

pub open spec fn opt_wide(o: Option<i64>) -> Option<int> {
    match o {
        Some(m) => Some(m as int),
        None => None,
    }
}


/// The cells of both project reports, shares included.
pub fn project_data(
    content: &str,
    output: &str,
    day_setting: i32,
    prefix: &str,
    always: bool,
) -> (r: Option<ProjectData>)
    requires
        project_inputs_ok(content@, output@, day_minutes(day_setting as int), always),
    ensures
        match r {
            Some(d) => project_data_spec(
                content@,
                output@,
                day_minutes(day_setting as int),
                prefix@,
                always,
            ) == Some((d.has_total, row_views(d.rows@), d.total_cell@, d.total_est@)),
            None => project_data_spec(
                content@,
                output@,
                day_minutes(day_setting as int),
                prefix@,
                always,
            ) is None,
        },
{
    let ghost day = day_minutes(day_setting as int);
    let d = match project_cells(content, output, day_setting, prefix, always) {
        Some(d) => d,
        None => {
            return None;
        },
    };
    let ov = chars_of(output);
    let (total, vals) = read_project_section(&ov);
    let ghost sec = project_section(lines(output@));
    let ghost cells = row_views(d.rows@);
    assert(cells.len() == sec.1.len());
    let base: Option<i64> = match &total {
        Some(t) => match duration_minutes_wide(t) {
            Some(tm) => if tm > 0 {
                Some(tm)
            } else {
                None
            },
            None => None,
        },
        None => None,
    };
    assert(opt_wide(base) == share_base(sec.0));
    let tcl = byte_len_u128(&d.total_cell);
    let tlen = d.total_cell.len();
    proof {
        lemma_byte_len_bound(d.total_cell@);
        assert(d.total_cell@.len() == tlen);
    }
    let w = max_col(&d.rows, 1, tcl);
    let tel = byte_len_u128(&d.total_est);
    let telen = d.total_est.len();
    proof {
        lemma_byte_len_bound(d.total_est@);
        assert(d.total_est@.len() == telen);
    }
    let w2 = max_col(&d.rows, 2, tel);
    // The month's working time and the tracked total, when both are known.
    let latest = find_latest_date_in_content(content);
    let ghost glatest = latest_date(lines(content@));
    let ghost gproj = projection(glatest, sec.0, day);
    let mut proj: Option<(i64, i32)> = None;
    if let Some((year, month, _d)) = latest {
        if let Some(t) = &total {
            let tv = string_of(t);
            if let Some(tm) = crate::duration::parse_duration_to_minutes(tv.as_str()) {
                if tm > 0 {
                    let dd = get_day_duration_minutes(day_setting);
                    let wd = working_days_in_month(year, month);
                    assert(in_i32(weekdays_in(year as int, month as int) * dd));
                    assert(0 <= wd * dd) by (nonlinear_arith)
                        requires
                            wd >= 0,
                            dd > 0,
                    ;
                    proj = Some(((wd * dd) as i64, tm));
                }
            }
        }
    }
    assert(match proj {
        Some((n, d)) => gproj == Some((n as int, d as int)) && 0 <= n <= i32::MAX && d > 0,
        None => gproj is None,
    });
    let ebase: Option<i64> = match proj {
        Some((n, _d)) => if n > 0 {
            Some(n)
        } else {
            None
        },
        None => None,
    };
    assert(opt_wide(ebase) == est_base(gproj));
    let ghost want = Seq::new(
        cells.len(),
        |i: int|
            (
                cells[i].0,
                with_share(cells[i].1, sec.1[i].1, share_base(sec.0), w as nat),
                pad_share(cells[i].2, est_minutes(sec.1[i].0, sec.1[i].1, gproj), est_base(gproj), w2 as nat),
            ),
    );
    let mut rows: Vec<ProjectRow> = Vec::new();
    let mut i: usize = 0;
    while i < d.rows.len()
        invariant
            i <= d.rows.len(),
            cells == row_views(d.rows@),
            cells.len() == sec.1.len(),
            value_views(vals@) == sec.1,
            sec == project_section(lines(output@)),
            glatest == latest_date(lines(content@)),
            gproj == projection(glatest, sec.0, day),
            day == day_minutes(day_setting as int),
            project_inputs_ok(content@, output@, day, always),
            opt_wide(base) == share_base(sec.0),
            base matches Some(b) ==> 0 < b <= 0x40_0000_0000,
            opt_wide(ebase) == est_base(gproj),
            ebase matches Some(b) ==> 0 < b <= i32::MAX,
            match proj {
                Some((n, d)) => gproj == Some((n as int, d as int)) && 0 <= n <= i32::MAX && d > 0,
                None => gproj is None,
            },
            want == Seq::new(
                cells.len(),
                |i: int|
                    (
                        cells[i].0,
                        with_share(cells[i].1, sec.1[i].1, share_base(sec.0), w as nat),
                        pad_share(
                            cells[i].2,
                            est_minutes(sec.1[i].0, sec.1[i].1, gproj),
                            est_base(gproj),
                            w2 as nat,
                        ),
                    ),
            ),
            row_views(rows@) =~= want.take(i as int),
        decreases d.rows.len() - i,
    {
        let v = &vals[i];
        assert(sec.1[i as int] == (v.name@, v.total@));
        assert(cells[i as int] == (d.rows@[i as int].name@, d.rows@[i as int].time@, d.rows@[i as int].est@));
        assert(magnitude_fits(sec.1[i as int].1));
        let time = share_cell(&d.rows[i].time, &v.total, base, w);
        let part: Option<i64> = match proj {
            None => None,
            Some((num, den)) => {
                if is_exempt_exec(&v.name) {
                    duration_minutes_wide(&v.total)
                } else {
                    let ts = string_of(&v.total);
                    match crate::duration::parse_duration_to_minutes(ts.as_str()) {
                        Some(mins) => Some(estimate_exec(mins, num, den) as i64),
                        None => None,
                    }
                }
            },
        };
        assert(opt_wide(part) == est_minutes(sec.1[i as int].0, sec.1[i as int].1, gproj));
        let est = pad_share_exec(&d.rows[i].est, part, ebase, w2);
        let ghost before = row_views(rows@);
        rows.push(ProjectRow { name: d.rows[i].name.clone(), time, est });
        assert(row_views(rows@) =~= before.push(want[i as int]));
        assert(want.take(i + 1) =~= want.take(i as int).push(want[i as int]));
        i += 1;
    }
    assert(want.take(d.rows.len() as int) =~= want);
    let total_cell = match &total {
        Some(t) => share_cell(&d.total_cell, t, base, w),
        None => d.total_cell.clone(),
    };
    let tpart: Option<i64> = match proj {
        Some((n, _d)) => Some(n),
        None => None,
    };
    let total_est = pad_share_exec(&d.total_est, tpart, ebase, w2);
    Some(ProjectData { has_total: d.has_total, rows, total_cell, total_est })
}

/// Whether both project reports can be built from this document and
/// `klog tags --values` output (`get_project_aligned_text` asks for it with
/// `always` set, `get_project_table_report` without).
pub fn project_inputs_check(content: &str, output: &str, day_setting: i32, always: bool) -> (b:
    bool)
    ensures
        b == project_inputs_ok(content@, output@, day_minutes(day_setting as int), always),
{
    let ghost day = day_minutes(day_setting as int);
    let latest = find_latest_date_in_content(content);
    let ov = chars_of(output);
    let (total, vals) = read_project_section(&ov);
    let ghost sec = project_section(lines(output@));
    let ghost glatest = latest_date(lines(content@));
    if vals.len() == 0 {
        return true;
    }
    let dd = get_day_duration_minutes(day_setting);
    let mut work: i64 = 0;
    if latest.is_some() && (always || total.is_some()) {
        let (year, month, _d) = latest.unwrap();
        if !month_in_range(year, month) {
            return false;
        }
        let wd = working_days_in_month(year, month);
        assert(0 <= (wd as int) * (dd as int) <= 31 * (dd as int)) by (nonlinear_arith)
            requires
                0 <= wd <= 31,
                dd > 0,
        ;
        work = (wd as i64) * (dd as i64);
        if work > i32::MAX as i64 {
            return false;
        }
    }
    let mut proj: Option<(i64, i32)> = None;
    match &total {
        Some(t) => {
            if !crate::duration::magnitude_fits_chars(t) {
                return false;
            }
            if latest.is_some() {
                if !crate::duration::duration_fits_chars(t) {
                    return false;
                }
                let tv = string_of(t);
                if let Some(tm) = crate::duration::parse_duration_to_minutes(tv.as_str()) {
                    if tm > 0 {
                        proj = Some((work, tm));
                    }
                }
            }
        },
        None => {},
    }
    let ghost gproj = projection(glatest, sec.0, day);
    assert(match proj {
        Some((n, d)) => gproj == Some((n as int, d as int)) && 0 <= n <= i32::MAX && d > 0,
        None => gproj is None,
    });
    let mut i: usize = 0;
    while i < vals.len()
        invariant
            i <= vals.len(),
            value_views(vals@) == sec.1,
            sec == project_section(lines(output@)),
            glatest == latest_date(lines(content@)),
            day == day_minutes(day_setting as int),
            gproj == projection(glatest, sec.0, day),
            sec.1.len() > 0,
            (always || sec.0 is Some) ==> (glatest matches Some((y, m, _d)) ==> 1 <= m <= 12
                && month_fits(y, m) && in_i32(weekdays_in(y, m) * day)),
            sec.0 matches Some(t) ==> magnitude_fits(t) && (glatest is Some ==> duration_fits(t)),
            match proj {
                Some((n, d)) => gproj == Some((n as int, d as int)) && 0 <= n <= i32::MAX && d > 0,
                None => gproj is None,
            },
            forall|j: int|
                0 <= j < i ==> {
                    &&& magnitude_fits(#[trigger] sec.1[j].1)
                    &&& (gproj matches Some((num, den)) ==> !is_exempt(sec.1[j].0) ==> {
                        &&& duration_fits(sec.1[j].1)
                        &&& (parse_duration(sec.1[j].1) matches Some(mins) ==> estimate(
                            mins,
                            num,
                            den,
                        ) != i32::MIN)
                    })
                },
        decreases vals.len() - i,
    {
        let v = &vals[i];
        assert(sec.1[i as int] == (v.name@, v.total@));
        if !crate::duration::magnitude_fits_chars(&v.total) {
            assert(!magnitude_fits(sec.1[i as int].1));
            return false;
        }
        if let Some((num, den)) = proj {
            if !is_exempt_exec(&v.name) {
                if !crate::duration::duration_fits_chars(&v.total) {
                    assert(!duration_fits(sec.1[i as int].1));
                    assert(magnitude_fits(sec.1[i as int].1));
                    return false;
                }
                let ts = string_of(&v.total);
                if let Some(mins) = crate::duration::parse_duration_to_minutes(ts.as_str()) {
                    let e = estimate_exec(mins, num, den);
                    if e == i32::MIN {
                        assert(magnitude_fits(sec.1[i as int].1));
                        return false;
                    }
                }
            }
        }
        i += 1;
    }
    true
}

} // verus!

verus! {

// ---------------------------------------------------------------------------
// The aligned plain-text breakdown
// ---------------------------------------------------------------------------

/// The largest byte length among `cells`, and at least `init`.
pub open spec fn max_len(cells: Seq<Seq<char>>, init: nat) -> nat
    decreases cells.len(),
{
    if cells.len() == 0 {
        init
    } else {
        let m = max_len(cells.drop_last(), init);
        if byte_len(cells.last()) > m {
            byte_len(cells.last())
        } else {
            m
        }
    }
}

pub open spec fn max_nat(a: nat, b: nat) -> nat {
    if a >= b {
        a
    } else {
        b
    }
}

pub open spec fn repeat(c: char, n: nat) -> Seq<char> {
    Seq::new(n, |_i: int| c)
}

/// `format!("{:<w$}", s)`: `s` followed by spaces up to `w` characters.
pub open spec fn pad_right(s: Seq<char>, w: nat) -> Seq<char> {
    if s.len() < w {
        s + repeat(' ', (w - s.len()) as nat)
    } else {
        s
    }
}

pub open spec fn table_line(a: Seq<char>, b: Seq<char>, c: Seq<char>, w: (nat, nat, nat)) -> Seq<
    char,
> {
    pad_right(a, w.0) + " │ "@ + pad_right(b, w.1) + " │ "@ + pad_right(c, w.2)
}

pub open spec fn sep_line(w: (nat, nat, nat)) -> Seq<char> {
    repeat('─', w.0 + 1) + seq!['┼'] + repeat('─', w.1 + 2) + seq!['┼'] + repeat('─', w.2 + 1)
}

pub open spec fn aligned_rows(rows: Seq<(Seq<char>, Seq<char>, Seq<char>)>, w: (nat, nat, nat)) -> Seq<
    char,
>
    decreases rows.len(),
{
    if rows.len() == 0 {
        seq![]
    } else {
        let r = rows.last();
        aligned_rows(rows.drop_last(), w) + table_line(r.0, r.1, r.2, w) + seq!['\n']
    }
}

pub open spec fn col(rows: Seq<(Seq<char>, Seq<char>, Seq<char>)>, k: int) -> Seq<Seq<char>> {
    Seq::new(
        rows.len(),
        |i: int|
            if k == 0 {
                rows[i].0
            } else if k == 1 {
                rows[i].1
            } else {
                rows[i].2
            },
    )
}

/// Column widths: the widest cell of each column, headers and total row
/// included, measured in bytes.
pub open spec fn widths(
    rows: Seq<(Seq<char>, Seq<char>, Seq<char>)>,
    total_cell: Seq<char>,
    total_est: Seq<char>,
) -> (nat, nat, nat) {
    (
        max_nat(max_len(col(rows, 0), byte_len("Project"@)), byte_len("Total"@)),
        max_nat(max_len(col(rows, 1), byte_len("Total"@)), byte_len(total_cell)),
        max_nat(max_len(col(rows, 2), byte_len("Est. End"@)), byte_len(total_est)),
    )
}

/// The breakdown shown as code lens and inlay hint: a header, one line per
/// project value, and a total line when `klog` printed a total.
pub open spec fn aligned_text(content: Seq<char>, output: Seq<char>, day: int) -> Option<Seq<char>> {
    match project_data_spec(content, output, day, "#project="@, true) {
        None => None,
        Some((has_total, rows, tc, te)) => {
            let w = widths(rows, tc, te);
            Some(
                table_line("Project"@, "Total"@, "Est. End"@, w) + seq!['\n'] + sep_line(w) + seq![
                    '\n',
                ] + aligned_rows(rows, w) + if has_total {
                    sep_line(w) + seq!['\n'] + table_line("Total"@, tc, te, w)
                } else {
                    seq![]
                },
            )
        },
    }
}

fn byte_len_u128(v: &Vec<char>) -> (n: u128)
    ensures
        n == byte_len(v@),
{
    let mut total: u128 = 0;
    let mut i: usize = 0;
    while i < v.len()
        invariant
            i <= v.len(),
            total == byte_len(v@.take(i as int)),
            total <= 4 * i,
        decreases v.len() - i,
    {
        assert(v@.take(i + 1).drop_last() =~= v@.take(i as int));
        let c = v[i];
        let u = c as u32;
        let wdt: u128 = if u < 0x80 {
            1
        } else if u < 0x800 {
            2
        } else if u < 0x10000 {
            3
        } else {
            4
        };
        total = total + wdt;
        i += 1;
    }
    assert(v@.take(v.len() as int) =~= v@);
    total
}

fn push_repeat(r: &mut Vec<char>, c: char, n: u128)
    ensures
        final(r)@ == old(r)@ + repeat(c, n as nat),
{
    let mut k: u128 = 0;
    while k < n
        invariant
            k <= n,
            r@ == old(r)@ + repeat(c, k as nat),
        decreases n - k,
    {
        r.push(c);
        assert(repeat(c, (k + 1) as nat) =~= repeat(c, k as nat).push(c));
        k += 1;
    }
}

fn push_padded(r: &mut Vec<char>, s: &Vec<char>, w: u128)
    ensures
        final(r)@ == old(r)@ + pad_right(s@, w as nat),
{
    append(r, s);
    if (s.len() as u128) < w {
        push_repeat(r, ' ', w - s.len() as u128);
    }
}

fn push_line(r: &mut Vec<char>, a: &Vec<char>, b: &Vec<char>, c: &Vec<char>, w: (u128, u128, u128))
    ensures
        final(r)@ == old(r)@ + table_line(a@, b@, c@, (w.0 as nat, w.1 as nat, w.2 as nat)),
{
    push_padded(r, a, w.0);
    append_str(r, " │ ");
    push_padded(r, b, w.1);
    append_str(r, " │ ");
    push_padded(r, c, w.2);
}

fn push_sep(r: &mut Vec<char>, w: (u128, u128, u128))
    requires
        w.0 < 0x100_0000_0000_0000_0000,
        w.1 < 0x100_0000_0000_0000_0000,
        w.2 < 0x100_0000_0000_0000_0000,
    ensures
        final(r)@ == old(r)@ + sep_line((w.0 as nat, w.1 as nat, w.2 as nat)),
{
    push_repeat(r, '─', w.0 + 1);
    r.push('┼');
    push_repeat(r, '─', w.1 + 2);
    r.push('┼');
    push_repeat(r, '─', w.2 + 1);
    assert(final(r)@ =~= old(r)@ + sep_line((w.0 as nat, w.1 as nat, w.2 as nat)));
}

proof fn lemma_byte_len_bound(s: Seq<char>)
    ensures
        byte_len(s) <= 4 * s.len(),
    decreases s.len(),
{
    if s.len() > 0 {
        lemma_byte_len_bound(s.drop_last());
    }
}

fn max_col(rows: &Vec<ProjectRow>, k: usize, init: u128) -> (m: u128)
    requires
        k < 3,
        init < 0x100_0000_0000_0000_0000,
    ensures
        m == max_len(col(row_views(rows@), k as int), init as nat),
        m < 0x100_0000_0000_0000_0000,
{
    let ghost cells = col(row_views(rows@), k as int);
    let mut m = init;
    let mut i: usize = 0;
    while i < rows.len()
        invariant
            i <= rows.len(),
            k < 3,
            cells == col(row_views(rows@), k as int),
            m == max_len(cells.take(i as int), init as nat),
            m < 0x100_0000_0000_0000_0000,
        decreases rows.len() - i,
    {
        assert(cells.take(i + 1).drop_last() =~= cells.take(i as int));
        let cell = if k == 0 {
            &rows[i].name
        } else if k == 1 {
            &rows[i].time
        } else {
            &rows[i].est
        };
        assert(cells.take(i + 1).last() == cell@);
        let n = byte_len_u128(cell);
        let cl = cell.len();
        proof {
            lemma_byte_len_bound(cell@);
            assert(cell@.len() == cl);
        }
        if n > m {
            m = n;
        }
        i += 1;
    }
    assert(cells.take(rows.len() as int) =~= cells);
    m
}

fn max_u128(a: u128, b: u128) -> (r: u128)
    ensures
        r == max_nat(a as nat, b as nat),
{
    if a >= b {
        a
    } else {
        b
    }
}

/// The project breakdown shown above the first line (code lens) and as an
/// inlay hint, from the output of `klog tags --values` run over the month of
/// the latest record; `None` when no `#project` values were tracked.
#[verifier::spinoff_prover]
#[verifier::rlimit(80)]
pub fn get_project_aligned_text(content: &str, tags_output: &str, day_setting: i32) -> (r: Option<
    String,
>)
    requires
        project_inputs_ok(content@, tags_output@, day_minutes(day_setting as int), true),
    ensures
        opt_string(r) == aligned_text(content@, tags_output@, day_minutes(day_setting as int)),
{
    let ghost day = day_minutes(day_setting as int);
    let d = match project_data(content, tags_output, day_setting, "#project=", true) {
        Some(d) => d,
        None => {
            return None;
        },
    };
    let ghost rows = row_views(d.rows@);
    let hp = chars_of("Project");
    let ht = chars_of("Total");
    let he = chars_of("Est. End");
    let lp = byte_len_u128(&hp);
    let lt = byte_len_u128(&ht);
    let le = byte_len_u128(&he);
    let tc = byte_len_u128(&d.total_cell);
    let te = byte_len_u128(&d.total_est);
    let _n1 = hp.len();
    let _n2 = ht.len();
    let _n3 = he.len();
    let _n4 = d.total_cell.len();
    let _n5 = d.total_est.len();
    proof {
        lemma_byte_len_bound(hp@);
        lemma_byte_len_bound(ht@);
        lemma_byte_len_bound(he@);
        lemma_byte_len_bound(d.total_cell@);
        lemma_byte_len_bound(d.total_est@);
        assert(hp@.len() <= usize::MAX);
        assert(ht@.len() <= usize::MAX);
        assert(he@.len() <= usize::MAX);
        assert(d.total_cell@.len() <= usize::MAX);
        assert(d.total_est@.len() <= usize::MAX);
    }
    let w1 = max_u128(max_col(&d.rows, 0, lp), lt);
    let w2 = max_u128(max_col(&d.rows, 1, lt), tc);
    let w3 = max_u128(max_col(&d.rows, 2, le), te);
    let w = (w1, w2, w3);
    let ghost gw = widths(rows, d.total_cell@, d.total_est@);
    assert(gw == (w1 as nat, w2 as nat, w3 as nat));
    let mut text: Vec<char> = Vec::new();
    push_line(&mut text, &hp, &ht, &he, w);
    text.push('\n');
    push_sep(&mut text, w);
    text.push('\n');
    let ghost head = text@;
    let mut i: usize = 0;
    while i < d.rows.len()
        invariant
            i <= d.rows.len(),
            rows == row_views(d.rows@),
            gw == (w.0 as nat, w.1 as nat, w.2 as nat),
            text@ == head + aligned_rows(rows.take(i as int), gw),
        decreases d.rows.len() - i,
    {
        assert(rows.take(i + 1).drop_last() =~= rows.take(i as int));
        let row = &d.rows[i];
        assert(rows.take(i + 1).last() == (row.name@, row.time@, row.est@));
        push_line(&mut text, &row.name, &row.time, &row.est, w);
        text.push('\n');
        i += 1;
    }
    assert(rows.take(d.rows.len() as int) =~= rows);
    let ghost body = text@;
    if d.has_total {
        push_sep(&mut text, w);
        text.push('\n');
        push_line(&mut text, &ht, &d.total_cell, &d.total_est, w);
    } else {
        assert(text@ =~= body + seq![]);
    }
    assert(text@ =~= table_line("Project"@, "Total"@, "Est. End"@, gw) + seq!['\n'] + sep_line(gw)
        + seq!['\n'] + aligned_rows(rows, gw) + if d.has_total {
        sep_line(gw) + seq!['\n'] + table_line("Total"@, d.total_cell@, d.total_est@, gw)
    } else {
        seq![]
    });
    Some(string_of(&text))
}

/// The inline project breakdown (code lens / inlay hint).
pub fn get_project_breakdown(content: &str, tags_output: &str, day_setting: i32) -> (r: Option<
    String,
>)
    requires
        project_inputs_ok(content@, tags_output@, day_minutes(day_setting as int), true),
    ensures
        opt_string(r) == aligned_text(content@, tags_output@, day_minutes(day_setting as int)),
{
    get_project_aligned_text(content, tags_output, day_setting)
}

// ---------------------------------------------------------------------------
// The Markdown project report
// ---------------------------------------------------------------------------

pub open spec fn md_rows(rows: Seq<(Seq<char>, Seq<char>, Seq<char>)>) -> Seq<char>
    decreases rows.len(),
{
    if rows.len() == 0 {
        seq![]
    } else {
        let r = rows.last();
        md_rows(rows.drop_last()) + "| `#project="@ + r.0 + "` | "@ + r.1 + " | "@ + r.2 + " |\n"@
    }
}

/// The project table shown when hovering the first date header.
pub open spec fn table_report(content: Seq<char>, output: Seq<char>, day: int) -> Option<Seq<char>> {
    match project_data_spec(content, output, day, seq![], false) {
        None => None,
        Some((has_total, rows, tc, te)) => Some(
            "### Project Report\n\n"@ + "| Project | Total Time | Est. End |\n"@
                + "| :--- | :--- | :--- |\n"@ + md_rows(rows) + if has_total {
                "| **Total** | **"@ + tc + "** | **"@ + te + "** |\n"@
            } else {
                seq![]
            },
        ),
    }
}

/// The Markdown project table for the hover on the first date header, from
/// the output of `klog tags --values` run over the month of the latest
/// record; `None` when no `#project` values were tracked.
#[verifier::spinoff_prover]
#[verifier::rlimit(40)]
pub fn get_project_table_report(content: &str, tags_output: &str, day_setting: i32) -> (r: Option<
    String,
>)
    requires
        project_inputs_ok(content@, tags_output@, day_minutes(day_setting as int), false),
    ensures
        opt_string(r) == table_report(content@, tags_output@, day_minutes(day_setting as int)),
{
    let d = match project_data(content, tags_output, day_setting, "", false) {
        Some(d) => d,
        None => {
            return None;
        },
    };
    proof {
        reveal_strlit("");
        assert(""@ =~= Seq::<char>::empty());
    }
    let ghost rows = row_views(d.rows@);
    let mut text: Vec<char> = Vec::new();
    append_str(&mut text, "### Project Report\n\n");
    append_str(&mut text, "| Project | Total Time | Est. End |\n");
    append_str(&mut text, "| :--- | :--- | :--- |\n");
    let ghost head = text@;
    let mut i: usize = 0;
    while i < d.rows.len()
        invariant
            i <= d.rows.len(),
            rows == row_views(d.rows@),
            text@ == head + md_rows(rows.take(i as int)),
        decreases d.rows.len() - i,
    {
        assert(rows.take(i + 1).drop_last() =~= rows.take(i as int));
        let row = &d.rows[i];
        assert(rows.take(i + 1).last() == (row.name@, row.time@, row.est@));
        append_str(&mut text, "| `#project=");
        append(&mut text, &row.name);
        append_str(&mut text, "` | ");
        append(&mut text, &row.time);
        append_str(&mut text, " | ");
        append(&mut text, &row.est);
        append_str(&mut text, " |\n");
        i += 1;
    }
    assert(rows.take(d.rows.len() as int) =~= rows);
    let ghost body = text@;
    if d.has_total {
        append_str(&mut text, "| **Total** | **");
        append(&mut text, &d.total_cell);
        append_str(&mut text, "** | **");
        append(&mut text, &d.total_est);
        append_str(&mut text, "** |\n");
    } else {
        assert(text@ =~= body + seq![]);
    }
    assert(text@ =~= "### Project Report\n\n"@ + "| Project | Total Time | Est. End |\n"@
        + "| :--- | :--- | :--- |\n"@ + md_rows(rows) + if d.has_total {
        "| **Total** | **"@ + d.total_cell@ + "** | **"@ + d.total_est@ + "** |\n"@
    } else {
        seq![]
    });
    Some(string_of(&text))
}

// ---------------------------------------------------------------------------
// The `klog tags` command
// ---------------------------------------------------------------------------

/// Arguments of the `klog tags` run behind the project reports: limited to
/// the month of the latest record (`YYYY-MM`) when there is one.
pub open spec fn tags_args(latest: Option<(int, int, int)>) -> Seq<Seq<char>> {
    match latest {
        Some((y, m, _d)) => seq![
            "tags"@,
            "--values"@,
            "--period"@,
            zero_pad(y, 4) + seq!['-'] + zero_pad(m, 2),
            "--no-style"@,
        ],
        None => seq!["tags"@, "--values"@, "--no-style"@],
    }
}

pub open spec fn string_views(v: Seq<String>) -> Seq<Seq<char>> {
    v.map_values(|s: String| s@)
}

fn owned(s: &str) -> (r: String)
    ensures
        r@ == s@,
{
    let v = chars_of(s);
    string_of(&v)
}

/// The `klog` arguments that the project reports for `content` are built from.
pub fn project_tags_args(content: &str) -> (r: Vec<String>)
    ensures
        string_views(r@) == tags_args(latest_date(lines(content@))),
{
    let latest = find_latest_date_in_content(content);
    let mut r: Vec<String> = Vec::new();
    r.push(owned("tags"));
    r.push(owned("--values"));
    match latest {
        Some((y, m, _d)) => {
            r.push(owned("--period"));
            let mut p = zero_pad_chars(y as i64, 4);
            p.push('-');
            let mm = zero_pad_chars(m as i64, 2);
            append(&mut p, &mm);
            assert(p@ =~= zero_pad(y as int, 4) + seq!['-'] + zero_pad(m as int, 2));
            r.push(string_of(&p));
            r.push(owned("--no-style"));
            assert(string_views(r@)[3] == zero_pad(y as int, 4) + seq!['-'] + zero_pad(m as int, 2));
            assert(string_views(r@) =~= tags_args(latest_date(lines(content@))));
        },
        None => {
            r.push(owned("--no-style"));
            assert(string_views(r@) =~= tags_args(latest_date(lines(content@))));
        },
    }
    r
}

} // verus!

verus! {

/// A value that holds the whole tracked total is projected to the whole
/// month: `estimate(t, w, t) == w`, the month's working time.
pub proof fn law_full_share_estimate(total: int, work: int)
    requires
        total > 0,
        in_i32(work),
    ensures
        estimate(total, work, total) == work,
{
    let a = total * work;
    if a >= 0 {
        assert((2 * a + total) / (2 * total) == work) by (nonlinear_arith)
            requires
                a == total * work,
                total > 0,
                a >= 0,
        ;
    } else {
        assert(-((-2 * a + total) / (2 * total)) == work) by (nonlinear_arith)
            requires
                a == total * work,
                total > 0,
                a < 0,
        ;
    }
}

} // verus!

verus! {

/// The hover table and the code-lens breakdown agree on the same inputs:
/// they are absent together; they list the same `#project` values in the
/// order `klog` printed them, with the same time (and share) and estimate
/// cells; and each has a Total row exactly when `klog` printed a total,
/// with the same cells there.
#[verifier::spinoff_prover]
#[verifier::rlimit(60)]
pub proof fn law_reports_agree(content: Seq<char>, output: Seq<char>, day: int)
    ensures
        table_report(content, output, day) is None <==> aligned_text(content, output, day) is None,
        table_report(content, output, day) is None <==> project_section(lines(output)).1.len() == 0,
        project_data_spec(content, output, day, seq![], false) matches Some((ht1, r1, tc1, te1))
            ==> project_data_spec(content, output, day, "#project="@, true) matches Some(
            (ht2, r2, tc2, te2),
        ) && {
            let sec = project_section(lines(output));
            &&& ht1 == ht2
            &&& ht1 == sec.0 is Some
            &&& r1.len() == r2.len() == sec.1.len()
            &&& tc1 == tc2
            &&& (ht1 ==> te1 == te2)
            &&& forall|i: int|
                0 <= i < r1.len() ==> {
                    &&& #[trigger] r1[i].0 == sec.1[i].0
                    &&& r2[i].0 == "#project="@ + sec.1[i].0
                    &&& r1[i].1 == r2[i].1
                    &&& r1[i].2 == r2[i].2
                }
        },
{
    let sec = project_section(lines(output));
    let latest = latest_date(lines(content));
    if sec.1.len() > 0 {
        let proj = projection(latest, sec.0, day);
        let a = project_rows(sec.1, proj, day, seq![]);
        let b = project_rows(sec.1, proj, day, "#project="@);
        assert(col(a, 1) =~= col(b, 1));
        assert(col(a, 2) =~= col(b, 2));
        assert forall|i: int| 0 <= i < a.len() implies #[trigger] a[i].0 == sec.1[i].0 by {
            assert(seq![] + sec.1[i].0 =~= sec.1[i].0);
        }
    }
}

} // verus!

verus! {

proof fn lemma_dec_short(n: nat, k: nat)
    requires
        k >= 1,
        n < crate::decimal::pow10(k),
    ensures
        dec(n).len() <= k,
    decreases k,
{
    if n >= 10 {
        assert(k >= 2) by {
            if k == 1 {
                assert(crate::decimal::pow10(1) == 10 * crate::decimal::pow10(0));
            }
        }
        let k1 = (k - 1) as nat;
        assert(crate::decimal::pow10(k) == 10 * crate::decimal::pow10(k1));
        assert(n / 10 < crate::decimal::pow10(k1));
        lemma_dec_short(n / 10, k1);
    }
}

proof fn lemma_zero_pad_reads(i: int, w: nat)
    requires
        0 <= i < crate::decimal::pow10(w),
        w >= 1,
    ensures
        zero_pad(i, w).len() == w,
        crate::number::all_digits(zero_pad(i, w)),
        crate::number::digits_value(zero_pad(i, w)) == i,
{
    let n = i as nat;
    crate::number::lemma_dec(n);
    lemma_dec_short(n, w);
    let z = crate::number::zeros((w - dec(n).len()) as nat);
    assert(z =~= crate::decimal::zero_digits((w - dec(n).len()) as nat));
    crate::decimal::lemma_dv_pad((w - dec(n).len()) as nat, dec(n));
    crate::decimal::lemma_dv_zeros((w - dec(n).len()) as nat);
    assert(zero_pad(i, w) =~= z + dec(n));
    assert forall|j: int| 0 <= j < zero_pad(i, w).len() implies crate::text::is_digit(
        #[trigger] zero_pad(i, w)[j],
    ) by {
        if j < z.len() {
            assert(zero_pad(i, w)[j] == z[j]);
        } else {
            assert(zero_pad(i, w)[j] == dec(n)[j - z.len()]);
        }
    }
}

/// The `klog tags` run over the latest record's month names that month: for
/// a year of at most four digits and a month below 100, the `--period`
/// argument is seven characters, whose first four read back as the year,
/// then a `-`, then two that read back as the month.
#[verifier::spinoff_prover]
#[verifier::rlimit(50)]
pub proof fn law_period_names_month(y: int, m: int, d: int)
    requires
        0 <= y <= 9999,
        0 <= m <= 99,
    ensures
        tags_args(Some((y, m, d))).len() == 5,
        tags_args(Some((y, m, d)))[2] == "--period"@,
        tags_args(Some((y, m, d)))[3].len() == 7,
        tags_args(Some((y, m, d)))[3][4] == '-',
        crate::number::digits_value(tags_args(Some((y, m, d)))[3].take(4)) == y,
        crate::number::all_digits(tags_args(Some((y, m, d)))[3].skip(5)),
        crate::number::digits_value(tags_args(Some((y, m, d)))[3].skip(5)) == m,
{
    assert(crate::decimal::pow10(1) == 10 * crate::decimal::pow10(0));
    assert(crate::decimal::pow10(2) == 10 * crate::decimal::pow10(1));
    assert(crate::decimal::pow10(3) == 10 * crate::decimal::pow10(2));
    assert(crate::decimal::pow10(4) == 10 * crate::decimal::pow10(3));
    lemma_zero_pad_reads(y, 4);
    lemma_zero_pad_reads(m, 2);
    let p = zero_pad(y, 4) + seq!['-'] + zero_pad(m, 2);
    assert(p.take(4) =~= zero_pad(y, 4));
    assert(p.skip(5) =~= zero_pad(m, 2));
}

} // verus!
