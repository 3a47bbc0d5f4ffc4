//! Reading a klog document: date headers, tags, the latest record date.
use vstd::prelude::*;
use crate::duration::{not_char};
use crate::number::{opt_i32, parse_i32, parse_i32_chars};
use crate::text::{
    chars_of, is_digit, lead, lemma_lead, lemma_lead_at, lemma_trail, lemma_trail_at, lines,
    lines_of, string_of, subvec, tokens, tokens_of, trail, trim_start, trim_start_chars, views,
};

verus! {

pub open spec fn is_sep(c: char) -> bool {
    c == '-' || c == '/'
}

/// `YYYY-MM-DD` (or with `/`) at the start of `t`.
pub open spec fn date_prefix(t: Seq<char>) -> bool {
    &&& t.len() >= 10
    &&& is_digit(t[0]) && is_digit(t[1]) && is_digit(t[2]) && is_digit(t[3])
    &&& is_sep(t[4])
    &&& is_digit(t[5]) && is_digit(t[6])
    &&& is_sep(t[7])
    &&& is_digit(t[8]) && is_digit(t[9])
}

/// A record header: after leading whitespace the line starts with a date.
pub open spec fn is_date_line_spec(line: Seq<char>) -> bool {
    date_prefix(trim_start(line))
}

fn is_digit_char(c: char) -> (b: bool)
    ensures
        b == is_digit(c),
{
    '0' <= c && c <= '9'
}

fn is_sep_char(c: char) -> (b: bool)
    ensures
        b == is_sep(c),
{
    c == '-' || c == '/'
}

pub fn is_date_line_chars(line: &Vec<char>) -> (b: bool)
    ensures
        b == is_date_line_spec(line@),
{
    let t = trim_start_chars(line);
    t.len() >= 10 && is_digit_char(t[0]) && is_digit_char(t[1]) && is_digit_char(t[2])
        && is_digit_char(t[3]) && is_sep_char(t[4]) && is_digit_char(t[5]) && is_digit_char(t[6])
        && is_sep_char(t[7]) && is_digit_char(t[8]) && is_digit_char(t[9])
}

/// True for a line whose first non-blank characters are a date
/// (`2026-05-20` or `2026/05/20`).
pub fn is_date_line(line: &str) -> (b: bool)
    ensures
        b == is_date_line_spec(line@),
{
    let v = chars_of(line);
    is_date_line_chars(&v)
}

// ---------------------------------------------------------------------------
// The date written on a header line
// ---------------------------------------------------------------------------

pub open spec fn is_date_char(c: char) -> bool {
    is_digit(c) || is_sep(c)
}

pub open spec fn not_date_char() -> spec_fn(char) -> bool {
    |c: char| !is_date_char(c)
}

/// `str::trim_matches` dropping, at both ends, every character that is not a
/// digit, `-` or `/`.
pub open spec fn trim_date_chars(s: Seq<char>) -> Seq<char> {
    let t = s.skip(lead(s, not_date_char()) as int);
    t.take(t.len() - trail(t, not_date_char()))
}

/// The first whitespace-separated word of a line, trimmed to its date
/// characters.
pub open spec fn date_token(line: Seq<char>) -> Seq<char> {
    let ts = tokens(line);
    if ts.len() > 0 {
        trim_date_chars(ts[0])
    } else {
        seq![]
    }
}

fn trim_date_chars_exec(v: &Vec<char>) -> (r: Vec<char>)
    ensures
        r@ == trim_date_chars(v@),
{
    let mut a: usize = 0;
    while a < v.len() && !(is_digit_char(v[a]) || is_sep_char(v[a]))
        invariant
            a <= v.len(),
            forall|i: int| 0 <= i < a ==> !is_date_char(#[trigger] v@[i]),
        decreases v.len() - a,
    {
        a += 1;
    }
    proof {
        assert forall|i: int| 0 <= i < a implies #[trigger] not_date_char()(v@[i]) by {}
        lemma_lead_at(v@, not_date_char(), a as int);
    }
    let t = subvec(v, a, v.len());
    assert(t@ =~= v@.skip(a as int));
    let mut b = t.len();
    while b > 0 && !(is_digit_char(t[b - 1]) || is_sep_char(t[b - 1]))
        invariant
            b <= t.len(),
            forall|i: int| b <= i < t.len() ==> !is_date_char(#[trigger] t@[i]),
        decreases b,
    {
        b -= 1;
    }
    proof {
        let s = t@;
        assert forall|i: int| s.len() - (s.len() - b) <= i < s.len() implies #[trigger] not_date_char()(s[i]) by {}
        lemma_trail_at(s, not_date_char(), s.len() - b);
    }
    subvec(&t, 0, b)
}

pub fn date_token_chars(line: &Vec<char>) -> (r: Vec<char>)
    ensures
        r@ == date_token(line@),
{
    let ts = tokens_of(line);
    if ts.len() > 0 {
        assert(views(ts@)[0] == ts@[0]@);
        trim_date_chars_exec(&ts[0])
    } else {
        Vec::new()
    }
}

/// The date of the nearest header at or above line `i`.
pub open spec fn date_at_or_before(ls: Seq<Seq<char>>, i: int) -> Option<Seq<char>>
    decreases i + 1,
{
    if i < 0 || i >= ls.len() {
        None
    } else if is_date_line_spec(ls[i]) {
        Some(date_token(ls[i]))
    } else {
        date_at_or_before(ls, i - 1)
    }
}

pub open spec fn opt_view(o: Option<String>) -> Option<Seq<char>> {
    match o {
        Some(s) => Some(s@),
        None => None,
    }
}

/// The date of the record that line `line_idx` belongs to: the nearest date
/// header at or above it.
pub fn find_date_for_line(content: &str, line_idx: usize) -> (r: Option<String>)
    ensures
        opt_view(r) == date_at_or_before(lines(content@), line_idx as int),
{
    let c = chars_of(content);
    let ls = lines_of(&c);
    if line_idx >= ls.len() {
        return None;
    }
    let mut i = line_idx;
    loop
        invariant
            i < ls.len(),
            views(ls@) == lines(content@),
            date_at_or_before(lines(content@), line_idx as int) == date_at_or_before(
                lines(content@),
                i as int,
            ),
        decreases i,
    {
        assert(views(ls@)[i as int] == ls@[i as int]@);
        if is_date_line_chars(&ls[i]) {
            let d = date_token_chars(&ls[i]);
            return Some(string_of(&d));
        }
        if i == 0 {
            assert(date_at_or_before(lines(content@), -1) == None::<Seq<char>>);
            return None;
        }
        i -= 1;
    }
}

// ---------------------------------------------------------------------------
// Tags
// ---------------------------------------------------------------------------

/// `char::is_alphanumeric` (Unicode `Alphabetic` or `Numeric`).
pub uninterp spec fn alphanumeric(c: char) -> bool;

/// `char::is_alphanumeric`. Claimed of it: the result is its value on `c`
/// (the name above), which depends on `c` alone.
#[verifier::external_body]
fn is_alphanumeric(c: char) -> (b: bool)
    ensures
        b == alphanumeric(c),
{
    c.is_alphanumeric()
}

/// A letter or digit: ASCII ones directly, others as `char::is_alphanumeric`
/// says.
pub open spec fn is_alnum_char(c: char) -> bool {
    if (c as u32) < 128 {
        ('a' <= c <= 'z') || ('A' <= c <= 'Z') || ('0' <= c <= '9')
    } else {
        alphanumeric(c)
    }
}

pub open spec fn is_tag_char(c: char) -> bool {
    is_alnum_char(c) || c == '_' || c == '-' || c == '='
}

fn is_alnum(c: char) -> (b: bool)
    ensures
        b == is_alnum_char(c),
{
    if (c as u32) < 128 {
        ('a' <= c && c <= 'z') || ('A' <= c && c <= 'Z') || ('0' <= c && c <= '9')
    } else {
        is_alphanumeric(c)
    }
}

pub open spec fn tag_char() -> spec_fn(char) -> bool {
    |c: char| is_tag_char(c)
}

/// Scans `s` from position `i` for a `#tag` whose span (the `#` and the tag
/// characters after it) holds `cursor` and whose name is not empty.
pub open spec fn tag_scan(s: Seq<char>, cursor: int, i: int) -> Option<Seq<char>>
    decreases s.len() - i,
{
    if i < 0 || i >= s.len() {
        None
    } else if s[i] == '#' {
        let end = i + 1 + lead(s.skip(i + 1), tag_char());
        if i <= cursor < end && end > i + 1 {
            Some(s.subrange(i + 1, end))
        } else if end <= s.len() {
            tag_scan(s, cursor, end)
        } else {
            None
        }
    } else {
        tag_scan(s, cursor, i + 1)
    }
}

/// The tag (without `#`) under character position `cursor` of a line.
pub open spec fn tag_under_cursor(line: Seq<char>, cursor: int) -> Option<Seq<char>> {
    if cursor >= line.len() {
        None
    } else {
        tag_scan(line, cursor, 0)
    }
}

/// Finds the tag (such as `coding` or `project=Alpha`) whose `#...` span
/// covers character `char_idx` of `line`.
pub fn find_tag_under_cursor(line: &str, char_idx: usize) -> (r: Option<String>)
    ensures
        opt_view(r) == tag_under_cursor(line@, char_idx as int),
{
    let chars = chars_of(line);
    if char_idx >= chars.len() {
        return None;
    }
    let mut i: usize = 0;
    while i < chars.len()
        invariant
            i <= chars.len(),
            chars@ == line@,
            char_idx < chars.len(),
            tag_under_cursor(line@, char_idx as int) == tag_scan(line@, char_idx as int, i as int),
        decreases chars.len() - i,
    {
        if chars[i] == '#' {
            let start = i;
            i += 1;
            while i < chars.len() && (is_alnum(chars[i]) || chars[i] == '_' || chars[i]
                == '-' || chars[i] == '=')
                invariant
                    start < i <= chars.len(),
                    chars@ == line@,
                    forall|j: int| start < j < i ==> is_tag_char(#[trigger] chars@[j]),
                decreases chars.len() - i,
            {
                i += 1;
            }
            let end = i;
            proof {
                let s = line@.skip(start + 1);
                assert forall|j: int| 0 <= j < end - start - 1 implies #[trigger] tag_char()(s[j]) by {
                    assert(s[j] == chars@[j + start + 1]);
                }
                lemma_lead_at(s, tag_char(), end - start - 1);
            }
            if char_idx >= start && char_idx < end {
                if end > start + 1 {
                    let t = subvec(&chars, start + 1, end);
                    return Some(string_of(&t));
                }
            }
        } else {
            i += 1;
        }
    }
    None
}

// ---------------------------------------------------------------------------
// Latest record date
// ---------------------------------------------------------------------------

/// `str::split(c)`: the pieces between occurrences of `c`.
pub open spec fn split_char(s: Seq<char>, c: char) -> Seq<Seq<char>>
    decreases s.len(),
{
    let k = lead(s, not_char(c)) as int;
    if k >= s.len() {
        seq![s]
    } else {
        seq![s.take(k)] + split_char(s.skip(k + 1), c)
    }
}

pub proof fn lemma_split_nonempty(s: Seq<char>, c: char)
    ensures
        split_char(s, c).len() >= 1,
    decreases s.len(),
{
    let k = lead(s, not_char(c)) as int;
    if k < s.len() {
        lemma_split_nonempty(s.skip(k + 1), c);
    }
}

pub fn split_chars_from(v: &Vec<char>, from: usize, c: char) -> (r: Vec<Vec<char>>)
    requires
        from <= v.len(),
    ensures
        views(r@) == split_char(v@.skip(from as int), c),
    decreases v.len() - from,
{
    let mut k = from;
    while k < v.len() && v[k] != c
        invariant
            from <= k <= v.len(),
            forall|i: int| from <= i < k ==> #[trigger] v@[i] != c,
        decreases v.len() - k,
    {
        k += 1;
    }
    let ghost s = v@.skip(from as int);
    proof {
        assert forall|i: int| 0 <= i < k - from implies #[trigger] not_char(c)(s[i]) by {
            assert(s[i] == v@[i + from]);
        }
        lemma_lead_at(s, not_char(c), k - from);
    }
    let piece = subvec(v, from, k);
    let mut r: Vec<Vec<char>> = Vec::new();
    r.push(piece);
    if k == v.len() {
        proof {
            assert(piece@ =~= s);
            assert(views(r@) =~= seq![s]);
        }
        return r;
    }
    let rest = split_chars_from(v, k + 1, c);
    let mut i: usize = 0;
    while i < rest.len()
        invariant
            0 <= i <= rest.len(),
            r.len() == i + 1,
            from <= k < v.len(),
            r[0]@ == v@.subrange(from as int, k as int),
            forall|j: int| 0 < j <= i ==> #[trigger] r[j]@ == rest[j - 1]@,
        decreases rest.len() - i,
    {
        r.push(rest[i].clone());
        i += 1;
    }
    proof {
        assert(s.take(k - from) =~= v@.subrange(from as int, k as int));
        assert(s.skip(k - from + 1) =~= v@.skip(k + 1));
        assert(views(r@) =~= seq![s.take(k - from)] + views(rest@));
    }
    r
}

/// The year, month and day written on a header line, when all three read as
/// integers.
pub open spec fn line_date(line: Seq<char>) -> Option<(int, int, int)> {
    if is_date_line_spec(line) {
        let clean = date_token(line);
        let parts = if clean.contains('-') {
            split_char(clean, '-')
        } else {
            split_char(clean, '/')
        };
        if parts.len() == 3 {
            match (parse_i32(parts[0]), parse_i32(parts[1]), parse_i32(parts[2])) {
                (Some(y), Some(m), Some(d)) => Some((y, m, d)),
                _ => None,
            }
        } else {
            None
        }
    } else {
        None
    }
}

/// Lexicographic order on (year, month, day).
pub open spec fn date_after(a: (int, int, int), b: (int, int, int)) -> bool {
    a.0 > b.0 || (a.0 == b.0 && (a.1 > b.1 || (a.1 == b.1 && a.2 > b.2)))
}

/// The greatest date among the header lines (the first one among equals).
pub open spec fn latest_date(ls: Seq<Seq<char>>) -> Option<(int, int, int)>
    decreases ls.len(),
{
    if ls.len() == 0 {
        None
    } else {
        let prev = latest_date(ls.drop_last());
        match line_date(ls.last()) {
            Some(cur) => match prev {
                Some(p) => if date_after(cur, p) {
                    Some(cur)
                } else {
                    Some(p)
                },
                None => Some(cur),
            },
            None => prev,
        }
    }
}

pub open spec fn opt_date(o: Option<(i32, i32, i32)>) -> Option<(int, int, int)> {
    match o {
        Some((y, m, d)) => Some((y as int, m as int, d as int)),
        None => None,
    }
}

pub fn line_date_chars(line: &Vec<char>) -> (r: Option<(i32, i32, i32)>)
    ensures
        opt_date(r) == line_date(line@),
{
    if !is_date_line_chars(line) {
        return None;
    }
    let clean = date_token_chars(line);
    let has_dash = crate::text::contains_char(&clean, '-');
    let parts = if has_dash {
        split_chars_from(&clean, 0, '-')
    } else {
        split_chars_from(&clean, 0, '/')
    };
    assert(clean@.skip(0) =~= clean@);
    if parts.len() != 3 {
        return None;
    }
    assert(views(parts@)[0] == parts@[0]@);
    assert(views(parts@)[1] == parts@[1]@);
    assert(views(parts@)[2] == parts@[2]@);
    match (parse_i32_chars(&parts[0]), parse_i32_chars(&parts[1]), parse_i32_chars(&parts[2])) {
        (Some(y), Some(m), Some(d)) => Some((y, m, d)),
        _ => None,
    }
}

/// Scans the entire file content to identify the latest record date.
/// Returns a tuple of (Year, Month, Day) if any valid dates are found.
pub fn find_latest_date_in_content(content: &str) -> (r: Option<(i32, i32, i32)>)
    ensures
        opt_date(r) == latest_date(lines(content@)),
{
    let c = chars_of(content);
    let ls = lines_of(&c);
    let ghost all = lines(content@);
    let mut latest: Option<(i32, i32, i32)> = None;
    let mut i: usize = 0;
    while i < ls.len()
        invariant
            i <= ls.len(),
            views(ls@) == all,
            opt_date(latest) == latest_date(all.take(i as int)),
        decreases ls.len() - i,
    {
        assert(all.take(i + 1).drop_last() =~= all.take(i as int));
        assert(all[i as int] == ls@[i as int]@);
        if let Some(cur) = line_date_chars(&ls[i]) {
            match latest {
                Some(prev) => {
                    if cur.0 > prev.0 || (cur.0 == prev.0 && (cur.1 > prev.1 || (cur.1 == prev.1
                        && cur.2 > prev.2))) {
                        latest = Some(cur);
                    }
                },
                None => {
                    latest = Some(cur);
                },
            }
        }
        i += 1;
    }
    assert(all.take(ls.len() as int) =~= all);
    latest
}

/// The latest date is one of the dates written on the header lines, and no
/// header line carries a later one.
pub proof fn law_latest_date_is_greatest(ls: Seq<Seq<char>>)
    ensures
        latest_date(ls) matches Some(d) ==> exists|i: int|
            0 <= i < ls.len() && #[trigger] line_date(ls[i]) == Some(d),
        forall|i: int|
            0 <= i < ls.len() ==> (#[trigger] line_date(ls[i]) matches Some(x) ==> latest_date(
                ls,
            ) matches Some(d) && !date_after(x, d)),
    decreases ls.len(),
{
    if ls.len() > 0 {
        let init = ls.drop_last();
        law_latest_date_is_greatest(init);
        assert forall|i: int| 0 <= i < init.len() implies #[trigger] ls[i] == init[i] by {}
        if let Some(d) = latest_date(ls) {
            if line_date(ls.last()) == Some(d) {
                assert(line_date(ls[ls.len() - 1]) == Some(d));
            } else {
                let i = choose|i: int| 0 <= i < init.len() && #[trigger] line_date(init[i]) == Some(d);
                assert(line_date(ls[i]) == Some(d));
            }
        }
        assert forall|i: int|
            0 <= i < ls.len() implies (#[trigger] line_date(ls[i]) matches Some(x) ==> latest_date(
                ls,
            ) matches Some(d) && !date_after(x, d)) by {
            if i < init.len() {
                assert(line_date(init[i]) == line_date(ls[i]));
            }
        }
    }
}

} // verus!

verus! {

/// The latest record date is the greatest header date in (year, month, day)
/// order: no header line carries a date with a later year, a later month in
/// the same year, or a later day in the same month; it is one of the header
/// dates; and there is none exactly when no header line carries a date.
pub proof fn law_latest_date_lexicographic(ls: Seq<Seq<char>>)
    ensures
        latest_date(ls) matches Some((yy, mm, dd)) ==> forall|i: int|
            0 <= i < ls.len() ==> (#[trigger] line_date(ls[i]) matches Some((y, m, d)) ==> (y < yy
                || (y == yy && m < mm) || (y == yy && m == mm && d <= dd))),
        latest_date(ls) matches Some(r) ==> exists|i: int|
            0 <= i < ls.len() && #[trigger] line_date(ls[i]) == Some(r),
        latest_date(ls) is None ==> forall|i: int|
            0 <= i < ls.len() ==> #[trigger] line_date(ls[i]) is None,
{
    law_latest_date_is_greatest(ls);
}

/// A characters that may continue a tag: a letter or digit (see
/// `is_alnum_char`), `_`, `-` or `=`.
pub open spec fn continues_tag(c: char) -> bool {
    c == '_' || c == '-' || c == '=' || is_alnum_char(c)
}

proof fn lemma_tag_scan_sound(s: Seq<char>, cursor: int, i: int)
    ensures
        tag_scan(s, cursor, i) is Some ==> exists|k: int|
            #[trigger] tag_span(s, cursor, k, tag_scan(s, cursor, i)->0),
    decreases s.len() - i,
{
    if 0 <= i < s.len() {
        if s[i] == '#' {
            let rest = s.skip(i + 1);
            crate::text::lemma_lead(rest, tag_char());
            let n = lead(rest, tag_char()) as int;
            let end = i + 1 + n;
            if i <= cursor < end && end > i + 1 {
                let t = s.subrange(i + 1, end);
                assert forall|j: int| 0 <= j < t.len() implies continues_tag(#[trigger] t[j]) by {
                    assert(t[j] == rest[j]);
                    assert(tag_char()(rest[j]));
                }
                if end < s.len() {
                    assert(s[end] == rest[n]);
                    assert(!tag_char()(rest[n]));
                }
                assert(tag_span(s, cursor, i, t));
                assert(tag_scan(s, cursor, i) == Some(t));
                assert(tag_span(s, cursor, i, tag_scan(s, cursor, i)->0));
            } else {
                assert(end <= s.len());
                assert(tag_scan(s, cursor, i) == tag_scan(s, cursor, end));
                lemma_tag_scan_sound(s, cursor, end);
            }
        } else {
            assert(tag_scan(s, cursor, i) == tag_scan(s, cursor, i + 1));
            lemma_tag_scan_sound(s, cursor, i + 1);
        }
    }
}

/// `t` is the tag whose `#` stands at `k`: the characters after the `#` up to
/// the first one that cannot continue a tag, with `cursor` on the `#` or on
/// one of them.
pub open spec fn tag_span(s: Seq<char>, cursor: int, k: int, t: Seq<char>) -> bool {
    &&& 0 <= k < s.len()
    &&& s[k] == '#'
    &&& t.len() > 0
    &&& k + 1 + t.len() <= s.len()
    &&& s.subrange(k + 1, k + 1 + t.len()) == t
    &&& k <= cursor < k + 1 + t.len()
    &&& forall|j: int| 0 <= j < t.len() ==> continues_tag(#[trigger] t[j])
    &&& (k + 1 + t.len() == s.len() || !continues_tag(s[k + 1 + t.len()]))
}

/// The tag under the cursor is a whole tag: it follows a `#` at or before
/// the cursor, every character of it is a letter, a digit, `_`, `-` or `=`,
/// and the character after it (if any) is none of these.
pub proof fn law_tag_is_maximal(line: Seq<char>, cursor: int)
    ensures
        tag_under_cursor(line, cursor) matches Some(t) ==> exists|k: int|
            #[trigger] tag_span(line, cursor, k, t),
{
    lemma_tag_scan_sound(line, cursor, 0);
}

} // verus!
