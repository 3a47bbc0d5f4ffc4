//! Character-level text utilities.
//!
//! Text is modelled as `Seq<char>`; the executable side works on `Vec<char>`.
//! The spec functions here describe the `str` operations the rest of the
//! library relies on (`trim`, `lines`, `split_whitespace`, ...).
use vstd::prelude::*;

verus! {

broadcast use vstd::string::group_string_axioms;

// ---------------------------------------------------------------------------
// Character classes
// ---------------------------------------------------------------------------

/// Unicode `White_Space`, the set that `char::is_whitespace` recognises.
pub open spec fn is_ws(c: char) -> bool {
    let u = c as u32;
    (9 <= u <= 13) || u == 32 || u == 0x85 || u == 0xa0 || u == 0x1680 || (0x2000 <= u <= 0x200a)
        || u == 0x2028 || u == 0x2029 || u == 0x202f || u == 0x205f || u == 0x3000
}

pub open spec fn is_digit(c: char) -> bool {
    '0' <= c <= '9'
}

pub open spec fn digit_val(c: char) -> int {
    (c as u32) - ('0' as u32)
}

pub fn is_whitespace(c: char) -> (b: bool)
    ensures
        b == is_ws(c),
{
    let u = c as u32;
    (9 <= u && u <= 13) || u == 32 || u == 0x85 || u == 0xa0 || u == 0x1680 || (0x2000 <= u && u
        <= 0x200a) || u == 0x2028 || u == 0x2029 || u == 0x202f || u == 0x205f || u == 0x3000
}

pub open spec fn ws() -> spec_fn(char) -> bool {
    |c: char| is_ws(c)
}

pub open spec fn not_ws() -> spec_fn(char) -> bool {
    |c: char| !is_ws(c)
}

pub open spec fn not_newline() -> spec_fn(char) -> bool {
    |c: char| c != '\n'
}

/// The character sequences held by a vector of character vectors.
pub open spec fn views(v: Seq<Vec<char>>) -> Seq<Seq<char>> {
    v.map_values(|l: Vec<char>| l@)
}

// ---------------------------------------------------------------------------
// Leading and trailing runs
// ---------------------------------------------------------------------------

/// Length of the longest prefix of `s` whose characters all satisfy `p`.
pub open spec fn lead(s: Seq<char>, p: spec_fn(char) -> bool) -> nat
    decreases s.len(),
{
    if s.len() > 0 && p(s[0]) {
        1 + lead(s.drop_first(), p)
    } else {
        0
    }
}

/// Length of the longest suffix of `s` whose characters all satisfy `p`.
pub open spec fn trail(s: Seq<char>, p: spec_fn(char) -> bool) -> nat
    decreases s.len(),
{
    if s.len() > 0 && p(s.last()) {
        1 + trail(s.drop_last(), p)
    } else {
        0
    }
}

pub proof fn lemma_lead(s: Seq<char>, p: spec_fn(char) -> bool)
    ensures
        lead(s, p) <= s.len(),
        forall|i: int| 0 <= i < lead(s, p) ==> #[trigger] p(s[i]),
        lead(s, p) < s.len() ==> !p(s[lead(s, p) as int]),
    decreases s.len(),
{
    if s.len() > 0 && p(s[0]) {
        lemma_lead(s.drop_first(), p);
        assert forall|i: int| 0 <= i < lead(s, p) implies #[trigger] p(s[i]) by {
            if i > 0 {
                assert(s[i] == s.drop_first()[i - 1]);
            }
        }
    }
}

/// A position `k` before which `p` holds everywhere and at which it fails is the lead.
pub proof fn lemma_lead_at(s: Seq<char>, p: spec_fn(char) -> bool, k: int)
    requires
        0 <= k <= s.len(),
        forall|i: int| 0 <= i < k ==> #[trigger] p(s[i]),
        k == s.len() || !p(s[k]),
    ensures
        lead(s, p) == k,
    decreases k,
{
    if k > 0 {
        assert(p(s[0]));
        assert forall|i: int| 0 <= i < k - 1 implies #[trigger] p(s.drop_first()[i]) by {
            assert(p(s[i + 1]));
        }
        lemma_lead_at(s.drop_first(), p, k - 1);
    } else if s.len() > 0 {
        assert(!p(s[0]));
    }
}

pub proof fn lemma_trail(s: Seq<char>, p: spec_fn(char) -> bool)
    ensures
        trail(s, p) <= s.len(),
        forall|i: int| s.len() - trail(s, p) <= i < s.len() ==> #[trigger] p(s[i]),
        trail(s, p) < s.len() ==> !p(s[s.len() - trail(s, p) - 1]),
    decreases s.len(),
{
    if s.len() > 0 && p(s.last()) {
        lemma_trail(s.drop_last(), p);
        assert forall|i: int| s.len() - trail(s, p) <= i < s.len() implies #[trigger] p(s[i]) by {
            if i < s.len() - 1 {
                assert(s[i] == s.drop_last()[i]);
            }
        }
        if trail(s, p) < s.len() {
            assert(s[s.len() - trail(s, p) - 1] == s.drop_last()[s.drop_last().len() - trail(
                s.drop_last(),
                p,
            ) - 1]);
        }
    }
}

pub proof fn lemma_trail_at(s: Seq<char>, p: spec_fn(char) -> bool, k: int)
    requires
        0 <= k <= s.len(),
        forall|i: int| s.len() - k <= i < s.len() ==> #[trigger] p(s[i]),
        k == s.len() || !p(s[s.len() - k - 1]),
    ensures
        trail(s, p) == k,
    decreases k,
{
    if k > 0 {
        assert(p(s[s.len() - 1]));
        let t = s.drop_last();
        assert forall|i: int| t.len() - (k - 1) <= i < t.len() implies #[trigger] p(t[i]) by {
            assert(t[i] == s[i]);
        }
        if k - 1 < t.len() {
            assert(t[t.len() - (k - 1) - 1] == s[s.len() - k - 1]);
        }
        lemma_trail_at(t, p, k - 1);
    } else if s.len() > 0 {
        assert(!p(s[s.len() - 1]));
    }
}

/// Index of the first character that does not satisfy `p`, at or after `from`.
pub fn skip_while_ws(v: &Vec<char>, from: usize) -> (k: usize)
    requires
        from <= v.len(),
    ensures
        from <= k <= v.len(),
        k - from == lead(v@.skip(from as int), ws()),
{
    let mut k = from;
    while k < v.len() && is_whitespace(v[k])
        invariant
            from <= k <= v.len(),
            forall|i: int| from <= i < k ==> is_ws(#[trigger] v@[i]),
        decreases v.len() - k,
    {
        k += 1;
    }
    proof {
        let s = v@.skip(from as int);
        assert forall|i: int| 0 <= i < k - from implies #[trigger] ws()(s[i]) by {
            assert(s[i] == v@[i + from]);
        }
        lemma_lead_at(s, ws(), k - from);
    }
    k
}

/// Index of the first whitespace character at or after `from`.
pub fn skip_while_not_ws(v: &Vec<char>, from: usize) -> (k: usize)
    requires
        from <= v.len(),
    ensures
        from <= k <= v.len(),
        k - from == lead(v@.skip(from as int), not_ws()),
{
    let mut k = from;
    while k < v.len() && !is_whitespace(v[k])
        invariant
            from <= k <= v.len(),
            forall|i: int| from <= i < k ==> !is_ws(#[trigger] v@[i]),
        decreases v.len() - k,
    {
        k += 1;
    }
    proof {
        let s = v@.skip(from as int);
        assert forall|i: int| 0 <= i < k - from implies #[trigger] not_ws()(s[i]) by {
            assert(s[i] == v@[i + from]);
        }
        lemma_lead_at(s, not_ws(), k - from);
    }
    k
}

// ---------------------------------------------------------------------------
// Trimming
// ---------------------------------------------------------------------------

/// `str::trim_start`.
pub open spec fn trim_start(s: Seq<char>) -> Seq<char> {
    s.skip(lead(s, ws()) as int)
}

/// `str::trim_end`.
pub open spec fn trim_end(s: Seq<char>) -> Seq<char> {
    s.take(s.len() - trail(s, ws()))
}

/// `str::trim`.
pub open spec fn trim(s: Seq<char>) -> Seq<char> {
    trim_end(trim_start(s))
}

/// `v[a..b]` as a new vector.
pub fn subvec(v: &Vec<char>, a: usize, b: usize) -> (r: Vec<char>)
    requires
        a <= b <= v.len(),
    ensures
        r@ == v@.subrange(a as int, b as int),
{
    let mut r: Vec<char> = Vec::new();
    let mut i = a;
    while i < b
        invariant
            a <= i <= b <= v.len(),
            r@ == v@.subrange(a as int, i as int),
        decreases b - i,
    {
        r.push(v[i]);
        i += 1;
    }
    r
}

pub fn trim_start_chars(v: &Vec<char>) -> (r: Vec<char>)
    ensures
        r@ == trim_start(v@),
{
    let k = skip_while_ws(v, 0);
    assert(v@.skip(0) == v@);
    subvec(v, k, v.len())
}

pub fn trim_end_chars(v: &Vec<char>) -> (r: Vec<char>)
    ensures
        r@ == trim_end(v@),
{
    let mut k = v.len();
    while k > 0 && is_whitespace(v[k - 1])
        invariant
            k <= v.len(),
            forall|i: int| k <= i < v.len() ==> is_ws(#[trigger] v@[i]),
        decreases k,
    {
        k -= 1;
    }
    proof {
        let s = v@;
        assert forall|i: int| s.len() - (s.len() - k) <= i < s.len() implies #[trigger] ws()(
            s[i],
        ) by {}
        lemma_trail_at(s, ws(), s.len() - k);
    }
    subvec(v, 0, k)
}

pub fn trim_chars(v: &Vec<char>) -> (r: Vec<char>)
    ensures
        r@ == trim(v@),
{
    let t = trim_start_chars(v);
    trim_end_chars(&t)
}

// ---------------------------------------------------------------------------
// Whitespace-separated tokens
// ---------------------------------------------------------------------------

/// `str::split_whitespace`.
pub open spec fn tokens(s: Seq<char>) -> Seq<Seq<char>>
    decreases s.len(),
{
    let t = trim_start(s);
    if t.len() == 0 {
        seq![]
    } else {
        proof {
            lemma_lead(s, ws());
        }
        let k = lead(t, not_ws());
        if 0 < k <= t.len() {
            seq![t.take(k as int)] + tokens(t.skip(k as int))
        } else {
            seq![]
        }
    }
}

/// The whitespace-separated tokens of `v@.skip(from)`.
pub fn tokens_from(v: &Vec<char>, from: usize) -> (r: Vec<Vec<char>>)
    requires
        from <= v.len(),
    ensures
        views(r@) == tokens(v@.skip(from as int)),
    decreases v.len() - from,
{
    let a = skip_while_ws(v, from);
    proof {
        lemma_lead(v@.skip(from as int), ws());
        assert(trim_start(v@.skip(from as int)) =~= v@.skip(a as int));
    }
    if a == v.len() {
        return Vec::new();
    }
    let b = skip_while_not_ws(v, a);
    proof {
        lemma_lead(v@.skip(a as int), not_ws());
        assert(!is_ws(v@[a as int]));
        assert(not_ws()(v@.skip(a as int)[0]));
    }
    let first = subvec(v, a, b);
    let rest = tokens_from(v, b);
    let mut r: Vec<Vec<char>> = Vec::new();
    r.push(first);
    let mut i: usize = 0;
    while i < rest.len()
        invariant
            0 <= i <= rest.len(),
            r.len() == i + 1,
            from <= a <= b <= v.len(),
            r[0]@ == v@.subrange(a as int, b as int),
            forall|j: int| 0 < j <= i ==> #[trigger] r[j]@ == rest[j - 1]@,
        decreases rest.len() - i,
    {
        r.push(rest[i].clone());
        i += 1;
    }
    proof {
        let t = v@.skip(a as int);
        assert(t.take((b - a) as int) =~= v@.subrange(a as int, b as int));
        assert(t.skip((b - a) as int) =~= v@.skip(b as int));
        assert(views(r@) =~= seq![t.take((b - a) as int)] + views(rest@));
    }
    r
}

pub fn tokens_of(v: &Vec<char>) -> (r: Vec<Vec<char>>)
    ensures
        views(r@) == tokens(v@),
{
    assert(v@.skip(0) == v@);
    tokens_from(v, 0)
}

// ---------------------------------------------------------------------------
// Lines
// ---------------------------------------------------------------------------

/// Drops one trailing carriage return.
pub open spec fn strip_cr(s: Seq<char>) -> Seq<char> {
    if s.len() > 0 && s.last() == '\r' {
        s.drop_last()
    } else {
        s
    }
}

/// `str::lines`: split at `\n`, dropping a `\r` right before it; a trailing
/// line ending does not start a new line.
pub open spec fn lines(s: Seq<char>) -> Seq<Seq<char>>
    decreases s.len(),
{
    if s.len() == 0 {
        seq![]
    } else {
        let k = lead(s, not_newline());
        if k < s.len() {
            seq![strip_cr(s.take(k as int))] + lines(s.skip(k as int + 1))
        } else {
            seq![s]
        }
    }
}

/// The lines of `v@.skip(from)`.
pub fn lines_from(v: &Vec<char>, from: usize) -> (r: Vec<Vec<char>>)
    requires
        from <= v.len(),
    ensures
        views(r@) == lines(v@.skip(from as int)),
    decreases v.len() - from,
{
    if from == v.len() {
        assert(v@.skip(from as int).len() == 0);
        return Vec::new();
    }
    let mut k = from;
    while k < v.len() && v[k] != '\n'
        invariant
            from <= k <= v.len(),
            forall|i: int| from <= i < k ==> #[trigger] v@[i] != '\n',
        decreases v.len() - k,
    {
        k += 1;
    }
    let ghost s = v@.skip(from as int);
    proof {
        assert forall|i: int| 0 <= i < k - from implies #[trigger] not_newline()(s[i]) by {
            assert(s[i] == v@[i + from]);
        }
        lemma_lead_at(s, not_newline(), k - from);
    }
    if k == v.len() {
        let line = subvec(v, from, k);
        let mut r: Vec<Vec<char>> = Vec::new();
        r.push(line);
        proof {
            assert(views(r@) =~= seq![s]);
        }
        return r;
    }
    let mut end = k;
    if end > from && v[end - 1] == '\r' {
        end -= 1;
    }
    let line = subvec(v, from, end);
    let rest = lines_from(v, k + 1);
    let mut r: Vec<Vec<char>> = Vec::new();
    r.push(line);
    let mut i: usize = 0;
    while i < rest.len()
        invariant
            0 <= i <= rest.len(),
            r.len() == i + 1,
            from <= end <= v.len(),
            r[0]@ == v@.subrange(from as int, end as int),
            forall|j: int| 0 < j <= i ==> #[trigger] r[j]@ == rest[j - 1]@,
        decreases rest.len() - i,
    {
        r.push(rest[i].clone());
        i += 1;
    }
    proof {
        assert(strip_cr(s.take(k - from)) =~= v@.subrange(from as int, end as int));
        assert(s.skip(k - from + 1) =~= v@.skip(k + 1));
        assert(views(r@) =~= seq![strip_cr(s.take(k - from))] + views(rest@));
    }
    r
}

pub fn lines_of(v: &Vec<char>) -> (r: Vec<Vec<char>>)
    ensures
        views(r@) == lines(v@),
{
    assert(v@.skip(0) == v@);
    lines_from(v, 0)
}

// ---------------------------------------------------------------------------
// Conversions between `str`/`String` and `Vec<char>`
// ---------------------------------------------------------------------------

/// The characters of a string slice, in order.
pub fn chars_of(s: &str) -> (v: Vec<char>)
    ensures
        v@ == s@,
{
    let mut v: Vec<char> = Vec::new();
    for c in it: s.chars()
        invariant
            v@ == it.seq().take(it.index() as int),
    {
        v.push(c);
    }
    v
}

/// `String::push`: appends one character.
#[verifier::external_body]
fn push_char(s: &mut String, c: char)
    ensures
        final(s)@ == old(s)@.push(c),
{
    s.push(c)
}

/// A `String` holding exactly the given characters.
pub fn string_of(v: &Vec<char>) -> (s: String)
    ensures
        s@ == v@,
{
    let mut s = String::new();
    let mut i: usize = 0;
    while i < v.len()
        invariant
            0 <= i <= v.len(),
            s@ == v@.take(i as int),
        decreases v.len() - i,
    {
        push_char(&mut s, v[i]);
        assert(v@.take(i + 1) == v@.take(i as int).push(v@[i as int]));
        i += 1;
    }
    assert(v@.take(v.len() as int) == v@);
    s
}

/// Appends `w` to `v`.
pub fn append(v: &mut Vec<char>, w: &Vec<char>)
    ensures
        final(v)@ == old(v)@ + w@,
{
    let mut i: usize = 0;
    while i < w.len()
        invariant
            0 <= i <= w.len(),
            v@ == old(v)@ + w@.take(i as int),
        decreases w.len() - i,
    {
        v.push(w[i]);
        assert(w@.take(i + 1) == w@.take(i as int).push(w@[i as int]));
        i += 1;
    }
    assert(w@.take(w.len() as int) == w@);
}

/// Appends the characters of `s` to `v`.
pub fn append_str(v: &mut Vec<char>, s: &str)
    ensures
        final(v)@ == old(v)@ + s@,
{
    let w = chars_of(s);
    append(v, &w);
}

/// `v` followed by `w`, as a new vector.
pub fn concat(v: &Vec<char>, w: &Vec<char>) -> (r: Vec<char>)
    ensures
        r@ == v@ + w@,
{
    let mut r = v.clone();
    append(&mut r, w);
    r
}

// ---------------------------------------------------------------------------
// Comparisons
// ---------------------------------------------------------------------------

pub fn eq_chars(a: &Vec<char>, b: &Vec<char>) -> (r: bool)
    ensures
        r == (a@ == b@),
{
    if a.len() != b.len() {
        return false;
    }
    let mut i: usize = 0;
    while i < a.len()
        invariant
            a.len() == b.len(),
            0 <= i <= a.len(),
            forall|j: int| 0 <= j < i ==> a@[j] == b@[j],
        decreases a.len() - i,
    {
        if a[i] != b[i] {
            return false;
        }
        i += 1;
    }
    assert(a@ =~= b@);
    true
}

pub open spec fn starts_with(s: Seq<char>, p: Seq<char>) -> bool {
    p.len() <= s.len() && s.take(p.len() as int) == p
}

pub fn starts_with_chars(s: &Vec<char>, p: &Vec<char>) -> (r: bool)
    ensures
        r == starts_with(s@, p@),
{
    if p.len() > s.len() {
        return false;
    }
    let mut i: usize = 0;
    while i < p.len()
        invariant
            p.len() <= s.len(),
            0 <= i <= p.len(),
            forall|j: int| 0 <= j < i ==> s@[j] == p@[j],
        decreases p.len() - i,
    {
        if s[i] != p[i] {
            assert(s@.take(p.len() as int)[i as int] != p@[i as int]);
            return false;
        }
        i += 1;
    }
    assert(s@.take(p.len() as int) =~= p@);
    true
}

pub fn contains_char(s: &Vec<char>, c: char) -> (r: bool)
    ensures
        r == s@.contains(c),
{
    let mut i: usize = 0;
    while i < s.len()
        invariant
            0 <= i <= s.len(),
            forall|j: int| 0 <= j < i ==> s@[j] != c,
        decreases s.len() - i,
    {
        if s[i] == c {
            assert(s@[i as int] == c);
            return true;
        }
        i += 1;
    }
    false
}

} // verus!
