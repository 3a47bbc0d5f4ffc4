//! Language Server Protocol framing (`Content-Length` headers) and the
//! handling of `klog` command output.
use vstd::prelude::*;
use crate::document::split_char;
use crate::number::{dec, digits_value, is_ascii_digit, nat_chars};
use crate::text::{
    append, append_str, chars_of, is_digit, string_of, trim, trim_chars, views,
};

verus! {

broadcast use vstd::string::group_string_axioms;

// ---------------------------------------------------------------------------
// Reading headers
// ---------------------------------------------------------------------------

pub open spec fn ascii_lower(c: char) -> char {
    if 'A' <= c <= 'Z' {
        ((c as u32) + 32) as char
    } else {
        c
    }
}

/// `t.to_lowercase().starts_with("content-length:")`. The header name is
/// ASCII, and no non-ASCII character lowercases to one of its letters, so
/// comparing ASCII-lowercased characters decides it.
pub open spec fn is_length_header(t: Seq<char>) -> bool {
    let name = "content-length:"@;
    t.len() >= name.len() && forall|i: int| 0 <= i < name.len() ==> #[trigger] ascii_lower(t[i]) == name[i]
}

/// `usize::from_str`: an optional `+`, then at least one digit, within `usize`.
pub open spec fn parse_usize(s: Seq<char>) -> Option<nat> {
    let body = if s.len() > 0 && s[0] == '+' {
        s.drop_first()
    } else {
        s
    };
    if body.len() > 0 && crate::number::all_digits(body) && digits_value(body) <= usize::MAX {
        Some(digits_value(body))
    } else {
        None
    }
}

/// The length a header line announces: `Some` for a `Content-Length` line,
/// carrying the number after the first `:` (0 when it does not read).
pub open spec fn header_length(line: Seq<char>) -> Option<nat> {
    let t = trim(line);
    if is_length_header(t) {
        let parts = split_char(t, ':');
        Some(
            match parse_usize(trim(parts[1])) {
                Some(n) => n,
                None => 0,
            },
        )
    } else {
        None
    }
}

/// The last announced length among the header lines, 0 without one.
pub open spec fn content_length(headers: Seq<Seq<char>>) -> nat
    decreases headers.len(),
{
    if headers.len() == 0 {
        0
    } else {
        match header_length(headers.last()) {
            Some(n) => n,
            None => content_length(headers.drop_last()),
        }
    }
}

/// A blank line ends the headers.
pub fn is_header_end(line: &str) -> (b: bool)
    ensures
        b == (trim(line@).len() == 0),
{
    let v = chars_of(line);
    let t = trim_chars(&v);
    t.len() == 0
}

fn is_length_header_exec(t: &Vec<char>) -> (b: bool)
    ensures
        b == is_length_header(t@),
{
    let name = chars_of("content-length:");
    if t.len() < name.len() {
        return false;
    }
    let mut i: usize = 0;
    while i < name.len()
        invariant
            i <= name.len() <= t.len(),
            name@ == "content-length:"@,
            forall|j: int| 0 <= j < i ==> #[trigger] ascii_lower(t@[j]) == name@[j],
        decreases name.len() - i,
    {
        let c = t[i];
        let l = if 'A' <= c && c <= 'Z' {
            ((c as u32) + 32) as u8 as char
        } else {
            c
        };
        assert(l == ascii_lower(c));
        if l != name[i] {
            return false;
        }
        i += 1;
    }
    true
}

fn parse_usize_exec(s: &Vec<char>) -> (r: Option<usize>)
    ensures
        match r {
            Some(n) => parse_usize(s@) == Some(n as nat),
            None => parse_usize(s@) is None,
        },
{
    let from: usize = if s.len() > 0 && s[0] == '+' {
        1
    } else {
        0
    };
    let ghost body = if s@.len() > 0 && s@[0] == '+' {
        s@.drop_first()
    } else {
        s@
    };
    assert(body =~= s@.skip(from as int));
    if from == s.len() {
        return None;
    }
    let mut acc: usize = 0;
    let mut over = false;
    let mut i = from;
    while i < s.len()
        invariant
            from <= i <= s.len(),
            body == s@.skip(from as int),
            body == if s@.len() > 0 && s@[0] == '+' {
                s@.drop_first()
            } else {
                s@
            },
            crate::number::all_digits(body.take(i - from)),
            !over ==> acc == digits_value(body.take(i - from)),
            over ==> digits_value(body.take(i - from)) > usize::MAX,
        decreases s.len() - i,
    {
        let c = s[i];
        if !is_ascii_digit(c) {
            assert(!is_digit(body[i - from]));
            return None;
        }
        let d = (c as u32 - '0' as u32) as usize;
        proof {
            assert(body.take(i + 1 - from).drop_last() =~= body.take(i - from));
            assert(body[i - from] == c);
            assert forall|j: int| 0 <= j < i + 1 - from implies is_digit(
                #[trigger] body.take(i + 1 - from)[j],
            ) by {
                if j < i - from {
                    assert(body.take(i + 1 - from)[j] == body.take(i - from)[j]);
                }
            }
        }
        let ghost prev = digits_value(body.take(i - from));
        if !over {
            if acc > (usize::MAX - d) / 10 {
                assert(10 * acc + d > usize::MAX) by (nonlinear_arith)
                    requires
                        acc > (usize::MAX - d) / 10,
                        d <= 9,
                ;
                over = true;
            } else {
                assert(acc * 10 + d <= usize::MAX) by (nonlinear_arith)
                    requires
                        acc <= (usize::MAX - d) / 10,
                        d <= 9,
                ;
                acc = acc * 10 + d;
            }
        }
        i += 1;
    }
    assert(body.take(i - from) =~= body);
    if over {
        None
    } else {
        Some(acc)
    }
}

pub(crate) fn header_length_exec(line: &Vec<char>) -> (r: Option<usize>)
    ensures
        match r {
            Some(n) => header_length(line@) == Some(n as nat),
            None => header_length(line@) is None,
        },
{
    let t = trim_chars(line);
    if !is_length_header_exec(&t) {
        return None;
    }
    let parts = crate::document::split_chars_from(&t, 0, ':');
    assert(t@.skip(0) =~= t@);
    proof {
        // The header name holds a ':', so there are at least two pieces.
        reveal_strlit("content-length:");
        assert(ascii_lower(t@[14]) == "content-length:"@[14]);
        assert(t@[14] == ':');
        let k = crate::text::lead(t@, crate::duration::not_char(':'));
        crate::text::lemma_lead(t@, crate::duration::not_char(':'));
        assert(k <= 14);
        crate::document::lemma_split_nonempty(t@.skip(k as int + 1), ':');
        assert(split_char(t@, ':') == seq![t@.take(k as int)] + split_char(
            t@.skip(k as int + 1),
            ':',
        ));
        assert(split_char(t@, ':').len() >= 2);
    }
    assert(views(parts@)[1] == parts@[1]@);
    let v = trim_chars(&parts[1]);
    match parse_usize_exec(&v) {
        Some(n) => Some(n),
        None => Some(0),
    }
}

/// The body length that the header lines of a message announce
/// (`Content-Length`, case-insensitive; the last one counts); `None` when
/// it is 0 or missing, in which case no message is read.
pub fn read_message(headers: &Vec<String>) -> (r: Option<usize>)
    ensures
        match r {
            Some(n) => n > 0 && content_length(headers@.map_values(|h: String| h@)) == n,
            None => content_length(headers@.map_values(|h: String| h@)) == 0,
        },
{
    let ghost hs = headers@.map_values(|h: String| h@);
    let mut len: usize = 0;
    let mut i: usize = 0;
    while i < headers.len()
        invariant
            i <= headers.len(),
            hs == headers@.map_values(|h: String| h@),
            len == content_length(hs.take(i as int)),
        decreases headers.len() - i,
    {
        assert(hs.take(i + 1).drop_last() =~= hs.take(i as int));
        assert(hs.take(i + 1).last() == headers@[i as int]@);
        let v = chars_of(headers[i].as_str());
        if let Some(n) = header_length_exec(&v) {
            len = n;
        }
        i += 1;
    }
    assert(hs.take(headers.len() as int) =~= hs);
    if len == 0 {
        None
    } else {
        Some(len)
    }
}

// ---------------------------------------------------------------------------
// Writing messages
// ---------------------------------------------------------------------------

/// A message framed for the client: `Content-Length: <bytes>\r\n\r\n<message>`.
pub open spec fn framed(message: &str) -> Seq<char> {
    "Content-Length: "@ + dec(message.len() as nat) + "\r\n\r\n"@ + message@
}

/// Frames `message` with its `Content-Length` header (its length in bytes).
pub fn write_message(message: &str) -> (r: String)
    ensures
        r@ == framed(message),
{
    let mut v: Vec<char> = Vec::new();
    append_str(&mut v, "Content-Length: ");
    let n = nat_chars(message.len() as u64);
    append(&mut v, &n);
    append_str(&mut v, "\r\n\r\n");
    append_str(&mut v, message);
    string_of(&v)
}

// ---------------------------------------------------------------------------
// `klog` output
// ---------------------------------------------------------------------------

/// What a `klog` run yields: its trimmed standard output, when it succeeded
/// and printed something.
pub open spec fn klog_output(success: bool, stdout: Seq<char>) -> Option<Seq<char>> {
    if success && trim(stdout).len() > 0 {
        Some(trim(stdout))
    } else {
        None
    }
}

/// The result of a `klog` run from its exit status and standard output.
pub fn run_klog_command(success: bool, stdout: &str) -> (r: Option<String>)
    ensures
        crate::report::opt_string(r) == klog_output(success, stdout@),
{
    if !success {
        return None;
    }
    let v = chars_of(stdout);
    let t = trim_chars(&v);
    if t.len() == 0 {
        None
    } else {
        Some(string_of(&t))
    }
}

} // verus!

verus! {

proof fn lemma_dec_no_ws_colon(n: nat)
    ensures
        dec(n).len() >= 1,
        crate::number::all_digits(dec(n)),
        digits_value(dec(n)) == n,
        forall|i: int| 0 <= i < dec(n).len() ==> !crate::text::is_ws(#[trigger] dec(n)[i]) && dec(n)[i] != ':',
{
    crate::number::lemma_dec(n);
    assert forall|i: int| 0 <= i < dec(n).len() implies !crate::text::is_ws(#[trigger] dec(n)[i])
        && dec(n)[i] != ':' by {
        assert(is_digit(dec(n)[i]));
    }
}

/// The header that `write_message` puts before a body is read back by
/// `read_message` as the body's length, and the blank line after it ends the
/// headers.
pub proof fn law_header_read_back(n: nat)
    requires
        n <= usize::MAX,
    ensures
        header_length("Content-Length: "@ + dec(n) + "\r\n"@) == Some(n),
        trim("\r\n"@).len() == 0,
{
    reveal_strlit("Content-Length: ");
    reveal_strlit("content-length:");
    reveal_strlit("\r\n");
    lemma_dec_no_ws_colon(n);
    let d = dec(n);
    let lit = "Content-Length: "@;
    let h = lit + d + "\r\n"@;
    let t = lit + d;
    // Trimming drops exactly the line ending.
    crate::text::lemma_lead_at(h, crate::text::ws(), 0);
    assert(h.skip(0) =~= h);
    assert(!crate::text::is_ws(h[h.len() - 3])) by {
        assert(h[h.len() - 3] == d[d.len() - 1]);
    }
    crate::text::lemma_trail_at(h, crate::text::ws(), 2);
    assert(trim(h) =~= t);
    // The name matches case-insensitively.
    assert(is_length_header(t)) by {
        assert forall|i: int| 0 <= i < 15 implies #[trigger] ascii_lower(t[i])
            == "content-length:"@[i] by {
            assert(t[i] == lit[i]);
        }
    }
    // The first ':' ends the name; the rest holds no other ':'.
    let rest = t.skip(15);
    assert forall|i: int| 0 <= i < 14 implies #[trigger] crate::duration::not_char(':')(t[i]) by {
        assert(t[i] == lit[i]);
    }
    crate::text::lemma_lead_at(t, crate::duration::not_char(':'), 14);
    assert(rest =~= seq![' '] + d);
    assert forall|i: int| 0 <= i < rest.len() implies #[trigger] crate::duration::not_char(':')(
        rest[i],
    ) by {
        if i > 0 {
            assert(rest[i] == d[i - 1]);
        }
    }
    crate::text::lemma_lead_at(rest, crate::duration::not_char(':'), rest.len() as int);
    assert(split_char(rest, ':') == seq![rest]);
    assert(split_char(t, ':') == seq![t.take(14)] + split_char(rest, ':'));
    assert(split_char(t, ':')[1] == rest);
    // The number after the blank reads back.
    crate::text::lemma_lead_at(rest, crate::text::ws(), 1);
    crate::text::lemma_trail_at(rest.skip(1), crate::text::ws(), 0);
    assert(rest.skip(1) =~= d);
    assert(d.take(d.len() as int) =~= d);
    assert(trim(rest) =~= d);
    assert(is_digit(d[0]));
    assert(parse_usize(d) == Some(n));
    // The line ending alone is blank.
    crate::text::lemma_lead_at("\r\n"@, crate::text::ws(), 2);
}

/// A framed message reads back: its first line is the `Content-Length`
/// header, whose announced length (`read_message` on that line) is the
/// message's byte length; the next line is blank and ends the headers; what
/// follows is the message.
pub proof fn law_frame_read_back(message: &str)
    ensures
        framed(message) == ("Content-Length: "@ + dec(message.len() as nat) + "\r\n"@) + "\r\n"@
            + message@,
        content_length(seq!["Content-Length: "@ + dec(message.len() as nat) + "\r\n"@])
            == message.len(),
        trim("\r\n"@).len() == 0,
{
    let line = "Content-Length: "@ + dec(message.len() as nat) + "\r\n"@;
    law_header_read_back(message.len() as nat);
    assert(seq![line].last() == line);
    assert(seq![line].drop_last() =~= Seq::<Seq<char>>::empty());
    reveal_strlit("\r\n\r\n");
    reveal_strlit("\r\n");
    assert("\r\n\r\n"@ =~= "\r\n"@ + "\r\n"@);
    assert(framed(message) =~= line + "\r\n"@ + message@);
}

} // verus!
