//! Messages on the byte stream: `Content-Length` framing as written to and
//! read from stdin/stdout.
use vstd::prelude::*;
use crate::number::{dec, nat_chars};
use crate::protocol::{header_length, header_length_exec, law_header_read_back};
use crate::text::{append, append_str, chars_of, trim, trim_chars};
use vstd::string::StringSliceAdditionalSpecFns;

verus! {

broadcast use vstd::string::group_string_axioms;

/// Each character as a byte of its code (what ASCII text is in UTF-8).
pub open spec fn byte_codes(s: Seq<char>) -> Seq<u8> {
    s.map_values(|c: char| (c as u32) as u8)
}

/// Each byte as the character of the same code; an ASCII header line reads
/// the same as its UTF-8 decoding.
pub open spec fn byte_chars(b: Seq<u8>) -> Seq<char> {
    b.map_values(|x: u8| x as char)
}

/// The header that frames a body of `n` bytes, with the blank line after it.
pub open spec fn header_bytes(n: nat) -> Seq<u8> {
    byte_codes("Content-Length: "@ + dec(n) + "\r\n\r\n"@)
}

/// The end of the line that starts at `pos`: just after the first `\n` at
/// or after `pos`, or the end of the input.
pub open spec fn line_end(input: Seq<u8>, pos: int) -> int
    decreases input.len() - pos,
{
    if pos < 0 || pos >= input.len() {
        input.len() as int
    } else if input[pos] == 10u8 {
        pos + 1
    } else {
        line_end(input, pos + 1)
    }
}

pub proof fn lemma_line_end_bounds(input: Seq<u8>, pos: int)
    requires
        0 <= pos < input.len(),
    ensures
        pos < line_end(input, pos) <= input.len(),
    decreases input.len() - pos,
{
    if input[pos] != 10u8 {
        if pos + 1 < input.len() {
            lemma_line_end_bounds(input, pos + 1);
        } else {
            assert(line_end(input, pos + 1) == input.len());
        }
    }
}

proof fn lemma_line_end_at(input: Seq<u8>, pos: int, q: int)
    requires
        0 <= pos <= q < input.len(),
        input[q] == 10u8,
        forall|i: int| pos <= i < q ==> input[i] != 10u8,
    ensures
        line_end(input, pos) == q + 1,
    decreases q - pos,
{
    if pos < q {
        lemma_line_end_at(input, pos + 1, q);
    }
}

/// What reading one message from the front of a byte stream gives.
pub enum FrameView {
    /// The body starts at `.0` and is `.1` bytes long; the stream up to its
    /// end is used up.
    Body(int, int),
    /// A blank line came with no length announced: reading stops.
    Stop,
    /// The stream ends inside the headers or the body.
    Incomplete,
}

/// Reads header lines from `pos` with the length announced so far: a
/// `Content-Length` line sets it (to 0 when its number does not read), and
/// the first blank line ends the headers.
pub open spec fn read_frame(input: Seq<u8>, pos: int, len: nat) -> FrameView
    decreases input.len() - pos,
{
    if pos < 0 || pos >= input.len() {
        FrameView::Incomplete
    } else {
        let e = line_end(input, pos);
        let line = byte_chars(input.subrange(pos, e));
        if trim(line).len() == 0 {
            if len == 0 {
                FrameView::Stop
            } else if e + len <= input.len() {
                FrameView::Body(e, len as int)
            } else {
                FrameView::Incomplete
            }
        } else {
            proof {
                lemma_line_end_bounds(input, pos);
            }
            read_frame(
                input,
                e,
                match header_length(line) {
                    Some(n) => n,
                    None => len,
                },
            )
        }
    }
}

/// The result of reading one message from a buffer.
pub enum Frame {
    Body { start: usize, len: usize },
    Stop,
    Incomplete,
}

pub open spec fn frame_view(f: Frame) -> FrameView {
    match f {
        Frame::Body { start, len } => FrameView::Body(start as int, len as int),
        Frame::Stop => FrameView::Stop,
        Frame::Incomplete => FrameView::Incomplete,
    }
}

fn line_chars(input: &Vec<u8>, a: usize, b: usize) -> (r: Vec<char>)
    requires
        a <= b <= input.len(),
    ensures
        r@ == byte_chars(input@.subrange(a as int, b as int)),
{
    let mut r: Vec<char> = Vec::new();
    let mut i = a;
    while i < b
        invariant
            a <= i <= b <= input.len(),
            r@ == byte_chars(input@.subrange(a as int, i as int)),
        decreases b - i,
    {
        r.push(input[i] as char);
        assert(byte_chars(input@.subrange(a as int, i + 1)) =~= byte_chars(
            input@.subrange(a as int, i as int),
        ).push(input@[i as int] as char));
        i += 1;
    }
    r
}

/// Reads the first message of `input`: where its body starts and how long
/// it is, whether reading stops, or whether more bytes are needed.
pub fn read_frame_exec(input: &Vec<u8>) -> (r: Frame)
    ensures
        frame_view(r) == read_frame(input@, 0, 0),
{
    let mut pos: usize = 0;
    let mut len: usize = 0;
    while pos < input.len()
        invariant
            pos <= input.len(),
            read_frame(input@, 0, 0) == read_frame(input@, pos as int, len as nat),
        decreases input.len() - pos,
    {
        let mut e = pos;
        while e < input.len() && input[e] != 10u8
            invariant
                pos <= e <= input.len(),
                forall|i: int| pos <= i < e ==> input@[i] != 10u8,
            decreases input.len() - e,
        {
            e += 1;
        }
        proof {
            if e < input.len() {
                lemma_line_end_at(input@, pos as int, e as int);
            } else {
                lemma_line_end_past(input@, pos as int);
            }
        }
        let end = if e < input.len() {
            e + 1
        } else {
            e
        };
        let line = line_chars(input, pos, end);
        let t = trim_chars(&line);
        if t.len() == 0 {
            if len == 0 {
                return Frame::Stop;
            } else if len <= input.len() - end {
                return Frame::Body { start: end, len };
            } else {
                return Frame::Incomplete;
            }
        }
        if let Some(n) = header_length_exec(&line) {
            len = n;
        }
        proof {
            lemma_line_end_bounds(input@, pos as int);
        }
        pos = end;
    }
    Frame::Incomplete
}

proof fn lemma_line_end_past(input: Seq<u8>, pos: int)
    requires
        0 <= pos <= input.len(),
        forall|i: int| pos <= i < input.len() ==> input[i] != 10u8,
    ensures
        line_end(input, pos) == input.len(),
    decreases input.len() - pos,
{
    if pos < input.len() {
        lemma_line_end_past(input, pos + 1);
    }
}

fn push_codes(r: &mut Vec<u8>, v: &Vec<char>)
    ensures
        final(r)@ == old(r)@ + byte_codes(v@),
{
    let mut i: usize = 0;
    while i < v.len()
        invariant
            i <= v.len(),
            r@ == old(r)@ + byte_codes(v@.take(i as int)),
        decreases v.len() - i,
    {
        r.push((v[i] as u32) as u8);
        assert(byte_codes(v@.take(i + 1)) =~= byte_codes(v@.take(i as int)).push(
            (v@[i as int] as u32) as u8,
        ));
        i += 1;
    }
    assert(v@.take(v.len() as int) =~= v@);
}

/// The bytes of a message framed for the client: its `Content-Length`
/// header, a blank line and the message's UTF-8 bytes.
pub fn write_message_bytes(message: &str) -> (r: Vec<u8>)
    ensures
        r@ == header_bytes(message.spec_bytes().len()) + message.spec_bytes(),
{
    let mut h: Vec<char> = Vec::new();
    append_str(&mut h, "Content-Length: ");
    let n = nat_chars(message.len() as u64);
    append(&mut h, &n);
    append_str(&mut h, "\r\n\r\n");
    let mut r: Vec<u8> = Vec::new();
    push_codes(&mut r, &h);
    let b = message.as_bytes();
    let mut i: usize = 0;
    let ghost start = r@;
    while i < b.len()
        invariant
            i <= b.len(),
            b@ == message.spec_bytes(),
            r@ == start + b@.take(i as int),
        decreases b.len() - i,
    {
        r.push(b[i]);
        assert(b@.take(i + 1) =~= b@.take(i as int).push(b@[i as int]));
        i += 1;
    }
    assert(b@.take(b.len() as int) =~= b@);
    r
}

proof fn lemma_ascii_round_trip(s: Seq<char>)
    requires
        forall|i: int| 0 <= i < s.len() ==> (#[trigger] s[i] as u32) < 128,
    ensures
        byte_chars(byte_codes(s)) == s,
{
    assert forall|i: int| 0 <= i < s.len() implies byte_chars(byte_codes(s))[i] == s[i] by {
        let c = s[i];
        let u = c as u32;
        assert(u < 128);
        assert((u as u8) as u32 == u) by (bit_vector)
            requires
                u < 128,
        ;
        let b = u as u8;
        assert(byte_codes(s)[i] == b);
        assert(byte_chars(byte_codes(s))[i] == b as char);
        vstd::utf8::char_u32_cast(c, u);
        assert(b as int == u as int);
        assert(b as char == u as char);
    }
    assert(byte_chars(byte_codes(s)) =~= s);
}

/// What `write_message_bytes` sends reads back: from a stream that holds a
/// framed body and then anything else, reading one message finds exactly
/// that body, and uses up exactly the framed bytes, leaving the rest unread.
pub proof fn law_message_read_back(body: Seq<u8>, rest: Seq<u8>)
    requires
        0 < body.len() <= usize::MAX,
    ensures
        read_frame(header_bytes(body.len()) + body + rest, 0, 0) == FrameView::Body(
            header_bytes(body.len()).len() as int,
            body.len() as int,
        ),
        (header_bytes(body.len()) + body + rest).subrange(
            header_bytes(body.len()).len() as int,
            (header_bytes(body.len()).len() + body.len()) as int,
        ) == body,
{
    let n = body.len();
    reveal_strlit("Content-Length: ");
    reveal_strlit("\r\n\r\n");
    reveal_strlit("\r\n");
    law_header_read_back(n);
    crate::number::lemma_dec(n);
    let d = dec(n);
    let s1 = "Content-Length: "@ + d + "\r\n"@;
    let all = "Content-Length: "@ + d + "\r\n\r\n"@;
    assert(all =~= s1 + "\r\n"@);
    let hb = header_bytes(n);
    let input = hb + body + rest;
    assert forall|i: int| 0 <= i < all.len() implies (#[trigger] all[i] as u32) < 128 by {
        if 16 <= i < 16 + d.len() {
            assert(all[i] == d[i - 16]);
            assert(crate::text::is_digit(d[i - 16]));
        }
    }
    // The first line is the `Content-Length` header.
    let l1 = s1.len() as int;
    assert forall|i: int| 0 <= i < l1 - 1 implies input[i] != 10u8 by {
        assert(input[i] == hb[i]);
        assert(hb[i] == (all[i] as u32) as u8);
        let u = all[i] as u32;
        if 16 <= i < 16 + d.len() {
            assert(all[i] == d[i - 16]);
            assert(crate::text::is_digit(d[i - 16]));
        }
        assert(u != 10);
        assert(u < 128);
        assert((u as u8) != 10u8) by (bit_vector)
            requires
                u < 128,
                u != 10,
        ;
    }
    assert(input[l1 - 1] == 10u8);
    lemma_line_end_at(input, 0, l1 - 1);
    assert(input.subrange(0, l1) =~= byte_codes(s1));
    assert forall|i: int| 0 <= i < s1.len() implies (#[trigger] s1[i] as u32) < 128 by {
        assert(s1[i] == all[i]);
    }
    lemma_ascii_round_trip(s1);
    assert(trim(s1).len() != 0) by {
        reveal_strlit("content-length:");
        if trim(s1).len() == 0 {
            assert(header_length(s1) is None);
        }
    }
    // The second line is blank and ends the headers.
    assert(input[l1] == 13u8);
    assert(input[l1 + 1] == 10u8);
    lemma_line_end_at(input, l1, l1 + 1);
    assert(input.subrange(l1, l1 + 2) =~= byte_codes("\r\n"@));
    lemma_ascii_round_trip("\r\n"@);
    assert(hb.len() == l1 + 2);
    assert(input.subrange(hb.len() as int, (hb.len() + n) as int) =~= body);
    let line1 = byte_chars(input.subrange(0, l1));
    assert(line1 == s1);
    assert(line_end(input, 0) == l1);
    assert(read_frame(input, 0, 0) == read_frame(input, l1, n));
    let line2 = byte_chars(input.subrange(l1, l1 + 2));
    assert(line2 == "\r\n"@);
    assert(line_end(input, l1) == l1 + 2);
    assert(read_frame(input, l1, n) == FrameView::Body(l1 + 2, n as int));
}

} // verus!
