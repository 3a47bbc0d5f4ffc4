//! Completion items: date, record, time and timespan snippets.
use vstd::prelude::*;
use crate::duration::{day_minutes, duration_str, format_minutes_to_duration, get_day_duration_minutes};
use crate::report::{byte_len, char_width};
use crate::text::{append, append_str, chars_of, string_of};

verus! {

broadcast use vstd::string::group_string_axioms;

/// One completion offered to the editor.
pub struct CompletionItem {
    pub label: String,
    pub insert_text: String,
    /// `Some(2)` for snippet syntax, `None` for plain text.
    pub insert_text_format: Option<u32>,
    pub kind: u32,
    pub detail: String,
}

/// Text fields of an item: label, insert text, insert format, kind, detail.
pub type ItemView = (Seq<char>, Seq<char>, Option<u32>, u32, Seq<char>);

pub open spec fn item_view(i: CompletionItem) -> ItemView {
    (i.label@, i.insert_text@, i.insert_text_format, i.kind, i.detail@)
}

pub open spec fn items_view(v: Seq<CompletionItem>) -> Seq<ItemView> {
    v.map_values(|i: CompletionItem| item_view(i))
}

/// `&time[..2]` is a whole number of characters (or the time is shorter
/// than two bytes, when `00` is used).
pub open spec fn hour_slice_ok(time: Seq<char>) -> bool {
    byte_len(time) < 2 || char_width(time[0]) == 2 || (char_width(time[0]) == 1 && char_width(
        time[1],
    ) == 1)
}

/// The first two bytes of the time, or `00` when it is shorter.
pub open spec fn hour_of(time: Seq<char>) -> Seq<char> {
    if byte_len(time) < 2 {
        "00"@
    } else if char_width(time[0]) == 2 {
        time.take(1)
    } else {
        time.take(2)
    }
}

pub open spec fn snippet(text: Seq<char>) -> (Seq<char>, Option<u32>) {
    (text, Some(2u32))
}

/// The completion items for today's `date` and the current `time`, with the
/// configured day length as should-total.
pub open spec fn completion_items(date: Seq<char>, time: Seq<char>, day: int) -> Seq<ItemView> {
    let dur = duration_str(day);
    let with_duration = date + " ("@ + dur + "!)"@;
    let prefilled = "${1:"@ + date + "} (${2:"@ + dur + "!})"@;
    let not_prefilled = "${1:YYYY-MM-DD} (${2:"@ + dur + "!})"@;
    let today_detail = "Inserts today's date with configured day duration ("@ + with_duration
        + ")"@;
    let hour = hour_of(time);
    let span = hour + ":${1:00} - "@ + hour + ":${2:00} $0"@;
    let open_span = time + " - ? $0"@;
    seq![
        ("today"@, prefilled, Some(2u32), 15u32, today_detail),
        (
            "date"@,
            not_prefilled,
            Some(2u32),
            15u32,
            "Inserts a date record template with configured day duration (YYYY-MM-DD ("@ + dur
                + "!))"@,
        ),
        ("20"@, prefilled, Some(2u32), 15u32, today_detail),
        (date, prefilled, Some(2u32), 15u32, today_detail),
        (
            "record"@,
            prefilled + "\n${3:Summary}\n    $0"@,
            Some(2u32),
            15u32,
            "Creates a new record block with today's date and configured day duration"@,
        ),
        ("time"@, time, None, 15u32, "Inserts current time ("@ + time + ")"@),
        ("ts"@, span, Some(2u32), 15u32, "Inserts a timespan starting at the current hour"@),
        ("timespan"@, span, Some(2u32), 15u32, "Inserts a timespan starting at the current hour"@),
        (
            "tsoe"@,
            open_span,
            Some(2u32),
            15u32,
            "Inserts an open-ended timespan starting at the current time"@,
        ),
        (
            "timespan-open-ended"@,
            open_span,
            Some(2u32),
            15u32,
            "Inserts an open-ended timespan starting at the current time"@,
        ),
    ]
}

fn lit(s: &str) -> (r: String)
    ensures
        r@ == s@,
{
    let v = chars_of(s);
    string_of(&v)
}

fn join2(a: &str, b: &str) -> (r: String)
    ensures
        r@ == a@ + b@,
{
    let mut v = chars_of(a);
    append_str(&mut v, b);
    string_of(&v)
}

fn join3(a: &str, b: &str, c: &str) -> (r: String)
    ensures
        r@ == a@ + b@ + c@,
{
    let mut v = chars_of(a);
    append_str(&mut v, b);
    append_str(&mut v, c);
    string_of(&v)
}

fn join5(a: &str, b: &str, c: &str, d: &str, e: &str) -> (r: String)
    ensures
        r@ == a@ + b@ + c@ + d@ + e@,
{
    let mut v = chars_of(a);
    append_str(&mut v, b);
    append_str(&mut v, c);
    append_str(&mut v, d);
    append_str(&mut v, e);
    string_of(&v)
}

fn hour_exec(time: &str) -> (r: String)
    requires
        hour_slice_ok(time@),
    ensures
        r@ == hour_of(time@),
{
    let v = chars_of(time);
    let short = v.len() == 0 || (v.len() == 1 && (v[0] as u32) < 0x80);
    proof {
        if v@.len() > 0 {
            assert(byte_len(v@) == byte_len(v@.drop_last()) + char_width(v@.last()));
            if v@.len() > 1 {
                assert(byte_len(v@.drop_last()) == byte_len(v@.drop_last().drop_last())
                    + char_width(v@.drop_last().last()));
                assert(byte_len(v@.drop_last()) >= 1);
            } else {
                assert(v@.drop_last() =~= Seq::<char>::empty());
            }
        }
        assert(short == (byte_len(v@) < 2));
    }
    if short {
        return lit("00");
    }
    let u0 = v[0] as u32;
    if u0 >= 0x80 && u0 < 0x800 {
        let t = crate::text::subvec(&v, 0, 1);
        string_of(&t)
    } else {
        let t = crate::text::subvec(&v, 0, 2);
        string_of(&t)
    }
}

fn item(label: String, insert_text: String, insert_text_format: Option<u32>, detail: String) -> (r:
    CompletionItem)
    ensures
        item_view(r) == (label@, insert_text@, insert_text_format, 15u32, detail@),
{
    CompletionItem { label, insert_text, insert_text_format, kind: 15, detail }
}

/// The completion items offered in a klog file: today's date with the
/// configured day length as should-total, a record template, the current
/// time and timespan templates.
pub fn get_completions(date_str: &str, time_str: &str, day_setting: i32) -> (r: Vec<
    CompletionItem,
>)
    requires
        hour_slice_ok(time_str@),
    ensures
        items_view(r@) == completion_items(date_str@, time_str@, day_minutes(day_setting as int)),
{
    let mins = get_day_duration_minutes(day_setting);
    let dur_s = format_minutes_to_duration(mins);
    let dur = dur_s.as_str();
    let with_duration = join5(date_str, " (", dur, "!)", "");
    let prefilled_s = join5("${1:", date_str, "} (${2:", dur, "!})");
    let prefilled = prefilled_s.as_str();
    let not_prefilled = join3("${1:YYYY-MM-DD} (${2:", dur, "!})");
    let today_detail_s = join3(
        "Inserts today's date with configured day duration (",
        with_duration.as_str(),
        ")",
    );
    let today_detail = today_detail_s.as_str();
    let hour_s = hour_exec(time_str);
    let hour = hour_s.as_str();
    let span_s = join5(hour, ":${1:00} - ", hour, ":${2:00} $0", "");
    let span = span_s.as_str();
    let open_span_s = join2(time_str, " - ? $0");
    let open_span = open_span_s.as_str();
    proof {
        reveal_strlit("");
    }
    let mut r: Vec<CompletionItem> = Vec::new();
    r.push(item(lit("today"), lit(prefilled), Some(2), lit(today_detail)));
    r.push(
        item(
            lit("date"),
            not_prefilled,
            Some(2),
            join3(
                "Inserts a date record template with configured day duration (YYYY-MM-DD (",
                dur,
                "!))",
            ),
        ),
    );
    r.push(item(lit("20"), lit(prefilled), Some(2), lit(today_detail)));
    r.push(item(lit(date_str), lit(prefilled), Some(2), lit(today_detail)));
    r.push(
        item(
            lit("record"),
            join2(prefilled, "\n${3:Summary}\n    $0"),
            Some(2),
            lit("Creates a new record block with today's date and configured day duration"),
        ),
    );
    r.push(item(lit("time"), lit(time_str), None, join3("Inserts current time (", time_str, ")")));
    r.push(
        item(
            lit("ts"),
            lit(span),
            Some(2),
            lit("Inserts a timespan starting at the current hour"),
        ),
    );
    r.push(
        item(
            lit("timespan"),
            lit(span),
            Some(2),
            lit("Inserts a timespan starting at the current hour"),
        ),
    );
    r.push(
        item(
            lit("tsoe"),
            lit(open_span),
            Some(2),
            lit("Inserts an open-ended timespan starting at the current time"),
        ),
    );
    r.push(
        item(
            lit("timespan-open-ended"),
            lit(open_span),
            Some(2),
            lit("Inserts an open-ended timespan starting at the current time"),
        ),
    );
    assert(with_duration@ =~= date_str@ + " ("@ + dur@ + "!)"@);
    assert(span@ =~= hour@ + ":${1:00} - "@ + hour@ + ":${2:00} $0"@);
    assert(items_view(r@) =~= completion_items(
        date_str@,
        time_str@,
        day_minutes(day_setting as int),
    ));
    r
}

} // verus!

verus! {

/// The date and time the completions are built from: what `date` printed,
/// or `2026-05-21` and `09:00` when it could not be run.
pub fn completion_clock(date: Option<String>, time: Option<String>) -> (r: (String, String))
    ensures
        r.0@ == match date {
            Some(d) => d@,
            None => "2026-05-21"@,
        },
        r.1@ == match time {
            Some(t) => t@,
            None => "09:00"@,
        },
{
    let d = match date {
        Some(d) => d,
        None => {
            let v = chars_of("2026-05-21");
            string_of(&v)
        },
    };
    let t = match time {
        Some(t) => t,
        None => {
            let v = chars_of("09:00");
            string_of(&v)
        },
    };
    (d, t)
}

} // verus!

verus! {

/// The timespan snippet text for an hour text `h`.
pub open spec fn span_text(h: Seq<char>) -> Seq<char> {
    h + ":${1:00} - "@ + h + ":${2:00} $0"@
}

/// The timespan snippets (`ts` and `timespan`) start at the current hour:
/// the first two bytes of the time, which for `HH:MM` are its first two
/// characters; a time shorter than two bytes gives hour `00`.
pub proof fn law_timespan_starts_at_hour(date: Seq<char>, time: Seq<char>, day: int)
    requires
        hour_slice_ok(time),
    ensures
        completion_items(date, time, day).len() == 10,
        completion_items(date, time, day)[6].0 == "ts"@,
        completion_items(date, time, day)[7].0 == "timespan"@,
        completion_items(date, time, day)[7].1 == completion_items(date, time, day)[6].1,
        time.len() >= 2 && (time[0] as u32) < 0x80 && (time[1] as u32) < 0x80
            ==> completion_items(date, time, day)[6].1 == span_text(time.take(2)),
        byte_len(time) >= 2 ==> exists|h: Seq<char>|
            #![trigger span_text(h)]
            completion_items(date, time, day)[6].1 == span_text(h) && byte_len(h) == 2
                && time.take(h.len() as int) == h,
        byte_len(time) < 2 ==> completion_items(date, time, day)[6].1 == span_text("00"@),
{
    reveal_strlit("ts");
    reveal_strlit("timespan");
    let h = hour_of(time);
    if time.len() >= 2 && (time[0] as u32) < 0x80 && (time[1] as u32) < 0x80 {
        let t2 = time.take(2);
        assert(byte_len(t2) == byte_len(t2.drop_last()) + char_width(t2.last()));
        assert(t2.drop_last().drop_last() =~= Seq::<char>::empty());
        assert(byte_len(t2.drop_last()) == byte_len(t2.drop_last().drop_last()) + char_width(
            t2.drop_last().last(),
        ));
        crate::report::lemma_byte_len_prefix(time, 2);
    }
    if byte_len(time) >= 2 {
        assert(time.len() >= 1) by {
            if time.len() == 0 {
                assert(byte_len(time) == 0);
            }
        }
        if char_width(time[0]) == 2 {
            let t1 = time.take(1);
            assert(t1.drop_last() =~= Seq::<char>::empty());
            assert(byte_len(t1) == byte_len(t1.drop_last()) + char_width(t1.last()));
            assert(byte_len(h) == 2);
        } else {
            assert(time.len() >= 2) by {
                if time.len() == 1 {
                    assert(time.drop_last() =~= Seq::<char>::empty());
                    assert(byte_len(time) == byte_len(time.drop_last()) + char_width(time.last()));
                }
            }
            assert(char_width(time[0]) == 1 && char_width(time[1]) == 1);
            let t2 = time.take(2);
            assert(t2.drop_last().drop_last() =~= Seq::<char>::empty());
            assert(byte_len(t2) == byte_len(t2.drop_last()) + char_width(t2.last()));
            assert(byte_len(t2.drop_last()) == byte_len(t2.drop_last().drop_last()) + char_width(
                t2.drop_last().last(),
            ));
            assert(byte_len(h) == 2);
        }
        assert(time.take(h.len() as int) =~= h);
        assert(completion_items(date, time, day)[6].1 == span_text(h));
    }
}

} // verus!
