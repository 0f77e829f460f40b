//! RFC 3339 ↔ epoch-milliseconds conversion for instants (`#inst` literals).

use vstd::prelude::*;
use vstd::utf8::*;
use crate::calendar::{civil_from_days, day_number, days_from_civil, valid_date};
use crate::calendar::{law_dates_are_unique, lemma_four_digit_years};
use crate::decimal::{
    all_digits, ascii_bytes, digits_value, is_digit_byte, padded, padded_int, pow10,
    push_padded_int, read_digits,
};
use crate::decimal::{law_padded_round_trip, lemma_padded_ascii};

verus! {

// ---------------------------------------------------------------------------
// Reading
// ---------------------------------------------------------------------------

/// The number in the bytes from `from` up to `to`, which must be there and be digits.
pub open spec fn field(b: Seq<u8>, from: int, to: int) -> Option<int> {
    if to <= b.len() && all_digits(b.subrange(from, to)) {
        Some(digits_value(b.subrange(from, to)) as int)
    } else {
        None
    }
}

/// The day number of the date part `YYYY-MM-DD`.
pub open spec fn date_part(b: Seq<u8>) -> Option<int> {
    if b.len() < 10 || b[4] != 0x2D || b[7] != 0x2D {
        None
    } else {
        match (field(b, 0, 4), field(b, 5, 7), field(b, 8, 10)) {
            (Some(y), Some(m), Some(d)) => if 1 <= m <= 12 && 1 <= d <= 31 {
                Some(day_number(y, m, d))
            } else {
                None
            },
            _ => None,
        }
    }
}

/// Where the digits that start at `i` end.
pub open spec fn digit_run(b: Seq<u8>, i: int) -> int
    decreases b.len() - i,
{
    if 0 <= i < b.len() && is_digit_byte(b[i]) {
        digit_run(b, i + 1)
    } else {
        i
    }
}

/// The first three digits of a fraction, with zeros for missing ones.
pub open spec fn fraction_millis(b: Seq<u8>, start: int, end: int) -> int {
    if end - start >= 3 {
        digits_value(b.subrange(start, start + 3)) as int
    } else if end - start == 2 {
        digits_value(b.subrange(start, end)) as int * 10
    } else {
        digits_value(b.subrange(start, end)) as int * 100
    }
}

/// The zone at position `i` in minutes: `Z`, `±HH:MM` at the very end, or nothing.
pub open spec fn zone_part(b: Seq<u8>, i: int) -> Option<int> {
    if i >= b.len() {
        Some(0)
    } else if b[i] == 0x5A || b[i] == 0x7A {
        if i + 1 == b.len() {
            Some(0)
        } else {
            None
        }
    } else if b[i] == 0x2B || b[i] == 0x2D {
        if i + 6 != b.len() || b[i + 3] != 0x3A {
            None
        } else {
            match (field(b, i + 1, i + 3), field(b, i + 4, i + 6)) {
                (Some(h), Some(m)) => if b[i] == 0x2D {
                    Some(-(h * 60 + m))
                } else {
                    Some(h * 60 + m)
                },
                _ => None,
            }
        }
    } else {
        None
    }
}

/// The seconds at position 16, and where they end: `:SS` or nothing.
pub open spec fn seconds_part(b: Seq<u8>) -> Option<(int, int)> {
    if b.len() > 16 && b[16] == 0x3A {
        match field(b, 17, 19) {
            Some(s) => Some((s, 19)),
            None => None,
        }
    } else {
        Some((0, 16))
    }
}

/// The fraction in milliseconds at position `i`, and where it ends: `.` and digits, or nothing.
pub open spec fn fraction_part(b: Seq<u8>, i: int) -> Option<(int, int)> {
    if b.len() > i && b[i] == 0x2E {
        let end = digit_run(b, i + 1);
        if end == i + 1 {
            None
        } else {
            Some((fraction_millis(b, i + 1, end), end))
        }
    } else {
        Some((0, i))
    }
}

/// The milliseconds of the time part, which starts at position 10: `THH:MM[:SS[.fff...]]` and a
/// zone.
pub open spec fn time_part(b: Seq<u8>) -> Option<int> {
    if !(b[10] == 0x54 || b[10] == 0x74 || b[10] == 0x20) || b.len() < 16 || b[13] != 0x3A {
        None
    } else {
        match (field(b, 11, 13), field(b, 14, 16), seconds_part(b)) {
            (Some(hour), Some(minute), Some((second, i))) => match fraction_part(b, i) {
                Some((millis, end)) => match zone_part(b, end) {
                    Some(offset) => if hour <= 23 && minute <= 59 && second <= 60 {
                        Some(
                            (hour * 3600 + minute * 60 + second - offset * 60) * 1000 + millis,
                        )
                    } else {
                        None
                    },
                    None => None,
                },
                None => None,
            },
            _ => None,
        }
    }
}

/// The epoch milliseconds that a timestamp's bytes say.
pub open spec fn inst_millis(b: Seq<u8>) -> Option<int> {
    match date_part(b) {
        None => None,
        Some(days) => if b.len() == 10 {
            Some(days * 86_400_000)
        } else {
            match time_part(b) {
                Some(ms) => Some(days * 86_400_000 + ms),
                None => None,
            }
        },
    }
}

/// How `{:?}` writes a text: in quotes, with escapes.
pub uninterp spec fn quoted(s: Seq<char>) -> Seq<char>;

/// The text in quotes, with escapes: what formatting a `&str` with `{:?}` gives.
#[verifier::external_body]
pub(crate) fn quote(s: &str) -> (r: String)
    ensures
        r@ == quoted(s@),
{
    format!("{s:?}")
}

/// What a timestamp that does not parse is answered.
pub open spec fn bad_inst(s: Seq<char>) -> Seq<char> {
    "invalid #inst timestamp "@ + quoted(s)
}

fn bad_inst_text(s: &str) -> (r: String)
    ensures
        r@ == bad_inst(s@),
{
    let mut r = String::new();
    crate::text::push_text(&mut r, "invalid #inst timestamp ");
    let q = quote(s);
    crate::text::push_text(&mut r, q.as_str());
    assert(r@ =~= bad_inst(s@));
    r
}

/// The number in a field of at most four digits.
fn read_field(b: &[u8], from: usize, to: usize) -> (r: Option<i64>)
    requires
        from < to,
        to - from <= 4,
    ensures
        match r {
            Some(n) => field(b@, from as int, to as int) == Some(n as int) && 0 <= n < 10_000 && (to
                - from == 2 ==> n < 100),
            None => field(b@, from as int, to as int) is None,
        },
{
    if to > b.len() {
        return None;
    }
    proof {
        reveal_with_fuel(pow10, 5);
    }
    match read_digits(b, from, to) {
        Some(n) => Some(n as i64),
        None => None,
    }
}

fn read_date(b: &[u8]) -> (r: Option<i64>)
    ensures
        match r {
            Some(n) => date_part(b@) == Some(n as int) && -1_000_000 <= n <= 4_000_000,
            None => date_part(b@) is None,
        },
{
    if b.len() < 10 || b[4] != 0x2D || b[7] != 0x2D {
        return None;
    }
    match (read_field(b, 0, 4), read_field(b, 5, 7), read_field(b, 8, 10)) {
        (Some(y), Some(m), Some(d)) => {
            if m < 1 || m > 12 || d < 1 || d > 31 {
                return None;
            }
            Some(days_from_civil(y, m, d))
        },
        _ => None,
    }
}

fn read_seconds(b: &[u8]) -> (r: Option<(i64, usize)>)
    requires
        b.len() >= 16,
    ensures
        match r {
            Some((s, i)) => seconds_part(b@) == Some((s as int, i as int)) && 0 <= s < 100 && i
                <= b.len(),
            None => seconds_part(b@) is None,
        },
{
    if b.len() > 16 && b[16] == 0x3A {
        match read_field(b, 17, 19) {
            Some(s) => Some((s, 19)),
            None => None,
        }
    } else {
        Some((0, 16))
    }
}

/// Digits before the end of a run are digits.
proof fn lemma_digit_run(b: Seq<u8>, i: int)
    requires
        0 <= i <= b.len(),
    ensures
        i <= digit_run(b, i) <= b.len(),
        forall|j: int| i <= j < digit_run(b, i) ==> is_digit_byte(#[trigger] b[j]),
    decreases b.len() - i,
{
    if i < b.len() && is_digit_byte(b[i]) {
        lemma_digit_run(b, i + 1);
    }
}

fn read_fraction(b: &[u8], i: usize) -> (r: Option<(i64, usize)>)
    requires
        i <= b.len(),
    ensures
        match r {
            Some((ms, end)) => fraction_part(b@, i as int) == Some((ms as int, end as int)) && 0
                <= ms < 1000 && end <= b.len(),
            None => fraction_part(b@, i as int) is None,
        },
{
    if i < b.len() && b[i] == 0x2E {
        let start: usize = i + 1;
        let mut end: usize = start;
        while end < b.len() && b[end] >= 0x30 && b[end] <= 0x39
            invariant
                start <= end <= b.len(),
                digit_run(b@, start as int) == digit_run(b@, end as int),
            decreases b.len() - end,
        {
            end = end + 1;
        }
        proof {
            lemma_digit_run(b@, start as int);
            reveal_with_fuel(pow10, 4);
        }
        if end == start {
            return None;
        }
        let stop: usize = if end - start >= 3 {
            start + 3
        } else {
            end
        };
        proof {
            let part = b@.subrange(start as int, stop as int);
            assert forall|j: int| 0 <= j < part.len() implies is_digit_byte(#[trigger] part[j]) by {
                assert(part[j] == b@[start + j]);
            }
        }
        match read_digits(b, start, stop) {
            Some(n) => {
                let k: usize = stop - start;
                let ms: i64 = if k == 3 {
                    n as i64
                } else if k == 2 {
                    n as i64 * 10
                } else {
                    n as i64 * 100
                };
                Some((ms, end))
            },
            None => None,
        }
    } else {
        Some((0, i))
    }
}

fn read_zone(b: &[u8], i: usize) -> (r: Option<i64>)
    requires
        i <= b.len(),
    ensures
        match r {
            Some(n) => zone_part(b@, i as int) == Some(n as int) && -10_000 <= n <= 10_000,
            None => zone_part(b@, i as int) is None,
        },
{
    if i >= b.len() {
        return Some(0);
    }
    let sign = b[i];
    if sign == 0x5A || sign == 0x7A {
        if i + 1 == b.len() {
            Some(0)
        } else {
            None
        }
    } else if sign == 0x2B || sign == 0x2D {
        if b.len() - i != 6 || b[i + 3] != 0x3A {
            return None;
        }
        match (read_field(b, i + 1, i + 3), read_field(b, i + 4, i + 6)) {
            (Some(h), Some(m)) => {
                let offset: i64 = h * 60 + m;
                if sign == 0x2D {
                    Some(-offset)
                } else {
                    Some(offset)
                }
            },
            _ => None,
        }
    } else {
        None
    }
}

fn read_time(b: &[u8]) -> (r: Option<i64>)
    requires
        b.len() > 10,
    ensures
        match r {
            Some(n) => time_part(b@) == Some(n as int) && -1_000_000_000 <= n <= 1_000_000_000,
            None => time_part(b@) is None,
        },
{
    if !(b[10] == 0x54 || b[10] == 0x74 || b[10] == 0x20) || b.len() < 16 || b[13] != 0x3A {
        return None;
    }
    let (hour, minute): (i64, i64) = match (read_field(b, 11, 13), read_field(b, 14, 16)) {
        (Some(h), Some(m)) => (h, m),
        _ => {
            return None;
        },
    };
    let (second, i): (i64, usize) = match read_seconds(b) {
        Some(pair) => pair,
        None => {
            return None;
        },
    };
    let (millis, end): (i64, usize) = match read_fraction(b, i) {
        Some(pair) => pair,
        None => {
            return None;
        },
    };
    let offset: i64 = match read_zone(b, end) {
        Some(n) => n,
        None => {
            return None;
        },
    };
    if hour > 23 || minute > 59 || second > 60 {
        return None;
    }
    Some((hour * 3_600 + minute * 60 + second - offset * 60) * 1_000 + millis)
}

/// Parse an RFC 3339 timestamp (`2026-08-21T12:34:56.789Z`, `2026-08-21T12:34:56+02:00`, or the
/// date-only `2026-08-21`) to epoch milliseconds (UTC).
pub fn parse_rfc3339_millis(s: &str) -> (r: Result<i64, String>)
    ensures
        match r {
            Ok(ms) => inst_millis(encode_utf8(s@)) == Some(ms as int),
            Err(e) => inst_millis(encode_utf8(s@)) is None && e@ == bad_inst(s@),
        },
{
    let b = s.as_bytes();
    let days: i64 = match read_date(b) {
        Some(days) => days,
        None => {
            return Err(bad_inst_text(s));
        },
    };
    if b.len() == 10 {
        return Ok(days * 86_400_000);
    }
    match read_time(b) {
        Some(ms) => Ok(days * 86_400_000 + ms),
        None => Err(bad_inst_text(s)),
    }
}

// ---------------------------------------------------------------------------
// Writing
// ---------------------------------------------------------------------------

/// The text of an instant: date, time of day, milliseconds and the zone `-00:00`.
pub open spec fn inst_text(y: int, m: int, d: int, ms_of_day: int) -> Seq<char> {
    padded_int(y, 4) + seq!['-'] + padded_int(m, 2) + seq!['-'] + padded_int(d, 2) + seq!['T']
        + padded_int(ms_of_day / 3_600_000, 2) + seq![':'] + padded_int(
        (ms_of_day / 60_000) % 60,
        2,
    ) + seq![':'] + padded_int((ms_of_day / 1000) % 60, 2) + seq!['.'] + padded_int(
        ms_of_day % 1000,
        3,
    ) + "-00:00"@
}

/// `text` is the text of the instant: that of the date on which it falls.
pub open spec fn is_inst_text(text: Seq<char>, epoch_millis: int) -> bool {
    exists|y: int, m: int, d: int| #[trigger]
        valid_date(y, m, d) && day_number(y, m, d) == epoch_millis / 86_400_000 && text
            == inst_text(y, m, d, epoch_millis % 86_400_000)
}

/// Format epoch milliseconds as an RFC 3339 UTC timestamp with millisecond precision:
/// `2026-08-21T12:34:56.789-00:00`.
pub fn format_rfc3339_millis(epoch_millis: i64) -> (r: String)
    requires
        epoch_millis - (epoch_millis as int) % 1000 >= i64::MIN,
    ensures
        is_inst_text(r@, epoch_millis as int),
{
    let millis: i64 = rem_floor(epoch_millis, 1_000);
    let total_secs: i64 = (epoch_millis - millis) / 1_000;
    let secs_of_day: i64 = rem_floor(total_secs, 86_400);
    let days: i64 = (total_secs - secs_of_day) / 86_400;
    proof {
        lemma_split_millis(epoch_millis as int);
    }
    let (year, month, day) = civil_from_days(days);
    let r = inst_string(year, month, day, secs_of_day * 1_000 + millis);
    assert(valid_date(year as int, month as int, day as int));
    r
}

/// Seconds and days of epoch milliseconds.
proof fn lemma_split_millis(e: int)
    ensures
        (e - e % 1000) / 1000 == e / 1000,
        (e / 1000 - (e / 1000) % 86400) / 86400 == e / 86_400_000,
        ((e / 1000) % 86400) * 1000 + e % 1000 == e % 86_400_000,
{
}

/// The text of an instant.
fn inst_string(year: i64, month: i64, day: i64, ms_of_day: i64) -> (r: String)
    requires
        0 <= ms_of_day < 86_400_000,
    ensures
        r@ == inst_text(year as int, month as int, day as int, ms_of_day as int),
{
    let mut r = String::new();
    push_padded_int(&mut r, year, 4);
    r.push('-');
    push_padded_int(&mut r, month, 2);
    r.push('-');
    push_padded_int(&mut r, day, 2);
    r.push('T');
    push_padded_int(&mut r, ms_of_day / 3_600_000, 2);
    r.push(':');
    push_padded_int(&mut r, (ms_of_day / 60_000) % 60, 2);
    r.push(':');
    push_padded_int(&mut r, (ms_of_day / 1_000) % 60, 2);
    r.push('.');
    push_padded_int(&mut r, ms_of_day % 1_000, 3);
    crate::text::push_text(&mut r, "-00:00");
    assert(r@ =~= inst_text(year as int, month as int, day as int, ms_of_day as int));
    r
}

/// The remainder that is never negative.
fn rem_floor(a: i64, b: i64) -> (r: i64)
    requires
        b == 1_000 || b == 86_400,
    ensures
        r == (a as int) % (b as int),
        0 <= r < b,
{
    let t: i64 = a % b;
    if t < 0 {
        t + b
    } else {
        t
    }
}

// ---------------------------------------------------------------------------
// Round trip
// ---------------------------------------------------------------------------

/// The bytes of an instant's text in a four-digit year.
spec fn inst_bytes(y: int, m: int, d: int, t: int) -> Seq<u8> {
    ascii_bytes(padded(y as nat, 4)) + seq![0x2Du8] + ascii_bytes(padded(m as nat, 2))
        + seq![0x2Du8] + ascii_bytes(padded(d as nat, 2)) + seq![0x54u8] + ascii_bytes(
        padded((t / 3_600_000) as nat, 2),
    ) + seq![0x3Au8] + ascii_bytes(padded(((t / 60_000) % 60) as nat, 2)) + seq![0x3Au8]
        + ascii_bytes(padded(((t / 1000) % 60) as nat, 2)) + seq![0x2Eu8] + ascii_bytes(
        padded((t % 1000) as nat, 3),
    ) + seq![0x2Du8, 0x30u8, 0x30u8, 0x3Au8, 0x30u8, 0x30u8]
}

proof fn lemma_inst_bytes(y: int, m: int, d: int, t: int)
    requires
        0 <= y <= 9999,
        1 <= m <= 12,
        1 <= d <= 31,
        0 <= t < 86_400_000,
    ensures
        encode_utf8(inst_text(y, m, d, t)) == inst_bytes(y, m, d, t),
{
    reveal_strlit("-00:00");
    let text = inst_text(y, m, d, t);
    lemma_padded_ascii(y as nat, 4);
    lemma_padded_ascii(m as nat, 2);
    lemma_padded_ascii(d as nat, 2);
    lemma_padded_ascii((t / 3_600_000) as nat, 2);
    lemma_padded_ascii(((t / 60_000) % 60) as nat, 2);
    lemma_padded_ascii(((t / 1000) % 60) as nat, 2);
    lemma_padded_ascii((t % 1000) as nat, 3);
    let ms = padded((t % 1000) as nat, 3);
    let s0 = padded(y as nat, 4);
    let s1 = s0 + seq!['-'];
    let s2 = s1 + padded(m as nat, 2);
    let s3 = s2 + seq!['-'];
    let s4 = s3 + padded(d as nat, 2);
    let s5 = s4 + seq!['T'];
    let s6 = s5 + padded((t / 3_600_000) as nat, 2);
    let s7 = s6 + seq![':'];
    let s8 = s7 + padded(((t / 60_000) % 60) as nat, 2);
    let s9 = s8 + seq![':'];
    let s10 = s9 + padded(((t / 1000) % 60) as nat, 2);
    let s11 = s10 + seq!['.'];
    let s12 = s11 + ms;
    lemma_join(s0, seq!['-']);
    lemma_join(s1, padded(m as nat, 2));
    lemma_join(s2, seq!['-']);
    lemma_join(s3, padded(d as nat, 2));
    lemma_join(s4, seq!['T']);
    lemma_join(s5, padded((t / 3_600_000) as nat, 2));
    lemma_join(s6, seq![':']);
    lemma_join(s7, padded(((t / 60_000) % 60) as nat, 2));
    lemma_join(s8, seq![':']);
    lemma_join(s9, padded(((t / 1000) % 60) as nat, 2));
    lemma_join(s10, seq!['.']);
    lemma_join(s11, ms);
    lemma_join(s12, "-00:00"@);
    assert(ascii_bytes(seq!['-']) =~= seq![0x2Du8]);
    assert(ascii_bytes(seq!['T']) =~= seq![0x54u8]);
    assert(ascii_bytes(seq![':']) =~= seq![0x3Au8]);
    assert(ascii_bytes(seq!['.']) =~= seq![0x2Eu8]);
    assert(ascii_bytes("-00:00"@) =~= seq![0x2Du8, 0x30u8, 0x30u8, 0x3Au8, 0x30u8, 0x30u8]);
    assert(text == s12 + "-00:00"@);
    is_ascii_chars_encode_utf8(text);
    assert(encode_utf8(text) =~= ascii_bytes(text));
}

/// ASCII texts join, and so do their bytes.
proof fn lemma_join(a: Seq<char>, b: Seq<char>)
    requires
        is_ascii_chars(a),
        is_ascii_chars(b),
    ensures
        is_ascii_chars(a + b),
        ascii_bytes(a + b) == ascii_bytes(a) + ascii_bytes(b),
{
    assert(ascii_bytes(a + b) =~= ascii_bytes(a) + ascii_bytes(b));
}

/// Reading an instant's text gives the instant back, in every four-digit year.
#[verifier::spinoff_prover]
#[verifier::rlimit(40)]
pub proof fn law_parse_undoes_format(y: int, m: int, d: int, t: int)
    requires
        valid_date(y, m, d),
        0 <= y <= 9999,
        0 <= t < 86_400_000,
    ensures
        inst_millis(encode_utf8(inst_text(y, m, d, t))) == Some(
            day_number(y, m, d) * 86_400_000 + t,
        ),
{
    lemma_inst_bytes(y, m, d, t);
    let b = inst_bytes(y, m, d, t);
    let hour = t / 3_600_000;
    let minute = (t / 60_000) % 60;
    let second = (t / 1000) % 60;
    let milli = t % 1000;
    reveal_with_fuel(pow10, 5);
    law_padded_round_trip(y as nat, 4);
    law_padded_round_trip(m as nat, 2);
    law_padded_round_trip(d as nat, 2);
    law_padded_round_trip(hour as nat, 2);
    law_padded_round_trip(minute as nat, 2);
    law_padded_round_trip(second as nat, 2);
    law_padded_round_trip(milli as nat, 3);
    assert(b.len() == 29);
    assert(b.subrange(0, 4) =~= ascii_bytes(padded(y as nat, 4)));
    assert(b[4] == 0x2D && b[7] == 0x2D && b[10] == 0x54 && b[13] == 0x3A && b[16] == 0x3A && b[19]
        == 0x2E && b[23] == 0x2D && b[26] == 0x3A);
    assert(b.subrange(5, 7) =~= ascii_bytes(padded(m as nat, 2)));
    assert(b.subrange(8, 10) =~= ascii_bytes(padded(d as nat, 2)));
    assert(b.subrange(11, 13) =~= ascii_bytes(padded(hour as nat, 2)));
    assert(b.subrange(14, 16) =~= ascii_bytes(padded(minute as nat, 2)));
    assert(b.subrange(17, 19) =~= ascii_bytes(padded(second as nat, 2)));
    let ms = ascii_bytes(padded(milli as nat, 3));
    assert(b.subrange(20, 23) =~= ms);
    assert(is_digit_byte(ms[0]) && is_digit_byte(ms[1]) && is_digit_byte(ms[2]));
    assert(b[20] == ms[0] && b[21] == ms[1] && b[22] == ms[2]);
    assert(digit_run(b, 20) == 23) by {
        reveal_with_fuel(digit_run, 4);
    }
    assert(fraction_part(b, 19) == Some((milli, 23int)));
    let z = seq![0x30u8, 0x30u8];
    assert(b.subrange(24, 26) =~= z);
    assert(b.subrange(27, 29) =~= z);
    assert(digits_value(z) == 0) by {
        assert(z.drop_last() =~= seq![0x30u8]);
        assert(z.drop_last().drop_last() =~= Seq::<u8>::empty());
        reveal_with_fuel(digits_value, 3);
    }
    assert(all_digits(z));
    assert(zone_part(b, 23) == Some(0int));
    assert(seconds_part(b) == Some((second, 19int)));
    assert(time_part(b) == Some((hour * 3600 + minute * 60 + second) * 1000 + milli));
    assert((hour * 3600 + minute * 60 + second) * 1000 + milli == t);
}

/// Formatting an instant and reading the text gives the instant back: from the start of year 0
/// to the end of year 9999.
pub proof fn law_format_then_parse(text: Seq<char>, epoch_millis: int)
    requires
        is_inst_text(text, epoch_millis),
        -62_167_219_200_000 <= epoch_millis < 253_402_300_800_000,
    ensures
        inst_millis(encode_utf8(text)) == Some(epoch_millis),
{
    let (y, m, d) = choose|y: int, m: int, d: int| #[trigger]
        valid_date(y, m, d) && day_number(y, m, d) == epoch_millis / 86_400_000 && text
            == inst_text(y, m, d, epoch_millis % 86_400_000);
    lemma_four_digit_years(y, m, d);
    law_parse_undoes_format(y, m, d, epoch_millis % 86_400_000);
}

/// An instant has one text.
pub proof fn law_inst_text_is_unique(a: Seq<char>, b: Seq<char>, epoch_millis: int)
    requires
        is_inst_text(a, epoch_millis),
        is_inst_text(b, epoch_millis),
    ensures
        a == b,
{
    let (y, m, d) = choose|y: int, m: int, d: int| #[trigger]
        valid_date(y, m, d) && day_number(y, m, d) == epoch_millis / 86_400_000 && a == inst_text(
            y,
            m,
            d,
            epoch_millis % 86_400_000,
        );
    let (y2, m2, d2) = choose|y2: int, m2: int, d2: int| #[trigger]
        valid_date(y2, m2, d2) && day_number(y2, m2, d2) == epoch_millis / 86_400_000 && b
            == inst_text(y2, m2, d2, epoch_millis % 86_400_000);
    law_dates_are_unique(y, m, d, y2, m2, d2);
}

} // verus!
