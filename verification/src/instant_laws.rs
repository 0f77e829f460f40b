//! Laws of reading instants: days, zones and clocks.

use vstd::prelude::*;
use crate::calendar::{day_number, valid_date};
use crate::calendar::{law_every_day_has_a_date, lemma_four_digit_years};
use crate::csv::{date_text, day_text, is_day_text, law_day_text_is_unique, ts_text};
use crate::decimal::{ascii_bytes, is_digit_byte, padded, pow10};
use crate::decimal::law_padded_round_trip;
use crate::instant::{
    date_part, digit_run, field, fraction_part, inst_millis, seconds_part, zone_part,
};

verus! {

proof fn lemma_field(p: Seq<u8>, x: Seq<u8>, y: Seq<u8>, from: int, to: int)
    requires
        0 <= from <= to <= p.len(),
    ensures
        field(p + x, from, to) == field(p + y, from, to),
{
    assert((p + x).subrange(from, to) =~= (p + y).subrange(from, to));
}

proof fn lemma_run(p: Seq<u8>, x: Seq<u8>, y: Seq<u8>, i: int)
    requires
        0 <= i <= p.len(),
        x.len() > 0 ==> !is_digit_byte(x[0]),
        y.len() > 0 ==> !is_digit_byte(y[0]),
    ensures
        digit_run(p + x, i) == digit_run(p + y, i),
        i <= digit_run(p + x, i) <= p.len(),
    decreases p.len() - i,
{
    if i < p.len() {
        assert((p + x)[i] == p[i] && (p + y)[i] == p[i]);
        if is_digit_byte(p[i]) {
            lemma_run(p, x, y, i + 1);
        }
    } else {
        if x.len() > 0 {
            assert((p + x)[i] == x[0]);
        }
        if y.len() > 0 {
            assert((p + y)[i] == y[0]);
        }
    }
}

/// What precedes the zone decides day, time and fraction, whatever zone follows.
proof fn lemma_before_zone(p: Seq<u8>, x: Seq<u8>, y: Seq<u8>)
    requires
        p.len() >= 16,
        x.len() > 0 ==> !is_digit_byte(x[0]) && x[0] != 0x3A && x[0] != 0x2E,
        y.len() > 0 ==> !is_digit_byte(y[0]) && y[0] != 0x3A && y[0] != 0x2E,
        seconds_part(p + x) matches Some((s, i)) && i <= p.len(),
    ensures
        date_part(p + x) == date_part(p + y),
        seconds_part(p + x) == seconds_part(p + y),
        field(p + x, 11, 13) == field(p + y, 11, 13),
        field(p + x, 14, 16) == field(p + y, 14, 16),
        seconds_part(p + x) matches Some((s, i)) && fraction_part(p + x, i) == fraction_part(
            p + y,
            i,
        ) && (fraction_part(p + x, i) matches Some((f, end)) ==> end <= p.len()),
{
    let a = p + x;
    let b = p + y;
    lemma_field(p, x, y, 0, 4);
    lemma_field(p, x, y, 5, 7);
    lemma_field(p, x, y, 8, 10);
    lemma_field(p, x, y, 11, 13);
    lemma_field(p, x, y, 14, 16);
    assert forall|k: int| 0 <= k < p.len() implies #[trigger] a[k] == b[k] by {}
    assert(a[4] == b[4] && a[7] == b[7]);
    if p.len() > 16 {
        assert(a[16] == b[16]);
        if p.len() >= 19 {
            lemma_field(p, x, y, 17, 19);
        }
    } else {
        if x.len() > 0 {
            assert(a[16] == x[0]);
        }
        if y.len() > 0 {
            assert(b[16] == y[0]);
        }
    }
    let (s, i) = seconds_part(a)->0;
    assert(seconds_part(b) == Some((s, i)));
    if i < p.len() {
        assert(a[i] == b[i]);
        if a[i] == 0x2E {
            lemma_run(p, x, y, i + 1);
            let end = digit_run(a, i + 1);
            assert(a.subrange(i + 1, end) =~= b.subrange(i + 1, end));
            if end - (i + 1) >= 3 {
                assert(a.subrange(i + 1, i + 4) =~= b.subrange(i + 1, i + 4));
            }
        }
    } else {
        if x.len() > 0 {
            assert(a[i] == x[0]);
        }
        if y.len() > 0 {
            assert(b[i] == y[0]);
        }
    }
}

/// A day without a time is its midnight.
pub proof fn law_days_are_midnights(b: Seq<u8>)
    requires
        b.len() == 10,
    ensures
        match date_part(b) {
            Some(day) => inst_millis(b) == Some(day * 86_400_000),
            None => inst_millis(b) is None,
        },
{
}

/// A time without a zone, with `Z` and with `z` is the same instant; a zone ahead by hours and
/// minutes makes it earlier by as much, and one behind makes it later.
pub proof fn law_zones(p: Seq<u8>, t: int, zone: Seq<u8>, h: int, m: int)
    requires
        p.len() >= 16,
        inst_millis(p + seq![0x5Au8]) == Some(t),
        zone.len() == 6,
        zone[0] == 0x2B || zone[0] == 0x2D,
        zone[3] == 0x3A,
        field(zone, 1, 3) == Some(h),
        field(zone, 4, 6) == Some(m),
    ensures
        inst_millis(p) == Some(t),
        inst_millis(p + seq![0x7Au8]) == Some(t),
        zone[0] == 0x2B ==> inst_millis(p + zone) == Some(t - (h * 60 + m) * 60_000),
        zone[0] == 0x2D ==> inst_millis(p + zone) == Some(t + (h * 60 + m) * 60_000),
{
    let big = seq![0x5Au8];
    let small = seq![0x7Au8];
    let none = Seq::<u8>::empty();
    let a = p + big;
    let n = p.len() as int;
    assert(a[n] == 0x5A);
    assert(p + none =~= p);
    let (s, i) = seconds_part(a)->0;
    if i > n {
        // the seconds would reach over the zone's letter
        assert(i == 19 && a.len() < 19 || a.len() == 19);
        if a.len() == 19 {
            assert(a.subrange(17, 19)[1] == a[18]);
            assert(is_digit_byte(a.subrange(17, 19)[1]));
        }
    }
    lemma_before_zone(p, big, none);
    lemma_before_zone(p, big, small);
    lemma_before_zone(p, big, zone);
    let (f, end) = fraction_part(a, i)->0;
    assert(zone_part(a, end) is Some);
    if end < n {
        // what stands there would have to be the zone, and the letter behind it is none of it
        assert(a[end] == p[end]);
        if a[end] == 0x2B || a[end] == 0x2D {
            assert(end + 6 == a.len());
            assert(a.subrange(end + 4, end + 6)[1] == a[n]);
            assert(is_digit_byte(a.subrange(end + 4, end + 6)[1]));
        }
    }
    assert(end == n);
    let b = p + zone;
    assert(b.subrange(n + 1, n + 3) =~= zone.subrange(1, 3));
    assert(b.subrange(n + 4, n + 6) =~= zone.subrange(4, 6));
    assert(b[n] == zone[0] && b[n + 3] == zone[3]);
    assert((p + small)[n] == 0x7A);
    assert(a[10] == p[10] && b[10] == p[10] && (p + small)[10] == p[10]);
    assert(a[13] == p[13] && b[13] == p[13] && (p + small)[13] == p[13]);
}

/// Hours, minutes, seconds and milliseconds count as such.
pub proof fn law_clocks(b: Seq<u8>, day: int, hour: int, minute: int, second: int)
    requires
        b.len() == 20,
        date_part(b) == Some(day),
        b[10] == 0x54,
        b[13] == 0x3A,
        b[16] == 0x3A,
        b[19] == 0x5A,
        field(b, 11, 13) == Some(hour),
        field(b, 14, 16) == Some(minute),
        field(b, 17, 19) == Some(second),
    ensures
        hour <= 23 && minute <= 59 && second <= 60 ==> inst_millis(b) == Some(
            day * 86_400_000 + hour * 3_600_000 + minute * 60_000 + second * 1_000,
        ),
        hour > 23 || minute > 59 || second > 60 ==> inst_millis(b) is None,
{
}

proof fn lemma_day_bytes(day: int) -> (r: (int, int, int))
    requires
        -719_528 <= day <= 2_932_896,
    ensures
        0 <= r.0 <= 9999,
        valid_date(r.0, r.1, r.2),
        day_number(r.0, r.1, r.2) == day,
        day_text(day) == padded(r.0 as nat, 4) + seq!['-'] + padded(r.1 as nat, 2) + seq!['-']
            + padded(r.2 as nat, 2),
        padded(r.0 as nat, 4).len() == 4,
        padded(r.1 as nat, 2).len() == 2,
        padded(r.2 as nat, 2).len() == 2,
{
    law_every_day_has_a_date(day);
    let (y, m, d) = choose|y: int, m: int, d: int| #[trigger]
        valid_date(y, m, d) && day_number(y, m, d) == day;
    lemma_four_digit_years(y, m, d);
    assert(is_day_text(date_text(y, m, d), day));
    law_day_text_is_unique(date_text(y, m, d), day);
    reveal_with_fuel(pow10, 5);
    law_padded_round_trip(y as nat, 4);
    law_padded_round_trip(m as nat, 2);
    law_padded_round_trip(d as nat, 2);
    (y, m, d)
}

/// The text of a day reads back as the day, in every four-digit year.
pub proof fn law_day_texts_read_back(day: int)
    requires
        -719_528 <= day <= 2_932_896,
    ensures
        day_text(day).len() == 10,
        date_part(ascii_bytes(day_text(day))) == Some(day),
{
    let (y, m, d) = lemma_day_bytes(day);
    let b = ascii_bytes(day_text(day));
    law_padded_round_trip(y as nat, 4);
    law_padded_round_trip(m as nat, 2);
    law_padded_round_trip(d as nat, 2);
    assert(b.subrange(0, 4) =~= ascii_bytes(padded(y as nat, 4)));
    assert(b.subrange(5, 7) =~= ascii_bytes(padded(m as nat, 2)));
    assert(b.subrange(8, 10) =~= ascii_bytes(padded(d as nat, 2)));
    assert(b[4] == 0x2D && b[7] == 0x2D);
}

/// The text of a day and seconds reads back as the moment that many seconds into the day, where the
/// seconds may carry over into other days.
pub proof fn law_timestamps_read_back(day: int, secs: int)
    requires
        -719_528 <= day + secs / 86_400 <= 2_932_896,
    ensures
        ts_text(day, secs).len() == 19,
        inst_millis(ascii_bytes(ts_text(day, secs))) == Some((day * 86_400 + secs) * 1_000),
{
    let on = day + secs / 86_400;
    let t = secs % 86_400;
    let hour = t / 3600;
    let minute = (t % 3600) / 60;
    let second = t % 60;
    law_day_texts_read_back(on);
    let date = day_text(on);
    let text = ts_text(day, secs);
    let b = ascii_bytes(text);
    reveal_with_fuel(pow10, 5);
    law_padded_round_trip(hour as nat, 2);
    law_padded_round_trip(minute as nat, 2);
    law_padded_round_trip(second as nat, 2);
    assert(text.len() == 19);
    let a = ascii_bytes(date);
    assert(b.subrange(0, 4) =~= a.subrange(0, 4));
    assert(b.subrange(5, 7) =~= a.subrange(5, 7));
    assert(b.subrange(8, 10) =~= a.subrange(8, 10));
    assert(b[4] == a[4] && b[7] == a[7]);
    assert(date_part(b) == date_part(a));
    assert(b.subrange(11, 13) =~= ascii_bytes(padded(hour as nat, 2)));
    assert(b.subrange(14, 16) =~= ascii_bytes(padded(minute as nat, 2)));
    assert(b.subrange(17, 19) =~= ascii_bytes(padded(second as nat, 2)));
    assert(b[10] == 0x20 && b[13] == 0x3A && b[16] == 0x3A);
    assert(hour * 3600 + minute * 60 + second == t);
    assert(secs == (secs / 86_400) * 86_400 + t);
}

} // verus!
