//! The timestamps that name trash folders.
use vstd::prelude::*;

use crate::calendar::{
    dates_are_unique, days_since_epoch, epoch_to_ymd, every_day_has_a_date, is_date,
};
use crate::text::{decimal, decimal_is_digits, digit, padded, padded_signed, push_padded_signed, zeros};
use crate::text_laws::{decimal_reads_back, padded_reads_back};

verus! {

/// The date that lies `days` days after 1 January 1970.
pub open spec fn date_of(days: int) -> (int, int, int) {
    choose|date: (int, int, int)|
        is_date(date.0, date.1, date.2) && days_since_epoch(date.0, date.1, date.2) == days
}

/// `n / d`, rounded towards zero.
pub open spec fn quotient(n: int, d: int) -> int {
    if n >= 0 {
        n / d
    } else {
        -((-n) / d)
    }
}

/// What `quotient` leaves over.
pub open spec fn remainder(n: int, d: int) -> int {
    if n >= 0 {
        n % d
    } else {
        -((-n) % d)
    }
}

/// The moment `secs` seconds after the start of 1970, as year, month and day, an
/// underscore, and hour, minute and second.
pub open spec fn timestamp_text(secs: int) -> Seq<char> {
    let (year, month, day) = date_of(quotient(secs, 86400));
    let rem = remainder(secs, 86400);
    padded_signed(year, 4) + padded_signed(month, 2) + padded_signed(day, 2) + seq!['_']
        + padded_signed(quotient(rem, 3600), 2) + padded_signed(
        quotient(remainder(rem, 3600), 60),
        2,
    ) + padded_signed(remainder(rem, 60), 2)
}

/// The timestamp of the moment `secs` seconds after the start of 1970.
pub fn timestamp_at(secs: i64) -> (out: String)
    ensures
        out@ == timestamp_text(secs as int),
{
    let days: i64 = secs / 86400;
    assert(days == quotient(secs as int, 86400));
    let (y, m, d) = epoch_to_ymd(days);
    proof {
        let date = (y as int, m as int, d as int);
        assert(is_date(date.0, date.1, date.2) && days_since_epoch(date.0, date.1, date.2) == days);
        let chosen = date_of(days as int);
        dates_are_unique(chosen.0, chosen.1, chosen.2, date.0, date.1, date.2);
    }
    let rem: i64 = secs % 86400;
    assert(rem == remainder(secs as int, 86400));
    let hh: i64 = rem / 3600;
    let mm: i64 = (rem % 3600) / 60;
    let ss: i64 = rem % 60;
    let mut out = String::new();
    push_padded_signed(&mut out, y, 4);
    push_padded_signed(&mut out, m, 2);
    push_padded_signed(&mut out, d, 2);
    out.push('_');
    push_padded_signed(&mut out, hh, 2);
    push_padded_signed(&mut out, mm, 2);
    push_padded_signed(&mut out, ss, 2);
    assert(out@ =~= timestamp_text(secs as int));
    out
}

/// `SystemTime::elapsed` of the start of 1970, as whole seconds; none where the clock stands
/// before that. The clock decides what comes back, so nothing is claimed of it.
#[verifier::external_body]
fn clock_seconds() -> (secs: Option<u64>) {
    match std::time::UNIX_EPOCH.elapsed() {
        Ok(since) => Some(since.as_secs()),
        Err(_) => None,
    }
}

/// The moment that a reading of the clock stands for; a clock before the start of 1970
/// counts as standing there.
pub open spec fn reading_seconds(reading: Option<u64>) -> int {
    match reading {
        Some(secs) => (secs as i64) as int,
        None => 0,
    }
}

/// The timestamp of the moment that a reading of the clock gives.
pub fn timestamp_of_reading(reading: Option<u64>) -> (out: String)
    ensures
        out@ == timestamp_text(reading_seconds(reading)),
{
    let secs: u64 = match reading {
        Some(secs) => secs,
        None => 0,
    };
    timestamp_at(secs as i64)
}

/// The timestamp of the moment that the given clock shows: that of the very reading which
/// the clock gives when it is asked.
fn timestamp_by<F: Fn() -> Option<u64>>(clock: F) -> (out: String)
    requires
        call_requires(clock, ()),
    ensures
        exists|reading: Option<u64>| #[trigger]
            call_ensures(clock, (), reading) && out@ == timestamp_text(reading_seconds(reading)),
{
    let reading = clock();
    timestamp_of_reading(reading)
}

/// Whether the clock may have given this reading when it was asked.
pub closed spec fn is_clock_reading(reading: Option<u64>) -> bool {
    call_ensures(clock_seconds, (), reading)
}

/// A reading is the clock's exactly if it came back from a call that asked the clock;
/// nothing that is worked out from such a reading counts as one.
proof fn only_the_clock_gives_readings(reading: Option<u64>)
    ensures
        is_clock_reading(reading) <==> call_ensures(clock_seconds, (), reading),
{
}

/// The timestamp of the present moment: that of the reading which the clock gave in this
/// call, and of no other.
pub fn make_timestamp() -> (out: String)
    ensures
        exists|reading: Option<u64>| out@ == timestamp_text(#[trigger] reading_seconds(reading)),
        exists|reading: Option<u64>| #[trigger]
            is_clock_reading(reading) && out@ == timestamp_text(reading_seconds(reading)),
{
    let out = timestamp_by(clock_seconds);
    proof {
        let reading = choose|reading: Option<u64>| #[trigger]
            call_ensures(clock_seconds, (), reading) && out@ == timestamp_text(
                reading_seconds(reading),
            );
        only_the_clock_gives_readings(reading);
        assert(is_clock_reading(reading) && out@ == timestamp_text(reading_seconds(reading)));
    }
    out
}

/// The number that a row of decimal digits stands for.
spec fn value(digits: Seq<char>) -> nat
    decreases digits.len(),
{
    if digits.len() == 0 {
        0
    } else {
        10 * value(digits.drop_last()) + (digits.last() as nat - 48) as nat
    }
}

proof fn value_of_zeros(count: nat)
    ensures
        value(zeros(count)) == 0,
    decreases count,
{
    if count > 0 {
        value_of_zeros((count - 1) as nat);
        assert(zeros(count).drop_last() =~= zeros((count - 1) as nat));
    }
}

proof fn value_of_decimal(front: nat, n: nat)
    ensures
        value(zeros(front) + decimal(n)) == n,
    decreases n,
{
    let s = zeros(front) + decimal(n);
    if n < 10 {
        assert(s.drop_last() =~= zeros(front));
        value_of_zeros(front);
    } else {
        value_of_decimal(front, n / 10);
        assert(s.drop_last() =~= zeros(front) + decimal(n / 10));
        decimal_is_digits(n / 10);
        assert(s.last() == digit(n % 10));
    }
}

proof fn value_of_padded(n: nat, width: nat)
    ensures
        value(padded(n, width)) == n,
{
    let len = decimal(n).len();
    if len < width {
        value_of_decimal((width - len) as nat, n);
    } else {
        value_of_decimal(0, n);
        assert(zeros(0) + decimal(n) =~= decimal(n));
    }
}

proof fn two_places(n: nat)
    requires
        n < 100,
    ensures
        padded(n, 2).len() == 2,
{
    reveal_with_fuel(decimal, 3);
}

proof fn padded_is_injective(a: nat, b: nat, width: nat)
    requires
        padded(a, width) == padded(b, width),
    ensures
        a == b,
{
    value_of_padded(a, width);
    value_of_padded(b, width);
}

proof fn same_ends(a1: Seq<char>, e1: Seq<char>, a2: Seq<char>, e2: Seq<char>)
    requires
        a1 + e1 == a2 + e2,
        e1.len() == e2.len(),
    ensures
        a1 == a2,
        e1 == e2,
{
    assert((a1 + e1).len() == (a2 + e2).len());
    assert(a1 =~= (a1 + e1).take(a1.len() as int));
    assert(a2 =~= (a2 + e2).take(a2.len() as int));
    assert(e1 =~= (a1 + e1).skip(a1.len() as int));
    assert(e2 =~= (a2 + e2).skip(a2.len() as int));
}

/// From 1970 on, the date of a day is a date of the calendar, and its year is 1970 or later.
proof fn date_of_day(days: int)
    requires
        days >= 0,
    ensures
        ({
            let (year, month, day) = date_of(days);
            &&& is_date(year, month, day)
            &&& days_since_epoch(year, month, day) == days
            &&& year >= 1970
        }),
{
    let date = every_day_has_a_date(days);
    let chosen = date_of(days);
    dates_are_unique(chosen.0, chosen.1, chosen.2, date.0, date.1, date.2);
}

/// No two moments, at or after the start of 1970, have the same timestamp; so each run
/// started in a second of its own has a trash folder of its own.
pub proof fn timestamps_differ(s1: int, s2: int)
    requires
        0 <= s1 <= i64::MAX,
        0 <= s2 <= i64::MAX,
        timestamp_text(s1) == timestamp_text(s2),
    ensures
        s1 == s2,
{
    let (y1, m1, d1) = date_of(s1 / 86400);
    let (y2, m2, d2) = date_of(s2 / 86400);
    date_of_day(s1 / 86400);
    date_of_day(s2 / 86400);
    let r1 = s1 % 86400;
    let r2 = s2 % 86400;
    let (h1, n1, c1) = (r1 / 3600, (r1 % 3600) / 60, r1 % 60);
    let (h2, n2, c2) = (r2 / 3600, (r2 % 3600) / 60, r2 % 60);
    two_places(m1 as nat);
    two_places(m2 as nat);
    two_places(d1 as nat);
    two_places(d2 as nat);
    two_places(h1 as nat);
    two_places(h2 as nat);
    two_places(n1 as nat);
    two_places(n2 as nat);
    two_places(c1 as nat);
    two_places(c2 as nat);
    let (a1, a2) = (padded(y1 as nat, 4), padded(y2 as nat, 4));
    let (b1, b2) = (a1 + padded(m1 as nat, 2), a2 + padded(m2 as nat, 2));
    let (e1, e2) = (b1 + padded(d1 as nat, 2), b2 + padded(d2 as nat, 2));
    let (f1, f2) = (e1 + seq!['_'], e2 + seq!['_']);
    let (g1, g2) = (f1 + padded(h1 as nat, 2), f2 + padded(h2 as nat, 2));
    let (k1, k2) = (g1 + padded(n1 as nat, 2), g2 + padded(n2 as nat, 2));
    assert(timestamp_text(s1) == k1 + padded(c1 as nat, 2));
    assert(timestamp_text(s2) == k2 + padded(c2 as nat, 2));
    same_ends(k1, padded(c1 as nat, 2), k2, padded(c2 as nat, 2));
    same_ends(g1, padded(n1 as nat, 2), g2, padded(n2 as nat, 2));
    same_ends(f1, padded(h1 as nat, 2), f2, padded(h2 as nat, 2));
    same_ends(e1, seq!['_'], e2, seq!['_']);
    same_ends(b1, padded(d1 as nat, 2), b2, padded(d2 as nat, 2));
    same_ends(a1, padded(m1 as nat, 2), a2, padded(m2 as nat, 2));
    padded_is_injective(y1 as nat, y2 as nat, 4);
    padded_is_injective(m1 as nat, m2 as nat, 2);
    padded_is_injective(d1 as nat, d2 as nat, 2);
    padded_is_injective(h1 as nat, h2 as nat, 2);
    padded_is_injective(n1 as nat, n2 as nat, 2);
    padded_is_injective(c1 as nat, c2 as nat, 2);
    assert(r1 == 3600 * h1 + 60 * n1 + c1);
    assert(r2 == 3600 * h2 + 60 * n2 + c2);
}

/// A reading of the clock stands for that many seconds after the start of 1970, as far as 63
/// bits hold them; a clock that stands before that counts as standing there.
pub proof fn readings_are_taken_as_they_are(secs: u64)
    ensures
        secs <= i64::MAX ==> reading_seconds(Some(secs)) == secs,
        secs > i64::MAX ==> reading_seconds(Some(secs)) == secs - 0x1_0000_0000_0000_0000,
        reading_seconds(None) == 0,
{
    assert(secs > 0x7fff_ffff_ffff_ffff ==> (secs as i64) == secs - 0x1_0000_0000_0000_0000)
        by (bit_vector);
}

/// The moment can be read off its timestamp: the digits before the underscore are those of a
/// date, two for the day, two for the month and the others for the year; those behind it are
/// the hour, the minute and the second; and together they make up the moment.
pub proof fn timestamp_tells_its_moment(secs: int)
    requires
        0 <= secs <= i64::MAX,
    ensures
        ({
            let text = timestamp_text(secs);
            let read = |from: int, to: int|
                text.subrange(from, to).fold_left(
                    0int,
                    |read: int, c: char| 10 * read + (c as int - '0' as int),
                );
            let end = text.len() as int;
            let (year, month, day) = (read(0, end - 11), read(end - 11, end - 9), read(
                end - 9,
                end - 7,
            ));
            let (hour, minute, second) = (read(end - 6, end - 4), read(end - 4, end - 2), read(
                end - 2,
                end,
            ));
            &&& end >= 15
            &&& text[end - 7] == '_'
            &&& text[0] != '0'
            &&& forall|i: int|
                0 <= i < end && i != end - 7 ==> '0' <= #[trigger] text[i] <= '9'
            &&& is_date(year, month, day)
            &&& 0 <= hour < 24 && 0 <= minute < 60 && 0 <= second < 60
            &&& 86400 * days_since_epoch(year, month, day) + 3600 * hour + 60 * minute + second
                == secs
        }),
{
    let text = timestamp_text(secs);
    let end = text.len() as int;
    let (y, m, d) = date_of(secs / 86400);
    date_of_day(secs / 86400);
    let r = secs % 86400;
    let (h, n, c) = (r / 3600, (r % 3600) / 60, r % 60);
    two_places(m as nat);
    two_places(d as nat);
    two_places(h as nat);
    two_places(n as nat);
    two_places(c as nat);
    let (yt, mt, dt) = (padded(y as nat, 4), padded(m as nat, 2), padded(d as nat, 2));
    let (ht, nt, ct) = (padded(h as nat, 2), padded(n as nat, 2), padded(c as nat, 2));
    padded_reads_back(y as nat, 4);
    padded_reads_back(m as nat, 2);
    padded_reads_back(d as nat, 2);
    padded_reads_back(h as nat, 2);
    padded_reads_back(n as nat, 2);
    padded_reads_back(c as nat, 2);
    four_places(y as nat);
    decimal_reads_back(y as nat);
    assert(text == yt + mt + dt + seq!['_'] + ht + nt + ct);
    assert(text.subrange(0, end - 11) =~= yt);
    assert(text.subrange(end - 11, end - 9) =~= mt);
    assert(text.subrange(end - 9, end - 7) =~= dt);
    assert(text.subrange(end - 6, end - 4) =~= ht);
    assert(text.subrange(end - 4, end - 2) =~= nt);
    assert(text.subrange(end - 2, end) =~= ct);
    assert(text[0] == yt[0]);
    assert forall|i: int| 0 <= i < end && i != end - 7 implies '0' <= #[trigger] text[i] <= '9' by {
        let w = end - 11;
        if i < w {
            assert(text[i] == yt[i]);
        } else if i < w + 2 {
            assert(text[i] == mt[i - w]);
        } else if i < w + 4 {
            assert(text[i] == dt[i - w - 2]);
        } else if i < w + 7 {
            assert(text[i] == ht[i - w - 5]);
        } else if i < w + 9 {
            assert(text[i] == nt[i - w - 7]);
        } else {
            assert(text[i] == ct[i - w - 9]);
        }
    }
    assert(r == 3600 * h + 60 * n + c);
}

proof fn four_places(n: nat)
    requires
        n >= 1000,
    ensures
        decimal(n).len() >= 4,
        padded(n, 4) == decimal(n),
{
    reveal_with_fuel(decimal, 4);
    decimal_is_digits(n / 10 / 10 / 10);
}

/// A moment before 1970 is counted back from there: full days give the date, and what is left
/// over gives hour, minute and second, each with its sign.
pub proof fn timestamp_counts_back(secs: int) -> (date: (int, int, int))
    requires
        secs < 0,
    ensures
        is_date(date.0, date.1, date.2),
        days_since_epoch(date.0, date.1, date.2) == -((-secs) / 86400),
        timestamp_text(secs) == padded_signed(date.0, 4) + padded_signed(date.1, 2) + padded_signed(
            date.2,
            2,
        ) + seq!['_'] + padded_signed(-((-secs) % 86400 / 3600), 2) + padded_signed(
            -((-secs) % 3600 / 60),
            2,
        ) + padded_signed(-((-secs) % 60), 2),
{
    let days = -((-secs) / 86400);
    let date = every_day_has_a_date(days);
    let chosen = date_of(days);
    dates_are_unique(chosen.0, chosen.1, chosen.2, date.0, date.1, date.2);
    let rem = -((-secs) % 86400);
    assert((-rem) % 3600 == (-secs) % 3600);
    assert((-rem) % 60 == (-secs) % 60);
    date
}

} // verus!
