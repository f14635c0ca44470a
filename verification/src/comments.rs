//! Comments with their lifecycle: an id, an author, a status and the time of writing.
use crate::model::{Comment, CommentView};
use crate::text;
use crate::text::push_decimal;
use std::time::{Duration, SystemTime, SystemTimeError};
use vstd::prelude::*;

verus! {

/// Who wrote a comment: the user in the terminal, or the coding agent.
#[derive(Clone, Copy, Debug, PartialEq, Eq, Structural)]
pub enum Author {
    User,
    Agent,
}

/// Whether a comment still wants attention.
#[derive(Clone, Copy, Debug, PartialEq, Eq, Structural)]
pub enum Status {
    Open,
    Resolved,
}

/// A comment with its lifecycle metadata.
#[derive(Clone, Debug, PartialEq, Eq)]
pub struct StoredComment {
    /// `c-<epoch-ms>-<4 hex>`.
    pub id: String,
    pub author: Author,
    pub status: Status,
    /// ISO-8601, in UTC.
    pub created_at: String,
    pub comment: Comment,
}

/// What a stored comment says.
pub struct StoredView {
    pub id: Seq<char>,
    pub author: Author,
    pub status: Status,
    pub created_at: Seq<char>,
    pub comment: CommentView,
}

impl View for StoredComment {
    type V = StoredView;

    open spec fn view(&self) -> StoredView {
        StoredView {
            id: self.id@,
            author: self.author,
            status: self.status,
            created_at: self.created_at@,
            comment: self.comment@,
        }
    }
}

/// `std::time::SystemTime`, a reading of the system clock.
#[verifier::external_type_specification]
#[verifier::external_body]
pub struct ExSystemTime(std::time::SystemTime);

/// `std::time::SystemTimeError`, for a clock that reads before the Unix epoch.
#[verifier::external_type_specification]
#[verifier::external_body]
pub struct ExSystemTimeError(std::time::SystemTimeError);

/// How far a time lies behind the Unix epoch; nothing where it lies before it.
pub uninterp spec fn epoch_distance(t: SystemTime) -> Option<Duration>;

/// The whole seconds of a duration.
pub uninterp spec fn whole_seconds(d: Duration) -> u64;

/// The nanoseconds of a duration beyond its whole seconds.
pub uninterp spec fn nanos_beyond(d: Duration) -> u32;

/// `std::time::SystemTime::now`. Nothing is claimed of the time that it reads.
pub assume_specification[ std::time::SystemTime::now ]() -> (r: SystemTime)
;

/// `std::time::SystemTime::duration_since` with the Unix epoch as the earlier time: the distance
/// of `t` from the epoch, or an error where `t` lies before it.
#[verifier::external_body]
pub(crate) fn since_epoch(t: SystemTime) -> (r: Result<Duration, SystemTimeError>)
    ensures
        match r {
            Ok(d) => epoch_distance(t) == Some(d),
            Err(_) => epoch_distance(t) == None::<Duration>,
        },
{
    t.duration_since(SystemTime::UNIX_EPOCH)
}

/// `std::time::Duration::as_secs`: the whole seconds of a duration.
pub assume_specification[ std::time::Duration::as_secs ](d: &Duration) -> (r: u64)
    ensures
        r == whole_seconds(*d),
;

/// `std::time::Duration::subsec_nanos`: the part below a second, less than a thousand million
/// nanoseconds.
pub assume_specification[ std::time::Duration::subsec_nanos ](d: &Duration) -> (r: u32)
    ensures
        r == nanos_beyond(*d),
        r < 1_000_000_000,
;

/// The seconds and nanoseconds from the Unix epoch to `t`; zero where `t` lies before it.
pub open spec fn epoch_parts(t: SystemTime) -> (u64, u32) {
    match epoch_distance(t) {
        Some(d) => (whole_seconds(d), nanos_beyond(d)),
        None => (0, 0),
    }
}

/// The seconds and nanoseconds from the Unix epoch to `t`; zero where `t` lies before it.
pub fn parts_of(t: SystemTime) -> (r: (u64, u32))
    ensures
        r == epoch_parts(t),
        r.1 < 1_000_000_000,
{
    match since_epoch(t) {
        Ok(d) => (d.as_secs(), d.subsec_nanos()),
        Err(_) => (0, 0),
    }
}

/// The seconds and nanoseconds since the Unix epoch, of some reading of the clock; zero where
/// the clock reads before it.
fn clock() -> (r: (u64, u32))
    ensures
        exists|t: SystemTime| r == #[trigger] epoch_parts(t),
        r.1 < 1_000_000_000,
{
    parts_of(SystemTime::now())
}

/// The lower-case hexadecimal digit of `d`.
pub open spec fn hex_digit(d: nat) -> char {
    if d < 10 {
        (0x30 + d) as char
    } else {
        (0x57 + d) as char
    }
}

/// The four lower-case hexadecimal digits of a 16-bit number.
pub open spec fn hex4(n: u16) -> Seq<char> {
    seq![
        hex_digit((n / 4096) as nat),
        hex_digit((n / 256 % 16) as nat),
        hex_digit((n / 16 % 16) as nat),
        hex_digit((n % 16) as nat),
    ]
}

/// The id of a comment written at `millis` milliseconds since the epoch, told apart from others
/// of the same millisecond by `tag`.
pub open spec fn id_text(millis: nat, tag: u16) -> Seq<char> {
    seq!['c', '-'] + text::decimal(millis) + seq!['-'] + hex4(tag)
}

fn push_hex(out: &mut String, d: u16)
    requires
        d < 16,
    ensures
        final(out)@ == old(out)@.push(hex_digit(d as nat)),
{
    let c: u8 = if d < 10 {
        0x30u8 + d as u8
    } else {
        0x57u8 + d as u8
    };
    out.push(c as char);
}

/// The id of a comment written at `millis` milliseconds since the epoch.
pub fn id_of(millis: u128, tag: u16) -> (r: String)
    ensures
        r@ == id_text(millis as nat, tag),
{
    let mut out: String = String::new();
    out.push('c');
    out.push('-');
    push_decimal(&mut out, millis);
    out.push('-');
    push_hex(&mut out, tag / 4096);
    push_hex(&mut out, tag / 256 % 16);
    push_hex(&mut out, tag / 16 % 16);
    push_hex(&mut out, tag % 16);
    assert(out@ =~= id_text(millis as nat, tag));
    out
}

/// Whether `y` is a leap year.
pub open spec fn leap(y: nat) -> bool {
    y % 4 == 0 && (y % 100 != 0 || y % 400 == 0)
}

/// The days of year `y`.
pub open spec fn year_days(y: nat) -> nat {
    if leap(y) {
        366
    } else {
        365
    }
}

/// The days of month `m` of year `y`.
pub open spec fn month_days(y: nat, m: nat) -> nat {
    if m == 2 {
        if leap(y) {
            29
        } else {
            28
        }
    } else if m == 4 || m == 6 || m == 9 || m == 11 {
        30
    } else {
        31
    }
}

/// The days from the start of 1970 to the start of year `y`.
pub open spec fn days_to_year(y: nat) -> nat
    decreases y,
{
    if y <= 1970 {
        0
    } else {
        days_to_year((y - 1) as nat) + year_days((y - 1) as nat)
    }
}

/// The days from the start of year `y` to the start of its month `m`.
pub open spec fn days_to_month(y: nat, m: nat) -> nat
    decreases m,
{
    if m <= 1 {
        0
    } else {
        days_to_month(y, (m - 1) as nat) + month_days(y, (m - 1) as nat)
    }
}

/// A day of the calendar.
#[derive(Clone, Copy, Debug, PartialEq, Eq, Structural)]
pub struct Date {
    pub year: u64,
    pub month: u8,
    pub day: u8,
}

impl Date {
    /// Whether the calendar has this day, in 1970 or later.
    pub open spec fn valid(self) -> bool {
        &&& 1970 <= self.year
        &&& 1 <= self.month <= 12
        &&& 1 <= self.day <= month_days(self.year as nat, self.month as nat)
    }

    /// How many days after the first of January 1970 this day is.
    pub open spec fn number(self) -> int {
        days_to_year(self.year as nat) + days_to_month(self.year as nat, self.month as nat)
            + self.day - 1
    }
}

proof fn lemma_days_to_year_grow(a: nat, b: nat)
    requires
        1970 <= a < b,
    ensures
        days_to_year(a) + year_days(a) <= days_to_year(b),
    decreases b,
{
    if a + 1 < b {
        lemma_days_to_year_grow(a, (b - 1) as nat);
    }
}

proof fn lemma_days_to_month(y: nat, m: nat)
    requires
        1 <= m <= 12,
    ensures
        days_to_month(y, m) + month_days(y, m) <= year_days(y),
        m == 12 ==> days_to_month(y, m) + month_days(y, m) == year_days(y),
{
    reveal_with_fuel(days_to_month, 13);
}

proof fn lemma_days_to_month_grow(y: nat, a: nat, b: nat)
    requires
        1 <= a < b <= 12,
    ensures
        days_to_month(y, a) + month_days(y, a) <= days_to_month(y, b),
    decreases b,
{
    if a + 1 < b {
        lemma_days_to_month_grow(y, a, (b - 1) as nat);
    }
}

/// Each day of the calendar has a number of its own.
pub proof fn law_day_numbers_tell_days_apart(a: Date, b: Date)
    requires
        a.valid(),
        b.valid(),
        a.number() == b.number(),
    ensures
        a == b,
{
    let (ya, yb) = (a.year as nat, b.year as nat);
    let (ma, mb) = (a.month as nat, b.month as nat);
    lemma_days_to_month(ya, ma);
    lemma_days_to_month(yb, mb);
    if ya < yb {
        lemma_days_to_year_grow(ya, yb);
    } else if yb < ya {
        lemma_days_to_year_grow(yb, ya);
    } else if ma < mb {
        lemma_days_to_month_grow(ya, ma, mb);
    } else if mb < ma {
        lemma_days_to_month_grow(ya, mb, ma);
    }
}

fn is_leap(y: u64) -> (r: bool)
    ensures
        r == leap(y as nat),
{
    y % 4 == 0 && (y % 100 != 0 || y % 400 == 0)
}

fn length_of_month(y: u64, m: u8) -> (r: u8)
    ensures
        r == month_days(y as nat, m as nat),
{
    if m == 2 {
        if is_leap(y) {
            29
        } else {
            28
        }
    } else if m == 4 || m == 6 || m == 9 || m == 11 {
        30
    } else {
        31
    }
}

proof fn lemma_years_take_days(y: nat)
    requires
        1970 <= y,
    ensures
        days_to_year(y) >= 365 * (y - 1970),
    decreases y,
{
    if y > 1970 {
        lemma_years_take_days((y - 1) as nat);
    }
}

/// The day of the calendar that is `days` days after the first of January 1970.
pub fn date_of(days: u64) -> (r: Date)
    ensures
        r.valid(),
        r.number() == days,
{
    let mut year: u64 = 1970;
    let mut left: u64 = days;
    loop
        invariant_except_break
            days_to_year(year as nat) + left == days,
            1970 <= year,
        ensures
            days_to_year(year as nat) + left == days,
            1970 <= year,
            left < year_days(year as nat),
        decreases left,
    {
        let length: u64 = if is_leap(year) {
            366
        } else {
            365
        };
        if left < length {
            break;
        }
        proof {
            lemma_years_take_days(year as nat);
        }
        left = left - length;
        year = year + 1;
    }
    let mut month: u8 = 1;
    loop
        invariant_except_break
            days_to_year(year as nat) + days_to_month(year as nat, month as nat) + left == days,
            1970 <= year,
            1 <= month <= 12,
            days_to_month(year as nat, month as nat) + left < year_days(year as nat),
        ensures
            days_to_year(year as nat) + days_to_month(year as nat, month as nat) + left == days,
            1970 <= year,
            1 <= month <= 12,
            left < month_days(year as nat, month as nat),
        decreases left,
    {
        let length: u64 = length_of_month(year, month) as u64;
        if left < length {
            break;
        }
        proof {
            lemma_days_to_month(year as nat, month as nat);
        }
        left = left - length;
        month = month + 1;
    }
    Date { year, month, day: left as u8 + 1 }
}

/// The decimal numeral of `n` with zeros in front where it has fewer than `width` digits.
pub open spec fn padded(n: nat, width: nat) -> Seq<char> {
    let digits = text::decimal(n);
    if digits.len() < width {
        text::repeated('0', (width - digits.len()) as nat) + digits
    } else {
        digits
    }
}

fn push_padded(out: &mut String, n: u64, width: usize)
    ensures
        final(out)@ == old(out)@ + padded(n as nat, width as nat),
{
    let mut numeral: String = String::new();
    push_decimal(&mut numeral, n as u128);
    let len: usize = numeral.as_str().unicode_len();
    if len < width {
        let zeros: String = text::repeat_char('0', width - len);
        out.append(zeros.as_str());
    }
    out.append(numeral.as_str());
    assert(numeral@ =~= text::decimal(n as nat));
    assert(out@ =~= old(out)@ + padded(n as nat, width as nat));
}

/// `YYYY-MM-DDTHH:MM:SSZ` for `date` and a second of that day.
pub open spec fn iso_text(date: Date, second: nat) -> Seq<char> {
    padded(date.year as nat, 4) + seq!['-'] + padded(date.month as nat, 2) + seq!['-'] + padded(
        date.day as nat,
        2,
    ) + seq!['T'] + padded(second / 3600, 2) + seq![':'] + padded(second / 60 % 60, 2) + seq![':']
        + padded(second % 60, 2) + seq!['Z']
}

/// Whether `s` is the ISO-8601 text of the time `secs` seconds after the epoch.
pub open spec fn is_iso(s: Seq<char>, secs: u64) -> bool {
    exists|date: Date| #[trigger]
        date.valid() && date.number() == secs / 86400 && s == iso_text(
            date,
            (secs % 86400) as nat,
        )
}

/// The ISO-8601 text, in UTC, of the time `secs` seconds after the epoch.
pub fn iso_of(secs: u64) -> (r: String)
    ensures
        is_iso(r@, secs),
{
    let date: Date = date_of(secs / 86400);
    let second: u64 = secs % 86400;
    let mut out: String = String::new();
    push_padded(&mut out, date.year, 4);
    out.push('-');
    push_padded(&mut out, date.month as u64, 2);
    out.push('-');
    push_padded(&mut out, date.day as u64, 2);
    out.push('T');
    push_padded(&mut out, second / 3600, 2);
    out.push(':');
    push_padded(&mut out, second / 60 % 60, 2);
    out.push(':');
    push_padded(&mut out, second % 60, 2);
    out.push('Z');
    assert(out@ =~= iso_text(date, second as nat));
    out
}

/// The number of an id: its milliseconds, and its hexadecimal digits as what comes below them.
pub open spec fn serial_at(parts: (u64, u32)) -> nat {
    ((parts.0 * 1000 + parts.1 as int / 1_000_000) * 65536 + parts.1 as int % 1_000_000 % 65536) as nat
}

/// The id with the number `serial`.
pub open spec fn serial_id(serial: nat) -> Seq<char> {
    id_text(serial / 65536, (serial % 65536) as u16)
}

proof fn lemma_hex_tells_apart(a: u16, b: u16)
    requires
        hex4(a) == hex4(b),
    ensures
        a == b,
{
    law_hex_digits_read_back(a);
    law_hex_digits_read_back(b);
}

/// Ids with different numbers differ.
pub proof fn law_ids_tell_serials_apart(a: nat, b: nat)
    requires
        serial_id(a) == serial_id(b),
    ensures
        a == b,
{
    let (x, y) = (text::decimal(a / 65536), text::decimal(b / 65536));
    let (s, t) = ((a % 65536) as u16, (b % 65536) as u16);
    let (i, j) = (serial_id(a), serial_id(b));
    let n = i.len() as int;
    assert(x.len() == n - 7 && y.len() == n - 7);
    assert(i.subrange(2, n - 5) =~= x);
    assert(j.subrange(2, n - 5) =~= y);
    assert(i.subrange(n - 4, n) =~= hex4(s));
    assert(j.subrange(n - 4, n) =~= hex4(t));
    lemma_hex_tells_apart(s, t);
    text::law_numerals_tell_numbers_apart(a / 65536, b / 65536);
}

/// The id with the number `serial`.
pub fn id_with(serial: u128) -> (r: String)
    ensures
        r@ == serial_id(serial as nat),
{
    id_of(serial / 65536, (serial % 65536) as u16)
}

/// The number of the id of some reading of the clock.
pub(crate) fn clock_serial() -> (r: u128)
    ensures
        exists|t: SystemTime| r == serial_at(#[trigger] epoch_parts(t)),
        r < 0x1_0000_0000_0000_0000_0000_0000,
{
    let (secs, nanos): (u64, u32) = clock();
    let millis: u128 = secs as u128 * 1000 + (nanos / 1_000_000) as u128;
    millis * 65536 + (nanos % 1_000_000 % 65536) as u128
}

/// Whether `s` is the id of some reading of the clock.
pub open spec fn is_id(s: Seq<char>) -> bool {
    exists|t: SystemTime| s == serial_id(serial_at(#[trigger] epoch_parts(t)))
}

/// Whether `s` is the ISO-8601 text of some reading of the clock.
pub open spec fn is_stamp(s: Seq<char>) -> bool {
    exists|t: SystemTime| is_iso(s, (#[trigger] epoch_parts(t)).0)
}

/// A fresh comment id from the clock: `c-<epoch-ms>-<4 hex>`.
pub fn new_id() -> (r: String)
    ensures
        is_id(r@),
{
    id_with(clock_serial())
}

/// The current time as ISO-8601 text.
pub fn now_iso() -> (r: String)
    ensures
        is_stamp(r@),
{
    let (secs, _): (u64, u32) = clock();
    iso_of(secs)
}

/// The months have the lengths of the calendar: February has 29 days in a year that four divides and
/// a hundred does not, or four hundred does, and 28 in any other.
pub proof fn law_months_have_their_lengths(y: nat)
    ensures
        ({
            let long = (y % 4 == 0 && y % 100 != 0) || y % 400 == 0;
            let days = seq![
                31nat,
                if long {
                    29
                } else {
                    28
                },
                31,
                30,
                31,
                30,
                31,
                31,
                30,
                31,
                30,
                31,
            ];
            forall|m: nat| 1 <= m <= 12 ==> #[trigger] month_days(y, m) == days[m - 1]
        }),
{
}

/// Day numbers count days: the first of January 1970 has number zero, a later day of a month is as
/// much further, the day behind the last of a month is the first of the next, and the day behind the
/// last of December is the first of January.
pub proof fn law_day_numbers_count_days(a: Date, b: Date)
    requires
        a.valid(),
        b.valid(),
    ensures
        a.year == 1970 && a.month == 1 && a.day == 1 ==> a.number() == 0,
        a.year == b.year && a.month == b.month ==> b.number() - a.number() == b.day - a.day,
        a.year == b.year && b.month == a.month + 1 && b.day == 1 && a.day == month_days(
            a.year as nat,
            a.month as nat,
        ) ==> b.number() == a.number() + 1,
        b.year == a.year + 1 && a.month == 12 && a.day == 31 && b.month == 1 && b.day == 1
            ==> b.number() == a.number() + 1,
{
    lemma_days_to_month(a.year as nat, 12);
}

proof fn lemma_days_to_year_closed(y: nat)
    requires
        1970 <= y,
    ensures
        days_to_year(y) == 365 * (y - 1970) + (y - 1) / 4 - (y - 1) / 100 + (y - 1) / 400 - 477,
    decreases y,
{
    if y > 1970 {
        lemma_days_to_year_closed((y - 1) as nat);
    }
}

/// Years add up as in the calendar: 365 days for each since 1970, and one more for each leap year.
pub proof fn law_years_add_up(y: nat)
    requires
        1970 <= y,
    ensures
        days_to_year(y) == 365 * (y - 1970) + (y - 1) / 4 - (y - 1) / 100 + (y - 1) / 400 - 477,
        days_to_year(y + 400) == days_to_year(y) + 146097,
{
    lemma_days_to_year_closed(y);
    lemma_days_to_year_closed(y + 400);
}

/// The number that hexadecimal digits in lower case stand for.
pub open spec fn hex_value(s: Seq<char>) -> int
    decreases s.len(),
{
    if s.len() == 0 {
        0
    } else {
        hex_value(s.drop_last()) * 16 + if '0' <= s.last() <= '9' {
            s.last() as int - '0' as int
        } else {
            s.last() as int - 'a' as int + 10
        }
    }
}

/// The hexadecimal digits of a number stand for it: read one by one they give it back, and there are
/// four of them.
pub proof fn law_hex_digits_read_back(n: u16)
    ensures
        hex4(n).len() == 4,
        hex_value(hex4(n)) == n,
        forall|k: int|
            0 <= k < 4 ==> '0' <= #[trigger] hex4(n)[k] <= '9' || 'a' <= hex4(n)[k] <= 'f',
{
    reveal_with_fuel(hex_value, 5);
    let h = hex4(n);
    let (a, b, c, d) = (n / 4096, n / 256 % 16, n / 16 % 16, n % 16);
    assert(h.drop_last() =~= seq![h[0], h[1], h[2]]);
    assert(h.drop_last().drop_last() =~= seq![h[0], h[1]]);
    assert(h.drop_last().drop_last().drop_last() =~= seq![h[0]]);
    assert(h.drop_last().drop_last().drop_last().drop_last() =~= Seq::empty());
    assert(n == ((a * 16 + b) * 16 + c) * 16 + d);
}

/// An id is `c-`, the milliseconds of its number in decimal, a hyphen, and the rest of its number in
/// four hexadecimal digits.
pub proof fn law_ids_hold_their_number(serial: nat)
    ensures
        ({
            let s = serial_id(serial);
            let n = s.len() as int;
            let (millis, tag) = (s.subrange(2, n - 5), s.subrange(n - 4, n));
            &&& n >= 8
            &&& s[0] == 'c' && s[1] == '-' && s[n - 5] == '-'
            &&& text::numeral_value(millis) * 65536 + hex_value(tag) == serial
            &&& 0 <= hex_value(tag) < 65536
        }),
{
    let s = serial_id(serial);
    let n = s.len() as int;
    let (m, t) = (serial / 65536, (serial % 65536) as u16);
    text::law_numerals_read_back(m);
    law_hex_digits_read_back(t);
    assert(s.subrange(2, n - 5) =~= text::decimal(m));
    assert(s.subrange(n - 4, n) =~= hex4(t));
}

/// The number of an id from the clock holds its milliseconds: so many as have gone by since the
/// epoch.
pub proof fn law_ids_hold_the_milliseconds(secs: u64, nanos: u32)
    requires
        nanos < 1_000_000_000,
    ensures
        ({
            let millis = serial_at((secs, nanos)) / 65536;
            &&& millis * 1_000_000 <= secs * 1_000_000_000 + nanos < (millis + 1) * 1_000_000
        }),
{
}

proof fn lemma_zeros_in_front(s: Seq<char>, n: nat)
    ensures
        text::numeral_value(text::repeated('0', n) + s) == text::numeral_value(s),
    decreases s.len(), n,
{
    let all = text::repeated('0', n) + s;
    if s.len() > 0 {
        lemma_zeros_in_front(s.drop_last(), n);
        assert(all.drop_last() =~= text::repeated('0', n) + s.drop_last());
    } else if n > 0 {
        lemma_zeros_in_front(s, (n - 1) as nat);
        assert(all.drop_last() =~= text::repeated('0', (n - 1) as nat) + s);
        assert(all.last() == '0');
    } else {
        assert(all =~= s);
    }
}

/// A number with zeros in front stands for the same number, and takes at least the width asked for.
pub proof fn law_padding_keeps_the_number(n: nat, width: nat)
    ensures
        text::numeral_value(padded(n, width)) == n,
        padded(n, width).len() >= width,
        padded(n, width).len() == width || padded(n, width) == text::decimal(n),
{
    text::law_numerals_read_back(n);
    let digits = text::decimal(n);
    if digits.len() < width {
        lemma_zeros_in_front(digits, (width - digits.len()) as nat);
    }
}

proof fn lemma_two_digits(n: nat)
    requires
        n < 100,
    ensures
        padded(n, 2).len() == 2,
{
    reveal_with_fuel(text::decimal, 3);
}

proof fn lemma_four_digits(n: nat)
    requires
        n < 10000,
    ensures
        padded(n, 4).len() == 4,
{
    reveal_with_fuel(text::decimal, 5);
}

/// A time is written as year, month, day, hour, minute and second, each at its place with its marks
/// between, and these say which second it is.
pub proof fn law_stamps_say_the_time(date: Date, second: nat)
    requires
        date.valid(),
        date.year <= 9999,
        second < 86400,
    ensures
        ({
            let s = iso_text(date, second);
            let field = |a: int, b: int| text::numeral_value(s.subrange(a, b));
            &&& s.len() == 20
            &&& field(0, 4) == date.year
            &&& field(5, 7) == date.month
            &&& field(8, 10) == date.day
            &&& field(11, 13) * 3600 + field(14, 16) * 60 + field(17, 19) == second
            &&& field(14, 16) < 60 && field(17, 19) < 60
            &&& s[4] == '-' && s[7] == '-' && s[10] == 'T'
            &&& s[13] == ':' && s[16] == ':' && s[19] == 'Z'
        }),
{
    let s = iso_text(date, second);
    let (y, mo, d) = (date.year as nat, date.month as nat, date.day as nat);
    let (h, mi, sec) = (second / 3600, second / 60 % 60, second % 60);
    lemma_four_digits(y);
    lemma_two_digits(mo);
    lemma_two_digits(d);
    lemma_two_digits(h);
    lemma_two_digits(mi);
    lemma_two_digits(sec);
    law_padding_keeps_the_number(y, 4);
    law_padding_keeps_the_number(mo, 2);
    law_padding_keeps_the_number(d, 2);
    law_padding_keeps_the_number(h, 2);
    law_padding_keeps_the_number(mi, 2);
    law_padding_keeps_the_number(sec, 2);
    assert(s.subrange(0, 4) =~= padded(y, 4));
    assert(s.subrange(5, 7) =~= padded(mo, 2));
    assert(s.subrange(8, 10) =~= padded(d, 2));
    assert(s.subrange(11, 13) =~= padded(h, 2));
    assert(s.subrange(14, 16) =~= padded(mi, 2));
    assert(s.subrange(17, 19) =~= padded(sec, 2));
    assert(h * 3600 + mi * 60 + sec == second);
}

} // verus!
