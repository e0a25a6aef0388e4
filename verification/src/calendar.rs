//! Points in time, the bot's coarse day count, and the dates it shows.
use vstd::prelude::*;
use chrono::{DateTime, Datelike, Utc};

verus! {

/// A point in time (UTC) with the calendar fields that the rules read: the seconds and
/// nanoseconds since the Unix epoch, and the year, month and day of that instant in UTC.
#[derive(Clone, Copy, Debug, PartialEq, Eq)]
pub struct Moment {
    pub secs: i64,
    pub nanos: u32,
    pub year: i32,
    pub month: u32,
    pub day: u32,
}

/// The earliest second that a `chrono` UTC date-time holds (-262143-01-01 00:00:00).
pub const MIN_SECS: i64 = -8334601315200;

/// The latest second that a `chrono` UTC date-time holds (262142-12-31 23:59:59).
pub const MAX_SECS: i64 = 8210266876799;

/// Whether `y` is a leap year of the Gregorian calendar.
pub open spec fn leap_year(y: int) -> bool {
    (y % 4 == 0 && y % 100 != 0) || y % 400 == 0
}

/// The number of days of month `m` (1 to 12) of year `y`.
pub open spec fn days_in_month(y: int, m: int) -> int {
    if m == 2 {
        if leap_year(y) {
            29
        } else {
            28
        }
    } else if m == 4 || m == 6 || m == 9 || m == 11 {
        30
    } else {
        31
    }
}

/// The days of the years that start in March before the one that starts in March of `y1`,
/// counted from the March of year 0.
#[verifier::opaque]
pub open spec fn march_year_days(y1: int) -> int {
    365 * y1 + y1 / 4 - y1 / 100 + y1 / 400
}

/// The days of the months before month `mp` of a year that starts in March (`mp` 0 is March).
pub open spec fn march_month_days(mp: int) -> int {
    (153 * mp + 2) / 5
}

/// The number of days from 1970-01-01 to the date `y`-`m`-`d` (negative before it): years are
/// counted from March, so that the leap day ends a year.
pub open spec fn days_from_civil(y: int, m: int, d: int) -> int {
    let y1 = if m <= 2 {
        y - 1
    } else {
        y
    };
    let mp = if m > 2 {
        m - 3
    } else {
        m + 9
    };
    march_year_days(y1) + march_month_days(mp) + d - 1 - 719468
}

impl Moment {
    /// Every `chrono` UTC date-time has fields of this shape: seconds in its range, fewer than
    /// two billion nanoseconds (a billion or more only within a leap second), a year in its
    /// range, and the date of the day on which the instant falls (in the proleptic Gregorian
    /// calendar, the day count being the seconds divided by 86400, rounded down).
    pub open spec fn wf(self) -> bool {
        &&& MIN_SECS <= self.secs <= MAX_SECS
        &&& self.nanos < 2_000_000_000
        &&& self.nanos >= 1_000_000_000 ==> self.secs % 60 == 59
        &&& 1 <= self.month <= 12
        &&& 1 <= self.day <= days_in_month(self.year as int, self.month as int)
        &&& -262143 <= self.year <= 262142
        &&& days_from_civil(self.year as int, self.month as int, self.day as int) == (self.secs as int) / 86400
    }

    /// `self` comes strictly after `other`.
    pub open spec fn after(self, other: Moment) -> bool {
        self.secs > other.secs || (self.secs == other.secs && self.nanos > other.nanos)
    }

    /// The bot's day count: every month counts as 30 days.
    pub open spec fn day_index(self) -> int {
        (self.year * 12 + self.month) * 30 + self.day
    }
}

/// The later of two points in time; the second one where they are the same instant (as
/// `Ord::max` answers).
pub open spec fn later_of(a: Moment, b: Moment) -> Moment {
    if a.after(b) {
        a
    } else {
        b
    }
}

/// The later of `a` and `b` (`Ord::max` on date-times).
pub fn latest(a: Moment, b: Moment) -> (m: Moment)
    ensures
        m == later_of(a, b),
{
    if a.secs > b.secs || (a.secs == b.secs && a.nanos > b.nanos) {
        a
    } else {
        b
    }
}

/// The current time.
///
/// Trusted: `Utc::now` reads the system clock; only the shape of the answer is known, not which
/// instant it is: `timestamp` and `timestamp_subsec_nanos` give the instant in chrono's range,
/// and `year`, `month` and `day` the UTC date of the day on which it falls (see `Moment::wf`).
#[verifier::external_body]
pub(crate) fn now() -> (m: Moment)
    ensures
        m.wf(),
{
    let t = Utc::now();
    Moment {
        secs: t.timestamp(),
        nanos: t.timestamp_subsec_nanos(),
        year: t.year(),
        month: t.month(),
        day: t.day(),
    }
}

/// Whether more than `days_limit` days (in the bot's day count) separate `atual` from the later
/// of `antigo` and `data_bot`.
pub open spec fn inactive_too_long(atual: Moment, antigo: Moment, data_bot: Moment, days_limit: int) -> bool {
    atual.day_index() - later_of(antigo, data_bot).day_index() > days_limit
}

/// Whether more than `days_redis` days (every month counted as 30 days) have passed from the
/// later of `antigo` and `data_bot` to `atual`.
pub fn months_diff(atual: Moment, antigo: Moment, data_bot: Moment, days_redis: i32) -> (b: bool)
    requires
        atual.wf(),
        antigo.wf(),
        data_bot.wf(),
    ensures
        b == inactive_too_long(atual, antigo, data_bot, days_redis as int),
{
    let data_comp = latest(antigo, data_bot);
    let days = (((atual.year * 12) + atual.month as i32) * 30) + atual.day as i32 - ((((
    data_comp.year * 12) + data_comp.month as i32) * 30) + data_comp.day as i32);
    days > days_redis
}

/// No time has passed within one day: with a non-negative allowance, a member active on the
/// day of `atual` is never inactive too long.
pub proof fn lemma_same_day_not_inactive(atual: Moment, antigo: Moment, days_limit: int)
    requires
        days_limit >= 0,
        antigo.day_index() == atual.day_index(),
    ensures
        !inactive_too_long(atual, antigo, antigo, days_limit),
{
}

/// Inactivity only grows with time: a member inactive too long at `atual` is still inactive too
/// long at any later day count `later`.
pub proof fn lemma_inactivity_grows(atual: Moment, later: Moment, antigo: Moment, data_bot: Moment, days_limit: int)
    requires
        atual.day_index() <= later.day_index(),
        inactive_too_long(atual, antigo, data_bot, days_limit),
    ensures
        inactive_too_long(later, antigo, data_bot, days_limit),
{
}

/// A valid date: a month from 1 to 12 and a day of that month.
pub open spec fn valid_date(y: int, m: int, d: int) -> bool {
    1 <= m <= 12 && 1 <= d <= days_in_month(y, m)
}

/// The date `y1`-`m1`-`d1` comes before `y2`-`m2`-`d2`.
pub open spec fn date_before(y1: int, m1: int, d1: int, y2: int, m2: int, d2: int) -> bool {
    y1 < y2 || (y1 == y2 && (m1 < m2 || (m1 == m2 && d1 < d2)))
}

/// A year that starts in March has 365 days, and one more when the February that ends it has
/// a leap day.
proof fn lemma_march_year(y: int)
    ensures
        march_year_days(y) == march_year_days(y - 1) + 365 + (if leap_year(y) { 1int } else { 0int }),
{
    reveal(march_year_days);
    assert(y / 4 - (y - 1) / 4 == (if y % 4 == 0 { 1int } else { 0int }));
    assert(y / 100 - (y - 1) / 100 == (if y % 100 == 0 { 1int } else { 0int }));
    assert(y / 400 - (y - 1) / 400 == (if y % 400 == 0 { 1int } else { 0int }));
}

/// The first day of a month comes right after the last day of the month before.
proof fn lemma_next_month(y: int, m: int)
    requires
        1 <= m < 12,
    ensures
        days_from_civil(y, m + 1, 1) == days_from_civil(y, m, days_in_month(y, m)) + 1,
{
    if m == 1 {
        assert(march_month_days(11) - march_month_days(10) == 31);
    } else if m == 2 {
        lemma_march_year(y);
        assert(march_month_days(0) == 0 && march_month_days(11) == 337);
    } else {
        assert(march_month_days(m - 2) - march_month_days(m - 3) == days_in_month(y, m));
    }
}

/// The first day of a year comes right after the last day of the year before.
proof fn lemma_next_year(y: int)
    ensures
        days_from_civil(y + 1, 1, 1) == days_from_civil(y, 12, 31) + 1,
{
    assert(march_month_days(10) == 306 && march_month_days(9) == 275);
}

proof fn lemma_months_order(y: int, m1: int, m2: int)
    requires
        1 <= m1 < m2 <= 12,
    ensures
        days_from_civil(y, m1, days_in_month(y, m1)) < days_from_civil(y, m2, 1),
    decreases m2 - m1,
{
    lemma_next_month(y, m1);
    if m1 + 1 < m2 {
        lemma_months_order(y, m1 + 1, m2);
    }
}

proof fn lemma_year_span(y: int)
    ensures
        days_from_civil(y, 1, 1) < days_from_civil(y, 12, 31),
{
    lemma_months_order(y, 1, 12);
}

proof fn lemma_years_order(y1: int, y2: int)
    requires
        y1 < y2,
    ensures
        days_from_civil(y1, 12, 31) < days_from_civil(y2, 1, 1),
    decreases y2 - y1,
{
    lemma_next_year(y1);
    if y1 + 1 < y2 {
        lemma_year_span(y1 + 1);
        lemma_years_order(y1 + 1, y2);
    }
}

/// A later date has a larger day count.
pub proof fn lemma_days_from_civil_strict(y1: int, m1: int, d1: int, y2: int, m2: int, d2: int)
    requires
        valid_date(y1, m1, d1),
        valid_date(y2, m2, d2),
        date_before(y1, m1, d1, y2, m2, d2),
    ensures
        days_from_civil(y1, m1, d1) < days_from_civil(y2, m2, d2),
{
    if y1 < y2 {
        if m1 < 12 {
            lemma_months_order(y1, m1, 12);
        }
        lemma_years_order(y1, y2);
        if m2 > 1 {
            lemma_months_order(y2, 1, m2);
        }
    } else if m1 < m2 {
        lemma_months_order(y1, m1, m2);
    }
}

/// Of two moments, the one at the later second has the later (or the same) date, and so a day
/// count at least as large; moments at the same second have the same date.
pub proof fn lemma_date_order(a: Moment, b: Moment)
    requires
        a.wf(),
        b.wf(),
        a.secs <= b.secs,
    ensures
        a.day_index() <= b.day_index(),
        a.secs == b.secs ==> a.year == b.year && a.month == b.month && a.day == b.day,
{
    assert((a.secs as int) / 86400 <= (b.secs as int) / 86400) by {
        vstd::arithmetic::div_mod::lemma_div_is_ordered(a.secs as int, b.secs as int, 86400);
    }
    if date_before(b.year as int, b.month as int, b.day as int, a.year as int, a.month as int, a.day as int) {
        lemma_days_from_civil_strict(
            b.year as int,
            b.month as int,
            b.day as int,
            a.year as int,
            a.month as int,
            a.day as int,
        );
    }
    if a.secs == b.secs && date_before(
        a.year as int,
        a.month as int,
        a.day as int,
        b.year as int,
        b.month as int,
        b.day as int,
    ) {
        lemma_days_from_civil_strict(
            a.year as int,
            a.month as int,
            a.day as int,
            b.year as int,
            b.month as int,
            b.day as int,
        );
    }
}

/// Only the later of the last activity and the bot's arrival counts: giving the two the other
/// way round gives the same answer.
pub proof fn lemma_only_the_later_counts(atual: Moment, antigo: Moment, data_bot: Moment, days_limit: int)
    requires
        antigo.wf(),
        data_bot.wf(),
    ensures
        inactive_too_long(atual, antigo, data_bot, days_limit) == inactive_too_long(
            atual,
            data_bot,
            antigo,
            days_limit,
        ),
{
    if antigo.secs == data_bot.secs {
        lemma_date_order(antigo, data_bot);
    }
}

/// Inactivity can only set in: at a later instant, with no more days allowed, a member
/// inactive too long stays inactive too long.
pub proof fn lemma_inactive_later(
    atual: Moment,
    later: Moment,
    antigo: Moment,
    data_bot: Moment,
    fewer_days: int,
    days_limit: int,
)
    requires
        atual.wf(),
        later.wf(),
        atual.secs <= later.secs,
        fewer_days <= days_limit,
        inactive_too_long(atual, antigo, data_bot, days_limit),
    ensures
        inactive_too_long(later, antigo, data_bot, fewer_days),
{
    lemma_date_order(atual, later);
}

/// What `chrono` writes for the instant `secs`/`nanos` in the São Paulo time zone with the
/// pattern `%d/%m/%Y %H:%M`.
pub uninterp spec fn sao_paulo_text(secs: int, nanos: nat) -> Seq<char>;

/// The date and time of `data` in São Paulo, as "dd/mm/yyyy HH:MM".
///
/// Trusted: `DateTime::from_timestamp` accepts every instant of the shape `Moment::wf`
/// describes; `with_timezone` to `America/Sao_Paulo` and `format` then write a text that
/// depends on the instant alone (the zone rules are compiled into `chrono-tz`).
#[verifier::external_body]
pub fn get_data_br(data: Moment) -> (s: String)
    requires
        data.wf(),
    ensures
        s@ == sao_paulo_text(data.secs as int, data.nanos as nat),
{
    let utc = DateTime::from_timestamp(data.secs, data.nanos).unwrap_or_default();
    utc.with_timezone(&chrono_tz::America::Sao_Paulo).format("%d/%m/%Y %H:%M").to_string()
}

} // verus!
