//! A span of time, held as Unix timestamps in milliseconds, and the moves the viewer makes
//! on it: panning by days or milliseconds and zooming around a point, never past the end
//! of the current local day.
use vstd::prelude::*;

use crate::clock::{local_day_of, local_midnight_millis, local_today, near_midnight, utc_day, utc_now_millis, DAY_MILLIS, EPOCH_DAY};
use crate::model::Log;

verus! {

/// The smallest width that zooming in goes down to: one minute.
pub const MIN_ZOOM_WIDTH_MS: i128 = 60_000;

/// The time between `start` (included) and `end` (excluded), in milliseconds since the
/// Unix epoch. `changed` records whether the last move actually moved it.
#[derive(Clone, Copy, Debug, PartialEq, Eq, Structural)]
pub struct Interval {
    pub start: i64,
    pub end: i64,
    pub changed: bool,
}

/// Where an open log (no end yet) is taken to end at `now`.
pub open spec fn log_end_at(log: Log, now: u64) -> u64 {
    match log.end {
        Some(e) => e,
        None => now,
    }
}

/// The log lies inside the interval: it starts no earlier and ends no later. The bounds are
/// compared as unsigned numbers, as the timestamps of a log are.
pub open spec fn holds_log(iv: Interval, log: Log, now: u64) -> bool {
    log.start >= (iv.start as u64) && log_end_at(log, now) <= (iv.end as u64)
}

/// Whether `DateTime::<Utc>::from_timestamp_millis(ms)` gives an instant: the whole
/// seconds and the rest in nanoseconds make one (see `utc_timestamp_valid`).
pub open spec fn utc_millis_valid(ms: i64) -> bool {
    utc_timestamp_valid((ms / 1000) as i64, ((ms % 1000) * 1_000_000) as u32)
}

/// Whether `DateTime::<Utc>::from_timestamp(secs, nanos)` gives an instant: its day,
/// counted from the start of the era (the epoch is day 719163), lies among chrono's dates,
/// January 1 of year -262143 (day -95746129) to December 31 of year 262142 (day
/// 95745399); and `nanos` is under a second, or under two in the last second of a minute
/// (a leap second).
pub open spec fn utc_timestamp_valid(secs: i64, nanos: u32) -> bool {
    let day = secs / 86_400 + 719_163;
    let second_of_day = secs % 86_400;
    &&& -95_746_129 <= day <= 95_745_399
    &&& nanos < 2_000_000_000
    &&& (nanos < 1_000_000_000 || second_of_day % 60 == 59)
}

/// The text `NaiveDate::from_num_days_from_ce_opt(day)` formats to with `"%Y-%m-%d"`.
pub uninterp spec fn iso_date_text(day: i32) -> Seq<char>;

/// Calls `DateTime::<Utc>::from_timestamp_millis(ms)` and tells whether it gave an
/// instant; see `utc_millis_valid`.
#[verifier::external_body]
fn utc_millis_exists(ms: i64) -> (r: bool)
    ensures
        r == utc_millis_valid(ms),
{
    chrono::DateTime::<chrono::Utc>::from_timestamp_millis(ms).is_some()
}

/// Calls `DateTime::<Utc>::from_timestamp(secs, nanos)` and tells whether it gave an
/// instant; see `utc_timestamp_valid`.
#[verifier::external_body]
fn utc_timestamp_exists(secs: i64, nanos: u32) -> (r: bool)
    ensures
        r == utc_timestamp_valid(secs, nanos),
{
    chrono::DateTime::<chrono::Utc>::from_timestamp(secs, nanos).is_some()
}

/// Calls `NaiveDate::from_num_days_from_ce_opt(day)` and formats the date with
/// `"%Y-%m-%d"`; `None` when the day is out of chrono's range. The text is named, not
/// stated. chrono's years run from -262143 to 262142, so every day within 95 million of
/// the start of the era has a date.
#[verifier::external_body]
pub(crate) fn format_iso_date(day: i32) -> (r: Option<String>)
    ensures
        r matches Some(s) ==> s@ == iso_date_text(day),
        -95_000_000 <= day <= 95_000_000 ==> r is Some,
{
    let date = chrono::NaiveDate::from_num_days_from_ce_opt(day)?;
    Some(format!("{}", date.format("%Y-%m-%d")))
}

// ---------------------------------------------------------------------------------------
// The arithmetic of the moves, over plain numbers
// ---------------------------------------------------------------------------------------

/// The width a zoom gives an interval `old_width` wide: four fifths when zooming in (never
/// under a minute, and strictly narrower when it was wider than a minute), five fourths
/// rounded up when zooming out (strictly wider in any case).
pub open spec fn zoom_width(old_width: int, zoom_in: bool) -> int {
    if zoom_in {
        let w = old_width * 4 / 5;
        let w = if w < MIN_ZOOM_WIDTH_MS {
            MIN_ZOOM_WIDTH_MS as int
        } else {
            w
        };
        if w >= old_width && old_width > MIN_ZOOM_WIDTH_MS {
            old_width - 1
        } else {
            w
        }
    } else {
        let w = (old_width * 5 + 3) / 4;
        if w <= old_width {
            old_width + 1
        } else {
            w
        }
    }
}

/// The anchor moved into `[start, end)`.
pub open spec fn clamp_anchor(start: int, end: int, anchor: int) -> int {
    if anchor < start {
        start
    } else if anchor >= end {
        end - 1
    } else {
        anchor
    }
}

/// The bounds a zoom around `anchor` gives `[start, end)` before it is checked: the
/// anchor keeps its relative place, and an end past `tonight` is pulled back to it,
/// moving the start by as much.
pub open spec fn zoom_bounds(start: int, end: int, anchor: int, zoom_in: bool, tonight: int) -> (
    int,
    int,
) {
    let a = clamp_anchor(start, end, anchor);
    let old_width = end - start;
    let new_width = zoom_width(old_width, zoom_in);
    let new_left = new_width * (a - start) / old_width;
    let s = a - new_left;
    let e = s + new_width;
    if e > tonight {
        (s - (e - tonight), tonight)
    } else {
        (s, e)
    }
}

/// The products a zoom computes fit an `i128`.
pub open spec fn zoom_fits(start: int, end: int, anchor: int, zoom_in: bool) -> bool {
    end > start ==> zoom_width(end - start, zoom_in) * (clamp_anchor(start, end, anchor) - start)
        <= i128::MAX
}

/// Proves that zooming in never gives less than a minute, and gives strictly less than
/// before whenever the interval was wider than a minute.
pub proof fn lemma_zoom_in_narrows(old_width: int)
    requires
        old_width > 0,
    ensures
        zoom_width(old_width, true) >= MIN_ZOOM_WIDTH_MS || zoom_width(old_width, true)
            == old_width - 1,
        old_width > MIN_ZOOM_WIDTH_MS ==> zoom_width(old_width, true) < old_width,
        zoom_width(old_width, true) > 0,
{
}

/// Proves that zooming out always gives a strictly wider interval.
pub proof fn lemma_zoom_out_widens(old_width: int)
    requires
        old_width > 0,
    ensures
        zoom_width(old_width, false) > old_width,
{
}

/// Proves that, when the zoom is not cut short by the end of the day, the anchor (moved
/// into the interval) lies inside the zoomed interval.
pub proof fn lemma_zoom_keeps_anchor(start: int, end: int, anchor: int, zoom_in: bool, tonight: int)
    requires
        start < end,
        zoom_bounds(start, end, anchor, zoom_in, tonight).1 < tonight,
    ensures
        ({
            let (s, e) = zoom_bounds(start, end, anchor, zoom_in, tonight);
            let a = clamp_anchor(start, end, anchor);
            s <= a < e
        }),
{
    let a = clamp_anchor(start, end, anchor);
    let ow = end - start;
    let nw = zoom_width(ow, zoom_in);
    let l = a - start;
    assert(0 <= l < ow);
    assert(nw > 0);
    assert(nw * l / ow >= 0) by (nonlinear_arith)
        requires
            nw > 0,
            l >= 0,
            ow > 0,
    ;
    assert(nw * l / ow < nw) by (nonlinear_arith)
        requires
            nw > 0,
            0 <= l < ow,
    ;
}

/// The local days a pan by `days` gives the days `[start_day, end_day)`, `tonight_day`
/// being the day after today: both move by `days`, keeping the span (never negative), and
/// a pan forward that would reach past the end of today stops there.
pub open spec fn pan_day_bounds(
    start_day: int,
    end_day: int,
    tonight_day: int,
    days: int,
    forward: bool,
) -> (int, int) {
    let span = if end_day - start_day > 0 {
        end_day - start_day
    } else {
        0
    };
    let desired_start = if forward {
        start_day + days
    } else {
        start_day - days
    };
    let desired_end = desired_start + span;
    if forward && desired_end >= tonight_day {
        (tonight_day - span, tonight_day)
    } else {
        (desired_start, desired_end)
    }
}

/// The local days that the last `days` full days, today included, span.
pub open spec fn day_count_bounds(today: int, days: int) -> (int, int) {
    (today - (days - 1), today + 1)
}

/// The local days the last `days` full days span, today (day `today`) included; see
/// `day_count_bounds`. They are `days` days.
pub fn day_count_numbers(today: i32, days: u64) -> (r: (i128, i128))
    ensures
        r.0 == day_count_bounds(today as int, days as int).0,
        r.1 == day_count_bounds(today as int, days as int).1,
        r.1 - r.0 == days,
{
    (today as i128 - (days as i128 - 1), today as i128 + 1)
}

/// The pieces of `a ∪ b` that are not in both: the uncovered ends around their overlap, or
/// both whole when they do not overlap.
pub open spec fn xor_pieces(a: Interval, b: Interval) -> Seq<(i64, i64)> {
    if a.start < b.end && a.end > b.start {
        let lo = if a.start < b.start {
            a.start
        } else {
            b.start
        };
        let ov_start = if a.start > b.start {
            a.start
        } else {
            b.start
        };
        let ov_end = if a.end < b.end {
            a.end
        } else {
            b.end
        };
        let hi = if a.end > b.end {
            a.end
        } else {
            b.end
        };
        let first = if lo < ov_start {
            seq![(lo, ov_start)]
        } else {
            Seq::empty()
        };
        let second = if ov_end < hi {
            seq![(ov_end, hi)]
        } else {
            Seq::empty()
        };
        first + second
    } else {
        seq![(a.start, a.end), (b.start, b.end)]
    }
}

/// The pan by `days` over plain day numbers; see `pan_day_bounds`.
pub fn pan_day_numbers(start_day: i64, end_day: i64, tonight_day: i64, days: u64, forward: bool) -> (r:
    (i128, i128))
    ensures
        r.0 == pan_day_bounds(start_day as int, end_day as int, tonight_day as int, days as int, forward).0,
        r.1 == pan_day_bounds(start_day as int, end_day as int, tonight_day as int, days as int, forward).1,
{
    let span: i128 = if end_day as i128 - start_day as i128 > 0 {
        end_day as i128 - start_day as i128
    } else {
        0
    };
    let desired_start: i128 = if forward {
        start_day as i128 + days as i128
    } else {
        start_day as i128 - days as i128
    };
    let desired_end = desired_start + span;
    if forward && desired_end >= tonight_day as i128 {
        (tonight_day as i128 - span, tonight_day as i128)
    } else {
        (desired_start, desired_end)
    }
}

/// Proves that a pan keeps the span in days, and that a pan forward never ends after
/// tonight.
pub proof fn lemma_pan_days_keeps_span(
    start_day: int,
    end_day: int,
    tonight_day: int,
    days: int,
    forward: bool,
)
    requires
        start_day <= end_day,
    ensures
        ({
            let (s, e) = pan_day_bounds(start_day, end_day, tonight_day, days, forward);
            &&& e - s == end_day - start_day
            &&& forward ==> e <= tonight_day
        }),
{
}

/// `r` is what a pan of `iv` by `days` local days gives when `start_day` and `end_day` are
/// the local days of its bounds and `today` the current local day: those are the local
/// days of the bounds give or take one (local time being UTC shifted by less than a day),
/// and `r` spans the local midnights of the days `pan_day_bounds` gives, each less than a
/// day from that day's UTC midnight.
pub open spec fn days_panned(iv: Interval, start_day: int, end_day: int, today: int, days: int, forward: bool, r: Interval) -> bool {
    let (s, e) = pan_day_bounds(start_day, end_day, today + 1, days, forward);
    &&& utc_day(iv.start as int) - 1 <= start_day <= utc_day(iv.start as int) + 1
    &&& utc_day(iv.end as int) - 1 <= end_day <= utc_day(iv.end as int) + 1
    &&& near_midnight(r.start as int, s)
    &&& near_midnight(r.end as int, e)
}

/// A pan back by `days` moves both local days back by `days`; a pan forward moves both
/// forward by `days` unless that would end after tonight, and then it ends tonight with the
/// same span.
pub proof fn lemma_pan_days_direction(start_day: int, end_day: int, tonight_day: int, days: int)
    requires
        start_day <= end_day,
    ensures
        pan_day_bounds(start_day, end_day, tonight_day, days, false) == (start_day - days, end_day - days),
        end_day + days < tonight_day ==> pan_day_bounds(start_day, end_day, tonight_day, days, true) == (
            start_day + days,
            end_day + days,
        ),
        end_day + days >= tonight_day ==> pan_day_bounds(start_day, end_day, tonight_day, days, true) == (
            tonight_day - (end_day - start_day),
            tonight_day,
        ),
{
}

/// After a pan back by `days` that changed the interval, each bound lies within about
/// `days` days before the old one: between `days + 3` and `days - 3` days before it, the
/// slack being the local offsets, each under a day, at the old and the new bounds.
pub proof fn lemma_pan_back_moves_earlier(iv: Interval, start_day: int, end_day: int, today: int, days: int, r: Interval)
    requires
        days_panned(iv, start_day, end_day, today, days, false, r),
        iv.start <= iv.end,
    ensures
        iv.start - (days + 3) * (DAY_MILLIS as int) < r.start < iv.start - (days - 3) * (DAY_MILLIS as int),
        iv.end - (days + 3) * (DAY_MILLIS as int) < r.end < iv.end - (days - 3) * (DAY_MILLIS as int),
{
    let dm = DAY_MILLIS as int;
    let us = utc_day(iv.start as int);
    let ue = utc_day(iv.end as int);
    vstd::arithmetic::div_mod::lemma_fundamental_div_mod(iv.start as int, dm);
    vstd::arithmetic::div_mod::lemma_fundamental_div_mod(iv.end as int, dm);
    let qs = (iv.start as int) / dm;
    let qe = (iv.end as int) / dm;
    assert(qs <= qe) by {
        vstd::arithmetic::div_mod::lemma_div_is_ordered(iv.start as int, iv.end as int, dm);
    }
    assert(start_day <= end_day + 2);
    let sp = if end_day - start_day > 0 { end_day - start_day } else { 0 };
    let s = start_day - days;
    let e = s + sp;
    assert(pan_day_bounds(start_day, end_day, today + 1, days, false) == (s, e));
    assert((s - EPOCH_DAY) * dm == (start_day - EPOCH_DAY) * dm - days * dm) by (nonlinear_arith)
        requires s == start_day - days;
    assert(qs * dm <= iv.start < qs * dm + dm);
    assert((start_day - EPOCH_DAY) * dm <= (qs + 1) * dm && (start_day - EPOCH_DAY) * dm >= (qs - 1) * dm) by (nonlinear_arith)
        requires qs - 1 <= start_day - EPOCH_DAY <= qs + 1, dm > 0;
    assert((days + 3) * dm == days * dm + 3 * dm && (days - 3) * dm == days * dm - 3 * dm) by (nonlinear_arith);
    assert((qs + 1) * dm == qs * dm + dm && (qs - 1) * dm == qs * dm - dm) by (nonlinear_arith);
    if end_day - start_day > 0 {
        assert(e == end_day - days);
    } else {
        assert(e == start_day - days);
    }
    assert((e - EPOCH_DAY) * dm == (end_day - EPOCH_DAY) * dm - days * dm || (e - EPOCH_DAY) * dm == (start_day - EPOCH_DAY) * dm - days * dm) by (nonlinear_arith)
        requires e == end_day - days || e == start_day - days;
    assert((end_day - EPOCH_DAY) * dm <= (qe + 1) * dm && (end_day - EPOCH_DAY) * dm >= (qe - 1) * dm) by (nonlinear_arith)
        requires qe - 1 <= end_day - EPOCH_DAY <= qe + 1, dm > 0;
    assert((qe + 1) * dm == qe * dm + dm && (qe - 1) * dm == qe * dm - dm) by (nonlinear_arith);
    assert(qe * dm <= iv.end < qe * dm + dm);
}

/// `iv` is `today`, when there is such an interval: the same bounds and the same mark.
pub open spec fn same_interval(iv: Interval, today: Option<Interval>) -> bool {
    today matches Some(t) && iv.start == t.start && iv.end == t.end && iv.changed == t.changed
}

impl Interval {
    /// The interval from `start` to `end`, not marked as moved.
    pub fn new(start: i64, end: i64) -> (r: Interval)
        ensures
            r.start == start,
            r.end == end,
            !r.changed,
    {
        Interval { start, end, changed: false }
    }

    /// The interval spanning the local days `[start_day, end_day)`, or `None` when a local
    /// midnight among them cannot be had.
    fn from_day_numbers(start_day: i128, end_day: i128) -> (r: Option<Interval>)
        ensures
            r matches Some(iv) ==> !iv.changed,
            r matches Some(iv) ==> near_midnight(iv.start as int, start_day as int) && near_midnight(
                iv.end as int,
                end_day as int,
            ),
    {
        if start_day < i64::MIN as i128 || start_day > i64::MAX as i128 || end_day < i64::MIN as i128
            || end_day > i64::MAX as i128 {
            return None;
        }
        let start = local_midnight_millis(start_day as i64);
        let end = local_midnight_millis(end_day as i64);
        match (start, end) {
            (Some(s), Some(e)) => Some(Interval { start: s, end: e, changed: false }),
            _ => None,
        }
    }

    /// The interval covering the last `days` full local days, today included; `None` when
    /// a local midnight it needs does not exist in the time zone.
    pub fn from_day_count(days: u64) -> (r: Option<Interval>)
        ensures
            r matches Some(iv) ==> !iv.changed,
            r matches Some(iv) ==> exists|today: int|
                near_midnight(iv.start as int, #[trigger] day_count_bounds(today, days as int).0) && near_midnight(
                    iv.end as int,
                    day_count_bounds(today, days as int).1,
                ),
    {
        let today = local_today();
        let (start_day, end_day) = day_count_numbers(today, days);
        let r = Self::from_day_numbers(start_day, end_day);
        proof {
            if r is Some {
                assert(day_count_bounds(today as int, days as int).0 == start_day);
            }
        }
        r
    }

    /// Today, from local midnight to local midnight.
    pub fn today() -> (r: Option<Interval>)
        ensures
            r matches Some(iv) ==> !iv.changed,
            r matches Some(iv) ==> exists|today: int|
                near_midnight(iv.start as int, today) && #[trigger] near_midnight(iv.end as int, today + 1),
    {
        let r = Self::from_day_count(1);
        proof {
            if r is Some {
                let iv = r->0;
                let t = choose|today: int|
                    near_midnight(iv.start as int, #[trigger] day_count_bounds(today, 1).0) && near_midnight(
                        iv.end as int,
                        day_count_bounds(today, 1).1,
                    );
                assert(near_midnight(iv.end as int, t + 1));
            }
        }
        r
    }

    /// The width in milliseconds, wrapped to `u64` as a plain cast would wrap it.
    pub fn width(&self) -> (r: u64)
        ensures
            r == (self.end - self.start) as u64,
            self.start <= self.end ==> r == self.end - self.start,
    {
        (self.end as i128 - self.start as i128) as u64
    }

    /// Whether this is `today`, when there is such an interval: the same bounds and the
    /// same mark.
    pub fn same_as(&self, today: Option<Interval>) -> (r: bool)
        ensures
            r == same_interval(*self, today),
    {
        match today {
            Some(t) => self.start == t.start && self.end == t.end && self.changed == t.changed,
            None => false,
        }
    }

    /// Whether this is today's interval (see `today`; `same_as` compares). Today's interval
    /// is never marked as moved, so a moved interval is not it.
    pub fn is_default(&self) -> (r: bool)
        ensures
            r ==> !self.changed,
            exists|t: Option<Interval>| (t matches Some(tt) ==> !tt.changed) && r == #[trigger] same_interval(*self, t),
    {
        let t = Self::today();
        self.same_as(t)
    }

    /// Makes this the interval of the last `value` local days; it stays as it is when a
    /// local midnight it needs does not exist.
    pub fn set_days(&mut self, value: u64)
        ensures
            *final(self) == *old(self) || !final(self).changed,
    {
        if let Some(iv) = Self::from_day_count(value) {
            *self = iv;
        }
    }

    /// The local dates the interval covers: one date when it spans a single day, else the
    /// first and the last separated by `" - "`. The last date is that of one second before
    /// the end.
    pub fn date_str(&self) -> (r: String)
        ensures
            r@ == Seq::<char>::empty() || exists|first: i32, last: i32| #[trigger] dates_text(first, last) == r@,
            -8_000_000_000_000_000 <= self.start <= 8_000_000_000_000_000 && -8_000_000_000_000_000 <= self.end
                - 1000 && self.end <= 8_000_000_000_000_000 ==> exists|first: i32, last: i32|
                -95_000_000 <= first <= 95_000_000 && -95_000_000 <= last <= 95_000_000 && #[trigger] dates_text(
                    first,
                    last,
                ) == r@,
    {
        let start_day = local_day_of(self.start);
        let last = if self.end >= i64::MIN + 1000 {
            self.end - 1000
        } else {
            i64::MIN
        };
        let end_day = local_day_of(last);
        match (start_day, end_day) {
            (Some(s), Some(e)) => {
                let r = date_range_text(s, e);
                proof {
                    if r@ != Seq::<char>::empty() {
                        assert(dates_text(s, e) == r@);
                    }
                    if -95_000_000 <= s <= 95_000_000 && -95_000_000 <= e <= 95_000_000 {
                        assert(dates_text(s, e) == r@);
                    }
                }
                r
            },
            _ => String::new(),
        }
    }

    /// Whether the instant `timestamp_ms` lies in `[start, end)`; an instant out of
    /// chrono's range lies nowhere.
    pub fn contains_utc_timestamp_millis(&self, timestamp_ms: u64) -> (r: bool)
        ensures
            r == (utc_timestamp_valid(
                (timestamp_ms / 1000) as i64,
                ((timestamp_ms % 1000) * 1_000_000) as u32,
            ) && self.start <= timestamp_ms < self.end),
            timestamp_ms <= 8_000_000_000_000_000 ==> (r == (self.start <= timestamp_ms
                < self.end)),
    {
        let secs = (timestamp_ms / 1000) as i64;
        let nanos = ((timestamp_ms % 1000) * 1_000_000) as u32;
        if !utc_timestamp_exists(secs, nanos) {
            return false;
        }
        self.start as i128 <= timestamp_ms as i128 && (timestamp_ms as i128) < self.end as i128
    }

    /// Whether `interval` lies inside this one.
    pub fn contains_interval(&self, interval: &Interval) -> (r: bool)
        ensures
            r == (self.start <= interval.start && self.end >= interval.end),
    {
        self.start <= interval.start && self.end >= interval.end
    }

    /// Grows this interval to cover `focused_interval` too.
    pub fn expand_to_include(&mut self, focused_interval: &Interval)
        ensures
            final(self).start == if focused_interval.start < old(self).start {
                focused_interval.start
            } else {
                old(self).start
            },
            final(self).end == if focused_interval.end > old(self).end {
                focused_interval.end
            } else {
                old(self).end
            },
            final(self).changed == old(self).changed,
    {
        if focused_interval.start < self.start {
            self.start = focused_interval.start;
        }
        if focused_interval.end > self.end {
            self.end = focused_interval.end;
        }
    }

    /// The time both intervals cover, when they share any.
    pub fn overlap(&self, other_interval: &Interval) -> (r: Option<Interval>)
        ensures
            match r {
                Some(o) => {
                    &&& self.start < other_interval.end && self.end > other_interval.start
                    &&& o.start == if self.start > other_interval.start {
                        self.start
                    } else {
                        other_interval.start
                    }
                    &&& o.end == if self.end < other_interval.end {
                        self.end
                    } else {
                        other_interval.end
                    }
                    &&& !o.changed
                },
                None => !(self.start < other_interval.end && self.end > other_interval.start),
            },
    {
        if self.start < other_interval.end && self.end > other_interval.start {
            Some(
                Interval {
                    start: if self.start > other_interval.start {
                        self.start
                    } else {
                        other_interval.start
                    },
                    end: if self.end < other_interval.end {
                        self.end
                    } else {
                        other_interval.end
                    },
                    changed: false,
                },
            )
        } else {
            None
        }
    }

    /// Whether `log` lies inside this interval, an open log being taken to end at `now`.
    pub fn contains_log_at(&self, log: &Log, now: u64) -> (r: bool)
        ensures
            r == holds_log(*self, *log, now),
    {
        let end = match log.end {
            Some(e) => e,
            None => now,
        };
        log.start >= self.start as u64 && end <= self.end as u64
    }

    /// Whether `log` lies inside this interval; an open log is taken to end now.
    pub fn contains_log(&self, log: &Log) -> (r: bool)
        ensures
            log.end is Some ==> r == holds_log(*self, *log, 0),
            exists|now: u64| r == holds_log(*self, *log, now),
    {
        let now = utc_now_millis() as u64;
        self.contains_log_at(log, now)
    }

    /// Zooms around `anchor_ms` (moved into the interval first), `tonight_ms` being the
    /// end of the current local day: see `zoom_bounds`. Nothing changes when the interval
    /// is empty, when the zoom leaves nothing, or when a bound falls out of chrono's range.
    pub fn zoom_around_until(&mut self, anchor_ms: u64, zoom_in: bool, tonight_ms: i64)
        requires
            zoom_fits(old(self).start as int, old(self).end as int, anchor_ms as int, zoom_in),
        ensures
            ({
                let (s, e) = zoom_bounds(
                    old(self).start as int,
                    old(self).end as int,
                    anchor_ms as int,
                    zoom_in,
                    tonight_ms as int,
                );
                if old(self).end > old(self).start && s < e && utc_millis_valid(s as i64)
                    && utc_millis_valid(e as i64) {
                    &&& final(self).start == s as i64
                    &&& final(self).end == e as i64
                    &&& final(self).changed == (s as i64 != old(self).start || e as i64 != old(
                        self,
                    ).end)
                } else {
                    *final(self) == *old(self)
                }
            }),
    {
        let start0 = self.start as i128;
        let end0 = self.end as i128;
        if end0 <= start0 {
            return;
        }
        let mut anchor = anchor_ms as i128;
        if anchor < start0 {
            anchor = start0;
        }
        if anchor >= end0 {
            anchor = end0 - 1;
        }
        let old_width = end0 - start0;
        let mut new_width: i128 = if zoom_in {
            old_width * 4 / 5
        } else {
            (old_width * 5 + 4 - 1) / 4
        };
        if zoom_in {
            if new_width < MIN_ZOOM_WIDTH_MS {
                new_width = MIN_ZOOM_WIDTH_MS;
            }
            if new_width >= old_width && old_width > MIN_ZOOM_WIDTH_MS {
                new_width = old_width - 1;
            }
        } else if new_width <= old_width {
            new_width = old_width + 1;
        }
        let left = anchor - start0;
        proof {
            assert(new_width == zoom_width(old_width as int, zoom_in));
            assert(anchor == clamp_anchor(start0 as int, end0 as int, anchor_ms as int));
            assert(new_width > 0);
            assert(new_width * left >= 0) by (nonlinear_arith)
                requires
                    new_width > 0,
                    left >= 0,
            ;
            assert((new_width * left) / (old_width as int) < new_width) by (nonlinear_arith)
                requires
                    new_width > 0,
                    0 <= left < old_width,
            ;
            assert((new_width * left) / (old_width as int) <= new_width * left) by (nonlinear_arith)
                requires
                    new_width * left >= 0,
                    old_width > 0,
            ;
        }
        let new_left = (new_width * left) / old_width;
        let mut s = anchor - new_left;
        let mut e = s + new_width;
        let tonight = tonight_ms as i128;
        if e > tonight {
            let overshoot = e - tonight;
            e = tonight;
            s = s - overshoot;
        }
        if e <= s {
            return;
        }
        let s64 = s as i64;
        let e64 = e as i64;
        if !utc_millis_exists(s64) || !utc_millis_exists(e64) {
            return;
        }
        let changed = s64 != self.start || e64 != self.end;
        self.start = s64;
        self.end = e64;
        self.changed = changed;
    }

    /// Zooms around `anchor_ms`, never past the end of the current local day; nothing
    /// changes when that day's end cannot be had.
    pub fn zoom_around(&mut self, anchor_ms: u64, zoom_in: bool)
        requires
            zoom_fits(old(self).start as int, old(self).end as int, anchor_ms as int, zoom_in),
        ensures
            *final(self) == *old(self) || exists|tonight: i64|
                {
                    let (s, e) = #[trigger] zoom_bounds(
                        old(self).start as int,
                        old(self).end as int,
                        anchor_ms as int,
                        zoom_in,
                        tonight as int,
                    );
                    &&& final(self).start == s as i64
                    &&& final(self).end == e as i64
                    &&& final(self).changed == (final(self).start != old(self).start || final(self).end
                        != old(self).end)
                    &&& e <= tonight
                },
    {
        let today = local_today();
        match local_midnight_millis(today as i64 + 1) {
            Some(tonight) => {
                self.zoom_around_until(anchor_ms, zoom_in, tonight);
                proof {
                    let (s, e) = zoom_bounds(
                        old(self).start as int,
                        old(self).end as int,
                        anchor_ms as int,
                        zoom_in,
                        tonight as int,
                    );
                    assert(e <= tonight);
                }
            },
            None => {},
        }
    }

    /// Moves both ends by `delta_ms`, `tonight_ms` being the end of the current local day;
    /// a move that would end after it ends there instead, keeping the width.
    pub fn pan_millis_until(&mut self, delta_ms: i64, tonight_ms: i64)
        requires
            pan_millis_fits(*old(self), delta_ms, tonight_ms),
        ensures
            ({
                let (s, e) = pan_millis_bounds(*old(self), delta_ms, tonight_ms);
                &&& final(self).start == s
                &&& final(self).end == e
                &&& final(self).changed == (s != old(self).start || e != old(self).end)
            }),
    {
        let desired_start = self.start as i128 + delta_ms as i128;
        let desired_end = self.end as i128 + delta_ms as i128;
        let span = self.end as i128 - self.start as i128;
        let (s, e) = if desired_end > tonight_ms as i128 {
            (tonight_ms as i128 - span, tonight_ms as i128)
        } else {
            (desired_start, desired_end)
        };
        let s64 = s as i64;
        let e64 = e as i64;
        let changed = s64 != self.start || e64 != self.end;
        self.start = s64;
        self.end = e64;
        self.changed = changed;
    }

    /// Moves both ends by `delta_ms`, never past the end of the current local day. Nothing
    /// changes when that day's end cannot be had or when a bound would leave chrono's range.
    pub fn pan_millis(&mut self, delta_ms: i64)
        ensures
            panned(*old(self), delta_ms, *final(self)),
    {
        let today = local_today();
        let tonight = match local_midnight_millis(today as i64 + 1) {
            Some(t) => t,
            None => return,
        };
        let desired_start = self.start as i128 + delta_ms as i128;
        let desired_end = self.end as i128 + delta_ms as i128;
        let span = self.end as i128 - self.start as i128;
        if desired_start < i64::MIN as i128 || desired_start > i64::MAX as i128 || desired_end
            < i64::MIN as i128 || desired_end > i64::MAX as i128 {
            return;
        }
        if !utc_millis_exists(desired_start as i64) || !utc_millis_exists(desired_end as i64) {
            return;
        }
        if desired_end > tonight as i128 {
            let capped = tonight as i128 - span;
            if capped < i64::MIN as i128 || capped > i64::MAX as i128 {
                return;
            }
            if !utc_millis_exists(capped as i64) {
                return;
            }
        }
        proof {
            assert(pan_millis_fits(*old(self), delta_ms, tonight));
        }
        self.pan_millis_until(delta_ms, tonight);
    }

    /// Moves the interval by `days` local days, keeping its span in days; a move forward
    /// that would end after the current local day ends with it. Nothing changes when a
    /// date or a local midnight it needs cannot be had.
    pub fn pan_days(&mut self, days: u64, forward: bool)
        ensures
            *final(self) == *old(self) || final(self).changed == (final(self).start != old(
                self,
            ).start || final(self).end != old(self).end),
            *final(self) == *old(self) || exists|start_day: int, end_day: int, today: int|
                #[trigger] days_panned(*old(self), start_day, end_day, today, days as int, forward, *final(self)),
    {
        let start_day = match local_day_of(self.start) {
            Some(d) => d,
            None => return,
        };
        let end_day = match local_day_of(self.end) {
            Some(d) => d,
            None => return,
        };
        let today = local_today();
        let (s, e) = pan_day_numbers(start_day as i64, end_day as i64, today as i64 + 1, days, forward);
        match Self::from_day_numbers(s, e) {
            Some(iv) => {
                let changed = iv.start != self.start || iv.end != self.end;
                self.start = iv.start;
                self.end = iv.end;
                self.changed = changed;
                proof {
                    assert(days_panned(*old(self), start_day as int, end_day as int, today as int, days as int, forward, *self));
                }
            },
            None => {},
        }
    }
}

/// `r` is what a pan of `iv` by `delta_ms` gives, never past the end of the current local
/// day: `iv` itself, or the pan for some end of the day that it fits.
pub open spec fn panned(iv: Interval, delta_ms: i64, r: Interval) -> bool {
    r == iv || exists|tonight: i64|
        {
            &&& #[trigger] pan_millis_fits(iv, delta_ms, tonight)
            &&& r.start == pan_millis_bounds(iv, delta_ms, tonight).0
            &&& r.end == pan_millis_bounds(iv, delta_ms, tonight).1
            &&& r.changed == (r.start != iv.start || r.end != iv.end)
            &&& r.end <= tonight
        }
}

/// The bounds a pan by `delta_ms` gives, `tonight_ms` being the end of the current local
/// day.
pub open spec fn pan_millis_bounds(iv: Interval, delta_ms: i64, tonight_ms: i64) -> (i64, i64) {
    let desired_start = iv.start + delta_ms;
    let desired_end = iv.end + delta_ms;
    let span = iv.end - iv.start;
    if desired_end > tonight_ms {
        ((tonight_ms - span) as i64, tonight_ms)
    } else {
        (desired_start as i64, desired_end as i64)
    }
}

/// The instants a pan computes are all in chrono's range, as the pan needs.
pub open spec fn pan_millis_fits(iv: Interval, delta_ms: i64, tonight_ms: i64) -> bool {
    let desired_start = iv.start + delta_ms;
    let desired_end = iv.end + delta_ms;
    let span = iv.end - iv.start;
    &&& i64::MIN <= desired_start <= i64::MAX
    &&& i64::MIN <= desired_end <= i64::MAX
    &&& utc_millis_valid(desired_start as i64)
    &&& utc_millis_valid(desired_end as i64)
    &&& (desired_end > tonight_ms ==> i64::MIN <= tonight_ms - span <= i64::MAX && utc_millis_valid(
        (tonight_ms - span) as i64,
    ))
}

/// The text of the days from `first` to `last`: one date when they are the same day,
/// else `"first - last"`.
pub open spec fn dates_text(first: i32, last: i32) -> Seq<char> {
    if first == last {
        iso_date_text(first)
    } else {
        iso_date_text(first) + " - "@ + iso_date_text(last)
    }
}

/// The dates of `start_day` and `end_day` as one date when they are the same day, else as
/// `"first - last"`.
pub fn date_range_text(start_day: i32, end_day: i32) -> (r: String)
    ensures
        start_day == end_day ==> (r@ == iso_date_text(start_day) || r@ == Seq::<char>::empty()),
        start_day != end_day ==> (r@ == iso_date_text(start_day) + " - "@ + iso_date_text(end_day)
            || r@ == Seq::<char>::empty()),
        -95_000_000 <= start_day <= 95_000_000 && -95_000_000 <= end_day <= 95_000_000 ==> r@ == if start_day
            == end_day {
            iso_date_text(start_day)
        } else {
            iso_date_text(start_day) + " - "@ + iso_date_text(end_day)
        },
{
    if start_day == end_day {
        match format_iso_date(start_day) {
            Some(s) => s,
            None => String::new(),
        }
    } else {
        match (format_iso_date(start_day), format_iso_date(end_day)) {
            (Some(a), Some(b)) => {
                let mut r = a;
                r.append(" - ");
                r.append(b.as_str());
                r
            },
            _ => String::new(),
        }
    }
}

/// The pieces of time that lie in exactly one of `a` and `b`; see `xor_pieces`.
pub fn interval_xor(a: &Interval, b: &Interval) -> (r: Vec<Interval>)
    ensures
        r@.len() == xor_pieces(*a, *b).len(),
        forall|i: int|
            0 <= i < r@.len() ==> (#[trigger] r@[i]).start == xor_pieces(*a, *b)[i].0 && r@[i].end
                == xor_pieces(*a, *b)[i].1 && !r@[i].changed,
{
    let mut intervals: Vec<Interval> = Vec::new();
    match a.overlap(b) {
        Some(ov) => {
            let lo = if a.start < b.start {
                a.start
            } else {
                b.start
            };
            let hi = if a.end > b.end {
                a.end
            } else {
                b.end
            };
            if lo < ov.start {
                intervals.push(Interval { start: lo, end: ov.start, changed: false });
            }
            if ov.end < hi {
                intervals.push(Interval { start: ov.end, end: hi, changed: false });
            }
        },
        None => {
            intervals.push(Interval { start: a.start, end: a.end, changed: false });
            intervals.push(Interval { start: b.start, end: b.end, changed: false });
        },
    }
    intervals
}

} // verus!
