//! The tick row above the timeline: which calendar step the ticks fall on for a given
//! span, how a tick is labelled, and how labels are written over a row.
use vstd::prelude::*;

use crate::clock::{local_hour_millis, local_midnight_millis, local_parts_of};
use crate::format::{decimal, push_decimal};
use crate::settings::Settings;
use crate::text::{chars_of, overlay_seq, push_char, repeat_char, repeat_seq, string_of};

verus! {

/// The calendar step ticks fall on.
#[derive(PartialEq, Eq, Structural, Clone, Copy, Debug)]
pub enum TickScale {
    Hours(u32),
    Days(i64),
    Weeks(i64),
    Months(u32),
    Years(i32),
}

/// An hour in milliseconds.
pub const HOUR_MS: u64 = 3_600_000;

/// A day in milliseconds.
pub const DAY_MS: u64 = 86_400_000;

/// The step for a span of `scale_ms`: every six hours up to two days, every day up to two
/// weeks, every week up to ninety days, every month up to two years, else every year.
pub open spec fn tick_scale_for(scale_ms: int) -> TickScale {
    if scale_ms <= DAY_MS * 2 {
        TickScale::Hours(6)
    } else if scale_ms <= DAY_MS * 14 {
        TickScale::Days(1)
    } else if scale_ms <= DAY_MS * 90 {
        TickScale::Weeks(1)
    } else if scale_ms <= DAY_MS * 730 {
        TickScale::Months(1)
    } else {
        TickScale::Years(1)
    }
}

/// The step for a span of `scale_ms`; see `tick_scale_for`.
pub fn select_tick_scale(scale_ms: u64) -> (r: TickScale)
    ensures
        r == tick_scale_for(scale_ms as int),
{
    if scale_ms <= DAY_MS * 2 {
        TickScale::Hours(6)
    } else if scale_ms <= DAY_MS * 14 {
        TickScale::Days(1)
    } else if scale_ms <= DAY_MS * 90 {
        TickScale::Weeks(1)
    } else if scale_ms <= DAY_MS * 730 {
        TickScale::Months(1)
    } else {
        TickScale::Years(1)
    }
}

/// The English ordinal suffix of `day`: `th` for 11 to 13 (of every hundred), else `st`,
/// `nd`, `rd` after 1, 2, 3 and `th` after the other digits.
pub open spec fn ordinal_suffix_text(day: int) -> Seq<char> {
    if 11 <= day % 100 <= 13 {
        seq!['t', 'h']
    } else if day % 10 == 1 {
        seq!['s', 't']
    } else if day % 10 == 2 {
        seq!['n', 'd']
    } else if day % 10 == 3 {
        seq!['r', 'd']
    } else {
        seq!['t', 'h']
    }
}

/// The English ordinal suffix of `day`; see `ordinal_suffix_text`.
pub fn ordinal_suffix(day: u32) -> (r: &'static str)
    ensures
        r@ == ordinal_suffix_text(day as int),
{
    let m100 = day % 100;
    if 11 <= m100 && m100 <= 13 {
        proof {
            reveal_strlit("th");
        }
        return "th";
    }
    match day % 10 {
        1 => {
            proof {
                reveal_strlit("st");
            }
            "st"
        },
        2 => {
            proof {
                reveal_strlit("nd");
            }
            "nd"
        },
        3 => {
            proof {
                reveal_strlit("rd");
            }
            "rd"
        },
        _ => {
            proof {
                reveal_strlit("th");
            }
            "th"
        },
    }
}

/// An hour of the day on the twelve-hour clock with `a` or `p`: 0 is `12a`, 13 is `1p`.
pub open spec fn hour_label_text(hour: int) -> Seq<char> {
    decimal((((hour + 11) % 12) + 1) as nat) + if hour < 12 {
        seq!['a']
    } else {
        seq!['p']
    }
}

/// An hour of the day as a tick label; see `hour_label_text`.
pub fn format_hour_label(hour: u32) -> (r: String)
    requires
        hour < 4_294_967_284,
    ensures
        r@ == hour_label_text(hour as int),
{
    let hour12 = ((hour + 11) % 12) + 1;
    let mut r = String::new();
    push_decimal(&mut r, hour12 as u64);
    push_char(&mut r, if hour < 12 {
        'a'
    } else {
        'p'
    });
    proof {
        assert(r@ =~= hour_label_text(hour as int));
    }
    r
}

/// The abbreviated English name of month `month` (1 to 12) with a full stop; empty for
/// other numbers.
pub open spec fn month_text(month: int) -> Seq<char> {
    if month == 1 {
        seq!['J', 'a', 'n', '.']
    } else if month == 2 {
        seq!['F', 'e', 'b', '.']
    } else if month == 3 {
        seq!['M', 'a', 'r', '.']
    } else if month == 4 {
        seq!['A', 'p', 'r', '.']
    } else if month == 5 {
        seq!['M', 'a', 'y', '.']
    } else if month == 6 {
        seq!['J', 'u', 'n', '.']
    } else if month == 7 {
        seq!['J', 'u', 'l', '.']
    } else if month == 8 {
        seq!['A', 'u', 'g', '.']
    } else if month == 9 {
        seq!['S', 'e', 'p', '.']
    } else if month == 10 {
        seq!['O', 'c', 't', '.']
    } else if month == 11 {
        seq!['N', 'o', 'v', '.']
    } else if month == 12 {
        seq!['D', 'e', 'c', '.']
    } else {
        Seq::empty()
    }
}

/// The abbreviated name of a month; see `month_text`.
pub fn month_label(month: u32) -> (r: &'static str)
    ensures
        r@ == month_text(month as int),
{
    match month {
        1 => {
            proof { reveal_strlit("Jan."); }
            "Jan."
        },
        2 => {
            proof { reveal_strlit("Feb."); }
            "Feb."
        },
        3 => {
            proof { reveal_strlit("Mar."); }
            "Mar."
        },
        4 => {
            proof { reveal_strlit("Apr."); }
            "Apr."
        },
        5 => {
            proof { reveal_strlit("May."); }
            "May."
        },
        6 => {
            proof { reveal_strlit("Jun."); }
            "Jun."
        },
        7 => {
            proof { reveal_strlit("Jul."); }
            "Jul."
        },
        8 => {
            proof { reveal_strlit("Aug."); }
            "Aug."
        },
        9 => {
            proof { reveal_strlit("Sep."); }
            "Sep."
        },
        10 => {
            proof { reveal_strlit("Oct."); }
            "Oct."
        },
        11 => {
            proof { reveal_strlit("Nov."); }
            "Nov."
        },
        12 => {
            proof { reveal_strlit("Dec."); }
            "Dec."
        },
        _ => {
            proof { reveal_strlit(""); }
            ""
        },
    }
}

/// Writes `label` into `buffer` from position `start` on, dropping what falls past its end.
pub fn write_label(buffer: &mut Vec<char>, start: usize, label: &str)
    ensures
        final(buffer)@ == overlay_seq(old(buffer)@, start as int, label@),
{
    let chars = chars_of(label);
    let ghost b0 = buffer@;
    let mut i: usize = 0;
    while i < chars.len() && start < buffer.len() && i < buffer.len() - start
        invariant
            i <= chars.len(),
            chars@ == label@,
            buffer@.len() == b0.len(),
            forall|j: int|
                0 <= j < b0.len() ==> #[trigger] buffer@[j] == if start <= j < start + i {
                    label@[j - start]
                } else {
                    b0[j]
                },
        decreases chars.len() - i,
    {
        buffer.set(start + i, chars[i]);
        i = i + 1;
    }
    proof {
        assert(buffer@ =~= overlay_seq(b0, start as int, label@));
    }
}

/// `overlay` written over `base` from character `offset` on, cut to the length of `base`.
pub fn overlay_line_with_offset(base: &str, overlay: &str, offset: usize) -> (r: String)
    ensures
        r@ == overlay_seq(base@, offset as int, overlay@),
{
    let mut buffer = chars_of(base);
    write_label(&mut buffer, offset, overlay);
    string_of(&buffer)
}

/// The label of a tick at a local time whose hour, day, month and year are given: a day
/// with its ordinal suffix at midnight (or on a daily or weekly scale), else the hour; the
/// month's name on a monthly scale; the last two digits of the year on a yearly one.
pub open spec fn tick_label_text(scale: TickScale, hour: int, day: int, month: int, year: int) -> Seq<char> {
    match scale {
        TickScale::Hours(_) => if hour == 0 {
            decimal(day as nat) + ordinal_suffix_text(day)
        } else {
            hour_label_text(hour)
        },
        TickScale::Days(_) => decimal(day as nat) + ordinal_suffix_text(day),
        TickScale::Weeks(_) => decimal(day as nat) + ordinal_suffix_text(day),
        TickScale::Months(_) => month_text(month),
        TickScale::Years(_) => two_digit_year(year),
    }
}

/// The year modulo 100 as Rust's `%` gives it, padded to two digits with zeros (a minus
/// sign counting as a digit).
pub open spec fn two_digit_year(year: int) -> Seq<char> {
    let r = if year >= 0 {
        year % 100
    } else {
        -((-year) % 100)
    };
    if r >= 10 {
        decimal(r as nat)
    } else if r >= 0 {
        seq!['0'] + decimal(r as nat)
    } else {
        seq!['-'] + decimal((-r) as nat)
    }
}

/// The label of a tick; see `tick_label_text`.
pub fn tick_label(scale: TickScale, hour: u32, day: u32, month: u32, year: i32) -> (r: String)
    requires
        hour < 24,
    ensures
        r@ == tick_label_text(scale, hour as int, day as int, month as int, year as int),
{
    match scale {
        TickScale::Hours(_) => {
            if hour == 0 {
                day_label(day)
            } else {
                format_hour_label(hour)
            }
        },
        TickScale::Days(_) => day_label(day),
        TickScale::Weeks(_) => day_label(day),
        TickScale::Months(_) => {
            let m = month_label(month);
            m.to_owned()
        },
        TickScale::Years(_) => {
            let r: i32 = year % 100;
            let mut s = String::new();
            if r >= 10 {
                push_decimal(&mut s, r as u64);
            } else if r >= 0 {
                push_char(&mut s, '0');
                push_decimal(&mut s, r as u64);
            } else {
                push_char(&mut s, '-');
                push_decimal(&mut s, (-r) as u64);
            }
            proof {
                assert(s@ =~= two_digit_year(year as int));
            }
            s
        },
    }
}

/// A day of the month with its ordinal suffix.
fn day_label(day: u32) -> (r: String)
    ensures
        r@ == decimal(day as nat) + ordinal_suffix_text(day as int),
{
    let mut s = String::new();
    push_decimal(&mut s, day as u64);
    s.append(ordinal_suffix(day));
    proof {
        assert(s@ =~= decimal(day as nat) + ordinal_suffix_text(day as int));
    }
    s
}

// ---------------------------------------------------------------------------------------
// Placing ticks on the row
// ---------------------------------------------------------------------------------------

/// Rust's integer division of `a` by a positive `b`, rounding toward zero.
pub open spec fn div_toward_zero(a: int, b: int) -> int {
    if a >= 0 {
        a / b
    } else {
        -((-a) / b)
    }
}

/// The column of a tick at `tick_ms` on a row `width` wide that starts at `start_ms` and
/// spans `scale_ms`: the offset times the width over the span, rounded toward zero and cut
/// to an `i64` as a cast cuts it.
pub open spec fn tick_column(tick_ms: int, start_ms: int, width: int, scale_ms: int) -> int {
    div_toward_zero((tick_ms - start_ms) * width, scale_ms) as i64 as int
}

/// `row` once the ticks of `ticks` are placed on it in turn: a tick whose column falls on
/// the row puts `│` there and its label right after it, cut at the row's end.
pub open spec fn ticks_placed(row: Seq<char>, ticks: Seq<(i64, Seq<char>)>, start_ms: int, scale_ms: int) -> Seq<char>
    decreases ticks.len(),
{
    if ticks.len() == 0 {
        row
    } else {
        let before = ticks_placed(row, ticks.drop_last(), start_ms, scale_ms);
        let pos = tick_column(ticks.last().0 as int, start_ms, row.len() as int, scale_ms);
        if 0 <= pos < before.len() {
            overlay_seq(before.update(pos, '│'), pos + 1, ticks.last().1)
        } else {
            before
        }
    }
}

/// `ticks_placed` keeps the row's length.
proof fn lemma_ticks_placed_len(row: Seq<char>, ticks: Seq<(i64, Seq<char>)>, start_ms: int, scale_ms: int)
    ensures
        ticks_placed(row, ticks, start_ms, scale_ms).len() == row.len(),
    decreases ticks.len(),
{
    if ticks.len() > 0 {
        lemma_ticks_placed_len(row, ticks.drop_last(), start_ms, scale_ms);
    }
}

/// The ticks as plain values.
pub open spec fn ticks_view(ticks: Seq<(i64, String)>) -> Seq<(i64, Seq<char>)> {
    ticks.map_values(|t: (i64, String)| (t.0, t.1@))
}

/// A row of `width` spaces with `ticks` placed on it; see `ticks_placed`. The row starts at
/// `start_ms` and spans `scale_ms`.
pub fn place_ticks(width: usize, start_ms: i64, scale_ms: u64, ticks: &Vec<(i64, String)>) -> (r: String)
    requires
        scale_ms > 0,
        width <= i64::MAX,
    ensures
        r@ == ticks_placed(repeat_seq(' ', width as nat), ticks_view(ticks@), start_ms as int, scale_ms as int),
{
    let ghost blank = repeat_seq(' ', width as nat);
    let ghost tv = ticks_view(ticks@);
    let mut buffer: Vec<char> = Vec::new();
    let mut k: usize = 0;
    while k < width
        invariant
            k <= width,
            buffer@ == repeat_seq(' ', k as nat),
        decreases width - k,
    {
        buffer.push(' ');
        k = k + 1;
        proof {
            assert(buffer@ =~= repeat_seq(' ', k as nat));
        }
    }
    let mut i: usize = 0;
    proof {
        assert(tv.take(0) =~= Seq::<(i64, Seq<char>)>::empty());
    }
    while i < ticks.len()
        invariant
            i <= ticks@.len(),
            width <= i64::MAX,
            scale_ms > 0,
            blank == repeat_seq(' ', width as nat),
            tv == ticks_view(ticks@),
            buffer@ == ticks_placed(blank, tv.take(i as int), start_ms as int, scale_ms as int),
            buffer@.len() == width,
        decreases ticks@.len() - i,
    {
        proof {
            assert(tv.take(i + 1).drop_last() =~= tv.take(i as int));
            assert(tv.take(i + 1).last() == tv[i as int]);
        }
        let t = ticks[i].0;
        let diff: i128 = t as i128 - start_ms as i128;
        let w: i128 = width as i128;
        proof {
            assert(-18_446_744_073_709_551_615 <= diff <= 18_446_744_073_709_551_615);
            assert(0 <= w <= 9_223_372_036_854_775_807);
            assert(-170_141_183_460_469_231_704_017_187_605_319_778_305 <= diff * w
                <= 170_141_183_460_469_231_704_017_187_605_319_778_305) by (nonlinear_arith)
                requires
                    -18_446_744_073_709_551_615 <= diff <= 18_446_744_073_709_551_615,
                    0 <= w <= 9_223_372_036_854_775_807,
            ;
        }
        let product: i128 = diff * w;
        let quotient: i128 = if product >= 0 {
            (product as u128 / scale_ms as u128) as i128
        } else {
            let magnitude: u128 = (0 - product) as u128;
            let q: u128 = magnitude / scale_ms as u128;
            proof {
                assert(q <= magnitude) by (nonlinear_arith)
                    requires
                        q == magnitude / scale_ms as u128,
                        scale_ms > 0,
                ;
            }
            (0 - q as i128) as i128
        };
        proof {
            if product >= 0 {
                assert(product as u128 / scale_ms as u128 <= product as u128) by (nonlinear_arith)
                    requires
                        product >= 0,
                        scale_ms > 0,
                ;
            }
        }
        let pos: i64 = quotient as i64;
        proof {
            assert(pos as int == tick_column(t as int, start_ms as int, width as int, scale_ms as int));
        }
        if pos >= 0 && (pos as i128) < (width as i128) {
            let idx = pos as usize;
            buffer.set(idx, '│');
            write_label(&mut buffer, idx + 1, ticks[i].1.as_str());
        }
        proof {
            assert(tv[i as int] == (ticks@[i as int].0, ticks@[i as int].1@));
            lemma_ticks_placed_len(blank, tv.take(i as int), start_ms as int, scale_ms as int);
            assert(blank.len() == width);
        }
        i = i + 1;
    }
    proof {
        assert(tv.take(ticks@.len() as int) =~= tv);
    }
    string_of(&buffer)
}

// ---------------------------------------------------------------------------------------
// Finding the ticks
// ---------------------------------------------------------------------------------------

/// The day, counted from the start of the era, that lies `months` months after `day`, the
/// day of the month kept where the month has it; `None` beyond chrono's dates.
pub uninterp spec fn months_later_day(day: i32, months: u32) -> Option<i32>;

/// The day, counted from the start of the era (January 1 of year 1 is day 1), of January
/// 1 of `year` in the proleptic Gregorian calendar: 365 days for each year before it, one
/// more for each leap year among them; `None` beyond chrono's years (-262143 to 262142).
pub open spec fn new_year_day(year: i32) -> Option<i32> {
    if -262_143 <= year <= 262_142 {
        let y = year - 1;
        Some((365 * y + y / 4 - y / 100 + y / 400 + 1) as i32)
    } else {
        None
    }
}

/// Calls `NaiveDate::from_num_days_from_ce_opt(day)`, then `checked_add_months` with
/// `months`, and returns the resulting day's `num_days_from_ce`. The calendar arithmetic is
/// named, not stated.
#[verifier::external_body]
fn months_later(day: i32, months: u32) -> (r: Option<i32>)
    ensures
        r == months_later_day(day, months),
{
    let date = chrono::NaiveDate::from_num_days_from_ce_opt(day)?;
    let later = date.checked_add_months(chrono::Months::new(months))?;
    Some(chrono::Datelike::num_days_from_ce(&later))
}

/// Calls `NaiveDate::from_ymd_opt(year, 1, 1)` and returns that day's `num_days_from_ce`:
/// chrono has the date for every year from -262143 to 262142, and counts the days of the
/// proleptic Gregorian calendar; see `new_year_day`.
#[verifier::external_body]
fn new_year(year: i32) -> (r: Option<i32>)
    ensures
        r == new_year_day(year),
{
    let date = chrono::NaiveDate::from_ymd_opt(year, 1, 1)?;
    Some(chrono::Datelike::num_days_from_ce(&date))
}

/// Local midnight of `day`, or `None` when the day cannot be had.
fn midnight_of(day: i64) -> Option<i64> {
    local_midnight_millis(day)
}

/// The hour an hour tick is aligned to: the multiple of `step` at or before `hour`.
pub fn aligned_hour(hour: u32, step: u32) -> (r: u32)
    requires
        step > 0,
    ensures
        r % step == 0,
        r <= hour < r + step,
{
    proof {
        let h = hour as int;
        let st = step as int;
        vstd::arithmetic::div_mod::lemma_fundamental_div_mod(h, st);
        vstd::arithmetic::div_mod::lemma_mod_multiples_basic(h / st, st);
        assert(h - h % st == (h / st) * st) by (nonlinear_arith)
            requires
                h == st * (h / st) + h % st,
        ;
    }
    hour - hour % step
}

/// The first hour tick at or after `start_ms`, given `at`, the instant of the aligned local
/// hour (`None` when that local time cannot be had, which counts as `start_ms` itself): that
/// instant when it is not before `start_ms`, else `step` hours after it; `None` when that
/// does not fit an `i64`.
pub open spec fn hour_tick(start_ms: int, at: Option<i64>, step: int) -> Option<i64> {
    let c = match at {
        Some(c) => c as int,
        None => start_ms,
    };
    if c >= start_ms {
        Some(c as i64)
    } else if c + step * 3_600_000 <= i64::MAX {
        Some((c + step * 3_600_000) as i64)
    } else {
        None
    }
}

/// The first hour tick at or after `start_ms`; see `hour_tick`.
pub fn hour_tick_from(start_ms: i64, at: Option<i64>, step: u32) -> (r: Option<i64>)
    ensures
        r == hour_tick(start_ms as int, at, step as int),
{
    let candidate = match at {
        Some(c) => c,
        None => start_ms,
    };
    if candidate < start_ms {
        let later = candidate as i128 + step as i128 * 3_600_000;
        if later > i64::MAX as i128 {
            return None;
        }
        Some(later as i64)
    } else {
        Some(candidate)
    }
}

/// The first tick at or after `start_ms` on the scale, as the local calendar gives it: the
/// hour at or after it that is a multiple of the step, or the first local midnight of a
/// day, a week (from Monday), a month or a year not before it. `None` when a local time it
/// needs cannot be had.
fn align_tick(start_ms: i64, scale: TickScale) -> (r: Option<i64>)
    requires
        scale matches TickScale::Hours(step) ==> step > 0,
    ensures
        scale is Hours && -8_000_000_000_000_000 <= start_ms <= 8_000_000_000_000_000 ==> r is Some,
{
    let p = match local_parts_of(start_ms) {
        Some(p) => p,
        None => {
            return None;
        },
    };
    let day = p.day as i64;
    match scale {
        TickScale::Hours(step) => {
            let aligned = aligned_hour(p.hour, step);
            hour_tick_from(start_ms, local_hour_millis(p.day, aligned), step)
        },
        TickScale::Days(step) => {
            let candidate = midnight_of(day)?;
            if candidate < start_ms {
                let next = day as i128 + step as i128;
                if next < i64::MIN as i128 || next > i64::MAX as i128 {
                    return None;
                }
                midnight_of(next as i64)
            } else {
                Some(candidate)
            }
        },
        TickScale::Weeks(step) => {
            let monday = day - p.weekday as i64;
            let candidate = midnight_of(monday)?;
            if candidate < start_ms {
                let days = step as i128 * 7;
                let next = monday as i128 + days;
                if next < i64::MIN as i128 || next > i64::MAX as i128 {
                    return None;
                }
                midnight_of(next as i64)
            } else {
                Some(candidate)
            }
        },
        TickScale::Months(step) => {
            let first = day - (p.day_of_month as i64 - 1);
            let candidate = midnight_of(first)?;
            if candidate < start_ms {
                if first < i32::MIN as i64 || first > i32::MAX as i64 {
                    return None;
                }
                let next = months_later(first as i32, step)?;
                midnight_of(next as i64)
            } else {
                Some(candidate)
            }
        },
        TickScale::Years(step) => {
            let first = day - (p.ordinal as i64 - 1);
            let candidate = midnight_of(first)?;
            if candidate < start_ms {
                let year = p.year as i64 + step as i64;
                if year < i32::MIN as i64 || year > i32::MAX as i64 {
                    return None;
                }
                let next = new_year(year as i32)?;
                midnight_of(next as i64)
            } else {
                Some(candidate)
            }
        },
    }
}

/// The instant `step_ms` milliseconds after `current`, `None` when it does not fit an
/// `i64`.
pub open spec fn fixed_step_tick(current: int, step_ms: int) -> Option<i64> {
    if i64::MIN <= current + step_ms <= i64::MAX {
        Some((current + step_ms) as i64)
    } else {
        None
    }
}

/// The tick after `current` on the scale: the step's hours, days or weeks later, or local
/// midnight of the day the step's months or years later (January 1 for years). `None`
/// when that cannot be had.
fn advance_tick(current: i64, scale: TickScale) -> (r: Option<i64>)
    ensures
        match scale {
            TickScale::Hours(step) => r == fixed_step_tick(current as int, step * 3_600_000),
            TickScale::Days(step) => r == fixed_step_tick(current as int, step * 86_400_000),
            TickScale::Weeks(step) => r == fixed_step_tick(current as int, step * 604_800_000),
            _ => true,
        },
{
    match scale {
        TickScale::Hours(step) => {
            let next = current as i128 + step as i128 * 3_600_000;
            if next > i64::MAX as i128 {
                None
            } else {
                Some(next as i64)
            }
        },
        TickScale::Days(step) => {
            let next = current as i128 + step as i128 * 86_400_000;
            if next < i64::MIN as i128 || next > i64::MAX as i128 {
                None
            } else {
                Some(next as i64)
            }
        },
        TickScale::Weeks(step) => {
            let next = current as i128 + step as i128 * 604_800_000;
            if next < i64::MIN as i128 || next > i64::MAX as i128 {
                None
            } else {
                Some(next as i64)
            }
        },
        TickScale::Months(step) => {
            let p = local_parts_of(current)?;
            let next = months_later(p.day, step)?;
            midnight_of(next as i64)
        },
        TickScale::Years(step) => {
            let p = local_parts_of(current)?;
            let year = p.year as i64 + step as i64;
            if year < i32::MIN as i64 || year > i32::MAX as i64 {
                return None;
            }
            let next = new_year(year as i32)?;
            midnight_of(next as i64)
        },
    }
}

/// Each tick comes after the one before it.
pub open spec fn ticks_increasing(ticks: Seq<(i64, String)>) -> bool {
    forall|i: int, j: int| 0 <= i < j < ticks.len() ==> ticks[i].0 < ticks[j].0
}

/// `label` is the label of a tick on `scale` at some local hour, day of the month, month
/// and year.
pub open spec fn is_tick_label(scale: TickScale, label: Seq<char>) -> bool {
    exists|hour: int, day: int, month: int, year: int|
        0 <= hour < 24 && #[trigger] tick_label_text(scale, hour, day, month, year) == label
}

/// A list of ticks on `scale` that can stand before `end_ms`: in increasing order, each
/// before `end_ms`, each with a tick label of the scale.
pub open spec fn tick_list(ticks: Seq<(i64, Seq<char>)>, end_ms: int, scale: TickScale) -> bool {
    &&& forall|i: int, j: int| 0 <= i < j < ticks.len() ==> ticks[i].0 < ticks[j].0
    &&& forall|k: int| 0 <= k < ticks.len() ==> (#[trigger] ticks[k]).0 < end_ms && is_tick_label(scale, ticks[k].1)
}

/// The ticks before `end_ms` from the first one at or after `start_ms` on, each with its
/// label (see `tick_label`), in order; a tick whose local time cannot be had gets none, and
/// the ticks stop where the next cannot be had.
fn collect_ticks(start_ms: i64, end_ms: i64, scale: TickScale) -> (r: Vec<(i64, String)>)
    requires
        scale matches TickScale::Hours(step) ==> step > 0,
    ensures
        ticks_increasing(r@),
        forall|k: int| 0 <= k < r@.len() ==> (#[trigger] r@[k]).0 < end_ms,
        tick_list(ticks_view(r@), end_ms as int, scale),
{
    let mut out: Vec<(i64, String)> = Vec::new();
    let mut tick = match align_tick(start_ms, scale) {
        Some(t) => t,
        None => {
            return out;
        },
    };
    while tick < end_ms
        invariant_except_break
            forall|k: int| 0 <= k < out@.len() ==> (#[trigger] out@[k]).0 < tick,
        invariant
            ticks_increasing(out@),
            forall|k: int| 0 <= k < out@.len() ==> (#[trigger] out@[k]).0 < end_ms,
            forall|k: int| 0 <= k < out@.len() ==> is_tick_label(scale, (#[trigger] out@[k]).1@),
        ensures
            ticks_increasing(out@),
            forall|k: int| 0 <= k < out@.len() ==> (#[trigger] out@[k]).0 < end_ms,
            forall|k: int| 0 <= k < out@.len() ==> is_tick_label(scale, (#[trigger] out@[k]).1@),
        decreases if tick < end_ms {
            end_ms as int - tick as int
        } else {
            0int
        },
    {
        match local_parts_of(tick) {
            Some(p) => {
                let label = tick_label(scale, p.hour, p.day_of_month, p.month, p.year);
                proof {
                    assert(tick_label_text(scale, p.hour as int, p.day_of_month as int, p.month as int, p.year as int) == label@);
                }
                out.push((tick, label));
            },
            None => {},
        }
        match advance_tick(tick, scale) {
            Some(next) => {
                if next <= tick {
                    break;
                }
                tick = next;
            },
            None => {
                break;
            },
        }
    }
    proof {
        assert forall|k: int| 0 <= k < ticks_view(out@).len() implies (#[trigger] ticks_view(out@)[k]).0 < end_ms
            && is_tick_label(scale, ticks_view(out@)[k].1) by {
            assert(ticks_view(out@)[k] == (out@[k].0, out@[k].1@));
        }
    }
    out
}

/// The tick row over the timeline, `width` columns wide: blank when the focused interval
/// spans nothing, else the ticks of the focused interval on the step `select_tick_scale`
/// gives (see `place_ticks`). Labels are written whatever `labels` says.
pub fn tick_row(settings: &Settings, width: usize, labels: bool) -> (r: String)
    requires
        width <= i64::MAX,
    ensures
        r@.len() == width,
        (settings.focused_interval.end - settings.focused_interval.start) as u64 == 0 ==> r@ == repeat_seq(
            ' ',
            width as nat,
        ),
        exists|ticks: Seq<(i64, Seq<char>)>|
            #[trigger] tick_list(
                ticks,
                settings.focused_interval.end as int,
                tick_scale_for((settings.focused_interval.end - settings.focused_interval.start) as u64 as int),
            ) && r@ == ticks_placed(
                repeat_seq(' ', width as nat),
                ticks,
                settings.focused_interval.start as int,
                (settings.focused_interval.end - settings.focused_interval.start) as u64 as int,
            ),
{
    let ghost no_ticks = Seq::<(i64, Seq<char>)>::empty();
    proof {
        assert(tick_list(
            no_ticks,
            settings.focused_interval.end as int,
            tick_scale_for((settings.focused_interval.end - settings.focused_interval.start) as u64 as int),
        ));
    }
    if width == 0 {
        proof {
            assert(repeat_seq(' ', 0) =~= Seq::<char>::empty());
        }
        return String::new();
    }
    let scale_ms = settings.scale();
    if scale_ms == 0 {
        return repeat_char(' ', width);
    }
    let tick_scale = select_tick_scale(scale_ms);
    let ticks = collect_ticks(settings.focused_interval.start, settings.focused_interval.end, tick_scale);
    let r = place_ticks(width, settings.focused_interval.start, scale_ms, &ticks);
    proof {
        lemma_ticks_placed_len(
            repeat_seq(' ', width as nat),
            ticks_view(ticks@),
            settings.focused_interval.start as int,
            scale_ms as int,
        );
    }
    r
}

} // verus!
