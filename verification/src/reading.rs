//! Which daily log files a change of the focused interval calls for: the time that lies in
//! exactly one of the focused and the loaded interval, kept to the focused one, and the UTC
//! days that time touches, each named `YYYY-MM-DD.csv`.
use vstd::prelude::*;

use crate::interval::{format_iso_date, interval_xor, iso_date_text, xor_pieces, Interval};
use crate::interval::utc_timestamp_valid;
use crate::text::{concat, decimal_u64, parse_u64};

verus! {

/// The piece `p` cut down to `f`, when they share any time.
pub open spec fn clip(p: (i64, i64), f: Interval) -> Seq<(i64, i64)> {
    if p.0 < f.end && p.1 > f.start {
        seq![(if p.0 > f.start { p.0 } else { f.start }, if p.1 < f.end { p.1 } else { f.end })]
    } else {
        Seq::empty()
    }
}

/// Each piece of `ps` cut down to `f`, in order, the pieces outside `f` left out.
pub open spec fn clipped(ps: Seq<(i64, i64)>, f: Interval) -> Seq<(i64, i64)>
    decreases ps.len(),
{
    if ps.len() == 0 {
        Seq::empty()
    } else {
        clipped(ps.drop_last(), f) + clip(ps.last(), f)
    }
}

/// The time that is focused but not loaded yet: the pieces in exactly one of the two
/// intervals, cut down to the focused one.
pub open spec fn pieces_to_read(focused: Interval, loaded: Interval) -> Seq<(i64, i64)> {
    clipped(xor_pieces(focused, loaded), focused)
}

/// The UTC day of the instant `ms`, counted as chrono counts days from the start of the
/// era (1970-01-01 is day 719163).
pub open spec fn utc_day(ms: i64) -> int {
    ms as int / 86_400_000 + 719_163
}

/// Day `d` lies between the UTC days of the start and of the end of `p`, both included.
pub open spec fn in_piece(p: (i64, i64), d: int) -> bool {
    utc_day(p.0) <= d <= utc_day(p.1)
}

/// Some piece of `ps` touches day `d`.
pub open spec fn day_wanted(ps: Seq<(i64, i64)>, d: int) -> bool {
    exists|i: int| 0 <= i < ps.len() && #[trigger] in_piece(ps[i], d)
}

/// Each day comes after the one before it.
pub open spec fn strictly_increasing(s: Seq<i64>) -> bool {
    forall|i: int, j: int| 0 <= i < j < s.len() ==> s[i] < s[j]
}

/// The name of the log file of day `day`.
pub open spec fn file_name_text(day: i64) -> Seq<char> {
    iso_date_text(day as i32) + seq!['.', 'c', 's', 'v']
}

/// Proves that the pieces to read hold exactly the focused time that is not loaded yet:
/// for intervals that do not end before they start, an instant lies in some piece of
/// `pieces_to_read` if and only if it lies in `focused` and not in `loaded`.
pub proof fn lemma_pieces_to_read_exact(focused: Interval, loaded: Interval, t: int)
    requires
        focused.start <= focused.end,
        loaded.start <= loaded.end,
    ensures
        (exists|i: int|
            0 <= i < pieces_to_read(focused, loaded).len() && pieces_to_read(focused, loaded)[i].0 <= t
                < #[trigger] pieces_to_read(focused, loaded)[i].1) <==> (focused.start <= t < focused.end
            && !(loaded.start <= t < loaded.end)),
{
    let xs = xor_pieces(focused, loaded);
    let ps = pieces_to_read(focused, loaded);
    assert(xs.len() <= 2);
    if xs.len() == 0 {
        assert(ps =~= Seq::<(i64, i64)>::empty());
    } else if xs.len() == 1 {
        let e = Seq::<(i64, i64)>::empty();
        assert(xs.drop_last() =~= e);
        assert(clipped(e, focused) =~= e);
        assert(ps =~= clip(xs[0], focused));
    } else {
        let e = Seq::<(i64, i64)>::empty();
        let one = xs.drop_last();
        assert(one.drop_last() =~= e);
        assert(clipped(e, focused) =~= e);
        assert(one.last() == xs[0]);
        assert(clipped(one, focused) =~= clip(xs[0], focused));
        assert(ps =~= clip(xs[0], focused) + clip(xs[1], focused));
    }
    if focused.start <= t < focused.end && !(loaded.start <= t < loaded.end) {
        if ps.len() > 0 && ps[0].0 <= t < ps[0].1 {
        } else if ps.len() > 1 {
            assert(ps[1].0 <= t < ps[1].1);
        } else {
            assert(false);
        }
    }
}

/// The pieces of time to read when `focused` is shown and `loaded` has been read; see
/// `pieces_to_read`.
pub fn intervals_to_read(focused: &Interval, loaded: &Interval) -> (r: Vec<Interval>)
    ensures
        r@.len() == pieces_to_read(*focused, *loaded).len(),
        forall|i: int|
            0 <= i < r@.len() ==> (#[trigger] r@[i]).start == pieces_to_read(*focused, *loaded)[i].0
                && r@[i].end == pieces_to_read(*focused, *loaded)[i].1 && !r@[i].changed,
{
    let pieces = interval_xor(focused, loaded);
    let ghost xs = xor_pieces(*focused, *loaded);
    let mut r: Vec<Interval> = Vec::new();
    let mut i: usize = 0;
    proof {
        assert(xs.take(0) =~= Seq::<(i64, i64)>::empty());
    }
    while i < pieces.len()
        invariant
            i <= pieces@.len(),
            pieces@.len() == xs.len(),
            xs == xor_pieces(*focused, *loaded),
            forall|k: int|
                0 <= k < pieces@.len() ==> (#[trigger] pieces@[k]).start == xs[k].0 && pieces@[k].end
                    == xs[k].1,
            r@.len() == clipped(xs.take(i as int), *focused).len(),
            forall|k: int|
                0 <= k < r@.len() ==> (#[trigger] r@[k]).start == clipped(xs.take(i as int), *focused)[k].0
                    && r@[k].end == clipped(xs.take(i as int), *focused)[k].1 && !r@[k].changed,
        decreases pieces@.len() - i,
    {
        proof {
            assert(xs.take(i + 1).drop_last() =~= xs.take(i as int));
            assert(xs.take(i + 1).last() == xs[i as int]);
        }
        let ghost before = clipped(xs.take(i as int), *focused);
        let ghost now = clipped(xs.take(i + 1), *focused);
        match pieces[i].overlap(focused) {
            Some(o) => {
                r.push(o);
                proof {
                    assert(now =~= before + clip(xs[i as int], *focused));
                    assert forall|k: int| 0 <= k < r@.len() implies (#[trigger] r@[k]).start == now[k].0
                        && r@[k].end == now[k].1 && !r@[k].changed by {}
                }
            },
            None => {
                proof {
                    assert(now =~= before);
                }
            },
        }
        i = i + 1;
    }
    proof {
        assert(xs.take(xs.len() as int) =~= xs);
    }
    r
}

/// The UTC day of the instant `ms`; see `utc_day`.
fn day_of_millis(ms: i64) -> (r: i64)
    ensures
        r == utc_day(ms),
{
    let k: u128 = 106_751_991_168;
    let shifted: u128 = (ms as i128 + 9_223_372_036_915_200_000i128) as u128;
    let q: u128 = shifted / 86_400_000;
    proof {
        let x = ms as int;
        let d = 86_400_000int;
        let r = shifted as int % d;
        assert(shifted as int == q as int * d + r);
        assert(x == (q as int - k as int) * d + r) by (nonlinear_arith)
            requires
                shifted as int == q as int * d + r,
                shifted as int == x + k as int * d,
        ;
        vstd::arithmetic::div_mod::lemma_fundamental_div_mod_converse(x, d, q as int - k as int, r);
    }
    (q as i128 - k as i128 + 719_163) as i64
}

/// Adds `d` to the increasing days of `v`, where it belongs, unless it is there already.
fn insert_day(v: &mut Vec<i64>, d: i64)
    requires
        strictly_increasing(old(v)@),
    ensures
        strictly_increasing(final(v)@),
        forall|x: i64| final(v)@.contains(x) <==> (old(v)@.contains(x) || x == d),
{
    let mut i: usize = 0;
    while i < v.len() && v[i] < d
        invariant
            i <= v@.len(),
            v@ == old(v)@,
            strictly_increasing(v@),
            forall|k: int| 0 <= k < i ==> v@[k] < d,
        decreases v@.len() - i,
    {
        i = i + 1;
    }
    if i < v.len() && v[i] == d {
        proof {
            assert(v@[i as int] == d);
            assert forall|x: i64| v@.contains(x) <==> (old(v)@.contains(x) || x == d) by {
                if x == d {
                    assert(v@[i as int] == d);
                }
            }
        }
        return;
    }
    let ghost s = v@;
    assert(s == old(v)@);
    v.insert(i, d);
    proof {
        assert(v@ =~= s.insert(i as int, d));
        assert forall|a: int, b: int| 0 <= a < b < v@.len() implies v@[a] < v@[b] by {
            if b < i {
            } else if b == i {
            } else if a < i {
                assert(s[a] < d);
                assert(d <= s[i as int]);
                assert(s[i as int] <= s[b - 1]);
            } else if a == i {
                assert(d <= s[i as int]);
                if b - 1 > i {
                    assert(s[i as int] < s[b - 1]);
                }
                assert(s[i as int] != d);
            } else {
                assert(s[a - 1] < s[b - 1]);
            }
        }
        assert forall|x: i64| v@.contains(x) <==> (old(v)@.contains(x) || x == d) by {
            if x == d {
                assert(v@[i as int] == d);
            } else if s.contains(x) {
                let j = choose|j: int| 0 <= j < s.len() && s[j] == x;
                if j < i {
                    assert(v@[j] == x);
                } else {
                    assert(v@[j + 1] == x);
                }
            }
            if v@.contains(x) {
                let j = choose|j: int| 0 <= j < v@.len() && v@[j] == x;
                if j < i {
                    assert(s[j] == x);
                } else if j > i {
                    assert(s[j - 1] == x);
                }
            }
        }
    }
}

/// The UTC days whose log files hold the time to read when `focused` is shown and `loaded`
/// has been read, in increasing order, each once; see `pieces_to_read` and `day_wanted`.
pub fn days_to_read(focused: &Interval, loaded: &Interval) -> (r: Vec<i64>)
    ensures
        strictly_increasing(r@),
        forall|d: i64| r@.contains(d) <==> day_wanted(pieces_to_read(*focused, *loaded), d as int),
        forall|d: int| day_wanted(pieces_to_read(*focused, *loaded), d) ==> i64::MIN <= d <= i64::MAX,
{
    let pieces = intervals_to_read(focused, loaded);
    let ghost ps = pieces_to_read(*focused, *loaded);
    let mut days: Vec<i64> = Vec::new();
    let mut i: usize = 0;
    while i < pieces.len()
        invariant
            i <= pieces@.len(),
            ps == pieces_to_read(*focused, *loaded),
            pieces@.len() == ps.len(),
            forall|k: int|
                0 <= k < pieces@.len() ==> (#[trigger] pieces@[k]).start == ps[k].0 && pieces@[k].end
                    == ps[k].1,
            strictly_increasing(days@),
            forall|x: i64| days@.contains(x) <==> day_wanted(ps.take(i as int), x as int),
        decreases pieces@.len() - i,
    {
        let first = day_of_millis(pieces[i].start);
        let last = day_of_millis(pieces[i].end);
        let mut cur: i64 = first;
        proof {
            assert forall|x: i64| day_wanted(ps.take(i + 1), x as int) <==> (day_wanted(
                ps.take(i as int),
                x as int,
            ) || in_piece(ps[i as int], x as int)) by {
                if day_wanted(ps.take(i + 1), x as int) {
                    let j = choose|j: int| 0 <= j < i + 1 && #[trigger] in_piece(ps.take(i + 1)[j], x as int);
                    if j < i {
                        assert(ps.take(i as int)[j] == ps.take(i + 1)[j]);
                    }
                }
                if day_wanted(ps.take(i as int), x as int) {
                    let j = choose|j: int| 0 <= j < i && #[trigger] in_piece(ps.take(i as int)[j], x as int);
                    assert(ps.take(i + 1)[j] == ps.take(i as int)[j]);
                }
                if in_piece(ps[i as int], x as int) {
                    assert(ps.take(i + 1)[i as int] == ps[i as int]);
                }
            }
        }
        while cur <= last
            invariant
                i < ps.len(),
                first == utc_day(ps[i as int].0),
                last == utc_day(ps[i as int].1),
                first <= cur,
                cur <= last + 1 || cur == first,
                strictly_increasing(days@),
                forall|x: i64| days@.contains(x) <==> (day_wanted(ps.take(i as int), x as int) || (first <= x
                    < cur)),
            decreases last + 1 - cur,
        {
            insert_day(&mut days, cur);
            cur = cur + 1;
        }
        proof {
            assert forall|x: i64| days@.contains(x) <==> day_wanted(ps.take(i + 1), x as int) by {
                assert((first <= x < cur) <==> in_piece(ps[i as int], x as int));
            }
        }
        i = i + 1;
    }
    proof {
        assert(ps.take(ps.len() as int) =~= ps);
        assert forall|d: int| day_wanted(ps, d) implies i64::MIN <= d <= i64::MAX by {
            let j = choose|j: int| 0 <= j < ps.len() && #[trigger] in_piece(ps[j], d);
            assert(utc_day(ps[j].0) >= i64::MIN as int / 86_400_000 + 719_163);
            assert(utc_day(ps[j].1) <= i64::MAX as int / 86_400_000 + 719_163);
        }
    }
    days
}

/// The names of the log files of `days`, in order. Every day within 90 million days of
/// the start of the era has one; a day beyond chrono's dates is left out.
pub fn log_file_names(days: &Vec<i64>) -> (r: Vec<String>)
    ensures
        r@.len() <= days@.len(),
        (forall|k: int| 0 <= k < days@.len() ==> -90_000_000 <= #[trigger] days@[k] <= 90_000_000) ==> (
        r@.len() == days@.len() && forall|k: int|
            0 <= k < r@.len() ==> (#[trigger] r@[k])@ == file_name_text(days@[k])),
        forall|k: int|
            0 <= k < r@.len() ==> exists|j: int| 0 <= j < days@.len() && (#[trigger] r@[k])@ == file_name_text(
                days@[j],
            ),
{
    let mut r: Vec<String> = Vec::new();
    let mut i: usize = 0;
    while i < days.len()
        invariant
            i <= days@.len(),
            r@.len() <= i,
            (forall|k: int| 0 <= k < days@.len() ==> -90_000_000 <= #[trigger] days@[k] <= 90_000_000) ==> (
            r@.len() == i && forall|k: int| 0 <= k < r@.len() ==> (#[trigger] r@[k])@ == file_name_text(days@[k])),
            forall|k: int|
                0 <= k < r@.len() ==> exists|j: int| 0 <= j < days@.len() && (#[trigger] r@[k])@ == file_name_text(
                    days@[j],
                ),
        decreases days@.len() - i,
    {
        let d = days[i];
        if -90_000_000 <= d && d <= 90_000_000 {
            match format_iso_date(d as i32) {
                Some(text) => {
                    let name = concat(text.as_str(), ".csv");
                    proof {
                        reveal_strlit(".csv");
                        assert(name@ == file_name_text(days@[i as int]));
                    }
                    r.push(name);
                },
                None => {},
            }
        }
        i = i + 1;
    }
    r
}

/// Whether a record stamped `timestamp` belongs to `interval`: `None` when the stamp is not
/// a `u64` in decimal, else whether that instant lies in the interval.
pub fn record_in_interval(interval: &Interval, timestamp: &str) -> (r: Option<bool>)
    ensures
        match decimal_u64(timestamp@) {
            None => r is None,
            Some(t) => r == Some(
                utc_timestamp_valid((t / 1000) as i64, ((t % 1000) * 1_000_000) as u32) && interval.start
                    <= t < interval.end,
            ),
        },
{
    match parse_u64(timestamp) {
        None => None,
        Some(t) => {
            let inside = interval.contains_utc_timestamp_millis(t);
            proof {
                let v = decimal_u64(timestamp@).unwrap();
                assert(t as int == v);
                assert((t / 1000) as i64 == (v / 1000) as i64);
                assert(((t % 1000) * 1_000_000) as u32 == ((v % 1000) * 1_000_000) as u32);
            }
            Some(inside)
        },
    }
}

} // verus!
