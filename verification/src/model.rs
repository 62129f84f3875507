//! The activity model: logs of focused windows, grouped by window class and title,
//! with the time spent in each.
use vstd::prelude::*;

use crate::clock::utc_now_millis;
use crate::interval::{holds_log, Interval};
use crate::sorting::{is_permutation, sort_desc_stable, stable_desc_by};
use crate::text::str_equal;

verus! {

broadcast use vstd::seq_lib::group_to_multiset_ensures;

// ---------------------------------------------------------------------------------------
// Durations
// ---------------------------------------------------------------------------------------

/// The time from `start` to `end` in milliseconds, both read as signed timestamps; a span
/// that runs backwards counts as zero.
pub open spec fn span_ms(start: u64, end: u64) -> nat {
    let d = (end as i64) as int - (start as i64) as int;
    if d > 0 {
        d as nat
    } else {
        0
    }
}

/// The duration of a log that has ended; an open log counts zero.
pub open spec fn closed_span(log: Log) -> nat {
    match log.end {
        Some(e) => span_ms(log.start, e),
        None => 0,
    }
}

/// The duration of a log, an open log being measured up to `now`.
pub open spec fn span_until(log: Log, now: u64) -> nat {
    match log.end {
        Some(e) => span_ms(log.start, e),
        None => span_ms(log.start, now),
    }
}

/// The closed duration of the log at index `k`, zero where there is none.
pub open spec fn term(logs: Seq<Log>, k: usize) -> nat {
    if k < logs.len() {
        closed_span(logs[k as int])
    } else {
        0
    }
}

/// The summed closed durations of the logs at the indices `idx`.
pub open spec fn sum_spans(logs: Seq<Log>, idx: Seq<usize>) -> nat
    decreases idx.len(),
{
    if idx.len() == 0 {
        0
    } else {
        sum_spans(logs, idx.drop_last()) + term(logs, idx.last())
    }
}

/// A `u64` result that saturates at the largest value.
pub open spec fn clamp_u64(x: nat) -> u64 {
    if x <= u64::MAX {
        x as u64
    } else {
        u64::MAX
    }
}

fn span_exec(start: u64, end: u64) -> (d: u64)
    ensures
        d == span_ms(start, end),
{
    let a = (end as i64) as i128;
    let b = (start as i64) as i128;
    let d = a - b;
    if d > 0 {
        d as u64
    } else {
        0
    }
}

proof fn lemma_span_bound(start: u64, end: u64)
    ensures
        span_ms(start, end) <= u64::MAX,
{
}

proof fn lemma_sum_push(logs: Seq<Log>, idx: Seq<usize>, k: usize)
    ensures
        sum_spans(logs, idx.push(k)) == sum_spans(logs, idx) + term(logs, k),
{
    assert(idx.push(k).drop_last() =~= idx);
}

proof fn lemma_sum_update(logs: Seq<Log>, idx: Seq<usize>, p: int, x: usize)
    requires
        0 <= p < idx.len(),
    ensures
        sum_spans(logs, idx.update(p, x)) + term(logs, idx[p]) == sum_spans(logs, idx) + term(
            logs,
            x,
        ),
    decreases idx.len(),
{
    if p == idx.len() - 1 {
        assert(idx.update(p, x).drop_last() =~= idx.drop_last());
    } else {
        assert(idx.update(p, x).drop_last() =~= idx.drop_last().update(p, x));
        lemma_sum_update(logs, idx.drop_last(), p, x);
    }
}

proof fn lemma_sum_swap_remove(logs: Seq<Log>, idx: Seq<usize>, p: int)
    requires
        0 <= p < idx.len(),
    ensures
        sum_spans(logs, idx.update(p, idx.last()).drop_last()) + term(logs, idx[p])
            == sum_spans(logs, idx),
{
    let n = idx.len();
    if p == n - 1 {
        assert(idx.update(p, idx.last()).drop_last() =~= idx.drop_last());
    } else {
        assert(idx.update(p, idx.last()).drop_last() =~= idx.drop_last().update(p, idx.last()));
        lemma_sum_update(logs, idx.drop_last(), p, idx.last());
    }
}

proof fn lemma_sum_remove(logs: Seq<Log>, idx: Seq<usize>, p: int)
    requires
        0 <= p < idx.len(),
    ensures
        sum_spans(logs, idx.remove(p)) + term(logs, idx[p]) == sum_spans(logs, idx),
    decreases idx.len(),
{
    let n = idx.len();
    if p == n - 1 {
        assert(idx.remove(p) =~= idx.drop_last());
    } else {
        assert(idx.remove(p).drop_last() =~= idx.drop_last().remove(p));
        assert(idx.remove(p).last() == idx.last());
        lemma_sum_remove(logs, idx.drop_last(), p);
    }
}

proof fn lemma_sum_multiset(logs: Seq<Log>, a: Seq<usize>, b: Seq<usize>)
    requires
        a.to_multiset() == b.to_multiset(),
    ensures
        sum_spans(logs, a) == sum_spans(logs, b),
    decreases a.len(),
{
    if a.len() == 0 {
        assert(a.to_multiset().len() == 0);
        assert(b.to_multiset().len() == b.len());
    } else {
        let x = a.last();
        assert(a.to_multiset().count(x) > 0) by {
            assert(a.contains(x));
        }
        assert(b.contains(x));
        let j = choose|j: int| 0 <= j < b.len() && b[j] == x;
        assert(a.drop_last() =~= a.remove(a.len() - 1));
        assert(a.remove(a.len() - 1).to_multiset() =~= a.to_multiset().remove(x));
        assert(b.remove(j).to_multiset() =~= b.to_multiset().remove(x));
        lemma_sum_multiset(logs, a.drop_last(), b.remove(j));
        lemma_sum_remove(logs, b, j);
    }
}

proof fn lemma_sum_bound(logs: Seq<Log>, idx: Seq<usize>)
    ensures
        sum_spans(logs, idx) <= idx.len() * (u64::MAX as nat),
    decreases idx.len(),
{
    if idx.len() > 0 {
        lemma_sum_bound(logs, idx.drop_last());
        let k = idx.last();
        if k < logs.len() {
            let log = logs[k as int];
            match log.end {
                Some(e) => lemma_span_bound(log.start, e),
                None => {},
            }
        }
        assert(idx.len() * (u64::MAX as nat) == (idx.len() - 1) * (u64::MAX as nat) + (
        u64::MAX as nat)) by (nonlinear_arith)
            requires
                idx.len() >= 1,
        ;
    }
}

proof fn lemma_sum_logs_push(logs: Seq<Log>, x: Log, idx: Seq<usize>)
    requires
        forall|q: int| 0 <= q < idx.len() ==> #[trigger] idx[q] < logs.len(),
    ensures
        sum_spans(logs.push(x), idx) == sum_spans(logs, idx),
    decreases idx.len(),
{
    if idx.len() > 0 {
        lemma_sum_logs_push(logs, x, idx.drop_last());
        assert(idx[idx.len() - 1] < logs.len());
    }
}

proof fn lemma_sum_logs_update_absent(logs: Seq<Log>, k: usize, x: Log, idx: Seq<usize>)
    requires
        k < logs.len(),
        !idx.contains(k),
    ensures
        sum_spans(logs.update(k as int, x), idx) == sum_spans(logs, idx),
    decreases idx.len(),
{
    if idx.len() > 0 {
        assert(!idx.drop_last().contains(k)) by {
            if idx.drop_last().contains(k) {
                let q = choose|q: int| 0 <= q < idx.drop_last().len() && idx.drop_last()[q] == k;
                assert(idx[q] == k);
            }
        }
        lemma_sum_logs_update_absent(logs, k, x, idx.drop_last());
        assert(idx.last() != k) by {
            assert(idx[idx.len() - 1] == idx.last());
        }
    }
}

proof fn lemma_sum_logs_update_once(logs: Seq<Log>, k: usize, x: Log, idx: Seq<usize>)
    requires
        k < logs.len(),
        idx.contains(k),
        idx.no_duplicates(),
    ensures
        sum_spans(logs.update(k as int, x), idx) + closed_span(logs[k as int]) == sum_spans(
            logs,
            idx,
        ) + closed_span(x),
    decreases idx.len(),
{
    let d = idx.drop_last();
    if idx.last() == k {
        assert(!d.contains(k)) by {
            if d.contains(k) {
                let q = choose|q: int| 0 <= q < d.len() && d[q] == k;
                assert(idx[q] == idx[idx.len() - 1]);
            }
        }
        lemma_sum_logs_update_absent(logs, k, x, d);
    } else {
        assert(d.contains(k)) by {
            let q = choose|q: int| 0 <= q < idx.len() && idx[q] == k;
            assert(idx[idx.len() - 1] == idx.last());
            assert(q != idx.len() - 1);
            assert(d[q] == k);
        }
        assert(d.no_duplicates());
        lemma_sum_logs_update_once(logs, k, x, d);
    }
}

// ---------------------------------------------------------------------------------------
// Log
// ---------------------------------------------------------------------------------------

/// One stretch of time during which a window of `class` with `title` had the focus, from
/// `start` to `end` (milliseconds since the Unix epoch); `end` is `None` while it lasts.
/// `id` is the number the log was made with (see `LogIds`): a log made later has a larger
/// one. Logs that start together are ordered by it.
pub struct Log {
    pub id: u64,
    pub start: u64,
    pub end: Option<u64>,
    pub class: String,
    pub title: String,
}

/// The numbers logs are made with. One counter serves every log a program makes: each
/// log takes the next number, so a log made later has a larger one, until the count wraps
/// past `u64::MAX`. The first number is 1.
pub struct LogIds {
    pub next: u64,
}

/// The number after `n`, wrapping past `u64::MAX` to 0.
pub open spec fn next_id(n: u64) -> u64 {
    if n == u64::MAX {
        0
    } else {
        (n + 1) as u64
    }
}

/// The number `k` places after `n`, wrapping past `u64::MAX`.
pub open spec fn id_after(n: u64, k: int) -> u64 {
    ((n + k) % 0x1_0000_0000_0000_0000) as u64
}

/// Taking one more number moves one place further.
pub proof fn lemma_next_id(n: u64, k: int)
    requires
        k >= 0,
    ensures
        next_id(id_after(n, k)) == id_after(n, k + 1),
        id_after(n, 0) == n,
{
    assert(next_id(id_after(n, k)) == id_after(n, k + 1)) by (nonlinear_arith)
        requires
            k >= 0,
    ;
}

impl LogIds {
    /// A counter whose first number is 1.
    pub fn new() -> (r: LogIds)
        ensures
            r.next == 1,
    {
        LogIds { next: 1 }
    }

    /// Takes the next number; the counter moves on by one.
    pub fn take(&mut self) -> (r: u64)
        ensures
            r == old(self).next,
            final(self).next == next_id(old(self).next),
    {
        let r = self.next;
        self.next = if r == u64::MAX {
            0
        } else {
            r + 1
        };
        r
    }
}

impl Log {
    /// A log numbered with the next number of `ids`.
    pub fn new(ids: &mut LogIds, start: u64, end: Option<u64>, class: String, title: String) -> (log: Self)
        ensures
            log.id == old(ids).next,
            final(ids).next == next_id(old(ids).next),
            log.start == start,
            log.end == end,
            log.class == class,
            log.title == title,
    {
        let id = ids.take();
        Log { id, start, end, class, title }
    }

    /// The duration of the log, an open log being measured up to `now`; never negative.
    pub fn duration_at(&self, now: u64) -> (d: u64)
        ensures
            d == span_until(*self, now),
    {
        match self.end {
            Some(e) => span_exec(self.start, e),
            None => span_exec(self.start, now),
        }
    }

    /// The duration of the log; an open log is measured up to the present moment.
    pub fn duration(&self) -> (d: u64)
        ensures
            self.end is Some ==> d == closed_span(*self),
            exists|now: u64| d == span_until(*self, now),
    {
        let now = utc_now_millis() as u64;
        self.duration_at(now)
    }
}

/// The time still running on the last of `idx`, if that log is open.
pub open spec fn open_extra(logs: Seq<Log>, idx: Seq<usize>, now: u64) -> nat {
    if idx.len() > 0 && idx.last() < logs.len() && logs[idx.last() as int].end is None {
        span_until(logs[idx.last() as int], now)
    } else {
        0
    }
}

fn open_extra_exec(logs: &Vec<Log>, idx: &Vec<usize>, now: u64) -> (d: u64)
    requires
        idx.len() > 0 ==> idx@.last() < logs.len(),
    ensures
        d == open_extra(logs@, idx@, now),
{
    if idx.len() > 0 {
        let last = &logs[idx[idx.len() - 1]];
        if last.end.is_none() {
            return last.duration_at(now);
        }
    }
    0
}

// ---------------------------------------------------------------------------------------
// Title
// ---------------------------------------------------------------------------------------

/// The logs of one window title within a class, and the time recorded for them.
pub struct Title {
    pub title: String,
    pub logs: Vec<usize>,
    pub total_duration: u128,
}

impl Title {
    /// The time recorded so far: what was added minus what was removed.
    pub open spec fn recorded(&self) -> nat {
        self.total_duration as nat
    }

    /// An empty title.
    pub fn new(title: String) -> (t: Self)
        ensures
            t.title == title,
            t.logs@ == Seq::<usize>::empty(),
            t.recorded() == 0,
    {
        Title { title, logs: Vec::new(), total_duration: 0 }
    }

    /// Records the log at `log_index`, which lasted `log_duration`.
    pub fn add_log(&mut self, log_index: usize, log_duration: u64)
        requires
            old(self).recorded() + log_duration <= u128::MAX,
        ensures
            final(self).title == old(self).title,
            final(self).logs@ == old(self).logs@.push(log_index),
            final(self).recorded() == old(self).recorded() + log_duration,
    {
        self.logs.push(log_index);
        self.total_duration = self.total_duration + log_duration as u128;
    }

    /// The recorded time, plus the running time of the last log if it is still open, measured
    /// up to `now`; saturating at `u64::MAX`.
    pub fn total_duration_at(&self, logs: &Vec<Log>, now: u64) -> (d: u64)
        requires
            self.logs.len() > 0 ==> self.logs@.last() < logs.len(),
        ensures
            d == clamp_u64(self.recorded() + open_extra(logs@, self.logs@, now)),
    {
        let extra = open_extra_exec(logs, &self.logs, now);
        let total = self.total_duration;
        if total <= u64::MAX as u128 {
            let t = total as u64;
            if t <= u64::MAX - extra {
                t + extra
            } else {
                u64::MAX
            }
        } else {
            u64::MAX
        }
    }

    /// The recorded time, plus the running time of the last log if it is still open.
    pub fn total_duration(&self, logs: &Vec<Log>) -> (d: u64)
        requires
            self.logs.len() > 0 ==> self.logs@.last() < logs.len(),
        ensures
            exists|now: u64| d == clamp_u64(self.recorded() + open_extra(logs@, self.logs@, now)),
    {
        let now = utc_now_millis() as u64;
        self.total_duration_at(logs, now)
    }

    fn add_duration(&mut self, duration: u64)
        requires
            old(self).recorded() + duration <= u128::MAX,
        ensures
            final(self).title == old(self).title,
            final(self).logs == old(self).logs,
            final(self).recorded() == old(self).recorded() + duration,
    {
        self.total_duration = self.total_duration + duration as u128;
    }

    fn remove_duration(&mut self, duration: u64)
        ensures
            final(self).title == old(self).title,
            final(self).logs == old(self).logs,
            final(self).recorded() == if old(self).recorded() >= duration {
                old(self).recorded() - duration
            } else {
                0
            },
    {
        self.total_duration = self.total_duration.saturating_sub(duration as u128);
    }
}

// ---------------------------------------------------------------------------------------
// Class
// ---------------------------------------------------------------------------------------

/// The names of a sequence of titles.
pub open spec fn title_names(ts: Seq<Title>) -> Seq<Seq<char>> {
    ts.map_values(|t: Title| t.title@)
}

/// The position of the first title called `name`, if there is one.
pub open spec fn title_position(ts: Seq<Title>, name: Seq<char>) -> Option<int> {
    title_names(ts).index_of_first(name)
}

/// The logs of one window class, grouped by title, and the time recorded for them.
pub struct Class {
    pub class: String,
    pub titles: Vec<Title>,
    pub logs: Vec<usize>,
    pub total_duration: u128,
}

fn find_title(titles: &Vec<Title>, name: &String) -> (r: Option<usize>)
    ensures
        r matches Some(i) ==> title_position(titles@, name@) == Some(i as int) && i
            < titles.len(),
        r is None ==> title_position(titles@, name@) is None,
{
    let ghost names = title_names(titles@);
    let mut i: usize = 0;
    while i < titles.len()
        invariant
            i <= titles.len(),
            names == title_names(titles@),
            forall|q: int| 0 <= q < i ==> names[q] != name@,
        decreases titles.len() - i,
    {
        if titles[i].title == *name {
            proof {
                assert(names[i as int] == name@);
                names.index_of_first_ensures(name@);
            }
            return Some(i);
        }
        i = i + 1;
    }
    proof {
        names.index_of_first_ensures(name@);
    }
    None
}

impl Class {
    /// The time recorded so far: what was added minus what was removed.
    pub open spec fn recorded(&self) -> nat {
        self.total_duration as nat
    }

    /// An empty class.
    pub fn new(class: String) -> (c: Self)
        ensures
            c.class == class,
            c.titles@ == Seq::<Title>::empty(),
            c.logs@ == Seq::<usize>::empty(),
            c.recorded() == 0,
    {
        Class { class, titles: Vec::new(), logs: Vec::new(), total_duration: 0 }
    }

    /// The first title of this class called `title`.
    pub fn get_title(&self, title: &String) -> (r: Option<&Title>)
        ensures
            match title_position(self.titles@, title@) {
                Some(i) => r == Some(&self.titles@[i]),
                None => r is None,
            },
    {
        match find_title(&self.titles, title) {
            Some(i) => {
                proof {
                    title_names(self.titles@).index_of_first_ensures(title@);
                }
                Some(&self.titles[i])
            },
            None => None,
        }
    }

    /// The position of the title called `title`, adding an empty one at the end if there is
    /// none.
    fn title_slot(&mut self, title: String) -> (i: usize)
        ensures
            final(self).class == old(self).class,
            final(self).logs == old(self).logs,
            final(self).recorded() == old(self).recorded(),
            i < final(self).titles.len(),
            final(self).titles@[i as int].title@ == title@,
            match title_position(old(self).titles@, title@) {
                Some(p) => i == p && final(self).titles@ == old(self).titles@,
                None => {
                    &&& i == old(self).titles.len()
                    &&& final(self).titles@.drop_last() == old(self).titles@
                    &&& final(self).titles@[i as int].logs@ == Seq::<usize>::empty()
                    &&& final(self).titles@[i as int].recorded() == 0
                },
            },
    {
        match find_title(&self.titles, &title) {
            Some(i) => {
                proof {
                    title_names(self.titles@).index_of_first_ensures(title@);
                }
                i
            },
            None => {
                let i = self.titles.len();
                self.titles.push(Title::new(title));
                proof {
                    assert(self.titles@.drop_last() =~= old(self).titles@);
                }
                i
            },
        }
    }

    /// The title called `title`, added empty at the end if there is none.
    pub fn get_title_mut(&mut self, title: String) -> (t: &mut Title)
        ensures
            final(self).class == old(self).class,
            final(self).logs == old(self).logs,
            final(self).recorded() == old(self).recorded(),
            t.title@ == title@,
            match title_position(old(self).titles@, title@) {
                Some(p) => {
                    &&& *t == old(self).titles@[p]
                    &&& final(self).titles@ == old(self).titles@.update(p, *final(t))
                },
                None => {
                    &&& t.logs@ == Seq::<usize>::empty()
                    &&& t.recorded() == 0
                    &&& final(self).titles@ == old(self).titles@.push(*final(t))
                },
            },
    {
        let ghost old_titles = self.titles@;
        let i = self.title_slot(title);
        proof {
            if title_position(old_titles, self.titles@[i as int].title@) is None {
                assert(self.titles@ =~= old_titles.push(self.titles@[i as int]));
            }
        }
        &mut self.titles[i]
    }

    /// The recorded time, plus the running time of the last log if it is still open, measured
    /// up to `now`; saturating at `u64::MAX`.
    pub fn total_duration_at(&self, logs: &Vec<Log>, now: u64) -> (d: u64)
        requires
            self.logs.len() > 0 ==> self.logs@.last() < logs.len(),
        ensures
            d == clamp_u64(self.recorded() + open_extra(logs@, self.logs@, now)),
    {
        let extra = open_extra_exec(logs, &self.logs, now);
        let total = self.total_duration;
        if total <= u64::MAX as u128 {
            let t = total as u64;
            if t <= u64::MAX - extra {
                t + extra
            } else {
                u64::MAX
            }
        } else {
            u64::MAX
        }
    }

    /// The recorded time, plus the running time of the last log if it is still open.
    pub fn total_duration(&self, logs: &Vec<Log>) -> (d: u64)
        requires
            self.logs.len() > 0 ==> self.logs@.last() < logs.len(),
        ensures
            exists|now: u64| d == clamp_u64(self.recorded() + open_extra(logs@, self.logs@, now)),
    {
        let now = utc_now_millis() as u64;
        self.total_duration_at(logs, now)
    }

    /// The position of the first title called `title`.
    pub fn index_of(&self, title: &str) -> (r: Option<usize>)
        ensures
            match title_position(self.titles@, title@) {
                Some(i) => r == Some(i as usize),
                None => r is None,
            },
    {
        let ghost names = title_names(self.titles@);
        let mut i: usize = 0;
        while i < self.titles.len()
            invariant
                i <= self.titles.len(),
                names == title_names(self.titles@),
                forall|q: int| 0 <= q < i ==> names[q] != title@,
            decreases self.titles.len() - i,
        {
            if str_equal(self.titles[i].title.as_str(), title) {
                proof {
                    assert(names[i as int] == title@);
                    names.index_of_first_ensures(title@);
                }
                return Some(i);
            }
            i = i + 1;
        }
        proof {
            names.index_of_first_ensures(title@);
        }
        None
    }

    /// The logs of this class, in the order the class lists them.
    pub fn iter_logs<'a>(&'a self, logs: &'a Vec<Log>) -> (r: Vec<&'a Log>)
        requires
            forall|q: int| 0 <= q < self.logs.len() ==> #[trigger] self.logs@[q] < logs.len(),
        ensures
            r.len() == self.logs.len(),
            forall|q: int| 0 <= q < r.len() ==> *#[trigger] r@[q] == logs@[self.logs@[q] as int],
    {
        let mut r: Vec<&'a Log> = Vec::new();
        let mut i: usize = 0;
        while i < self.logs.len()
            invariant
                i <= self.logs.len(),
                r.len() == i,
                forall|q: int| 0 <= q < self.logs.len() ==> #[trigger] self.logs@[q] < logs.len(),
                forall|q: int| 0 <= q < i ==> *#[trigger] r@[q] == logs@[self.logs@[q] as int],
            decreases self.logs.len() - i,
        {
            r.push(&logs[self.logs[i]]);
            i = i + 1;
        }
        r
    }

    fn add_duration(&mut self, duration: u64)
        requires
            old(self).recorded() + duration <= u128::MAX,
        ensures
            final(self).class == old(self).class,
            final(self).titles == old(self).titles,
            final(self).logs == old(self).logs,
            final(self).recorded() == old(self).recorded() + duration,
    {
        self.total_duration = self.total_duration + duration as u128;
    }

    fn remove_duration(&mut self, duration: u64)
        ensures
            final(self).class == old(self).class,
            final(self).titles == old(self).titles,
            final(self).logs == old(self).logs,
            final(self).recorded() == if old(self).recorded() >= duration {
                old(self).recorded() - duration
            } else {
                0
            },
    {
        self.total_duration = self.total_duration.saturating_sub(duration as u128);
    }
}


/// `new_ts` is `old_ts` with log `k`, of duration `d`, added to the title called `tname`,
/// which is appended empty first if there is none.
pub open spec fn titles_gained(old_ts: Seq<Title>, new_ts: Seq<Title>, k: usize, tname: Seq<char>, d: nat) -> bool {
    match title_position(old_ts, tname) {
        Some(ti) => {
            &&& new_ts.len() == old_ts.len()
            &&& forall|j: int| 0 <= j < old_ts.len() && j != ti ==> #[trigger] new_ts[j] == old_ts[j]
            &&& new_ts[ti].title == old_ts[ti].title
            &&& new_ts[ti].logs@ == old_ts[ti].logs@.push(k)
            &&& new_ts[ti].recorded() == old_ts[ti].recorded() + d
        },
        None => {
            &&& new_ts.len() == old_ts.len() + 1
            &&& forall|j: int| 0 <= j < old_ts.len() ==> #[trigger] new_ts[j] == old_ts[j]
            &&& new_ts.last().title@ == tname
            &&& new_ts.last().logs@ == seq![k]
            &&& new_ts.last().recorded() == d
        },
    }
}

/// `new_c` is `old_c` with log `k`, of duration `d` and title `tname`, added.
pub open spec fn class_gained(old_c: Class, new_c: Class, k: usize, tname: Seq<char>, d: nat) -> bool {
    &&& new_c.class == old_c.class
    &&& new_c.logs@ == old_c.logs@.push(k)
    &&& new_c.recorded() == old_c.recorded() + d
    &&& titles_gained(old_c.titles@, new_c.titles@, k, tname, d)
}

impl Class {
    fn add_log(&mut self, log_index: usize, title_string: String, log_duration: u64)
        requires
            old(self).recorded() + log_duration <= u128::MAX,
            forall|j: int|
                0 <= j < old(self).titles.len() ==> #[trigger] old(self).titles@[j].recorded()
                    + log_duration <= u128::MAX,
        ensures
            class_gained(*old(self), *final(self), log_index, title_string@, log_duration as nat),
    {
        self.logs.push(log_index);
        self.total_duration = self.total_duration + log_duration as u128;
        let ghost titles0 = self.titles@;
        let t = self.title_slot(title_string);
        self.titles[t].add_log(log_index, log_duration);
        proof {
            if title_position(titles0, title_string@) is None {
                assert(self.titles@.last() == self.titles@[t as int]);
            }
        }
    }
}

// ---------------------------------------------------------------------------------------
// Positions by name
// ---------------------------------------------------------------------------------------

proof fn lemma_first_at<A>(s: Seq<A>, needle: A, i: int)
    requires
        0 <= i < s.len(),
        s[i] == needle,
        forall|j: int| 0 <= j < i ==> s[j] != needle,
    ensures
        s.index_of_first(needle) == Some(i),
{
    s.index_of_first_ensures(needle);
}

proof fn lemma_first_unique<A>(s: Seq<A>, needle: A, i: int)
    requires
        0 <= i < s.len(),
        s[i] == needle,
        s.no_duplicates(),
    ensures
        s.index_of_first(needle) == Some(i),
{
    lemma_first_at(s, needle, i);
}

proof fn lemma_first_absent<A>(s: Seq<A>, needle: A)
    requires
        forall|j: int| 0 <= j < s.len() ==> s[j] != needle,
    ensures
        s.index_of_first(needle) is None,
{
    s.index_of_first_ensures(needle);
}

/// The names of a sequence of classes.
pub open spec fn class_names(cs: Seq<Class>) -> Seq<Seq<char>> {
    cs.map_values(|c: Class| c.class@)
}

/// The position of the first class called `name`, if there is one.
pub open spec fn class_position(cs: Seq<Class>, name: Seq<char>) -> Option<int> {
    class_names(cs).index_of_first(name)
}

fn find_class(classes: &Vec<Class>, name: &String) -> (r: Option<usize>)
    ensures
        r matches Some(i) ==> class_position(classes@, name@) == Some(i as int) && i
            < classes.len(),
        r is None ==> class_position(classes@, name@) is None,
{
    let ghost names = class_names(classes@);
    let mut i: usize = 0;
    while i < classes.len()
        invariant
            i <= classes.len(),
            names == class_names(classes@),
            forall|q: int| 0 <= q < i ==> names[q] != name@,
        decreases classes.len() - i,
    {
        if classes[i].class == *name {
            proof {
                lemma_first_at(names, name@, i as int);
            }
            return Some(i);
        }
        i = i + 1;
    }
    proof {
        lemma_first_absent(names, name@);
    }
    None
}

// ---------------------------------------------------------------------------------------
// Well-formedness of a model
// ---------------------------------------------------------------------------------------

/// A title lists distinct logs of its class that carry its name, and has recorded exactly
/// the summed durations of those of them that have ended.
pub open spec fn title_ok(logs: Seq<Log>, class_logs: Seq<usize>, t: Title) -> bool {
    &&& t.logs@.no_duplicates()
    &&& forall|q: int|
        0 <= q < t.logs.len() ==> {
            let k = #[trigger] t.logs@[q];
            &&& k < logs.len()
            &&& class_logs.contains(k)
            &&& logs[k as int].title@ == t.title@
        }
    &&& t.recorded() == sum_spans(logs, t.logs@)
}

/// A class lists distinct mapped logs that carry its name, its titles have distinct names,
/// and it has recorded exactly the summed durations of those of its logs that have ended.
pub open spec fn class_ok(logs: Seq<Log>, mapped: Seq<bool>, c: Class) -> bool {
    &&& c.logs@.no_duplicates()
    &&& forall|q: int|
        0 <= q < c.logs.len() ==> {
            let k = #[trigger] c.logs@[q];
            &&& k < logs.len()
            &&& mapped[k as int]
            &&& logs[k as int].class@ == c.class@
        }
    &&& title_names(c.titles@).no_duplicates()
    &&& forall|t: int| 0 <= t < c.titles.len() ==> title_ok(logs, c.logs@, #[trigger] c.titles@[t])
    &&& c.recorded() == sum_spans(logs, c.logs@)
}

/// Every class and every title of a class lists at least one log.
pub open spec fn classes_nonempty(cs: Seq<Class>) -> bool {
    forall|ci: int|
        0 <= ci < cs.len() ==> (#[trigger] cs[ci]).logs.len() > 0 && forall|t: int|
            0 <= t < cs[ci].titles.len() ==> (#[trigger] cs[ci].titles@[t]).logs.len() > 0
}

/// The log at `k` is listed by the class named after it and by that class's title named
/// after it.
pub open spec fn placed(logs: Seq<Log>, classes: Seq<Class>, k: int) -> bool {
    match class_position(classes, logs[k].class@) {
        Some(ci) => {
            &&& classes[ci].logs@.contains(k as usize)
            &&& match title_position(classes[ci].titles@, logs[k].title@) {
                Some(ti) => classes[ci].titles@[ti].logs@.contains(k as usize),
                None => false,
            }
        },
        None => false,
    }
}

/// `a` comes before `b` in start order: earlier start, or the same start and added earlier.
pub open spec fn start_before(logs: Seq<Log>, a: usize, b: usize) -> bool {
    logs[a as int].start < logs[b as int].start || (logs[a as int].start == logs[b as int].start && (
    logs[a as int].id < logs[b as int].id || (logs[a as int].id == logs[b as int].id && a > b)))
}

/// `order` lists every log once, in start order.
pub open spec fn start_order_ok(logs: Seq<Log>, order: Seq<usize>) -> bool {
    &&& order.len() == logs.len()
    &&& forall|q: int| 0 <= q < order.len() ==> #[trigger] order[q] < logs.len()
    &&& order.no_duplicates()
    &&& forall|a: int, b: int|
        0 <= a < b < order.len() ==> start_before(logs, #[trigger] order[a], #[trigger] order[b])
}

/// Every pair of `titles` names a class and one of its titles.
pub open spec fn title_pairs_ok(classes: Seq<Class>, titles: Seq<(usize, usize)>) -> bool {
    forall|q: int|
        0 <= q < titles.len() ==> {
            let (ci, ti) = #[trigger] titles[q];
            ci < classes.len() && ti < classes[ci as int].titles.len()
        }
}

// ---------------------------------------------------------------------------------------
// Model
// ---------------------------------------------------------------------------------------

/// All logs read so far, with those that lie in the focused interval (the mapped ones)
/// grouped into classes and titles.
pub struct Model {
    pub classes: Vec<Class>,
    pub logs: Vec<Log>,
    pub logs_by_start: Vec<usize>,
    pub titles: Vec<(usize, usize)>,
    pub titles_dirty: bool,
    pub mapped: Vec<bool>,
    pub visible_start_idx: usize,
    pub visible_end_idx: usize,
    pub visible_bounds_initialized: bool,
}

impl Model {
    /// The model's own consistency: logs are listed in start order (ties by number, then
    /// the later added first), class names are distinct, every mapped log is listed by its class and title,
    /// every class and title has recorded exactly the time of its ended logs, and none is
    /// without logs.
    pub open spec fn wf(&self) -> bool {
        &&& self.wf_core()
        &&& classes_nonempty(self.classes@)
    }

    /// `wf` but for the classes and titles being non-empty.
    pub open spec fn wf_core(&self) -> bool {
        &&& self.mapped.len() == self.logs.len()
        &&& start_order_ok(self.logs@, self.logs_by_start@)
        &&& class_names(self.classes@).no_duplicates()
        &&& forall|ci: int|
            0 <= ci < self.classes.len() ==> class_ok(
                self.logs@,
                self.mapped@,
                #[trigger] self.classes@[ci],
            )
        &&& forall|k: int|
            0 <= k < self.logs.len() && #[trigger] self.mapped@[k] ==> placed(
                self.logs@,
                self.classes@,
                k,
            )
        &&& !self.titles_dirty ==> title_pairs_ok(self.classes@, self.titles@)
    }

    /// An empty model.
    pub fn new() -> (m: Self)
        ensures
            m.wf(),
            m.classes@ == Seq::<Class>::empty(),
            m.logs@ == Seq::<Log>::empty(),
            m.titles@ == Seq::<(usize, usize)>::empty(),
            m.titles_dirty,
            !m.visible_bounds_initialized,
    {
        Model {
            classes: Vec::new(),
            logs: Vec::new(),
            logs_by_start: Vec::new(),
            titles: Vec::new(),
            titles_dirty: true,
            mapped: Vec::new(),
            visible_start_idx: 0,
            visible_end_idx: 0,
            visible_bounds_initialized: false,
        }
    }

    /// The first class called `class`.
    pub fn get_class(&self, class: &String) -> (r: Option<&Class>)
        ensures
            match class_position(self.classes@, class@) {
                Some(i) => r == Some(&self.classes@[i]),
                None => r is None,
            },
    {
        match find_class(&self.classes, class) {
            Some(i) => Some(&self.classes[i]),
            None => None,
        }
    }

    /// The first title called `title_name` of the first class called `class_name`.
    pub fn get_title(&self, class_name: &String, title_name: &String) -> (r: Option<&Title>)
        ensures
            match class_position(self.classes@, class_name@) {
                Some(i) => match title_position(self.classes@[i].titles@, title_name@) {
                    Some(j) => r == Some(&self.classes@[i].titles@[j]),
                    None => r is None,
                },
                None => r is None,
            },
    {
        if let Some(class) = self.get_class(class_name) {
            class.get_title(title_name)
        } else {
            None
        }
    }

    /// The position of the first class called `class`.
    pub fn index_of(&self, class: &str) -> (r: Option<usize>)
        ensures
            match class_position(self.classes@, class@) {
                Some(i) => r == Some(i as usize),
                None => r is None,
            },
    {
        let ghost names = class_names(self.classes@);
        let mut i: usize = 0;
        while i < self.classes.len()
            invariant
                i <= self.classes.len(),
                names == class_names(self.classes@),
                forall|q: int| 0 <= q < i ==> names[q] != class@,
            decreases self.classes.len() - i,
        {
            if str_equal(self.classes[i].class.as_str(), class) {
                proof {
                    lemma_first_at(names, class@, i as int);
                }
                return Some(i);
            }
            i = i + 1;
        }
        proof {
            lemma_first_absent(names, class@);
        }
        None
    }

    /// The position of the class called `class`, adding an empty one at the end if there is
    /// none.
    fn class_slot(&mut self, class: String) -> (i: usize)
        ensures
            final(self).logs == old(self).logs,
            final(self).logs_by_start == old(self).logs_by_start,
            final(self).titles == old(self).titles,
            final(self).titles_dirty == old(self).titles_dirty,
            final(self).mapped == old(self).mapped,
            final(self).visible_start_idx == old(self).visible_start_idx,
            final(self).visible_end_idx == old(self).visible_end_idx,
            final(self).visible_bounds_initialized == old(self).visible_bounds_initialized,
            i < final(self).classes.len(),
            final(self).classes@[i as int].class@ == class@,
            match class_position(old(self).classes@, class@) {
                Some(p) => i == p && final(self).classes@ == old(self).classes@,
                None => {
                    &&& i == old(self).classes.len()
                    &&& final(self).classes@.drop_last() == old(self).classes@
                    &&& final(self).classes@[i as int].logs@ == Seq::<usize>::empty()
                    &&& final(self).classes@[i as int].titles@ == Seq::<Title>::empty()
                    &&& final(self).classes@[i as int].recorded() == 0
                },
            },
    {
        match find_class(&self.classes, &class) {
            Some(i) => {
                proof {
                    class_names(self.classes@).index_of_first_ensures(class@);
                }
                i
            },
            None => {
                let i = self.classes.len();
                self.classes.push(Class::new(class));
                proof {
                    assert(self.classes@.drop_last() =~= old(self).classes@);
                }
                i
            },
        }
    }

    /// The class called `class`, added empty at the end if there is none.
    pub fn get_class_mut(&mut self, class: String) -> (c: &mut Class)
        ensures
            final(self).logs == old(self).logs,
            final(self).logs_by_start == old(self).logs_by_start,
            final(self).titles == old(self).titles,
            final(self).mapped == old(self).mapped,
            c.class@ == class@,
            match class_position(old(self).classes@, class@) {
                Some(p) => {
                    &&& *c == old(self).classes@[p]
                    &&& final(self).classes@ == old(self).classes@.update(p, *final(c))
                },
                None => {
                    &&& c.logs@ == Seq::<usize>::empty()
                    &&& c.titles@ == Seq::<Title>::empty()
                    &&& c.recorded() == 0
                    &&& final(self).classes@ == old(self).classes@.push(*final(c))
                },
            },
    {
        let ghost old_classes = self.classes@;
        let i = self.class_slot(class);
        proof {
            if class_position(old_classes, self.classes@[i as int].class@) is None {
                assert(self.classes@ =~= old_classes.push(self.classes@[i as int]));
            }
        }
        &mut self.classes[i]
    }
}


// ---------------------------------------------------------------------------------------
// Mapping a log
// ---------------------------------------------------------------------------------------

/// `new_cs` is `old_cs` with log `k`, of duration `d`, class `cname` and title `tname`,
/// added to the class called `cname`, which is appended empty first if there is none.
pub open spec fn classes_gained(
    old_cs: Seq<Class>,
    new_cs: Seq<Class>,
    k: usize,
    cname: Seq<char>,
    tname: Seq<char>,
    d: nat,
) -> bool {
    match class_position(old_cs, cname) {
        Some(ci) => {
            &&& new_cs.len() == old_cs.len()
            &&& forall|j: int| 0 <= j < old_cs.len() && j != ci ==> #[trigger] new_cs[j] == old_cs[j]
            &&& class_gained(old_cs[ci], new_cs[ci], k, tname, d)
        },
        None => {
            &&& new_cs.len() == old_cs.len() + 1
            &&& forall|j: int| 0 <= j < old_cs.len() ==> #[trigger] new_cs[j] == old_cs[j]
            &&& new_cs.last().class@ == cname
            &&& new_cs.last().logs@ == seq![k]
            &&& new_cs.last().recorded() == d
            &&& titles_gained(Seq::<Title>::empty(), new_cs.last().titles@, k, tname, d)
        },
    }
}

proof fn lemma_title_names_update(ts: Seq<Title>, i: int, t: Title)
    requires
        0 <= i < ts.len(),
        t.title@ == ts[i].title@,
    ensures
        title_names(ts.update(i, t)) =~= title_names(ts),
{
}

proof fn lemma_title_names_push(ts: Seq<Title>, t: Title)
    ensures
        title_names(ts.push(t)) =~= title_names(ts).push(t.title@),
{
}

proof fn lemma_class_names_push(cs: Seq<Class>, c: Class)
    ensures
        class_names(cs.push(c)) =~= class_names(cs).push(c.class@),
{
}

proof fn lemma_first_push<A>(s: Seq<A>, x: A, needle: A)
    requires
        s.index_of_first(needle) is Some,
    ensures
        s.push(x).index_of_first(needle) == s.index_of_first(needle),
{
    s.index_of_first_ensures(needle);
    let p = s.index_of_first(needle)->0;
    lemma_first_at(s.push(x), needle, p);
}

/// A title list that gained log `k` keeps its names at their positions, its names stay
/// distinct, and the title called `tname` now lists `k`.
proof fn lemma_titles_gained_names(old_ts: Seq<Title>, new_ts: Seq<Title>, k: usize, tname: Seq<char>, d: nat)
    requires
        titles_gained(old_ts, new_ts, k, tname, d),
        title_names(old_ts).no_duplicates(),
    ensures
        title_names(new_ts).no_duplicates(),
        forall|nm: Seq<char>|
            title_position(old_ts, nm) is Some ==> #[trigger] title_position(new_ts, nm)
                == title_position(old_ts, nm),
        title_position(new_ts, tname) is Some,
        new_ts[title_position(new_ts, tname)->0].logs@.contains(k),
        forall|j: int| 0 <= j < new_ts.len() ==> new_ts[j].title@ == (#[trigger] title_names(new_ts)[j]),
{
    match title_position(old_ts, tname) {
        Some(ti) => {
            title_names(old_ts).index_of_first_ensures(tname);
            assert(new_ts =~= old_ts.update(ti, new_ts[ti]));
            lemma_title_names_update(old_ts, ti, new_ts[ti]);
            assert(new_ts[ti].logs@[old_ts[ti].logs.len() as int] == k);
        },
        None => {
            title_names(old_ts).index_of_first_ensures(tname);
            assert(new_ts =~= old_ts.push(new_ts.last()));
            lemma_title_names_push(old_ts, new_ts.last());
            assert forall|nm: Seq<char>|
                title_position(old_ts, nm) is Some implies #[trigger] title_position(new_ts, nm)
                    == title_position(old_ts, nm) by {
                lemma_first_push(title_names(old_ts), tname, nm);
            }
            assert(title_names(new_ts)[old_ts.len() as int] == tname);
            lemma_first_unique(title_names(new_ts), tname, old_ts.len() as int);
            assert(new_ts.last().logs@[0] == k);
        },
    }
}

proof fn lemma_gain_keeps_wf(m0: Model, m1: Model, k: usize)
    requires
        m0.wf(),
        k < m0.logs.len(),
        !m0.mapped@[k as int],
        m1.logs@ == m0.logs@,
        m1.logs_by_start@ == m0.logs_by_start@,
        m1.mapped@ == m0.mapped@.update(k as int, true),
        m1.titles_dirty,
        classes_gained(
            m0.classes@,
            m1.classes@,
            k,
            m0.logs@[k as int].class@,
            m0.logs@[k as int].title@,
            closed_span(m0.logs@[k as int]),
        ),
    ensures
        m1.wf(),
{
    let logs = m0.logs@;
    let cs0 = m0.classes@;
    let cs1 = m1.classes@;
    let cname = logs[k as int].class@;
    let tname = logs[k as int].title@;
    let d = closed_span(logs[k as int]);
    let mapped0 = m0.mapped@;
    let mapped1 = m1.mapped@;
    class_names(cs0).index_of_first_ensures(cname);
    // the class that gained the log, and its old form (empty if new)
    let ci: int = match class_position(cs0, cname) {
        Some(p) => p,
        None => cs0.len() as int,
    };
    assert(0 <= ci < cs1.len());
    assert(forall|j: int| 0 <= j < cs0.len() && j != ci ==> #[trigger] cs1[j] == cs0[j]);
    // names of classes
    if class_position(cs0, cname) is None {
        assert(cs1 =~= cs0.push(cs1.last()));
        lemma_class_names_push(cs0, cs1.last());
    } else {
        assert(class_names(cs1) =~= class_names(cs0));
    }
    assert(class_names(cs1).no_duplicates());
    assert(class_names(cs1)[ci] == cname);
    lemma_first_unique(class_names(cs1), cname, ci);
    assert forall|nm: Seq<char>|
        class_position(cs0, nm) is Some implies #[trigger] class_position(cs1, nm)
            == class_position(cs0, nm) by {
        if class_position(cs0, cname) is None {
            lemma_first_push(class_names(cs0), cname, nm);
        }
    }
    // the log was in no class before
    assert forall|j: int| 0 <= j < cs0.len() implies !(#[trigger] cs0[j]).logs@.contains(k) by {
        assert(class_ok(logs, mapped0, cs0[j]));
        if cs0[j].logs@.contains(k) {
            let q = choose|q: int| 0 <= q < cs0[j].logs.len() && cs0[j].logs@[q] == k;
            assert(mapped0[cs0[j].logs@[q] as int]);
        }
    }
    // the class that gained the log
    let c1 = cs1[ci];
    let old_logs: Seq<usize> = if ci < cs0.len() { cs0[ci].logs@ } else { Seq::empty() };
    let old_ts: Seq<Title> = if ci < cs0.len() { cs0[ci].titles@ } else { Seq::empty() };
    let old_rec: nat = if ci < cs0.len() { cs0[ci].recorded() } else { 0 };
    assert(c1.logs@ == old_logs.push(k)) by {
        if ci >= cs0.len() {
            assert(seq![k] =~= Seq::<usize>::empty().push(k));
        }
    }
    assert(titles_gained(old_ts, c1.titles@, k, tname, d));
    assert(!old_logs.contains(k));
    assert(title_names(old_ts).no_duplicates()) by {
        if ci < cs0.len() {
            assert(class_ok(logs, mapped0, cs0[ci]));
        }
    }
    assert(old_logs.no_duplicates()) by {
        if ci < cs0.len() {
            assert(class_ok(logs, mapped0, cs0[ci]));
        }
    }
    assert(forall|t: int| 0 <= t < old_ts.len() ==> title_ok(logs, old_logs, #[trigger] old_ts[t]))
        by {
        if ci < cs0.len() {
            assert(class_ok(logs, mapped0, cs0[ci]));
        }
    }
    assert(forall|q: int|
        0 <= q < old_logs.len() ==> {
            let kk = #[trigger] old_logs[q];
            &&& kk < logs.len()
            &&& mapped0[kk as int]
            &&& logs[kk as int].class@ == cname
        }) by {
        if ci < cs0.len() {
            assert(class_ok(logs, mapped0, cs0[ci]));
        }
    }
    assert(old_rec == sum_spans(logs, old_logs)) by {
        if ci < cs0.len() {
            assert(class_ok(logs, mapped0, cs0[ci]));
        }
    }
    lemma_titles_gained_names(old_ts, c1.titles@, k, tname, d);
    lemma_sum_push(logs, old_logs, k);
    assert(term(logs, k) == d);
    assert(c1.logs@.no_duplicates()) by {
        assert forall|a: int, b: int|
            0 <= a < c1.logs.len() && 0 <= b < c1.logs.len() && a != b implies c1.logs@[a]
            != c1.logs@[b] by {
            if a == old_logs.len() {
                assert(c1.logs@[b] == old_logs[b]);
                assert(old_logs.contains(old_logs[b]));
            } else if b == old_logs.len() {
                assert(c1.logs@[a] == old_logs[a]);
                assert(old_logs.contains(old_logs[a]));
            } else {
                assert(c1.logs@[a] == old_logs[a]);
                assert(c1.logs@[b] == old_logs[b]);
            }
        }
    }
    assert forall|t: int| 0 <= t < c1.titles.len() implies title_ok(logs, c1.logs@, #[trigger] c1.titles@[t]) by {
        let tt = c1.titles@[t];
        match title_position(old_ts, tname) {
            Some(ti) => {
                assert(title_ok(logs, old_logs, old_ts[t]));
                if t == ti {
                    let ot = old_ts[ti];
                    lemma_sum_push(logs, ot.logs@, k);
                    assert(!ot.logs@.contains(k)) by {
                        if ot.logs@.contains(k) {
                            let q = choose|q: int| 0 <= q < ot.logs.len() && ot.logs@[q] == k;
                            assert(old_logs.contains(ot.logs@[q]));
                        }
                    }
                    title_names(old_ts).index_of_first_ensures(tname);
                    assert(title_names(old_ts)[ti] == old_ts[ti].title@);
                    assert forall|q: int| 0 <= q < tt.logs.len() implies {
                        let kk = #[trigger] tt.logs@[q];
                        &&& kk < logs.len()
                        &&& c1.logs@.contains(kk)
                        &&& logs[kk as int].title@ == tt.title@
                    } by {
                        if q < ot.logs.len() {
                            assert(tt.logs@[q] == ot.logs@[q]);
                            let kk = ot.logs@[q];
                            let w = choose|w: int| 0 <= w < old_logs.len() && old_logs[w] == kk;
                            assert(c1.logs@[w] == kk);
                        } else {
                            assert(c1.logs@[old_logs.len() as int] == k);
                        }
                    }
                    assert(tt.logs@.no_duplicates()) by {
                        assert forall|a: int, b: int|
                            0 <= a < tt.logs.len() && 0 <= b < tt.logs.len() && a != b implies tt.logs@[a]
                            != tt.logs@[b] by {
                            if a == ot.logs.len() {
                                assert(ot.logs@[b] == tt.logs@[b]);
                            } else if b == ot.logs.len() {
                                assert(ot.logs@[a] == tt.logs@[a]);
                            } else {
                                assert(ot.logs@[a] == tt.logs@[a]);
                                assert(ot.logs@[b] == tt.logs@[b]);
                            }
                        }
                    }
                } else {
                    assert(tt == old_ts[t]);
                    assert forall|q: int| 0 <= q < tt.logs.len() implies c1.logs@.contains(#[trigger] tt.logs@[q]) by {
                        let kk = tt.logs@[q];
                        assert(old_logs.contains(kk));
                        let w = choose|w: int| 0 <= w < old_logs.len() && old_logs[w] == kk;
                        assert(c1.logs@[w] == kk);
                    }
                }
            },
            None => {
                if t < old_ts.len() {
                    assert(title_ok(logs, old_logs, old_ts[t]));
                    assert(tt == old_ts[t]);
                    assert forall|q: int| 0 <= q < tt.logs.len() implies c1.logs@.contains(#[trigger] tt.logs@[q]) by {
                        let kk = tt.logs@[q];
                        assert(old_logs.contains(kk));
                        let w = choose|w: int| 0 <= w < old_logs.len() && old_logs[w] == kk;
                        assert(c1.logs@[w] == kk);
                    }
                } else {
                    assert(tt == c1.titles@.last());
                    assert(tt.logs@ =~= Seq::<usize>::empty().push(k));
                    lemma_sum_push(logs, Seq::<usize>::empty(), k);
                    assert(c1.logs@[old_logs.len() as int] == k);
                }
            },
        }
    }
    assert(class_ok(logs, mapped1, c1)) by {
        assert forall|q: int| 0 <= q < c1.logs.len() implies {
            let kk = #[trigger] c1.logs@[q];
            &&& kk < logs.len()
            &&& mapped1[kk as int]
            &&& logs[kk as int].class@ == c1.class@
        } by {
            if q < old_logs.len() {
                assert(c1.logs@[q] == old_logs[q]);
            }
        }
    }
    assert forall|j: int| 0 <= j < cs1.len() implies class_ok(logs, mapped1, #[trigger] cs1[j]) by {
        if j != ci {
            assert(cs1[j] == cs0[j]);
            assert(class_ok(logs, mapped0, cs0[j]));
        }
    }
    assert forall|kk: int| 0 <= kk < logs.len() && #[trigger] mapped1[kk] implies placed(logs, cs1, kk) by {
        if kk == k {
            assert(class_position(cs1, cname) == Some(ci));
        } else {
            assert(mapped0[kk]);
            assert(placed(logs, cs0, kk));
            let nm = logs[kk].class@;
            let cj = class_position(cs0, nm)->0;
            class_names(cs0).index_of_first_ensures(nm);
            assert(class_position(cs1, nm) == Some(cj));
            if cj == ci {
                let tn = logs[kk].title@;
                assert(title_position(old_ts, tn) is Some);
                let tj = title_position(old_ts, tn)->0;
                assert(title_position(c1.titles@, tn) == Some(tj));
                assert(old_logs.contains(kk as usize));
                let w = choose|w: int| 0 <= w < old_logs.len() && old_logs[w] == kk as usize;
                assert(c1.logs@[w] == kk as usize);
                let ot = old_ts[tj];
                assert(ot.logs@.contains(kk as usize));
                let w2 = choose|w2: int| 0 <= w2 < ot.logs.len() && ot.logs@[w2] == kk as usize;
                title_names(old_ts).index_of_first_ensures(tn);
                match title_position(old_ts, tname) {
                    Some(ti) => {
                        if tj == ti {
                            assert(c1.titles@[tj].logs@[w2] == kk as usize);
                        } else {
                            assert(c1.titles@[tj] == ot);
                        }
                    },
                    None => {
                        assert(c1.titles@[tj] == ot);
                    },
                }
            } else {
                assert(cs1[cj] == cs0[cj]);
            }
        }
    }
}

impl Model {
    /// Adds the log at `log_index` to the class and title named after it, creating them if
    /// needed, unless it is already mapped or there is no such log.
    pub fn map_log(&mut self, log_index: usize)
        requires
            old(self).wf(),
        ensures
            final(self).wf(),
            final(self).logs@ == old(self).logs@,
            final(self).logs_by_start@ == old(self).logs_by_start@,
            final(self).titles@ == old(self).titles@,
            final(self).visible_start_idx == old(self).visible_start_idx,
            final(self).visible_end_idx == old(self).visible_end_idx,
            final(self).visible_bounds_initialized == old(self).visible_bounds_initialized,
            log_index >= old(self).logs.len() ==> final(self).classes@ == old(self).classes@
                && final(self).mapped@ == old(self).mapped@ && final(self).titles_dirty == old(
                self,
            ).titles_dirty,
            log_index < old(self).logs.len() ==> {
                &&& final(self).titles_dirty
                &&& final(self).mapped@ == old(self).mapped@.update(log_index as int, true)
                &&& old(self).mapped@[log_index as int] ==> final(self).classes@ == old(
                    self,
                ).classes@
                &&& !old(self).mapped@[log_index as int] ==> classes_gained(
                    old(self).classes@,
                    final(self).classes@,
                    log_index,
                    old(self).logs@[log_index as int].class@,
                    old(self).logs@[log_index as int].title@,
                    closed_span(old(self).logs@[log_index as int]),
                )
            },
    {
        if log_index >= self.logs.len() {
            return;
        }
        self.titles_dirty = true;
        if self.mapped[log_index] {
            proof {
                assert(self.mapped@ =~= old(self).mapped@.update(log_index as int, true));
            }
            return;
        }
        let ghost m0 = *old(self);
        self.mapped.set(log_index, true);
        let class_string = self.logs[log_index].class.clone();
        let title_string = self.logs[log_index].title.clone();
        let log_duration = match self.logs[log_index].end {
            None => 0,
            Some(e) => span_exec(self.logs[log_index].start, e),
        };
        let ghost cs0 = self.classes@;
        let ci = self.class_slot(class_string);
        proof {
            let c = self.classes@[ci as int];
            if ci < cs0.len() {
                assert(class_ok(m0.logs@, m0.mapped@, cs0[ci as int]));
                lemma_sum_bound(m0.logs@, c.logs@);
                assert forall|j: int| 0 <= j < c.titles.len() implies #[trigger] c.titles@[j].recorded()
                    + log_duration <= u128::MAX by {
                    assert(title_ok(m0.logs@, c.logs@, c.titles@[j]));
                    lemma_sum_bound(m0.logs@, c.titles@[j].logs@);
                    assert(c.titles@[j].logs.len() * (u64::MAX as nat) + (u64::MAX as nat) <= u128::MAX)
                        by (nonlinear_arith)
                        requires
                            c.titles@[j].logs.len() <= usize::MAX,
                    ;
                }
                assert(c.logs.len() * (u64::MAX as nat) + (u64::MAX as nat) <= u128::MAX)
                    by (nonlinear_arith)
                    requires
                        c.logs.len() <= usize::MAX,
                ;
            }
        }
        self.classes[ci].add_log(log_index, title_string, log_duration);
        proof {
            let m1 = *self;
            assert(closed_span(m0.logs@[log_index as int]) == log_duration);
            if class_position(cs0, m0.logs@[log_index as int].class@) is None {
                assert(self.classes@.last() == self.classes@[ci as int]);
            }
            lemma_gain_keeps_wf(m0, m1, log_index);
        }
    }
}


// ---------------------------------------------------------------------------------------
// Unmapping a log
// ---------------------------------------------------------------------------------------

proof fn lemma_placed_from(logs: Seq<Log>, cs: Seq<Class>, k: int, ci: int, ti: int)
    requires
        0 <= k < logs.len(),
        class_names(cs).no_duplicates(),
        0 <= ci < cs.len(),
        cs[ci].class@ == logs[k].class@,
        cs[ci].logs@.contains(k as usize),
        title_names(cs[ci].titles@).no_duplicates(),
        0 <= ti < cs[ci].titles.len(),
        cs[ci].titles@[ti].title@ == logs[k].title@,
        cs[ci].titles@[ti].logs@.contains(k as usize),
    ensures
        placed(logs, cs, k),
{
    assert(class_names(cs)[ci] == cs[ci].class@);
    lemma_first_unique(class_names(cs), logs[k].class@, ci);
    assert(title_names(cs[ci].titles@)[ti] == cs[ci].titles@[ti].title@);
    lemma_first_unique(title_names(cs[ci].titles@), logs[k].title@, ti);
}

proof fn lemma_placed_to(logs: Seq<Log>, cs: Seq<Class>, k: int) -> (r: (int, int))
    requires
        0 <= k < logs.len(),
        placed(logs, cs, k),
    ensures
        0 <= r.0 < cs.len(),
        cs[r.0].class@ == logs[k].class@,
        cs[r.0].logs@.contains(k as usize),
        class_position(cs, logs[k].class@) == Some(r.0),
        0 <= r.1 < cs[r.0].titles.len(),
        cs[r.0].titles@[r.1].title@ == logs[k].title@,
        cs[r.0].titles@[r.1].logs@.contains(k as usize),
        title_position(cs[r.0].titles@, logs[k].title@) == Some(r.1),
{
    class_names(cs).index_of_first_ensures(logs[k].class@);
    let ci = class_position(cs, logs[k].class@)->0;
    title_names(cs[ci].titles@).index_of_first_ensures(logs[k].title@);
    let ti = title_position(cs[ci].titles@, logs[k].title@)->0;
    (ci, ti)
}

proof fn lemma_swap_remove_no_dup<A>(s: Seq<A>, p: int)
    requires
        0 <= p < s.len(),
        s.no_duplicates(),
    ensures
        s.update(p, s.last()).drop_last().no_duplicates(),
        forall|x: A| #[trigger] s.update(p, s.last()).drop_last().contains(x) <==> (s.contains(x) && x != s[p]),
{
    let t = s.update(p, s.last()).drop_last();
    let n = s.len();
    assert forall|x: A| #[trigger] t.contains(x) <==> (s.contains(x) && x != s[p]) by {
        if t.contains(x) {
            let q = choose|q: int| 0 <= q < t.len() && t[q] == x;
            if q == p {
                assert(x == s[n - 1]);
                assert(s.contains(x));
            } else {
                assert(x == s[q]);
            }
        }
        if s.contains(x) && x != s[p] {
            let q = choose|q: int| 0 <= q < n && s[q] == x;
            if q == n - 1 {
                if p != n - 1 {
                    assert(t[p] == x);
                }
            } else {
                assert(t[q] == x);
            }
        }
    }
}

/// Removing an empty title keeps the model consistent.
proof fn lemma_drop_empty_title(m0: Model, m1: Model, ci: int, ti: int)
    requires
        m0.wf_core(),
        0 <= ci < m0.classes.len(),
        0 <= ti < m0.classes@[ci].titles.len(),
        m0.classes@[ci].titles@[ti].logs@.len() == 0,
        m1.logs@ == m0.logs@,
        m1.logs_by_start@ == m0.logs_by_start@,
        m1.mapped@ == m0.mapped@,
        m1.titles_dirty,
        m1.classes.len() == m0.classes.len(),
        forall|j: int| 0 <= j < m0.classes.len() && j != ci ==> #[trigger] m1.classes@[j] == m0.classes@[j],
        m1.classes@[ci].class == m0.classes@[ci].class,
        m1.classes@[ci].logs == m0.classes@[ci].logs,
        m1.classes@[ci].recorded() == m0.classes@[ci].recorded(),
        m1.classes@[ci].titles@ == m0.classes@[ci].titles@.update(ti, m0.classes@[ci].titles@.last()).drop_last(),
    ensures
        m1.wf_core(),
{
    let logs = m0.logs@;
    let cs0 = m0.classes@;
    let cs1 = m1.classes@;
    let ts0 = cs0[ci].titles@;
    let ts1 = cs1[ci].titles@;
    assert(class_names(cs1) =~= class_names(cs0));
    assert(class_ok(logs, m0.mapped@, cs0[ci]));
    lemma_swap_remove_no_dup(title_names(ts0), ti);
    assert(title_names(ts1) =~= title_names(ts0).update(ti, title_names(ts0).last()).drop_last());
    assert forall|t: int| 0 <= t < ts1.len() implies title_ok(logs, cs1[ci].logs@, #[trigger] ts1[t]) by {
        if t == ti {
            assert(ts1[t] == ts0[ts0.len() - 1]);
        } else {
            assert(ts1[t] == ts0[t]);
        }
    }
    assert(class_ok(logs, m1.mapped@, cs1[ci]));
    assert forall|j: int| 0 <= j < cs1.len() implies class_ok(logs, m1.mapped@, #[trigger] cs1[j]) by {
        if j != ci {
            assert(cs1[j] == cs0[j]);
        }
    }
    assert forall|k: int| 0 <= k < logs.len() && #[trigger] m1.mapped@[k] implies placed(logs, cs1, k) by {
        let (a, b) = lemma_placed_to(logs, cs0, k);
        if a == ci {
            assert(b != ti) by {
                if b == ti {
                    assert(ts0[ti].logs@.contains(k as usize));
                }
            }
            if b == ts0.len() - 1 {
                assert(ts1[ti] == ts0[b]);
                lemma_placed_from(logs, cs1, k, a, ti);
            } else {
                assert(ts1[b] == ts0[b]);
                lemma_placed_from(logs, cs1, k, a, b);
            }
        } else {
            assert(cs1[a] == cs0[a]);
            assert(class_ok(logs, m0.mapped@, cs0[a]));
            lemma_placed_from(logs, cs1, k, a, b);
        }
    }
}

/// Removing a class that lists no log keeps the model consistent.
proof fn lemma_drop_empty_class(m0: Model, m1: Model, ci: int)
    requires
        m0.wf_core(),
        0 <= ci < m0.classes.len(),
        m0.classes@[ci].logs@.len() == 0,
        m1.logs@ == m0.logs@,
        m1.logs_by_start@ == m0.logs_by_start@,
        m1.mapped@ == m0.mapped@,
        m1.titles_dirty,
        m1.classes@ == m0.classes@.update(ci, m0.classes@.last()).drop_last(),
    ensures
        m1.wf_core(),
{
    let logs = m0.logs@;
    let cs0 = m0.classes@;
    let cs1 = m1.classes@;
    lemma_swap_remove_no_dup(class_names(cs0), ci);
    assert(class_names(cs1) =~= class_names(cs0).update(ci, class_names(cs0).last()).drop_last());
    assert forall|j: int| 0 <= j < cs1.len() implies class_ok(logs, m1.mapped@, #[trigger] cs1[j]) by {
        if j == ci {
            assert(cs1[j] == cs0[cs0.len() - 1]);
        } else {
            assert(cs1[j] == cs0[j]);
        }
    }
    assert forall|k: int| 0 <= k < logs.len() && #[trigger] m1.mapped@[k] implies placed(logs, cs1, k) by {
        let (a, b) = lemma_placed_to(logs, cs0, k);
        assert(a != ci) by {
            if a == ci {
                assert(cs0[ci].logs@.contains(k as usize));
            }
        }
        assert(class_ok(logs, m0.mapped@, cs0[a]));
        if a == cs0.len() - 1 {
            assert(cs1[ci] == cs0[a]);
            lemma_placed_from(logs, cs1, k, ci, b);
        } else {
            assert(cs1[a] == cs0[a]);
            lemma_placed_from(logs, cs1, k, a, b);
        }
    }
}

fn position_of(v: &Vec<usize>, x: usize) -> (r: Option<usize>)
    ensures
        r matches Some(p) ==> p < v.len() && v@[p as int] == x,
        r is None ==> !v@.contains(x),
{
    let mut i: usize = 0;
    while i < v.len()
        invariant
            i <= v.len(),
            forall|q: int| 0 <= q < i ==> v@[q] != x,
        decreases v.len() - i,
    {
        if v[i] == x {
            return Some(i);
        }
        i = i + 1;
    }
    None
}

impl Model {
    /// Removes the log at `log_index` from its class and title, dropping a title or class
    /// that is left with no log; nothing happens to a log that is not mapped.
    #[verifier::spinoff_prover]
    fn unmap_log(&mut self, log_index: usize)
        requires
            old(self).wf(),
        ensures
            final(self).wf(),
            final(self).logs@ == old(self).logs@,
            final(self).logs_by_start@ == old(self).logs_by_start@,
            final(self).titles@ == old(self).titles@,
            final(self).visible_start_idx == old(self).visible_start_idx,
            final(self).visible_end_idx == old(self).visible_end_idx,
            final(self).visible_bounds_initialized == old(self).visible_bounds_initialized,
            log_index < old(self).logs.len() ==> final(self).mapped@ == old(self).mapped@.update(
                log_index as int,
                false,
            ),
            log_index >= old(self).logs.len() ==> final(self).mapped@ == old(self).mapped@,
            final(self).titles_dirty || final(self).titles_dirty == old(self).titles_dirty
                && final(self).classes@ == old(self).classes@,
            !(log_index < old(self).logs.len() && old(self).mapped@[log_index as int]) ==> *final(self) == *old(self),
            log_index < old(self).logs.len() && old(self).mapped@[log_index as int] ==> classes_lost(
                old(self).classes@,
                final(self).classes@,
                log_index,
                old(self).logs@[log_index as int].class@,
                old(self).logs@[log_index as int].title@,
                closed_span(old(self).logs@[log_index as int]),
            ),
            log_index < old(self).logs.len() ==> forall|ci: int|
                0 <= ci < final(self).classes.len() ==> !(#[trigger] final(self).classes@[ci]).logs@.contains(log_index) && forall|
                    ti: int,
                | 0 <= ti < final(self).classes@[ci].titles.len() ==> !(#[trigger] final(self).classes@[ci].titles@[ti]).logs@.contains(
                    log_index,
                ),
            log_index < old(self).logs.len() && old(self).mapped@[log_index as int] ==> {
                let c = old(self).logs@[log_index as int].class@;
                let t = old(self).logs@[log_index as int].title@;
                &&& class_listed(*final(self), c) <==> class_mapped(*final(self), c)
                &&& title_listed(*final(self), c, t) <==> title_mapped(*final(self), c, t)
            },
    {
        if log_index >= self.logs.len() {
            return;
        }
        if !self.mapped[log_index] {
            proof {
                assert(self.mapped@ =~= old(self).mapped@.update(log_index as int, false));
                lemma_unmapped_not_listed(*self, log_index as int);
            }
            return;
        }
        let ghost m0 = *self;
        let ghost logs = self.logs@;
        let ghost k = log_index as int;
        let ghost (ci0, ti0) = lemma_placed_to(logs, self.classes@, k);
        let class_string = self.logs[log_index].class.clone();
        let title_string = self.logs[log_index].title.clone();
        let log_duration = match self.logs[log_index].end {
            None => 0,
            Some(e) => span_exec(self.logs[log_index].start, e),
        };
        self.mapped.set(log_index, false);
        self.titles_dirty = true;
        let class_index = match find_class(&self.classes, &class_string) {
            Some(i) => i,
            None => {
                proof {
                    assert(false);
                }
                return;
            },
        };
        assert(class_index == ci0);
        let ghost c0 = self.classes@[ci0];
        proof {
            assert(class_ok(logs, m0.mapped@, c0));
            assert(title_ok(logs, c0.logs@, c0.titles@[ti0]));
        }
        let pos = match position_of(&self.classes[class_index].logs, log_index) {
            Some(p) => p,
            None => {
                proof {
                    assert(false);
                }
                return;
            },
        };
        self.classes[class_index].logs.swap_remove(pos);
        self.classes[class_index].remove_duration(log_duration);
        let title_index = match find_title(&self.classes[class_index].titles, &title_string) {
            Some(t) => t,
            None => {
                proof {
                    assert(false);
                }
                return;
            },
        };
        assert(title_index == ti0);
        let tpos = match position_of(&self.classes[class_index].titles[title_index].logs, log_index) {
            Some(p) => p,
            None => {
                proof {
                    assert(false);
                }
                return;
            },
        };
        self.classes[class_index].titles[title_index].logs.swap_remove(tpos);
        self.classes[class_index].titles[title_index].remove_duration(log_duration);
        proof {
            let cs1 = self.classes@;
            let c1 = cs1[ci0];
            let t0 = c0.titles@[ti0];
            let t1 = c1.titles@[ti0];
            assert(closed_span(logs[k]) == log_duration);
            lemma_sum_swap_remove(logs, c0.logs@, pos as int);
            lemma_sum_swap_remove(logs, t0.logs@, tpos as int);
            lemma_swap_remove_no_dup(c0.logs@, pos as int);
            lemma_swap_remove_no_dup(t0.logs@, tpos as int);
            assert(c1.logs@ == c0.logs@.update(pos as int, c0.logs@.last()).drop_last());
            assert(t1.logs@ == t0.logs@.update(tpos as int, t0.logs@.last()).drop_last());
            assert(class_names(cs1) =~= class_names(m0.classes@));
            assert(title_names(c1.titles@) =~= title_names(c0.titles@));
            let mapped1 = self.mapped@;
            // the other titles of the class never listed the log
            assert forall|t: int| 0 <= t < c1.titles.len() implies title_ok(logs, c1.logs@, #[trigger] c1.titles@[t]) by {
                if t == ti0 {
                    assert forall|q: int| 0 <= q < t1.logs.len() implies c1.logs@.contains(#[trigger] t1.logs@[q]) by {
                        let kk = t1.logs@[q];
                        assert(t0.logs@.contains(kk) && kk != k);
                        assert(c0.logs@.contains(kk));
                    }
                } else {
                    let tt = c0.titles@[t];
                    assert(c1.titles@[t] == tt);
                    assert(title_ok(logs, c0.logs@, tt));
                    assert(title_names(c0.titles@)[t] != title_names(c0.titles@)[ti0]);
                    assert forall|q: int| 0 <= q < tt.logs.len() implies c1.logs@.contains(#[trigger] tt.logs@[q]) by {
                        let kk = tt.logs@[q];
                        assert(c0.logs@.contains(kk));
                        assert(kk != k);
                    }
                }
            }
            assert(class_ok(logs, mapped1, c1)) by {
                assert forall|q: int| 0 <= q < c1.logs.len() implies {
                    let kk = #[trigger] c1.logs@[q];
                    &&& kk < logs.len()
                    &&& mapped1[kk as int]
                    &&& logs[kk as int].class@ == c1.class@
                } by {
                    let kk = c1.logs@[q];
                    assert(c1.logs@.contains(kk));
                    assert(c0.logs@.contains(kk) && kk != k);
                    let w = choose|w: int| 0 <= w < c0.logs.len() && c0.logs@[w] == kk;
                }
            }
            assert forall|j: int| 0 <= j < cs1.len() implies class_ok(logs, mapped1, #[trigger] cs1[j]) by {
                if j != ci0 {
                    assert(cs1[j] == m0.classes@[j]);
                    let cj = cs1[j];
                    assert(class_ok(logs, m0.mapped@, cj));
                    assert(class_names(m0.classes@)[j] != class_names(m0.classes@)[ci0]);
                    assert forall|q: int| 0 <= q < cj.logs.len() implies mapped1[#[trigger] cj.logs@[q] as int] by {
                        assert(cj.logs@[q] != k);
                    }
                }
            }
            assert forall|kk: int| 0 <= kk < logs.len() && #[trigger] mapped1[kk] implies placed(logs, cs1, kk) by {
                assert(m0.mapped@[kk]);
                assert(kk != k);
                let (a, b) = lemma_placed_to(logs, m0.classes@, kk);
                if a == ci0 {
                    assert(c1.logs@.contains(kk as usize));
                    if b == ti0 {
                        assert(t1.logs@.contains(kk as usize));
                    } else {
                        assert(c1.titles@[b] == c0.titles@[b]);
                    }
                    lemma_placed_from(logs, cs1, kk, a, b);
                } else {
                    assert(cs1[a] == m0.classes@[a]);
                    assert(class_ok(logs, m0.mapped@, cs1[a]));
                    lemma_placed_from(logs, cs1, kk, a, b);
                }
            }
            assert(mapped1 == m0.mapped@.update(k, false));
            assert(self.wf_core());
            assert forall|t: int| 0 <= t < c1.titles.len() && t != ti0 implies (#[trigger] c1.titles@[t]).logs.len() > 0 by {
                assert(c1.titles@[t] == c0.titles@[t]);
            }
        }
        let ghost s1 = self.classes@;
        if self.classes[class_index].titles[title_index].logs.len() == 0 {
            let ghost m1 = *self;
            self.classes[class_index].titles.swap_remove(title_index);
            proof {
                lemma_drop_empty_title(m1, *self, class_index as int, title_index as int);
            }
        }
        let ghost s2 = self.classes@;
        proof {
            let ts1 = s1[ci0].titles@;
            assert forall|t: int| 0 <= t < s2[ci0].titles.len() implies (#[trigger] s2[ci0].titles@[t]).logs.len() > 0 by {
                if ts1[ti0].logs.len() == 0 {
                    assert(s2[ci0].titles@ == ts1.update(ti0, ts1.last()).drop_last());
                    if t == ti0 {
                        assert(s2[ci0].titles@[t] == ts1[ts1.len() - 1]);
                    } else {
                        assert(s2[ci0].titles@[t] == ts1[t]);
                    }
                }
            }
            assert(forall|j: int| 0 <= j < s2.len() && j != ci0 ==> #[trigger] s2[j] == m0.classes@[j]);
        }
        if self.classes[class_index].logs.len() == 0 {
            let ghost m2 = *self;
            self.classes.swap_remove(class_index);
            proof {
                lemma_drop_empty_class(m2, *self, class_index as int);
            }
        }
        proof {
            let cs = self.classes@;
            assert(classes_nonempty(m0.classes@));
            assert forall|ci: int| 0 <= ci < cs.len() implies (#[trigger] cs[ci]).logs.len() > 0 && forall|t: int|
                0 <= t < cs[ci].titles.len() ==> (#[trigger] cs[ci].titles@[t]).logs.len() > 0 by {
                if s2[ci0].logs.len() == 0 {
                    assert(cs == s2.update(ci0, s2.last()).drop_last());
                    if ci == ci0 {
                        assert(cs[ci] == s2[s2.len() - 1]);
                        assert(cs[ci] == m0.classes@[s2.len() - 1]);
                    } else {
                        assert(cs[ci] == s2[ci]);
                        assert(cs[ci] == m0.classes@[ci]);
                    }
                } else if ci != ci0 {
                    assert(cs[ci] == m0.classes@[ci]);
                }
            }
            assert(classes_nonempty(cs));
            lemma_listed_iff_mapped(*self);
            lemma_unmapped_not_listed(*self, log_index as int);
            let d = closed_span(logs[k]);
            assert(d == log_duration);
            lemma_unmap_shape(m0.classes@, s1, s2, cs, ci0, ti0, pos as int, tpos as int, log_index, logs[k].class@, logs[k].title@, d);
        }
    }
}

/// `s` without its element at `p`, the last element taking its place.
pub open spec fn swap_removed<A>(s: Seq<A>, p: int) -> Seq<A> {
    s.update(p, s.last()).drop_last()
}

/// A recorded time less `d`, never below zero.
pub open spec fn less_time(r: nat, d: nat) -> nat {
    if r >= d {
        (r - d) as nat
    } else {
        0
    }
}

/// `new_t` is `t` with log `k`, of duration `d`, taken out.
pub open spec fn title_lost(t: Title, new_t: Title, k: usize, d: nat) -> bool {
    &&& new_t.title == t.title
    &&& exists|p: int| 0 <= p < t.logs.len() && t.logs@[p] == k && new_t.logs@ == #[trigger] swap_removed(t.logs@, p)
    &&& new_t.recorded() == less_time(t.recorded(), d)
}

/// `new_ts` is `ts` with log `k`, of duration `d`, taken out of the title called `tname`,
/// which goes when that was its only log.
pub open spec fn titles_lost(ts: Seq<Title>, new_ts: Seq<Title>, k: usize, tname: Seq<char>, d: nat) -> bool {
    match title_position(ts, tname) {
        Some(ti) => {
            ||| (ts[ti].logs@ == seq![k] && new_ts == swap_removed(ts, ti))
            ||| (ts[ti].logs.len() > 1 && new_ts.len() == ts.len() && (forall|j: int|
                0 <= j < ts.len() && j != ti ==> #[trigger] new_ts[j] == ts[j]) && title_lost(ts[ti], new_ts[ti], k, d))
        },
        None => false,
    }
}

/// `new_c` is `c` with log `k`, of duration `d` and title `tname`, taken out.
pub open spec fn class_lost(c: Class, new_c: Class, k: usize, tname: Seq<char>, d: nat) -> bool {
    &&& new_c.class == c.class
    &&& exists|p: int| 0 <= p < c.logs.len() && c.logs@[p] == k && new_c.logs@ == #[trigger] swap_removed(c.logs@, p)
    &&& new_c.recorded() == less_time(c.recorded(), d)
    &&& titles_lost(c.titles@, new_c.titles@, k, tname, d)
}

/// `new_cs` is `cs` with log `k`, of duration `d`, class `cname` and title `tname`, taken
/// out of its class and title; a class or title left without logs goes, the last one
/// taking its place.
pub open spec fn classes_lost(cs: Seq<Class>, new_cs: Seq<Class>, k: usize, cname: Seq<char>, tname: Seq<char>, d: nat) -> bool {
    match class_position(cs, cname) {
        Some(ci) => {
            ||| (cs[ci].logs@ == seq![k] && new_cs == swap_removed(cs, ci))
            ||| (cs[ci].logs.len() > 1 && new_cs.len() == cs.len() && (forall|j: int|
                0 <= j < cs.len() && j != ci ==> #[trigger] new_cs[j] == cs[j]) && class_lost(cs[ci], new_cs[ci], k, tname, d))
        },
        None => false,
    }
}

/// Taking log `k` out of position `pos` of the class at `ci`, and out of position `tpos`
/// of its title at `ti` (giving `s1`), then dropping that title if it was left without
/// logs (`s2`), then the class if it was (`cs`), is `classes_lost`.
proof fn lemma_unmap_shape(
    cs0: Seq<Class>,
    s1: Seq<Class>,
    s2: Seq<Class>,
    cs: Seq<Class>,
    ci: int,
    ti: int,
    pos: int,
    tpos: int,
    k: usize,
    cname: Seq<char>,
    tname: Seq<char>,
    d: nat,
)
    requires
        class_position(cs0, cname) == Some(ci),
        0 <= ci < cs0.len(),
        title_position(cs0[ci].titles@, tname) == Some(ti),
        0 <= ti < cs0[ci].titles.len(),
        0 <= pos < cs0[ci].logs.len(),
        cs0[ci].logs@[pos] == k,
        0 <= tpos < cs0[ci].titles@[ti].logs.len(),
        cs0[ci].titles@[ti].logs@[tpos] == k,
        s1.len() == cs0.len(),
        forall|j: int| 0 <= j < cs0.len() && j != ci ==> #[trigger] s1[j] == cs0[j],
        s1[ci].class == cs0[ci].class,
        s1[ci].logs@ == swap_removed(cs0[ci].logs@, pos),
        s1[ci].recorded() == less_time(cs0[ci].recorded(), d),
        s1[ci].titles.len() == cs0[ci].titles.len(),
        forall|t: int| 0 <= t < cs0[ci].titles.len() && t != ti ==> #[trigger] s1[ci].titles@[t] == cs0[ci].titles@[t],
        s1[ci].titles@[ti].title == cs0[ci].titles@[ti].title,
        s1[ci].titles@[ti].logs@ == swap_removed(cs0[ci].titles@[ti].logs@, tpos),
        s1[ci].titles@[ti].recorded() == less_time(cs0[ci].titles@[ti].recorded(), d),
        s2.len() == s1.len(),
        forall|j: int| 0 <= j < s1.len() && j != ci ==> #[trigger] s2[j] == s1[j],
        s2[ci].class == s1[ci].class,
        s2[ci].logs == s1[ci].logs,
        s2[ci].recorded() == s1[ci].recorded(),
        s2[ci].titles@ == if s1[ci].titles@[ti].logs.len() == 0 {
            swap_removed(s1[ci].titles@, ti)
        } else {
            s1[ci].titles@
        },
        cs == if s2[ci].logs.len() == 0 {
            swap_removed(s2, ci)
        } else {
            s2
        },
    ensures
        classes_lost(cs0, cs, k, cname, tname, d),
{
    let c0 = cs0[ci];
    let t0 = c0.titles@[ti];
    let t1 = s1[ci].titles@[ti];
    assert(title_lost(t0, t1, k, d));
    if t0.logs.len() == 1 {
        assert(t0.logs@ =~= seq![k]);
        assert(s2[ci].titles@ =~= swap_removed(c0.titles@, ti)) by {
            if ti != c0.titles.len() - 1 {
                assert(s1[ci].titles@.last() == c0.titles@.last());
            }
        }
    } else {
        assert(s2[ci].titles@[ti] == t1);
    }
    assert(titles_lost(c0.titles@, s2[ci].titles@, k, tname, d));
    assert(class_lost(c0, s2[ci], k, tname, d));
    if c0.logs.len() == 1 {
        assert(c0.logs@ =~= seq![k]);
        assert(swap_removed(s2, ci) =~= swap_removed(cs0, ci)) by {
            assert forall|j: int| 0 <= j < cs0.len() - 1 implies swap_removed(s2, ci)[j] == swap_removed(cs0, ci)[j] by {
                if j != ci {
                    assert(s2[j] == s1[j]);
                } else {
                    assert(s2.last() == s1.last());
                }
            }
        }
    }
}

/// A log that is not mapped is listed by no class and no title.
pub proof fn lemma_unmapped_not_listed(m: Model, k: int)
    requires
        m.wf(),
        0 <= k < m.logs.len(),
        !m.mapped@[k],
    ensures
        forall|ci: int| 0 <= ci < m.classes.len() ==> !(#[trigger] m.classes@[ci]).logs@.contains(k as usize),
        forall|ci: int, ti: int|
            0 <= ci < m.classes.len() && 0 <= ti < m.classes@[ci].titles.len() ==> !(#[trigger] m.classes@[ci].titles@[ti]).logs@.contains(
                k as usize,
            ),
{
    assert forall|ci: int| 0 <= ci < m.classes.len() implies !(#[trigger] m.classes@[ci]).logs@.contains(k as usize) by {
        let c = m.classes@[ci];
        assert(class_ok(m.logs@, m.mapped@, c));
        if c.logs@.contains(k as usize) {
            let q = choose|q: int| 0 <= q < c.logs.len() && c.logs@[q] == k as usize;
            assert(m.mapped@[c.logs@[q] as int]);
        }
    }
    assert forall|ci: int, ti: int|
        0 <= ci < m.classes.len() && 0 <= ti < m.classes@[ci].titles.len() implies !(#[trigger] m.classes@[ci].titles@[ti]).logs@.contains(
            k as usize,
        ) by {
        let c = m.classes@[ci];
        assert(class_ok(m.logs@, m.mapped@, c));
        let t = c.titles@[ti];
        assert(title_ok(m.logs@, c.logs@, t));
        if t.logs@.contains(k as usize) {
            let q = choose|q: int| 0 <= q < t.logs.len() && t.logs@[q] == k as usize;
            assert(c.logs@.contains(t.logs@[q]));
            let w = choose|w: int| 0 <= w < c.logs.len() && c.logs@[w] == t.logs@[q];
            assert(m.mapped@[c.logs@[w] as int]);
        }
    }
}

/// Two titles with the same name, the same logs in the same order and the same recorded time.
pub open spec fn same_title(a: Title, b: Title) -> bool {
    &&& a.title == b.title
    &&& a.logs@ == b.logs@
    &&& a.recorded() == b.recorded()
}

/// Two classes with the same name, logs and recorded time, and the same titles in the same order.
pub open spec fn same_class(a: Class, b: Class) -> bool {
    &&& a.class == b.class
    &&& a.logs@ == b.logs@
    &&& a.recorded() == b.recorded()
    &&& a.titles.len() == b.titles.len()
    &&& forall|t: int| 0 <= t < a.titles.len() ==> same_title(#[trigger] a.titles@[t], b.titles@[t])
}

proof fn lemma_swap_removed_push<A>(s: Seq<A>, x: A, p: int)
    requires
        !s.contains(x),
        0 <= p < s.len() + 1,
        s.push(x)[p] == x,
    ensures
        swap_removed(s.push(x), p) == s,
{
    if p < s.len() {
        assert(s[p] == x);
    }
    assert(swap_removed(s.push(x), p) =~= s);
}

proof fn lemma_titles_round_trip(t0: Seq<Title>, t1: Seq<Title>, t2: Seq<Title>, k: usize, tname: Seq<char>, d: nat)
    requires
        titles_gained(t0, t1, k, tname, d),
        titles_lost(t1, t2, k, tname, d),
        forall|t: int| 0 <= t < t0.len() ==> (#[trigger] t0[t]).logs.len() > 0 && !t0[t].logs@.contains(k),
    ensures
        t2.len() == t0.len(),
        forall|t: int| 0 <= t < t0.len() ==> same_title(#[trigger] t2[t], t0[t]),
{
    title_names(t0).index_of_first_ensures(tname);
    match title_position(t0, tname) {
        Some(ti) => {
            assert(t1 =~= t0.update(ti, t1[ti]));
            lemma_title_names_update(t0, ti, t1[ti]);
            assert(title_position(t1, tname) == Some(ti));
            assert(t1[ti].logs.len() > 1);
            let p = choose|p: int| 0 <= p < t1[ti].logs.len() && t1[ti].logs@[p] == k && t2[ti].logs@ == #[trigger] swap_removed(t1[ti].logs@, p);
            lemma_swap_removed_push(t0[ti].logs@, k, p);
        },
        None => {
            assert(t1 =~= t0.push(t1.last()));
            lemma_title_names_push(t0, t1.last());
            assert(title_names(t1)[t0.len() as int] == tname);
            lemma_first_at(title_names(t1), tname, t0.len() as int);
            assert(t2 =~= t0);
        },
    }
}

/// Mapping a log that no class or title lists, and then unmapping it again, gives back the
/// classes and titles as they were, in the same order, with the same logs and times.
pub proof fn lemma_map_unmap_restores(
    c0: Seq<Class>,
    c1: Seq<Class>,
    c2: Seq<Class>,
    k: usize,
    cname: Seq<char>,
    tname: Seq<char>,
    d: nat,
)
    requires
        classes_gained(c0, c1, k, cname, tname, d),
        classes_lost(c1, c2, k, cname, tname, d),
        classes_nonempty(c0),
        forall|ci: int| 0 <= ci < c0.len() ==> !(#[trigger] c0[ci]).logs@.contains(k),
        forall|ci: int, ti: int|
            0 <= ci < c0.len() && 0 <= ti < c0[ci].titles.len() ==> !(#[trigger] c0[ci].titles@[ti]).logs@.contains(k),
    ensures
        c2.len() == c0.len(),
        forall|ci: int| 0 <= ci < c0.len() ==> same_class(#[trigger] c2[ci], c0[ci]),
{
    class_names(c0).index_of_first_ensures(cname);
    match class_position(c0, cname) {
        Some(ci) => {
            assert(c1 =~= c0.update(ci, c1[ci]));
            assert(class_names(c1) =~= class_names(c0));
            assert(class_position(c1, cname) == Some(ci));
            assert(c1[ci].logs.len() > 1);
            let p = choose|p: int| 0 <= p < c1[ci].logs.len() && c1[ci].logs@[p] == k && c2[ci].logs@ == #[trigger] swap_removed(c1[ci].logs@, p);
            lemma_swap_removed_push(c0[ci].logs@, k, p);
            assert forall|t: int| 0 <= t < c0[ci].titles.len() implies (#[trigger] c0[ci].titles@[t]).logs.len() > 0 && !c0[ci].titles@[t].logs@.contains(k) by {
                assert(!c0[ci].titles@[t].logs@.contains(k));
            }
            lemma_titles_round_trip(c0[ci].titles@, c1[ci].titles@, c2[ci].titles@, k, tname, d);
            assert(same_class(c2[ci], c0[ci]));
        },
        None => {
            assert(c1 =~= c0.push(c1.last()));
            lemma_class_names_push(c0, c1.last());
            assert(class_names(c1)[c0.len() as int] == cname);
            lemma_first_at(class_names(c1), cname, c0.len() as int);
            assert(c2 =~= c0);
        },
    }
}

/// A class is listed when and only when some mapped log carries its name.
pub open spec fn class_listed(m: Model, c: Seq<char>) -> bool {
    class_position(m.classes@, c) is Some
}

/// A title is listed in its class when and only when some mapped log carries both names.
pub open spec fn title_listed(m: Model, c: Seq<char>, t: Seq<char>) -> bool {
    match class_position(m.classes@, c) {
        Some(ci) => title_position(m.classes@[ci].titles@, t) is Some,
        None => false,
    }
}

/// Some mapped log of `m` carries the class name `c`.
pub open spec fn class_mapped(m: Model, c: Seq<char>) -> bool {
    exists|k: int| 0 <= k < m.logs.len() && #[trigger] m.mapped@[k] && m.logs@[k].class@ == c
}

/// Some mapped log of `m` carries the class name `c` and the title `t`.
pub open spec fn title_mapped(m: Model, c: Seq<char>, t: Seq<char>) -> bool {
    exists|k: int| 0 <= k < m.logs.len() && #[trigger] m.mapped@[k] && m.logs@[k].class@ == c && m.logs@[k].title@ == t
}

/// In a consistent model a class is listed exactly when some mapped log carries it, and a
/// title of a class exactly when some mapped log carries both: mapping a log lists them,
/// and unmapping the last log that carries them drops them.
pub proof fn lemma_listed_iff_mapped(m: Model)
    requires
        m.wf(),
    ensures
        forall|c: Seq<char>| #[trigger] class_listed(m, c) <==> class_mapped(m, c),
        forall|c: Seq<char>, t: Seq<char>| #[trigger] title_listed(m, c, t) <==> title_mapped(m, c, t),
{
    let cs = m.classes@;
    let logs = m.logs@;
    assert forall|c: Seq<char>| #[trigger] class_listed(m, c) <==> class_mapped(m, c) by {
        class_names(cs).index_of_first_ensures(c);
        if class_listed(m, c) {
            let ci = class_position(cs, c)->0;
            assert(class_names(cs)[ci] == c);
            assert(class_ok(logs, m.mapped@, cs[ci]));
            let k = cs[ci].logs@[0];
            assert(m.mapped@[k as int] && logs[k as int].class@ == c);
        }
        if class_mapped(m, c) {
            let k = choose|k: int| 0 <= k < m.logs.len() && #[trigger] m.mapped@[k] && m.logs@[k].class@ == c;
            assert(placed(logs, cs, k));
        }
    }
    assert forall|c: Seq<char>, t: Seq<char>| #[trigger] title_listed(m, c, t) <==> title_mapped(m, c, t) by {
        class_names(cs).index_of_first_ensures(c);
        if title_listed(m, c, t) {
            let ci = class_position(cs, c)->0;
            let ti = title_position(cs[ci].titles@, t)->0;
            title_names(cs[ci].titles@).index_of_first_ensures(t);
            assert(class_names(cs)[ci] == c);
            assert(title_names(cs[ci].titles@)[ti] == t);
            assert(class_ok(logs, m.mapped@, cs[ci]));
            let tt = cs[ci].titles@[ti];
            assert(title_ok(logs, cs[ci].logs@, tt));
            let k = tt.logs@[0];
            assert(cs[ci].logs@.contains(k));
            let q = choose|q: int| 0 <= q < cs[ci].logs.len() && cs[ci].logs@[q] == k;
            assert(m.mapped@[k as int] && logs[k as int].class@ == c && logs[k as int].title@ == t);
        }
        if title_mapped(m, c, t) {
            let k = choose|k: int| 0 <= k < m.logs.len() && #[trigger] m.mapped@[k] && m.logs@[k].class@ == c && m.logs@[k].title@ == t;
            assert(placed(logs, cs, k));
        }
    }
}


// ---------------------------------------------------------------------------------------
// Start order
// ---------------------------------------------------------------------------------------

impl Model {
    /// Forgets every mapping: no class, no title pair, no mapped log, no visible range.
    pub fn reset_mappings(&mut self)
        requires
            old(self).wf(),
        ensures
            final(self).wf(),
            final(self).logs@ == old(self).logs@,
            final(self).logs_by_start@ == old(self).logs_by_start@,
            final(self).classes@ == Seq::<Class>::empty(),
            final(self).titles@ == Seq::<(usize, usize)>::empty(),
            final(self).titles_dirty,
            final(self).mapped.len() == old(self).mapped.len(),
            forall|k: int| 0 <= k < final(self).mapped.len() ==> !#[trigger] final(self).mapped@[k],
            final(self).visible_start_idx == 0,
            final(self).visible_end_idx == 0,
            !final(self).visible_bounds_initialized,
    {
        self.classes.clear();
        self.titles.clear();
        self.titles_dirty = true;
        let n = self.mapped.len();
        let mut i: usize = 0;
        while i < n
            invariant
                i <= n,
                n == self.mapped.len(),
                n == self.logs.len(),
                self.logs@ == old(self).logs@,
                self.logs_by_start@ == old(self).logs_by_start@,
                self.classes@ == Seq::<Class>::empty(),
                self.titles@ == Seq::<(usize, usize)>::empty(),
                self.titles_dirty,
                old(self).wf(),
                forall|k: int| 0 <= k < i ==> !#[trigger] self.mapped@[k],
            decreases n - i,
        {
            self.mapped.set(i, false);
            i = i + 1;
        }
        self.visible_start_idx = 0;
        self.visible_end_idx = 0;
        self.visible_bounds_initialized = false;
    }

    /// The first position in start order whose log starts at `target_ms` or later.
    fn lower_bound_start(&self, target_ms: u64) -> (r: usize)
        requires
            start_order_ok(self.logs@, self.logs_by_start@),
        ensures
            r <= self.logs_by_start.len(),
            forall|q: int|
                0 <= q < r ==> self.logs@[#[trigger] self.logs_by_start@[q] as int].start
                    < target_ms,
            forall|q: int|
                r <= q < self.logs_by_start.len() ==> self.logs@[#[trigger] self.logs_by_start@[
                q] as int].start >= target_ms,
    {
        let mut lo: usize = 0;
        let mut hi: usize = self.logs_by_start.len();
        while lo < hi
            invariant
                lo <= hi <= self.logs_by_start.len(),
                start_order_ok(self.logs@, self.logs_by_start@),
                forall|q: int|
                    0 <= q < lo ==> self.logs@[#[trigger] self.logs_by_start@[q] as int].start
                        < target_ms,
                forall|q: int|
                    hi <= q < self.logs_by_start.len() ==> self.logs@[#[trigger] self.logs_by_start@[
                    q] as int].start >= target_ms,
            decreases hi - lo,
        {
            let mid = lo + (hi - lo) / 2;
            let log_index = self.logs_by_start[mid];
            if self.logs[log_index].start < target_ms {
                proof {
                    assert forall|q: int| 0 <= q <= mid implies self.logs@[#[trigger] self.logs_by_start@[q] as int].start
                        < target_ms by {
                        if q < mid {
                            assert(start_before(self.logs@, self.logs_by_start@[q], self.logs_by_start@[mid as int]));
                        }
                    }
                }
                lo = mid + 1;
            } else {
                proof {
                    assert forall|q: int| mid <= q < self.logs_by_start.len() implies self.logs@[#[trigger] self.logs_by_start@[
                        q] as int].start >= target_ms by {
                        if q > mid {
                            assert(start_before(self.logs@, self.logs_by_start@[mid as int], self.logs_by_start@[q]));
                        }
                    }
                }
                hi = mid;
            }
        }
        lo
    }

    /// Places the newest log, at `log_index`, in start order: after every log that starts
    /// earlier, or at the same time and was added before it.
    fn insert_log_in_start_order(&mut self, log_index: usize)
        requires
            log_index + 1 == old(self).logs.len(),
            start_order_ok(old(self).logs@.drop_last(), old(self).logs_by_start@),
        ensures
            final(self).logs@ == old(self).logs@,
            final(self).classes@ == old(self).classes@,
            final(self).mapped@ == old(self).mapped@,
            final(self).titles@ == old(self).titles@,
            final(self).titles_dirty == old(self).titles_dirty,
            final(self).visible_start_idx == old(self).visible_start_idx,
            final(self).visible_end_idx == old(self).visible_end_idx,
            final(self).visible_bounds_initialized == old(self).visible_bounds_initialized,
            start_order_ok(final(self).logs@, final(self).logs_by_start@),
            exists|pos: int|
                0 <= pos <= old(self).logs_by_start.len() && final(self).logs_by_start@ == old(
                    self,
                ).logs_by_start@.insert(pos, log_index),
    {
        let ghost logs = self.logs@;
        let ghost order = self.logs_by_start@;
        let start = self.logs[log_index].start;
        let id = self.logs[log_index].id;
        proof {
            assert forall|a: int, b: int| 0 <= a < b < order.len() implies start_before(logs, #[trigger] order[a], #[trigger] order[b]) by {
                assert(start_before(logs.drop_last(), order[a], order[b]));
            }
        }
        // the first position whose log does not come before the new one
        let mut lo: usize = 0;
        let mut hi: usize = self.logs_by_start.len();
        while lo < hi
            invariant
                lo <= hi <= order.len(),
                self.logs@ == logs,
                self.logs_by_start@ == order,
                start == logs[log_index as int].start,
                id == logs[log_index as int].id,
                log_index + 1 == logs.len(),
                forall|q: int| 0 <= q < order.len() ==> #[trigger] order[q] < log_index,
                forall|a: int, b: int| 0 <= a < b < order.len() ==> start_before(logs, #[trigger] order[a], #[trigger] order[b]),
                forall|q: int| 0 <= q < lo ==> start_before(logs, #[trigger] order[q], log_index),
                forall|q: int| hi <= q < order.len() ==> !start_before(logs, #[trigger] order[q], log_index),
            decreases hi - lo,
        {
            let mid = lo + (hi - lo) / 2;
            let other = &self.logs[self.logs_by_start[mid]];
            let before = if other.start == start {
                other.id < id
            } else {
                other.start < start
            };
            proof {
                assert(*other == logs[order[mid as int] as int]);
                assert(before == start_before(logs, order[mid as int], log_index));
            }
            if before {
                proof {
                    assert forall|q: int| 0 <= q <= mid implies start_before(logs, #[trigger] order[q], log_index) by {
                        if q < mid {
                            assert(start_before(logs, order[q], order[mid as int]));
                        }
                    }
                }
                lo = mid + 1;
            } else {
                proof {
                    assert forall|q: int| mid <= q < order.len() implies !start_before(logs, #[trigger] order[q], log_index) by {
                        if q > mid {
                            assert(start_before(logs, order[mid as int], order[q]));
                        }
                    }
                }
                hi = mid;
            }
        }
        self.logs_by_start.insert(lo, log_index);
        proof {
            let new_order = self.logs_by_start@;
            let pos = lo as int;
            assert(new_order == order.insert(pos, log_index));
            assert forall|q: int| 0 <= q < new_order.len() implies #[trigger] new_order[q] < logs.len() by {
                if q < pos {
                    assert(new_order[q] == order[q]);
                } else if q > pos {
                    assert(new_order[q] == order[q - 1]);
                }
            }
            assert forall|a: int, b: int| 0 <= a < b < new_order.len() implies start_before(logs, #[trigger] new_order[a], #[trigger] new_order[b]) by {
                if a < pos {
                    assert(new_order[a] == order[a]);
                } else if a > pos {
                    assert(new_order[a] == order[a - 1]);
                }
                if b < pos {
                    assert(new_order[b] == order[b]);
                } else if b > pos {
                    assert(new_order[b] == order[b - 1]);
                }
                if b == pos {
                } else if a == pos {
                    // the new log does not come after `new_order[b]`, and the two differ
                    assert(!start_before(logs, order[b - 1], log_index));
                    assert(order[b - 1] < log_index);
                }
            }
            assert(new_order.no_duplicates()) by {
                assert forall|a: int, b: int| 0 <= a < new_order.len() && 0 <= b < new_order.len() && a != b implies new_order[a] != new_order[b] by {
                    if a < b {
                        assert(start_before(logs, new_order[a], new_order[b]));
                    } else {
                        assert(start_before(logs, new_order[b], new_order[a]));
                    }
                }
            }
        }
    }
}


// ---------------------------------------------------------------------------------------
// Keeping the order up to date
// ---------------------------------------------------------------------------------------

/// `s` with the items at `i - 1` and `i` exchanged.
pub open spec fn swap_at<A>(s: Seq<A>, i: int) -> Seq<A> {
    s.update(i - 1, s[i]).update(i, s[i - 1])
}

fn swap_adjacent<T>(v: &mut Vec<T>, i: usize)
    requires
        0 < i < old(v).len(),
    ensures
        final(v)@ == swap_at(old(v)@, i as int),
{
    let x = v.remove(i);
    v.insert(i - 1, x);
    proof {
        assert(v@ =~= swap_at(old(v)@, i as int));
    }
}

/// The time shown for a title: what it recorded plus the running time of its last log if
/// that one is still open at `now`, saturating at `u64::MAX`.
pub open spec fn title_dur(t: Title, logs: Seq<Log>, now: u64) -> u64 {
    clamp_u64(t.recorded() + open_extra(logs, t.logs@, now))
}

/// The time shown for a class, measured as for a title.
pub open spec fn class_dur(c: Class, logs: Seq<Log>, now: u64) -> u64 {
    clamp_u64(c.recorded() + open_extra(logs, c.logs@, now))
}

/// One pass over the titles from position `i` on: each title that shows more time than
/// the one before it changes places with that one.
pub open spec fn title_pass(ts: Seq<Title>, logs: Seq<Log>, now: u64, i: int) -> Seq<Title>
    decreases ts.len() - i,
{
    if i >= ts.len() {
        ts
    } else if i < 1 {
        title_pass(ts, logs, now, i + 1)
    } else if title_dur(ts[i], logs, now) > title_dur(ts[i - 1], logs, now) {
        title_pass(swap_at(ts, i), logs, now, i + 1)
    } else {
        title_pass(ts, logs, now, i + 1)
    }
}

/// A title pass only rearranges the titles.
pub proof fn lemma_title_pass_permutes(ts: Seq<Title>, logs: Seq<Log>, now: u64, i: int)
    ensures
        title_pass(ts, logs, now, i).to_multiset() == ts.to_multiset(),
    decreases ts.len() - i,
{
    if i >= ts.len() {
    } else if i < 1 {
        lemma_title_pass_permutes(ts, logs, now, i + 1);
    } else if title_dur(ts[i], logs, now) > title_dur(ts[i - 1], logs, now) {
        lemma_swap_multiset(ts, i);
        lemma_title_pass_permutes(swap_at(ts, i), logs, now, i + 1);
    } else {
        lemma_title_pass_permutes(ts, logs, now, i + 1);
    }
}

/// A strictly increasing list of class positions, all below `n`, no longer than `n`.
pub open spec fn position_list_ok(cset: Seq<usize>, n: nat) -> bool {
    &&& forall|a: int, b: int| 0 <= a < b < cset.len() ==> #[trigger] cset[a] < #[trigger] cset[b]
    &&& forall|q: int| 0 <= q < cset.len() ==> #[trigger] cset[q] < n
    &&& cset.len() <= n
}

/// Whether the class at position `c` shows more time than the one before it.
pub open spec fn class_outranks(cs: Seq<Class>, c: int, logs: Seq<Log>, now: u64) -> bool {
    0 < c < cs.len() && class_dur(cs[c], logs, now) > class_dur(cs[c - 1], logs, now)
}

/// The pass over the changed classes from the `i`-th of `cset` on: a changed class that
/// shows more time than the class before it changes places with it, the class it passed
/// joins the changed ones, and the same entry is looked at again; otherwise the next one.
pub open spec fn class_phase(cs: Seq<Class>, cset: Seq<usize>, i: int, logs: Seq<Log>, now: u64) -> Seq<Class>
    decreases cs.len() + 1 - cset.len(), cset.len() - i, (if 0 <= i < cset.len() && class_outranks(cs, cset[i] as int, logs, now) { 1int } else { 0int }),
    when 0 <= i && position_list_ok(cset, cs.len())
{
    if i >= cset.len() {
        cs
    } else {
        let c = cset[i] as int;
        if class_outranks(cs, c, logs, now) {
            if cset.contains((c - 1) as usize) {
                class_phase(swap_at(cs, c), cset, i, logs, now)
            } else {
                class_phase(swap_at(cs, c), cset.insert(i, (c - 1) as usize), i, logs, now)
            }
        } else {
            class_phase(cs, cset, i + 1, logs, now)
        }
    }
}

/// The classes of changed logs: the positions of the classes named after the logs that
/// `changed` lists.
pub open spec fn changed_class_set(cs: Seq<Class>, logs: Seq<Log>, changed: Seq<usize>) -> Set<usize> {
    Set::new(
        |c: usize|
            exists|q: int|
                #![trigger changed[q]]
                0 <= q < changed.len() && changed[q] < logs.len() && class_position(
                    cs,
                    logs[changed[q] as int].class@,
                ) == Some(c as int),
    )
}

/// `mid` is `cs` after one title pass over each class at a position in `set`.
pub open spec fn titles_passed(cs: Seq<Class>, mid: Seq<Class>, set: Set<usize>, logs: Seq<Log>, now: u64) -> bool {
    &&& mid.len() == cs.len()
    &&& forall|j: int|
        0 <= j < cs.len() ==> {
            &&& (#[trigger] mid[j]).class == cs[j].class
            &&& mid[j].logs == cs[j].logs
            &&& mid[j].recorded() == cs[j].recorded()
            &&& mid[j].titles@ == if set.contains(j as usize) {
                title_pass(cs[j].titles@, logs, now, 1)
            } else {
                cs[j].titles@
            }
        }
}

/// Swapping two neighbours keeps the same elements, as many times each.
proof fn lemma_swap_multiset<A>(s: Seq<A>, i: int)
    requires
        0 < i < s.len(),
    ensures
        swap_at(s, i).to_multiset() == s.to_multiset(),
{
    broadcast use vstd::seq_lib::to_multiset_update;
    broadcast use vstd::multiset::group_multiset_axioms;

    let s1 = s.update(i - 1, s[i]);
    assert(s1.to_multiset() == s.to_multiset().insert(s[i]).remove(s[i - 1]));
    assert(s1[i] == s[i]);
    assert(s1.update(i, s[i - 1]).to_multiset() == s1.to_multiset().insert(s[i - 1]).remove(s[i]));
    assert(swap_at(s, i).to_multiset() =~= s.to_multiset());
}

proof fn lemma_swap_no_dup<A>(s: Seq<A>, i: int)
    requires
        0 < i < s.len(),
        s.no_duplicates(),
    ensures
        swap_at(s, i).no_duplicates(),
{
    let t = swap_at(s, i);
    assert forall|a: int, b: int| 0 <= a < t.len() && 0 <= b < t.len() && a != b implies t[a] != t[b] by {
        let oa = if a == i { i - 1 } else if a == i - 1 { i } else { a };
        let ob = if b == i { i - 1 } else if b == i - 1 { i } else { b };
        assert(t[a] == s[oa]);
        assert(t[b] == s[ob]);
    }
}

/// Exchanging two neighbouring titles of a class keeps the model consistent.
proof fn lemma_swap_titles_wf(m0: Model, m1: Model, ci: int, t: int)
    requires
        m0.wf(),
        0 <= ci < m0.classes.len(),
        0 < t < m0.classes@[ci].titles.len(),
        m1.logs@ == m0.logs@,
        m1.logs_by_start@ == m0.logs_by_start@,
        m1.mapped@ == m0.mapped@,
        m1.titles_dirty,
        m1.classes.len() == m0.classes.len(),
        forall|j: int| 0 <= j < m0.classes.len() && j != ci ==> #[trigger] m1.classes@[j] == m0.classes@[j],
        m1.classes@[ci].class == m0.classes@[ci].class,
        m1.classes@[ci].logs == m0.classes@[ci].logs,
        m1.classes@[ci].recorded() == m0.classes@[ci].recorded(),
        m1.classes@[ci].titles@ == swap_at(m0.classes@[ci].titles@, t),
    ensures
        m1.wf(),
{
    let logs = m0.logs@;
    let cs0 = m0.classes@;
    let cs1 = m1.classes@;
    let ts0 = cs0[ci].titles@;
    let ts1 = cs1[ci].titles@;
    assert(class_names(cs1) =~= class_names(cs0));
    assert(class_ok(logs, m0.mapped@, cs0[ci]));
    assert(title_names(ts1) =~= swap_at(title_names(ts0), t));
    lemma_swap_no_dup(title_names(ts0), t);
    assert forall|q: int| 0 <= q < ts1.len() implies title_ok(logs, cs1[ci].logs@, #[trigger] ts1[q]) by {
        let oq = if q == t { t - 1 } else if q == t - 1 { t } else { q };
        assert(ts1[q] == ts0[oq]);
    }
    assert forall|j: int| 0 <= j < cs1.len() implies class_ok(logs, m1.mapped@, #[trigger] cs1[j]) by {
        if j != ci {
            assert(cs1[j] == cs0[j]);
        }
    }
    assert forall|k: int| 0 <= k < logs.len() && #[trigger] m1.mapped@[k] implies placed(logs, cs1, k) by {
        let (a, b) = lemma_placed_to(logs, cs0, k);
        assert(class_ok(logs, m0.mapped@, cs0[a]));
        if a == ci {
            let nb = if b == t { t - 1 } else if b == t - 1 { t } else { b };
            assert(ts1[nb] == ts0[b]);
            lemma_placed_from(logs, cs1, k, a, nb);
        } else {
            assert(cs1[a] == cs0[a]);
            lemma_placed_from(logs, cs1, k, a, b);
        }
    }
}

/// Exchanging two neighbouring classes keeps the model consistent.
proof fn lemma_swap_classes_wf(m0: Model, m1: Model, c: int)
    requires
        m0.wf(),
        0 < c < m0.classes.len(),
        m1.logs@ == m0.logs@,
        m1.logs_by_start@ == m0.logs_by_start@,
        m1.mapped@ == m0.mapped@,
        m1.titles_dirty,
        m1.classes@ == swap_at(m0.classes@, c),
    ensures
        m1.wf(),
{
    let logs = m0.logs@;
    let cs0 = m0.classes@;
    let cs1 = m1.classes@;
    assert(class_names(cs1) =~= swap_at(class_names(cs0), c));
    lemma_swap_no_dup(class_names(cs0), c);
    assert forall|j: int| 0 <= j < cs1.len() implies class_ok(logs, m1.mapped@, #[trigger] cs1[j]) by {
        let oj = if j == c { c - 1 } else if j == c - 1 { c } else { j };
        assert(cs1[j] == cs0[oj]);
    }
    assert forall|k: int| 0 <= k < logs.len() && #[trigger] m1.mapped@[k] implies placed(logs, cs1, k) by {
        let (a, b) = lemma_placed_to(logs, cs0, k);
        assert(class_ok(logs, m0.mapped@, cs0[a]));
        let na = if a == c { c - 1 } else if a == c - 1 { c } else { a };
        assert(cs1[na] == cs0[a]);
        lemma_placed_from(logs, cs1, k, na, b);
    }
}

proof fn lemma_position_list_len(cset: Seq<usize>, n: nat)
    requires
        forall|a: int, b: int| 0 <= a < b < cset.len() ==> #[trigger] cset[a] < #[trigger] cset[b],
        forall|q: int| 0 <= q < cset.len() ==> #[trigger] cset[q] < n,
    ensures
        cset.len() <= n,
        forall|q: int| 0 <= q < cset.len() ==> #[trigger] cset[q] >= q,
    decreases cset.len(),
{
    if cset.len() > 0 {
        let d = cset.drop_last();
        lemma_position_list_len(d, n);
        assert forall|q: int| 0 <= q < cset.len() implies #[trigger] cset[q] >= q by {
            if q < cset.len() - 1 {
                assert(d[q] == cset[q]);
            } else if q > 0 {
                assert(d[q - 1] == cset[q - 1]);
                assert(cset[q - 1] < cset[q]);
            }
        }
        assert(cset[cset.len() - 1] >= cset.len() - 1);
    }
}

impl Model {
    /// The positions of the classes of the changed logs, in increasing order.
    fn changed_class_positions(&self, changed_log_indices: &Vec<usize>) -> (cset: Vec<usize>)
        ensures
            position_list_ok(cset@, self.classes.len() as nat),
            cset@.to_set() == changed_class_set(self.classes@, self.logs@, changed_log_indices@),
    {
        let ghost cs = self.classes@;
        let ghost logs = self.logs@;
        let ghost changed = changed_log_indices@;
        let mut cset: Vec<usize> = Vec::new();
        let mut i: usize = 0;
        while i < changed_log_indices.len()
            invariant
                i <= changed.len(),
                changed == changed_log_indices@,
                cs == self.classes@,
                logs == self.logs@,
                forall|a: int, b: int| 0 <= a < b < cset.len() ==> #[trigger] cset@[a] < #[trigger] cset@[b],
                forall|q: int| 0 <= q < cset.len() ==> #[trigger] cset@[q] < cs.len(),
                forall|c: usize| #[trigger] cset@.contains(c) <==> exists|q: int|
                    #![trigger changed[q]]
                    0 <= q < i && changed[q] < logs.len() && class_position(
                        cs,
                        logs[changed[q] as int].class@,
                    ) == Some(c as int),
            decreases changed.len() - i,
        {
            let log_idx = changed_log_indices[i];
            if log_idx < self.logs.len() {
                match find_class(&self.classes, &self.logs[log_idx].class) {
                    Some(c) => {
                        // the first position holding c or more
                        let mut p: usize = 0;
                        while p < cset.len() && cset[p] < c
                            invariant
                                p <= cset.len(),
                                forall|q: int| 0 <= q < p ==> #[trigger] cset@[q] < c,
                            decreases cset.len() - p,
                        {
                            p = p + 1;
                        }
                        let ghost before = cset@;
                        if p < cset.len() && cset[p] == c {
                        } else {
                            cset.insert(p, c);
                            proof {
                                assert forall|a: int, b: int| 0 <= a < b < cset.len() implies #[trigger] cset@[a] < #[trigger] cset@[b] by {
                                    if a < p as int {
                                        assert(cset@[a] == before[a]);
                                    } else if a > p as int {
                                        assert(cset@[a] == before[a - 1]);
                                    }
                                    if b < p as int {
                                        assert(cset@[b] == before[b]);
                                    } else if b > p as int {
                                        assert(cset@[b] == before[b - 1]);
                                        if b - 1 >= p as int && p < before.len() {
                                            assert(before[p as int] >= c);
                                            if b - 1 > p as int {
                                                assert(before[p as int] < before[b - 1]);
                                            }
                                        }
                                    }
                                }
                                assert forall|x: usize| #[trigger] cset@.contains(x) <==> (before.contains(x) || x == c) by {
                                    if cset@.contains(x) {
                                        let q = choose|q: int| 0 <= q < cset.len() && cset@[q] == x;
                                        if q < p as int {
                                            assert(before[q] == x);
                                        } else if q > p as int {
                                            assert(before[q - 1] == x);
                                        }
                                    }
                                    if before.contains(x) {
                                        let q = choose|q: int| 0 <= q < before.len() && before[q] == x;
                                        if q < p as int {
                                            assert(cset@[q] == x);
                                        } else {
                                            assert(cset@[q + 1] == x);
                                        }
                                    }
                                    if x == c {
                                        assert(cset@[p as int] == c);
                                    }
                                }
                                assert forall|q: int| 0 <= q < cset.len() implies #[trigger] cset@[q] < cs.len() by {
                                    if q < p as int {
                                        assert(cset@[q] == before[q]);
                                    } else if q > p as int {
                                        assert(cset@[q] == before[q - 1]);
                                    }
                                }
                            }
                        }
                        proof {
                            assert forall|x: usize| #[trigger] cset@.contains(x) <==> exists|q: int|
                                #![trigger changed[q]]
                                0 <= q < i + 1 && changed[q] < logs.len() && class_position(
                                    cs,
                                    logs[changed[q] as int].class@,
                                ) == Some(x as int) by {
                                if x == c {
                                    assert(changed[i as int] == log_idx);
                                    if !cset@.contains(x) {
                                        assert(cset@[p as int] == c);
                                    }
                                }
                                if cset@.contains(x) && x != c {
                                    assert(before.contains(x));
                                }
                            }
                        }
                    },
                    None => {
                        proof {
                            assert forall|x: usize| #[trigger] cset@.contains(x) <==> exists|q: int|
                                #![trigger changed[q]]
                                0 <= q < i + 1 && changed[q] < logs.len() && class_position(
                                    cs,
                                    logs[changed[q] as int].class@,
                                ) == Some(x as int) by {
                                if exists|q: int|
                                    #![trigger changed[q]]
                                    0 <= q < i + 1 && changed[q] < logs.len() && class_position(
                                        cs,
                                        logs[changed[q] as int].class@,
                                    ) == Some(x as int) {
                                    let q = choose|q: int|
                                        #![trigger changed[q]]
                                        0 <= q < i + 1 && changed[q] < logs.len() && class_position(
                                            cs,
                                            logs[changed[q] as int].class@,
                                        ) == Some(x as int);
                                    assert(q != i);
                                }
                            }
                        }
                    },
                }
            } else {
                proof {
                    assert forall|x: usize| #[trigger] cset@.contains(x) <==> exists|q: int|
                        #![trigger changed[q]]
                        0 <= q < i + 1 && changed[q] < logs.len() && class_position(
                            cs,
                            logs[changed[q] as int].class@,
                        ) == Some(x as int) by {
                        if exists|q: int|
                            #![trigger changed[q]]
                            0 <= q < i + 1 && changed[q] < logs.len() && class_position(
                                cs,
                                logs[changed[q] as int].class@,
                            ) == Some(x as int) {
                            let q = choose|q: int|
                                #![trigger changed[q]]
                                0 <= q < i + 1 && changed[q] < logs.len() && class_position(
                                    cs,
                                    logs[changed[q] as int].class@,
                                ) == Some(x as int);
                            assert(q != i);
                        }
                    }
                }
            }
            i = i + 1;
        }
        proof {
            lemma_position_list_len(cset@, cs.len());
            assert(cset@.to_set() =~= changed_class_set(cs, logs, changed));
        }
        cset
    }
}


fn seq_has(v: &Vec<usize>, x: usize) -> (r: bool)
    ensures
        r == v@.contains(x),
{
    let mut i: usize = 0;
    while i < v.len()
        invariant
            i <= v.len(),
            forall|q: int| 0 <= q < i ==> v@[q] != x,
        decreases v.len() - i,
    {
        if v[i] == x {
            return true;
        }
        i = i + 1;
    }
    false
}

impl Model {
    /// Restores the order after the logs at `changed_log_indices` changed, with open logs
    /// measured up to `now`: within each class of a changed log, one pass moves every title
    /// that shows more time than the title before it one place up; then each changed class
    /// that shows more time than the class before it moves up, one place at a time, for as
    /// long as it does.
    pub fn maintain_order_at(&mut self, changed_log_indices: Vec<usize>, now: u64)
        requires
            old(self).wf(),
        ensures
            final(self).wf(),
            final(self).logs@ == old(self).logs@,
            final(self).logs_by_start@ == old(self).logs_by_start@,
            final(self).mapped@ == old(self).mapped@,
            final(self).titles@ == old(self).titles@,
            final(self).titles_dirty,
            final(self).visible_start_idx == old(self).visible_start_idx,
            final(self).visible_end_idx == old(self).visible_end_idx,
            final(self).visible_bounds_initialized == old(self).visible_bounds_initialized,
            exists|cset: Seq<usize>, mid: Seq<Class>|
                #![trigger titles_passed(old(self).classes@, mid, cset.to_set(), old(self).logs@, now)]
                {
                    &&& position_list_ok(cset, old(self).classes.len() as nat)
                    &&& cset.to_set() == changed_class_set(
                        old(self).classes@,
                        old(self).logs@,
                        changed_log_indices@,
                    )
                    &&& titles_passed(old(self).classes@, mid, cset.to_set(), old(self).logs@, now)
                    &&& final(self).classes@ == class_phase(mid, cset, 0, old(self).logs@, now)
                    &&& final(self).classes@.to_multiset() == mid.to_multiset()
                    &&& forall|j: int|
                        0 <= j < mid.len() ==> (#[trigger] mid[j]).titles@.to_multiset() == old(self).classes@[j].titles@.to_multiset()
                },
    {
        // Ordering can change over time (e.g. a currently-open log duration increases), so
        // treat the global titles index as stale whenever ordering is maintained.
        self.titles_dirty = true;
        let cset0 = self.changed_class_positions(&changed_log_indices);
        let ghost cs0 = self.classes@;
        let ghost logs = self.logs@;
        let ghost set0 = cset0@.to_set();
        let mut a: usize = 0;
        while a < cset0.len()
            invariant
                0 <= a <= cset0.len(),
                self.wf(),
                self.titles_dirty,
                self.logs@ == logs,
                self.logs_by_start@ == old(self).logs_by_start@,
                self.mapped@ == old(self).mapped@,
                self.titles@ == old(self).titles@,
                self.visible_start_idx == old(self).visible_start_idx,
                self.visible_end_idx == old(self).visible_end_idx,
                self.visible_bounds_initialized == old(self).visible_bounds_initialized,
                position_list_ok(cset0@, cs0.len()),
                set0 == cset0@.to_set(),
                self.classes.len() == cs0.len(),
                forall|j: int|
                    0 <= j < cs0.len() ==> {
                        &&& (#[trigger] self.classes@[j]).class == cs0[j].class
                        &&& self.classes@[j].logs == cs0[j].logs
                        &&& self.classes@[j].recorded() == cs0[j].recorded()
                        &&& self.classes@[j].titles@ == if cset0@.subrange(0, a as int).contains(j as usize) {
                            title_pass(cs0[j].titles@, logs, now, 1)
                        } else {
                            cs0[j].titles@
                        }
                    },
            decreases cset0.len() - a,
        {
            let c = cset0[a];
            proof {
                assert(!cset0@.subrange(0, a as int).contains(c)) by {
                    if cset0@.subrange(0, a as int).contains(c) {
                        let q = choose|q: int| 0 <= q < a && cset0@.subrange(0, a as int)[q] == c;
                        assert(cset0@[q] < cset0@[a as int]);
                    }
                }
            }
            let ghost ts_start = self.classes@[c as int].titles@;
            let ghost cs_outer = self.classes@;
            let mut i: usize = 1;
            while i < self.classes[c].titles.len()
                invariant
                    1 <= i,
                    c < self.classes.len(),
                    self.wf(),
                    self.titles_dirty,
                    self.logs@ == logs,
                    self.logs_by_start@ == old(self).logs_by_start@,
                    self.mapped@ == old(self).mapped@,
                    self.titles@ == old(self).titles@,
                    self.visible_start_idx == old(self).visible_start_idx,
                    self.visible_end_idx == old(self).visible_end_idx,
                    self.visible_bounds_initialized == old(self).visible_bounds_initialized,
                    self.classes.len() == cs0.len(),
                    forall|j: int| 0 <= j < cs0.len() && j != c ==> #[trigger] self.classes@[j] == cs_outer[j],
                    self.classes@[c as int].class == cs0[c as int].class,
                    self.classes@[c as int].logs == cs0[c as int].logs,
                    self.classes@[c as int].recorded() == cs0[c as int].recorded(),
                    title_pass(self.classes@[c as int].titles@, logs, now, i as int) == title_pass(ts_start, logs, now, 1),
                decreases self.classes@[c as int].titles.len() - i,
            {
                proof {
                    assert(class_ok(logs, self.mapped@, self.classes@[c as int]));
                    assert(title_ok(logs, self.classes@[c as int].logs@, self.classes@[c as int].titles@[i as int]));
                    assert(title_ok(logs, self.classes@[c as int].logs@, self.classes@[c as int].titles@[i - 1]));
                }
                let d = self.classes[c].titles[i].total_duration_at(&self.logs, now);
                let dp = self.classes[c].titles[i - 1].total_duration_at(&self.logs, now);
                if d > dp {
                    let ghost m0 = *self;
                    swap_adjacent(&mut self.classes[c].titles, i);
                    proof {
                        lemma_swap_titles_wf(m0, *self, c as int, i as int);
                    }
                }
                i = i + 1;
            }
            proof {
                assert(title_pass(self.classes@[c as int].titles@, logs, now, i as int) == self.classes@[c as int].titles@);
                assert(cset0@.subrange(0, a + 1) =~= cset0@.subrange(0, a as int).push(c));
                assert forall|j: int|
                    0 <= j < cs0.len() implies {
                        &&& (#[trigger] self.classes@[j]).class == cs0[j].class
                        &&& self.classes@[j].logs == cs0[j].logs
                        &&& self.classes@[j].recorded() == cs0[j].recorded()
                        &&& self.classes@[j].titles@ == if cset0@.subrange(0, a + 1).contains(j as usize) {
                            title_pass(cs0[j].titles@, logs, now, 1)
                        } else {
                            cs0[j].titles@
                        }
                    } by {
                    if j != c {
                        assert(self.classes@[j] == cs_outer[j]);
                        assert(cset0@.subrange(0, a + 1).contains(j as usize) == cset0@.subrange(0, a as int).contains(j as usize)) by {
                            if cset0@.subrange(0, a + 1).contains(j as usize) {
                                let sub = cset0@.subrange(0, a + 1);
                                let q = choose|q: int| 0 <= q < sub.len() && sub[q] == j as usize;
                                assert(q != a);
                                assert(cset0@.subrange(0, a as int)[q] == j as usize);
                            }
                        }
                    } else {
                        assert(cset0@.subrange(0, a + 1)[a as int] == c);
                    }
                }
            }
            a = a + 1;
        }
        let ghost mid = self.classes@;
        proof {
            assert(cset0@.subrange(0, cset0.len() as int) =~= cset0@);
            assert(titles_passed(cs0, mid, set0, logs, now));
            assert forall|j: int| 0 <= j < mid.len() implies (#[trigger] mid[j]).titles@.to_multiset() == cs0[j].titles@.to_multiset() by {
                lemma_title_pass_permutes(cs0[j].titles@, logs, now, 1);
            }
        }
        let mut cset = cset0;
        let mut i: usize = 0;
        let n = self.classes.len();
        while i < cset.len()
            invariant
                self.wf(),
                self.titles_dirty,
                self.logs@ == logs,
                self.logs_by_start@ == old(self).logs_by_start@,
                self.mapped@ == old(self).mapped@,
                self.titles@ == old(self).titles@,
                self.visible_start_idx == old(self).visible_start_idx,
                self.visible_end_idx == old(self).visible_end_idx,
                self.visible_bounds_initialized == old(self).visible_bounds_initialized,
                n == self.classes.len(),
                n == cs0.len(),
                position_list_ok(cset@, n as nat),
                class_phase(self.classes@, cset@, i as int, logs, now) == class_phase(mid, cset0@, 0, logs, now),
                self.classes@.to_multiset() == mid.to_multiset(),
            decreases n + 1 - cset.len(), cset.len() - i, (if 0 <= i < cset.len() && class_outranks(self.classes@, cset@[i as int] as int, logs, now) { 1int } else { 0int }),
        {
            let c = cset[i];
            if c > 0 && c < self.classes.len() {
                proof {
                    assert(class_ok(logs, self.mapped@, self.classes@[c as int]));
                    assert(class_ok(logs, self.mapped@, self.classes@[c - 1]));
                }
                let d = self.classes[c].total_duration_at(&self.logs, now);
                let dp = self.classes[c - 1].total_duration_at(&self.logs, now);
                if d > dp {
                    let ghost m0 = *self;
                    let ghost cs_before = self.classes@;
                    let ghost cset_before = cset@;
                    swap_adjacent(&mut self.classes, c);
                    proof {
                        lemma_swap_multiset(cs_before, c as int);
                        lemma_swap_classes_wf(m0, *self, c as int);
                        assert(class_outranks(cs_before, c as int, logs, now));
                    }
                    if !seq_has(&cset, c - 1) {
                        cset.insert(i, c - 1);
                        proof {
                            let ns = cset@;
                            assert(ns == cset_before.insert(i as int, (c - 1) as usize));
                            assert forall|x: int, y: int| 0 <= x < y < ns.len() implies #[trigger] ns[x] < #[trigger] ns[y] by {
                                let ox = if x < i { x } else { x - 1 };
                                let oy = if y < i { y } else { y - 1 };
                                if x > i as int {
                                    assert(ns[x] == cset_before[ox]);
                                }
                                if y > i as int {
                                    assert(ns[y] == cset_before[oy]);
                                }
                                if x < i as int {
                                    assert(ns[x] == cset_before[x]);
                                    assert(cset_before[x] < c);
                                    assert(cset_before[x] != c - 1);
                                }
                                if y < i as int {
                                    assert(ns[y] == cset_before[y]);
                                }
                                if x == i as int && y > i as int {
                                    if oy > i as int {
                                        assert(cset_before[i as int] < cset_before[oy]);
                                    }
                                }
                            }
                            assert forall|q: int| 0 <= q < ns.len() implies #[trigger] ns[q] < n by {
                                if q < i as int {
                                    assert(ns[q] == cset_before[q]);
                                } else if q > i as int {
                                    assert(ns[q] == cset_before[q - 1]);
                                }
                            }
                            lemma_position_list_len(ns, n as nat);
                        }
                    }
                    continue;
                }
            }
            i = i + 1;
        }
    }

    /// Restores the order after the logs at `changed_log_indices` changed, as
    /// `maintain_order_at` does, with open logs measured up to the present moment.
    pub fn maintain_order(&mut self, changed_log_indices: Vec<usize>)
        requires
            old(self).wf(),
        ensures
            final(self).wf(),
            final(self).logs@ == old(self).logs@,
            final(self).logs_by_start@ == old(self).logs_by_start@,
            final(self).mapped@ == old(self).mapped@,
            final(self).titles@ == old(self).titles@,
            final(self).titles_dirty,
            final(self).visible_start_idx == old(self).visible_start_idx,
            final(self).visible_end_idx == old(self).visible_end_idx,
            final(self).visible_bounds_initialized == old(self).visible_bounds_initialized,
            exists|now: u64, cset: Seq<usize>, mid: Seq<Class>|
                #![trigger titles_passed(old(self).classes@, mid, cset.to_set(), old(self).logs@, now)]
                {
                    &&& position_list_ok(cset, old(self).classes.len() as nat)
                    &&& cset.to_set() == changed_class_set(
                        old(self).classes@,
                        old(self).logs@,
                        changed_log_indices@,
                    )
                    &&& titles_passed(old(self).classes@, mid, cset.to_set(), old(self).logs@, now)
                    &&& final(self).classes@ == class_phase(mid, cset, 0, old(self).logs@, now)
                    &&& final(self).classes@.to_multiset() == mid.to_multiset()
                    &&& forall|j: int|
                        0 <= j < mid.len() ==> (#[trigger] mid[j]).titles@.to_multiset() == old(self).classes@[j].titles@.to_multiset()
                },
    {
        let now = utc_now_millis() as u64;
        self.maintain_order_at(changed_log_indices, now);
    }
}


// ---------------------------------------------------------------------------------------
// Adding a log
// ---------------------------------------------------------------------------------------

/// Logs `a` and `b` agree in everything but possibly their end.
pub open spec fn same_but_end(a: Log, b: Log) -> bool {
    a.id == b.id && a.start == b.start && a.class == b.class && a.title == b.title
}

proof fn lemma_logs_update_start_order(logs0: Seq<Log>, logs1: Seq<Log>, order: Seq<usize>)
    requires
        start_order_ok(logs0, order),
        logs1.len() == logs0.len(),
        forall|j: int| 0 <= j < logs0.len() ==> #[trigger] logs1[j].start == logs0[j].start && logs1[j].id == logs0[j].id,
    ensures
        start_order_ok(logs1, order),
{
    assert forall|a: int, b: int| 0 <= a < b < order.len() implies start_before(logs1, #[trigger] order[a], #[trigger] order[b]) by {
        assert(start_before(logs0, order[a], order[b]));
    }
}

/// Ending the open log at `k`, when it is not mapped, keeps the model consistent.
proof fn lemma_close_unmapped(m0: Model, m1: Model, k: usize)
    requires
        m0.wf(),
        k < m0.logs.len(),
        !m0.mapped@[k as int],
        m0.logs@[k as int].end is None,
        m1.logs.len() == m0.logs.len(),
        same_but_end(m1.logs@[k as int], m0.logs@[k as int]),
        forall|j: int| 0 <= j < m0.logs.len() && j != k ==> #[trigger] m1.logs@[j] == m0.logs@[j],
        m1.classes@ == m0.classes@,
        m1.mapped@ == m0.mapped@,
        m1.logs_by_start@ == m0.logs_by_start@,
        m1.titles_dirty,
    ensures
        m1.wf(),
{
    let logs0 = m0.logs@;
    let logs1 = m1.logs@;
    assert(logs1 =~= logs0.update(k as int, logs1[k as int]));
    lemma_logs_update_start_order(logs0, logs1, m0.logs_by_start@);
    let cs = m1.classes@;
    assert forall|j: int| 0 <= j < cs.len() implies class_ok(logs1, m1.mapped@, #[trigger] cs[j]) by {
        let cj = cs[j];
        assert(class_ok(logs0, m0.mapped@, cj));
        assert(!cj.logs@.contains(k)) by {
            if cj.logs@.contains(k) {
                let q = choose|q: int| 0 <= q < cj.logs.len() && cj.logs@[q] == k;
            }
        }
        lemma_sum_logs_update_absent(logs0, k, logs1[k as int], cj.logs@);
        assert forall|t: int| 0 <= t < cj.titles.len() implies title_ok(logs1, cj.logs@, #[trigger] cj.titles@[t]) by {
            assert(title_ok(logs0, cj.logs@, cj.titles@[t]));
            assert(!cj.titles@[t].logs@.contains(k)) by {
                if cj.titles@[t].logs@.contains(k) {
                    let q = choose|q: int| 0 <= q < cj.titles@[t].logs.len() && cj.titles@[t].logs@[q] == k;
                    assert(cj.logs@.contains(cj.titles@[t].logs@[q]));
                }
            }
            lemma_sum_logs_update_absent(logs0, k, logs1[k as int], cj.titles@[t].logs@);
        }
    }
    assert forall|kk: int| 0 <= kk < logs1.len() && #[trigger] m1.mapped@[kk] implies placed(logs1, cs, kk) by {
        let (a, b) = lemma_placed_to(logs0, cs, kk);
        assert(class_ok(logs0, m0.mapped@, cs[a]));
        lemma_placed_from(logs1, cs, kk, a, b);
    }
}

/// Ending the open, mapped log at `k`, and adding its now known duration to its class
/// and title, keeps the model consistent.
proof fn lemma_close_mapped(m0: Model, m1: Model, k: usize, ci: int, ti: int)
    requires
        m0.wf(),
        k < m0.logs.len(),
        m0.mapped@[k as int],
        m0.logs@[k as int].end is None,
        m1.logs.len() == m0.logs.len(),
        same_but_end(m1.logs@[k as int], m0.logs@[k as int]),
        m1.logs@[k as int].end is Some,
        forall|j: int| 0 <= j < m0.logs.len() && j != k ==> #[trigger] m1.logs@[j] == m0.logs@[j],
        m1.mapped@ == m0.mapped@,
        m1.logs_by_start@ == m0.logs_by_start@,
        m1.titles_dirty,
        class_position(m0.classes@, m0.logs@[k as int].class@) == Some(ci),
        0 <= ci < m0.classes.len(),
        title_position(m0.classes@[ci].titles@, m0.logs@[k as int].title@) == Some(ti),
        0 <= ti < m0.classes@[ci].titles.len(),
        m1.classes.len() == m0.classes.len(),
        forall|j: int| 0 <= j < m0.classes.len() && j != ci ==> #[trigger] m1.classes@[j] == m0.classes@[j],
        m1.classes@[ci].class == m0.classes@[ci].class,
        m1.classes@[ci].logs == m0.classes@[ci].logs,
        m1.classes@[ci].recorded() == m0.classes@[ci].recorded() + closed_span(m1.logs@[k as int]),
        m1.classes@[ci].titles.len() == m0.classes@[ci].titles.len(),
        forall|t: int| 0 <= t < m0.classes@[ci].titles.len() && t != ti ==> #[trigger] m1.classes@[ci].titles@[t] == m0.classes@[ci].titles@[t],
        m1.classes@[ci].titles@[ti].title == m0.classes@[ci].titles@[ti].title,
        m1.classes@[ci].titles@[ti].logs == m0.classes@[ci].titles@[ti].logs,
        m1.classes@[ci].titles@[ti].recorded() == m0.classes@[ci].titles@[ti].recorded() + closed_span(m1.logs@[k as int]),
    ensures
        m1.wf(),
{
    let logs0 = m0.logs@;
    let logs1 = m1.logs@;
    assert(logs1 =~= logs0.update(k as int, logs1[k as int]));
    lemma_logs_update_start_order(logs0, logs1, m0.logs_by_start@);
    let cs0 = m0.classes@;
    let cs1 = m1.classes@;
    let c0 = cs0[ci];
    let c1 = cs1[ci];
    assert(closed_span(logs0[k as int]) == 0);
    let (a0, b0) = lemma_placed_to(logs0, cs0, k as int);
    assert(class_ok(logs0, m0.mapped@, c0));
    assert(title_ok(logs0, c0.logs@, c0.titles@[ti]));
    lemma_sum_logs_update_once(logs0, k, logs1[k as int], c0.logs@);
    lemma_sum_logs_update_once(logs0, k, logs1[k as int], c0.titles@[ti].logs@);
    assert(class_names(cs1) =~= class_names(cs0));
    assert(title_names(c1.titles@) =~= title_names(c0.titles@));
    title_names(c0.titles@).index_of_first_ensures(logs0[k as int].title@);
    class_names(cs0).index_of_first_ensures(logs0[k as int].class@);
    assert forall|t: int| 0 <= t < c1.titles.len() implies title_ok(logs1, c1.logs@, #[trigger] c1.titles@[t]) by {
        assert(title_ok(logs0, c0.logs@, c0.titles@[t]));
        if t != ti {
            assert(c1.titles@[t] == c0.titles@[t]);
            assert(!c0.titles@[t].logs@.contains(k)) by {
                if c0.titles@[t].logs@.contains(k) {
                    let q = choose|q: int| 0 <= q < c0.titles@[t].logs.len() && c0.titles@[t].logs@[q] == k;
                    assert(logs0[k as int].title@ == c0.titles@[t].title@);
                    assert(title_names(c0.titles@)[t] == title_names(c0.titles@)[ti]);
                }
            }
            lemma_sum_logs_update_absent(logs0, k, logs1[k as int], c0.titles@[t].logs@);
        }
    }
    assert forall|j: int| 0 <= j < cs1.len() implies class_ok(logs1, m1.mapped@, #[trigger] cs1[j]) by {
        assert(class_ok(logs0, m0.mapped@, cs0[j]));
        if j != ci {
            assert(cs1[j] == cs0[j]);
            let cj = cs1[j];
            assert(!cj.logs@.contains(k)) by {
                if cj.logs@.contains(k) {
                    let q = choose|q: int| 0 <= q < cj.logs.len() && cj.logs@[q] == k;
                    assert(class_names(cs0)[j] == class_names(cs0)[ci]);
                }
            }
            lemma_sum_logs_update_absent(logs0, k, logs1[k as int], cj.logs@);
            assert forall|t: int| 0 <= t < cj.titles.len() implies title_ok(logs1, cj.logs@, #[trigger] cj.titles@[t]) by {
                assert(title_ok(logs0, cj.logs@, cj.titles@[t]));
                assert(!cj.titles@[t].logs@.contains(k)) by {
                    if cj.titles@[t].logs@.contains(k) {
                        let q = choose|q: int| 0 <= q < cj.titles@[t].logs.len() && cj.titles@[t].logs@[q] == k;
                        assert(cj.logs@.contains(cj.titles@[t].logs@[q]));
                    }
                }
                lemma_sum_logs_update_absent(logs0, k, logs1[k as int], cj.titles@[t].logs@);
            }
        }
    }
    assert forall|kk: int| 0 <= kk < logs1.len() && #[trigger] m1.mapped@[kk] implies placed(logs1, cs1, kk) by {
        let (a, b) = lemma_placed_to(logs0, cs0, kk);
        assert(class_ok(logs0, m0.mapped@, cs0[a]));
        if a == ci {
            assert(c1.titles@[b].logs == c0.titles@[b].logs);
        } else {
            assert(cs1[a] == cs0[a]);
        }
        lemma_placed_from(logs1, cs1, kk, a, b);
    }
}

/// Appending a log, not mapped, keeps every part of consistency but the start order.
proof fn lemma_push_log(m1: Model, m2: Model, new_log: Log)
    requires
        m1.wf(),
        m2.logs@ == m1.logs@.push(new_log),
        m2.mapped@ == m1.mapped@.push(false),
        m2.classes@ == m1.classes@,
        m2.logs_by_start@ == m1.logs_by_start@,
        m2.titles@ == m1.titles@,
        m2.titles_dirty,
    ensures
        m2.mapped.len() == m2.logs.len(),
        start_order_ok(m2.logs@.drop_last(), m2.logs_by_start@),
        class_names(m2.classes@).no_duplicates(),
        forall|ci: int| 0 <= ci < m2.classes.len() ==> class_ok(m2.logs@, m2.mapped@, #[trigger] m2.classes@[ci]),
        forall|k: int| 0 <= k < m2.logs.len() && #[trigger] m2.mapped@[k] ==> placed(m2.logs@, m2.classes@, k),
{
    let logs1 = m1.logs@;
    let logs2 = m2.logs@;
    let cs = m2.classes@;
    assert(logs2.drop_last() =~= logs1);
    assert forall|j: int| 0 <= j < cs.len() implies class_ok(logs2, m2.mapped@, #[trigger] cs[j]) by {
        let cj = cs[j];
        assert(class_ok(logs1, m1.mapped@, cj));
        lemma_sum_logs_push(logs1, new_log, cj.logs@);
        assert forall|t: int| 0 <= t < cj.titles.len() implies title_ok(logs2, cj.logs@, #[trigger] cj.titles@[t]) by {
            assert(title_ok(logs1, cj.logs@, cj.titles@[t]));
            lemma_sum_logs_push(logs1, new_log, cj.titles@[t].logs@);
        }
    }
    assert forall|kk: int| 0 <= kk < logs2.len() && #[trigger] m2.mapped@[kk] implies placed(logs2, cs, kk) by {
        assert(kk < logs1.len());
        assert(m1.mapped@[kk]);
        let (a, b) = lemma_placed_to(logs1, cs, kk);
        assert(class_ok(logs1, m1.mapped@, cs[a]));
        lemma_placed_from(logs2, cs, kk, a, b);
    }
}

impl Model {
    /// Appends `log`, with its number, after ending the last log at the start of
    /// the new one if it was still open (its time then counts for its class and title if it
    /// is mapped). The new log is placed in start order and mapped if `focused_interval`
    /// holds it, an open log being measured up to `now`. Unless `bulk_addition` is set, the
    /// order of the changed classes and titles is then restored and the visible range cut
    /// back to the number of logs.
    pub fn add_log_at(&mut self, log: Log, bulk_addition: bool, focused_interval: &Interval, now: u64)
        requires
            old(self).wf(),
            old(self).logs.len() < usize::MAX,
        ensures
            final(self).wf(),
            final(self).logs.len() == old(self).logs.len() + 1,
            final(self).titles_dirty,
            same_but_end(final(self).logs@.last(), log),
            final(self).logs@.last().end == log.end,
            forall|j: int| 0 <= j < old(self).logs.len() ==> same_but_end(#[trigger] final(self).logs@[j], old(self).logs@[j]),
            forall|j: int| 0 <= j < old(self).logs.len() - 1 ==> #[trigger] final(self).logs@[j] == old(self).logs@[j],
            old(self).logs.len() > 0 ==> final(self).logs@[old(self).logs.len() - 1].end == match old(self).logs@.last().end {
                Some(e) => Some(e),
                None => Some(log.start),
            },
            final(self).mapped@ == old(self).mapped@.push(holds_log(*focused_interval, log, now)),
            !bulk_addition && old(self).visible_bounds_initialized ==> final(self).visible_end_idx
                == if old(self).visible_end_idx <= final(self).logs.len() { old(self).visible_end_idx } else { final(self).logs.len() as usize },
            bulk_addition || !old(self).visible_bounds_initialized ==> final(self).visible_end_idx == old(self).visible_end_idx,
            final(self).visible_start_idx == old(self).visible_start_idx,
            final(self).visible_bounds_initialized == old(self).visible_bounds_initialized,
    {
        self.titles_dirty = true;
        let mut changed_log_indices: Vec<usize> = Vec::new();
        let n = self.logs.len();
        if n > 0 && self.logs[n - 1].end.is_none() {
            let ghost m0 = *self;
            let k = n - 1;
            let new_end = log.start;
            self.logs[k].end = Some(new_end);
            if self.mapped[k] {
                let ghost (ci0, ti0) = lemma_placed_to(m0.logs@, m0.classes@, k as int);
                let class_string = self.logs[k].class.clone();
                let title_string = self.logs[k].title.clone();
                let duration = span_exec(self.logs[k].start, new_end);
                let ci = match find_class(&self.classes, &class_string) {
                    Some(i) => i,
                    None => {
                        proof {
                            assert(false);
                        }
                        return;
                    },
                };
                let ti = match find_title(&self.classes[ci].titles, &title_string) {
                    Some(t) => t,
                    None => {
                        proof {
                            assert(false);
                        }
                        return;
                    },
                };
                proof {
                    let logs0 = m0.logs@;
                    let logs1 = self.logs@;
                    assert(logs1 =~= logs0.update(k as int, logs1[k as int]));
                    assert(ci == ci0);
                    assert(ti == ti0);
                    let c0 = m0.classes@[ci0];
                    let t0 = c0.titles@[ti0];
                    assert(class_ok(logs0, m0.mapped@, c0));
                    assert(title_ok(logs0, c0.logs@, t0));
                    assert(closed_span(logs1[k as int]) == duration);
                    assert(closed_span(logs0[k as int]) == 0);
                    lemma_sum_logs_update_once(logs0, k, logs1[k as int], c0.logs@);
                    lemma_sum_logs_update_once(logs0, k, logs1[k as int], t0.logs@);
                    lemma_sum_bound(logs1, c0.logs@);
                    lemma_sum_bound(logs1, t0.logs@);
                    assert(c0.logs.len() * (u64::MAX as nat) <= u128::MAX) by (nonlinear_arith)
                        requires
                            c0.logs.len() <= usize::MAX,
                    ;
                    assert(t0.logs.len() * (u64::MAX as nat) <= u128::MAX) by (nonlinear_arith)
                        requires
                            t0.logs.len() <= usize::MAX,
                    ;
                }
                self.classes[ci].add_duration(duration);
                self.classes[ci].titles[ti].add_duration(duration);
                changed_log_indices.push(k);
                proof {
                    lemma_close_mapped(m0, *self, k, ci as int, ti as int);
                }
            } else {
                proof {
                    lemma_close_unmapped(m0, *self, k);
                }
            }
        }
        let ghost m1 = *self;
        let ghost new_log = log;
        self.logs.push(log);
        self.mapped.push(false);
        proof {
            lemma_push_log(m1, *self, new_log);
        }
        self.insert_log_in_start_order(n);
        if focused_interval.contains_log_at(&self.logs[n], now) {
            self.map_log(n);
            changed_log_indices.push(n);
        }
        if !bulk_addition {
            if changed_log_indices.len() > 0 {
                self.maintain_order_at(changed_log_indices, now);
            }
            if self.visible_bounds_initialized {
                if self.logs_by_start.len() < self.visible_end_idx {
                    self.visible_end_idx = self.logs_by_start.len();
                }
            }
        }
    }

    /// Appends `log` as `add_log_at` does, an open log being measured up to the present
    /// moment.
    pub fn add_log(&mut self, log: Log, bulk_addition: bool, focused_interval: &Interval)
        requires
            old(self).wf(),
            old(self).logs.len() < usize::MAX,
        ensures
            final(self).wf(),
            final(self).logs.len() == old(self).logs.len() + 1,
            same_but_end(final(self).logs@.last(), log),
            final(self).logs@.last().end == log.end,
            forall|j: int| 0 <= j < old(self).logs.len() - 1 ==> #[trigger] final(self).logs@[j] == old(self).logs@[j],
            old(self).logs.len() > 0 ==> final(self).logs@[old(self).logs.len() - 1].end == match old(self).logs@.last().end {
                Some(e) => Some(e),
                None => Some(log.start),
            },
            exists|now: u64| final(self).mapped@ == old(self).mapped@.push(holds_log(*focused_interval, log, now)),
    {
        let now = utc_now_millis() as u64;
        self.add_log_at(log, bulk_addition, focused_interval, now);
    }
}


// ---------------------------------------------------------------------------------------
// Sorting
// ---------------------------------------------------------------------------------------

/// The time shown for each title.
pub open spec fn title_keys(ts: Seq<Title>, logs: Seq<Log>, now: u64) -> Seq<u64> {
    ts.map_values(|t: Title| title_dur(t, logs, now))
}

/// The time shown for each class.
pub open spec fn class_keys(cs: Seq<Class>, logs: Seq<Log>, now: u64) -> Seq<u64> {
    cs.map_values(|c: Class| class_dur(c, logs, now))
}

/// The start of each listed log, as a key that orders the earliest first.
pub open spec fn start_keys(idx: Seq<usize>, logs: Seq<Log>) -> Seq<u64> {
    idx.map_values(|k: usize| (u64::MAX - logs[k as int].start) as u64)
}

/// `new` holds the items of `old` rearranged by `p`, and `new_keys`, the keys of `new`, are
/// the keys of `old` in the stable largest-first order.
pub open spec fn rearranged<A>(old: Seq<A>, new: Seq<A>, old_keys: Seq<u64>, new_keys: Seq<u64>, p: Seq<int>) -> bool {
    &&& new.len() == old.len()
    &&& old_keys.len() == old.len()
    &&& stable_desc_by(old_keys, new_keys, p)
    &&& forall|i: int| 0 <= i < new.len() ==> #[trigger] new[i] == old[p[i]]
}

/// `new_ts` is `old_ts` sorted by shown time, most first, ties kept in order.
pub open spec fn titles_sorted_by_time(old_ts: Seq<Title>, new_ts: Seq<Title>, logs: Seq<Log>, now: u64) -> bool {
    &&& new_ts.to_multiset() == old_ts.to_multiset()
    &&& exists|p: Seq<int>| #[trigger] rearranged(old_ts, new_ts, title_keys(old_ts, logs, now), title_keys(new_ts, logs, now), p)
}

/// `new_cs` is `old_cs` sorted by shown time, most first, ties kept in order.
pub open spec fn classes_sorted_by_time(old_cs: Seq<Class>, new_cs: Seq<Class>, logs: Seq<Log>, now: u64) -> bool {
    &&& new_cs.to_multiset() == old_cs.to_multiset()
    &&& exists|p: Seq<int>| #[trigger] rearranged(old_cs, new_cs, class_keys(old_cs, logs, now), class_keys(new_cs, logs, now), p)
}

/// `new_idx` is `old_idx` sorted by the start of the logs, earliest first, ties kept in
/// order.
pub open spec fn logs_sorted_by_start(old_idx: Seq<usize>, new_idx: Seq<usize>, logs: Seq<Log>) -> bool {
    &&& new_idx.to_multiset() == old_idx.to_multiset()
    &&& exists|p: Seq<int>| #[trigger] rearranged(old_idx, new_idx, start_keys(old_idx, logs), start_keys(new_idx, logs), p)
}

/// `new_c` is `old_c` with its titles sorted by shown time and its logs by start.
pub open spec fn class_sorted(old_c: Class, new_c: Class, logs: Seq<Log>, now: u64) -> bool {
    &&& new_c.class == old_c.class
    &&& new_c.recorded() == old_c.recorded()
    &&& titles_sorted_by_time(old_c.titles@, new_c.titles@, logs, now)
    &&& logs_sorted_by_start(old_c.logs@, new_c.logs@, logs)
}

impl Class {
    /// Sorts the titles by the time they show, open logs measured up to `now`, most first,
    /// and the logs by start, earliest first; equal ones keep their order.
    pub fn sort_at(&mut self, logs: &Vec<Log>, now: u64)
        requires
            forall|q: int| 0 <= q < old(self).logs.len() ==> #[trigger] old(self).logs@[q] < logs.len(),
            forall|t: int| 0 <= t < old(self).titles.len() ==> (#[trigger] old(self).titles@[t]).logs.len() > 0 ==> old(self).titles@[t].logs@.last() < logs.len(),
        ensures
            class_sorted(*old(self), *final(self), logs@, now),
    {
        let ghost old_ts = self.titles@;
        let ghost old_idx = self.logs@;
        let mut keys: Vec<u64> = Vec::new();
        let mut i: usize = 0;
        while i < self.titles.len()
            invariant
                i <= self.titles.len(),
                self.titles@ == old_ts,
                keys@ == title_keys(old_ts, logs@, now).subrange(0, i as int),
                forall|t: int| 0 <= t < old_ts.len() ==> (#[trigger] old_ts[t]).logs.len() > 0 ==> old_ts[t].logs@.last() < logs.len(),
            decreases self.titles.len() - i,
        {
            let d = self.titles[i].total_duration_at(logs, now);
            keys.push(d);
            proof {
                assert(keys@ =~= title_keys(old_ts, logs@, now).subrange(0, i + 1));
            }
            i = i + 1;
        }
        proof {
            assert(keys@ =~= title_keys(old_ts, logs@, now));
        }
        let ghost old_keys = keys@;
        sort_desc_stable(&mut self.titles, &mut keys);
        proof {
            let p = choose|p: Seq<int>| #![trigger is_permutation(p, old_ts.len())] stable_desc_by(old_keys, keys@, p) && forall|i: int| 0 <= i < old_ts.len() ==> #[trigger] self.titles@[i] == old_ts[p[i]];
            assert(title_keys(self.titles@, logs@, now) =~= keys@);
            assert(rearranged(old_ts, self.titles@, title_keys(old_ts, logs@, now), title_keys(self.titles@, logs@, now), p));
        }
        let mut skeys: Vec<u64> = Vec::new();
        let mut j: usize = 0;
        while j < self.logs.len()
            invariant
                j <= self.logs.len(),
                self.logs@ == old_idx,
                skeys@ == start_keys(old_idx, logs@).subrange(0, j as int),
                forall|q: int| 0 <= q < old_idx.len() ==> #[trigger] old_idx[q] < logs.len(),
            decreases self.logs.len() - j,
        {
            let sk = u64::MAX - logs[self.logs[j]].start;
            skeys.push(sk);
            proof {
                assert(skeys@ =~= start_keys(old_idx, logs@).subrange(0, j + 1));
            }
            j = j + 1;
        }
        proof {
            assert(skeys@ =~= start_keys(old_idx, logs@));
        }
        let ghost old_skeys = skeys@;
        sort_desc_stable(&mut self.logs, &mut skeys);
        proof {
            let p = choose|p: Seq<int>| #![trigger is_permutation(p, old_idx.len())] stable_desc_by(old_skeys, skeys@, p) && forall|i: int| 0 <= i < old_idx.len() ==> #[trigger] self.logs@[i] == old_idx[p[i]];
            assert(start_keys(self.logs@, logs@) =~= skeys@);
            assert(rearranged(old_idx, self.logs@, start_keys(old_idx, logs@), start_keys(self.logs@, logs@), p));
        }
    }

    /// Sorts the titles by the time they show, most first, and the logs by start; open logs
    /// are measured up to the present moment.
    pub fn sort(&mut self, logs: &Vec<Log>)
        requires
            forall|q: int| 0 <= q < old(self).logs.len() ==> #[trigger] old(self).logs@[q] < logs.len(),
            forall|t: int| 0 <= t < old(self).titles.len() ==> (#[trigger] old(self).titles@[t]).logs.len() > 0 ==> old(self).titles@[t].logs@.last() < logs.len(),
        ensures
            exists|now: u64| class_sorted(*old(self), *final(self), logs@, now),
    {
        let now = utc_now_millis() as u64;
        self.sort_at(logs, now);
    }
}


proof fn lemma_same_multiset_contains<A>(a: Seq<A>, b: Seq<A>, x: A)
    requires
        a.to_multiset() == b.to_multiset(),
    ensures
        a.contains(x) == b.contains(x),
{
    a.to_multiset_ensures();
    b.to_multiset_ensures();
    assert(a.contains(x) == (a.to_multiset().count(x) > 0));
    assert(b.contains(x) == (b.to_multiset().count(x) > 0));
}

proof fn lemma_same_multiset_no_dup<A>(a: Seq<A>, b: Seq<A>)
    requires
        a.to_multiset() == b.to_multiset(),
        a.no_duplicates(),
    ensures
        b.no_duplicates(),
{
    a.lemma_multiset_has_no_duplicates();
    b.lemma_multiset_has_no_duplicates_conv();
}

proof fn lemma_rearranged_names_no_dup(old_ts: Seq<Title>, new_ts: Seq<Title>, ok: Seq<u64>, nk: Seq<u64>, p: Seq<int>)
    requires
        rearranged(old_ts, new_ts, ok, nk, p),
        title_names(old_ts).no_duplicates(),
    ensures
        title_names(new_ts).no_duplicates(),
{
    assert forall|i: int, j: int| 0 <= i < new_ts.len() && 0 <= j < new_ts.len() && i != j implies title_names(new_ts)[i] != title_names(new_ts)[j] by {
        assert(new_ts[i] == old_ts[p[i]]);
        assert(new_ts[j] == old_ts[p[j]]);
        assert(0 <= p[i] < old_ts.len() && 0 <= p[j] < old_ts.len());
        assert(title_names(new_ts)[i] == title_names(old_ts)[p[i]]);
        assert(title_names(new_ts)[j] == title_names(old_ts)[p[j]]);
        if i < j {
            assert(p[i] != p[j]);
        } else {
            assert(p[j] != p[i]);
        }
    }
}

/// Sorting the titles and logs of a class keeps the class consistent.
proof fn lemma_class_sorted_ok(logs: Seq<Log>, mapped: Seq<bool>, c0: Class, c1: Class, now: u64)
    requires
        class_ok(logs, mapped, c0),
        class_sorted(c0, c1, logs, now),
    ensures
        class_ok(logs, mapped, c1),
        forall|x: usize| #[trigger] c1.logs@.contains(x) == c0.logs@.contains(x),
        forall|t: Title| #[trigger] c1.titles@.contains(t) == c0.titles@.contains(t),
{
    assert forall|x: usize| #[trigger] c1.logs@.contains(x) == c0.logs@.contains(x) by {
        lemma_same_multiset_contains(c0.logs@, c1.logs@, x);
    }
    assert forall|t: Title| #[trigger] c1.titles@.contains(t) == c0.titles@.contains(t) by {
        lemma_same_multiset_contains(c0.titles@, c1.titles@, t);
    }
    lemma_same_multiset_no_dup(c0.logs@, c1.logs@);
    lemma_sum_multiset(logs, c1.logs@, c0.logs@);
    let p = choose|p: Seq<int>| #[trigger] rearranged(c0.titles@, c1.titles@, title_keys(c0.titles@, logs, now), title_keys(c1.titles@, logs, now), p);
    lemma_rearranged_names_no_dup(c0.titles@, c1.titles@, title_keys(c0.titles@, logs, now), title_keys(c1.titles@, logs, now), p);
    assert forall|q: int| 0 <= q < c1.logs.len() implies {
        let k = #[trigger] c1.logs@[q];
        &&& k < logs.len()
        &&& mapped[k as int]
        &&& logs[k as int].class@ == c1.class@
    } by {
        let k = c1.logs@[q];
        assert(c1.logs@.contains(k));
        let w = choose|w: int| 0 <= w < c0.logs.len() && c0.logs@[w] == k;
    }
    assert forall|t: int| 0 <= t < c1.titles.len() implies title_ok(logs, c1.logs@, #[trigger] c1.titles@[t]) by {
        assert(c1.titles@[t] == c0.titles@[p[t]]);
        let tt = c0.titles@[p[t]];
        assert(title_ok(logs, c0.logs@, tt));
        assert forall|q: int| 0 <= q < tt.logs.len() implies c1.logs@.contains(#[trigger] tt.logs@[q]) by {
            assert(c0.logs@.contains(tt.logs@[q]));
        }
    }
}

/// Rearranging the classes keeps the model consistent.
proof fn lemma_reorder_classes_wf(m0: Model, m1: Model, p: Seq<int>)
    requires
        m0.wf(),
        m1.logs@ == m0.logs@,
        m1.logs_by_start@ == m0.logs_by_start@,
        m1.mapped@ == m0.mapped@,
        m1.titles_dirty,
        m1.classes.len() == m0.classes.len(),
        m1.classes@.to_multiset() == m0.classes@.to_multiset(),
        is_permutation(p, m0.classes.len() as nat),
        forall|i: int| 0 <= i < m0.classes.len() ==> #[trigger] m1.classes@[i] == m0.classes@[p[i]],
    ensures
        m1.wf(),
{
    let logs = m0.logs@;
    let cs0 = m0.classes@;
    let cs1 = m1.classes@;
    assert forall|i: int, j: int| 0 <= i < cs1.len() && 0 <= j < cs1.len() && i != j implies class_names(cs1)[i] != class_names(cs1)[j] by {
        assert(cs1[i] == cs0[p[i]]);
        assert(cs1[j] == cs0[p[j]]);
        assert(0 <= p[i] < cs0.len() && 0 <= p[j] < cs0.len());
        assert(class_names(cs1)[i] == class_names(cs0)[p[i]]);
        assert(class_names(cs1)[j] == class_names(cs0)[p[j]]);
        if i < j {
            assert(p[i] != p[j]);
        } else {
            assert(p[j] != p[i]);
        }
    }
    assert forall|j: int| 0 <= j < cs1.len() implies class_ok(logs, m1.mapped@, #[trigger] cs1[j]) by {
        assert(cs1[j] == cs0[p[j]]);
    }
    assert forall|k: int| 0 <= k < logs.len() && #[trigger] m1.mapped@[k] implies placed(logs, cs1, k) by {
        let (a, b) = lemma_placed_to(logs, cs0, k);
        assert(class_ok(logs, m0.mapped@, cs0[a]));
        lemma_same_multiset_contains(cs0, cs1, cs0[a]);
        assert(cs0.contains(cs0[a]));
        let na = choose|na: int| 0 <= na < cs1.len() && cs1[na] == cs0[a];
        lemma_placed_from(logs, cs1, k, na, b);
    }
}

/// Sorting the titles and logs of one class keeps the model consistent.
proof fn lemma_sort_one_class_wf(m0: Model, m1: Model, ci: int, now: u64)
    requires
        m0.wf(),
        0 <= ci < m0.classes.len(),
        m1.logs@ == m0.logs@,
        m1.logs_by_start@ == m0.logs_by_start@,
        m1.mapped@ == m0.mapped@,
        m1.titles_dirty,
        m1.classes@ == m0.classes@.update(ci, m1.classes@[ci]),
        class_sorted(m0.classes@[ci], m1.classes@[ci], m0.logs@, now),
    ensures
        m1.wf(),
{
    let logs = m0.logs@;
    let cs0 = m0.classes@;
    let cs1 = m1.classes@;
    assert(class_ok(logs, m0.mapped@, cs0[ci]));
    lemma_class_sorted_ok(logs, m0.mapped@, cs0[ci], cs1[ci], now);
    assert(class_names(cs1) =~= class_names(cs0));
    assert forall|j: int| 0 <= j < cs1.len() implies class_ok(logs, m1.mapped@, #[trigger] cs1[j]) by {
        if j != ci {
            assert(cs1[j] == cs0[j]);
        }
    }
    assert forall|k: int| 0 <= k < logs.len() && #[trigger] m1.mapped@[k] implies placed(logs, cs1, k) by {
        let (a, b) = lemma_placed_to(logs, cs0, k);
        assert(class_ok(logs, m0.mapped@, cs0[a]));
        if a == ci {
            let t = cs0[ci].titles@[b];
            assert(cs0[ci].titles@.contains(t));
            assert(cs1[ci].titles@.contains(t));
            let nb = choose|nb: int| 0 <= nb < cs1[ci].titles.len() && cs1[ci].titles@[nb] == t;
            assert(cs1[ci].logs@.contains(k as usize));
            let p = choose|p: Seq<int>| #[trigger] rearranged(cs0[ci].titles@, cs1[ci].titles@, title_keys(cs0[ci].titles@, logs, now), title_keys(cs1[ci].titles@, logs, now), p);
            lemma_rearranged_names_no_dup(cs0[ci].titles@, cs1[ci].titles@, title_keys(cs0[ci].titles@, logs, now), title_keys(cs1[ci].titles@, logs, now), p);
            lemma_placed_from(logs, cs1, k, a, nb);
        } else {
            assert(cs1[a] == cs0[a]);
            lemma_placed_from(logs, cs1, k, a, b);
        }
    }
}

/// The pair `a` comes before the pair `b`, class first, then title.
pub open spec fn pair_before(a: (usize, usize), b: (usize, usize)) -> bool {
    a.0 < b.0 || (a.0 == b.0 && a.1 < b.1)
}

/// `pairs` lists every (class, title) position of `cs` once, in order.
pub open spec fn all_title_pairs(cs: Seq<Class>, pairs: Seq<(usize, usize)>) -> bool {
    &&& title_pairs_ok(cs, pairs)
    &&& forall|a: int, b: int| 0 <= a < b < pairs.len() ==> pair_before(#[trigger] pairs[a], #[trigger] pairs[b])
    &&& forall|ci: usize, ti: usize|
        ci < cs.len() && ti < cs[ci as int].titles.len() ==> #[trigger] pairs.contains((ci, ti))
}

/// The time shown for the title at each pair.
pub open spec fn pair_keys(cs: Seq<Class>, pairs: Seq<(usize, usize)>, logs: Seq<Log>, now: u64) -> Seq<u64> {
    pairs.map_values(|pr: (usize, usize)| title_dur(cs[pr.0 as int].titles@[pr.1 as int], logs, now))
}

/// `pairs` lists every (class, title) position of `cs`, ordered by the time the title
/// shows, most first; ties in class order, then title order.
pub open spec fn title_index_sorted(cs: Seq<Class>, pairs: Seq<(usize, usize)>, logs: Seq<Log>, now: u64) -> bool {
    exists|pairs0: Seq<(usize, usize)>, p: Seq<int>|
        #![trigger all_title_pairs(cs, pairs0), is_permutation(p, pairs0.len())]
        all_title_pairs(cs, pairs0) && rearranged(pairs0, pairs, pair_keys(cs, pairs0, logs, now), pair_keys(cs, pairs, logs, now), p)
}

/// A permutation of `0..n` takes every value in it.
proof fn lemma_permutation_onto(p: Seq<int>, n: nat, q: int)
    requires
        is_permutation(p, n),
        0 <= q < n,
    ensures
        exists|i: int| 0 <= i < n && p[i] == q,
{
    assert(p.no_duplicates()) by {
        assert forall|a: int, b: int| 0 <= a < p.len() && 0 <= b < p.len() && a != b implies p[a] != p[b] by {
            if a < b {
            } else {
            }
        }
    }
    p.unique_seq_to_set();
    vstd::set_lib::lemma_int_range(0, n as int);
    let r = vstd::set_lib::set_int_range(0, n as int);
    assert(p.to_set().subset_of(r)) by {
        assert forall|x: int| p.to_set().contains(x) implies r.contains(x) by {
            let i = choose|i: int| 0 <= i < p.len() && p[i] == x;
        }
    }
    vstd::set_lib::lemma_len_subset(p.to_set(), r);
    vstd::set_lib::lemma_subset_equality(p.to_set(), r);
    assert(r.contains(q));
    assert(p.to_set().contains(q));
}

/// A sorted title index lists every (class, title) position of `cs` exactly once, and
/// nothing else, ordered by the time each title shows, most first.
pub proof fn lemma_title_index_complete(cs: Seq<Class>, pairs: Seq<(usize, usize)>, logs: Seq<Log>, now: u64)
    requires
        title_index_sorted(cs, pairs, logs, now),
    ensures
        pairs.no_duplicates(),
        forall|ci: usize, ti: usize|
            #[trigger] pairs.contains((ci, ti)) <==> (ci < cs.len() && ti < cs[ci as int].titles.len()),
        forall|a: int, b: int|
            0 <= a < b < pairs.len() ==> #[trigger] pair_keys(cs, pairs, logs, now)[a] >= #[trigger] pair_keys(
                cs,
                pairs,
                logs,
                now,
            )[b],
{
    let (pairs0, p) = choose|pairs0: Seq<(usize, usize)>, p: Seq<int>|
        #![trigger all_title_pairs(cs, pairs0), is_permutation(p, pairs0.len())]
        all_title_pairs(cs, pairs0) && rearranged(pairs0, pairs, pair_keys(cs, pairs0, logs, now), pair_keys(cs, pairs, logs, now), p);
    let n = pairs0.len();
    assert(is_permutation(p, n));
    assert forall|a: int, b: int| 0 <= a < pairs.len() && 0 <= b < pairs.len() && a != b implies pairs[a] != pairs[b] by {
        assert(pairs[a] == pairs0[p[a]] && pairs[b] == pairs0[p[b]]);
        assert(p[a] != p[b]);
        if p[a] < p[b] {
            assert(pair_before(pairs0[p[a]], pairs0[p[b]]));
        } else {
            assert(pair_before(pairs0[p[b]], pairs0[p[a]]));
        }
    }
    assert forall|ci: usize, ti: usize|
        #[trigger] pairs.contains((ci, ti)) <==> (ci < cs.len() && ti < cs[ci as int].titles.len()) by {
        if pairs.contains((ci, ti)) {
            let i = choose|i: int| 0 <= i < pairs.len() && pairs[i] == (ci, ti);
            assert(pairs[i] == pairs0[p[i]]);
            assert(title_pairs_ok(cs, pairs0));
            let pr = pairs0[p[i]];
            assert(pr.0 < cs.len() && pr.1 < cs[pr.0 as int].titles.len());
        }
        if ci < cs.len() && ti < cs[ci as int].titles.len() {
            assert(pairs0.contains((ci, ti)));
            let q = choose|q: int| 0 <= q < pairs0.len() && pairs0[q] == (ci, ti);
            lemma_permutation_onto(p, n, q);
            let i = choose|i: int| 0 <= i < n && p[i] == q;
            assert(pairs[i] == (ci, ti));
        }
    }
    let nk = pair_keys(cs, pairs, logs, now);
    assert forall|a: int, b: int| 0 <= a < b < pairs.len() implies #[trigger] nk[a] >= #[trigger] nk[b] by {
        assert(stable_desc_by(pair_keys(cs, pairs0, logs, now), nk, p));
    }
}

impl Model {
    /// Lists every (class, title) position, in order.
    fn build_titles(&mut self)
        ensures
            final(self).classes == old(self).classes,
            final(self).logs == old(self).logs,
            final(self).logs_by_start == old(self).logs_by_start,
            final(self).mapped == old(self).mapped,
            final(self).titles_dirty == old(self).titles_dirty,
            final(self).visible_start_idx == old(self).visible_start_idx,
            final(self).visible_end_idx == old(self).visible_end_idx,
            final(self).visible_bounds_initialized == old(self).visible_bounds_initialized,
            all_title_pairs(final(self).classes@, final(self).titles@),
    {
        self.titles.clear();
        let ghost cs = self.classes@;
        let mut i: usize = 0;
        while i < self.classes.len()
            invariant
                i <= cs.len(),
                self.classes@ == cs,
                self.classes == old(self).classes,
                self.logs == old(self).logs,
                self.logs_by_start == old(self).logs_by_start,
                self.mapped == old(self).mapped,
                self.titles_dirty == old(self).titles_dirty,
                self.visible_start_idx == old(self).visible_start_idx,
                self.visible_end_idx == old(self).visible_end_idx,
                self.visible_bounds_initialized == old(self).visible_bounds_initialized,
                title_pairs_ok(cs, self.titles@),
                forall|a: int, b: int| 0 <= a < b < self.titles.len() ==> pair_before(#[trigger] self.titles@[a], #[trigger] self.titles@[b]),
                forall|q: int| 0 <= q < self.titles.len() ==> (#[trigger] self.titles@[q]).0 < i,
                forall|ci: usize, ti: usize| ci < i && ti < cs[ci as int].titles.len() ==> #[trigger] self.titles@.contains((ci, ti)),
            decreases cs.len() - i,
        {
            let mut j: usize = 0;
            let ghost before = self.titles@;
            while j < self.classes[i].titles.len()
                invariant
                    i < cs.len(),
                    j <= cs[i as int].titles.len(),
                    self.classes@ == cs,
                    self.classes == old(self).classes,
                    self.logs == old(self).logs,
                    self.logs_by_start == old(self).logs_by_start,
                    self.mapped == old(self).mapped,
                    self.titles_dirty == old(self).titles_dirty,
                    self.visible_start_idx == old(self).visible_start_idx,
                    self.visible_end_idx == old(self).visible_end_idx,
                    self.visible_bounds_initialized == old(self).visible_bounds_initialized,
                    title_pairs_ok(cs, self.titles@),
                    forall|a: int, b: int| 0 <= a < b < self.titles.len() ==> pair_before(#[trigger] self.titles@[a], #[trigger] self.titles@[b]),
                    forall|q: int| 0 <= q < self.titles.len() ==> (#[trigger] self.titles@[q]).0 < i || (self.titles@[q].0 == i && self.titles@[q].1 < j),
                    forall|ci: usize, ti: usize| ci < i && ti < cs[ci as int].titles.len() ==> #[trigger] self.titles@.contains((ci, ti)),
                    forall|ti: usize| ti < j ==> #[trigger] self.titles@.contains((i, ti)),
                decreases cs[i as int].titles.len() - j,
            {
                let ghost prev = self.titles@;
                self.titles.push((i, j));
                proof {
                    assert forall|ci: usize, ti: usize| ci < i && ti < cs[ci as int].titles.len() implies #[trigger] self.titles@.contains((ci, ti)) by {
                        assert(prev.contains((ci, ti)));
                        let w = choose|w: int| 0 <= w < prev.len() && prev[w] == (ci, ti);
                        assert(self.titles@[w] == (ci, ti));
                    }
                    assert forall|ti: usize| ti < j + 1 implies #[trigger] self.titles@.contains((i, ti)) by {
                        if ti < j {
                            assert(prev.contains((i, ti)));
                            let w = choose|w: int| 0 <= w < prev.len() && prev[w] == (i, ti);
                            assert(self.titles@[w] == (i, ti));
                        } else {
                            assert(self.titles@[prev.len() as int] == (i, ti));
                        }
                    }
                }
                j = j + 1;
            }
            i = i + 1;
        }
    }

    /// Orders the (class, title) positions by the time the title shows, open logs measured up
    /// to `now`, most first, ties kept in order.
    fn sort_titles_index_at(&mut self, now: u64)
        requires
            old(self).wf(),
            all_title_pairs(old(self).classes@, old(self).titles@),
        ensures
            final(self).classes == old(self).classes,
            final(self).logs == old(self).logs,
            final(self).logs_by_start == old(self).logs_by_start,
            final(self).mapped == old(self).mapped,
            final(self).titles_dirty == old(self).titles_dirty,
            final(self).visible_start_idx == old(self).visible_start_idx,
            final(self).visible_end_idx == old(self).visible_end_idx,
            final(self).visible_bounds_initialized == old(self).visible_bounds_initialized,
            title_pairs_ok(final(self).classes@, final(self).titles@),
            title_index_sorted(final(self).classes@, final(self).titles@, final(self).logs@, now),
    {
        let ghost cs = self.classes@;
        let ghost logs = self.logs@;
        let ghost pairs0 = self.titles@;
        let mut keys: Vec<u64> = Vec::new();
        let mut q: usize = 0;
        while q < self.titles.len()
            invariant
                q <= pairs0.len(),
                self.titles@ == pairs0,
                self.classes@ == cs,
                self.logs@ == logs,
                old(self).wf(),
                cs == old(self).classes@,
                logs == old(self).logs@,
                title_pairs_ok(cs, pairs0),
                keys@ == pair_keys(cs, pairs0, logs, now).subrange(0, q as int),
            decreases pairs0.len() - q,
        {
            let (ci, ti) = self.titles[q];
            proof {
                assert(title_pairs_ok(cs, pairs0));
                let pr = pairs0[q as int];
                assert(pr.0 < cs.len() && pr.1 < cs[pr.0 as int].titles.len());
                assert(class_ok(logs, old(self).mapped@, cs[ci as int]));
                assert(title_ok(logs, cs[ci as int].logs@, cs[ci as int].titles@[ti as int]));
            }
            let d = self.classes[ci].titles[ti].total_duration_at(&self.logs, now);
            keys.push(d);
            proof {
                assert(keys@ =~= pair_keys(cs, pairs0, logs, now).subrange(0, q + 1));
            }
            q = q + 1;
        }
        proof {
            assert(keys@ =~= pair_keys(cs, pairs0, logs, now));
        }
        let ghost keys0 = keys@;
        sort_desc_stable(&mut self.titles, &mut keys);
        proof {
            let p = choose|p: Seq<int>| #![trigger is_permutation(p, pairs0.len())] stable_desc_by(keys0, keys@, p) && forall|i: int| 0 <= i < pairs0.len() ==> #[trigger] self.titles@[i] == pairs0[p[i]];
            assert(pair_keys(cs, self.titles@, logs, now) =~= keys@);
            assert(rearranged(pairs0, self.titles@, pair_keys(cs, pairs0, logs, now), pair_keys(cs, self.titles@, logs, now), p));
            assert(all_title_pairs(cs, pairs0));
            assert(title_index_sorted(cs, self.titles@, logs, now));
            assert forall|i: int| 0 <= i < self.titles.len() implies {
                let (ci, ti) = #[trigger] self.titles@[i];
                ci < cs.len() && ti < cs[ci as int].titles.len()
            } by {
                assert(self.titles@[i] == pairs0[p[i]]);
            }
        }
    }

    /// Sorts the model as `sort_at` does, stated as the sorted form of the classes it had.
    fn sort_and_group(&mut self, now: u64)
        requires
            old(self).wf(),
        ensures
            final(self).wf(),
            final(self).logs@ == old(self).logs@,
            final(self).logs_by_start@ == old(self).logs_by_start@,
            final(self).mapped@ == old(self).mapped@,
            !final(self).titles_dirty,
            final(self).visible_start_idx == old(self).visible_start_idx,
            final(self).visible_end_idx == old(self).visible_end_idx,
            final(self).visible_bounds_initialized == old(self).visible_bounds_initialized,
            sorted_grouping(final(self).classes@, final(self).logs@, final(self).mapped@, now),
    {
        let ghost mid = self.classes@;
        self.sort_at(now);
        proof {
            let sorted = choose|sorted: Seq<Class>|
                #[trigger] classes_sorted_by_time(mid, sorted, old(self).logs@, now) && self.classes.len() == sorted.len()
                    && forall|i: int| 0 <= i < sorted.len() ==> class_sorted(sorted[i], #[trigger] self.classes@[i], old(self).logs@, now);
            assert(classes_sorted_by_time(mid, sorted, self.logs@, now));
            assert(forall|ci: int| 0 <= ci < mid.len() ==> class_ok(self.logs@, self.mapped@, #[trigger] mid[ci]));
        }
    }

    /// Sorts everything for display, open logs measured up to `now`: the classes by the
    /// time they show, most first; within each class the titles the same way and the logs
    /// by start; then the (class, title) positions by the time the title shows. Equal ones
    /// keep their order.
    pub fn sort_at(&mut self, now: u64)
        requires
            old(self).wf(),
        ensures
            final(self).wf(),
            final(self).logs@ == old(self).logs@,
            final(self).logs_by_start@ == old(self).logs_by_start@,
            final(self).mapped@ == old(self).mapped@,
            !final(self).titles_dirty,
            final(self).visible_start_idx == old(self).visible_start_idx,
            final(self).visible_end_idx == old(self).visible_end_idx,
            final(self).visible_bounds_initialized == old(self).visible_bounds_initialized,
            exists|sorted: Seq<Class>|
                #[trigger] classes_sorted_by_time(old(self).classes@, sorted, old(self).logs@, now)
                    && final(self).classes.len() == sorted.len() && forall|i: int|
                    0 <= i < sorted.len() ==> class_sorted(sorted[i], #[trigger] final(self).classes@[i], old(self).logs@, now),
            title_index_sorted(final(self).classes@, final(self).titles@, final(self).logs@, now),
    {
        self.titles_dirty = true;
        let ghost m0 = *self;
        let ghost logs = self.logs@;
        let mut keys: Vec<u64> = Vec::new();
        let mut i: usize = 0;
        while i < self.classes.len()
            invariant
                i <= self.classes.len(),
                self.classes@ == m0.classes@,
                self.logs@ == logs,
                m0.wf(),
                logs == m0.logs@,
                keys@ == class_keys(m0.classes@, logs, now).subrange(0, i as int),
            decreases self.classes.len() - i,
        {
            proof {
                assert(class_ok(logs, m0.mapped@, m0.classes@[i as int]));
            }
            let d = self.classes[i].total_duration_at(&self.logs, now);
            keys.push(d);
            proof {
                assert(keys@ =~= class_keys(m0.classes@, logs, now).subrange(0, i + 1));
            }
            i = i + 1;
        }
        proof {
            assert(keys@ =~= class_keys(m0.classes@, logs, now));
        }
        let ghost keys0 = keys@;
        sort_desc_stable(&mut self.classes, &mut keys);
        let ghost sorted = self.classes@;
        proof {
            let p = choose|p: Seq<int>| #![trigger is_permutation(p, m0.classes@.len())] stable_desc_by(keys0, keys@, p) && forall|i: int| 0 <= i < m0.classes@.len() ==> #[trigger] self.classes@[i] == m0.classes@[p[i]];
            assert(class_keys(self.classes@, logs, now) =~= keys@);
            assert(rearranged(m0.classes@, self.classes@, class_keys(m0.classes@, logs, now), class_keys(self.classes@, logs, now), p));
            assert(classes_sorted_by_time(m0.classes@, sorted, logs, now));
            lemma_reorder_classes_wf(m0, *self, p);
        }
        let mut c: usize = 0;
        while c < self.classes.len()
            invariant
                c <= self.classes.len(),
                self.wf(),
                self.titles_dirty,
                self.logs@ == logs,
                self.logs_by_start@ == m0.logs_by_start@,
                self.mapped@ == m0.mapped@,
                self.visible_start_idx == m0.visible_start_idx,
                self.visible_end_idx == m0.visible_end_idx,
                self.visible_bounds_initialized == m0.visible_bounds_initialized,
                self.classes.len() == sorted.len(),
                forall|j: int| 0 <= j < c ==> class_sorted(sorted[j], #[trigger] self.classes@[j], logs, now),
                forall|j: int| c <= j < sorted.len() ==> #[trigger] self.classes@[j] == sorted[j],
            decreases sorted.len() - c,
        {
            let ghost m1 = *self;
            proof {
                let cc = self.classes@[c as int];
                assert(class_ok(logs, self.mapped@, cc));
                assert forall|t: int| 0 <= t < cc.titles.len() && (#[trigger] cc.titles@[t]).logs.len() > 0 implies cc.titles@[t].logs@.last() < logs.len() by {
                    assert(title_ok(logs, cc.logs@, cc.titles@[t]));
                    if cc.titles@[t].logs.len() > 0 {
                        assert(cc.titles@[t].logs@[cc.titles@[t].logs.len() - 1] < logs.len());
                    }
                }
            }
            self.classes[c].sort_at(&self.logs, now);
            proof {
                assert(self.classes@ == m1.classes@.update(c as int, self.classes@[c as int]));
                lemma_sort_one_class_wf(m1, *self, c as int, now);
            }
            c = c + 1;
        }
        self.build_titles();
        self.sort_titles_index_at(now);
        self.titles_dirty = false;
    }

    /// Sorts everything for display as `sort_at` does, open logs measured up to the present
    /// moment.
    pub fn sort(&mut self)
        requires
            old(self).wf(),
        ensures
            final(self).wf(),
            final(self).logs@ == old(self).logs@,
            final(self).logs_by_start@ == old(self).logs_by_start@,
            final(self).mapped@ == old(self).mapped@,
            !final(self).titles_dirty,
            final(self).visible_start_idx == old(self).visible_start_idx,
            final(self).visible_end_idx == old(self).visible_end_idx,
            final(self).visible_bounds_initialized == old(self).visible_bounds_initialized,
            exists|now: u64, sorted: Seq<Class>|
                #[trigger] classes_sorted_by_time(old(self).classes@, sorted, old(self).logs@, now)
                    && final(self).classes.len() == sorted.len() && (forall|i: int|
                    0 <= i < sorted.len() ==> class_sorted(sorted[i], #[trigger] final(self).classes@[i], old(self).logs@, now))
                    && title_index_sorted(final(self).classes@, final(self).titles@, final(self).logs@, now),
    {
        let now = utc_now_millis() as u64;
        self.sort_at(now);
    }

    /// Rebuilds and sorts the (class, title) positions, open logs measured up to `now`,
    /// if they are stale; otherwise leaves them.
    pub fn ensure_titles_sorted_at(&mut self, now: u64)
        requires
            old(self).wf(),
        ensures
            final(self).wf(),
            final(self).classes == old(self).classes,
            final(self).logs == old(self).logs,
            final(self).logs_by_start == old(self).logs_by_start,
            final(self).mapped == old(self).mapped,
            !final(self).titles_dirty,
            final(self).visible_start_idx == old(self).visible_start_idx,
            final(self).visible_end_idx == old(self).visible_end_idx,
            final(self).visible_bounds_initialized == old(self).visible_bounds_initialized,
            !old(self).titles_dirty ==> final(self).titles == old(self).titles,
            old(self).titles_dirty ==> title_index_sorted(final(self).classes@, final(self).titles@, final(self).logs@, now),
    {
        if !self.titles_dirty {
            return;
        }
        self.build_titles();
        self.sort_titles_index_at(now);
        self.titles_dirty = false;
    }

    /// Rebuilds and sorts the (class, title) positions if they are stale, open logs
    /// measured up to the present moment.
    pub fn ensure_titles_sorted(&mut self)
        requires
            old(self).wf(),
        ensures
            final(self).wf(),
            final(self).classes == old(self).classes,
            final(self).logs == old(self).logs,
            !final(self).titles_dirty,
            !old(self).titles_dirty ==> final(self).titles == old(self).titles,
            old(self).titles_dirty ==> exists|now: u64| title_index_sorted(final(self).classes@, final(self).titles@, final(self).logs@, now),
    {
        let now = utc_now_millis() as u64;
        self.ensure_titles_sorted_at(now);
    }
}


// ---------------------------------------------------------------------------------------
// The visible range
// ---------------------------------------------------------------------------------------

/// A timestamp as an unsigned number, negative ones counting as zero.
pub open spec fn clamp_ms(x: i64) -> u64 {
    if x < 0 {
        0
    } else {
        x as u64
    }
}

/// `r` is the first position in start order whose log starts at `target` or later.
pub open spec fn is_lower_bound(logs: Seq<Log>, order: Seq<usize>, target: u64, r: int) -> bool {
    &&& 0 <= r <= order.len()
    &&& forall|q: int| 0 <= q < r ==> logs[#[trigger] order[q] as int].start < target
    &&& forall|q: int| r <= q < order.len() ==> logs[#[trigger] order[q] as int].start >= target
}

/// Whether position `pos` lies in `[from, to)`.
pub open spec fn in_range(pos: int, from: int, to: int) -> bool {
    from <= pos < to
}

/// The logs of `logs` that `iv` holds, in their order, open logs ending at `now`.
pub open spec fn logs_held(logs: Seq<Log>, iv: Interval, now: u64) -> Seq<Log> {
    logs.filter(|l: Log| holds_log(iv, l, now))
}

/// `cs` is a class list that is consistent with `logs` and `mapped` (as `Model::wf` asks)
/// after it has been sorted: the classes by shown time, and in each class the titles by
/// shown time and the logs by start.
pub open spec fn sorted_grouping(cs: Seq<Class>, logs: Seq<Log>, mapped: Seq<bool>, now: u64) -> bool {
    exists|mid: Seq<Class>, sorted: Seq<Class>|
        #[trigger] classes_sorted_by_time(mid, sorted, logs, now) && class_names(mid).no_duplicates() && (forall|ci: int|
            0 <= ci < mid.len() ==> class_ok(logs, mapped, #[trigger] mid[ci])) && (forall|k: int|
            0 <= k < logs.len() && #[trigger] mapped[k] ==> placed(logs, mid, k)) && cs.len() == sorted.len()
            && forall|i: int| 0 <= i < sorted.len() ==> class_sorted(sorted[i], #[trigger] cs[i], logs, now)
}

/// The mapping after moving the visible range to that of `iv`, open logs measured up to
/// `now`: without a recorded range, exactly the logs of the new range that `iv` holds;
/// with one, positions that leave the range are unmapped, positions that enter it are
/// mapped if `iv` holds their log, the rest keep their mapping.
pub open spec fn mapping_moved(old_m: Model, new_m: Model, iv: Interval, now: u64) -> bool {
    &&& !old_m.visible_bounds_initialized ==> maps_visible_exactly(new_m, iv, now)
    &&& old_m.visible_bounds_initialized ==> {
        let n = old_m.logs.len() as int;
        let os = if old_m.visible_start_idx <= n { old_m.visible_start_idx as int } else { n };
        let oe = if old_m.visible_end_idx <= n { old_m.visible_end_idx as int } else { n };
        let ns = new_m.visible_start_idx as int;
        let ne = new_m.visible_end_idx as int;
        forall|pos: int|
            0 <= pos < n ==> new_m.mapped@[#[trigger] old_m.logs_by_start@[pos] as int] == if in_range(pos, os, oe)
                && !in_range(pos, ns, ne) {
                false
            } else if in_range(pos, ns, ne) && !in_range(pos, os, oe) {
                old_m.mapped@[old_m.logs_by_start@[pos] as int] || holds_log(iv, old_m.logs@[old_m.logs_by_start@[pos] as int], now)
            } else {
                old_m.mapped@[old_m.logs_by_start@[pos] as int]
            }
    }
}

/// Exactly the logs at positions in the recorded visible range that `iv` holds, open logs
/// measured up to `now`, are mapped.
pub open spec fn maps_visible_exactly(m: Model, iv: Interval, now: u64) -> bool {
    forall|pos: int|
        0 <= pos < m.logs_by_start.len() ==> m.mapped@[#[trigger] m.logs_by_start@[pos] as int] == (
        in_range(pos, m.visible_start_idx as int, m.visible_end_idx as int) && holds_log(
            iv,
            m.logs@[m.logs_by_start@[pos] as int],
            now,
        ))
}

impl Model {
    /// The range of start-order positions whose logs start within the interval: from the
    /// first that starts at or after its start to the first that starts at or after its end.
    fn visible_bounds(&self, interval: &Interval) -> (r: (usize, usize))
        requires
            self.wf(),
        ensures
            is_lower_bound(self.logs@, self.logs_by_start@, clamp_ms(interval.start), r.0 as int),
            is_lower_bound(self.logs@, self.logs_by_start@, clamp_ms(interval.end), r.1 as int),
    {
        let start_ms: u64 = if interval.start < 0 {
            0
        } else {
            interval.start as u64
        };
        let end_ms: u64 = if interval.end < 0 {
            0
        } else {
            interval.end as u64
        };
        (self.lower_bound_start(start_ms), self.lower_bound_start(end_ms))
    }

    /// Records the visible range of `interval` without changing any mapping.
    pub fn mark_visible_bounds_initialized(&mut self, interval: &Interval)
        requires
            old(self).wf(),
        ensures
            final(self).wf(),
            final(self).classes == old(self).classes,
            final(self).logs == old(self).logs,
            final(self).logs_by_start == old(self).logs_by_start,
            final(self).mapped == old(self).mapped,
            final(self).titles == old(self).titles,
            final(self).titles_dirty == old(self).titles_dirty,
            is_lower_bound(final(self).logs@, final(self).logs_by_start@, clamp_ms(interval.start), final(self).visible_start_idx as int),
            is_lower_bound(final(self).logs@, final(self).logs_by_start@, clamp_ms(interval.end), final(self).visible_end_idx as int),
            final(self).visible_bounds_initialized,
    {
        let (start_idx, end_idx) = self.visible_bounds(interval);
        self.visible_start_idx = start_idx;
        self.visible_end_idx = end_idx;
        self.visible_bounds_initialized = true;
    }

    /// Unmaps the logs at start-order positions `from` up to `to`.
    fn unmap_range(&mut self, from: usize, to: usize)
        requires
            old(self).wf(),
            to <= old(self).logs_by_start.len(),
        ensures
            final(self).wf(),
            final(self).logs@ == old(self).logs@,
            final(self).logs_by_start@ == old(self).logs_by_start@,
            final(self).visible_start_idx == old(self).visible_start_idx,
            final(self).visible_end_idx == old(self).visible_end_idx,
            final(self).visible_bounds_initialized == old(self).visible_bounds_initialized,
            forall|pos: int|
                0 <= pos < old(self).logs_by_start.len() ==> final(self).mapped@[#[trigger] old(self).logs_by_start@[pos] as int]
                    == if in_range(pos, from as int, to as int) {
                    false
                } else {
                    old(self).mapped@[old(self).logs_by_start@[pos] as int]
                },
    {
        let ghost order = self.logs_by_start@;
        let ghost mapped0 = self.mapped@;
        let mut pos = from;
        while pos < to
            invariant
                from <= pos,
                pos <= to || pos == from,
                to <= order.len(),
                self.wf(),
                self.logs@ == old(self).logs@,
                self.logs_by_start@ == order,
                self.visible_start_idx == old(self).visible_start_idx,
                self.visible_end_idx == old(self).visible_end_idx,
                self.visible_bounds_initialized == old(self).visible_bounds_initialized,
                forall|p: int|
                    0 <= p < order.len() ==> self.mapped@[#[trigger] order[p] as int]
                        == if in_range(p, from as int, pos as int) {
                        false
                    } else {
                        mapped0[order[p] as int]
                    },
            decreases to - pos,
        {
            let k = self.logs_by_start[pos];
            let ghost before = self.mapped@;
            assert(k < self.logs.len());
            self.unmap_log(k);
            proof {
                assert(self.mapped@ == before.update(k as int, false));
                assert forall|p: int|
                    0 <= p < order.len() implies self.mapped@[#[trigger] order[p] as int]
                        == if in_range(p, from as int, pos + 1) {
                        false
                    } else {
                        mapped0[order[p] as int]
                    } by {
                    assert(before[order[p] as int] == if in_range(p, from as int, pos as int) {
                        false
                    } else {
                        mapped0[order[p] as int]
                    });
                    if p != pos as int {
                        assert(order[p] != order[pos as int]);
                    }
                }
            }
            pos = pos + 1;
        }
    }

    /// Maps the logs at start-order positions `from` up to `to` that `interval` holds, open
    /// logs measured up to `now`.
    fn map_range(&mut self, from: usize, to: usize, interval: &Interval, now: u64)
        requires
            old(self).wf(),
            to <= old(self).logs_by_start.len(),
        ensures
            final(self).wf(),
            final(self).logs@ == old(self).logs@,
            final(self).logs_by_start@ == old(self).logs_by_start@,
            final(self).visible_start_idx == old(self).visible_start_idx,
            final(self).visible_end_idx == old(self).visible_end_idx,
            final(self).visible_bounds_initialized == old(self).visible_bounds_initialized,
            forall|pos: int|
                0 <= pos < old(self).logs_by_start.len() ==> final(self).mapped@[#[trigger] old(self).logs_by_start@[pos] as int]
                    == if in_range(pos, from as int, to as int) {
                    old(self).mapped@[old(self).logs_by_start@[pos] as int] || holds_log(*interval, old(self).logs@[old(self).logs_by_start@[pos] as int], now)
                } else {
                    old(self).mapped@[old(self).logs_by_start@[pos] as int]
                },
    {
        let ghost order = self.logs_by_start@;
        let ghost mapped0 = self.mapped@;
        let ghost logs = self.logs@;
        let mut pos = from;
        while pos < to
            invariant
                from <= pos,
                pos <= to || pos == from,
                to <= order.len(),
                self.wf(),
                self.logs@ == logs,
                logs == old(self).logs@,
                self.logs_by_start@ == order,
                self.visible_start_idx == old(self).visible_start_idx,
                self.visible_end_idx == old(self).visible_end_idx,
                self.visible_bounds_initialized == old(self).visible_bounds_initialized,
                forall|p: int|
                    0 <= p < order.len() ==> self.mapped@[#[trigger] order[p] as int]
                        == if in_range(p, from as int, pos as int) {
                        mapped0[order[p] as int] || holds_log(*interval, logs[order[p] as int], now)
                    } else {
                        mapped0[order[p] as int]
                    },
            decreases to - pos,
        {
            let k = self.logs_by_start[pos];
            let ghost before = self.mapped@;
            assert(k < self.logs.len());
            if interval.contains_log_at(&self.logs[k], now) {
                self.map_log(k);
                assert(self.mapped@ == before.update(k as int, true));
            }
            proof {
                assert forall|p: int|
                    0 <= p < order.len() implies self.mapped@[#[trigger] order[p] as int]
                        == if in_range(p, from as int, pos + 1) {
                        mapped0[order[p] as int] || holds_log(*interval, logs[order[p] as int], now)
                    } else {
                        mapped0[order[p] as int]
                    } by {
                    assert(before[order[p] as int] == if in_range(p, from as int, pos as int) {
                        mapped0[order[p] as int] || holds_log(*interval, logs[order[p] as int], now)
                    } else {
                        mapped0[order[p] as int]
                    });
                    if p != pos as int {
                        assert(order[p] != order[pos as int]);
                    }
                }
            }
            pos = pos + 1;
        }
    }

    /// Maps afresh exactly the logs in the visible range of `interval` that it holds, open
    /// logs measured up to `now`, records that range, and sorts.
    pub fn rebuild_visible_for_interval_at(&mut self, interval: &Interval, now: u64)
        requires
            old(self).wf(),
        ensures
            final(self).wf(),
            final(self).logs@ == old(self).logs@,
            final(self).logs_by_start@ == old(self).logs_by_start@,
            !final(self).titles_dirty,
            final(self).visible_bounds_initialized,
            is_lower_bound(final(self).logs@, final(self).logs_by_start@, clamp_ms(interval.start), final(self).visible_start_idx as int),
            is_lower_bound(final(self).logs@, final(self).logs_by_start@, clamp_ms(interval.end), final(self).visible_end_idx as int),
            maps_visible_exactly(*final(self), *interval, now),
            sorted_grouping(final(self).classes@, final(self).logs@, final(self).mapped@, now),
    {
        self.reset_mappings();
        let (start_idx, end_idx) = self.visible_bounds(interval);
        let ghost order = self.logs_by_start@;
        proof {
            assert forall|p: int| 0 <= p < order.len() implies !self.mapped@[#[trigger] order[p] as int] by {
                assert(order[p] < self.mapped.len());
            }
        }
        self.map_range(start_idx, end_idx, interval, now);
        self.visible_start_idx = start_idx;
        self.visible_end_idx = end_idx;
        self.visible_bounds_initialized = true;
        self.sort_and_group(now);
    }

    /// Maps afresh the logs in the visible range of `interval`, as
    /// `rebuild_visible_for_interval_at` does, open logs measured up to the present moment.
    pub fn rebuild_visible_for_interval(&mut self, interval: &Interval)
        requires
            old(self).wf(),
        ensures
            final(self).wf(),
            final(self).logs@ == old(self).logs@,
            final(self).logs_by_start@ == old(self).logs_by_start@,
            !final(self).titles_dirty,
            final(self).visible_bounds_initialized,
            is_lower_bound(final(self).logs@, final(self).logs_by_start@, clamp_ms(interval.start), final(self).visible_start_idx as int),
            is_lower_bound(final(self).logs@, final(self).logs_by_start@, clamp_ms(interval.end), final(self).visible_end_idx as int),
            exists|now: u64|
                #[trigger] maps_visible_exactly(*final(self), *interval, now) && sorted_grouping(
                    final(self).classes@,
                    final(self).logs@,
                    final(self).mapped@,
                    now,
                ),
    {
        let now = utc_now_millis() as u64;
        self.rebuild_visible_for_interval_at(interval, now);
    }

    /// Moves the visible range to that of `interval`, open logs measured up to `now`:
    /// positions that leave the range are unmapped, positions that enter it are mapped if
    /// `interval` holds their log, the rest keep their mapping; then everything is sorted.
    /// Without a recorded range, the range is rebuilt instead.
    pub fn reconcile_visible_for_interval_at(&mut self, interval: &Interval, now: u64)
        requires
            old(self).wf(),
        ensures
            final(self).wf(),
            final(self).logs@ == old(self).logs@,
            final(self).logs_by_start@ == old(self).logs_by_start@,
            !final(self).titles_dirty,
            final(self).visible_bounds_initialized,
            is_lower_bound(final(self).logs@, final(self).logs_by_start@, clamp_ms(interval.start), final(self).visible_start_idx as int),
            is_lower_bound(final(self).logs@, final(self).logs_by_start@, clamp_ms(interval.end), final(self).visible_end_idx as int),
            !old(self).visible_bounds_initialized ==> maps_visible_exactly(*final(self), *interval, now),
            old(self).visible_bounds_initialized ==> {
                let n = old(self).logs.len() as int;
                let os = if old(self).visible_start_idx <= n { old(self).visible_start_idx as int } else { n };
                let oe = if old(self).visible_end_idx <= n { old(self).visible_end_idx as int } else { n };
                let ns = final(self).visible_start_idx as int;
                let ne = final(self).visible_end_idx as int;
                forall|pos: int|
                    0 <= pos < n ==> final(self).mapped@[#[trigger] old(self).logs_by_start@[pos] as int]
                        == if in_range(pos, os, oe) && !in_range(pos, ns, ne) {
                        false
                    } else if in_range(pos, ns, ne) && !in_range(pos, os, oe) {
                        old(self).mapped@[old(self).logs_by_start@[pos] as int] || holds_log(*interval, old(self).logs@[old(self).logs_by_start@[pos] as int], now)
                    } else {
                        old(self).mapped@[old(self).logs_by_start@[pos] as int]
                    }
            },
            mapping_moved(*old(self), *final(self), *interval, now),
            sorted_grouping(final(self).classes@, final(self).logs@, final(self).mapped@, now),
    {
        if !self.visible_bounds_initialized {
            self.rebuild_visible_for_interval_at(interval, now);
            return;
        }
        let n = self.logs.len();
        let old_start = if self.visible_start_idx <= n { self.visible_start_idx } else { n };
        let old_end = if self.visible_end_idx <= n { self.visible_end_idx } else { n };
        let (new_start, new_end) = self.visible_bounds(interval);
        let ghost order = self.logs_by_start@;
        let ghost mapped0 = self.mapped@;
        let ghost logs = self.logs@;
        if old_end > new_end {
            let start = if old_start >= new_end { old_start } else { new_end };
            self.unmap_range(start, old_end);
        }
        let ghost mapped1 = self.mapped@;
        if new_start > old_start {
            let end = if old_end <= new_start { old_end } else { new_start };
            self.unmap_range(old_start, end);
        }
        let ghost mapped2 = self.mapped@;
        if old_start > new_start {
            let end = if old_start <= new_end { old_start } else { new_end };
            self.map_range(new_start, end, interval, now);
        }
        let ghost mapped3 = self.mapped@;
        if new_end > old_end {
            let start = if old_end >= new_start { old_end } else { new_start };
            self.map_range(start, new_end, interval, now);
        }
        proof {
            let os = old_start as int;
            let oe = old_end as int;
            let ns = new_start as int;
            let ne = new_end as int;
            assert forall|pos: int| 0 <= pos < n implies self.mapped@[#[trigger] order[pos] as int]
                == if in_range(pos, os, oe) && !in_range(pos, ns, ne) {
                false
            } else if in_range(pos, ns, ne) && !in_range(pos, os, oe) {
                mapped0[order[pos] as int] || holds_log(*interval, logs[order[pos] as int], now)
            } else {
                mapped0[order[pos] as int]
            } by {
                let k = order[pos] as int;
                if in_range(pos, os, oe) && !in_range(pos, ns, ne) {
                    if pos >= ne {
                        assert(mapped1[k] == false);
                        assert(!in_range(pos, ns, ne));
                    } else {
                        assert(pos < ns);
                        assert(mapped2[k] == false);
                    }
                }
            }
        }
        self.visible_start_idx = new_start;
        self.visible_end_idx = new_end;
        self.visible_bounds_initialized = true;
        self.sort_and_group(now);
    }

    /// Moves the visible range to that of `interval`, as
    /// `reconcile_visible_for_interval_at` does, open logs measured up to the present moment.
    pub fn reconcile_visible_for_interval(&mut self, interval: &Interval)
        requires
            old(self).wf(),
        ensures
            final(self).wf(),
            final(self).logs@ == old(self).logs@,
            final(self).logs_by_start@ == old(self).logs_by_start@,
            !final(self).titles_dirty,
            final(self).visible_bounds_initialized,
            is_lower_bound(final(self).logs@, final(self).logs_by_start@, clamp_ms(interval.start), final(self).visible_start_idx as int),
            is_lower_bound(final(self).logs@, final(self).logs_by_start@, clamp_ms(interval.end), final(self).visible_end_idx as int),
            !old(self).visible_bounds_initialized ==> exists|now: u64| #[trigger] maps_visible_exactly(*final(self), *interval, now),
            exists|now: u64|
                #[trigger] mapping_moved(*old(self), *final(self), *interval, now) && sorted_grouping(
                    final(self).classes@,
                    final(self).logs@,
                    final(self).mapped@,
                    now,
                ),
    {
        let now = utc_now_millis() as u64;
        self.reconcile_visible_for_interval_at(interval, now);
    }

    /// The logs that `interval` holds, in the order they were added; open logs are measured
    /// up to `now`.
    pub fn logs_iter_at<'a>(&'a self, interval: &'a Interval, now: u64) -> (r: Vec<&'a Log>)
        ensures
            r@.map_values(|l: &Log| *l) == logs_held(self.logs@, *interval, now),
    {
        let ghost pred = |l: Log| holds_log(*interval, l, now);
        let mut r: Vec<&'a Log> = Vec::new();
        let mut i: usize = 0;
        while i < self.logs.len()
            invariant
                i <= self.logs.len(),
                pred == (|l: Log| holds_log(*interval, l, now)),
                r@.map_values(|l: &Log| *l) == self.logs@.subrange(0, i as int).filter(pred),
            decreases self.logs.len() - i,
        {
            proof {
                reveal_with_fuel(Seq::<_>::filter, 1);
                assert(self.logs@.subrange(0, i + 1).drop_last() =~= self.logs@.subrange(0, i as int));
            }
            if interval.contains_log_at(&self.logs[i], now) {
                r.push(&self.logs[i]);
                proof {
                    assert(r@.map_values(|l: &Log| *l) =~= self.logs@.subrange(0, i as int).filter(pred).push(self.logs@[i as int]));
                }
            }
            i = i + 1;
        }
        proof {
            assert(self.logs@.subrange(0, self.logs.len() as int) =~= self.logs@);
        }
        r
    }

    /// The logs that `interval` holds, in the order they were added; open logs are measured
    /// up to the present moment.
    pub fn logs_iter<'a>(&'a self, interval: &'a Interval) -> (r: Vec<&'a Log>)
        ensures
            exists|now: u64| r@.map_values(|l: &Log| *l) == #[trigger] logs_held(self.logs@, *interval, now),
    {
        let now = utc_now_millis() as u64;
        self.logs_iter_at(interval, now)
    }
}

} // verus!
