//! Turning the recorded focus events into logs: each event of a window ends the log of
//! the window before and starts its own; the daemon's `SYSTEM` events stop the log on idle
//! or shutdown, restart it on resume, and forget it on boot.
use vstd::prelude::*;

use crate::clock::utc_now_millis;
use crate::interval::{utc_timestamp_valid, Interval};
use crate::model::{id_after, lemma_next_id, next_id, Log, LogIds, Model};
use crate::settings::{filter_class, filtered_class, Settings};
use crate::text::{decimal_i64, parse_i64, str_equal};

verus! {

/// Why the events could not be read.
#[derive(PartialEq, Eq, Structural, Clone, Copy, Debug)]
pub enum BuildError {
    /// The event at this position has a timestamp that is not an `i64` in decimal.
    BadTimestamp(usize),
}

/// A log as plain values: start, end (none while open), class, title.
pub type LogSpec = (u64, Option<u64>, Seq<char>, Seq<char>);

/// What reading has remembered: when the current window became active, if it is being
/// timed, and which window (class and title) was active last.
pub type ReadState = (Option<u64>, Option<(Seq<char>, Seq<char>)>);

/// The reading state held in the reader's variables.
pub open spec fn state_of(ts: Option<u64>, class: Option<String>, title: Option<String>) -> ReadState {
    (ts, match (class, title) {
        (Some(c), Some(t)) => Some((c@, t@)),
        _ => None,
    })
}

/// `"SYSTEM"`.
pub open spec fn system() -> Seq<char> {
    seq!['S', 'Y', 'S', 'T', 'E', 'M']
}

/// The logs the window active since `state` is given when timing stops at `t`.
pub open spec fn ended_log(state: ReadState, t: u64) -> Seq<LogSpec> {
    match (state.0, state.1) {
        (Some(start), Some((c, ti))) => seq![(start, Some(t), c, ti)],
        _ => Seq::empty(),
    }
}

/// One event at `t` of window `class` (already renamed) and `title`: a window event ends
/// the current log and starts timing the new window; `SYSTEM boot` forgets everything,
/// `SYSTEM resume` restarts timing the last window, `SYSTEM idle` and `SYSTEM shutdown` end
/// the current log and stop timing; other `SYSTEM` events change nothing.
pub open spec fn read_step(state: ReadState, t: u64, class: Seq<char>, title: Seq<char>) -> (ReadState, Seq<LogSpec>) {
    if class == system() {
        if title == seq!['b', 'o', 'o', 't'] {
            ((None, None), Seq::empty())
        } else if title == seq!['r', 'e', 's', 'u', 'm', 'e'] {
            ((Some(t), state.1), Seq::empty())
        } else if title == seq!['s', 'h', 'u', 't', 'd', 'o', 'w', 'n'] || title == seq!['i', 'd', 'l', 'e'] {
            ((None, state.1), ended_log(state, t))
        } else {
            (state, Seq::empty())
        }
    } else {
        ((Some(t), Some((class, title))), ended_log(state, t))
    }
}

/// An event as plain values: timestamp text, class, title.
pub type EventView = (Seq<char>, Seq<char>, Seq<char>);

/// The view of events.
pub open spec fn events_view(v: Seq<(String, String, String)>) -> Seq<EventView> {
    v.map_values(|e: (String, String, String)| (e.0@, e.1@, e.2@))
}

/// The instant `t` lies in the time already loaded, so its event is skipped.
pub open spec fn already_loaded(loaded: Interval, t: u64) -> bool {
    utc_timestamp_valid((t / 1000) as i64, ((t % 1000) * 1_000_000) as u32) && loaded.start <= t
        < loaded.end
}

/// Reading `events` in order: the state reached, the logs ended on the way, and the
/// position of the first event whose timestamp does not read, where reading stops. Events
/// in the loaded interval are skipped; classes are renamed as `mappings` say.
pub open spec fn read_events(
    events: Seq<EventView>,
    mappings: Seq<(String, String)>,
    loaded: Interval,
) -> (ReadState, Seq<LogSpec>, Option<int>)
    decreases events.len(),
{
    if events.len() == 0 {
        ((None, None), Seq::empty(), None)
    } else {
        let (state, logs, err) = read_events(events.drop_last(), mappings, loaded);
        if err is Some {
            (state, logs, err)
        } else {
            let e = events.last();
            match decimal_i64(e.0) {
                None => (state, logs, Some(events.len() - 1)),
                Some(v) => {
                    let t = (v as i64) as u64;
                    if already_loaded(loaded, t) {
                        (state, logs, None)
                    } else {
                        let (next, ended) = read_step(state, t, filtered_class(mappings, e.1), e.2);
                        (next, logs + ended, None)
                    }
                },
            }
        }
    }
}

/// The logs reading all of `events` gives: those ended on the way, then the one still open
/// if a window is being timed at the end.
pub open spec fn events_logs(events: Seq<EventView>, mappings: Seq<(String, String)>, loaded: Interval) -> Seq<
    LogSpec,
> {
    let (state, logs, err) = read_events(events, mappings, loaded);
    match (state.0, state.1) {
        (Some(start), Some((c, t))) => logs.push((start, None, c, t)),
        _ => logs,
    }
}

/// Reading events ends at most one log per event.
proof fn lemma_read_events_len(events: Seq<EventView>, mappings: Seq<(String, String)>, loaded: Interval)
    ensures
        read_events(events, mappings, loaded).1.len() <= events.len(),
    decreases events.len(),
{
    if events.len() > 0 {
        lemma_read_events_len(events.drop_last(), mappings, loaded);
    }
}

/// Reading events gives at most one log more than there are events.
pub proof fn lemma_events_logs_len(events: Seq<EventView>, mappings: Seq<(String, String)>, loaded: Interval)
    ensures
        events_logs(events, mappings, loaded).len() <= events.len() + 1,
{
    lemma_read_events_len(events, mappings, loaded);
}

/// The log at `k` of `logs` is `spec`, but for its number.
pub open spec fn log_is(logs: Seq<Log>, k: int, spec: LogSpec) -> bool {
    &&& logs[k].start == spec.0
    &&& logs[k].end == spec.1
    &&& logs[k].class@ == spec.2
    &&& logs[k].title@ == spec.3
}

/// Adds the logs that `events` give to `model`, open logs measured up to `now`, and sorts
/// it; see `read_events` and `events_logs`. The first event whose timestamp does not read
/// stops it with an error, the logs before it having been added. The logs are numbered
/// from `ids` in the order they are added.
pub fn build_model_at(
    model: &mut Model,
    events: &Vec<(String, String, String)>,
    settings: &Settings,
    ids: &mut LogIds,
    now: u64,
) -> (r: Result<(), BuildError>)
    requires
        old(model).wf(),
        old(model).logs.len() + events.len() < usize::MAX,
    ensures
        final(model).wf(),
        ({
            let (state, logs, err) = read_events(events_view(events@), settings.class_mappings@, settings.loaded_interval);
            let all = events_logs(events_view(events@), settings.class_mappings@, settings.loaded_interval);
            &&& (r is Ok <==> err is None)
            &&& (r matches Err(BuildError::BadTimestamp(i)) ==> err == Some(i as int))
            &&& (r is Ok ==> final(model).logs.len() == old(model).logs.len() + all.len())
            &&& (r is Ok ==> forall|j: int| 0 <= j < all.len() ==> #[trigger] log_is(final(model).logs@, old(model).logs.len() + j, all[j]))
            &&& (r is Err ==> final(model).logs.len() == old(model).logs.len() + logs.len())
            &&& (r is Err ==> forall|j: int| 0 <= j < logs.len() ==> #[trigger] log_is(final(model).logs@, old(model).logs.len() + j, logs[j]))
            &&& forall|j: int| 0 <= j < old(model).logs.len() ==> crate::model::same_but_end(#[trigger] final(model).logs@[j], old(model).logs@[j])
        }),
        forall|j: int|
            0 <= j < final(model).logs.len() - old(model).logs.len() ==> #[trigger] final(model).logs@[old(model).logs.len()
                + j].id == id_after(old(ids).next, j),
        final(ids).next == id_after(old(ids).next, final(model).logs.len() - old(model).logs.len()),
{
    let ghost ev = events_view(events@);
    let ghost mappings = settings.class_mappings@;
    let ghost loaded = settings.loaded_interval;
    let ghost base = model.logs.len() as int;
    let ghost ids0 = ids.next;
    proof {
        lemma_next_id(ids0, 0);
    }
    let mut last_timestamp: Option<u64> = None;
    let mut last_class: Option<String> = None;
    let mut last_title: Option<String> = None;
    let ghost mut added: Seq<LogSpec> = Seq::empty();
    let mut i: usize = 0;
    proof {
        assert(ev.take(0) =~= Seq::<EventView>::empty());
    }
    while i < events.len()
        invariant
            i <= events.len(),
            model.wf(),
            ev == events_view(events@),
            mappings == settings.class_mappings@,
            loaded == settings.loaded_interval,
            base + events.len() < usize::MAX,
            base <= model.logs.len(),
            read_events(ev.take(i as int), mappings, loaded) == (
                state_of(last_timestamp, last_class, last_title),
                added,
                None::<int>,
            ),
            (last_class is Some) == (last_title is Some),
            model.logs.len() == base + added.len(),
            added.len() <= i,
            forall|j: int| 0 <= j < added.len() ==> #[trigger] log_is(model.logs@, base + j, added[j]),
            forall|j: int| 0 <= j < base ==> crate::model::same_but_end(#[trigger] model.logs@[j], old(model).logs@[j]),
            forall|j: int| 0 <= j < added.len() ==> (#[trigger] added[j]).1 is Some,
            base == old(model).logs.len(),
            ids0 == old(ids).next,
            ids.next == id_after(ids0, model.logs.len() - base),
            forall|j: int| 0 <= j < model.logs.len() - base ==> #[trigger] model.logs@[base + j].id == id_after(ids0, j),
        decreases events.len() - i,
    {
        proof {
            assert(ev.take(i + 1).drop_last() =~= ev.take(i as int));
            assert(ev.take(i + 1).last() == ev[i as int]);
        }
        let parsed = parse_i64(events[i].0.as_str());
        let stamp = match parsed {
            Some(v) => v,
            None => {
                proof {
                    assert(read_events(ev.take(i + 1), mappings, loaded) == (
                        state_of(last_timestamp, last_class, last_title),
                        added,
                        Some(i as int),
                    ));
                    lemma_error_sticks(ev, mappings, loaded, i as int + 1);
                }
                return Err(BuildError::BadTimestamp(i));
            },
        };
        let timestamp = stamp as u64;
        if !settings.loaded_interval.contains_utc_timestamp_millis(timestamp) {
            let class = filter_class(events[i].1.clone(), settings);
            let title = &events[i].2;
            let ghost state0: ReadState = state_of(last_timestamp, last_class, last_title);
            let ghost (next, ended) = read_step(state0, timestamp, class@, title@);
            let is_system = str_equal(class.as_str(), "SYSTEM");
            proof {
                reveal_strlit("SYSTEM");
                assert("SYSTEM"@ =~= system());
            }
            if is_system {
                let t = title.as_str();
                proof {
                    reveal_strlit("boot");
                    reveal_strlit("resume");
                    reveal_strlit("shutdown");
                    reveal_strlit("idle");
                    assert("boot"@ =~= seq!['b', 'o', 'o', 't']);
                    assert("resume"@ =~= seq!['r', 'e', 's', 'u', 'm', 'e']);
                    assert("shutdown"@ =~= seq!['s', 'h', 'u', 't', 'd', 'o', 'w', 'n']);
                    assert("idle"@ =~= seq!['i', 'd', 'l', 'e']);
                }
                if str_equal(t, "boot") {
                    last_timestamp = None;
                    last_class = None;
                    last_title = None;
                } else if str_equal(t, "resume") {
                    last_timestamp = Some(timestamp);
                } else if str_equal(t, "shutdown") || str_equal(t, "idle") {
                    self_add_ended(model, &last_timestamp, &last_class, &last_title, timestamp, settings, ids, now, Ghost(base), Ghost(added), Ghost(ids0));
                    proof {
                        added = added + ended;
                    }
                    last_timestamp = None;
                }
            } else {
                self_add_ended(model, &last_timestamp, &last_class, &last_title, timestamp, settings, ids, now, Ghost(base), Ghost(added), Ghost(ids0));
                proof {
                    added = added + ended;
                }
                last_timestamp = Some(timestamp);
                last_class = Some(class);
                last_title = Some(title.clone());
            }
        }
        i = i + 1;
    }
    proof {
        assert(ev.take(events.len() as int) =~= ev);
    }
    match (last_timestamp, &last_class, &last_title) {
        (Some(start), Some(class), Some(title)) => {
            let ghost n0 = ids.next;
            let log = Log::new(ids, start, None, class.clone(), title.clone());
            let ghost before = model.logs@;
            model.add_log_at(log, true, &settings.focused_interval, now);
            proof {
                lemma_next_id(ids0, model.logs.len() - 1 - base);
                assert forall|j: int| 0 <= j < model.logs.len() - base implies #[trigger] model.logs@[base + j].id == id_after(ids0, j) by {
                    if base + j < before.len() {
                        assert(crate::model::same_but_end(model.logs@[base + j], before[base + j]));
                    }
                }
                assert forall|j: int| 0 <= j < added.len() implies #[trigger] log_is(model.logs@, base + j, added[j]) by {
                    assert(log_is(before, base + j, added[j]));
                    if base + j < before.len() - 1 {
                        assert(model.logs@[base + j] == before[base + j]);
                    } else {
                        assert(crate::model::same_but_end(model.logs@[base + j], before[base + j]));
                    }
                }
                let full = added.push((start, None, class@, title@));
                assert(log_is(model.logs@, base + added.len(), full[added.len() as int]));
                assert forall|j: int| 0 <= j < full.len() implies #[trigger] log_is(model.logs@, base + j, full[j]) by {
                    if j < added.len() {
                        assert(full[j] == added[j]);
                    }
                }
                assert forall|j: int| 0 <= j < base implies crate::model::same_but_end(#[trigger] model.logs@[j], old(model).logs@[j]) by {
                    assert(crate::model::same_but_end(model.logs@[j], before[j]));
                }
            }
        },
        _ => {},
    }
    model.sort_at(now);
    Ok(())
}

/// Adds the log ended at `t` of the window being timed, if one is; see `ended_log`.
fn self_add_ended(
    model: &mut Model,
    last_timestamp: &Option<u64>,
    last_class: &Option<String>,
    last_title: &Option<String>,
    t: u64,
    settings: &Settings,
    ids: &mut LogIds,
    now: u64,
    Ghost(base): Ghost<int>,
    Ghost(added): Ghost<Seq<LogSpec>>,
    Ghost(ids0): Ghost<u64>,
)
    requires
        old(model).wf(),
        old(model).logs.len() < usize::MAX,
        old(model).logs.len() == base + added.len(),
        0 <= base,
        forall|j: int| 0 <= j < added.len() ==> #[trigger] log_is(old(model).logs@, base + j, added[j]),
        forall|j: int| 0 <= j < added.len() ==> (#[trigger] added[j]).1 is Some,
        old(ids).next == id_after(ids0, old(model).logs.len() - base),
        forall|j: int| 0 <= j < old(model).logs.len() - base ==> #[trigger] old(model).logs@[base + j].id == id_after(ids0, j),
    ensures
        final(ids).next == id_after(ids0, final(model).logs.len() - base),
        forall|j: int| 0 <= j < final(model).logs.len() - base ==> #[trigger] final(model).logs@[base + j].id == id_after(ids0, j),
        forall|j: int| 0 <= j < base ==> #[trigger] final(model).logs@[j].id == old(model).logs@[j].id,
        final(model).wf(),
        ({
            let state: ReadState = state_of(*last_timestamp, *last_class, *last_title);
            let all = added + ended_log(state, t);
            &&& final(model).logs.len() == base + all.len()
            &&& forall|j: int| 0 <= j < all.len() ==> #[trigger] log_is(final(model).logs@, base + j, all[j])
            &&& forall|j: int| 0 <= j < all.len() ==> (#[trigger] all[j]).1 is Some
            &&& forall|j: int| 0 <= j < base ==> crate::model::same_but_end(#[trigger] final(model).logs@[j], old(model).logs@[j])
        }),
{
    let ghost before = model.logs@;
    match (last_timestamp, last_class, last_title) {
        (Some(start), Some(class), Some(title)) => {
            let log = Log::new(ids, *start, Some(t), class.clone(), title.clone());
            model.add_log_at(log, true, &settings.focused_interval, now);
            proof {
                lemma_next_id(ids0, model.logs.len() - 1 - base);
                assert forall|j: int| 0 <= j < model.logs.len() - base implies #[trigger] model.logs@[base + j].id == id_after(ids0, j) by {
                    if base + j < before.len() {
                        assert(crate::model::same_but_end(model.logs@[base + j], before[base + j]));
                    }
                }
                assert forall|j: int| 0 <= j < base implies #[trigger] model.logs@[j].id == before[j].id by {
                    assert(crate::model::same_but_end(model.logs@[j], before[j]));
                }
                let all = added + seq![(*start, Some(t), class@, title@)];
                assert forall|j: int| 0 <= j < all.len() implies #[trigger] log_is(model.logs@, base + j, all[j]) by {
                    if j < added.len() {
                        assert(all[j] == added[j]);
                        assert(log_is(before, base + j, added[j]));
                        if base + j < before.len() - 1 {
                            assert(model.logs@[base + j] == before[base + j]);
                        } else {
                            assert(crate::model::same_but_end(model.logs@[base + j], before[base + j]));
                            assert(added[j].1 is Some);
                        }
                    }
                }
                assert forall|j: int| 0 <= j < all.len() implies (#[trigger] all[j]).1 is Some by {
                    if j < added.len() {
                        assert(all[j] == added[j]);
                    }
                }
                assert forall|j: int| 0 <= j < base implies crate::model::same_but_end(#[trigger] model.logs@[j], old(model).logs@[j]) by {
                    assert(crate::model::same_but_end(model.logs@[j], before[j]));
                }
            }
        },
        _ => {
            proof {
                let state: ReadState = state_of(*last_timestamp, *last_class, *last_title);
                assert(ended_log(state, t) =~= Seq::<LogSpec>::empty());
                assert(added + ended_log(state, t) =~= added);
            }
        },
    }
}

/// Once reading has stopped on an error it stays stopped.
proof fn lemma_error_sticks(ev: Seq<EventView>, mappings: Seq<(String, String)>, loaded: Interval, k: int)
    requires
        0 < k <= ev.len(),
        read_events(ev.take(k), mappings, loaded).2 is Some,
    ensures
        read_events(ev, mappings, loaded) == read_events(ev.take(k), mappings, loaded),
    decreases ev.len() - k,
{
    if k < ev.len() {
        assert(ev.take(k + 1).drop_last() =~= ev.take(k));
        lemma_error_sticks(ev, mappings, loaded, k + 1);
    } else {
        assert(ev.take(k) =~= ev);
    }
}

/// Adds the logs that `events` give to `model` and sorts it, open logs measured up to the
/// present moment; see `build_model_at`.
pub fn build_model(model: &mut Model, events: &Vec<(String, String, String)>, settings: &Settings, ids: &mut LogIds) -> (r: Result<
    (),
    BuildError,
>)
    requires
        old(model).wf(),
        old(model).logs.len() + events.len() < usize::MAX,
    ensures
        final(model).wf(),
        ({
            let (state, logs, err) = read_events(events_view(events@), settings.class_mappings@, settings.loaded_interval);
            let all = events_logs(events_view(events@), settings.class_mappings@, settings.loaded_interval);
            &&& (r is Ok <==> err is None)
            &&& (r matches Err(BuildError::BadTimestamp(i)) ==> err == Some(i as int))
            &&& (r is Ok ==> final(model).logs.len() == old(model).logs.len() + all.len())
            &&& (r is Ok ==> forall|j: int| 0 <= j < all.len() ==> #[trigger] log_is(final(model).logs@, old(model).logs.len() + j, all[j]))
            &&& (r is Err ==> final(model).logs.len() == old(model).logs.len() + logs.len())
            &&& (r is Err ==> forall|j: int| 0 <= j < logs.len() ==> #[trigger] log_is(final(model).logs@, old(model).logs.len() + j, logs[j]))
            &&& forall|j: int| 0 <= j < old(model).logs.len() ==> crate::model::same_but_end(#[trigger] final(model).logs@[j], old(model).logs@[j])
        }),
        forall|j: int|
            0 <= j < final(model).logs.len() - old(model).logs.len() ==> #[trigger] final(model).logs@[old(model).logs.len()
                + j].id == id_after(old(ids).next, j),
        final(ids).next == id_after(old(ids).next, final(model).logs.len() - old(model).logs.len()),
{
    let now = utc_now_millis() as u64;
    build_model_at(model, events, settings, ids, now)
}


/// `"shutdown"`.
pub open spec fn shutdown_word() -> Seq<char> {
    seq!['s', 'h', 'u', 't', 'd', 'o', 'w', 'n']
}

/// `"idle"`.
pub open spec fn idle_word() -> Seq<char> {
    seq!['i', 'd', 'l', 'e']
}

/// A `SYSTEM shutdown` or `SYSTEM idle` event at `t`, read while the window `(c, ti)` has
/// been timed since `s`, ends that window's log at `t` and stops timing: the log
/// `(s, t, c, ti)` is recorded, the window is remembered for a resume, and no open log is
/// left at the end.
pub proof fn lemma_stop_event_ends_log(
    events: Seq<EventView>,
    mappings: Seq<(String, String)>,
    loaded: Interval,
    e: EventView,
    v: int,
    s: u64,
    c: Seq<char>,
    ti: Seq<char>,
)
    requires
        read_events(events, mappings, loaded).0 == (Some(s), Some((c, ti))),
        read_events(events, mappings, loaded).2 is None,
        decimal_i64(e.0) == Some(v),
        !already_loaded(loaded, (v as i64) as u64),
        filtered_class(mappings, e.1) == system(),
        e.2 == shutdown_word() || e.2 == idle_word(),
    ensures
        read_events(events.push(e), mappings, loaded) == (
            (None::<u64>, Some((c, ti))),
            read_events(events, mappings, loaded).1.push((s, Some((v as i64) as u64), c, ti)),
            None::<int>,
        ),
        events_logs(events.push(e), mappings, loaded) == read_events(events, mappings, loaded).1.push(
            (s, Some((v as i64) as u64), c, ti),
        ),
{
    let evs = events.push(e);
    assert(evs.drop_last() == events);
    assert(evs.last() == e);
    assert(seq![(s, Some((v as i64) as u64), c, ti)] =~= Seq::<LogSpec>::empty().push((s, Some((v as i64) as u64), c, ti)));
    assert(read_events(events, mappings, loaded).1 + seq![(s, Some((v as i64) as u64), c, ti)] =~= read_events(events, mappings, loaded).1.push((s, Some((v as i64) as u64), c, ti)));
}

/// Reading a `SYSTEM shutdown` event does just what reading a `SYSTEM idle` event at the
/// same moment does.
pub proof fn lemma_shutdown_reads_as_idle(
    events: Seq<EventView>,
    mappings: Seq<(String, String)>,
    loaded: Interval,
    stamp: Seq<char>,
    class: Seq<char>,
)
    requires
        filtered_class(mappings, class) == system(),
    ensures
        read_events(events.push((stamp, class, shutdown_word())), mappings, loaded) == read_events(
            events.push((stamp, class, idle_word())),
            mappings,
            loaded,
        ),
{
    let a = events.push((stamp, class, shutdown_word()));
    let b = events.push((stamp, class, idle_word()));
    assert(a.drop_last() == events);
    assert(b.drop_last() == events);
    assert(shutdown_word() != seq!['b', 'o', 'o', 't']);
    assert(shutdown_word() != seq!['r', 'e', 's', 'u', 'm', 'e']);
    assert(idle_word() != seq!['b', 'o', 'o', 't']);
    assert(idle_word() != seq!['r', 'e', 's', 'u', 'm', 'e']);
}

} // verus!
