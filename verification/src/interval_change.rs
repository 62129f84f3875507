//! What the viewer does when the focused interval changes: it reads the logs of the time
//! not loaded yet, grows the loaded interval to cover the focused one, and maps afresh the
//! logs the focused interval shows.
use vstd::prelude::*;

use crate::clock::utc_now_millis;
use crate::interval::Interval;
use crate::model::maps_visible_exactly;
use crate::model_building::{build_model_at, events_logs, events_view, log_is, read_events, BuildError};
use crate::tui::App;

verus! {

/// `loaded` grown to cover `focused` too.
pub open spec fn grown(loaded: Interval, focused: Interval) -> Interval {
    Interval {
        start: if focused.start < loaded.start {
            focused.start
        } else {
            loaded.start
        },
        end: if focused.end > loaded.end {
            focused.end
        } else {
            loaded.end
        },
        changed: loaded.changed,
    }
}

/// The time both intervals cover, when they share any.
pub open spec fn shared(a: Interval, b: Interval) -> Option<Interval> {
    if a.start < b.end && a.end > b.start {
        Some(
            Interval {
                start: if a.start > b.start {
                    a.start
                } else {
                    b.start
                },
                end: if a.end < b.end {
                    a.end
                } else {
                    b.end
                },
                changed: false,
            },
        )
    } else {
        None
    }
}

/// Brings the model in line with a new focused interval, open logs measured up to `now`.
/// Every mapping is dropped first. When the loaded interval does not cover the focused
/// one, the logs `events` give are added (see `build_model_at`) and the loaded interval
/// grows to cover the focused one; an event whose timestamp does not read stops this with
/// an error. Then exactly the logs in the visible range of the time both intervals cover
/// are mapped, and the model is sorted.
pub fn handle_interval_change_at(app: &mut App, events: &Vec<(String, String, String)>, now: u64) -> (r:
    Result<(), BuildError>)
    requires
        old(app).model.wf(),
        old(app).model.logs.len() + events.len() < usize::MAX,
    ensures
        final(app).model.wf(),
        final(app).settings.focused_interval == old(app).settings.focused_interval,
        final(app).settings.class_mappings@ == old(app).settings.class_mappings@,
        ({
            let focused = old(app).settings.focused_interval;
            let loaded = old(app).settings.loaded_interval;
            let covered = loaded.start <= focused.start && loaded.end >= focused.end;
            let ev = events_view(events@);
            let mappings = old(app).settings.class_mappings@;
            let added = events_logs(ev, mappings, loaded);
            &&& (r is Ok <==> (covered || read_events(ev, mappings, loaded).2 is None))
            &&& (r matches Err(BuildError::BadTimestamp(i)) ==> read_events(ev, mappings, loaded).2 == Some(
                i as int,
            ))
            &&& (covered ==> final(app).model.logs@ == old(app).model.logs@
                && final(app).settings.loaded_interval == loaded)
            &&& (r is Err ==> final(app).settings.loaded_interval == loaded)
            &&& (r is Ok ==> final(app).settings.loaded_interval.start <= focused.start
                && final(app).settings.loaded_interval.end >= focused.end)
            &&& (!covered && r is Ok ==> {
                &&& final(app).settings.loaded_interval == grown(loaded, focused)
                &&& final(app).model.logs.len() == old(app).model.logs.len() + added.len()
                &&& forall|j: int|
                    0 <= j < added.len() ==> #[trigger] log_is(
                        final(app).model.logs@,
                        old(app).model.logs.len() + j,
                        added[j],
                    )
            })
            &&& (r is Ok ==> match shared(final(app).settings.loaded_interval, focused) {
                Some(o) => final(app).model.visible_bounds_initialized && maps_visible_exactly(
                    final(app).model,
                    o,
                    now,
                ),
                None => covered ==> !final(app).model.visible_bounds_initialized && forall|k: int|
                    0 <= k < final(app).model.mapped.len() ==> !#[trigger] final(app).model.mapped@[k],
            })
        }),
{
    app.model.reset_mappings();
    let ghost base = app.model.logs.len() as int;
    let ghost mut built_logs = app.model.logs@;
    let has_interval_loaded = app.settings.loaded_interval.contains_interval(&app.settings.focused_interval);
    if !has_interval_loaded {
        let built = build_model_at(&mut app.model, events, &app.settings, &mut app.log_ids, now);
        match built {
            Ok(()) => {},
            Err(e) => {
                return Err(e);
            },
        }
        proof {
            built_logs = app.model.logs@;
            let added = events_logs(events_view(events@), app.settings.class_mappings@, app.settings.loaded_interval);
            assert(forall|j: int| 0 <= j < added.len() ==> #[trigger] log_is(built_logs, base + j, added[j]));
        }
        let focused = app.settings.focused_interval;
        app.settings.loaded_interval.expand_to_include(&focused);
    }
    assert(app.model.logs@ == built_logs);
    let focused = app.settings.focused_interval;
    match app.settings.loaded_interval.overlap(&focused) {
        Some(overlap) => {
            app.model.rebuild_visible_for_interval_at(&overlap, now);
        },
        None => {
            app.model.sort_at(now);
        },
    }
    proof {
        if !has_interval_loaded {
            let added = events_logs(events_view(events@), app.settings.class_mappings@, old(app).settings.loaded_interval);
            assert forall|j: int| 0 <= j < added.len() implies #[trigger] log_is(app.model.logs@, base + j, added[j]) by {
                assert(log_is(built_logs, base + j, added[j]));
            }
        }
    }
    Ok(())
}

/// Brings the model in line with a new focused interval, as `handle_interval_change_at`
/// does, open logs measured up to the present moment.
pub fn handle_interval_change(app: &mut App, events: &Vec<(String, String, String)>) -> (r: Result<
    (),
    BuildError,
>)
    requires
        old(app).model.wf(),
        old(app).model.logs.len() + events.len() < usize::MAX,
    ensures
        final(app).model.wf(),
        final(app).settings.focused_interval == old(app).settings.focused_interval,
        final(app).settings.class_mappings@ == old(app).settings.class_mappings@,
        ({
            let focused = old(app).settings.focused_interval;
            let loaded = old(app).settings.loaded_interval;
            let covered = loaded.start <= focused.start && loaded.end >= focused.end;
            let ev = events_view(events@);
            let mappings = old(app).settings.class_mappings@;
            let added = events_logs(ev, mappings, loaded);
            &&& (r is Ok <==> (covered || read_events(ev, mappings, loaded).2 is None))
            &&& (r matches Err(BuildError::BadTimestamp(i)) ==> read_events(ev, mappings, loaded).2 == Some(
                i as int,
            ))
            &&& (covered ==> final(app).model.logs@ == old(app).model.logs@
                && final(app).settings.loaded_interval == loaded)
            &&& (r is Err ==> final(app).settings.loaded_interval == loaded)
            &&& (r is Ok ==> final(app).settings.loaded_interval.start <= focused.start
                && final(app).settings.loaded_interval.end >= focused.end)
            &&& (!covered && r is Ok ==> {
                &&& final(app).settings.loaded_interval == grown(loaded, focused)
                &&& final(app).model.logs.len() == old(app).model.logs.len() + added.len()
                &&& forall|j: int|
                    0 <= j < added.len() ==> #[trigger] log_is(
                        final(app).model.logs@,
                        old(app).model.logs.len() + j,
                        added[j],
                    )
            })
        }),
{
    let now = utc_now_millis() as u64;
    handle_interval_change_at(app, events, now)
}

} // verus!
