//! The viewer's state and how it changes: logs streamed in from the daemon, the selected
//! class and title kept valid as the model changes, following the newest log, and the
//! keys and mouse moves the user makes.
use vstd::prelude::*;

use crate::interval::{panned, Interval};
use crate::model::{class_position, next_id, title_position, Class, Log, LogIds, Model};
use crate::settings::{filter_class, filtered_class, Settings};
use crate::stream::StreamEvent;
use crate::tables::{adjust_scroll, scroll_adjusted};
use crate::text::str_equal;
use crate::clock::utc_now_millis;
use crate::model_building::{build_model_at, events_logs, events_view, lemma_events_logs_len, log_is, read_events, BuildError};

verus! {

/// A rectangle of the screen.
#[derive(PartialEq, Eq, Structural, Clone, Copy, Debug)]
pub struct Area {
    pub x: u16,
    pub y: u16,
    pub width: u16,
    pub height: u16,
}

/// A drag of the timeline under way: where it started and what the interval was then.
pub struct DragState {
    pub start_col: u16,
    pub start_interval: Interval,
    pub area_width: u16,
}

/// `a / b` rounded toward zero, as integer division in Rust rounds.
pub open spec fn trunc_div(a: int, b: int) -> int {
    if a >= 0 {
        a / b
    } else {
        -((-a) / b)
    }
}

/// The pan a drag to `column` asks for: the columns moved since the drag started, against
/// the direction of the move, each worth the width of the interval the drag started from
/// divided by the area's width (rounded toward zero). `None` when the area has no width,
/// a column is worth nothing, or the pan does not fit an `i64`.
pub open spec fn drag_delta(st: DragState, column: u16) -> Option<i64> {
    if st.area_width == 0 {
        None
    } else {
        let w = ((st.start_interval.end - st.start_interval.start) as u64) as i64;
        let per_column = trunc_div(w as int, st.area_width as int);
        let d = -(column - st.start_col) * per_column;
        if per_column == 0 || d < i64::MIN || d > i64::MAX {
            None
        } else {
            Some(d as i64)
        }
    }
}

/// The keys the viewer acts on.
#[derive(PartialEq, Eq, Structural, Clone, Copy, Debug)]
pub enum Key {
    Char(char),
    Up,
    Down,
    Left,
    Right,
    Esc,
    Other,
}

/// The mouse events the viewer acts on.
#[derive(PartialEq, Eq, Structural, Clone, Copy, Debug)]
pub enum MouseKind {
    LeftDown,
    LeftDrag,
    LeftUp,
    Other,
}

/// The viewer's state.
pub struct App {
    pub settings: Settings,
    pub model: Model,
    pub should_quit: bool,
    pub selected_class: Option<(String, usize)>,
    pub selected_title: Option<(String, usize)>,
    pub class_scroll: usize,
    pub title_scroll: usize,
    pub follow: bool,
    pub next_expected_seq: u64,
    pub pending_logs: Vec<Log>,
    pub needs_full_rebuild: bool,
    pub timeline_area: Area,
    pub drag_state: Option<DragState>,
    pub log_ids: LogIds,
}

/// A selection as plain values.
pub open spec fn sel_view(s: Option<(String, usize)>) -> Option<(Seq<char>, usize)> {
    match s {
        Some((n, i)) => Some((n@, i)),
        None => None,
    }
}

/// A log as plain values, but for its number: start, end, class, title.
pub type LogView = (u64, Option<u64>, Seq<char>, Seq<char>);

/// The view of a log, but for its number.
pub open spec fn log_view(l: Log) -> LogView {
    (l.start, l.end, l.class@, l.title@)
}

/// The views of logs.
pub open spec fn logs_view(v: Seq<Log>) -> Seq<LogView> {
    v.map_values(|l: Log| log_view(l))
}

/// Everything but the selection and following is as it was.
pub open spec fn rest_same(a: App, b: App) -> bool {
    &&& a.settings == b.settings
    &&& a.model == b.model
    &&& a.should_quit == b.should_quit
    &&& a.class_scroll == b.class_scroll
    &&& a.title_scroll == b.title_scroll
    &&& a.next_expected_seq == b.next_expected_seq
    &&& a.pending_logs == b.pending_logs
    &&& a.needs_full_rebuild == b.needs_full_rebuild
    &&& a.timeline_area == b.timeline_area
    &&& a.drag_state == b.drag_state
}

/// The stream state after one more event: the sequence number expected next, whether the
/// model must be built afresh, and the logs waiting to be added. A log with the expected
/// number waits to be added, open and of its renamed class; one beyond it means logs were
/// missed; an earlier one is ignored. Sequence numbers wrap.
pub open spec fn stream_step(
    next: u64,
    rebuild: bool,
    pending: Seq<LogView>,
    mappings: Seq<(String, String)>,
    event: StreamEvent,
) -> (u64, bool, Seq<LogView>) {
    match event {
        StreamEvent::Welcome { current_seq } => (current_seq, rebuild, pending),
        StreamEvent::Log { seq, timestamp, class, title } => if seq == next {
            (
                (if next == u64::MAX {
                    0
                } else {
                    next + 1
                }) as u64,
                rebuild,
                pending.push((timestamp as u64, None, filtered_class(mappings, class@), title@)),
            )
        } else if seq > next {
            (
                (if seq == u64::MAX {
                    0
                } else {
                    seq + 1
                }) as u64,
                true,
                pending,
            )
        } else {
            (next, rebuild, pending)
        },
        StreamEvent::Gap { .. } => (next, true, pending),
        StreamEvent::Disconnected => (next, true, pending),
    }
}

/// The stream state after the events of `events`, in order; see `stream_step`.
pub open spec fn stream_fold(
    next: u64,
    rebuild: bool,
    pending: Seq<LogView>,
    mappings: Seq<(String, String)>,
    events: Seq<StreamEvent>,
) -> (u64, bool, Seq<LogView>)
    decreases events.len(),
{
    if events.len() == 0 {
        (next, rebuild, pending)
    } else {
        let (n, r, p) = stream_fold(next, rebuild, pending, mappings, events.drop_last());
        stream_step(n, r, p, mappings, events.last())
    }
}

/// The log a stream event of a log waits to be added as.
pub open spec fn streamed_log(mappings: Seq<(String, String)>, e: StreamEvent) -> LogView {
    match e {
        StreamEvent::Log { seq, timestamp, class, title } => (
            timestamp as u64,
            None,
            filtered_class(mappings, class@),
            title@,
        ),
        _ => (0u64, None, Seq::empty(), Seq::empty()),
    }
}

/// Proves that logs streamed in order each wait to be added, once and in order: when the
/// events are logs numbered on from the number expected next, without wrapping, the
/// number expected next moves past them, no rebuild is asked for that was not asked for
/// already, and their logs follow the waiting ones.
pub proof fn lemma_logs_in_order_all_wait(
    next: u64,
    rebuild: bool,
    pending: Seq<LogView>,
    mappings: Seq<(String, String)>,
    events: Seq<StreamEvent>,
)
    requires
        next + events.len() <= u64::MAX,
        forall|i: int| 0 <= i < events.len() ==> (#[trigger] events[i] matches StreamEvent::Log { seq, .. } && seq == next + i),
    ensures
        stream_fold(next, rebuild, pending, mappings, events) == (
            (next + events.len()) as u64,
            rebuild,
            pending + events.map_values(|e: StreamEvent| streamed_log(mappings, e)),
        ),
    decreases events.len(),
{
    if events.len() > 0 {
        let rest = events.drop_last();
        assert forall|i: int| 0 <= i < rest.len() implies (#[trigger] rest[i] matches StreamEvent::Log { seq, .. } && seq == next + i) by {
            assert(rest[i] == events[i]);
        }
        lemma_logs_in_order_all_wait(next, rebuild, pending, mappings, rest);
        assert(events[events.len() - 1] == events.last());
        assert(pending + events.map_values(|e: StreamEvent| streamed_log(mappings, e)) =~= (pending + rest.map_values(
            |e: StreamEvent| streamed_log(mappings, e),
        )).push(streamed_log(mappings, events.last())));
    }
}

/// Proves that once a rebuild is asked for, no later event of the stream withdraws it.
pub proof fn lemma_rebuild_sticks(
    next: u64,
    pending: Seq<LogView>,
    mappings: Seq<(String, String)>,
    events: Seq<StreamEvent>,
)
    ensures
        stream_fold(next, true, pending, mappings, events).1,
    decreases events.len(),
{
    if events.len() > 0 {
        lemma_rebuild_sticks(next, pending, mappings, events.drop_last());
    }
}

impl App {
    /// A viewer over an empty model with nothing selected.
    pub fn new(settings: Settings) -> (r: App)
        ensures
            r.model.wf(),
            r.model.logs@.len() == 0,
            r.settings == settings,
            !r.should_quit,
            r.selected_class is None,
            r.selected_title is None,
            !r.follow,
            r.next_expected_seq == 0,
            r.pending_logs@.len() == 0,
            !r.needs_full_rebuild,
            r.drag_state is None,
            r.log_ids.next == 1,
    {
        App {
            settings,
            model: Model::new(),
            should_quit: false,
            selected_class: None,
            selected_title: None,
            class_scroll: 0,
            title_scroll: 0,
            follow: false,
            next_expected_seq: 0,
            pending_logs: Vec::new(),
            needs_full_rebuild: false,
            timeline_area: Area { x: 0, y: 0, width: 0, height: 0 },
            drag_state: None,
            log_ids: LogIds::new(),
        }
    }

    /// Takes in one event of the stream; see `stream_step`.
    pub fn apply_stream_event(&mut self, event: StreamEvent)
        ensures
            final(self).model == old(self).model,
            final(self).settings == old(self).settings,
            final(self).selected_class == old(self).selected_class,
            final(self).selected_title == old(self).selected_title,
            final(self).follow == old(self).follow,
            stream_step(
                old(self).next_expected_seq,
                old(self).needs_full_rebuild,
                logs_view(old(self).pending_logs@),
                old(self).settings.class_mappings@,
                event,
            ) == (final(self).next_expected_seq, final(self).needs_full_rebuild, logs_view(final(self).pending_logs@)),
            forall|j: int| 0 <= j < old(self).pending_logs.len() ==> #[trigger] final(self).pending_logs@[j].id == old(self).pending_logs@[j].id,
            final(self).pending_logs.len() > old(self).pending_logs.len() ==> final(self).pending_logs@.last().id == old(self).log_ids.next
                && final(self).log_ids.next == next_id(old(self).log_ids.next),
            final(self).pending_logs.len() == old(self).pending_logs.len() ==> final(self).log_ids == old(self).log_ids,
    {
        let ghost ev = event;
        match event {
            StreamEvent::Welcome { current_seq } => {
                self.next_expected_seq = current_seq;
            },
            StreamEvent::Log { seq, timestamp, class, title } => {
                if seq == self.next_expected_seq {
                    self.next_expected_seq = if self.next_expected_seq == u64::MAX {
                        0
                    } else {
                        self.next_expected_seq + 1
                    };
                    let log = Log::new(&mut self.log_ids, timestamp as u64, None, filter_class(class, &self.settings), title);
                    let ghost prev = self.pending_logs@;
                    self.pending_logs.push(log);
                    proof {
                        assert(logs_view(self.pending_logs@) =~= logs_view(prev).push(log_view(log)));
                    }
                } else if seq > self.next_expected_seq {
                    self.needs_full_rebuild = true;
                    self.next_expected_seq = if seq == u64::MAX {
                        0
                    } else {
                        seq + 1
                    };
                }
            },
            StreamEvent::Gap { .. } => {
                self.needs_full_rebuild = true;
            },
            StreamEvent::Disconnected => {
                self.needs_full_rebuild = true;
            },
        }
    }
}

/// The selection after the model changed: a selected class is found again by name (and
/// its position updated), or, when gone, the class now at its position (the last one if it
/// lies past the end) is selected instead and the title selection dropped. A selected title
/// of a found class keeps its place where a class of its name is found; otherwise the
/// title now at its position in the class (the last one if past the end) is selected, and
/// the selection is dropped when the class has no titles. With no classes at all the class
/// selection stays as it was.
pub open spec fn fixed_selection(
    classes: Seq<Class>,
    sc: Option<(Seq<char>, usize)>,
    st: Option<(Seq<char>, usize)>,
) -> (Option<(Seq<char>, usize)>, Option<(Seq<char>, usize)>) {
    match sc {
        None => (None, st),
        Some((cname, cidx)) => match class_position(classes, cname) {
            Some(ci) => {
                let sc2 = Some((cname, ci as usize));
                match st {
                    None => (sc2, None),
                    Some((tname, tidx)) => match class_position(classes, tname) {
                        Some(ti) => (sc2, Some((tname, ti as usize))),
                        None => {
                            let titles = classes[ci].titles@;
                            if titles.len() == 0 {
                                (sc2, None)
                            } else {
                                let ti = if tidx >= titles.len() {
                                    (titles.len() - 1) as usize
                                } else {
                                    tidx
                                };
                                (sc2, Some((titles[ti as int].title@, ti)))
                            }
                        },
                    },
                }
            },
            None => if classes.len() == 0 {
                (sc, None)
            } else {
                let ci = if cidx >= classes.len() {
                    (classes.len() - 1) as usize
                } else {
                    cidx
                };
                (Some((classes[ci as int].class@, ci)), None)
            },
        },
    }
}

/// Following the newest log: while now shows, the newest log's class and title are
/// selected (when the model lists them); when now does not show, following stops and the
/// title selection is dropped.
pub open spec fn followed(
    classes: Seq<Class>,
    logs: Seq<Log>,
    follow: bool,
    now_visible: bool,
    sc: Option<(Seq<char>, usize)>,
    st: Option<(Seq<char>, usize)>,
) -> (bool, Option<(Seq<char>, usize)>, Option<(Seq<char>, usize)>) {
    if !follow {
        (follow, sc, st)
    } else if !now_visible {
        (false, sc, None)
    } else if logs.len() == 0 {
        (follow, sc, st)
    } else {
        let newest = logs.last();
        match class_position(classes, newest.class@) {
            Some(ci) => match title_position(classes[ci].titles@, newest.title@) {
                Some(ti) => (follow, Some((newest.class@, ci as usize)), Some((newest.title@, ti as usize))),
                None => (follow, sc, st),
            },
            None => (follow, sc, st),
        }
    }
}

impl App {
    /// Brings the selection in line with the model; see `fixed_selection`.
    pub fn fix_selection(&mut self)
        ensures
            rest_same(*final(self), *old(self)),
            final(self).model == old(self).model,
            final(self).settings == old(self).settings,
            final(self).follow == old(self).follow,
            (sel_view(final(self).selected_class), sel_view(final(self).selected_title)) == fixed_selection(
                old(self).model.classes@,
                sel_view(old(self).selected_class),
                sel_view(old(self).selected_title),
            ),
    {
        let ghost expected = fixed_selection(
            self.model.classes@,
            sel_view(self.selected_class),
            sel_view(self.selected_title),
        );
        let sc = self.selected_class.take();
        let st = self.selected_title.take();
        assert(sel_view(sc) == sel_view(old(self).selected_class));
        assert(sel_view(st) == sel_view(old(self).selected_title));
        match sc {
            None => {
                self.selected_title = st;
            },
            Some((cname, cidx)) => match self.model.index_of(cname.as_str()) {
                Some(ci) => {
                    proof {
                        crate::model::class_names(self.model.classes@).index_of_first_ensures(cname@);
                        assert(self.model.classes@.len() == self.model.classes.len());
                        assert(crate::model::class_names(self.model.classes@).len() == self.model.classes@.len());
                        assert(class_position(self.model.classes@, cname@) == Some(ci as int));
                    }
                    match st {
                        None => {},
                        Some((tname, tidx)) => match self.model.index_of(tname.as_str()) {
                            Some(ti) => {
                                self.selected_title = Some((tname, ti));
                                assert(sel_view(self.selected_title) == expected.1);
                            },
                            None => {
                                let n = self.model.classes[ci].titles.len();
                                if n > 0 {
                                    let ti = if tidx >= n {
                                        n - 1
                                    } else {
                                        tidx
                                    };
                                    let name = self.model.classes[ci].titles[ti].title.clone();
                                    assert(name@ == self.model.classes@[ci as int].titles@[ti as int].title@);
                                    self.selected_title = Some((name, ti));
                                    assert(class_position(self.model.classes@, cname@) == Some(ci as int));
                                    assert(class_position(self.model.classes@, tname@) is None);
                                    assert(sel_view(old(self).selected_class) == Some((cname@, cidx)));
                                    assert(sel_view(old(self).selected_title) == Some((tname@, tidx)));
                                    assert(expected.1 == Some((self.model.classes@[ci as int].titles@[ti as int].title@, ti)));
                                    assert(sel_view(self.selected_title) == expected.1);
                                } else {
                                    assert(sel_view(self.selected_title) == expected.1);
                                }
                            },
                        },
                    }
                    self.selected_class = Some((cname, ci));
                },
                None => {
                    let n = self.model.classes.len();
                    if n == 0 {
                        self.selected_class = Some((cname, cidx));
                    } else {
                        let ci = if cidx >= n {
                            n - 1
                        } else {
                            cidx
                        };
                        self.selected_class = Some((self.model.classes[ci].class.clone(), ci));
                    }
                },
            },
        }
        proof {
            crate::model::class_names(self.model.classes@).index_of_first_ensures(
                match sel_view(old(self).selected_class) {
                    Some((n, _)) => n,
                    None => Seq::empty(),
                },
            );
        }
    }

    /// Follows the newest log, now showing or not; see `followed`.
    pub fn follow_newest(&mut self, now_visible: bool)
        ensures
            rest_same(*final(self), *old(self)),
            final(self).model == old(self).model,
            final(self).settings == old(self).settings,
            (final(self).follow, sel_view(final(self).selected_class), sel_view(final(self).selected_title)) == followed(
                old(self).model.classes@,
                old(self).model.logs@,
                old(self).follow,
                now_visible,
                sel_view(old(self).selected_class),
                sel_view(old(self).selected_title),
            ),
    {
        if !self.follow {
            return;
        }
        if !now_visible {
            self.set_follow(false);
            return;
        }
        let n = self.model.logs.len();
        if n == 0 {
            return;
        }
        let newest = &self.model.logs[n - 1];
        assert(*newest == self.model.logs@.last());
        match self.model.index_of(newest.class.as_str()) {
            Some(ci) => {
                proof {
                    crate::model::class_names(self.model.classes@).index_of_first_ensures(newest.class@);
                    assert(self.model.classes@.len() == self.model.classes.len());
                    assert(crate::model::class_names(self.model.classes@).len() == self.model.classes@.len());
                    assert(class_position(self.model.classes@, newest.class@) == Some(ci as int));
                }
                match self.model.classes[ci].index_of(newest.title.as_str()) {
                    Some(ti) => {
                        let c = newest.class.clone();
                        let t = newest.title.clone();
                        assert(c@ == newest.class@ && t@ == newest.title@);
                        self.selected_class = Some((c, ci));
                        self.selected_title = Some((t, ti));
                    },
                    None => {},
                }
            },
            None => {},
        }
    }

    /// Turns following on or off; either way the title selection is dropped.
    pub fn set_follow(&mut self, follow: bool)
        ensures
            rest_same(*final(self), *old(self)),
            final(self).follow == follow,
            final(self).selected_title is None,
            final(self).selected_class == old(self).selected_class,
            final(self).model == old(self).model,
            final(self).settings == old(self).settings,
    {
        self.follow = follow;
        self.selected_title = None;
    }
}

/// Whether the instant `now` shows in the interval `iv`.
pub open spec fn now_shown(iv: Interval, now: u64) -> bool {
    crate::interval::utc_timestamp_valid((now / 1000) as i64, ((now % 1000) * 1_000_000) as u32)
        && iv.start <= now < iv.end
}

/// The selection after the up key: with nothing selected the first class; with a title
/// selected the title above it, if any; else the class above, if any. A move to a title
/// the model does not list leaves the selection as it is.
pub open spec fn up_selection(
    classes: Seq<Class>,
    sc: Option<(Seq<char>, usize)>,
    st: Option<(Seq<char>, usize)>,
) -> (Option<(Seq<char>, usize)>, Option<(Seq<char>, usize)>) {
    match sc {
        None => if classes.len() > 0 {
            (Some((classes[0].class@, 0usize)), st)
        } else {
            (sc, st)
        },
        Some((cname, cidx)) => match st {
            Some((tname, tidx)) => if tidx > 0 {
                match class_position(classes, cname) {
                    Some(ci) => if tidx - 1 < classes[ci].titles.len() {
                        (sc, Some((classes[ci].titles@[tidx - 1].title@, (tidx - 1) as usize)))
                    } else {
                        (sc, st)
                    },
                    None => (sc, st),
                }
            } else {
                (sc, st)
            },
            None => if cidx > 0 && cidx - 1 < classes.len() {
                (Some((classes[cidx - 1].class@, (cidx - 1) as usize)), st)
            } else {
                (sc, st)
            },
        },
    }
}

/// The selection after the down key: with nothing selected the first class; with a title
/// selected the title below it (staying on the last); else the class below (staying on the
/// last). A move the model cannot serve leaves the selection as it is.
pub open spec fn down_selection(
    classes: Seq<Class>,
    sc: Option<(Seq<char>, usize)>,
    st: Option<(Seq<char>, usize)>,
) -> (Option<(Seq<char>, usize)>, Option<(Seq<char>, usize)>) {
    match sc {
        None => if classes.len() > 0 {
            (Some((classes[0].class@, 0usize)), st)
        } else {
            (sc, st)
        },
        Some((cname, cidx)) => match st {
            Some((tname, tidx)) => match class_position(classes, cname) {
                Some(ci) => {
                    let n = classes[ci].titles.len();
                    if n > 0 {
                        let ti = if tidx + 1 < n {
                            tidx + 1
                        } else {
                            n - 1
                        };
                        (sc, Some((classes[ci].titles@[ti].title@, ti as usize)))
                    } else {
                        (sc, st)
                    }
                },
                None => (sc, st),
            },
            None => {
                let n = classes.len();
                if n > 0 {
                    let ci = if cidx + 1 < n {
                        cidx + 1
                    } else {
                        n - 1
                    };
                    (Some((classes[ci].class@, ci as usize)), st)
                } else {
                    (sc, st)
                }
            },
        },
    }
}

/// Whether `(column, row)` lies in `area`; an empty area holds nothing.
pub open spec fn area_holds(area: Area, column: int, row: int) -> bool {
    area.width > 0 && area.height > 0 && area.x <= column < area.x + area.width && area.y <= row
        < area.y + area.height
}

/// Whether `(column, row)` lies in the timeline's area; see `area_holds`.
pub fn timeline_contains(area: Area, column: u16, row: u16) -> (r: bool)
    ensures
        r == area_holds(area, column as int, row as int),
{
    if area.width == 0 || area.height == 0 {
        return false;
    }
    column >= area.x && (column as u32) < area.x as u32 + area.width as u32 && row >= area.y
        && (row as u32) < area.y as u32 + area.height as u32
}

/// The title table's row count and selected row: the titles of the selected class and the
/// selected title, a class position beyond the classes giving no rows; with no class
/// selected, every (class, title) pair and no selection.
pub open spec fn title_rows(
    classes: Seq<Class>,
    pairs: nat,
    selected_class: Option<(String, usize)>,
    selected_title: Option<(String, usize)>,
) -> (nat, Option<usize>) {
    match selected_class {
        Some((_, ci)) => if ci < classes.len() {
            (
                classes[ci as int].titles@.len(),
                match selected_title {
                    Some((_, ti)) => Some(ti),
                    None => None,
                },
            )
        } else {
            (0, None)
        },
        None => (pairs, None),
    }
}

impl App {
    /// Scrolls the class and title tables, whose bodies hold `class_capacity` and
    /// `title_capacity` rows, so that the selected rows show; see `adjust_scroll`. With no
    /// class selected the (class, title) pairs are first brought in order, open logs
    /// measured up to `now`.
    pub fn prepare_tables_at(&mut self, class_capacity: usize, title_capacity: usize, now: u64)
        requires
            old(self).model.wf(),
        ensures
            final(self).model.wf(),
            final(self).model.classes == old(self).model.classes,
            final(self).model.logs == old(self).model.logs,
            old(self).selected_class is Some ==> final(self).model == old(self).model,
            old(self).selected_class is None ==> !final(self).model.titles_dirty,
            final(self).settings == old(self).settings,
            final(self).selected_class == old(self).selected_class,
            final(self).selected_title == old(self).selected_title,
            final(self).follow == old(self).follow,
            scroll_adjusted(
                old(self).class_scroll,
                final(self).class_scroll,
                match old(self).selected_class {
                    Some((_, i)) => Some(i),
                    None => None,
                },
                old(self).model.classes@.len() as usize,
                class_capacity,
            ),
            ({
                let (len, sel) = title_rows(
                    final(self).model.classes@,
                    final(self).model.titles@.len(),
                    old(self).selected_class,
                    old(self).selected_title,
                );
                scroll_adjusted(old(self).title_scroll, final(self).title_scroll, sel, len as usize, title_capacity)
            }),
    {
        let class_sel: Option<usize> = match &self.selected_class {
            Some((_, i)) => Some(*i),
            None => None,
        };
        let class_len = self.model.classes.len();
        adjust_scroll(&mut self.class_scroll, class_sel, class_len, class_capacity);
        if self.selected_class.is_none() {
            self.model.ensure_titles_sorted_at(now);
        }
        let (title_len, title_sel): (usize, Option<usize>) = match &self.selected_class {
            Some((_, ci)) => {
                if *ci < self.model.classes.len() {
                    let sel: Option<usize> = match &self.selected_title {
                        Some((_, ti)) => Some(*ti),
                        None => None,
                    };
                    (self.model.classes[*ci].titles.len(), sel)
                } else {
                    (0, None)
                }
            },
            None => (self.model.titles.len(), None),
        };
        adjust_scroll(&mut self.title_scroll, title_sel, title_len, title_capacity);
    }

    /// Scrolls both tables as `prepare_tables_at` does, open logs measured up to the
    /// present moment.
    pub fn prepare_tables(&mut self, class_capacity: usize, title_capacity: usize)
        requires
            old(self).model.wf(),
        ensures
            final(self).model.wf(),
            final(self).model.classes == old(self).model.classes,
            final(self).model.logs == old(self).model.logs,
            old(self).selected_class is Some ==> final(self).model == old(self).model,
            old(self).selected_class is None ==> !final(self).model.titles_dirty,
            final(self).settings == old(self).settings,
            final(self).selected_class == old(self).selected_class,
            final(self).selected_title == old(self).selected_title,
            final(self).follow == old(self).follow,
            scroll_adjusted(
                old(self).class_scroll,
                final(self).class_scroll,
                match old(self).selected_class {
                    Some((_, i)) => Some(i),
                    None => None,
                },
                old(self).model.classes@.len() as usize,
                class_capacity,
            ),
            ({
                let (len, sel) = title_rows(
                    final(self).model.classes@,
                    final(self).model.titles@.len(),
                    old(self).selected_class,
                    old(self).selected_title,
                );
                scroll_adjusted(old(self).title_scroll, final(self).title_scroll, sel, len as usize, title_capacity)
            }),
    {
        let now = utc_now_millis() as u64;
        self.prepare_tables_at(class_capacity, title_capacity, now);
    }
}

impl App {
    /// Builds the model afresh from `events` (see `build_model_at`), open logs measured up
    /// to `now`, drops the logs waiting to be added and clears the request for it. An event
    /// whose timestamp does not read stops this with an error.
    pub fn rebuild_model_at(&mut self, events: &Vec<(String, String, String)>, now: u64) -> (r: Result<
        (),
        BuildError,
    >)
        requires
            events.len() < usize::MAX,
        ensures
            final(self).model.wf(),
            final(self).settings == old(self).settings,
            final(self).selected_class == old(self).selected_class,
            final(self).selected_title == old(self).selected_title,
            final(self).follow == old(self).follow,
            ({
                let ev = events_view(events@);
                let mappings = old(self).settings.class_mappings@;
                let loaded = old(self).settings.loaded_interval;
                let all = events_logs(ev, mappings, loaded);
                &&& (r is Ok <==> read_events(ev, mappings, loaded).2 is None)
                &&& (r matches Err(BuildError::BadTimestamp(i)) ==> read_events(ev, mappings, loaded).2 == Some(
                    i as int,
                ))
                &&& (r is Ok ==> {
                    &&& final(self).model.logs.len() == all.len()
                    &&& forall|j: int| 0 <= j < all.len() ==> #[trigger] log_is(final(self).model.logs@, j, all[j])
                    &&& final(self).pending_logs@.len() == 0
                    &&& !final(self).needs_full_rebuild
                })
            }),
    {
        self.model = Model::new();
        let ghost base = self.model.logs.len() as int;
        let built = build_model_at(&mut self.model, events, &self.settings, &mut self.log_ids, now);
        match built {
            Ok(()) => {},
            Err(e) => {
                return Err(e);
            },
        }
        proof {
            let all = events_logs(events_view(events@), self.settings.class_mappings@, self.settings.loaded_interval);
            assert forall|j: int| 0 <= j < all.len() implies #[trigger] log_is(self.model.logs@, j, all[j]) by {
                assert(log_is(self.model.logs@, base + j, all[j]));
            }
        }
        self.pending_logs = Vec::new();
        self.needs_full_rebuild = false;
        Ok(())
    }

    /// Builds the model afresh as `rebuild_model_at` does, open logs measured up to the
    /// present moment.
    pub fn rebuild_model(&mut self, events: &Vec<(String, String, String)>) -> (r: Result<(), BuildError>)
        requires
            events.len() < usize::MAX,
        ensures
            final(self).model.wf(),
            final(self).settings == old(self).settings,
            final(self).selected_class == old(self).selected_class,
            final(self).selected_title == old(self).selected_title,
            final(self).follow == old(self).follow,
            ({
                let ev = events_view(events@);
                let mappings = old(self).settings.class_mappings@;
                let loaded = old(self).settings.loaded_interval;
                let all = events_logs(ev, mappings, loaded);
                &&& (r is Ok <==> read_events(ev, mappings, loaded).2 is None)
                &&& (r matches Err(BuildError::BadTimestamp(i)) ==> read_events(ev, mappings, loaded).2 == Some(
                    i as int,
                ))
                &&& (r is Ok ==> {
                    &&& final(self).model.logs.len() == all.len()
                    &&& forall|j: int| 0 <= j < all.len() ==> #[trigger] log_is(final(self).model.logs@, j, all[j])
                    &&& final(self).pending_logs@.len() == 0
                    &&& !final(self).needs_full_rebuild
                })
            }),
    {
        let now = utc_now_millis() as u64;
        self.rebuild_model_at(events, now)
    }

    /// Whether the instant `now` shows in the focused interval.
    pub fn now_is_visible_at(&self, now: u64) -> (r: bool)
        ensures
            r == now_shown(self.settings.focused_interval, now),
    {
        self.settings.focused_interval.contains_utc_timestamp_millis(now)
    }

    /// Adds the waiting logs to the model (unless it is to be built afresh), keeps it in
    /// order, brings the selection in line, follows the newest log, and shows the selected
    /// class; open logs are measured up to `now`.
    pub fn update_at(&mut self, now: u64)
        requires
            old(self).model.wf(),
            old(self).model.logs.len() + old(self).pending_logs.len() < usize::MAX,
        ensures
            final(self).model.wf(),
            !old(self).needs_full_rebuild ==> final(self).model.logs.len() == old(self).model.logs.len()
                + old(self).pending_logs.len() && final(self).pending_logs@.len() == 0,
            old(self).needs_full_rebuild ==> final(self).model.logs@ == old(self).model.logs@
                && final(self).pending_logs@ == old(self).pending_logs@,
            ({
                let (sc1, st1) = fixed_selection(
                    final(self).model.classes@,
                    sel_view(old(self).selected_class),
                    sel_view(old(self).selected_title),
                );
                (final(self).follow, sel_view(final(self).selected_class), sel_view(final(self).selected_title))
                    == followed(
                    final(self).model.classes@,
                    final(self).model.logs@,
                    old(self).follow,
                    now_shown(old(self).settings.focused_interval, now),
                    sc1,
                    st1,
                )
            }),
            final(self).settings.class_arg@ == match sel_view(final(self).selected_class) {
                Some((n, _)) => n,
                None => old(self).settings.class_arg@,
            },
            final(self).settings.focused_interval == old(self).settings.focused_interval,
            final(self).settings.full == old(self).settings.full,
            final(self).settings.multi_timeline == old(self).settings.multi_timeline,
            final(self).needs_full_rebuild == old(self).needs_full_rebuild,
            old(self).pending_logs@.len() == 0 ==> final(self).model.logs@ == old(self).model.logs@,
    {
        if !self.needs_full_rebuild {
            let ghost n0 = self.model.logs.len();
            let ghost p0 = self.pending_logs.len();
            let mut pending: Vec<Log> = Vec::new();
            std::mem::swap(&mut pending, &mut self.pending_logs);
            let mut k: usize = 0;
            while pending.len() > 0
                invariant
                    self.model.wf(),
                    self.model.logs.len() == n0 + k,
                    k + pending.len() == p0,
                    n0 + p0 < usize::MAX,
                    self.pending_logs@.len() == 0,
                    self.selected_class == old(self).selected_class,
                    self.selected_title == old(self).selected_title,
                    self.follow == old(self).follow,
                    self.settings == old(self).settings,
                    self.needs_full_rebuild == old(self).needs_full_rebuild,
                    p0 == 0 ==> self.model.logs@ == old(self).model.logs@,
                decreases pending.len(),
            {
                let log = pending.remove(0);
                self.model.add_log_at(log, false, &self.settings.focused_interval, now);
                k = k + 1;
            }
        }
        if self.model.logs.len() > 0 {
            let mut changed: Vec<usize> = Vec::new();
            changed.push(self.model.logs.len() - 1);
            self.model.maintain_order_at(changed, now);
        }
        self.fix_selection();
        let visible = self.now_is_visible_at(now);
        self.follow_newest(visible);
        match &self.selected_class {
            Some((c, _)) => {
                self.settings.class_arg = c.clone();
            },
            None => {},
        }
    }

    /// One update of the viewer once the interval change has been handled: builds the
    /// model afresh from `events` when that was asked for (see `rebuild_model_at`), then
    /// updates it as `update_at` does, and marks the focused interval as handled. An event
    /// whose timestamp does not read stops this with the error of `rebuild_model_at`.
    pub fn update_with_at(&mut self, events: &Vec<(String, String, String)>, now: u64) -> (r: Result<(), BuildError>)
        requires
            old(self).needs_full_rebuild ==> events.len() + 1 < usize::MAX,
            !old(self).needs_full_rebuild ==> old(self).model.wf() && old(self).model.logs.len()
                + old(self).pending_logs.len() < usize::MAX,
        ensures
            old(self).needs_full_rebuild ==> (r is Ok <==> read_events(
                events_view(events@),
                old(self).settings.class_mappings@,
                old(self).settings.loaded_interval,
            ).2 is None),
            !old(self).needs_full_rebuild ==> r is Ok,
            r is Ok ==> {
                &&& final(self).model.wf()
                &&& !final(self).needs_full_rebuild
                &&& final(self).pending_logs@.len() == 0
                &&& !final(self).settings.focused_interval.changed
                &&& final(self).settings.focused_interval.start == old(self).settings.focused_interval.start
                &&& final(self).settings.focused_interval.end == old(self).settings.focused_interval.end
                &&& !old(self).needs_full_rebuild ==> final(self).model.logs.len() == old(self).model.logs.len()
                    + old(self).pending_logs.len()
                &&& old(self).needs_full_rebuild ==> {
                    let all = events_logs(
                        events_view(events@),
                        old(self).settings.class_mappings@,
                        old(self).settings.loaded_interval,
                    );
                    &&& final(self).model.logs.len() == all.len()
                    &&& forall|j: int| 0 <= j < all.len() ==> #[trigger] log_is(final(self).model.logs@, j, all[j])
                }
                &&& ({
                    let (sc1, st1) = fixed_selection(
                        final(self).model.classes@,
                        sel_view(old(self).selected_class),
                        sel_view(old(self).selected_title),
                    );
                    (final(self).follow, sel_view(final(self).selected_class), sel_view(final(self).selected_title))
                        == followed(
                        final(self).model.classes@,
                        final(self).model.logs@,
                        old(self).follow,
                        now_shown(old(self).settings.focused_interval, now),
                        sc1,
                        st1,
                    )
                })
                &&& final(self).settings.class_arg@ == match sel_view(final(self).selected_class) {
                    Some((n, _)) => n,
                    None => old(self).settings.class_arg@,
                }
                &&& final(self).settings.full == old(self).settings.full
                &&& final(self).settings.multi_timeline == old(self).settings.multi_timeline
            },
    {
        if self.needs_full_rebuild {
            let r = self.rebuild_model_at(events, now);
            if r.is_err() {
                return r;
            }
            proof {
                lemma_events_logs_len(
                    events_view(events@),
                    old(self).settings.class_mappings@,
                    old(self).settings.loaded_interval,
                );
            }
        }
        let ghost m1 = self.model.logs@;
        self.update_at(now);
        proof {
            if old(self).needs_full_rebuild {
                assert(self.model.logs@ == m1);
            }
        }
        self.settings.focused_interval.changed = false;
        Ok(())
    }

    /// Acts on a key: `q` quits, `m` switches between one timeline and one per label, `f`
    /// switches following, the arrows move the selection (see `up_selection` and
    /// `down_selection`) or pan a day, and escape drops the title selection, or else the
    /// class selection.
    pub fn handle_key_event(&mut self, key: Key)
        ensures
            key == Key::Char('q') ==> final(self).should_quit,
            key != Key::Char('q') ==> final(self).should_quit == old(self).should_quit,
            key == Key::Char('m') ==> final(self).settings.multi_timeline == !old(self).settings.multi_timeline,
            key != Key::Char('m') ==> final(self).settings.multi_timeline == old(self).settings.multi_timeline,
            key == Key::Char('f') ==> final(self).follow == !old(self).follow && final(self).selected_title is None,
            key == Key::Up ==> (sel_view(final(self).selected_class), sel_view(final(self).selected_title)) == up_selection(
                old(self).model.classes@,
                sel_view(old(self).selected_class),
                sel_view(old(self).selected_title),
            ),
            key == Key::Down ==> (sel_view(final(self).selected_class), sel_view(final(self).selected_title)) == down_selection(
                old(self).model.classes@,
                sel_view(old(self).selected_class),
                sel_view(old(self).selected_title),
            ),
            key == Key::Esc ==> (if old(self).selected_title is Some {
                final(self).selected_title is None && final(self).title_scroll == 0 && final(self).selected_class
                    == old(self).selected_class
            } else if old(self).selected_class is Some {
                final(self).selected_class is None && final(self).settings.class_arg@ == Seq::<char>::empty()
                    && final(self).class_scroll == 0 && final(self).title_scroll == 0
            } else {
                final(self).selected_class is None && final(self).selected_title is None
            }),
            key == Key::Esc ==> (if old(self).selected_title is Some {
                *final(self) == (App { selected_title: None, title_scroll: 0, ..*old(self) })
            } else if old(self).selected_class is Some {
                *final(self) == (App {
                    selected_class: None,
                    class_scroll: 0,
                    title_scroll: 0,
                    settings: Settings { class_arg: final(self).settings.class_arg, ..old(self).settings },
                    ..*old(self)
                })
            } else {
                *final(self) == *old(self)
            }),
            key != Key::Left && key != Key::Right ==> final(self).settings.focused_interval == old(self).settings.focused_interval,
            final(self).model == old(self).model,
    {
        match key {
            Key::Char('q') => {
                self.should_quit = true;
            },
            Key::Char('m') => {
                self.settings.multi_timeline = !self.settings.multi_timeline;
            },
            Key::Char('f') => {
                let f = !self.follow;
                self.set_follow(f);
            },
            Key::Up => {
                self.move_up();
            },
            Key::Down => {
                self.move_down();
            },
            Key::Left => {
                self.settings.focused_interval.pan_days(1, false);
            },
            Key::Right => {
                self.settings.focused_interval.pan_days(1, true);
            },
            Key::Esc => {
                if self.selected_title.is_some() {
                    self.selected_title = None;
                    self.title_scroll = 0;
                } else if self.selected_class.is_some() {
                    self.selected_class = None;
                    self.settings.class_arg = String::new();
                    self.class_scroll = 0;
                    self.title_scroll = 0;
                }
            },
            _ => {},
        }
    }

    fn move_up(&mut self)
        ensures
            rest_same(*final(self), *old(self)),
            (sel_view(final(self).selected_class), sel_view(final(self).selected_title)) == up_selection(
                old(self).model.classes@,
                sel_view(old(self).selected_class),
                sel_view(old(self).selected_title),
            ),
            final(self).model == old(self).model,
            final(self).settings == old(self).settings,
            final(self).should_quit == old(self).should_quit,
    {
        let ghost expected = up_selection(self.model.classes@, sel_view(self.selected_class), sel_view(self.selected_title));
        match &self.selected_class {
            None => {
                if self.model.classes.len() > 0 {
                    let name = self.model.classes[0].class.clone();
                    self.selected_class = Some((name, 0));
                }
            },
            Some((cname, cidx)) => {
                let cidx = *cidx;
                match &self.selected_title {
                    Some((_, tidx)) => {
                        let tidx = *tidx;
                        if tidx > 0 {
                            match self.model.index_of(cname.as_str()) {
                                Some(ci) => {
                                    proof {
                                        crate::model::class_names(self.model.classes@).index_of_first_ensures(cname@);
                                        assert(self.model.classes@.len() == self.model.classes.len());
                                    }
                                    if tidx - 1 < self.model.classes[ci].titles.len() {
                                        let t = self.model.classes[ci].titles[tidx - 1].title.clone();
                                        self.selected_title = Some((t, tidx - 1));
                                    }
                                },
                                None => {},
                            }
                        }
                    },
                    None => {
                        if cidx > 0 && cidx - 1 < self.model.classes.len() {
                            let name = self.model.classes[cidx - 1].class.clone();
                            self.selected_class = Some((name, cidx - 1));
                        }
                    },
                }
            },
        }
    }

    fn move_down(&mut self)
        ensures
            rest_same(*final(self), *old(self)),
            (sel_view(final(self).selected_class), sel_view(final(self).selected_title)) == down_selection(
                old(self).model.classes@,
                sel_view(old(self).selected_class),
                sel_view(old(self).selected_title),
            ),
            final(self).model == old(self).model,
            final(self).settings == old(self).settings,
            final(self).should_quit == old(self).should_quit,
    {
        match &self.selected_class {
            None => {
                if self.model.classes.len() > 0 {
                    let name = self.model.classes[0].class.clone();
                    self.selected_class = Some((name, 0));
                }
            },
            Some((cname, cidx)) => {
                let cidx = *cidx;
                match &self.selected_title {
                    Some((_, tidx)) => {
                        let tidx = *tidx;
                        match self.model.index_of(cname.as_str()) {
                            Some(ci) => {
                                proof {
                                    crate::model::class_names(self.model.classes@).index_of_first_ensures(cname@);
                                    assert(self.model.classes@.len() == self.model.classes.len());
                                }
                                let n = self.model.classes[ci].titles.len();
                                if n > 0 {
                                    let ti = if tidx < n - 1 {
                                        tidx + 1
                                    } else {
                                        n - 1
                                    };
                                    let t = self.model.classes[ci].titles[ti].title.clone();
                                    self.selected_title = Some((t, ti));
                                }
                            },
                            None => {},
                        }
                    },
                    None => {
                        let n = self.model.classes.len();
                        if n > 0 {
                            let ci = if cidx < n - 1 {
                                cidx + 1
                            } else {
                                n - 1
                            };
                            let name = self.model.classes[ci].class.clone();
                            self.selected_class = Some((name, ci));
                        }
                    },
                }
            },
        }
    }

    /// Acts on the mouse: pressing the left button on the timeline starts a drag (anywhere
    /// else it ends one); dragging pans the interval the drag started from by the columns
    /// moved, each column worth the interval's width divided by the area's; releasing ends
    /// the drag.
    pub fn handle_mouse_event(&mut self, kind: MouseKind, column: u16, row: u16)
        ensures
            final(self).model == old(self).model,
            kind == MouseKind::LeftDown ==> (area_holds(old(self).timeline_area, column as int, row as int) <==> final(self).drag_state is Some),
            kind == MouseKind::LeftDown && final(self).drag_state is Some ==> (final(self).drag_state->0.start_col == column
                && final(self).drag_state->0.start_interval == old(self).settings.focused_interval
                && final(self).drag_state->0.area_width == old(self).timeline_area.width),
            kind == MouseKind::LeftUp ==> final(self).drag_state is None,
            kind != MouseKind::LeftDrag ==> final(self).settings.focused_interval == old(self).settings.focused_interval,
            kind == MouseKind::LeftDrag ==> final(self).drag_state == old(self).drag_state,
            kind == MouseKind::LeftDrag ==> match old(self).drag_state {
                Some(st) => match drag_delta(st, column) {
                    Some(d) => panned(st.start_interval, d, final(self).settings.focused_interval),
                    None => final(self).settings.focused_interval == old(self).settings.focused_interval,
                },
                None => final(self).settings.focused_interval == old(self).settings.focused_interval,
            },
    {
        match kind {
            MouseKind::LeftDown => {
                if timeline_contains(self.timeline_area, column, row) {
                    self.drag_state = Some(
                        DragState {
                            start_col: column,
                            start_interval: self.settings.focused_interval,
                            area_width: self.timeline_area.width,
                        },
                    );
                } else {
                    self.drag_state = None;
                }
            },
            MouseKind::LeftDrag => {
                match &self.drag_state {
                    Some(state) => {
                        if state.area_width > 0 {
                            let delta_cols: i64 = column as i64 - state.start_col as i64;
                            let interval_ms: i64 = state.start_interval.width() as i64;
                            let ms_per_column: i64 = interval_ms / state.area_width as i64;
                            if ms_per_column != 0 {
                                proof {
                                    assert(-65536 <= delta_cols <= 65536);
                                    assert(-(delta_cols as i128) * (ms_per_column as i128) <= 65536 * 0x8000_0000_0000_0000) by (nonlinear_arith)
                                        requires
                                            -65536 <= delta_cols <= 65536,
                                            i64::MIN <= ms_per_column <= i64::MAX,
                                    ;
                                    assert(-(delta_cols as i128) * (ms_per_column as i128) >= -65536 * 0x8000_0000_0000_0000) by (nonlinear_arith)
                                        requires
                                            -65536 <= delta_cols <= 65536,
                                            i64::MIN <= ms_per_column <= i64::MAX,
                                    ;
                                }
                                let delta: i128 = -(delta_cols as i128) * (ms_per_column as i128);
                                if i64::MIN as i128 <= delta && delta <= i64::MAX as i128 {
                                    let mut next = state.start_interval;
                                    next.pan_millis(delta as i64);
                                    self.settings.focused_interval = next;
                                }
                            }
                        }
                    },
                    None => {},
                }
            },
            MouseKind::LeftUp => {
                self.drag_state = None;
            },
            MouseKind::Other => {},
        }
    }
}

} // verus!
