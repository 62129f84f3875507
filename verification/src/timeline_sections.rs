//! The sections of a timeline: an interval cut into equal columns, each recording how much
//! logged time falls in it, which label leads it, and whether activity reaches its edges.
use vstd::prelude::*;

use crate::clock::utc_now_millis;
use crate::interval::Interval;
use crate::model::{class_position, title_position, Log, Model};
use crate::settings::Settings;
use crate::text::{concat, str_equal};
use crate::view::TimelineCharacter;

verus! {

/// A section as plain values: label, dominance, total, activity at the left and right
/// edges.
pub type SectionView = (Seq<char>, i64, i64, bool, bool);

/// The view of a section.
pub open spec fn section_view(t: TimelineCharacter) -> SectionView {
    (t.label@, t.dominance, t.total, t.activity_at_left_edge, t.activity_at_right_edge)
}

/// The views of sections.
pub open spec fn sections_view(ts: Seq<TimelineCharacter>) -> Seq<SectionView> {
    ts.map_values(|t: TimelineCharacter| section_view(t))
}

/// `x` held in an `i64`, saturating at its bounds.
pub open spec fn sat(x: int) -> i64 {
    if x > i64::MAX {
        i64::MAX
    } else if x < i64::MIN {
        i64::MIN
    } else {
        x as i64
    }
}

/// What a section records of `c` milliseconds of time labelled `key`: the total grows by
/// them; the leading label gains them when it is `key`, else loses them, and when it falls
/// below zero `key` leads instead by the difference. Edge flags, once set, stay set.
pub open spec fn apply_contribution(sec: SectionView, key: Seq<char>, c: int, left: bool, right: bool) -> SectionView {
    let total = sat(sec.2 + c);
    let l = sec.3 || left;
    let r = sec.4 || right;
    if sec.0 == key {
        (sec.0, sat(sec.1 + c), total, l, r)
    } else {
        let d = sat(sec.1 - c);
        if d < 0 {
            (key, sat(-d), total, l, r)
        } else {
            (sec.0, d, total, l, r)
        }
    }
}

/// The sections a log from `start` to `end` reaches: from the one holding `start` (the
/// first when it starts earlier) to the one holding `end`, within the `width` sections;
/// none when it ends before the first section or before it starts.
pub open spec fn reached(starting: int, ms: int, width: int, start: int, end: int) -> (int, int) {
    if end < start || end < starting {
        (0, 0)
    } else {
        let lo = if start < starting {
            0
        } else {
            (start - starting) / ms
        };
        let hi = (end - starting) / ms + 1;
        (
            if lo < width {
                lo
            } else {
                width
            },
            if hi < width {
                hi
            } else {
                width
            },
        )
    }
}

/// The sections after a log from `start` to `end` labelled `key` is recorded: each section
/// it reaches gets the time the log spends in it, and an edge flag where the log reaches
/// within a tenth of a section of that edge.
pub open spec fn assign_log(
    secs: Seq<SectionView>,
    starting: int,
    ms: int,
    start: int,
    end: int,
    key: Seq<char>,
) -> Seq<SectionView> {
    let (lo, hi) = reached(starting, ms, secs.len() as int, start, end);
    let pad = ms / 10;
    Seq::new(
        secs.len(),
        |i: int|
            if lo <= i < hi {
                let ss = starting + ms * i;
                let se = ss + ms;
                let c = ((if se < end {
                    se
                } else {
                    end
                }) - (if ss > start {
                    ss
                } else {
                    start
                })) as i64;
                apply_contribution(secs[i], key, c as int, ss + pad >= start, se - pad <= end)
            } else {
                secs[i]
            },
    )
}

/// The label a log is counted under: `"class: title"` when full, the class when no class
/// is chosen, else the title.
pub open spec fn log_key(full: bool, class_arg: Seq<char>, class: Seq<char>, title: Seq<char>) -> Seq<char> {
    if full {
        class + seq![':', ' '] + title
    } else if class_arg.len() == 0 {
        class
    } else {
        title
    }
}

/// Whether a log of `class` and `key` is drawn: in the timeline of `label` when there is
/// one per label, else when no class is chosen, when full, or when it is of the chosen
/// class.
pub open spec fn counted(
    multi: bool,
    label: Option<Seq<char>>,
    full: bool,
    class_arg: Seq<char>,
    class: Seq<char>,
    key: Seq<char>,
) -> bool {
    if multi {
        label == Some(key)
    } else {
        class_arg.len() == 0 || full || class_arg == class
    }
}

/// The logs a timeline draws from: for a label, the logs of that class (no class chosen)
/// or of that title of the chosen class; without one, the logs the focused interval holds
/// (no class chosen) or the logs of the chosen class.
pub open spec fn relevant_logs(m: Model, s: Settings, label: Option<Seq<char>>, now: u64) -> Seq<Log> {
    match label {
        Some(t) => if s.class_arg@.len() == 0 {
            match class_position(m.classes@, t) {
                Some(i) => m.classes@[i].logs@.map_values(|k: usize| m.logs@[k as int]),
                None => Seq::empty(),
            }
        } else {
            match class_position(m.classes@, s.class_arg@) {
                Some(i) => match title_position(m.classes@[i].titles@, t) {
                    Some(j) => m.classes@[i].titles@[j].logs@.map_values(|k: usize| m.logs@[k as int]),
                    None => Seq::empty(),
                },
                None => Seq::empty(),
            }
        },
        None => if s.class_arg@.len() == 0 {
            crate::model::logs_held(m.logs@, s.focused_interval, now)
        } else {
            match class_position(m.classes@, s.class_arg@) {
                Some(i) => m.classes@[i].logs@.map_values(|k: usize| m.logs@[k as int]),
                None => Seq::empty(),
            }
        },
    }
}

/// How many logs at the front of `logs` have ended.
pub open spec fn ended_prefix(logs: Seq<Log>) -> nat
    decreases logs.len(),
{
    if logs.len() == 0 || logs[0].end is None {
        0
    } else {
        1 + ended_prefix(logs.drop_first())
    }
}

/// The sections after every log of `logs` that counts is recorded, in order; each log must
/// have ended.
pub open spec fn assign_logs(
    secs: Seq<SectionView>,
    logs: Seq<Log>,
    starting: int,
    ms: int,
    s: Settings,
    label: Option<Seq<char>>,
) -> Seq<SectionView>
    decreases logs.len(),
{
    if logs.len() == 0 {
        secs
    } else {
        let prev = assign_logs(secs, logs.drop_last(), starting, ms, s, label);
        let l = logs.last();
        let key = log_key(s.full, s.class_arg@, l.class@, l.title@);
        if counted(s.multi_timeline, label, s.full, s.class_arg@, l.class@, key) {
            assign_log(prev, starting, ms, l.start as int, l.end->0 as int, key)
        } else {
            prev
        }
    }
}

/// A label as plain text.
pub open spec fn opt_label(l: Option<&String>) -> Option<Seq<char>> {
    match l {
        Some(t) => Some(t@),
        None => None,
    }
}

/// The empty section.
pub open spec fn empty_section() -> SectionView {
    (Seq::empty(), 0, 0, false, false)
}

/// The sections of a timeline `width` wide over `iv`, open logs measured up to `now`: the
/// ended logs at the front of the relevant logs are recorded in turn, then the model's
/// last log if it is still open.
pub open spec fn timeline_sections(
    m: Model,
    width: int,
    iv: Interval,
    s: Settings,
    label: Option<Seq<char>>,
    now: u64,
) -> Seq<SectionView> {
    let ms = (iv.end - iv.start) / width;
    let starting = iv.start as int;
    let logs = relevant_logs(m, s, label, now);
    let closed = assign_logs(
        Seq::new(width as nat, |i: int| empty_section()),
        logs.take(ended_prefix(logs) as int),
        starting,
        ms,
        s,
        label,
    );
    if m.logs.len() > 0 && m.logs@.last().end is None {
        let l = m.logs@.last();
        let key = log_key(s.full, s.class_arg@, l.class@, l.title@);
        if counted(s.multi_timeline, label, s.full, s.class_arg@, l.class@, key) {
            assign_log(closed, starting, ms, l.start as int, now as int, key)
        } else {
            closed
        }
    } else {
        closed
    }
}

/// The index of the section holding `timestamp`, on a timeline starting at `starting_ms`
/// with `ms_per_section` milliseconds per section.
pub fn section_index(starting_ms: u64, ms_per_section: u64, timestamp: u64) -> (r: u64)
    requires
        ms_per_section > 0,
        timestamp >= starting_ms,
    ensures
        r == (timestamp - starting_ms) / (ms_per_section as int),
{
    (timestamp - starting_ms) / ms_per_section
}

/// The label a log of `last_class` and `last_title` is counted under; see `log_key`.
pub fn key(settings: &Settings, last_class: &String, last_title: &String) -> (r: String)
    ensures
        r@ == log_key(settings.full, settings.class_arg@, last_class@, last_title@),
{
    if settings.full {
        let head = concat(last_class.as_str(), ": ");
        proof {
            reveal_strlit(": ");
        }
        concat(head.as_str(), last_title.as_str())
    } else if settings.class_arg.as_str().unicode_len() == 0 {
        last_class.clone()
    } else {
        last_title.clone()
    }
}

/// Records a log from `start` to `end` labelled `key` in `sections`; see `assign_log`.
fn assign_interval_to_section(
    start: u64,
    end: u64,
    key: &String,
    starting_ms: u64,
    ms_per_section: u64,
    sections: &mut Vec<TimelineCharacter>,
)
    requires
        ms_per_section > 0,
        starting_ms + ms_per_section * old(sections).len() <= u64::MAX,
    ensures
        final(sections)@.len() == old(sections)@.len(),
        sections_view(final(sections)@) == assign_log(
            sections_view(old(sections)@),
            starting_ms as int,
            ms_per_section as int,
            start as int,
            end as int,
            key@,
        ),
{
    let ghost s0 = sections_view(sections@);
    let width = sections.len();
    if end < start || end < starting_ms {
        proof {
            assert(sections_view(sections@) =~= assign_log(s0, starting_ms as int, ms_per_section as int, start as int, end as int, key@));
        }
        return;
    }
    let lo0: u64 = if start < starting_ms {
        0
    } else {
        section_index(starting_ms, ms_per_section, start)
    };
    let last_index: u64 = section_index(starting_ms, ms_per_section, end);
    let lo: usize = if lo0 < width as u64 {
        lo0 as usize
    } else {
        width
    };
    let hi: usize = if last_index < width as u64 {
        last_index as usize + 1
    } else {
        width
    };
    let pad = ms_per_section / 10;
    let ghost (slo, shi) = reached(starting_ms as int, ms_per_section as int, width as int, start as int, end as int);
    assert(slo == lo && shi == hi);
    assert(s0.len() == width);
    let mut i: usize = lo;
    while i < hi
        invariant
            lo <= i <= hi || hi < lo,
            lo <= i,
            hi <= width,
            width == sections.len(),
            ms_per_section > 0,
            starting_ms + ms_per_section * width <= u64::MAX,
            pad == ms_per_section / 10,
            end >= start,
            end >= starting_ms,
            slo == lo,
            shi == hi,
            s0.len() == width,
            (slo, shi) == reached(starting_ms as int, ms_per_section as int, width as int, start as int, end as int),
            hi <= (end - starting_ms) / (ms_per_section as int) + 1,
            start >= starting_ms ==> (lo == width || lo == (start - starting_ms) / (ms_per_section as int)),
            forall|j: int|
                0 <= j < width ==> #[trigger] sections_view(sections@)[j] == if lo <= j < i {
                    assign_log(s0, starting_ms as int, ms_per_section as int, start as int, end as int, key@)[j]
                } else {
                    s0[j]
                },
        decreases hi - i,
    {
        proof {
            assert(ms_per_section * i <= ms_per_section * width) by (nonlinear_arith)
                requires
                    i < width,
                    ms_per_section > 0,
            ;
            assert(ms_per_section * i >= (i - lo) * ms_per_section + lo * ms_per_section) by (nonlinear_arith)
                requires
                    i >= lo,
            ;
            assert(ms_per_section * (i + 1) == ms_per_section * i + ms_per_section) by (nonlinear_arith);
            assert(ms_per_section * (i + 1) <= ms_per_section * width) by (nonlinear_arith)
                requires
                    i < width,
                    ms_per_section > 0,
            ;
        }
        let section_start = starting_ms + ms_per_section * i as u64;
        let section_end = section_start + ms_per_section;
        proof {
            lemma_section_bounds(starting_ms as int, ms_per_section as int, start as int, end as int, i as int, lo as int, hi as int);
        }
        let upper = if section_end < end {
            section_end
        } else {
            end
        };
        let lower = if section_start > start {
            section_start
        } else {
            start
        };
        let contribution: i64 = (upper - lower) as i64;
        let left = section_start + pad >= start;
        let right = section_end - pad <= end;
        let ghost before = sections@;
        let mut sec = replace_section(sections, i);
        let ghost sv = section_view(sec);
        if left {
            sec.activity_at_left_edge = true;
        }
        if right {
            sec.activity_at_right_edge = true;
        }
        sec.total = sat_i64(sec.total as i128 + contribution as i128);
        if str_equal(sec.label.as_str(), key.as_str()) {
            sec.dominance = sat_i64(sec.dominance as i128 + contribution as i128);
        } else {
            sec.dominance = sat_i64(sec.dominance as i128 - contribution as i128);
            if sec.dominance < 0 {
                sec.label = key.clone();
                sec.dominance = sat_i64(-(sec.dominance as i128));
            }
        }
        proof {
            assert(section_view(sec) == apply_contribution(sv, key@, contribution as int, left, right));
        }
        sections.set(i, sec);
        proof {
            assert(sections@ =~= before.update(i as int, sec));
            assert(sections_view(before)[i as int] == s0[i as int]);
            assert(sv == s0[i as int]);
            let al = assign_log(s0, starting_ms as int, ms_per_section as int, start as int, end as int, key@);
            assert(s0.len() == width);
            assert(section_start as int == starting_ms + ms_per_section * i);
            assert(section_end as int == section_start + ms_per_section);
            assert(reached(starting_ms as int, ms_per_section as int, s0.len() as int, start as int, end as int) == (lo as int, hi as int));
            assert(pad as int == (ms_per_section as int) / 10);
            assert(al[i as int] == section_view(sec));
            assert forall|j: int| 0 <= j < width implies #[trigger] sections_view(sections@)[j] == if lo <= j < i + 1 {
                assign_log(s0, starting_ms as int, ms_per_section as int, start as int, end as int, key@)[j]
            } else {
                s0[j]
            } by {
                if j != i {
                    assert(sections@[j] == before[j]);
                    assert(sections_view(sections@)[j] == sections_view(before)[j]);
                } else {
                    assert(sections_view(sections@)[j] == section_view(sec));
                }
            }
        }
        i = i + 1;
    }
    proof {
        assert(sections_view(sections@) =~= assign_log(s0, starting_ms as int, ms_per_section as int, start as int, end as int, key@));
    }
}

/// The bounds of a reached section: it lies within the timeline, the log spends between
/// zero and one section in it.
proof fn lemma_section_bounds(starting: int, ms: int, start: int, end: int, i: int, lo: int, hi: int)
    requires
        ms > 0,
        start <= end,
        starting <= end,
        lo == (if start < starting {
            0
        } else {
            (start - starting) / ms
        }) || lo >= 0,
        lo <= i < hi,
        i <= (end - starting) / ms,
        start < starting || (start - starting) / ms <= i,
    ensures
        starting + ms * i <= end,
        starting + ms * i + ms > start,
{
    assert(ms * ((end - starting) / ms) <= end - starting) by (nonlinear_arith)
        requires
            ms > 0,
            end - starting >= 0,
    ;
    assert(ms * i <= ms * ((end - starting) / ms)) by (nonlinear_arith)
        requires
            ms > 0,
            i <= (end - starting) / ms,
    ;
    if start >= starting {
        assert(ms * ((start - starting) / ms) + ms > start - starting) by (nonlinear_arith)
            requires
                ms > 0,
                start - starting >= 0,
        ;
        assert(ms * i >= ms * ((start - starting) / ms)) by (nonlinear_arith)
            requires
                ms > 0,
                (start - starting) / ms <= i,
        ;
    }
}

/// `x` held in an `i64`, saturating at its bounds; see `sat`.
fn sat_i64(x: i128) -> (r: i64)
    ensures
        r == sat(x as int),
{
    if x > i64::MAX as i128 {
        i64::MAX
    } else if x < i64::MIN as i128 {
        i64::MIN
    } else {
        x as i64
    }
}

/// Takes the section at `i` out, leaving an empty one in its place.
fn replace_section(sections: &mut Vec<TimelineCharacter>, i: usize) -> (r: TimelineCharacter)
    requires
        i < old(sections).len(),
    ensures
        r == old(sections)@[i as int],
        final(sections)@.len() == old(sections)@.len(),
        forall|j: int| 0 <= j < old(sections)@.len() && j != i ==> final(sections)@[j] == old(sections)@[j],
{
    let blank = TimelineCharacter {
        label: String::new(),
        dominance: 0,
        total: 0,
        activity_at_left_edge: false,
        activity_at_right_edge: false,
    };
    let mut out = blank;
    sections.set_and_swap(i, &mut out);
    out
}

/// The logs a timeline draws from, as references into the model; see `relevant_logs`.
pub fn get_relevant_logs<'a>(model: &'a Model, settings: &'a Settings, title: Option<&'a String>, now: u64) -> (r:
    Vec<&'a Log>)
    requires
        model.wf(),
    ensures
        r@.map_values(|l: &Log| *l) == relevant_logs(
            *model,
            *settings,
            opt_label(title),
            now,
        ),
{
    let no_class = settings.class_arg.as_str().unicode_len() == 0;
    match title {
        Some(title_str) => {
            if no_class {
                match model.get_class(title_str) {
                    Some(class) => {
                        proof {
                            crate::model::class_names(model.classes@).index_of_first_ensures(title_str@);
                            let ci = class_position(model.classes@, title_str@)->0;
                            assert(crate::model::class_ok(model.logs@, model.mapped@, model.classes@[ci]));
                        }
                        let r = class.iter_logs(&model.logs);
                        proof {
                            assert(r@.map_values(|l: &Log| *l) =~= class.logs@.map_values(|k: usize| model.logs@[k as int]));
                        }
                        r
                    },
                    None => Vec::new(),
                }
            } else {
                match model.get_title(&settings.class_arg, title_str) {
                    Some(title_obj) => {
                        proof {
                            crate::model::class_names(model.classes@).index_of_first_ensures(settings.class_arg@);
                            let ci = class_position(model.classes@, settings.class_arg@)->0;
                            let c = model.classes@[ci];
                            crate::model::title_names(c.titles@).index_of_first_ensures(title_str@);
                            let tj = title_position(c.titles@, title_str@)->0;
                            assert(crate::model::class_ok(model.logs@, model.mapped@, c));
                            assert(crate::model::title_ok(model.logs@, c.logs@, c.titles@[tj]));
                        }
                        let mut r: Vec<&'a Log> = Vec::new();
                        let mut i: usize = 0;
                        while i < title_obj.logs.len()
                            invariant
                                i <= title_obj.logs.len(),
                                forall|q: int| 0 <= q < title_obj.logs.len() ==> #[trigger] title_obj.logs@[q] < model.logs.len(),
                                r@.map_values(|l: &Log| *l) == title_obj.logs@.take(i as int).map_values(|k: usize| model.logs@[k as int]),
                            decreases title_obj.logs.len() - i,
                        {
                            let k = title_obj.logs[i];
                            let ghost prev = r@;
                            r.push(&model.logs[k]);
                            proof {
                                assert(r@.map_values(|l: &Log| *l) =~= prev.map_values(|l: &Log| *l).push(model.logs@[k as int]));
                                assert(title_obj.logs@.take(i + 1).map_values(|k: usize| model.logs@[k as int]) =~= title_obj.logs@.take(i as int).map_values(|k: usize| model.logs@[k as int]).push(model.logs@[k as int]));
                                assert(r@.map_values(|l: &Log| *l) =~= title_obj.logs@.take(i + 1).map_values(|k: usize| model.logs@[k as int]));
                            }
                            i = i + 1;
                        }
                        proof {
                            assert(title_obj.logs@.take(title_obj.logs.len() as int) =~= title_obj.logs@);
                        }
                        r
                    },
                    None => Vec::new(),
                }
            }
        },
        None => {
            if no_class {
                model.logs_iter_at(&settings.focused_interval, now)
            } else {
                match model.get_class(&settings.class_arg) {
                    Some(class) => {
                        proof {
                            crate::model::class_names(model.classes@).index_of_first_ensures(settings.class_arg@);
                            let ci = class_position(model.classes@, settings.class_arg@)->0;
                            assert(crate::model::class_ok(model.logs@, model.mapped@, model.classes@[ci]));
                        }
                        let r = class.iter_logs(&model.logs);
                        proof {
                            assert(r@.map_values(|l: &Log| *l) =~= class.logs@.map_values(|k: usize| model.logs@[k as int]));
                        }
                        r
                    },
                    None => Vec::new(),
                }
            }
        },
    }
}

/// Whether a log of `class` and `key` is drawn; see `counted`.
fn log_counts(settings: &Settings, label: Option<&String>, class: &String, key: &String) -> (r: bool)
    ensures
        r == counted(
            settings.multi_timeline,
            opt_label(label),
            settings.full,
            settings.class_arg@,
            class@,
            key@,
        ),
{
    if settings.multi_timeline {
        match label {
            Some(l) => str_equal(l.as_str(), key.as_str()),
            None => false,
        }
    } else {
        settings.class_arg.as_str().unicode_len() == 0 || settings.full || str_equal(
            settings.class_arg.as_str(),
            class.as_str(),
        )
    }
}

/// The sections of a timeline `width` wide over `interval`, open logs measured up to
/// `now`; see `timeline_sections`.
pub fn timeline_for_interval_at(
    model: &Model,
    width: usize,
    interval: &Interval,
    settings: &Settings,
    label: Option<&String>,
    now: u64,
) -> (r: Vec<TimelineCharacter>)
    requires
        model.wf(),
        width > 0,
        0 <= interval.start,
        interval.end - interval.start >= width,
    ensures
        sections_view(r@) == timeline_sections(
            *model,
            width as int,
            *interval,
            *settings,
            opt_label(label),
            now,
        ),
{
    let ghost lv = opt_label(label);
    let ms = interval.width() / width as u64;
    let starting = interval.start as u64;
    proof {
        assert(ms * width <= interval.end - interval.start) by (nonlinear_arith)
            requires
                ms == (interval.end - interval.start) / (width as int),
                width > 0,
                interval.end - interval.start >= 0,
        ;
        assert(ms >= 1) by (nonlinear_arith)
            requires
                ms == (interval.end - interval.start) / (width as int),
                width > 0,
                interval.end - interval.start >= width,
        ;
    }
    let mut sections: Vec<TimelineCharacter> = Vec::new();
    let mut k: usize = 0;
    while k < width
        invariant
            k <= width,
            sections@.len() == k,
            sections_view(sections@) == Seq::new(k as nat, |i: int| empty_section()),
        decreases width - k,
    {
        let ghost prev = sections@;
        sections.push(
            TimelineCharacter {
                label: String::new(),
                dominance: 0,
                total: 0,
                activity_at_left_edge: false,
                activity_at_right_edge: false,
            },
        );
        proof {
            assert(sections_view(sections@) =~= Seq::new((k + 1) as nat, |i: int| empty_section())) by {
                assert forall|j: int| 0 <= j < k + 1 implies #[trigger] sections_view(sections@)[j] == empty_section() by {
                    if j < k {
                        assert(sections@[j] == prev[j]);
                        assert(sections_view(prev)[j] == empty_section());
                    }
                }
            }
        }
        k = k + 1;
    }
    let ghost init = sections_view(sections@);
    let logs = get_relevant_logs(model, settings, label, now);
    let ghost ls = logs@.map_values(|l: &Log| *l);
    let mut n: usize = 0;
    proof {
        assert(ls.subrange(0, ls.len() as int) =~= ls);
    }
    while n < logs.len() && logs[n].end.is_some()
        invariant
            n <= logs.len(),
            ls == logs@.map_values(|l: &Log| *l),
            ended_prefix(ls) == n + ended_prefix(ls.subrange(n as int, ls.len() as int)),
            forall|q: int| 0 <= q < n ==> (#[trigger] ls[q]).end is Some,
        decreases logs.len() - n,
    {
        proof {
            let rest = ls.subrange(n as int, ls.len() as int);
            assert(rest.drop_first() =~= ls.subrange(n + 1, ls.len() as int));
        }
        n = n + 1;
    }
    proof {
        assert(ended_prefix(ls.subrange(n as int, ls.len() as int)) == 0);
    }
    let mut i: usize = 0;
    while i < n
        invariant
            i <= n <= logs.len(),
            ls == logs@.map_values(|l: &Log| *l),
            forall|q: int| 0 <= q < n ==> (#[trigger] ls[q]).end is Some,
            sections.len() == width,
            ms >= 1,
            starting + ms * width <= u64::MAX,
            starting == interval.start,
            ms == (interval.end - interval.start) / (width as int),
            sections_view(sections@) == assign_logs(init, ls.take(i as int), starting as int, ms as int, *settings, lv),
            lv == opt_label(label),
        decreases n - i,
    {
        let log = logs[i];
        let end = match log.end {
            Some(e) => e,
            None => 0,
        };
        let k = key(settings, &log.class, &log.title);
        proof {
            assert(ls.take(i + 1).drop_last() =~= ls.take(i as int));
            assert(ls.take(i + 1).last() == *log);
        }
        if log_counts(settings, label, &log.class, &k) {
            assign_interval_to_section(log.start, end, &k, starting, ms, &mut sections);
        }
        i = i + 1;
    }
    if model.logs.len() > 0 {
        let last = &model.logs[model.logs.len() - 1];
        assert(*last == model.logs@.last());
        if last.end.is_none() {
            let k = key(settings, &last.class, &last.title);
            if log_counts(settings, label, &last.class, &k) {
                assign_interval_to_section(last.start, now, &k, starting, ms, &mut sections);
            }
        }
    }
    sections
}

/// The sections of the focused interval, `width` wide, open logs measured up to `now`.
pub fn timeline_at(model: &Model, width: usize, settings: &Settings, title: Option<&String>, now: u64) -> (r: Vec<
    TimelineCharacter,
>)
    requires
        model.wf(),
        width > 0,
        0 <= settings.focused_interval.start,
        settings.focused_interval.end - settings.focused_interval.start >= width,
    ensures
        sections_view(r@) == timeline_sections(
            *model,
            width as int,
            settings.focused_interval,
            *settings,
            opt_label(title),
            now,
        ),
{
    timeline_for_interval_at(model, width, &settings.focused_interval, settings, title, now)
}

/// The sections of the focused interval, `width` wide, open logs measured up to the
/// present moment.
pub fn timeline(model: &Model, width: usize, settings: &Settings, title: Option<&String>) -> (r: Vec<
    TimelineCharacter,
>)
    requires
        model.wf(),
        width > 0,
        0 <= settings.focused_interval.start,
        settings.focused_interval.end - settings.focused_interval.start >= width,
    ensures
        exists|now: u64|
            sections_view(r@) == #[trigger] timeline_sections(
                *model,
                width as int,
                settings.focused_interval,
                *settings,
                opt_label(title),
                now,
            ),
{
    let now = utc_now_millis() as u64;
    timeline_at(model, width, settings, title, now)
}

/// A section is reached by a log exactly when it starts no later than the log ends and
/// ends after the log starts (the log not ending before it starts).
proof fn lemma_reached_iff(starting: int, ms: int, width: int, start: int, end: int, i: int)
    requires
        ms > 0,
        0 <= i < width,
    ensures
        ({
            let (lo, hi) = reached(starting, ms, width, start, end);
            (lo <= i < hi) <==> (start <= end && starting + ms * i <= end && starting + ms * (i + 1)
                > start)
        }),
{
    let (lo, hi) = reached(starting, ms, width, start, end);
    if end < start || end < starting {
        if start <= end && starting + ms * i <= end {
            assert(ms * i >= 0) by (nonlinear_arith)
                requires
                    ms > 0,
                    i >= 0,
            ;
        }
    } else {
        let q = (end - starting) / ms;
        assert(ms * q <= end - starting < ms * (q + 1)) by (nonlinear_arith)
            requires
                ms > 0,
                end - starting >= 0,
                q == (end - starting) / ms,
        ;
        assert((i <= q) <==> (ms * i <= end - starting)) by (nonlinear_arith)
            requires
                ms > 0,
                ms * q <= end - starting < ms * (q + 1),
        ;
        if start >= starting {
            let p = (start - starting) / ms;
            assert(ms * p <= start - starting < ms * (p + 1)) by (nonlinear_arith)
                requires
                    ms > 0,
                    start - starting >= 0,
                    p == (start - starting) / ms,
            ;
            assert((i >= p) <==> (ms * (i + 1) > start - starting)) by (nonlinear_arith)
                requires
                    ms > 0,
                    ms * p <= start - starting < ms * (p + 1),
            ;
        } else {
            assert(ms * (i + 1) > 0) by (nonlinear_arith)
                requires
                    ms > 0,
                    i >= 0,
            ;
        }
    }
}

/// Recording a log on a run of sections that lines up, `off` sections in, with a longer
/// run records the same on each section.
proof fn lemma_assign_log_shift(
    seg: Seq<SectionView>,
    full: Seq<SectionView>,
    starting: int,
    ms: int,
    off: int,
    start: int,
    end: int,
    key: Seq<char>,
)
    requires
        ms > 0,
        0 <= off,
        off + seg.len() <= full.len(),
        forall|i: int| 0 <= i < seg.len() ==> seg[i] == full[off + i],
    ensures
        ({
            let s2 = assign_log(seg, starting + ms * off, ms, start, end, key);
            let f2 = assign_log(full, starting, ms, start, end, key);
            &&& s2.len() == seg.len()
            &&& f2.len() == full.len()
            &&& forall|i: int| 0 <= i < seg.len() ==> s2[i] == f2[off + i]
        }),
{
    let s2 = assign_log(seg, starting + ms * off, ms, start, end, key);
    let f2 = assign_log(full, starting, ms, start, end, key);
    assert forall|i: int| 0 <= i < seg.len() implies s2[i] == f2[off + i] by {
        lemma_reached_iff(starting + ms * off, ms, seg.len() as int, start, end, i);
        lemma_reached_iff(starting, ms, full.len() as int, start, end, off + i);
        assert(starting + ms * off + ms * i == starting + ms * (off + i)) by (nonlinear_arith);
        assert(starting + ms * off + ms * (i + 1) == starting + ms * (off + i + 1)) by (nonlinear_arith);
        assert(ms * (off + i) + ms == ms * (off + i + 1)) by (nonlinear_arith);
        assert(ms * i + ms == ms * (i + 1)) by (nonlinear_arith);
    }
}

/// Recording the same logs on a run of sections that lines up with a longer run records
/// the same on each section.
proof fn lemma_assign_logs_shift(
    seg: Seq<SectionView>,
    full: Seq<SectionView>,
    logs: Seq<Log>,
    starting: int,
    ms: int,
    off: int,
    s: Settings,
    label: Option<Seq<char>>,
)
    requires
        ms > 0,
        0 <= off,
        off + seg.len() <= full.len(),
        forall|i: int| 0 <= i < seg.len() ==> seg[i] == full[off + i],
    ensures
        ({
            let s2 = assign_logs(seg, logs, starting + ms * off, ms, s, label);
            let f2 = assign_logs(full, logs, starting, ms, s, label);
            &&& s2.len() == seg.len()
            &&& f2.len() == full.len()
            &&& forall|i: int| 0 <= i < seg.len() ==> s2[i] == f2[off + i]
        }),
    decreases logs.len(),
{
    if logs.len() > 0 {
        lemma_assign_logs_shift(seg, full, logs.drop_last(), starting, ms, off, s, label);
        let ps = assign_logs(seg, logs.drop_last(), starting + ms * off, ms, s, label);
        let pf = assign_logs(full, logs.drop_last(), starting, ms, s, label);
        let l = logs.last();
        let key = log_key(s.full, s.class_arg@, l.class@, l.title@);
        lemma_assign_log_shift(ps, pf, starting, ms, off, l.start as int, l.end->0 as int, key);
    }
}

/// The sections of a piece of a timeline are those of the whole timeline at the same
/// places: a run of `w` sections starting `off` sections into a timeline `width` wide, at
/// the same scale, holds what the whole one holds there.
pub proof fn lemma_sections_shift(
    m: Model,
    width: int,
    iv: Interval,
    piece: Interval,
    off: int,
    w: int,
    s: Settings,
    label: Option<Seq<char>>,
    now: u64,
)
    requires
        width > 0,
        w > 0,
        0 <= off,
        off + w <= width,
        iv.end - iv.start >= width,
        piece.start == iv.start + (iv.end - iv.start) / width * off,
        piece.end == piece.start + (iv.end - iv.start) / width * w,
    ensures
        ({
            let whole = timeline_sections(m, width, iv, s, label, now);
            let part = timeline_sections(m, w, piece, s, label, now);
            &&& part.len() == w
            &&& whole.len() == width
            &&& forall|i: int| 0 <= i < w ==> part[i] == whole[off + i]
        }),
{
    let ms = (iv.end - iv.start) / width;
    assert(ms >= 1) by (nonlinear_arith)
        requires
            width > 0,
            iv.end - iv.start >= width,
            ms == (iv.end - iv.start) / width,
    ;
    assert((piece.end - piece.start) / w == ms) by (nonlinear_arith)
        requires
            w > 0,
            piece.end - piece.start == ms * w,
    ;
    assert(piece.start == iv.start + ms * off) by (nonlinear_arith)
        requires
            piece.start == iv.start + (iv.end - iv.start) / width * off,
            ms == (iv.end - iv.start) / width,
    ;
    let logs = relevant_logs(m, s, label, now);
    let closed_logs = logs.take(ended_prefix(logs) as int);
    let e_seg = Seq::new(w as nat, |i: int| empty_section());
    let e_full = Seq::new(width as nat, |i: int| empty_section());
    lemma_assign_logs_shift(e_seg, e_full, closed_logs, iv.start as int, ms, off, s, label);
    if m.logs.len() > 0 && m.logs@.last().end is None {
        let l = m.logs@.last();
        let key = log_key(s.full, s.class_arg@, l.class@, l.title@);
        let cs = assign_logs(e_seg, closed_logs, iv.start + ms * off, ms, s, label);
        let cf = assign_logs(e_full, closed_logs, iv.start as int, ms, s, label);
        lemma_assign_log_shift(cs, cf, iv.start as int, ms, off, l.start as int, now as int, key);
    }
}


/// A label whose time in a section is less than or equal to what the leading label is
/// ahead by does not take the lead: the leader stays and is ahead by `d - c`.
pub proof fn lemma_newcomer_short_of_lead(sec: SectionView, key: Seq<char>, c: int, left: bool, right: bool)
    requires
        key != sec.0,
        0 <= c <= sec.1,
    ensures
        apply_contribution(sec, key, c, left, right).0 == sec.0,
        apply_contribution(sec, key, c, left, right).1 == sec.1 - c,
{
}

/// A label whose time in a section is more than the leading label is ahead by takes the
/// lead, ahead by the difference; the leader's own time adds to its lead.
pub proof fn lemma_newcomer_overtakes(sec: SectionView, key: Seq<char>, c: int, left: bool, right: bool)
    requires
        0 <= sec.1,
        0 <= c <= i64::MAX,
    ensures
        key != sec.0 && c > sec.1 ==> apply_contribution(sec, key, c, left, right).0 == key
            && apply_contribution(sec, key, c, left, right).1 == c - sec.1,
        key == sec.0 && sec.1 + c <= i64::MAX ==> apply_contribution(sec, key, c, left, right).0 == key
            && apply_contribution(sec, key, c, left, right).1 == sec.1 + c,
        apply_contribution(sec, key, c, left, right).2 == sat(sec.2 + c),
{
}

/// A section after the times `cs` (label, milliseconds) are recorded in turn.
pub open spec fn record_times(sec: SectionView, cs: Seq<(Seq<char>, int)>) -> SectionView
    decreases cs.len(),
{
    if cs.len() == 0 {
        sec
    } else {
        apply_contribution(record_times(sec, cs.drop_last()), cs.last().0, cs.last().1, false, false)
    }
}

/// The time recorded under `key` in `cs`.
pub open spec fn time_of(cs: Seq<(Seq<char>, int)>, key: Seq<char>) -> int
    decreases cs.len(),
{
    if cs.len() == 0 {
        0
    } else {
        time_of(cs.drop_last(), key) + if cs.last().0 == key {
            cs.last().1
        } else {
            0
        }
    }
}

/// All the time recorded in `cs`.
pub open spec fn time_total(cs: Seq<(Seq<char>, int)>) -> int
    decreases cs.len(),
{
    if cs.len() == 0 {
        0
    } else {
        time_total(cs.drop_last()) + cs.last().1
    }
}

/// How far `key` is ahead in a section: the lead when it leads, less the leader's lead
/// otherwise.
pub open spec fn lead_of(sec: SectionView, key: Seq<char>) -> int {
    if sec.0 == key {
        sec.1 as int
    } else {
        -sec.1
    }
}

proof fn lemma_lead_bound(sec: SectionView, cs: Seq<(Seq<char>, int)>, key: Seq<char>)
    requires
        sec.1 == 0,
        forall|i: int| 0 <= i < cs.len() ==> (#[trigger] cs[i]).1 >= 0,
        time_total(cs) <= i64::MAX,
    ensures
        0 <= record_times(sec, cs).1 <= time_total(cs),
        lead_of(record_times(sec, cs), key) >= time_of(cs, key) - (time_total(cs) - time_of(cs, key)),
        0 <= time_of(cs, key) <= time_total(cs),
    decreases cs.len(),
{
    if cs.len() > 0 {
        let p = cs.drop_last();
        assert forall|i: int| 0 <= i < p.len() implies (#[trigger] p[i]).1 >= 0 by {
            assert(p[i] == cs[i]);
        }
        assert(cs.last().1 >= 0);
        lemma_lead_bound(sec, p, key);
    }
}

/// A label that has more than half of the time recorded in a section leads it, whatever
/// the order in which the times came: the leader is never simply the last label seen.
pub proof fn lemma_majority_leads(sec: SectionView, cs: Seq<(Seq<char>, int)>, key: Seq<char>)
    requires
        sec.1 == 0,
        forall|i: int| 0 <= i < cs.len() ==> (#[trigger] cs[i]).1 >= 0,
        time_total(cs) <= i64::MAX,
        2 * time_of(cs, key) > time_total(cs),
    ensures
        record_times(sec, cs).0 == key,
{
    lemma_lead_bound(sec, cs, key);
}
} // verus!
