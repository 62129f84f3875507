//! The timelines as drawn: runs of characters in one style for the single timeline, and
//! one coloured row per label when there is one timeline per label.
use vstd::prelude::*;

use crate::clock::utc_now_millis;
use crate::materialize::{materialize_multi_timeline_at, materialize_single_timeline_at, materialized, bucket_or_empty, texts};
use crate::model::Model;
use crate::settings::Settings;
use crate::text::{chars_of, concat, push_char};
use crate::timeline_cache::{bucket_keys, key_view, TimelineCache, TimelineCacheEntry, TimelineCacheKey, TimelineMode};
use crate::view::{
    color_for, color_from_index, color_in, color_of, multi_dynamic, multi_label_has_dynamic_open_log,
    multi_mode, pairs_view, single_mode, Color,
};

verus! {

/// How a run of a timeline is drawn: blank (bold white, for time with no label) or in a
/// colour.
#[derive(PartialEq, Eq, Structural, Clone, Copy, Debug)]
pub enum RunStyle {
    Blank,
    Colored(Color),
}

/// The label of column `i`: the timeline's own label when there is one, else the section's
/// label (empty past the end of the labels).
pub open spec fn column_label(labels: Seq<Seq<char>>, own: Option<Seq<char>>, i: int) -> Seq<char> {
    match own {
        Some(l) => l,
        None => if i < labels.len() {
            labels[i]
        } else {
            Seq::empty()
        },
    }
}

/// What column `i` is drawn as: a blank in the blank style where its label's colour is
/// black, else its character in its label's colour.
pub open spec fn cell(chars: Seq<char>, labels: Seq<Seq<char>>, colors: Seq<(Seq<char>, Color)>, own: Option<Seq<char>>, i: int) -> (
    char,
    RunStyle,
) {
    let c = color_in(colors, column_label(labels, own, i));
    if c == Color::Black {
        (' ', RunStyle::Blank)
    } else {
        (chars[i], RunStyle::Colored(c))
    }
}

/// Cells grouped into runs of one style, in order: each cell joins the run before it when
/// the style is the same.
pub open spec fn runs_of(cells: Seq<(char, RunStyle)>) -> Seq<(Seq<char>, RunStyle)>
    decreases cells.len(),
{
    if cells.len() == 0 {
        Seq::empty()
    } else {
        let prev = runs_of(cells.drop_last());
        let (c, st) = cells.last();
        if prev.len() > 0 && prev.last().1 == st {
            prev.update(prev.len() - 1, (prev.last().0.push(c), st))
        } else {
            prev.push((seq![c], st))
        }
    }
}

/// The cells of a timeline.
pub open spec fn cells_of(chars: Seq<char>, labels: Seq<Seq<char>>, colors: Seq<(Seq<char>, Color)>, own: Option<Seq<char>>) -> Seq<
    (char, RunStyle),
> {
    Seq::new(chars.len(), |i: int| cell(chars, labels, colors, own, i))
}

/// The view of runs.
pub open spec fn runs_view(v: Seq<(String, RunStyle)>) -> Seq<(Seq<char>, RunStyle)> {
    v.map_values(|r: (String, RunStyle)| (r.0@, r.1))
}

/// The runs a timeline is drawn in; see `cell` and `runs_of`.
pub fn timeline_runs(
    timeline: &str,
    section_labels: &Vec<String>,
    colors: &Vec<(String, Color)>,
    own: Option<&String>,
) -> (r: Vec<(String, RunStyle)>)
    ensures
        runs_view(r@) == runs_of(
            cells_of(timeline@, texts(section_labels@), pairs_view(colors@), crate::timeline_sections::opt_label(own)),
        ),
{
    let chars = chars_of(timeline);
    let ghost cells = cells_of(timeline@, texts(section_labels@), pairs_view(colors@), crate::timeline_sections::opt_label(own));
    let mut runs: Vec<(String, RunStyle)> = Vec::new();
    let mut i: usize = 0;
    proof {
        assert(cells.take(0) =~= Seq::<(char, RunStyle)>::empty());
    }
    while i < chars.len()
        invariant
            i <= chars.len(),
            chars@ == timeline@,
            cells == cells_of(timeline@, texts(section_labels@), pairs_view(colors@), crate::timeline_sections::opt_label(own)),
            runs_view(runs@) == runs_of(cells.take(i as int)),
        decreases chars.len() - i,
    {
        let label: &str = match own {
            Some(l) => l.as_str(),
            None => if i < section_labels.len() {
                section_labels[i].as_str()
            } else {
                ""
            },
        };
        proof {
            reveal_strlit("");
            assert(label@ == crate::render::column_label(texts(section_labels@), crate::timeline_sections::opt_label(own), i as int));
        }
        let color = color_for(colors, label);
        let (c, st) = if color == Color::Black {
            (' ', RunStyle::Blank)
        } else {
            (chars[i], RunStyle::Colored(color))
        };
        proof {
            assert(cells[i as int] == (c, st));
            assert(cells.take(i + 1).drop_last() =~= cells.take(i as int));
            assert(cells.take(i + 1).last() == (c, st));
        }
        let n = runs.len();
        if n > 0 && runs[n - 1].1 == st {
            let ghost prev = runs@;
            let (mut text, s) = runs.pop().unwrap();
            push_char(&mut text, c);
            runs.push((text, s));
            proof {
                assert(runs_view(runs@) =~= runs_view(prev).update(n - 1, (runs_view(prev)[n - 1].0.push(c), st)));
            }
        } else {
            let mut text = String::new();
            push_char(&mut text, c);
            let ghost prev = runs@;
            runs.push((text, st));
            proof {
                assert(runs_view(runs@) =~= runs_view(prev).push((seq![c], st)));
            }
        }
        i = i + 1;
    }
    proof {
        assert(cells.take(chars.len() as int) =~= cells);
    }
    runs
}

/// The cache key of the single timeline at `ms` milliseconds per column.
pub open spec fn single_key(s: Settings, ms: u64) -> TimelineCacheKey {
    TimelineCacheKey {
        ms_per_character: ms,
        mode: if s.class_arg@.len() == 0 {
            if s.full {
                TimelineMode::SingleAllFull
            } else {
                TimelineMode::SingleAll
            }
        } else if s.full {
            TimelineMode::SingleClassFull
        } else {
            TimelineMode::SingleClass
        },
        label: if s.class_arg@.len() == 0 {
            None
        } else {
            Some(s.class_arg)
        },
    }
}

/// The runs of the single timeline, `width` columns wide over the focused interval, open
/// logs measured up to `now`; none when there are no columns or the interval is narrower
/// than they are. The timeline comes from `materialize_single_timeline_at`.
pub fn build_timeline_at(
    model: &Model,
    colors: &Vec<(String, Color)>,
    settings: &Settings,
    cache: &mut TimelineCache,
    width: usize,
    now: u64,
) -> (r: Vec<(String, RunStyle)>)
    requires
        old(cache).wf(),
        model.wf(),
        0 <= settings.focused_interval.start <= settings.focused_interval.end,
        width < usize::MAX,
    ensures
        final(cache).wf(),
        (width == 0 || (settings.focused_interval.end - settings.focused_interval.start) / (width as int) == 0) ==> r@.len() == 0,
        width > 0 && (settings.focused_interval.end - settings.focused_interval.start) / (width as int) > 0 ==> exists|t: Seq<char>, ls: Seq<Seq<char>>|
            #[trigger] materialized(
                *model,
                *settings,
                None,
                now,
                bucket_or_empty(*old(cache), single_key(*settings, ((settings.focused_interval.end - settings.focused_interval.start) / (width as int)) as u64)),
                settings.focused_interval.start as int,
                (settings.focused_interval.end - settings.focused_interval.start) / (width as int),
                width as int,
                crate::view::single_dynamic(model.logs@, settings.full, settings.class_arg@),
                t,
                ls,
                true,
            ) && runs_view(r@) == runs_of(cells_of(t, ls, pairs_view(colors@), None)),
{
    if width == 0 {
        return Vec::new();
    }
    let ms = settings.focused_interval.width() / width as u64;
    if ms == 0 {
        return Vec::new();
    }
    let start_ms = settings.focused_interval.start as u64;
    proof {
        assert(ms * width <= settings.focused_interval.end - settings.focused_interval.start) by (nonlinear_arith)
            requires
                ms == (settings.focused_interval.end - settings.focused_interval.start) / (width as int),
                width > 0,
                settings.focused_interval.end - settings.focused_interval.start >= 0,
        ;
    }
    let end_ms = start_ms + ms * width as u64;
    let no_class = settings.class_arg.as_str().unicode_len() == 0;
    let key = TimelineCacheKey {
        ms_per_character: ms,
        mode: single_mode(settings),
        label: if no_class {
            None
        } else {
            Some(settings.class_arg.clone())
        },
    };
    proof {
        assert(key == single_key(*settings, ms));
    }
    let (timeline, labels) = materialize_single_timeline_at(model, settings, cache, &key, start_ms, end_ms, width, None, now);
    let runs = timeline_runs(timeline.as_str(), &labels, colors, None);
    runs
}

/// The cache mode of the timelines drawn one per label; see `multi_mode`.
pub open spec fn multi_mode_of(s: Settings) -> TimelineMode {
    if s.full {
        TimelineMode::MultiFull
    } else if s.class_arg@.len() == 0 {
        TimelineMode::MultiClass
    } else {
        TimelineMode::MultiTitle
    }
}

/// The key, as plain values, the timeline of `label` is cached under at `ms` per column
/// when there is one timeline per label: a title's key names the chosen class too, as
/// `class::title`.
pub open spec fn multi_key_view(s: Settings, ms: u64, label: Seq<char>) -> (u64, TimelineMode, Option<Seq<char>>) {
    let mode = multi_mode_of(s);
    (ms, mode, Some(if mode == TimelineMode::MultiTitle {
        s.class_arg@ + seq![':', ':'] + label
    } else {
        label
    }))
}

/// The pieces `c` holds under the key whose plain values are `kv`; none when it has no
/// bucket.
pub open spec fn view_bucket(c: TimelineCache, kv: (u64, TimelineMode, Option<Seq<char>>)) -> Seq<TimelineCacheEntry> {
    match bucket_keys(c.entries@).index_of_first(kv) {
        Some(i) => c.entries@[i].1@,
        None => Seq::empty(),
    }
}

/// The label at `p` comes first among the labels: none before it is the same.
pub open spec fn first_of_its_name(labels: Seq<Seq<char>>, p: int) -> bool {
    forall|q: int| 0 <= q < p ==> labels[q] != labels[p]
}

/// `text` is the timeline of the label at `p`, put together (see `materialized`) from what
/// `cache` held under its key, at `ms` per column over `width` columns from `start_ms`,
/// open logs measured up to `now`.
pub open spec fn multi_row_ok(
    m: Model,
    s: Settings,
    cache: TimelineCache,
    labels: Seq<Seq<char>>,
    p: int,
    start_ms: int,
    ms: u64,
    width: int,
    now: u64,
    text: Seq<char>,
) -> bool {
    exists|ls: Seq<Seq<char>>|
        #[trigger] materialized(
            m,
            s,
            Some(labels[p]),
            now,
            view_bucket(cache, multi_key_view(s, ms, labels[p])),
            start_ms,
            ms as int,
            width,
            multi_dynamic(m.logs@, s.class_arg@, multi_mode_of(s), labels[p]),
            text,
            ls,
            false,
        )
}

/// Each row of `rows` whose label comes first among the labels of its name is that label's
/// timeline; see `multi_row_ok`.
pub open spec fn multi_rows_ok(
    m: Model,
    s: Settings,
    cache: TimelineCache,
    labels: Seq<Seq<char>>,
    start_ms: int,
    ms: u64,
    width: int,
    now: u64,
    rows: Seq<(String, Color)>,
) -> bool {
    forall|k: int|
        0 <= k < rows.len() && first_of_its_name(labels, nonempty_positions(labels)[k]) ==> multi_row_ok(
            m,
            s,
            cache,
            labels,
            nonempty_positions(labels)[k],
            start_ms,
            ms,
            width,
            now,
            (#[trigger] rows[k]).0@,
        )
}

/// Different labels have different keys.
proof fn lemma_multi_key_view_injective(s: Settings, ms: u64, a: Seq<char>, b: Seq<char>)
    ensures
        multi_key_view(s, ms, a) == multi_key_view(s, ms, b) ==> a == b,
{
    if multi_key_view(s, ms, a) == multi_key_view(s, ms, b) && multi_mode_of(s) == TimelineMode::MultiTitle {
        let head = s.class_arg@ + seq![':', ':'];
        assert((head + a).skip(head.len() as int) =~= a);
        assert((head + b).skip(head.len() as int) =~= b);
    }
}

/// One row per non-empty label when there is one timeline per label: the label's timeline
/// (see `materialize_multi_timeline_at`) in the colour of the label's position. The key of
/// a title's row names the chosen class too, as `class::title`. The row of the first label of
/// each name is the timeline put together from what the cache held under its key (see
/// `multi_row_ok`). None when there are no columns or the focused interval is narrower
/// than they are.
pub fn render_multi_timelines_at(
    model: &Model,
    labels: &Vec<String>,
    settings: &Settings,
    cache: &mut TimelineCache,
    width: usize,
    now: u64,
) -> (r: Vec<(String, Color)>)
    requires
        old(cache).wf(),
        model.wf(),
        0 <= settings.focused_interval.start <= settings.focused_interval.end,
        width < usize::MAX,
    ensures
        final(cache).wf(),
        (width == 0 || (settings.focused_interval.end - settings.focused_interval.start) / (width as int) == 0) ==> r@.len() == 0,
        width > 0 && (settings.focused_interval.end - settings.focused_interval.start) / (width as int) > 0 ==> r@.len() == nonempty_positions(texts(labels@)).len()
            && forall|k: int| 0 <= k < r@.len() ==> (#[trigger] r@[k]).1 == color_of(nonempty_positions(texts(labels@))[k]),
        width > 0 && (settings.focused_interval.end - settings.focused_interval.start) / (width as int) > 0 ==> multi_rows_ok(
            *model,
            *settings,
            *old(cache),
            texts(labels@),
            settings.focused_interval.start as int,
            ((settings.focused_interval.end - settings.focused_interval.start) / (width as int)) as u64,
            width as int,
            now,
            r@,
        ),
{
    if width == 0 {
        return Vec::new();
    }
    let ms = settings.focused_interval.width() / width as u64;
    if ms == 0 {
        return Vec::new();
    }
    let start_ms = settings.focused_interval.start as u64;
    proof {
        assert(ms * width <= settings.focused_interval.end - settings.focused_interval.start) by (nonlinear_arith)
            requires
                ms == (settings.focused_interval.end - settings.focused_interval.start) / (width as int),
                width > 0,
                settings.focused_interval.end - settings.focused_interval.start >= 0,
        ;
    }
    let end_ms = start_ms + ms * width as u64;
    let mode = multi_mode(settings);
    let mut rows: Vec<(String, Color)> = Vec::new();
    let mut idx: usize = 0;
    proof {
        assert(texts(labels@).take(0) =~= Seq::<Seq<char>>::empty());
    }
    while idx < labels.len()
        invariant
            idx <= labels.len(),
            cache.wf(),
            model.wf(),
            ms >= 1,
            end_ms == start_ms + ms * width,
            end_ms <= i64::MAX,
            width < usize::MAX,
            rows@.len() == nonempty_positions(texts(labels@).take(idx as int)).len(),
            forall|k: int| 0 <= k < rows@.len() ==> (#[trigger] rows@[k]).1 == color_of(nonempty_positions(texts(labels@).take(idx as int))[k]),
            mode == multi_mode_of(*settings),
            start_ms == settings.focused_interval.start,
            ms == (settings.focused_interval.end - settings.focused_interval.start) / (width as int),
            forall|key: TimelineCacheKey|
                (forall|q: int| 0 <= q < idx && texts(labels@)[q].len() > 0 ==> key_view(key) != multi_key_view(*settings, ms, texts(labels@)[q]))
                    ==> #[trigger] cache.bucket(key) == old(cache).bucket(key),
            forall|k: int|
                0 <= k < rows@.len() && first_of_its_name(texts(labels@), nonempty_positions(texts(labels@).take(idx as int))[k]) ==> multi_row_ok(
                    *model,
                    *settings,
                    *old(cache),
                    texts(labels@),
                    nonempty_positions(texts(labels@).take(idx as int))[k],
                    start_ms as int,
                    ms,
                    width as int,
                    now,
                    (#[trigger] rows@[k]).0@,
                ),
        decreases labels.len() - idx,
    {
        let label = &labels[idx];
        proof {
            assert(texts(labels@).take(idx + 1).drop_last() =~= texts(labels@).take(idx as int));
            assert(texts(labels@).take(idx + 1).last() == label@);
        }
        if label.as_str().unicode_len() > 0 {
            let key_label = if mode == TimelineMode::MultiTitle {
                let head = concat(settings.class_arg.as_str(), "::");
                concat(head.as_str(), label.as_str())
            } else {
                label.clone()
            };
            let key = TimelineCacheKey { ms_per_character: ms, mode, label: Some(key_label) };
            proof {
                reveal_strlit("::");
                assert("::"@ =~= seq![':', ':']);
                assert(key_view(key) == multi_key_view(*settings, ms, label@));
            }
            let has_dynamic = multi_label_has_dynamic_open_log(model, settings, &mode, label.as_str());
            let ghost cache_before = *cache;
            let timeline = materialize_multi_timeline_at(model, settings, cache, &key, start_ms, end_ms, width, label, has_dynamic, now);
            let color = color_from_index(idx);
            let ghost prev = rows@;
            rows.push((timeline, color));
            proof {
                let tx = texts(labels@);
                assert(tx[idx as int] == label@);
                assert(nonempty_positions(tx.take(idx + 1)) == nonempty_positions(tx.take(idx as int)).push(idx as int));
                assert forall|k: int| 0 <= k < rows@.len() implies (#[trigger] rows@[k]).1 == color_of(nonempty_positions(tx.take(idx + 1))[k]) by {
                    if k < prev.len() {
                        assert(rows@[k] == prev[k]);
                    }
                }
                if first_of_its_name(tx, idx as int) {
                    assert forall|q: int| 0 <= q < idx && tx[q].len() > 0 implies key_view(key) != multi_key_view(*settings, ms, #[trigger] tx[q]) by {
                        lemma_multi_key_view_injective(*settings, ms, tx[q], label@);
                    }
                    assert(cache_before.bucket(key) == old(cache).bucket(key));
                    assert(bucket_or_empty(cache_before, key) == view_bucket(*old(cache), multi_key_view(*settings, ms, label@)));
                    assert(multi_row_ok(*model, *settings, *old(cache), tx, idx as int, start_ms as int, ms, width as int, now, timeline@));
                }
                assert forall|k: int|
                    0 <= k < rows@.len() && first_of_its_name(tx, nonempty_positions(tx.take(idx + 1))[k]) implies multi_row_ok(
                        *model,
                        *settings,
                        *old(cache),
                        tx,
                        nonempty_positions(tx.take(idx + 1))[k],
                        start_ms as int,
                        ms,
                        width as int,
                        now,
                        (#[trigger] rows@[k]).0@,
                    ) by {
                    if k < prev.len() {
                        assert(rows@[k] == prev[k]);
                    }
                }
                assert forall|key2: TimelineCacheKey|
                    (forall|q: int| 0 <= q < idx + 1 && tx[q].len() > 0 ==> key_view(key2) != multi_key_view(*settings, ms, tx[q]))
                        implies #[trigger] cache.bucket(key2) == old(cache).bucket(key2) by {
                    assert(key_view(key2) != multi_key_view(*settings, ms, tx[idx as int]));
                }
            }
        } else {
            proof {
                let tx = texts(labels@);
                assert(tx[idx as int] == label@);
                assert(nonempty_positions(tx.take(idx + 1)) == nonempty_positions(tx.take(idx as int)));
            }
        }
        idx = idx + 1;
    }
    proof {
        assert(texts(labels@).take(labels.len() as int) =~= texts(labels@));
    }
    rows
}

/// The rows when there is one timeline per label, as `render_multi_timelines_at` gives
/// them, open logs measured up to the present moment.
pub fn render_multi_timelines(
    model: &Model,
    labels: &Vec<String>,
    settings: &Settings,
    cache: &mut TimelineCache,
    width: usize,
) -> (r: Vec<(String, Color)>)
    requires
        old(cache).wf(),
        model.wf(),
        0 <= settings.focused_interval.start <= settings.focused_interval.end,
        width < usize::MAX,
    ensures
        final(cache).wf(),
        (width == 0 || (settings.focused_interval.end - settings.focused_interval.start) / (width as int) == 0) ==> r@.len() == 0,
        width > 0 && (settings.focused_interval.end - settings.focused_interval.start) / (width as int) > 0 ==> r@.len() == nonempty_positions(texts(labels@)).len()
            && forall|k: int| 0 <= k < r@.len() ==> (#[trigger] r@[k]).1 == color_of(nonempty_positions(texts(labels@))[k]),
        width > 0 && (settings.focused_interval.end - settings.focused_interval.start) / (width as int) > 0 ==> exists|now: u64|
            #[trigger] multi_rows_ok(
                *model,
                *settings,
                *old(cache),
                texts(labels@),
                settings.focused_interval.start as int,
                ((settings.focused_interval.end - settings.focused_interval.start) / (width as int)) as u64,
                width as int,
                now,
                r@,
            ),
{
    let now = utc_now_millis() as u64;
    render_multi_timelines_at(model, labels, settings, cache, width, now)
}

/// The positions of the non-empty labels, in order.
pub open spec fn nonempty_positions(labels: Seq<Seq<char>>) -> Seq<int>
    decreases labels.len(),
{
    if labels.len() == 0 {
        Seq::empty()
    } else if labels.last().len() > 0 {
        nonempty_positions(labels.drop_last()).push(labels.len() - 1)
    } else {
        nonempty_positions(labels.drop_last())
    }
}

} // verus!
