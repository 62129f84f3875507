//! What the timelines are drawn with: the labels and their colours, the character of a
//! section, the modes the cache is keyed by, and which columns may still change.
use vstd::prelude::*;

use crate::clock::utc_now_millis;
use crate::model::{Class, Log, Model};
use crate::settings::Settings;
use crate::text::{concat, str_equal};
use crate::timeline_cache::TimelineMode;

verus! {

/// The colours a timeline or a table row is drawn in.
#[derive(PartialEq, Eq, Structural, Clone, Copy, Debug)]
pub enum Color {
    Black,
    White,
    Green,
    Red,
    Blue,
    Magenta,
    Yellow,
    Cyan,
    LightRed,
    LightGreen,
    LightBlue,
    LightMagenta,
    LightYellow,
    LightCyan,
}

/// What one section (one column) of a timeline holds: the label that leads it, by how
/// much, the time recorded in it, and whether activity reaches its left and right edges.
pub struct TimelineCharacter {
    pub label: String,
    pub dominance: i64,
    pub total: i64,
    pub activity_at_left_edge: bool,
    pub activity_at_right_edge: bool,
}

/// The colour of the `index`th label: twelve colours in turn, then white.
pub open spec fn color_of(index: int) -> Color {
    if index == 0 {
        Color::Green
    } else if index == 1 {
        Color::Red
    } else if index == 2 {
        Color::Blue
    } else if index == 3 {
        Color::Magenta
    } else if index == 4 {
        Color::Yellow
    } else if index == 5 {
        Color::Cyan
    } else if index == 6 {
        Color::LightRed
    } else if index == 7 {
        Color::LightGreen
    } else if index == 8 {
        Color::LightBlue
    } else if index == 9 {
        Color::LightMagenta
    } else if index == 10 {
        Color::LightYellow
    } else if index == 11 {
        Color::LightCyan
    } else {
        Color::White
    }
}

proof fn lemma_strings_view_push(v: Seq<String>, x: String)
    ensures
        strings_view(v.push(x)) == strings_view(v).push(x@),
{
    assert(strings_view(v.push(x)) =~= strings_view(v).push(x@));
}

proof fn lemma_map_take<A, B>(s: Seq<A>, f: spec_fn(A) -> B, k: int)
    requires
        0 <= k < s.len(),
    ensures
        s.take(k + 1).map_values(f) == s.take(k).map_values(f).push(f(s[k])),
{
    assert(s.take(k + 1).map_values(f) =~= s.take(k).map_values(f).push(f(s[k])));
}

/// The colour of the `index`th label; see `color_of`.
pub fn color_from_index(index: usize) -> (r: Color)
    ensures
        r == color_of(index as int),
{
    match index {
        0 => Color::Green,
        1 => Color::Red,
        2 => Color::Blue,
        3 => Color::Magenta,
        4 => Color::Yellow,
        5 => Color::Cyan,
        6 => Color::LightRed,
        7 => Color::LightGreen,
        8 => Color::LightBlue,
        9 => Color::LightMagenta,
        10 => Color::LightYellow,
        11 => Color::LightCyan,
        _ => Color::White,
    }
}

/// The labels with their colours: the empty label black, then each distinct label, in
/// the order it first appears, the next colour in turn.
pub open spec fn color_assignments(list: Seq<Seq<char>>) -> Seq<(Seq<char>, Color)>
    decreases list.len(),
{
    if list.len() == 0 {
        seq![(Seq::<char>::empty(), Color::Black)]
    } else {
        let prev = color_assignments(list.drop_last());
        if prev.map_values(|p: (Seq<char>, Color)| p.0).contains(list.last()) {
            prev
        } else {
            prev.push((list.last(), color_of(prev.len() - 1)))
        }
    }
}

/// The colour of `label` among `map`: that of its first entry, white when it has none.
pub open spec fn color_in(map: Seq<(Seq<char>, Color)>, label: Seq<char>) -> Color
    decreases map.len(),
{
    if map.len() == 0 {
        Color::White
    } else if map[0].0 == label {
        map[0].1
    } else {
        color_in(map.drop_first(), label)
    }
}

/// The view of a list of label-colour pairs.
pub open spec fn pairs_view(v: Seq<(String, Color)>) -> Seq<(Seq<char>, Color)> {
    v.map_values(|p: (String, Color)| (p.0@, p.1))
}

/// The view of a list of strings.
pub open spec fn strings_view(v: Seq<String>) -> Seq<Seq<char>> {
    v.map_values(|s: String| s@)
}

/// The colour of each label; see `color_assignments`.
pub fn key_to_color_map(list: &Vec<String>) -> (r: Vec<(String, Color)>)
    ensures
        pairs_view(r@) == color_assignments(strings_view(list@)),
{
    let mut res: Vec<(String, Color)> = Vec::new();
    res.push((String::new(), Color::Black));
    let mut color_index: usize = 0;
    let mut i: usize = 0;
    proof {
        assert(strings_view(list@).take(0) =~= Seq::<Seq<char>>::empty());
        assert(pairs_view(res@) =~= color_assignments(Seq::<Seq<char>>::empty()));
    }
    while i < list.len()
        invariant
            i <= list.len(),
            pairs_view(res@) == color_assignments(strings_view(list@).take(i as int)),
            res@.len() == color_index + 1,
            color_index <= i,
        decreases list.len() - i,
    {
        let ghost prev = pairs_view(res@);
        proof {
            assert(strings_view(list@).take(i + 1).drop_last() =~= strings_view(list@).take(i as int));
            assert(strings_view(list@).take(i + 1).last() == list@[i as int]@);
        }
        let found = contains_label(&res, &list[i]);
        if !found {
            let c = color_from_index(color_index);
            res.push((list[i].clone(), c));
            color_index = color_index + 1;
            proof {
                assert(pairs_view(res@) =~= prev.push((list@[i as int]@, c)));
            }
        }
        i = i + 1;
    }
    proof {
        assert(strings_view(list@).take(list.len() as int) =~= strings_view(list@));
    }
    res
}

/// Whether `label` is among the labels of `pairs`.
fn contains_label(pairs: &Vec<(String, Color)>, label: &String) -> (r: bool)
    ensures
        r == pairs_view(pairs@).map_values(|p: (Seq<char>, Color)| p.0).contains(label@),
{
    let ghost names = pairs_view(pairs@).map_values(|p: (Seq<char>, Color)| p.0);
    let mut i: usize = 0;
    while i < pairs.len()
        invariant
            i <= pairs.len(),
            names == pairs_view(pairs@).map_values(|p: (Seq<char>, Color)| p.0),
            forall|q: int| 0 <= q < i ==> names[q] != label@,
        decreases pairs.len() - i,
    {
        if str_equal(pairs[i].0.as_str(), label.as_str()) {
            proof {
                assert(names[i as int] == label@);
            }
            return true;
        }
        i = i + 1;
    }
    false
}

/// The colour of `label` in `map`; see `color_in`.
pub fn color_for(map: &Vec<(String, Color)>, label: &str) -> (r: Color)
    ensures
        r == color_in(pairs_view(map@), label@),
{
    let mut i: usize = 0;
    proof {
        assert(pairs_view(map@).subrange(0, map.len() as int) =~= pairs_view(map@));
    }
    while i < map.len()
        invariant
            i <= map.len(),
            color_in(pairs_view(map@), label@) == color_in(pairs_view(map@).subrange(i as int, map.len() as int), label@),
        decreases map.len() - i,
    {
        proof {
            assert(pairs_view(map@).subrange(i as int, map.len() as int).drop_first() =~= pairs_view(
                map@,
            ).subrange(i + 1, map.len() as int));
        }
        if str_equal(map[i].0.as_str(), label) {
            return map[i].1;
        }
        i = i + 1;
    }
    Color::White
}

/// `"class: title"` for every title of every class, classes and titles in order.
pub open spec fn full_labels(classes: Seq<Class>) -> Seq<Seq<char>>
    decreases classes.len(),
{
    if classes.len() == 0 {
        Seq::empty()
    } else {
        full_labels(classes.drop_last()) + classes.last().titles@.map_values(
            |t: crate::model::Title| classes.last().class@ + seq![':', ' '] + t.title@,
        )
    }
}

/// The names of the classes, in order.
pub open spec fn class_labels(classes: Seq<Class>) -> Seq<Seq<char>> {
    classes.map_values(|c: Class| c.class@)
}

/// The titles of the first class named `class`, in order; none when there is no such
/// class.
pub open spec fn title_labels(classes: Seq<Class>, class: Seq<char>) -> Seq<Seq<char>> {
    match crate::model::class_position(classes, class) {
        Some(i) => classes[i].titles@.map_values(|t: crate::model::Title| t.title@),
        None => Seq::empty(),
    }
}

/// The labels the timelines are drawn for: `"class: title"` pairs when full, class names
/// when no class is chosen, else the titles of the chosen class.
pub open spec fn labels_for(classes: Seq<Class>, full: bool, class_arg: Seq<char>) -> Seq<Seq<char>> {
    if full {
        full_labels(classes)
    } else if class_arg.len() == 0 {
        class_labels(classes)
    } else {
        title_labels(classes, class_arg)
    }
}

/// The labels the timelines are drawn for; see `labels_for`.
pub fn get_labels(model: &Model, settings: &Settings) -> (r: Vec<String>)
    ensures
        strings_view(r@) == labels_for(model.classes@, settings.full, settings.class_arg@),
{
    let mut labels: Vec<String> = Vec::new();
    if settings.full {
        let mut ci: usize = 0;
        while ci < model.classes.len()
            invariant
                ci <= model.classes.len(),
                strings_view(labels@) == full_labels(model.classes@.take(ci as int)),
            decreases model.classes.len() - ci,
        {
            let class = &model.classes[ci];
            let ghost before = strings_view(labels@);
            let ghost titles_part = class.titles@.map_values(
                |t: crate::model::Title| class.class@ + seq![':', ' '] + t.title@,
            );
            let mut ti: usize = 0;
            while ti < class.titles.len()
                invariant
                    ti <= class.titles.len(),
                    class == model.classes@[ci as int],
                    titles_part == class.titles@.map_values(
                        |t: crate::model::Title| class.class@ + seq![':', ' '] + t.title@,
                    ),
                    strings_view(labels@) == before + titles_part.take(ti as int),
                decreases class.titles.len() - ti,
            {
                let head = concat(class.class.as_str(), ": ");
                let label = concat(head.as_str(), class.titles[ti].title.as_str());
                proof {
                    reveal_strlit(": ");
                    assert(label@ == titles_part[ti as int]);
                }
                let ghost prev = labels@;
                labels.push(label);
                proof {
                    lemma_strings_view_push(prev, label);
                    assert(titles_part.take(ti + 1) =~= titles_part.take(ti as int).push(titles_part[ti as int]));
                    assert(strings_view(labels@) =~= before + titles_part.take(ti + 1));
                }
                ti = ti + 1;
            }
            proof {
                assert(model.classes@.take(ci + 1).drop_last() =~= model.classes@.take(ci as int));
                assert(titles_part.take(class.titles.len() as int) =~= titles_part);
            }
            ci = ci + 1;
        }
        proof {
            assert(model.classes@.take(model.classes.len() as int) =~= model.classes@);
        }
    } else if settings.class_arg.as_str().unicode_len() == 0 {
        let mut ci: usize = 0;
        while ci < model.classes.len()
            invariant
                ci <= model.classes.len(),
                strings_view(labels@) == class_labels(model.classes@.take(ci as int)),
            decreases model.classes.len() - ci,
        {
            let ghost prev = labels@;
            let name = model.classes[ci].class.clone();
            labels.push(name);
            proof {
                lemma_strings_view_push(prev, name);
                lemma_map_take(model.classes@, |c: Class| c.class@, ci as int);
                assert(strings_view(labels@) =~= class_labels(model.classes@.take(ci + 1)));
            }
            ci = ci + 1;
        }
        proof {
            assert(model.classes@.take(model.classes.len() as int) =~= model.classes@);
        }
    } else {
        match model.get_class(&settings.class_arg) {
            Some(class) => {
                let mut ti: usize = 0;
                while ti < class.titles.len()
                    invariant
                        ti <= class.titles.len(),
                        strings_view(labels@) == class.titles@.take(ti as int).map_values(
                            |t: crate::model::Title| t.title@,
                        ),
                    decreases class.titles.len() - ti,
                {
                    let ghost prev = labels@;
                    let name = class.titles[ti].title.clone();
                    labels.push(name);
                    proof {
                        lemma_strings_view_push(prev, name);
                        lemma_map_take(class.titles@, |t: crate::model::Title| t.title@, ti as int);
                        assert(strings_view(labels@) =~= class.titles@.take(ti + 1).map_values(
                            |t: crate::model::Title| t.title@,
                        ));
                    }
                    ti = ti + 1;
                }
                proof {
                    assert(class.titles@.take(class.titles.len() as int) =~= class.titles@);
                }
            },
            None => {
                proof {
                    assert(strings_view(labels@) =~= Seq::<Seq<char>>::empty());
                }
            },
        }
    }
    labels
}

/// Which of the eight shapes a section is drawn with, given how full it is (`total`
/// milliseconds of `ms_per_section`) and whether activity reaches its edges. Fullness is
/// compared with its thresholds exactly, as a fraction. At a scale of zero fullness is not
/// a number, and the fallback characters are drawn.
pub open spec fn section_char(total: int, ms: int, left: bool, right: bool) -> char {
    if left && right {
        '█'
    } else if ms == 0 {
        if left {
            '—'
        } else {
            ' '
        }
    } else if left {
        if total <= 0 {
            ' '
        } else if 8 * total <= ms {
            '▏'
        } else if 4 * total <= ms {
            '▎'
        } else if 8 * total <= 3 * ms {
            '▍'
        } else if 2 * total <= ms {
            '▌'
        } else if 8 * total <= 5 * ms {
            '▋'
        } else if 4 * total <= 3 * ms {
            '▊'
        } else {
            '█'
        }
    } else if right {
        if total <= 0 {
            ' '
        } else if 8 * total <= ms {
            '🮇'
        } else if 4 * total <= ms {
            '🮈'
        } else if 8 * total <= 3 * ms {
            '▐'
        } else if 2 * total <= ms {
            '🮉'
        } else if 8 * total <= 5 * ms {
            '🮊'
        } else if 4 * total <= 3 * ms {
            '🮋'
        } else {
            '█'
        }
    } else {
        if total <= 0 {
            ' '
        } else if 1_000_000 * total <= 333_333 * ms {
            '│'
        } else if 100 * total <= 66 * ms {
            '┃'
        } else {
            '█'
        }
    }
}

/// The character a section is drawn with; see `section_char`.
pub fn choose_character(section_data: &TimelineCharacter, ms_per_section: u64) -> (r: char)
    ensures
        r == section_char(
            section_data.total as int,
            ms_per_section as int,
            section_data.activity_at_left_edge,
            section_data.activity_at_right_edge,
        ),
{
    let left = section_data.activity_at_left_edge;
    let right = section_data.activity_at_right_edge;
    let total = section_data.total as i128;
    let ms = ms_per_section as i128;
    if left && right {
        return '█';
    }
    if ms == 0 {
        return if left {
            '—'
        } else {
            ' '
        };
    }
    if left {
        if total <= 0 {
            ' '
        } else if 8 * total <= ms {
            '▏'
        } else if 4 * total <= ms {
            '▎'
        } else if 8 * total <= 3 * ms {
            '▍'
        } else if 2 * total <= ms {
            '▌'
        } else if 8 * total <= 5 * ms {
            '▋'
        } else if 4 * total <= 3 * ms {
            '▊'
        } else {
            '█'
        }
    } else if right {
        if total <= 0 {
            ' '
        } else if 8 * total <= ms {
            '🮇'
        } else if 4 * total <= ms {
            '🮈'
        } else if 8 * total <= 3 * ms {
            '▐'
        } else if 2 * total <= ms {
            '🮉'
        } else if 8 * total <= 5 * ms {
            '🮊'
        } else if 4 * total <= 3 * ms {
            '🮋'
        } else {
            '█'
        }
    } else {
        if total <= 0 {
            ' '
        } else if 1_000_000 * total <= 333_333 * ms {
            '│'
        } else if 100 * total <= 66 * ms {
            '┃'
        } else {
            '█'
        }
    }
}

/// The cache mode of a single timeline.
pub fn single_mode(settings: &Settings) -> (r: TimelineMode)
    ensures
        r == if settings.class_arg@.len() == 0 {
            if settings.full {
                TimelineMode::SingleAllFull
            } else {
                TimelineMode::SingleAll
            }
        } else if settings.full {
            TimelineMode::SingleClassFull
        } else {
            TimelineMode::SingleClass
        },
{
    let empty = settings.class_arg.as_str().unicode_len() == 0;
    if empty {
        if settings.full {
            TimelineMode::SingleAllFull
        } else {
            TimelineMode::SingleAll
        }
    } else if settings.full {
        TimelineMode::SingleClassFull
    } else {
        TimelineMode::SingleClass
    }
}

/// The cache mode of the timelines drawn one per label.
pub fn multi_mode(settings: &Settings) -> (r: TimelineMode)
    ensures
        r == if settings.full {
            TimelineMode::MultiFull
        } else if settings.class_arg@.len() == 0 {
            TimelineMode::MultiClass
        } else {
            TimelineMode::MultiTitle
        },
{
    if settings.full {
        TimelineMode::MultiFull
    } else if settings.class_arg.as_str().unicode_len() == 0 {
        TimelineMode::MultiClass
    } else {
        TimelineMode::MultiTitle
    }
}

/// The columns around `now_ms` that an open log is still filling, one on each side of its
/// column: none when there is no open log to draw, no width or no scale, or when `now_ms`
/// is off the timeline.
pub open spec fn dynamic_columns(start_ms: int, width: int, ms: int, has_dynamic: bool, now_ms: int) -> (
    int,
    int,
) {
    if !has_dynamic || width == 0 || ms == 0 {
        (0, 0)
    } else if now_ms < start_ms || now_ms >= start_ms + ms * width {
        (0, 0)
    } else {
        let col = (now_ms - start_ms) / ms;
        (
            if col >= 1 {
                col - 1
            } else {
                0
            },
            if col + 2 < width {
                col + 2
            } else {
                width
            },
        )
    }
}

/// The columns an open log is still filling at `now_ms`; see `dynamic_columns`.
pub fn dynamic_column_range_at(start_ms: u64, width: usize, ms_per_char: u64, has_dynamic: bool, now_ms: u64) -> (r: (
    usize,
    usize,
))
    requires
        start_ms + ms_per_char * width <= u64::MAX,
    ensures
        r.0 == dynamic_columns(start_ms as int, width as int, ms_per_char as int, has_dynamic, now_ms as int).0,
        r.1 == dynamic_columns(start_ms as int, width as int, ms_per_char as int, has_dynamic, now_ms as int).1,
        r.0 <= r.1 <= width,
{
    if !has_dynamic || width == 0 || ms_per_char == 0 {
        return (0, 0);
    }
    proof {
        assert(ms_per_char * width >= width) by (nonlinear_arith)
            requires
                ms_per_char >= 1,
                width >= 0,
        ;
    }
    let end_ms = start_ms + ms_per_char * width as u64;
    if now_ms < start_ms || now_ms >= end_ms {
        return (0, 0);
    }
    let col64 = (now_ms - start_ms) / ms_per_char;
    proof {
        assert((now_ms - start_ms) / (ms_per_char as int) < width) by (nonlinear_arith)
            requires
                now_ms - start_ms < ms_per_char * width,
                ms_per_char > 0,
                now_ms >= start_ms,
        ;
    }
    let col = col64 as usize;
    let col_start = if col >= 1 {
        col - 1
    } else {
        0
    };
    let col_end = if width >= 2 && col < width - 2 {
        col + 2
    } else {
        width
    };
    (col_start, col_end)
}

/// The columns an open log is still filling now; see `dynamic_columns`.
pub fn dynamic_column_range(start_ms: u64, width: usize, ms_per_char: u64, has_dynamic: bool) -> (r: (
    usize,
    usize,
))
    requires
        start_ms + ms_per_char * width <= u64::MAX,
    ensures
        exists|now: u64|
            r.0 == #[trigger] dynamic_columns(start_ms as int, width as int, ms_per_char as int, has_dynamic, now as int).0
                && r.1 == dynamic_columns(start_ms as int, width as int, ms_per_char as int, has_dynamic, now as int).1,
        r.0 <= r.1 <= width,
{
    let now = utc_now_millis() as u64;
    dynamic_column_range_at(start_ms, width, ms_per_char, has_dynamic, now)
}

/// The column ranges of a timeline `width` wide that may be cached: all of it when no
/// column is still changing, else what lies before and after the changing columns.
pub open spec fn cacheable_ranges(width: int, dyn_start: int, dyn_end: int) -> Seq<(int, int)> {
    if dyn_end > dyn_start {
        (if dyn_start > 0 {
            seq![(0int, dyn_start)]
        } else {
            Seq::empty()
        }) + (if dyn_end < width {
            seq![(dyn_end, width)]
        } else {
            Seq::empty()
        })
    } else {
        seq![(0int, width)]
    }
}

/// The column ranges that may be cached; see `cacheable_ranges`.
pub fn cacheable_column_ranges(width: usize, dynamic_range: (usize, usize)) -> (r: Vec<(usize, usize)>)
    ensures
        r@.map_values(|p: (usize, usize)| (p.0 as int, p.1 as int)) == cacheable_ranges(
            width as int,
            dynamic_range.0 as int,
            dynamic_range.1 as int,
        ),
{
    let (dyn_start, dyn_end) = dynamic_range;
    let mut ranges: Vec<(usize, usize)> = Vec::new();
    if dyn_end > dyn_start {
        if dyn_start > 0 {
            ranges.push((0, dyn_start));
        }
        if dyn_end < width {
            ranges.push((dyn_end, width));
        }
    } else {
        ranges.push((0, width));
    }
    proof {
        assert(ranges@.map_values(|p: (usize, usize)| (p.0 as int, p.1 as int)) =~= cacheable_ranges(
            width as int,
            dyn_start as int,
            dyn_end as int,
        ));
    }
    ranges
}

/// The last log is still open and drawn in the single timeline: every log is drawn when
/// no class is chosen or when full, else those of the chosen class.
pub open spec fn single_dynamic(logs: Seq<Log>, full: bool, class_arg: Seq<char>) -> bool {
    logs.len() > 0 && logs.last().end is None && (class_arg.len() == 0 || full || logs.last().class@
        == class_arg)
}

/// Whether the single timeline draws a log that is still open.
pub fn single_has_dynamic_open_log(model: &Model, settings: &Settings) -> (r: bool)
    ensures
        r == single_dynamic(model.logs@, settings.full, settings.class_arg@),
{
    if model.logs.len() == 0 {
        return false;
    }
    let last = &model.logs[model.logs.len() - 1];
    if last.end.is_some() {
        return false;
    }
    settings.class_arg.as_str().unicode_len() == 0 || settings.full || str_equal(
        last.class.as_str(),
        settings.class_arg.as_str(),
    )
}

/// The last log is still open and drawn in the timeline of `label`.
pub open spec fn multi_dynamic(logs: Seq<Log>, class_arg: Seq<char>, mode: TimelineMode, label: Seq<char>) -> bool {
    logs.len() > 0 && logs.last().end is None && match mode {
        TimelineMode::MultiClass => logs.last().class@ == label,
        TimelineMode::MultiTitle => logs.last().class@ == class_arg && logs.last().title@ == label,
        TimelineMode::MultiFull => logs.last().class@ + seq![':', ' '] + logs.last().title@ == label,
        _ => false,
    }
}

/// Whether the timeline of `label` draws a log that is still open.
pub fn multi_label_has_dynamic_open_log(
    model: &Model,
    settings: &Settings,
    mode: &TimelineMode,
    label: &str,
) -> (r: bool)
    ensures
        r == multi_dynamic(model.logs@, settings.class_arg@, *mode, label@),
{
    if model.logs.len() == 0 {
        return false;
    }
    let last = &model.logs[model.logs.len() - 1];
    assert(*last == model.logs@.last());
    if last.end.is_some() {
        return false;
    }
    let ghost l = model.logs@.last();
    match *mode {
        TimelineMode::MultiClass => {
            let r = str_equal(last.class.as_str(), label);
            assert(r == (l.class@ == label@));
            r
        },
        TimelineMode::MultiTitle => {
            let r = str_equal(last.class.as_str(), settings.class_arg.as_str()) && str_equal(
                last.title.as_str(),
                label,
            );
            assert(r == (l.class@ == settings.class_arg@ && l.title@ == label@));
            r
        },
        TimelineMode::MultiFull => {
            let head = concat(last.class.as_str(), ": ");
            let full = concat(head.as_str(), last.title.as_str());
            proof {
                reveal_strlit(": ");
                assert(full@ == l.class@ + seq![':', ' '] + l.title@);
            }
            str_equal(full.as_str(), label)
        },
        _ => false,
    }
}

} // verus!
