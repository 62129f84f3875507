use hyprlog::interval::Interval;
use hyprlog::materialize::materialize_single_timeline_at;
use hyprlog::model::{Log, LogIds, Model};
use hyprlog::render::{render_multi_timelines_at, timeline_runs, RunStyle};
use hyprlog::settings::Settings;
use hyprlog::tables::{adjust_scroll, window_counts};
use hyprlog::timeline_cache::{TimelineCache, TimelineCacheEntry, TimelineCacheKey, TimelineMode};
use hyprlog::timeline_sections::{key, section_index, timeline_at};
use hyprlog::view::{
    cacheable_column_ranges, choose_character, color_for, color_from_index, dynamic_column_range_at, key_to_color_map,
    multi_mode, single_mode, Color, TimelineCharacter,
};

fn focused_settings() -> Settings {
    Settings::new(Interval::new(0, 10_000))
}

fn model() -> Model {
    let mut ids = LogIds::new();
    let iv = Interval::new(0, 10_000);
    let mut m = Model::new();
    m.add_log_at(Log::new(&mut ids, 1_000, Some(4_000), "firefox".to_string(), "docs".to_string()), false, &iv, 10_000);
    m.add_log_at(Log::new(&mut ids, 4_000, None, "kitty".to_string(), "shell".to_string()), false, &iv, 10_000);
    m
}

fn section(total: i64, left: bool, right: bool) -> TimelineCharacter {
    TimelineCharacter {
        label: String::new(),
        dominance: 0,
        total,
        activity_at_left_edge: left,
        activity_at_right_edge: right,
    }
}

fn cache_key() -> TimelineCacheKey {
    TimelineCacheKey { ms_per_character: 1_000, mode: TimelineMode::SingleAll, label: None }
}

fn entry(start_ms: u64, end_ms: u64, timeline: &str) -> TimelineCacheEntry {
    TimelineCacheEntry {
        start_ms,
        end_ms,
        timeline: timeline.to_string(),
        section_labels: timeline.chars().map(|c| c.to_string()).collect(),
    }
}

#[test]
fn sections_of_a_timeline() {
    let m = model();
    let s = focused_settings();
    let secs = timeline_at(&m, 10, &s, None, 10_000);
    let got: Vec<(String, i64, i64, bool, bool)> = secs
        .iter()
        .map(|t| (t.label.clone(), t.dominance, t.total, t.activity_at_left_edge, t.activity_at_right_edge))
        .collect();
    let mut expected = vec![(String::new(), 0, 0, false, false)];
    for _ in 0..3 {
        expected.push(("firefox".to_string(), 1_000, 1_000, true, true));
    }
    for _ in 0..6 {
        expected.push(("kitty".to_string(), 1_000, 1_000, true, true));
    }
    assert_eq!(got, expected);
}

#[test]
fn section_indices_and_keys() {
    assert_eq!(section_index(1_000, 250, 1_999), 3);
    assert_eq!(section_index(1_000, 250, 1_000), 0);
    let mut s = focused_settings();
    assert_eq!(key(&s, &"firefox".to_string(), &"docs".to_string()), "firefox");
    s.class_arg = "firefox".to_string();
    assert_eq!(key(&s, &"firefox".to_string(), &"docs".to_string()), "docs");
    s.full = true;
    assert_eq!(key(&s, &"firefox".to_string(), &"docs".to_string()), "firefox: docs");
}

#[test]
fn a_fresh_timeline_is_materialized() {
    let m = model();
    let s = focused_settings();
    let mut cache = TimelineCache::new();
    let (timeline, labels) = materialize_single_timeline_at(&m, &s, &mut cache, &cache_key(), 0, 10_000, 10, None, 10_000);
    assert_eq!(timeline, " █████████");
    let mut expected = vec![String::new()];
    for _ in 0..3 {
        expected.push("firefox".to_string());
    }
    for _ in 0..6 {
        expected.push("kitty".to_string());
    }
    assert_eq!(labels, expected);
}

#[test]
fn materializing_again_gives_the_same_timeline() {
    let m = model();
    let s = focused_settings();
    let mut cache = TimelineCache::new();
    let first = materialize_single_timeline_at(&m, &s, &mut cache, &cache_key(), 0, 10_000, 10, None, 10_000);
    let second = materialize_single_timeline_at(&m, &s, &mut cache, &cache_key(), 0, 10_000, 10, None, 10_000);
    assert_eq!(first, second);
}

#[test]
fn section_characters() {
    assert_eq!(choose_character(&section(0, false, false), 1_000), ' ');
    assert_eq!(choose_character(&section(300, false, false), 1_000), '│');
    assert_eq!(choose_character(&section(500, false, false), 1_000), '┃');
    assert_eq!(choose_character(&section(700, false, false), 1_000), '█');
    assert_eq!(choose_character(&section(100, true, false), 1_000), '▏');
    assert_eq!(choose_character(&section(500, true, false), 1_000), '▌');
    assert_eq!(choose_character(&section(100, false, true), 1_000), '🮇');
    assert_eq!(choose_character(&section(0, true, true), 1_000), '█');
    assert_eq!(choose_character(&section(10, true, false), 0), '—');
    assert_eq!(choose_character(&section(10, false, false), 0), ' ');
}

#[test]
fn label_colours() {
    assert_eq!(color_from_index(0), Color::Green);
    assert_eq!(color_from_index(11), Color::LightCyan);
    assert_eq!(color_from_index(12), Color::White);
    let labels = vec!["b".to_string(), "a".to_string(), "b".to_string(), "c".to_string()];
    let map = key_to_color_map(&labels);
    let got: Vec<(String, Color)> = map.clone();
    assert_eq!(
        got,
        vec![
            (String::new(), Color::Black),
            ("b".to_string(), Color::Green),
            ("a".to_string(), Color::Red),
            ("c".to_string(), Color::Blue),
        ]
    );
    assert_eq!(color_for(&map, "a"), Color::Red);
    assert_eq!(color_for(&map, ""), Color::Black);
    assert_eq!(color_for(&map, "zzz"), Color::White);
}

#[test]
fn timeline_runs_group_colours() {
    let map = key_to_color_map(&vec!["a".to_string(), "b".to_string()]);
    let labels = vec!["a".to_string(), "a".to_string(), String::new(), "b".to_string()];
    let runs = timeline_runs("██ █", &labels, &map, None);
    assert_eq!(
        runs,
        vec![
            ("██".to_string(), RunStyle::Colored(Color::Green)),
            (" ".to_string(), RunStyle::Blank),
            ("█".to_string(), RunStyle::Colored(Color::Red)),
        ]
    );
    let own = "b".to_string();
    let runs = timeline_runs("ab", &labels, &map, Some(&own));
    assert_eq!(runs, vec![("ab".to_string(), RunStyle::Colored(Color::Red))]);
}

#[test]
fn timeline_modes() {
    let mut s = focused_settings();
    assert_eq!(single_mode(&s), TimelineMode::SingleAll);
    assert_eq!(multi_mode(&s), TimelineMode::MultiClass);
    s.class_arg = "firefox".to_string();
    assert_eq!(single_mode(&s), TimelineMode::SingleClass);
    assert_eq!(multi_mode(&s), TimelineMode::MultiTitle);
    s.full = true;
    assert_eq!(single_mode(&s), TimelineMode::SingleClassFull);
    assert_eq!(multi_mode(&s), TimelineMode::MultiFull);
}

#[test]
fn dynamic_columns_around_now() {
    assert_eq!(dynamic_column_range_at(0, 10, 1_000, true, 5_500), (4, 7));
    assert_eq!(dynamic_column_range_at(0, 10, 1_000, true, 500), (0, 2));
    assert_eq!(dynamic_column_range_at(0, 10, 1_000, true, 9_500), (8, 10));
    assert_eq!(dynamic_column_range_at(0, 10, 1_000, false, 5_500), (0, 0));
    assert_eq!(dynamic_column_range_at(0, 10, 1_000, true, 10_000), (0, 0));
    assert_eq!(cacheable_column_ranges(10, (4, 7)), vec![(0, 4), (7, 10)]);
    assert_eq!(cacheable_column_ranges(10, (0, 0)), vec![(0, 10)]);
}

#[test]
fn cache_lookup_after_insert() {
    let mut cache = TimelineCache::new();
    assert!(cache.entries_for_key(&cache_key()).is_none());
    cache.insert(cache_key(), entry(0, 3_000, "abc"));
    let e = cache.exact_entry(&cache_key(), 0, 3_000).unwrap();
    assert_eq!(e.timeline, "abc");
    assert!(cache.exact_entry(&cache_key(), 0, 2_000).is_none());
    let other = TimelineCacheKey { ms_per_character: 500, mode: TimelineMode::SingleAll, label: None };
    assert!(cache.entries_for_key(&other).is_none());
}

#[test]
fn touching_pieces_merge() {
    let mut cache = TimelineCache::new();
    cache.insert(cache_key(), entry(0, 3_000, "abc"));
    cache.insert(cache_key(), entry(3_000, 5_000, "de"));
    let bucket = cache.entries_for_key(&cache_key()).unwrap();
    assert_eq!(bucket.len(), 1);
    assert_eq!((bucket[0].start_ms, bucket[0].end_ms), (0, 5_000));
    assert_eq!(bucket[0].timeline, "abcde");
    assert_eq!(bucket[0].section_labels, vec!["a", "b", "c", "d", "e"]);
}

#[test]
fn same_span_replaces_and_empty_span_is_ignored() {
    let mut cache = TimelineCache::new();
    cache.insert(cache_key(), entry(0, 3_000, "abc"));
    cache.insert(cache_key(), entry(0, 3_000, "xyz"));
    assert_eq!(cache.exact_entry(&cache_key(), 0, 3_000).unwrap().timeline, "xyz");
    cache.insert(cache_key(), entry(5_000, 5_000, ""));
    assert_eq!(cache.entries_for_key(&cache_key()).unwrap().len(), 1);
    cache.clear();
    assert!(cache.entries_for_key(&cache_key()).is_none());
}

#[test]
fn table_windows() {
    assert_eq!(window_counts(0, 5, 3), (false, false, 3));
    assert_eq!(window_counts(0, 3, 10), (false, true, 2));
    assert_eq!(window_counts(2, 3, 10), (true, true, 1));
    assert_eq!(window_counts(8, 3, 10), (true, false, 2));
    assert_eq!(window_counts(0, 0, 10), (false, false, 0));
}

#[test]
fn scrolling_brings_the_selection_into_view() {
    let mut scroll = 0usize;
    adjust_scroll(&mut scroll, Some(9), 10, 4);
    let (top, _, count) = window_counts(scroll, 4, 10);
    assert!(scroll <= 9 && 9 < scroll + count);
    assert!(top);
    let mut back = 7usize;
    adjust_scroll(&mut back, Some(0), 10, 4);
    assert_eq!(back, 0);
    let mut none = 12usize;
    adjust_scroll(&mut none, None, 10, 4);
    assert_eq!(none, 9);
}

#[test]
fn a_one_row_body_scrolled_into_the_middle_shows_two_ellipses() {
    assert_eq!(window_counts(1, 1, 3), (true, true, 0));
    let (top, bottom, count) = window_counts(3, 4, 10);
    assert!(top as usize + bottom as usize + count <= 4);
}

#[test]
fn one_timeline_per_label() {
    let m = model();
    let mut s = focused_settings();
    s.multi_timeline = true;
    let labels = vec!["kitty".to_string(), String::new(), "firefox".to_string()];
    let mut cache = TimelineCache::new();
    let rows = render_multi_timelines_at(&m, &labels, &s, &mut cache, 10, 10_000);
    assert_eq!(
        rows,
        vec![("    ██████".to_string(), Color::Green), (" ███      ".to_string(), Color::Blue)]
    );
    assert!(render_multi_timelines_at(&m, &labels, &s, &mut cache, 0, 10_000).is_empty());
}

#[test]
fn a_cached_piece_is_copied_into_its_columns() {
    let m = Model::new();
    let s = Settings::new(Interval::new(0, 100_000));
    let key = TimelineCacheKey { ms_per_character: 10, mode: TimelineMode::SingleAll, label: None };
    let mut cache = TimelineCache::new();
    cache.insert(key.clone(), entry(80, 140, "abcdef"));
    let (timeline, labels) = materialize_single_timeline_at(&m, &s, &mut cache, &key, 100, 130, 3, None, 10_000);
    assert_eq!(timeline, "cde");
    assert_eq!(labels, vec!["c".to_string(), "d".to_string(), "e".to_string()]);
    let pieces = cache.entries_for_key(&key).unwrap();
    assert_eq!(pieces.len(), 1);
    assert_eq!((pieces[0].start_ms, pieces[0].end_ms, pieces[0].timeline.as_str()), (80, 140, "abcdef"));
}

#[test]
fn an_exact_cached_piece_is_taken_whole() {
    let m = Model::new();
    let s = Settings::new(Interval::new(0, 100_000));
    let key = TimelineCacheKey { ms_per_character: 10, mode: TimelineMode::SingleAll, label: None };
    let mut cache = TimelineCache::new();
    cache.insert(key.clone(), entry(100, 130, "xyz"));
    let (timeline, _) = materialize_single_timeline_at(&m, &s, &mut cache, &key, 100, 130, 3, None, 10_000);
    assert_eq!(timeline, "xyz");
    assert_eq!(cache.entries_for_key(&key).unwrap().len(), 1);
}

#[test]
fn a_full_bucket_keeps_the_latest_pieces() {
    let key = TimelineCacheKey { ms_per_character: 10, mode: TimelineMode::SingleAll, label: None };
    let mut cache = TimelineCache::new();
    for i in 0..64u64 {
        cache.insert(key.clone(), entry(i * 100, i * 100 + 10, "a"));
    }
    assert_eq!(cache.entries_for_key(&key).unwrap().len(), 64);
    assert_eq!(cache.entries_for_key(&key).unwrap()[0].start_ms, 0);
    cache.insert(key.clone(), entry(6_400, 6_410, "b"));
    let pieces = cache.entries_for_key(&key).unwrap();
    assert_eq!(pieces.len(), 64);
    assert_eq!(pieces[0].start_ms, 100);
    assert_eq!(pieces[63].start_ms, 6_400);
}

#[test]
fn a_fresh_timeline_is_cached_whole() {
    let m = model();
    let s = focused_settings();
    let mut cache = TimelineCache::new();
    let (timeline, labels) = materialize_single_timeline_at(&m, &s, &mut cache, &cache_key(), 0, 10_000, 10, None, 10_000);
    let pieces = cache.entries_for_key(&cache_key()).unwrap();
    assert_eq!(pieces.len(), 1);
    assert_eq!((pieces[0].start_ms, pieces[0].end_ms), (0, 10_000));
    assert_eq!(pieces[0].timeline, timeline);
    assert_eq!(pieces[0].section_labels, labels);
}

#[test]
fn a_later_piece_shows_over_an_earlier_one() {
    let key = TimelineCacheKey { ms_per_character: 10, mode: TimelineMode::SingleAll, label: None };
    let mut cache = TimelineCache::new();
    cache.insert(key.clone(), entry(100, 140, "abcd"));
    cache.insert(key.clone(), entry(120, 160, "wxyz"));
    let pieces = cache.entries_for_key(&key).unwrap();
    assert_eq!(pieces.len(), 1);
    assert_eq!((pieces[0].start_ms, pieces[0].end_ms, pieces[0].timeline.as_str()), (100, 160, "abwxyz"));
    cache.insert(key.clone(), entry(80, 110, "pqr"));
    let pieces = cache.entries_for_key(&key).unwrap();
    assert_eq!((pieces[0].start_ms, pieces[0].end_ms, pieces[0].timeline.as_str()), (80, 160, "pqabwxyz"));
}
