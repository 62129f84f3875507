use hyprlog::interval::Interval;
use hyprlog::interval_change::handle_interval_change_at;
use hyprlog::model::{Log, LogIds, Model};
use hyprlog::model_building::{build_model_at, BuildError};
use hyprlog::settings::{filter_class, Settings};
use hyprlog::stream::{command_event, event_of, DaemonToClient, StreamEvent};
use hyprlog::tui::{timeline_contains, App, Area, Key, MouseKind};

fn events(list: &[(&str, &str, &str)]) -> Vec<(String, String, String)> {
    list.iter().map(|(t, c, ti)| (t.to_string(), c.to_string(), ti.to_string())).collect()
}

fn settings_unloaded() -> Settings {
    let mut s = Settings::new(Interval::new(0, 100_000));
    s.loaded_interval = Interval::new(0, 0);
    s
}

fn two_log_model() -> Model {
    let mut ids = LogIds::new();
    let iv = Interval::new(0, 100_000);
    let mut m = Model::new();
    m.add_log_at(Log::new(&mut ids, 1_000, Some(4_000), "firefox".to_string(), "docs".to_string()), false, &iv, 50_000);
    m.add_log_at(Log::new(&mut ids, 4_000, None, "kitty".to_string(), "shell".to_string()), false, &iv, 50_000);
    m
}

#[test]
fn log_durations() {
    let mut ids = LogIds::new();
    let closed = Log::new(&mut ids, 1_000, Some(4_000), "a".to_string(), "b".to_string());
    assert_eq!(closed.duration_at(99_999), 3_000);
    let open = Log::new(&mut ids, 1_000, None, "a".to_string(), "b".to_string());
    assert_eq!(open.duration_at(1_500), 500);
    assert_eq!(open.duration_at(500), 0);
}

#[test]
fn model_numbers_and_maps_added_logs() {
    let m = two_log_model();
    assert_eq!(m.logs.len(), 2);
    assert_eq!(m.logs[0].id, 1);
    assert_eq!(m.logs[1].id, 2);
    assert_eq!(m.mapped, vec![true, true]);
    assert!(m.get_class(&"firefox".to_string()).is_some());
    assert!(m.get_class(&"slack".to_string()).is_none());
    assert!(m.index_of("kitty").is_some());
    assert_eq!(m.index_of("slack"), None);
    let title = m.get_title(&"firefox".to_string(), &"docs".to_string()).unwrap();
    assert_eq!(title.total_duration_at(&m.logs, 50_000), 3_000);
}

#[test]
fn adding_a_log_ends_the_open_one() {
    let mut ids = LogIds::new();
    let iv = Interval::new(0, 100_000);
    let mut m = two_log_model();
    m.add_log_at(Log::new(&mut ids, 7_000, None, "firefox".to_string(), "mail".to_string()), false, &iv, 50_000);
    assert_eq!(m.logs[1].end, Some(7_000));
    assert_eq!(m.logs[2].end, None);
    let kitty = m.get_class(&"kitty".to_string()).unwrap();
    assert_eq!(kitty.total_duration_at(&m.logs, 50_000), 3_000);
}

#[test]
fn classes_sort_by_time() {
    let mut m = two_log_model();
    m.sort_at(50_000);
    assert_eq!(m.classes[0].class, "kitty");
    assert_eq!(m.classes[1].class, "firefox");
    assert_eq!(m.titles.len(), 2);
}

#[test]
fn logs_outside_the_focused_interval_are_not_mapped() {
    let mut ids = LogIds::new();
    let iv = Interval::new(0, 3_000);
    let mut m = Model::new();
    m.add_log_at(Log::new(&mut ids, 1_000, Some(4_000), "firefox".to_string(), "docs".to_string()), false, &iv, 50_000);
    assert_eq!(m.mapped, vec![false]);
    assert!(m.classes.is_empty());
}

#[test]
fn logs_in_an_interval() {
    let m = two_log_model();
    assert_eq!(m.logs_iter_at(&Interval::new(0, 100_000), 50_000).len(), 2);
    assert_eq!(m.logs_iter_at(&Interval::new(0, 3_000), 50_000).len(), 0);
    assert_eq!(m.logs_iter_at(&Interval::new(3_000, 60_000), 50_000).len(), 1);
}

#[test]
fn remapping_for_an_interval() {
    let mut m = two_log_model();
    m.rebuild_visible_for_interval_at(&Interval::new(3_000, 100_000), 50_000);
    assert_eq!(m.mapped, vec![false, true]);
    assert_eq!(m.classes.len(), 1);
    assert_eq!(m.classes[0].class, "kitty");
    m.reset_mappings();
    assert_eq!(m.mapped, vec![false, false]);
    assert!(m.classes.is_empty());
}

#[test]
fn building_from_events() {
    let mut ids = LogIds::new();
    let s = settings_unloaded();
    let mut m = Model::new();
    let ev = events(&[
        ("1000", "firefox", "docs"),
        ("4000", "kitty", "shell"),
        ("6000", "SYSTEM", "idle"),
        ("8000", "SYSTEM", "resume"),
        ("9000", "firefox", "docs"),
    ]);
    assert_eq!(build_model_at(&mut m, &ev, &s, &mut ids, 50_000), Ok(()));
    let got: Vec<(u64, Option<u64>, String, String)> =
        m.logs.iter().map(|l| (l.start, l.end, l.class.clone(), l.title.clone())).collect();
    assert_eq!(
        got,
        vec![
            (1_000, Some(4_000), "firefox".to_string(), "docs".to_string()),
            (4_000, Some(6_000), "kitty".to_string(), "shell".to_string()),
            (8_000, Some(9_000), "kitty".to_string(), "shell".to_string()),
            (9_000, None, "firefox".to_string(), "docs".to_string()),
        ]
    );
}

#[test]
fn boot_forgets_the_open_window() {
    let mut ids = LogIds::new();
    let s = settings_unloaded();
    let mut m = Model::new();
    let ev = events(&[("1000", "firefox", "docs"), ("2000", "SYSTEM", "boot"), ("3000", "SYSTEM", "resume")]);
    assert_eq!(build_model_at(&mut m, &ev, &s, &mut ids, 50_000), Ok(()));
    assert!(m.logs.is_empty());
}

#[test]
fn events_already_loaded_are_skipped() {
    let mut ids = LogIds::new();
    let mut s = settings_unloaded();
    s.loaded_interval = Interval::new(0, 5_000);
    let mut m = Model::new();
    let ev = events(&[("1000", "firefox", "docs"), ("6000", "kitty", "shell")]);
    assert_eq!(build_model_at(&mut m, &ev, &s, &mut ids, 50_000), Ok(()));
    assert_eq!(m.logs.len(), 1);
    assert_eq!(m.logs[0].class, "kitty");
}

#[test]
fn a_bad_timestamp_stops_the_build() {
    let mut ids = LogIds::new();
    let s = settings_unloaded();
    let mut m = Model::new();
    let ev = events(&[("1000", "firefox", "docs"), ("soon", "kitty", "shell"), ("3000", "a", "b")]);
    assert_eq!(build_model_at(&mut m, &ev, &s, &mut ids, 50_000), Err(BuildError::BadTimestamp(1)));
    assert!(m.logs.is_empty());
}

#[test]
fn classes_are_renamed() {
    let mut s = settings_unloaded();
    s.class_mappings = vec![("org.mozilla.firefox".to_string(), "firefox".to_string())];
    assert_eq!(filter_class("org.mozilla.firefox".to_string(), &s), "firefox");
    assert_eq!(filter_class("kitty".to_string(), &s), "kitty");
    assert_eq!(filter_class("steam_app_1234".to_string(), &s), "steam");
}

#[test]
fn daemon_messages_become_events() {
    match event_of(DaemonToClient::Welcome { current_seq: 7 }) {
        StreamEvent::Welcome { current_seq } => assert_eq!(current_seq, 7),
        _ => panic!("expected a welcome"),
    }
    let ev = event_of(DaemonToClient::Log { seq: 3, timestamp: 10, class: "a".to_string(), title: "b".to_string() });
    match ev {
        StreamEvent::Log { seq, timestamp, class, title } => {
            assert_eq!((seq, timestamp, class.as_str(), title.as_str()), (3, 10, "a", "b"))
        }
        _ => panic!("expected a log"),
    }
}

#[test]
fn socket_commands() {
    assert_eq!(command_event("idle"), Some(("SYSTEM", "idle")));
    assert_eq!(command_event("resume"), Some(("SYSTEM", "resume")));
    assert_eq!(command_event("boot"), None);
    assert_eq!(command_event(""), None);
}

#[test]
fn stream_events_in_order_wait_to_be_added() {
    let mut app = App::new(settings_unloaded());
    app.apply_stream_event(StreamEvent::Welcome { current_seq: 5 });
    assert_eq!(app.next_expected_seq, 5);
    app.apply_stream_event(StreamEvent::Log {
        seq: 5,
        timestamp: 2_000,
        class: "steam_app_9".to_string(),
        title: "game".to_string(),
    });
    assert_eq!(app.next_expected_seq, 6);
    assert_eq!(app.pending_logs.len(), 1);
    assert_eq!(app.pending_logs[0].class, "steam");
    assert_eq!(app.pending_logs[0].end, None);
    assert!(!app.needs_full_rebuild);
    app.apply_stream_event(StreamEvent::Log { seq: 4, timestamp: 1, class: "x".to_string(), title: "y".to_string() });
    assert_eq!(app.next_expected_seq, 6);
    assert_eq!(app.pending_logs.len(), 1);
}

#[test]
fn a_skipped_sequence_number_asks_for_a_rebuild() {
    let mut app = App::new(settings_unloaded());
    app.apply_stream_event(StreamEvent::Log { seq: 8, timestamp: 1, class: "x".to_string(), title: "y".to_string() });
    assert!(app.needs_full_rebuild);
    assert_eq!(app.next_expected_seq, 9);
    let mut other = App::new(settings_unloaded());
    other.apply_stream_event(StreamEvent::Disconnected);
    assert!(other.needs_full_rebuild);
    let mut gap = App::new(settings_unloaded());
    gap.apply_stream_event(StreamEvent::Gap { expected: 1, received: 3 });
    assert!(gap.needs_full_rebuild);
}

#[test]
fn update_adds_the_waiting_logs() {
    let mut app = App::new(settings_unloaded());
    app.apply_stream_event(StreamEvent::Log {
        seq: 0,
        timestamp: 2_000,
        class: "kitty".to_string(),
        title: "shell".to_string(),
    });
    app.update_at(50_000);
    assert_eq!(app.model.logs.len(), 1);
    assert!(app.pending_logs.is_empty());
    assert_eq!(app.model.classes.len(), 1);
}

#[test]
fn keys_quit_and_toggle() {
    let mut app = App::new(settings_unloaded());
    app.handle_key_event(Key::Char('m'));
    assert!(app.settings.multi_timeline);
    app.handle_key_event(Key::Char('m'));
    assert!(!app.settings.multi_timeline);
    app.handle_key_event(Key::Char('f'));
    assert!(app.follow);
    assert!(!app.should_quit);
    app.handle_key_event(Key::Char('q'));
    assert!(app.should_quit);
}

#[test]
fn arrow_keys_move_the_selection() {
    let mut app = App::new(settings_unloaded());
    app.handle_key_event(Key::Down);
    assert!(app.selected_class.is_none());
    app.model = two_log_model();
    app.model.sort_at(50_000);
    app.handle_key_event(Key::Down);
    assert_eq!(app.selected_class, Some(("kitty".to_string(), 0)));
    app.handle_key_event(Key::Down);
    assert_eq!(app.selected_class, Some(("firefox".to_string(), 1)));
    app.handle_key_event(Key::Down);
    assert_eq!(app.selected_class, Some(("firefox".to_string(), 1)));
    app.handle_key_event(Key::Up);
    assert_eq!(app.selected_class, Some(("kitty".to_string(), 0)));
    app.handle_key_event(Key::Esc);
    assert!(app.selected_class.is_none());
    assert_eq!(app.settings.class_arg, "");
}

#[test]
fn mouse_inside_the_timeline() {
    let area = Area { x: 2, y: 1, width: 10, height: 3 };
    assert!(timeline_contains(area, 2, 1));
    assert!(timeline_contains(area, 11, 3));
    assert!(!timeline_contains(area, 12, 1));
    assert!(!timeline_contains(area, 2, 4));
    assert!(!timeline_contains(Area { x: 0, y: 0, width: 0, height: 0 }, 0, 0));
    let mut app = App::new(settings_unloaded());
    app.timeline_area = area;
    app.handle_mouse_event(MouseKind::LeftDown, 3, 2);
    assert!(app.drag_state.is_some());
    app.handle_mouse_event(MouseKind::LeftUp, 3, 2);
    assert!(app.drag_state.is_none());
}

#[test]
fn an_interval_change_reads_what_is_not_loaded() {
    let mut app = App::new(settings_unloaded());
    let ev = events(&[("1000", "firefox", "docs"), ("4000", "kitty", "shell")]);
    assert_eq!(handle_interval_change_at(&mut app, &ev, 50_000), Ok(()));
    assert_eq!(app.model.logs.len(), 2);
    assert_eq!((app.settings.loaded_interval.start, app.settings.loaded_interval.end), (0, 100_000));
    assert_eq!(app.model.mapped, vec![true, true]);
    assert_eq!(handle_interval_change_at(&mut app, &ev, 50_000), Ok(()));
    assert_eq!(app.model.logs.len(), 2);
}

#[test]
fn an_interval_change_with_a_bad_record_fails() {
    let mut app = App::new(settings_unloaded());
    let ev = events(&[("1000", "firefox", "docs"), ("x", "kitty", "shell")]);
    assert_eq!(handle_interval_change_at(&mut app, &ev, 50_000), Err(BuildError::BadTimestamp(1)));
    assert_eq!((app.settings.loaded_interval.start, app.settings.loaded_interval.end), (0, 0));
}

#[test]
fn a_rebuild_starts_from_an_empty_model() {
    let mut app = App::new(settings_unloaded());
    app.model = two_log_model();
    app.needs_full_rebuild = true;
    let ev = events(&[("1000", "firefox", "docs")]);
    assert_eq!(app.rebuild_model_at(&ev, 50_000), Ok(()));
    assert_eq!(app.model.logs.len(), 1);
    assert!(!app.needs_full_rebuild);
}

#[test]
fn table_scrolls_follow_the_selection() {
    let mut app = App::new(settings_unloaded());
    app.model = two_log_model();
    app.model.sort_at(50_000);
    app.selected_class = Some(("firefox".to_string(), 1));
    app.class_scroll = 0;
    app.prepare_tables_at(3, 3, 50_000);
    assert_eq!(app.class_scroll, 0);
    app.prepare_tables_at(0, 0, 50_000);
    assert_eq!(app.class_scroll, 0);
    assert_eq!(app.title_scroll, 0);
}

#[test]
fn logs_streamed_in_order_wait_in_order() {
    let mut app = App::new(settings_unloaded());
    app.apply_stream_event(StreamEvent::Welcome { current_seq: 10 });
    for (i, class) in ["a", "b", "c"].iter().enumerate() {
        app.apply_stream_event(StreamEvent::Log {
            seq: 10 + i as u64,
            timestamp: 1_000 * (i as i64 + 1),
            class: class.to_string(),
            title: "t".to_string(),
        });
    }
    assert_eq!(app.next_expected_seq, 13);
    assert!(!app.needs_full_rebuild);
    let got: Vec<(u64, String)> = app.pending_logs.iter().map(|l| (l.start, l.class.clone())).collect();
    assert_eq!(got, vec![(1_000, "a".to_string()), (2_000, "b".to_string()), (3_000, "c".to_string())]);
    app.apply_stream_event(StreamEvent::Log { seq: 20, timestamp: 1, class: "x".to_string(), title: "y".to_string() });
    app.apply_stream_event(StreamEvent::Welcome { current_seq: 21 });
    assert!(app.needs_full_rebuild);
}

#[test]
fn dragging_pans_the_interval_it_started_from() {
    let mut app = App::new(settings_unloaded());
    app.timeline_area = Area { x: 0, y: 0, width: 10, height: 3 };
    app.handle_mouse_event(MouseKind::LeftDown, 5, 1);
    app.handle_mouse_event(MouseKind::LeftDrag, 3, 1);
    let iv = app.settings.focused_interval;
    assert_eq!((iv.start, iv.end, iv.changed), (20_000, 120_000, true));
    app.handle_mouse_event(MouseKind::LeftDrag, 5, 1);
    let iv = app.settings.focused_interval;
    assert_eq!((iv.start, iv.end, iv.changed), (0, 100_000, false));
}

#[test]
fn escape_keeps_everything_else() {
    let mut app = App::new(settings_unloaded());
    app.selected_class = Some(("firefox".to_string(), 0));
    app.selected_title = Some(("docs".to_string(), 0));
    app.class_scroll = 3;
    app.title_scroll = 2;
    app.follow = true;
    app.handle_key_event(Key::Esc);
    assert!(app.selected_title.is_none());
    assert_eq!(app.selected_class, Some(("firefox".to_string(), 0)));
    assert_eq!((app.class_scroll, app.title_scroll, app.follow), (3, 0, true));
}

#[test]
fn an_update_rebuilds_and_clears_its_flags() {
    let mut app = App::new(settings_unloaded());
    app.needs_full_rebuild = true;
    app.settings.focused_interval.changed = true;
    let ev = events(&[("1000", "firefox", "docs"), ("4000", "kitty", "shell")]);
    assert_eq!(app.update_with_at(&ev, 50_000), Ok(()));
    assert!(!app.needs_full_rebuild);
    assert!(!app.settings.focused_interval.changed);
    assert!(app.pending_logs.is_empty());
    assert_eq!(app.model.logs.len(), 2);
}

#[test]
fn the_title_index_lists_each_title_once() {
    let mut m = two_log_model();
    m.ensure_titles_sorted_at(50_000);
    let mut pairs = m.titles.clone();
    assert_eq!(pairs.len(), 2);
    pairs.sort();
    pairs.dedup();
    assert_eq!(pairs.len(), 2);
}

#[test]
fn logs_keep_their_numbers() {
    let mut ids = LogIds::new();
    let first = Log::new(&mut ids, 1_000, Some(2_000), "a".to_string(), "x".to_string());
    let second = Log::new(&mut ids, 1_000, Some(3_000), "b".to_string(), "y".to_string());
    assert_eq!((first.id, second.id, ids.next), (1, 2, 3));
    let iv = Interval::new(0, 100_000);
    let mut m = Model::new();
    m.add_log_at(second, false, &iv, 50_000);
    m.add_log_at(first, false, &iv, 50_000);
    assert_eq!((m.logs[0].id, m.logs[1].id), (2, 1));
    assert_eq!(m.logs_by_start, vec![1, 0]);
}

fn class_summary(m: &Model) -> Vec<(String, Vec<usize>, u128, Vec<(String, Vec<usize>, u128)>)> {
    m.classes
        .iter()
        .map(|c| {
            let ts = c.titles.iter().map(|t| (t.title.clone(), t.logs.clone(), t.total_duration)).collect();
            (c.class.clone(), c.logs.clone(), c.total_duration, ts)
        })
        .collect()
}

#[test]
fn a_log_that_leaves_and_returns_restores_its_class() {
    let mut ids = LogIds::new();
    let wide = Interval::new(0, 100_000);
    let mut m = Model::new();
    m.add_log_at(Log::new(&mut ids, 1_000, Some(4_000), "code".to_string(), "a.rs".to_string()), false, &wide, 50_000);
    m.add_log_at(Log::new(&mut ids, 5_000, Some(6_000), "code".to_string(), "b.rs".to_string()), false, &wide, 50_000);
    m.reconcile_visible_for_interval_at(&wide, 50_000);
    let before = class_summary(&m);
    assert_eq!(before.len(), 1);
    assert_eq!(before[0].3.len(), 2);
    m.reconcile_visible_for_interval_at(&Interval::new(0, 4_500), 50_000);
    assert_eq!(m.mapped, vec![true, false]);
    assert_eq!(m.classes[0].titles.len(), 1);
    assert_eq!(m.classes[0].total_duration, 3_000);
    m.reconcile_visible_for_interval_at(&wide, 50_000);
    assert_eq!(m.mapped, vec![true, true]);
    assert_eq!(class_summary(&m), before);
}
