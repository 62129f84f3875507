use hyprlog::format::{format_duration, header, truncate_string, utf8_length};
use hyprlog::interval::{date_range_text, day_count_numbers, interval_xor, pan_day_numbers, Interval};
use hyprlog::reading::{days_to_read, intervals_to_read, log_file_names, record_in_interval};
use hyprlog::settings::Settings;
use hyprlog::ticks::{
    format_hour_label, month_label, ordinal_suffix, overlay_line_with_offset, place_ticks, select_tick_scale,
    tick_label, tick_row, TickScale, DAY_MS,
};

#[test]
fn format_duration_milliseconds() {
    assert_eq!(format_duration(0), "0ms");
    assert_eq!(format_duration(999), "999ms");
}

#[test]
fn format_duration_clock() {
    assert_eq!(format_duration(1_000), "00:01");
    assert_eq!(format_duration(61_000), "01:01");
    assert_eq!(format_duration(3_600_000), "01:00:00");
    assert_eq!(format_duration(90_061_000), "1d 01:01:01");
    assert_eq!(format_duration(366 * 86_400_000 + 1_000), "1y 1d 00:00:01");
}

#[test]
fn truncate_string_cases() {
    assert_eq!(truncate_string("hello", 10), "hello");
    assert_eq!(truncate_string("hello", 5), "hello");
    assert_eq!(truncate_string("hello world", 8), "hello...");
    assert_eq!(truncate_string("hello", 3), "...");
    assert_eq!(truncate_string("hello", 2), "..");
    assert_eq!(truncate_string("hello", 0), "");
    assert_eq!(truncate_string("héllo world", 6), "hé...");
}

#[test]
fn utf8_length_counts_bytes() {
    assert_eq!(utf8_length("abc"), 3);
    assert_eq!(utf8_length("é"), 2);
    assert_eq!(utf8_length("│"), 3);
    assert_eq!(utf8_length("🮇"), 4);
}

#[test]
fn header_without_room_is_the_date() {
    assert_eq!(header("2024-01-01", 10, "          "), "2024-01-01");
}

#[test]
fn header_with_box() {
    let ticks = " ".repeat(20);
    let h = header("2024-01-01", 20, &ticks);
    let expected = format!(
        "   ╭{}╮\n   │ 2024-01-01 │   \n┌──┴{}┴──┐\n\n",
        "─".repeat(12),
        "─".repeat(12)
    );
    assert_eq!(h, expected);
}

#[test]
fn ordinal_suffixes() {
    assert_eq!(ordinal_suffix(1), "st");
    assert_eq!(ordinal_suffix(2), "nd");
    assert_eq!(ordinal_suffix(3), "rd");
    assert_eq!(ordinal_suffix(4), "th");
    assert_eq!(ordinal_suffix(11), "th");
    assert_eq!(ordinal_suffix(12), "th");
    assert_eq!(ordinal_suffix(13), "th");
    assert_eq!(ordinal_suffix(21), "st");
    assert_eq!(ordinal_suffix(112), "th");
}

#[test]
fn hour_labels() {
    assert_eq!(format_hour_label(0), "12a");
    assert_eq!(format_hour_label(1), "1a");
    assert_eq!(format_hour_label(12), "12p");
    assert_eq!(format_hour_label(13), "1p");
    assert_eq!(format_hour_label(23), "11p");
}

#[test]
fn month_labels() {
    assert_eq!(month_label(1), "Jan.");
    assert_eq!(month_label(5), "May.");
    assert_eq!(month_label(12), "Dec.");
    assert_eq!(month_label(0), "");
    assert_eq!(month_label(13), "");
}

#[test]
fn tick_labels() {
    assert_eq!(tick_label(TickScale::Hours(6), 0, 3, 1, 2024), "3rd");
    assert_eq!(tick_label(TickScale::Hours(6), 18, 3, 1, 2024), "6p");
    assert_eq!(tick_label(TickScale::Days(1), 5, 22, 1, 2024), "22nd");
    assert_eq!(tick_label(TickScale::Weeks(1), 5, 11, 1, 2024), "11th");
    assert_eq!(tick_label(TickScale::Months(1), 0, 1, 2, 2024), "Feb.");
    assert_eq!(tick_label(TickScale::Years(1), 0, 1, 1, 2024), "24");
    assert_eq!(tick_label(TickScale::Years(1), 0, 1, 1, 2005), "05");
    assert_eq!(tick_label(TickScale::Years(1), 0, 1, 1, -5), "-5");
}

#[test]
fn tick_scales() {
    assert_eq!(select_tick_scale(0), TickScale::Hours(6));
    assert_eq!(select_tick_scale(DAY_MS * 2), TickScale::Hours(6));
    assert_eq!(select_tick_scale(DAY_MS * 2 + 1), TickScale::Days(1));
    assert_eq!(select_tick_scale(DAY_MS * 14), TickScale::Days(1));
    assert_eq!(select_tick_scale(DAY_MS * 90), TickScale::Weeks(1));
    assert_eq!(select_tick_scale(DAY_MS * 730), TickScale::Months(1));
    assert_eq!(select_tick_scale(DAY_MS * 731), TickScale::Years(1));
}

#[test]
fn overlay_lines() {
    assert_eq!(overlay_line_with_offset("abcdef", "XY", 2), "abXYef");
    assert_eq!(overlay_line_with_offset("abc", "XYZ", 2), "abX");
    assert_eq!(overlay_line_with_offset("abc", "XYZ", 5), "abc");
}

#[test]
fn ticks_are_placed_by_column() {
    let ticks = vec![
        (0i64, String::from("a")),
        (50, String::from("bc")),
        (95, String::from("z")),
        (-10, String::from("n")),
        (100, String::from("e")),
    ];
    assert_eq!(place_ticks(10, 0, 100, &ticks), "│a   │bc │");
}

#[test]
fn tick_columns_round_toward_zero() {
    let ticks = vec![(-5i64, String::from("x"))];
    assert_eq!(place_ticks(10, 0, 100, &ticks), "│x        ");
}

#[test]
fn tick_row_of_an_empty_interval_is_blank() {
    let mut settings = Settings::new(Interval::new(1_000, 1_000));
    assert_eq!(tick_row(&settings, 0, true), "");
    assert_eq!(tick_row(&settings, 5, true), "     ");
    settings.focused_interval = Interval::new(1_700_000_000_000, 1_700_000_000_000 + DAY_MS as i64);
    assert_eq!(tick_row(&settings, 40, true).chars().count(), 40);
}

#[test]
fn interval_basics() {
    let a = Interval::new(100, 200);
    assert_eq!(a.width(), 100);
    assert!(a.contains_interval(&Interval::new(120, 200)));
    assert!(!a.contains_interval(&Interval::new(90, 150)));
    assert_eq!(a.overlap(&Interval::new(150, 300)), Some(Interval::new(150, 200)));
    assert_eq!(a.overlap(&Interval::new(200, 300)), None);
    let mut loaded = Interval::new(150, 180);
    loaded.expand_to_include(&a);
    assert_eq!((loaded.start, loaded.end), (100, 200));
    assert!(loaded.contains_interval(&a));
}

#[test]
fn instants_in_an_interval() {
    let a = Interval::new(1_000, 2_000);
    assert!(a.contains_utc_timestamp_millis(1_000));
    assert!(a.contains_utc_timestamp_millis(1_999));
    assert!(!a.contains_utc_timestamp_millis(2_000));
    assert!(!a.contains_utc_timestamp_millis(999));
}

#[test]
fn xor_of_intervals() {
    let pieces = interval_xor(&Interval::new(100, 200), &Interval::new(150, 300));
    let bounds: Vec<(i64, i64)> = pieces.iter().map(|p| (p.start, p.end)).collect();
    assert_eq!(bounds, vec![(100, 150), (200, 300)]);
    let apart = interval_xor(&Interval::new(0, 10), &Interval::new(20, 30));
    let bounds: Vec<(i64, i64)> = apart.iter().map(|p| (p.start, p.end)).collect();
    assert_eq!(bounds, vec![(0, 10), (20, 30)]);
    let same = interval_xor(&Interval::new(0, 10), &Interval::new(0, 10));
    assert!(same.is_empty());
}

#[test]
fn zoom_in_and_out_around_an_anchor() {
    let mut a = Interval::new(0, 100_000);
    a.zoom_around_until(50_000, true, i64::MAX / 2);
    assert_eq!((a.start, a.end, a.changed), (10_000, 90_000, true));
    let mut b = Interval::new(0, 100_000);
    b.zoom_around_until(50_000, false, i64::MAX / 2);
    assert_eq!((b.start, b.end), (-12_500, 112_500));
    let mut c = Interval::new(0, 100_000);
    c.zoom_around_until(50_000, false, 100_000);
    assert_eq!((c.start, c.end), (-25_000, 100_000));
}

#[test]
fn zoom_in_stops_at_a_minute() {
    let mut a = Interval::new(0, 60_000);
    a.zoom_around_until(30_000, true, i64::MAX / 2);
    assert_eq!((a.start, a.end, a.changed), (0, 60_000, false));
}

#[test]
fn pan_by_milliseconds() {
    let mut a = Interval::new(1_000, 2_000);
    a.pan_millis_until(500, 10_000);
    assert_eq!((a.start, a.end, a.changed), (1_500, 2_500, true));
    let mut b = Interval::new(1_000, 2_000);
    b.pan_millis_until(500, 2_200);
    assert_eq!((b.start, b.end), (1_200, 2_200));
}

#[test]
fn pan_by_days() {
    assert_eq!(pan_day_numbers(10, 12, 20, 3, true), (13, 15));
    assert_eq!(pan_day_numbers(10, 12, 14, 3, true), (12, 14));
    assert_eq!(pan_day_numbers(10, 12, 20, 3, false), (7, 9));
}

#[test]
fn date_ranges() {
    assert_eq!(date_range_text(719163, 719163), "1970-01-01");
    assert_eq!(date_range_text(719163, 719164), "1970-01-01 - 1970-01-02");
}

#[test]
fn pieces_to_read_are_focused_and_not_loaded() {
    let read = intervals_to_read(&Interval::new(100, 200), &Interval::new(150, 300));
    let bounds: Vec<(i64, i64)> = read.iter().map(|p| (p.start, p.end)).collect();
    assert_eq!(bounds, vec![(100, 150)]);
    let read = intervals_to_read(&Interval::new(100, 200), &Interval::new(0, 0));
    let bounds: Vec<(i64, i64)> = read.iter().map(|p| (p.start, p.end)).collect();
    assert_eq!(bounds, vec![(100, 200)]);
    let read = intervals_to_read(&Interval::new(100, 200), &Interval::new(0, 300));
    assert!(read.is_empty());
}

#[test]
fn days_and_files_to_read() {
    let days = days_to_read(&Interval::new(0, 2 * 86_400_000), &Interval::new(0, 0));
    assert_eq!(days, vec![719163, 719164, 719165]);
    let names = log_file_names(&days);
    assert_eq!(names, vec!["1970-01-01.csv", "1970-01-02.csv", "1970-01-03.csv"]);
    let before_epoch = days_to_read(&Interval::new(-1, 1), &Interval::new(0, 0));
    assert_eq!(log_file_names(&before_epoch), vec!["1969-12-31.csv", "1970-01-01.csv"]);
}

#[test]
fn overlapping_pieces_share_their_days() {
    let days = days_to_read(&Interval::new(0, 3 * 86_400_000), &Interval::new(86_400_000 + 5, 86_400_000 + 10));
    assert_eq!(days, vec![719163, 719164, 719165, 719166]);
}

#[test]
fn records_in_an_interval() {
    let iv = Interval::new(1_000, 2_000);
    assert_eq!(record_in_interval(&iv, "1500"), Some(true));
    assert_eq!(record_in_interval(&iv, "+1500"), Some(true));
    assert_eq!(record_in_interval(&iv, "999"), Some(false));
    assert_eq!(record_in_interval(&iv, "abc"), None);
    assert_eq!(record_in_interval(&iv, "-5"), None);
    assert_eq!(record_in_interval(&iv, ""), None);
}

fn utc_ms(y: i32, m: u32, d: u32) -> i64 {
    chrono::NaiveDate::from_ymd_opt(y, m, d)
        .unwrap()
        .and_hms_opt(0, 0, 0)
        .unwrap()
        .and_utc()
        .timestamp_millis()
}

#[test]
fn yearly_ticks_fall_on_new_year() {
    let settings = Settings::new(Interval::new(utc_ms(2000, 6, 1), utc_ms(2010, 6, 1)));
    let row = tick_row(&settings, 100, true);
    assert_eq!(row.chars().count(), 100);
    assert_eq!(row.chars().filter(|c| *c == '│').count(), 10);
}

#[test]
fn monthly_ticks_fall_on_the_first() {
    let settings = Settings::new(Interval::new(utc_ms(2001, 1, 15), utc_ms(2002, 1, 15)));
    let row = tick_row(&settings, 120, true);
    assert_eq!(row.chars().filter(|c| *c == '│').count(), 12);
    assert!(row.contains("Feb."));
}

#[test]
fn truncation_fits_the_byte_budget() {
    for max in 0..12 {
        let cut = truncate_string("héllo wörld", max);
        assert!(cut.len() <= max);
    }
}

#[test]
fn the_last_days_end_tomorrow() {
    assert_eq!(day_count_numbers(100, 3), (98, 101));
    assert_eq!(day_count_numbers(100, 1), (100, 101));
    assert_eq!(day_count_numbers(100, 0), (101, 101));
}

#[test]
fn dates_of_an_interval_in_range() {
    // One day from the epoch: the local dates of its first and last second, in any zone.
    let text = Interval::new(0, 86_400_000).date_str();
    let n = text.chars().count();
    assert!(n == 10 || n == 23, "{}", text);
    assert!(text.starts_with("1969-12-3") || text.starts_with("1970-01-0"), "{}", text);
}

#[test]
fn a_moved_interval_is_not_today() {
    let mut iv = Interval::new(0, 86_400_000);
    iv.changed = true;
    assert!(!iv.is_default());
}

#[test]
fn an_interval_compared_with_today() {
    let a = Interval::new(100, 200);
    assert!(a.same_as(Some(Interval::new(100, 200))));
    assert!(!a.same_as(Some(Interval::new(100, 300))));
    assert!(!a.same_as(None));
    let mut moved = a;
    moved.changed = true;
    assert!(!moved.same_as(Some(a)));
}

#[test]
fn instants_at_the_edge_of_chronos_range() {
    let all = Interval::new(0, i64::MAX);
    assert!(all.contains_utc_timestamp_millis(8_200_000_000_000_000));
    assert!(!all.contains_utc_timestamp_millis(9_000_000_000_000_000));
}
