use rust_kernel::conflicts::{detect_conflicts, parse_time_to_minutes, MeetingRecord};

fn record(section: &str, day_code: &str, day_name: &str, start: &str, end: &str) -> MeetingRecord {
    record_course("COMP112", section, day_code, day_name, start, end)
}

fn record_course(
    course: &str,
    section: &str,
    day_code: &str,
    day_name: &str,
    start: &str,
    end: &str,
) -> MeetingRecord {
    MeetingRecord {
        term: "1269".to_string(),
        term_label: "Fall 2026".to_string(),
        subject_code: "COMP".to_string(),
        course_code: course.to_string(),
        course_ref: "003328".to_string(),
        section: section.to_string(),
        day_code: day_code.to_string(),
        day_name: day_name.to_string(),
        start_time: start.to_string(),
        end_time: end.to_string(),
        source_url: "test".to_string(),
    }
}

#[test]
fn parses_time_to_minutes() {
    assert_eq!(parse_time_to_minutes("08:50AM").unwrap(), 8 * 60 + 50);
    assert_eq!(parse_time_to_minutes("12:10PM").unwrap(), 12 * 60 + 10);
    assert_eq!(parse_time_to_minutes("12:00AM").unwrap(), 0);
}

#[test]
fn detects_overlap_for_selected_sections() {
    let meetings = vec![
        record("01", "T", "Tuesday", "08:50AM", "10:10AM"),
        record("02", "T", "Tuesday", "09:30AM", "10:20AM"),
        record("03", "R", "Thursday", "10:20AM", "11:40AM"),
    ];

    let selected = vec!["COMP112-01".to_string(), "COMP112-02".to_string()];
    let conflicts = detect_conflicts(&meetings, &selected);
    assert_eq!(conflicts.len(), 1);
    assert_eq!(conflicts[0].day_code, "T");
}

/// Three courses same day: short middle meeting overlaps only the first long block; third overlaps
/// the first but not the middle. A sweep that only compares consecutive starts would miss the 1st–3rd pair.
#[test]
fn detects_non_adjacent_overlaps_on_same_day() {
    let meetings = vec![
        record_course("COMP100", "01", "T", "Tuesday", "08:00AM", "10:00AM"),
        record_course("COMP200", "01", "T", "Tuesday", "08:30AM", "09:00AM"),
        record_course("COMP300", "01", "T", "Tuesday", "09:30AM", "11:00AM"),
    ];
    let selected = vec![
        "COMP100-01".to_string(),
        "COMP200-01".to_string(),
        "COMP300-01".to_string(),
    ];
    let conflicts = detect_conflicts(&meetings, &selected);
    assert_eq!(
        conflicts.len(),
        2,
        "COMP100–COMP200 and COMP100–COMP300 overlap; COMP200–COMP300 do not"
    );
    let mut pairs: std::collections::HashSet<(String, String)> = std::collections::HashSet::new();
    for c in &conflicts {
        let a = c.left_section.clone();
        let b = c.right_section.clone();
        let p = if a <= b { (a, b) } else { (b, a) };
        pairs.insert(p);
    }
    assert!(pairs.contains(&(
        "COMP100-01".to_string(),
        "COMP200-01".to_string()
    )));
    assert!(pairs.contains(&(
        "COMP100-01".to_string(),
        "COMP300-01".to_string()
    )));
}

#[test]
fn parse_time_errors_name_the_problem() {
    assert_eq!(parse_time_to_minutes(" 1:05 pm ").unwrap(), 13 * 60 + 5);
    assert_eq!(parse_time_to_minutes("11:59PM").unwrap(), 23 * 60 + 59);
    assert_eq!(parse_time_to_minutes("08:50").unwrap_err(), "invalid time suffix: 08:50");
    assert_eq!(parse_time_to_minutes("xx:50AM").unwrap_err(), "invalid hour in XX:50AM");
    assert_eq!(parse_time_to_minutes("08AM").unwrap_err(), "missing minute in 08AM");
    assert_eq!(parse_time_to_minutes("08:5xAM").unwrap_err(), "invalid minute in 08:5XAM");
    assert_eq!(parse_time_to_minutes("13:00PM").unwrap_err(), "time out of range: 13:00PM");
    assert_eq!(parse_time_to_minutes("12:60AM").unwrap_err(), "time out of range: 12:60AM");
    assert_eq!(parse_time_to_minutes("8:05:99 am").unwrap(), 8 * 60 + 5);
}

#[test]
fn section_key_joins_course_and_section() {
    let r = record("07", "T", "Tuesday", "08:00AM", "09:00AM");
    assert_eq!(r.section_key(), "COMP112-07");
}

#[test]
fn ignores_unselected_unparsable_and_empty_meetings() {
    let meetings = vec![
        record("01", "T", "Tuesday", "08:00AM", "10:00AM"),
        record("02", "T", "Tuesday", "09:00AM", "bad"),
        record("03", "T", "Tuesday", "09:00AM", "09:00AM"),
        record("04", "T", "Tuesday", "09:00AM", "09:30AM"),
        record("05", "T", "Tuesday", "10:00AM", "11:00AM"),
    ];
    let selected: Vec<String> = ["COMP112-01", "COMP112-02", "COMP112-03", "COMP112-05"]
        .iter()
        .map(|s| s.to_string())
        .collect();
    // Adjacent (10:00 end, 10:00 start) is no conflict; 02 and 03 are ignored; 04 is not selected.
    assert!(detect_conflicts(&meetings, &selected).is_empty());
    let same_section = vec![
        record("01", "T", "Tuesday", "08:00AM", "10:00AM"),
        record("01", "T", "Tuesday", "09:00AM", "11:00AM"),
    ];
    assert!(detect_conflicts(&same_section, &["COMP112-01".to_string()]).is_empty());
}

#[test]
fn conflicts_are_grouped_by_day_in_first_appearance_order() {
    let meetings = vec![
        record("01", "R", "Thursday", "08:00AM", "10:00AM"),
        record("01", "T", "Tuesday", "08:00AM", "10:00AM"),
        record("02", "T", "Tuesday", "09:00AM", "11:00AM"),
        record("02", "R", "Thursday", "09:00AM", "11:00AM"),
    ];
    let selected = vec!["COMP112-01".to_string(), "COMP112-02".to_string()];
    let c = detect_conflicts(&meetings, &selected);
    assert_eq!(c.len(), 2);
    assert_eq!(c[0].day_code, "R");
    assert_eq!(c[0].left_section, "COMP112-01");
    assert_eq!(c[0].right_section, "COMP112-02");
    assert_eq!(c[0].right_start, "09:00AM");
    assert_eq!(c[1].day_code, "T");
}
