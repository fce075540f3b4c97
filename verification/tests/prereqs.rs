use rust_kernel::prereqs::{
    build_prereq_map, companion_courses_name, normalize_prereq_clauses, schedule_satisfies_prereq_groups,
    CourseRow, PrereqMap,
};

fn set(codes: &[&str]) -> Vec<String> {
    codes.iter().map(|s| s.to_string()).collect()
}

fn groups(g: &[&[&str]]) -> Vec<Vec<String>> {
    g.iter().map(|inner| inner.iter().map(|s| s.to_string()).collect()).collect()
}

#[test]
fn schedule_satisfies_prereq_groups_and_or() {
    let mut m = PrereqMap::new();
    // COMP200 needs COMP112 (singleton OR-group)
    m.insert("COMP200".into(), vec![vec!["COMP112".into()]]);
    let ok = set(&["COMP200", "COMP112"]);
    assert!(schedule_satisfies_prereq_groups(&ok, &m));
    let bad = set(&["COMP200"]);
    assert!(!schedule_satisfies_prereq_groups(&bad, &m));
    // ECON110 needs any of MATH120 or MATH121
    m.insert("ECON110".into(), vec![vec!["MATH120".into(), "MATH121".into()]]);
    let ok_or = set(&["ECON110", "MATH121"]);
    assert!(schedule_satisfies_prereq_groups(&ok_or, &m));
    let bad_or = set(&["ECON110", "COMP112"]);
    assert!(!schedule_satisfies_prereq_groups(&bad_or, &m));
}

#[test]
fn transitive_prereq_chain_requires_all_steps_in_schedule() {
    let mut m = PrereqMap::new();
    m.insert("COMP300".into(), vec![vec!["COMP200".into()]]);
    m.insert("COMP200".into(), vec![vec!["COMP112".into()]]);
    let full = set(&["COMP300", "COMP200", "COMP112"]);
    assert!(schedule_satisfies_prereq_groups(&full, &m));
    let skip_middle = set(&["COMP300", "COMP112"]);
    assert!(!schedule_satisfies_prereq_groups(&skip_middle, &m));
    let skip_base = set(&["COMP300", "COMP200"]);
    assert!(!schedule_satisfies_prereq_groups(&skip_base, &m));
}

#[test]
fn or_alternative_must_satisfy_its_own_prereqs() {
    let mut m = PrereqMap::new();
    m.insert("ECON110".into(), vec![vec!["MATH120".into(), "MATH121".into()]]);
    m.insert("MATH121".into(), vec![vec!["MATH120".into()]]);
    // MATH121 alone is not enough; need MATH120 for MATH121's prereq
    let bad = set(&["ECON110", "MATH121"]);
    assert!(!schedule_satisfies_prereq_groups(&bad, &m));
    let ok = set(&["ECON110", "MATH120", "MATH121"]);
    assert!(schedule_satisfies_prereq_groups(&ok, &m));
}

#[test]
fn prereq_cycle_in_schedule_fails() {
    let mut m = PrereqMap::new();
    m.insert("A".into(), vec![vec!["B".into()]]);
    m.insert("B".into(), vec![vec!["A".into()]]);
    let sel = set(&["A", "B"]);
    assert!(!schedule_satisfies_prereq_groups(&sel, &m));
}

#[test]
fn cycle_with_an_exit_is_satisfied_in_any_order() {
    // M needs N or P; N needs M; P needs nothing: every course has a finite derivation.
    let mut m = PrereqMap::new();
    m.insert("M".into(), groups(&[&["N", "P"]]));
    m.insert("N".into(), groups(&[&["M"]]));
    assert!(schedule_satisfies_prereq_groups(&set(&["M", "N", "P"]), &m));
    assert!(schedule_satisfies_prereq_groups(&set(&["N", "M", "P"]), &m));
    assert!(schedule_satisfies_prereq_groups(&set(&["P", "N", "M"]), &m));
    assert!(!schedule_satisfies_prereq_groups(&set(&["M", "N"]), &m));
}

#[test]
fn empty_groups_and_unknown_courses_need_nothing() {
    let mut m = PrereqMap::new();
    m.insert("X".into(), vec![vec![]]);
    m.insert("Y".into(), vec![]);
    assert!(schedule_satisfies_prereq_groups(&set(&["X", "Y", "Z"]), &m));
    assert!(schedule_satisfies_prereq_groups(&set(&[]), &m));
}

#[test]
fn later_insert_replaces_clauses() {
    let mut m = PrereqMap::new();
    m.insert("A".into(), groups(&[&["B"]]));
    m.insert("A".into(), groups(&[]));
    assert!(schedule_satisfies_prereq_groups(&set(&["A"]), &m));
    assert_eq!(m.get(&"A".to_string()).unwrap().len(), 0);
    assert!(m.get(&"B".to_string()).is_none());
}

#[test]
fn normalizes_prereq_json() {
    assert_eq!(normalize_prereq_clauses("").unwrap(), groups(&[]));
    assert_eq!(normalize_prereq_clauses("  [] ").unwrap(), groups(&[]));
    assert_eq!(
        normalize_prereq_clauses(r#"[["math120", " MATH121 ", "math120", ""], [], ["  "]]"#).unwrap(),
        groups(&[&["MATH120", "MATH121"]])
    );
    assert_eq!(
        normalize_prereq_clauses(r#"[["a"],["b","c"]]"#).unwrap(),
        groups(&[&["A"], &["B", "C"]])
    );
}

#[test]
fn prereq_json_errors() {
    assert!(normalize_prereq_clauses("[[").unwrap_err().starts_with("prereq_groups json: "));
    assert_eq!(normalize_prereq_clauses("{}").unwrap_err(), "prereq_groups must be a JSON array");
    assert_eq!(normalize_prereq_clauses("[1]").unwrap_err(), "prereq_groups clause must be array");
    assert_eq!(normalize_prereq_clauses(r#"[["A", 2]]"#).unwrap_err(), "prereq_groups code must be string");
    // The first bad clause decides the message.
    assert_eq!(
        normalize_prereq_clauses(r#"[["A", 2], 3]"#).unwrap_err(),
        "prereq_groups code must be string"
    );
}

#[test]
fn builds_prereq_table_from_rows() {
    let rows = vec![
        CourseRow { course_code: " comp200 ".into(), prereq_groups: r#"[["comp112"]]"#.into() },
        CourseRow { course_code: "  ".into(), prereq_groups: "not json".into() },
        CourseRow { course_code: "COMP200".into(), prereq_groups: r#"[["COMP111"]]"#.into() },
    ];
    let m = build_prereq_map(&rows).unwrap();
    assert_eq!(m.get(&"COMP200".to_string()).unwrap(), &groups(&[&["COMP111"]]));
    let bad = vec![
        CourseRow { course_code: "A".into(), prereq_groups: "{".into() },
        CourseRow { course_code: "B".into(), prereq_groups: "[1]".into() },
    ];
    assert!(build_prereq_map(&bad).unwrap_err().starts_with("prereq_groups json: "));
}

#[test]
fn companion_courses_file_name() {
    assert_eq!(companion_courses_name("sections_1269.csv").unwrap(), "courses_1269.csv");
    assert_eq!(companion_courses_name("sections_.csv").unwrap(), "courses_.csv");
    assert!(companion_courses_name("meetings_1269.csv").is_none());
    assert!(companion_courses_name("sections_1269.txt").is_none());
    assert!(companion_courses_name("sections_csv").is_none());
}
