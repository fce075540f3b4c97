use rust_kernel::optimize::schedule_id;
use rust_kernel::query::{conflicts_query, section_list};

#[test]
fn splits_section_lists() {
    assert_eq!(section_list("COMP112-01, COMP211-01,, "), vec!["COMP112-01", "COMP211-01"]);
    assert_eq!(section_list(""), Vec::<String>::new());
    assert_eq!(section_list(" , ,"), Vec::<String>::new());
    assert_eq!(section_list("A"), vec!["A"]);
}

#[test]
fn reads_conflicts_requests() {
    let (csv, sections) =
        conflicts_query("/v1/conflicts?sections=COMP112-01,%20X&csv_path=m.csv", "default.csv").unwrap();
    assert_eq!(csv, "m.csv");
    assert_eq!(sections, vec!["COMP112-01", "%20X"]);
    let (csv, sections) = conflicts_query("/v1/conflicts?sections= A , B", "default.csv").unwrap();
    assert_eq!(csv, "default.csv");
    assert_eq!(sections, vec!["A", "B"]);
    assert_eq!(
        conflicts_query("/v1/conflicts?sections=,,", "d.csv").unwrap_err(),
        "missing required query param: sections=COMP112-01,COMP211-01"
    );
    assert!(conflicts_query("/v1/conflicts", "d.csv").is_err());
}

#[test]
fn numbers_schedules() {
    assert_eq!(schedule_id(1), "sched-001");
    assert_eq!(schedule_id(0), "sched-000");
    assert_eq!(schedule_id(42), "sched-042");
    assert_eq!(schedule_id(999), "sched-999");
    assert_eq!(schedule_id(1000), "sched-1000");
    assert_eq!(schedule_id(12345), "sched-12345");
}
