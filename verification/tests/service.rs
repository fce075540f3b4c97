use rust_kernel::service::{check_sections_given, pareto_mode_or_default, KernelService};
use std::path::PathBuf;

fn service() -> KernelService {
    KernelService::new(PathBuf::from("data/meetings.csv"), PathBuf::from("data/sections.csv"))
}

#[test]
fn request_paths_fall_back_to_the_defaults() {
    let s = service();
    assert_eq!(s.meetings_path(String::new()), PathBuf::from("data/meetings.csv"));
    assert_eq!(s.sections_path(String::new()), PathBuf::from("data/sections.csv"));
    assert_eq!(s.meetings_path("other/m.csv".to_string()), PathBuf::from("other/m.csv"));
    assert_eq!(s.sections_path("other/s.csv".to_string()), PathBuf::from("other/s.csv"));
    let copy = s.clone();
    assert_eq!(copy.default_csv, s.default_csv);
}

#[test]
fn conflict_check_needs_a_section() {
    assert_eq!(
        check_sections_given(&vec![]).unwrap_err(),
        "sections must contain at least one section id"
    );
    assert!(check_sections_given(&vec!["COMP112-01".to_string()]).is_ok());
}

#[test]
fn pareto_mode_defaults_to_strict() {
    assert_eq!(pareto_mode_or_default(String::new()), "strict");
    assert_eq!(pareto_mode_or_default("epsilon".to_string()), "epsilon");
}
