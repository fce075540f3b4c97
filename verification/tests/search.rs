use rust_kernel::conflicts::{detect_conflicts, MeetingRecord};
use rust_kernel::optimize::{conflict_free_candidates, resolve_limits};
use rust_kernel::prereqs::PrereqMap;
use rust_kernel::query::parse_query;
use rust_kernel::schedule_stats::schedule_stats;
use rust_kernel::search::{
    build_combinational_candidates, build_meeting_blocks_and_starts, candidates_for_seed, dedup_section_rows,
    filter_rows_by_subjects, merge_candidate_batches, normalize_subject_list, rebalance_rows_by_subject,
    rotate_rows, section_passes_earliest, unique_key_from_sections, SectionRow, StrMap,
};
use rust_kernel::weekly_bitmap::MeetingBlock;

fn blk(day: &str, s: i32, e: i32) -> MeetingBlock {
    MeetingBlock {
        day_code: day.into(),
        start_min: s,
        end_min: e,
    }
}

fn row(subject: &str, course: &str, section: &str, row_id: usize) -> SectionRow {
    SectionRow {
        subject_code: subject.into(),
        course_code: course.into(),
        section: section.into(),
        row_id,
    }
}

fn strings(v: &[&str]) -> Vec<String> {
    v.iter().map(|s| s.to_string()).collect()
}

fn meeting(course: &str, section: &str, day: &str, start: &str, end: &str) -> MeetingRecord {
    MeetingRecord {
        term: "1269".to_string(),
        term_label: "Fall 2026".to_string(),
        subject_code: "COMP".to_string(),
        course_code: course.to_string(),
        course_ref: "1".to_string(),
        section: section.to_string(),
        day_code: day.to_string(),
        day_name: "Day".to_string(),
        start_time: start.to_string(),
        end_time: end.to_string(),
        source_url: "test".to_string(),
    }
}

#[test]
fn dfs_prunes_time_overlapping_sections() {
    let rows = vec![
        row("COMP", "COMP100", "01", 0),
        row("COMP", "COMP101", "01", 1),
        row("MATH", "MATH121", "01", 2),
    ];
    let mut meetings_by_section: StrMap<Vec<MeetingBlock>> = StrMap::new();
    meetings_by_section.put("COMP100-01".into(), vec![blk("T", 530, 610)]);
    meetings_by_section.put("COMP101-01".into(), vec![blk("T", 570, 620)]);
    meetings_by_section.put("MATH121-01".into(), vec![blk("W", 600, 660)]);
    let mut starts: StrMap<i32> = StrMap::new();
    starts.put("COMP100-01".into(), 530);
    starts.put("COMP101-01".into(), 570);
    starts.put("MATH121-01".into(), 600);
    let prereqs = PrereqMap::new();
    // Credit bounds 0 and 0: the credit check is off.
    let credits_ok = |_ids: &Vec<usize>| true;
    let opts = build_combinational_candidates(&rows, 2, 50, 0, 2, &starts, &meetings_by_section, &credits_ok, &prereqs);
    let keys: Vec<String> = opts.iter().map(|o| o.join("|")).collect();
    assert!(keys.iter().any(|k| k.contains("COMP100") && k.contains("MATH121")));
    assert!(keys.iter().any(|k| k.contains("COMP101") && k.contains("MATH121")));
    assert!(!keys.iter().any(|k| k.contains("COMP100") && k.contains("COMP101")));
}

#[test]
fn dfs_respects_cap_subjects_earliest_and_credits() {
    let rows = vec![
        row("COMP", "COMP100", "01", 0),
        row("COMP", "COMP101", "01", 1),
        row("MATH", "MATH121", "01", 2),
        row("MATH", "MATH121", "02", 3),
    ];
    let meetings_by_section: StrMap<Vec<MeetingBlock>> = StrMap::new();
    let mut starts: StrMap<i32> = StrMap::new();
    starts.put("MATH121-02".into(), 480);
    starts.put("COMP100-01".into(), 600);
    starts.put("COMP101-01".into(), 600);
    starts.put("MATH121-01".into(), 600);
    let prereqs = PrereqMap::new();
    let all = |_ids: &Vec<usize>| true;
    // One section per subject: COMP x MATH only, never two sections of one course.
    let opts = candidates_for_seed(&rows, 0, 2, 50, 0, 1, &starts, &meetings_by_section, &all, &prereqs);
    assert_eq!(
        opts,
        vec![
            strings(&["COMP100-01", "MATH121-01"]),
            strings(&["COMP100-01", "MATH121-02"]),
            strings(&["COMP101-01", "MATH121-01"]),
            strings(&["COMP101-01", "MATH121-02"]),
        ]
    );
    // Earliest start 9:00 drops MATH121-02 (08:00).
    let opts = candidates_for_seed(&rows, 0, 2, 50, 540, 1, &starts, &meetings_by_section, &all, &prereqs);
    assert_eq!(opts.len(), 2);
    // Cap at one candidate.
    let opts = candidates_for_seed(&rows, 0, 2, 1, 0, 1, &starts, &meetings_by_section, &all, &prereqs);
    assert_eq!(opts, vec![strings(&["COMP100-01", "MATH121-01"])]);
    // The credit check sees row ids: refuse any pick with row 0.
    let no_zero = |ids: &Vec<usize>| !ids.contains(&0);
    let opts = candidates_for_seed(&rows, 0, 2, 50, 0, 1, &starts, &meetings_by_section, &no_zero, &prereqs);
    assert_eq!(opts.len(), 2);
    // Rotation by 2 starts from MATH121-01.
    let opts = candidates_for_seed(&rows, 2, 2, 50, 0, 2, &starts, &meetings_by_section, &all, &prereqs);
    assert_eq!(opts[0], strings(&["MATH121-01", "COMP100-01"]));
    // k = 0 gives nothing.
    assert!(build_combinational_candidates(&rows, 0, 50, 0, 1, &starts, &meetings_by_section, &all, &prereqs).is_empty());
}

#[test]
fn dfs_applies_prereqs() {
    let rows = vec![row("COMP", "comp200", "01", 0), row("MATH", "MATH121", "01", 1), row("ECON", "COMP112", "01", 2)];
    let tables: StrMap<Vec<MeetingBlock>> = StrMap::new();
    let starts: StrMap<i32> = StrMap::new();
    let mut prereqs = PrereqMap::new();
    prereqs.insert("COMP200".into(), vec![vec!["COMP112".into()]]);
    let all = |_ids: &Vec<usize>| true;
    let opts = candidates_for_seed(&rows, 0, 2, 50, 0, 1, &starts, &tables, &all, &prereqs);
    assert_eq!(
        opts,
        vec![strings(&["comp200-01", "COMP112-01"]), strings(&["MATH121-01", "COMP112-01"])]
    );
}

#[test]
fn merges_batches_without_repeats() {
    let a = vec![strings(&["B-1", "A-1"]), strings(&["C-1", "D-1"])];
    let b = vec![strings(&["A-1", "B-1"]), strings(&["E-1", "F-1"])];
    let merged = merge_candidate_batches(&vec![a.clone(), b.clone()], 10);
    assert_eq!(merged, vec![a[0].clone(), a[1].clone(), b[1].clone()]);
    let merged = merge_candidate_batches(&vec![a.clone(), b.clone()], 2);
    assert_eq!(merged, vec![a[0].clone(), a[1].clone()]);
    assert_eq!(unique_key_from_sections(&strings(&["b", "a", "c"])), "a|b|c");
    assert_eq!(unique_key_from_sections(&strings(&[])), "");
}

#[test]
fn rotates_dedups_filters_and_rebalances_rows() {
    let rows = vec![row("A", "A1", "01", 0), row("B", "B1", "01", 1), row("A", "A2", "01", 2)];
    let r = rotate_rows(&rows, 4);
    assert_eq!(r.iter().map(|x| x.row_id).collect::<Vec<_>>(), vec![1, 2, 0]);
    assert!(rotate_rows(&Vec::new(), 3).is_empty());

    let dup = vec![row("A", "A1", "01", 0), row("A", "A1", "01", 1), row("B", "B1", "01", 2)];
    assert_eq!(dedup_section_rows(&dup, 0).iter().map(|x| x.row_id).collect::<Vec<_>>(), vec![0, 2]);
    assert_eq!(dedup_section_rows(&dup, 1).iter().map(|x| x.row_id).collect::<Vec<_>>(), vec![0]);

    let subj = normalize_subject_list(&strings(&[" comp ", "", "econ"]));
    assert_eq!(subj, strings(&["COMP", "ECON"]));
    let rows2 = vec![row("comp", "C1", "01", 0), row("ECON", "E1", "01", 1), row("MATH", "M1", "01", 2)];
    let kept = filter_rows_by_subjects(&rows2, &subj, &strings(&["ECON"]));
    assert_eq!(kept.iter().map(|x| x.row_id).collect::<Vec<_>>(), vec![0]);
    let kept = filter_rows_by_subjects(&rows2, &Vec::new(), &strings(&["MATH"]));
    assert_eq!(kept.iter().map(|x| x.row_id).collect::<Vec<_>>(), vec![0, 1]);

    let mix = vec![
        row("MATH", "M1", "01", 0),
        row("COMP", "C1", "01", 1),
        row("MATH", "M2", "01", 2),
        row("MATH", "M3", "01", 3),
        row("ART", "A1", "01", 4),
    ];
    let rb = rebalance_rows_by_subject(&mix, 180);
    assert_eq!(rb.iter().map(|x| x.row_id).collect::<Vec<_>>(), vec![4, 1, 0, 2, 3]);
    let rb = rebalance_rows_by_subject(&mix, 2);
    assert_eq!(rb.iter().map(|x| x.row_id).collect::<Vec<_>>(), vec![4, 1]);
    assert!(rebalance_rows_by_subject(&mix, 0).is_empty());
}

#[test]
fn builds_meeting_tables() {
    let meetings = vec![
        meeting("C1", "01", " T ", "10:00AM", "10:50AM"),
        meeting("C1", "01", "R", "08:00AM", "08:50AM"),
        meeting("C1", "01", "", "07:00AM", "07:50AM"),
        meeting("C2", "01", "W", "bad", "10:50AM"),
    ];
    let (starts, blocks) = build_meeting_blocks_and_starts(&meetings);
    let key = "C1-01".to_string();
    assert_eq!(*starts.get(&key).unwrap(), 480);
    let b = blocks.get(&key).unwrap();
    assert_eq!(b.len(), 2);
    assert_eq!(b[0].day_code, "T");
    assert_eq!((b[0].start_min, b[0].end_min), (600, 650));
    assert!(blocks.get(&"C2-01".to_string()).is_none());
    assert!(section_passes_earliest(&key, 480, &starts));
    assert!(!section_passes_earliest(&key, 481, &starts));
    assert!(section_passes_earliest(&key, 0, &starts));
    assert!(!section_passes_earliest(&"X-01".to_string(), 10, &starts));
}

#[test]
fn schedule_stats_counts_minutes_and_days() {
    let mut table: StrMap<Vec<MeetingBlock>> = StrMap::new();
    table.put("A-1".into(), vec![blk("M", 480, 530), blk("M", 540, 600), blk("W", 1020, 1100)]);
    table.put("B-1".into(), vec![blk("M", 600, 650), blk("M", 700, 690)]);
    table.put("C-1".into(), vec![]);
    let s = schedule_stats(&strings(&["A-1", "B-1", "C-1", "D-1"]), &table);
    assert_eq!(s.total_minutes, 50 + 60 + 80 + 50);
    assert_eq!(s.evening_minutes, 80);
    assert_eq!(s.early_minutes, 50);
    assert_eq!(s.missing_sections, 2);
    // Monday sorted: 480-530, 540-600, 600-650: gaps 10 and 0 are back to back.
    assert_eq!(s.back_to_back, 2);
    assert_eq!(s.busy_day_max, 3);
}

#[test]
fn resolves_request_limits() {
    let l = resolve_limits(0, 0, 0, -5, 0);
    assert_eq!((l.k, l.max_candidates, l.max_per_subject, l.earliest_start, l.max_results), (4, 2000, 1, 0, 10));
    let l = resolve_limits(9, 7, 8, 600, 99);
    assert_eq!((l.k, l.max_candidates, l.max_per_subject, l.earliest_start, l.max_results), (6, 7, 3, 600, 25));
    let l = resolve_limits(1, -1, -2, 0, -3);
    assert_eq!((l.k, l.max_candidates, l.max_per_subject, l.earliest_start, l.max_results), (2, 2000, 1, 0, 1));
}

#[test]
fn keeps_conflict_free_candidates() {
    let meetings = vec![
        meeting("C1", "01", "T", "08:00AM", "09:00AM"),
        meeting("C2", "01", "T", "08:30AM", "09:30AM"),
        meeting("C3", "01", "T", "10:00AM", "11:00AM"),
    ];
    let cands = vec![
        strings(&["C1-01", "C2-01"]),
        strings(&["C1-01", "C3-01"]),
        strings(&["C2-01", "C3-01"]),
    ];
    assert_eq!(conflict_free_candidates(&meetings, &cands, None), vec![1, 2]);
    assert_eq!(conflict_free_candidates(&meetings, &cands, Some(1)), vec![1]);
}

#[test]
fn parses_query_strings() {
    let q = parse_query("/v1/conflicts?sections=COMP112-01,COMP112-02&csv_path=a=b&&flag&sections=X");
    assert_eq!(q.get(&"sections".to_string()).unwrap(), "X");
    assert_eq!(q.get(&"csv_path".to_string()).unwrap(), "a=b");
    assert_eq!(q.get(&"flag".to_string()).unwrap(), "");
    assert!(q.get(&"".to_string()).is_none());
    let none = parse_query("/health");
    assert!(none.get(&"sections".to_string()).is_none());
    let empty = parse_query("/v1?");
    assert!(empty.get(&"".to_string()).is_none());
}

#[test]
fn dfs_keeps_first_pick_of_each_key() {
    // Row 2 repeats section A-01: the pick (B-01, A-01) has the key of (A-01, B-01), found first.
    let rows = vec![row("X", "A", "01", 0), row("Y", "B", "01", 1), row("Z", "A", "01", 2)];
    let tables: StrMap<Vec<MeetingBlock>> = StrMap::new();
    let starts: StrMap<i32> = StrMap::new();
    let prereqs = PrereqMap::new();
    let all = |_ids: &Vec<usize>| true;
    let opts = candidates_for_seed(&rows, 0, 2, 50, 0, 1, &starts, &tables, &all, &prereqs);
    assert_eq!(opts, vec![strings(&["A-01", "B-01"])]);
    assert_eq!(unique_key_from_sections(&strings(&["B-01", "A-01"])), "A-01|B-01");
}

#[test]
fn search_candidates_pass_the_conflict_check() {
    let meetings = vec![
        meeting("C1", "01", "T", "08:00AM", "09:00AM"),
        meeting("C2", "01", "T", "08:59AM", "09:30AM"),
        meeting("C3", "01", "T", "09:30AM", "11:00AM"),
        meeting("C4", "01", "R", "08:00AM", "09:00AM"),
    ];
    let rows = vec![
        row("A", "C1", "01", 0),
        row("B", "C2", "01", 1),
        row("C", "C3", "01", 2),
        row("D", "C4", "01", 3),
    ];
    let (starts, blocks) = build_meeting_blocks_and_starts(&meetings);
    let prereqs = PrereqMap::new();
    let all = |_ids: &Vec<usize>| true;
    let cands = build_combinational_candidates(&rows, 2, 50, 0, 1, &starts, &blocks, &all, &prereqs);
    assert!(!cands.is_empty());
    for c in &cands {
        assert!(detect_conflicts(&meetings, c).is_empty());
    }
    assert!(!cands.iter().any(|c| c.contains(&"C1-01".to_string()) && c.contains(&"C2-01".to_string())));
    assert!(cands.iter().any(|c| c.contains(&"C2-01".to_string()) && c.contains(&"C3-01".to_string())));
}
