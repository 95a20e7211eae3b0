use pc_manager::file_scanner::{FileInfo, ScanResult};
use pc_manager::report::{
    analysis_totals, combined_tally, is_confirmation, largest_first, scan_totals, total_size_of,
};
use pc_manager::software_manager::{SoftwareFileAnalysis, SoftwareInfo};

fn file(path: &str, size: u64) -> FileInfo {
    FileInfo { path: path.to_string(), size, modified: "m".to_string() }
}

fn result(total_files: usize, total_size: u64, large: usize, groups: usize) -> ScanResult {
    ScanResult {
        total_files,
        total_size,
        all_files: Vec::new(),
        duplicate_groups: (0..groups).map(|g| vec![file(&format!("g{}", g), 1)]).collect(),
        large_files: (0..large).map(|l| file(&format!("l{}", l), 1)).collect(),
    }
}

fn analysis(file_count: usize, total_size: u64) -> SoftwareFileAnalysis {
    SoftwareFileAnalysis {
        software: SoftwareInfo { name: "x".to_string(), version: None, publisher: None, install_location: None },
        files: Vec::new(),
        total_size,
        file_count,
    }
}

#[test]
fn confirmation_answers() {
    assert!(is_confirmation("y"));
    assert!(is_confirmation("Y\n"));
    assert!(is_confirmation("  yes \r\n"));
    assert!(is_confirmation("YES"));
    assert!(is_confirmation("Yes"));
    assert!(!is_confirmation("n"));
    assert!(!is_confirmation(""));
    assert!(!is_confirmation("ye"));
    assert!(!is_confirmation("yes please"));
    assert!(!is_confirmation("y y"));
}

#[test]
fn largest_files_come_first_and_ties_keep_their_order() {
    let files = vec![file("a", 5), file("b", 9), file("c", 5), file("d", 1), file("e", 9)];
    let paths = |v: Vec<FileInfo>| v.into_iter().map(|f| f.path).collect::<Vec<_>>();
    assert_eq!(paths(largest_first(&files, 3)), vec!["b", "e", "a"]);
    assert_eq!(paths(largest_first(&files, 10)), vec!["b", "e", "a", "c", "d"]);
    assert!(largest_first(&files, 0).is_empty());
    assert!(largest_first(&[], 10).is_empty());
}

#[test]
fn totals_over_scans() {
    let results = vec![result(3, 100, 1, 2), result(4, 50, 0, 1)];
    let t = scan_totals(&results).unwrap();
    assert_eq!((t.total_files, t.total_size, t.large_files, t.duplicate_groups), (7, 150, 1, 3));
    let t = scan_totals(&[]).unwrap();
    assert_eq!((t.total_files, t.total_size, t.large_files, t.duplicate_groups), (0, 0, 0, 0));
    assert!(scan_totals(&[result(1, u64::MAX, 0, 0), result(1, 1, 0, 0)]).is_none());
    assert!(scan_totals(&[result(usize::MAX, 0, 0, 0), result(1, 0, 0, 0)]).is_none());
}

#[test]
fn total_size_of_files() {
    assert_eq!(total_size_of(&[file("a", 3), file("b", 4)]), Some(7));
    assert_eq!(total_size_of(&[]), Some(0));
    assert_eq!(total_size_of(&[file("a", u64::MAX), file("b", 1)]), None);
}

#[test]
fn tallies_over_clean_ups() {
    assert_eq!(combined_tally(&[(2, 10), (3, 5)]), Some((5, 15)));
    assert_eq!(combined_tally(&[]), Some((0, 0)));
    assert_eq!(combined_tally(&[(1, u64::MAX), (1, 1)]), None);
    assert_eq!(combined_tally(&[(usize::MAX, 0), (1, 0)]), None);
}

#[test]
fn totals_over_analyses() {
    assert_eq!(analysis_totals(&[analysis(2, 100), analysis(5, 1)]), Some((7, 101)));
    assert_eq!(analysis_totals(&[]), Some((0, 0)));
    assert_eq!(analysis_totals(&[analysis(0, u64::MAX), analysis(0, 1)]), None);
}
