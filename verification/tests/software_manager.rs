use pc_manager::software_manager::{
    files_for_analysis, parse_software_text, ListingOutcome, SoftwareInfo, SoftwareManager,
};
use pc_manager::file_scanner::FileInfo;

const LISTING: &str = "Rust (x64)|1.80.0|The Rust Project Developers|C:\\Program Files\\Rust\n\
Visual Studio Code|1.90|Microsoft Corporation|C:\\Program Files\\Microsoft VS Code\\\n\
7-Zip|23.01|Igor Pavlov|C:\\Program Files\\7-Zip\\";

fn completed(stdout: &str) -> ListingOutcome {
    ListingOutcome::Completed {
        success: true,
        stdout: stdout.to_string(),
        stderr: String::new(),
    }
}

fn info(name: &str, version: Option<&str>, publisher: Option<&str>, location: Option<&str>) -> SoftwareInfo {
    SoftwareInfo {
        name: name.to_string(),
        version: version.map(|s| s.to_string()),
        publisher: publisher.map(|s| s.to_string()),
        install_location: location.map(|s| s.to_string()),
    }
}

fn file(path: &str, size: u64) -> FileInfo {
    FileInfo { path: path.to_string(), size, modified: "1970-01-01 00:00:00".to_string() }
}

fn names(list: &[SoftwareInfo]) -> Vec<String> {
    list.iter().map(|s| s.name.clone()).collect()
}

#[test]
fn test_get_installed_software() {
    let manager = SoftwareManager::new();
    let result = manager.get_installed_software(completed(LISTING));
    assert!(result.is_ok());
}

#[test]
fn test_search_software() {
    let manager = SoftwareManager::new();
    let installed = manager.get_installed_software(completed(LISTING));
    let result = manager.search_software(installed, "rust");
    assert!(result.is_ok());
}

#[test]
fn search_finds_by_name_and_publisher_ignoring_case() {
    let manager = SoftwareManager::new();
    let installed = manager.get_installed_software(completed(LISTING));
    let found = manager.search_software(installed, "RUST").unwrap();
    assert_eq!(names(&found), vec!["Rust (x64)".to_string()]);
    let installed = manager.get_installed_software(completed(LISTING));
    let found = manager.search_software(installed, "microsoft").unwrap();
    assert_eq!(names(&found), vec!["Visual Studio Code".to_string()]);
    let installed = manager.get_installed_software(completed(LISTING));
    let found = manager.search_software(installed, "nothing-like-this").unwrap();
    assert!(found.is_empty());
}

#[test]
fn search_passes_errors_on() {
    let manager = SoftwareManager::new();
    let result = manager.search_software(Err("boom".to_string()), "rust");
    assert_eq!(result.unwrap_err(), "boom");
}

#[test]
fn search_keeps_list_order() {
    let manager = SoftwareManager::new();
    let list = vec![
        info("Zeta Tool", None, Some("Acme"), None),
        info("Alpha", None, Some("acme corp"), None),
        info("Beta", None, None, None),
    ];
    let found = manager.search_software(Ok(list), "Acme").unwrap();
    assert_eq!(names(&found), vec!["Zeta Tool".to_string(), "Alpha".to_string()]);
}

#[test]
fn unsupported_platform_lists_nothing() {
    let manager = SoftwareManager::new();
    let result = manager.get_installed_software(ListingOutcome::Unsupported);
    assert!(result.is_ok());
    assert!(result.unwrap().is_empty());
}

#[test]
fn unsupported_platform_search_is_ok() {
    let manager = SoftwareManager::new();
    let installed = manager.get_installed_software(ListingOutcome::Unsupported);
    let result = manager.search_software(installed, "rust");
    assert!(result.is_ok());
    assert!(result.unwrap().is_empty());
}

#[test]
fn launch_failure_error() {
    let manager = SoftwareManager::new();
    let result = manager.get_installed_software(ListingOutcome::LaunchFailed("not found".to_string()));
    assert_eq!(result.unwrap_err(), "执行 PowerShell 命令失败: not found");
}

#[test]
fn listing_failure_error() {
    let manager = SoftwareManager::new();
    let result = manager.get_installed_software(ListingOutcome::Completed {
        success: false,
        stdout: String::new(),
        stderr: "denied".to_string(),
    });
    assert_eq!(result.unwrap_err(), "PowerShell 执行失败: denied");
}

#[test]
fn blank_listing_is_empty() {
    let manager = SoftwareManager::new();
    let result = manager.get_installed_software(completed("  \r\n \n"));
    assert!(result.unwrap().is_empty());
}

#[test]
fn parse_sorts_by_lowercase_name_and_keeps_first_duplicate() {
    let text = "beta|1||\nAlpha|2|Pub|\nALPHA|3|Other|\ngamma\n";
    let list = parse_software_text(text).unwrap();
    assert_eq!(names(&list), vec!["Alpha".to_string(), "beta".to_string(), "gamma".to_string()]);
    assert_eq!(list[0].version.as_deref(), Some("2"));
    assert_eq!(list[0].publisher.as_deref(), Some("Pub"));
    assert_eq!(list[1].publisher, None);
    assert_eq!(list[2].version, None);
}

#[test]
fn parse_fields() {
    let text = "  Name One | 1.0 |Pub Co|  D:\\Apps\\One  |extra\r\n|nameless|x|y\n\nTwo||";
    let list = parse_software_text(text).unwrap();
    assert_eq!(list.len(), 2);
    assert_eq!(list[0].name, "Name One ");
    assert_eq!(list[0].version.as_deref(), Some(" 1.0 "));
    assert_eq!(list[0].publisher.as_deref(), Some("Pub Co"));
    assert_eq!(list[0].install_location.as_deref(), Some("D:\\Apps\\One"));
    assert_eq!(list[1].name, "Two");
    assert_eq!(list[1].version, None);
    assert_eq!(list[1].publisher, None);
    assert_eq!(list[1].install_location, None);
}

#[test]
fn parse_blank_location_is_absent() {
    let list = parse_software_text("App|1|P|   ").unwrap();
    assert_eq!(list.len(), 1);
    assert_eq!(list[0].install_location, None);
}

#[test]
fn parse_empty_text() {
    assert!(parse_software_text("").unwrap().is_empty());
}

#[test]
fn analyze_groups_files_under_install_locations_largest_first() {
    let manager = SoftwareManager::new();
    let list = vec![
        info("Small", None, None, Some("C:\\Small")),
        info("Big", None, None, Some("c:\\big")),
        info("NoFiles", None, None, Some("C:\\Nothing")),
        info("NoLocation", None, None, None),
        info("EmptyLocation", None, None, Some("")),
        info("AlsoSmall", None, None, Some("C:\\SMALL\\sub")),
    ];
    let files = vec![
        file("C:\\Small\\a.exe", 10),
        file("C:\\Big\\b.dat", 500),
        file("C:\\big\\c.dat", 25),
        file("C:\\small\\sub\\d.txt", 5),
        file("D:\\other.txt", 1000),
    ];
    let analysis = manager.analyze_files_with_software(Ok(list), &files);
    let got: Vec<(String, u64, usize)> = analysis
        .iter()
        .map(|a| (a.software.name.clone(), a.total_size, a.file_count))
        .collect();
    assert_eq!(
        got,
        vec![
            ("Big".to_string(), 525, 2),
            ("Small".to_string(), 15, 2),
            ("AlsoSmall".to_string(), 5, 1),
        ]
    );
    assert_eq!(analysis[0].files[0].path, "C:\\Big\\b.dat");
    assert_eq!(analysis[0].files[1].path, "C:\\big\\c.dat");
}

#[test]
fn analyze_equal_sizes_keep_list_order() {
    let manager = SoftwareManager::new();
    let list = vec![
        info("First", None, None, Some("/a")),
        info("Second", None, None, Some("/b")),
    ];
    let files = vec![file("/b/x", 7), file("/a/y", 7)];
    let analysis = manager.analyze_files_with_software(Ok(list), &files);
    assert_eq!(analysis.len(), 2);
    assert_eq!(analysis[0].software.name, "First");
    assert_eq!(analysis[1].software.name, "Second");
}

#[test]
fn analyze_without_program_list_is_empty() {
    let manager = SoftwareManager::new();
    let files = vec![file("/a/y", 7)];
    assert!(manager.analyze_files_with_software(Err("x".to_string()), &files).is_empty());
}

#[test]
fn default_manager() {
    let manager = SoftwareManager::default();
    assert!(manager.search_software(Ok(Vec::new()), "x").unwrap().is_empty());
}

#[test]
fn analysis_total_that_overflows_is_refused() {
    let manager = SoftwareManager::new();
    let files = vec![file("/a/x", u64::MAX), file("/a/y", 1), file("/b/z", 3)];
    let list = vec![info("A", None, None, Some("/a"))];
    assert!(manager.try_analyze_files_with_software(Ok(list), &files).is_none());
    let list = vec![info("B", None, None, Some("/B"))];
    let analysis = manager.try_analyze_files_with_software(Ok(list), &files).unwrap();
    assert_eq!(analysis.len(), 1);
    assert_eq!(analysis[0].total_size, 3);
    let empty = manager.try_analyze_files_with_software(Err("x".to_string()), &files).unwrap();
    assert!(empty.is_empty());
}

#[test]
fn analysis_looks_at_the_first_ten_thousand_files() {
    let many: Vec<FileInfo> = (0..10005).map(|i| file(&format!("/f{}", i), 1)).collect();
    let kept = files_for_analysis(many);
    assert_eq!(kept.len(), 10000);
    assert_eq!(kept[9999].path, "/f9999");
    let few = vec![file("/a", 1), file("/b", 2)];
    assert_eq!(files_for_analysis(few).len(), 2);
}

#[test]
fn parse_trims_unicode_whitespace() {
    let list = parse_software_text("\u{3000}\u{a0}Tool\u{2003}|1\t\n\u{85}").unwrap();
    assert_eq!(list.len(), 1);
    assert_eq!(list[0].name, "Tool\u{2003}");
    let list = parse_software_text("App|1|P|\u{2028}D:\\x\u{205f}").unwrap();
    assert_eq!(list[0].install_location.as_deref(), Some("D:\\x"));
}
