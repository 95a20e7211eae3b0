use pc_manager::digest::{to_hex_lower, ContentHasher, FULL_HASH_CHUNK, PARTIAL_HASH_BYTES};
use pc_manager::file_scanner::{
    full_hash_candidates, duplicate_groups, group_by_key, is_protected_path,
    hashes_by_file, list_directory_entries, size_candidates, try_list_directory_entries, unreadable_root_error, DirEntryInfo, EntryKind,
    EntryMetadata, FileInfo, FileScanner, LARGE_FILE_BYTES,
};
use pc_manager::timefmt::format_system_time_fast;

fn file(path: &str, size: u64) -> FileInfo {
    FileInfo { path: path.to_string(), size, modified: "m".to_string() }
}

fn paths(files: &[FileInfo]) -> Vec<String> {
    files.iter().map(|f| f.path.clone()).collect()
}

fn hash_all(h: &mut ContentHasher, data: &[u8]) {
    let mut pos = 0;
    while pos < data.len() {
        let want = h.wanted();
        if want == 0 {
            break;
        }
        let end = std::cmp::min(data.len(), pos + want);
        h.feed(&data[pos..end]);
        pos = end;
    }
}

#[test]
fn new_scanner_settings() {
    let scanner = FileScanner::new();
    assert!(scanner.checks_duplicates());
    assert_eq!(LARGE_FILE_BYTES, 104857600);
    let default_scanner = FileScanner::default();
    assert!(default_scanner.checks_duplicates());
}

#[test]
fn large_files_are_at_least_100_mib() {
    let scanner = FileScanner::new();
    let files = vec![
        file("a", 104857599),
        file("b", 104857600),
        file("c", 0),
        file("d", 5_000_000_000),
    ];
    assert_eq!(paths(&scanner.large_files(&files)), vec!["b".to_string(), "d".to_string()]);
}

#[test]
fn scan_result_counts() {
    let scanner = FileScanner::new();
    let files = vec![file("a", 200_000_000), file("b", 3), file("c", 3), file("d", 3)];
    let full = vec![None, Some("h".to_string()), Some("g".to_string()), Some("h".to_string())];
    let result = scanner.scan_result(files, &full);
    assert_eq!(result.total_files, 4);
    assert_eq!(result.total_size, 200_000_009);
    assert_eq!(paths(&result.all_files), vec!["a", "b", "c", "d"]);
    assert_eq!(paths(&result.large_files), vec!["a".to_string()]);
    assert_eq!(result.duplicate_groups.len(), 1);
    assert_eq!(paths(&result.duplicate_groups[0]), vec!["b", "d"]);
}

#[test]
fn drives() {
    assert_eq!(FileScanner::get_drives().unwrap(), vec!["/".to_string()]);
    let candidates = FileScanner::drive_candidates();
    assert_eq!(candidates.len(), 26);
    assert_eq!(candidates[0], "A:");
    assert_eq!(candidates[2], "C:");
    assert_eq!(candidates[25], "Z:");
}

#[test]
fn protected_paths_ignore_case() {
    assert!(is_protected_path("C:\\$RECYCLE.BIN\\S-1-5"));
    assert!(is_protected_path("c:\\windows\\system32\\config\\SAM"));
    assert!(is_protected_path("D:\\System Volume Information"));
    assert!(is_protected_path("/data/recovery/file"));
    assert!(!is_protected_path("C:\\Windows\\System32\\kernel32.dll"));
    assert!(!is_protected_path("/home/user/docs"));
}

#[test]
fn time_formatting() {
    assert_eq!(format_system_time_fast(0), "1970-01-01 00:00:00");
    assert_eq!(format_system_time_fast(86400 * 365 + 3661), "1971-01-01 01:01:01");
    assert_eq!(format_system_time_fast(86400 * 364 + 59), "1970-13-05 00:00:59");
    assert_eq!(format_system_time_fast(86400 * 31 + 7 * 3600 + 8 * 60 + 9), "1970-02-02 07:08:09");
    let secs = u64::MAX;
    let days = secs / 86400;
    let expected = format!(
        "{:04}-{:02}-{:02} {:02}:{:02}:{:02}",
        days / 365 + 1970,
        (days % 365) / 30 + 1,
        (days % 365) % 30 + 1,
        (secs % 86400) / 3600,
        (secs % 3600) / 60,
        secs % 60
    );
    assert_eq!(format_system_time_fast(secs), expected);
}

#[test]
fn hex_formatting() {
    assert_eq!(to_hex_lower(&[0x00, 0x0f, 0xa0, 0xff]), "000fa0ff");
    assert_eq!(to_hex_lower(&[]), "");
}

#[test]
fn md5_of_whole_content() {
    let mut h = ContentHasher::full();
    hash_all(&mut h, b"abc");
    assert_eq!(h.finish(), "900150983cd24fb0d6963f7d28e17f72");
    let h = ContentHasher::full();
    assert_eq!(h.finish(), "d41d8cd98f00b204e9800998ecf8427e");
}

#[test]
fn md5_does_not_depend_on_chunking() {
    let mut h = ContentHasher::full();
    h.feed(b"abcdefghijklm");
    h.feed(b"nopqrstuvwxyz");
    assert_eq!(h.finish(), "c3fcd3d76192e4007dfb496cca67e13b");
}

#[test]
fn partial_hash_covers_first_64_kib_only() {
    let mut data = vec![7u8; PARTIAL_HASH_BYTES + 1000];
    let mut h = ContentHasher::partial();
    assert_eq!(h.wanted(), PARTIAL_HASH_BYTES);
    hash_all(&mut h, &data);
    assert_eq!(h.wanted(), 0);
    let partial = h.finish();
    data.truncate(PARTIAL_HASH_BYTES);
    let mut whole = ContentHasher::full();
    assert_eq!(whole.wanted(), FULL_HASH_CHUNK);
    hash_all(&mut whole, &data);
    assert_eq!(partial, whole.finish());
}

#[test]
fn short_content_partial_and_full_hashes_agree() {
    let data: Vec<u8> = (0..5000u32).map(|i| (i % 251) as u8).collect();
    let mut p = ContentHasher::partial();
    hash_all(&mut p, &data);
    let mut f = ContentHasher::full();
    hash_all(&mut f, &data);
    let (p, f) = (p.finish(), f.finish());
    assert_eq!(p, f);
    assert_eq!(p.len(), 32);
    let mut p = ContentHasher::partial();
    hash_all(&mut p, b"");
    assert_eq!(p.finish(), "d41d8cd98f00b204e9800998ecf8427e");
}

#[test]
fn finished_hash_has_32_hex_digits() {
    for len in [0usize, 1, 63, 64, 65, 200_000] {
        let data = vec![0xabu8; len];
        let mut h = ContentHasher::full();
        hash_all(&mut h, &data);
        let text = h.finish();
        assert_eq!(text.len(), 32);
        assert!(text.chars().all(|c| c.is_ascii_digit() || ('a'..='f').contains(&c)));
    }
}

#[test]
fn size_candidates_group_equal_nonzero_sizes() {
    let files = vec![file("a", 5), file("b", 0), file("c", 7), file("d", 5), file("e", 0), file("f", 7), file("g", 5), file("h", 9)];
    assert_eq!(size_candidates(&files), vec![vec![0, 3, 6], vec![2, 5]]);
    assert!(size_candidates(&[file("a", 1)]).is_empty());
}

#[test]
fn grouping_by_key() {
    let keys = vec![
        Some((1, "x".to_string())),
        None,
        Some((1, "y".to_string())),
        Some((1, "x".to_string())),
        Some((2, "x".to_string())),
        Some((1, "y".to_string())),
        Some((3, "z".to_string())),
    ];
    assert_eq!(group_by_key(&keys), vec![vec![0, 3], vec![2, 5]]);
}

#[test]
fn full_hash_candidates_need_same_size_and_partial_hash() {
    let files = vec![file("a", 5), file("b", 5), file("c", 5), file("d", 8), file("e", 8), file("f", 0), file("g", 0)];
    let partial = vec![
        Some("p1".to_string()),
        Some("p2".to_string()),
        Some("p1".to_string()),
        Some("p1".to_string()),
        None,
        Some("p0".to_string()),
        Some("p0".to_string()),
    ];
    assert_eq!(full_hash_candidates(&files, &partial), vec![0, 2]);
}

#[test]
fn duplicate_groups_need_same_size_and_full_hash() {
    let files = vec![file("a", 5), file("b", 5), file("c", 5), file("d", 5)];
    let full = vec![
        Some("h1".to_string()),
        Some("h2".to_string()),
        Some("h1".to_string()),
        Some("h2".to_string()),
    ];
    let groups = duplicate_groups(&files, &full);
    assert_eq!(groups.len(), 2);
    assert_eq!(paths(&groups[0]), vec!["a".to_string(), "c".to_string()]);
    assert_eq!(paths(&groups[1]), vec!["b".to_string(), "d".to_string()]);
    let none = vec![None, None, None, None];
    assert!(duplicate_groups(&files, &none).is_empty());
}

#[test]
fn deletion_keeps_first_or_last() {
    let scanner = FileScanner::new();
    let groups = vec![
        vec![file("a1", 3), file("a2", 3), file("a3", 3)],
        vec![file("b1", 4), file("b2", 4)],
    ];
    assert_eq!(paths(&scanner.deletion_targets(&groups, true)), vec!["a2", "a3", "b2"]);
    assert_eq!(paths(&scanner.deletion_targets(&groups, false)), vec!["a1", "a2", "b1"]);
}

#[test]
fn deletion_tally_counts_successes() {
    let scanner = FileScanner::new();
    let targets = vec![file("a", 3), file("b", 10), file("c", 100)];
    assert_eq!(scanner.deletion_tally(&targets, &[true, false, true]), (2, 103));
    assert_eq!(scanner.deletion_tally(&targets, &[false, false, false]), (0, 0));
}

#[test]
fn directory_listing() {
    let entries = vec![
        DirEntryInfo { path: "/r/sub".to_string(), kind: EntryKind::Directory, metadata: None },
        DirEntryInfo {
            path: "/r/a.txt".to_string(),
            kind: EntryKind::File,
            metadata: Some(EntryMetadata { size: 10, modified_secs: Some(0) }),
        },
        DirEntryInfo {
            path: "/r/Recovery/x".to_string(),
            kind: EntryKind::File,
            metadata: Some(EntryMetadata { size: 99, modified_secs: None }),
        },
        DirEntryInfo {
            path: "/r/b.bin".to_string(),
            kind: EntryKind::File,
            metadata: Some(EntryMetadata { size: 5, modified_secs: None }),
        },
        DirEntryInfo { path: "/r/noinfo".to_string(), kind: EntryKind::File, metadata: None },
        DirEntryInfo { path: "/r/link".to_string(), kind: EntryKind::Other, metadata: None },
        DirEntryInfo { path: "/r/PerfLogs".to_string(), kind: EntryKind::Directory, metadata: None },
    ];
    let listing = list_directory_entries(&entries);
    assert_eq!(listing.directories, vec![0]);
    assert_eq!(paths(&listing.files), vec!["/r/a.txt".to_string(), "/r/b.bin".to_string()]);
    assert_eq!(listing.files[0].modified, "1970-01-01 00:00:00");
    assert_eq!(listing.files[1].modified, "Unknown");
    assert_eq!(listing.total_size, 15);
}

#[test]
fn root_read_errors() {
    assert_eq!(
        unreadable_root_error("/x", "No such file or directory (os error 2)"),
        Some("无法读取目录 /x: No such file or directory (os error 2)".to_string())
    );
    assert_eq!(unreadable_root_error("C:\\x", "Access is denied. (os error 5)"), None);
    assert_eq!(unreadable_root_error("C:\\x", "拒绝访问。 (os error 5)"), None);
}

#[test]
fn copies_are_equal() {
    let f = file("p", 3);
    let g = f.copied();
    assert_eq!((g.path, g.size, g.modified), (f.path, f.size, f.modified));
}

#[test]
fn listing_total_that_overflows_is_refused() {
    let big = |p: &str| DirEntryInfo {
        path: p.to_string(),
        kind: EntryKind::File,
        metadata: Some(EntryMetadata { size: u64::MAX / 2 + 1, modified_secs: None }),
    };
    assert!(try_list_directory_entries(&[big("/a"), big("/b")]).is_none());
    let one = try_list_directory_entries(&[big("/a"), big("/Recovery/b")]).unwrap();
    assert_eq!(one.total_size, u64::MAX / 2 + 1);
    assert_eq!(one.files.len(), 1);
}

#[test]
fn hashes_go_to_their_files() {
    let hashes = vec![Some("x".to_string()), None, Some("z".to_string())];
    let by_file = hashes_by_file(5, &[3, 0, 1], &hashes);
    assert_eq!(
        by_file,
        vec![None, Some("z".to_string()), None, Some("x".to_string()), None]
    );
}

#[test]
fn reordered_files_give_the_same_groups() {
    let files1 = vec![file("a", 5), file("b", 5), file("c", 7), file("d", 5), file("e", 7)];
    let full1 = vec![
        Some("h".to_string()),
        Some("g".to_string()),
        Some("k".to_string()),
        Some("h".to_string()),
        Some("k".to_string()),
    ];
    let order = [4, 2, 0, 3, 1];
    let files2: Vec<FileInfo> = order.iter().map(|&i| files1[i].clone()).collect();
    let full2: Vec<Option<String>> = order.iter().map(|&i| full1[i].clone()).collect();
    let as_sets = |groups: Vec<Vec<FileInfo>>| {
        let mut sets: Vec<Vec<String>> = groups
            .iter()
            .map(|g| {
                let mut p = paths(g);
                p.sort();
                p
            })
            .collect();
        sets.sort();
        sets
    };
    assert_eq!(as_sets(duplicate_groups(&files1, &full1)), as_sets(duplicate_groups(&files2, &full2)));
    assert_eq!(as_sets(duplicate_groups(&files1, &full1)), vec![vec!["a", "d"], vec!["c", "e"]]);
}

#[test]
fn protected_paths_with_non_ascii_text() {
    assert!(is_protected_path("x/ÄÖ/config.msi/ü"));
    assert!(!is_protected_path(""));
    assert!(is_protected_path("PERFLOGS"));
}

/// The duplicate search over in-memory contents, as the scan runs it over
/// files: sizes, then partial hashes of the candidates, then whole hashes.
fn search(named: &[(&str, Vec<u8>)]) -> Vec<Vec<String>> {
    let files: Vec<FileInfo> = named.iter().map(|(p, c)| file(p, c.len() as u64)).collect();
    let hash_of = |c: &[u8], mut h: ContentHasher| {
        hash_all(&mut h, c);
        Some(h.finish())
    };
    let cands: Vec<usize> = size_candidates(&files).into_iter().flatten().collect();
    let partial_list: Vec<Option<String>> =
        cands.iter().map(|&i| hash_of(&named[i].1, ContentHasher::partial())).collect();
    let partial = hashes_by_file(files.len(), &cands, &partial_list);
    let need = full_hash_candidates(&files, &partial);
    let full_list: Vec<Option<String>> =
        need.iter().map(|&i| hash_of(&named[i].1, ContentHasher::full())).collect();
    let full = hashes_by_file(files.len(), &need, &full_list);
    let mut sets: Vec<Vec<String>> = duplicate_groups(&files, &full)
        .iter()
        .map(|g| {
            let mut p = paths(g);
            p.sort();
            p
        })
        .collect();
    sets.sort();
    sets
}

#[test]
fn equal_contents_end_in_one_group() {
    let big_a = vec![1u8; PARTIAL_HASH_BYTES + 10];
    let mut big_b = big_a.clone();
    *big_b.last_mut().unwrap() = 2;
    let named = vec![
        ("a", b"hello".to_vec()),
        ("b", b"world".to_vec()),
        ("c", b"hello".to_vec()),
        ("d", big_a.clone()),
        ("e", big_b),
        ("f", big_a),
        ("g", Vec::new()),
        ("h", Vec::new()),
    ];
    assert_eq!(search(&named), vec![vec!["a", "c"], vec!["d", "f"]]);
}

#[test]
fn search_does_not_depend_on_file_order() {
    let named = vec![
        ("a", b"one".to_vec()),
        ("b", b"two".to_vec()),
        ("c", b"one".to_vec()),
        ("d", b"three".to_vec()),
        ("e", b"two".to_vec()),
        ("f", b"one".to_vec()),
    ];
    let order = [5, 3, 1, 0, 4, 2];
    let reordered: Vec<(&str, Vec<u8>)> = order.iter().map(|&i| named[i].clone()).collect();
    assert_eq!(search(&named), search(&reordered));
    assert_eq!(search(&named), vec![vec!["a", "c", "f"], vec!["b", "e"]]);
}
