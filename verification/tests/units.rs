//! Single functions and the laws between them, on concrete values.
use filelens::actions::{Action, Seen};
use filelens::batch::{delete_approved_batch, trash_batch, BatchStep, BulkKind};
use filelens::bin::{delete_trash, restore, restore_to};
use filelens::csv::csv_field;
use filelens::desk::{
    BulkDesk, Phase, ScanDesk, Watch, WatchDesk, WatchEvent, WatchStep,
};
use filelens::documents::{document_simhash, document_words, majority_hash, words_by};
use filelens::exif_time::{days_from_civil, parse_exif_datetime, seconds_of_field};
use filelens::groups::kind_extensions;
use filelens::hashing::{compare_pieces, hex_text, FileHasher};
use filelens::indexing::{as_signed, fingerprint_parts, mark_missing_absent};
use filelens::keeper::{keeper_score, GroupFile};
use filelens::ledger::{history, trash_list, trash_overview};
use filelens::loading::{assemble, make_room, StoredRows};
use filelens::like::{beginning_pattern, holding_pattern, like_escape, like_match};
use filelens::matching::{start_duplicate_verify, VerifyRun, VerifyStep};
use filelens::messages::{
    approve_filtered_message, bulk_summary, delete_direct_batch_message, export_message,
    format_batch_outcome, hardlink_approved_message, merge_dir_message, rebuild_line,
    recycle_dir_message, restore_batch_message, scan_lines, scan_message, trash_approved_message,
    trash_empty_message, trash_prune_message,
};
use filelens::model::{FileRow, Index, OperationRow, OperationState, PhotoPrint};
use filelens::paths::{
    file_name, is_excluded, is_image_path, is_protected_path, join_path, lower_extension,
    normalize_path_text, parent_directories, parent_text, path_under, same_volume_text,
    split_extension, volume_prefix, Platform,
};
use filelens::photos::{gradient_hash, needs_content, structure_hash, PairVerdict};
use filelens::previews::{
    cached_name, data_url, image_preview, image_thumbnail, thumbnail_cache_key,
    thumbnail_cache_stats, CacheEntry, DecodeSlots,
};
use filelens::progress::{HashProgress, ScanErrorLog};
use filelens::project::{
    approve_filtered, detector_status, open_project, project_database, project_pointer,
    project_trash, review_page, save_project_config, save_roots, unix_seconds, watch_rules,
    GroupRequest,
};
use filelens::removal::{delete_direct, hardlink, trash};
use filelens::reports::{export_report, group_dirs, groups, status};
use filelens::review::{set_approval, BatchOutcome};
use filelens::indexing::ProcessedEntry;
use filelens::scan::{hash_workers, ScanSummary, ScanWriter, WorkResult, WriteRules};
use filelens::settings::{
    ensure_initialized, init, required_setting, save_setting_list, set_auto_scan, set_setting,
    set_trash_retention, set_watch_scan, setting_flag, setting_list, setting_number, setting_value,
};
use filelens::text::{
    char_is_space, chars_of, joined, parse_text, signed_text, string_of, text_before, text_bytes,
    trim_text, unsigned_text,
};
use filelens::usn::{journal_id, reference_number, root_paths, volume_of_root, UsnTable};
use filelens::verdicts::canonical_pair;
use filelens::walk::{go_on, listed_files, DirEntry, EntryCount, EntryKind, Walk, WalkItem, WalkRules};

fn file(id: i64, path: &str, size: i64, hash: &str) -> FileRow {
    FileRow {
        id,
        path: path.to_string(),
        size,
        modified: 100,
        hash: hash.to_string(),
        protected: false,
        approved: false,
        present: true,
        scanned_at: 100,
        quick_hash: None,
        dev: 0,
        inode: 0,
        frn: 0,
        exif_taken: 0,
    }
}

fn operation(id: i64, file_id: i64, state: OperationState, created_at: i64) -> OperationRow {
    OperationRow {
        id,
        file_id,
        source_path: format!("/s/{id}"),
        trash_path: format!("/r/{id}"),
        hash: "h".to_string(),
        state,
        created_at,
        restored_at: None,
        batch_id: None,
    }
}

fn project() -> Index {
    let mut index = Index::new();
    init(&mut index, false, "/r").unwrap();
    index
}

const HASH_A: &str = "aaaaaaaaaaaaaaaaaaaaaaaa";
const HASH_B: &str = "bbbbbbbbbbbbbbbbbbbbbbbb";

fn with_groups() -> Index {
    let mut index = project();
    index.files.push(file(1, "/d/b.txt", 10, HASH_A));
    index.files.push(file(2, "/d/a.txt", 10, HASH_A));
    index.files.push(file(3, "/e/big1.bin", 500, HASH_B));
    index.files.push(file(4, "/e/big2.bin", 500, HASH_B));
    index.files.push(file(5, "/e/lone.bin", 7, "cccccccccccccccccccccccc"));
    index.files[0].protected = true;
    index.files[3].approved = true;
    index
}

fn finished(action: Action) -> Result<(), String> {
    match action {
        Action::Finished { result } => result,
        _ => panic!("more work is asked for"),
    }
}

// Texts

#[test]
fn whitespace_is_what_unicode_calls_so() {
    for code in 0..0x3100_u32 {
        if let Some(c) = char::from_u32(code) {
            assert_eq!(char_is_space(c), c.is_whitespace(), "{code:x}");
        }
    }
    assert_eq!(trim_text(" \t\u{3000}a b\u{a0}\n"), "a b");
}

#[test]
fn integers_are_written_and_read() {
    for n in [0, 7, -1, 10, -305, i64::MAX, i64::MIN] {
        assert_eq!(signed_text(n), n.to_string());
        assert_eq!(parse_text(&n.to_string()), Some(n));
    }
    assert_eq!(unsigned_text(u64::MAX), u64::MAX.to_string());
    for text in ["", "-", "+", " 1", "1 ", "9223372036854775808", "x1", "1-"] {
        assert_eq!(parse_text(text), text.parse::<i64>().ok(), "{text}");
    }
    assert_eq!(parse_text("+12"), Some(12));
}

#[test]
fn texts_keep_their_characters() {
    let word = "aß大😀";
    assert_eq!(string_of(&chars_of(word)), word);
    assert_eq!(text_bytes(word), word.len());
    assert_eq!(joined("a", "大"), "a大");
    for (a, b) in [("a", "b"), ("a", "ab"), ("ab", "a"), ("é", "z"), ("", "")] {
        assert_eq!(text_before(a, b), a <= b, "{a} {b}");
    }
}

#[test]
fn like_patterns_match_as_in_sql() {
    let matches = |pattern: &str, subject: &str| like_match(&chars_of(pattern), &chars_of(subject));
    assert!(matches("%b_d", "aBcd"));
    assert!(!matches("b_d", "abcd"));
    assert!(matches("a\\%c", "a%c"));
    assert!(!matches("a\\%c", "abc"));
    assert_eq!(like_escape("50%_\\x"), "50\\%\\_\\\\x");
    assert!(like_match(&holding_pattern("%"), &chars_of("a%b")));
    assert!(!like_match(&holding_pattern("%"), &chars_of("ab")));
    assert!(like_match(&beginning_pattern("/a_b/"), &chars_of("/a_b/c")));
    assert!(!like_match(&beginning_pattern("/a_b/"), &chars_of("/axb/c")));
}

#[test]
fn csv_fields_are_quoted_where_needed() {
    assert_eq!(csv_field("plain"), "plain");
    assert_eq!(csv_field("a,b"), "\"a,b\"");
    assert_eq!(csv_field("say \"hi\""), "\"say \"\"hi\"\"\"");
    assert_eq!(csv_field("two\nlines"), "\"two\nlines\"");
    assert_eq!(csv_field("cr\r"), "\"cr\r\"");
}

// Paths

#[test]
fn paths_are_taken_apart() {
    let (posix, windows) = (Platform::Posix, Platform::Windows);
    assert_eq!(file_name(posix, "/a/b.txt").as_deref(), Some("b.txt"));
    assert_eq!(file_name(windows, "C:\\a\\b.txt").as_deref(), Some("b.txt"));
    assert_eq!(file_name(posix, "/"), None);
    assert_eq!(parent_text("/a/b\\c.txt").as_deref(), Some("/a/b"));
    assert_eq!(parent_text("c.txt"), None);
    assert_eq!(join_path(posix, "/a", "b"), "/a/b");
    assert_eq!(join_path(posix, "/", "b"), "/b");
    assert_eq!(join_path(windows, "C:\\x", "b"), "C:\\x\\b");
    assert_eq!(split_extension("a.tar.gz"), ("a.tar".to_string(), ".gz".to_string()));
    assert_eq!(split_extension(".rc"), (".rc".to_string(), String::new()));
    assert_eq!(lower_extension(posix, "/a/P.JPG").as_deref(), Some("jpg"));
    assert!(is_image_path(posix, "/a/P.JPG"));
    assert!(!is_image_path(posix, "/a/jpg"));
    assert_eq!(parent_directories(posix, "/r/f/20/x", "/r"), vec!["/r/f/20", "/r/f"]);
}

#[test]
fn rules_look_at_whole_components_or_parts() {
    let (posix, windows) = (Platform::Posix, Platform::Windows);
    assert!(path_under(posix, "/a/b/c", "/a/b"));
    assert!(path_under(posix, "/a/b", "/a/b"));
    assert!(!path_under(posix, "/a/bc", "/a/b"));
    let rules = ["  C:\\Keep\\ ".to_string()];
    assert!(is_protected_path(windows, "c:/keep/x.txt", &rules));
    assert!(!is_protected_path(windows, "d:/keep/x.txt", &rules));
    assert!(!is_protected_path(posix, "/a", &["  ".to_string()]));
    assert_eq!(normalize_path_text(windows, " ÄB\\C/ "), "äb/c/");
    assert_eq!(normalize_path_text(posix, " ÄB\\C/ "), "ÄB/C/");
    assert!(is_excluded(posix, "/r/files/x", "/r", &[]));
    assert!(is_excluded(posix, "/a/node_modules/x", "/r", &["node_modules".to_string()]));
    assert!(!is_excluded(posix, "/a/x", "/r", &[]));
}

#[test]
fn volumes_are_compared_by_name() {
    assert_eq!(volume_prefix("C:\\a"), "C:");
    assert_eq!(volume_prefix("\\\\server\\share\\x"), "\\\\server\\share");
    assert!(same_volume_text("C:\\a", "c:\\b"));
    assert!(!same_volume_text("C:\\a", "D:\\a"));
}

#[test]
fn walks_skip_what_rules_exclude() {
    let rules = WalkRules {
        platform: Platform::Posix,
        trash: "/r".to_string(),
        exclude: vec!["cache".to_string()],
    };
    let entry = |path: &str, kind: EntryKind| DirEntry { path: path.to_string(), kind };
    let mut walk = Walk::new(vec!["/a".to_string()]);
    assert_eq!(walk.next(false).unwrap().as_deref(), Some("/a"));
    let items = walk.visit(
        &rules,
        &[
            entry("/a/cache", EntryKind::Directory),
            entry("/a/sub", EntryKind::Directory),
            entry("/a/link", EntryKind::Symlink),
            entry("/a/f", EntryKind::File),
        ],
    );
    let files = items.iter().filter(|item| matches!(item, WalkItem::File(_))).count();
    let skipped = items.iter().filter(|item| matches!(item, WalkItem::Skipped)).count();
    assert_eq!(files, 1);
    assert_eq!(skipped + files + 1, 4, "only the directory that is entered is not reported");
    assert_eq!(walk.next(false).unwrap().as_deref(), Some("/a/sub"));
    assert_eq!(walk.next(true), Ok(None), "nothing is left to cancel");

    let mut count = EntryCount::new(vec!["/b".to_string(), "/a".to_string()]);
    assert_eq!(count.walk.next(true), Err("scan cancelled".to_string()));
    assert_eq!(count.walk.next(false).unwrap().as_deref(), Some("/a"));
    count.note(
        &rules,
        &Some(vec![
            entry("/a/cache", EntryKind::Directory),
            entry("/a/sub", EntryKind::Directory),
            entry("/a/f", EntryKind::File),
        ]),
    );
    assert_eq!(count.walk.next(false).unwrap().as_deref(), Some("/a/sub"));
    count.note(&rules, &None);
    assert_eq!(count.total, 3);
    assert_eq!((go_on(false), go_on(true).is_err()), (Ok(()), true));
}

// Hashes and fingerprints

#[test]
fn content_hashes_are_blake3() {
    let hasher = FileHasher::full();
    assert_eq!(
        hasher.finish(),
        "af1349b9f5f9a1a6a0404dea36dcc9499bcb25c9adc112b7cc9a93cae41f3262"
    );
    let mut pieces = FileHasher::full();
    pieces.feed(b"ab");
    pieces.feed(b"c");
    assert_eq!(pieces.finish(), blake3::hash(b"abc").to_hex().to_string());
    assert_eq!(hex_text(&[0, 0x7f, 0xff]), "007fff");
    assert_eq!(compare_pieces(b"ab", b"ab"), None);
    assert_eq!(compare_pieces(b"ab", b"ax"), Some(false));
    assert_eq!(compare_pieces(b"", b""), Some(true));
    assert_eq!(compare_pieces(b"a", b""), Some(false));
}

#[test]
fn fingerprints_are_cut_into_parts() {
    let parts = fingerprint_parts(0xffff_ffff_ffff_ffff);
    assert_eq!(parts, [0x1fff, 0x1fff, 0x1fff, 0x1fff, 0x0fff]);
    let parts = fingerprint_parts(0x0123_4567_89ab_cdef);
    let whole = ((parts[0] as u64) << 51)
        | ((parts[1] as u64) << 38)
        | ((parts[2] as u64) << 25)
        | ((parts[3] as u64) << 12)
        | parts[4] as u64;
    assert_eq!(whole, 0x0123_4567_89ab_cdef);
    assert_eq!(as_signed(u64::MAX), -1);
    let close = fingerprint_parts(0x0123_4567_89ab_cdef ^ 0x8010_0200_0000_1000);
    assert!(close.iter().zip(&parts).any(|(a, b)| a == b));
}

#[test]
fn gradients_compare_neighbours() {
    let mut grid = [0_u8; 72];
    assert_eq!(gradient_hash(&grid), 0);
    grid[0] = 9;
    assert_eq!(gradient_hash(&grid), 1 << 63);
    grid[70] = 9;
    assert_eq!(gradient_hash(&grid), (1 << 63) | 1);
}

#[test]
fn structure_is_measured_against_the_median() {
    let mut block = [0_i32; 64];
    for (i, value) in block.iter_mut().enumerate() {
        *value = i as i32;
    }
    // The median of 1..=63 is 32, so the last 31 bits are set.
    assert_eq!(structure_hash(&block), (1 << 31) - 1);
    block[0] = i32::MAX;
    assert_eq!(structure_hash(&block), (1 << 31) - 1, "the first coefficient does not count");
}

#[test]
fn exif_dates_are_parsed() {
    assert_eq!(days_from_civil(1970, 1, 1), 0);
    assert_eq!(days_from_civil(2000, 3, 1), 11_017);
    assert_eq!(days_from_civil(1969, 12, 31), -1);
    assert_eq!(days_from_civil(-1, 2, 28), days_from_civil(-1, 3, 1) - 1);
    assert_eq!(days_from_civil(2024, 2, 29) + 1, days_from_civil(2024, 3, 1));
    assert_eq!(parse_exif_datetime("1970:01:02 00:00:01\0"), 86_401);
    assert_eq!(parse_exif_datetime("2023:07:01 12:00:00"), 1_688_212_800);
    for bad in ["", "2023:07:01", "2023:13:01 12:00:00", "2023:00:01 12:00:00",
        "2023:07:32 12:00:00", "20x3:07:01 12:00:00", "２023:07:01 12:00:00",
        "2023:07:01 99:00:00", "2023:07:01 24:00:00", "2023:07:01 12:60:00",
        "2023:07:01 12:00:60", "2023-07-01 12:00:00", "2023:07:01T12:00:00",
        "+023:07:01 12:00:00", "2023:07:01 -1:00:00", "2023:02:29 12:00:00",
        "2023:07:01 12:00:00Z"] {
        assert_eq!(parse_exif_datetime(bad), 0, "{bad}");
    }
    assert_eq!(seconds_of_field(&Some(b"1970:01:02 00:00:01".to_vec())), 86_401);
    assert_eq!(parse_exif_datetime(" 2024:02:29 23:59:59 \0\0"), 1_709_251_199);
    assert_eq!(parse_exif_datetime(" 2024:02:29 23:59:59\0\0"), 1_709_251_199);
    // Bytes that are no text at the end are replaced, not dropped.
    assert_eq!(seconds_of_field(&Some(b"1970:01:02 00:00:01\xff".to_vec())), 0);
    assert_eq!(seconds_of_field(&Some(b"1970\xff01:02 00:00:01".to_vec())), 0);
    assert_eq!(seconds_of_field(&None), 0);
}

#[test]
fn documents_are_cut_into_words() {
    assert_eq!(document_words("Ab, abc; DEF-大家x é1 no"), vec!["abc", "def", "大家x", "é1"]);
    assert_eq!(words_by(&['a', 'b', 'c', '.', 'd'], &[true, true, true, false, true]), vec!["abc"]);
}

#[test]
fn documents_get_fingerprints() {
    let text = |n: usize| Some((0..n).map(|k| format!("word{k} ")).collect::<String>());
    let posix = Platform::Posix;
    assert_eq!(document_simhash(posix, "/a.txt", &text(19)), None);
    assert_eq!(document_simhash(posix, "/a.bin", &text(30)), None);
    assert_eq!(document_simhash(posix, "/a.txt", &None), None);
    let (hash, words) = document_simhash(posix, "/a.TXT", &text(30)).unwrap();
    assert_eq!(words, 30);
    let mut ones = [0_usize; 64];
    for k in 0..30 {
        let digest = blake3::hash(format!("word{k}").as_bytes());
        for (bit, count) in ones.iter_mut().enumerate() {
            if digest.as_bytes()[bit / 8] & (1 << (bit % 8)) != 0 {
                *count += 1;
            }
        }
    }
    let expected = (0..64).filter(|bit| ones[*bit] > 15).fold(0_u64, |all, bit| all | (1 << bit));
    assert_eq!(hash, expected);
    let backwards = Some((0..30).rev().map(|k| format!("word{k} ")).collect::<String>());
    assert_eq!(document_simhash(posix, "/b.md", &backwards).unwrap().0, hash);
    let mut digest = [0_u8; 32];
    digest[0] = 0b101;
    digest[7] = 0x80;
    assert_eq!(majority_hash(&[digest]), (1 << 63) | 0b101);
    assert_eq!(majority_hash(&[digest, [0; 32]]), 0, "a tie leaves the bit clear");
}

// Settings and projects

#[test]
fn unusable_indexes_are_refused() {
    let mut index = Index::new();
    let missing = "database is not initialized; run init first";
    assert_eq!(ensure_initialized(&mut index), Err(missing.to_string()));
    assert_eq!(status(&mut index).unwrap_err(), missing);
    assert_eq!(required_setting(&index, "trash_path"), Err(missing.to_string()));
    set_setting(&mut index, "schema_version", "x");
    assert_eq!(groups(&mut index).unwrap_err(), "invalid schema version: x");
    set_setting(&mut index, "schema_version", "9");
    assert_eq!(trash_list(&mut index).unwrap_err(), "unsupported schema version: 9");
    assert!(export_report(&mut index).is_err());
    assert!(group_dirs(&mut index).is_err());
    set_setting(&mut index, "schema_version", "6");
    assert_eq!(ensure_initialized(&mut index), Ok(vec![7, 8]));
    assert_eq!(ensure_initialized(&mut index), Ok(vec![]));
}

#[test]
fn settings_read_back_as_they_were_saved() {
    let mut index = project();
    let list = vec!["/a \"b\"".to_string(), "大".to_string()];
    save_setting_list(&mut index, "roots", &list).unwrap();
    assert_eq!(setting_value(&index, "roots").unwrap(), "[\"/a \\\"b\\\"\",\"大\"]");
    assert_eq!(setting_list(&index, "roots"), Ok(list));
    assert_eq!(setting_list(&index, "nothing"), Ok(vec![]));
    set_setting(&mut index, "roots", "{");
    assert!(setting_list(&index, "roots").is_err());
    assert_eq!(setting_number(&index, "roots", 4), 4);
    set_watch_scan(&mut index, true).unwrap();
    assert!(setting_flag(&index, "watch_scan", false));
    assert!(set_trash_retention(&mut index, 3651).is_err());
    assert!(set_trash_retention(&mut index, -1).is_err());
    assert_eq!(set_trash_retention(&mut index, 0).unwrap(), "已关闭回收站自动清理。");
    assert_eq!(
        set_trash_retention(&mut index, 7).unwrap(),
        "回收站文件将保留 7 天，超期后在下一次扫描时自动清理。"
    );
    assert_eq!(set_auto_scan(&mut index, false), "已关闭启动自动扫描。");
    assert!(!setting_flag(&index, "auto_scan_on_start", true));
}

#[test]
fn projects_open_with_what_was_saved() {
    let mut index = Index::new();
    let list = |text: &str| vec![text.to_string()];
    let steps =
        save_project_config(&mut index, false, "/bin", &list("/a"), &list("p"), &list("x"), -5)
            .unwrap();
    assert!(steps.is_empty());
    let project = open_project(&index, "/db", "/bin").unwrap();
    assert_eq!(project.roots, list("/a"));
    assert_eq!(project.protect_rules, list("p"));
    assert_eq!(project.exclude_rules, list("x"));
    assert_eq!(project.min_file_size, 0);
    assert_eq!(project.trash_retention_days, 30);
    assert_eq!(project.similar_threshold, 10);
    assert!(project.auto_scan);
    assert!(!project.strict_verify && !project.usn_scan && !project.watch_scan);
    assert_eq!(save_roots(&mut index, &list("/b"), &list("q")), "扫描目录已保存。");
    let rules = watch_rules(&index).unwrap();
    assert_eq!((rules.roots, rules.protect_rules), (list("/b"), list("q")));
    assert_eq!(rules.exclude_rules, list("x"));
    set_setting(&mut index, "exclude_rules", "?");
    assert!(open_project(&index, "/db", "/bin").is_err());
    assert!(watch_rules(&index).is_err());
    set_setting(&mut index, "schema_version", "99");
    assert!(save_project_config(&mut index, true, "/bin", &[], &[], &[], 1).is_err());
}

#[test]
fn moments_become_seconds() {
    assert_eq!(unix_seconds(Some(5)), Ok(5));
    assert_eq!(unix_seconds(None), Err("timestamp before Unix epoch".to_string()));
    assert_eq!(unix_seconds(Some(u64::MAX)), Err("timestamp out of range".to_string()));
    let detectors = detector_status();
    assert_eq!(detectors.iter().filter(|detector| detector.available).count(), 2);
}

// Reports

#[test]
fn listings_and_totals_are_printed() {
    let mut index = with_groups();
    assert_eq!(
        groups(&mut index).unwrap(),
        vec![
            "\nGroup 1: 2 identical files, 500 bytes each, hash bbbbbbbbbbbb",
            "  [3] /e/big1.bin",
            "  [4] /e/big2.bin [approved]",
            "\nGroup 2: 2 identical files, 10 bytes each, hash aaaaaaaaaaaa",
            "  [2] /d/a.txt",
            "  [1] /d/b.txt [protected]",
        ]
    );
    index.operations.push(operation(1, 5, OperationState::Trashed, 9));
    assert_eq!(
        status(&mut index).unwrap(),
        "Indexed files: 5\nDuplicate copies: 2\nIn recycle bin: 1"
    );
    let mut empty = project();
    assert_eq!(groups(&mut empty).unwrap(), vec!["No exact duplicate groups found."]);
}

#[test]
fn reports_hold_one_line_for_each_copy() {
    let mut index = with_groups();
    let report = export_report(&mut index).unwrap();
    assert_eq!(report.rows, 4);
    assert_eq!(
        report.csv,
        format!(
            "hash,path,size,modified,approved\n\
             {HASH_A},/d/a.txt,10,100,false\n\
             {HASH_A},/d/b.txt,10,100,false\n\
             {HASH_B},/e/big1.bin,500,100,false\n\
             {HASH_B},/e/big2.bin,500,100,true\n"
        )
    );
}

#[test]
fn directories_are_counted_busiest_first() {
    let mut index = with_groups();
    index.files.push(file(6, "c.txt", 10, HASH_A));
    index.files.push(file(7, "/e/c.txt", 10, HASH_A));
    let dirs = group_dirs(&mut index).unwrap();
    let shown: Vec<_> = dirs.iter().map(|dir| (dir.dir.as_str(), dir.count)).collect();
    assert_eq!(shown, vec![("/e", 3), ("/d", 2)]);
    index.files.pop();
    let dirs = group_dirs(&mut index).unwrap();
    let shown: Vec<_> = dirs.iter().map(|dir| (dir.dir.as_str(), dir.count)).collect();
    assert_eq!(shown, vec![("/d", 2), ("/e", 2)]);
}

#[test]
fn the_bin_and_the_history_show_the_newest_first() {
    let mut index = with_groups();
    index.operations.push(operation(1, 1, OperationState::Trashed, 1_000));
    index.operations.push(operation(2, 2, OperationState::Moved, 3_000_000));
    index.operations.push(operation(3, 3, OperationState::Trashed, 3_000_000));
    index.operations.push(operation(4, 3, OperationState::Deleted, 2_000));
    assert_eq!(
        trash_list(&mut index).unwrap(),
        vec!["[3] 3000000\t/s/3\t/r/3", "[1] 1000\t/s/1\t/r/1"]
    );
    let bin = trash_overview(&index, 3_000_100);
    let shown: Vec<_> = bin.iter().map(|item| (item.id, item.expired)).collect();
    assert_eq!(shown, vec![(3, false), (1, true)]);
    set_setting(&mut index, "trash_retention_days", "0");
    assert!(trash_overview(&index, 3_000_100).iter().all(|item| !item.expired));

    let ids = |offset: Option<i64>, limit: Option<i64>, filter: Option<&str>| {
        history(&index, offset, limit, &filter.map(str::to_string))
            .iter()
            .map(|item| item.id)
            .collect::<Vec<_>>()
    };
    assert_eq!(ids(None, None, None), vec![3, 2, 4, 1]);
    assert_eq!(ids(Some(1), Some(2), None), vec![2, 4]);
    assert_eq!(ids(Some(-7), Some(0), None), vec![3]);
    assert_eq!(ids(Some(9), Some(2), None), Vec::<i64>::new());
    assert_eq!(ids(None, None, Some("trashed")), vec![3, 1]);
    assert_eq!(ids(None, None, Some("deleted")), vec![4]);
    assert_eq!(ids(None, None, Some("restored")), Vec::<i64>::new());
    assert_eq!(ids(None, None, Some("hardlinked")), Vec::<i64>::new());
    assert_eq!(ids(None, None, Some("moved")), vec![3, 2, 4, 1], "an unknown filter is ignored");
}

// The review

#[test]
fn approvals_are_refused_where_they_would_be_unsafe() {
    let mut index = with_groups();
    assert_eq!(
        set_approval(&mut index, 1, true).unwrap_err(),
        "protected files cannot be approved"
    );
    assert_eq!(
        set_approval(&mut index, 5, true).unwrap_err(),
        "only members of an exact duplicate group can be approved"
    );
    assert_eq!(set_approval(&mut index, 77, true).unwrap_err(), "unknown file id 77");
    set_approval(&mut index, 2, true).unwrap();
    assert!(index.files[1].approved);
    set_approval(&mut index, 2, false).unwrap();
    assert!(!index.files[1].approved);
}

#[test]
fn requests_of_the_page_become_queries() {
    let mut index = with_groups();
    let mut request = GroupRequest {
        offset: None,
        limit: None,
        min_size: None,
        path_contains: Some("  ".to_string()),
        sort: None,
        kind: Some("all".to_string()),
        dir_contains: Some("".to_string()),
    };
    let page = review_page(&mut index, &request).unwrap();
    assert_eq!(page.total, 2);
    assert_eq!(page.groups[0].size, 500);
    request.sort = Some("path".to_string());
    let page = review_page(&mut index, &request).unwrap();
    assert_eq!(page.groups[0].size, 10);
    request.path_contains = Some(" big ".to_string());
    assert_eq!(review_page(&mut index, &request).unwrap().total, 1);
    request.path_contains = None;
    request.dir_contains = Some("/d".to_string());
    assert_eq!(review_page(&mut index, &request).unwrap().total, 1);
    request.dir_contains = Some("all".to_string());
    request.kind = Some("document".to_string());
    assert_eq!(review_page(&mut index, &request).unwrap().total, 1);
    request.kind = None;
    request.offset = Some(1);
    request.limit = Some(1);
    let page = review_page(&mut index, &request).unwrap();
    assert_eq!((page.total, page.groups.len()), (2, 1));
    assert!(kind_extensions("image").is_some());
    assert!(kind_extensions("nothing").is_none());
}

#[test]
fn sweeps_are_named_by_their_strategy() {
    let mut index = with_groups();
    index.files[3].approved = false;
    index.files[3].modified = 500;
    let error =
        approve_filtered(&mut index, "random", 0, "", &None, &None).err().unwrap();
    assert_eq!(error, "未知的保留策略：random");
    let outcome = approve_filtered(&mut index, "newest", -3, "", &None, &None).unwrap();
    assert_eq!(outcome.succeeded, 1);
    assert!(index.files[2].approved && !index.files[3].approved);
    index.files[2].approved = false;
    let kind = Some("all".to_string());
    let dir = Some("/d".to_string());
    let outcome = approve_filtered(&mut index, "oldest", 0, "", &kind, &dir).unwrap();
    assert_eq!(outcome.succeeded, 0, "one of the two copies is protected");
    for strategy in ["scored", "shortest"] {
        assert_eq!(approve_filtered(&mut index, strategy, 600, "", &None, &None).unwrap().succeeded, 0);
    }
}

#[test]
fn scores_prefer_tidy_places() {
    let member = |path: &str, modified: i64| GroupFile {
        id: 1,
        path: path.to_string(),
        protected: false,
        approved: false,
        modified,
        hardlinked: false,
        suggested: false,
    };
    let early = keeper_score(&member("/photos/a.jpg", 100), 100, 200);
    let late = keeper_score(&member("/photos/a.jpg", 200), 100, 200);
    assert!(early >= late);
    assert!(keeper_score(&member("/photos/a (1).jpg", 100), 100, 200) <= early);
}

// Operations that end at once

#[test]
fn operations_name_what_stops_them() {
    let mut index = with_groups();
    let seen = Seen::new();
    let posix = Platform::Posix;
    let unknown = "unknown file id 77".to_string();
    assert_eq!(finished(trash(&mut index, posix, 77, &seen, 1)), Err(unknown.clone()));
    assert_eq!(finished(delete_direct(&mut index, 77, &seen, 1)), Err(unknown.clone()));
    assert_eq!(finished(hardlink(&mut index, posix, 77, &seen, 1)), Err(unknown));
    let refused = "file must be an approved, unprotected member of an exact duplicate group";
    assert_eq!(finished(trash(&mut index, posix, 2, &seen, 1)), Err(refused.to_string()));
    let unknown = Err("unknown operation id 5".to_string());
    assert_eq!(finished(restore(&mut index, posix, 5, &seen, 1)), unknown);
    assert_eq!(finished(restore_to(&mut index, posix, 5, "/x", &seen, 1)), unknown);
    assert_eq!(finished(delete_trash(&mut index, posix, 5, &seen)), unknown);
    index.operations.push(operation(5, 1, OperationState::Deleted, 1));
    assert_eq!(
        finished(restore(&mut index, posix, 5, &seen, 1)),
        Err("operation is not available for restore".to_string())
    );
    assert_eq!(
        finished(delete_trash(&mut index, posix, 5, &seen)),
        Err("operation is not available for delete".to_string())
    );
    index.operations[0].state = OperationState::Trashed;
    let mut changed = Seen::new();
    changed.is_file = Some(true);
    changed.content_hash = Some(Ok("other".to_string()));
    let mut again = Seen::new();
    for _ in 0..10 {
        match restore(&mut index, posix, 5, &again, 1) {
            Action::Inspect { .. } => again.is_file = changed.is_file,
            Action::Probe { .. } => again.occupied = Some(false),
            Action::Hash { .. } => again.content_hash = Some(Ok("other".to_string())),
            Action::Finished { result } => {
                assert_eq!(result, Err("recycle-bin file failed integrity check".to_string()));
                break;
            }
            _ => panic!("the file must not be touched"),
        }
    }
}

#[test]
fn verdict_pairs_have_one_order() {
    assert_eq!(canonical_pair("b", "a"), ("a", "b"));
    assert_eq!(canonical_pair("a", "b"), ("a", "b"));
}

// Messages

fn outcome(succeeded: usize, failures: &[&str]) -> BatchOutcome {
    BatchOutcome {
        succeeded,
        failures: failures.iter().map(|failure| failure.to_string()).collect(),
    }
}

#[test]
fn outcomes_are_put_into_words() {
    let good = outcome(2, &[]);
    let bad = outcome(1, &["x", "y"]);
    assert_eq!(trash_approved_message(&good), "已移动 2 个，0 个失败：");
    assert_eq!(trash_approved_message(&bad), "已移动 1 个，2 个失败：x；y");
    assert_eq!(delete_direct_batch_message(&bad), "已删除 1 个，2 个失败：x；y");
    assert_eq!(hardlink_approved_message(&bad), "已转为硬链接 1 个，2 个失败：x；y");
    assert_eq!(format_batch_outcome("已移入回收站", &good), "已移入回收站 2 个文件。");
    assert_eq!(format_batch_outcome("已永久删除", &bad), "已永久删除 1 个，2 个失败：x；y");
    assert_eq!(restore_batch_message(&good), "已恢复整批 2 个文件至原位置。");
    assert_eq!(restore_batch_message(&bad), "已恢复 1 个，2 个失败：x；y");
    assert_eq!(approve_filtered_message(&good), "已标记 2 个副本待处理。");
    assert_eq!(approve_filtered_message(&bad), "已标记 1 个副本，2 个失败：x；y");
    assert_eq!(export_message(4, "/o.csv"), "已导出 4 条重复记录到 /o.csv");
    assert_eq!(trash_empty_message(3), "已清空回收站，永久删除 3 个文件。");
    assert_eq!(trash_prune_message(1), "已清理 1 个过期回收文件。");
    let keep = filelens::directories::DirKeepOutcome {
        recycled: 3,
        moved: 1,
        failures: vec!["x".to_string()],
    };
    assert_eq!(
        recycle_dir_message(&keep),
        "已移入回收站 3 个，1 张移入保留目录。 失败 1 个：x"
    );
    let merge = filelens::merge::DirMergeOutcome {
        recycled: 1,
        moved: 2,
        kept: 3,
        cleaned_dirs: vec!["/a".to_string()],
        failures: vec![],
    };
    assert_eq!(
        merge_dir_message(&merge),
        "已移入回收站 1 个，2 张移动到目标目录，3 张原地保留。 已删除清空的空目录 1 个。"
    );
    assert_eq!(
        bulk_summary(BulkKind::Trash, &good),
        "批量移入回收站完成：成功 2 个，失败 0 个。"
    );
    assert_eq!(
        bulk_summary(BulkKind::Delete, &outcome(0, &["a", "b", "c", "d"])),
        "批量永久删除完成：成功 0 个，失败 4 个。 失败原因：a；b；c 等 4 条"
    );
}

fn summary() -> ScanSummary {
    ScanSummary {
        new: 1,
        unchanged: 0,
        updated: 0,
        skipped: 0,
        errors: 0,
        missing: 0,
        pruned: 0,
        index_pruned: 0,
        fingerprint_rebuild: 0,
        failed_roots: vec![],
    }
}

#[test]
fn scans_report_what_is_worth_saying() {
    let mut done = summary();
    assert_eq!(scan_message(&done), "扫描完成，索引已更新。");
    done.fingerprint_rebuild = 2;
    done.pruned = 3;
    done.index_pruned = 4;
    done.failed_roots = vec!["/x".to_string()];
    done.errors = 5;
    assert_eq!(
        scan_message(&done),
        "扫描完成，索引已更新。 本次重建了 2 张照片的指纹（指纹格式升级后的一次性处理）。 \
         已清理 3 个超期回收文件。 已清理 4 条 90 天未更新的缺席索引记录。 \
         跳过 1 个无效扫描目录。 5 个条目处理失败，可在历史进度或日志中查看。"
    );
}

#[test]
fn the_command_line_tells_the_numbers_of_a_scan() {
    let mut done = summary();
    done.unchanged = 2;
    done.index_pruned = 8;
    done.failed_roots = vec!["/x".to_string(), "/y".to_string()];
    assert_eq!(
        scan_lines(&done),
        vec![
            "Scanned: 1 new, 2 unchanged, 0 updated, 0 skipped, 0 errors, 0 missing, \
             0 expired recycled, 8 stale index rows."
                .to_string(),
            "Skipped missing roots: /x, /y".to_string(),
        ]
    );
    assert_eq!(scan_lines(&summary()).len(), 1);
    assert_eq!(rebuild_line(0), None);
    assert_eq!(
        rebuild_line(3).unwrap(),
        "Re-fingerprinting 3 image(s) this scan (fingerprint format changed or rows missing)."
    );
    assert_eq!((hash_workers(None), hash_workers(Some(3)), hash_workers(Some(16))), (2, 3, 4));
}

fn large_entry(path: &str, quick: &str) -> ProcessedEntry {
    ProcessedEntry {
        path_text: path.to_string(),
        size: 20_000_000,
        modified: 5,
        hash: String::new(),
        quick_hash: Some(quick.to_string()),
        dev: 0,
        inode: 0,
        frn: 0,
        exif_taken: 0,
        photo: None,
        document: None,
    }
}

#[test]
fn large_files_wait_for_a_possible_twin() {
    let mut index = project();
    let mut log = ScanErrorLog::new();
    let mut writer = ScanWriter::new();
    let rules = WriteRules { platform: Platform::Posix, protect: vec![] };
    for (path, quick) in [("/a", "head"), ("/b", "other"), ("/c", "head")] {
        assert_eq!(writer.next_hash(), None);
        let found = WorkResult::Processed(Ok(large_entry(path, quick)));
        writer.accept(&mut index, &mut log, &rules, found, 9).unwrap();
    }
    assert_eq!(writer.pending.len(), 1);
    assert_eq!(writer.next_hash(), Some("/c".to_string()));
    writer.hashed(&mut index, &mut log, &rules, Ok("full".to_string()), 9).unwrap();
    assert_eq!(writer.next_hash(), Some("/a".to_string()));
    writer.hashed(&mut index, &mut log, &rules, Err("gone".to_string()), 9).unwrap();
    assert_eq!(writer.next_hash(), None);
    assert_eq!((writer.counters.new, writer.counters.errors), (1, 1));
    writer.flush(&mut index, &log, &rules, 9).unwrap();
    let stored: Vec<(&str, &str)> =
        index.files.iter().map(|row| (row.path.as_str(), row.hash.as_str())).collect();
    assert_eq!(stored, vec![("/c", "full"), ("/b", "q:other")]);
}

#[test]
fn a_recycled_file_is_recorded_where_it_went() {
    let mut index = with_groups();
    let mut batch = trash_batch(&mut index, &[4], 77);
    let mut now = 1_000;
    let (mut prepared, mut moved_to) = (None, None);
    loop {
        // The clock moves on between any two steps.
        now += 1;
        match batch.step(&mut index, Platform::Posix, now) {
            BatchStep::Act(Action::Hash { .. }) => {
                batch.seen.content_hash = Some(Ok(HASH_B.to_string()));
            }
            BatchStep::Act(Action::MakeParents { path }) => {
                prepared = Some(path);
                batch.seen.prepared = Some(Ok(()));
            }
            BatchStep::Act(Action::Move { to, .. }) => {
                moved_to = Some(to);
                batch.seen.moved = Some(Ok(()));
            }
            BatchStep::Act(_) => panic!("nothing else is asked for"),
            BatchStep::Progress(..) => {}
            BatchStep::Done => break,
        }
    }
    assert_eq!(batch.outcome.succeeded, 1, "{:?}", batch.outcome.failures);
    let record = index.operations.last().unwrap();
    assert_eq!(record.trash_path, "/r/1001-4/files/4/big2.bin");
    assert_eq!(prepared.as_ref(), Some(&record.trash_path));
    assert_eq!(moved_to.as_ref(), Some(&record.trash_path));
    assert_eq!(record.created_at, 1_001);
}

#[test]
fn a_batch_never_takes_the_last_copy() {
    let mut index = project();
    for id in 1..4 {
        let mut row = file(id, &format!("/d/{id}.bin"), 9, HASH_A);
        row.approved = true;
        index.files.push(row);
    }
    let mut batch = delete_approved_batch(&mut index, &[1, 2, 3], 5);
    loop {
        match batch.step(&mut index, Platform::Posix, 50) {
            BatchStep::Act(Action::Hash { .. }) => {
                batch.seen.content_hash = Some(Ok(HASH_A.to_string()));
            }
            BatchStep::Act(Action::Delete { .. }) => batch.seen.deleted = Some(Ok(())),
            BatchStep::Act(_) => panic!("nothing else is asked for"),
            BatchStep::Progress(..) => {}
            BatchStep::Done => break,
        }
    }
    assert_eq!(batch.outcome.succeeded, 2);
    assert_eq!(
        batch.outcome.failures,
        vec![
            "文件 #3：file must be an approved, unprotected member of an exact duplicate group"
                .to_string()
        ]
    );
    let live: Vec<i64> =
        index.files.iter().filter(|row| row.present).map(|row| row.id).collect();
    assert_eq!(live, vec![3]);
}

fn stored_rows() -> StoredRows {
    let index = with_groups();
    StoredRows {
        settings: index.settings,
        files: index.files,
        operations: vec![operation(1, 2, OperationState::Trashed, 5)],
        photos: vec![],
        documents: vec![],
        verdicts: vec![],
    }
}

#[test]
fn stored_rows_must_fit_together() {
    let index = assemble(stored_rows()).unwrap();
    assert_eq!(index.files.len(), 5);
    assert_eq!(setting_value(&index, "trash_path"), Some("/r".to_string()));

    let mut rows = stored_rows();
    rows.files[1].path = rows.files[0].path.clone();
    assert!(assemble(rows).is_none(), "a path belongs to one row");
    let mut rows = stored_rows();
    rows.files[1].id = 1;
    assert!(assemble(rows).is_none(), "an id belongs to one row");
    let mut rows = stored_rows();
    rows.operations[0].file_id = 99;
    assert!(assemble(rows).is_none(), "an operation is about a file");
    let mut rows = stored_rows();
    let print =
        PhotoPrint { dhash: 0, phash: 0, part_a: 0, part_b: 0, part_c: 0, part_d: 0, part_e: 0 };
    rows.photos.push((99, print));
    assert!(assemble(rows).is_none(), "a fingerprint is of a file");
    let mut rows = stored_rows();
    let again = rows.settings[0].clone();
    rows.settings.push(again);
    assert!(assemble(rows).is_none(), "a setting has one value");
}

// Background tasks

#[test]
fn one_scan_runs_at_a_time() {
    let mut index = project();
    let mut desk = ScanDesk::new();
    let hashing = HashProgress::new();
    let mut log = ScanErrorLog::new();
    log.record("/x", "bad");
    assert_eq!(desk.scan_state(&hashing, &log).state, "idle");
    assert_eq!(desk.cancel_scan(), Err("没有正在运行的扫描任务".to_string()));
    desk.launch_scan(&mut index, &["/a".to_string()], &[], &[]).unwrap();
    assert_eq!(setting_list(&index, "roots"), Ok(vec!["/a".to_string()]));
    assert!(desk.scan_task_running());
    assert_eq!(
        desk.launch_scan(&mut index, &[], &[], &[]),
        Err("已有扫描任务正在运行".to_string())
    );
    desk.note_progress(3, 9, Some("/a/f".to_string()));
    let report = desk.scan_state(&hashing, &log);
    assert_eq!((report.state.as_str(), report.processed, report.total), ("running", 3, 9));
    assert_eq!(report.current_path.as_deref(), Some("/a/f"));
    assert_eq!((report.errors_total, report.recent_errors.len()), (1, 1));
    desk.cancel_scan().unwrap();
    assert!(desk.task.as_ref().unwrap().cancelled);
    desk.finish(&Err("scan cancelled".to_string()));
    assert_eq!(desk.scan_state(&hashing, &log).state, "cancelled");
    assert_eq!(desk.scan_state(&hashing, &log).state, "idle", "the end is told once");

    desk.launch_scan(&mut index, &[], &[], &[]).unwrap();
    desk.finish(&Ok(summary()));
    assert!(!desk.scan_task_running());
    desk.launch_scan(&mut index, &[], &[], &[]).unwrap();
    desk.finish(&Err("disk full".to_string()));
    assert!(desk.task.as_ref().unwrap().phase == Phase::Failed);
    let report = desk.scan_state(&hashing, &log);
    assert_eq!((report.state.as_str(), report.message.as_str()), ("failed", "disk full"));
}

#[test]
fn one_bulk_action_runs_at_a_time() {
    let mut desk = BulkDesk::new();
    assert!(!desk.bulk_state().running);
    assert_eq!(desk.start_bulk("trash", 0), Err("没有选择要处理的文件".to_string()));
    assert_eq!(desk.start_bulk("burn", 1), Err("未知的批量类型：burn".to_string()));
    assert!(desk.start_bulk("hardlink", 2) == Ok(BulkKind::Hardlink));
    assert_eq!(desk.start_bulk("trash", 1), Err("已有批量任务正在运行".to_string()));
    desk.note_progress(1, 2);
    let state = desk.bulk_state();
    assert_eq!((state.running, state.done, state.total), (true, 1, 2));
    assert_eq!(state.message, "正在处理 1/2...");
    desk.finish(&outcome(2, &[]), 2);
    let state = desk.bulk_state();
    assert_eq!((state.running, state.kind.as_str(), state.done), (false, "hardlink", 2));
    assert_eq!(state.message, "批量硬链接替换完成：成功 2 个，失败 0 个。");
    assert!(desk.start_bulk("delete", 1) == Ok(BulkKind::Delete));
}

#[test]
fn watchers_wait_until_the_tree_is_quiet() {
    let mut watch = Watch::new();
    assert!(watch.hear(WatchEvent::Access, false) == WatchStep::Listen);
    assert!(watch.hear(WatchEvent::Quiet, false) == WatchStep::Listen);
    assert!(watch.hear(WatchEvent::Change, false) == WatchStep::Listen);
    assert!(watch.hear(WatchEvent::Quiet, false) == WatchStep::Settle);
    assert!(watch.hear(WatchEvent::Change, false) == WatchStep::Settle);
    assert!(watch.hear(WatchEvent::Quiet, false) == WatchStep::Scan);
    assert!(watch.hear(WatchEvent::Quiet, false) == WatchStep::Listen);
    assert!(watch.hear(WatchEvent::Trouble, false) == WatchStep::Listen);
    assert!(watch.hear(WatchEvent::Quiet, true) == WatchStep::Stop);
    assert!(watch.hear(WatchEvent::Closed, false) == WatchStep::Stop);

    let mut desk = WatchDesk::new();
    assert_eq!(desk.start_watcher(2), (None, Some(1)));
    assert_eq!(desk.start_watcher(1), (Some(1), Some(2)));
    desk.clear_watch_task(1);
    assert_eq!(desk.current, Some(2), "a late watcher does not clear its successor");
    desk.clear_watch_task(2);
    assert_eq!(desk.current, None);
    assert_eq!(desk.start_watcher(0), (None, None));
}

#[test]
fn verification_resumes_with_what_is_left() {
    let pair = |first: &str, second: &str| (first.to_string(), second.to_string());
    let pairs = [pair("a", "b"), pair("c", "d"), pair("e", "f"), pair("c", "d")];
    let mut run = start_duplicate_verify(&pairs, &[Some(true), None, Some(false), None]);
    assert_eq!((run.state.done, run.state.same, run.state.different), (2, 1, 1));
    assert_eq!(run.state.total, 4);
    assert_eq!(run.remaining, vec![pair("c", "d")]);
    assert!(VerifyRun::may_start(None, false) && VerifyRun::may_start(Some(&run.state), true));
    assert!(!VerifyRun::may_start(Some(&run.state), false));
    assert!(matches!(run.next_step(false, true), VerifyStep::Pause));
    assert!(matches!(run.next_step(true, false), VerifyStep::Stop));
    assert!(VerifyRun::should_stop(false, true) && !VerifyRun::should_stop(false, false));
    match run.next_step(false, false) {
        VerifyStep::Verify(list) => assert_eq!(list, vec![pair("c", "d")]),
        _ => panic!("a pair is left"),
    }
    let verdict = |first: &str, second: &str| PairVerdict {
        first: first.to_string(),
        second: second.to_string(),
        identical: true,
    };
    assert!(run.publish(&verdict("c", "d")).is_none());
    assert_eq!((run.state.done, run.state.same), (3, 2));
    assert!(matches!(run.next_step(false, false), VerifyStep::Stop));
    for k in 0..62 {
        assert!(run.publish(&verdict("x", &k.to_string())).is_none());
    }
    assert_eq!(run.publish(&verdict("x", "last")).unwrap().len(), 64);
    assert!(run.publish(&verdict("y", "y")).is_none());
    let rest = run.finish();
    assert_eq!(rest.len(), 1);
    assert!(!run.state.running);
    assert!(VerifyRun::may_start(Some(&run.state), false), "a pass that ended is in no way");
}

// Previews

#[test]
fn previews_are_rendered_once() {
    let picture = image::RgbImage::from_fn(1_200, 600, |x, y| image::Rgb([x as u8, y as u8, 7]));
    let mut bytes = std::io::Cursor::new(Vec::new());
    picture.write_to(&mut bytes, image::ImageFormat::Png).unwrap();
    let content = Some(bytes.into_inner());
    let posix = Platform::Posix;
    let first = image_thumbnail(posix, "/p/a.png", &None, &content);
    let stored = first.store.clone();
    let small = image::load_from_memory(stored.as_ref().unwrap()).unwrap();
    assert_eq!((small.width(), small.height()), (560, 280));
    let again = image_thumbnail(posix, "/p/a.png", &stored, &None);
    assert_eq!(again.url, first.url);
    assert!(again.store.is_none());
    let large = image_preview(posix, "/p/a.png", &None, &content).store.unwrap();
    assert_eq!(image::load_from_memory(&large).unwrap().width(), 1_400);
    let none = image_thumbnail(posix, "/p/a.png", &None, &None);
    assert!(none.url.is_none() && none.store.is_none());
    assert!(image_preview(posix, "/p/a.png", &None, &Some(vec![1, 2, 3])).url.is_none());
    assert_eq!(data_url(b"abc?"), "data:image/png;base64,YWJjPw==");
}

#[test]
fn cache_names_follow_the_state_of_the_file() {
    let key = thumbnail_cache_key("/p/a.png", 12, 345);
    let expected = blake3::hash(b"/p/a.png|12|345").to_hex().to_string();
    assert_eq!(key, expected[..20]);
    assert_ne!(key, thumbnail_cache_key("/p/a.png", 13, 345));
    assert_eq!(cached_name("th", "/p/a.png", 12, 345), format!("th-{key}.png"));
    let mut slots = DecodeSlots::new();
    for _ in 0..3 {
        assert!(slots.acquire_decode_permit());
    }
    assert!(!slots.acquire_decode_permit());
    slots.release();
    assert!(slots.acquire_decode_permit());

    let cached = |path: &str, size: u64| CacheEntry { path: path.to_string(), modified: 1, size };
    let stats = thumbnail_cache_stats(&vec![cached("a", 5), cached("b", 7)]);
    assert_eq!((stats.files, stats.bytes), (2, 12));
}

// The change journal

fn record(frn: u64, parent: u64, name: &str, attributes: u32) -> Vec<u8> {
    let units: Vec<u16> = name.encode_utf16().collect();
    let mut bytes = vec![0_u8; 60];
    let length = 60 + 2 * units.len();
    bytes[0..4].copy_from_slice(&(length as u32).to_le_bytes());
    bytes[4..6].copy_from_slice(&2_u16.to_le_bytes());
    bytes[8..16].copy_from_slice(&frn.to_le_bytes());
    bytes[16..24].copy_from_slice(&parent.to_le_bytes());
    bytes[52..56].copy_from_slice(&attributes.to_le_bytes());
    bytes[56..58].copy_from_slice(&((2 * units.len()) as u16).to_le_bytes());
    bytes[58..60].copy_from_slice(&60_u16.to_le_bytes());
    for unit in units {
        bytes.extend(unit.to_le_bytes());
    }
    bytes
}

fn reply(next: u64, records: &[Vec<u8>]) -> Vec<u8> {
    let mut bytes = next.to_le_bytes().to_vec();
    for record in records {
        bytes.extend(record);
    }
    bytes
}

#[test]
fn journals_are_walked_by_parent_references() {
    assert_eq!(volume_of_root("c:\\data").unwrap(), "\\\\.\\C:");
    assert!(volume_of_root("\\\\server\\share").is_err());
    assert!(volume_of_root("大:").is_err());
    assert_eq!(journal_id(&[1; 55]), Err("short USN journal reply".to_string()));
    assert_eq!(journal_id(&[1; 56]), Ok(0x0101_0101));
    assert_eq!(reference_number(1, 2), 0x1_0000_0002);

    let mut table = UsnTable::new();
    let empty = root_paths(&table, "C:\\", &Ok(5));
    assert_eq!(empty.err(), Some("USN enumeration returned nothing".to_string()));
    let directory = 0x10;
    let link = 0x410;
    let mut old = record(20, 10, "ignored", 0);
    old[4] = 3;
    let first = reply(
        77,
        &[
            record(5, 5, ".", directory),
            record(10, 5, "dir", directory),
            record(11, 5, "junction", link),
            record(12, 11, "behind.txt", 0),
            record(13, 10, "b.txt", 0),
            old,
        ],
    );
    assert_eq!(table.absorb(&first), Some(77));
    let second = reply(
        88,
        &[record(14, 10, "大😀.txt", 0), record(15, 5, "z.txt", 0), record(13, 10, "a.txt", 0)],
    );
    assert_eq!(table.absorb(&second), Some(88));
    assert_eq!(table.absorb(&8_u64.to_le_bytes()), None);
    let list = root_paths(&table, "C:\\", &Ok(5)).unwrap();
    let shown: Vec<(&str, EntryKind)> =
        list.iter().map(|entry| (entry.path.as_str(), entry.kind)).collect();
    assert_eq!(
        shown,
        vec![
            ("C:\\dir", EntryKind::Directory),
            ("C:\\dir\\a.txt", EntryKind::File),
            ("C:\\dir\\大😀.txt", EntryKind::File),
            ("C:\\z.txt", EntryKind::File),
        ]
    );
    assert_eq!(
        listed_files(&list),
        vec!["C:\\dir\\a.txt", "C:\\dir\\大😀.txt", "C:\\z.txt"]
    );
    assert_eq!(root_paths(&table, "C:\\dir", &Ok(10)).unwrap().len(), 2);
    let refused = root_paths(&table, "C:\\x", &Err("no".to_string()));
    assert_eq!(refused.err(), Some("no".to_string()));

    // Directories that hold each other lie nowhere.
    let ring = reply(99, &[record(30, 31, "a", directory), record(31, 30, "b", directory)]);
    table.absorb(&ring);
    assert_eq!(root_paths(&table, "C:\\", &Ok(5)).unwrap().len(), 4);
}

#[test]
fn damaged_journal_replies_end_early() {
    let mut table = UsnTable::new();
    let mut cut = reply(3, &[record(1, 5, "a", 0), record(2, 5, "b", 0)]);
    cut.truncate(cut.len() - 1);
    assert_eq!(table.absorb(&cut), Some(3));
    let list = root_paths(&table, "C:\\", &Ok(5)).unwrap();
    assert_eq!(listed_files(&list), vec!["C:\\a"]);
}

#[test]
fn missing_files_are_looked_for_below_the_scanned_roots() {
    let upper_and_lower = || {
        let mut index = project();
        index.files.push(file(1, "C:\\Data\\x.bin", 1, HASH_A));
        index.files.push(file(2, "/data/a/y.bin", 1, HASH_A));
        index.files.push(file(3, "/data/A/z.bin", 1, HASH_A));
        index
    };
    let mut index = upper_and_lower();
    let roots = vec!["/data/a".to_string()];
    assert_eq!(mark_missing_absent(&mut index, Platform::Posix, &roots, 200), 1);
    assert!(index.files[0].present && !index.files[1].present && index.files[2].present);
    assert_eq!(mark_missing_absent(&mut index, Platform::Posix, &roots, 200), 0);

    let mut index = upper_and_lower();
    let roots = vec!["c:\\data".to_string()];
    assert_eq!(mark_missing_absent(&mut index, Platform::Windows, &roots, 100), 0);
    assert_eq!(mark_missing_absent(&mut index, Platform::Windows, &roots, 200), 1);
    assert!(!index.files[0].present && index.files[1].present && index.files[2].present);
}

#[test]
fn a_directory_selects_what_lies_inside_it() {
    let mut index = project();
    index.files.push(file(1, "/data/ab/one.txt", 10, HASH_A));
    index.files.push(file(2, "/data/ab/two.txt", 10, HASH_A));
    index.files.push(file(3, "/data/a/three.txt", 20, HASH_B));
    index.files.push(file(4, "/else/data/a/four.txt", 20, HASH_B));
    let mut request = GroupRequest {
        offset: None,
        limit: None,
        min_size: None,
        path_contains: None,
        sort: None,
        kind: None,
        dir_contains: Some("/data/a".to_string()),
    };
    let page = review_page(&mut index, &request).unwrap();
    assert_eq!((page.total, page.groups[0].size), (1, 20));
    request.dir_contains = Some("/data/ab".to_string());
    let page = review_page(&mut index, &request).unwrap();
    assert_eq!((page.total, page.groups[0].size), (1, 10));
    request.dir_contains = Some("data/ab".to_string());
    assert_eq!(review_page(&mut index, &request).unwrap().total, 0);
}

#[test]
fn an_extension_is_of_one_kind() {
    let kinds = ["image", "video", "audio", "document", "archive"];
    let mut all: Vec<&str> = Vec::new();
    for kind in kinds {
        all.extend(kind_extensions(kind).unwrap());
    }
    let listed = all.len();
    all.sort();
    all.dedup();
    assert_eq!(all.len(), listed);
    let images = kind_extensions("image").unwrap();
    for extension in ["jpg", "jpeg", "png", "gif", "webp", "bmp"] {
        assert!(images.contains(&extension));
    }
}

#[test]
fn pictures_are_scaled_where_their_points_can_be_added_up() {
    let written = |picture: image::DynamicImage| {
        let mut output = std::io::Cursor::new(Vec::new());
        picture.write_to(&mut output, image::ImageFormat::Png).unwrap();
        Some(output.into_inner())
    };
    let posix = Platform::Posix;
    let narrow = image::GrayImage::from_pixel(120_000, 320, image::Luma([255]));
    let content = written(image::DynamicImage::ImageLuma8(narrow));
    assert!(image_thumbnail(posix, "/p/strip.png", &None, &content).url.is_some());
    // Of sixteen-bit samples fewer can be added up.
    let deep = image::ImageBuffer::from_pixel(120_000, 320, image::Luma([u16::MAX]));
    let content = written(image::DynamicImage::ImageLuma16(deep));
    assert!(image_thumbnail(posix, "/p/strip.png", &None, &content).url.is_none());
    assert!(image_preview(posix, "/p/strip.png", &None, &content).url.is_some());
}

#[test]
fn the_last_project_opens_again() {
    let database = "/home/some \"one\"/\u{6570}\u{636e}\\files.db";
    let pointer = project_pointer(database).unwrap();
    assert_eq!(pointer, "\"/home/some \\\"one\\\"/\u{6570}\u{636e}\\\\files.db\"");
    assert_eq!(project_database(&Some(pointer), "/data/filelens.db").unwrap(), database);
    assert_eq!(project_database(&None, "/data/filelens.db").unwrap(), "/data/filelens.db");
    assert!(project_database(&Some("[1]".to_string()), "/data/filelens.db").is_err());
    assert!(project_database(&Some("\"open".to_string()), "/data/filelens.db").is_err());
    assert_eq!(project_trash(&Some("/bin".to_string()), "/data/recycle"), "/bin");
    assert_eq!(project_trash(&None, "/data/recycle"), "/data/recycle");
}

#[test]
fn only_files_named_as_pictures_are_read_for_their_fingerprint() {
    let posix = Platform::Posix;
    assert!(needs_content(posix, "/p/a.PNG"));
    assert!(needs_content(posix, "/p/a.jpeg"));
    assert!(!needs_content(posix, "/p/a.txt"));
    assert!(!needs_content(posix, "/p.png/a"));
}

#[test]
fn new_rows_make_room_for_those_of_another_writer() {
    let print = |dhash: i64| PhotoPrint {
        dhash,
        phash: 0,
        part_a: 0,
        part_b: 0,
        part_c: 0,
        part_d: 0,
        part_e: 0,
    };
    let mut index = project();
    index.files.push(file(1, "/d/a.png", 10, HASH_A));
    index.files.push(file(2, "/d/b.png", 10, HASH_A));
    index.files.push(file(3, "/d/c.png", 10, HASH_B));
    index.operations.push(operation(1, 1, OperationState::Trashed, 5));
    index.operations.push(operation(2, 3, OperationState::Trashed, 6));
    for id in 1..4 {
        index.photos.insert(id, print(10 * id));
    }
    // Files from the second on are new; another writer has stored up to four.
    make_room(&mut index, 2, 4, 2, 1).unwrap();
    let ids: Vec<i64> = index.files.iter().map(|row| row.id).collect();
    assert_eq!(ids, vec![1, 5, 6]);
    let operations: Vec<(i64, i64)> =
        index.operations.iter().map(|row| (row.id, row.file_id)).collect();
    assert_eq!(operations, vec![(1, 1), (2, 6)]);
    let prints: Vec<Option<i64>> =
        (1..7).map(|id| index.photos.get(&id).map(|print| print.dhash)).collect();
    assert_eq!(prints, vec![Some(10), None, None, None, Some(20), Some(30)]);
    let error = make_room(&mut index, 2, i64::MAX, i64::MAX, 0).unwrap_err();
    assert_eq!(error, "database or disk is full");
    assert_eq!(index.files[2].id, 6);
}
