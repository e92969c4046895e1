//! Whole sessions on a disk in memory: scanning, reviewing, recycling,
//! linking, moving and restoring files.
use std::collections::{BTreeMap, BTreeSet};

use filelens::actions::{Action, Identity, Seen};
use filelens::batch::{
    delete_paths, empty_trash, prune_expired_trash, restore_batch, trash_batch, trash_paths, Batch,
    BatchStep,
};
use filelens::bin::{delete_trash, restore};
use filelens::directories::{move_indexed_file_to, recycle_dir_keep_one, DirStep};
use filelens::documents::document_simhash;
use filelens::exif_time::{days_from_civil, exif_taken_seconds};
use filelens::groups::{query_groups, Group, GroupQuery, GroupSort, GroupsPage};
use filelens::hashing::{move_verified, FileHasher, MoveSeen, MoveStep, LARGE_FILE_QUICK_THRESHOLD};
use filelens::indexing::{fingerprint_parts, prune_absent_rows};
use filelens::keeper::MarkStrategy;
use filelens::merge::merge_dir_pair;
use filelens::model::{count_copies, FileRow, Index, OperationRow, OperationState};
use filelens::paths::Platform;
use filelens::photos::{
    check_pair, perceptual_grids, photos_pixel_identical, structure_hash, verify_pair_pixels,
    verify_photo_pairs,
};
use filelens::previews::{evict_lru_files, CacheEntry};
use filelens::progress::{HashProgress, ScanErrorLog};
use filelens::removal::{delete_direct, hardlink, trash};
use filelens::reports::{export_report, group_dirs};
use filelens::review::{
    approve_groups_except_keeper, protect_preview, set_approval, BatchOutcome,
};
use filelens::scan::{
    scan_with_control, scan_with_options, Scan, ScanReply, ScanStep, ScanSummary, ScanWriter,
    WorkResult, WriteRules,
};
use filelens::settings::{
    init, set_setting, set_similar_threshold, set_strict_verify, set_usn_scan, setting_value,
    trash_retention_days, SCHEMA_VERSION,
};
use filelens::verdicts::{cached_pair_verdicts, store_pair_verdicts};
use filelens::walk::{
    dispatch_found, former_paths, plan_hash, process_file, DirEntry, Dispatch, EntryKind, FileMeta, FoundFile,
    HashPlan, HashSeen, Measured, Walk, WalkItem, WalkRules,
};

const ON: Platform = Platform::Posix;
const DAY: i64 = 86_400;

struct Node {
    bytes: Vec<u8>,
    modified: i64,
}

/// A disk in memory. A path leads to a node; two paths to one node are hard
/// links.
struct Disk {
    names: BTreeMap<String, usize>,
    nodes: Vec<Node>,
    directories: BTreeSet<String>,
    now: i64,
    /// Renaming fails, as it does from one volume to another.
    renames: bool,
    hashed_files: usize,
}

fn above(path: &str) -> String {
    match path.rfind('/') {
        Some(0) | None => "/".to_string(),
        Some(at) => path[..at].to_string(),
    }
}

fn full_hash(bytes: &[u8]) -> String {
    let mut hasher = FileHasher::full();
    hasher.feed(bytes);
    hasher.finish()
}

fn quick_hash(bytes: &[u8]) -> String {
    let mut hasher = FileHasher::quick();
    let n = hasher.wanted(bytes.len());
    hasher.feed(&bytes[..n]);
    hasher.finish()
}

/// The frequency fingerprint of a grid of 32 by 32 grey levels.
fn frequency_hash(levels: &[u8]) -> u64 {
    let wave = |k: usize, n: usize| -> f32 {
        let scale = if k == 0 { (0.5_f32).sqrt() } else { 1.0 };
        scale * ((2 * n + 1) as f32 * k as f32 * std::f32::consts::PI / 64.0).cos()
    };
    let mut rows = vec![[0_f32; 32]; 32];
    for y in 0..32 {
        for u in 0..32 {
            rows[y][u] = (0..32)
                .map(|x| (f32::from(levels[32 * y + x]) - 128.0) * wave(u, x))
                .sum();
        }
    }
    let mut block = Vec::new();
    for v in 0..8 {
        for u in 0..8 {
            let sum: f32 = (0..32).map(|y| rows[y][v] * wave(u, y)).sum();
            let bits = (sum + 0.0).to_bits() as i32;
            block.push(if bits < 0 { bits ^ i32::MAX } else { bits });
        }
    }
    structure_hash(&block)
}

fn photo_print(path: &str, bytes: &[u8]) -> Option<(u64, u64)> {
    perceptual_grids(ON, path, bytes).map(|grids| (grids.dhash, frequency_hash(&grids.large.levels)))
}

impl Disk {
    fn new() -> Disk {
        Disk {
            names: BTreeMap::new(),
            nodes: Vec::new(),
            directories: BTreeSet::new(),
            now: 1_700_000_000,
            renames: true,
            hashed_files: 0,
        }
    }

    fn make_directory(&mut self, path: &str) {
        let mut path = path.to_string();
        loop {
            self.directories.insert(path.clone());
            if path == "/" {
                break;
            }
            path = above(&path);
        }
    }

    fn write(&mut self, path: &str, bytes: &[u8]) {
        self.make_directory(&above(path));
        let now = self.now;
        match self.names.get(path) {
            Some(node) => {
                self.nodes[*node] = Node { bytes: bytes.to_vec(), modified: now };
            }
            None => {
                self.nodes.push(Node { bytes: bytes.to_vec(), modified: now });
                self.names.insert(path.to_string(), self.nodes.len() - 1);
            }
        }
    }

    fn read(&self, path: &str) -> Option<&[u8]> {
        self.names.get(path).map(|node| self.nodes[*node].bytes.as_slice())
    }

    fn has(&self, path: &str) -> bool {
        self.names.contains_key(path)
    }

    fn remove(&mut self, path: &str) -> Result<(), String> {
        self.names.remove(path).map(|_| ()).ok_or_else(|| "not found".to_string())
    }

    fn rename(&mut self, from: &str, to: &str) -> Result<(), String> {
        let node = self.names.remove(from).ok_or_else(|| "not found".to_string())?;
        self.names.insert(to.to_string(), node);
        Ok(())
    }

    fn link(&mut self, target: &str, link: &str) -> Result<(), String> {
        let node = *self.names.get(target).ok_or_else(|| "not found".to_string())?;
        self.names.insert(link.to_string(), node);
        Ok(())
    }

    fn identity(&self, path: &str) -> Identity {
        match self.names.get(path) {
            Some(node) => Identity { dev: 1, inode: *node as i64 + 1, frn: 0 },
            None => Identity { dev: 0, inode: 0, frn: 0 },
        }
    }

    fn meta(&self, path: &str) -> Option<FileMeta> {
        self.names.get(path).map(|node| FileMeta {
            len: self.nodes[*node].bytes.len() as u64,
            modified: Some(self.nodes[*node].modified),
        })
    }

    fn hash(&mut self, path: &str) -> Result<String, String> {
        self.hashed_files += 1;
        self.read(path).map(full_hash).ok_or_else(|| "not found".to_string())
    }

    fn is_empty_directory(&self, path: &str) -> bool {
        let inside = format!("{path}/");
        !self.names.keys().any(|name| name.starts_with(&inside))
            && !self.directories.iter().any(|name| name.starts_with(&inside))
    }

    fn remove_directory(&mut self, path: &str) -> bool {
        self.directories.contains(path)
            && self.is_empty_directory(path)
            && self.directories.remove(path)
    }

    fn move_file(&mut self, from: &str, to: &str, hash: &str) -> Result<(), String> {
        let mut seen = MoveSeen::new();
        loop {
            match move_verified(hash, &seen) {
                MoveStep::Rename => {
                    seen.renamed = Some(self.renames && self.rename(from, to).is_ok());
                }
                MoveStep::Copy => {
                    let bytes = self.read(from).map(|bytes| bytes.to_vec());
                    seen.copied = Some(match bytes {
                        Some(bytes) => {
                            self.write(to, &bytes);
                            Ok(())
                        }
                        None => Err("not found".to_string()),
                    });
                }
                MoveStep::HashMoved => seen.moved_hash = Some(self.hash(to)),
                MoveStep::Return => seen.returned = Some(self.rename(to, from).is_ok()),
                MoveStep::DiscardCopy => {
                    let _ = self.remove(to);
                    seen.discarded = true;
                }
                MoveStep::RemoveSource => seen.removed = Some(self.remove(from)),
                MoveStep::Finished(result) => return result,
            }
        }
    }

    /// Carry out what an operation asks for and note the answer.
    fn perform(&mut self, action: Action, seen: &mut Seen) {
        match action {
            Action::Inspect { path } => seen.is_file = Some(self.has(&path)),
            Action::Hash { path } => seen.content_hash = Some(self.hash(&path)),
            Action::HashKept { path } => seen.kept_hash = Some(self.hash(&path)),
            Action::Compare { left, right } => {
                seen.same_bytes = Some(match (self.read(&left), self.read(&right)) {
                    (Some(a), Some(b)) => Ok(a == b),
                    _ => Err("not found".to_string()),
                })
            }
            Action::MakeParents { path } => {
                self.make_directory(&above(&path));
                seen.prepared = Some(Ok(()));
            }
            Action::Move { from, to, hash } => seen.moved = Some(self.move_file(&from, &to, &hash)),
            Action::Delete { path } => seen.deleted = Some(self.remove(&path)),
            Action::CompareVolumes { .. } => seen.same_volume = Some(Ok(true)),
            Action::Link { target, link } => seen.linked = Some(self.link(&target, &link)),
            Action::Unlink { path } => seen.unlinked = Some(self.remove(&path)),
            Action::Discard { path } => {
                let _ = self.remove(&path);
                seen.discarded = true;
            }
            Action::Rename { from, to } => seen.renamed = Some(self.rename(&from, &to)),
            Action::Relink { target, link } => {
                seen.relinked = Some(self.link(&target, &link).is_ok())
            }
            Action::Identify { path } => seen.identity = Some(self.identity(&path)),
            Action::InspectDirectory { path } => {
                seen.is_directory = Some(self.directories.contains(&path))
            }
            Action::Probe { path } => {
                seen.occupied = Some(self.has(&path) || self.directories.contains(&path))
            }
            Action::Prune { directories } => {
                for directory in directories {
                    if !self.remove_directory(&directory) {
                        break;
                    }
                }
                seen.pruned = true;
            }
            Action::RemoveDirectory { path } => {
                seen.removed_directory = Some(self.remove_directory(&path))
            }
            Action::Finished { .. } => unreachable!(),
        }
    }

    /// Drive one operation to its end.
    fn drive<F: FnMut(&Seen) -> Action>(&mut self, mut next: F) -> Result<(), String> {
        let mut seen = Seen::new();
        for _ in 0..100 {
            match next(&seen) {
                Action::Finished { result } => return result,
                action => self.perform(action, &mut seen),
            }
        }
        panic!("the operation does not end");
    }

    fn drive_batch(&mut self, index: &mut Index, mut batch: Batch) -> BatchOutcome {
        loop {
            match batch.step(index, ON, self.now) {
                BatchStep::Act(action) => self.perform(action, &mut batch.seen),
                BatchStep::Progress(..) => {}
                BatchStep::Done => return batch.outcome,
            }
        }
    }

    fn hash_seen(&mut self, path: &str) -> HashSeen {
        let meta = self.meta(path);
        let bytes = self.read(path).map(|bytes| bytes.to_vec());
        let measured = || match &meta {
            Some(meta) => Ok(Measured { len: meta.len, modified: meta.modified.unwrap_or(0) }),
            None => Err("not found".to_string()),
        };
        let hash = match (&bytes, measured()) {
            (Some(bytes), Ok(measured)) => match plan_hash(measured.len) {
                Ok(HashPlan::Quick) => Ok(quick_hash(bytes)),
                Ok(HashPlan::Full) => {
                    self.hashed_files += 1;
                    Ok(full_hash(bytes))
                }
                Err(error) => Err(error),
            },
            _ => Err("not found".to_string()),
        };
        let content = bytes.unwrap_or_default();
        HashSeen {
            before: measured(),
            hash,
            after: measured(),
            identity: self.identity(path),
            exif_taken: exif_taken_seconds(&content),
            photo: photo_print(path, &content),
            document: document_simhash(ON, path, &String::from_utf8(content).ok()),
        }
    }

    fn list(&self, directory: &str) -> Vec<DirEntry> {
        let mut entries = Vec::new();
        for path in &self.directories {
            if path != directory && above(path) == directory {
                entries.push(DirEntry { path: path.clone(), kind: EntryKind::Directory });
            }
        }
        for path in self.names.keys() {
            if above(path) == directory {
                entries.push(DirEntry { path: path.clone(), kind: EntryKind::File });
            }
        }
        entries
    }

    fn walk_root(
        &mut self,
        index: &mut Index,
        scan: &Scan,
        writer: &mut ScanWriter,
        log: &mut ScanErrorLog,
        root: String,
    ) -> Result<(), String> {
        let rules = WalkRules {
            platform: ON,
            trash: scan.trash.clone(),
            exclude: scan.exclude.clone(),
        };
        let write = WriteRules { platform: ON, protect: scan.protect.clone() };
        let mut walk = Walk::new(vec![root]);
        let mut results = Vec::new();
        let mut found = Vec::new();
        while let Some(directory) = walk.next(false)? {
            let entries = self.list(&directory);
            for item in walk.visit(&rules, &entries) {
                match item {
                    WalkItem::Skipped => results.push(WorkResult::Skipped),
                    WalkItem::Unreadable(path) => results.push(WorkResult::WalkError(path)),
                    WalkItem::File(path) => {
                        let meta = self.meta(&path);
                        let identity = Some(self.identity(&path));
                        let gone = former_paths(index, ON, &path, meta, identity)
                            .into_iter()
                            .filter(|former| !self.has(former))
                            .collect();
                        found.push(FoundFile { path, meta, identity, gone });
                    }
                }
            }
        }
        let decisions = dispatch_found(index, &rules, scan.min_file_size, &found);
        for (file, decision) in found.into_iter().zip(decisions) {
            let path = file.path;
            results.push(match decision {
                Dispatch::Skipped => WorkResult::Skipped,
                Dispatch::Unchanged => WorkResult::Unchanged(path),
                Dispatch::Moved(file_id) => WorkResult::Moved { path, file_id },
                Dispatch::Hash => {
                    let seen = self.hash_seen(&path);
                    WorkResult::Processed(process_file(ON, &path, &seen))
                }
            });
        }
        for result in results {
            writer.accept(index, log, &write, result, self.now)?;
            while let Some(path) = writer.next_hash() {
                let hash = self.hash(&path);
                writer.hashed(index, log, &write, hash, self.now)?;
            }
        }
        writer.flush(index, log, &write, self.now)
    }

    fn scan_with(
        &mut self,
        index: &mut Index,
        roots: &[&str],
        protect: &[&str],
        exclude: &[&str],
        min_file_size: u64,
    ) -> Result<ScanSummary, String> {
        let texts = |list: &[&str]| list.iter().map(|text| text.to_string()).collect::<Vec<_>>();
        let mut scan = scan_with_options(
            index,
            ON,
            &texts(roots),
            &texts(protect),
            &texts(exclude),
            min_file_size,
            self.now,
        )?;
        let mut writer = ScanWriter::new();
        let mut log = ScanErrorLog::new();
        let mut reply = ScanReply::Nothing;
        loop {
            let step = scan_with_control(&mut scan, index, reply, false, self.now);
            reply = match step.expect("the reply fits")? {
                ScanStep::InspectRoot(root) => {
                    ScanReply::RootIsDirectory(self.directories.contains(&root))
                }
                ScanStep::WalkRoot(root) => {
                    self.walk_root(index, &scan, &mut writer, &mut log, root)?;
                    ScanReply::RootDone(writer.counters)
                }
                ScanStep::Expire(batch) => {
                    ScanReply::Expired(self.drive_batch(index, batch).succeeded as u64)
                }
                ScanStep::Done(summary) => return Ok(summary),
            };
        }
    }

    fn scan(&mut self, index: &mut Index, roots: &[&str], protect: &[&str]) -> ScanSummary {
        self.scan_with(index, roots, protect, &[], 0).unwrap()
    }
}

fn project() -> Index {
    let mut index = Index::new();
    init(&mut index, false, "/t/recycle").unwrap();
    index
}

fn row<'a>(index: &'a Index, suffix: &str) -> &'a FileRow {
    index.files.iter().find(|file| file.path.ends_with(suffix)).unwrap()
}

fn id_of(index: &Index, suffix: &str) -> i64 {
    row(index, suffix).id
}

fn in_bin(index: &Index) -> Vec<&OperationRow> {
    index
        .operations
        .iter()
        .filter(|operation| operation.state == OperationState::Trashed)
        .collect()
}

fn live(index: &Index) -> usize {
    index.files.iter().filter(|file| file.present).count()
}

fn query(sort: GroupSort) -> GroupQuery<'static> {
    GroupQuery {
        min_size: 0,
        path_contains: None,
        sort,
        offset: 0,
        limit: 50,
        kind: None,
        dir_contains: None,
    }
}

fn page(index: &mut Index, sort: GroupSort) -> GroupsPage {
    query_groups(index, &query(sort)).unwrap()
}

fn group_with<'a>(page: &'a GroupsPage, part: &str) -> &'a Group {
    page.groups
        .iter()
        .find(|group| group.files.iter().any(|file| file.path.contains(part)))
        .unwrap()
}

fn approve(index: &mut Index, id: i64) {
    set_approval(index, id, true).unwrap();
}

fn recycle(disk: &mut Disk, index: &mut Index, id: i64) -> Result<(), String> {
    let now = disk.now;
    disk.drive(|seen| trash(index, ON, id, seen, now))
}

fn png(width: u32, height: u32, pixel: impl Fn(u32, u32) -> [u8; 3]) -> Vec<u8> {
    let picture = image::RgbImage::from_fn(width, height, |x, y| image::Rgb(pixel(x, y)));
    let mut output = std::io::Cursor::new(Vec::new());
    picture.write_to(&mut output, image::ImageFormat::Png).unwrap();
    output.into_inner()
}

#[test]
fn evict_lru_files_keeps_directory_under_limit() {
    let entry = |name: &str, age: i128| CacheEntry {
        path: format!("/cache/{name}"),
        modified: 1_000_000 - age,
        size: 100,
    };
    let mut eviction = evict_lru_files(
        vec![entry("new.png", 100), entry("old.png", 300), entry("middle.png", 200)],
        150,
    );
    let mut gone = Vec::new();
    while let Some(path) = eviction.next_victim() {
        gone.push(path);
        eviction.note(true);
    }
    assert_eq!(eviction.result(), (2, 200));
    assert_eq!(gone, vec!["/cache/old.png", "/cache/middle.png"]);

    let rest = evict_lru_files(vec![entry("new.png", 100)], 150);
    assert_eq!(rest.next_victim(), None);
    assert_eq!(rest.result(), (0, 0));
    let missing = evict_lru_files(Vec::new(), 100);
    assert_eq!(missing.next_victim(), None);
    assert_eq!(missing.result(), (0, 0));
}

#[test]
fn eviction_skips_files_that_stay() {
    let entry = |name: &str, modified: i128| CacheEntry { path: name.to_string(), modified, size: 100 };
    let mut eviction = evict_lru_files(vec![entry("a", 1), entry("b", 2), entry("c", 3)], 150);
    assert_eq!(eviction.next_victim().as_deref(), Some("a"));
    eviction.note(false);
    assert_eq!(eviction.next_victim().as_deref(), Some("b"));
    eviction.note(true);
    assert_eq!(eviction.next_victim().as_deref(), Some("c"));
    eviction.note(true);
    assert_eq!(eviction.next_victim(), None);
    assert_eq!(eviction.result(), (2, 200));
    assert_eq!(eviction.stuck, 100);
}

#[test]
fn restore_batch_restores_whole_bulk_action() {
    let mut disk = Disk::new();
    for name in ["a1", "a2", "a3"] {
        disk.write(&format!("/t/source/{name}.txt"), b"pair one");
    }
    for name in ["b1", "b2"] {
        disk.write(&format!("/t/source/{name}.txt"), b"pair two");
    }
    let mut index = project();
    disk.scan(&mut index, &["/t/source"], &[]);
    let ids = ["a1.txt", "a2.txt", "b1.txt", "b2.txt"].map(|name| id_of(&index, name));
    approve(&mut index, ids[0]);
    approve(&mut index, ids[1]);
    let batch = trash_batch(&mut index, &ids[..2], 77);
    assert_eq!(disk.drive_batch(&mut index, batch).succeeded, 2);
    approve(&mut index, ids[2]);
    approve(&mut index, ids[3]);
    recycle(&mut disk, &mut index, ids[2]).unwrap();
    let batch_id = in_bin(&index).iter().find_map(|operation| operation.batch_id).unwrap();

    let batch = restore_batch(&mut index, batch_id);
    let outcome = disk.drive_batch(&mut index, batch);
    assert_eq!(outcome.succeeded, 2);
    assert!(outcome.failures.is_empty());
    assert!(disk.has("/t/source/a1.txt"));
    assert!(disk.has("/t/source/a2.txt"));
    assert!(!disk.has("/t/source/b1.txt"));
    let batch = restore_batch(&mut index, batch_id);
    let outcome = disk.drive_batch(&mut index, batch);
    assert_eq!(outcome.succeeded, 0);
    assert!(outcome.failures.is_empty());
}

#[test]
fn hash_progress_reports_files_and_bytes() {
    let mut disk = Disk::new();
    disk.write("/t/source/one.txt", b"content one");
    disk.write("/t/source/two.txt", b"content two");
    let mut progress = HashProgress::new();
    for path in ["/t/source/one.txt", "/t/source/two.txt"] {
        progress.begin(path);
        let mut hasher = FileHasher::full();
        for piece in disk.read(path).unwrap().chunks(4) {
            hasher.feed(piece);
            progress.add(piece.len() as u64);
        }
        assert_eq!(hasher.finish(), disk.hash(path).unwrap());
    }
    let (current, bytes) = progress.snapshot();
    assert_eq!(bytes, 22);
    assert_eq!(current.as_deref(), Some("/t/source/two.txt"));
}

#[test]
fn approve_groups_except_keeper_marks_across_groups() {
    let mut disk = Disk::new();
    disk.write("/t/source/x_old.txt", b"g1");
    disk.write("/t/source/x_new.txt", b"g1");
    disk.write("/t/source/y_old.txt", b"g2");
    disk.write("/t/source/y_new.txt", b"g2");
    let mut index = project();
    disk.scan(&mut index, &["/t/source"], &[]);
    for file in &mut index.files {
        let new = file.path.contains("x_new") || file.path.contains("y_new");
        file.modified = if new { 2000 } else { 1000 };
        file.protected = file.path.contains("y_old");
    }
    let outcome =
        approve_groups_except_keeper(&mut index, MarkStrategy::Newest, 0, "", None, "").unwrap();
    assert_eq!(outcome.succeeded, 1);
    assert!(outcome.failures.is_empty());
    let marked: Vec<_> = index.files.iter().filter(|file| file.present && file.approved).collect();
    assert_eq!(marked.len(), 1);
    assert!(marked[0].path.ends_with("x_old.txt"));
}

#[test]
fn protect_preview_counts_and_samples_matches() {
    let mut disk = Disk::new();
    disk.write("/t/source/keep_me.txt", b"one");
    disk.write("/t/source/other.txt", b"two");
    let mut index = project();
    disk.scan(&mut index, &["/t/source"], &[]);
    let preview = protect_preview(&mut index, ON, &["keep_me".to_string()]).unwrap();
    assert_eq!(preview.matched, 1);
    assert_eq!(preview.examples.len(), 1);
    assert!(preview.examples[0].ends_with("keep_me.txt"));
    let preview = protect_preview(&mut index, ON, &[]).unwrap();
    assert_eq!(preview.matched, 0);
}

#[test]
fn scan_approve_trash_and_restore_are_safe() {
    let mut disk = Disk::new();
    disk.write("/t/source/keep.txt", b"same content");
    disk.write("/t/source/copy.txt", b"same content");
    disk.write("/t/source/other.txt", b"different content");
    let mut index = project();
    disk.scan(&mut index, &["/t/source"], &[]);
    let copy = id_of(&index, "/copy.txt");
    let file = row(&index, "/copy.txt");
    assert!(count_copies(&index.files, &file.hash, file.size) > 1, "an exact duplicate");
    approve(&mut index, copy);
    recycle(&mut disk, &mut index, copy).unwrap();
    assert!(!disk.has("/t/source/copy.txt"));
    let operation = index.operations[0].id;
    let now = disk.now;
    disk.drive(|seen| restore(&mut index, ON, operation, seen, now)).unwrap();
    assert_eq!(disk.read("/t/source/copy.txt"), Some(b"same content".as_slice()));
    // It was restored once; a second time there is nothing to restore.
    let error = disk.drive(|seen| restore(&mut index, ON, operation, seen, now)).unwrap_err();
    assert_eq!(error, "operation is not available for restore");
}

#[test]
fn protected_files_cannot_be_approved() {
    let mut disk = Disk::new();
    disk.write("/t/source/protected-a.txt", b"same content");
    disk.write("/t/source/protected-b.txt", b"same content");
    let mut index = project();
    disk.scan(&mut index, &["/t/source"], &["protected"]);
    let id = index.files[0].id;
    assert!(set_approval(&mut index, id, true).is_err());
}

#[test]
fn rescan_marks_missing_files_absent_and_skips_missing_roots() {
    let mut disk = Disk::new();
    disk.write("/t/source/keep.txt", b"same content");
    disk.write("/t/source/copy.txt", b"same content");
    let mut index = project();
    let summary = disk.scan(&mut index, &["/t/source", "/t/not-exists"], &[]);
    assert_eq!(summary.failed_roots, vec!["/t/not-exists"]);
    disk.now += 2;
    disk.remove("/t/source/copy.txt").unwrap();
    let summary = disk.scan(&mut index, &["/t/source"], &[]);
    assert_eq!(summary.missing, 1);
    assert_eq!(live(&index), 1, "deleted file should be marked absent");
    assert_eq!(page(&mut index, GroupSort::Size).total, 0);
    let last = setting_value(&index, "last_scan_at").unwrap();
    assert!(last.parse::<i64>().is_ok());
}

#[test]
fn trash_can_be_deleted_permanently_and_emptied() {
    let mut disk = Disk::new();
    disk.write("/t/source/a.txt", b"same content");
    disk.write("/t/source/b.txt", b"same content");
    let mut index = project();
    disk.scan(&mut index, &["/t/source"], &[]);
    let b = id_of(&index, "/b.txt");
    approve(&mut index, b);
    recycle(&mut disk, &mut index, b).unwrap();
    let operation = in_bin(&index)[0].id;
    let place = in_bin(&index)[0].trash_path.clone();
    assert!(disk.has(&place));
    disk.drive(|seen| delete_trash(&mut index, ON, operation, seen)).unwrap();
    assert!(!disk.has(&place));
    assert!(index.operations[0].state == OperationState::Deleted);

    disk.write("/t/source/b.txt", b"same content");
    disk.scan(&mut index, &["/t/source"], &[]);
    approve(&mut index, b);
    recycle(&mut disk, &mut index, b).unwrap();
    let batch = empty_trash(&mut index).unwrap();
    assert_eq!(disk.drive_batch(&mut index, batch).succeeded, 1);
    assert_eq!(in_bin(&index).len(), 0);
}

#[test]
fn approved_duplicates_can_be_deleted_directly() {
    let mut disk = Disk::new();
    disk.write("/t/source/a.txt", b"same content");
    disk.write("/t/source/b.txt", b"same content");
    let mut index = project();
    disk.scan(&mut index, &["/t/source"], &[]);
    let b = id_of(&index, "/b.txt");
    let now = disk.now;
    assert!(disk.drive(|seen| delete_direct(&mut index, b, seen, now)).is_err());
    approve(&mut index, b);
    disk.drive(|seen| delete_direct(&mut index, b, seen, now)).unwrap();
    assert!(!disk.has("/t/source/b.txt"));
    assert!(
        !disk.directories.contains("/t/recycle/files"),
        "direct delete must not touch the recycle bin"
    );
    assert!(index.operations[0].state == OperationState::Deleted);
    assert!(!row(&index, "/b.txt").present);
}

#[test]
fn expired_recycle_items_are_pruned_after_retention() {
    let mut disk = Disk::new();
    disk.write("/t/source/a.txt", b"same content");
    disk.write("/t/source/b.txt", b"same content");
    disk.make_directory("/t/recycle");
    let mut index = project();
    disk.scan(&mut index, &["/t/source"], &[]);
    let b = id_of(&index, "/b.txt");
    approve(&mut index, b);
    recycle(&mut disk, &mut index, b).unwrap();
    assert_eq!(trash_retention_days(&index), 30);
    index.operations[0].created_at -= 40 * DAY;
    set_setting(&mut index, "trash_retention_days", "0");
    let batch = prune_expired_trash(&mut index, disk.now).unwrap();
    assert_eq!(disk.drive_batch(&mut index, batch).succeeded, 0);

    set_setting(&mut index, "trash_retention_days", "30");
    let batch = prune_expired_trash(&mut index, disk.now).unwrap();
    assert_eq!(disk.drive_batch(&mut index, batch).succeeded, 1);
    assert!(
        !disk.directories.contains("/t/recycle/files"),
        "pruned file and its now-empty directories should be gone"
    );
    assert!(index.operations[0].state == OperationState::Deleted);
}

#[test]
fn similar_path_trash_verifies_protection_and_hash() {
    let mut disk = Disk::new();
    disk.write("/t/source/plain.txt", b"photo candidate");
    disk.write("/t/source/guarded.txt", b"protected candidate");
    let mut index = project();
    disk.scan(&mut index, &["/t/source"], &["guarded"]);
    let mut sweep = |disk: &mut Disk, index: &mut Index, path: &str| {
        let batch = trash_paths(index, &[path.to_string()], 5).unwrap();
        disk.drive_batch(index, batch)
    };

    let outcome = sweep(&mut disk, &mut index, "/t/source/guarded.txt");
    assert_eq!(outcome.succeeded, 0);
    assert_eq!(outcome.failures.len(), 1);
    assert!(outcome.failures[0].contains("受保护"));
    assert!(disk.has("/t/source/guarded.txt"));

    disk.write("/t/stray.txt", b"never scanned");
    let outcome = sweep(&mut disk, &mut index, "/t/stray.txt");
    assert_eq!(outcome.succeeded, 0);
    assert!(disk.has("/t/stray.txt"));

    disk.write("/t/source/plain.txt", b"modified content");
    let outcome = sweep(&mut disk, &mut index, "/t/source/plain.txt");
    assert_eq!(outcome.succeeded, 0);
    assert!(disk.has("/t/source/plain.txt"));

    disk.write("/t/source/plain.txt", b"photo candidate");
    let outcome = sweep(&mut disk, &mut index, "/t/source/plain.txt");
    assert_eq!(outcome.succeeded, 1);
    assert!(outcome.failures.is_empty());
    assert!(!disk.has("/t/source/plain.txt"));
    assert_eq!(in_bin(&index).len(), 1);
    assert!(disk.has(&in_bin(&index)[0].trash_path));
}

#[test]
fn similar_path_delete_records_operations() {
    let mut disk = Disk::new();
    disk.write("/t/source/solo.txt", b"unique content");
    let mut index = project();
    disk.scan(&mut index, &["/t/source"], &[]);
    let batch = delete_paths(&mut index, &["/t/source/solo.txt".to_string()], 6).unwrap();
    let outcome = disk.drive_batch(&mut index, batch);
    assert_eq!(outcome.succeeded, 1);
    assert!(outcome.failures.is_empty());
    assert!(!disk.has("/t/source/solo.txt"));
    assert!(index.operations[0].state == OperationState::Deleted);
    assert!(!row(&index, "solo.txt").present);
}

#[test]
fn scan_honors_exclude_rules_and_min_file_size() {
    let mut disk = Disk::new();
    disk.write("/t/source/cache/a.txt", b"cached pair");
    disk.write("/t/source/cache/b.txt", b"cached pair");
    disk.write("/t/source/tiny-a.txt", b"9 bytes!!");
    disk.write("/t/source/tiny-b.txt", b"9 bytes!!");
    disk.write("/t/source/keep-a.txt", b"report me please");
    disk.write("/t/source/keep-b.txt", b"report me please");
    let mut index = project();
    let summary = disk.scan_with(&mut index, &["/t/source"], &[], &["cache"], 12).unwrap();
    assert_eq!(summary.new, 2);
    let rows = |part: &str| index.files.iter().filter(|file| file.path.contains(part)).count();
    assert_eq!(rows("/cache/"), 0);
    assert_eq!(rows("tiny-"), 0);
    assert_eq!(rows("keep-"), 2);
    assert_eq!(page(&mut index, GroupSort::Size).groups.len(), 1);
}

fn stored_row(id: i64) -> FileRow {
    FileRow {
        id,
        path: "/data/keep.txt".to_string(),
        size: 42,
        modified: 100,
        hash: "deadbeef".to_string(),
        protected: false,
        approved: false,
        present: true,
        scanned_at: 100,
        quick_hash: None,
        dev: 0,
        inode: 0,
        frn: 0,
        exif_taken: 0,
    }
}

fn old_project(version: &str) -> Index {
    let mut index = Index::new();
    set_setting(&mut index, "schema_version", version);
    set_setting(&mut index, "trash_path", "/tmp/recycle");
    index.files.push(stored_row(1));
    index
}

#[test]
fn v1_database_migrates_to_current_preserving_data() {
    let mut index = old_project("1");
    page(&mut index, GroupSort::Size);
    let version = setting_value(&index, "schema_version").unwrap();
    assert_eq!(version, SCHEMA_VERSION.to_string());
    assert_eq!(index.files.len(), 1);
    assert_eq!(index.files[0].hash, "deadbeef");

    let mut disk = Disk::new();
    disk.write("/t/root/migrated.txt", b"migrated content\n");
    disk.scan(&mut index, &["/t/root"], &[]);
    let indexed = index
        .files
        .iter()
        .filter(|file| file.present && file.path.ends_with("migrated.txt"))
        .count();
    assert_eq!(indexed, 1);
}

#[test]
fn init_on_v1_database_migrates_instead_of_failing() {
    let mut index = old_project("1");
    let steps = init(&mut index, true, "/t/recycle").unwrap();
    assert_eq!(steps, (2..=SCHEMA_VERSION).collect::<Vec<_>>());
    assert_eq!(setting_value(&index, "schema_version").unwrap(), SCHEMA_VERSION.to_string());
    assert_eq!(setting_value(&index, "trash_path").unwrap(), "/t/recycle");
    assert_eq!(index.files.len(), 1);
    assert_eq!(index.files[0].quick_hash, None);
}

#[test]
fn v2_database_migrates_to_current_preserving_data() {
    let mut index = old_project("2");
    page(&mut index, GroupSort::Size);
    assert_eq!(setting_value(&index, "schema_version").unwrap(), SCHEMA_VERSION.to_string());
    assert_eq!(index.files.iter().filter(|file| file.dev == 0 && file.inode == 0).count(), 1);
}

#[test]
fn large_files_use_two_stage_hashing() {
    let mut disk = Disk::new();
    let block = vec![0xCD_u8; (LARGE_FILE_QUICK_THRESHOLD + 1024) as usize];
    let mut different = block.clone();
    different[(LARGE_FILE_QUICK_THRESHOLD + 512) as usize] ^= 0xFF;
    disk.write("/t/source/same-a.bin", &block);
    disk.write("/t/source/same-b.bin", &block);
    disk.write("/t/source/diff-a.bin", &different);
    disk.write("/t/source/diff-b.bin", &different);
    let mut index = project();
    disk.scan(&mut index, &["/t/source"], &[]);
    let groups = page(&mut index, GroupSort::Size);
    assert_eq!(groups.groups.len(), 2, "same pair groups, diff pair groups too");
    for group in &groups.groups {
        assert_eq!(group.files.len(), 2);
        assert!(!group.hash.starts_with("q:"), "promoted pairs carry real hashes");
    }

    let lone = vec![0xEF_u8; (LARGE_FILE_QUICK_THRESHOLD + 1024) as usize];
    disk.write("/t/source/lone-a.bin", &lone);
    disk.scan(&mut index, &["/t/source"], &[]);
    assert!(row(&index, "lone-a.bin").hash.starts_with("q:"));
    disk.write("/t/source/lone-b.bin", &lone);
    disk.scan(&mut index, &["/t/source"], &[]);
    let groups = page(&mut index, GroupSort::Size);
    assert_eq!(groups.groups.len(), 3);
    let found = group_with(&groups, "lone-a.bin");
    assert_eq!(found.files.len(), 2);
    assert!(!found.hash.starts_with("q:"));
}

#[test]
fn quick_hash_promotion_survives_a_vanished_sibling() {
    let mut disk = Disk::new();
    let block = vec![0xCD_u8; (LARGE_FILE_QUICK_THRESHOLD + 1024) as usize];
    disk.write("/t/source/gone.bin", &block);
    let mut index = project();
    disk.scan(&mut index, &["/t/source"], &[]);
    disk.remove("/t/source/gone.bin").unwrap();
    let mut twin = block.clone();
    twin[(LARGE_FILE_QUICK_THRESHOLD + 512) as usize] ^= 0xFF;
    disk.write("/t/source/twin.bin", &twin);
    let summary = disk.scan(&mut index, &["/t/source"], &[]);
    assert_eq!(summary.errors, 1, "the vanished file is one failure");
    assert!(!row(&index, "twin.bin").hash.starts_with("q:"), "the twin is fully hashed");
}

#[test]
fn export_report_writes_csv_of_duplicate_members() {
    let mut disk = Disk::new();
    disk.write("/t/source/a.txt", b"same content");
    disk.write("/t/source/b.txt", b"same content");
    disk.write("/t/source/unique.txt", b"one of a kind");
    disk.write("/t/source/pair,1.txt", b"quoted pair");
    disk.write("/t/source/pair,2.txt", b"quoted pair");
    let mut index = project();
    disk.scan(&mut index, &["/t/source"], &[]);
    let report = export_report(&mut index).unwrap();
    assert_eq!(report.rows, 4);
    let mut lines = report.csv.lines();
    assert_eq!(lines.next().unwrap(), "hash,path,size,modified,approved");
    let body: Vec<_> = lines.collect();
    assert_eq!(body.len(), 4);
    assert!(body.iter().any(|line| line.contains("pair,1.txt")));
    assert!(body.iter().any(|line| line.contains("pair,2.txt")));
    assert!(body
        .iter()
        .filter(|line| line.contains("pair,1.txt"))
        .all(|line| line.contains(",\"")));
    assert!(!body.iter().any(|line| line.contains("unique.txt")));
    let hash_of = |name: &str| {
        let line = body.iter().find(|line| line.contains(name)).unwrap();
        line.split(',').next().unwrap().to_string()
    };
    assert_eq!(hash_of("pair,1.txt"), hash_of("pair,2.txt"));
}

#[test]
fn hardlinked_names_are_marked_in_groups() {
    let mut disk = Disk::new();
    disk.write("/t/source/link-a.txt", b"same inode");
    disk.link("/t/source/link-a.txt", "/t/source/link-b.txt").unwrap();
    disk.write("/t/source/copy-a.txt", b"same content");
    disk.write("/t/source/copy-b.txt", b"same content");
    let mut index = project();
    disk.scan(&mut index, &["/t/source"], &[]);
    let groups = page(&mut index, GroupSort::Path);
    assert_eq!(groups.groups.len(), 2);
    assert!(group_with(&groups, "link-a").files.iter().all(|file| file.hardlinked));
    assert!(group_with(&groups, "copy-a").files.iter().all(|file| !file.hardlinked));
}

#[test]
fn batch_trash_shares_one_batch_id() {
    let mut disk = Disk::new();
    for name in ["a1", "a2", "a3"] {
        disk.write(&format!("/t/source/{name}.txt"), b"pair one");
    }
    for name in ["b1", "b2"] {
        disk.write(&format!("/t/source/{name}.txt"), b"pair two");
    }
    let mut index = project();
    disk.scan(&mut index, &["/t/source"], &[]);
    let ids = ["a1.txt", "a2.txt", "b1.txt", "b2.txt"].map(|name| id_of(&index, name));
    for id in ids {
        approve(&mut index, id);
    }
    let batch = trash_batch(&mut index, &ids[..2], 99);
    let outcome = disk.drive_batch(&mut index, batch);
    assert_eq!(outcome.succeeded, 2);
    assert!(outcome.failures.is_empty());
    recycle(&mut disk, &mut index, ids[2]).unwrap();
    let bin = in_bin(&index);
    let batched: Vec<_> = bin.iter().filter_map(|operation| operation.batch_id).collect();
    assert_eq!(batched, vec![99, 99], "one batch action writes one shared batch id");
    assert_eq!(bin.len() - batched.len(), 1, "single removals stay unbatched");
}

#[test]
fn scan_summary_reports_expired_prune_count() {
    let mut disk = Disk::new();
    disk.write("/t/source/a.txt", b"same content");
    disk.write("/t/source/b.txt", b"same content");
    let mut index = project();
    disk.scan(&mut index, &["/t/source"], &[]);
    let b = id_of(&index, "/b.txt");
    approve(&mut index, b);
    recycle(&mut disk, &mut index, b).unwrap();
    index.operations[0].created_at -= 40 * DAY;
    let summary = disk.scan(&mut index, &["/t/source"], &[]);
    assert_eq!(summary.pruned, 1);
    assert!(summary.failed_roots.is_empty());
}

#[test]
fn recycle_dir_keep_one_preserves_last_copy() {
    let mut disk = Disk::new();
    disk.write("/t/doomed/x1.png", b"content X");
    disk.write("/t/doomed/x2.png", b"content X");
    disk.write("/t/doomed/y1.png", b"content Y");
    disk.write("/t/other/y2.png", b"content Y");
    disk.write("/t/doomed/z1.png", b"content Z");
    disk.write("/t/doomed/z2.png", b"content Z");
    disk.make_directory("/t/keep");
    let mut index = project();
    disk.scan(&mut index, &["/t/doomed", "/t/other"], &["z1.png"]);
    let mut plan = recycle_dir_keep_one(&mut index, ON, "/t/doomed", "/t/keep", 3).unwrap();
    loop {
        match plan.turn(&mut index, ON, disk.now) {
            DirStep::Act(action) => disk.perform(action, &mut plan.seen),
            DirStep::Continue => {}
            DirStep::Abort(error) => panic!("{error}"),
            DirStep::Done => break,
        }
    }
    assert_eq!(plan.outcome.moved, 1, "content X keeps one via a move");
    assert_eq!(plan.outcome.recycled, 3);
    let kept: Vec<_> = disk.names.keys().filter(|name| name.starts_with("/t/keep/")).collect();
    assert_eq!(kept.len(), 1);
    assert_eq!(disk.read(kept[0]), Some(b"content X".as_slice()));
    assert!(!disk.has("/t/doomed/y1.png"));
    assert!(disk.has("/t/other/y2.png"));
    assert!(disk.has("/t/doomed/z1.png"));
    assert!(!disk.has("/t/doomed/z2.png"));
    assert!(index.files.iter().any(|file| file.present && file.path.starts_with("/t/keep/")));
}

#[test]
fn recoverable_sort_and_hardlink_correction() {
    let mut disk = Disk::new();
    disk.write("/t/source/h1.txt", &[b'H'; 512]);
    for name in ["h2", "h3", "h4"] {
        disk.link("/t/source/h1.txt", &format!("/t/source/{name}.txt")).unwrap();
    }
    disk.write("/t/source/r1.txt", &[b'R'; 512]);
    disk.write("/t/source/r2.txt", &[b'R'; 512]);
    let mut index = project();
    disk.scan(&mut index, &["/t/source"], &[]);
    let shown = page(&mut index, GroupSort::Recoverable);
    assert_eq!(shown.groups.len(), 2);
    assert_eq!(shown.groups[0].recoverable, 512, "real copies first");
    assert_eq!(shown.groups[0].files[0].path, "/t/source/r1.txt");
    assert_eq!(shown.groups[1].recoverable, 0, "hardlinked names free nothing");

    let mut of_kind = query(GroupSort::Size);
    of_kind.kind = Some("image");
    assert_eq!(query_groups(&mut index, &of_kind).unwrap().total, 0);
    of_kind.kind = Some("document");
    assert_eq!(query_groups(&mut index, &of_kind).unwrap().total, 2);

    let dirs = group_dirs(&mut index).unwrap();
    assert_eq!(dirs.len(), 1);
    assert_eq!((dirs[0].dir.as_str(), dirs[0].count), ("/t/source", 6));
    let mut scoped = query(GroupSort::Size);
    scoped.dir_contains = Some(&dirs[0].dir);
    assert_eq!(query_groups(&mut index, &scoped).unwrap().total, 2);
}

#[test]
fn query_groups_filters_sorts_and_counts() {
    let mut disk = Disk::new();
    disk.write("/t/source/big-a.bin", &[0xAB; 4096]);
    disk.write("/t/source/big-b.bin", &[0xAB; 4096]);
    disk.write("/t/source/notes/小.txt", b"tiny pair");
    disk.write("/t/source/notes/大.txt", b"tiny pair");
    disk.write("/t/source/unique.txt", b"one of a kind");
    let mut index = project();
    disk.scan(&mut index, &["/t/source"], &[]);

    let all = page(&mut index, GroupSort::Size);
    assert_eq!(all.total, 2);
    assert_eq!(all.groups.len(), 2);
    assert_eq!(all.groups[0].size, 4096);
    assert_eq!(all.groups[0].files[0].path, "/t/source/big-a.bin");

    let mut filtered = query(GroupSort::Size);
    filtered.path_contains = Some("大.txt");
    let filtered = query_groups(&mut index, &filtered).unwrap();
    assert_eq!(filtered.total, 1);
    assert_eq!(filtered.groups.len(), 1);
    assert_eq!(filtered.groups[0].size, 9);

    let mut big = query(GroupSort::Size);
    big.min_size = 100;
    let big = query_groups(&mut index, &big).unwrap();
    assert_eq!(big.total, 1);
    assert_eq!(big.groups[0].size, 4096);

    let mut first = query(GroupSort::Members);
    first.limit = 1;
    let mut second = query(GroupSort::Members);
    second.limit = 1;
    second.offset = 1;
    let first = query_groups(&mut index, &first).unwrap();
    let second = query_groups(&mut index, &second).unwrap();
    assert_eq!(first.total, 2);
    assert_eq!(first.groups.len(), 1);
    assert_eq!(second.groups.len(), 1);
    assert_ne!(first.groups[0].hash, second.groups[0].hash);
}

#[test]
fn photo_hash_is_stable_for_the_same_image() {
    let photo = png(32, 32, |x, y| if x > y { [240; 3] } else { [20; 3] });
    let (dhash, phash) = photo_print("/t/photo.png", &photo).unwrap();
    let (dhash_again, phash_again) = photo_print("/t/photo.png", &photo).unwrap();
    assert_eq!(dhash, dhash_again);
    assert_eq!(phash, phash_again);
    assert_eq!(fingerprint_parts(dhash).len(), 5);
    assert_eq!(photo_print("/t/photo.png", b"no picture"), None);
    assert_eq!(photo_print("/t/photo", &photo), None);
}

#[test]
fn phash_distinguishes_unrelated_images() {
    let plain = png(64, 64, |_, _| [200; 3]);
    let noisy = png(64, 64, |x, y| {
        [
            ((x * 7 + y * 13) % 256) as u8,
            ((x * 3 + y * 29) % 256) as u8,
            ((x * 11 + y * 5) % 256) as u8,
        ]
    });
    let (_, plain) = photo_print("/t/plain.png", &plain).unwrap();
    let (_, noisy) = photo_print("/t/noisy.png", &noisy).unwrap();
    let distance = (plain ^ noisy).count_ones();
    assert!(distance > 8, "unrelated images too close: {distance}/64");
}

#[test]
fn similar_threshold_setting_clamps_and_persists() {
    let mut index = project();
    assert_eq!(set_similar_threshold(&mut index, 12).unwrap(), 12);
    assert_eq!(set_similar_threshold(&mut index, 0).unwrap(), 4);
    assert_eq!(set_similar_threshold(&mut index, 999).unwrap(), 20);
    assert_eq!(setting_value(&index, "similar_phash_max").unwrap(), "20");
}

#[test]
fn stale_absent_rows_are_pruned_but_history_anchors_survive() {
    let mut disk = Disk::new();
    disk.write("/t/source/gone.txt", b"vanishing content");
    disk.write("/t/source/keeper.txt", b"kept content");
    let mut index = project();
    disk.scan(&mut index, &["/t/source"], &[]);
    disk.remove("/t/source/gone.txt").unwrap();
    disk.remove("/t/source/keeper.txt").unwrap();
    disk.now += 2;
    disk.scan(&mut index, &["/t/source"], &[]);
    for file in &mut index.files {
        assert!(!file.present);
        file.scanned_at -= 91 * DAY;
    }
    let keeper = id_of(&index, "keeper.txt");
    index.operations.push(OperationRow {
        id: 1,
        file_id: keeper,
        source_path: "x".to_string(),
        trash_path: "y".to_string(),
        hash: "z".to_string(),
        state: OperationState::Trashed,
        created_at: 0,
        restored_at: None,
        batch_id: None,
    });
    assert_eq!(prune_absent_rows(&mut index, disk.now), 1);
    assert!(!index.files.iter().any(|file| file.path.ends_with("gone.txt")));
    assert!(index.files.iter().any(|file| file.path.ends_with("keeper.txt")));
}

/// A minimal JPEG whose EXIF data carries the given capture time.
fn exif_jpeg(datetime: &str) -> Vec<u8> {
    let mut tiff: Vec<u8> = Vec::new();
    tiff.extend(b"II");
    tiff.extend(42_u16.to_le_bytes());
    tiff.extend(8_u32.to_le_bytes());
    tiff.extend(1_u16.to_le_bytes());
    tiff.extend(0x8769_u16.to_le_bytes());
    tiff.extend(4_u16.to_le_bytes());
    tiff.extend(1_u32.to_le_bytes());
    tiff.extend(26_u32.to_le_bytes());
    tiff.extend(0_u32.to_le_bytes());
    tiff.extend(1_u16.to_le_bytes());
    tiff.extend(0x9003_u16.to_le_bytes());
    tiff.extend(2_u16.to_le_bytes());
    tiff.extend((datetime.len() as u32 + 1).to_le_bytes());
    tiff.extend(44_u32.to_le_bytes());
    tiff.extend(0_u32.to_le_bytes());
    tiff.extend(datetime.as_bytes());
    tiff.push(0);
    let mut jpeg: Vec<u8> = vec![0xFF, 0xD8];
    jpeg.extend(0xFF_E1_u16.to_be_bytes());
    jpeg.extend(((6 + tiff.len() + 2) as u16).to_be_bytes());
    jpeg.extend(b"Exif\0\0");
    jpeg.extend(&tiff);
    jpeg.extend([0xFF, 0xD9]);
    jpeg
}

#[test]
fn capture_times_are_looked_for_in_jpeg_and_tiff_only() {
    let jpeg = exif_jpeg("2023:07:01 12:00:00");
    let tiff = jpeg[12..jpeg.len() - 2].to_vec();
    assert_eq!(exif_taken_seconds(&tiff), 1_688_212_800);
    let mut png: Vec<u8> = b"\x89PNG\r\n\x1a\n".to_vec();
    png.extend((tiff.len() as u32).to_be_bytes());
    png.extend(b"eXIf");
    png.extend(&tiff);
    png.extend([0; 4]);
    assert_eq!(exif_taken_seconds(&png), 0);
    assert_eq!(exif_taken_seconds(&[]), 0);
}

#[test]
fn exif_capture_time_is_parsed_and_stored() {
    let shot = exif_jpeg("2023:07:01 12:00:00");
    let expected = days_from_civil(2023, 7, 1) * DAY + 12 * 3_600;
    assert_eq!(expected, 1_688_212_800);
    assert_eq!(exif_taken_seconds(&shot), expected);
    let mut disk = Disk::new();
    disk.write("/t/source/shot.jpg", &shot);
    let mut index = project();
    disk.scan(&mut index, &["/t/source"], &[]);
    assert_eq!(row(&index, "shot.jpg").exif_taken, expected);
}

#[test]
fn scan_inherits_renamed_file_without_rehash() {
    let mut disk = Disk::new();
    let pic = png(48, 48, |x, y| if x > y { [220, 220, 40] } else { [30, 30, 90] });
    disk.write("/t/source/pic.png", &pic);
    disk.write("/t/source/note.txt", b"note");
    let mut index = project();
    disk.scan(&mut index, &["/t/source"], &[]);
    let pic_id = id_of(&index, "pic.png");
    let note_id = id_of(&index, "note.txt");
    let pic_hash = row(&index, "pic.png").hash.clone();
    assert!(index.photos.contains_key(&pic_id));

    disk.rename("/t/source/pic.png", "/t/source/pic-moved.png").unwrap();
    disk.rename("/t/source/note.txt", "/t/source/note-moved.txt").unwrap();
    let hashed = disk.hashed_files;
    disk.scan(&mut index, &["/t/source"], &[]);
    assert_eq!(disk.hashed_files, hashed, "content hash inherited, not recomputed");
    assert_eq!(index.files.len(), 2, "a rename must not duplicate or drop rows");
    assert_eq!(id_of(&index, "pic-moved.png"), pic_id, "image row keeps its id");
    assert_eq!(id_of(&index, "note-moved.txt"), note_id, "document row keeps its id");
    assert!(index.photos.contains_key(&pic_id), "no fingerprint rebuild");
    assert_eq!(index.photos.len(), 1);
    assert_eq!(row(&index, "pic-moved.png").hash, pic_hash);
}

#[test]
fn pair_verdict_cache_roundtrips_and_invalidates() {
    let mut disk = Disk::new();
    disk.write("/t/left/a.txt", b"same");
    disk.write("/t/left/b.txt", b"same");
    let mut index = project();
    disk.scan(&mut index, &["/t/left"], &[]);
    let a = "/t/left/a.txt".to_string();
    let b = "/t/left/b.txt".to_string();
    let now = disk.now;
    assert_eq!(store_pair_verdicts(&mut index, &[(a.clone(), b.clone(), true)], now).unwrap(), 1);
    let both = [(a.clone(), b.clone()), (b.clone(), a.clone())];
    let verdicts = cached_pair_verdicts(&mut index, &both).unwrap();
    assert_eq!(verdicts, vec![Some(true), Some(true)]);

    disk.write("/t/left/a.txt", b"same but longer");
    disk.scan(&mut index, &["/t/left"], &[]);
    let verdicts = cached_pair_verdicts(&mut index, &both[..1]).unwrap();
    assert_eq!(verdicts, vec![None], "changed file must invalidate");

    disk.write("/t/left/a.txt", b"same");
    disk.scan(&mut index, &["/t/left"], &[]);
    assert_eq!(store_pair_verdicts(&mut index, &[(b, a, false)], now).unwrap(), 1);
    let verdicts = cached_pair_verdicts(&mut index, &both[..1]).unwrap();
    assert_eq!(verdicts, vec![Some(false)]);
}

fn merge_one(
    disk: &mut Disk,
    index: &mut Index,
    name: &str,
) -> filelens::merge::DirMergeOutcome {
    let pair = (format!("/t/left/{name}"), format!("/t/right/{name}"));
    let cleanup = vec!["/t/right".to_string()];
    let mut merge = merge_dir_pair(index, vec![pair], "/t/left", cleanup, 8).unwrap();
    loop {
        match merge.turn(index, ON, disk.now) {
            DirStep::Act(action) => disk.perform(action, &mut merge.seen),
            DirStep::Continue => {}
            DirStep::Abort(error) => panic!("{error}"),
            DirStep::Done => return merge.outcome,
        }
    }
}

#[test]
fn merge_dir_pair_recycles_one_side_and_moves_the_other() {
    let mut disk = Disk::new();
    disk.write("/t/left/a.txt", b"same");
    disk.write("/t/right/a.txt", b"same");
    disk.write("/t/left/pair.txt", b"pair");
    disk.write("/t/right/pair.txt", b"pair");
    disk.write("/t/left/solo.txt", b"left unique");
    let mut index = project();
    disk.scan(&mut index, &["/t/left", "/t/right"], &[]);

    let outcome = merge_one(&mut disk, &mut index, "a.txt");
    assert!(outcome.failures.is_empty(), "{:?}", outcome.failures);
    assert_eq!((outcome.recycled, outcome.moved, outcome.kept), (1, 1, 0));
    assert!(outcome.cleaned_dirs.is_empty());
    assert_eq!(disk.read("/t/left/a.txt"), Some(b"same".as_slice()));
    assert!(!disk.has("/t/right/a.txt"));
    assert!(disk.has("/t/right/pair.txt"));
    assert!(disk.has("/t/left/solo.txt"), "unrelated file untouched");

    let guard = |index: &mut Index, on: bool| {
        for file in &mut index.files {
            if file.path.ends_with("left/pair.txt") {
                file.protected = on;
            }
        }
    };
    guard(&mut index, true);
    let outcome = merge_one(&mut disk, &mut index, "pair.txt");
    assert_eq!((outcome.recycled, outcome.moved), (0, 0));
    assert_eq!(outcome.failures.len(), 2, "both phases report the skip");
    assert!(disk.has("/t/left/pair.txt"));
    assert!(disk.has("/t/right/pair.txt"));

    guard(&mut index, false);
    let outcome = merge_one(&mut disk, &mut index, "pair.txt");
    assert!(outcome.failures.is_empty(), "{:?}", outcome.failures);
    assert_eq!((outcome.recycled, outcome.moved), (1, 1));
    assert_eq!(outcome.cleaned_dirs, vec!["/t/right"]);
    assert!(!disk.directories.contains("/t/right"));
    assert_eq!(disk.read("/t/left/pair.txt"), Some(b"pair".as_slice()));
    let live_in = |part: &str| {
        index.files.iter().filter(|file| file.present && file.path.contains(part)).count()
    };
    assert_eq!(live_in("/left"), 3);
    assert_eq!(live_in("/right"), 0);
    assert_eq!(in_bin(&index).len(), 2, "both replaced copies are recoverable");
}

#[test]
fn verify_photo_pairs_streams_verdicts_and_stops_on_request() {
    let colors = |blue: u8| move |x: u32, y: u32| [((x * 7) % 256) as u8, ((y * 11) % 256) as u8, blue];
    let same = Ok(png(36, 20, colors(60)));
    let other = Ok(png(36, 20, colors(190)));
    let content = |path: &str| if path == "other.png" { &other } else { &same };
    let pair = |second: &str| ("same-a.png".to_string(), second.to_string());
    let mut pairs = vec![pair("same-b.png"); 6];
    pairs.extend(vec![pair("other.png"); 3]);
    let mut run = verify_photo_pairs(pairs.clone());
    assert_eq!(run.workers(Some(16)), 6);
    assert_eq!(run.workers(None), 4);
    let mut collected = Vec::new();
    while let Some(taken) = run.take_pair(false) {
        let (first, second) = (content(&taken.1), content(&taken.2));
        let verdict = run.settle(check_pair(ON, taken, first, second));
        assert_eq!(
            verdict.identical,
            verify_pair_pixels(ON, &verdict.first, first, &verdict.second, second)
        );
        collected.push((verdict.second == "same-b.png", verdict.identical));
    }
    assert_eq!(collected.len(), pairs.len(), "every pair gets a verdict");
    assert_eq!(run.totals(), (6, 3));
    for (second_is_b, identical) in collected {
        assert_eq!(second_is_b, identical, "verdict must follow the pair");
    }

    let mut run = verify_photo_pairs(vec![pair("same-b.png"); 80]);
    let mut stop = false;
    while let Some(taken) = run.take_pair(stop) {
        run.settle(check_pair(ON, taken, &same, &same));
        stop = true;
    }
    assert!(run.totals().0 < 80, "cancellation must leave most pairs unverified");
    let mut run = verify_photo_pairs(vec![pair("same-b.png"); 3]);
    assert!(run.take_pair(true).is_none());
    assert_eq!(run.totals(), (0, 0));
}

#[test]
fn photos_pixel_identical_checks_exact_pixels() {
    let colors = |blue: u8| move |x: u32, y: u32| [((x * 5) % 256) as u8, ((y * 9) % 256) as u8, blue];
    let copy = Ok(png(40, 24, colors(77)));
    let copy2 = Ok(png(40, 24, colors(77)));
    let other_size = Ok(png(24, 40, colors(77)));
    let other_pixels = Ok(png(40, 24, colors(200)));
    let broken = Ok(b"not an image".to_vec());
    let missing = Err("gone".to_string());
    let same = |second: &str, content: &Result<Vec<u8>, String>| {
        photos_pixel_identical(ON, "copy.png", &copy, second, content)
    };
    assert_eq!(same("copy2.png", &copy2), Ok(true));
    assert_eq!(same("other-size.png", &other_size), Ok(false));
    assert_eq!(same("other-pixels.png", &other_pixels), Ok(false));
    assert!(same("broken.png", &broken).unwrap_err().starts_with("cannot decode broken.png: "));
    assert_eq!(same("lost.png", &missing), Err("cannot open lost.png: gone".to_string()));
    assert!(!verify_pair_pixels(ON, "copy.png", &copy, "broken.png", &broken));
    assert!(!verify_pair_pixels(ON, "copy.png", &copy, "other-size.png", &other_size));
    assert!(verify_pair_pixels(ON, "copy.png", &copy, "copy2.png", &copy2));

    // Sixteen-bit pictures are told apart by the low byte of one sample.
    let deep = |level: u16| {
        let picture = image::ImageBuffer::from_pixel(2, 2, image::Luma([level]));
        let mut out = std::io::Cursor::new(Vec::new());
        image::DynamicImage::ImageLuma16(picture)
            .write_to(&mut out, image::ImageFormat::Png)
            .unwrap();
        Ok(out.into_inner())
    };
    let (one, other) = (deep(0x0100), deep(0x0101));
    assert_eq!(photos_pixel_identical(ON, "a.png", &one, "b.png", &other), Ok(false));
    assert_eq!(photos_pixel_identical(ON, "a.png", &one, "b.png", &deep(0x0100)), Ok(true));

    // So are floating-point pictures by the last bit of one sample.
    let fine = |level: f32| {
        let picture = image::ImageBuffer::from_pixel(2, 2, image::Rgb([0.5, level, 0.25]));
        let mut out = std::io::Cursor::new(Vec::new());
        image::DynamicImage::ImageRgb32F(picture)
            .write_to(&mut out, image::ImageFormat::Tiff)
            .unwrap();
        Ok(out.into_inner())
    };
    let (one, other) = (fine(0.75), fine(f32::from_bits(0.75_f32.to_bits() + 1)));
    assert_eq!(photos_pixel_identical(ON, "a.tif", &one, "b.tif", &other), Ok(false));
    assert_eq!(photos_pixel_identical(ON, "a.tif", &one, "b.tif", &fine(0.75)), Ok(true));

    // The same grey picture with and without colour channels is the same.
    let grey = image::GrayImage::from_fn(16, 16, |x, y| image::Luma([(16 * y + x) as u8]));
    let mut out = std::io::Cursor::new(Vec::new());
    grey.write_to(&mut out, image::ImageFormat::Png).unwrap();
    let plain = Ok(out.into_inner());
    let coloured = Ok(png(16, 16, |x, y| [(16 * y + x) as u8; 3]));
    assert_eq!(photos_pixel_identical(ON, "a.png", &plain, "b.png", &coloured), Ok(true));
}

#[test]
fn scan_fingerprints_images_with_phash_and_rebuilds_when_rows_vanish() {
    let mut disk = Disk::new();
    let pic = png(48, 48, |x, y| if (x + y) % 2 == 0 { [250, 60, 60] } else { [10, 10, 90] });
    disk.write("/t/source/pic.png", &pic);
    let mut index = project();
    disk.scan(&mut index, &["/t/source"], &[]);
    let id = id_of(&index, "pic.png");
    let first = index.photos[&id].phash;
    assert_ne!(first, 0, "pHash must be stored");
    index.photos.clear();
    let summary = disk.scan(&mut index, &["/t/source"], &[]);
    assert_eq!(summary.fingerprint_rebuild, 1);
    assert_eq!(index.photos[&id].phash, first, "recomputed pHash must be deterministic");
}

#[test]
fn hardlink_dedup_preserves_paths_and_records_the_operation() {
    let mut disk = Disk::new();
    disk.write("/t/source/a.txt", b"same content");
    disk.write("/t/source/b.txt", b"same content");
    let mut index = project();
    disk.scan(&mut index, &["/t/source"], &[]);
    let b = id_of(&index, "/b.txt");
    approve(&mut index, b);
    let now = disk.now;
    disk.drive(|seen| hardlink(&mut index, ON, b, seen, now)).unwrap();
    assert_eq!(disk.read("/t/source/a.txt"), disk.read("/t/source/b.txt"));
    assert_eq!(disk.names["/t/source/a.txt"], disk.names["/t/source/b.txt"], "one inode");
    assert_eq!(disk.names.len(), 2);
    let linked = row(&index, "/b.txt");
    assert!(linked.present && !linked.approved);
    let operation = index.operations.iter().find(|row| row.source_path.ends_with("b.txt")).unwrap();
    assert!(operation.state == OperationState::Hardlinked);
    assert!(operation.trash_path.ends_with("a.txt"));
    approve(&mut index, b);
    let error = disk.drive(|seen| hardlink(&mut index, ON, b, seen, now)).unwrap_err();
    assert!(error.contains("already a hard link"), "{error}");
}

#[test]
fn moved_onto_a_stale_path_does_not_wedge_the_scan() {
    let mut disk = Disk::new();
    disk.write("/t/source/a.txt", b"content alpha");
    disk.write("/t/source/b.txt", b"content beta with more bytes");
    let mut index = project();
    disk.scan(&mut index, &["/t/source"], &[]);
    disk.remove("/t/source/b.txt").unwrap();
    disk.rename("/t/source/a.txt", "/t/source/b.txt").unwrap();
    disk.scan(&mut index, &["/t/source"], &[]);
    let rows = index.files.iter().filter(|file| file.path.contains("b.txt")).count();
    assert_eq!(rows, 2, "stale row renamed aside, moved row re-pointed");
    assert_eq!(row(&index, "/b.txt").size, 13, "the live row carries a's content, not b's");
}

#[test]
fn files_move_across_volumes_by_checked_copies() {
    let mut disk = Disk::new();
    disk.write("/t/source/keep.txt", b"same content");
    disk.write("/t/source/copy.txt", b"same content");
    let mut index = project();
    disk.scan(&mut index, &["/t/source"], &[]);
    disk.renames = false;
    let copy = id_of(&index, "/copy.txt");
    approve(&mut index, copy);
    recycle(&mut disk, &mut index, copy).unwrap();
    assert!(!disk.has("/t/source/copy.txt"));
    let place = in_bin(&index)[0].trash_path.clone();
    assert_eq!(disk.read(&place), Some(b"same content".as_slice()));
    let error = disk.move_file(&place, "/t/elsewhere", "another hash").unwrap_err();
    assert_eq!(error, "copied file failed integrity check");
    assert!(disk.has(&place), "the source stays where the copy is bad");
    assert!(!disk.has("/t/elsewhere"));
}

#[test]
fn hardlink_refreshes_the_windows_file_reference() {
    let mut disk = Disk::new();
    disk.write("/t/source/a.txt", b"same content");
    disk.write("/t/source/b.txt", b"same content");
    let mut index = project();
    disk.scan(&mut index, &["/t/source"], &[]);
    let b = id_of(&index, "/b.txt");
    approve(&mut index, b);
    let now = disk.now;
    let mut seen = Seen::new();
    loop {
        match hardlink(&mut index, Platform::Windows, b, &seen, now) {
            Action::Finished { result } => {
                result.unwrap();
                break;
            }
            Action::Identify { .. } => {
                seen.identity = Some(Identity { dev: 0, inode: 0, frn: 4_711 });
            }
            action => disk.perform(action, &mut seen),
        }
    }
    assert_eq!(row(&index, "/b.txt").frn, 4_711, "the row carries the keeper's file reference");
}

#[test]
fn hardlink_rejects_diverged_content_without_touching_it() {
    let mut disk = Disk::new();
    disk.write("/t/source/a.txt", b"original");
    disk.write("/t/source/b.txt", b"original");
    let mut index = project();
    disk.scan(&mut index, &["/t/source"], &[]);
    let b = id_of(&index, "/b.txt");
    disk.write("/t/source/b.txt", b"edited");
    approve(&mut index, b);
    let now = disk.now;
    let error = disk.drive(|seen| hardlink(&mut index, ON, b, seen, now)).unwrap_err();
    assert!(error.contains("no longer matches indexed hash"), "{error}");
    assert_eq!(disk.read("/t/source/b.txt"), Some(b"edited".as_slice()));
}

#[test]
fn strict_verify_roundtrips_and_keeps_the_chain_working() {
    let mut disk = Disk::new();
    disk.write("/t/source/a.txt", b"pair");
    disk.write("/t/source/b.txt", b"pair");
    let mut index = project();
    disk.scan(&mut index, &["/t/source"], &[]);
    set_strict_verify(&mut index, true).unwrap();
    assert_eq!(setting_value(&index, "strict_verify").unwrap(), "1");
    let b = id_of(&index, "/b.txt");
    approve(&mut index, b);
    recycle(&mut disk, &mut index, b).unwrap();
    assert!(!disk.has("/t/source/b.txt"));
    set_strict_verify(&mut index, false).unwrap();
    assert_eq!(setting_value(&index, "strict_verify").unwrap(), "0");
}

#[test]
fn usn_setting_on_still_scans_correctly_through_fallback() {
    let mut disk = Disk::new();
    disk.write("/t/source/keep.txt", b"content");
    disk.write("/t/source/drop.txt", b"ok");
    let mut index = project();
    set_usn_scan(&mut index, true).unwrap();
    disk.scan_with(&mut index, &["/t/source"], &[], &[], 4).unwrap();
    assert_eq!(live(&index), 1, "only keep.txt passes the minimum size");
}

#[test]
fn a_kept_winner_is_counted_once() {
    let mut disk = Disk::new();
    disk.write("/t/left/w.txt", b"same");
    disk.write("/t/right/one.txt", b"same");
    disk.write("/t/right/two.txt", b"same");
    let mut index = project();
    disk.scan(&mut index, &["/t/left", "/t/right"], &[]);
    let pair = |name: &str| (format!("/t/right/{name}"), "/t/left/w.txt".to_string());
    let pairs = vec![pair("one.txt"), pair("two.txt")];
    let mut merge = merge_dir_pair(&mut index, pairs, "/t/left", Vec::new(), 8).unwrap();
    loop {
        match merge.turn(&mut index, ON, disk.now) {
            DirStep::Act(action) => disk.perform(action, &mut merge.seen),
            DirStep::Continue => {}
            DirStep::Abort(error) => panic!("{error}"),
            DirStep::Done => break,
        }
    }
    assert!(merge.outcome.failures.is_empty(), "{:?}", merge.outcome.failures);
    assert_eq!((merge.outcome.recycled, merge.outcome.moved, merge.outcome.kept), (2, 0, 1));
    assert!(disk.has("/t/left/w.txt"));
}

#[test]
fn a_link_needs_an_unchanged_kept_copy() {
    let mut disk = Disk::new();
    disk.write("/t/source/a.txt", b"original");
    disk.write("/t/source/b.txt", b"original");
    let mut index = project();
    disk.scan(&mut index, &["/t/source"], &[]);
    let b = id_of(&index, "/b.txt");
    disk.write("/t/source/a.txt", b"edited");
    approve(&mut index, b);
    let now = disk.now;
    let error = disk.drive(|seen| hardlink(&mut index, ON, b, seen, now)).unwrap_err();
    assert_eq!(error, "kept copy no longer matches indexed hash; scan again");
    assert_eq!(disk.read("/t/source/b.txt"), Some(b"original".as_slice()));
    assert_ne!(disk.names["/t/source/a.txt"], disk.names["/t/source/b.txt"]);
    assert!(index.operations.is_empty());
}

#[test]
fn a_renamed_file_is_checked_and_goes_back_where_it_differs() {
    let mut disk = Disk::new();
    disk.write("/t/a.txt", b"content");
    let error = disk.move_file("/t/a.txt", "/t/b.txt", "another hash").unwrap_err();
    assert_eq!(error, "moved file failed integrity check");
    assert_eq!(disk.read("/t/a.txt"), Some(b"content".as_slice()));
    assert!(!disk.has("/t/b.txt"));
    let hash = full_hash(b"content");
    disk.move_file("/t/a.txt", "/t/b.txt", &hash).unwrap();
    assert!(!disk.has("/t/a.txt") && disk.has("/t/b.txt"));
}

#[test]
fn roots_that_differ_in_case_are_different_directories() {
    let mut disk = Disk::new();
    disk.write("/data/A/x.bin", b"one");
    disk.write("/data/a/y.bin", b"two");
    let mut index = project();
    disk.scan(&mut index, &["/data/A", "/data/a"], &[]);
    disk.now += 2;
    disk.remove("/data/a/y.bin").unwrap();
    let summary = disk.scan(&mut index, &["/data/a"], &[]);
    assert_eq!(summary.missing, 1);
    assert!(row(&index, "/data/A/x.bin").present);
    assert!(!row(&index, "/data/a/y.bin").present);
}

#[test]
fn pruning_takes_the_overdue_files_and_no_other() {
    let mut disk = Disk::new();
    for name in ["a", "b", "c", "d"] {
        disk.write(&format!("/t/source/{name}.txt"), b"same content");
    }
    let mut index = project();
    disk.scan(&mut index, &["/t/source"], &[]);
    for name in ["/b.txt", "/c.txt", "/d.txt"] {
        let id = id_of(&index, name);
        approve(&mut index, id);
        recycle(&mut disk, &mut index, id).unwrap();
    }
    index.operations[0].created_at -= 31 * DAY;
    index.operations[2].created_at -= 40 * DAY;
    let places: Vec<String> = index.operations.iter().map(|row| row.trash_path.clone()).collect();
    let batch = prune_expired_trash(&mut index, disk.now).unwrap();
    let outcome = disk.drive_batch(&mut index, batch);
    assert_eq!((outcome.succeeded, outcome.failures.len()), (2, 0));
    assert!(index.operations[0].state == OperationState::Deleted);
    assert!(index.operations[1].state == OperationState::Trashed);
    assert!(index.operations[2].state == OperationState::Deleted);
    assert!(!disk.has(&places[0]) && disk.has(&places[1]) && !disk.has(&places[2]));
    assert_eq!(live(&index), 1);
}

#[test]
fn every_content_outlives_the_cleaning_of_a_directory() {
    let mut disk = Disk::new();
    disk.write("/t/doomed/n.txt", b"first");
    disk.write("/t/doomed/sub/n.txt", b"first");
    disk.write("/t/doomed/m.txt", b"second");
    disk.write("/t/doomed/sub/m.txt", b"second");
    disk.write("/t/doomed/lone.txt", b"third");
    disk.write("/t/keep/n.txt", b"in the way");
    let mut index = project();
    disk.scan(&mut index, &["/t/doomed", "/t/keep"], &[]);
    // The content of one keeper has changed since, so all its copies stay.
    disk.write("/t/doomed/m.txt", b"edited");
    let contents = |index: &Index| {
        let mut hashes: Vec<String> =
            index.files.iter().filter(|row| row.present).map(|row| row.hash.clone()).collect();
        hashes.sort();
        hashes.dedup();
        hashes
    };
    let before = contents(&index);
    assert_eq!(before.len(), 4);
    let mut plan = recycle_dir_keep_one(&mut index, ON, "/t/doomed", "/t/keep", 3).unwrap();
    loop {
        match plan.turn(&mut index, ON, disk.now) {
            DirStep::Act(action) => disk.perform(action, &mut plan.seen),
            DirStep::Continue => {}
            DirStep::Abort(error) => panic!("{error}"),
            DirStep::Done => break,
        }
    }
    assert_eq!((plan.outcome.moved, plan.outcome.recycled), (1, 1));
    assert_eq!(plan.outcome.failures.len(), 1);
    assert_eq!(contents(&index), before);
    assert_eq!(disk.read("/t/keep/n.txt"), Some(b"in the way".as_slice()));
    assert_eq!(disk.read("/t/keep/n (1).txt"), Some(b"first".as_slice()));
    assert!(row(&index, "/t/keep/n (1).txt").present);
    assert!(disk.has("/t/doomed/lone.txt") && disk.has("/t/doomed/sub/m.txt"));
    assert!(recycle_dir_keep_one(&mut index, ON, "/t/doomed", "/t/doomed/keep", 4).is_err());
}

#[test]
fn a_file_is_placed_only_with_its_indexed_content() {
    let mut disk = Disk::new();
    disk.write("/t/source/a.txt", b"content");
    let mut index = project();
    disk.scan(&mut index, &["/t/source"], &[]);
    let id = id_of(&index, "/a.txt");
    let hash = row(&index, "/a.txt").hash.clone();
    let now = disk.now;
    disk.write("/t/source/a.txt", b"edited");
    let error = disk
        .drive(|seen| {
            move_indexed_file_to(&mut index, ON, id, "/t/source/a.txt", "/t/keep", &hash, seen, now)
        })
        .unwrap_err();
    assert_eq!(error, "content no longer matches the index");
    assert!(disk.has("/t/source/a.txt") && index.operations.is_empty());
    disk.write("/t/source/a.txt", b"content");
    disk.drive(|seen| {
        move_indexed_file_to(&mut index, ON, id, "/t/source/a.txt", "/t/keep", &hash, seen, now)
    })
    .unwrap();
    assert_eq!(disk.read("/t/keep/a.txt"), Some(b"content".as_slice()));
    assert_eq!(row(&index, "/a.txt").path, "/t/keep/a.txt");
    assert!(index.operations[0].state == OperationState::Moved);
}

#[test]
fn a_new_link_to_an_indexed_file_is_a_new_row() {
    let mut disk = Disk::new();
    disk.write("/t/source/a.txt", b"one file");
    let mut index = project();
    disk.scan(&mut index, &["/t/source"], &[]);
    let a = id_of(&index, "/a.txt");
    disk.now += 2;
    disk.link("/t/source/a.txt", "/t/source/b.txt").unwrap();
    let summary = disk.scan(&mut index, &["/t/source"], &[]);
    assert_eq!(summary.missing, 0);
    assert_eq!(id_of(&index, "/a.txt"), a, "the old name keeps its row");
    assert_ne!(id_of(&index, "/b.txt"), a);
    assert!(row(&index, "/a.txt").present && row(&index, "/b.txt").present);
    let page = page(&mut index, GroupSort::Size);
    assert!(group_with(&page, "a.txt").files.iter().all(|file| file.hardlinked));
}

#[test]
fn a_renamed_link_takes_its_own_row_along() {
    let mut disk = Disk::new();
    disk.write("/t/source/a.txt", b"one file");
    disk.link("/t/source/a.txt", "/t/source/b.txt").unwrap();
    let mut index = project();
    disk.scan(&mut index, &["/t/source"], &[]);
    let (a, b) = (id_of(&index, "/a.txt"), id_of(&index, "/b.txt"));
    disk.now += 2;
    disk.rename("/t/source/b.txt", "/t/source/c.txt").unwrap();
    disk.scan(&mut index, &["/t/source"], &[]);
    assert_eq!(id_of(&index, "/a.txt"), a, "the other name keeps its row");
    assert_eq!(id_of(&index, "/c.txt"), b);
    assert_eq!(live(&index), 2);

    // Both names change at once: each takes one of the two rows.
    disk.now += 2;
    disk.rename("/t/source/a.txt", "/t/source/x.txt").unwrap();
    disk.rename("/t/source/c.txt", "/t/source/y.txt").unwrap();
    disk.scan(&mut index, &["/t/source"], &[]);
    assert_eq!((id_of(&index, "/x.txt"), id_of(&index, "/y.txt")), (a, b));
    assert_eq!((live(&index), index.files.len()), (2, 2));
}

#[test]
fn two_new_names_of_a_moved_file_share_no_row() {
    let mut disk = Disk::new();
    disk.write("/t/source/a.txt", b"one file");
    let mut index = project();
    disk.scan(&mut index, &["/t/source"], &[]);
    let a = id_of(&index, "/a.txt");
    disk.now += 2;
    disk.rename("/t/source/a.txt", "/t/source/x.txt").unwrap();
    disk.link("/t/source/x.txt", "/t/source/y.txt").unwrap();
    disk.scan(&mut index, &["/t/source"], &[]);
    assert_eq!(id_of(&index, "/x.txt"), a);
    assert_ne!(id_of(&index, "/y.txt"), a);
    assert_eq!(live(&index), 2);
}

#[test]
fn failures_are_counted_and_logged_alike() {
    let mut index = project();
    let mut writer = ScanWriter::new();
    let mut log = ScanErrorLog::new();
    let rules = WriteRules { platform: ON, protect: Vec::new() };
    let results = vec![
        WorkResult::WalkError("/t/locked".to_string()),
        WorkResult::Skipped,
        WorkResult::Processed(Err(("/t/gone.txt".to_string(), "not found".to_string()))),
    ];
    for result in results {
        writer.accept(&mut index, &mut log, &rules, result, 5).unwrap();
    }
    assert_eq!(writer.counters.errors, 2);
    let (total, recent) = log.snapshot();
    assert_eq!(total, 2);
    assert_eq!(recent[0], ("/t/locked".to_string(), "directory unreadable".to_string()));
    assert_eq!(recent[1], ("/t/gone.txt".to_string(), "not found".to_string()));
    assert!(index.files.is_empty());
}
