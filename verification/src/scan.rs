//! A scan: the counters, the two-stage hashing of large files, the order of
//! its stages, and its summary.
use crate::batch::{prune_expired_trash_with, Batch};
use crate::indexing::{
    mark_missing_absent, mark_moved, mark_unchanged, prune_absent_rows, write_entry, EntryView,
    IndexOutcome, ProcessedEntry,
};
use crate::model::{find_path, FileRow, FileView, Index, IndexView};
use crate::paths::{is_image_path, Platform};
use crate::progress::{ErrorLogView, ScanErrorLog};
use crate::settings::{ensure_initialized, required_setting, set_setting};
use crate::text::{chars_of, joined, same_text, signed_text};
use crate::walk::go_on;
use crate::{batch, bin, indexing, lists, model, outside, paths, progress, settings, text, walk};
use vstd::prelude::*;

verus! {

broadcast use vstd::std_specs::hash::group_hash_axioms;

// ---------------------------------------------------------------------------
// Counters
// ---------------------------------------------------------------------------

/// What became of the files of a scan.
#[derive(Clone, Copy, Debug, PartialEq, Eq)]
pub struct ScanCounters {
    pub new: u64,
    pub unchanged: u64,
    pub updated: u64,
    pub skipped: u64,
    pub errors: u64,
}

impl ScanCounters {
    pub open spec fn sum(self) -> int {
        self.new + self.unchanged + self.updated + self.skipped + self.errors
    }

    pub open spec fn with_outcome(self, outcome: IndexOutcome) -> ScanCounters {
        match outcome {
            IndexOutcome::New => ScanCounters { new: (self.new + 1) as u64, ..self },
            IndexOutcome::Updated => ScanCounters { updated: (self.updated + 1) as u64, ..self },
        }
    }

    pub open spec fn with_error(self) -> ScanCounters {
        ScanCounters { errors: (self.errors + 1) as u64, ..self }
    }

    /// How many items are settled.
    pub fn processed(&self) -> (n: u64)
        requires
            self.sum() <= u64::MAX,
        ensures
            n == self.sum(),
    {
        self.new + self.unchanged + self.updated + self.skipped + self.errors
    }
}

/// What the walk or a hashing worker hands to the writer.
pub enum WorkResult {
    Unchanged(String),
    Skipped,
    WalkError(String),
    Processed(Result<ProcessedEntry, (String, String)>),
    /// A file under a new path, matched to its row.
    Moved { path: String, file_id: i64 },
}

// ---------------------------------------------------------------------------
// Large files
// ---------------------------------------------------------------------------

/// Another path is indexed with this size and quick fingerprint.
pub open spec fn has_quick_sibling(
    files: Seq<FileView>,
    size: i64,
    quick: Seq<char>,
    path: Seq<char>,
) -> bool {
    exists|p: int|
        0 <= p < files.len() && (#[trigger] files[p]).size == size && files[p].quick_hash == Some(
            quick,
        ) && files[p].path != path
}

/// The stored hash is only a marked quick fingerprint.
pub open spec fn is_marked(hash: Seq<char>) -> bool {
    hash.len() >= 2 && (hash[0] == 'q' || hash[0] == 'Q') && hash[1] == ':'
}

/// The rows with this size and quick fingerprint that still lack a full hash.
pub open spec fn marked_rows(files: Seq<FileView>, size: i64, quick: Seq<char>) -> Seq<int> {
    lists::positions(
        files.len(),
        |p: int|
            files[p].size == size && files[p].quick_hash == Some(quick) && is_marked(files[p].hash),
    )
}

pub open spec fn row_paths(files: Seq<FileView>, rows: Seq<int>) -> Seq<Seq<char>> {
    rows.map_values(|p: int| files[p].path)
}

/// The two entries may be the same content: equal size and quick fingerprint.
pub open spec fn same_bucket(a: EntryView, b: EntryView) -> bool {
    a.size == b.size && a.quick_hash is Some && a.quick_hash == b.quick_hash
}

/// The position of the first waiting entry that may be the same content.
pub open spec fn waiting_sibling(pending: Seq<EntryView>, entry: EntryView) -> Option<int> {
    let rows = lists::positions(pending.len(), |k: int| same_bucket(pending[k], entry));
    if rows.len() > 0 {
        Some(rows[0])
    } else {
        None
    }
}

/// The single writer of a scan: it counts, and holds back large files until
/// another file could be their twin.
pub struct ScanWriter {
    pub counters: ScanCounters,
    /// Large files without a possible twin so far.
    pub pending: Vec<ProcessedEntry>,
    /// Large files that now get their full hash.
    pub bucket: Vec<ProcessedEntry>,
    /// Indexed large files that now get their full hash.
    pub refresh: Vec<String>,
}

#[verifier::ext_equal]
pub struct WriterView {
    pub counters: ScanCounters,
    pub pending: Seq<EntryView>,
    pub bucket: Seq<EntryView>,
    pub refresh: Seq<Seq<char>>,
}

pub open spec fn entry_list(entries: Seq<ProcessedEntry>) -> Seq<EntryView> {
    entries.map_values(|entry: ProcessedEntry| entry@)
}

impl View for ScanWriter {
    type V = WriterView;

    open spec fn view(&self) -> WriterView {
        WriterView {
            counters: self.counters,
            pending: entry_list(self.pending@),
            bucket: entry_list(self.bucket@),
            refresh: outside::texts(self.refresh@),
        }
    }
}

/// What a scan works with and changes.
#[verifier::ext_equal]
pub struct ScanState {
    pub index: IndexView,
    pub writer: WriterView,
    pub log: ErrorLogView,
}

/// Terms under which the writer writes.
pub struct WriteRules {
    pub platform: Platform,
    pub protect: Vec<String>,
}

impl ScanState {
    /// One entry written and counted.
    pub open spec fn wrote(self, rules: WriteRules, entry: EntryView, now: i64) -> Result<
        ScanState,
        Seq<char>,
    > {
        match indexing::written(
            self.index,
            rules.platform,
            entry,
            outside::texts(rules.protect@),
            now,
        ) {
            Err(error) => Err(error),
            Ok((index, outcome)) => Ok(
                ScanState {
                    index,
                    writer: WriterView {
                        counters: self.writer.counters.with_outcome(outcome),
                        ..self.writer
                    },
                    ..self
                },
            ),
        }
    }

    /// One failure counted and noted.
    pub open spec fn failed(self, path: Seq<char>, error: Seq<char>) -> ScanState {
        ScanState {
            writer: WriterView { counters: self.writer.counters.with_error(), ..self.writer },
            log: self.log.with(path, error),
            ..self
        }
    }
}

/// What one result of the walk or the workers makes of the scan.
pub open spec fn accepted(state: ScanState, rules: WriteRules, result: WorkResult, now: i64) -> Result<
    ScanState,
    Seq<char>,
> {
    let counters = state.writer.counters;
    match result {
        WorkResult::Unchanged(path) => Ok(
            ScanState {
                index: indexing::seen_again(state.index, path@, now),
                writer: WriterView {
                    counters: ScanCounters {
                        unchanged: (counters.unchanged + 1) as u64,
                        ..counters
                    },
                    ..state.writer
                },
                ..state
            },
        ),
        WorkResult::Skipped => Ok(
            ScanState {
                writer: WriterView {
                    counters: ScanCounters { skipped: (counters.skipped + 1) as u64, ..counters },
                    ..state.writer
                },
                ..state
            },
        ),
        WorkResult::WalkError(path) => Ok(state.failed(path@, "directory unreadable"@)),
        WorkResult::Moved { path, file_id } => match indexing::repointed(
            state.index.files,
            rules.platform,
            file_id,
            path@,
            outside::texts(rules.protect@),
            now,
        ) {
            Err(error) => Err(error),
            Ok(files) => Ok(
                ScanState {
                    index: IndexView { files, ..state.index },
                    writer: WriterView {
                        counters: counters.with_outcome(IndexOutcome::Updated),
                        ..state.writer
                    },
                    ..state
                },
            ),
        },
        WorkResult::Processed(Err((path, error))) => Ok(state.failed(path@, error@)),
        WorkResult::Processed(Ok(entry)) => match entry@.quick_hash {
            None => state.wrote(rules, entry@, now),
            Some(quick) => match waiting_sibling(state.writer.pending, entry@) {
                Some(k) => Ok(
                    ScanState {
                        writer: WriterView {
                            pending: state.writer.pending.remove(k),
                            bucket: seq![entry@, state.writer.pending[k]],
                            ..state.writer
                        },
                        ..state
                    },
                ),
                None => if has_quick_sibling(
                    state.index.files,
                    entry@.size,
                    quick,
                    entry@.path,
                ) {
                    Ok(
                        ScanState {
                            writer: WriterView { bucket: seq![entry@], ..state.writer },
                            ..state
                        },
                    )
                } else {
                    Ok(
                        ScanState {
                            writer: WriterView {
                                pending: state.writer.pending.push(entry@),
                                ..state.writer
                            },
                            ..state
                        },
                    )
                },
            },
        },
    }
}

/// The index after the row of this path got its full hash.
pub open spec fn rehashed(index: IndexView, path: Seq<char>, hash: Seq<char>) -> IndexView {
    match model::at_path(index.files, path) {
        None => index,
        Some(i) => index.with_file(i, (FileView { hash, ..index.files[i] })),
    }
}

/// The state once the first entry of the bucket is settled: when it was the
/// last, the indexed rows with the same fingerprint follow.
pub open spec fn bucket_next(state: ScanState, entry: EntryView) -> ScanState {
    let rest = state.writer.bucket.skip(1);
    ScanState {
        writer: WriterView {
            bucket: rest,
            refresh: if rest.len() > 0 || entry.quick_hash is None {
                state.writer.refresh
            } else {
                row_paths(
                    state.index.files,
                    marked_rows(state.index.files, entry.size, entry.quick_hash->0),
                )
            },
            ..state.writer
        },
        ..state
    }
}

/// The file that needs its full hash next.
pub open spec fn wants_hash(writer: WriterView) -> Option<Seq<char>> {
    if writer.bucket.len() > 0 {
        Some(writer.bucket[0].path)
    } else if writer.refresh.len() > 0 {
        Some(writer.refresh[0])
    } else {
        None
    }
}

/// What the full hash of the wanted file, or the failure to compute it, makes
/// of the scan. A file that vanished is noted and the scan goes on.
pub open spec fn hashed(
    state: ScanState,
    rules: WriteRules,
    hash: Result<String, String>,
    now: i64,
) -> Result<ScanState, Seq<char>> {
    if state.writer.bucket.len() > 0 {
        let entry = state.writer.bucket[0];
        match hash {
            Err(error) => Ok(bucket_next(state.failed(entry.path, error@), entry)),
            Ok(full) => match state.wrote(rules, (EntryView { hash: full@, ..entry }), now) {
                Err(error) => Err(error),
                Ok(after) => Ok(bucket_next(after, entry)),
            },
        }
    } else if state.writer.refresh.len() > 0 {
        let path = state.writer.refresh[0];
        let after = match hash {
            Err(error) => state.failed(path, error@),
            Ok(full) => ScanState { index: rehashed(state.index, path, full@), ..state },
        };
        Ok(
            ScanState {
                writer: WriterView { refresh: after.writer.refresh.skip(1), ..after.writer },
                ..after
            },
        )
    } else {
        Ok(state)
    }
}

/// The hash under which a large file without a possible twin is stored: its
/// quick fingerprint, marked so that it is never taken for a full hash.
pub open spec fn marked_hash(quick: Seq<char>) -> Seq<char> {
    "q:"@ + quick
}

/// The scan after all waiting entries were written under their marked
/// fingerprints, up to the first that could not be.
pub open spec fn flushed(state: ScanState, rules: WriteRules, now: i64) -> (
    ScanState,
    Result<(), Seq<char>>,
)
    decreases state.writer.pending.len(),
{
    if state.writer.pending.len() == 0 {
        (state, Ok(()))
    } else {
        let entry = state.writer.pending[0];
        let rest = ScanState {
            writer: WriterView { pending: state.writer.pending.skip(1), ..state.writer },
            ..state
        };
        let quick = match entry.quick_hash {
            Some(quick) => quick,
            None => Seq::empty(),
        };
        match rest.wrote(rules, (EntryView { hash: marked_hash(quick), ..entry }), now) {
            Err(error) => (rest, Err(error)),
            Ok(after) => flushed(after, rules, now),
        }
    }
}

// ---------------------------------------------------------------------------
// The writer
// ---------------------------------------------------------------------------

fn find_quick_sibling(files: &Vec<FileRow>, size: i64, quick: &str, path: &str) -> (yes: bool)
    ensures
        yes == has_quick_sibling(model::file_rows(files@), size, quick@, path@),
{
    let ghost views = model::file_rows(files@);
    for p in 0..files.len()
        invariant
            views == model::file_rows(files@),
            forall|k: int|
                0 <= k < p ==> !((#[trigger] views[k]).size == size && views[k].quick_hash == Some(
                    quick@,
                ) && views[k].path != path@),
    {
        proof {
            assert(views[p as int] == files@[p as int]@);
        }
        if files[p].size == size {
            match &files[p].quick_hash {
                Some(own) => {
                    if same_text(own.as_str(), quick) && !same_text(files[p].path.as_str(), path) {
                        return true;
                    }
                },
                None => {},
            }
        }
    }
    false
}

fn hash_is_marked(hash: &str) -> (yes: bool)
    ensures
        yes == is_marked(hash@),
{
    let chars = chars_of(hash);
    chars.len() >= 2 && (chars[0] == 'q' || chars[0] == 'Q') && chars[1] == ':'
}

fn list_marked(files: &Vec<FileRow>, size: i64, quick: &str) -> (list: Vec<String>)
    ensures
        outside::texts(list@) == row_paths(
            model::file_rows(files@),
            marked_rows(model::file_rows(files@), size, quick@),
        ),
{
    let ghost views = model::file_rows(files@);
    let ghost keep = |p: int|
        views[p].size == size && views[p].quick_hash == Some(quick@) && is_marked(views[p].hash);
    let mut list: Vec<String> = Vec::new();
    proof {
        assert(outside::texts(list@) =~= row_paths(views, lists::positions(0, keep)));
    }
    for p in 0..files.len()
        invariant
            views == model::file_rows(files@),
            keep == (|p: int|
                views[p].size == size && views[p].quick_hash == Some(quick@) && is_marked(
                    views[p].hash,
                )),
            outside::texts(list@) == row_paths(views, lists::positions(p as nat, keep)),
    {
        let ghost before = lists::positions(p as nat, keep);
        let ghost list_before = list@;
        proof {
            assert(views[p as int] == files@[p as int]@);
        }
        let same = match &files[p].quick_hash {
            Some(own) => same_text(own.as_str(), quick),
            None => false,
        };
        if files[p].size == size && same && hash_is_marked(files[p].hash.as_str()) {
            list.push(files[p].path.clone());
            proof {
                assert(keep(p as int));
                assert(outside::texts(list@) =~= outside::texts(list_before).push(
                    views[p as int].path,
                ));
                assert(row_paths(views, before.push(p as int)) =~= row_paths(views, before).push(
                    views[p as int].path,
                ));
            }
        }
    }
    list
}

fn find_waiting(pending: &Vec<ProcessedEntry>, size: i64, quick: &str, Ghost(entry): Ghost<EntryView>) -> (
found: Option<usize>)
    requires
        entry.size == size,
        entry.quick_hash == Some(quick@),
    ensures
        model::position(found) == waiting_sibling(entry_list(pending@), entry),
        found is Some ==> found->0 < pending@.len(),
{
    let ghost views = entry_list(pending@);
    let ghost keep = |k: int| same_bucket(views[k], entry);
    proof {
        assert(lists::positions(0, keep).len() == 0);
    }
    for k in 0..pending.len()
        invariant
            views == entry_list(pending@),
            keep == (|k: int| same_bucket(views[k], entry)),
            entry.size == size,
            entry.quick_hash == Some(quick@),
            lists::positions(k as nat, keep).len() == 0,
    {
        proof {
            assert(views[k as int] == pending@[k as int]@);
        }
        let same = match &pending[k].quick_hash {
            Some(own) => same_text(own.as_str(), quick),
            None => false,
        };
        if pending[k].size == size && same {
            proof {
                assert(keep(k as int));
                assert(lists::positions((k + 1) as nat, keep) =~= seq![k as int]);
                lists::lemma_first_position(views.len(), keep, (k + 1) as nat);
            }
            return Some(k);
        }
    }
    None
}

pub open spec fn state_of(index: IndexView, writer: ScanWriter, log: ScanErrorLog) -> ScanState {
    ScanState { index, writer: writer@, log: log@ }
}

/// There is room in the counters for so many more items.
pub open spec fn has_room(writer: ScanWriter, log: ScanErrorLog, items: int) -> bool {
    writer.counters.sum() + items <= u64::MAX && log@.total + items <= u64::MAX
        && log@.recent.len() <= progress::SCAN_ERROR_SAMPLES
}

impl ScanWriter {
    pub fn new() -> (writer: ScanWriter)
        ensures
            writer@ == (WriterView {
                counters: ScanCounters { new: 0, unchanged: 0, updated: 0, skipped: 0, errors: 0 },
                pending: Seq::empty(),
                bucket: Seq::empty(),
                refresh: Seq::empty(),
            }),
    {
        let writer = ScanWriter {
            counters: ScanCounters { new: 0, unchanged: 0, updated: 0, skipped: 0, errors: 0 },
            pending: Vec::new(),
            bucket: Vec::new(),
            refresh: Vec::new(),
        };
        proof {
            assert(writer@.pending =~= Seq::empty());
            assert(writer@.bucket =~= Seq::empty());
            assert(writer@.refresh =~= Seq::empty());
        }
        writer
    }

    fn write(
        &mut self,
        index: &mut Index,
        rules: &WriteRules,
        entry: &ProcessedEntry,
        now: i64,
        Ghost(log): Ghost<ErrorLogView>,
    ) -> (result: Result<(), String>)
        requires
            old(index).wf(),
            old(self).counters.sum() < u64::MAX,
        ensures
            final(index).wf(),
            ({
                let before = ScanState { index: old(index)@, writer: old(self)@, log };
                let after = ScanState { index: final(index)@, writer: final(self)@, log };
                match before.wrote(*rules, entry@, now) {
                    Err(error) => result is Err && result->Err_0@ == error && after == before,
                    Ok(state) => result is Ok && after == state,
                }
            }),
            final(self).counters.sum() <= old(self).counters.sum() + 1,
            final(self).pending == old(self).pending,
            final(self).bucket == old(self).bucket,
            final(self).refresh == old(self).refresh,
    {
        match write_entry(index, rules.platform, entry, rules.protect.as_slice(), now) {
            Err(error) => Err(error),
            Ok(IndexOutcome::New) => {
                self.counters.new = self.counters.new + 1;
                Ok(())
            },
            Ok(IndexOutcome::Updated) => {
                self.counters.updated = self.counters.updated + 1;
                Ok(())
            },
        }
    }

    /// Take in one result of the walk or the workers. The hashes that an
    /// earlier result asked for come first.
    pub fn accept(
        &mut self,
        index: &mut Index,
        log: &mut ScanErrorLog,
        rules: &WriteRules,
        result: WorkResult,
        now: i64,
    ) -> (outcome: Result<(), String>)
        requires
            old(index).wf(),
            has_room(*old(self), *old(log), 1),
            wants_hash(old(self)@) is None,
        ensures
            final(index).wf(),
            match accepted(
                state_of(old(index)@, *old(self), *old(log)),
                *rules,
                result,
                now,
            ) {
                Err(error) => outcome is Err && outcome->Err_0@ == error && state_of(
                    final(index)@,
                    *final(self),
                    *final(log),
                ) == state_of(old(index)@, *old(self), *old(log)),
                Ok(state) => outcome is Ok && state_of(final(index)@, *final(self), *final(log))
                    == state,
            },
    {
        match result {
            WorkResult::Unchanged(path) => {
                mark_unchanged(index, path.as_str(), now);
                self.counters.unchanged = self.counters.unchanged + 1;
                Ok(())
            },
            WorkResult::Skipped => {
                self.counters.skipped = self.counters.skipped + 1;
                Ok(())
            },
            WorkResult::WalkError(path) => {
                self.counters.errors = self.counters.errors + 1;
                log.record(path.as_str(), "directory unreadable");
                Ok(())
            },
            WorkResult::Moved { path, file_id } => {
                match mark_moved(
                    index,
                    rules.platform,
                    file_id,
                    path.as_str(),
                    rules.protect.as_slice(),
                    now,
                ) {
                    Err(error) => return Err(error),
                    Ok(_) => {},
                }
                self.counters.updated = self.counters.updated + 1;
                Ok(())
            },
            WorkResult::Processed(Err((path, error))) => {
                self.counters.errors = self.counters.errors + 1;
                log.record(path.as_str(), error.as_str());
                Ok(())
            },
            WorkResult::Processed(Ok(entry)) => {
                let ghost view = entry@;
                let quick = match &entry.quick_hash {
                    None => {
                        let done = self.write(index, rules, &entry, now, Ghost(log@));
                        return done;
                    },
                    Some(quick) => quick.clone(),
                };
                match find_waiting(&self.pending, entry.size, quick.as_str(), Ghost(view)) {
                    Some(k) => {
                        let ghost waiting = self.pending@;
                        proof {
                            assert(entry_list(waiting)[k as int] == waiting[k as int]@);
                        }
                        let sibling = self.pending.remove(k);
                        let mut bucket: Vec<ProcessedEntry> = Vec::new();
                        bucket.push(entry);
                        bucket.push(sibling);
                        self.bucket = bucket;
                        proof {
                            assert(entry_list(self.pending@) =~= entry_list(waiting).remove(
                                k as int,
                            ));
                            assert(entry_list(self.bucket@) =~= seq![
                                view,
                                entry_list(waiting)[k as int],
                            ]);
                        }
                    },
                    None => {
                        if find_quick_sibling(
                            &index.files,
                            entry.size,
                            quick.as_str(),
                            entry.path_text.as_str(),
                        ) {
                            let mut bucket: Vec<ProcessedEntry> = Vec::new();
                            bucket.push(entry);
                            self.bucket = bucket;
                            proof {
                                assert(entry_list(self.bucket@) =~= seq![view]);
                            }
                        } else {
                            let ghost waiting = self.pending@;
                            self.pending.push(entry);
                            proof {
                                assert(entry_list(self.pending@) =~= entry_list(waiting).push(view));
                            }
                        }
                    },
                }
                Ok(())
            },
        }
    }

    /// The file that needs its full hash next.
    pub fn next_hash(&self) -> (path: Option<String>)
        ensures
            model::text_option(path) == wants_hash(self@),
    {
        proof {
            assert(self@.bucket.len() == self.bucket@.len());
            assert(self@.refresh.len() == self.refresh@.len());
        }
        if self.bucket.len() > 0 {
            proof {
                assert(self@.bucket[0] == self.bucket@[0]@);
            }
            Some(self.bucket[0].path_text.clone())
        } else if self.refresh.len() > 0 {
            proof {
                assert(self@.refresh[0] == self.refresh@[0]@);
            }
            Some(self.refresh[0].clone())
        } else {
            None
        }
    }

    /// Take in the full hash of the wanted file, or why there is none.
    pub fn hashed(
        &mut self,
        index: &mut Index,
        log: &mut ScanErrorLog,
        rules: &WriteRules,
        hash: Result<String, String>,
        now: i64,
    ) -> (outcome: Result<(), String>)
        requires
            old(index).wf(),
            has_room(*old(self), *old(log), 1),
        ensures
            final(index).wf(),
            match hashed(state_of(old(index)@, *old(self), *old(log)), *rules, hash, now) {
                Err(error) => {
                    &&& outcome is Err
                    &&& outcome->Err_0@ == error
                    &&& final(index)@ == old(index)@
                    &&& final(log)@ == old(log)@
                    &&& final(self)@ == (WriterView {
                        bucket: old(self)@.bucket.skip(1),
                        ..old(self)@
                    })
                },
                Ok(state) => outcome is Ok && state_of(final(index)@, *final(self), *final(log))
                    == state,
            },
    {
        let ghost start = state_of(index@, *self, *log);
        proof {
            assert(self@.bucket.len() == self.bucket@.len());
            assert(self@.refresh.len() == self.refresh@.len());
        }
        if self.bucket.len() > 0 {
            let ghost entries = self.bucket@;
            proof {
                assert(start.writer.bucket[0] == entries[0]@);
            }
            let mut entry = self.bucket.remove(0);
            let ghost view = entry@;
            proof {
                assert(entry_list(self.bucket@) =~= start.writer.bucket.skip(1));
            }
            match hash {
                Err(error) => {
                    self.counters.errors = self.counters.errors + 1;
                    log.record(entry.path_text.as_str(), error.as_str());
                },
                Ok(full) => {
                    entry.hash = full;
                    match self.write(index, rules, &entry, now, Ghost(log@)) {
                        Err(error) => return Err(error),
                        Ok(_) => {},
                    }
                },
            }
            if self.bucket.len() == 0 {
                match &entry.quick_hash {
                    Some(quick) => {
                        self.refresh = list_marked(&index.files, entry.size, quick.as_str());
                    },
                    None => {},
                }
            }
        } else if self.refresh.len() > 0 {
            let ghost paths = self.refresh@;
            proof {
                assert(start.writer.refresh[0] == paths[0]@);
            }
            let path = self.refresh.remove(0);
            proof {
                assert(outside::texts(self.refresh@) =~= start.writer.refresh.skip(1));
            }
            match hash {
                Err(error) => {
                    self.counters.errors = self.counters.errors + 1;
                    log.record(path.as_str(), error.as_str());
                },
                Ok(full) => {
                    set_row_hash(index, path.as_str(), full);
                },
            }
        }
        Ok(())
    }

    /// Write what is still waiting under marked fingerprints: these files are
    /// unique for now.
    pub fn flush(
        &mut self,
        index: &mut Index,
        log: &ScanErrorLog,
        rules: &WriteRules,
        now: i64,
    ) -> (outcome: Result<(), String>)
        requires
            old(index).wf(),
            old(self).counters.sum() + old(self).pending@.len() <= u64::MAX,
        ensures
            final(index).wf(),
            flushed(state_of(old(index)@, *old(self), *log), *rules, now) == (
                state_of(final(index)@, *final(self), *log),
                outside::message_of(outcome),
            ),
    {
        let ghost goal = flushed(state_of(index@, *self, *log), *rules, now);
        while self.pending.len() > 0
            invariant
                index.wf(),
                self.counters.sum() + self.pending@.len() <= u64::MAX,
                goal == flushed(state_of(index@, *self, *log), *rules, now),
                goal == flushed(state_of(old(index)@, *old(self), *log), *rules, now),
            decreases self.pending@.len(),
        {
            let ghost state = state_of(index@, *self, *log);
            let ghost waiting = self.pending@;
            proof {
                assert(state.writer.pending.len() == waiting.len());
                assert(state.writer.pending[0] == waiting[0]@);
            }
            let mut entry = self.pending.remove(0);
            let ghost view = entry@;
            proof {
                assert(entry_list(self.pending@) =~= state.writer.pending.skip(1));
            }
            let marked = match &entry.quick_hash {
                Some(quick) => joined("q:", quick.as_str()),
                None => {
                    let none = String::new();
                    proof {
                        assert(none@ =~= Seq::<char>::empty());
                    }
                    joined("q:", none.as_str())
                },
            };
            entry.hash = marked;
            match self.write(index, rules, &entry, now, Ghost(log@)) {
                Err(error) => return Err(error),
                Ok(_) => {},
            }
        }
        proof {
            assert(self@.pending.len() == 0);
        }
        Ok(())
    }
}

fn set_row_hash(index: &mut Index, path: &str, hash: String)
    requires
        old(index).wf(),
    ensures
        final(index).wf(),
        final(index)@ == rehashed(old(index)@, path@, hash@),
{
    let ghost before = index@;
    match find_path(&index.files, path) {
        None => {},
        Some(i) => {
            proof {
                assert(before.files[i as int] == index.files@[i as int]@);
            }
            index.files[i].hash = hash;
            proof {
                let row = FileView { hash: hash@, ..before.files[i as int] };
                assert(index@.files =~= before.files.update(i as int, row));
                model::lemma_wf_with_file(before, i as int, row);
                assert(index@ == before.with_file(i as int, row));
            }
        },
    }
}

// ---------------------------------------------------------------------------
// Laws of two-stage hashing
// ---------------------------------------------------------------------------

/// A marked fingerprint is never the hash of a content: full hashes consist
/// of hexadecimal digits.
pub proof fn law_marked_hash_is_no_content_hash(quick: Seq<char>, bytes: Seq<u8>)
    ensures
        is_marked(marked_hash(quick)),
        marked_hash(quick) != crate::hashing::content_hash(bytes),
{
    reveal_strlit("q:");
    let marked = marked_hash(quick);
    assert(marked[0] == 'q');
    assert(marked[1] == ':');
    let digest = outside::blake3_digest(bytes);
    if marked == crate::hashing::hex(digest) {
        crate::hashing::lemma_hex_length(digest);
        lemma_hex_digits(digest, 0);
    }
}

proof fn lemma_hex_digits(bytes: Seq<u8>, k: int)
    requires
        0 <= k < 2 * bytes.len(),
    ensures
        0 <= k < crate::hashing::hex(bytes).len(),
        crate::hashing::hex(bytes)[k] != 'q',
        crate::hashing::hex(bytes)[k] != ':',
    decreases bytes.len(),
{
    crate::hashing::lemma_hex_length(bytes);
    let front = bytes.drop_last();
    crate::hashing::lemma_hex_length(front);
    if k < 2 * front.len() {
        lemma_hex_digits(front, k);
        assert(crate::hashing::hex(bytes)[k] == crate::hashing::hex(front)[k]);
    } else {
        let high = bytes.last() as int / 16;
        let low = bytes.last() as int % 16;
        assert(0 <= high < 16);
        assert(0 <= low < 16);
    }
}

/// Two waiting large files never share size and fingerprint: the second one
/// that comes wakes the first.
pub open spec fn waiting_apart(pending: Seq<EntryView>) -> bool {
    &&& forall|k: int| 0 <= k < pending.len() ==> (#[trigger] pending[k]).quick_hash is Some
    &&& forall|i: int, j: int|
        0 <= i < j < pending.len() ==> !same_bucket(#[trigger] pending[i], #[trigger] pending[j])
}

/// Taking in results keeps the waiting files apart.
pub proof fn law_waiting_files_stay_apart(
    state: ScanState,
    rules: WriteRules,
    result: WorkResult,
    now: i64,
)
    requires
        waiting_apart(state.writer.pending),
        accepted(state, rules, result, now) is Ok,
    ensures
        waiting_apart(accepted(state, rules, result, now)->Ok_0.writer.pending),
{
    let after = accepted(state, rules, result, now)->Ok_0;
    let pending = state.writer.pending;
    match result {
        WorkResult::Processed(Ok(entry)) => {
            let keep = |k: int| same_bucket(pending[k], entry@);
            lists::lemma_positions(pending.len(), keep);
            match waiting_sibling(pending, entry@) {
                Some(k) => {
                    assert(keep(k));
                    if entry@.quick_hash is Some {
                        let next = pending.remove(k);
                        assert forall|i: int, j: int| 0 <= i < j < next.len() implies !same_bucket(
                            #[trigger] next[i],
                            #[trigger] next[j],
                        ) by {
                            let a = if i < k {
                                i
                            } else {
                                i + 1
                            };
                            let b = if j < k {
                                j
                            } else {
                                j + 1
                            };
                            assert(next[i] == pending[a]);
                            assert(next[j] == pending[b]);
                        }
                    }
                },
                None => {
                    assert forall|i: int| 0 <= i < pending.len() implies !same_bucket(
                        #[trigger] pending[i],
                        entry@,
                    ) by {
                        if keep(i) {
                            assert(lists::positions(pending.len(), keep).contains(i));
                        }
                    }
                },
            }
        },
        _ => {},
    }
}

/// A large file is stored at once only where neither a waiting file nor an
/// indexed one could be its twin; in every other case it gets its full hash
/// before it is written.
pub proof fn law_possible_twins_get_full_hashes(
    state: ScanState,
    rules: WriteRules,
    entry: ProcessedEntry,
    now: i64,
)
    requires
        entry@.quick_hash is Some,
        exists|k: int|
            0 <= k < state.writer.pending.len() && same_bucket(
                #[trigger] state.writer.pending[k],
                entry@,
            ) || has_quick_sibling(
                state.index.files,
                entry@.size,
                entry@.quick_hash->0,
                entry@.path,
            ),
    ensures
        ({
            let after = accepted(state, rules, WorkResult::Processed(Ok(entry)), now);
            &&& after is Ok
            &&& after->Ok_0.index == state.index
            &&& wants_hash(after->Ok_0.writer) == Some(entry@.path)
        }),
{
    let pending = state.writer.pending;
    let keep = |k: int| same_bucket(pending[k], entry@);
    lists::lemma_positions(pending.len(), keep);
    if exists|k: int| 0 <= k < pending.len() && same_bucket(#[trigger] pending[k], entry@) {
        let k = choose|k: int| 0 <= k < pending.len() && same_bucket(#[trigger] pending[k], entry@);
        assert(keep(k));
        assert(lists::positions(pending.len(), keep).contains(k));
    }
}

/// No large file is lost on its way: once a result is taken in, its entry and
/// every entry that was waiting still wait or are about to be hashed in full.
pub proof fn law_no_large_file_is_lost(
    state: ScanState,
    rules: WriteRules,
    entry: ProcessedEntry,
    now: i64,
    held: EntryView,
)
    requires
        entry@.quick_hash is Some,
        held == entry@ || state.writer.pending.contains(held),
    ensures
        ({
            let after = accepted(state, rules, WorkResult::Processed(Ok(entry)), now);
            &&& after is Ok
            &&& after->Ok_0.writer.pending.contains(held) || after->Ok_0.writer.bucket.contains(
                held,
            )
        }),
{
    let pending = state.writer.pending;
    let after = accepted(state, rules, WorkResult::Processed(Ok(entry)), now)->Ok_0.writer;
    let keep = |k: int| same_bucket(pending[k], entry@);
    lists::lemma_positions(pending.len(), keep);
    if held == entry@ {
        match waiting_sibling(pending, entry@) {
            Some(_) => {
                assert(after.bucket[0] == held);
            },
            None => if has_quick_sibling(
                state.index.files,
                entry@.size,
                entry@.quick_hash->0,
                entry@.path,
            ) {
                assert(after.bucket[0] == held);
            } else {
                assert(after.pending[pending.len() as int] == held);
            },
        }
    } else {
        let m = choose|m: int| 0 <= m < pending.len() && pending[m] == held;
        match waiting_sibling(pending, entry@) {
            Some(k) => if m == k {
                assert(after.bucket[1] == held);
            } else if m < k {
                assert(after.pending[m] == held);
            } else {
                assert(after.pending[m - 1] == held);
            },
            None => {
                assert(after.pending[m] == held);
            },
        }
    }
}

// ---------------------------------------------------------------------------
// Laws of failures
// ---------------------------------------------------------------------------

/// What is handed to the writer.
pub enum WriterEvent {
    /// A result of the walk or the workers.
    Result(WorkResult),
    /// The full hash of the wanted file, or why there is none.
    Hash(Result<String, String>),
    /// The end of a root.
    Flush,
}

/// What one event makes of the scan.
pub open spec fn stepped(state: ScanState, rules: WriteRules, event: WriterEvent, now: i64) -> Result<
    ScanState,
    Seq<char>,
> {
    match event {
        WriterEvent::Result(result) => accepted(state, rules, result, now),
        WriterEvent::Hash(hash) => hashed(state, rules, hash, now),
        WriterEvent::Flush => match flushed(state, rules, now) {
            (after, Ok(_)) => Ok(after),
            (_, Err(error)) => Err(error),
        },
    }
}

/// What a sequence of events makes of the scan, up to the first that the
/// index refuses.
pub open spec fn ran(state: ScanState, rules: WriteRules, events: Seq<(WriterEvent, i64)>) -> Result<
    ScanState,
    Seq<char>,
>
    decreases events.len(),
{
    if events.len() == 0 {
        Ok(state)
    } else {
        match ran(state, rules, events.drop_last()) {
            Err(error) => Err(error),
            Ok(before) => stepped(before, rules, events.last().0, events.last().1),
        }
    }
}

/// The file that could not be read, and why, where the event is such news.
pub open spec fn failure_in(state: ScanState, event: WriterEvent) -> Option<
    (Seq<char>, Seq<char>),
> {
    match event {
        WriterEvent::Result(WorkResult::WalkError(path)) => Some(
            (path@, "directory unreadable"@),
        ),
        WriterEvent::Result(WorkResult::Processed(Err((path, error)))) => Some((path@, error@)),
        WriterEvent::Hash(Err(error)) => match wants_hash(state.writer) {
            Some(path) => Some((path, error@)),
            None => None,
        },
        _ => None,
    }
}

/// The failures among the events, in order.
pub open spec fn failures_in(
    state: ScanState,
    rules: WriteRules,
    events: Seq<(WriterEvent, i64)>,
) -> Seq<(Seq<char>, Seq<char>)>
    decreases events.len(),
{
    if events.len() == 0 {
        Seq::empty()
    } else {
        let front = failures_in(state, rules, events.drop_last());
        match ran(state, rules, events.drop_last()) {
            Err(_) => front,
            Ok(before) => match failure_in(before, events.last().0) {
                Some(failure) => front.push(failure),
                None => front,
            },
        }
    }
}

/// A file that cannot be read stops nothing: it is counted and noted, no row
/// changes, and all other files that wait for something still do.
pub proof fn law_a_failed_file_changes_no_row(
    state: ScanState,
    rules: WriteRules,
    event: WriterEvent,
    now: i64,
)
    requires
        failure_in(state, event) is Some,
        state.writer.counters.errors < u64::MAX,
    ensures
        ({
            let after = stepped(state, rules, event, now);
            let (path, error) = failure_in(state, event)->0;
            &&& after is Ok
            &&& after->Ok_0.index == state.index
            &&& after->Ok_0.log == state.log.with(path, error)
            &&& after->Ok_0.writer.counters == (ScanCounters {
                errors: (state.writer.counters.errors + 1) as u64,
                ..state.writer.counters
            })
            &&& after->Ok_0.writer.pending == state.writer.pending
            &&& after->Ok_0.writer.bucket == (if event is Hash && state.writer.bucket.len() > 0 {
                state.writer.bucket.skip(1)
            } else {
                state.writer.bucket
            })
        }),
{
}

proof fn lemma_flush_fails_nothing(state: ScanState, rules: WriteRules, now: i64)
    ensures
        ({
            let after = flushed(state, rules, now).0;
            &&& after.log == state.log
            &&& after.writer.counters.errors == state.writer.counters.errors
        }),
    decreases state.writer.pending.len(),
{
    if state.writer.pending.len() > 0 {
        let entry = state.writer.pending[0];
        let rest = ScanState {
            writer: WriterView { pending: state.writer.pending.skip(1), ..state.writer },
            ..state
        };
        let quick = match entry.quick_hash {
            Some(quick) => quick,
            None => Seq::empty(),
        };
        match rest.wrote(rules, (EntryView { hash: marked_hash(quick), ..entry }), now) {
            Err(_) => {},
            Ok(after) => {
                lemma_flush_fails_nothing(after, rules, now);
            },
        }
    }
}

/// Over any run of events, the error counter and the log grow by exactly the
/// files that could not be read: each adds one error, with its path, and
/// nothing else does. A log that was empty before holds the latest of them.
pub proof fn law_errors_and_log_agree(
    state: ScanState,
    rules: WriteRules,
    events: Seq<(WriterEvent, i64)>,
)
    requires
        state.writer.counters.errors + events.len() <= u64::MAX,
        ran(state, rules, events) is Ok,
    ensures
        ({
            let end = ran(state, rules, events)->Ok_0;
            let failures = failures_in(state, rules, events);
            &&& failures.len() <= events.len()
            &&& end.writer.counters.errors == state.writer.counters.errors + failures.len()
            &&& end.log.total == state.log.total + failures.len()
            &&& end.log.total - state.log.total == end.writer.counters.errors
                - state.writer.counters.errors
            &&& state.log == ErrorLogView::of(Seq::empty()) ==> end.log == ErrorLogView::of(
                failures,
            )
        }),
    decreases events.len(),
{
    if events.len() > 0 {
        let front = events.drop_last();
        law_errors_and_log_agree(state, rules, front);
        let before = ran(state, rules, front)->Ok_0;
        let (event, now) = events.last();
        let noted = failures_in(state, rules, front);
        match failure_in(before, event) {
            Some((path, error)) => {
                law_a_failed_file_changes_no_row(before, rules, event, now);
                progress::law_log_keeps_the_latest(noted, path, error);
            },
            None => {
                lemma_flush_fails_nothing(before, rules, now);
            },
        }
    }
}

// ---------------------------------------------------------------------------
// The scan as a whole
// ---------------------------------------------------------------------------

/// The live images without a fingerprint.
pub open spec fn unprinted_images(index: IndexView, platform: Platform) -> Seq<int> {
    lists::positions(
        index.files.len(),
        |p: int|
            index.files[p].present && !index.photos.contains_key(index.files[p].id)
                && paths::image_path(platform, index.files[p].path),
    )
}

/// How many images the next scan will fingerprint again.
pub fn count_fingerprint_rebuild(index: &Index, platform: Platform) -> (n: u64)
    requires
        index.wf(),
    ensures
        n == unprinted_images(index@, platform).len(),
{
    let files = &index.files;
    let ghost views = index@.files;
    let ghost keep = |p: int|
        views[p].present && !index@.photos.contains_key(views[p].id) && paths::image_path(
            platform,
            views[p].path,
        );
    let mut n: u64 = 0;
    for p in 0..files.len()
        invariant
            index.wf(),
            views == model::file_rows(files@),
            views == index@.files,
            keep == (|p: int|
                views[p].present && !index@.photos.contains_key(views[p].id) && paths::image_path(
                    platform,
                    views[p].path,
                )),
            n <= p,
            n == lists::positions(p as nat, keep).len(),
    {
        proof {
            assert(views[p as int] == files@[p as int]@);
            model::lemma_file_count(views, p as int);
        }
        if files[p].present && !index.photos.contains_key(&files[p].id) && is_image_path(
            platform,
            files[p].path.as_str(),
        ) {
            n = n + 1;
        }
    }
    n
}

/// How many files are hashed at the same time: as the machine allows, at most
/// four, and two where it does not say.
pub fn hash_workers(parallelism: Option<usize>) -> (count: usize)
    ensures
        count == match parallelism {
            None => 2,
            Some(n) => if n < 4 {
                n
            } else {
                4
            },
        },
{
    match parallelism {
        None => 2,
        Some(n) => if n < 4 {
            n
        } else {
            4
        },
    }
}

/// Outcome of one scan.
pub struct ScanSummary {
    pub new: u64,
    pub unchanged: u64,
    pub updated: u64,
    pub skipped: u64,
    pub errors: u64,
    pub missing: u64,
    /// Recycled files deleted because they were kept too long.
    pub pruned: u64,
    /// Rows forgotten after long absence.
    pub index_pruned: u64,
    /// Images that had no fingerprint when the scan began.
    pub fingerprint_rebuild: u64,
    pub failed_roots: Vec<String>,
}

/// Where a scan stands.
#[derive(Clone, Copy, Debug, PartialEq, Eq, Structural)]
pub enum ScanStage {
    /// The next root is due.
    Ready,
    /// Waiting to hear whether the root is a directory.
    Inspecting,
    /// The root is being walked.
    Walking,
    /// Expired recycled files are being deleted.
    Expiring,
    Finished,
}

/// A scan in progress.
pub struct Scan {
    pub platform: Platform,
    pub trash: String,
    pub roots: Vec<String>,
    pub protect: Vec<String>,
    pub exclude: Vec<String>,
    pub min_file_size: u64,
    pub started: i64,
    pub stage: ScanStage,
    /// The root that is due.
    pub at: usize,
    pub scanned_roots: Vec<String>,
    pub failed_roots: Vec<String>,
    pub missing: u64,
    pub fingerprint_rebuild: u64,
    pub counters: ScanCounters,
}

pub struct ScanView {
    pub platform: Platform,
    pub trash: Seq<char>,
    pub roots: Seq<Seq<char>>,
    pub protect: Seq<Seq<char>>,
    pub exclude: Seq<Seq<char>>,
    pub min_file_size: u64,
    pub started: i64,
    pub stage: ScanStage,
    pub at: int,
    pub scanned_roots: Seq<Seq<char>>,
    pub failed_roots: Seq<Seq<char>>,
    pub missing: int,
    pub fingerprint_rebuild: int,
    pub counters: ScanCounters,
}

impl View for Scan {
    type V = ScanView;

    open spec fn view(&self) -> ScanView {
        ScanView {
            platform: self.platform,
            trash: self.trash@,
            roots: outside::texts(self.roots@),
            protect: outside::texts(self.protect@),
            exclude: outside::texts(self.exclude@),
            min_file_size: self.min_file_size,
            started: self.started,
            stage: self.stage,
            at: self.at as int,
            scanned_roots: outside::texts(self.scanned_roots@),
            failed_roots: outside::texts(self.failed_roots@),
            missing: self.missing as int,
            fingerprint_rebuild: self.fingerprint_rebuild as int,
            counters: self.counters,
        }
    }
}

impl Scan {
    pub open spec fn wf(self) -> bool {
        self.at <= self.roots@.len()
    }
}

pub open spec fn no_counts() -> ScanCounters {
    ScanCounters { new: 0, unchanged: 0, updated: 0, skipped: 0, errors: 0 }
}

/// A scan that is about to begin.
pub open spec fn begun(
    index: IndexView,
    platform: Platform,
    trash: Seq<char>,
    roots: Seq<Seq<char>>,
    protect: Seq<Seq<char>>,
    exclude: Seq<Seq<char>>,
    min_file_size: u64,
    now: i64,
) -> ScanView {
    ScanView {
        platform,
        trash,
        roots,
        protect,
        exclude,
        min_file_size,
        started: now,
        stage: ScanStage::Ready,
        at: 0,
        scanned_roots: Seq::empty(),
        failed_roots: Seq::empty(),
        missing: 0,
        fingerprint_rebuild: unprinted_images(index, platform).len() as int,
        counters: no_counts(),
    }
}

/// How the start of a scan ends: refused where the index cannot be used or
/// has no recycle bin.
pub open spec fn scan_started(
    before: IndexView,
    after: IndexView,
    scan: Result<ScanView, Seq<char>>,
    platform: Platform,
    roots: Seq<Seq<char>>,
    protect: Seq<Seq<char>>,
    exclude: Seq<Seq<char>>,
    min_file_size: u64,
    now: i64,
) -> bool {
    match settings::opened(before) {
        Err(error) => scan == Err::<ScanView, Seq<char>>(error) && after == before,
        Ok(usable) => after == usable && scan == match usable.setting("trash_path"@) {
            None => Err::<ScanView, Seq<char>>(settings::not_initialized()),
            Some(trash) => Ok::<ScanView, Seq<char>>(
                begun(usable, platform, trash, roots, protect, exclude, min_file_size, now),
            ),
        },
    }
}

pub open spec fn scan_result(scan: Result<Scan, String>) -> Result<ScanView, Seq<char>> {
    match scan {
        Ok(s) => Ok(s@),
        Err(error) => Err(error@),
    }
}

fn copy_texts(values: &[String]) -> (copy: Vec<String>)
    ensures
        outside::texts(copy@) == outside::texts(values@),
{
    let mut copy: Vec<String> = Vec::new();
    for i in 0..values.len()
        invariant
            copy@.len() == i,
            forall|k: int| 0 <= k < i ==> (#[trigger] copy@[k])@ == values@[k]@,
    {
        copy.push(values[i].clone());
    }
    proof {
        assert(outside::texts(copy@) =~= outside::texts(values@));
    }
    copy
}

/// Begin a scan of absolute roots under rules of the user: files that a
/// protection rule covers are marked protected, directories and files that an
/// exclusion rule covers and files below the minimum size are left out.
pub fn scan_with_options(
    index: &mut Index,
    platform: Platform,
    roots: &[String],
    protect: &[String],
    exclude: &[String],
    min_file_size: u64,
    now: i64,
) -> (scan: Result<Scan, String>)
    requires
        old(index).wf(),
    ensures
        final(index).wf(),
        scan is Ok ==> scan->Ok_0.wf(),
        scan_started(
            old(index)@,
            final(index)@,
            scan_result(scan),
            platform,
            outside::texts(roots@),
            outside::texts(protect@),
            outside::texts(exclude@),
            min_file_size,
            now,
        ),
{
    match ensure_initialized(index) {
        Err(error) => return Err(error),
        Ok(_) => {},
    }
    let trash = match required_setting(index, "trash_path") {
        Err(error) => return Err(error),
        Ok(trash) => trash,
    };
    let fingerprint_rebuild = count_fingerprint_rebuild(index, platform);
    let scan = Scan {
        platform,
        trash,
        roots: copy_texts(roots),
        protect: copy_texts(protect),
        exclude: copy_texts(exclude),
        min_file_size,
        started: now,
        stage: ScanStage::Ready,
        at: 0,
        scanned_roots: Vec::new(),
        failed_roots: Vec::new(),
        missing: 0,
        fingerprint_rebuild,
        counters: ScanCounters { new: 0, unchanged: 0, updated: 0, skipped: 0, errors: 0 },
    };
    proof {
        assert(scan@.scanned_roots =~= Seq::empty());
        assert(scan@.failed_roots =~= Seq::empty());
    }
    Ok(scan)
}

/// Begin a scan without exclusions and without a minimum size.
pub fn scan(
    index: &mut Index,
    platform: Platform,
    roots: &[String],
    protect: &[String],
    now: i64,
) -> (scan: Result<Scan, String>)
    requires
        old(index).wf(),
    ensures
        final(index).wf(),
        scan is Ok ==> scan->Ok_0.wf(),
        scan_started(
            old(index)@,
            final(index)@,
            scan_result(scan),
            platform,
            outside::texts(roots@),
            outside::texts(protect@),
            Seq::empty(),
            0,
            now,
        ),
{
    let none: Vec<String> = Vec::new();
    proof {
        assert(outside::texts(none@) =~= Seq::empty());
    }
    scan_with_options(index, platform, roots, protect, none.as_slice(), 0, now)
}

/// What the disk, or the work that a scan asked for, answered.
pub enum ScanReply {
    Nothing,
    RootIsDirectory(bool),
    /// The root was walked and everything written; the counters so far.
    RootDone(ScanCounters),
    /// So many expired recycled files were deleted.
    Expired(u64),
}

/// What a scan needs next.
pub enum ScanStep {
    InspectRoot(String),
    WalkRoot(String),
    /// Delete what has been in the recycle bin for too long.
    Expire(Batch),
    Done(ScanSummary),
}

pub enum ScanStepView {
    InspectRoot(Seq<char>),
    WalkRoot(Seq<char>),
    Expire(batch::BatchView),
    Done(SummaryView),
}

pub struct SummaryView {
    pub counters: ScanCounters,
    pub missing: int,
    pub pruned: int,
    pub index_pruned: int,
    pub fingerprint_rebuild: int,
    pub failed_roots: Seq<Seq<char>>,
}

impl View for ScanSummary {
    type V = SummaryView;

    open spec fn view(&self) -> SummaryView {
        SummaryView {
            counters: ScanCounters {
                new: self.new,
                unchanged: self.unchanged,
                updated: self.updated,
                skipped: self.skipped,
                errors: self.errors,
            },
            missing: self.missing as int,
            pruned: self.pruned as int,
            index_pruned: self.index_pruned as int,
            fingerprint_rebuild: self.fingerprint_rebuild as int,
            failed_roots: outside::texts(self.failed_roots@),
        }
    }
}

impl View for ScanStep {
    type V = ScanStepView;

    open spec fn view(&self) -> ScanStepView {
        match *self {
            ScanStep::InspectRoot(root) => ScanStepView::InspectRoot(root@),
            ScanStep::WalkRoot(root) => ScanStepView::WalkRoot(root@),
            ScanStep::Expire(batch) => ScanStepView::Expire(batch@),
            ScanStep::Done(summary) => ScanStepView::Done(summary@),
        }
    }
}

/// A scan moved on, the index with it, and what comes next.
pub struct Controlled {
    pub scan: ScanView,
    pub index: IndexView,
    pub step: Result<ScanStepView, Seq<char>>,
}

/// The batch that deletes what has been in the bin for too long.
pub open spec fn expiry_batch(index: IndexView, now: i64) -> batch::BatchView {
    batch::fresh(
        batch::bin_tasks(
            batch::BinKind::Expire,
            bin::operation_ids(index.operations, bin::expired(index, now)),
        ),
        None,
        false,
    )
}

/// The next root, or, after the last one, the files that went missing.
pub open spec fn to_next_root(scan: ScanView, index: IndexView, cancelled: bool, now: i64) -> Controlled {
    if scan.at < scan.roots.len() {
        if cancelled {
            Controlled { scan, index, step: Err(walk::cancelled_message()) }
        } else {
            Controlled {
                scan: ScanView { stage: ScanStage::Inspecting, ..scan },
                index,
                step: Ok(ScanStepView::InspectRoot(scan.roots[scan.at])),
            }
        }
    } else {
        let after = IndexView {
            files: indexing::without_missing(
                scan.platform,
                index.files,
                scan.scanned_roots,
                scan.started,
            ),
            ..index
        };
        Controlled {
            scan: ScanView {
                stage: ScanStage::Expiring,
                missing: indexing::missing_rows(
                    scan.platform,
                    index.files,
                    scan.scanned_roots,
                    scan.started,
                ).len() as int,
                ..scan
            },
            index: after,
            step: Ok(ScanStepView::Expire(expiry_batch(after, now))),
        }
    }
}

/// The end of a scan: long absent rows are forgotten and the time is noted.
pub open spec fn to_end(scan: ScanView, index: IndexView, expired: u64, now: i64) -> Controlled {
    let kept = indexing::pruned(index, now);
    Controlled {
        scan: ScanView { stage: ScanStage::Finished, ..scan },
        index: kept.with_setting("last_scan_at"@, text::decimal(now as int)),
        step: Ok(
            ScanStepView::Done(
                SummaryView {
                    counters: scan.counters,
                    missing: scan.missing,
                    pruned: expired as int,
                    index_pruned: index.files.len() - kept.files.len(),
                    fingerprint_rebuild: scan.fingerprint_rebuild,
                    failed_roots: scan.failed_roots,
                },
            ),
        ),
    }
}

/// How a scan goes on after a reply. A reply that it did not ask for leaves
/// it where it is.
pub open spec fn controlled(
    scan: ScanView,
    index: IndexView,
    reply: ScanReply,
    cancelled: bool,
    now: i64,
) -> Option<Controlled> {
    match (scan.stage, reply) {
        (ScanStage::Ready, ScanReply::Nothing) => Some(to_next_root(scan, index, cancelled, now)),
        (ScanStage::Inspecting, ScanReply::RootIsDirectory(true)) => Some(
            Controlled {
                scan: ScanView { stage: ScanStage::Walking, ..scan },
                index,
                step: Ok(ScanStepView::WalkRoot(scan.roots[scan.at])),
            },
        ),
        (ScanStage::Inspecting, ScanReply::RootIsDirectory(false)) => Some(
            to_next_root(
                ScanView {
                    failed_roots: scan.failed_roots.push(scan.roots[scan.at]),
                    at: scan.at + 1,
                    ..scan
                },
                index,
                cancelled,
                now,
            ),
        ),
        (ScanStage::Walking, ScanReply::RootDone(counters)) => Some(
            to_next_root(
                ScanView {
                    scanned_roots: scan.scanned_roots.push(scan.roots[scan.at]),
                    at: scan.at + 1,
                    counters,
                    ..scan
                },
                index,
                cancelled,
                now,
            ),
        ),
        (ScanStage::Expiring, ScanReply::Expired(expired)) => Some(
            to_end(scan, index, expired, now),
        ),
        _ => None,
    }
}

fn next_root(scan: &mut Scan, index: &mut Index, cancelled: bool, now: i64) -> (step: Result<
    ScanStep,
    String,
>)
    requires
        old(scan).wf(),
        old(index).wf(),
    ensures
        final(scan).wf(),
        final(index).wf(),
        ({
            let goal = to_next_root(old(scan)@, old(index)@, cancelled, now);
            &&& final(scan)@ == goal.scan
            &&& final(index)@ == goal.index
            &&& step_result(step) == goal.step
        }),
{
    proof {
        assert(scan@.roots.len() == scan.roots@.len());
    }
    if scan.at < scan.roots.len() {
        match go_on(cancelled) {
            Err(error) => return Err(error),
            Ok(_) => {},
        }
        proof {
            assert(scan@.roots[scan.at as int] == scan.roots@[scan.at as int]@);
        }
        scan.stage = ScanStage::Inspecting;
        return Ok(ScanStep::InspectRoot(scan.roots[scan.at].clone()));
    }
    let missing = mark_missing_absent(
        index,
        scan.platform,
        scan.scanned_roots.as_slice(),
        scan.started,
    );
    scan.missing = missing;
    scan.stage = ScanStage::Expiring;
    let batch = prune_expired_trash_with(index, now);
    Ok(ScanStep::Expire(batch))
}

pub open spec fn step_result(step: Result<ScanStep, String>) -> Result<ScanStepView, Seq<char>> {
    match step {
        Ok(s) => Ok(s@),
        Err(error) => Err(error@),
    }
}

/// Drive a scan: root by root, then the files that went missing, then the
/// recycle bin and the rows to forget. `None` where the reply is not the one
/// that was asked for.
pub fn scan_with_control(
    scan: &mut Scan,
    index: &mut Index,
    reply: ScanReply,
    cancelled: bool,
    now: i64,
) -> (step: Option<Result<ScanStep, String>>)
    requires
        old(scan).wf(),
        old(index).wf(),
        old(scan).stage == ScanStage::Inspecting || old(scan).stage == ScanStage::Walking ==> old(
            scan,
        ).at < old(scan).roots@.len(),
    ensures
        final(scan).wf(),
        final(index).wf(),
        match controlled(old(scan)@, old(index)@, reply, cancelled, now) {
            None => step is None && final(scan)@ == old(scan)@ && final(index)@ == old(index)@,
            Some(goal) => {
                &&& step is Some
                &&& final(scan)@ == goal.scan
                &&& final(index)@ == goal.index
                &&& step_result(step->0) == goal.step
            },
        },
        final(scan).stage == ScanStage::Inspecting || final(scan).stage == ScanStage::Walking
            ==> final(scan).at < final(scan).roots@.len(),
{
    let ghost start = scan@;
    let count = scan.roots.len();
    proof {
        assert(scan@.roots.len() == count);
    }
    match (scan.stage, reply) {
        (ScanStage::Ready, ScanReply::Nothing) => Some(next_root(scan, index, cancelled, now)),
        (ScanStage::Inspecting, ScanReply::RootIsDirectory(is_directory)) => {
            let root = scan.roots[scan.at].clone();
            proof {
                assert(start.roots[scan.at as int] == root@);
            }
            if is_directory {
                scan.stage = ScanStage::Walking;
                Some(Ok(ScanStep::WalkRoot(root)))
            } else {
                let ghost failed = scan.failed_roots@;
                scan.failed_roots.push(root);
                scan.at = scan.at + 1;
                proof {
                    assert(scan@.failed_roots =~= outside::texts(failed).push(root@));
                }
                Some(next_root(scan, index, cancelled, now))
            }
        },
        (ScanStage::Walking, ScanReply::RootDone(counters)) => {
            let root = scan.roots[scan.at].clone();
            proof {
                assert(start.roots[scan.at as int] == root@);
            }
            let ghost scanned = scan.scanned_roots@;
            scan.scanned_roots.push(root);
            scan.at = scan.at + 1;
            scan.counters = counters;
            proof {
                assert(scan@.scanned_roots =~= outside::texts(scanned).push(root@));
            }
            Some(next_root(scan, index, cancelled, now))
        },
        (ScanStage::Expiring, ScanReply::Expired(expired)) => {
            let index_pruned = prune_absent_rows(index, now);
            let shown = signed_text(now);
            set_setting(index, "last_scan_at", shown.as_str());
            scan.stage = ScanStage::Finished;
            Some(
                Ok(
                    ScanStep::Done(
                        ScanSummary {
                            new: scan.counters.new,
                            unchanged: scan.counters.unchanged,
                            updated: scan.counters.updated,
                            skipped: scan.counters.skipped,
                            errors: scan.counters.errors,
                            missing: scan.missing,
                            pruned: expired,
                            index_pruned,
                            fingerprint_rebuild: scan.fingerprint_rebuild,
                            failed_roots: copy_texts(scan.failed_roots.as_slice()),
                        },
                    ),
                ),
            )
        },
        _ => None,
    }
}

/// Only roots that were walked to their end let files go missing: a root that
/// is no directory changes no file.
pub proof fn law_failed_root_changes_nothing(
    scan: ScanView,
    index: IndexView,
    cancelled: bool,
    now: i64,
)
    requires
        scan.stage == ScanStage::Inspecting,
        0 <= scan.at < scan.roots.len(),
    ensures
        ({
            let goal = controlled(scan, index, ScanReply::RootIsDirectory(false), cancelled, now)->0;
            &&& goal.scan.scanned_roots == scan.scanned_roots
            &&& goal.scan.failed_roots == scan.failed_roots.push(scan.roots[scan.at])
            &&& scan.at + 1 < scan.roots.len() ==> goal.index == index
        }),
{
}

} // verus!
