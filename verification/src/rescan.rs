//! What a scan does to the rows, said of the rows before and after.
use crate::indexing::{EntryView, IndexOutcome, ProcessedEntry};
use crate::model::{FileView, IndexView};
use crate::paths::Platform;
use crate::scan::{ScanState, ScanView, ScanReply, ScanStage, WorkResult, WriteRules};
use crate::{indexing, lists, model, outside, paths, scan, text};
use vstd::prelude::*;

verus! {

// ---------------------------------------------------------------------------
// Writing a file
// ---------------------------------------------------------------------------

/// Row and entry agree on what was read of the file.
pub open spec fn holds_reading(row: FileView, entry: EntryView) -> bool {
    &&& row.path == entry.path
    &&& row.size == entry.size
    &&& row.modified == entry.modified
    &&& row.hash == entry.hash
    &&& row.quick_hash == entry.quick_hash
    &&& row.dev == entry.dev
    &&& row.inode == entry.inode
}

/// The fingerprints of the row are those of the entry, bit for bit; those of
/// other rows are as they were.
pub open spec fn holds_prints(
    before: IndexView,
    after: IndexView,
    id: i64,
    entry: EntryView,
) -> bool {
    &&& after.photos.contains_key(id) <==> entry.photo is Some
    &&& entry.photo matches Some((gradient, structure)) ==> {
        let print = after.photos[id];
        &&& print.dhash == gradient || print.dhash == gradient - 0x1_0000_0000_0000_0000
        &&& print.phash == structure || print.phash == structure - 0x1_0000_0000_0000_0000
        &&& print.part_a == (gradient >> 51) & 0x1fff
        &&& print.part_b == (gradient >> 38) & 0x1fff
        &&& print.part_c == (gradient >> 25) & 0x1fff
        &&& print.part_d == (gradient >> 12) & 0x1fff
        &&& print.part_e == gradient & 0x0fff
    }
    &&& after.documents.contains_key(id) <==> entry.document is Some
    &&& entry.document matches Some((simhash, words)) ==> {
        let print = after.documents[id];
        &&& print.simhash == simhash || print.simhash == simhash - 0x1_0000_0000_0000_0000
        &&& print.token_count == words
    }
    &&& forall|other: i64| #![trigger after.photos.contains_key(other)]
        other != id ==> after.photos.contains_key(other) == before.photos.contains_key(other)
            && after.photos[other] == before.photos[other]
    &&& forall|other: i64| #![trigger after.documents.contains_key(other)]
        other != id ==> after.documents.contains_key(other) == before.documents.contains_key(other)
            && after.documents[other] == before.documents[other]
}

/// A file that was read is in the index as it was read: live, without
/// approval, protected by the rules of now. A file that the index knew keeps
/// its id, and what this reading did not tell of it as long as the content is
/// the same; a new one gets an id above all others. No other row changes.
pub proof fn law_a_read_file_is_stored_as_read(
    index: IndexView,
    platform: Platform,
    entry: EntryView,
    protect: Seq<Seq<char>>,
    now: i64,
)
    requires
        index.wf(),
        indexing::written(index, platform, entry, protect, now) is Ok,
    ensures
        ({
            let (after, outcome) = indexing::written(index, platform, entry, protect, now)->Ok_0;
            let known = exists|i: int|
                0 <= i < index.files.len() && (#[trigger] index.files[i]).path == entry.path;
            &&& after.settings == index.settings
            &&& after.operations == index.operations
            &&& after.verdicts == index.verdicts
            &&& known <==> outcome == IndexOutcome::Updated
            &&& after.files.len() == index.files.len() + (if known { 0int } else { 1int })
            &&& exists|i: int|
                {
                    &&& 0 <= i < after.files.len()
                    &&& holds_reading(#[trigger] after.files[i], entry)
                    &&& after.files[i].present
                    &&& !after.files[i].approved
                    &&& after.files[i].scanned_at == now
                    &&& after.files[i].protected == paths::protected_by(
                        platform,
                        entry.path,
                        protect,
                    )
                    &&& holds_prints(index, after, after.files[i].id, entry)
                    &&& entry.frn != 0 ==> after.files[i].frn == entry.frn
                    &&& entry.exif_taken != 0 ==> after.files[i].exif_taken == entry.exif_taken
                    &&& known ==> {
                        &&& index.files[i].path == entry.path
                        &&& after.files[i].id == index.files[i].id
                        &&& entry.frn == 0 ==> after.files[i].frn == index.files[i].frn
                        &&& entry.exif_taken == 0 && index.files[i].hash == entry.hash
                            ==> after.files[i].exif_taken == index.files[i].exif_taken
                        &&& entry.exif_taken == 0 && index.files[i].hash != entry.hash
                            ==> after.files[i].exif_taken == 0
                    }
                    &&& !known ==> {
                        &&& i == index.files.len()
                        &&& after.files[i].frn == entry.frn
                        &&& after.files[i].exif_taken == entry.exif_taken
                        &&& forall|p: int|
                            0 <= p < index.files.len() ==> (#[trigger] index.files[p]).id
                                < after.files[i].id
                    }
                    &&& forall|p: int|
                        0 <= p < index.files.len() && p != i ==> #[trigger] after.files[p]
                            == index.files[p]
                }
        }),
{
    let protected = paths::protected_by(platform, entry.path, protect);
    let (after, outcome) = indexing::written(index, platform, entry, protect, now)->Ok_0;
    if let Some(photo) = entry.photo {
        indexing::law_parts_are_bit_fields(photo.0);
    }
    match model::at_path(index.files, entry.path) {
        Some(i) => {
            assert(index.files[i].path == entry.path);
            assert(holds_reading(after.files[i], entry));
        },
        None => {
            let i = index.files.len() as int;
            assert(holds_reading(after.files[i], entry));
            if index.files.len() > 0 {
                let last = index.files.len() - 1;
                assert forall|p: int| 0 <= p < index.files.len() implies (
                #[trigger] index.files[p]).id < after.files[i].id by {
                    if p < last {
                        assert(index.files[p].id < index.files[last].id);
                    }
                }
            }
        },
    }
}

/// A file that can be stored is stored: only a full table refuses one.
pub proof fn law_only_a_full_table_refuses_a_file(
    index: IndexView,
    platform: Platform,
    entry: EntryView,
    protect: Seq<Seq<char>>,
    now: i64,
)
    ensures
        indexing::written(index, platform, entry, protect, now) is Err <==> {
            &&& forall|i: int|
                0 <= i < index.files.len() ==> (#[trigger] index.files[i]).path != entry.path
            &&& index.files.len() > 0
            &&& index.files.last().id == i64::MAX
        },
{
    if model::has_path(index.files, entry.path) {
        let i = choose|i: int|
            0 <= i < index.files.len() && (#[trigger] index.files[i]).path == entry.path;
        assert(index.files[i].path == entry.path);
    }
}

/// A file that was found unchanged is live and seen now; nothing else of it
/// changes, and no other row.
pub proof fn law_an_unchanged_file_is_seen(index: IndexView, path: Seq<char>, now: i64, p: int)
    requires
        index.wf(),
        0 <= p < index.files.len(),
    ensures
        indexing::seen_again(index, path, now).files.len() == index.files.len(),
        indexing::seen_again(index, path, now).files[p] == (if index.files[p].path == path {
            FileView { present: true, scanned_at: now, ..index.files[p] }
        } else {
            index.files[p]
        }),
        indexing::seen_again(index, path, now) == (IndexView {
            files: indexing::seen_again(index, path, now).files,
            ..index
        }),
{
    if index.files[p].path == path {
        model::lemma_at_path(index.files, p);
    }
}

/// A file that moved keeps its row under the new path. A row that was there
/// before makes way: it is absent, without approval and at another path, and
/// otherwise as it was. No other row changes.
pub proof fn law_a_moved_file_takes_its_row_along(
    files: Seq<FileView>,
    platform: Platform,
    id: i64,
    path: Seq<char>,
    protect: Seq<Seq<char>>,
    now: i64,
    p: int,
)
    requires
        model::ids_ascending(files),
        model::paths_unique(files),
        indexing::repointed(files, platform, id, path, protect, now) is Ok,
        0 <= p < files.len(),
    ensures
        ({
            let after = indexing::repointed(files, platform, id, path, protect, now)->Ok_0;
            &&& after.len() == files.len()
            &&& files[p].id == id ==> after[p] == (FileView {
                path,
                present: true,
                approved: false,
                protected: paths::protected_by(platform, path, protect),
                scanned_at: now,
                ..files[p]
            })
            &&& files[p].id != id && files[p].path == path ==> after[p].path != path && after[p]
                == (FileView { path: after[p].path, present: false, approved: false, ..files[p] })
            &&& files[p].id != id && files[p].path != path ==> after[p] == files[p]
        }),
{
    let free = indexing::set_aside(files, path, id, true)->Ok_0;
    if files[p].path == path {
        model::lemma_at_path(files, p);
    }
    assert(free.len() == files.len());
    assert forall|a: int, b: int| 0 <= a < b < free.len() implies (#[trigger] free[a]).id < (
    #[trigger] free[b]).id by {
        assert(files[a].id < files[b].id);
    }
    assert(free[p].id == files[p].id);
    if files[p].id == id {
        model::lemma_at_id(free, p);
    }
    if model::at_path(files, path) is Some {
        let j = model::at_path(files, path)->0;
        assert(files[j].path == path);
        if files[j].id != id {
            let aside = indexing::aside_path(path, files[j].id);
            assert(aside.len() > path.len()) by {
                reveal_strlit("#replaced#");
            }
        }
    }
}

// ---------------------------------------------------------------------------
// Files that were not found
// ---------------------------------------------------------------------------

/// A path lies below a root that ends in no separator where it is the root,
/// or goes on behind it with a separator; below a root that ends in one where
/// it begins with the root. The case of the letters counts on Posix only, and
/// both separators count on Windows only.
pub proof fn law_a_root_holds_what_goes_on_behind_it(path: Seq<char>, root: Seq<char>)
    ensures
        indexing::below_root(Platform::Posix, path, root) <==> {
            ||| path == root
            ||| root.len() > 0 && root.last() == '/' && root.is_prefix_of(path)
            ||| (root.len() == 0 || root.last() != '/') && path.len() > root.len()
                && root.is_prefix_of(path) && path[root.len() as int] == '/'
        },
        indexing::below_root(Platform::Windows, path, root) <==> {
            ||| path == root
            ||| root.len() > 0 && (root.last() == '/' || root.last() == '\\') && text::lower(
                root,
            ).is_prefix_of(text::lower(path))
            ||| (root.len() == 0 || (root.last() != '/' && root.last() != '\\')) && path.len()
                > root.len() && text::lower(root).is_prefix_of(text::lower(path)) && (
            path[root.len() as int] == '/' || path[root.len() as int] == '\\')
        },
{
    let n = root.len() as int;
    let low = text::lower(path);
    let low_root = text::lower(root);
    assert forall|front: Seq<char>, whole: Seq<char>|
        text::starts_with(whole, front) <==> #[trigger] front.is_prefix_of(whole) by {
        if text::starts_with(whole, front) {
            assert(front =~= whole.take(front.len() as int));
        }
        if front.is_prefix_of(whole) {
            assert(whole.subrange(0, front.len() as int) =~= front);
        }
    }
    assert(text::starts_with(path, root.push('/')) <==> root.push('/').is_prefix_of(path));
    assert(text::starts_with(path, root) <==> root.is_prefix_of(path));
    assert(text::starts_with(low, low_root) <==> low_root.is_prefix_of(low));
    lemma_goes_on(path, root, '/');
    lemma_goes_on(low, low_root, '/');
    lemma_goes_on(low, low_root, '\\');
    assert(text::lower(root.push('/')) =~= low_root.push('/'));
    assert(text::lower(root.push('\\')) =~= low_root.push('\\'));
    assert(text::starts_with(low, low_root.push('/')) <==> low_root.push('/').is_prefix_of(low));
    assert(text::starts_with(low, low_root.push('\\')) <==> low_root.push('\\').is_prefix_of(low));
    if path.len() > n {
        assert(low[n] == text::lower_char(path[n]));
        assert(low[n] == '/' <==> path[n] == '/');
        assert(low[n] == '\\' <==> path[n] == '\\') by {
            if 'A' <= path[n] && path[n] <= 'Z' {
                assert(low[n] as u32 == path[n] as u32 + 32);
            }
        }
    }
}

proof fn lemma_goes_on(path: Seq<char>, root: Seq<char>, c: char)
    ensures
        root.push(c).is_prefix_of(path) <==> path.len() > root.len() && root.is_prefix_of(path)
            && path[root.len() as int] == c,
{
    let n = root.len() as int;
    if root.push(c).is_prefix_of(path) {
        assert(root =~= path.take(n));
        assert(path[n] == root.push(c)[n]);
    }
    if path.len() > n && root.is_prefix_of(path) && path[n] == c {
        assert(root.push(c) =~= path.take(n + 1));
    }
}

/// At the end of a scan a row is absent exactly where it was, or where it
/// lies below a root that was walked and the scan did not see it. What goes
/// absent loses its approval; nothing else of any row changes. The number
/// that is told is the number of rows that went.
pub proof fn law_what_a_scan_does_not_see_is_absent(
    scan: ScanView,
    index: IndexView,
    cancelled: bool,
    now: i64,
    p: int,
)
    requires
        scan.stage == ScanStage::Ready,
        scan.at == scan.roots.len(),
        0 <= p < index.files.len(),
    ensures
        ({
            let goal = scan::controlled(scan, index, ScanReply::Nothing, cancelled, now)->0;
            let unseen = index.files[p].scanned_at < scan.started && exists|r: int|
                0 <= r < scan.scanned_roots.len() && indexing::below_root(
                    scan.platform,
                    index.files[p].path,
                    #[trigger] scan.scanned_roots[r],
                );
            let gone = Set::new(
                |q: int|
                    0 <= q < index.files.len() && index.files[q].present
                        && !goal.index.files[q].present,
            );
            &&& goal.index.files.len() == index.files.len()
            &&& goal.index.files[p] == (if index.files[p].present && unseen {
                FileView { present: false, approved: false, ..index.files[p] }
            } else {
                index.files[p]
            })
            &&& goal.index == (IndexView { files: goal.index.files, ..index })
            &&& goal.scan.missing == gone.len()
            &&& goal.scan.stage == ScanStage::Expiring
        }),
{
    let goal = scan::controlled(scan, index, ScanReply::Nothing, cancelled, now)->0;
    let keep = |q: int|
        indexing::missing(scan.platform, index.files[q], scan.scanned_roots, scan.started);
    let gone = Set::new(
        |q: int|
            0 <= q < index.files.len() && index.files[q].present && !goal.index.files[q].present,
    );
    lists::lemma_positions(index.files.len(), keep);
    let list = lists::positions(index.files.len(), keep);
    assert(list.no_duplicates());
    list.unique_seq_to_set();
    assert(list.to_set() =~= gone) by {
        assert forall|q: int| list.to_set().contains(q) <==> gone.contains(q) by {
            assert(list.contains(q) <==> 0 <= q < index.files.len() && keep(q));
        }
    }
}

/// Long absence: at the end of a scan a row is forgotten exactly where it is
/// absent, was last seen more than ninety days ago, and no operation of the
/// history speaks of it. Its fingerprints go with it, and no others; the
/// time of the scan is noted.
pub proof fn law_only_long_absent_rows_are_forgotten(
    scan: ScanView,
    index: IndexView,
    expired: u64,
    cancelled: bool,
    now: i64,
    p: int,
)
    requires
        index.wf(),
        scan.stage == ScanStage::Expiring,
        0 <= p < index.files.len(),
    ensures
        ({
            let goal = scan::controlled(
                scan,
                index,
                ScanReply::Expired(expired),
                cancelled,
                now,
            )->0;
            let row = index.files[p];
            let forgotten = !row.present && row.scanned_at < now - 90 * 24 * 60 * 60 && forall|k: int|
                0 <= k < index.operations.len() ==> (#[trigger] index.operations[k]).file_id
                    != row.id;
            &&& goal.index.files.contains(row) <==> !forgotten
            &&& goal.index.photos.contains_key(row.id) <==> index.photos.contains_key(row.id)
                && !forgotten
            &&& goal.index.documents.contains_key(row.id) <==> index.documents.contains_key(row.id)
                && !forgotten
            &&& goal.index.operations == index.operations
            &&& goal.index.verdicts == index.verdicts
            &&& goal.index.settings == index.settings.insert(
                "last_scan_at"@,
                text::decimal(now as int),
            )
        }),
{
    indexing::lemma_surviving(index.files, index.operations, now);
    let row = index.files[p];
    if indexing::has_history(index.operations, row.id) {
        let k = choose|k: int|
            0 <= k < index.operations.len() && (#[trigger] index.operations[k]).file_id == row.id;
        assert(index.operations[k].file_id == row.id);
    }
    let kept = indexing::surviving(index.files, index.operations, now);
    if indexing::is_forgotten_id(index, now, row.id) {
        let q = choose|q: int|
            0 <= q < index.files.len() && (#[trigger] index.files[q]).id == row.id
                && indexing::forgotten(index.files[q], index.operations, now);
        model::lemma_at_id(index.files, q);
        model::lemma_at_id(index.files, p);
    }
    if indexing::forgotten(row, index.operations, now) {
        assert(index.files[p].id == row.id);
        assert(indexing::is_forgotten_id(index, now, row.id));
    }
}

// ---------------------------------------------------------------------------
// Large files
// ---------------------------------------------------------------------------

/// A large file is hashed in full at once where another file has its size and
/// its quick hash: one that waits, or one of the index at another path. Where
/// there is none, it waits, and nothing is hashed for it.
pub proof fn law_a_large_file_is_hashed_with_its_sibling(
    state: ScanState,
    rules: WriteRules,
    entry: ProcessedEntry,
    now: i64,
)
    requires
        entry.quick_hash is Some,
        state.writer.bucket.len() == 0,
        state.writer.refresh.len() == 0,
    ensures
        ({
            let after = scan::accepted(state, rules, WorkResult::Processed(Ok(entry)), now);
            let waits = exists|k: int|
                {
                    &&& 0 <= k < state.writer.pending.len()
                    &&& (#[trigger] state.writer.pending[k]).size == entry.size
                    &&& state.writer.pending[k].quick_hash == Some(entry.quick_hash->0@)
                };
            let known = exists|p: int|
                {
                    &&& 0 <= p < state.index.files.len()
                    &&& (#[trigger] state.index.files[p]).size == entry.size
                    &&& state.index.files[p].quick_hash == Some(entry.quick_hash->0@)
                    &&& state.index.files[p].path != entry.path_text@
                };
            &&& after is Ok
            &&& after->Ok_0.index == state.index
            &&& after->Ok_0.log == state.log
            &&& after->Ok_0.writer.counters == state.writer.counters
            &&& scan::wants_hash(after->Ok_0.writer) == (if waits || known {
                Some(entry.path_text@)
            } else {
                None
            })
            &&& !waits && !known ==> after->Ok_0.writer.pending == state.writer.pending.push(entry@)
            &&& !waits && known ==> after->Ok_0.writer.pending == state.writer.pending
            &&& waits ==> after->Ok_0.writer.pending.len() == state.writer.pending.len() - 1
                && after->Ok_0.writer.bucket.len() == 2 && after->Ok_0.writer.bucket[1].size
                == entry.size && after->Ok_0.writer.bucket[1].quick_hash == Some(
                entry.quick_hash->0@,
            )
        }),
{
    let pending = state.writer.pending;
    let keep = |k: int| scan::same_bucket(pending[k], entry@);
    lists::lemma_positions(pending.len(), keep);
    let rows = lists::positions(pending.len(), keep);
    assert forall|k: int|
        0 <= k < pending.len() && (#[trigger] pending[k]).size == entry.size
            && pending[k].quick_hash == Some(entry.quick_hash->0@) implies rows.len() > 0 by {
        assert(keep(k));
        assert(rows.contains(k));
    }
    if rows.len() > 0 {
        assert(keep(rows[0]));
        assert(pending[rows[0]].size == entry.size);
    }
}

/// The hash that was asked for is stored with the file that it was asked for:
/// afterwards the row of that path holds it.
pub proof fn law_a_full_hash_goes_to_its_file(
    state: ScanState,
    rules: WriteRules,
    full: String,
    now: i64,
    path: Seq<char>,
)
    requires
        state.index.wf(),
        scan::wants_hash(state.writer) == Some(path),
        scan::hashed(state, rules, Ok(full), now) is Ok,
    ensures
        ({
            let after = scan::hashed(state, rules, Ok(full), now)->Ok_0;
            &&& forall|p: int|
                0 <= p < after.index.files.len() && (#[trigger] after.index.files[p]).path == path
                    ==> after.index.files[p].hash == full@
            &&& forall|p: int|
                0 <= p < state.index.files.len() && (#[trigger] state.index.files[p]).path != path
                    ==> after.index.files[p] == state.index.files[p]
            &&& state.writer.bucket.len() > 0 ==> exists|p: int|
                0 <= p < after.index.files.len() && (#[trigger] after.index.files[p]).path == path
            &&& state.writer.bucket.len() == 0 ==> after.writer.counters == state.writer.counters
                && after.writer.refresh == state.writer.refresh.skip(1)
            &&& after.writer.pending == state.writer.pending
            &&& after.log == state.log
        }),
{
    let after = scan::hashed(state, rules, Ok(full), now)->Ok_0;
    if state.writer.bucket.len() > 0 {
        let at = match model::at_path(state.index.files, path) {
            Some(i) => i,
            None => state.index.files.len() as int,
        };
        assert(after.index.files[at].path == path);
        assert forall|p: int|
            0 <= p < after.index.files.len() && (#[trigger] after.index.files[p]).path
                == path implies after.index.files[p].hash == full@ by {
            if p != at {
                assert(after.index.files[p] == state.index.files[p]);
                model::lemma_at_path(state.index.files, p);
            }
        }
    } else {
        assert forall|p: int|
            0 <= p < after.index.files.len() && (#[trigger] after.index.files[p]).path
                == path implies after.index.files[p].hash == full@ by {
            if state.index.files[p].path == path {
                model::lemma_at_path(state.index.files, p);
            }
        }
    }
}

/// After the last file of a bucket is stored, the rows that still stand under
/// a mark in place of a full hash, and have its size and quick hash, are due
/// to be hashed; nothing else is.
pub proof fn law_marked_siblings_are_hashed_too(
    state: ScanState,
    rules: WriteRules,
    full: String,
    now: i64,
    p: int,
)
    requires
        state.writer.bucket.len() == 1,
        state.writer.bucket[0].quick_hash is Some,
        scan::hashed(state, rules, Ok(full), now) is Ok,
        0 <= p < scan::hashed(state, rules, Ok(full), now)->Ok_0.index.files.len(),
        model::paths_unique(scan::hashed(state, rules, Ok(full), now)->Ok_0.index.files),
    ensures
        ({
            let after = scan::hashed(state, rules, Ok(full), now)->Ok_0;
            let row = after.index.files[p];
            after.writer.refresh.contains(row.path) <==> {
                &&& row.size == state.writer.bucket[0].size
                &&& row.quick_hash == state.writer.bucket[0].quick_hash
                &&& row.hash.len() >= 2
                &&& row.hash[0] == 'q' || row.hash[0] == 'Q'
                &&& row.hash[1] == ':'
            }
        }),
{
    let after = scan::hashed(state, rules, Ok(full), now)->Ok_0;
    let files = after.index.files;
    let entry = state.writer.bucket[0];
    let keep = |p: int|
        files[p].size == entry.size && files[p].quick_hash == Some(entry.quick_hash->0)
            && scan::is_marked(files[p].hash);
    lists::lemma_positions(files.len(), keep);
    let rows = lists::positions(files.len(), keep);
    assert(after.writer.refresh == scan::row_paths(files, rows));
    if after.writer.refresh.contains(files[p].path) {
        let k = choose|k: int|
            0 <= k < after.writer.refresh.len() && after.writer.refresh[k] == files[p].path;
        assert(keep(rows[k]));
        model::lemma_at_path(files, p);
        model::lemma_at_path(files, rows[k]);
    }
    if keep(p) {
        assert(rows.contains(p));
        let k = choose|k: int| 0 <= k < rows.len() && rows[k] == p;
        assert(after.writer.refresh[k] == files[p].path);
    }
}

// ---------------------------------------------------------------------------
// Counting
// ---------------------------------------------------------------------------

/// Every result of a scan is counted as what it is: an unchanged file as
/// unchanged, and then it is live and seen now; a skipped one as skipped, and
/// then no row changes; a moved one as updated, and then its row stands at
/// the new path; one that was read as new or updated, and then its row holds
/// its hash.
pub proof fn law_results_are_counted_as_what_they_are(
    state: ScanState,
    rules: WriteRules,
    result: WorkResult,
    now: i64,
)
    requires
        state.index.wf(),
        state.writer.counters.new < u64::MAX,
        state.writer.counters.unchanged < u64::MAX,
        state.writer.counters.updated < u64::MAX,
        state.writer.counters.skipped < u64::MAX,
        scan::accepted(state, rules, result, now) is Ok,
    ensures
        ({
            let after = scan::accepted(state, rules, result, now)->Ok_0;
            let was = state.writer.counters;
            let is = after.writer.counters;
            let files = after.index.files;
            match result {
                WorkResult::Unchanged(path) => {
                    &&& is.unchanged == was.unchanged + 1
                    &&& is.new == was.new && is.updated == was.updated
                    &&& is.skipped == was.skipped && is.errors == was.errors
                    &&& forall|p: int|
                        0 <= p < files.len() && (#[trigger] files[p]).path == path@
                            ==> files[p].present && files[p].scanned_at == now
                },
                WorkResult::Skipped => {
                    &&& is.skipped == was.skipped + 1
                    &&& is.new == was.new && is.updated == was.updated
                    &&& is.unchanged == was.unchanged && is.errors == was.errors
                    &&& after.index == state.index
                },
                WorkResult::Moved { path, file_id } => {
                    &&& is.updated == was.updated + 1
                    &&& is.new == was.new && is.skipped == was.skipped
                    &&& is.unchanged == was.unchanged && is.errors == was.errors
                    &&& forall|p: int|
                        0 <= p < files.len() && (#[trigger] files[p]).id == file_id ==> files[p].path
                            == path@ && files[p].present
                },
                WorkResult::Processed(Ok(entry)) => entry.quick_hash is None ==> {
                    &&& is.new + is.updated == was.new + was.updated + 1
                    &&& is.skipped == was.skipped && is.unchanged == was.unchanged
                    &&& is.errors == was.errors
                    &&& is.new == was.new + 1 <==> files.len() == state.index.files.len() + 1
                    &&& exists|p: int|
                        0 <= p < files.len() && (#[trigger] files[p]).path == entry.path_text@
                            && files[p].hash == entry.hash@ && files[p].present
                },
                _ => after.index == state.index,
            }
        }),
{
    let after = scan::accepted(state, rules, result, now)->Ok_0;
    let files = after.index.files;
    match result {
        WorkResult::Unchanged(path) => {
            assert forall|p: int|
                0 <= p < files.len() && (#[trigger] files[p]).path == path@ implies files[p].present
                && files[p].scanned_at == now by {
                law_an_unchanged_file_is_seen(state.index, path@, now, p);
                if state.index.files[p].path == path@ {
                    model::lemma_at_path(state.index.files, p);
                }
            }
        },
        WorkResult::Moved { path, file_id } => {
            assert forall|p: int|
                0 <= p < files.len() && (#[trigger] files[p]).id == file_id implies files[p].path
                == path@ && files[p].present by {
                assert(files.len() == state.index.files.len());
                law_a_moved_file_takes_its_row_along(
                    state.index.files,
                    rules.platform,
                    file_id,
                    path@,
                    outside::texts(rules.protect@),
                    now,
                    p,
                );
            }
        },
        WorkResult::Processed(Ok(entry)) => {
            if entry.quick_hash is None {
                let at = match model::at_path(state.index.files, entry@.path) {
                    Some(i) => i,
                    None => state.index.files.len() as int,
                };
                assert(files[at].path == entry@.path);
            }
        },
        _ => {},
    }
}

/// Large files that found no sibling are written at the end, under a mark in
/// place of a full hash: no file waits any longer, and each that waited
/// is a live row under its mark, unless a later one had its path.
pub proof fn law_waiting_files_are_written_at_the_end(
    state: ScanState,
    rules: WriteRules,
    now: i64,
    k: int,
)
    requires
        scan::flushed(state, rules, now).1 is Ok,
        0 <= k < state.writer.pending.len(),
        forall|m: int|
            k < m < state.writer.pending.len() ==> (#[trigger] state.writer.pending[m]).path
                != state.writer.pending[k].path,
        state.writer.pending[k].quick_hash is Some,
    ensures
        ({
            let after = scan::flushed(state, rules, now).0;
            let entry = state.writer.pending[k];
            &&& after.writer.pending.len() == 0
            &&& exists|p: int|
                {
                    &&& 0 <= p < after.index.files.len()
                    &&& (#[trigger] after.index.files[p]).path == entry.path
                    &&& after.index.files[p].present
                    &&& after.index.files[p].hash == "q:"@ + entry.quick_hash->0
                    &&& after.index.files[p].quick_hash == entry.quick_hash
                    &&& after.index.files[p].size == entry.size
                }
        }),
    decreases state.writer.pending.len(),
{
    let entry = state.writer.pending[0];
    let rest = ScanState {
        writer: crate::scan::WriterView {
            pending: state.writer.pending.skip(1),
            ..state.writer
        },
        ..state
    };
    let quick = match entry.quick_hash {
        Some(quick) => quick,
        None => Seq::empty(),
    };
    let marked = EntryView { hash: scan::marked_hash(quick), ..entry };
    let next = rest.wrote(rules, marked, now)->Ok_0;
    if k > 0 {
        assert(next.writer.pending[k - 1] == state.writer.pending[k]);
        assert forall|m: int|
            k - 1 < m < next.writer.pending.len() implies (#[trigger] next.writer.pending[m]).path
            != next.writer.pending[k - 1].path by {
            assert(next.writer.pending[m] == state.writer.pending[m + 1]);
        }
        law_waiting_files_are_written_at_the_end(next, rules, now, k - 1);
    } else {
        let at = match model::at_path(rest.index.files, entry.path) {
            Some(i) => i,
            None => rest.index.files.len() as int,
        };
        assert(next.index.files[at].path == entry.path);
        assert forall|m: int| 0 <= m < next.writer.pending.len() implies (
        #[trigger] next.writer.pending[m]).path != entry.path by {
            assert(next.writer.pending[m] == state.writer.pending[m + 1]);
        }
        lemma_flush_leaves_others(next, rules, now, at);
        let after = scan::flushed(state, rules, now).0;
        assert(after.index.files[at] == next.index.files[at]);
    }
}

proof fn lemma_flush_leaves_others(state: ScanState, rules: WriteRules, now: i64, p: int)
    requires
        scan::flushed(state, rules, now).1 is Ok,
        0 <= p < state.index.files.len(),
        forall|m: int|
            0 <= m < state.writer.pending.len() ==> (#[trigger] state.writer.pending[m]).path
                != state.index.files[p].path,
    ensures
        scan::flushed(state, rules, now).0.writer.pending.len() == 0,
        p < scan::flushed(state, rules, now).0.index.files.len(),
        scan::flushed(state, rules, now).0.index.files[p] == state.index.files[p],
    decreases state.writer.pending.len(),
{
    if state.writer.pending.len() > 0 {
        let entry = state.writer.pending[0];
        let rest = ScanState {
            writer: crate::scan::WriterView {
                pending: state.writer.pending.skip(1),
                ..state.writer
            },
            ..state
        };
        let quick = match entry.quick_hash {
            Some(quick) => quick,
            None => Seq::empty(),
        };
        let marked = EntryView { hash: scan::marked_hash(quick), ..entry };
        let next = rest.wrote(rules, marked, now)->Ok_0;
        if model::at_path(rest.index.files, entry.path) is Some {
            let i = model::at_path(rest.index.files, entry.path)->0;
            assert(rest.index.files[i].path == entry.path);
        }
        assert(next.index.files[p] == state.index.files[p]);
        assert forall|m: int| 0 <= m < next.writer.pending.len() implies (
        #[trigger] next.writer.pending[m]).path != next.index.files[p].path by {
            assert(next.writer.pending[m] == state.writer.pending[m + 1]);
        }
        lemma_flush_leaves_others(next, rules, now, p);
    }
}

// ---------------------------------------------------------------------------
// The course of a scan
// ---------------------------------------------------------------------------

/// The roots are taken in turn: the one that is due is inspected, walked
/// where it is a directory, noted as walked when that is done, and noted as
/// failed where it is none. A cancelled scan stops in front of the next root.
pub proof fn law_roots_are_walked_in_turn(
    scan: ScanView,
    index: IndexView,
    counters: crate::scan::ScanCounters,
    cancelled: bool,
    now: i64,
)
    requires
        0 <= scan.at < scan.roots.len(),
    ensures
        scan.stage == ScanStage::Ready ==> {
            let goal = scan::controlled(scan, index, ScanReply::Nothing, cancelled, now)->0;
            &&& goal.index == index
            &&& cancelled ==> goal.step == Err::<crate::scan::ScanStepView, Seq<char>>(
                "scan cancelled"@,
            ) && goal.scan == scan
            &&& !cancelled ==> goal.step == Ok::<crate::scan::ScanStepView, Seq<char>>(
                crate::scan::ScanStepView::InspectRoot(scan.roots[scan.at]),
            ) && goal.scan.stage == ScanStage::Inspecting && goal.scan.at == scan.at
        },
        scan.stage == ScanStage::Inspecting ==> {
            let goal = scan::controlled(
                scan,
                index,
                ScanReply::RootIsDirectory(true),
                cancelled,
                now,
            )->0;
            &&& goal.index == index
            &&& goal.step == Ok::<crate::scan::ScanStepView, Seq<char>>(
                crate::scan::ScanStepView::WalkRoot(scan.roots[scan.at]),
            )
            &&& goal.scan.stage == ScanStage::Walking && goal.scan.at == scan.at
        },
        scan.stage == ScanStage::Walking ==> {
            let goal = scan::controlled(
                scan,
                index,
                ScanReply::RootDone(counters),
                cancelled,
                now,
            )->0;
            &&& goal.scan.scanned_roots == scan.scanned_roots.push(scan.roots[scan.at])
            &&& goal.scan.failed_roots == scan.failed_roots
            &&& goal.scan.counters == counters
            &&& goal.scan.at == scan.at + 1
        },
{
}

/// The summary of a scan tells what was counted and what was cleared away.
pub proof fn law_the_summary_tells_what_happened(
    scan: ScanView,
    index: IndexView,
    expired: u64,
    cancelled: bool,
    now: i64,
)
    requires
        scan.stage == ScanStage::Expiring,
    ensures
        ({
            let goal = scan::controlled(
                scan,
                index,
                ScanReply::Expired(expired),
                cancelled,
                now,
            )->0;
            &&& goal.scan.stage == ScanStage::Finished
            &&& goal.step matches Ok(crate::scan::ScanStepView::Done(summary))
            &&& goal.step->Ok_0->Done_0.counters == scan.counters
            &&& goal.step->Ok_0->Done_0.missing == scan.missing
            &&& goal.step->Ok_0->Done_0.pruned == expired
            &&& goal.step->Ok_0->Done_0.index_pruned == index.files.len() - goal.index.files.len()
            &&& goal.step->Ok_0->Done_0.fingerprint_rebuild == scan.fingerprint_rebuild
            &&& goal.step->Ok_0->Done_0.failed_roots == scan.failed_roots
        }),
{
}

/// The pictures without a fingerprint: the live rows of pictures that have
/// none.
pub proof fn law_pictures_without_a_fingerprint_are_found(
    index: IndexView,
    platform: Platform,
    p: int,
)
    ensures
        scan::unprinted_images(index, platform).contains(p) <==> {
            &&& 0 <= p < index.files.len()
            &&& index.files[p].present
            &&& !index.photos.contains_key(index.files[p].id)
            &&& paths::image_path(platform, index.files[p].path)
        },
{
    let keep = |q: int|
        index.files[q].present && !index.photos.contains_key(index.files[q].id)
            && paths::image_path(platform, index.files[q].path);
    lists::lemma_positions(index.files.len(), keep);
    assert(lists::positions(index.files.len(), keep).contains(p) <==> 0 <= p < index.files.len()
        && keep(p));
}

/// The paths that a file may have moved from: those of the live rows at other
/// paths that have its size, its time and its identity.
pub proof fn law_a_file_may_have_moved_from_its_former_paths(
    index: IndexView,
    platform: Platform,
    path: Seq<char>,
    meta: crate::walk::FileMeta,
    identity: crate::actions::Identity,
    p: int,
)
    ensures
        crate::walk::former_rows(
            index.files,
            platform,
            path,
            Some(meta),
            Some(identity),
        ).contains(p) <==> {
            &&& 0 <= p < index.files.len()
            &&& index.files[p].present
            &&& index.files[p].path != path
            &&& index.files[p].size == meta.len
            &&& meta.modified == Some(index.files[p].modified)
            &&& match platform {
                Platform::Posix => identity.dev != 0 && identity.inode != 0 && index.files[p].dev
                    == identity.dev && index.files[p].inode == identity.inode,
                Platform::Windows => identity.frn != 0 && index.files[p].frn == identity.frn,
            }
        },
{
    let keep = |q: int|
        crate::walk::is_former_row(platform, index.files[q], path, Some(meta), Some(identity));
    lists::lemma_positions(index.files.len(), keep);
    assert(lists::positions(index.files.len(), keep).contains(p) <==> 0 <= p < index.files.len()
        && keep(p));
}

/// After its last root a scan deletes what has expired in the bin: one task
/// for each operation that has, and no other.
pub proof fn law_a_scan_ends_with_what_has_expired(
    scan: ScanView,
    index: IndexView,
    cancelled: bool,
    now: i64,
)
    requires
        scan.stage == ScanStage::Ready,
        scan.at == scan.roots.len(),
    ensures
        ({
            let goal = scan::controlled(scan, index, ScanReply::Nothing, cancelled, now)->0;
            let expired = crate::bin::expired(index, now);
            &&& goal.step is Ok
            &&& goal.step->Ok_0 is Expire
            &&& goal.step->Ok_0->Expire_0.tasks.len() == expired.len()
            &&& goal.step->Ok_0->Expire_0.at == 0
            &&& forall|k: int|
                0 <= k < expired.len() ==> #[trigger] goal.step->Ok_0->Expire_0.tasks[k]
                    == crate::batch::TaskView::Expire(index.operations[expired[k]].id)
        }),
{
    let goal = scan::controlled(scan, index, ScanReply::Nothing, cancelled, now)->0;
    let expired = crate::bin::expired(index, now);
    assert(goal.index.operations == index.operations);
    assert(goal.index.settings == index.settings);
    assert(crate::bin::expired(goal.index, now) =~= expired);
}

/// A scan begins with its first root, under the rules that it was given, and
/// with nothing counted. What it does not see from now on counts as missing.
pub proof fn law_a_scan_begins_with_nothing_counted(
    index: IndexView,
    platform: Platform,
    trash: Seq<char>,
    roots: Seq<Seq<char>>,
    protect: Seq<Seq<char>>,
    exclude: Seq<Seq<char>>,
    min_file_size: u64,
    now: i64,
)
    ensures
        ({
            let start = scan::begun(
                index,
                platform,
                trash,
                roots,
                protect,
                exclude,
                min_file_size,
                now,
            );
            &&& start.started == now
            &&& start.stage == ScanStage::Ready
            &&& start.at == 0
            &&& start.platform == platform
            &&& start.trash == trash
            &&& start.roots == roots
            &&& start.protect == protect
            &&& start.exclude == exclude
            &&& start.min_file_size == min_file_size
            &&& start.scanned_roots.len() == 0 && start.failed_roots.len() == 0
            &&& start.missing == 0
            &&& start.counters.new == 0 && start.counters.unchanged == 0
            &&& start.counters.updated == 0 && start.counters.skipped == 0
            &&& start.counters.errors == 0
        }),
{
}

/// A found file is passed over as skipped exactly where a rule leaves it out
/// or it is smaller than the smallest size; one that could not be looked at
/// is not small.
pub proof fn law_only_excluded_or_small_files_are_skipped(
    index: IndexView,
    rules: crate::walk::WalkRules,
    min_file_size: u64,
    file: crate::walk::FoundFile,
    taken: Seq<i64>,
)
    ensures
        crate::walk::dispatched(index, rules, min_file_size, file, taken)
            == crate::walk::Dispatch::Skipped <==> {
            ||| paths::excluded(
                rules.platform,
                file.path@,
                rules.trash@,
                crate::outside::texts(rules.exclude@),
            )
            ||| file.meta is Some && file.meta->0.len < min_file_size
        },
{
}

/// A file that moved is refused only where the row that makes way for it has
/// nowhere to go: its old path with a mark and its id behind it is taken.
pub proof fn law_a_moved_file_is_refused_only_for_want_of_a_path(
    files: Seq<FileView>,
    platform: Platform,
    id: i64,
    path: Seq<char>,
    protect: Seq<Seq<char>>,
    now: i64,
)
    requires
        model::paths_unique(files),
    ensures
        indexing::repointed(files, platform, id, path, protect, now) is Err <==> exists|
            j: int,
            k: int,
        |
            {
                &&& 0 <= j < files.len()
                &&& 0 <= k < files.len()
                &&& (#[trigger] files[j]).path == path
                &&& files[j].id != id
                &&& (#[trigger] files[k]).path == path + "#replaced#"@ + text::decimal(
                    files[j].id as int,
                )
            },
{
    if indexing::repointed(files, platform, id, path, protect, now) is Err {
        let j = model::at_path(files, path)->0;
        assert(files[j].path == path);
        let aside = indexing::aside_path(path, files[j].id);
        let k = choose|k: int| 0 <= k < files.len() && (#[trigger] files[k]).path == aside;
        assert(files[k].path == path + "#replaced#"@ + text::decimal(files[j].id as int));
    }
    assert forall|j: int, k: int|
        0 <= j < files.len() && 0 <= k < files.len() && (#[trigger] files[j]).path == path
            && files[j].id != id && (#[trigger] files[k]).path == path + "#replaced#"@
            + text::decimal(files[j].id as int) implies indexing::repointed(
        files,
        platform,
        id,
        path,
        protect,
        now,
    ) is Err by {
        model::lemma_at_path(files, j);
        assert(model::has_path(files, indexing::aside_path(path, files[j].id)));
    }
}

} // verus!
