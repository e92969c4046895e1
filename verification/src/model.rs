//! The project index held in memory: files, recycle operations, settings,
//! fingerprints and cached photo verdicts, with the invariants between them.
use crate::text::{chars_of, same_chars, same_text};
use std::collections::HashMap;
use vstd::prelude::*;

verus! {

broadcast use vstd::std_specs::hash::group_hash_axioms;

// ---------------------------------------------------------------------------
// Rows
// ---------------------------------------------------------------------------

/// One indexed file.
pub struct FileRow {
    pub id: i64,
    pub path: String,
    pub size: i64,
    pub modified: i64,
    pub hash: String,
    pub protected: bool,
    pub approved: bool,
    pub present: bool,
    pub scanned_at: i64,
    /// Fingerprint of the head of a large file whose full hash was deferred.
    pub quick_hash: Option<String>,
    /// Physical identity; both zero where the platform has none.
    pub dev: i64,
    pub inode: i64,
    /// NTFS file reference number; zero elsewhere.
    pub frn: i64,
    /// Capture time of a photo in unix seconds; zero if unknown.
    pub exif_taken: i64,
}

#[verifier::ext_equal]
pub struct FileView {
    pub id: i64,
    pub path: Seq<char>,
    pub size: i64,
    pub modified: i64,
    pub hash: Seq<char>,
    pub protected: bool,
    pub approved: bool,
    pub present: bool,
    pub scanned_at: i64,
    pub quick_hash: Option<Seq<char>>,
    pub dev: i64,
    pub inode: i64,
    pub frn: i64,
    pub exif_taken: i64,
}

/// What became of a file that the project touched.
#[derive(Clone, Copy, Debug, PartialEq, Eq, Structural)]
pub enum OperationState {
    Trashed,
    Restored,
    Deleted,
    Hardlinked,
    Moved,
}

/// One recorded operation.
pub struct OperationRow {
    pub id: i64,
    pub file_id: i64,
    pub source_path: String,
    pub trash_path: String,
    pub hash: String,
    pub state: OperationState,
    pub created_at: i64,
    pub restored_at: Option<i64>,
    /// Shared by all operations of one user action.
    pub batch_id: Option<i64>,
}

#[verifier::ext_equal]
pub struct OperationView {
    pub id: i64,
    pub file_id: i64,
    pub source_path: Seq<char>,
    pub trash_path: Seq<char>,
    pub hash: Seq<char>,
    pub state: OperationState,
    pub created_at: i64,
    pub restored_at: Option<i64>,
    pub batch_id: Option<i64>,
}

/// Stored photo fingerprint: gradient hash, frequency hash, and the gradient
/// hash cut into lookup parts.
#[derive(Clone, Copy, Debug, PartialEq, Eq)]
pub struct PhotoPrint {
    pub dhash: i64,
    pub phash: i64,
    pub part_a: i64,
    pub part_b: i64,
    pub part_c: i64,
    pub part_d: i64,
    pub part_e: i64,
}

/// Stored document fingerprint.
#[derive(Clone, Copy, Debug, PartialEq, Eq)]
pub struct DocumentPrint {
    pub simhash: i64,
    pub token_count: i64,
}

/// Outcome of a pixel comparison, with the sizes and modification times that
/// the two files had in the index at that moment.
#[derive(Clone, Copy, Debug, PartialEq, Eq)]
pub struct Verdict {
    pub size_a: i64,
    pub mtime_a: i64,
    pub size_b: i64,
    pub mtime_b: i64,
    pub identical: bool,
    pub checked_at: i64,
}

/// One cached verdict, keyed by the two paths.
pub struct VerdictRow {
    pub path_a: String,
    pub path_b: String,
    pub verdict: Verdict,
}

pub open spec fn text_option(value: Option<String>) -> Option<Seq<char>> {
    match value {
        Some(text) => Some(text@),
        None => None,
    }
}

impl View for FileRow {
    type V = FileView;

    open spec fn view(&self) -> FileView {
        FileView {
            id: self.id,
            path: self.path@,
            size: self.size,
            modified: self.modified,
            hash: self.hash@,
            protected: self.protected,
            approved: self.approved,
            present: self.present,
            scanned_at: self.scanned_at,
            quick_hash: text_option(self.quick_hash),
            dev: self.dev,
            inode: self.inode,
            frn: self.frn,
            exif_taken: self.exif_taken,
        }
    }
}

impl View for OperationRow {
    type V = OperationView;

    open spec fn view(&self) -> OperationView {
        OperationView {
            id: self.id,
            file_id: self.file_id,
            source_path: self.source_path@,
            trash_path: self.trash_path@,
            hash: self.hash@,
            state: self.state,
            created_at: self.created_at,
            restored_at: self.restored_at,
            batch_id: self.batch_id,
        }
    }
}

impl OperationState {
    /// The name under which the state is stored.
    pub open spec fn name(self) -> Seq<char> {
        match self {
            OperationState::Trashed => "trashed"@,
            OperationState::Restored => "restored"@,
            OperationState::Deleted => "deleted"@,
            OperationState::Hardlinked => "hardlinked"@,
            OperationState::Moved => "moved"@,
        }
    }

    pub fn text(self) -> (name: String)
        ensures
            name@ == self.name(),
    {
        match self {
            OperationState::Trashed => "trashed".to_string(),
            OperationState::Restored => "restored".to_string(),
            OperationState::Deleted => "deleted".to_string(),
            OperationState::Hardlinked => "hardlinked".to_string(),
            OperationState::Moved => "moved".to_string(),
        }
    }

    /// The state stored under `name`.
    pub fn from_text(name: &str) -> (state: Option<OperationState>)
        ensures
            match state {
                Some(s) => s.name() == name@,
                None => forall|s: OperationState| #[trigger] s.name() != name@,
            },
    {
        if same_text(name, "trashed") {
            Some(OperationState::Trashed)
        } else if same_text(name, "restored") {
            Some(OperationState::Restored)
        } else if same_text(name, "deleted") {
            Some(OperationState::Deleted)
        } else if same_text(name, "hardlinked") {
            Some(OperationState::Hardlinked)
        } else if same_text(name, "moved") {
            Some(OperationState::Moved)
        } else {
            None
        }
    }
}

/// Two states never share a stored name.
pub proof fn law_state_names_are_distinct(a: OperationState, b: OperationState)
    ensures
        a.name() == b.name() <==> a == b,
{
    reveal_strlit("trashed");
    reveal_strlit("restored");
    reveal_strlit("deleted");
    reveal_strlit("hardlinked");
    reveal_strlit("moved");
    if a.name() == b.name() && a != b {
        assert(a.name()[0] == b.name()[0]);
        assert(a.name().len() == b.name().len());
    }
}

// ---------------------------------------------------------------------------
// Keyed tables
// ---------------------------------------------------------------------------

/// `rows` holds `key` at position `i`.
pub open spec fn keyed_at<K, V>(rows: Seq<(K, V)>, key: K, i: int) -> bool {
    0 <= i < rows.len() && rows[i].0 == key
}

/// No key occurs twice.
pub open spec fn keys_unique<K, V>(rows: Seq<(K, V)>) -> bool {
    forall|i: int, j: int| 0 <= i < j < rows.len() ==> #[trigger] rows[i].0 != #[trigger] rows[j].0
}

/// The table read as a map.
pub open spec fn table_map<K, V>(rows: Seq<(K, V)>) -> Map<K, V> {
    Map::new(
        |key: K| exists|i: int| keyed_at(rows, key, i),
        |key: K| rows[choose|i: int| keyed_at(rows, key, i)].1,
    )
}

/// A table with unique keys maps the key of each row to that row's value.
pub proof fn lemma_table_row<K, V>(rows: Seq<(K, V)>, i: int)
    requires
        keys_unique(rows),
        0 <= i < rows.len(),
    ensures
        table_map(rows).contains_key(rows[i].0),
        table_map(rows)[rows[i].0] == rows[i].1,
{
    let key = rows[i].0;
    assert(keyed_at(rows, key, i));
    let j = choose|j: int| keyed_at(rows, key, j);
    assert(keyed_at(rows, key, j));
    assert(i == j);
}

/// Replacing the value of a row replaces it in the map.
pub proof fn lemma_table_replace<K, V>(rows: Seq<(K, V)>, i: int, value: V)
    requires
        keys_unique(rows),
        0 <= i < rows.len(),
    ensures
        keys_unique(rows.update(i, (rows[i].0, value))),
        table_map(rows.update(i, (rows[i].0, value))) == table_map(rows).insert(rows[i].0, value),
{
    let next = rows.update(i, (rows[i].0, value));
    assert forall|a: int, b: int| 0 <= a < b < next.len() implies #[trigger] next[a].0
        != #[trigger] next[b].0 by {
        assert(next[a].0 == rows[a].0);
        assert(next[b].0 == rows[b].0);
    }
    let left = table_map(next);
    let right = table_map(rows).insert(rows[i].0, value);
    assert forall|key: K| left.contains_key(key) <==> right.contains_key(key) by {
        if left.contains_key(key) {
            let j = choose|j: int| keyed_at(next, key, j);
            assert(keyed_at(rows, key, j));
        }
        if right.contains_key(key) {
            if key == rows[i].0 {
                assert(keyed_at(next, key, i));
            } else {
                let j = choose|j: int| keyed_at(rows, key, j);
                assert(keyed_at(next, key, j));
            }
        }
    }
    assert forall|key: K| left.contains_key(key) implies left[key] == right[key] by {
        let j = choose|j: int| keyed_at(next, key, j);
        lemma_table_row(next, j);
        lemma_table_row(rows, j);
    }
    assert(left =~= right);
}

/// Appending a row with a new key inserts it into the map.
pub proof fn lemma_table_append<K, V>(rows: Seq<(K, V)>, key: K, value: V)
    requires
        keys_unique(rows),
        forall|i: int| !keyed_at(rows, key, i),
    ensures
        keys_unique(rows.push((key, value))),
        table_map(rows.push((key, value))) == table_map(rows).insert(key, value),
{
    let next = rows.push((key, value));
    assert forall|a: int, b: int| 0 <= a < b < next.len() implies #[trigger] next[a].0
        != #[trigger] next[b].0 by {
        assert(!keyed_at(rows, key, a));
        assert(next[a].0 == rows[a].0);
    }
    let left = table_map(next);
    let right = table_map(rows).insert(key, value);
    assert forall|k: K| left.contains_key(k) <==> right.contains_key(k) by {
        if left.contains_key(k) {
            let j = choose|j: int| keyed_at(next, k, j);
            if j < rows.len() {
                assert(keyed_at(rows, k, j));
            }
        }
        if right.contains_key(k) {
            if k == key {
                assert(keyed_at(next, k, rows.len() as int));
            } else {
                let j = choose|j: int| keyed_at(rows, k, j);
                assert(keyed_at(next, k, j));
            }
        }
    }
    assert forall|k: K| left.contains_key(k) implies left[k] == right[k] by {
        let j = choose|j: int| keyed_at(next, k, j);
        lemma_table_row(next, j);
        if j < rows.len() {
            assert(keyed_at(rows, k, j));
            lemma_table_row(rows, j);
            assert(!keyed_at(rows, key, j));
        }
    }
    assert(left =~= right);
}

/// Removing a row removes its key from the map.
pub proof fn lemma_table_remove<K, V>(rows: Seq<(K, V)>, i: int)
    requires
        keys_unique(rows),
        0 <= i < rows.len(),
    ensures
        keys_unique(rows.remove(i)),
        table_map(rows.remove(i)) == table_map(rows).remove(rows[i].0),
{
    let next = rows.remove(i);
    let key = rows[i].0;
    assert forall|a: int, b: int| 0 <= a < b < next.len() implies #[trigger] next[a].0
        != #[trigger] next[b].0 by {
        let x = if a < i {
            a
        } else {
            a + 1
        };
        let y = if b < i {
            b
        } else {
            b + 1
        };
        assert(next[a] == rows[x]);
        assert(next[b] == rows[y]);
    }
    let left = table_map(next);
    let right = table_map(rows).remove(key);
    assert forall|k: K| left.contains_key(k) <==> right.contains_key(k) by {
        if left.contains_key(k) {
            let j = choose|j: int| keyed_at(next, k, j);
            let x = if j < i {
                j
            } else {
                j + 1
            };
            assert(next[j] == rows[x]);
            assert(keyed_at(rows, k, x));
            assert(rows[x].0 != rows[i].0);
        }
        if right.contains_key(k) {
            let x = choose|x: int| keyed_at(rows, k, x);
            let j = if x < i {
                x
            } else {
                x - 1
            };
            assert(next[j] == rows[x]);
            assert(keyed_at(next, k, j));
        }
    }
    assert forall|k: K| left.contains_key(k) implies left[k] == right[k] by {
        let j = choose|j: int| keyed_at(next, k, j);
        let x = if j < i {
            j
        } else {
            j + 1
        };
        assert(next[j] == rows[x]);
        lemma_table_row(next, j);
        lemma_table_row(rows, x);
    }
    assert(left =~= right);
}

// ---------------------------------------------------------------------------
// The index
// ---------------------------------------------------------------------------

pub struct Index {
    pub settings: Vec<(String, String)>,
    pub files: Vec<FileRow>,
    pub operations: Vec<OperationRow>,
    pub photos: HashMap<i64, PhotoPrint>,
    pub documents: HashMap<i64, DocumentPrint>,
    pub verdicts: Vec<VerdictRow>,
}

#[verifier::ext_equal]
pub struct IndexView {
    pub settings: Map<Seq<char>, Seq<char>>,
    pub files: Seq<FileView>,
    pub operations: Seq<OperationView>,
    pub photos: Map<i64, PhotoPrint>,
    pub documents: Map<i64, DocumentPrint>,
    pub verdicts: Map<(Seq<char>, Seq<char>), Verdict>,
}

pub open spec fn setting_rows(rows: Seq<(String, String)>) -> Seq<(Seq<char>, Seq<char>)> {
    rows.map_values(|row: (String, String)| (row.0@, row.1@))
}

pub open spec fn file_rows(rows: Seq<FileRow>) -> Seq<FileView> {
    rows.map_values(|row: FileRow| row@)
}

pub open spec fn operation_rows(rows: Seq<OperationRow>) -> Seq<OperationView> {
    rows.map_values(|row: OperationRow| row@)
}

pub open spec fn verdict_rows(rows: Seq<VerdictRow>) -> Seq<((Seq<char>, Seq<char>), Verdict)> {
    rows.map_values(|row: VerdictRow| ((row.path_a@, row.path_b@), row.verdict))
}

impl View for Index {
    type V = IndexView;

    open spec fn view(&self) -> IndexView {
        IndexView {
            settings: table_map(setting_rows(self.settings@)),
            files: file_rows(self.files@),
            operations: operation_rows(self.operations@),
            photos: self.photos@,
            documents: self.documents@,
            verdicts: table_map(verdict_rows(self.verdicts@)),
        }
    }
}

/// Ids are positive and ascend with the position.
pub open spec fn ids_ascending(files: Seq<FileView>) -> bool {
    &&& files.len() > 0 ==> files[0].id >= 1
    &&& forall|i: int, j: int|
        0 <= i < j < files.len() ==> (#[trigger] files[i]).id < (#[trigger] files[j]).id
}

pub open spec fn paths_unique(files: Seq<FileView>) -> bool {
    forall|i: int, j: int|
        0 <= i < j < files.len() ==> (#[trigger] files[i]).path != (#[trigger] files[j]).path
}

pub open spec fn operation_ids_ascending(operations: Seq<OperationView>) -> bool {
    &&& operations.len() > 0 ==> operations[0].id >= 1
    &&& forall|i: int, j: int|
        0 <= i < j < operations.len() ==> (#[trigger] operations[i]).id < (
        #[trigger] operations[j]).id
}

/// Some row carries the id.
pub open spec fn has_id(files: Seq<FileView>, id: i64) -> bool {
    exists|i: int| 0 <= i < files.len() && (#[trigger] files[i]).id == id
}

impl IndexView {
    /// Rows are kept in id order, no two files share a path, and fingerprints
    /// and operations refer to indexed files.
    pub open spec fn wf(self) -> bool {
        &&& ids_ascending(self.files)
        &&& paths_unique(self.files)
        &&& operation_ids_ascending(self.operations)
        &&& forall|id: i64| #[trigger] self.photos.contains_key(id) ==> has_id(self.files, id)
        &&& forall|id: i64| #[trigger] self.documents.contains_key(id) ==> has_id(self.files, id)
        &&& forall|k: int|
            0 <= k < self.operations.len() ==> has_id(
                self.files,
                (#[trigger] self.operations[k]).file_id,
            )
    }
}

impl Index {
    pub open spec fn wf(self) -> bool {
        &&& self@.wf()
        &&& keys_unique(setting_rows(self.settings@))
        &&& keys_unique(verdict_rows(self.verdicts@))
    }

    /// An index without any row.
    pub fn new() -> (index: Index)
        ensures
            index.wf(),
            index@ == (IndexView {
                settings: Map::empty(),
                files: Seq::empty(),
                operations: Seq::empty(),
                photos: Map::empty(),
                documents: Map::empty(),
                verdicts: Map::empty(),
            }),
    {
        let index = Index {
            settings: Vec::new(),
            files: Vec::new(),
            operations: Vec::new(),
            photos: HashMap::new(),
            documents: HashMap::new(),
            verdicts: Vec::new(),
        };
        proof {
            assert(index@.settings =~= Map::empty());
            assert(index@.files =~= Seq::empty());
            assert(index@.operations =~= Seq::empty());
            assert(index@.verdicts =~= Map::empty());
        }
        index
    }
}

/// A table cannot hold more rows than there are ids.
pub proof fn lemma_file_count(files: Seq<FileView>, i: int)
    requires
        ids_ascending(files),
        0 <= i < files.len(),
    ensures
        files[i].id >= i + 1,
        i < i64::MAX,
    decreases i,
{
    if i > 0 {
        lemma_file_count(files, i - 1);
        assert(files[i - 1].id < files[i].id);
    }
}

/// A table cannot hold more rows than there are ids.
pub proof fn lemma_operation_count(operations: Seq<OperationView>, i: int)
    requires
        operation_ids_ascending(operations),
        0 <= i < operations.len(),
    ensures
        operations[i].id >= i + 1,
        i < i64::MAX,
    decreases i,
{
    if i > 0 {
        lemma_operation_count(operations, i - 1);
        assert(operations[i - 1].id < operations[i].id);
    }
}

/// Rows that keep their ids keep everything reachable that refers to them.
pub proof fn lemma_ids_kept(old_files: Seq<FileView>, new_files: Seq<FileView>)
    requires
        old_files.len() <= new_files.len(),
        forall|i: int| 0 <= i < old_files.len() ==> (#[trigger] new_files[i]).id == old_files[i].id,
    ensures
        forall|id: i64| #[trigger] has_id(old_files, id) ==> has_id(new_files, id),
{
    assert forall|id: i64| #[trigger] has_id(old_files, id) implies has_id(new_files, id) by {
        let i = choose|i: int| 0 <= i < old_files.len() && (#[trigger] old_files[i]).id == id;
        assert(new_files[i].id == id);
    }
}

/// An index that holds the ids of a well-formed one, and refers to no others,
/// is well formed where its own rows are.
pub proof fn lemma_wf_carries(before: IndexView, after: IndexView)
    requires
        before.wf(),
        ids_ascending(after.files),
        paths_unique(after.files),
        operation_ids_ascending(after.operations),
        forall|id: i64| #[trigger] has_id(before.files, id) ==> has_id(after.files, id),
        forall|id: i64| #[trigger] after.photos.contains_key(id) ==> before.photos.contains_key(id),
        forall|id: i64| #[trigger]
            after.documents.contains_key(id) ==> before.documents.contains_key(id),
        forall|k: int|
            0 <= k < after.operations.len() ==> has_id(
                before.files,
                (#[trigger] after.operations[k]).file_id,
            ),
    ensures
        after.wf(),
{
    assert forall|id: i64| #[trigger] after.photos.contains_key(id) implies has_id(
        after.files,
        id,
    ) by {
        assert(before.photos.contains_key(id));
        assert(has_id(before.files, id));
    }
    assert forall|id: i64| #[trigger] after.documents.contains_key(id) implies has_id(
        after.files,
        id,
    ) by {
        assert(before.documents.contains_key(id));
        assert(has_id(before.files, id));
    }
}

// ---------------------------------------------------------------------------
// Looking rows up
// ---------------------------------------------------------------------------

/// The position of the row with this id.
pub open spec fn at_id(files: Seq<FileView>, id: i64) -> Option<int> {
    if has_id(files, id) {
        Some(choose|i: int| 0 <= i < files.len() && (#[trigger] files[i]).id == id)
    } else {
        None
    }
}

pub open spec fn has_path(files: Seq<FileView>, path: Seq<char>) -> bool {
    exists|i: int| 0 <= i < files.len() && (#[trigger] files[i]).path == path
}

/// The position of the row with this path.
pub open spec fn at_path(files: Seq<FileView>, path: Seq<char>) -> Option<int> {
    if has_path(files, path) {
        Some(choose|i: int| 0 <= i < files.len() && (#[trigger] files[i]).path == path)
    } else {
        None
    }
}

pub open spec fn has_operation(operations: Seq<OperationView>, id: i64) -> bool {
    exists|i: int| 0 <= i < operations.len() && (#[trigger] operations[i]).id == id
}

/// The position of the operation with this id.
pub open spec fn at_operation(operations: Seq<OperationView>, id: i64) -> Option<int> {
    if has_operation(operations, id) {
        Some(choose|i: int| 0 <= i < operations.len() && (#[trigger] operations[i]).id == id)
    } else {
        None
    }
}

pub proof fn lemma_at_id(files: Seq<FileView>, i: int)
    requires
        ids_ascending(files),
        0 <= i < files.len(),
    ensures
        at_id(files, files[i].id) == Some(i),
{
    let id = files[i].id;
    assert(has_id(files, id));
    let j = choose|j: int| 0 <= j < files.len() && (#[trigger] files[j]).id == id;
    assert(i == j);
}

pub proof fn lemma_at_path(files: Seq<FileView>, i: int)
    requires
        paths_unique(files),
        0 <= i < files.len(),
    ensures
        at_path(files, files[i].path) == Some(i),
{
    let path = files[i].path;
    assert(has_path(files, path));
    let j = choose|j: int| 0 <= j < files.len() && (#[trigger] files[j]).path == path;
    assert(i == j);
}

pub proof fn lemma_at_operation(operations: Seq<OperationView>, i: int)
    requires
        operation_ids_ascending(operations),
        0 <= i < operations.len(),
    ensures
        at_operation(operations, operations[i].id) == Some(i),
{
    let id = operations[i].id;
    assert(has_operation(operations, id));
    let j = choose|j: int| 0 <= j < operations.len() && (#[trigger] operations[j]).id == id;
    assert(i == j);
}

pub open spec fn position(found: Option<usize>) -> Option<int> {
    match found {
        Some(i) => Some(i as int),
        None => None,
    }
}

pub fn find_id(files: &Vec<FileRow>, id: i64) -> (found: Option<usize>)
    requires
        ids_ascending(file_rows(files@)),
    ensures
        position(found) == at_id(file_rows(files@), id),
        found is Some ==> found->0 < files@.len() && files@[found->0 as int].id == id,
{
    let ghost views = file_rows(files@);
    for i in 0..files.len()
        invariant
            views == file_rows(files@),
            ids_ascending(views),
            forall|k: int| 0 <= k < i ==> (#[trigger] views[k]).id != id,
    {
        proof {
            assert(views[i as int].id == files@[i as int].id);
        }
        if files[i].id == id {
            proof {
                lemma_at_id(views, i as int);
            }
            return Some(i);
        }
    }
    None
}

pub fn find_path(files: &Vec<FileRow>, path: &str) -> (found: Option<usize>)
    requires
        paths_unique(file_rows(files@)),
    ensures
        position(found) == at_path(file_rows(files@), path@),
        found is Some ==> found->0 < files@.len() && files@[found->0 as int].path@ == path@,
{
    let ghost views = file_rows(files@);
    let wanted = chars_of(path);
    for i in 0..files.len()
        invariant
            views == file_rows(files@),
            wanted@ == path@,
            paths_unique(views),
            forall|k: int| 0 <= k < i ==> (#[trigger] views[k]).path != path@,
    {
        proof {
            assert(views[i as int].path == files@[i as int].path@);
        }
        let own = chars_of(files[i].path.as_str());
        if same_chars(own.as_slice(), wanted.as_slice()) {
            proof {
                lemma_at_path(views, i as int);
            }
            return Some(i);
        }
    }
    None
}

pub fn find_operation(operations: &Vec<OperationRow>, id: i64) -> (found: Option<usize>)
    requires
        operation_ids_ascending(operation_rows(operations@)),
    ensures
        position(found) == at_operation(operation_rows(operations@), id),
        found is Some ==> found->0 < operations@.len() && operations@[found->0 as int].id == id,
{
    let ghost views = operation_rows(operations@);
    for i in 0..operations.len()
        invariant
            views == operation_rows(operations@),
            operation_ids_ascending(views),
            forall|k: int| 0 <= k < i ==> (#[trigger] views[k]).id != id,
    {
        proof {
            assert(views[i as int].id == operations@[i as int].id);
        }
        if operations[i].id == id {
            proof {
                lemma_at_operation(views, i as int);
            }
            return Some(i);
        }
    }
    None
}

/// The position of the live row with this id.
pub open spec fn live_at(files: Seq<FileView>, id: i64) -> Option<int> {
    match at_id(files, id) {
        Some(i) => if files[i].present {
            Some(i)
        } else {
            None
        },
        None => None,
    }
}

pub fn find_live(files: &Vec<FileRow>, id: i64) -> (found: Option<usize>)
    requires
        ids_ascending(file_rows(files@)),
    ensures
        position(found) == live_at(file_rows(files@), id),
        found is Some ==> found->0 < files@.len() && files@[found->0 as int].id == id
            && files@[found->0 as int].present,
{
    match find_id(files, id) {
        Some(i) => {
            proof {
                assert(file_rows(files@)[i as int] == files@[i as int]@);
            }
            if files[i].present {
                Some(i)
            } else {
                None
            }
        },
        None => None,
    }
}

impl IndexView {
    /// The index with one file row replaced.
    pub open spec fn with_file(self, i: int, row: FileView) -> IndexView {
        IndexView { files: self.files.update(i, row), ..self }
    }
}

/// Replacing a row by one with the same id and path keeps the index well
/// formed.
pub proof fn lemma_wf_with_file(index: IndexView, i: int, row: FileView)
    requires
        index.wf(),
        0 <= i < index.files.len(),
        row.id == index.files[i].id,
        row.path == index.files[i].path,
    ensures
        index.with_file(i, row).wf(),
{
    let after = index.with_file(i, row);
    lemma_ids_kept(index.files, after.files);
    assert forall|a: int, b: int| 0 <= a < b < after.files.len() implies (
    #[trigger] after.files[a]).id < (#[trigger] after.files[b]).id by {
        assert(index.files[a].id < index.files[b].id);
    }
    assert forall|a: int, b: int| 0 <= a < b < after.files.len() implies (
    #[trigger] after.files[a]).path != (#[trigger] after.files[b]).path by {
        assert(index.files[a].path != index.files[b].path);
    }
    lemma_wf_carries(index, after);
}

// ---------------------------------------------------------------------------
// Copies
// ---------------------------------------------------------------------------

/// The row is a live copy of the content `(hash, size)`.
pub open spec fn is_copy(file: FileView, hash: Seq<char>, size: i64) -> bool {
    file.present && file.hash == hash && file.size == size
}

/// Number of live copies of the content `(hash, size)`.
pub open spec fn copies(files: Seq<FileView>, hash: Seq<char>, size: i64) -> nat
    decreases files.len(),
{
    if files.len() == 0 {
        0
    } else {
        copies(files.drop_last(), hash, size) + (if is_copy(files.last(), hash, size) {
            1nat
        } else {
            0nat
        })
    }
}

/// The row at `i` is live and has at least one live twin.
pub open spec fn exact_duplicate(files: Seq<FileView>, i: int) -> bool {
    copies(files, files[i].hash, files[i].size) > 1
}

/// Changing one row changes the number of copies by what that row counts.
pub proof fn lemma_copies_update(files: Seq<FileView>, i: int, row: FileView, hash: Seq<char>, size: i64)
    requires
        0 <= i < files.len(),
    ensures
        copies(files.update(i, row), hash, size) == copies(files, hash, size) - (if is_copy(
            files[i],
            hash,
            size,
        ) {
            1int
        } else {
            0
        }) + (if is_copy(row, hash, size) {
            1int
        } else {
            0
        }),
    decreases files.len(),
{
    let next = files.update(i, row);
    if i == files.len() - 1 {
        assert(next.drop_last() =~= files.drop_last());
    } else {
        assert(next.drop_last() =~= files.drop_last().update(i, row));
        lemma_copies_update(files.drop_last(), i, row, hash, size);
    }
}

/// A live copy somewhere means a positive count, and the other way round.
pub proof fn lemma_copies_positive(files: Seq<FileView>, hash: Seq<char>, size: i64)
    ensures
        copies(files, hash, size) > 0 <==> exists|i: int|
            0 <= i < files.len() && is_copy(#[trigger] files[i], hash, size),
        copies(files, hash, size) <= files.len(),
    decreases files.len(),
{
    if files.len() > 0 {
        let rest = files.drop_last();
        lemma_copies_positive(rest, hash, size);
        if copies(rest, hash, size) > 0 {
            let i = choose|i: int| 0 <= i < rest.len() && is_copy(#[trigger] rest[i], hash, size);
            assert(files[i] == rest[i]);
        }
        if is_copy(files.last(), hash, size) {
            assert(is_copy(files[files.len() - 1], hash, size));
        }
        if exists|i: int| 0 <= i < files.len() && is_copy(#[trigger] files[i], hash, size) {
            let i = choose|i: int| 0 <= i < files.len() && is_copy(#[trigger] files[i], hash, size);
            if i < rest.len() {
                assert(is_copy(rest[i], hash, size));
            }
        }
    }
}

/// Another live copy beside the one at `i`.
pub open spec fn has_twin(files: Seq<FileView>, i: int) -> bool {
    exists|j: int|
        0 <= j < files.len() && j != i && is_copy(#[trigger] files[j], files[i].hash, files[i].size)
}

/// A live row is an exact duplicate exactly when it has a live twin.
pub proof fn lemma_duplicate_has_twin(files: Seq<FileView>, i: int)
    requires
        0 <= i < files.len(),
        files[i].present,
    ensures
        exact_duplicate(files, i) <==> has_twin(files, i),
{
    let hash = files[i].hash;
    let size = files[i].size;
    let gone = FileView { present: false, ..files[i] };
    let next = files.update(i, gone);
    lemma_copies_update(files, i, gone, hash, size);
    lemma_copies_positive(next, hash, size);
    if exact_duplicate(files, i) {
        let j = choose|j: int| 0 <= j < next.len() && is_copy(#[trigger] next[j], hash, size);
        assert(j != i);
        assert(is_copy(files[j], hash, size));
    }
    if has_twin(files, i) {
        let j = choose|j: int| 0 <= j < files.len() && j != i && is_copy(#[trigger] files[j], hash, size);
        assert(is_copy(next[j], hash, size));
    }
}

/// Number of live copies of the content `(hash, size)`.
pub fn count_copies(files: &Vec<FileRow>, hash: &str, size: i64) -> (n: usize)
    ensures
        n == copies(file_rows(files@), hash@, size),
{
    let wanted = chars_of(hash);
    let ghost views = file_rows(files@);
    let mut n: usize = 0;
    for i in 0..files.len()
        invariant
            views == file_rows(files@),
            wanted@ == hash@,
            n == copies(views.take(i as int), hash@, size),
            n <= i,
    {
        proof {
            assert(views.take(i + 1).drop_last() =~= views.take(i as int));
            assert(views.take(i + 1).last() == views[i as int]);
            assert(views[i as int] == files@[i as int]@);
        }
        if files[i].present && files[i].size == size {
            let own = chars_of(files[i].hash.as_str());
            if same_chars(own.as_slice(), wanted.as_slice()) {
                n = n + 1;
            }
        }
    }
    proof {
        assert(views.take(views.len() as int) =~= views);
    }
    n
}

// ---------------------------------------------------------------------------
// New ids
// ---------------------------------------------------------------------------

/// Message for a table whose ids are used up.
pub open spec fn table_full() -> Seq<char> {
    "database or disk is full"@
}

/// The id that the next file gets: one more than the largest so far.
pub open spec fn next_file_id(files: Seq<FileView>) -> Option<i64> {
    if files.len() == 0 {
        Some(1i64)
    } else if files.last().id == i64::MAX {
        None
    } else {
        Some((files.last().id + 1) as i64)
    }
}

/// The id that the next operation gets: one more than the largest so far.
pub open spec fn next_operation_id(operations: Seq<OperationView>) -> Option<i64> {
    if operations.len() == 0 {
        Some(1i64)
    } else if operations.last().id == i64::MAX {
        None
    } else {
        Some((operations.last().id + 1) as i64)
    }
}

pub fn new_file_id(files: &Vec<FileRow>) -> (id: Option<i64>)
    ensures
        id == next_file_id(file_rows(files@)),
{
    let n = files.len();
    if n == 0 {
        return Some(1);
    }
    let last: i64 = files[n - 1].id;
    proof {
        assert(file_rows(files@).last() == files@[n - 1]@);
    }
    if last == i64::MAX {
        None
    } else {
        Some(last + 1)
    }
}

pub fn new_operation_id(operations: &Vec<OperationRow>) -> (id: Option<i64>)
    ensures
        id == next_operation_id(operation_rows(operations@)),
{
    let n = operations.len();
    if n == 0 {
        return Some(1);
    }
    let last: i64 = operations[n - 1].id;
    proof {
        assert(operation_rows(operations@).last() == operations@[n - 1]@);
    }
    if last == i64::MAX {
        None
    } else {
        Some(last + 1)
    }
}

} // verus!
