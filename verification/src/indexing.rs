//! Bringing what a scan found into the index: new and changed files, files
//! that moved, files that are gone, and rows that nothing refers to any more.
use crate::like::{beginning_pattern, like_match};
use crate::model::{
    find_id, find_path, new_file_id, DocumentPrint, FileRow, FileView, Index, IndexView, PhotoPrint,
};
use crate::paths::{is_protected_path, Platform};
use crate::text::{chars_of, has_prefix, joined, same_text, signed_text};
use crate::{like, lists, model, outside, paths, text};
use vstd::prelude::*;

verus! {

broadcast use vstd::std_specs::hash::group_hash_axioms;

/// What a scan found out about one file.
pub struct ProcessedEntry {
    pub path_text: String,
    pub size: i64,
    pub modified: i64,
    /// Empty while the full hash of a large file is deferred.
    pub hash: String,
    /// Fingerprint of the head, for large files only.
    pub quick_hash: Option<String>,
    pub dev: i64,
    pub inode: i64,
    pub frn: i64,
    pub exif_taken: i64,
    pub photo: Option<(u64, u64)>,
    pub document: Option<(u64, i64)>,
}

#[verifier::ext_equal]
pub struct EntryView {
    pub path: Seq<char>,
    pub size: i64,
    pub modified: i64,
    pub hash: Seq<char>,
    pub quick_hash: Option<Seq<char>>,
    pub dev: i64,
    pub inode: i64,
    pub frn: i64,
    pub exif_taken: i64,
    pub photo: Option<(u64, u64)>,
    pub document: Option<(u64, i64)>,
}

impl View for ProcessedEntry {
    type V = EntryView;

    open spec fn view(&self) -> EntryView {
        EntryView {
            path: self.path_text@,
            size: self.size,
            modified: self.modified,
            hash: self.hash@,
            quick_hash: model::text_option(self.quick_hash),
            dev: self.dev,
            inode: self.inode,
            frn: self.frn,
            exif_taken: self.exif_taken,
            photo: self.photo,
            document: self.document,
        }
    }
}

/// Was the path indexed before?
#[derive(Clone, Copy, Debug, PartialEq, Eq, Structural)]
pub enum IndexOutcome {
    New,
    Updated,
}

// ---------------------------------------------------------------------------
// Fingerprints as stored
// ---------------------------------------------------------------------------

/// The bits of a 64-bit word read as a signed number.
pub open spec fn signed_word(word: u64) -> i64 {
    if word < 0x8000_0000_0000_0000 {
        word as i64
    } else {
        (word - 0x1_0000_0000_0000_0000) as i64
    }
}

pub fn as_signed(word: u64) -> (n: i64)
    ensures
        n == signed_word(word),
{
    if word < 0x8000_0000_0000_0000 {
        word as i64
    } else {
        (word as i128 - 0x1_0000_0000_0000_0000) as i64
    }
}

/// The gradient hash cut into four parts of thirteen bits and one of twelve.
pub open spec fn parts_of(hash: u64) -> (int, int, int, int, int) {
    (
        hash as int / 0x8_0000_0000_0000,
        hash as int / 0x40_0000_0000 % 0x2000,
        hash as int / 0x200_0000 % 0x2000,
        hash as int / 0x1000 % 0x2000,
        hash as int % 0x1000,
    )
}

/// Cut a gradient hash into lookup parts.
pub fn fingerprint_parts(hash: u64) -> (parts: [i64; 5])
    ensures
        parts@[0] == parts_of(hash).0,
        parts@[1] == parts_of(hash).1,
        parts@[2] == parts_of(hash).2,
        parts@[3] == parts_of(hash).3,
        parts@[4] == parts_of(hash).4,
{
    [
        (hash / 0x8_0000_0000_0000) as i64,
        (hash / 0x40_0000_0000 % 0x2000) as i64,
        (hash / 0x200_0000 % 0x2000) as i64,
        (hash / 0x1000 % 0x2000) as i64,
        (hash % 0x1000) as i64,
    ]
}

/// The parts hold every bit of the hash.
pub proof fn law_parts_recompose(hash: u64)
    ensures
        ({
            let (a, b, c, d, e) = parts_of(hash);
            hash == a * 0x8_0000_0000_0000 + b * 0x40_0000_0000 + c * 0x200_0000 + d * 0x1000 + e
        }),
{
    assert(hash == (hash / 0x8_0000_0000_0000) * 0x8_0000_0000_0000 + (hash / 0x40_0000_0000
        % 0x2000) * 0x40_0000_0000 + (hash / 0x200_0000 % 0x2000) * 0x200_0000 + (hash / 0x1000
        % 0x2000) * 0x1000 + hash % 0x1000) by (bit_vector);
}

/// Taking the parts by shifting and masking gives the same numbers.
pub proof fn law_parts_are_bit_fields(hash: u64)
    ensures
        parts_of(hash).0 == (hash >> 51) & 0x1fff,
        parts_of(hash).1 == (hash >> 38) & 0x1fff,
        parts_of(hash).2 == (hash >> 25) & 0x1fff,
        parts_of(hash).3 == (hash >> 12) & 0x1fff,
        parts_of(hash).4 == hash & 0x0fff,
{
    assert((hash >> 51) & 0x1fff == hash / 0x8_0000_0000_0000) by (bit_vector);
    assert((hash >> 38) & 0x1fff == hash / 0x40_0000_0000 % 0x2000) by (bit_vector);
    assert((hash >> 25) & 0x1fff == hash / 0x200_0000 % 0x2000) by (bit_vector);
    assert((hash >> 12) & 0x1fff == hash / 0x1000 % 0x2000) by (bit_vector);
    assert(hash & 0x0fff == hash % 0x1000) by (bit_vector);
}

/// The hashes differ at most in the bits at these four places.
pub open spec fn differ_within(a: u64, b: u64, p: u64, q: u64, r: u64, s: u64) -> bool {
    (a ^ b) & !((1u64 << p) | (1u64 << q) | (1u64 << r) | (1u64 << s)) == 0
}

/// Two hashes that differ in at most four bits share a part, so one of the
/// parts finds the other hash.
pub proof fn law_close_hashes_share_a_part(a: u64, b: u64, p: u64, q: u64, r: u64, s: u64)
    requires
        p < 64 && q < 64 && r < 64 && s < 64,
        differ_within(a, b, p, q, r, s),
    ensures
        ({
            let (a1, a2, a3, a4, a5) = parts_of(a);
            let (b1, b2, b3, b4, b5) = parts_of(b);
            a1 == b1 || a2 == b2 || a3 == b3 || a4 == b4 || a5 == b5
        }),
{
    law_parts_are_bit_fields(a);
    law_parts_are_bit_fields(b);
    assert((a >> 51) & 0x1fff == (b >> 51) & 0x1fff || (a >> 38) & 0x1fff == (b >> 38) & 0x1fff || (
    a >> 25) & 0x1fff == (b >> 25) & 0x1fff || (a >> 12) & 0x1fff == (b >> 12) & 0x1fff || a
        & 0x0fff == b & 0x0fff) by (bit_vector)
        requires
            p < 64,
            q < 64,
            r < 64,
            s < 64,
            (a ^ b) & !((1u64 << p) | (1u64 << q) | (1u64 << r) | (1u64 << s)) == 0,
    ;
}

pub open spec fn photo_print(photo: (u64, u64)) -> PhotoPrint {
    let (a, b, c, d, e) = parts_of(photo.0);
    PhotoPrint {
        dhash: signed_word(photo.0),
        phash: signed_word(photo.1),
        part_a: a as i64,
        part_b: b as i64,
        part_c: c as i64,
        part_d: d as i64,
        part_e: e as i64,
    }
}

pub open spec fn document_print(document: (u64, i64)) -> DocumentPrint {
    DocumentPrint { simhash: signed_word(document.0), token_count: document.1 }
}

fn make_photo_print(photo: (u64, u64)) -> (print: PhotoPrint)
    ensures
        print == photo_print(photo),
{
    let parts = fingerprint_parts(photo.0);
    PhotoPrint {
        dhash: as_signed(photo.0),
        phash: as_signed(photo.1),
        part_a: parts[0],
        part_b: parts[1],
        part_c: parts[2],
        part_d: parts[3],
        part_e: parts[4],
    }
}

// ---------------------------------------------------------------------------
// Writing one entry
// ---------------------------------------------------------------------------

/// The row of a file that was found, where `old` is the row of the same path.
/// A file reference or capture time that was not found keeps its old value,
/// the latter only while the content is the same.
pub open spec fn refreshed(
    old: FileView,
    entry: EntryView,
    protected: bool,
    now: i64,
) -> FileView {
    FileView {
        id: old.id,
        path: old.path,
        size: entry.size,
        modified: entry.modified,
        hash: entry.hash,
        protected,
        approved: false,
        present: true,
        scanned_at: now,
        quick_hash: entry.quick_hash,
        dev: entry.dev,
        inode: entry.inode,
        frn: if entry.frn != 0 {
            entry.frn
        } else {
            old.frn
        },
        exif_taken: if entry.exif_taken != 0 {
            entry.exif_taken
        } else if entry.hash != old.hash {
            0
        } else {
            old.exif_taken
        },
    }
}

/// The row of a file that was found for the first time.
pub open spec fn new_row(id: i64, entry: EntryView, protected: bool, now: i64) -> FileView {
    FileView {
        id,
        path: entry.path,
        size: entry.size,
        modified: entry.modified,
        hash: entry.hash,
        protected,
        approved: false,
        present: true,
        scanned_at: now,
        quick_hash: entry.quick_hash,
        dev: entry.dev,
        inode: entry.inode,
        frn: entry.frn,
        exif_taken: entry.exif_taken,
    }
}

/// The fingerprints of one file replaced by those just found.
pub open spec fn with_prints(index: IndexView, id: i64, entry: EntryView) -> IndexView {
    IndexView {
        photos: match entry.photo {
            Some(photo) => index.photos.insert(id, photo_print(photo)),
            None => index.photos.remove(id),
        },
        documents: match entry.document {
            Some(document) => index.documents.insert(id, document_print(document)),
            None => index.documents.remove(id),
        },
        ..index
    }
}

/// The index with one found file written, and whether its path is new.
pub open spec fn written(
    index: IndexView,
    platform: Platform,
    entry: EntryView,
    protect: Seq<Seq<char>>,
    now: i64,
) -> Result<(IndexView, IndexOutcome), Seq<char>> {
    let protected = paths::protected_by(platform, entry.path, protect);
    match model::at_path(index.files, entry.path) {
        Some(i) => Ok(
            (
                with_prints(
                    index.with_file(i, refreshed(index.files[i], entry, protected, now)),
                    index.files[i].id,
                    entry,
                ),
                IndexOutcome::Updated,
            ),
        ),
        None => match model::next_file_id(index.files) {
            None => Err(model::table_full()),
            Some(id) => Ok(
                (
                    with_prints(
                        IndexView {
                            files: index.files.push(new_row(id, entry, protected, now)),
                            ..index
                        },
                        id,
                        entry,
                    ),
                    IndexOutcome::New,
                ),
            ),
        },
    }
}

/// Appending a row under the next id with a path of its own keeps the index
/// well formed.
proof fn lemma_wf_with_new_file(index: IndexView, row: FileView)
    requires
        index.wf(),
        model::next_file_id(index.files) == Some(row.id),
        !model::has_path(index.files, row.path),
    ensures
        (IndexView { files: index.files.push(row), ..index }).wf(),
{
    let after = IndexView { files: index.files.push(row), ..index };
    model::lemma_ids_kept(index.files, after.files);
    assert forall|a: int, b: int| 0 <= a < b < after.files.len() implies (
    #[trigger] after.files[a]).id < (#[trigger] after.files[b]).id by {
        if b == index.files.len() {
            let last = index.files.len() - 1;
            if a < last {
                assert(index.files[a].id < index.files[last].id);
            }
        } else {
            assert(index.files[a].id < index.files[b].id);
        }
    }
    assert forall|a: int, b: int| 0 <= a < b < after.files.len() implies (
    #[trigger] after.files[a]).path != (#[trigger] after.files[b]).path by {
        if b == index.files.len() {
            assert(index.files[a].path != row.path);
        } else {
            assert(index.files[a].path != index.files[b].path);
        }
    }
    if index.files.len() > 0 {
        assert(after.files[0] == index.files[0]);
    } else {
        assert(after.files[0].id == 1);
    }
    model::lemma_wf_carries(index, after);
}

/// Replacing the fingerprints of an indexed file keeps the index well formed.
proof fn lemma_wf_with_prints(index: IndexView, id: i64, entry: EntryView)
    requires
        index.wf(),
        model::has_id(index.files, id),
    ensures
        with_prints(index, id, entry).wf(),
{
    let after = with_prints(index, id, entry);
    assert forall|k: i64| #[trigger] after.photos.contains_key(k) implies model::has_id(
        after.files,
        k,
    ) by {
        if k != id {
            assert(index.photos.contains_key(k));
        }
    }
    assert forall|k: i64| #[trigger] after.documents.contains_key(k) implies model::has_id(
        after.files,
        k,
    ) by {
        if k != id {
            assert(index.documents.contains_key(k));
        }
    }
}

fn copy_option(value: &Option<String>) -> (copy: Option<String>)
    ensures
        model::text_option(copy) == model::text_option(*value),
{
    match value {
        Some(inner) => Some(inner.clone()),
        None => None,
    }
}

fn put_prints(index: &mut Index, id: i64, entry: &ProcessedEntry)
    requires
        old(index).wf(),
        model::has_id(old(index)@.files, id),
    ensures
        final(index).wf(),
        final(index)@ == with_prints(old(index)@, id, entry@),
{
    proof {
        lemma_wf_with_prints(index@, id, entry@);
    }
    match entry.photo {
        Some(photo) => {
            index.photos.insert(id, make_photo_print(photo));
        },
        None => {
            index.photos.remove(&id);
        },
    }
    match entry.document {
        Some(document) => {
            index.documents.insert(
                id,
                DocumentPrint { simhash: as_signed(document.0), token_count: document.1 },
            );
        },
        None => {
            index.documents.remove(&id);
        },
    }
    proof {
        assert(index@.photos =~= with_prints(old(index)@, id, entry@).photos);
        assert(index@.documents =~= with_prints(old(index)@, id, entry@).documents);
    }
}

/// Write what was found about one file. The protection rules are applied
/// afresh, and an earlier approval ends.
pub fn write_entry(
    index: &mut Index,
    platform: Platform,
    entry: &ProcessedEntry,
    protect: &[String],
    now: i64,
) -> (result: Result<IndexOutcome, String>)
    requires
        old(index).wf(),
    ensures
        final(index).wf(),
        match written(old(index)@, platform, entry@, outside::texts(protect@), now) {
            Err(error) => result is Err && result->Err_0@ == error && final(index)@ == old(index)@,
            Ok((after, outcome)) => result is Ok && result->Ok_0 == outcome && final(index)@
                == after,
        },
{
    let ghost before = index@;
    let protected = is_protected_path(platform, entry.path_text.as_str(), protect);
    match find_path(&index.files, entry.path_text.as_str()) {
        Some(i) => {
            proof {
                assert(before.files[i as int] == index.files@[i as int]@);
            }
            let id: i64 = index.files[i].id;
            let same_hash = same_text(entry.hash.as_str(), index.files[i].hash.as_str());
            index.files[i].size = entry.size;
            index.files[i].modified = entry.modified;
            index.files[i].hash = entry.hash.clone();
            index.files[i].protected = protected;
            index.files[i].approved = false;
            index.files[i].present = true;
            index.files[i].scanned_at = now;
            index.files[i].quick_hash = copy_option(&entry.quick_hash);
            index.files[i].dev = entry.dev;
            index.files[i].inode = entry.inode;
            if entry.frn != 0 {
                index.files[i].frn = entry.frn;
            }
            if entry.exif_taken != 0 {
                index.files[i].exif_taken = entry.exif_taken;
            } else if !same_hash {
                index.files[i].exif_taken = 0;
            }
            proof {
                let row = refreshed(before.files[i as int], entry@, protected, now);
                assert(index.files@[i as int]@ == row);
                assert(index@.files =~= before.files.update(i as int, row));
                model::lemma_wf_with_file(before, i as int, row);
                assert(index@ == before.with_file(i as int, row));
                assert(index@.files[i as int].id == id);
                assert(model::has_id(index@.files, id));
            }
            put_prints(index, id, entry);
            Ok(IndexOutcome::Updated)
        },
        None => {
            let id: i64 = match new_file_id(&index.files) {
                None => return Err("database or disk is full".to_string()),
                Some(id) => id,
            };
            let row = FileRow {
                id,
                path: entry.path_text.clone(),
                size: entry.size,
                modified: entry.modified,
                hash: entry.hash.clone(),
                protected,
                approved: false,
                present: true,
                scanned_at: now,
                quick_hash: copy_option(&entry.quick_hash),
                dev: entry.dev,
                inode: entry.inode,
                frn: entry.frn,
                exif_taken: entry.exif_taken,
            };
            index.files.push(row);
            proof {
                let view = new_row(id, entry@, protected, now);
                assert(row@ == view);
                assert(index@.files =~= before.files.push(view));
                lemma_wf_with_new_file(before, view);
                assert(index@.files[before.files.len() as int].id == id);
                assert(model::has_id(index@.files, id));
            }
            put_prints(index, id, entry);
            Ok(IndexOutcome::New)
        },
    }
}

/// After a file was written it is live under its path with what was found,
/// protected exactly where a rule covers it, and not approved.
pub proof fn law_written_file_is_found(
    index: IndexView,
    platform: Platform,
    entry: EntryView,
    protect: Seq<Seq<char>>,
    now: i64,
)
    requires
        index.wf(),
        written(index, platform, entry, protect, now) is Ok,
    ensures
        ({
            let after = written(index, platform, entry, protect, now)->Ok_0.0;
            &&& model::at_path(after.files, entry.path) is Some
            &&& {
                let row = after.files[model::at_path(after.files, entry.path)->0];
                &&& row.path == entry.path
                &&& row.present
                &&& !row.approved
                &&& row.hash == entry.hash
                &&& row.size == entry.size
                &&& row.modified == entry.modified
                &&& row.scanned_at == now
                &&& row.protected == paths::protected_by(platform, entry.path, protect)
            }
        }),
{
    let protected = paths::protected_by(platform, entry.path, protect);
    let after = written(index, platform, entry, protect, now)->Ok_0.0;
    match model::at_path(index.files, entry.path) {
        Some(i) => {
            let row = refreshed(index.files[i], entry, protected, now);
            model::lemma_wf_with_file(index, i, row);
            model::lemma_at_path(after.files, i);
        },
        None => {
            let id = model::next_file_id(index.files)->0;
            lemma_wf_with_new_file(index, new_row(id, entry, protected, now));
            model::lemma_at_path(after.files, index.files.len() as int);
        },
    }
}

// ---------------------------------------------------------------------------
// Files seen again, and files that moved
// ---------------------------------------------------------------------------

/// The index after an unchanged file was seen again.
pub open spec fn seen_again(index: IndexView, path: Seq<char>, now: i64) -> IndexView {
    match model::at_path(index.files, path) {
        None => index,
        Some(i) => index.with_file(
            i,
            (FileView { present: true, scanned_at: now, ..index.files[i] }),
        ),
    }
}

pub fn mark_unchanged(index: &mut Index, path: &str, now: i64)
    requires
        old(index).wf(),
    ensures
        final(index).wf(),
        final(index)@ == seen_again(old(index)@, path@, now),
{
    let ghost before = index@;
    match find_path(&index.files, path) {
        None => {},
        Some(i) => {
            proof {
                assert(before.files[i as int] == index.files@[i as int]@);
            }
            index.files[i].present = true;
            index.files[i].scanned_at = now;
            proof {
                let row = FileView { present: true, scanned_at: now, ..before.files[i as int] };
                assert(index@.files =~= before.files.update(i as int, row));
                model::lemma_wf_with_file(before, i as int, row);
                assert(index@ == before.with_file(i as int, row));
            }
        },
    }
}

/// Message for a path that another row already has.
pub open spec fn path_taken() -> Seq<char> {
    "UNIQUE constraint failed: files.path"@
}

/// The path under which a row is kept whose path another file took over.
pub open spec fn aside_path(path: Seq<char>, id: i64) -> Seq<char> {
    path + "#replaced#"@ + text::decimal(id as int)
}

/// The files after the row that holds `path`, if it is not the row `id`, gave
/// it up and went absent. A live row may be set aside only where `live` says
/// so.
pub open spec fn set_aside(files: Seq<FileView>, path: Seq<char>, id: i64, live: bool) -> Result<
    Seq<FileView>,
    Seq<char>,
> {
    match model::at_path(files, path) {
        None => Ok(files),
        Some(j) => if files[j].id == id {
            Ok(files)
        } else if files[j].present && !live {
            Err(path_taken())
        } else if model::has_path(files, aside_path(path, files[j].id)) {
            Err(path_taken())
        } else {
            Ok(
                files.update(
                    j,
                    (FileView {
                        path: aside_path(path, files[j].id),
                        present: false,
                        approved: if live {
                            false
                        } else {
                            files[j].approved
                        },
                        ..files[j]
                    }),
                ),
            )
        },
    }
}

/// The files after the row `id` took over `path`.
pub open spec fn repointed(
    files: Seq<FileView>,
    platform: Platform,
    id: i64,
    path: Seq<char>,
    protect: Seq<Seq<char>>,
    now: i64,
) -> Result<Seq<FileView>, Seq<char>> {
    match set_aside(files, path, id, true) {
        Err(error) => Err(error),
        Ok(free) => match model::at_id(free, id) {
            None => Ok(free),
            Some(i) => Ok(
                free.update(
                    i,
                    (FileView {
                        path,
                        present: true,
                        approved: false,
                        protected: paths::protected_by(platform, path, protect),
                        scanned_at: now,
                        ..free[i]
                    }),
                ),
            ),
        },
    }
}

/// Giving a row a path that no other row has keeps the index well formed.
pub proof fn lemma_wf_with_new_path(index: IndexView, i: int, row: FileView)
    requires
        index.wf(),
        0 <= i < index.files.len(),
        row.id == index.files[i].id,
        forall|k: int|
            0 <= k < index.files.len() && k != i ==> (#[trigger] index.files[k]).path != row.path,
    ensures
        index.with_file(i, row).wf(),
{
    let after = index.with_file(i, row);
    model::lemma_ids_kept(index.files, after.files);
    assert forall|a: int, b: int| 0 <= a < b < after.files.len() implies (
    #[trigger] after.files[a]).id < (#[trigger] after.files[b]).id by {
        assert(index.files[a].id < index.files[b].id);
    }
    assert forall|a: int, b: int| 0 <= a < b < after.files.len() implies (
    #[trigger] after.files[a]).path != (#[trigger] after.files[b]).path by {
        if a != i && b != i {
            assert(index.files[a].path != index.files[b].path);
        }
    }
    model::lemma_wf_carries(index, after);
}

/// Make room for `path` among the files; see `set_aside`.
pub(crate) fn free_path(index: &mut Index, path: &str, id: i64, live: bool) -> (result: Result<
    (),
    String,
>)
    requires
        old(index).wf(),
    ensures
        final(index).wf(),
        match set_aside(old(index)@.files, path@, id, live) {
            Err(error) => result is Err && result->Err_0@ == error && final(index)@ == old(index)@,
            Ok(files) => {
                &&& result is Ok
                &&& final(index)@ == (IndexView { files, ..old(index)@ })
                &&& forall|k: int|
                    0 <= k < files.len() && (#[trigger] files[k]).path == path@ ==> files[k].id
                        == id
            },
        },
{
    let ghost before = index@;
    let j = match find_path(&index.files, path) {
        None => return Ok(()),
        Some(j) => j,
    };
    proof {
        assert(before.files[j as int] == index.files@[j as int]@);
        model::lemma_at_path(before.files, j as int);
    }
    if index.files[j].id == id {
        proof {
            assert forall|k: int|
                0 <= k < before.files.len() && (#[trigger] before.files[k]).path
                    == path@ implies before.files[k].id == id by {
                model::lemma_at_path(before.files, k);
            }
        }
        return Ok(());
    }
    if index.files[j].present && !live {
        return Err("UNIQUE constraint failed: files.path".to_string());
    }
    let number = signed_text(index.files[j].id);
    let head = joined(path, "#replaced#");
    let aside = joined(head.as_str(), number.as_str());
    match find_path(&index.files, aside.as_str()) {
        Some(_) => return Err("UNIQUE constraint failed: files.path".to_string()),
        None => {},
    }
    index.files[j].path = aside;
    index.files[j].present = false;
    if live {
        index.files[j].approved = false;
    }
    proof {
        let row = FileView {
            path: aside_path(path@, before.files[j as int].id),
            present: false,
            approved: if live {
                false
            } else {
                before.files[j as int].approved
            },
            ..before.files[j as int]
        };
        assert(index@.files =~= before.files.update(j as int, row));
        assert forall|k: int| 0 <= k < before.files.len() && k != j implies (
        #[trigger] before.files[k]).path != row.path by {}
        lemma_wf_with_new_path(before, j as int, row);
        assert(index@ == before.with_file(j as int, row));
        assert(row.path != path@) by {
            assert(row.path.len() > path@.len()) by {
                reveal_strlit("#replaced#");
            }
        }
        assert forall|k: int|
            0 <= k < index@.files.len() && (#[trigger] index@.files[k]).path
                == path@ implies index@.files[k].id == id by {
            if k != j {
                model::lemma_at_path(before.files, k);
            }
        }
    }
    Ok(())
}

/// A file that changed its path since the last scan keeps its row, hash and
/// fingerprints: only its place, its flags and its protection are renewed. A
/// stale row that still holds the new path is set aside.
pub fn mark_moved(
    index: &mut Index,
    platform: Platform,
    file_id: i64,
    path: &str,
    protect: &[String],
    now: i64,
) -> (result: Result<(), String>)
    requires
        old(index).wf(),
    ensures
        final(index).wf(),
        match repointed(
            old(index)@.files,
            platform,
            file_id,
            path@,
            outside::texts(protect@),
            now,
        ) {
            Err(error) => result is Err && result->Err_0@ == error && final(index)@ == old(index)@,
            Ok(files) => result is Ok && final(index)@ == (IndexView { files, ..old(index)@ }),
        },
{
    match free_path(index, path, file_id, true) {
        Err(error) => return Err(error),
        Ok(_) => {},
    }
    let ghost free = index@;
    match find_id(&index.files, file_id) {
        None => {},
        Some(i) => {
            let protected = is_protected_path(platform, path, protect);
            proof {
                assert(free.files[i as int] == index.files@[i as int]@);
            }
            index.files[i].path = path.to_string();
            index.files[i].present = true;
            index.files[i].approved = false;
            index.files[i].protected = protected;
            index.files[i].scanned_at = now;
            proof {
                let row = FileView {
                    path: path@,
                    present: true,
                    approved: false,
                    protected,
                    scanned_at: now,
                    ..free.files[i as int]
                };
                assert(index@.files =~= free.files.update(i as int, row));
                assert forall|k: int| 0 <= k < free.files.len() && k != i implies (
                #[trigger] free.files[k]).path != row.path by {
                    if free.files[k].path == path@ {
                        assert(free.files[k].id == file_id);
                        if k < i {
                            assert(free.files[k].id < free.files[i as int].id);
                        } else {
                            assert(free.files[i as int].id < free.files[k].id);
                        }
                    }
                }
                lemma_wf_with_new_path(free, i as int, row);
                assert(index@ == free.with_file(i as int, row));
            }
        },
    }
    Ok(())
}

/// A moved file is not hashed again: its row keeps its id, hash, size and
/// modification time, and no row is lost or added.
pub proof fn law_move_keeps_the_row(
    files: Seq<FileView>,
    platform: Platform,
    id: i64,
    path: Seq<char>,
    protect: Seq<Seq<char>>,
    now: i64,
    i: int,
)
    requires
        model::ids_ascending(files),
        0 <= i < files.len(),
        files[i].id == id,
        repointed(files, platform, id, path, protect, now) is Ok,
    ensures
        ({
            let after = repointed(files, platform, id, path, protect, now)->Ok_0;
            &&& after.len() == files.len()
            &&& after[i].id == id
            &&& after[i].path == path
            &&& after[i].present
            &&& !after[i].approved
            &&& after[i].hash == files[i].hash
            &&& after[i].size == files[i].size
            &&& after[i].modified == files[i].modified
            &&& after[i].protected == paths::protected_by(platform, path, protect)
        }),
{
    let free = set_aside(files, path, id, true)->Ok_0;
    assert forall|a: int, b: int| 0 <= a < b < free.len() implies (#[trigger] free[a]).id < (
    #[trigger] free[b]).id by {
        assert(files[a].id < files[b].id);
    }
    assert(free[i].id == id);
    assert(free[i].hash == files[i].hash);
    model::lemma_at_id(free, i);
}

// ---------------------------------------------------------------------------
// Files that are gone
// ---------------------------------------------------------------------------

/// The root with a separator at its end.
pub open spec fn rooted(platform: Platform, root: Seq<char>, separator: char) -> Seq<char> {
    if root.len() > 0 && platform.separates(root.last()) {
        root
    } else {
        root.push(separator)
    }
}

/// The path is the root or lies below it. On Windows either separator will
/// do, and the case of ASCII letters makes no difference.
pub open spec fn below_root(platform: Platform, path: Seq<char>, root: Seq<char>) -> bool {
    match platform {
        Platform::Posix => path == root || text::starts_with(path, rooted(platform, root, '/')),
        Platform::Windows => {
            ||| path == root
            ||| text::starts_with(text::lower(path), text::lower(rooted(platform, root, '/')))
            ||| text::starts_with(text::lower(path), text::lower(rooted(platform, root, '\\')))
        },
    }
}

/// The row is live, was not seen since the scan began, and lies below one of
/// the roots that were scanned.
pub open spec fn missing(
    platform: Platform,
    file: FileView,
    roots: Seq<Seq<char>>,
    started: i64,
) -> bool {
    file.present && file.scanned_at < started && exists|r: int|
        0 <= r < roots.len() && below_root(platform, file.path, #[trigger] roots[r])
}

pub open spec fn missing_rows(
    platform: Platform,
    files: Seq<FileView>,
    roots: Seq<Seq<char>>,
    started: i64,
) -> Seq<int> {
    lists::positions(files.len(), |p: int| missing(platform, files[p], roots, started))
}

/// The files with the missing ones marked absent.
pub open spec fn without_missing(
    platform: Platform,
    files: Seq<FileView>,
    roots: Seq<Seq<char>>,
    started: i64,
) -> Seq<FileView> {
    files.map_values(
        |file: FileView|
            if missing(platform, file, roots, started) {
                FileView { present: false, approved: false, ..file }
            } else {
                file
            },
    )
}

fn with_separator(platform: Platform, root: &str, separator: char) -> (out: String)
    ensures
        out@ == rooted(platform, root@, separator),
{
    let chars = chars_of(root);
    let n = chars.len();
    let mut out = root.to_string();
    if n > 0 && (chars[n - 1] == '/' || (platform == Platform::Windows && chars[n - 1] == '\\')) {
        return out;
    }
    out.push(separator);
    out
}

fn is_below(platform: Platform, path: &str, roots: &[String]) -> (yes: bool)
    ensures
        yes == (exists|r: int|
            0 <= r < roots@.len() && below_root(
                platform,
                path@,
                #[trigger] outside::texts(roots@)[r],
            )),
{
    let subject = chars_of(path);
    let ghost root_texts = outside::texts(roots@);
    for r in 0..roots.len()
        invariant
            subject@ == path@,
            root_texts == outside::texts(roots@),
            forall|k: int| 0 <= k < r ==> !below_root(platform, path@, #[trigger] root_texts[k]),
    {
        let root = roots[r].as_str();
        let slash = with_separator(platform, root, '/');
        proof {
            assert(root_texts[r as int] == root@);
        }
        let below = match platform {
            Platform::Posix => {
                let front = chars_of(slash.as_str());
                has_prefix(subject.as_slice(), front.as_slice())
            },
            Platform::Windows => {
                let backslash = with_separator(platform, root, '\\');
                let first = beginning_pattern(slash.as_str());
                let second = beginning_pattern(backslash.as_str());
                proof {
                    like::lemma_beginning_matches_prefix(slash@, path@);
                    like::lemma_beginning_matches_prefix(backslash@, path@);
                }
                like_match(first.as_slice(), subject.as_slice()) || like_match(
                    second.as_slice(),
                    subject.as_slice(),
                )
            },
        };
        if same_text(path, root) || below {
            return true;
        }
    }
    false
}

/// Mark the files below the scanned roots absent that the scan did not see,
/// and count them.
pub fn mark_missing_absent(
    index: &mut Index,
    platform: Platform,
    roots: &[String],
    scan_started: i64,
) -> (removed: u64)
    requires
        old(index).wf(),
    ensures
        final(index).wf(),
        removed == missing_rows(
            platform,
            old(index)@.files,
            outside::texts(roots@),
            scan_started,
        ).len(),
        final(index)@ == (IndexView {
            files: without_missing(
                platform,
                old(index)@.files,
                outside::texts(roots@),
                scan_started,
            ),
            ..old(index)@
        }),
{
    let ghost before = index@;
    let ghost views = before.files;
    let ghost root_texts = outside::texts(roots@);
    let ghost keep = |p: int| missing(platform, views[p], root_texts, scan_started);
    let n = index.files.len();
    let mut removed: u64 = 0;
    proof {
        assert(index@ == (IndexView { files: views, ..before }));
    }
    for i in 0..n
        invariant
            n == index.files@.len(),
            views == before.files,
            before.wf(),
            views.len() == n,
            root_texts == outside::texts(roots@),
            keep == (|p: int| missing(platform, views[p], root_texts, scan_started)),
            index.wf(),
            index@.files.len() == n,
            index@ == (IndexView { files: index@.files, ..before }),
            forall|p: int|
                0 <= p < i ==> #[trigger] index@.files[p] == without_missing(
                    platform,
                    views,
                    root_texts,
                    scan_started,
                )[p],
            forall|p: int| i <= p < n ==> #[trigger] index@.files[p] == views[p],
            removed <= i,
            removed == lists::positions(i as nat, keep).len(),
    {
        let ghost now = index@;
        proof {
            assert(now.files[i as int] == index.files@[i as int]@);
            model::lemma_file_count(views, i as int);
        }
        if index.files[i].present && index.files[i].scanned_at < scan_started && is_below(
            platform,
            index.files[i].path.as_str(),
            roots,
        ) {
            index.files[i].present = false;
            index.files[i].approved = false;
            removed = removed + 1;
            proof {
                let row = FileView { present: false, approved: false, ..views[i as int] };
                assert(index@.files =~= now.files.update(i as int, row));
                model::lemma_wf_with_file(now, i as int, row);
                assert(index@ == now.with_file(i as int, row));
            }
        }
    }
    proof {
        assert(index@.files =~= without_missing(platform, views, root_texts, scan_started));
    }
    removed
}

/// Marking absent touches no file outside the scanned roots and none that the
/// scan saw.
pub proof fn law_only_unseen_files_go_missing(
    platform: Platform,
    files: Seq<FileView>,
    roots: Seq<Seq<char>>,
    started: i64,
    p: int,
)
    requires
        0 <= p < files.len(),
        files[p].scanned_at >= started || forall|r: int|
            0 <= r < roots.len() ==> !below_root(platform, files[p].path, #[trigger] roots[r]),
    ensures
        without_missing(platform, files, roots, started)[p] == files[p],
{
}

/// On POSIX the case of letters tells directories apart: what lies below a
/// root carries the root's own name.
pub proof fn law_roots_are_told_apart_by_case(path: Seq<char>, root: Seq<char>)
    requires
        below_root(Platform::Posix, path, root),
    ensures
        path.len() >= root.len(),
        path.take(root.len() as int) == root,
{
    let front = rooted(Platform::Posix, root, '/');
    if path == root {
        assert(path.take(root.len() as int) =~= root);
    } else {
        assert(path.take(root.len() as int) =~= front.take(root.len() as int));
        assert(front.take(root.len() as int) =~= root);
    }
}

// ---------------------------------------------------------------------------
// Rows that nothing refers to
// ---------------------------------------------------------------------------

/// Seconds after which an absent row is forgotten.
pub const ABSENT_ROW_SECONDS: i64 = 7_776_000;

/// Some operation refers to the file.
pub open spec fn has_history(operations: Seq<model::OperationView>, id: i64) -> bool {
    exists|k: int| 0 <= k < operations.len() && (#[trigger] operations[k]).file_id == id
}

/// The row has been absent and unseen for long, and no operation refers to it.
pub open spec fn forgotten(
    file: FileView,
    operations: Seq<model::OperationView>,
    now: i64,
) -> bool {
    !file.present && file.scanned_at < now - ABSENT_ROW_SECONDS && !has_history(operations, file.id)
}

/// The rows that are not forgotten, in order.
pub open spec fn surviving(
    files: Seq<FileView>,
    operations: Seq<model::OperationView>,
    now: i64,
) -> Seq<FileView>
    decreases files.len(),
{
    if files.len() == 0 {
        Seq::empty()
    } else {
        let front = surviving(files.drop_last(), operations, now);
        if forgotten(files.last(), operations, now) {
            front
        } else {
            front.push(files.last())
        }
    }
}

/// The id belongs to a forgotten row.
pub open spec fn is_forgotten_id(index: IndexView, now: i64, id: i64) -> bool {
    exists|p: int|
        0 <= p < index.files.len() && (#[trigger] index.files[p]).id == id && forgotten(
            index.files[p],
            index.operations,
            now,
        )
}

/// The index without the forgotten rows and their fingerprints.
pub open spec fn pruned(index: IndexView, now: i64) -> IndexView {
    IndexView {
        files: surviving(index.files, index.operations, now),
        photos: index.photos.remove_keys(Set::new(|id: i64| is_forgotten_id(index, now, id))),
        documents: index.documents.remove_keys(Set::new(|id: i64| is_forgotten_id(index, now, id))),
        ..index
    }
}

pub(crate) proof fn lemma_surviving(files: Seq<FileView>, operations: Seq<model::OperationView>, now: i64)
    requires
        model::ids_ascending(files),
        model::paths_unique(files),
    ensures
        surviving(files, operations, now).len() <= files.len(),
        model::ids_ascending(surviving(files, operations, now)),
        model::paths_unique(surviving(files, operations, now)),
        forall|k: int|
            0 <= k < surviving(files, operations, now).len() ==> files.contains(
                #[trigger] surviving(files, operations, now)[k],
            ) && !forgotten(surviving(files, operations, now)[k], operations, now),
        forall|p: int|
            0 <= p < files.len() && !forgotten(#[trigger] files[p], operations, now) ==> surviving(
                files,
                operations,
                now,
            ).contains(files[p]),
    decreases files.len(),
{
    if files.len() > 0 {
        let front = files.drop_last();
        assert forall|a: int, b: int| 0 <= a < b < front.len() implies (#[trigger] front[a]).id < (
        #[trigger] front[b]).id by {
            assert(files[a].id < files[b].id);
        }
        assert forall|a: int, b: int| 0 <= a < b < front.len() implies (#[trigger] front[a]).path
            != (#[trigger] front[b]).path by {
            assert(files[a].path != files[b].path);
        }
        lemma_surviving(front, operations, now);
        let kept = surviving(front, operations, now);
        let out = surviving(files, operations, now);
        let last = files.last();
        assert forall|k: int| 0 <= k < kept.len() implies files.contains(#[trigger] kept[k])
            && kept[k].id < last.id && kept[k].path != last.path && kept[k].id >= 1 by {
            assert(front.contains(kept[k]));
            let m = choose|m: int| 0 <= m < front.len() && front[m] == kept[k];
            assert(files[m] == kept[k]);
            assert(files[m].id < files[files.len() - 1].id);
            assert(files[m].path != files[files.len() - 1].path);
            model::lemma_file_count(files, m);
        }
        model::lemma_file_count(files, files.len() - 1);
        assert(files[files.len() - 1] == last);
        assert(files.contains(last));
        if forgotten(last, operations, now) {
            assert(out == kept);
        } else {
            assert(out =~= kept.push(last));
            assert(out[out.len() - 1] == last);
        }
        assert forall|k: int| 0 <= k < out.len() implies files.contains(#[trigger] out[k])
            && !forgotten(out[k], operations, now) by {
            if k < kept.len() {
                assert(out[k] == kept[k]);
            }
        }
        assert forall|p: int|
            0 <= p < files.len() && !forgotten(#[trigger] files[p], operations, now) implies out.contains(
        files[p]) by {
            if p < front.len() {
                assert(front[p] == files[p]);
                assert(kept.contains(front[p]));
                let k = choose|k: int| 0 <= k < kept.len() && kept[k] == front[p];
                assert(out[k] == files[p]);
            } else {
                assert(out[out.len() - 1] == files[p]);
            }
        }
    }
}

proof fn lemma_wf_pruned(index: IndexView, now: i64)
    requires
        index.wf(),
    ensures
        pruned(index, now).wf(),
{
    let after = pruned(index, now);
    lemma_surviving(index.files, index.operations, now);
    assert forall|id: i64|
        model::has_id(index.files, id) && !is_forgotten_id(index, now, id) implies model::has_id(
        after.files,
        id,
    ) by {
        let p = choose|p: int| 0 <= p < index.files.len() && (#[trigger] index.files[p]).id == id;
        assert(!forgotten(index.files[p], index.operations, now));
        assert(after.files.contains(index.files[p]));
        let k = choose|k: int| 0 <= k < after.files.len() && after.files[k] == index.files[p];
        assert(after.files[k].id == id);
    }
    assert forall|id: i64| #[trigger] after.photos.contains_key(id) implies model::has_id(
        after.files,
        id,
    ) by {
        assert(index.photos.contains_key(id));
    }
    assert forall|id: i64| #[trigger] after.documents.contains_key(id) implies model::has_id(
        after.files,
        id,
    ) by {
        assert(index.documents.contains_key(id));
    }
    assert forall|k: int| 0 <= k < after.operations.len() implies model::has_id(
        after.files,
        (#[trigger] after.operations[k]).file_id,
    ) by {
        let id = index.operations[k].file_id;
        assert(model::has_id(index.files, id));
        if is_forgotten_id(index, now, id) {
            let p = choose|p: int|
                0 <= p < index.files.len() && (#[trigger] index.files[p]).id == id && forgotten(
                    index.files[p],
                    index.operations,
                    now,
                );
            assert(has_history(index.operations, id));
        }
    }
}

fn file_has_history(operations: &Vec<model::OperationRow>, id: i64) -> (yes: bool)
    ensures
        yes == has_history(model::operation_rows(operations@), id),
{
    let ghost views = model::operation_rows(operations@);
    for k in 0..operations.len()
        invariant
            views == model::operation_rows(operations@),
            forall|m: int| 0 <= m < k ==> (#[trigger] views[m]).file_id != id,
    {
        proof {
            assert(views[k as int] == operations@[k as int]@);
        }
        if operations[k].file_id == id {
            return true;
        }
    }
    false
}

/// Forget rows that have been absent for ninety days and that no operation
/// refers to, with their fingerprints; returns how many.
pub fn prune_absent_rows(index: &mut Index, now: i64) -> (removed: u64)
    requires
        old(index).wf(),
    ensures
        final(index).wf(),
        final(index)@ == pruned(old(index)@, now),
        removed == old(index)@.files.len() - final(index)@.files.len(),
{
    let ghost before = index@;
    let ghost views = before.files;
    let n = index.files.len();
    let mut kept: usize = 0;
    let mut done: usize = 0;
    let mut removed: u64 = 0;
    proof {
        lemma_wf_pruned(before, now);
        lemma_surviving(views, before.operations, now);
        assert(views.take(0) =~= Seq::<FileView>::empty());
        assert(surviving(views.take(0), before.operations, now) + views.skip(0) =~= views);
        assert(index@.photos =~= before.photos.remove_keys(
            Set::new(|id: i64| forgotten_before(before, now, 0, id)),
        ));
        assert(index@.documents =~= before.documents.remove_keys(
            Set::new(|id: i64| forgotten_before(before, now, 0, id)),
        ));
    }
    while done < n
        invariant
            n == views.len(),
            views == before.files,
            model::ids_ascending(views),
            done <= n,
            kept + removed == done,
            kept <= done,
            kept == surviving(views.take(done as int), before.operations, now).len(),
            index.files@.len() == kept + (n - done),
            index@.files == surviving(views.take(done as int), before.operations, now) + views.skip(
                done as int,
            ),
            index@.operations == before.operations,
            index@.settings == before.settings,
            index@.verdicts == before.verdicts,
            model::keys_unique(model::setting_rows(index.settings@)),
            model::keys_unique(model::verdict_rows(index.verdicts@)),
            index@.photos == before.photos.remove_keys(
                Set::new(|id: i64| forgotten_before(before, now, done as int, id)),
            ),
            index@.documents == before.documents.remove_keys(
                Set::new(|id: i64| forgotten_before(before, now, done as int, id)),
            ),
        decreases n - done,
    {
        let ghost state = index@;
        let ghost front = surviving(views.take(done as int), before.operations, now);
        let ghost rest = views.skip(done as int);
        let ghost row = views[done as int];
        proof {
            assert(views.take(done + 1).drop_last() =~= views.take(done as int));
            assert(views.take(done + 1).last() == row);
            assert((front + rest)[kept as int] == row);
            assert(state.files[kept as int] == index.files@[kept as int]@);
            model::lemma_file_count(views, done as int);
            assert forall|id: i64| #[trigger] forgotten_before(before, now, done + 1, id)
                <==> forgotten_before(before, now, done as int, id) || (id == row.id && forgotten(
                row,
                before.operations,
                now,
            )) by {
                if forgotten_before(before, now, done + 1, id) {
                    let p = choose|p: int|
                        0 <= p < done + 1 && (#[trigger] before.files[p]).id == id && forgotten(
                            before.files[p],
                            before.operations,
                            now,
                        );
                    if p < done {
                        assert(before.files[p].id == id);
                    }
                }
                if forgotten_before(before, now, done as int, id) {
                    let p = choose|p: int|
                        0 <= p < done && (#[trigger] before.files[p]).id == id && forgotten(
                            before.files[p],
                            before.operations,
                            now,
                        );
                    assert(before.files[p].id == id);
                }
            }
        }
        let id: i64 = index.files[kept].id;
        let old_row = !index.files[kept].present && (index.files[kept].scanned_at as i128)
            < now as i128 - ABSENT_ROW_SECONDS as i128;
        if old_row && !file_has_history(&index.operations, id) {
            let _ = index.files.remove(kept);
            index.photos.remove(&id);
            index.documents.remove(&id);
            removed = removed + 1;
            proof {
                assert(index@.files =~= state.files.remove(kept as int));
                assert((front + rest).remove(kept as int) =~= front + views.skip(done + 1));
            }
        } else {
            kept = kept + 1;
            proof {
                assert(front.push(row) + views.skip(done + 1) =~= front + rest);
            }
        }
        done = done + 1;
        proof {
            assert(index@.photos =~= before.photos.remove_keys(
                Set::new(|id: i64| forgotten_before(before, now, done as int, id)),
            ));
            assert(index@.documents =~= before.documents.remove_keys(
                Set::new(|id: i64| forgotten_before(before, now, done as int, id)),
            ));
        }
    }
    proof {
        assert(views.take(n as int) =~= views);
        assert(surviving(views, before.operations, now) + views.skip(n as int) =~= surviving(
            views,
            before.operations,
            now,
        ));
        assert(Set::new(|id: i64| forgotten_before(before, now, n as int, id)) =~= Set::new(
            |id: i64| is_forgotten_id(before, now, id),
        ));
    }
    removed
}

spec fn forgotten_before(index: IndexView, now: i64, n: int, id: i64) -> bool {
    exists|p: int|
        0 <= p < n && (#[trigger] index.files[p]).id == id && forgotten(
            index.files[p],
            index.operations,
            now,
        )
}

/// Live rows and rows that an operation refers to survive.
pub proof fn law_history_anchors_survive(index: IndexView, now: i64, p: int)
    requires
        index.wf(),
        0 <= p < index.files.len(),
        index.files[p].present || has_history(index.operations, index.files[p].id),
    ensures
        pruned(index, now).files.contains(index.files[p]),
        pruned(index, now).operations == index.operations,
{
    lemma_surviving(index.files, index.operations, now);
}

} // verus!
