//! Walking directories: what is skipped, what is looked into, and what
//! becomes of each file that is found.
use crate::actions::Identity;
use crate::indexing::ProcessedEntry;
use crate::model::{find_path, FileRow, FileView, Index, IndexView};
use crate::paths::{is_excluded, is_image_path, Platform};
use crate::text::{holds_text, same_text};
use crate::{hashing, indexing, lists, model, outside, paths};
use vstd::prelude::*;

verus! {

broadcast use vstd::std_specs::hash::group_hash_axioms;

// ---------------------------------------------------------------------------
// Directories
// ---------------------------------------------------------------------------

/// What kind of thing a directory entry is.
#[derive(Clone, Copy, Debug, PartialEq, Eq, Structural)]
pub enum EntryKind {
    /// The kind could not be read.
    Unknown,
    Symlink,
    Directory,
    File,
    /// A device, a socket and the like.
    Other,
}

/// One entry of a directory.
pub struct DirEntry {
    pub path: String,
    pub kind: EntryKind,
}

/// What the walk reports.
pub enum WalkItem {
    Skipped,
    File(String),
    Unreadable(String),
}

pub enum WalkItemView {
    Skipped,
    File(Seq<char>),
    Unreadable(Seq<char>),
}

impl View for WalkItem {
    type V = WalkItemView;

    open spec fn view(&self) -> WalkItemView {
        match *self {
            WalkItem::Skipped => WalkItemView::Skipped,
            WalkItem::File(path) => WalkItemView::File(path@),
            WalkItem::Unreadable(path) => WalkItemView::Unreadable(path@),
        }
    }
}

pub open spec fn entry_views(entries: Seq<DirEntry>) -> Seq<(Seq<char>, EntryKind)> {
    entries.map_values(|entry: DirEntry| (entry.path@, entry.kind))
}

pub open spec fn item_views(items: Seq<WalkItem>) -> Seq<WalkItemView> {
    items.map_values(|item: WalkItem| item@)
}

/// The rules of a walk.
pub struct WalkRules {
    pub platform: Platform,
    pub trash: String,
    pub exclude: Vec<String>,
}

impl WalkRules {
    /// The walk goes into this entry.
    pub open spec fn enters(self, entry: (Seq<char>, EntryKind)) -> bool {
        entry.1 == EntryKind::Directory && !paths::excluded(
            self.platform,
            entry.0,
            self.trash@,
            outside::texts(self.exclude@),
        )
    }
}

/// What the walk reports of the entries of one directory: nothing of those
/// that it goes into, and one item of every other.
pub open spec fn reported(rules: WalkRules, entries: Seq<(Seq<char>, EntryKind)>) -> Seq<WalkItemView>
    decreases entries.len(),
{
    if entries.len() == 0 {
        Seq::empty()
    } else {
        let front = reported(rules, entries.drop_last());
        let last = entries.last();
        if rules.enters(last) {
            front
        } else if last.1 == EntryKind::File {
            front.push(WalkItemView::File(last.0))
        } else {
            front.push(WalkItemView::Skipped)
        }
    }
}

/// The entries that the walk goes into.
pub open spec fn entered(rules: WalkRules, entries: Seq<(Seq<char>, EntryKind)>) -> Seq<Seq<char>>
    decreases entries.len(),
{
    if entries.len() == 0 {
        Seq::empty()
    } else {
        let front = entered(rules, entries.drop_last());
        if rules.enters(entries.last()) {
            front.push(entries.last().0)
        } else {
            front
        }
    }
}

pub open spec fn cancelled_message() -> Seq<char> {
    "scan cancelled"@
}

/// Go on, unless the scan was cancelled.
pub fn go_on(cancelled: bool) -> (result: Result<(), String>)
    ensures
        result is Err == cancelled,
        result is Err ==> result->Err_0@ == cancelled_message(),
{
    if cancelled {
        Err("scan cancelled".to_string())
    } else {
        Ok(())
    }
}

/// A walk below some directories; those still to be read, the next one last.
pub struct Walk {
    pub directories: Vec<String>,
}

impl Walk {
    pub open spec fn pending(self) -> Seq<Seq<char>> {
        outside::texts(self.directories@)
    }

    pub fn new(directories: Vec<String>) -> (walk: Walk)
        ensures
            walk.pending() == outside::texts(directories@),
    {
        Walk { directories }
    }

    /// The directory to read next, none where all are read. A walk that was
    /// cancelled stops in front of it.
    pub fn next(&mut self, cancelled: bool) -> (directory: Result<Option<String>, String>)
        ensures
            match directory {
                Err(error) => {
                    &&& cancelled
                    &&& old(self).pending().len() > 0
                    &&& error@ == cancelled_message()
                    &&& final(self).pending() == old(self).pending()
                },
                Ok(None) => old(self).pending().len() == 0 && final(self).pending() == old(
                    self,
                ).pending(),
                Ok(Some(path)) => {
                    &&& !cancelled
                    &&& old(self).pending().len() > 0
                    &&& path@ == old(self).pending().last()
                    &&& final(self).pending() == old(self).pending().drop_last()
                },
            },
    {
        let ghost before = self.directories@;
        proof {
            assert(self.pending().len() == before.len());
        }
        if self.directories.len() > 0 {
            match go_on(cancelled) {
                Err(error) => return Err(error),
                Ok(_) => {},
            }
        }
        let top = self.directories.pop();
        proof {
            assert(outside::texts(before).len() == before.len());
            if before.len() > 0 {
                assert(self.pending() =~= outside::texts(before).drop_last());
                assert(outside::texts(before).last() == before.last()@);
            } else {
                assert(self.pending() =~= outside::texts(before));
            }
        }
        Ok(top)
    }

    /// A directory that could be read: what is reported of it. The walk goes
    /// on below it.
    pub fn visit(&mut self, rules: &WalkRules, entries: &[DirEntry]) -> (items: Vec<WalkItem>)
        ensures
            item_views(items@) == reported(*rules, entry_views(entries@)),
            final(self).pending() == old(self).pending() + entered(*rules, entry_views(entries@)),
    {
        let ghost whole = entry_views(entries@);
        let ghost start = self.pending();
        let mut items: Vec<WalkItem> = Vec::new();
        proof {
            assert(item_views(items@) =~= reported(*rules, whole.take(0)));
            assert(start + entered(*rules, whole.take(0)) =~= start);
        }
        for i in 0..entries.len()
            invariant
                whole == entry_views(entries@),
                item_views(items@) == reported(*rules, whole.take(i as int)),
                self.pending() == start + entered(*rules, whole.take(i as int)),
        {
            let ghost items_before = items@;
            let ghost directories_before = self.directories@;
            proof {
                assert(whole.take(i + 1).drop_last() =~= whole.take(i as int));
                assert(whole.take(i + 1).last() == (entries@[i as int].path@, entries@[i as int].kind));
            }
            let kind = entries[i].kind;
            if kind == EntryKind::Directory && !is_excluded(
                rules.platform,
                entries[i].path.as_str(),
                rules.trash.as_str(),
                rules.exclude.as_slice(),
            ) {
                self.directories.push(entries[i].path.clone());
                proof {
                    assert(self.pending() =~= outside::texts(directories_before).push(
                        entries@[i as int].path@,
                    ));
                    assert(self.pending() =~= start + entered(*rules, whole.take(i + 1)));
                }
            } else {
                if kind == EntryKind::File {
                    items.push(WalkItem::File(entries[i].path.clone()));
                } else {
                    items.push(WalkItem::Skipped);
                }
                proof {
                    assert(item_views(items@) =~= reported(*rules, whole.take(i + 1)));
                }
            }
        }
        proof {
            assert(whole.take(whole.len() as int) =~= whole);
        }
        items
    }

}

/// A directory that cannot be read is reported as one item.
pub fn unreadable(directory: &str) -> (item: WalkItem)
    ensures
        item@ == WalkItemView::Unreadable(directory@),
{
    WalkItem::Unreadable(directory.to_string())
}

/// Counting ahead what a walk will report, to show progress as a fraction.
pub struct EntryCount {
    pub walk: Walk,
    pub total: u64,
}

impl EntryCount {
    pub fn new(directories: Vec<String>) -> (count: EntryCount)
        ensures
            count.walk.pending() == outside::texts(directories@),
            count.total == 0,
    {
        EntryCount { walk: Walk::new(directories), total: 0 }
    }

    /// Count the directory that was read last: as many items as the walk
    /// reports of it, or one where it cannot be read.
    pub fn note(&mut self, rules: &WalkRules, listing: &Option<Vec<DirEntry>>)
        requires
            old(self).total + items_in(*rules, *listing) <= u64::MAX,
        ensures
            final(self).total == old(self).total + items_in(*rules, *listing),
            final(self).walk.pending() == old(self).walk.pending() + match *listing {
                Some(entries) => entered(*rules, entry_views(entries@)),
                None => Seq::empty(),
            },
    {
        match listing {
            Some(entries) => {
                let items = self.walk.visit(rules, entries.as_slice());
                proof {
                    assert(item_views(items@).len() == items@.len());
                }
                self.total = self.total + items.len() as u64;
            },
            None => {
                self.total = self.total + 1;
                proof {
                    assert(self.walk.pending() + Seq::empty() =~= self.walk.pending());
                }
            },
        }
    }
}

/// How many items the walk reports of a directory.
pub open spec fn items_in(rules: WalkRules, listing: Option<Vec<DirEntry>>) -> int {
    match listing {
        Some(entries) => reported(rules, entry_views(entries@)).len() as int,
        None => 1,
    }
}

/// The files among some entries.
pub open spec fn files_among(entries: Seq<(Seq<char>, EntryKind)>) -> Seq<Seq<char>>
    decreases entries.len(),
{
    if entries.len() == 0 {
        Seq::empty()
    } else {
        let front = files_among(entries.drop_last());
        if entries.last().1 == EntryKind::File {
            front.push(entries.last().0)
        } else {
            front
        }
    }
}

/// The files of a listing that holds everything below a root. Directories are
/// passed over: what lies in them is listed itself.
pub fn listed_files(entries: &[DirEntry]) -> (files: Vec<String>)
    ensures
        outside::texts(files@) == files_among(entry_views(entries@)),
{
    let ghost whole = entry_views(entries@);
    let mut files: Vec<String> = Vec::new();
    proof {
        assert(outside::texts(files@) =~= files_among(whole.take(0)));
    }
    for i in 0..entries.len()
        invariant
            whole == entry_views(entries@),
            outside::texts(files@) == files_among(whole.take(i as int)),
    {
        let ghost before = files@;
        proof {
            assert(whole.take(i + 1).drop_last() =~= whole.take(i as int));
            assert(whole.take(i + 1).last() == (entries@[i as int].path@, entries@[i as int].kind));
        }
        if entries[i].kind == EntryKind::File {
            files.push(entries[i].path.clone());
            proof {
                assert(outside::texts(files@) =~= outside::texts(before).push(
                    entries@[i as int].path@,
                ));
            }
        }
    }
    proof {
        assert(whole.take(whole.len() as int) =~= whole);
    }
    files
}

/// Every entry is either gone into or reported, never both.
pub proof fn law_every_entry_counts_once(rules: WalkRules, entries: Seq<(Seq<char>, EntryKind)>)
    ensures
        reported(rules, entries).len() + entered(rules, entries).len() == entries.len(),
    decreases entries.len(),
{
    if entries.len() > 0 {
        law_every_entry_counts_once(rules, entries.drop_last());
    }
}

/// The walk never goes into a link, nor into an excluded directory.
pub proof fn law_walk_enters_no_excluded_directory(
    rules: WalkRules,
    entries: Seq<(Seq<char>, EntryKind)>,
    k: int,
)
    requires
        0 <= k < entered(rules, entries).len(),
    ensures
        exists|i: int|
            0 <= i < entries.len() && rules.enters(#[trigger] entries[i]) && entries[i].0
                == entered(rules, entries)[k],
    decreases entries.len(),
{
    let front = entries.drop_last();
    if k < entered(rules, front).len() {
        law_walk_enters_no_excluded_directory(rules, front, k);
        let i = choose|i: int|
            0 <= i < front.len() && rules.enters(#[trigger] front[i]) && front[i].0 == entered(
                rules,
                front,
            )[k];
        assert(entries[i] == front[i]);
    } else {
        assert(entries[entries.len() - 1] == entries.last());
    }
}

// ---------------------------------------------------------------------------
// Files
// ---------------------------------------------------------------------------

/// What the disk says of a file.
#[derive(Clone, Copy, Debug, PartialEq, Eq)]
pub struct FileMeta {
    pub len: u64,
    /// Modification time in unix seconds, where it could be read.
    pub modified: Option<i64>,
}

/// What becomes of a file that the walk found.
#[derive(Clone, Copy, Debug, PartialEq, Eq, Structural)]
pub enum Dispatch {
    Skipped,
    Unchanged,
    /// It is the file of this row under a new path.
    Moved(i64),
    /// It has to be hashed.
    Hash,
}

/// The size and time by which a file is recognized, where both are known.
pub open spec fn stamp_of(meta: Option<FileMeta>) -> Option<(i64, i64)> {
    match meta {
        Some(m) => if m.len <= i64::MAX && m.modified is Some {
            Some((m.len as i64, m.modified->0))
        } else {
            None
        },
        None => None,
    }
}

fn read_stamp(meta: Option<FileMeta>) -> (stamp: Option<(i64, i64)>)
    ensures
        stamp == stamp_of(meta),
{
    match meta {
        Some(m) => match m.modified {
            Some(modified) => if m.len <= 0x7fff_ffff_ffff_ffff {
                Some((m.len as i64, modified))
            } else {
                None
            },
            None => None,
        },
        None => None,
    }
}

/// The index already knows the file with this size and time. An image must
/// have its fingerprint, too.
pub open spec fn unchanged(
    index: IndexView,
    platform: Platform,
    path: Seq<char>,
    meta: Option<FileMeta>,
) -> bool {
    match stamp_of(meta) {
        None => false,
        Some((size, modified)) => match model::at_path(index.files, path) {
            None => false,
            Some(i) => {
                let file = index.files[i];
                &&& file.size == size
                &&& file.modified == modified
                &&& paths::image_path(platform, path) ==> index.photos.contains_key(file.id)
            },
        },
    }
}

pub fn is_unchanged(index: &Index, platform: Platform, path: &str, meta: Option<FileMeta>) -> (yes:
    bool)
    requires
        index.wf(),
    ensures
        yes == unchanged(index@, platform, path@, meta),
{
    let (size, modified) = match read_stamp(meta) {
        None => return false,
        Some(stamp) => stamp,
    };
    match find_path(&index.files, path) {
        None => false,
        Some(i) => {
            proof {
                assert(index@.files[i as int] == index.files@[i as int]@);
            }
            index.files[i].size == size && index.files[i].modified == modified && (!is_image_path(
                platform,
                path,
            ) || index.photos.contains_key(&index.files[i].id))
        },
    }
}

/// The identity says which file this is, on this platform.
pub open spec fn identifies(platform: Platform, identity: Identity) -> bool {
    match platform {
        Platform::Posix => identity.dev != 0 && identity.inode != 0,
        Platform::Windows => identity.frn != 0,
    }
}

/// The live row is this physical file under another path: same identity,
/// size and time.
pub open spec fn is_former_row(
    platform: Platform,
    file: FileView,
    path: Seq<char>,
    meta: Option<FileMeta>,
    identity: Option<Identity>,
) -> bool {
    match (stamp_of(meta), identity) {
        (Some((size, modified)), Some(own)) => {
            &&& identifies(platform, own)
            &&& file.present
            &&& file.size == size
            &&& file.modified == modified
            &&& file.path != path
            &&& match platform {
                Platform::Posix => file.dev == own.dev && file.inode == own.inode,
                Platform::Windows => file.frn == own.frn,
            }
        },
        _ => false,
    }
}

fn is_former(
    platform: Platform,
    file: &FileRow,
    path: &str,
    meta: Option<FileMeta>,
    identity: Option<Identity>,
) -> (yes: bool)
    ensures
        yes == is_former_row(platform, file@, path@, meta, identity),
{
    let (size, modified) = match read_stamp(meta) {
        None => return false,
        Some(stamp) => stamp,
    };
    let own = match identity {
        None => return false,
        Some(own) => own,
    };
    let same = match platform {
        Platform::Posix => own.dev != 0 && own.inode != 0 && file.dev == own.dev && file.inode
            == own.inode,
        Platform::Windows => own.frn != 0 && file.frn == own.frn,
    };
    same && file.present && file.size == size && file.modified == modified && !same_text(
        file.path.as_str(),
        path,
    )
}

/// The rows that are this physical file under another path.
pub open spec fn former_rows(
    files: Seq<FileView>,
    platform: Platform,
    path: Seq<char>,
    meta: Option<FileMeta>,
    identity: Option<Identity>,
) -> Seq<int> {
    lists::positions(
        files.len(),
        |p: int| is_former_row(platform, files[p], path, meta, identity),
    )
}

/// The other paths under which the index knows a physical file. Whether they
/// are gone decides whether the file was moved or has got one more name.
pub fn former_paths(
    index: &Index,
    platform: Platform,
    path: &str,
    meta: Option<FileMeta>,
    identity: Option<Identity>,
) -> (paths: Vec<String>)
    ensures
        outside::texts(paths@) == former_rows(
            index@.files,
            platform,
            path@,
            meta,
            identity,
        ).map_values(|p: int| index@.files[p].path),
{
    let files = &index.files;
    let ghost views = index@.files;
    let ghost keep = |p: int| is_former_row(platform, views[p], path@, meta, identity);
    let ghost path_at = |p: int| views[p].path;
    let mut paths: Vec<String> = Vec::new();
    proof {
        assert(outside::texts(paths@) =~= lists::positions(0, keep).map_values(path_at));
    }
    for p in 0..files.len()
        invariant
            views == model::file_rows(files@),
            keep == (|p: int| is_former_row(platform, views[p], path@, meta, identity)),
            path_at == (|p: int| views[p].path),
            outside::texts(paths@) == lists::positions(p as nat, keep).map_values(path_at),
    {
        let ghost before = lists::positions(p as nat, keep);
        let ghost paths_before = paths@;
        proof {
            assert(views[p as int] == files@[p as int]@);
        }
        if is_former(platform, &files[p], path, meta, identity) {
            paths.push(files[p].path.clone());
            proof {
                assert(keep(p as int));
                assert(outside::texts(paths@) =~= outside::texts(paths_before).push(
                    path_at(p as int),
                ));
                assert(before.push(p as int).map_values(path_at) =~= before.map_values(
                    path_at,
                ).push(path_at(p as int)));
            }
        }
    }
    paths
}

/// The row was moved to the path: it is this physical file under another path
/// that is gone, and no other file has taken the row over.
pub open spec fn is_moved_row(
    platform: Platform,
    file: FileView,
    path: Seq<char>,
    meta: Option<FileMeta>,
    identity: Option<Identity>,
    gone: Seq<Seq<char>>,
    taken: Seq<i64>,
) -> bool {
    &&& is_former_row(platform, file, path, meta, identity)
    &&& gone.contains(file.path)
    &&& !taken.contains(file.id)
}

/// The first row that was moved to the path.
pub open spec fn moved_row(
    index: IndexView,
    platform: Platform,
    path: Seq<char>,
    meta: Option<FileMeta>,
    identity: Option<Identity>,
    gone: Seq<Seq<char>>,
    taken: Seq<i64>,
) -> Option<i64> {
    let rows = lists::positions(
        index.files.len(),
        |p: int| is_moved_row(platform, index.files[p], path, meta, identity, gone, taken),
    );
    if rows.len() > 0 {
        Some(index.files[rows[0]].id)
    } else {
        None
    }
}

fn holds_id(list: &[i64], id: i64) -> (yes: bool)
    ensures
        yes == list@.contains(id),
{
    for i in 0..list.len()
        invariant
            forall|k: int| 0 <= k < i ==> list@[k] != id,
    {
        if list[i] == id {
            return true;
        }
    }
    false
}

/// The row of a file whose path changed: the first one that is this physical
/// file under a path that is `gone` from the disk, and that is not `taken` by
/// another file. A file whose former path is still there has not moved.
pub fn find_moved_row(
    index: &Index,
    platform: Platform,
    path: &str,
    meta: Option<FileMeta>,
    identity: Option<Identity>,
    gone: &[String],
    taken: &[i64],
) -> (id: Option<i64>)
    ensures
        id == moved_row(index@, platform, path@, meta, identity, outside::texts(gone@), taken@),
{
    let files = &index.files;
    let ghost views = index@.files;
    let ghost left = outside::texts(gone@);
    let ghost keep = |p: int|
        is_moved_row(platform, views[p], path@, meta, identity, left, taken@);
    proof {
        assert(lists::positions(0, keep).len() == 0);
    }
    for p in 0..files.len()
        invariant
            views == model::file_rows(files@),
            views == index@.files,
            left == outside::texts(gone@),
            keep == (|p: int|
                is_moved_row(platform, views[p], path@, meta, identity, left, taken@)),
            lists::positions(p as nat, keep).len() == 0,
    {
        proof {
            assert(views[p as int] == files@[p as int]@);
        }
        if is_former(platform, &files[p], path, meta, identity) && holds_text(
            gone,
            files[p].path.as_str(),
        ) && !holds_id(taken, files[p].id) {
            proof {
                assert(keep(p as int));
                assert(lists::positions((p + 1) as nat, keep) =~= seq![p as int]);
                lists::lemma_first_position(views.len(), keep, (p + 1) as nat);
            }
            return Some(files[p].id);
        }
    }
    None
}

/// A file that the walk found, with what the disk says of it.
pub struct FoundFile {
    pub path: String,
    pub meta: Option<FileMeta>,
    pub identity: Option<Identity>,
    /// Paths that the disk was asked for and does not have any more.
    pub gone: Vec<String>,
}

/// What becomes of a file: left out by a rule or its size, known, moved, or
/// to be hashed.
pub open spec fn dispatched(
    index: IndexView,
    rules: WalkRules,
    min_file_size: u64,
    file: FoundFile,
    taken: Seq<i64>,
) -> Dispatch {
    let path = file.path@;
    if paths::excluded(rules.platform, path, rules.trash@, outside::texts(rules.exclude@)) {
        Dispatch::Skipped
    } else if file.meta is Some && file.meta->0.len < min_file_size {
        Dispatch::Skipped
    } else if unchanged(index, rules.platform, path, file.meta) {
        Dispatch::Unchanged
    } else {
        match moved_row(
            index,
            rules.platform,
            path,
            file.meta,
            file.identity,
            outside::texts(file.gone@),
            taken,
        ) {
            Some(id) => Dispatch::Moved(id),
            None => Dispatch::Hash,
        }
    }
}

/// A file that counts as moved is a live row's physical file, and the path of
/// that row was answered as gone.
pub open spec fn moves_soundly(
    index: IndexView,
    platform: Platform,
    file: FoundFile,
    decision: Dispatch,
) -> bool {
    decision matches Dispatch::Moved(id) ==> match model::at_id(index.files, id) {
        Some(p) => is_former_row(platform, index.files[p], file.path@, file.meta, file.identity)
            && outside::texts(file.gone@).contains(index.files[p].path),
        None => false,
    }
}

proof fn lemma_moves_soundly(
    index: IndexView,
    rules: WalkRules,
    min_file_size: u64,
    file: FoundFile,
    taken: Seq<i64>,
)
    requires
        index.wf(),
    ensures
        ({
            let decision = dispatched(index, rules, min_file_size, file, taken);
            &&& moves_soundly(index, rules.platform, file, decision)
            &&& decision matches Dispatch::Moved(id) ==> !taken.contains(id)
        }),
{
    let gone = outside::texts(file.gone@);
    let keep = |p: int|
        is_moved_row(
            rules.platform,
            index.files[p],
            file.path@,
            file.meta,
            file.identity,
            gone,
            taken,
        );
    lists::lemma_positions(index.files.len(), keep);
    let rows = lists::positions(index.files.len(), keep);
    if rows.len() > 0 {
        assert(keep(rows[0]));
        model::lemma_at_id(index.files, rows[0]);
    }
}

/// Decide on one file. Rows that are `taken` belong to other files already.
pub fn dispatch_path(
    index: &Index,
    rules: &WalkRules,
    min_file_size: u64,
    file: &FoundFile,
    taken: &[i64],
) -> (decision: Dispatch)
    requires
        index.wf(),
    ensures
        decision == dispatched(index@, *rules, min_file_size, *file, taken@),
        moves_soundly(index@, rules.platform, *file, decision),
{
    proof {
        lemma_moves_soundly(index@, *rules, min_file_size, *file, taken@);
    }
    let path = file.path.as_str();
    if is_excluded(rules.platform, path, rules.trash.as_str(), rules.exclude.as_slice()) {
        return Dispatch::Skipped;
    }
    match file.meta {
        Some(m) => {
            if m.len < min_file_size {
                return Dispatch::Skipped;
            }
        },
        None => {},
    }
    if is_unchanged(index, rules.platform, path, file.meta) {
        return Dispatch::Unchanged;
    }
    match find_moved_row(
        index,
        rules.platform,
        path,
        file.meta,
        file.identity,
        file.gone.as_slice(),
        taken,
    ) {
        Some(id) => Dispatch::Moved(id),
        None => Dispatch::Hash,
    }
}

/// The rows that some decisions hand over.
pub open spec fn rows_taken(decisions: Seq<Dispatch>) -> Seq<i64>
    decreases decisions.len(),
{
    if decisions.len() == 0 {
        Seq::empty()
    } else {
        let front = rows_taken(decisions.drop_last());
        match decisions.last() {
            Dispatch::Moved(id) => front.push(id),
            _ => front,
        }
    }
}

/// Decide on all files of a walk by the index as it stands. A row goes to one
/// file at most, so two new names of one physical file are not taken for one
/// moved file.
pub fn dispatch_found(
    index: &Index,
    rules: &WalkRules,
    min_file_size: u64,
    found: &[FoundFile],
) -> (decisions: Vec<Dispatch>)
    requires
        index.wf(),
    ensures
        decisions@.len() == found@.len(),
        forall|k: int|
            0 <= k < found@.len() ==> #[trigger] decisions@[k] == dispatched(
                index@,
                *rules,
                min_file_size,
                found@[k],
                rows_taken(decisions@.take(k)),
            ),
        forall|k: int|
            0 <= k < found@.len() ==> moves_soundly(
                index@,
                rules.platform,
                found@[k],
                #[trigger] decisions@[k],
            ),
{
    let mut decisions: Vec<Dispatch> = Vec::new();
    let mut taken: Vec<i64> = Vec::new();
    proof {
        assert(taken@ =~= rows_taken(decisions@));
    }
    for i in 0..found.len()
        invariant
            index.wf(),
            decisions@.len() == i,
            taken@ == rows_taken(decisions@),
            forall|k: int|
                0 <= k < i ==> #[trigger] decisions@[k] == dispatched(
                    index@,
                    *rules,
                    min_file_size,
                    found@[k],
                    rows_taken(decisions@.take(k)),
                ),
            forall|k: int|
                0 <= k < i ==> moves_soundly(
                    index@,
                    rules.platform,
                    found@[k],
                    #[trigger] decisions@[k],
                ),
    {
        let ghost before = decisions@;
        let decision = dispatch_path(index, rules, min_file_size, &found[i], taken.as_slice());
        decisions.push(decision);
        match decision {
            Dispatch::Moved(id) => taken.push(id),
            _ => {},
        }
        proof {
            assert(decisions@.drop_last() =~= before);
            assert forall|k: int| 0 <= k < i + 1 implies #[trigger] decisions@[k] == dispatched(
                index@,
                *rules,
                min_file_size,
                found@[k],
                rows_taken(decisions@.take(k)),
            ) by {
                assert(decisions@.take(k) =~= before.take(k));
                if k == i {
                    assert(before.take(k) =~= before);
                } else {
                    assert(decisions@[k] == before[k]);
                }
            }
            assert forall|k: int| 0 <= k < i + 1 implies moves_soundly(
                index@,
                rules.platform,
                found@[k],
                #[trigger] decisions@[k],
            ) by {
                if k < i {
                    assert(decisions@[k] == before[k]);
                }
            }
        }
    }
    decisions
}

/// A file of which the index knows other names, all of them still there, has
/// not moved: no row is taken from such a name.
pub proof fn law_a_new_link_moves_nothing(
    index: IndexView,
    rules: WalkRules,
    min_file_size: u64,
    file: FoundFile,
    taken: Seq<i64>,
)
    requires
        index.wf(),
        forall|p: int|
            0 <= p < index.files.len() && is_former_row(
                rules.platform,
                #[trigger] index.files[p],
                file.path@,
                file.meta,
                file.identity,
            ) ==> !outside::texts(file.gone@).contains(index.files[p].path),
    ensures
        !(dispatched(index, rules, min_file_size, file, taken) is Moved),
{
    lemma_moves_soundly(index, rules, min_file_size, file, taken);
}

/// A walk hands each row to one file at most.
pub proof fn law_a_row_moves_once(
    index: IndexView,
    rules: WalkRules,
    min_file_size: u64,
    found: Seq<FoundFile>,
    decisions: Seq<Dispatch>,
    a: int,
    b: int,
    id: i64,
)
    requires
        index.wf(),
        decisions.len() == found.len(),
        forall|k: int|
            0 <= k < found.len() ==> #[trigger] decisions[k] == dispatched(
                index,
                rules,
                min_file_size,
                found[k],
                rows_taken(decisions.take(k)),
            ),
        0 <= a < b < decisions.len(),
        decisions[a] == Dispatch::Moved(id),
    ensures
        decisions[b] != Dispatch::Moved(id),
{
    lemma_moves_soundly(index, rules, min_file_size, found[b], rows_taken(decisions.take(b)));
    lemma_rows_taken(decisions.take(b), a, id);
}

proof fn lemma_rows_taken(decisions: Seq<Dispatch>, a: int, id: i64)
    requires
        0 <= a < decisions.len(),
        decisions[a] == Dispatch::Moved(id),
    ensures
        rows_taken(decisions).contains(id),
    decreases decisions.len(),
{
    let front = decisions.drop_last();
    let list = rows_taken(decisions);
    if a < front.len() {
        lemma_rows_taken(front, a, id);
        let k = choose|k: int| 0 <= k < rows_taken(front).len() && rows_taken(front)[k] == id;
        assert(list[k] == id);
    } else {
        assert(list[list.len() - 1] == id);
    }
}

/// A file whose size and time have not changed since it was indexed is not
/// hashed again, unless it is an image without a fingerprint.
pub proof fn law_unchanged_files_are_not_hashed(
    index: IndexView,
    rules: WalkRules,
    i: int,
    min_file_size: u64,
    file: FoundFile,
    meta: FileMeta,
    taken: Seq<i64>,
)
    requires
        index.wf(),
        0 <= i < index.files.len(),
        file.path@ == index.files[i].path,
        file.meta == Some(meta),
        meta.len == index.files[i].size,
        meta.modified == Some(index.files[i].modified),
        !paths::image_path(rules.platform, index.files[i].path) || index.photos.contains_key(
            index.files[i].id,
        ),
    ensures
        dispatched(index, rules, min_file_size, file, taken) != Dispatch::Hash,
{
    model::lemma_at_path(index.files, i);
}

/// A file is passed over as unchanged only where the row of its path has its
/// present size and its present time: a file whose size or time differs from
/// its row is never passed over. Nor is one that cannot be read, one without
/// a row, an excluded one, one below the smallest size, or a picture without
/// a fingerprint.
pub proof fn law_changed_files_are_not_passed_over(
    index: IndexView,
    rules: WalkRules,
    min_file_size: u64,
    file: FoundFile,
    taken: Seq<i64>,
)
    requires
        index.wf(),
        dispatched(index, rules, min_file_size, file, taken) == Dispatch::Unchanged,
    ensures
        file.meta is Some,
        file.meta->0.len >= min_file_size,
        !paths::excluded(
            rules.platform,
            file.path@,
            rules.trash@,
            outside::texts(rules.exclude@),
        ),
        exists|i: int|
            {
                &&& 0 <= i < index.files.len()
                &&& (#[trigger] index.files[i]).path == file.path@
                &&& file.meta->0.len == index.files[i].size
                &&& file.meta->0.modified == Some(index.files[i].modified)
                &&& paths::image_path(rules.platform, file.path@) ==> index.photos.contains_key(
                    index.files[i].id,
                )
            },
{
    let i = model::at_path(index.files, file.path@)->0;
    assert(index.files[i].path == file.path@);
}

/// The test behind it, for every file: it is unchanged exactly where a row
/// has its path, its size and its time, and a picture has its fingerprint.
pub proof fn law_unchanged_means_same_size_and_time(
    index: IndexView,
    platform: Platform,
    path: Seq<char>,
    meta: Option<FileMeta>,
)
    requires
        index.wf(),
    ensures
        unchanged(index, platform, path, meta) <==> exists|i: int|
            {
                &&& 0 <= i < index.files.len()
                &&& (#[trigger] index.files[i]).path == path
                &&& meta is Some
                &&& meta->0.len == index.files[i].size
                &&& meta->0.modified == Some(index.files[i].modified)
                &&& paths::image_path(platform, path) ==> index.photos.contains_key(
                    index.files[i].id,
                )
            },
{
    if unchanged(index, platform, path, meta) {
        let i = model::at_path(index.files, path)->0;
        assert(index.files[i].path == path);
    }
    assert forall|i: int|
        0 <= i < index.files.len() && (#[trigger] index.files[i]).path == path && meta is Some
            && meta->0.len == index.files[i].size && meta->0.modified == Some(
            index.files[i].modified,
        ) && (paths::image_path(platform, path) ==> index.photos.contains_key(
            index.files[i].id,
        )) implies unchanged(index, platform, path, meta) by {
        model::lemma_at_path(index.files, i);
    }
}

/// A row is taken for a file that moved only where it is live, at another
/// path that is gone, has the size, the time and the identity of the file,
/// and was not taken before; it is the first such row, and where there is
/// one, the file is not hashed.
pub proof fn law_a_moved_file_is_the_same_file(
    index: IndexView,
    rules: WalkRules,
    min_file_size: u64,
    file: FoundFile,
    taken: Seq<i64>,
    p: int,
)
    requires
        index.wf(),
        0 <= p < index.files.len(),
    ensures
        ({
            let decision = dispatched(index, rules, min_file_size, file, taken);
            let row = index.files[p];
            let same = file.meta is Some && file.identity is Some && row.present && row.path
                != file.path@ && file.meta->0.len == row.size && file.meta->0.modified == Some(
                row.modified,
            ) && (match rules.platform {
                Platform::Posix => row.dev != 0 && row.inode != 0 && row.dev
                    == file.identity->0.dev && row.inode == file.identity->0.inode,
                Platform::Windows => row.frn != 0 && row.frn == file.identity->0.frn,
            }) && outside::texts(file.gone@).contains(row.path) && !taken.contains(row.id);
            &&& decision == Dispatch::Moved(row.id) ==> same
            &&& same ==> decision != Dispatch::Hash
            &&& same && decision is Moved ==> decision->Moved_0 <= row.id
        }),
{
    let gone = outside::texts(file.gone@);
    let keep = |q: int|
        is_moved_row(
            rules.platform,
            index.files[q],
            file.path@,
            file.meta,
            file.identity,
            gone,
            taken,
        );
    lists::lemma_positions(index.files.len(), keep);
    let rows = lists::positions(index.files.len(), keep);
    if rows.len() > 0 {
        assert(keep(rows[0]));
        model::lemma_at_id(index.files, rows[0]);
        model::lemma_at_id(index.files, p);
    }
    if keep(p) {
        assert(rows.contains(p));
        let k = choose|k: int| 0 <= k < rows.len() && rows[k] == p;
        if k > 0 {
            assert(rows[0] < rows[k]);
            assert(index.files[rows[0]].id < index.files[p].id);
        }
    }
}

// ---------------------------------------------------------------------------
// Hashing one file
// ---------------------------------------------------------------------------

/// Which hash a file gets first.
#[derive(Clone, Copy, Debug, PartialEq, Eq, Structural)]
pub enum HashPlan {
    Full,
    Quick,
}

/// Large files get their quick fingerprint first.
pub open spec fn planned(len: u64) -> Result<HashPlan, Seq<char>> {
    if len > i64::MAX {
        Err("file is too large"@)
    } else if len > hashing::LARGE_FILE_QUICK_THRESHOLD {
        Ok(HashPlan::Quick)
    } else {
        Ok(HashPlan::Full)
    }
}

pub fn plan_hash(len: u64) -> (plan: Result<HashPlan, String>)
    ensures
        match planned(len) {
            Ok(p) => plan is Ok && plan->Ok_0 == p,
            Err(error) => plan is Err && plan->Err_0@ == error,
        },
{
    if len > 0x7fff_ffff_ffff_ffff {
        Err("file is too large".to_string())
    } else if len > hashing::LARGE_FILE_QUICK_THRESHOLD {
        Ok(HashPlan::Quick)
    } else {
        Ok(HashPlan::Full)
    }
}

/// Length and modification time of a file, or why they could not be read.
pub struct Measured {
    pub len: u64,
    pub modified: i64,
}

/// What was seen while a file was hashed.
pub struct HashSeen {
    pub before: Result<Measured, String>,
    /// The hash that was planned for the length before.
    pub hash: Result<String, String>,
    pub after: Result<Measured, String>,
    pub identity: Identity,
    pub exif_taken: i64,
    pub photo: Option<(u64, u64)>,
    pub document: Option<(u64, i64)>,
}

/// The entry of a file that was hashed, or why there is none. A file that
/// changed meanwhile is left for the next scan.
pub open spec fn entry_of(platform: Platform, path: Seq<char>, seen: HashSeen) -> Result<
    indexing::EntryView,
    Seq<char>,
> {
    match seen.before {
        Err(error) => Err(error@),
        Ok(before) => match planned(before.len) {
            Err(error) => Err(error),
            Ok(plan) => match seen.hash {
                Err(error) => Err(error@),
                Ok(hash) => match seen.after {
                    Err(error) => Err(error@),
                    Ok(after) => if after.len != before.len || after.modified != before.modified {
                        Err("file changed while hashing; retry on next scan"@)
                    } else {
                        Ok(
                            indexing::EntryView {
                                path,
                                size: before.len as i64,
                                modified: before.modified,
                                hash: if plan == HashPlan::Quick {
                                    Seq::empty()
                                } else {
                                    hash@
                                },
                                quick_hash: if plan == HashPlan::Quick {
                                    Some(hash@)
                                } else {
                                    None
                                },
                                dev: seen.identity.dev,
                                inode: seen.identity.inode,
                                frn: seen.identity.frn,
                                exif_taken: if paths::image_path(platform, path) {
                                    seen.exif_taken
                                } else {
                                    0
                                },
                                photo: seen.photo,
                                document: seen.document,
                            },
                        )
                    },
                },
            },
        },
    }
}

/// Put together what is known of one file after hashing it. A failure names
/// the file.
pub fn process_file(platform: Platform, path: &str, seen: &HashSeen) -> (result: Result<
    ProcessedEntry,
    (String, String),
>)
    ensures
        match entry_of(platform, path@, *seen) {
            Ok(entry) => result is Ok && result->Ok_0@ == entry,
            Err(error) => result is Err && result->Err_0.0@ == path@ && result->Err_0.1@ == error,
        },
{
    let before = match &seen.before {
        Err(error) => return Err((path.to_string(), error.clone())),
        Ok(before) => before,
    };
    let plan = match plan_hash(before.len) {
        Err(error) => return Err((path.to_string(), error)),
        Ok(plan) => plan,
    };
    let hash = match &seen.hash {
        Err(error) => return Err((path.to_string(), error.clone())),
        Ok(hash) => hash.clone(),
    };
    let after = match &seen.after {
        Err(error) => return Err((path.to_string(), error.clone())),
        Ok(after) => after,
    };
    if after.len != before.len || after.modified != before.modified {
        return Err(
            (path.to_string(), "file changed while hashing; retry on next scan".to_string()),
        );
    }
    let (full, quick) = match plan {
        HashPlan::Full => (hash, None),
        HashPlan::Quick => {
            let none = String::new();
            proof {
                assert(none@ =~= Seq::<char>::empty());
            }
            (none, Some(hash))
        },
    };
    let exif_taken: i64 = if is_image_path(platform, path) {
        seen.exif_taken
    } else {
        0
    };
    Ok(
        ProcessedEntry {
            path_text: path.to_string(),
            size: before.len as i64,
            modified: before.modified,
            hash: full,
            quick_hash: quick,
            dev: seen.identity.dev,
            inode: seen.identity.inode,
            frn: seen.identity.frn,
            exif_taken,
            photo: seen.photo,
            document: seen.document,
        },
    )
}

} // verus!
