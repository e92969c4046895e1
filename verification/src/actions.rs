//! What an operation asks of the disk, what it has seen there so far, and how
//! it is recorded once done.
use crate::model::{
    new_operation_id, FileView, Index, IndexView, OperationRow, OperationState, OperationView,
};
use crate::paths::{file_name, join_path, Platform};
use crate::settings::required_setting;
use crate::text::{joined, signed_text};
use crate::{model, paths, settings, text};
use vstd::prelude::*;

verus! {

/// Physical identity of a file.
#[derive(Clone, Copy, Debug, PartialEq, Eq)]
pub struct Identity {
    pub dev: i64,
    pub inode: i64,
    pub frn: i64,
}

/// One piece of work on the disk. Each is answered in the field of `Seen`
/// that its comment names.
pub enum Action {
    /// Is there a file at this path? (`is_file`)
    Inspect { path: String },
    /// Hash the content of the file. (`content_hash`)
    Hash { path: String },
    /// Compare two files byte by byte. (`same_bytes`)
    Compare { left: String, right: String },
    /// Create the directories above this path. (`prepared`)
    MakeParents { path: String },
    /// Move a file, checking the content at its new place. (`moved`)
    Move { from: String, to: String, hash: String },
    /// Delete the file. (`deleted`)
    Delete { path: String },
    /// Are two files on one volume? (`same_volume`)
    CompareVolumes { left: String, right: String },
    /// Hash the content of the copy that stays. (`kept_hash`)
    HashKept { path: String },
    /// Make `link` a hard link to `target`, replacing a leftover. (`linked`)
    Link { target: String, link: String },
    /// Remove the original name. (`unlinked`)
    Unlink { path: String },
    /// Remove the temporary link. (`discarded`)
    Discard { path: String },
    /// Give the temporary link the original name. (`renamed`)
    Rename { from: String, to: String },
    /// Link the original name to the kept copy again. (`relinked`)
    Relink { target: String, link: String },
    /// Read the physical identity of the file. (`identity`)
    Identify { path: String },
    /// Is this a directory? (`is_directory`)
    InspectDirectory { path: String },
    /// Is something at this path? (`occupied`)
    Probe { path: String },
    /// Remove these directories in order until one cannot be. (`pruned`)
    Prune { directories: Vec<String> },
    /// Remove this directory if it is empty. (`removed_directory`)
    RemoveDirectory { path: String },
    /// Nothing more to do; this is the outcome.
    Finished { result: Result<(), String> },
}

pub enum ActionView {
    Inspect { path: Seq<char> },
    Hash { path: Seq<char> },
    Compare { left: Seq<char>, right: Seq<char> },
    MakeParents { path: Seq<char> },
    Move { from: Seq<char>, to: Seq<char>, hash: Seq<char> },
    Delete { path: Seq<char> },
    CompareVolumes { left: Seq<char>, right: Seq<char> },
    HashKept { path: Seq<char> },
    Link { target: Seq<char>, link: Seq<char> },
    Unlink { path: Seq<char> },
    Discard { path: Seq<char> },
    Rename { from: Seq<char>, to: Seq<char> },
    Relink { target: Seq<char>, link: Seq<char> },
    Identify { path: Seq<char> },
    InspectDirectory { path: Seq<char> },
    Probe { path: Seq<char> },
    Prune { directories: Seq<Seq<char>> },
    RemoveDirectory { path: Seq<char> },
    Finished { result: Result<(), Seq<char>> },
}

impl View for Action {
    type V = ActionView;

    open spec fn view(&self) -> ActionView {
        match *self {
            Action::Inspect { path } => ActionView::Inspect { path: path@ },
            Action::Hash { path } => ActionView::Hash { path: path@ },
            Action::Compare { left, right } => ActionView::Compare { left: left@, right: right@ },
            Action::MakeParents { path } => ActionView::MakeParents { path: path@ },
            Action::Move { from, to, hash } => ActionView::Move {
                from: from@,
                to: to@,
                hash: hash@,
            },
            Action::Delete { path } => ActionView::Delete { path: path@ },
            Action::CompareVolumes { left, right } => ActionView::CompareVolumes {
                left: left@,
                right: right@,
            },
            Action::HashKept { path } => ActionView::HashKept { path: path@ },
            Action::Link { target, link } => ActionView::Link { target: target@, link: link@ },
            Action::Unlink { path } => ActionView::Unlink { path: path@ },
            Action::Discard { path } => ActionView::Discard { path: path@ },
            Action::Rename { from, to } => ActionView::Rename { from: from@, to: to@ },
            Action::Relink { target, link } => ActionView::Relink { target: target@, link: link@ },
            Action::Identify { path } => ActionView::Identify { path: path@ },
            Action::InspectDirectory { path } => ActionView::InspectDirectory { path: path@ },
            Action::Probe { path } => ActionView::Probe { path: path@ },
            Action::Prune { directories } => ActionView::Prune {
                directories: crate::outside::texts(directories@),
            },
            Action::RemoveDirectory { path } => ActionView::RemoveDirectory { path: path@ },
            Action::Finished { result } => ActionView::Finished {
                result: crate::outside::message_of(result),
            },
        }
    }
}

/// The answers of the disk so far, for one file.
pub struct Seen {
    pub is_file: Option<bool>,
    pub content_hash: Option<Result<String, String>>,
    pub same_bytes: Option<Result<bool, String>>,
    pub prepared: Option<Result<(), String>>,
    pub moved: Option<Result<(), String>>,
    pub deleted: Option<Result<(), String>>,
    pub same_volume: Option<Result<bool, String>>,
    /// Hash of the copy that stays when another becomes a link to it.
    pub kept_hash: Option<Result<String, String>>,
    pub linked: Option<Result<(), String>>,
    pub unlinked: Option<Result<(), String>>,
    pub discarded: bool,
    pub renamed: Option<Result<(), String>>,
    pub relinked: Option<bool>,
    pub identity: Option<Identity>,
    pub is_directory: Option<bool>,
    pub occupied: Option<bool>,
    pub pruned: bool,
    pub removed_directory: Option<bool>,
    /// How many names for a moved file were found to be taken.
    pub taken: usize,
    /// When work on the file began, where that is kept with the answers.
    pub began: Option<i64>,
}

/// Nothing has been seen yet.
pub open spec fn nothing_seen() -> Seen {
    Seen {
        is_file: None,
        content_hash: None,
        same_bytes: None,
        prepared: None,
        moved: None,
        deleted: None,
        same_volume: None,
        kept_hash: None,
        linked: None,
        unlinked: None,
        discarded: false,
        renamed: None,
        relinked: None,
        identity: None,
        is_directory: None,
        occupied: None,
        pruned: false,
        removed_directory: None,
        taken: 0,
        began: None,
    }
}

impl Seen {
    pub fn new() -> (seen: Seen)
        ensures
            seen == nothing_seen(),
    {
        Seen {
            is_file: None,
            content_hash: None,
            same_bytes: None,
            prepared: None,
            moved: None,
            deleted: None,
            same_volume: None,
            kept_hash: None,
            linked: None,
            unlinked: None,
            discarded: false,
            renamed: None,
            relinked: None,
            identity: None,
            is_directory: None,
            occupied: None,
            pruned: false,
            removed_directory: None,
            taken: 0,
            began: None,
        }
    }
}

/// When work on the file began: now, where nothing else is known.
pub open spec fn begun(seen: Seen, now: i64) -> i64 {
    match seen.began {
        Some(time) => time,
        None => now,
    }
}

/// The answers with the time at which work on the file began.
pub open spec fn timed(seen: Seen, now: i64) -> Seen {
    Seen { began: Some(begun(seen, now)), ..seen }
}

/// Note when work on the file began, once. Every later step goes by that
/// time, so the place in the bin that was made ready is the one that the
/// file moves to and that is recorded.
pub(crate) fn hold_time(seen: &mut Seen, now: i64) -> (began: i64)
    ensures
        *final(seen) == timed(*old(seen), now),
        began == begun(*old(seen), now),
{
    let began: i64 = match seen.began {
        Some(time) => time,
        None => now,
    };
    seen.began = Some(began);
    began
}

/// An operation that stops here with a message.
pub open spec fn failed(message: Seq<char>) -> ActionView {
    ActionView::Finished { result: Err(message) }
}

/// An operation that is done.
pub open spec fn done() -> ActionView {
    ActionView::Finished { result: Ok(()) }
}

pub(crate) fn fail(message: String) -> (action: Action)
    ensures
        action@ == failed(message@),
{
    Action::Finished { result: Err(message) }
}

pub(crate) fn finish() -> (action: Action)
    ensures
        action@ == done(),
{
    Action::Finished { result: Ok(()) }
}

/// Where one check of an operation stands.
pub enum Gate {
    /// The disk has to be asked.
    Ask(ActionView),
    /// The operation stops with a message.
    Stop(Seq<char>),
    /// The check is passed.
    Pass,
}

/// An action that must succeed, with `prefix` in front of its error.
pub open spec fn must_succeed(
    reply: Option<Result<(), String>>,
    action: ActionView,
    prefix: Seq<char>,
) -> Gate {
    match reply {
        None => Gate::Ask(action),
        Some(Err(error)) => Gate::Stop(prefix + error@),
        Some(Ok(_)) => Gate::Pass,
    }
}

/// The file must still have the content that the index knows.
pub open spec fn content_gate(
    seen: Seen,
    path: Seq<char>,
    hash: Seq<char>,
    mismatch: Seq<char>,
) -> Gate {
    match seen.content_hash {
        None => Gate::Ask(ActionView::Hash { path }),
        Some(Err(error)) => Gate::Stop(error@),
        Some(Ok(actual)) => if actual@ == hash {
            Gate::Pass
        } else {
            Gate::Stop(mismatch)
        },
    }
}

/// A reply as an error message, where it is one.
pub(crate) fn error_of(reply: &Option<Result<(), String>>) -> (error: Option<String>)
    ensures
        match *reply {
            Some(Err(e)) => error is Some && error->0@ == e@,
            _ => error is None,
        },
{
    match reply {
        Some(Err(e)) => Some(e.clone()),
        _ => None,
    }
}

/// `None` where the content is what the index knows; else how the operation
/// goes on.
pub(crate) fn check_content(seen: &Seen, path: &str, hash: &str, mismatch: &str) -> (stop: Option<
    Action,
>)
    ensures
        match content_gate(*seen, path@, hash@, mismatch@) {
            Gate::Ask(action) => stop is Some && stop->0@ == action,
            Gate::Stop(message) => stop is Some && stop->0@ == failed(message),
            Gate::Pass => stop is None,
        },
{
    match &seen.content_hash {
        None => Some(Action::Hash { path: path.to_string() }),
        Some(Err(error)) => Some(fail(error.clone())),
        Some(Ok(actual)) => if text::same_text(actual.as_str(), hash) {
            None
        } else {
            Some(fail(mismatch.to_string()))
        },
    }
}

// ---------------------------------------------------------------------------
// The recycle bin
// ---------------------------------------------------------------------------

/// Where a file goes in the recycle bin:
/// `<bin>/<time>-<id>/files/<id>/<name>`.
pub open spec fn bin_path(
    index: IndexView,
    platform: Platform,
    now: i64,
    id: i64,
    source: Seq<char>,
) -> Result<Seq<char>, Seq<char>> {
    match index.setting("trash_path"@) {
        None => Err(settings::not_initialized()),
        Some(root) => match paths::file_name_of(platform, source) {
            None => Err("source has no file name"@),
            Some(name) => {
                let batch = text::decimal(now as int) + "-"@ + text::decimal(id as int);
                let top = paths::inside(platform, root, batch);
                let files = paths::inside(platform, top, "files"@);
                let own = paths::inside(platform, files, text::decimal(id as int));
                Ok(paths::inside(platform, own, name))
            },
        },
    }
}

/// Where a file goes in the recycle bin.
pub fn recycle_destination(index: &Index, platform: Platform, now: i64, id: i64, source: &str) -> (
destination: Result<String, String>)
    requires
        index.wf(),
    ensures
        match bin_path(index@, platform, now, id, source@) {
            Ok(path) => destination is Ok && destination->Ok_0@ == path,
            Err(error) => destination is Err && destination->Err_0@ == error,
        },
{
    let root = match required_setting(index, "trash_path") {
        Err(error) => return Err(error),
        Ok(root) => root,
    };
    let name = match file_name(platform, source) {
        None => return Err("source has no file name".to_string()),
        Some(name) => name,
    };
    let time = signed_text(now);
    let number = signed_text(id);
    let stamp = joined(time.as_str(), "-");
    let batch = joined(stamp.as_str(), number.as_str());
    let top = join_path(platform, root.as_str(), batch.as_str());
    let files = join_path(platform, top.as_str(), "files");
    let own = join_path(platform, files.as_str(), number.as_str());
    Ok(join_path(platform, own.as_str(), name.as_str()))
}

// ---------------------------------------------------------------------------
// Recording
// ---------------------------------------------------------------------------

impl IndexView {
    /// The index with one more operation. Only the id of `row` is chosen here.
    pub open spec fn with_operation(self, row: OperationView) -> Result<IndexView, Seq<char>> {
        match model::next_operation_id(self.operations) {
            None => Err(model::table_full()),
            Some(id) => Ok(
                IndexView {
                    operations: self.operations.push(OperationView { id, ..row }),
                    ..self
                },
            ),
        }
    }
}

pub proof fn lemma_wf_with_operation(index: IndexView, row: OperationView)
    requires
        index.wf(),
        model::has_id(index.files, row.file_id),
        index.with_operation(row) is Ok,
    ensures
        index.with_operation(row)->Ok_0.wf(),
{
    let after = index.with_operation(row)->Ok_0;
    assert forall|i: int, j: int| 0 <= i < j < after.operations.len() implies (
    #[trigger] after.operations[i]).id < (#[trigger] after.operations[j]).id by {
        if j == index.operations.len() {
            let last = index.operations.len() - 1;
            if i < last {
                assert(index.operations[i].id < index.operations[last].id);
            }
        } else {
            assert(index.operations[i].id < index.operations[j].id);
        }
    }
    if index.operations.len() == 0 {
        assert(after.operations[0].id == 1);
    } else {
        assert(after.operations[0] == index.operations[0]);
    }
    assert forall|k: int| 0 <= k < after.operations.len() implies model::has_id(
        index.files,
        (#[trigger] after.operations[k]).file_id,
    ) by {
        if k < index.operations.len() {
            assert(after.operations[k] == index.operations[k]);
        }
    }
    model::lemma_wf_carries(index, after);
}

/// Append an operation under the next id.
pub(crate) fn push_operation(index: &mut Index, row: OperationRow) -> (result: Result<(), String>)
    requires
        old(index).wf(),
        model::has_id(old(index)@.files, row.file_id),
    ensures
        final(index).wf(),
        match old(index)@.with_operation(row@) {
            Err(error) => result is Err && result->Err_0@ == error && final(index)@ == old(index)@,
            Ok(after) => result is Ok && final(index)@ == after && final(index).files == old(
                index,
            ).files,
        },
{
    let id: i64 = match new_operation_id(&index.operations) {
        None => return Err("database or disk is full".to_string()),
        Some(id) => id,
    };
    let ghost before = index@;
    let mut own = row;
    let ghost given = own@;
    own.id = id;
    index.operations.push(own);
    proof {
        assert(index@.operations =~= before.operations.push(OperationView { id, ..given }));
        lemma_wf_with_operation(before, given);
    }
    Ok(())
}

/// The live row at `i` is gone and the operation that took it is recorded.
pub open spec fn retired(
    index: IndexView,
    i: int,
    trash_path: Seq<char>,
    state: OperationState,
    now: i64,
    batch_id: Option<i64>,
) -> Result<IndexView, Seq<char>> {
    let file = index.files[i];
    let row = OperationView {
        id: 0,
        file_id: file.id,
        source_path: file.path,
        trash_path,
        hash: file.hash,
        state,
        created_at: now,
        restored_at: None,
        batch_id,
    };
    match index.with_operation(row) {
        Err(error) => Err(error),
        Ok(logged) => Ok(
            logged.with_file(i, (FileView { present: false, approved: false, ..file })),
        ),
    }
}

/// How an operation ends that is recorded as `outcome`.
pub open spec fn settled(index: IndexView, outcome: Result<IndexView, Seq<char>>) -> (
    IndexView,
    ActionView,
) {
    match outcome {
        Err(error) => (index, failed(error)),
        Ok(after) => (after, done()),
    }
}

pub(crate) fn retire(
    index: &mut Index,
    i: usize,
    trash_path: &str,
    state: OperationState,
    now: i64,
    batch_id: Option<i64>,
) -> (action: Action)
    requires
        old(index).wf(),
        i < old(index)@.files.len(),
    ensures
        final(index).wf(),
        (final(index)@, action@) == settled(
            old(index)@,
            retired(old(index)@, i as int, trash_path@, state, now, batch_id),
        ),
{
    let ghost before = index@;
    proof {
        assert(before.files[i as int] == index.files@[i as int]@);
        assert(model::has_id(before.files, before.files[i as int].id));
    }
    let row = OperationRow {
        id: 0,
        file_id: index.files[i].id,
        source_path: index.files[i].path.clone(),
        trash_path: trash_path.to_string(),
        hash: index.files[i].hash.clone(),
        state,
        created_at: now,
        restored_at: None,
        batch_id,
    };
    match push_operation(index, row) {
        Err(error) => fail(error),
        Ok(_) => {
            let ghost logged = index@;
            index.files[i].present = false;
            index.files[i].approved = false;
            proof {
                let gone = FileView { present: false, approved: false, ..before.files[i as int] };
                assert(index@.files =~= logged.files.update(i as int, gone));
                model::lemma_wf_with_file(logged, i as int, gone);
                assert(index@ == logged.with_file(i as int, gone));
            }
            finish()
        },
    }
}

} // verus!
