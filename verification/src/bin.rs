//! The recycle bin: bringing files back, deleting them for good, and what has
//! been kept for too long.
use crate::actions::{check_content, error_of, fail, finish, Action, ActionView, Gate, Seen};
use crate::model::{
    find_id, find_operation, FileView, Index, IndexView, OperationRow, OperationState,
    OperationView,
};
use crate::paths::{file_name, join_path, parent_directories, Platform};
use crate::settings::{ensure_initialized, required_setting, trash_retention_days};
use crate::text::{joined, signed_text};
use crate::{actions, lists, model, paths, removal, settings, text};
use vstd::prelude::*;

verus! {

pub open spec fn unknown_operation(id: i64) -> Seq<char> {
    "unknown operation id "@ + text::decimal(id as int)
}

fn unknown_operation_message(id: i64) -> (message: String)
    ensures
        message@ == unknown_operation(id),
{
    let shown = signed_text(id);
    joined("unknown operation id ", shown.as_str())
}

/// The position of the operation with this id, where its file is still in the
/// recycle bin.
pub open spec fn in_bin(operations: Seq<OperationView>, id: i64, refusal: Seq<char>) -> Result<
    int,
    Seq<char>,
> {
    match model::at_operation(operations, id) {
        None => Err(unknown_operation(id)),
        Some(k) => if operations[k].state != OperationState::Trashed {
            Err(refusal)
        } else {
            Ok(k)
        },
    }
}

fn find_in_bin(operations: &Vec<OperationRow>, id: i64, refusal: &str) -> (found: Result<
    usize,
    String,
>)
    requires
        model::operation_ids_ascending(model::operation_rows(operations@)),
    ensures
        match in_bin(model::operation_rows(operations@), id, refusal@) {
            Ok(k) => found is Ok && found->Ok_0 == k && found->Ok_0 < operations@.len(),
            Err(error) => found is Err && found->Err_0@ == error,
        },
{
    let k = match find_operation(operations, id) {
        None => return Err(unknown_operation_message(id)),
        Some(k) => k,
    };
    proof {
        assert(model::operation_rows(operations@)[k as int] == operations@[k as int]@);
    }
    if operations[k].state != OperationState::Trashed {
        return Err(refusal.to_string());
    }
    Ok(k)
}

// ---------------------------------------------------------------------------
// Bringing back
// ---------------------------------------------------------------------------

pub open spec fn not_restorable() -> Seq<char> {
    "operation is not available for restore"@
}

/// Where a recycled file is to come back to: its old path, or its name in a
/// chosen directory, which must exist.
pub enum Destination {
    Ask(ActionView),
    Stop(Seq<char>),
    At(Seq<char>),
}

pub open spec fn destination_of(
    platform: Platform,
    operation: OperationView,
    target: Option<Seq<char>>,
    seen: Seen,
) -> Destination {
    match target {
        None => Destination::At(operation.source_path),
        Some(directory) => match seen.is_directory {
            None => Destination::Ask(ActionView::InspectDirectory { path: directory }),
            Some(is_directory) => if !is_directory {
                Destination::Stop("target directory not found: "@ + directory)
            } else {
                match paths::file_name_of(platform, operation.trash_path) {
                    None => Destination::Stop("recycle-bin file has no name"@),
                    Some(name) => Destination::At(paths::inside(platform, directory, name)),
                }
            },
        },
    }
}

/// The index after a file came back: the operation is restored and the row of
/// the file is live again, without approval.
pub open spec fn brought_back(index: IndexView, k: int, now: i64) -> IndexView {
    let operation = index.operations[k];
    let logged = IndexView {
        operations: index.operations.update(
            k,
            (OperationView {
                state: OperationState::Restored,
                restored_at: Some(now),
                ..operation
            }),
        ),
        ..index
    };
    match model::at_id(index.files, operation.file_id) {
        None => logged,
        Some(i) => logged.with_file(
            i,
            (FileView { present: true, approved: false, ..index.files[i] }),
        ),
    }
}

/// Bringing one recycled file back. Nothing is overwritten, and the content
/// must be what went into the bin.
pub open spec fn restore_step(
    index: IndexView,
    platform: Platform,
    id: i64,
    target: Option<Seq<char>>,
    seen: Seen,
    now: i64,
) -> (IndexView, ActionView) {
    match in_bin(index.operations, id, not_restorable()) {
        Err(error) => (index, actions::failed(error)),
        Ok(k) => {
            let operation = index.operations[k];
            match destination_of(platform, operation, target, seen) {
                Destination::Ask(action) => (index, action),
                Destination::Stop(message) => (index, actions::failed(message)),
                Destination::At(to) => match seen.occupied {
                    None => (index, ActionView::Probe { path: to }),
                    Some(occupied) => if occupied {
                        (
                            index,
                            actions::failed("restore refused: destination already exists: "@ + to),
                        )
                    } else {
                        match actions::content_gate(
                            seen,
                            operation.trash_path,
                            operation.hash,
                            "recycle-bin file failed integrity check"@,
                        ) {
                            Gate::Ask(action) => (index, action),
                            Gate::Stop(message) => (index, actions::failed(message)),
                            Gate::Pass => match actions::must_succeed(
                                seen.prepared,
                                ActionView::MakeParents { path: to },
                                "create restore directory: "@,
                            ) {
                                Gate::Ask(action) => (index, action),
                                Gate::Stop(message) => (index, actions::failed(message)),
                                Gate::Pass => match actions::must_succeed(
                                    seen.moved,
                                    ActionView::Move {
                                        from: operation.trash_path,
                                        to,
                                        hash: operation.hash,
                                    },
                                    Seq::empty(),
                                ) {
                                    Gate::Ask(action) => (index, action),
                                    Gate::Stop(message) => (index, actions::failed(message)),
                                    Gate::Pass => (brought_back(index, k, now), actions::done()),
                                },
                            },
                        }
                    },
                },
            }
        },
    }
}

/// Changing an operation without touching its id and file keeps the index
/// well formed.
proof fn lemma_wf_with_operation_changed(index: IndexView, k: int, row: OperationView)
    requires
        index.wf(),
        0 <= k < index.operations.len(),
        row.id == index.operations[k].id,
        row.file_id == index.operations[k].file_id,
    ensures
        (IndexView { operations: index.operations.update(k, row), ..index }).wf(),
{
    let after = IndexView { operations: index.operations.update(k, row), ..index };
    assert forall|a: int, b: int| 0 <= a < b < after.operations.len() implies (
    #[trigger] after.operations[a]).id < (#[trigger] after.operations[b]).id by {
        assert(index.operations[a].id < index.operations[b].id);
    }
    assert forall|m: int| 0 <= m < after.operations.len() implies model::has_id(
        index.files,
        (#[trigger] after.operations[m]).file_id,
    ) by {
        assert(model::has_id(index.files, index.operations[m].file_id));
    }
    model::lemma_wf_carries(index, after);
}

fn bring_back(index: &mut Index, k: usize, now: i64)
    requires
        old(index).wf(),
        k < old(index)@.operations.len(),
    ensures
        final(index).wf(),
        final(index)@ == brought_back(old(index)@, k as int, now),
{
    let ghost before = index@;
    proof {
        assert(before.operations[k as int] == index.operations@[k as int]@);
    }
    let file_id: i64 = index.operations[k].file_id;
    index.operations[k].state = OperationState::Restored;
    index.operations[k].restored_at = Some(now);
    proof {
        let row = OperationView {
            state: OperationState::Restored,
            restored_at: Some(now),
            ..before.operations[k as int]
        };
        assert(index@.operations =~= before.operations.update(k as int, row));
        lemma_wf_with_operation_changed(before, k as int, row);
    }
    let ghost logged = index@;
    match find_id(&index.files, file_id) {
        None => {},
        Some(i) => {
            proof {
                assert(logged.files[i as int] == index.files@[i as int]@);
            }
            index.files[i].present = true;
            index.files[i].approved = false;
            proof {
                let row = FileView { present: true, approved: false, ..logged.files[i as int] };
                assert(index@.files =~= logged.files.update(i as int, row));
                model::lemma_wf_with_file(logged, i as int, row);
                assert(index@ == logged.with_file(i as int, row));
            }
        },
    }
}

pub fn restore_with(
    index: &mut Index,
    platform: Platform,
    operation_id: i64,
    target_dir: Option<&str>,
    seen: &Seen,
    now: i64,
) -> (action: Action)
    requires
        old(index).wf(),
    ensures
        final(index).wf(),
        (final(index)@, action@) == restore_step(
            old(index)@,
            platform,
            operation_id,
            crate::groups::borrowed(target_dir),
            *seen,
            now,
        ),
{
    let k = match find_in_bin(
        &index.operations,
        operation_id,
        "operation is not available for restore",
    ) {
        Err(error) => return fail(error),
        Ok(k) => k,
    };
    proof {
        assert(index@.operations[k as int] == index.operations@[k as int]@);
    }
    let to = match target_dir {
        None => index.operations[k].source_path.clone(),
        Some(directory) => match seen.is_directory {
            None => return Action::InspectDirectory { path: directory.to_string() },
            Some(is_directory) => {
                if !is_directory {
                    return fail(joined("target directory not found: ", directory));
                }
                match file_name(platform, index.operations[k].trash_path.as_str()) {
                    None => return fail("recycle-bin file has no name".to_string()),
                    Some(name) => join_path(platform, directory, name.as_str()),
                }
            },
        },
    };
    match seen.occupied {
        None => return Action::Probe { path: to },
        Some(occupied) => {
            if occupied {
                return fail(joined("restore refused: destination already exists: ", to.as_str()));
            }
        },
    }
    match check_content(
        seen,
        index.operations[k].trash_path.as_str(),
        index.operations[k].hash.as_str(),
        "recycle-bin file failed integrity check",
    ) {
        Some(action) => return action,
        None => {},
    }
    if seen.prepared.is_none() {
        return Action::MakeParents { path: to };
    }
    match error_of(&seen.prepared) {
        Some(error) => return fail(joined("create restore directory: ", error.as_str())),
        None => {},
    }
    if seen.moved.is_none() {
        return Action::Move {
            from: index.operations[k].trash_path.clone(),
            to,
            hash: index.operations[k].hash.clone(),
        };
    }
    match error_of(&seen.moved) {
        Some(error) => {
            proof {
                assert(Seq::<char>::empty() + error@ =~= error@);
            }
            return fail(error)
        },
        None => {},
    }
    bring_back(index, k, now);
    finish()
}

/// Bring a recycled file back to where it was.
pub fn restore(index: &mut Index, platform: Platform, operation_id: i64, seen: &Seen, now: i64) -> (
action: Action)
    requires
        old(index).wf(),
    ensures
        final(index).wf(),
        (final(index)@, action@) == removal::opening(
            old(index)@,
            |usable: IndexView| restore_step(usable, platform, operation_id, None, *seen, now),
        ),
{
    match ensure_initialized(index) {
        Err(error) => return fail(error),
        Ok(_) => {},
    }
    restore_with(index, platform, operation_id, None, seen, now)
}

/// Bring a recycled file back into a chosen directory, under its own name.
pub fn restore_to(
    index: &mut Index,
    platform: Platform,
    operation_id: i64,
    target_dir: &str,
    seen: &Seen,
    now: i64,
) -> (action: Action)
    requires
        old(index).wf(),
    ensures
        final(index).wf(),
        (final(index)@, action@) == removal::opening(
            old(index)@,
            |usable: IndexView|
                restore_step(usable, platform, operation_id, Some(target_dir@), *seen, now),
        ),
{
    match ensure_initialized(index) {
        Err(error) => return fail(error),
        Ok(_) => {},
    }
    restore_with(index, platform, operation_id, Some(target_dir), seen, now)
}

// ---------------------------------------------------------------------------
// Deleting for good
// ---------------------------------------------------------------------------

pub open spec fn not_deletable() -> Seq<char> {
    "operation is not available for delete"@
}

/// The recycled file is gone for good.
pub open spec fn erased(index: IndexView, k: int) -> IndexView {
    IndexView {
        operations: index.operations.update(
            k,
            (OperationView { state: OperationState::Deleted, ..index.operations[k] }),
        ),
        ..index
    }
}

/// Deleting one file from the recycle bin, and the directories that this
/// leaves empty below the bin's root. A file that is no longer there counts
/// as deleted.
pub open spec fn delete_trash_step(
    index: IndexView,
    platform: Platform,
    id: i64,
    seen: Seen,
) -> (IndexView, ActionView) {
    match in_bin(index.operations, id, not_deletable()) {
        Err(error) => (index, actions::failed(error)),
        Ok(k) => {
            let path = index.operations[k].trash_path;
            match seen.occupied {
                None => (index, ActionView::Probe { path }),
                Some(occupied) => match (if occupied {
                    actions::must_succeed(
                        seen.deleted,
                        ActionView::Delete { path },
                        "delete recycled file: "@,
                    )
                } else {
                    Gate::Pass
                }) {
                    Gate::Ask(action) => (index, action),
                    Gate::Stop(message) => (index, actions::failed(message)),
                    Gate::Pass => match index.setting("trash_path"@) {
                        None => (index, actions::failed(settings::not_initialized())),
                        Some(root) => if !seen.pruned {
                            (
                                index,
                                ActionView::Prune {
                                    directories: paths::directories_above(platform, path, root),
                                },
                            )
                        } else {
                            (erased(index, k), actions::done())
                        },
                    },
                },
            }
        },
    }
}

pub fn delete_trash_with(index: &mut Index, platform: Platform, operation_id: i64, seen: &Seen) -> (
action: Action)
    requires
        old(index).wf(),
    ensures
        final(index).wf(),
        (final(index)@, action@) == delete_trash_step(old(index)@, platform, operation_id, *seen),
{
    let k = match find_in_bin(
        &index.operations,
        operation_id,
        "operation is not available for delete",
    ) {
        Err(error) => return fail(error),
        Ok(k) => k,
    };
    let ghost before = index@;
    proof {
        assert(before.operations[k as int] == index.operations@[k as int]@);
    }
    match seen.occupied {
        None => return Action::Probe { path: index.operations[k].trash_path.clone() },
        Some(occupied) => {
            if occupied {
                if seen.deleted.is_none() {
                    return Action::Delete { path: index.operations[k].trash_path.clone() };
                }
                match error_of(&seen.deleted) {
                    Some(error) => {
                        return fail(joined("delete recycled file: ", error.as_str()));
                    },
                    None => {},
                }
            }
        },
    }
    let root = match required_setting(index, "trash_path") {
        Err(error) => return fail(error),
        Ok(root) => root,
    };
    if !seen.pruned {
        return Action::Prune {
            directories: parent_directories(
                platform,
                index.operations[k].trash_path.as_str(),
                root.as_str(),
            ),
        };
    }
    index.operations[k].state = OperationState::Deleted;
    proof {
        let row = OperationView { state: OperationState::Deleted, ..before.operations[k as int] };
        assert(index@.operations =~= before.operations.update(k as int, row));
        lemma_wf_with_operation_changed(before, k as int, row);
    }
    finish()
}

/// Delete one file from the recycle bin for good.
pub fn delete_trash(index: &mut Index, platform: Platform, operation_id: i64, seen: &Seen) -> (action:
    Action)
    requires
        old(index).wf(),
    ensures
        final(index).wf(),
        (final(index)@, action@) == removal::opening(
            old(index)@,
            |usable: IndexView| delete_trash_step(usable, platform, operation_id, *seen),
        ),
{
    match ensure_initialized(index) {
        Err(error) => return fail(error),
        Ok(_) => {},
    }
    delete_trash_with(index, platform, operation_id, seen)
}

// ---------------------------------------------------------------------------
// Selections
// ---------------------------------------------------------------------------

pub open spec fn operation_ids(operations: Seq<OperationView>, rows: Seq<int>) -> Seq<i64> {
    rows.map_values(|k: int| operations[k].id)
}

/// The recycled files, in id order.
pub open spec fn recycled(operations: Seq<OperationView>) -> Seq<int> {
    lists::positions(
        operations.len(),
        |k: int| operations[k].state == OperationState::Trashed,
    )
}

/// The files of one user action that are still in the bin, in id order.
pub open spec fn recycled_in_batch(operations: Seq<OperationView>, batch_id: i64) -> Seq<int> {
    lists::positions(
        operations.len(),
        |k: int|
            operations[k].state == OperationState::Trashed && operations[k].batch_id == Some(
                batch_id,
            ),
    )
}

/// `n` moved into the range of 64-bit integers.
pub open spec fn saturated(n: int) -> int {
    settings::clamped(n, i64::MIN as int, i64::MAX as int)
}

/// What was recycled before this moment has been kept too long.
pub open spec fn expiry_limit(days: i64, now: i64) -> int {
    saturated(now - saturated(days * 86_400))
}

/// The files that have been in the bin longer than the retention, in id
/// order. A retention of zero lets nothing expire.
pub open spec fn expired(index: IndexView, now: i64) -> Seq<int> {
    let days = settings::retention_of(index);
    if days <= 0 {
        Seq::empty()
    } else {
        lists::positions(
            index.operations.len(),
            |k: int|
                index.operations[k].state == OperationState::Trashed
                    && index.operations[k].created_at < expiry_limit(days, now),
        )
    }
}

/// The ids of the recycled files that were created before `limit` and belong
/// to `batch_id`, where these are given.
fn select_recycled(operations: &Vec<OperationRow>, limit: Option<i64>, batch_id: Option<i64>) -> (ids:
    Vec<i64>)
    ensures
        ids@ == operation_ids(
            model::operation_rows(operations@),
            lists::positions(
                operations@.len(),
                |k: int|
                    {
                        let row = model::operation_rows(operations@)[k];
                        &&& row.state == OperationState::Trashed
                        &&& limit is Some ==> row.created_at < limit->0
                        &&& batch_id is Some ==> row.batch_id == batch_id
                    },
            ),
        ),
{
    let ghost views = model::operation_rows(operations@);
    let ghost keep = |k: int|
        {
            let row = views[k];
            &&& row.state == OperationState::Trashed
            &&& limit is Some ==> row.created_at < limit->0
            &&& batch_id is Some ==> row.batch_id == batch_id
        };
    let mut ids: Vec<i64> = Vec::new();
    proof {
        assert(ids@ =~= operation_ids(views, lists::positions(0, keep)));
    }
    for i in 0..operations.len()
        invariant
            views == model::operation_rows(operations@),
            keep == (|k: int|
                {
                    let row = views[k];
                    &&& row.state == OperationState::Trashed
                    &&& limit is Some ==> row.created_at < limit->0
                    &&& batch_id is Some ==> row.batch_id == batch_id
                }),
            ids@ == operation_ids(views, lists::positions(i as nat, keep)),
    {
        let ghost before = lists::positions(i as nat, keep);
        proof {
            assert(views[i as int] == operations@[i as int]@);
        }
        let early = match limit {
            Some(moment) => operations[i].created_at < moment,
            None => true,
        };
        let own = match (batch_id, operations[i].batch_id) {
            (Some(wanted), Some(given)) => wanted == given,
            (Some(_), None) => false,
            (None, _) => true,
        };
        if operations[i].state == OperationState::Trashed && early && own {
            ids.push(operations[i].id);
            proof {
                assert(keep(i as int));
                assert(ids@ =~= operation_ids(views, before.push(i as int)));
            }
        }
    }
    ids
}

/// The ids of all recycled files.
pub fn recycled_ids(index: &Index) -> (ids: Vec<i64>)
    ensures
        ids@ == operation_ids(index@.operations, recycled(index@.operations)),
{
    let ids = select_recycled(&index.operations, None, None);
    proof {
        let views = index@.operations;
        lists::lemma_positions_congruent(
            views.len(),
            |k: int|
                {
                    let row = views[k];
                    &&& row.state == OperationState::Trashed
                    &&& None::<i64> is Some ==> row.created_at < None::<i64>->0
                    &&& None::<i64> is Some ==> row.batch_id == None::<i64>
                },
            |k: int| views[k].state == OperationState::Trashed,
        );
    }
    ids
}

/// The ids of the recycled files of one user action.
pub fn recycled_ids_in_batch(index: &Index, batch_id: i64) -> (ids: Vec<i64>)
    ensures
        ids@ == operation_ids(index@.operations, recycled_in_batch(index@.operations, batch_id)),
{
    let ids = select_recycled(&index.operations, None, Some(batch_id));
    proof {
        let views = index@.operations;
        lists::lemma_positions_congruent(
            views.len(),
            |k: int|
                {
                    let row = views[k];
                    &&& row.state == OperationState::Trashed
                    &&& None::<i64> is Some ==> row.created_at < None::<i64>->0
                    &&& Some(batch_id) is Some ==> row.batch_id == Some(batch_id)
                },
            |k: int|
                views[k].state == OperationState::Trashed && views[k].batch_id == Some(batch_id),
        );
    }
    ids
}

fn into_range(n: i128) -> (m: i64)
    ensures
        m == saturated(n as int),
{
    if n < -0x8000_0000_0000_0000 {
        i64::MIN
    } else if n > 0x7fff_ffff_ffff_ffff {
        i64::MAX
    } else {
        n as i64
    }
}

/// The ids of the recycled files that have been kept too long.
pub fn expired_ids(index: &Index, now: i64) -> (ids: Vec<i64>)
    requires
        index.wf(),
    ensures
        ids@ == operation_ids(index@.operations, expired(index@, now)),
{
    let days = trash_retention_days(index);
    if days <= 0 {
        let none: Vec<i64> = Vec::new();
        proof {
            assert(none@ =~= operation_ids(index@.operations, Seq::empty()));
        }
        return none;
    }
    let span: i64 = into_range(days as i128 * 86_400);
    let limit: i64 = into_range(now as i128 - span as i128);
    let ids = select_recycled(&index.operations, Some(limit), None);
    proof {
        let views = index@.operations;
        lists::lemma_positions_congruent(
            views.len(),
            |k: int|
                {
                    let row = views[k];
                    &&& row.state == OperationState::Trashed
                    &&& Some(limit) is Some ==> row.created_at < Some(limit)->0
                    &&& None::<i64> is Some ==> row.batch_id == None::<i64>
                },
            |k: int|
                views[k].state == OperationState::Trashed && views[k].created_at < expiry_limit(
                    days,
                    now,
                ),
        );
    }
    ids
}

} // verus!
