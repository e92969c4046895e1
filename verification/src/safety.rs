//! What no sequence of operations can do: the promises of the removal chain,
//! proved of every state of the index and every answer of the disk.
use crate::actions::{ActionView, Seen};
use crate::batch::{BatchView, TaskView};
use crate::model::{FileView, IndexView, OperationState, OperationView};
use crate::paths::Platform;
use crate::{actions, batch, bin, model, removal, settings};
use vstd::prelude::*;

verus! {

/// The task removes an approved duplicate by its id.
pub open spec fn removes_duplicate(task: TaskView, id: i64) -> bool {
    task == TaskView::Trash(id) || task == TaskView::Delete(id)
}

/// The task takes a file away, or away from its own content.
pub open spec fn is_removal(task: TaskView) -> bool {
    task is Trash || task is Delete || task is Hardlink || task is RemovePath
}

/// A task that has not succeeded has not changed the index.
pub proof fn law_only_success_changes_the_index(
    index: IndexView,
    platform: Platform,
    task: TaskView,
    seen: Seen,
    now: i64,
    batch_id: Option<i64>,
)
    ensures
        batch::task_step(index, platform, task, seen, now, batch_id).1 != actions::done()
            ==> batch::task_step(index, platform, task, seen, now, batch_id).0 == index,
{
    reveal(batch::task_step);
}

/// A duplicate leaves its place only where a live, approved and unprotected
/// row with a live twin stands for it, its content was just found to be the
/// indexed one, and the strict check, where it is on, compared equal. Before
/// it becomes a link, the copy that stays, another live row of the content,
/// was found to have the indexed content, too.
pub proof fn law_removal_is_authorised(
    index: IndexView,
    platform: Platform,
    task: TaskView,
    id: i64,
    seen: Seen,
    now: i64,
    batch_id: Option<i64>,
)
    requires
        index.wf(),
        removes_duplicate(task, id) || task == TaskView::Hardlink(id),
        batch::task_step(index, platform, task, seen, now, batch_id).1 == actions::done(),
    ensures
        removal::removable(index.files, id) is Ok,
        ({
            let i = removal::removable(index.files, id)->Ok_0;
            &&& 0 <= i < index.files.len()
            &&& index.files[i].id == id
            &&& index.files[i].present
            &&& index.files[i].approved
            &&& !index.files[i].protected
            &&& model::has_twin(index.files, i)
            &&& seen.content_hash is Some
            &&& seen.content_hash->0 is Ok
            &&& seen.content_hash->0->Ok_0@ == index.files[i].hash
            &&& removes_duplicate(task, id) && settings::flag_of(index, "strict_verify"@, false)
                ==> seen.same_bytes == Some(Ok::<bool, String>(true))
            &&& task == TaskView::Hardlink(id) ==> {
                let j = removal::link_target(index.files, i);
                &&& j is Some
                &&& 0 <= j->0 < index.files.len()
                &&& removal::is_twin(index.files, i, j->0)
                &&& seen.kept_hash is Some
                &&& seen.kept_hash->0 is Ok
                &&& seen.kept_hash->0->Ok_0@ == index.files[i].hash
            }
        }),
{
    reveal(batch::task_step);
    let i = removal::removable(index.files, id)->Ok_0;
    model::lemma_duplicate_has_twin(index.files, i);
    lemma_twins_exist(index.files, i);
    lemma_target_is_a_twin(index.files, i, removal::twins(index.files, i).len());
}

proof fn lemma_target_is_a_twin(files: Seq<FileView>, i: int, n: nat)
    requires
        1 <= n <= removal::twins(files, i).len(),
    ensures
        0 <= removal::best_target(files, removal::twins(files, i), n) < files.len(),
        removal::is_twin(files, i, removal::best_target(files, removal::twins(files, i), n)),
    decreases n,
{
    let keep = |j: int| removal::is_twin(files, i, j);
    crate::lists::lemma_positions(files.len(), keep);
    let list = removal::twins(files, i);
    assert(0 <= list[n - 1] < files.len() && keep(list[n - 1]));
    if n > 1 {
        lemma_target_is_a_twin(files, i, (n - 1) as nat);
    }
}

proof fn lemma_twins_exist(files: Seq<FileView>, i: int)
    requires
        model::has_twin(files, i),
    ensures
        removal::strict_twin(files, i) is Some,
{
    let keep = |j: int| removal::is_twin(files, i, j);
    let j = choose|j: int|
        0 <= j < files.len() && j != i && model::is_copy(
            #[trigger] files[j],
            files[i].hash,
            files[i].size,
        );
    crate::lists::lemma_positions(files.len(), keep);
    assert(keep(j));
    assert(removal::twins(files, i).contains(j));
}

/// Recycling or deleting a duplicate takes exactly one copy of its content
/// and leaves at least one.
pub proof fn law_a_copy_survives(
    index: IndexView,
    platform: Platform,
    task: TaskView,
    id: i64,
    seen: Seen,
    now: i64,
    batch_id: Option<i64>,
)
    requires
        index.wf(),
        removes_duplicate(task, id),
        batch::task_step(index, platform, task, seen, now, batch_id).1 == actions::done(),
    ensures
        ({
            let file = index.files[removal::removable(index.files, id)->Ok_0];
            let after = batch::task_step(index, platform, task, seen, now, batch_id).0;
            &&& model::copies(after.files, file.hash, file.size) == model::copies(
                index.files,
                file.hash,
                file.size,
            ) - 1
            &&& model::copies(after.files, file.hash, file.size) >= 1
        }),
{
    reveal(batch::task_step);
    let i = removal::removable(index.files, id)->Ok_0;
    let file = index.files[i];
    model::lemma_copies_update(
        index.files,
        i,
        FileView { present: false, approved: false, ..file },
        file.hash,
        file.size,
    );
}

/// The task removes or links a duplicate by its id.
pub open spec fn is_review_task(task: TaskView) -> bool {
    task is Trash || task is Delete || task is Hardlink
}

proof fn lemma_task_leaves_a_copy(
    index: IndexView,
    platform: Platform,
    task: TaskView,
    seen: Seen,
    now: i64,
    batch_id: Option<i64>,
    hash: Seq<char>,
    size: i64,
)
    requires
        is_review_task(task),
        model::copies(index.files, hash, size) >= 1,
    ensures
        model::copies(
            batch::task_step(index, platform, task, seen, now, batch_id).0.files,
            hash,
            size,
        ) >= 1,
{
    reveal(batch::task_step);
    let (after, action) = batch::task_step(index, platform, task, seen, now, batch_id);
    law_only_success_changes_the_index(index, platform, task, seen, now, batch_id);
    if action == actions::done() {
        let id = match task {
            TaskView::Trash(id) => id,
            TaskView::Delete(id) => id,
            TaskView::Hardlink(id) => id,
            _ => 0,
        };
        let i = removal::removable(index.files, id)->Ok_0;
        assert(after.files == index.files.update(i, after.files[i]));
        model::lemma_copies_update(index.files, i, after.files[i], hash, size);
    }
}

proof fn lemma_step_leaves_a_copy(
    index: IndexView,
    platform: Platform,
    run: BatchView,
    now: i64,
    hash: Seq<char>,
    size: i64,
)
    requires
        0 <= run.at <= run.tasks.len(),
        forall|k: int| run.at <= k < run.tasks.len() ==> is_review_task(#[trigger] run.tasks[k]),
        model::copies(index.files, hash, size) >= 1,
    ensures
        model::copies(batch::advanced(index, platform, run, now).0.files, hash, size) >= 1,
    decreases run.tasks.len() - run.at,
{
    if run.at < run.tasks.len() {
        let seen = actions::timed(run.seen, now);
        let began = actions::begun(run.seen, now);
        let task = run.tasks[run.at];
        let (after, action) = batch::task_step(index, platform, task, seen, began, run.batch_id);
        lemma_task_leaves_a_copy(index, platform, task, seen, began, run.batch_id, hash, size);
        match action {
            ActionView::Finished { result } => {
                lemma_step_leaves_a_copy(
                    after,
                    platform,
                    batch::next_file(run, result),
                    now,
                    hash,
                    size,
                );
            },
            _ => {},
        }
    }
}

/// Linking a duplicate loses no path and no copy of any content.
pub proof fn law_links_lose_no_path(
    index: IndexView,
    platform: Platform,
    id: i64,
    seen: Seen,
    now: i64,
    batch_id: Option<i64>,
    k: int,
)
    requires
        0 <= k < index.files.len(),
    ensures
        ({
            let after = batch::task_step(
                index,
                platform,
                TaskView::Hardlink(id),
                seen,
                now,
                batch_id,
            ).0;
            &&& after.files.len() == index.files.len()
            &&& after.files[k].path == index.files[k].path
            &&& after.files[k].present == index.files[k].present
            &&& after.files[k].hash == index.files[k].hash
            &&& after.files[k].size == index.files[k].size
        }),
{
    reveal(batch::task_step);
}

/// No removal touches a protected file.
pub proof fn law_protected_files_stay(
    index: IndexView,
    platform: Platform,
    task: TaskView,
    seen: Seen,
    now: i64,
    batch_id: Option<i64>,
    k: int,
)
    requires
        index.wf(),
        is_removal(task),
        0 <= k < index.files.len(),
        index.files[k].protected,
    ensures
        batch::task_step(index, platform, task, seen, now, batch_id).0.files[k] == index.files[k],
{
    reveal(batch::task_step);
}

/// A removal that succeeds is recorded as one operation, under the id of the
/// batch, and changes one row at most; one that does not leaves no record.
pub proof fn law_removals_are_recorded(
    index: IndexView,
    platform: Platform,
    task: TaskView,
    seen: Seen,
    now: i64,
    batch_id: Option<i64>,
)
    requires
        index.wf(),
        is_removal(task),
    ensures
        ({
            let (after, action) = batch::task_step(index, platform, task, seen, now, batch_id);
            action == actions::done() ==> {
                &&& after.operations.len() == index.operations.len() + 1
                &&& after.operations.drop_last() == index.operations
                &&& after.operations.last().batch_id == batch_id
                &&& after.operations.last().created_at == now
                &&& model::has_id(index.files, after.operations.last().file_id)
                &&& forall|k: int|
                    0 <= k < index.files.len() && index.files[k].id
                        != after.operations.last().file_id ==> #[trigger] after.files[k]
                        == index.files[k]
            }
        }),
{
    reveal(batch::task_step);
    let (after, action) = batch::task_step(index, platform, task, seen, now, batch_id);
    if action == actions::done() {
        assert(after.operations.drop_last() =~= index.operations);
        let file_id = after.operations.last().file_id;
        let i = match task {
            TaskView::Trash(id) => removal::removable(index.files, id)->Ok_0,
            TaskView::Delete(id) => removal::removable(index.files, id)->Ok_0,
            TaskView::Hardlink(id) => removal::removable(index.files, id)->Ok_0,
            TaskView::RemovePath { path, .. } => removal::removable_path(index.files, path)->Ok_0,
            _ => 0,
        };
        assert(index.files[i].id == file_id);
        assert(0 <= i < index.files.len());
    }
}

/// A file that was recycled and then restored is back: all rows are as they
/// were, but for the approval, and the file is asked to move from its place
/// in the bin to where it came from.
pub proof fn law_restore_undoes_trash(
    index: IndexView,
    platform: Platform,
    id: i64,
    seen: Seen,
    now: i64,
    batch_id: Option<i64>,
    seen_later: Seen,
    later: i64,
)
    requires
        index.wf(),
        removal::trash_step(index, platform, id, seen, now, batch_id).1 == actions::done(),
    ensures
        ({
            let i = removal::removable(index.files, id)->Ok_0;
            let recycled = removal::trash_step(index, platform, id, seen, now, batch_id).0;
            let record = recycled.operations.last();
            let (after, action) = bin::restore_step(
                recycled,
                platform,
                record.id,
                None,
                seen_later,
                later,
            );
            &&& Ok::<Seq<char>, Seq<char>>(record.trash_path) == actions::bin_path(
                index,
                platform,
                now,
                id,
                index.files[i].path,
            )
            &&& action is Move ==> action == (ActionView::Move {
                from: record.trash_path,
                to: index.files[i].path,
                hash: index.files[i].hash,
            })
            &&& action == actions::done() ==> after.files == index.files.update(
                i,
                (FileView { approved: false, ..index.files[i] }),
            )
        }),
{
    let i = removal::removable(index.files, id)->Ok_0;
    let file = index.files[i];
    let recycled = removal::trash_step(index, platform, id, seen, now, batch_id).0;
    let record = recycled.operations.last();
    let gone = FileView { present: false, approved: false, ..file };
    let row = OperationView {
        id: 0,
        file_id: file.id,
        source_path: file.path,
        trash_path: record.trash_path,
        hash: file.hash,
        state: OperationState::Trashed,
        created_at: now,
        restored_at: None,
        batch_id,
    };
    assert(model::has_id(index.files, file.id));
    actions::lemma_wf_with_operation(index, row);
    let logged = index.with_operation(row)->Ok_0;
    assert(recycled == logged.with_file(i, gone));
    model::lemma_wf_with_file(logged, i, gone);
    model::lemma_at_operation(recycled.operations, recycled.operations.len() - 1);
    model::lemma_at_id(recycled.files, i);
    let (after, action) = bin::restore_step(
        recycled,
        platform,
        record.id,
        None,
        seen_later,
        later,
    );
    if action == actions::done() {
        assert(after.files =~= index.files.update(
            i,
            (FileView { approved: false, ..index.files[i] }),
        ));
    }
}

/// What is recorded of a recycled file is where it went: the place in the bin
/// that one step asks to make ready is the one that another asks to move the
/// file to, and the one that the record of the removal names.
pub proof fn law_recycled_file_is_where_it_was_put(
    index: IndexView,
    platform: Platform,
    id: i64,
    first: Seen,
    second: Seen,
    last: Seen,
    now: i64,
    batch_id: Option<i64>,
)
    requires
        index.wf(),
    ensures
        ({
            let ready = removal::trash_step(index, platform, id, first, now, batch_id).1;
            let moving = removal::trash_step(index, platform, id, second, now, batch_id).1;
            let (after, end) = removal::trash_step(index, platform, id, last, now, batch_id);
            &&& ready is MakeParents && moving is Move ==> ready->MakeParents_path
                == moving->Move_to
            &&& moving is Move && end == actions::done() ==> after.operations.last().trash_path
                == moving->Move_to
        }),
{
}

/// A batch works on a file under one time, that of the file's first step.
pub proof fn law_a_file_keeps_its_time(
    index: IndexView,
    platform: Platform,
    run: BatchView,
    now: i64,
)
    requires
        0 <= run.at <= run.tasks.len(),
    ensures
        ({
            let (_, after, step) = batch::advanced(index, platform, run, now);
            step is Act ==> after.seen.began == Some(
                if after.at == run.at {
                    actions::begun(run.seen, now)
                } else {
                    now
                },
            )
        }),
    decreases run.tasks.len() - run.at,
{
    if run.at < run.tasks.len() {
        let (after, action) = batch::task_step(
            index,
            platform,
            run.tasks[run.at],
            actions::timed(run.seen, now),
            actions::begun(run.seen, now),
            run.batch_id,
        );
        match action {
            ActionView::Finished { result } => {
                let next = batch::next_file(run, result);
                law_a_file_keeps_its_time(after, platform, next, now);
                lemma_batches_go_forward(after, platform, next, now);
            },
            _ => {},
        }
    }
}

proof fn lemma_batches_go_forward(
    index: IndexView,
    platform: Platform,
    run: BatchView,
    now: i64,
)
    ensures
        batch::advanced(index, platform, run, now).1.at >= run.at,
    decreases run.tasks.len() - run.at,
{
    if run.at < run.tasks.len() {
        let (after, action) = batch::task_step(
            index,
            platform,
            run.tasks[run.at],
            actions::timed(run.seen, now),
            actions::begun(run.seen, now),
            run.batch_id,
        );
        match action {
            ActionView::Finished { result } => {
                lemma_batches_go_forward(after, platform, batch::next_file(run, result), now);
            },
            _ => {},
        }
    }
}

/// Restoring overwrites nothing and brings back nothing but the content that
/// was recycled.
pub proof fn law_restore_is_checked(
    index: IndexView,
    platform: Platform,
    id: i64,
    target: Option<Seq<char>>,
    seen: Seen,
    now: i64,
)
    requires
        bin::restore_step(index, platform, id, target, seen, now).1 == actions::done(),
    ensures
        seen.occupied == Some(false),
        ({
            let k = model::at_operation(index.operations, id)->0;
            &&& index.operations[k].state == OperationState::Trashed
            &&& seen.content_hash is Some
            &&& seen.content_hash->0 is Ok
            &&& seen.content_hash->0->Ok_0@ == index.operations[k].hash
        }),
{
}

/// A file leaves the bin once: after it was restored, or deleted for good,
/// it can be neither restored nor deleted again.
pub proof fn law_bin_is_left_once(
    index: IndexView,
    platform: Platform,
    id: i64,
    target: Option<Seq<char>>,
    seen: Seen,
    now: i64,
    seen_later: Seen,
    later: i64,
)
    requires
        index.wf(),
    ensures
        ({
            let (after, action) = bin::restore_step(index, platform, id, target, seen, now);
            action == actions::done() ==> {
                &&& bin::restore_step(after, platform, id, target, seen_later, later).1
                    == actions::failed(bin::not_restorable())
                &&& bin::delete_trash_step(after, platform, id, seen_later).1 == actions::failed(
                    bin::not_deletable(),
                )
            }
        }),
        ({
            let (after, action) = bin::delete_trash_step(index, platform, id, seen);
            action == actions::done() ==> {
                &&& bin::restore_step(after, platform, id, target, seen_later, later).1
                    == actions::failed(bin::not_restorable())
                &&& bin::delete_trash_step(after, platform, id, seen_later).1 == actions::failed(
                    bin::not_deletable(),
                )
            }
        }),
{
    if model::has_operation(index.operations, id) {
        let k = model::at_operation(index.operations, id)->0;
        let (restored, first) = bin::restore_step(index, platform, id, target, seen, now);
        if first == actions::done() {
            lemma_same_ids(index.operations, restored.operations);
            model::lemma_at_operation(restored.operations, k);
        }
        let (erased, second) = bin::delete_trash_step(index, platform, id, seen);
        if second == actions::done() {
            lemma_same_ids(index.operations, erased.operations);
            model::lemma_at_operation(erased.operations, k);
        }
    }
}

proof fn lemma_same_ids(before: Seq<OperationView>, after: Seq<OperationView>)
    requires
        model::operation_ids_ascending(before),
        after.len() == before.len(),
        forall|k: int| 0 <= k < before.len() ==> (#[trigger] after[k]).id == before[k].id,
    ensures
        model::operation_ids_ascending(after),
{
    assert forall|a: int, b: int| 0 <= a < b < after.len() implies (#[trigger] after[a]).id < (
    #[trigger] after[b]).id by {
        assert(before[a].id < before[b].id);
    }
}

proof fn lemma_step_accounts(
    index: IndexView,
    platform: Platform,
    run: BatchView,
    now: i64,
)
    requires
        0 <= run.at <= run.tasks.len(),
        run.succeeded + run.failures.len() == run.at,
    ensures
        ({
            let (_, after, step) = batch::advanced(index, platform, run, now);
            &&& after.tasks == run.tasks
            &&& after.succeeded + after.failures.len() == after.at
            &&& run.at <= after.at <= run.tasks.len()
            &&& step is Done ==> after.succeeded + after.failures.len() == run.tasks.len()
        }),
    decreases run.tasks.len() - run.at,
{
    if run.at < run.tasks.len() {
        let (after, action) = batch::task_step(
            index,
            platform,
            run.tasks[run.at],
            actions::timed(run.seen, now),
            actions::begun(run.seen, now),
            run.batch_id,
        );
        match action {
            ActionView::Finished { result } => {
                lemma_step_accounts(
                    after,
                    platform,
                    batch::next_file(run, result),
                    now,
                );
            },
            _ => {},
        }
    }
}

// ---------------------------------------------------------------------------
// Whole batches
// ---------------------------------------------------------------------------

/// A batch driven by what the disk answers: each step sees the next answers,
/// at the time that comes with them.
pub open spec fn driven(
    index: IndexView,
    platform: Platform,
    run: BatchView,
    answers: Seq<(Seen, i64)>,
) -> (IndexView, BatchView)
    decreases answers.len(),
{
    if answers.len() == 0 {
        (index, run)
    } else {
        let (before, stopped) = driven(index, platform, run, answers.drop_last());
        let (seen, now) = answers.last();
        let (after, next, _) = batch::advanced(
            before,
            platform,
            BatchView { seen, ..stopped },
            now,
        );
        (after, next)
    }
}

/// However many duplicates a batch recycles, deletes or links, and whatever
/// the disk answers: of every content that had a live copy one is left.
pub proof fn law_batches_leave_a_copy(
    index: IndexView,
    platform: Platform,
    run: BatchView,
    answers: Seq<(Seen, i64)>,
    hash: Seq<char>,
    size: i64,
)
    requires
        0 <= run.at <= run.tasks.len(),
        run.succeeded + run.failures.len() == run.at,
        forall|k: int| 0 <= k < run.tasks.len() ==> is_review_task(#[trigger] run.tasks[k]),
        model::copies(index.files, hash, size) >= 1,
    ensures
        model::copies(driven(index, platform, run, answers).0.files, hash, size) >= 1,
    decreases answers.len(),
{
    if answers.len() > 0 {
        let front = answers.drop_last();
        law_batches_leave_a_copy(index, platform, run, front, hash, size);
        law_batches_account_for_every_file(index, platform, run, front);
        let (before, stopped) = driven(index, platform, run, front);
        let (seen, now) = answers.last();
        lemma_step_leaves_a_copy(
            before,
            platform,
            BatchView { seen, ..stopped },
            now,
            hash,
            size,
        );
    }
}

/// At every point of a batch, and whatever the disk answers, the files settled
/// so far are those that succeeded and those noted as failures.
pub proof fn law_batches_account_for_every_file(
    index: IndexView,
    platform: Platform,
    run: BatchView,
    answers: Seq<(Seen, i64)>,
)
    requires
        0 <= run.at <= run.tasks.len(),
        run.succeeded + run.failures.len() == run.at,
    ensures
        ({
            let (_, end) = driven(index, platform, run, answers);
            &&& end.tasks == run.tasks
            &&& end.succeeded + end.failures.len() == end.at
            &&& run.at <= end.at <= run.tasks.len()
        }),
    decreases answers.len(),
{
    if answers.len() > 0 {
        let front = answers.drop_last();
        law_batches_account_for_every_file(index, platform, run, front);
        let (before, stopped) = driven(index, platform, run, front);
        let (seen, now) = answers.last();
        lemma_step_accounts(before, platform, BatchView { seen, ..stopped }, now);
    }
}

/// Over a whole batch of removals, whatever the disk answers, the protected
/// files stay as they are.
pub proof fn law_batches_spare_protected_files(
    index: IndexView,
    platform: Platform,
    run: BatchView,
    answers: Seq<(Seen, i64)>,
)
    requires
        index.wf(),
        0 <= run.at <= run.tasks.len(),
        run.succeeded + run.failures.len() == run.at,
        forall|k: int| 0 <= k < run.tasks.len() ==> is_removal(#[trigger] run.tasks[k]),
    ensures
        ({
            let after = driven(index, platform, run, answers).0;
            &&& after.files.len() == index.files.len()
            &&& forall|p: int|
                0 <= p < index.files.len() && index.files[p].protected ==> #[trigger] after.files[p]
                    == index.files[p]
        }),
    decreases answers.len(),
{
    if answers.len() > 0 {
        let front = answers.drop_last();
        law_batches_spare_protected_files(index, platform, run, front);
        law_batches_account_for_every_file(index, platform, run, front);
        let (before, stopped) = driven(index, platform, run, front);
        let (seen, now) = answers.last();
        lemma_step_spares(before, platform, BatchView { seen, ..stopped }, now);
    }
}

proof fn lemma_step_spares(index: IndexView, platform: Platform, run: BatchView, now: i64)
    requires
        0 <= run.at <= run.tasks.len(),
        forall|k: int| 0 <= k < run.tasks.len() ==> is_removal(#[trigger] run.tasks[k]),
    ensures
        ({
            let after = batch::advanced(index, platform, run, now).0;
            &&& after.files.len() == index.files.len()
            &&& forall|p: int|
                0 <= p < index.files.len() && index.files[p].protected ==> #[trigger] after.files[p]
                    == index.files[p]
        }),
    decreases run.tasks.len() - run.at,
{
    if run.at < run.tasks.len() {
        reveal(batch::task_step);
        let seen = actions::timed(run.seen, now);
        let began = actions::begun(run.seen, now);
        let task = run.tasks[run.at];
        assert(is_removal(task));
        let (after, action) = batch::task_step(index, platform, task, seen, began, run.batch_id);
        match action {
            ActionView::Finished { result } => {
                lemma_step_spares(after, platform, batch::next_file(run, result), now);
            },
            _ => {},
        }
    }
}

/// The operation once its file is gone for good.
pub open spec fn gone(operation: OperationView) -> OperationView {
    OperationView { state: OperationState::Deleted, ..operation }
}

/// The state in which a batch on the bin leaves what it has dealt with.
pub open spec fn final_state(kind: batch::BinKind) -> OperationState {
    match kind {
        batch::BinKind::Restore => OperationState::Restored,
        _ => OperationState::Deleted,
    }
}

/// What becomes of an operation that such a batch has dealt with.
pub open spec fn dealt_with(
    kind: batch::BinKind,
    before: OperationView,
    after: OperationView,
) -> bool {
    match kind {
        batch::BinKind::Restore => after.restored_at is Some && after == (OperationView {
            state: OperationState::Restored,
            restored_at: after.restored_at,
            ..before
        }),
        _ => after == gone(before),
    }
}

/// How many of the first `n` of some operations are in a state.
pub open spec fn in_state(
    state: OperationState,
    operations: Seq<OperationView>,
    rows: Seq<int>,
    n: int,
) -> int
    decreases n,
{
    if n <= 0 {
        0
    } else {
        in_state(state, operations, rows, n - 1) + (if operations[rows[n - 1]].state == state {
            1int
        } else {
            0
        })
    }
}

/// The rows are those of different recycled files.
pub open spec fn picks_recycled(operations: Seq<OperationView>, rows: Seq<int>) -> bool {
    &&& forall|j: int|
        0 <= j < rows.len() ==> 0 <= #[trigger] rows[j] < operations.len()
            && operations[rows[j]].state == OperationState::Trashed
    &&& forall|i: int, j: int| 0 <= i < j < rows.len() ==> #[trigger] rows[i] != #[trigger] rows[j]
}

/// The file belongs to one of the first `n` of some operations.
pub open spec fn belongs_to(
    operations: Seq<OperationView>,
    rows: Seq<int>,
    n: int,
    file: FileView,
) -> bool {
    exists|j: int|
        0 <= j < n && j < rows.len() && operations[#[trigger] rows[j]].file_id == file.id
}

/// The row of a file that came back.
pub open spec fn live_again(file: FileView) -> FileView {
    FileView { present: true, approved: false, ..file }
}

/// The files after some of them came back: those are live, without approval,
/// and all others are as before.
pub open spec fn files_returned(
    before: IndexView,
    rows: Seq<int>,
    n: int,
    files: Seq<FileView>,
) -> bool {
    &&& files.len() == before.files.len()
    &&& forall|p: int|
        0 <= p < files.len() ==> #[trigger] files[p] == before.files[p] || (files[p] == live_again(
            before.files[p],
        ) && belongs_to(before.operations, rows, n, before.files[p]))
}

/// Deletes these recycled files.
pub open spec fn is_clearing(kind: batch::BinKind) -> bool {
    kind == batch::BinKind::Expire || kind == batch::BinKind::Discard
}

/// No deletion was answered with an error.
pub open spec fn deletes_cleanly(seen: Seen) -> bool {
    seen.deleted is Some ==> seen.deleted->0 is Ok
}

/// How far a batch on the bin has come: of the files it has settled some are
/// dealt with, which it counts, and nothing else has changed.
pub open spec fn bin_so_far(
    kind: batch::BinKind,
    before: IndexView,
    rows: Seq<int>,
    after: IndexView,
    run: BatchView,
) -> bool {
    &&& after == (IndexView { files: after.files, operations: after.operations, ..before })
    &&& is_clearing(kind) ==> after.files == before.files
    &&& files_returned(before, rows, run.at, after.files)
    &&& after.operations.len() == before.operations.len()
    &&& run.tasks == batch::bin_tasks(kind, bin::operation_ids(before.operations, rows))
    &&& 0 <= run.at <= rows.len()
    &&& forall|p: int|
        0 <= p < before.operations.len() ==> #[trigger] after.operations[p]
            == before.operations[p] || (dealt_with(
            kind,
            before.operations[p],
            after.operations[p],
        ) && rows.take(run.at).contains(p))
    &&& run.succeeded == in_state(final_state(kind), after.operations, rows, run.at)
    &&& run.succeeded + run.failures.len() == run.at
}

proof fn lemma_in_state_kept(
    state: OperationState,
    operations: Seq<OperationView>,
    rows: Seq<int>,
    n: int,
    k: int,
    row: OperationView,
)
    requires
        0 <= n <= rows.len(),
        forall|j: int| 0 <= j < n ==> #[trigger] rows[j] != k && 0 <= rows[j] < operations.len(),
        0 <= k < operations.len(),
    ensures
        in_state(state, operations.update(k, row), rows, n) == in_state(
            state,
            operations,
            rows,
            n,
        ),
    decreases n,
{
    if n > 0 {
        lemma_in_state_kept(state, operations, rows, n - 1, k, row);
        assert(rows[n - 1] != k);
    }
}

proof fn lemma_bin_goes_on(
    kind: batch::BinKind,
    before: IndexView,
    rows: Seq<int>,
    after: IndexView,
    platform: Platform,
    run: BatchView,
    now: i64,
)
    requires
        before.wf(),
        picks_recycled(before.operations, rows),
        bin_so_far(kind, before, rows, after, run),
    ensures
        ({
            let (index, next, _) = batch::advanced(after, platform, run, now);
            &&& bin_so_far(kind, before, rows, index, next)
            &&& is_clearing(kind) && deletes_cleanly(run.seen) && before.setting("trash_path"@)
                is Some && run.failures.len() == 0 ==> next.failures.len() == 0
        }),
    decreases run.tasks.len() - run.at,
{
    assert(run.tasks.len() == rows.len());
    if run.at < run.tasks.len() {
        reveal(batch::task_step);
        let at = run.at;
        let k = rows[at];
        let id = before.operations[k].id;
        let task = run.tasks[at];
        assert(task == batch::bin_task(kind, id));
        let seen = actions::timed(run.seen, now);
        let began = actions::begun(run.seen, now);
        let (index, action) = batch::task_step(after, platform, task, seen, began, run.batch_id);
        // The operation is still the one that was picked.
        assert forall|p: int| 0 <= p < before.operations.len() implies (
        #[trigger] after.operations[p]).id == before.operations[p].id by {
        }
        lemma_same_ids(before.operations, after.operations);
        model::lemma_at_operation(after.operations, k);
        assert(!rows.take(at).contains(k)) by {
            if rows.take(at).contains(k) {
                let j = choose|j: int| 0 <= j < at && rows.take(at)[j] == k;
                assert(rows[j] != rows[at]);
            }
        }
        assert(after.operations[k] == before.operations[k]);
        assert(rows.take(at + 1) =~= rows.take(at).push(k));
        assert forall|p: int| 0 <= p < after.files.len() && belongs_to(
            before.operations,
            rows,
            at,
            #[trigger] before.files[p],
        ) implies belongs_to(before.operations, rows, at + 1, before.files[p]) by {
            let j = choose|j: int|
                0 <= j < at && j < rows.len() && before.operations[#[trigger] rows[j]].file_id
                    == before.files[p].id;
            assert(before.operations[rows[j]].file_id == before.files[p].id);
        }
        match action {
            ActionView::Finished { result } => {
                let next = batch::next_file(run, result);
                if result is Ok {
                    let row = index.operations[k];
                    assert(index.operations == after.operations.update(k, row));
                    assert(dealt_with(kind, after.operations[k], row));
                    assert forall|j: int| 0 <= j < at implies #[trigger] rows[j] != k && 0
                        <= rows[j] < after.operations.len() by {
                        assert(rows[j] != rows[at]);
                    }
                    lemma_in_state_kept(
                        final_state(kind),
                        after.operations,
                        rows,
                        at,
                        k,
                        row,
                    );
                    lemma_returned_step(before, rows, after.files, index.files, at);
                } else {
                    assert(index == after);
                }
                assert forall|p: int| 0 <= p < before.operations.len() implies (
                #[trigger] index.operations[p]) == before.operations[p] || (dealt_with(
                    kind,
                    before.operations[p],
                    index.operations[p],
                ) && rows.take(at + 1).contains(p)) by {
                    if p == k {
                        assert(rows.take(at + 1)[at] == k);
                    } else if after.operations[p] != before.operations[p] {
                        let j = choose|j: int| 0 <= j < at && rows.take(at)[j] == p;
                        assert(rows.take(at + 1)[j] == p);
                    }
                }
                assert(bin_so_far(kind, before, rows, index, next));
                if !run.progress {
                    lemma_bin_goes_on(kind, before, rows, index, platform, next, now);
                }
            },
            _ => {
                assert(index == after);
            },
        }
    }
}

/// One more file came back, or none.
proof fn lemma_returned_step(
    before: IndexView,
    rows: Seq<int>,
    files: Seq<FileView>,
    next: Seq<FileView>,
    at: int,
)
    requires
        0 <= at < rows.len(),
        files_returned(before, rows, at, files),
        next == files || exists|i: int|
            0 <= i < files.len() && (#[trigger] files[i]).id == before.operations[rows[at]].file_id
                && next == files.update(i, live_again(files[i])),
    ensures
        files_returned(before, rows, at + 1, next),
{
    assert forall|p: int| 0 <= p < next.len() implies (#[trigger] next[p]) == before.files[p] || (
    next[p] == live_again(before.files[p]) && belongs_to(
        before.operations,
        rows,
        at + 1,
        before.files[p],
    )) by {
        assert(files[p] == before.files[p] || belongs_to(
            before.operations,
            rows,
            at,
            before.files[p],
        ));
        if belongs_to(before.operations, rows, at, before.files[p]) {
            let j = choose|j: int|
                0 <= j < at && j < rows.len() && before.operations[#[trigger] rows[j]].file_id
                    == before.files[p].id;
            assert(before.operations[rows[j]].file_id == before.files[p].id);
        }
        if next[p] != files[p] {
            assert(before.operations[rows[at]].file_id == before.files[p].id);
        }
    }
}

proof fn lemma_driven_bin(
    kind: batch::BinKind,
    before: IndexView,
    rows: Seq<int>,
    platform: Platform,
    run: BatchView,
    answers: Seq<(Seen, i64)>,
)
    requires
        before.wf(),
        picks_recycled(before.operations, rows),
        bin_so_far(kind, before, rows, before, run),
    ensures
        ({
            let (after, end) = driven(before, platform, run, answers);
            &&& bin_so_far(kind, before, rows, after, end)
            &&& is_clearing(kind) && (forall|k: int|
                0 <= k < answers.len() ==> deletes_cleanly((#[trigger] answers[k]).0))
                && before.setting("trash_path"@) is Some && run.failures.len() == 0
                ==> end.failures.len() == 0
        }),
    decreases answers.len(),
{
    if answers.len() > 0 {
        lemma_driven_bin(kind, before, rows, platform, run, answers.drop_last());
        let (index, stopped) = driven(before, platform, run, answers.drop_last());
        let (seen, now) = answers.last();
        assert(answers.last() == answers[answers.len() - 1]);
        assert forall|k: int| 0 <= k < answers.len() - 1 implies (
        #[trigger] answers.drop_last()[k]) == answers[k] by {
        }
        lemma_bin_goes_on(
            kind,
            before,
            rows,
            index,
            platform,
            BatchView { seen, ..stopped },
            now,
        );
    }
}

proof fn lemma_all_in_state(
    state: OperationState,
    operations: Seq<OperationView>,
    rows: Seq<int>,
    n: int,
)
    requires
        0 <= n <= rows.len(),
    ensures
        0 <= in_state(state, operations, rows, n) <= n,
        in_state(state, operations, rows, n) == n ==> forall|j: int|
            0 <= j < n ==> operations[#[trigger] rows[j]].state == state,
    decreases n,
{
    if n > 0 {
        lemma_all_in_state(state, operations, rows, n - 1);
    }
}

/// What a whole batch on the bin has done to the operations.
proof fn lemma_bin_outcome(
    kind: batch::BinKind,
    before: IndexView,
    rows: Seq<int>,
    after: IndexView,
    end: BatchView,
)
    requires
        picks_recycled(before.operations, rows),
        bin_so_far(kind, before, rows, after, end),
    ensures
        forall|p: int|
            0 <= p < before.operations.len() ==> #[trigger] after.operations[p]
                == before.operations[p] || (rows.contains(p) && dealt_with(
                kind,
                before.operations[p],
                after.operations[p],
            )),
        end.at == rows.len() && end.failures.len() == 0 ==> forall|p: int|
            0 <= p < before.operations.len() && rows.contains(p) ==> dealt_with(
                kind,
                before.operations[p],
                #[trigger] after.operations[p],
            ),
{
    assert forall|p: int| 0 <= p < before.operations.len() implies (
    #[trigger] after.operations[p]) == before.operations[p] || (rows.contains(p) && dealt_with(
        kind,
        before.operations[p],
        after.operations[p],
    )) by {
        if after.operations[p] != before.operations[p] {
            let j = choose|j: int| 0 <= j < end.at && rows.take(end.at)[j] == p;
            assert(rows[j] == p);
        }
    }
    lemma_all_in_state(final_state(kind), after.operations, rows, end.at);
    if end.at == rows.len() && end.failures.len() == 0 {
        assert forall|p: int| 0 <= p < before.operations.len() && rows.contains(p) implies dealt_with(
            kind,
            before.operations[p],
            #[trigger] after.operations[p],
        ) by {
            let j = choose|j: int| 0 <= j < rows.len() && rows[j] == p;
            assert(after.operations[rows[j]].state == final_state(kind));
            assert(before.operations[rows[j]].state == OperationState::Trashed);
        }
    }
}

/// The effect of a whole batch that clears the bin of some files, whatever
/// the disk answers: no file row, no setting and no other operation changes,
/// and the batch counts the operations that it turned to deleted. Where it
/// comes to its end without a failure, exactly the picked operations are
/// deleted, and it counts them all; and nothing fails where the project has a
/// bin and the disk answers no deletion with an error.
pub proof fn law_clearing_deletes_what_was_picked(
    kind: batch::BinKind,
    index: IndexView,
    platform: Platform,
    rows: Seq<int>,
    progress: bool,
    answers: Seq<(Seen, i64)>,
)
    requires
        is_clearing(kind),
        index.wf(),
        picks_recycled(index.operations, rows),
    ensures
        ({
            let start = batch::fresh(
                batch::bin_tasks(kind, bin::operation_ids(index.operations, rows)),
                None,
                progress,
            );
            let (after, end) = driven(index, platform, start, answers);
            &&& after == (IndexView { operations: after.operations, ..index })
            &&& after.operations.len() == index.operations.len()
            &&& forall|p: int|
                0 <= p < index.operations.len() ==> #[trigger] after.operations[p]
                    == index.operations[p] || (rows.contains(p) && after.operations[p] == gone(
                    index.operations[p],
                ))
            &&& end.succeeded == in_state(
                OperationState::Deleted,
                after.operations,
                rows,
                end.at,
            )
            &&& index.setting("trash_path"@) is Some && (forall|k: int|
                0 <= k < answers.len() ==> deletes_cleanly((#[trigger] answers[k]).0))
                ==> end.failures.len() == 0
            &&& end.at == rows.len() && end.failures.len() == 0 ==> end.succeeded == rows.len()
                && forall|p: int|
                0 <= p < index.operations.len() ==> #[trigger] after.operations[p] == (
                if rows.contains(p) {
                    gone(index.operations[p])
                } else {
                    index.operations[p]
                })
        }),
{
    let start = batch::fresh(
        batch::bin_tasks(kind, bin::operation_ids(index.operations, rows)),
        None,
        progress,
    );
    let (after, end) = driven(index, platform, start, answers);
    lemma_driven_bin(kind, index, rows, platform, start, answers);
    lemma_bin_outcome(kind, index, rows, after, end);
}

/// The effect of a whole batch that restores some files, whatever the disk
/// answers: it counts the operations that it turned to restored, no other
/// operation changes, and no file row changes but those of the restored
/// files, which are live again without approval. Where the batch comes to its
/// end without a failure, exactly the picked operations are restored, and it
/// counts them all.
pub proof fn law_restoring_brings_back_what_was_picked(
    index: IndexView,
    platform: Platform,
    rows: Seq<int>,
    progress: bool,
    answers: Seq<(Seen, i64)>,
)
    requires
        index.wf(),
        picks_recycled(index.operations, rows),
    ensures
        ({
            let kind = batch::BinKind::Restore;
            let start = batch::fresh(
                batch::bin_tasks(kind, bin::operation_ids(index.operations, rows)),
                None,
                progress,
            );
            let (after, end) = driven(index, platform, start, answers);
            &&& after == (IndexView { files: after.files, operations: after.operations, ..index })
            &&& files_returned(index, rows, end.at, after.files)
            &&& after.operations.len() == index.operations.len()
            &&& forall|p: int|
                0 <= p < index.operations.len() ==> #[trigger] after.operations[p]
                    == index.operations[p] || (rows.contains(p) && dealt_with(
                    kind,
                    index.operations[p],
                    after.operations[p],
                ))
            &&& end.succeeded == in_state(
                OperationState::Restored,
                after.operations,
                rows,
                end.at,
            )
            &&& end.at == rows.len() && end.failures.len() == 0 ==> end.succeeded == rows.len()
                && forall|p: int|
                0 <= p < index.operations.len() && rows.contains(p) ==> dealt_with(
                    kind,
                    index.operations[p],
                    #[trigger] after.operations[p],
                )
        }),
{
    let kind = batch::BinKind::Restore;
    let start = batch::fresh(
        batch::bin_tasks(kind, bin::operation_ids(index.operations, rows)),
        None,
        progress,
    );
    let (after, end) = driven(index, platform, start, answers);
    lemma_driven_bin(kind, index, rows, platform, start, answers);
    lemma_bin_outcome(kind, index, rows, after, end);
}

/// The operation has been in the bin longer than the retention allows.
pub open spec fn is_overdue(index: IndexView, now: i64, p: int) -> bool {
    let days = settings::retention_of(index);
    &&& days > 0
    &&& index.operations[p].state == OperationState::Trashed
    &&& index.operations[p].created_at < bin::expiry_limit(days, now)
}

/// Pruning to its end without a failure turns exactly the overdue operations
/// to deleted and counts them; a retention of zero keeps everything. Nothing
/// fails where the project has a bin and the disk answers no deletion with an
/// error.
pub proof fn law_pruning_deletes_what_is_overdue(
    index: IndexView,
    platform: Platform,
    now: i64,
    progress: bool,
    answers: Seq<(Seen, i64)>,
)
    requires
        index.wf(),
    ensures
        ({
            let rows = bin::expired(index, now);
            let start = batch::fresh(
                batch::bin_tasks(
                    batch::BinKind::Expire,
                    bin::operation_ids(index.operations, rows),
                ),
                None,
                progress,
            );
            let (after, end) = driven(index, platform, start, answers);
            &&& after == (IndexView { operations: after.operations, ..index })
            &&& after.operations.len() == index.operations.len()
            &&& forall|p: int|
                0 <= p < index.operations.len() && !is_overdue(index, now, p)
                    ==> #[trigger] after.operations[p] == index.operations[p]
            &&& index.setting("trash_path"@) is Some && (forall|k: int|
                0 <= k < answers.len() ==> deletes_cleanly((#[trigger] answers[k]).0))
                ==> end.failures.len() == 0
            &&& end.at == rows.len() && end.failures.len() == 0 ==> end.succeeded == rows.len()
                && forall|p: int|
                0 <= p < index.operations.len() && is_overdue(index, now, p)
                    ==> #[trigger] after.operations[p] == gone(index.operations[p])
            &&& settings::retention_of(index) <= 0 ==> after.operations == index.operations
                && end.succeeded == 0
        }),
{
    let rows = bin::expired(index, now);
    let keep = |k: int|
        index.operations[k].state == OperationState::Trashed && index.operations[k].created_at
            < bin::expiry_limit(settings::retention_of(index), now);
    crate::lists::lemma_positions(index.operations.len(), keep);
    if settings::retention_of(index) > 0 {
        assert(rows == crate::lists::positions(index.operations.len(), keep));
        assert forall|j: int| 0 <= j < rows.len() implies 0 <= #[trigger] rows[j]
            < index.operations.len() && index.operations[rows[j]].state
            == OperationState::Trashed by {
            assert(keep(rows[j]));
        }
    }
    law_clearing_deletes_what_was_picked(
        batch::BinKind::Expire,
        index,
        platform,
        rows,
        progress,
        answers,
    );
    let start = batch::fresh(
        batch::bin_tasks(batch::BinKind::Expire, bin::operation_ids(index.operations, rows)),
        None,
        progress,
    );
    let (after, end) = driven(index, platform, start, answers);
    assert forall|p: int| 0 <= p < index.operations.len() && !is_overdue(index, now, p) implies (
    #[trigger] after.operations[p]) == index.operations[p] by {
        if rows.contains(p) {
            assert(keep(p));
        }
    }
    if settings::retention_of(index) <= 0 {
        assert(after.operations =~= index.operations);
        lemma_driven_bin(
            batch::BinKind::Expire,
            index,
            rows,
            platform,
            start,
            answers,
        );
    } else if end.at == rows.len() && end.failures.len() == 0 {
        assert forall|p: int| 0 <= p < index.operations.len() && is_overdue(
            index,
            now,
            p,
        ) implies #[trigger] after.operations[p] == gone(index.operations[p]) by {
            assert(keep(p));
            assert(rows.contains(p));
        }
    }
}

/// An operation turns to deleted only once its file is gone: nothing was at
/// its place in the bin, or what was there has been deleted.
pub proof fn law_deleted_files_are_gone(
    index: IndexView,
    platform: Platform,
    id: i64,
    seen: Seen,
)
    requires
        bin::delete_trash_step(index, platform, id, seen).1 == actions::done(),
    ensures
        seen.occupied is Some,
        seen.occupied->0 ==> seen.deleted is Some && seen.deleted->0 is Ok,
{
}

} // verus!
