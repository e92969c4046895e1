//! Several operations in one user action. A batch works through its files one
//! by one; a file that fails is noted and the rest go on.
use crate::actions::{hold_time, Action, ActionView, Seen};
use crate::bin::{
    delete_trash_with, expired_ids, recycled_ids, recycled_ids_in_batch, restore_with,
};
use crate::model::{Index, IndexView};
use crate::paths::Platform;
use crate::removal::{delete_one, hardlink_one, remove_indexed_path, trash_one};
use crate::review::BatchOutcome;
use crate::settings::ensure_initialized;
use crate::text::{joined, signed_text};
use crate::{actions, bin, outside, removal, settings, text};
use vstd::prelude::*;

verus! {

/// One file of a batch.
pub enum Task {
    Trash(i64),
    Delete(i64),
    Hardlink(i64),
    RemovePath { path: String, to_trash: bool },
    Restore(i64),
    /// Delete a recycled file for good.
    Discard(i64),
    /// Delete a recycled file for good because it was kept too long.
    Expire(i64),
}

pub enum TaskView {
    Trash(i64),
    Delete(i64),
    Hardlink(i64),
    RemovePath { path: Seq<char>, to_trash: bool },
    Restore(i64),
    Discard(i64),
    Expire(i64),
}

impl View for Task {
    type V = TaskView;

    open spec fn view(&self) -> TaskView {
        match *self {
            Task::Trash(id) => TaskView::Trash(id),
            Task::Delete(id) => TaskView::Delete(id),
            Task::Hardlink(id) => TaskView::Hardlink(id),
            Task::RemovePath { path, to_trash } => TaskView::RemovePath { path: path@, to_trash },
            Task::Restore(id) => TaskView::Restore(id),
            Task::Discard(id) => TaskView::Discard(id),
            Task::Expire(id) => TaskView::Expire(id),
        }
    }
}

/// How a task goes on, given what the disk has answered so far.
#[verifier::opaque]
pub open spec fn task_step(
    index: IndexView,
    platform: Platform,
    task: TaskView,
    seen: Seen,
    now: i64,
    batch_id: Option<i64>,
) -> (IndexView, ActionView) {
    match task {
        TaskView::Trash(id) => removal::trash_step(index, platform, id, seen, now, batch_id),
        TaskView::Delete(id) => removal::delete_step(index, id, seen, now, batch_id),
        TaskView::Hardlink(id) => removal::hardlink_step(index, platform, id, seen, now, batch_id),
        TaskView::RemovePath { path, to_trash } => removal::remove_path_step(
            index,
            platform,
            path,
            to_trash,
            seen,
            now,
            batch_id,
        ),
        TaskView::Restore(id) => bin::restore_step(index, platform, id, None, seen, now),
        TaskView::Discard(id) => bin::delete_trash_step(index, platform, id, seen),
        TaskView::Expire(id) => bin::delete_trash_step(index, platform, id, seen),
    }
}

/// How the failure of a task is told.
pub open spec fn failure_text(task: TaskView, error: Seq<char>) -> Seq<char> {
    match task {
        TaskView::Trash(id) => "文件 #"@ + text::decimal(id as int) + "："@ + error,
        TaskView::Delete(id) => "文件 #"@ + text::decimal(id as int) + "："@ + error,
        TaskView::Hardlink(id) => "文件 #"@ + text::decimal(id as int) + "："@ + error,
        TaskView::RemovePath { path, .. } => path + "："@ + error,
        TaskView::Restore(id) => "记录 #"@ + text::decimal(id as int) + "："@ + error,
        TaskView::Discard(id) => "could not delete operation "@ + text::decimal(id as int) + ": "@
            + error,
        TaskView::Expire(id) => "could not prune operation "@ + text::decimal(id as int) + ": "@
            + error,
    }
}

fn numbered(head: &str, id: i64, middle: &str, error: &str) -> (message: String)
    ensures
        message@ == head@ + text::decimal(id as int) + middle@ + error@,
{
    let shown = signed_text(id);
    let first = joined(head, shown.as_str());
    let second = joined(first.as_str(), middle);
    joined(second.as_str(), error)
}

fn tell_failure(task: &Task, error: &str) -> (message: String)
    ensures
        message@ == failure_text(task@, error@),
{
    match task {
        Task::Trash(id) => numbered("文件 #", *id, "：", error),
        Task::Delete(id) => numbered("文件 #", *id, "：", error),
        Task::Hardlink(id) => numbered("文件 #", *id, "：", error),
        Task::RemovePath { path, .. } => {
            let head = joined(path.as_str(), "：");
            joined(head.as_str(), error)
        },
        Task::Restore(id) => numbered("记录 #", *id, "：", error),
        Task::Discard(id) => numbered("could not delete operation ", *id, ": ", error),
        Task::Expire(id) => numbered("could not prune operation ", *id, ": ", error),
    }
}

pub fn perform(
    index: &mut Index,
    platform: Platform,
    task: &Task,
    seen: &Seen,
    now: i64,
    batch_id: Option<i64>,
) -> (action: Action)
    requires
        old(index).wf(),
    ensures
        final(index).wf(),
        (final(index)@, action@) == task_step(old(index)@, platform, task@, *seen, now, batch_id),
{
    proof {
        reveal(task_step);
    }
    match task {
        Task::Trash(id) => trash_one(index, platform, *id, seen, now, batch_id),
        Task::Delete(id) => delete_one(index, *id, seen, now, batch_id),
        Task::Hardlink(id) => hardlink_one(index, platform, *id, seen, now, batch_id),
        Task::RemovePath { path, to_trash } => remove_indexed_path(
            index,
            platform,
            path.as_str(),
            *to_trash,
            seen,
            now,
            batch_id,
        ),
        Task::Restore(id) => restore_with(index, platform, *id, None, seen, now),
        Task::Discard(id) => delete_trash_with(index, platform, *id, seen),
        Task::Expire(id) => delete_trash_with(index, platform, *id, seen),
    }
}

// ---------------------------------------------------------------------------
// Batches
// ---------------------------------------------------------------------------

/// A batch in progress.
pub struct Batch {
    pub tasks: Vec<Task>,
    /// The file that is being worked on.
    pub at: usize,
    /// What the disk has answered for this file.
    pub seen: Seen,
    pub batch_id: Option<i64>,
    /// Stop after each file to report progress.
    pub progress: bool,
    pub outcome: BatchOutcome,
}

pub struct BatchView {
    pub tasks: Seq<TaskView>,
    pub at: int,
    pub seen: Seen,
    pub batch_id: Option<i64>,
    pub progress: bool,
    pub succeeded: int,
    pub failures: Seq<Seq<char>>,
}

pub open spec fn task_views(tasks: Seq<Task>) -> Seq<TaskView> {
    tasks.map_values(|task: Task| task@)
}

impl View for Batch {
    type V = BatchView;

    open spec fn view(&self) -> BatchView {
        BatchView {
            tasks: task_views(self.tasks@),
            at: self.at as int,
            seen: self.seen,
            batch_id: self.batch_id,
            progress: self.progress,
            succeeded: self.outcome.succeeded as int,
            failures: outside::texts(self.outcome.failures@),
        }
    }
}

/// Where a batch stands.
pub enum BatchStep {
    /// Work on the disk, to be answered in `seen`.
    Act(Action),
    /// So many of so many files are settled.
    Progress(usize, usize),
    Done,
}

pub enum BatchStepView {
    Act(ActionView),
    Progress(int, int),
    Done,
}

impl View for BatchStep {
    type V = BatchStepView;

    open spec fn view(&self) -> BatchStepView {
        match *self {
            BatchStep::Act(action) => BatchStepView::Act(action@),
            BatchStep::Progress(done, total) => BatchStepView::Progress(done as int, total as int),
            BatchStep::Done => BatchStepView::Done,
        }
    }
}

/// The batch after its current file ended with `result`.
pub open spec fn next_file(batch: BatchView, result: Result<(), Seq<char>>) -> BatchView {
    BatchView {
        at: batch.at + 1,
        seen: actions::nothing_seen(),
        succeeded: batch.succeeded + (if result is Ok {
            1int
        } else {
            0
        }),
        failures: match result {
            Ok(_) => batch.failures,
            Err(error) => batch.failures.push(failure_text(batch.tasks[batch.at], error)),
        },
        ..batch
    }
}

/// The batch worked on until the disk is needed, progress is due, or all is
/// done.
pub open spec fn advanced(index: IndexView, platform: Platform, batch: BatchView, now: i64) -> (
    IndexView,
    BatchView,
    BatchStepView,
)
    decreases batch.tasks.len() - batch.at,
{
    if batch.at >= batch.tasks.len() {
        (index, batch, BatchStepView::Done)
    } else {
        let current = BatchView { seen: actions::timed(batch.seen, now), ..batch };
        let (after, action) = task_step(
            index,
            platform,
            batch.tasks[batch.at],
            current.seen,
            actions::begun(batch.seen, now),
            batch.batch_id,
        );
        match action {
            ActionView::Finished { result } => {
                let next = next_file(batch, result);
                if batch.progress {
                    (
                        after,
                        next,
                        BatchStepView::Progress(batch.at + 1, batch.tasks.len() as int),
                    )
                } else {
                    advanced(after, platform, next, now)
                }
            },
            other => (after, current, BatchStepView::Act(other)),
        }
    }
}

impl Batch {
    pub open spec fn wf(self) -> bool {
        self.outcome.succeeded <= self.at <= self.tasks@.len()
    }

    /// Work on until the disk is needed, progress is due, or all is done. A
    /// file is worked on under the time of its first step.
    pub fn step(&mut self, index: &mut Index, platform: Platform, now: i64) -> (step: BatchStep)
        requires
            old(self).wf(),
            old(index).wf(),
        ensures
            final(self).wf(),
            final(index).wf(),
            (final(index)@, final(self)@, step@) == advanced(
                old(index)@,
                platform,
                old(self)@,
                now,
            ),
    {
        let ghost goal = advanced(index@, platform, self@, now);
        while self.at < self.tasks.len()
            invariant
                self.wf(),
                index.wf(),
                goal == advanced(index@, platform, self@, now),
                goal == advanced(old(index)@, platform, old(self)@, now),
            decreases self.tasks@.len() - self.at,
        {
            let ghost before = self@;
            proof {
                assert(before.tasks[before.at] == self.tasks@[self.at as int]@);
            }
            let began: i64 = hold_time(&mut self.seen, now);
            let action = perform(
                index,
                platform,
                &self.tasks[self.at],
                &self.seen,
                began,
                self.batch_id,
            );
            match action {
                Action::Finished { result } => {
                    match result {
                        Ok(_) => {
                            self.outcome.succeeded = self.outcome.succeeded + 1;
                        },
                        Err(error) => {
                            let message = tell_failure(&self.tasks[self.at], error.as_str());
                            let ghost failures = self.outcome.failures@;
                            self.outcome.failures.push(message);
                            proof {
                                assert(outside::texts(self.outcome.failures@) =~= outside::texts(
                                    failures,
                                ).push(message@));
                            }
                        },
                    }
                    self.at = self.at + 1;
                    self.seen = Seen::new();
                    if self.progress {
                        return BatchStep::Progress(self.at, self.tasks.len());
                    }
                },
                other => {
                    return BatchStep::Act(other);
                },
            }
        }
        BatchStep::Done
    }
}

/// A batch over these tasks, of which nothing is done yet.
pub open spec fn fresh(tasks: Seq<TaskView>, batch_id: Option<i64>, progress: bool) -> BatchView {
    BatchView {
        tasks,
        at: 0,
        seen: actions::nothing_seen(),
        batch_id,
        progress,
        succeeded: 0,
        failures: Seq::empty(),
    }
}

/// A batch that could not start.
pub open spec fn refused(error: Seq<char>, batch_id: Option<i64>, progress: bool) -> BatchView {
    BatchView { failures: seq![error], ..fresh(Seq::empty(), batch_id, progress) }
}

fn new_batch(tasks: Vec<Task>, batch_id: Option<i64>, progress: bool) -> (batch: Batch)
    ensures
        batch.wf(),
        batch@ == fresh(task_views(tasks@), batch_id, progress),
{
    let batch = Batch {
        tasks,
        at: 0,
        seen: Seen::new(),
        batch_id,
        progress,
        outcome: BatchOutcome { succeeded: 0, failures: Vec::new() },
    };
    proof {
        assert(outside::texts(batch.outcome.failures@) =~= Seq::empty());
    }
    batch
}

fn refused_batch(error: String, batch_id: Option<i64>, progress: bool) -> (batch: Batch)
    ensures
        batch.wf(),
        batch@ == refused(error@, batch_id, progress),
{
    let mut batch = new_batch(Vec::new(), batch_id, progress);
    batch.outcome.failures.push(error);
    proof {
        assert(task_views(batch.tasks@) =~= Seq::empty());
        assert(outside::texts(batch.outcome.failures@) =~= seq![error@]);
    }
    batch
}

/// What a batch of file ids does with each.
#[derive(Clone, Copy, Debug, PartialEq, Eq, Structural)]
pub enum BulkKind {
    Trash,
    Delete,
    Hardlink,
}

pub open spec fn bulk_task(kind: BulkKind, id: i64) -> TaskView {
    match kind {
        BulkKind::Trash => TaskView::Trash(id),
        BulkKind::Delete => TaskView::Delete(id),
        BulkKind::Hardlink => TaskView::Hardlink(id),
    }
}

pub open spec fn bulk_tasks(kind: BulkKind, ids: Seq<i64>) -> Seq<TaskView> {
    ids.map_values(|id: i64| bulk_task(kind, id))
}

/// A batch over file ids: none for no ids, refused where the index cannot be
/// used.
pub open spec fn started(
    before: IndexView,
    kind: BulkKind,
    ids: Seq<i64>,
    batch_id: i64,
    progress: bool,
) -> (IndexView, BatchView) {
    if ids.len() == 0 {
        (before, fresh(Seq::empty(), Some(batch_id), progress))
    } else {
        match settings::opened(before) {
            Err(error) => (before, refused(error, Some(batch_id), progress)),
            Ok(usable) => (usable, fresh(bulk_tasks(kind, ids), Some(batch_id), progress)),
        }
    }
}

fn start_files(
    index: &mut Index,
    kind: BulkKind,
    file_ids: &[i64],
    batch_id: i64,
    progress: bool,
) -> (batch: Batch)
    requires
        old(index).wf(),
    ensures
        final(index).wf(),
        batch.wf(),
        (final(index)@, batch@) == started(old(index)@, kind, file_ids@, batch_id, progress),
{
    let mut tasks: Vec<Task> = Vec::new();
    if file_ids.len() == 0 {
        proof {
            assert(task_views(tasks@) =~= Seq::empty());
        }
        return new_batch(tasks, Some(batch_id), progress);
    }
    match ensure_initialized(index) {
        Err(error) => return refused_batch(error, Some(batch_id), progress),
        Ok(_) => {},
    }
    for i in 0..file_ids.len()
        invariant
            tasks@.len() == i,
            forall|k: int| 0 <= k < i ==> (#[trigger] tasks@[k])@ == bulk_task(kind, file_ids@[k]),
    {
        let id: i64 = file_ids[i];
        let task = match kind {
            BulkKind::Trash => Task::Trash(id),
            BulkKind::Delete => Task::Delete(id),
            BulkKind::Hardlink => Task::Hardlink(id),
        };
        tasks.push(task);
    }
    proof {
        assert(task_views(tasks@) =~= bulk_tasks(kind, file_ids@));
    }
    new_batch(tasks, Some(batch_id), progress)
}

/// Move several approved duplicates into the recycle bin, stopping after each
/// file to report progress where that is asked for.
pub fn trash_batch_with_progress(
    index: &mut Index,
    file_ids: &[i64],
    batch_id: i64,
    progress: bool,
) -> (batch: Batch)
    requires
        old(index).wf(),
    ensures
        final(index).wf(),
        batch.wf(),
        (final(index)@, batch@) == started(
            old(index)@,
            BulkKind::Trash,
            file_ids@,
            batch_id,
            progress,
        ),
{
    start_files(index, BulkKind::Trash, file_ids, batch_id, progress)
}

/// Move several approved duplicates into the recycle bin as one user action.
pub fn trash_batch(index: &mut Index, file_ids: &[i64], batch_id: i64) -> (batch: Batch)
    requires
        old(index).wf(),
    ensures
        final(index).wf(),
        batch.wf(),
        (final(index)@, batch@) == started(
            old(index)@,
            BulkKind::Trash,
            file_ids@,
            batch_id,
            false,
        ),
{
    trash_batch_with_progress(index, file_ids, batch_id, false)
}

/// Delete several approved duplicates for good, stopping after each file to
/// report progress where that is asked for.
pub fn delete_approved_batch_with_progress(
    index: &mut Index,
    file_ids: &[i64],
    batch_id: i64,
    progress: bool,
) -> (batch: Batch)
    requires
        old(index).wf(),
    ensures
        final(index).wf(),
        batch.wf(),
        (final(index)@, batch@) == started(
            old(index)@,
            BulkKind::Delete,
            file_ids@,
            batch_id,
            progress,
        ),
{
    start_files(index, BulkKind::Delete, file_ids, batch_id, progress)
}

/// Delete several approved duplicates for good as one user action.
pub fn delete_approved_batch(index: &mut Index, file_ids: &[i64], batch_id: i64) -> (batch: Batch)
    requires
        old(index).wf(),
    ensures
        final(index).wf(),
        batch.wf(),
        (final(index)@, batch@) == started(
            old(index)@,
            BulkKind::Delete,
            file_ids@,
            batch_id,
            false,
        ),
{
    delete_approved_batch_with_progress(index, file_ids, batch_id, false)
}

/// Replace several approved duplicates by hard links, stopping after each
/// file to report progress where that is asked for.
pub fn hardlink_batch_with_progress(
    index: &mut Index,
    file_ids: &[i64],
    batch_id: i64,
    progress: bool,
) -> (batch: Batch)
    requires
        old(index).wf(),
    ensures
        final(index).wf(),
        batch.wf(),
        (final(index)@, batch@) == started(
            old(index)@,
            BulkKind::Hardlink,
            file_ids@,
            batch_id,
            progress,
        ),
{
    start_files(index, BulkKind::Hardlink, file_ids, batch_id, progress)
}

/// Replace several approved duplicates by hard links as one user action.
pub fn hardlink_batch(index: &mut Index, file_ids: &[i64], batch_id: i64) -> (batch: Batch)
    requires
        old(index).wf(),
    ensures
        final(index).wf(),
        batch.wf(),
        (final(index)@, batch@) == started(
            old(index)@,
            BulkKind::Hardlink,
            file_ids@,
            batch_id,
            false,
        ),
{
    hardlink_batch_with_progress(index, file_ids, batch_id, false)
}

pub open spec fn path_tasks(paths: Seq<Seq<char>>, to_trash: bool) -> Seq<TaskView> {
    paths.map_values(|path: Seq<char>| TaskView::RemovePath { path, to_trash })
}

/// A batch over paths, where the index can be used.
pub open spec fn paths_started(
    before: IndexView,
    after: IndexView,
    batch: Result<BatchView, Seq<char>>,
    paths: Seq<Seq<char>>,
    to_trash: bool,
    batch_id: i64,
) -> bool {
    match settings::opened(before) {
        Err(error) => batch == Err::<BatchView, Seq<char>>(error) && after == before,
        Ok(usable) => batch == Ok::<BatchView, Seq<char>>(
            fresh(path_tasks(paths, to_trash), Some(batch_id), false),
        ) && after == usable,
    }
}

pub open spec fn batch_result(batch: Result<Batch, String>) -> Result<BatchView, Seq<char>> {
    match batch {
        Ok(b) => Ok(b@),
        Err(error) => Err(error@),
    }
}

fn remove_paths(index: &mut Index, paths: &[String], to_trash: bool, batch_id: i64) -> (batch: Result<
    Batch,
    String,
>)
    requires
        old(index).wf(),
    ensures
        final(index).wf(),
        batch is Ok ==> batch->Ok_0.wf(),
        paths_started(
            old(index)@,
            final(index)@,
            batch_result(batch),
            outside::texts(paths@),
            to_trash,
            batch_id,
        ),
{
    match ensure_initialized(index) {
        Err(error) => return Err(error),
        Ok(_) => {},
    }
    let mut tasks: Vec<Task> = Vec::new();
    for i in 0..paths.len()
        invariant
            tasks@.len() == i,
            forall|k: int|
                0 <= k < i ==> (#[trigger] tasks@[k])@ == (TaskView::RemovePath {
                    path: paths@[k]@,
                    to_trash,
                }),
    {
        tasks.push(Task::RemovePath { path: paths[i].clone(), to_trash });
    }
    proof {
        assert(task_views(tasks@) =~= path_tasks(outside::texts(paths@), to_trash));
    }
    Ok(new_batch(tasks, Some(batch_id), false))
}

/// Move files that the user picked by path into the recycle bin. They need no
/// approval, but must be indexed, unprotected and unchanged.
pub fn trash_paths(index: &mut Index, paths: &[String], batch_id: i64) -> (batch: Result<
    Batch,
    String,
>)
    requires
        old(index).wf(),
    ensures
        final(index).wf(),
        batch is Ok ==> batch->Ok_0.wf(),
        paths_started(
            old(index)@,
            final(index)@,
            batch_result(batch),
            outside::texts(paths@),
            true,
            batch_id,
        ),
{
    remove_paths(index, paths, true, batch_id)
}

/// Delete files that the user picked by path for good, behind the same checks.
pub fn delete_paths(index: &mut Index, paths: &[String], batch_id: i64) -> (batch: Result<
    Batch,
    String,
>)
    requires
        old(index).wf(),
    ensures
        final(index).wf(),
        batch is Ok ==> batch->Ok_0.wf(),
        paths_started(
            old(index)@,
            final(index)@,
            batch_result(batch),
            outside::texts(paths@),
            false,
            batch_id,
        ),
{
    remove_paths(index, paths, false, batch_id)
}

/// What a batch does with operations of the bin.
#[derive(Clone, Copy, Debug, PartialEq, Eq, Structural)]
pub enum BinKind {
    Restore,
    Discard,
    Expire,
}

pub open spec fn bin_task(kind: BinKind, id: i64) -> TaskView {
    match kind {
        BinKind::Restore => TaskView::Restore(id),
        BinKind::Discard => TaskView::Discard(id),
        BinKind::Expire => TaskView::Expire(id),
    }
}

pub open spec fn bin_tasks(kind: BinKind, ids: Seq<i64>) -> Seq<TaskView> {
    ids.map_values(|id: i64| bin_task(kind, id))
}

fn bin_batch(kind: BinKind, ids: &Vec<i64>) -> (batch: Batch)
    ensures
        batch.wf(),
        batch@ == fresh(bin_tasks(kind, ids@), None, false),
{
    let mut tasks: Vec<Task> = Vec::new();
    for i in 0..ids.len()
        invariant
            tasks@.len() == i,
            forall|k: int| 0 <= k < i ==> (#[trigger] tasks@[k])@ == bin_task(kind, ids@[k]),
    {
        let id: i64 = ids[i];
        let task = match kind {
            BinKind::Restore => Task::Restore(id),
            BinKind::Discard => Task::Discard(id),
            BinKind::Expire => Task::Expire(id),
        };
        tasks.push(task);
    }
    proof {
        assert(task_views(tasks@) =~= bin_tasks(kind, ids@));
    }
    new_batch(tasks, None, false)
}

/// Bring every file of one user action back that is still in the bin.
pub fn restore_batch(index: &mut Index, batch_id: i64) -> (batch: Batch)
    requires
        old(index).wf(),
    ensures
        final(index).wf(),
        batch.wf(),
        match settings::opened(old(index)@) {
            Err(error) => final(index)@ == old(index)@ && batch@ == refused(error, None, false),
            Ok(usable) => final(index)@ == usable && batch@ == fresh(
                bin_tasks(
                    BinKind::Restore,
                    bin::operation_ids(
                        usable.operations,
                        bin::recycled_in_batch(usable.operations, batch_id),
                    ),
                ),
                None,
                false,
            ),
        },
{
    match ensure_initialized(index) {
        Err(error) => return refused_batch(error, None, false),
        Ok(_) => {},
    }
    let ids = recycled_ids_in_batch(index, batch_id);
    bin_batch(BinKind::Restore, &ids)
}

/// Delete every file in the recycle bin for good. How many went is what the
/// batch counts as succeeded.
pub fn empty_trash(index: &mut Index) -> (batch: Result<Batch, String>)
    requires
        old(index).wf(),
    ensures
        final(index).wf(),
        batch is Ok ==> batch->Ok_0.wf(),
        match settings::opened(old(index)@) {
            Err(error) => batch is Err && batch->Err_0@ == error && final(index)@ == old(index)@,
            Ok(usable) => batch is Ok && final(index)@ == usable && batch->Ok_0@ == fresh(
                bin_tasks(
                    BinKind::Discard,
                    bin::operation_ids(usable.operations, bin::recycled(usable.operations)),
                ),
                None,
                false,
            ),
        },
{
    match ensure_initialized(index) {
        Err(error) => return Err(error),
        Ok(_) => {},
    }
    let ids = recycled_ids(index);
    Ok(bin_batch(BinKind::Discard, &ids))
}

/// The batch that deletes what has been in the bin for too long.
pub fn prune_expired_trash_with(index: &Index, now: i64) -> (batch: Batch)
    requires
        index.wf(),
    ensures
        batch.wf(),
        batch@ == fresh(
            bin_tasks(
                BinKind::Expire,
                bin::operation_ids(index@.operations, bin::expired(index@, now)),
            ),
            None,
            false,
        ),
{
    let ids = expired_ids(index, now);
    bin_batch(BinKind::Expire, &ids)
}

/// Delete what has been in the recycle bin longer than the retention. How
/// many went is what the batch counts as succeeded.
pub fn prune_expired_trash(index: &mut Index, now: i64) -> (batch: Result<Batch, String>)
    requires
        old(index).wf(),
    ensures
        final(index).wf(),
        batch is Ok ==> batch->Ok_0.wf(),
        match settings::opened(old(index)@) {
            Err(error) => batch is Err && batch->Err_0@ == error && final(index)@ == old(index)@,
            Ok(usable) => batch is Ok && final(index)@ == usable && batch->Ok_0@ == fresh(
                bin_tasks(
                    BinKind::Expire,
                    bin::operation_ids(usable.operations, bin::expired(usable, now)),
                ),
                None,
                false,
            ),
        },
{
    match ensure_initialized(index) {
        Err(error) => return Err(error),
        Ok(_) => {},
    }
    Ok(prune_expired_trash_with(index, now))
}

} // verus!
