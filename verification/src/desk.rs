//! The background tasks of the desktop: the scan, the bulk action and the
//! directory watcher, each with the state that the window asks for.
use crate::batch::BulkKind;
use crate::messages;
use crate::messages::{bulk_summary, scan_message};
use crate::model;
use crate::model::{Index, IndexView};
use crate::outside;
use crate::progress;
use crate::progress::{HashProgress, ScanErrorLog};
use crate::review::BatchOutcome;
use crate::scan::ScanSummary;
use crate::settings::save_setting_list;
use crate::text;
use crate::text::{joined, same_text, unsigned_text};
use crate::walk;
use vstd::prelude::*;

verus! {

// ---------------------------------------------------------------------------
// The scan
// ---------------------------------------------------------------------------

/// Where a scan task stands.
#[derive(Clone, Copy, Debug, PartialEq, Eq, Structural)]
pub enum Phase {
    Running,
    Completed,
    Cancelled,
    Failed,
}

impl Phase {
    /// The word under which the window knows the phase.
    pub open spec fn name(self) -> Seq<char> {
        match self {
            Phase::Running => "running"@,
            Phase::Completed => "completed"@,
            Phase::Cancelled => "cancelled"@,
            Phase::Failed => "failed"@,
        }
    }

    pub fn text(self) -> (name: String)
        ensures
            name@ == self.name(),
    {
        match self {
            Phase::Running => "running".to_string(),
            Phase::Completed => "completed".to_string(),
            Phase::Cancelled => "cancelled".to_string(),
            Phase::Failed => "failed".to_string(),
        }
    }
}

/// A scan that was started.
pub struct ScanTask {
    pub phase: Phase,
    pub processed: u64,
    pub total: u64,
    pub message: String,
    pub current_path: Option<String>,
    /// The user asked to stop it.
    pub cancelled: bool,
}

#[verifier::ext_equal]
pub struct ScanTaskView {
    pub phase: Phase,
    pub processed: u64,
    pub total: u64,
    pub message: Seq<char>,
    pub current_path: Option<Seq<char>>,
    pub cancelled: bool,
}

impl View for ScanTask {
    type V = ScanTaskView;

    open spec fn view(&self) -> ScanTaskView {
        ScanTaskView {
            phase: self.phase,
            processed: self.processed,
            total: self.total,
            message: self.message@,
            current_path: model::text_option(self.current_path),
            cancelled: self.cancelled,
        }
    }
}

/// What the window is told about the scan.
pub struct ScanReport {
    pub state: String,
    pub processed: u64,
    pub total: u64,
    pub message: String,
    pub current_path: Option<String>,
    pub hashing_path: Option<String>,
    pub hashing_bytes: u64,
    pub errors_total: u64,
    pub recent_errors: Vec<(String, String)>,
}

#[verifier::ext_equal]
pub struct ScanReportView {
    pub state: Seq<char>,
    pub processed: u64,
    pub total: u64,
    pub message: Seq<char>,
    pub current_path: Option<Seq<char>>,
    pub hashing_path: Option<Seq<char>>,
    pub hashing_bytes: u64,
    pub errors_total: int,
    pub recent_errors: Seq<(Seq<char>, Seq<char>)>,
}

impl View for ScanReport {
    type V = ScanReportView;

    open spec fn view(&self) -> ScanReportView {
        ScanReportView {
            state: self.state@,
            processed: self.processed,
            total: self.total,
            message: self.message@,
            current_path: model::text_option(self.current_path),
            hashing_path: model::text_option(self.hashing_path),
            hashing_bytes: self.hashing_bytes,
            errors_total: self.errors_total as int,
            recent_errors: progress::sample_views(self.recent_errors@),
        }
    }
}

/// The place of the one scan task. A finished one stays until its last state
/// was told or another scan takes its place.
pub struct ScanDesk {
    pub task: Option<ScanTask>,
}

pub open spec fn task_view(task: Option<ScanTask>) -> Option<ScanTaskView> {
    match task {
        Some(t) => Some(t@),
        None => None,
    }
}

/// A task that was just started.
pub open spec fn fresh_task() -> ScanTaskView {
    ScanTaskView {
        phase: Phase::Running,
        processed: 0,
        total: 0,
        message: "正在准备扫描..."@,
        current_path: None,
        cancelled: false,
    }
}

/// The task when its scan has ended.
pub open spec fn ended(task: ScanTaskView, result: Result<ScanSummary, String>) -> ScanTaskView {
    match result {
        Ok(summary) => ScanTaskView {
            phase: Phase::Completed,
            message: messages::scan_report(summary),
            ..task
        },
        Err(error) => if error@ == walk::cancelled_message() {
            ScanTaskView {
                phase: Phase::Cancelled,
                message: "扫描已取消，已完成的索引仍会保留。"@,
                ..task
            }
        } else {
            ScanTaskView { phase: Phase::Failed, message: error@, ..task }
        },
    }
}

/// The index that remembers what is scanned.
pub open spec fn with_scan_rules(
    index: IndexView,
    roots: Seq<Seq<char>>,
    protect: Seq<Seq<char>>,
    exclude: Seq<Seq<char>>,
) -> IndexView {
    index.with_setting("roots"@, outside::json_text(roots)).with_setting(
        "protect_rules"@,
        outside::json_text(protect),
    ).with_setting("exclude_rules"@, outside::json_text(exclude))
}

impl ScanDesk {
    /// A scan is under way.
    pub open spec fn busy(self) -> bool {
        self.task is Some && self.task->0.phase == Phase::Running
    }

    pub fn new() -> (desk: ScanDesk)
        ensures
            desk.task is None,
    {
        ScanDesk { task: None }
    }

    /// Whether a scan is under way. A finished one in the place does not
    /// count.
    pub fn scan_task_running(&self) -> (running: bool)
        ensures
            running == self.busy(),
    {
        match &self.task {
            Some(task) => task.phase == Phase::Running,
            None => false,
        }
    }

    /// Start a scan and remember what is scanned. While one is under way no
    /// other starts.
    pub fn launch_scan(
        &mut self,
        index: &mut Index,
        roots: &[String],
        protect_rules: &[String],
        exclude_rules: &[String],
    ) -> (result: Result<(), String>)
        requires
            old(index).wf(),
        ensures
            final(index).wf(),
            if old(self).busy() {
                &&& result is Err
                &&& result->Err_0@ == "已有扫描任务正在运行"@
                &&& *final(self) == *old(self)
                &&& *final(index) == *old(index)
            } else {
                &&& result is Ok
                &&& task_view(final(self).task) == Some(fresh_task())
                &&& final(index)@ == with_scan_rules(
                    old(index)@,
                    outside::texts(roots@),
                    outside::texts(protect_rules@),
                    outside::texts(exclude_rules@),
                )
            },
    {
        if self.scan_task_running() {
            return Err("已有扫描任务正在运行".to_string());
        }
        let _ = save_setting_list(index, "roots", roots);
        let _ = save_setting_list(index, "protect_rules", protect_rules);
        let _ = save_setting_list(index, "exclude_rules", exclude_rules);
        self.task = Some(
            ScanTask {
                phase: Phase::Running,
                processed: 0,
                total: 0,
                message: "正在准备扫描...".to_string(),
                current_path: None,
                cancelled: false,
            },
        );
        Ok(())
    }

    /// Note how far the scan has come.
    pub fn note_progress(&mut self, processed: u64, total: u64, current_path: Option<String>)
        ensures
            task_view(final(self).task) == match task_view(old(self).task) {
                Some(task) => Some(
                    ScanTaskView {
                        processed,
                        total,
                        current_path: model::text_option(current_path),
                        ..task
                    },
                ),
                None => None,
            },
    {
        match self.task.take() {
            Some(task) => {
                self.task = Some(ScanTask { processed, total, current_path, ..task });
            },
            None => {},
        }
    }

    /// Note how the scan ended.
    pub fn finish(&mut self, result: &Result<ScanSummary, String>)
        ensures
            task_view(final(self).task) == match task_view(old(self).task) {
                Some(task) => Some(ended(task, *result)),
                None => None,
            },
    {
        match self.task.take() {
            Some(task) => {
                let (phase, message) = match result {
                    Ok(summary) => (Phase::Completed, scan_message(summary)),
                    Err(error) => if same_text(error.as_str(), "scan cancelled") {
                        (
                            Phase::Cancelled,
                            "扫描已取消，已完成的索引仍会保留。".to_string(),
                        )
                    } else {
                        (Phase::Failed, error.clone())
                    },
                };
                self.task = Some(ScanTask { phase, message, ..task });
            },
            None => {},
        }
    }

    /// Tell the window how the scan stands. The last state of a scan is told
    /// once.
    pub fn scan_state(&mut self, hashing: &HashProgress, errors: &ScanErrorLog) -> (report:
        ScanReport)
        ensures
            match task_view(old(self).task) {
                None => final(self).task is None && report@ == (ScanReportView {
                    state: "idle"@,
                    processed: 0,
                    total: 0,
                    message: "没有正在运行的扫描任务。"@,
                    current_path: None,
                    hashing_path: None,
                    hashing_bytes: 0,
                    errors_total: 0,
                    recent_errors: Seq::empty(),
                }),
                Some(task) => task_view(final(self).task) == (if task.phase == Phase::Running {
                    Some(task)
                } else {
                    None
                }) && report@ == (ScanReportView {
                    state: task.phase.name(),
                    processed: task.processed,
                    total: task.total,
                    message: task.message,
                    current_path: task.current_path,
                    hashing_path: hashing@.current_path,
                    hashing_bytes: hashing@.bytes_done,
                    errors_total: errors@.total,
                    recent_errors: errors@.recent,
                }),
            },
    {
        match self.task.take() {
            None => {
                let recent: Vec<(String, String)> = Vec::new();
                proof {
                    assert(progress::sample_views(recent@) =~= Seq::<(Seq<char>, Seq<char>)>::empty());
                }
                ScanReport {
                    state: "idle".to_string(),
                    processed: 0,
                    total: 0,
                    message: "没有正在运行的扫描任务。".to_string(),
                    current_path: None,
                    hashing_path: None,
                    hashing_bytes: 0,
                    errors_total: 0,
                    recent_errors: recent,
                }
            },
            Some(task) => {
                let (hashing_path, hashing_bytes) = hashing.snapshot();
                let (errors_total, recent_errors) = errors.snapshot();
                let current_path = match &task.current_path {
                    Some(path) => Some(path.clone()),
                    None => None,
                };
                let report = ScanReport {
                    state: task.phase.text(),
                    processed: task.processed,
                    total: task.total,
                    message: task.message.clone(),
                    current_path,
                    hashing_path,
                    hashing_bytes,
                    errors_total,
                    recent_errors,
                };
                if task.phase == Phase::Running {
                    self.task = Some(task);
                }
                report
            },
        }
    }

    /// Ask the scan to stop.
    pub fn cancel_scan(&mut self) -> (result: Result<String, String>)
        ensures
            match task_view(old(self).task) {
                None => final(self).task is None && result is Err && result->Err_0@
                    == "没有正在运行的扫描任务"@,
                Some(task) => task_view(final(self).task) == Some(
                    ScanTaskView { cancelled: true, ..task },
                ) && result is Ok && result->Ok_0@
                    == "正在请求取消，当前文件处理完成后会停止。"@,
            },
    {
        match self.task.take() {
            None => Err("没有正在运行的扫描任务".to_string()),
            Some(task) => {
                self.task = Some(ScanTask { cancelled: true, ..task });
                Ok("正在请求取消，当前文件处理完成后会停止。".to_string())
            },
        }
    }
}

/// While a scan is under way no second one starts, and once it has ended
/// another one can.
pub proof fn law_one_scan_at_a_time(desk: ScanDesk, task: ScanTaskView, result: Result<ScanSummary, String>)
    ensures
        task_view(desk.task) == Some(fresh_task()) ==> desk.busy(),
        task_view(desk.task) == Some(ended(task, result)) ==> !desk.busy(),
{
}

// ---------------------------------------------------------------------------
// Bulk actions
// ---------------------------------------------------------------------------

/// The action that a word of the window names.
pub open spec fn bulk_named(kind: Seq<char>) -> Option<BulkKind> {
    if kind == "trash"@ {
        Some(BulkKind::Trash)
    } else if kind == "hardlink"@ {
        Some(BulkKind::Hardlink)
    } else if kind == "delete"@ {
        Some(BulkKind::Delete)
    } else {
        None
    }
}

fn bulk_of(kind: &str) -> (found: Option<BulkKind>)
    ensures
        found == bulk_named(kind@),
{
    if same_text(kind, "trash") {
        Some(BulkKind::Trash)
    } else if same_text(kind, "hardlink") {
        Some(BulkKind::Hardlink)
    } else if same_text(kind, "delete") {
        Some(BulkKind::Delete)
    } else {
        None
    }
}

/// A bulk action that was started.
pub struct BulkTask {
    pub kind: String,
    pub action: BulkKind,
    pub done: u64,
    pub total: u64,
    pub finished: bool,
    pub message: String,
}

#[verifier::ext_equal]
pub struct BulkTaskView {
    pub kind: Seq<char>,
    pub action: BulkKind,
    pub done: u64,
    pub total: u64,
    pub finished: bool,
    pub message: Seq<char>,
}

impl View for BulkTask {
    type V = BulkTaskView;

    open spec fn view(&self) -> BulkTaskView {
        BulkTaskView {
            kind: self.kind@,
            action: self.action,
            done: self.done,
            total: self.total,
            finished: self.finished,
            message: self.message@,
        }
    }
}

/// What the window is told about the bulk action.
pub struct BulkState {
    pub running: bool,
    pub kind: String,
    pub done: u64,
    pub total: u64,
    pub message: String,
}

/// The place of the one bulk action. A finished one stays readable until the
/// next one starts.
pub struct BulkDesk {
    pub task: Option<BulkTask>,
}

pub open spec fn bulk_view(task: Option<BulkTask>) -> Option<BulkTaskView> {
    match task {
        Some(t) => Some(t@),
        None => None,
    }
}

impl BulkDesk {
    pub open spec fn busy(self) -> bool {
        self.task is Some && !self.task->0.finished
    }

    pub fn new() -> (desk: BulkDesk)
        ensures
            desk.task is None,
    {
        BulkDesk { task: None }
    }

    /// Start a bulk action on so many files.
    pub fn start_bulk(&mut self, kind: &str, files: usize) -> (result: Result<BulkKind, String>)
        ensures
            if files == 0 {
                &&& result is Err
                &&& result->Err_0@ == "没有选择要处理的文件"@
                &&& *final(self) == *old(self)
            } else {
                match bulk_named(kind@) {
                    None => result is Err && result->Err_0@ == "未知的批量类型："@ + kind@
                        && *final(self) == *old(self),
                    Some(action) => if old(self).busy() {
                        result is Err && result->Err_0@ == "已有批量任务正在运行"@ && *final(self)
                            == *old(self)
                    } else {
                        result is Ok && result->Ok_0 == action && bulk_view(final(self).task)
                            == Some(
                            BulkTaskView {
                                kind: kind@,
                                action,
                                done: 0,
                                total: files as u64,
                                finished: false,
                                message: "正在准备批量操作..."@,
                            },
                        )
                    },
                }
            },
    {
        if files == 0 {
            return Err("没有选择要处理的文件".to_string());
        }
        let action = match bulk_of(kind) {
            None => return Err(joined("未知的批量类型：", kind)),
            Some(action) => action,
        };
        let busy = match &self.task {
            Some(task) => !task.finished,
            None => false,
        };
        if busy {
            return Err("已有批量任务正在运行".to_string());
        }
        self.task = Some(
            BulkTask {
                kind: kind.to_string(),
                action,
                done: 0,
                total: files as u64,
                finished: false,
                message: "正在准备批量操作...".to_string(),
            },
        );
        Ok(action)
    }

    /// Note how many files are done.
    pub fn note_progress(&mut self, done: usize, total: usize)
        ensures
            bulk_view(final(self).task) == match bulk_view(old(self).task) {
                Some(task) => Some(
                    BulkTaskView {
                        done: done as u64,
                        total: total as u64,
                        message: "正在处理 "@ + text::decimal(done as int) + "/"@ + text::decimal(
                            total as int,
                        ) + "..."@,
                        ..task
                    },
                ),
                None => None,
            },
    {
        match self.task.take() {
            Some(task) => {
                let done_text = unsigned_text(done as u64);
                let total_text = unsigned_text(total as u64);
                let mut message = "正在处理 ".to_string();
                message.append(done_text.as_str());
                message.append("/");
                message.append(total_text.as_str());
                message.append("...");
                self.task = Some(
                    BulkTask { done: done as u64, total: total as u64, message, ..task },
                );
            },
            None => {},
        }
    }

    /// Note how the action ended. `files` is how many it was started for.
    pub fn finish(&mut self, outcome: &BatchOutcome, files: usize)
        ensures
            bulk_view(final(self).task) == match bulk_view(old(self).task) {
                Some(task) => Some(
                    BulkTaskView {
                        done: files as u64,
                        finished: true,
                        message: messages::bulk_report(task.action, *outcome),
                        ..task
                    },
                ),
                None => None,
            },
    {
        match self.task.take() {
            Some(task) => {
                let message = bulk_summary(task.action, outcome);
                self.task = Some(BulkTask { done: files as u64, finished: true, message, ..task });
            },
            None => {},
        }
    }

    /// Tell the window how the action stands.
    pub fn bulk_state(&self) -> (state: BulkState)
        ensures
            match bulk_view(self.task) {
                Some(task) => {
                    &&& state.running == !task.finished
                    &&& state.kind@ == task.kind
                    &&& state.done == task.done
                    &&& state.total == task.total
                    &&& state.message@ == task.message
                },
                None => {
                    &&& !state.running
                    &&& state.kind@ == Seq::<char>::empty()
                    &&& state.done == 0
                    &&& state.total == 0
                    &&& state.message@ == Seq::<char>::empty()
                },
            },
    {
        match &self.task {
            Some(task) => BulkState {
                running: !task.finished,
                kind: task.kind.clone(),
                done: task.done,
                total: task.total,
                message: task.message.clone(),
            },
            None => {
                let state = BulkState {
                    running: false,
                    kind: String::new(),
                    done: 0,
                    total: 0,
                    message: String::new(),
                };
                proof {
                    assert(state.kind@ =~= Seq::<char>::empty());
                    assert(state.message@ =~= Seq::<char>::empty());
                }
                state
            },
        }
    }
}

// ---------------------------------------------------------------------------
// The directory watcher
// ---------------------------------------------------------------------------

/// What the watcher heard.
#[derive(Clone, Copy, Debug, PartialEq, Eq, Structural)]
pub enum WatchEvent {
    /// Something other than an access happened.
    Change,
    /// A file was only read.
    Access,
    /// The watcher itself failed, so changes may have been missed.
    Trouble,
    /// Nothing happened in the time given.
    Quiet,
    /// No more events will come.
    Closed,
}

/// What the watcher does next.
#[derive(Clone, Copy, Debug, PartialEq, Eq, Structural)]
pub enum WatchStep {
    /// Wait two seconds for an event.
    Listen,
    /// Wait three seconds for the tree to settle.
    Settle,
    /// Start a scan, and listen again.
    Scan,
    Stop,
}

/// Whether changes were heard, and whether they are being waited out.
#[derive(Clone, Copy, Debug, PartialEq, Eq, Structural)]
pub struct Watch {
    pub dirty: bool,
    pub settling: bool,
}

/// How an event moves the watcher. After a change it waits until nothing
/// happens for two seconds, then until the tree stays quiet for three more,
/// so that a bulk copy leads to one scan.
pub open spec fn heard(watch: Watch, event: WatchEvent, cancelled: bool) -> (Watch, WatchStep) {
    let idle = Watch { dirty: false, settling: false };
    if cancelled {
        (watch, WatchStep::Stop)
    } else if watch.settling {
        if event == WatchEvent::Quiet || event == WatchEvent::Closed {
            (idle, WatchStep::Scan)
        } else {
            (watch, WatchStep::Settle)
        }
    } else {
        match event {
            WatchEvent::Change | WatchEvent::Trouble => (
                Watch { dirty: true, settling: false },
                WatchStep::Listen,
            ),
            WatchEvent::Access => (watch, WatchStep::Listen),
            WatchEvent::Quiet => if watch.dirty {
                (Watch { dirty: true, settling: true }, WatchStep::Settle)
            } else {
                (watch, WatchStep::Listen)
            },
            WatchEvent::Closed => (watch, WatchStep::Stop),
        }
    }
}

impl Watch {
    pub fn new() -> (watch: Watch)
        ensures
            watch == (Watch { dirty: false, settling: false }),
    {
        Watch { dirty: false, settling: false }
    }

    /// Take an event in and say what comes next.
    pub fn hear(&mut self, event: WatchEvent, cancelled: bool) -> (step: WatchStep)
        ensures
            (*final(self), step) == heard(*old(self), event, cancelled),
    {
        if cancelled {
            return WatchStep::Stop;
        }
        if self.settling {
            return match event {
                WatchEvent::Quiet | WatchEvent::Closed => {
                    self.dirty = false;
                    self.settling = false;
                    WatchStep::Scan
                },
                _ => WatchStep::Settle,
            };
        }
        match event {
            WatchEvent::Change | WatchEvent::Trouble => {
                self.dirty = true;
                WatchStep::Listen
            },
            WatchEvent::Access => WatchStep::Listen,
            WatchEvent::Quiet => {
                if self.dirty {
                    self.settling = true;
                    WatchStep::Settle
                } else {
                    WatchStep::Listen
                }
            },
            WatchEvent::Closed => WatchStep::Stop,
        }
    }
}

/// The watcher after some events, none of which found it cancelled.
pub open spec fn heard_all(watch: Watch, events: Seq<WatchEvent>) -> Watch
    decreases events.len(),
{
    if events.len() == 0 {
        watch
    } else {
        heard(heard_all(watch, events.drop_last()), events.last(), false).0
    }
}

/// Files that are only read never lead to a scan: however often that
/// happens, and however quiet it is between, a watcher at rest stays at rest.
pub proof fn law_reading_starts_no_scan(events: Seq<WatchEvent>)
    requires
        forall|k: int|
            0 <= k < events.len() ==> #[trigger] events[k] == WatchEvent::Access || events[k]
                == WatchEvent::Quiet,
    ensures
        heard_all(Watch { dirty: false, settling: false }, events) == (Watch {
            dirty: false,
            settling: false,
        }),
    decreases events.len(),
{
    if events.len() > 0 {
        let front = events.drop_last();
        assert forall|k: int| 0 <= k < front.len() implies #[trigger] front[k]
            == WatchEvent::Access || front[k] == WatchEvent::Quiet by {
            assert(front[k] == events[k]);
        }
        law_reading_starts_no_scan(front);
        assert(events.last() == events[events.len() - 1]);
    }
}

/// A burst of changes leads to one scan, and only once the tree is quiet: no
/// change starts a scan by itself, and two quiet spells after it do.
pub proof fn law_a_burst_leads_to_one_scan(watch: Watch, change: WatchEvent)
    requires
        change == WatchEvent::Change || change == WatchEvent::Trouble,
        !watch.settling,
    ensures
        heard(watch, change, false).1 == WatchStep::Listen,
        heard(heard(watch, change, false).0, WatchEvent::Quiet, false).1 == WatchStep::Settle,
        heard(heard(heard(watch, change, false).0, WatchEvent::Quiet, false).0, change, false).1
            == WatchStep::Settle,
        heard(
            heard(heard(watch, change, false).0, WatchEvent::Quiet, false).0,
            WatchEvent::Quiet,
            false,
        ) == ((Watch { dirty: false, settling: false }), WatchStep::Scan),
{
}

/// The place of the one watcher. Watchers are numbered, so that one that ends
/// late does not clear the place of its successor.
pub struct WatchDesk {
    pub current: Option<u64>,
    pub started: u64,
}

impl WatchDesk {
    /// The current watcher is not younger than the last one started.
    pub open spec fn wf(self) -> bool {
        match self.current {
            Some(n) => n <= self.started,
            None => true,
        }
    }

    pub fn new() -> (desk: WatchDesk)
        ensures
            desk.wf(),
            desk.current is None,
            desk.started == 0,
    {
        WatchDesk { current: None, started: 0 }
    }

    /// Replace the watcher: the earlier one is to be cancelled, and a new one
    /// is registered where there is something to watch.
    pub fn start_watcher(&mut self, roots: usize) -> (change: (Option<u64>, Option<u64>))
        requires
            old(self).wf(),
            old(self).started < u64::MAX,
        ensures
            final(self).wf(),
            change.0 == old(self).current,
            change.1 == (if roots == 0 {
                None
            } else {
                Some((old(self).started + 1) as u64)
            }),
            final(self).current == change.1,
            final(self).started == old(self).started + (if roots == 0 {
                0int
            } else {
                1
            }),
    {
        let former = self.current;
        if roots == 0 {
            self.current = None;
        } else {
            self.started = self.started + 1;
            self.current = Some(self.started);
        }
        (former, self.current)
    }

    /// A watcher has ended; its place is cleared only if it is still its own.
    pub fn clear_watch_task(&mut self, number: u64)
        requires
            old(self).wf(),
        ensures
            final(self).wf(),
            final(self).started == old(self).started,
            final(self).current == (if old(self).current == Some(number) {
                None
            } else {
                old(self).current
            }),
    {
        match self.current {
            Some(current) => {
                if current == number {
                    self.current = None;
                }
            },
            None => {},
        }
    }
}

} // verus!
