//! The settings of a project as the desktop reads and writes them, and the
//! requests of its review page.
use crate::desk;
use crate::groups;
use crate::groups::{query_groups, GroupQuery, GroupSort, GroupsPage, QueryView};
use crate::keeper::MarkStrategy;
use crate::model;
use crate::model::{Index, IndexView};
use crate::outside;
use crate::outside::{json_from_string, string_from_json};
use crate::review;
use crate::review::{approve_groups_except_keeper, BatchOutcome};
use crate::settings;
use crate::settings::{
    init, save_setting_list, set_setting, setting_flag, setting_list, setting_number,
    trash_retention_days,
};
use crate::text;
use crate::text::{joined, same_text, signed_text, trim_text};
use vstd::prelude::*;

verus! {

// ---------------------------------------------------------------------------
// Project settings
// ---------------------------------------------------------------------------

/// The settings that the desktop shows.
pub struct ProjectState {
    pub database: String,
    pub trash_path: String,
    pub roots: Vec<String>,
    pub protect_rules: Vec<String>,
    pub exclude_rules: Vec<String>,
    pub min_file_size: i64,
    pub trash_retention_days: i64,
    pub auto_scan: bool,
    pub strict_verify: bool,
    pub usn_scan: bool,
    pub watch_scan: bool,
    pub similar_threshold: i64,
}

#[verifier::ext_equal]
pub struct ProjectView {
    pub database: Seq<char>,
    pub trash_path: Seq<char>,
    pub roots: Seq<Seq<char>>,
    pub protect_rules: Seq<Seq<char>>,
    pub exclude_rules: Seq<Seq<char>>,
    pub min_file_size: i64,
    pub trash_retention_days: i64,
    pub auto_scan: bool,
    pub strict_verify: bool,
    pub usn_scan: bool,
    pub watch_scan: bool,
    pub similar_threshold: i64,
}

impl View for ProjectState {
    type V = ProjectView;

    open spec fn view(&self) -> ProjectView {
        ProjectView {
            database: self.database@,
            trash_path: self.trash_path@,
            roots: outside::texts(self.roots@),
            protect_rules: outside::texts(self.protect_rules@),
            exclude_rules: outside::texts(self.exclude_rules@),
            min_file_size: self.min_file_size,
            trash_retention_days: self.trash_retention_days,
            auto_scan: self.auto_scan,
            strict_verify: self.strict_verify,
            usn_scan: self.usn_scan,
            watch_scan: self.watch_scan,
            similar_threshold: self.similar_threshold,
        }
    }
}

/// The database to open: the one that the saved pointer names, or `fallback`
/// where no pointer was saved. A pointer that cannot be read is an error.
pub fn project_database(saved: &Option<String>, fallback: &str) -> (database: Result<
    String,
    String,
>)
    ensures
        match model::text_option(*saved) {
            None => database is Ok && database->Ok_0@ == fallback@,
            Some(pointer) => match outside::json_string(pointer) {
                Ok(path) => database is Ok && database->Ok_0@ == path,
                Err(error) => database is Err && database->Err_0@ == error,
            },
        },
{
    match saved {
        None => Ok(fallback.to_string()),
        Some(pointer) => string_from_json(pointer.as_str()),
    }
}

/// The pointer to save, so that this database opens again at the next start:
/// read back, it names the database.
pub fn project_pointer(database: &str) -> (pointer: Result<String, String>)
    ensures
        pointer is Ok,
        pointer->Ok_0@ == outside::json_quoted(database@),
        outside::json_string(pointer->Ok_0@) is Ok,
        outside::json_string(pointer->Ok_0@)->Ok_0 == database@,
{
    json_from_string(database)
}

/// The recycle bin of a project: the stored one, or `fallback` where none is
/// stored yet.
pub fn project_trash(stored: &Option<String>, fallback: &str) -> (trash: String)
    ensures
        trash@ == (match model::text_option(*stored) {
            Some(path) => path,
            None => fallback@,
        }),
{
    match stored {
        Some(path) => path.clone(),
        None => fallback.to_string(),
    }
}

/// The settings that an index holds, or why a list of them cannot be read.
pub open spec fn project_of(index: IndexView, database: Seq<char>, trash: Seq<char>) -> Result<
    ProjectView,
    Seq<char>,
> {
    match settings::list_of(index, "roots"@) {
        Err(error) => Err(error),
        Ok(roots) => match settings::list_of(index, "protect_rules"@) {
            Err(error) => Err(error),
            Ok(protect_rules) => match settings::list_of(index, "exclude_rules"@) {
                Err(error) => Err(error),
                Ok(exclude_rules) => Ok(
                    ProjectView {
                        database,
                        trash_path: trash,
                        roots,
                        protect_rules,
                        exclude_rules,
                        min_file_size: settings::number_of(index, "min_file_size"@, 0),
                        trash_retention_days: settings::retention_of(index),
                        auto_scan: settings::flag_of(index, "auto_scan_on_start"@, true),
                        strict_verify: settings::flag_of(index, "strict_verify"@, false),
                        usn_scan: settings::flag_of(index, "usn_scan"@, false),
                        watch_scan: settings::flag_of(index, "watch_scan"@, false),
                        similar_threshold: settings::number_of(index, "similar_phash_max"@, 10),
                    },
                ),
            },
        },
    }
}

/// Read the settings of an open project.
pub fn open_project(index: &Index, database: &str, trash: &str) -> (state: Result<
    ProjectState,
    String,
>)
    requires
        index.wf(),
    ensures
        match project_of(index@, database@, trash@) {
            Ok(project) => state is Ok && state->Ok_0@ == project,
            Err(error) => state is Err && state->Err_0@ == error,
        },
{
    let roots = match setting_list(index, "roots") {
        Err(error) => return Err(error),
        Ok(list) => list,
    };
    let protect_rules = match setting_list(index, "protect_rules") {
        Err(error) => return Err(error),
        Ok(list) => list,
    };
    let exclude_rules = match setting_list(index, "exclude_rules") {
        Err(error) => return Err(error),
        Ok(list) => list,
    };
    let state = ProjectState {
        database: database.to_string(),
        trash_path: trash.to_string(),
        roots,
        protect_rules,
        exclude_rules,
        min_file_size: setting_number(index, "min_file_size", 0),
        trash_retention_days: trash_retention_days(index),
        auto_scan: setting_flag(index, "auto_scan_on_start", true),
        strict_verify: setting_flag(index, "strict_verify", false),
        usn_scan: setting_flag(index, "usn_scan", false),
        watch_scan: setting_flag(index, "watch_scan", false),
        similar_threshold: setting_number(index, "similar_phash_max", 10),
    };
    Ok(state)
}

/// The index with a project's settings stored. A size below zero counts as
/// zero.
pub open spec fn configured(
    index: IndexView,
    roots: Seq<Seq<char>>,
    protect: Seq<Seq<char>>,
    exclude: Seq<Seq<char>>,
    min_file_size: i64,
) -> IndexView {
    desk::with_scan_rules(index, roots, protect, exclude).with_setting(
        "min_file_size"@,
        text::decimal(if min_file_size < 0 {
            0
        } else {
            min_file_size as int
        }),
    )
}

/// Open or create a project with this recycle bin and store its settings; they
/// read back as they were saved. Returns the upgrade steps that were taken.
pub fn save_project_config(
    index: &mut Index,
    existing: bool,
    trash: &str,
    roots: &[String],
    protect_rules: &[String],
    exclude_rules: &[String],
    min_file_size: i64,
) -> (result: Result<Vec<i64>, String>)
    requires
        old(index).wf(),
    ensures
        final(index).wf(),
        existing && settings::opened(old(index)@) is Err ==> {
            &&& result is Err
            &&& result->Err_0@ == settings::opened(old(index)@)->Err_0
            &&& *final(index) == *old(index)
        },
        !existing || settings::opened(old(index)@) is Ok ==> {
            let usable = if existing {
                settings::opened(old(index)@)->Ok_0
            } else {
                old(index)@.with_setting(
                    "schema_version"@,
                    text::decimal(settings::SCHEMA_VERSION as int),
                )
            };
            &&& result is Ok
            &&& result->Ok_0@.map_values(|t: i64| t as int) == (if existing {
                settings::upgrade_steps(settings::usable_version(old(index)@)->Ok_0)
            } else {
                Seq::empty()
            })
            &&& final(index)@ == configured(
                usable.with_setting("trash_path"@, trash@),
                outside::texts(roots@),
                outside::texts(protect_rules@),
                outside::texts(exclude_rules@),
                min_file_size,
            )
        },
        result is Ok ==> {
            &&& settings::list_of(final(index)@, "roots"@) == Ok::<Seq<Seq<char>>, Seq<char>>(
                outside::texts(roots@),
            )
            &&& settings::list_of(final(index)@, "protect_rules"@) == Ok::<
                Seq<Seq<char>>,
                Seq<char>,
            >(outside::texts(protect_rules@))
            &&& settings::list_of(final(index)@, "exclude_rules"@) == Ok::<
                Seq<Seq<char>>,
                Seq<char>,
            >(outside::texts(exclude_rules@))
        },
{
    let steps = match init(index, existing, trash) {
        Err(error) => return Err(error),
        Ok(steps) => steps,
    };
    let _ = save_setting_list(index, "roots", roots);
    let _ = save_setting_list(index, "protect_rules", protect_rules);
    let _ = save_setting_list(index, "exclude_rules", exclude_rules);
    let size: i64 = if min_file_size < 0 {
        0
    } else {
        min_file_size
    };
    let shown = signed_text(size);
    set_setting(index, "min_file_size", shown.as_str());
    proof {
        lemma_keys_differ();
        if !existing {
            assert(steps@.map_values(|t: i64| t as int) =~= Seq::<int>::empty());
        }
    }
    Ok(steps)
}

/// Store which directories are scanned and which files are protected.
pub fn save_roots(index: &mut Index, roots: &[String], protect_rules: &[String]) -> (message:
    String)
    requires
        old(index).wf(),
    ensures
        final(index).wf(),
        final(index)@ == old(index)@.with_setting(
            "roots"@,
            outside::json_text(outside::texts(roots@)),
        ).with_setting("protect_rules"@, outside::json_text(outside::texts(protect_rules@))),
        message@ == "扫描目录已保存。"@,
{
    let _ = save_setting_list(index, "roots", roots);
    let _ = save_setting_list(index, "protect_rules", protect_rules);
    "扫描目录已保存。".to_string()
}

/// The settings that a watcher works with.
pub struct WatchRules {
    pub roots: Vec<String>,
    pub protect_rules: Vec<String>,
    pub exclude_rules: Vec<String>,
    pub min_file_size: i64,
}

/// Read what a watcher watches, and how it scans.
pub fn watch_rules(index: &Index) -> (rules: Result<WatchRules, String>)
    requires
        index.wf(),
    ensures
        match project_of(index@, Seq::empty(), Seq::empty()) {
            Ok(project) => {
                &&& rules is Ok
                &&& outside::texts(rules->Ok_0.roots@) == project.roots
                &&& outside::texts(rules->Ok_0.protect_rules@) == project.protect_rules
                &&& outside::texts(rules->Ok_0.exclude_rules@) == project.exclude_rules
                &&& rules->Ok_0.min_file_size == project.min_file_size
            },
            Err(error) => rules is Err && rules->Err_0@ == error,
        },
{
    let roots = match setting_list(index, "roots") {
        Err(error) => return Err(error),
        Ok(list) => list,
    };
    let protect_rules = match setting_list(index, "protect_rules") {
        Err(error) => return Err(error),
        Ok(list) => list,
    };
    let exclude_rules = match setting_list(index, "exclude_rules") {
        Err(error) => return Err(error),
        Ok(list) => list,
    };
    let min_file_size = setting_number(index, "min_file_size", 0);
    Ok(WatchRules { roots, protect_rules, exclude_rules, min_file_size })
}

/// The keys of the stored lists and of the size are all different.
proof fn lemma_keys_differ()
    ensures
        "roots"@ != "protect_rules"@,
        "roots"@ != "exclude_rules"@,
        "roots"@ != "min_file_size"@,
        "protect_rules"@ != "exclude_rules"@,
        "protect_rules"@ != "min_file_size"@,
        "exclude_rules"@ != "min_file_size"@,
{
    reveal_strlit("roots");
    reveal_strlit("protect_rules");
    reveal_strlit("exclude_rules");
    reveal_strlit("min_file_size");
    assert("roots"@[0] != "protect_rules"@[0]);
    assert("roots"@[0] != "exclude_rules"@[0]);
    assert("roots"@[0] != "min_file_size"@[0]);
    assert("protect_rules"@[0] != "exclude_rules"@[0]);
    assert("protect_rules"@[0] != "min_file_size"@[0]);
    assert("exclude_rules"@[0] != "min_file_size"@[0]);
}

// ---------------------------------------------------------------------------
// The review page
// ---------------------------------------------------------------------------

/// What the review page asks for.
pub struct GroupRequest {
    pub offset: Option<i64>,
    pub limit: Option<i64>,
    pub min_size: Option<i64>,
    pub path_contains: Option<String>,
    pub sort: Option<String>,
    pub kind: Option<String>,
    pub dir_contains: Option<String>,
}

pub open spec fn or_else(value: Option<i64>, default: i64) -> i64 {
    match value {
        Some(n) => n,
        None => default,
    }
}

/// A filter that says something: not the word for everything.
pub open spec fn narrowing(value: Option<Seq<char>>) -> Option<Seq<char>> {
    match value {
        Some(filter) => if filter == "all"@ {
            None
        } else {
            Some(filter)
        },
        None => None,
    }
}

/// The order that a word of the page names; by size where it names none.
pub open spec fn sort_named(sort: Option<Seq<char>>) -> GroupSort {
    match sort {
        Some(name) => if name == "members"@ {
            GroupSort::Members
        } else if name == "path"@ {
            GroupSort::Path
        } else if name == "recoverable"@ {
            GroupSort::Recoverable
        } else {
            GroupSort::Size
        },
        None => GroupSort::Size,
    }
}

/// The query that a request stands for.
pub open spec fn requested(request: GroupRequest) -> QueryView {
    QueryView {
        min_size: or_else(request.min_size, 0),
        path_contains: match model::text_option(request.path_contains) {
            Some(part) => if text::trimmed(part).len() == 0 {
                None
            } else {
                Some(text::trimmed(part))
            },
            None => None,
        },
        sort: sort_named(model::text_option(request.sort)),
        offset: or_else(request.offset, 0),
        limit: or_else(request.limit, 50),
        kind: narrowing(model::text_option(request.kind)),
        dir_contains: match narrowing(model::text_option(request.dir_contains)) {
            Some(dir) => if dir.len() == 0 {
                None
            } else {
                Some(dir)
            },
            None => None,
        },
    }
}

fn number_or(value: Option<i64>, default: i64) -> (n: i64)
    ensures
        n == or_else(value, default),
{
    match value {
        Some(n) => n,
        None => default,
    }
}

fn narrow<'a>(value: &'a Option<String>) -> (filter: Option<&'a str>)
    ensures
        groups::borrowed(filter) == narrowing(model::text_option(*value)),
{
    match value {
        Some(filter) => if same_text(filter.as_str(), "all") {
            None
        } else {
            Some(filter.as_str())
        },
        None => None,
    }
}

fn not_empty<'a>(value: Option<&'a str>) -> (filter: Option<&'a str>)
    ensures
        groups::borrowed(filter) == match groups::borrowed(value) {
            Some(dir) => if dir.len() == 0 {
                None
            } else {
                Some(dir)
            },
            None => None,
        },
{
    match value {
        Some(dir) => {
            if same_text(dir, "") {
                proof {
                    reveal_strlit("");
                }
                None
            } else {
                proof {
                    reveal_strlit("");
                    if dir@.len() == 0 {
                        assert(dir@ =~= ""@);
                    }
                }
                Some(dir)
            }
        },
        None => None,
    }
}

fn sort_of(sort: &Option<String>) -> (order: GroupSort)
    ensures
        order == sort_named(model::text_option(*sort)),
{
    match sort {
        Some(name) => if same_text(name.as_str(), "members") {
            GroupSort::Members
        } else if same_text(name.as_str(), "path") {
            GroupSort::Path
        } else if same_text(name.as_str(), "recoverable") {
            GroupSort::Recoverable
        } else {
            GroupSort::Size
        },
        None => GroupSort::Size,
    }
}

/// Answer a request of the review page.
pub fn review_page(index: &mut Index, request: &GroupRequest) -> (page: Result<GroupsPage, String>)
    requires
        old(index).wf(),
    ensures
        final(index).wf(),
        match settings::opened(old(index)@) {
            Err(error) => page is Err && page->Err_0@ == error && final(index)@ == old(index)@,
            Ok(usable) => {
                &&& final(index)@ == usable
                &&& page is Ok
                &&& page->Ok_0.total == groups::listing(usable.files, requested(*request)).len()
                &&& groups::group_views(page->Ok_0.groups@) == groups::shown_page(
                    usable.files,
                    requested(*request),
                )
            },
        },
{
    let part: Option<String> = match &request.path_contains {
        Some(part) => Some(trim_text(part.as_str())),
        None => None,
    };
    let wanted: Option<&str> = match &part {
        Some(part) => not_empty(Some(part.as_str())),
        None => None,
    };
    let query = GroupQuery {
        min_size: number_or(request.min_size, 0),
        path_contains: wanted,
        sort: sort_of(&request.sort),
        offset: number_or(request.offset, 0),
        limit: number_or(request.limit, 50),
        kind: narrow(&request.kind),
        dir_contains: not_empty(narrow(&request.dir_contains)),
    };
    proof {
        assert(query@ == requested(*request));
    }
    query_groups(index, &query)
}

/// The strategy that a word of the page names.
pub open spec fn strategy_named(name: Seq<char>) -> Option<MarkStrategy> {
    if name == "scored"@ {
        Some(MarkStrategy::Scored)
    } else if name == "newest"@ {
        Some(MarkStrategy::Newest)
    } else if name == "oldest"@ {
        Some(MarkStrategy::Oldest)
    } else if name == "shortest"@ {
        Some(MarkStrategy::Shortest)
    } else {
        None
    }
}

fn strategy_of(name: &str) -> (strategy: Option<MarkStrategy>)
    ensures
        strategy == strategy_named(name@),
{
    if same_text(name, "scored") {
        Some(MarkStrategy::Scored)
    } else if same_text(name, "newest") {
        Some(MarkStrategy::Newest)
    } else if same_text(name, "oldest") {
        Some(MarkStrategy::Oldest)
    } else if same_text(name, "shortest") {
        Some(MarkStrategy::Shortest)
    } else {
        None
    }
}

/// The query that a sweep over the filtered groups stands for.
pub open spec fn swept_query(
    min_size: i64,
    path_contains: Seq<char>,
    kind: Option<Seq<char>>,
    dir_contains: Option<Seq<char>>,
) -> QueryView {
    review::sweep_query(
        if min_size < 0 {
            0
        } else {
            min_size
        },
        path_contains,
        narrowing(kind),
        match dir_contains {
            Some(dir) => dir,
            None => Seq::empty(),
        },
    )
}

/// Mark all copies but one in every group that meets the filters, not only
/// in those on the page.
pub fn approve_filtered(
    index: &mut Index,
    strategy: &str,
    min_size: i64,
    path_contains: &str,
    kind: &Option<String>,
    dir_contains: &Option<String>,
) -> (result: Result<BatchOutcome, String>)
    requires
        old(index).wf(),
    ensures
        final(index).wf(),
        match strategy_named(strategy@) {
            None => result is Err && result->Err_0@ == "未知的保留策略："@ + strategy@
                && *final(index) == *old(index),
            Some(strategy) => match settings::opened(old(index)@) {
                Err(error) => result is Err && result->Err_0@ == error && final(index)@ == old(
                    index,
                )@,
                Ok(usable) => {
                    let query = swept_query(
                        min_size,
                        path_contains@,
                        model::text_option(*kind),
                        model::text_option(*dir_contains),
                    );
                    &&& result is Ok
                    &&& result->Ok_0.failures@.len() == 0
                    &&& result->Ok_0.succeeded == review::newly_marked(
                        usable.files,
                        query,
                        strategy,
                    ).len()
                    &&& final(index)@ == (IndexView {
                        files: review::swept(usable.files, query, strategy),
                        ..usable
                    })
                },
            },
        },
{
    let chosen = match strategy_of(strategy) {
        None => return Err(joined("未知的保留策略：", strategy)),
        Some(chosen) => chosen,
    };
    let size: i64 = if min_size < 0 {
        0
    } else {
        min_size
    };
    let dir: String = match dir_contains {
        Some(dir) => dir.clone(),
        None => {
            let none = String::new();
            proof {
                assert(none@ =~= Seq::<char>::empty());
            }
            none
        },
    };
    approve_groups_except_keeper(index, chosen, size, path_contains, narrow(kind), dir.as_str())
}

// ---------------------------------------------------------------------------
// Clock and detectors
// ---------------------------------------------------------------------------

/// Seconds since the epoch as the index stores them. `since_epoch` is None for
/// a moment before it.
pub fn unix_seconds(since_epoch: Option<u64>) -> (seconds: Result<i64, String>)
    ensures
        match since_epoch {
            None => seconds is Err && seconds->Err_0@ == "timestamp before Unix epoch"@,
            Some(n) => if n > i64::MAX {
                seconds is Err && seconds->Err_0@ == "timestamp out of range"@
            } else {
                seconds is Ok && seconds->Ok_0 == n
            },
        },
{
    match since_epoch {
        None => Err("timestamp before Unix epoch".to_string()),
        Some(n) => if n > 0x7fff_ffff_ffff_ffff {
            Err("timestamp out of range".to_string())
        } else {
            Ok(n as i64)
        },
    }
}

/// A kind of detector, and whether it is built in.
pub struct DetectorStatus {
    pub name: String,
    pub available: bool,
    pub detail: String,
}

pub open spec fn detector_view(status: DetectorStatus) -> (Seq<char>, bool, Seq<char>) {
    (status.name@, status.available, status.detail@)
}

/// Which detectors there are. Those that need a decoder that is not shipped
/// say so.
pub fn detector_status() -> (list: Vec<DetectorStatus>)
    ensures
        list@.len() == 4,
        detector_view(list@[0]) == (
            "照片重复/相似"@,
            true,
            "本地 dHash：像素一致的重复（复制导致信息略异）与高置信度相似候选"@,
        ),
        detector_view(list@[1]) == (
            "文档近似"@,
            true,
            "TXT、Markdown、CSV、JSON、XML、HTML 的本地 SimHash"@,
        ),
        detector_view(list@[2]) == (
            "音频转码相似"@,
            false,
            "需要随安装包提供 Chromaprint/FFmpeg 解码器；当前不会产生不可靠结果"@,
        ),
        detector_view(list@[3]) == (
            "视频转码与片段包含"@,
            false,
            "需要随安装包提供 FFmpeg 解码器与帧指纹任务；当前不会产生不可靠结果"@,
        ),
{
    let mut list: Vec<DetectorStatus> = Vec::new();
    list.push(
        DetectorStatus {
            name: "照片重复/相似".to_string(),
            available: true,
            detail: "本地 dHash：像素一致的重复（复制导致信息略异）与高置信度相似候选".to_string(),
        },
    );
    list.push(
        DetectorStatus {
            name: "文档近似".to_string(),
            available: true,
            detail: "TXT、Markdown、CSV、JSON、XML、HTML 的本地 SimHash".to_string(),
        },
    );
    list.push(
        DetectorStatus {
            name: "音频转码相似".to_string(),
            available: false,
            detail: "需要随安装包提供 Chromaprint/FFmpeg 解码器；当前不会产生不可靠结果".to_string(),
        },
    );
    list.push(
        DetectorStatus {
            name: "视频转码与片段包含".to_string(),
            available: false,
            detail: "需要随安装包提供 FFmpeg 解码器与帧指纹任务；当前不会产生不可靠结果".to_string(),
        },
    );
    list
}

} // verus!
