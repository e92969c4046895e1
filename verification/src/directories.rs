//! Tidying whole directories: recycling the duplicates below one directory
//! while one copy of every content survives, and merging duplicate
//! directories into one.
use crate::actions::{check_content, error_of, fail, finish, hold_time, push_operation, Action, ActionView, Gate, Seen};
use crate::contents::group_table;
use crate::indexing::free_path;
use crate::model::{
    find_id, FileRow, FileView, Index, IndexView, OperationRow, OperationState, OperationView,
};
use crate::paths::{file_name, join_path, path_under, split_extension, Platform};
use crate::removal::remove_indexed_path;
use crate::settings::ensure_initialized;
use crate::text::{joined, same_text, text_bytes, unsigned_text};
use crate::{
    actions, contents, groups, indexing, lists, model, outside, paths, removal, review, settings,
    text,
};
use vstd::prelude::*;

verus! {

// ---------------------------------------------------------------------------
// Moving one indexed file into a directory
// ---------------------------------------------------------------------------

/// The name that is tried after `k` names were found to be taken.
pub open spec fn candidate_name(name: Seq<char>, k: nat) -> Seq<char> {
    if k == 0 {
        name
    } else {
        let (stem, suffix) = paths::stem_and_suffix(name);
        stem + " ("@ + text::decimal(k as int) + ")"@ + suffix
    }
}

fn make_candidate(name: &str, k: usize) -> (candidate: String)
    ensures
        candidate@ == candidate_name(name@, k as nat),
{
    if k == 0 {
        return name.to_string();
    }
    let (stem, suffix) = split_extension(name);
    let number = unsigned_text(k as u64);
    let first = joined(stem.as_str(), " (");
    let second = joined(first.as_str(), number.as_str());
    let third = joined(second.as_str(), ")");
    joined(third.as_str(), suffix.as_str())
}

/// Message for an operation on a file that is not indexed.
pub open spec fn no_such_row() -> Seq<char> {
    "FOREIGN KEY constraint failed"@
}

/// The index after the row `id` was moved to `to`, and how that ended. A dead
/// row that still holds the path is set aside.
pub open spec fn placed(
    index: IndexView,
    id: i64,
    source: Seq<char>,
    to: Seq<char>,
    hash: Seq<char>,
    now: i64,
) -> (IndexView, ActionView) {
    match indexing::set_aside(index.files, to, id, false) {
        Err(error) => (index, actions::failed(error)),
        Ok(free) => {
            let vacated = IndexView { files: free, ..index };
            match model::at_id(free, id) {
                None => (vacated, actions::failed(no_such_row())),
                Some(i) => {
                    let moved = vacated.with_file(i, (FileView { path: to, ..free[i] }));
                    actions::settled(
                        moved,
                        moved.with_operation(
                            OperationView {
                                id: 0,
                                file_id: id,
                                source_path: source,
                                trash_path: Seq::empty(),
                                hash,
                                state: OperationState::Moved,
                                created_at: now,
                                restored_at: None,
                                batch_id: None,
                            },
                        ),
                    )
                },
            }
        },
    }
}

/// Message where a file to move is not the indexed one any more.
pub open spec fn not_as_indexed() -> Seq<char> {
    "content no longer matches the index"@
}

/// Moving one indexed file into a directory under the first free name, once
/// its content was found to be the indexed one.
pub open spec fn place_step(
    index: IndexView,
    platform: Platform,
    id: i64,
    source: Seq<char>,
    directory: Seq<char>,
    hash: Seq<char>,
    seen: Seen,
    now: i64,
) -> (IndexView, ActionView) {
    match paths::file_name_of(platform, source) {
        None => (index, actions::failed("source has no file name"@)),
        Some(name) => match actions::content_gate(seen, source, hash, not_as_indexed()) {
            Gate::Ask(action) => (index, action),
            Gate::Stop(message) => (index, actions::failed(message)),
            Gate::Pass => match actions::must_succeed(
                seen.prepared,
                ActionView::MakeParents { path: paths::inside(platform, directory, name) },
                "create keep directory: "@,
            ) {
                Gate::Ask(action) => (index, action),
                Gate::Stop(message) => (index, actions::failed(message)),
                Gate::Pass => {
                    let to = paths::inside(
                        platform,
                        directory,
                        candidate_name(name, seen.taken as nat),
                    );
                    if seen.occupied != Some(false) {
                        (index, ActionView::Probe { path: to })
                    } else {
                        match actions::must_succeed(
                            seen.moved,
                            ActionView::Move { from: source, to, hash },
                            Seq::empty(),
                        ) {
                            Gate::Ask(action) => (index, action),
                            Gate::Stop(message) => (index, actions::failed(message)),
                            Gate::Pass => placed(index, id, source, to, hash, now),
                        }
                    }
                },
            },
        },
    }
}

fn place_row(index: &mut Index, id: i64, source: &str, to: &str, hash: &str, now: i64) -> (action:
    Action)
    requires
        old(index).wf(),
    ensures
        final(index).wf(),
        (final(index)@, action@) == placed(old(index)@, id, source@, to@, hash@, now),
{
    match free_path(index, to, id, false) {
        Err(error) => return fail(error),
        Ok(_) => {},
    }
    let ghost free = index@;
    match find_id(&index.files, id) {
        None => return fail("FOREIGN KEY constraint failed".to_string()),
        Some(i) => {
            proof {
                assert(free.files[i as int] == index.files@[i as int]@);
            }
            index.files[i].path = to.to_string();
            proof {
                let row = FileView { path: to@, ..free.files[i as int] };
                assert(index@.files =~= free.files.update(i as int, row));
                assert forall|k: int| 0 <= k < free.files.len() && k != i implies (
                #[trigger] free.files[k]).path != row.path by {
                    if free.files[k].path == to@ {
                        assert(free.files[k].id == id);
                        if k < i {
                            assert(free.files[k].id < free.files[i as int].id);
                        } else {
                            assert(free.files[i as int].id < free.files[k].id);
                        }
                    }
                }
                indexing::lemma_wf_with_new_path(free, i as int, row);
                assert(index@ == free.with_file(i as int, row));
                assert(index@.files[i as int].id == id);
                assert(model::has_id(index@.files, id));
            }
        },
    }
    let none = String::new();
    proof {
        assert(none@ =~= Seq::<char>::empty());
    }
    let row = OperationRow {
        id: 0,
        file_id: id,
        source_path: source.to_string(),
        trash_path: none,
        hash: hash.to_string(),
        state: OperationState::Moved,
        created_at: now,
        restored_at: None,
        batch_id: None,
    };
    match push_operation(index, row) {
        Err(error) => fail(error),
        Ok(_) => finish(),
    }
}

pub fn move_indexed_file_to(
    index: &mut Index,
    platform: Platform,
    id: i64,
    source: &str,
    directory: &str,
    hash: &str,
    seen: &Seen,
    now: i64,
) -> (action: Action)
    requires
        old(index).wf(),
    ensures
        final(index).wf(),
        (final(index)@, action@) == place_step(
            old(index)@,
            platform,
            id,
            source@,
            directory@,
            hash@,
            *seen,
            now,
        ),
{
    let name = match file_name(platform, source) {
        None => return fail("source has no file name".to_string()),
        Some(name) => name,
    };
    match check_content(seen, source, hash, "content no longer matches the index") {
        Some(stop) => return stop,
        None => {},
    }
    if seen.prepared.is_none() {
        return Action::MakeParents { path: join_path(platform, directory, name.as_str()) };
    }
    match error_of(&seen.prepared) {
        Some(error) => return fail(joined("create keep directory: ", error.as_str())),
        None => {},
    }
    let candidate = make_candidate(name.as_str(), seen.taken);
    let to = join_path(platform, directory, candidate.as_str());
    match seen.occupied {
        Some(false) => {},
        _ => return Action::Probe { path: to },
    }
    if seen.moved.is_none() {
        return Action::Move { from: source.to_string(), to, hash: hash.to_string() };
    }
    match error_of(&seen.moved) {
        Some(error) => {
            proof {
                assert(Seq::<char>::empty() + error@ =~= error@);
            }
            return fail(error)
        },
        None => {},
    }
    place_row(index, id, source, to.as_str(), hash, now)
}

/// The answers after a name was found to be taken: the next one is tried.
pub open spec fn next_candidate(seen: Seen) -> Seen {
    if seen.occupied == Some(true) && seen.taken < usize::MAX {
        Seen { occupied: None, taken: (seen.taken + 1) as usize, ..seen }
    } else {
        seen
    }
}

pub(crate) fn advance_candidate(seen: &mut Seen)
    ensures
        *final(seen) == next_candidate(*old(seen)),
{
    match seen.occupied {
        Some(true) => {
            if seen.taken < usize::MAX {
                seen.taken = seen.taken + 1;
                seen.occupied = None;
            }
        },
        _ => {},
    }
}

// ---------------------------------------------------------------------------
// Recycling below a directory
// ---------------------------------------------------------------------------

/// What recycling below a directory did.
pub struct DirKeepOutcome {
    pub recycled: usize,
    /// Copies moved into the keep directory as the last of their content.
    pub moved: usize,
    pub failures: Vec<String>,
}

/// One content with copies below the directory.
pub struct KeepGroup {
    /// The copy that moves into the keep directory, where no other would
    /// survive.
    pub keeper: Option<(i64, String, String)>,
    /// The copies to recycle.
    pub rest: Vec<String>,
}

#[verifier::ext_equal]
pub struct KeepGroupView {
    /// Row of the copy that moves.
    pub keeper: Option<(i64, Seq<char>, Seq<char>)>,
    pub rest: Seq<Seq<char>>,
}

impl View for KeepGroup {
    type V = KeepGroupView;

    open spec fn view(&self) -> KeepGroupView {
        KeepGroupView {
            keeper: match self.keeper {
                None => None,
                Some((id, path, hash)) => Some((id, path@, hash@)),
            },
            rest: outside::texts(self.rest@),
        }
    }
}

/// The rows of the list below the directory, in order.
pub open spec fn rows_below(
    files: Seq<FileView>,
    platform: Platform,
    directory: Seq<char>,
    list: Seq<int>,
) -> Seq<int>
    decreases list.len(),
{
    if list.len() == 0 {
        Seq::empty()
    } else {
        let front = rows_below(files, platform, directory, list.drop_last());
        if paths::lies_under(platform, files[list.last()].path, directory) {
            front.push(list.last())
        } else {
            front
        }
    }
}

/// Some row of the list is protected.
pub open spec fn any_protected(files: Seq<FileView>, list: Seq<int>) -> bool {
    exists|k: int| 0 <= k < list.len() && files[#[trigger] list[k]].protected
}

/// Index of the row with the shortest path, the first of equals.
pub open spec fn shortest(files: Seq<FileView>, list: Seq<int>, n: nat) -> int
    decreases n,
{
    if n <= 1 {
        0
    } else {
        let before = shortest(files, list, (n - 1) as nat);
        if text::byte_len(files[list[n - 1]].path) < text::byte_len(files[list[before]].path) {
            n - 1
        } else {
            before
        }
    }
}

/// The content survives the recycling of its unprotected copies below the
/// directory: a copy lies elsewhere, or a protected one stays.
pub open spec fn survives(files: Seq<FileView>, all: Seq<int>, below: Seq<int>) -> bool {
    below.len() < all.len() || any_protected(files, below)
}

/// What happens to the content that `lead` stands for.
pub open spec fn keep_group(
    files: Seq<FileView>,
    platform: Platform,
    directory: Seq<char>,
    lead: int,
) -> KeepGroupView {
    let all = contents::members(files, lead);
    let below = rows_below(files, platform, directory, all);
    let doomed = review::unprotected(files, below);
    if survives(files, all, below) {
        KeepGroupView { keeper: None, rest: doomed.map_values(|p: int| files[p].path) }
    } else {
        let k = shortest(files, doomed, doomed.len());
        let keeper = files[doomed[k]];
        KeepGroupView {
            keeper: Some((keeper.id, keeper.path, keeper.hash)),
            rest: doomed.remove(k).map_values(|p: int| files[p].path),
        }
    }
}

/// The contents with a duplicate below the directory.
pub open spec fn touched(
    files: Seq<FileView>,
    platform: Platform,
    directory: Seq<char>,
) -> Seq<int> {
    lists::positions(
        files.len(),
        |p: int|
            contents::leads(files, p) && contents::members(files, p).len() > 1 && rows_below(
                files,
                platform,
                directory,
                contents::members(files, p),
            ).len() > 0,
    )
}

/// What happens to every content with a duplicate below the directory.
pub open spec fn keep_groups(
    files: Seq<FileView>,
    platform: Platform,
    directory: Seq<char>,
) -> Seq<KeepGroupView> {
    touched(files, platform, directory).map_values(
        |lead: int| keep_group(files, platform, directory, lead),
    )
}

fn select_below(files: &Vec<FileRow>, platform: Platform, directory: &str, list: &Vec<usize>) -> (below:
    Vec<usize>)
    requires
        groups::in_table(model::file_rows(files@), list@),
    ensures
        lists::ints(below@) == rows_below(
            model::file_rows(files@),
            platform,
            directory@,
            lists::ints(list@),
        ),
        groups::in_table(model::file_rows(files@), below@),
{
    let ghost views = model::file_rows(files@);
    let ghost whole = lists::ints(list@);
    let mut below: Vec<usize> = Vec::new();
    proof {
        assert(lists::ints(below@) =~= Seq::<int>::empty());
    }
    for i in 0..list.len()
        invariant
            views == model::file_rows(files@),
            whole == lists::ints(list@),
            groups::in_table(views, list@),
            groups::in_table(views, below@),
            lists::ints(below@) == rows_below(views, platform, directory@, whole.take(i as int)),
    {
        let p = list[i];
        let ghost before = below@;
        proof {
            assert(views[p as int] == files@[p as int]@);
            assert(whole.take(i + 1).drop_last() =~= whole.take(i as int));
            assert(whole.take(i + 1).last() == p);
        }
        if path_under(platform, files[p].path.as_str(), directory) {
            below.push(p);
            proof {
                assert(lists::ints(below@) =~= lists::ints(before).push(p as int));
            }
        }
    }
    proof {
        assert(whole.take(whole.len() as int) =~= whole);
    }
    below
}

fn holds_protected(files: &Vec<FileRow>, list: &Vec<usize>) -> (yes: bool)
    requires
        groups::in_table(model::file_rows(files@), list@),
    ensures
        yes == any_protected(model::file_rows(files@), lists::ints(list@)),
{
    let ghost views = model::file_rows(files@);
    let ghost whole = lists::ints(list@);
    for i in 0..list.len()
        invariant
            views == model::file_rows(files@),
            whole == lists::ints(list@),
            groups::in_table(views, list@),
            forall|k: int| 0 <= k < i ==> !views[#[trigger] whole[k]].protected,
    {
        let p = list[i];
        proof {
            assert(views[p as int] == files@[p as int]@);
            assert(whole[i as int] == p);
        }
        if files[p].protected {
            return true;
        }
    }
    false
}

fn find_shortest(files: &Vec<FileRow>, list: &Vec<usize>) -> (best: usize)
    requires
        groups::in_table(model::file_rows(files@), list@),
        list@.len() > 0,
    ensures
        best == shortest(model::file_rows(files@), lists::ints(list@), list@.len()),
        best < list@.len(),
{
    let ghost views = model::file_rows(files@);
    let ghost whole = lists::ints(list@);
    let mut best: usize = 0;
    for k in 1..list.len()
        invariant
            views == model::file_rows(files@),
            whole == lists::ints(list@),
            groups::in_table(views, list@),
            best < k,
            best == shortest(views, whole, k as nat),
    {
        let a = list[k];
        let b = list[best];
        proof {
            assert(whole[k as int] == a);
            assert(whole[best as int] == b);
            assert(views[a as int] == files@[a as int]@);
            assert(views[b as int] == files@[b as int]@);
        }
        if text_bytes(files[a].path.as_str()) < text_bytes(files[b].path.as_str()) {
            best = k;
        }
    }
    best
}

fn list_paths(files: &Vec<FileRow>, list: &Vec<usize>) -> (out: Vec<String>)
    requires
        groups::in_table(model::file_rows(files@), list@),
    ensures
        outside::texts(out@) == lists::ints(list@).map_values(
            |p: int| model::file_rows(files@)[p].path,
        ),
{
    let mut out: Vec<String> = Vec::new();
    for i in 0..list.len()
        invariant
            groups::in_table(model::file_rows(files@), list@),
            out@.len() == i,
            forall|k: int|
                0 <= k < i ==> (#[trigger] out@[k])@ == files@[list@[k] as int].path@,
    {
        out.push(files[list[i]].path.clone());
    }
    proof {
        let views = model::file_rows(files@);
        assert forall|k: int| 0 <= k < list@.len() implies outside::texts(out@)[k]
            == views[lists::ints(list@)[k]].path by {
            assert(views[list@[k] as int] == files@[list@[k] as int]@);
        }
        assert(outside::texts(out@) =~= lists::ints(list@).map_values(|p: int| views[p].path));
    }
    out
}

/// A group without a survivor has an unprotected copy below the directory.
proof fn lemma_doomed_not_empty(files: Seq<FileView>, all: Seq<int>, below: Seq<int>)
    requires
        !survives(files, all, below),
        below.len() > 0,
    ensures
        review::unprotected(files, below).len() == below.len(),
    decreases below.len(),
{
    lemma_none_protected(files, below);
}

proof fn lemma_none_protected(files: Seq<FileView>, list: Seq<int>)
    requires
        !any_protected(files, list),
    ensures
        review::unprotected(files, list) == list,
    decreases list.len(),
{
    if list.len() > 0 {
        let front = list.drop_last();
        if any_protected(files, front) {
            let k = choose|k: int| 0 <= k < front.len() && files[#[trigger] front[k]].protected;
            assert(list[k] == front[k]);
        }
        lemma_none_protected(files, front);
        assert(files[list[list.len() - 1]] == files[list.last()]);
        assert(front.push(list.last()) =~= list);
    } else {
        assert(review::unprotected(files, list) =~= list);
    }
}

fn plan_group(files: &Vec<FileRow>, platform: Platform, directory: &str, run: &Vec<usize>, lead: usize) -> (
group: Option<KeepGroup>)
    requires
        lead < files@.len(),
        groups::in_table(model::file_rows(files@), run@),
        lists::ints(run@) == contents::members(model::file_rows(files@), lead as int),
    ensures
        ({
            let views = model::file_rows(files@);
            let below = rows_below(
                views,
                platform,
                directory@,
                contents::members(views, lead as int),
            );
            if below.len() > 0 {
                group is Some && group->0@ == keep_group(views, platform, directory@, lead as int)
            } else {
                group is None
            }
        }),
{
    let ghost views = model::file_rows(files@);
    let below = select_below(files, platform, directory, run);
    proof {
        assert(lists::ints(below@).len() == below@.len());
        assert(lists::ints(run@).len() == run@.len());
    }
    if below.len() == 0 {
        return None;
    }
    let mut doomed = review::unprotected_rows(files, &below);
    let ghost doomed_rows = lists::ints(doomed@);
    if below.len() < run.len() || holds_protected(files, &below) {
        Some(KeepGroup { keeper: None, rest: list_paths(files, &doomed) })
    } else {
        proof {
            lemma_doomed_not_empty(views, lists::ints(run@), lists::ints(below@));
            assert(doomed_rows.len() == doomed@.len());
        }
        let k = find_shortest(files, &doomed);
        let ghost before = doomed@;
        let p = doomed.remove(k);
        proof {
            assert(doomed_rows[k as int] == p);
            assert(views[p as int] == files@[p as int]@);
            assert(lists::ints(doomed@) =~= doomed_rows.remove(k as int));
            assert forall|m: int| 0 <= m < doomed@.len() implies (#[trigger] doomed@[m])
                < views.len() by {
                let n = if m < k {
                    m
                } else {
                    m + 1
                };
                assert(doomed@[m] == before[n]);
            }
        }
        let group = KeepGroup {
            keeper: Some((files[p].id, files[p].path.clone(), files[p].hash.clone())),
            rest: list_paths(files, &doomed),
        };
        Some(group)
    }
}

/// Recycling below a directory, in progress.
pub struct DirKeep {
    pub groups: Vec<KeepGroup>,
    pub keep_dir: String,
    pub batch_id: i64,
    /// The content that is being worked on.
    pub at: usize,
    /// The copies to recycle once the keepers are safe.
    pub list: Vec<String>,
    /// The copy that is being recycled.
    pub next: usize,
    /// What the disk has answered for the current file.
    pub seen: Seen,
    pub outcome: DirKeepOutcome,
}

#[verifier::ext_equal]
pub struct DirKeepView {
    pub groups: Seq<KeepGroupView>,
    pub keep_dir: Seq<char>,
    pub batch_id: i64,
    pub at: int,
    pub list: Seq<Seq<char>>,
    pub next: int,
    pub seen: Seen,
    pub recycled: int,
    pub moved: int,
    pub failures: Seq<Seq<char>>,
}

pub open spec fn group_plans(list: Seq<KeepGroup>) -> Seq<KeepGroupView> {
    list.map_values(|group: KeepGroup| group@)
}

impl View for DirKeep {
    type V = DirKeepView;

    open spec fn view(&self) -> DirKeepView {
        DirKeepView {
            groups: group_plans(self.groups@),
            keep_dir: self.keep_dir@,
            batch_id: self.batch_id,
            at: self.at as int,
            list: outside::texts(self.list@),
            next: self.next as int,
            seen: self.seen,
            recycled: self.outcome.recycled as int,
            moved: self.outcome.moved as int,
            failures: outside::texts(self.outcome.failures@),
        }
    }
}

pub open spec fn keep_planned(
    index: IndexView,
    platform: Platform,
    directory: Seq<char>,
    keep_dir: Seq<char>,
    batch_id: i64,
) -> Result<DirKeepView, Seq<char>> {
    if paths::lies_under(platform, keep_dir, directory) {
        Err("保留目录不能位于被清理目录之内"@)
    } else {
        Ok(
            DirKeepView {
                groups: keep_groups(index.files, platform, directory),
                keep_dir,
                batch_id,
                at: 0,
                list: Seq::empty(),
                next: 0,
                seen: actions::nothing_seen(),
                recycled: 0,
                moved: 0,
                failures: Seq::empty(),
            },
        )
    }
}

/// Plan to recycle every duplicate below the absolute directory `dir`. A
/// content whose removable copies all lie there keeps its shortest-named
/// copy, which moves into `keep_dir`; protected files are never touched.
pub fn recycle_dir_keep_one(
    index: &mut Index,
    platform: Platform,
    dir: &str,
    keep_dir: &str,
    batch_id: i64,
) -> (plan: Result<DirKeep, String>)
    requires
        old(index).wf(),
    ensures
        final(index).wf(),
        plan is Ok ==> plan->Ok_0.wf(),
        match settings::opened(old(index)@) {
            Err(error) => plan is Err && plan->Err_0@ == error && final(index)@ == old(index)@,
            Ok(usable) => final(index)@ == usable && match keep_planned(
                usable,
                platform,
                dir@,
                keep_dir@,
                batch_id,
            ) {
                Err(error) => plan is Err && plan->Err_0@ == error,
                Ok(view) => plan is Ok && plan->Ok_0@ == view,
            },
        },
{
    match ensure_initialized(index) {
        Err(error) => return Err(error),
        Ok(_) => {},
    }
    if path_under(platform, keep_dir, dir) {
        return Err("保留目录不能位于被清理目录之内".to_string());
    }
    let files = &index.files;
    let ghost views = index@.files;
    let table = group_table(files);
    let mut plans: Vec<KeepGroup> = Vec::new();
    let ghost keep = |p: int|
        contents::leads(views, p) && contents::members(views, p).len() > 1 && rows_below(
            views,
            platform,
            dir@,
            contents::members(views, p),
        ).len() > 0;
    let ghost plan_of = |lead: int| keep_group(views, platform, dir@, lead);
    proof {
        assert(group_plans(plans@) =~= lists::positions(0, keep).map_values(plan_of));
    }
    for p in 0..files.len()
        invariant
            views == model::file_rows(files@),
            contents::is_group_table(views, table@),
            keep == (|p: int|
                contents::leads(views, p) && contents::members(views, p).len() > 1 && rows_below(
                    views,
                    platform,
                    dir@,
                    contents::members(views, p),
                ).len() > 0),
            plan_of == (|lead: int| keep_group(views, platform, dir@, lead)),
            group_plans(plans@) == lists::positions(p as nat, keep).map_values(plan_of),
    {
        let ghost before = lists::positions(p as nat, keep);
        let ghost plans_before = plans@;
        proof {
            groups::lemma_run_in_table(views, table@, p as int);
            assert(lists::ints(table@[p as int]@).len() == table@[p as int]@.len());
        }
        if table[p].len() > 1 {
            match plan_group(files, platform, dir, &table[p], p) {
                None => {},
                Some(group) => {
                    plans.push(group);
                    proof {
                        assert(keep(p as int));
                        assert(group_plans(plans@) =~= group_plans(plans_before).push(group@));
                        assert(before.push(p as int).map_values(plan_of) =~= before.map_values(
                            plan_of,
                        ).push(plan_of(p as int)));
                    }
                },
            }
        }
    }
    let plan = DirKeep {
        groups: plans,
        keep_dir: keep_dir.to_string(),
        batch_id,
        at: 0,
        list: Vec::new(),
        next: 0,
        seen: Seen::new(),
        outcome: DirKeepOutcome { recycled: 0, moved: 0, failures: Vec::new() },
    };
    proof {
        assert(plan@.groups =~= keep_groups(views, platform, dir@));
        assert(plan@.list =~= Seq::empty());
        assert(plan@.failures =~= Seq::empty());
    }
    Ok(plan)
}

/// What tidying needs next.
pub enum DirStep {
    /// Work on the disk, to be answered in `seen`.
    Act(Action),
    /// Nothing is needed; go on.
    Continue,
    /// The operation ends here with a message.
    Abort(String),
    Done,
}

pub enum DirStepView {
    Act(ActionView),
    Continue,
    Abort(Seq<char>),
    Done,
}

impl View for DirStep {
    type V = DirStepView;

    open spec fn view(&self) -> DirStepView {
        match *self {
            DirStep::Act(action) => DirStepView::Act(action@),
            DirStep::Continue => DirStepView::Continue,
            DirStep::Abort(message) => DirStepView::Abort(message@),
            DirStep::Done => DirStepView::Done,
        }
    }
}

/// The next content is due.
pub open spec fn next_group(plan: DirKeepView) -> DirKeepView {
    DirKeepView { at: plan.at + 1, seen: actions::nothing_seen(), ..plan }
}

/// One turn of recycling below a directory.
pub open spec fn keep_turn(plan: DirKeepView, index: IndexView, platform: Platform, now: i64) -> (
    DirKeepView,
    IndexView,
    DirStepView,
) {
    if plan.at < plan.groups.len() {
        let group = plan.groups[plan.at];
        match group.keeper {
            None => (
                next_group(DirKeepView { list: plan.list + group.rest, ..plan }),
                index,
                DirStepView::Continue,
            ),
            Some((id, path, hash)) => match plan.seen.content_hash {
                None => (plan, index, DirStepView::Act(ActionView::Hash { path })),
                Some(Err(error)) => (plan, index, DirStepView::Abort(error@)),
                Some(Ok(actual)) => if actual@ != hash {
                    (
                        next_group(
                            DirKeepView {
                                failures: plan.failures.push(
                                    path + ": content no longer matches the index"@,
                                ),
                                ..plan
                            },
                        ),
                        index,
                        DirStepView::Continue,
                    )
                } else {
                    let current = DirKeepView {
                        seen: actions::timed(next_candidate(plan.seen), now),
                        ..plan
                    };
                    let (after, action) = place_step(
                        index,
                        platform,
                        id,
                        path,
                        plan.keep_dir,
                        hash,
                        current.seen,
                        actions::begun(plan.seen, now),
                    );
                    match action {
                        ActionView::Finished { result: Err(error) } => (
                            next_group(
                                DirKeepView {
                                    failures: plan.failures.push(path + ": "@ + error),
                                    ..current
                                },
                            ),
                            after,
                            DirStepView::Continue,
                        ),
                        ActionView::Finished { result: Ok(_) } => (
                            next_group(
                                DirKeepView {
                                    moved: plan.moved + 1,
                                    list: plan.list + group.rest,
                                    ..current
                                },
                            ),
                            after,
                            DirStepView::Continue,
                        ),
                        other => (current, after, DirStepView::Act(other)),
                    }
                },
            },
        }
    } else if plan.next < plan.list.len() {
        let path = plan.list[plan.next];
        let current = DirKeepView { seen: actions::timed(plan.seen, now), ..plan };
        let (after, action) = removal::remove_path_step(
            index,
            platform,
            path,
            true,
            current.seen,
            actions::begun(plan.seen, now),
            Some(plan.batch_id),
        );
        let settled = DirKeepView { next: plan.next + 1, seen: actions::nothing_seen(), ..plan };
        match action {
            ActionView::Finished { result: Err(error) } => (
                DirKeepView { failures: plan.failures.push(path + ": "@ + error), ..settled },
                after,
                DirStepView::Continue,
            ),
            ActionView::Finished { result: Ok(_) } => (
                DirKeepView { recycled: plan.recycled + 1, ..settled },
                after,
                DirStepView::Continue,
            ),
            other => (current, after, DirStepView::Act(other)),
        }
    } else {
        (plan, index, DirStepView::Done)
    }
}

pub(crate) fn colon(path: &str, error: &str) -> (message: String)
    ensures
        message@ == path@ + ": "@ + error@,
{
    let head = joined(path, ": ");
    joined(head.as_str(), error)
}

fn append_texts(list: &mut Vec<String>, more: &Vec<String>)
    ensures
        outside::texts(final(list)@) == outside::texts(old(list)@) + outside::texts(more@),
        final(list)@.len() == old(list)@.len() + more@.len(),
{
    let ghost start = outside::texts(list@);
    let ghost added = outside::texts(more@);
    proof {
        assert(start + added.take(0) =~= start);
        assert(start.len() == list@.len());
    }
    for i in 0..more.len()
        invariant
            added == outside::texts(more@),
            outside::texts(list@) == start + added.take(i as int),
            list@.len() == start.len() + i,
    {
        let ghost before = list@;
        list.push(more[i].clone());
        proof {
            assert(outside::texts(list@) =~= outside::texts(before).push(added[i as int]));
            assert(start + added.take(i + 1) =~= (start + added.take(i as int)).push(
                added[i as int],
            ));
        }
    }
    proof {
        assert(added.take(added.len() as int) =~= added);
    }
}

impl DirKeep {
    pub open spec fn wf(self) -> bool {
        self.outcome.moved <= self.at <= self.groups@.len() && self.outcome.recycled <= self.next
            <= self.list@.len()
    }

    /// One turn: work on the current file until the disk is needed or the
    /// file is settled. A file is worked on under the time of its first turn.
    pub fn turn(&mut self, index: &mut Index, platform: Platform, now: i64) -> (step: DirStep)
        requires
            old(self).wf(),
            old(index).wf(),
        ensures
            final(self).wf(),
            final(index).wf(),
            (final(self)@, final(index)@, step@) == keep_turn(
                old(self)@,
                old(index)@,
                platform,
                now,
            ),
    {
        let ghost start = self@;
        proof {
            assert(start.groups.len() == self.groups@.len());
            assert(start.list.len() == self.list@.len());
        }
        let groups = self.groups.len();
        let paths = self.list.len();
        if self.at < groups {
            proof {
                assert(start.groups[self.at as int] == self.groups@[self.at as int]@);
            }
            match &self.groups[self.at].keeper {
                None => {
                    append_texts(&mut self.list, &self.groups[self.at].rest);
                    self.at = self.at + 1;
                    self.seen = Seen::new();
                    DirStep::Continue
                },
                Some((id, path, hash)) => {
                    let id: i64 = *id;
                    let path = path.clone();
                    let hash = hash.clone();
                    match &self.seen.content_hash {
                        None => return DirStep::Act(Action::Hash { path }),
                        Some(Err(error)) => return DirStep::Abort(error.clone()),
                        Some(Ok(actual)) => {
                            if !same_text(actual.as_str(), hash.as_str()) {
                                let message = joined(
                                    path.as_str(),
                                    ": content no longer matches the index",
                                );
                                push_text(&mut self.outcome.failures, message);
                                self.at = self.at + 1;
                                self.seen = Seen::new();
                                return DirStep::Continue;
                            }
                        },
                    }
                    advance_candidate(&mut self.seen);
                    let began: i64 = hold_time(&mut self.seen, now);
                    let action = move_indexed_file_to(
                        index,
                        platform,
                        id,
                        path.as_str(),
                        self.keep_dir.as_str(),
                        hash.as_str(),
                        &self.seen,
                        began,
                    );
                    match action {
                        Action::Finished { result } => {
                            match result {
                                Err(error) => {
                                    push_text(
                                        &mut self.outcome.failures,
                                        colon(path.as_str(), error.as_str()),
                                    );
                                },
                                Ok(_) => {
                                    self.outcome.moved = self.outcome.moved + 1;
                                    append_texts(&mut self.list, &self.groups[self.at].rest);
                                },
                            }
                            self.at = self.at + 1;
                            self.seen = Seen::new();
                            DirStep::Continue
                        },
                        other => DirStep::Act(other),
                    }
                },
            }
        } else if self.next < paths {
            let path = self.list[self.next].clone();
            proof {
                assert(start.list[self.next as int] == path@);
            }
            let began: i64 = hold_time(&mut self.seen, now);
            let action = remove_indexed_path(
                index,
                platform,
                path.as_str(),
                true,
                &self.seen,
                began,
                Some(self.batch_id),
            );
            match action {
                Action::Finished { result } => {
                    match result {
                        Err(error) => {
                            push_text(
                                &mut self.outcome.failures,
                                colon(path.as_str(), error.as_str()),
                            );
                        },
                        Ok(_) => {
                            self.outcome.recycled = self.outcome.recycled + 1;
                        },
                    }
                    self.next = self.next + 1;
                    self.seen = Seen::new();
                    DirStep::Continue
                },
                other => DirStep::Act(other),
            }
        } else {
            DirStep::Done
        }
    }
}

pub(crate) fn push_text(list: &mut Vec<String>, value: String)
    ensures
        outside::texts(final(list)@) == outside::texts(old(list)@).push(value@),
        final(list)@.len() == old(list)@.len() + 1,
{
    let ghost before = list@;
    list.push(value);
    proof {
        assert(outside::texts(list@) =~= outside::texts(before).push(value@));
    }
}

// ---------------------------------------------------------------------------
// Laws of recycling below a directory
// ---------------------------------------------------------------------------

proof fn lemma_rows_below(
    files: Seq<FileView>,
    platform: Platform,
    directory: Seq<char>,
    list: Seq<int>,
)
    ensures
        forall|k: int|
            0 <= k < rows_below(files, platform, directory, list).len() ==> list.contains(
                #[trigger] rows_below(files, platform, directory, list)[k],
            ) && paths::lies_under(
                platform,
                files[rows_below(files, platform, directory, list)[k]].path,
                directory,
            ),
        rows_below(files, platform, directory, list).len() <= list.len(),
        rows_below(files, platform, directory, list).len() == list.len() ==> rows_below(
            files,
            platform,
            directory,
            list,
        ) == list,
        list.no_duplicates() ==> rows_below(files, platform, directory, list).no_duplicates(),
        rows_below(files, platform, directory, list).len() < list.len() ==> exists|k: int|
            0 <= k < list.len() && !paths::lies_under(
                platform,
                files[#[trigger] list[k]].path,
                directory,
            ),
    decreases list.len(),
{
    if list.len() > 0 {
        let front = list.drop_last();
        lemma_rows_below(files, platform, directory, front);
        let before = rows_below(files, platform, directory, front);
        let out = rows_below(files, platform, directory, list);
        let last = list.last();
        assert(list[list.len() - 1] == last);
        assert(front.push(last) =~= list);
        assert forall|k: int| 0 <= k < before.len() implies list.contains(#[trigger] before[k]) by {
            assert(front.contains(before[k]));
            let m = choose|m: int| 0 <= m < front.len() && front[m] == before[k];
            assert(list[m] == before[k]);
        }
        if paths::lies_under(platform, files[last].path, directory) {
            assert(out =~= before.push(last));
            assert forall|k: int| 0 <= k < out.len() implies list.contains(#[trigger] out[k])
                && paths::lies_under(platform, files[out[k]].path, directory) by {
                if k < before.len() {
                    assert(out[k] == before[k]);
                }
            }
            if before.len() < front.len() {
                let k = choose|k: int|
                    0 <= k < front.len() && !paths::lies_under(
                        platform,
                        files[#[trigger] front[k]].path,
                        directory,
                    );
                assert(list[k] == front[k]);
            }
            if list.no_duplicates() {
                assert forall|i: int, j: int|
                    0 <= i < front.len() && 0 <= j < front.len() && i != j implies front[i]
                    != front[j] by {
                    assert(list[i] != list[j]);
                }
                assert forall|i: int| 0 <= i < before.len() implies before[i] != last by {
                    assert(front.contains(before[i]));
                    let m = choose|m: int| 0 <= m < front.len() && front[m] == before[i];
                    assert(list[m] != list[list.len() - 1]);
                }
            }
        } else {
            assert(out == before);
            if list.no_duplicates() {
                assert forall|i: int, j: int|
                    0 <= i < front.len() && 0 <= j < front.len() && i != j implies front[i]
                    != front[j] by {
                    assert(list[i] != list[j]);
                }
            }
        }
    }
}

proof fn lemma_shortest(files: Seq<FileView>, list: Seq<int>, n: nat)
    requires
        n >= 1,
    ensures
        0 <= shortest(files, list, n) < n,
    decreases n,
{
    if n > 1 {
        lemma_shortest(files, list, (n - 1) as nat);
    }
}

/// Recycling below a directory spares at least one live copy of every content
/// it touches, and no protected file is on its list.
pub proof fn law_keep_one_spares_a_copy(
    index: IndexView,
    platform: Platform,
    directory: Seq<char>,
    lead: int,
)
    requires
        index.wf(),
        0 <= lead < index.files.len(),
        contents::leads(index.files, lead),
        rows_below(
            index.files,
            platform,
            directory,
            contents::members(index.files, lead),
        ).len() > 0,
    ensures
        ({
            let files = index.files;
            let group = keep_group(files, platform, directory, lead);
            &&& exists|q: int|
                0 <= q < files.len() && #[trigger] contents::belongs(files, lead, q)
                    && !group.rest.contains(files[q].path) && match group.keeper {
                    Some((id, _, _)) => files[q].id == id,
                    None => true,
                }
            &&& forall|p: int|
                0 <= p < files.len() && (#[trigger] files[p]).protected ==> !group.rest.contains(
                    files[p].path,
                )
        }),
{
    let files = index.files;
    let all = contents::members(files, lead);
    let below = rows_below(files, platform, directory, all);
    let doomed = review::unprotected(files, below);
    let group = keep_group(files, platform, directory, lead);
    contents::lemma_members(files, lead);
    assert(all.no_duplicates());
    lemma_rows_below(files, platform, directory, all);
    review::lemma_unprotected(files, below);
    // The rows that go are rows of the group, unprotected, below the directory.
    assert forall|k: int| 0 <= k < doomed.len() implies 0 <= #[trigger] doomed[k] < files.len()
        && contents::belongs(files, lead, doomed[k]) && !files[doomed[k]].protected
        && paths::lies_under(platform, files[doomed[k]].path, directory) by {
        assert(below.contains(doomed[k]));
        let m = choose|m: int| 0 <= m < below.len() && below[m] == doomed[k];
        assert(all.contains(below[m]));
        let n = choose|n: int| 0 <= n < all.len() && all[n] == below[m];
        assert(contents::belongs(files, lead, all[n]));
    }
    let rows = if group.keeper is Some {
        doomed.remove(shortest(files, doomed, doomed.len()))
    } else {
        doomed
    };
    if !survives(files, all, below) {
        lemma_doomed_not_empty(files, all, below);
        lemma_shortest(files, doomed, doomed.len());
    }
    assert forall|k: int| 0 <= k < rows.len() implies doomed.contains(#[trigger] rows[k]) by {
        if group.keeper is Some {
            let s = shortest(files, doomed, doomed.len());
            let n = if k < s {
                k
            } else {
                k + 1
            };
            assert(rows[k] == doomed[n]);
        }
    }
    // A path on the list is the path of one of these rows.
    assert forall|p: int|
        0 <= p < files.len() && group.rest.contains((#[trigger] files[p]).path) implies rows.contains(
    p) by {
        let k = choose|k: int| 0 <= k < group.rest.len() && group.rest[k] == files[p].path;
        assert(files[rows[k]].path == files[p].path);
        assert(doomed.contains(rows[k]));
        let n = choose|n: int| 0 <= n < doomed.len() && doomed[n] == rows[k];
        assert(0 <= doomed[n] < files.len());
        if rows[k] < p {
            assert(files[rows[k]].path != files[p].path);
        } else if p < rows[k] {
            assert(files[p].path != files[rows[k]].path);
        }
    }
    assert forall|p: int| 0 <= p < files.len() && (#[trigger] files[p]).protected implies !group.rest.contains(
    files[p].path) by {
        if group.rest.contains(files[p].path) {
            assert(rows.contains(p));
            let k = choose|k: int| 0 <= k < rows.len() && rows[k] == p;
            assert(doomed.contains(rows[k]));
            let n = choose|n: int| 0 <= n < doomed.len() && doomed[n] == rows[k];
            assert(!files[doomed[n]].protected);
        }
    }
    if group.keeper is Some {
        let s = shortest(files, doomed, doomed.len());
        let q = doomed[s];
        assert(doomed.no_duplicates());
        if group.rest.contains(files[q].path) {
            assert(rows.contains(q));
            let k = choose|k: int| 0 <= k < rows.len() && rows[k] == q;
            let n = if k < s {
                k
            } else {
                k + 1
            };
            assert(rows[k] == doomed[n]);
            assert(doomed[n] != doomed[s]);
        }
        assert(contents::belongs(files, lead, q));
    } else if below.len() < all.len() {
        let k = choose|k: int|
            0 <= k < all.len() && !paths::lies_under(
                platform,
                files[#[trigger] all[k]].path,
                directory,
            );
        let q = all[k];
        if group.rest.contains(files[q].path) {
            assert(rows.contains(q));
            let m = choose|m: int| 0 <= m < rows.len() && rows[m] == q;
            assert(doomed.contains(rows[m]));
            let n = choose|n: int| 0 <= n < doomed.len() && doomed[n] == rows[m];
            assert(paths::lies_under(platform, files[doomed[n]].path, directory));
        }
        assert(contents::belongs(files, lead, q));
    } else {
        let k = choose|k: int| 0 <= k < below.len() && files[#[trigger] below[k]].protected;
        let q = below[k];
        assert(all.contains(q));
        let n = choose|n: int| 0 <= n < all.len() && all[n] == q;
        assert(contents::belongs(files, lead, all[n]));
    }
}

/// The copies of a content without a survivor are put on the list only after
/// its keeper has moved: until then the list does not grow.
pub proof fn law_rest_waits_for_the_keeper(
    plan: DirKeepView,
    index: IndexView,
    platform: Platform,
    now: i64,
)
    requires
        0 <= plan.at < plan.groups.len(),
        plan.groups[plan.at].keeper is Some,
    ensures
        ({
            let (after, _, _) = keep_turn(plan, index, platform, now);
            after.list != plan.list ==> after.moved == plan.moved + 1 && after.list == plan.list
                + plan.groups[plan.at].rest
        }),
{
}

// ---------------------------------------------------------------------------
// A whole run of recycling below a directory
// ---------------------------------------------------------------------------

/// Recycling below a directory, driven by what the disk answers: each turn
/// sees the next answers, at the time that comes with them.
pub open spec fn kept(
    plan: DirKeepView,
    index: IndexView,
    platform: Platform,
    answers: Seq<(Seen, i64)>,
) -> (DirKeepView, IndexView)
    decreases answers.len(),
{
    if answers.len() == 0 {
        (plan, index)
    } else {
        let (stopped, before) = kept(plan, index, platform, answers.drop_last());
        let (seen, now) = answers.last();
        let (next, after, _) = keep_turn(DirKeepView { seen, ..stopped }, before, platform, now);
        (next, after)
    }
}

/// Some content lists the path for recycling.
pub open spec fn goes(groups: Seq<KeepGroupView>, path: Seq<char>) -> bool {
    exists|g: int| 0 <= g < groups.len() && (#[trigger] groups[g]).rest.contains(path)
}

/// Some content keeps the row with this id.
pub open spec fn keeps(groups: Seq<KeepGroupView>, id: i64) -> bool {
    exists|g: int|
        0 <= g < groups.len() && match (#[trigger] groups[g]).keeper {
            Some((keeper, _, _)) => keeper == id,
            None => false,
        }
}

/// The path is that of a name in the directory.
pub open spec fn placed_in(platform: Platform, directory: Seq<char>, path: Seq<char>) -> bool {
    exists|name: Seq<char>| path == #[trigger] paths::inside(platform, directory, name)
}

/// What may become of a live row: a keeper changes its path alone, a copy on
/// the list is retired where it stands, and any other row stays as it is.
pub open spec fn row_kept(
    groups: Seq<KeepGroupView>,
    platform: Platform,
    keep_dir: Seq<char>,
    before: FileView,
    after: FileView,
) -> bool {
    if keeps(groups, before.id) {
        &&& after == (FileView { path: after.path, ..before })
        &&& after.path == before.path || placed_in(platform, keep_dir, after.path)
    } else {
        ||| after == before
        ||| goes(groups, before.path) && after.path == before.path && !after.present
    }
}

/// What may become of an absent row: only its path changes, and only where it
/// holds a path in the keep directory, which a keeper then takes.
pub open spec fn absent_kept(
    platform: Platform,
    keep_dir: Seq<char>,
    before: FileView,
    after: FileView,
) -> bool {
    ||| after == before
    ||| placed_in(platform, keep_dir, before.path) && after == (FileView {
        path: after.path,
        ..before
    })
}

/// What holds of the files at every point of a run.
pub open spec fn kept_so_far(
    before: Seq<FileView>,
    groups: Seq<KeepGroupView>,
    platform: Platform,
    plan: DirKeepView,
    files: Seq<FileView>,
) -> bool {
    &&& plan.groups == groups
    &&& 0 <= plan.at <= groups.len()
    &&& 0 <= plan.next <= plan.list.len()
    &&& forall|k: int| 0 <= k < plan.list.len() ==> goes(groups, #[trigger] plan.list[k])
    &&& files.len() == before.len()
    &&& model::paths_unique(files)
    &&& forall|p: int| 0 <= p < files.len() ==> (#[trigger] files[p]).id == before[p].id
    &&& forall|p: int|
        0 <= p < files.len() && !before[p].present ==> absent_kept(
            platform,
            plan.keep_dir,
            before[p],
            #[trigger] files[p],
        )
    &&& forall|p: int|
        0 <= p < files.len() && before[p].present ==> row_kept(
            groups,
            platform,
            plan.keep_dir,
            before[p],
            #[trigger] files[p],
        )
    &&& plan.at < groups.len() ==> forall|p: int|
        0 <= p < files.len() && before[p].present ==> (#[trigger] files[p]).present
}

/// The row is a live, unprotected copy below the directory of the content
/// that `lead` stands for.
pub open spec fn may_go(
    files: Seq<FileView>,
    platform: Platform,
    directory: Seq<char>,
    lead: int,
    r: int,
) -> bool {
    &&& 0 <= r < files.len()
    &&& contents::belongs(files, lead, r)
    &&& !files[r].protected
    &&& paths::lies_under(platform, files[r].path, directory)
}

/// The keeper and the listed copies of a content are different rows that may
/// go.
proof fn lemma_keep_group(
    files: Seq<FileView>,
    platform: Platform,
    directory: Seq<char>,
    lead: int,
)
    requires
        model::ids_ascending(files),
        0 <= lead < files.len(),
        contents::leads(files, lead),
        rows_below(files, platform, directory, contents::members(files, lead)).len() > 0,
    ensures
        ({
            let group = keep_group(files, platform, directory, lead);
            &&& forall|path: Seq<char>| #[trigger]
                group.rest.contains(path) ==> exists|r: int|
                    {
                        &&& #[trigger] may_go(files, platform, directory, lead, r)
                        &&& files[r].path == path
                        &&& match group.keeper {
                            Some((id, _, _)) => files[r].id != id,
                            None => true,
                        }
                    }
            &&& match group.keeper {
                Some((id, path, _)) => exists|r: int| #[trigger]
                    may_go(files, platform, directory, lead, r) && files[r].id == id
                        && files[r].path == path,
                None => true,
            }
        }),
{
    let all = contents::members(files, lead);
    let below = rows_below(files, platform, directory, all);
    let doomed = review::unprotected(files, below);
    let group = keep_group(files, platform, directory, lead);
    contents::lemma_members(files, lead);
    assert(all.no_duplicates());
    lemma_rows_below(files, platform, directory, all);
    review::lemma_unprotected(files, below);
    assert forall|k: int| 0 <= k < doomed.len() implies may_go(
        files,
        platform,
        directory,
        lead,
        #[trigger] doomed[k],
    ) by {
        assert(below.contains(doomed[k]));
        let m = choose|m: int| 0 <= m < below.len() && below[m] == doomed[k];
        assert(all.contains(below[m]));
        let n = choose|n: int| 0 <= n < all.len() && all[n] == below[m];
        assert(contents::belongs(files, lead, all[n]));
    }
    let s = shortest(files, doomed, doomed.len());
    if !survives(files, all, below) {
        lemma_doomed_not_empty(files, all, below);
        lemma_shortest(files, doomed, doomed.len());
        assert(may_go(files, platform, directory, lead, doomed[s]));
    }
    assert forall|path: Seq<char>| #[trigger] group.rest.contains(path) implies exists|r: int|
        {
            &&& #[trigger] may_go(files, platform, directory, lead, r)
            &&& files[r].path == path
            &&& match group.keeper {
                Some((id, _, _)) => files[r].id != id,
                None => true,
            }
        } by {
        let k = choose|k: int| 0 <= k < group.rest.len() && group.rest[k] == path;
        if survives(files, all, below) {
            assert(may_go(files, platform, directory, lead, doomed[k]));
        } else {
            let n = if k < s {
                k
            } else {
                k + 1
            };
            let r = doomed[n];
            assert(doomed.remove(s)[k] == r);
            assert(may_go(files, platform, directory, lead, r));
            assert(r != doomed[s]);
            if r < doomed[s] {
                assert(files[r].id < files[doomed[s]].id);
            } else {
                assert(files[doomed[s]].id < files[r].id);
            }
        }
    }
}

/// One row stands for a content.
proof fn lemma_one_lead(files: Seq<FileView>, a: int, b: int, q: int)
    requires
        0 <= a < files.len(),
        0 <= b < files.len(),
        contents::leads(files, a),
        contents::leads(files, b),
        contents::belongs(files, a, q),
        contents::belongs(files, b, q),
    ensures
        a == b,
{
    if a < b {
        assert(contents::belongs(files, b, a));
    } else if b < a {
        assert(contents::belongs(files, a, b));
    }
}

/// The content behind each part of the plan.
proof fn lemma_touched(
    files: Seq<FileView>,
    platform: Platform,
    directory: Seq<char>,
    g: int,
)
    requires
        0 <= g < keep_groups(files, platform, directory).len(),
    ensures
        ({
            let lead = touched(files, platform, directory)[g];
            &&& 0 <= lead < files.len()
            &&& contents::leads(files, lead)
            &&& contents::members(files, lead).len() > 1
            &&& rows_below(files, platform, directory, contents::members(files, lead)).len() > 0
            &&& keep_groups(files, platform, directory)[g] == keep_group(
                files,
                platform,
                directory,
                lead,
            )
        }),
{
    let keep = |p: int|
        contents::leads(files, p) && contents::members(files, p).len() > 1 && rows_below(
            files,
            platform,
            directory,
            contents::members(files, p),
        ).len() > 0;
    lists::lemma_positions(files.len(), keep);
    assert(touched(files, platform, directory) == lists::positions(files.len(), keep));
    assert(keep(touched(files, platform, directory)[g]));
}

/// A listed path is that of a live, unprotected row below the directory that
/// no content keeps.
proof fn lemma_goes(
    files: Seq<FileView>,
    platform: Platform,
    directory: Seq<char>,
    path: Seq<char>,
) -> (r: int)
    requires
        model::ids_ascending(files),
        goes(keep_groups(files, platform, directory), path),
    ensures
        0 <= r < files.len(),
        files[r].path == path,
        files[r].present,
        !files[r].protected,
        paths::lies_under(platform, path, directory),
        !keeps(keep_groups(files, platform, directory), files[r].id),
{
    let groups = keep_groups(files, platform, directory);
    let g = choose|g: int| 0 <= g < groups.len() && (#[trigger] groups[g]).rest.contains(path);
    let lead = touched(files, platform, directory)[g];
    lemma_touched(files, platform, directory, g);
    lemma_keep_group(files, platform, directory, lead);
    let r = choose|r: int|
        {
            &&& #[trigger] may_go(files, platform, directory, lead, r)
            &&& files[r].path == path
            &&& match groups[g].keeper {
                Some((id, _, _)) => files[r].id != id,
                None => true,
            }
        };
    if keeps(groups, files[r].id) {
        let h = choose|h: int|
            0 <= h < groups.len() && match (#[trigger] groups[h]).keeper {
                Some((keeper, _, _)) => keeper == files[r].id,
                None => false,
            };
        let other = touched(files, platform, directory)[h];
        lemma_touched(files, platform, directory, h);
        lemma_keep_group(files, platform, directory, other);
        let q = choose|q: int| #[trigger]
            may_go(files, platform, directory, other, q) && files[q].id == files[r].id;
        model::lemma_at_id(files, r);
        model::lemma_at_id(files, q);
        assert(q == r);
        lemma_one_lead(files, lead, other, r);
    }
    r
}

/// A keeper is a live, unprotected row below the directory.
proof fn lemma_keeps(files: Seq<FileView>, platform: Platform, directory: Seq<char>, r: int)
    requires
        model::ids_ascending(files),
        0 <= r < files.len(),
        keeps(keep_groups(files, platform, directory), files[r].id),
    ensures
        files[r].present,
        !files[r].protected,
        paths::lies_under(platform, files[r].path, directory),
{
    let groups = keep_groups(files, platform, directory);
    let h = choose|h: int|
        0 <= h < groups.len() && match (#[trigger] groups[h]).keeper {
            Some((keeper, _, _)) => keeper == files[r].id,
            None => false,
        };
    let lead = touched(files, platform, directory)[h];
    lemma_touched(files, platform, directory, h);
    lemma_keep_group(files, platform, directory, lead);
    let q = choose|q: int| #[trigger]
        may_go(files, platform, directory, lead, q) && files[q].id == files[r].id;
    model::lemma_at_id(files, r);
    model::lemma_at_id(files, q);
}

/// Placing a row changes its path, and beyond that at most the path of a dead
/// row.
pub(crate) proof fn lemma_placed_rows(
    index: IndexView,
    id: i64,
    source: Seq<char>,
    to: Seq<char>,
    hash: Seq<char>,
    now: i64,
)
    requires
        model::ids_ascending(index.files),
        model::paths_unique(index.files),
    ensures
        ({
            let after = placed(index, id, source, to, hash, now).0.files;
            &&& after.len() == index.files.len()
            &&& model::paths_unique(after)
            &&& forall|p: int|
                0 <= p < after.len() ==> {
                    let row = #[trigger] after[p];
                    &&& row == (FileView { path: row.path, ..index.files[p] })
                    &&& row.path == index.files[p].path || (!index.files[p].present
                        && index.files[p].path == to) || (index.files[p].id == id && row.path
                        == to)
                }
        }),
{
    let files = index.files;
    match indexing::set_aside(files, to, id, false) {
        Err(_) => {},
        Ok(free) => {
            assert forall|a: int, b: int| 0 <= a < b < free.len() implies (
            #[trigger] free[a]).path != (#[trigger] free[b]).path by {
                assert(files[a].path != files[b].path);
            }
            match model::at_id(free, id) {
                None => {},
                Some(i) => {
                    assert forall|k: int| 0 <= k < free.len() && k != i implies (
                    #[trigger] free[k]).path != to by {
                        if free[k].path == to {
                            model::lemma_at_path(files, k);
                            assert(files[k].path == to);
                            assert(files[k].id == id);
                            assert(files[i].id == id);
                            model::lemma_at_id(files, k);
                            model::lemma_at_id(files, i);
                        }
                    }
                    let moved = free.update(i, (FileView { path: to, ..free[i] }));
                    assert forall|a: int, b: int| 0 <= a < b < moved.len() implies (
                    #[trigger] moved[a]).path != (#[trigger] moved[b]).path by {
                        assert(free[a].path != free[b].path);
                        if a == i {
                            assert(free[b].path != to);
                        } else if b == i {
                            assert(free[a].path != to);
                        }
                    }
                },
            }
        },
    }
}

proof fn lemma_keep_turn(
    before: Seq<FileView>,
    directory: Seq<char>,
    plan: DirKeepView,
    index: IndexView,
    platform: Platform,
    now: i64,
)
    requires
        model::ids_ascending(before),
        model::paths_unique(before),
        kept_so_far(
            before,
            keep_groups(before, platform, directory),
            platform,
            plan,
            index.files,
        ),
    ensures
        ({
            let (next, after, _) = keep_turn(plan, index, platform, now);
            &&& next.keep_dir == plan.keep_dir
            &&& kept_so_far(
                before,
                keep_groups(before, platform, directory),
                platform,
                next,
                after.files,
            )
        }),
{
    let groups = keep_groups(before, platform, directory);
    let files = index.files;
    let (next, after, _) = keep_turn(plan, index, platform, now);
    assert(model::ids_ascending(files)) by {
        assert forall|i: int, j: int| 0 <= i < j < files.len() implies (#[trigger] files[i]).id
            < (#[trigger] files[j]).id by {
            assert(before[i].id < before[j].id);
        }
    }
    if plan.at < groups.len() {
        let group = groups[plan.at];
        assert forall|k: int| 0 <= k < next.list.len() implies goes(
            groups,
            #[trigger] next.list[k],
        ) by {
            if k >= plan.list.len() {
                assert(group.rest.contains(group.rest[k - plan.list.len()]));
            } else {
                assert(goes(groups, plan.list[k]));
            }
        }
        match group.keeper {
            None => {},
            Some((id, path, hash)) => {
                assert(keeps(groups, id)) by {
                    assert(groups[plan.at].keeper == Some((id, path, hash)));
                }
                let seen = actions::timed(next_candidate(plan.seen), now);
                let began = actions::begun(plan.seen, now);
                if after != index {
                    let name = paths::file_name_of(platform, path)->0;
                    let to = paths::inside(
                        platform,
                        plan.keep_dir,
                        candidate_name(name, seen.taken as nat),
                    );
                    assert(after == placed(index, id, path, to, hash, began).0);
                    lemma_placed_rows(index, id, path, to, hash, began);
                    assert(placed_in(platform, plan.keep_dir, to));
                    assert forall|p: int| 0 <= p < files.len() && before[p].present implies row_kept(
                        groups,
                        platform,
                        plan.keep_dir,
                        before[p],
                        #[trigger] after.files[p],
                    ) && after.files[p].present by {
                        assert(files[p].present);
                        assert(row_kept(groups, platform, plan.keep_dir, before[p], files[p]));
                        if after.files[p].path == files[p].path {
                            assert(after.files[p] == files[p]);
                        } else {
                            assert(before[p].id == id);
                        }
                    }
                    assert forall|p: int| 0 <= p < files.len() && !before[p].present implies absent_kept(
                        platform,
                        plan.keep_dir,
                        before[p],
                        #[trigger] after.files[p],
                    ) by {
                        assert(absent_kept(platform, plan.keep_dir, before[p], files[p]));
                        if before[p].id == id {
                            lemma_keeps(before, platform, directory, p);
                        }
                    }
                    assert forall|p: int| 0 <= p < files.len() implies (
                    #[trigger] after.files[p]).id == before[p].id by {
                        assert(files[p].id == before[p].id);
                    }
                }
            },
        }
    } else if plan.next < plan.list.len() {
        let path = plan.list[plan.next];
        assert(goes(groups, path));
        let r = lemma_goes(before, platform, directory, path);
        assert(row_kept(groups, platform, plan.keep_dir, before[r], files[r]));
        assert(files[r].path == path);
        model::lemma_at_path(files, r);
        if after.files != files {
            let gone = FileView { present: false, approved: false, ..files[r] };
            assert(after.files == files.update(r, gone));
            assert forall|a: int, b: int| 0 <= a < b < files.len() implies (
            #[trigger] after.files[a]).path != (#[trigger] after.files[b]).path by {
                assert(files[a].path != files[b].path);
            }
            assert forall|p: int| 0 <= p < files.len() && before[p].present implies row_kept(
                groups,
                platform,
                plan.keep_dir,
                before[p],
                #[trigger] after.files[p],
            ) by {
                assert(row_kept(groups, platform, plan.keep_dir, before[p], files[p]));
            }
        }
    }
}

/// A run starts from the files as they are.
proof fn lemma_start_kept(
    files: Seq<FileView>,
    groups: Seq<KeepGroupView>,
    platform: Platform,
    plan: DirKeepView,
)
    requires
        model::paths_unique(files),
        plan.groups == groups,
        plan.at == 0,
        plan.next == 0,
        plan.list.len() == 0,
    ensures
        kept_so_far(files, groups, platform, plan, files),
{
    assert forall|p: int| 0 <= p < files.len() && files[p].present implies row_kept(
        groups,
        platform,
        plan.keep_dir,
        files[p],
        #[trigger] files[p],
    ) by {
        assert(files[p] == (FileView { path: files[p].path, ..files[p] }));
    }
}

proof fn lemma_kept(
    before: IndexView,
    directory: Seq<char>,
    plan: DirKeepView,
    platform: Platform,
    answers: Seq<(Seen, i64)>,
)
    requires
        before.wf(),
        kept_so_far(
            before.files,
            keep_groups(before.files, platform, directory),
            platform,
            plan,
            before.files,
        ),
    ensures
        ({
            let (end, after) = kept(plan, before, platform, answers);
            &&& end.keep_dir == plan.keep_dir
            &&& kept_so_far(
                before.files,
                keep_groups(before.files, platform, directory),
                platform,
                end,
                after.files,
            )
        }),
    decreases answers.len(),
{
    if answers.len() > 0 {
        lemma_kept(before, directory, plan, platform, answers.drop_last());
        let (stopped, index) = kept(plan, before, platform, answers.drop_last());
        let (seen, now) = answers.last();
        lemma_keep_turn(
            before.files,
            directory,
            DirKeepView { seen, ..stopped },
            index,
            platform,
            now,
        );
    }
}

/// A row whose path no content lists, and whose content is that of `p`.
proof fn lemma_survivor(index: IndexView, platform: Platform, directory: Seq<char>, p: int) -> (q:
    int)
    requires
        index.wf(),
        0 <= p < index.files.len(),
        index.files[p].present,
    ensures
        0 <= q < index.files.len(),
        contents::belongs(index.files, p, q),
        !goes(keep_groups(index.files, platform, directory), index.files[q].path),
{
    let files = index.files;
    let groups = keep_groups(files, platform, directory);
    contents::lemma_members(files, p);
    let all = contents::members(files, p);
    let lead = all[0];
    assert(contents::belongs(files, p, lead));
    let below = rows_below(files, platform, directory, all);
    let group = keep_group(files, platform, directory, lead);
    let q = if all.len() > 1 && below.len() > 0 {
        law_keep_one_spares_a_copy(index, platform, directory, lead);
        choose|q: int|
            0 <= q < files.len() && #[trigger] contents::belongs(files, lead, q)
                && !group.rest.contains(files[q].path) && match group.keeper {
                Some((id, _, _)) => files[q].id == id,
                None => true,
            }
    } else {
        p
    };
    assert(contents::belongs(files, lead, q));
    if goes(groups, files[q].path) {
        let g = choose|g: int|
            0 <= g < groups.len() && (#[trigger] groups[g]).rest.contains(files[q].path);
        let other = touched(files, platform, directory)[g];
        lemma_touched(files, platform, directory, g);
        lemma_keep_group(files, platform, directory, other);
        let r = choose|r: int| #[trigger]
            may_go(files, platform, directory, other, r) && files[r].path == files[q].path;
        model::lemma_at_path(files, r);
        model::lemma_at_path(files, q);
        assert(r == q);
        lemma_one_lead(files, lead, other, q);
    }
    q
}

/// Over a whole run of recycling below a directory, and whatever the disk
/// answers, every content that had a live row keeps one. Protected rows, live
/// rows outside the directory and absent rows stay as they are, but for the
/// path of an absent row that a keeper takes over; no row comes back to life,
/// and a row that is still live has kept its content.
pub proof fn law_one_copy_of_each_content_stays(
    index: IndexView,
    platform: Platform,
    directory: Seq<char>,
    keep_dir: Seq<char>,
    batch_id: i64,
    answers: Seq<(Seen, i64)>,
)
    requires
        index.wf(),
        keep_planned(index, platform, directory, keep_dir, batch_id) is Ok,
    ensures
        ({
            let plan = keep_planned(index, platform, directory, keep_dir, batch_id)->Ok_0;
            let after = kept(plan, index, platform, answers).1.files;
            &&& after.len() == index.files.len()
            &&& forall|hash: Seq<char>, size: i64|
                model::copies(index.files, hash, size) > 0 ==> #[trigger] model::copies(
                    after,
                    hash,
                    size,
                ) > 0
            &&& forall|p: int|
                0 <= p < after.len() && index.files[p].present && (index.files[p].protected
                    || !paths::lies_under(platform, index.files[p].path, directory))
                    ==> #[trigger] after[p] == index.files[p]
            &&& forall|p: int|
                0 <= p < after.len() && !index.files[p].present && !placed_in(
                    platform,
                    keep_dir,
                    index.files[p].path,
                ) ==> #[trigger] after[p] == index.files[p]
            &&& forall|p: int|
                0 <= p < after.len() && !index.files[p].present ==> #[trigger] after[p] == (
                FileView { path: after[p].path, ..index.files[p] })
            &&& forall|p: int|
                0 <= p < after.len() && (#[trigger] after[p]).present ==> index.files[p].present
                    && after[p] == (FileView { path: after[p].path, ..index.files[p] }) && (
                after[p].path == index.files[p].path || placed_in(
                    platform,
                    keep_dir,
                    after[p].path,
                ))
        }),
{
    let files = index.files;
    let groups = keep_groups(files, platform, directory);
    let plan = keep_planned(index, platform, directory, keep_dir, batch_id)->Ok_0;
    let after = kept(plan, index, platform, answers).1.files;
    lemma_start_kept(files, groups, platform, plan);
    lemma_kept(index, directory, plan, platform, answers);
    assert forall|hash: Seq<char>, size: i64|
        model::copies(files, hash, size) > 0 implies #[trigger] model::copies(after, hash, size)
        > 0 by {
        model::lemma_copies_positive(files, hash, size);
        model::lemma_copies_positive(after, hash, size);
        let p = choose|p: int|
            0 <= p < files.len() && model::is_copy(#[trigger] files[p], hash, size);
        let q = lemma_survivor(index, platform, directory, p);
        assert(row_kept(groups, platform, keep_dir, files[q], after[q]));
        assert(model::is_copy(after[q], hash, size));
    }
    assert forall|p: int|
        0 <= p < after.len() && files[p].present && (files[p].protected || !paths::lies_under(
            platform,
            files[p].path,
            directory,
        )) implies #[trigger] after[p] == files[p] by {
        assert(row_kept(groups, platform, keep_dir, files[p], after[p]));
        if keeps(groups, files[p].id) {
            lemma_keeps(files, platform, directory, p);
        } else if goes(groups, files[p].path) {
            let r = lemma_goes(files, platform, directory, files[p].path);
            model::lemma_at_path(files, r);
            model::lemma_at_path(files, p);
        }
    }
}

/// The path is that of a live, unprotected row below the directory.
pub open spec fn is_removable_below(
    files: Seq<FileView>,
    platform: Platform,
    directory: Seq<char>,
    path: Seq<char>,
) -> bool {
    exists|r: int|
        0 <= r < files.len() && (#[trigger] files[r]).path == path && files[r].present
            && !files[r].protected && paths::lies_under(platform, path, directory)
}

/// Whatever the disk has answered so far, a run of recycling below a
/// directory asks it only to look, to make room at a destination, and to move
/// live, unprotected files away from below the directory: protected files and
/// files elsewhere are not touched.
pub proof fn law_only_unprotected_files_below_are_moved(
    index: IndexView,
    platform: Platform,
    directory: Seq<char>,
    keep_dir: Seq<char>,
    batch_id: i64,
    answers: Seq<(Seen, i64)>,
    seen: Seen,
    now: i64,
)
    requires
        index.wf(),
        keep_planned(index, platform, directory, keep_dir, batch_id) is Ok,
    ensures
        ({
            let start = keep_planned(index, platform, directory, keep_dir, batch_id)->Ok_0;
            let (plan, current) = kept(start, index, platform, answers);
            let step = keep_turn(DirKeepView { seen, ..plan }, current, platform, now).2;
            step matches DirStepView::Act(action) ==> match action {
                ActionView::Hash { .. } => true,
                ActionView::Inspect { .. } => true,
                ActionView::Probe { .. } => true,
                ActionView::MakeParents { .. } => true,
                ActionView::Move { from, .. } => is_removable_below(
                    index.files,
                    platform,
                    directory,
                    from,
                ),
                _ => false,
            }
        }),
{
    let files = index.files;
    let groups = keep_groups(files, platform, directory);
    let start = keep_planned(index, platform, directory, keep_dir, batch_id)->Ok_0;
    let (plan, current) = kept(start, index, platform, answers);
    lemma_start_kept(files, groups, platform, start);
    lemma_kept(index, directory, start, platform, answers);
    if plan.at < groups.len() {
        match groups[plan.at].keeper {
            None => {},
            Some((id, path, _)) => {
                let lead = touched(files, platform, directory)[plan.at];
                lemma_touched(files, platform, directory, plan.at);
                lemma_keep_group(files, platform, directory, lead);
                let r = choose|r: int| #[trigger]
                    may_go(files, platform, directory, lead, r) && files[r].id == id
                        && files[r].path == path;
                assert(files[r].path == path);
                assert(is_removable_below(files, platform, directory, path));
            },
        }
    } else if plan.next < plan.list.len() {
        let path = plan.list[plan.next];
        assert(goes(groups, path));
        let r = lemma_goes(files, platform, directory, path);
        assert(files[r].path == path);
        assert(is_removable_below(files, platform, directory, path));
        match model::at_path(current.files, path) {
            None => {},
            Some(i) => {
                assert(current.files[i].path == path);
            },
        }
    }
}

} // verus!
