//! Removing copies: to the recycle bin, for good, or by linking the name to a
//! copy that stays. Each operation is a function of the index and of what the
//! disk has answered so far; it asks for the next piece of work or ends.
use crate::actions::{
    check_content, error_of, fail, finish, push_operation, recycle_destination, retire, Action,
    ActionView, Gate, Identity, Seen,
};
use crate::model::{
    count_copies, find_live, find_path, FileRow, FileView, Index, IndexView, OperationRow,
    OperationState, OperationView,
};
use crate::paths::{file_name, find_last_separator, Platform};
use crate::review::unknown_file_message;
use crate::settings::{ensure_initialized, setting_flag};
use crate::text::{chars_of, joined, same_chars, same_text, slice_of, string_of};
use crate::{actions, groups, lists, model, paths, review, settings};
use vstd::prelude::*;

verus! {

// ---------------------------------------------------------------------------
// What may be removed
// ---------------------------------------------------------------------------

pub open spec fn not_removable() -> Seq<char> {
    "file must be an approved, unprotected member of an exact duplicate group"@
}

/// The live row with this id, where it may be removed: approved, unprotected,
/// and with a live twin.
pub open spec fn removable(files: Seq<FileView>, id: i64) -> Result<int, Seq<char>> {
    match model::live_at(files, id) {
        None => Err(review::unknown_file(id)),
        Some(i) => if files[i].protected || !files[i].approved || !model::exact_duplicate(
            files,
            i,
        ) {
            Err(not_removable())
        } else {
            Ok(i)
        },
    }
}

fn find_removable(files: &Vec<FileRow>, id: i64) -> (found: Result<usize, String>)
    requires
        model::ids_ascending(model::file_rows(files@)),
    ensures
        match removable(model::file_rows(files@), id) {
            Ok(i) => found is Ok && found->Ok_0 == i && found->Ok_0 < files@.len(),
            Err(error) => found is Err && found->Err_0@ == error,
        },
{
    let i = match find_live(files, id) {
        None => return Err(unknown_file_message(id)),
        Some(i) => i,
    };
    proof {
        assert(model::file_rows(files@)[i as int] == files@[i as int]@);
    }
    if files[i].protected || !files[i].approved || count_copies(
        files,
        files[i].hash.as_str(),
        files[i].size,
    ) <= 1 {
        return Err(
            "file must be an approved, unprotected member of an exact duplicate group".to_string(),
        );
    }
    Ok(i)
}

/// Another live copy of the content of the row at `i`.
pub open spec fn is_twin(files: Seq<FileView>, i: int, j: int) -> bool {
    j != i && model::is_copy(files[j], files[i].hash, files[i].size)
}

/// The twins of the row at `i`, in id order.
pub open spec fn twins(files: Seq<FileView>, i: int) -> Seq<int> {
    lists::positions(files.len(), |j: int| is_twin(files, i, j))
}

/// The copy against which the strict check compares: the twin with the
/// smallest id.
pub open spec fn strict_twin(files: Seq<FileView>, i: int) -> Option<int> {
    if twins(files, i).len() > 0 {
        Some(twins(files, i)[0])
    } else {
        None
    }
}

fn find_twins(files: &Vec<FileRow>, i: usize) -> (list: Vec<usize>)
    requires
        i < files@.len(),
    ensures
        lists::ints(list@) == twins(model::file_rows(files@), i as int),
        forall|k: int| 0 <= k < list@.len() ==> (#[trigger] list@[k]) < files@.len(),
{
    let ghost views = model::file_rows(files@);
    let ghost keep = |j: int| is_twin(views, i as int, j);
    let hash = chars_of(files[i].hash.as_str());
    let size: i64 = files[i].size;
    let mut list: Vec<usize> = Vec::new();
    proof {
        assert(views[i as int] == files@[i as int]@);
    }
    for j in 0..files.len()
        invariant
            i < files@.len(),
            views == model::file_rows(files@),
            views[i as int] == files@[i as int]@,
            keep == (|j: int| is_twin(views, i as int, j)),
            hash@ == views[i as int].hash,
            size == views[i as int].size,
            lists::ints(list@) == lists::positions(j as nat, keep),
            forall|k: int| 0 <= k < list@.len() ==> (#[trigger] list@[k]) < files@.len(),
    {
        let ghost before = list@;
        proof {
            assert(views[j as int] == files@[j as int]@);
        }
        if j != i && files[j].present && files[j].size == size {
            let own = chars_of(files[j].hash.as_str());
            if same_chars(own.as_slice(), hash.as_slice()) {
                list.push(j);
                proof {
                    assert(lists::ints(list@) =~= lists::ints(before).push(j as int));
                }
            }
        }
    }
    list
}

/// With the strict check on, the file must equal a live twin byte by byte.
pub open spec fn strict_gate(index: IndexView, i: int, seen: Seen) -> Gate {
    if !settings::flag_of(index, "strict_verify"@, false) {
        Gate::Pass
    } else {
        match strict_twin(index.files, i) {
            None => Gate::Pass,
            Some(j) => match seen.same_bytes {
                None => Gate::Ask(
                    ActionView::Compare { left: index.files[i].path, right: index.files[j].path },
                ),
                Some(Err(error)) => Gate::Stop(error@),
                Some(Ok(same)) => if same {
                    Gate::Pass
                } else {
                    Gate::Stop(
                        "strict check failed: content differs from the kept copy; operation aborted"@,
                    )
                },
            },
        }
    }
}

fn check_strict(index: &Index, i: usize, seen: &Seen) -> (stop: Option<Action>)
    requires
        index.wf(),
        i < index.files@.len(),
    ensures
        match strict_gate(index@, i as int, *seen) {
            Gate::Ask(action) => stop is Some && stop->0@ == action,
            Gate::Stop(message) => stop is Some && stop->0@ == actions::failed(message),
            Gate::Pass => stop is None,
        },
{
    if !setting_flag(index, "strict_verify", false) {
        return None;
    }
    let list = find_twins(&index.files, i);
    proof {
        assert(lists::ints(list@).len() == list@.len());
    }
    if list.len() == 0 {
        return None;
    }
    let j = list[0];
    proof {
        assert(lists::ints(list@)[0] == j);
        assert(index@.files[i as int] == index.files@[i as int]@);
        assert(index@.files[j as int] == index.files@[j as int]@);
    }
    match &seen.same_bytes {
        None => Some(
            Action::Compare {
                left: index.files[i].path.clone(),
                right: index.files[j].path.clone(),
            },
        ),
        Some(Err(error)) => Some(fail(error.clone())),
        Some(Ok(same)) => if *same {
            None
        } else {
            Some(
                fail(
                    "strict check failed: content differs from the kept copy; operation aborted".to_string(),
                ),
            )
        },
    }
}

// ---------------------------------------------------------------------------
// To the recycle bin
// ---------------------------------------------------------------------------

/// Moving the live row at `i` into the recycle bin, once it may go.
pub open spec fn bin_step(
    index: IndexView,
    platform: Platform,
    i: int,
    seen: Seen,
    now: i64,
    batch_id: Option<i64>,
) -> (IndexView, ActionView) {
    let file = index.files[i];
    match actions::bin_path(index, platform, now, file.id, file.path) {
        Err(error) => (index, actions::failed(error)),
        Ok(to) => match actions::must_succeed(
            seen.prepared,
            ActionView::MakeParents { path: to },
            "create recycle directory: "@,
        ) {
            Gate::Ask(action) => (index, action),
            Gate::Stop(message) => (index, actions::failed(message)),
            Gate::Pass => match actions::must_succeed(
                seen.moved,
                ActionView::Move { from: file.path, to, hash: file.hash },
                Seq::empty(),
            ) {
                Gate::Ask(action) => (index, action),
                Gate::Stop(message) => (index, actions::failed(message)),
                Gate::Pass => actions::settled(
                    index,
                    actions::retired(index, i, to, OperationState::Trashed, now, batch_id),
                ),
            },
        },
    }
}

fn move_to_bin(
    index: &mut Index,
    platform: Platform,
    i: usize,
    seen: &Seen,
    now: i64,
    batch_id: Option<i64>,
) -> (action: Action)
    requires
        old(index).wf(),
        i < old(index)@.files.len(),
    ensures
        final(index).wf(),
        (final(index)@, action@) == bin_step(old(index)@, platform, i as int, *seen, now, batch_id),
{
    proof {
        assert(index@.files[i as int] == index.files@[i as int]@);
    }
    let to = match recycle_destination(
        index,
        platform,
        now,
        index.files[i].id,
        index.files[i].path.as_str(),
    ) {
        Err(error) => return fail(error),
        Ok(to) => to,
    };
    if seen.prepared.is_none() {
        return Action::MakeParents { path: to };
    }
    match error_of(&seen.prepared) {
        Some(error) => return fail(joined("create recycle directory: ", error.as_str())),
        None => {},
    }
    if seen.moved.is_none() {
        return Action::Move {
            from: index.files[i].path.clone(),
            to,
            hash: index.files[i].hash.clone(),
        };
    }
    match error_of(&seen.moved) {
        Some(error) => {
            proof {
                assert(Seq::<char>::empty() + error@ =~= error@);
            }
            return fail(error)
        },
        None => {},
    }
    retire(index, i, to.as_str(), OperationState::Trashed, now, batch_id)
}

pub open spec fn content_changed() -> Seq<char> {
    "source no longer matches indexed hash; scan again"@
}

/// Moving one approved duplicate into the recycle bin.
pub open spec fn trash_step(
    index: IndexView,
    platform: Platform,
    id: i64,
    seen: Seen,
    now: i64,
    batch_id: Option<i64>,
) -> (IndexView, ActionView) {
    match removable(index.files, id) {
        Err(error) => (index, actions::failed(error)),
        Ok(i) => {
            let file = index.files[i];
            match actions::content_gate(seen, file.path, file.hash, content_changed()) {
                Gate::Ask(action) => (index, action),
                Gate::Stop(message) => (index, actions::failed(message)),
                Gate::Pass => match strict_gate(index, i, seen) {
                    Gate::Ask(action) => (index, action),
                    Gate::Stop(message) => (index, actions::failed(message)),
                    Gate::Pass => bin_step(index, platform, i, seen, now, batch_id),
                },
            }
        },
    }
}

pub fn trash_one(
    index: &mut Index,
    platform: Platform,
    file_id: i64,
    seen: &Seen,
    now: i64,
    batch_id: Option<i64>,
) -> (action: Action)
    requires
        old(index).wf(),
    ensures
        final(index).wf(),
        (final(index)@, action@) == trash_step(
            old(index)@,
            platform,
            file_id,
            *seen,
            now,
            batch_id,
        ),
{
    let i = match find_removable(&index.files, file_id) {
        Err(error) => return fail(error),
        Ok(i) => i,
    };
    proof {
        assert(index@.files[i as int] == index.files@[i as int]@);
    }
    match check_content(
        seen,
        index.files[i].path.as_str(),
        index.files[i].hash.as_str(),
        "source no longer matches indexed hash; scan again",
    ) {
        Some(action) => return action,
        None => {},
    }
    match check_strict(index, i, seen) {
        Some(action) => return action,
        None => {},
    }
    move_to_bin(index, platform, i, seen, now, batch_id)
}

/// An operation that starts by opening the index.
pub open spec fn opening(before: IndexView, step: spec_fn(IndexView) -> (IndexView, ActionView)) -> (
    IndexView,
    ActionView,
) {
    match settings::opened(before) {
        Err(error) => (before, actions::failed(error)),
        Ok(usable) => step(usable),
    }
}

/// Move one approved exact duplicate into the recycle bin. `now` is when the
/// operation began, the same in every step of it.
pub fn trash(index: &mut Index, platform: Platform, file_id: i64, seen: &Seen, now: i64) -> (action:
    Action)
    requires
        old(index).wf(),
    ensures
        final(index).wf(),
        (final(index)@, action@) == opening(
            old(index)@,
            |usable: IndexView| trash_step(usable, platform, file_id, *seen, now, None),
        ),
{
    match ensure_initialized(index) {
        Err(error) => return fail(error),
        Ok(_) => {},
    }
    trash_one(index, platform, file_id, seen, now, None)
}

// ---------------------------------------------------------------------------
// For good
// ---------------------------------------------------------------------------

/// Deleting the live row at `i`, once it may go.
pub open spec fn erase_step(
    index: IndexView,
    i: int,
    seen: Seen,
    prefix: Seq<char>,
    now: i64,
    batch_id: Option<i64>,
) -> (IndexView, ActionView) {
    match actions::must_succeed(
        seen.deleted,
        ActionView::Delete { path: index.files[i].path },
        prefix,
    ) {
        Gate::Ask(action) => (index, action),
        Gate::Stop(message) => (index, actions::failed(message)),
        Gate::Pass => actions::settled(
            index,
            actions::retired(index, i, Seq::empty(), OperationState::Deleted, now, batch_id),
        ),
    }
}

fn erase(
    index: &mut Index,
    i: usize,
    seen: &Seen,
    prefix: &str,
    now: i64,
    batch_id: Option<i64>,
) -> (action: Action)
    requires
        old(index).wf(),
        i < old(index)@.files.len(),
    ensures
        final(index).wf(),
        (final(index)@, action@) == erase_step(old(index)@, i as int, *seen, prefix@, now, batch_id),
{
    proof {
        assert(index@.files[i as int] == index.files@[i as int]@);
        reveal_strlit("");
        assert(""@ =~= Seq::<char>::empty());
    }
    if seen.deleted.is_none() {
        return Action::Delete { path: index.files[i].path.clone() };
    }
    match error_of(&seen.deleted) {
        Some(error) => return fail(joined(prefix, error.as_str())),
        None => {},
    }
    retire(index, i, "", OperationState::Deleted, now, batch_id)
}

/// Deleting one approved duplicate for good.
pub open spec fn delete_step(
    index: IndexView,
    id: i64,
    seen: Seen,
    now: i64,
    batch_id: Option<i64>,
) -> (IndexView, ActionView) {
    match removable(index.files, id) {
        Err(error) => (index, actions::failed(error)),
        Ok(i) => {
            let file = index.files[i];
            match actions::content_gate(seen, file.path, file.hash, content_changed()) {
                Gate::Ask(action) => (index, action),
                Gate::Stop(message) => (index, actions::failed(message)),
                Gate::Pass => match strict_gate(index, i, seen) {
                    Gate::Ask(action) => (index, action),
                    Gate::Stop(message) => (index, actions::failed(message)),
                    Gate::Pass => erase_step(index, i, seen, "delete file: "@, now, batch_id),
                },
            }
        },
    }
}

pub fn delete_one(
    index: &mut Index,
    file_id: i64,
    seen: &Seen,
    now: i64,
    batch_id: Option<i64>,
) -> (action: Action)
    requires
        old(index).wf(),
    ensures
        final(index).wf(),
        (final(index)@, action@) == delete_step(old(index)@, file_id, *seen, now, batch_id),
{
    let i = match find_removable(&index.files, file_id) {
        Err(error) => return fail(error),
        Ok(i) => i,
    };
    proof {
        assert(index@.files[i as int] == index.files@[i as int]@);
    }
    match check_content(
        seen,
        index.files[i].path.as_str(),
        index.files[i].hash.as_str(),
        "source no longer matches indexed hash; scan again",
    ) {
        Some(action) => return action,
        None => {},
    }
    match check_strict(index, i, seen) {
        Some(action) => return action,
        None => {},
    }
    erase(index, i, seen, "delete file: ", now, batch_id)
}

/// Delete one approved exact duplicate for good.
pub fn delete_direct(index: &mut Index, file_id: i64, seen: &Seen, now: i64) -> (action: Action)
    requires
        old(index).wf(),
    ensures
        final(index).wf(),
        (final(index)@, action@) == opening(
            old(index)@,
            |usable: IndexView| delete_step(usable, file_id, *seen, now, None),
        ),
{
    match ensure_initialized(index) {
        Err(error) => return fail(error),
        Ok(_) => {},
    }
    delete_one(index, file_id, seen, now, None)
}

// ---------------------------------------------------------------------------
// By path
// ---------------------------------------------------------------------------

/// The live, unprotected row with this path.
pub open spec fn removable_path(files: Seq<FileView>, path: Seq<char>) -> Result<int, Seq<char>> {
    match model::at_path(files, path) {
        None => Err("文件不在索引中，请先扫描"@),
        Some(i) => if !files[i].present {
            Err("文件已被标记为不存在，请刷新后重试"@)
        } else if files[i].protected {
            Err("受保护规则覆盖，已拒绝删除"@)
        } else {
            Ok(i)
        },
    }
}

/// Removing a file that the user picked by its path: it must be indexed,
/// unprotected, there, and unchanged.
pub open spec fn remove_path_step(
    index: IndexView,
    platform: Platform,
    path: Seq<char>,
    to_trash: bool,
    seen: Seen,
    now: i64,
    batch_id: Option<i64>,
) -> (IndexView, ActionView) {
    match removable_path(index.files, path) {
        Err(error) => (index, actions::failed(error)),
        Ok(i) => {
            match seen.is_file {
                None => (index, ActionView::Inspect { path }),
                Some(is_file) => if !is_file {
                    (index, actions::failed("文件不存在或已被删除"@))
                } else {
                    match actions::content_gate(
                        seen,
                        path,
                        index.files[i].hash,
                        "文件内容与索引记录不一致，请重新扫描后再试"@,
                    ) {
                        Gate::Ask(action) => (index, action),
                        Gate::Stop(message) => (index, actions::failed(message)),
                        Gate::Pass => if to_trash {
                            bin_step(index, platform, i, seen, now, batch_id)
                        } else {
                            erase_step(index, i, seen, "删除文件失败："@, now, batch_id)
                        },
                    }
                },
            }
        },
    }
}

pub fn remove_indexed_path(
    index: &mut Index,
    platform: Platform,
    path: &str,
    to_trash: bool,
    seen: &Seen,
    now: i64,
    batch_id: Option<i64>,
) -> (action: Action)
    requires
        old(index).wf(),
    ensures
        final(index).wf(),
        (final(index)@, action@) == remove_path_step(
            old(index)@,
            platform,
            path@,
            to_trash,
            *seen,
            now,
            batch_id,
        ),
{
    let i = match find_path(&index.files, path) {
        None => return fail("文件不在索引中，请先扫描".to_string()),
        Some(i) => i,
    };
    proof {
        assert(index@.files[i as int] == index.files@[i as int]@);
    }
    if !index.files[i].present {
        return fail("文件已被标记为不存在，请刷新后重试".to_string());
    }
    if index.files[i].protected {
        return fail("受保护规则覆盖，已拒绝删除".to_string());
    }
    match seen.is_file {
        None => return Action::Inspect { path: path.to_string() },
        Some(is_file) => {
            if !is_file {
                return fail("文件不存在或已被删除".to_string());
            }
        },
    }
    match check_content(
        seen,
        path,
        index.files[i].hash.as_str(),
        "文件内容与索引记录不一致，请重新扫描后再试",
    ) {
        Some(action) => return action,
        None => {},
    }
    if to_trash {
        move_to_bin(index, platform, i, seen, now, batch_id)
    } else {
        erase(index, i, seen, "删除文件失败：", now, batch_id)
    }
}

// ---------------------------------------------------------------------------
// By linking
// ---------------------------------------------------------------------------

/// The twin at `j` is to be linked to rather than the one at `m`: unprotected
/// first, then the shorter path.
pub open spec fn better_target(files: Seq<FileView>, j: int, m: int) -> bool {
    if files[j].protected != files[m].protected {
        !files[j].protected
    } else {
        files[j].path.len() < files[m].path.len()
    }
}

/// The best of the first `n` rows of the list, the first of equals.
pub open spec fn best_target(files: Seq<FileView>, list: Seq<int>, n: nat) -> int
    decreases n,
{
    if n <= 1 {
        list[0]
    } else {
        let before = best_target(files, list, (n - 1) as nat);
        if better_target(files, list[n - 1], before) {
            list[n - 1]
        } else {
            before
        }
    }
}

/// The copy that the name of the row at `i` is to be linked to.
pub open spec fn link_target(files: Seq<FileView>, i: int) -> Option<int> {
    let list = twins(files, i);
    if list.len() == 0 {
        None
    } else {
        Some(best_target(files, list, list.len()))
    }
}

/// Some twin is already a name of the same physical file.
pub open spec fn already_linked(files: Seq<FileView>, i: int) -> bool {
    groups::has_identity(files[i]) && exists|j: int|
        0 <= j < files.len() && #[trigger] is_twin(files, i, j) && groups::same_identity(files, i, j)
}

/// The temporary name beside a file.
pub open spec fn temporary_name(platform: Platform, path: Seq<char>, name: Seq<char>) -> Seq<char> {
    let directory = match paths::last_separator(platform, path) {
        Some(at) => path.take(at + 1),
        None => Seq::empty(),
    };
    directory + (name + ".flink-tmp"@)
}

/// The row at `i` now names the linked copy, and the operation is recorded.
pub open spec fn relinked(
    index: IndexView,
    i: int,
    target: Seq<char>,
    identity: Identity,
    now: i64,
    batch_id: Option<i64>,
) -> Result<IndexView, Seq<char>> {
    let file = index.files[i];
    let row = OperationView {
        id: 0,
        file_id: file.id,
        source_path: file.path,
        trash_path: target,
        hash: file.hash,
        state: OperationState::Hardlinked,
        created_at: now,
        restored_at: None,
        batch_id,
    };
    match index.with_operation(row) {
        Err(error) => Err(error),
        Ok(logged) => Ok(
            logged.with_file(
                i,
                (FileView {
                    approved: false,
                    dev: identity.dev,
                    inode: identity.inode,
                    frn: identity.frn,
                    ..file
                }),
            ),
        ),
    }
}

/// Swapping the name over to a link, by way of a temporary link beside it:
/// until the last rename the original name and file are untouched.
pub open spec fn swap_step(
    index: IndexView,
    i: int,
    target: Seq<char>,
    temporary: Seq<char>,
    seen: Seen,
    now: i64,
    batch_id: Option<i64>,
) -> (IndexView, ActionView) {
    let path = index.files[i].path;
    match actions::must_succeed(
        seen.linked,
        ActionView::Link { target, link: temporary },
        "create hard link: "@,
    ) {
        Gate::Ask(action) => (index, action),
        Gate::Stop(message) => (index, actions::failed(message)),
        Gate::Pass => match seen.unlinked {
            None => (index, ActionView::Unlink { path }),
            Some(Err(error)) => if !seen.discarded {
                (index, ActionView::Discard { path: temporary })
            } else {
                (index, actions::failed("remove original copy: "@ + error@))
            },
            Some(Ok(_)) => match seen.renamed {
                None => (index, ActionView::Rename { from: temporary, to: path }),
                Some(Err(error)) if seen.relinked is None => (
                    index,
                    ActionView::Relink { target, link: path },
                ),
                Some(Err(error)) if !seen.relinked->0 => (
                    index,
                    actions::failed(
                        "restoring the path failed ("@ + error@ + "); content remains at "@ + target,
                    ),
                ),
                _ => match seen.identity {
                    None => (index, ActionView::Identify { path }),
                    Some(identity) => actions::settled(
                        index,
                        relinked(index, i, target, identity, now, batch_id),
                    ),
                },
            },
        },
    }
}

pub open spec fn kept_changed() -> Seq<char> {
    "kept copy no longer matches indexed hash; scan again"@
}

/// The copy that stays must have the content of the one that becomes a link.
pub open spec fn kept_gate(seen: Seen, target: Seq<char>, hash: Seq<char>) -> Gate {
    match seen.kept_hash {
        None => Gate::Ask(ActionView::HashKept { path: target }),
        Some(Err(error)) => Gate::Stop(error@),
        Some(Ok(actual)) => if actual@ == hash {
            Gate::Pass
        } else {
            Gate::Stop(kept_changed())
        },
    }
}

fn check_kept(seen: &Seen, target: &str, hash: &str) -> (stop: Option<Action>)
    ensures
        match kept_gate(*seen, target@, hash@) {
            Gate::Ask(action) => stop is Some && stop->0@ == action,
            Gate::Stop(message) => stop is Some && stop->0@ == actions::failed(message),
            Gate::Pass => stop is None,
        },
{
    match &seen.kept_hash {
        None => Some(Action::HashKept { path: target.to_string() }),
        Some(Err(error)) => Some(fail(error.clone())),
        Some(Ok(actual)) => if same_text(actual.as_str(), hash) {
            None
        } else {
            Some(fail("kept copy no longer matches indexed hash; scan again".to_string()))
        },
    }
}

/// Replacing one approved duplicate by a hard link to a copy that stays. Both
/// must have the indexed content before the swap.
pub open spec fn hardlink_step(
    index: IndexView,
    platform: Platform,
    id: i64,
    seen: Seen,
    now: i64,
    batch_id: Option<i64>,
) -> (IndexView, ActionView) {
    match removable(index.files, id) {
        Err(error) => (index, actions::failed(error)),
        Ok(i) => {
            let file = index.files[i];
            match actions::content_gate(seen, file.path, file.hash, content_changed()) {
                Gate::Ask(action) => (index, action),
                Gate::Stop(message) => (index, actions::failed(message)),
                Gate::Pass => match link_target(index.files, i) {
                    None => (index, actions::failed("no other present copy to link to"@)),
                    Some(j) => if already_linked(index.files, i) {
                        (index, actions::failed("source is already a hard link of the kept copy"@))
                    } else {
                        let target = index.files[j].path;
                        match seen.same_volume {
                            None => (
                                index,
                                ActionView::CompareVolumes { left: file.path, right: target },
                            ),
                            Some(Err(error)) => (index, actions::failed(error@)),
                            Some(Ok(same)) => if !same {
                                (
                                    index,
                                    actions::failed(
                                        "source and kept copy are on different volumes; hard links cannot cross volumes"@,
                                    ),
                                )
                            } else {
                                match paths::file_name_of(platform, file.path) {
                                    None => (
                                        index,
                                        actions::failed("source path has no file name"@),
                                    ),
                                    Some(name) => match kept_gate(seen, target, file.hash) {
                                        Gate::Ask(action) => (index, action),
                                        Gate::Stop(message) => (index, actions::failed(message)),
                                        Gate::Pass => swap_step(
                                            index,
                                            i,
                                            target,
                                            temporary_name(platform, file.path, name),
                                            seen,
                                            now,
                                            batch_id,
                                        ),
                                    },
                                }
                            },
                        }
                    },
                },
            }
        },
    }
}

fn find_link_target(files: &Vec<FileRow>, i: usize) -> (found: Option<usize>)
    requires
        i < files@.len(),
    ensures
        model::position(found) == link_target(model::file_rows(files@), i as int),
        found is Some ==> found->0 < files@.len(),
{
    let ghost views = model::file_rows(files@);
    let list = find_twins(files, i);
    let ghost whole = lists::ints(list@);
    proof {
        assert(whole.len() == list@.len());
    }
    if list.len() == 0 {
        return None;
    }
    let mut best: usize = list[0];
    let mut best_path = chars_of(files[best].path.as_str());
    for k in 1..list.len()
        invariant
            views == model::file_rows(files@),
            whole == lists::ints(list@),
            forall|k: int| 0 <= k < list@.len() ==> (#[trigger] list@[k]) < files@.len(),
            best < files@.len(),
            best_path@ == files@[best as int].path@,
            best == best_target(views, whole, k as nat),
    {
        let j = list[k];
        proof {
            assert(whole[k as int] == j);
            assert(views[j as int] == files@[j as int]@);
            assert(views[best as int] == files@[best as int]@);
        }
        let path = chars_of(files[j].path.as_str());
        let better = if files[j].protected != files[best].protected {
            !files[j].protected
        } else {
            path.len() < best_path.len()
        };
        if better {
            best = j;
            best_path = path;
        }
    }
    Some(best)
}

fn is_already_linked(files: &Vec<FileRow>, i: usize) -> (yes: bool)
    requires
        i < files@.len(),
    ensures
        yes == already_linked(model::file_rows(files@), i as int),
{
    let ghost views = model::file_rows(files@);
    let dev: i64 = files[i].dev;
    let inode: i64 = files[i].inode;
    proof {
        assert(views[i as int] == files@[i as int]@);
    }
    if dev == 0 && inode == 0 {
        return false;
    }
    let list = find_twins(files, i);
    let ghost whole = lists::ints(list@);
    let ghost keep = |j: int| is_twin(views, i as int, j);
    proof {
        lists::lemma_positions(views.len(), keep);
        assert(whole.len() == list@.len());
    }
    for k in 0..list.len()
        invariant
            i < files@.len(),
            views == model::file_rows(files@),
            whole == lists::ints(list@),
            whole == twins(views, i as int),
            whole == lists::positions(views.len(), keep),
            keep == (|j: int| is_twin(views, i as int, j)),
            whole.len() == list@.len(),
            dev == views[i as int].dev,
            inode == views[i as int].inode,
            groups::has_identity(views[i as int]),
            forall|k: int| 0 <= k < list@.len() ==> (#[trigger] list@[k]) < files@.len(),
            forall|m: int|
                0 <= m < k ==> !groups::same_identity(views, i as int, #[trigger] whole[m]),
    {
        let j = list[k];
        proof {
            assert(whole[k as int] == j);
            assert(views[j as int] == files@[j as int]@);
        }
        if files[j].dev == dev && files[j].inode == inode {
            proof {
                lists::lemma_positions(views.len(), keep);
                assert(keep(whole[k as int]));
                assert(is_twin(views, i as int, j as int));
            }
            return true;
        }
    }
    proof {
        assert forall|j: int| 0 <= j < views.len() && #[trigger] is_twin(
            views,
            i as int,
            j,
        ) implies !groups::same_identity(views, i as int, j) by {
            assert(keep(j));
            assert(whole.contains(j));
            let m = choose|m: int| 0 <= m < whole.len() && whole[m] == j;
            assert(!groups::same_identity(views, i as int, whole[m]));
        }
    }
    false
}

fn temporary_path(platform: Platform, path: &str, name: &str) -> (temporary: String)
    ensures
        temporary@ == temporary_name(platform, path@, name@),
{
    let chars = chars_of(path);
    let n = chars.len();
    let directory = match find_last_separator(platform, chars.as_slice()) {
        Some(at) => {
            proof {
                assert(at < n);
            }
            let front = slice_of(chars.as_slice(), 0, at + 1);
            proof {
                assert(front@ =~= path@.take(at + 1));
            }
            string_of(front.as_slice())
        },
        None => {
            let none = String::new();
            proof {
                assert(none@ =~= Seq::<char>::empty());
            }
            none
        },
    };
    let marked = joined(name, ".flink-tmp");
    joined(directory.as_str(), marked.as_str())
}

fn relink_row(
    index: &mut Index,
    i: usize,
    target: &str,
    identity: Identity,
    now: i64,
    batch_id: Option<i64>,
) -> (action: Action)
    requires
        old(index).wf(),
        i < old(index)@.files.len(),
    ensures
        final(index).wf(),
        (final(index)@, action@) == actions::settled(
            old(index)@,
            relinked(old(index)@, i as int, target@, identity, now, batch_id),
        ),
{
    let ghost before = index@;
    proof {
        assert(before.files[i as int] == index.files@[i as int]@);
        assert(model::has_id(before.files, before.files[i as int].id));
    }
    let row = OperationRow {
        id: 0,
        file_id: index.files[i].id,
        source_path: index.files[i].path.clone(),
        trash_path: target.to_string(),
        hash: index.files[i].hash.clone(),
        state: OperationState::Hardlinked,
        created_at: now,
        restored_at: None,
        batch_id,
    };
    match push_operation(index, row) {
        Err(error) => fail(error),
        Ok(_) => {
            let ghost logged = index@;
            index.files[i].approved = false;
            index.files[i].dev = identity.dev;
            index.files[i].inode = identity.inode;
            index.files[i].frn = identity.frn;
            proof {
                let row = FileView {
                    approved: false,
                    dev: identity.dev,
                    inode: identity.inode,
                    frn: identity.frn,
                    ..before.files[i as int]
                };
                assert(index@.files =~= logged.files.update(i as int, row));
                model::lemma_wf_with_file(logged, i as int, row);
                assert(index@ == logged.with_file(i as int, row));
            }
            finish()
        },
    }
}

fn swap_name(
    index: &mut Index,
    i: usize,
    target: &str,
    temporary: &str,
    seen: &Seen,
    now: i64,
    batch_id: Option<i64>,
) -> (action: Action)
    requires
        old(index).wf(),
        i < old(index)@.files.len(),
    ensures
        final(index).wf(),
        (final(index)@, action@) == swap_step(
            old(index)@,
            i as int,
            target@,
            temporary@,
            *seen,
            now,
            batch_id,
        ),
{
    proof {
        assert(index@.files[i as int] == index.files@[i as int]@);
    }
    if seen.linked.is_none() {
        return Action::Link { target: target.to_string(), link: temporary.to_string() };
    }
    match error_of(&seen.linked) {
        Some(error) => return fail(joined("create hard link: ", error.as_str())),
        None => {},
    }
    if seen.unlinked.is_none() {
        return Action::Unlink { path: index.files[i].path.clone() };
    }
    match error_of(&seen.unlinked) {
        Some(error) => {
            if !seen.discarded {
                return Action::Discard { path: temporary.to_string() };
            }
            return fail(joined("remove original copy: ", error.as_str()));
        },
        None => {},
    }
    if seen.renamed.is_none() {
        return Action::Rename { from: temporary.to_string(), to: index.files[i].path.clone() };
    }
    match error_of(&seen.renamed) {
        Some(error) => match seen.relinked {
            None => {
                return Action::Relink {
                    target: target.to_string(),
                    link: index.files[i].path.clone(),
                };
            },
            Some(again) => {
                if !again {
                    let head = joined("restoring the path failed (", error.as_str());
                    let middle = joined(head.as_str(), "); content remains at ");
                    return fail(joined(middle.as_str(), target));
                }
            },
        },
        None => {},
    }
    match seen.identity {
        None => Action::Identify { path: index.files[i].path.clone() },
        Some(identity) => relink_row(index, i, target, identity, now, batch_id),
    }
}

pub fn hardlink_one(
    index: &mut Index,
    platform: Platform,
    file_id: i64,
    seen: &Seen,
    now: i64,
    batch_id: Option<i64>,
) -> (action: Action)
    requires
        old(index).wf(),
    ensures
        final(index).wf(),
        (final(index)@, action@) == hardlink_step(
            old(index)@,
            platform,
            file_id,
            *seen,
            now,
            batch_id,
        ),
{
    let i = match find_removable(&index.files, file_id) {
        Err(error) => return fail(error),
        Ok(i) => i,
    };
    proof {
        assert(index@.files[i as int] == index.files@[i as int]@);
    }
    match check_content(
        seen,
        index.files[i].path.as_str(),
        index.files[i].hash.as_str(),
        "source no longer matches indexed hash; scan again",
    ) {
        Some(action) => return action,
        None => {},
    }
    let j = match find_link_target(&index.files, i) {
        None => return fail("no other present copy to link to".to_string()),
        Some(j) => j,
    };
    proof {
        assert(index@.files[j as int] == index.files@[j as int]@);
    }
    if is_already_linked(&index.files, i) {
        return fail("source is already a hard link of the kept copy".to_string());
    }
    let target = index.files[j].path.clone();
    match &seen.same_volume {
        None => {
            return Action::CompareVolumes { left: index.files[i].path.clone(), right: target };
        },
        Some(Err(error)) => return fail(error.clone()),
        Some(Ok(same)) => {
            if !*same {
                return fail(
                    "source and kept copy are on different volumes; hard links cannot cross volumes".to_string(),
                );
            }
        },
    }
    match file_name(platform, index.files[i].path.as_str()) {
        None => fail("source path has no file name".to_string()),
        Some(name) => {
            match check_kept(seen, target.as_str(), index.files[i].hash.as_str()) {
                Some(action) => return action,
                None => {},
            }
            let temporary = temporary_path(platform, index.files[i].path.as_str(), name.as_str());
            swap_name(index, i, target.as_str(), temporary.as_str(), seen, now, batch_id)
        },
    }
}

/// Replace one approved exact duplicate by a hard link to a copy that stays:
/// every path survives, the duplicated content is freed. `now` is when the
/// operation began, the same in every step of it.
pub fn hardlink(index: &mut Index, platform: Platform, file_id: i64, seen: &Seen, now: i64) -> (action:
    Action)
    requires
        old(index).wf(),
    ensures
        final(index).wf(),
        (final(index)@, action@) == opening(
            old(index)@,
            |usable: IndexView| hardlink_step(usable, platform, file_id, *seen, now, None),
        ),
{
    match ensure_initialized(index) {
        Err(error) => return fail(error),
        Ok(_) => {},
    }
    hardlink_one(index, platform, file_id, seen, now, None)
}

} // verus!
