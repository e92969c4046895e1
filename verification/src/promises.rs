//! What the operations on files are for, said of the rows before and after,
//! of what was seen on the disk and of what is asked of it.
use crate::actions::{ActionView, Seen};
use crate::model::{FileView, IndexView, OperationState, OperationView};
use crate::paths::Platform;
use crate::{actions, bin, lists, model, removal, settings};
use vstd::prelude::*;

verus! {

// ---------------------------------------------------------------------------
// Rows
// ---------------------------------------------------------------------------

/// The row at `i` carries the id and may be removed: it is live, approved and
/// unprotected, and the row at `j` is another live copy of its content.
pub open spec fn may_be_removed(files: Seq<FileView>, id: i64, i: int, j: int) -> bool {
    &&& 0 <= i < files.len()
    &&& 0 <= j < files.len()
    &&& i != j
    &&& files[i].id == id
    &&& files[i].present
    &&& files[i].approved
    &&& !files[i].protected
    &&& files[j].present
    &&& files[j].hash == files[i].hash
    &&& files[j].size == files[i].size
}

/// The file was just hashed, and has the content of the row.
pub open spec fn has_content_of(seen: Seen, file: FileView) -> bool {
    &&& seen.content_hash is Some
    &&& seen.content_hash->0 is Ok
    &&& seen.content_hash->0->Ok_0@ == file.hash
}

/// The operation that a removal adds to the history.
pub open spec fn is_record_of(
    operation: OperationView,
    file: FileView,
    state: OperationState,
    now: i64,
    batch_id: Option<i64>,
) -> bool {
    &&& operation.file_id == file.id
    &&& operation.source_path == file.path
    &&& operation.hash == file.hash
    &&& operation.state == state
    &&& operation.created_at == now
    &&& operation.restored_at is None
    &&& operation.batch_id == batch_id
}

/// Nothing but the row at `i` differs, and one operation was added, with an
/// id above all others.
pub open spec fn one_row_and_one_record(before: IndexView, after: IndexView, i: int) -> bool {
    &&& after.settings == before.settings
    &&& after.photos == before.photos
    &&& after.documents == before.documents
    &&& after.verdicts == before.verdicts
    &&& after.files.len() == before.files.len()
    &&& forall|p: int|
        0 <= p < before.files.len() && p != i ==> #[trigger] after.files[p] == before.files[p]
    &&& after.operations.len() == before.operations.len() + 1
    &&& forall|k: int|
        0 <= k < before.operations.len() ==> #[trigger] after.operations[k]
            == before.operations[k] && before.operations[k].id < after.operations.last().id
}

/// The strict check is on: the setting is stored as `1`.
pub open spec fn strict_is_on(index: IndexView) -> bool {
    index.settings.contains_key("strict_verify"@) && index.settings["strict_verify"@] == "1"@
}

proof fn lemma_new_record(operations: Seq<OperationView>)
    requires
        model::operation_ids_ascending(operations),
        model::next_operation_id(operations) is Some,
    ensures
        forall|k: int|
            0 <= k < operations.len() ==> (#[trigger] operations[k]).id
                < model::next_operation_id(operations)->0,
{
    assert forall|k: int| 0 <= k < operations.len() implies (#[trigger] operations[k]).id
        < model::next_operation_id(operations)->0 by {
        if k < operations.len() - 1 {
            assert(operations[k].id < operations[operations.len() - 1].id);
        }
    }
}

/// A row that may be removed has a first twin.
proof fn lemma_removable(files: Seq<FileView>, id: i64)
    requires
        model::ids_ascending(files),
        removal::removable(files, id) is Ok,
    ensures
        ({
            let i = removal::removable(files, id)->Ok_0;
            &&& 0 <= i < files.len()
            &&& removal::twins(files, i).len() > 0
            &&& may_be_removed(files, id, i, removal::twins(files, i)[0])
            &&& is_first_copy(files, i, removal::twins(files, i)[0])
        }),
{
    let i = removal::removable(files, id)->Ok_0;
    model::lemma_duplicate_has_twin(files, i);
    let keep = |j: int| removal::is_twin(files, i, j);
    lists::lemma_positions(files.len(), keep);
    let list = removal::twins(files, i);
    let j = choose|j: int|
        0 <= j < files.len() && j != i && model::is_copy(
            #[trigger] files[j],
            files[i].hash,
            files[i].size,
        );
    assert(keep(j));
    assert(list.contains(j));
    assert(keep(list[0]));
    assert forall|q: int|
        0 <= q < files.len() && q != i && (#[trigger] files[q]).present && files[q].hash
            == files[i].hash && files[q].size == files[i].size implies files[list[0]].id
        <= files[q].id by {
        assert(keep(q));
        assert(list.contains(q));
        let k = choose|k: int| 0 <= k < list.len() && list[k] == q;
        if k > 0 {
            assert(list[0] < list[k]);
            assert(files[list[0]].id < files[list[k]].id);
        }
    }
}

/// The row at `j` has the smallest id of the other live copies of the row at
/// `i`.
pub open spec fn is_first_copy(files: Seq<FileView>, i: int, j: int) -> bool {
    forall|r: int|
        0 <= r < files.len() && r != i && (#[trigger] files[r]).present && files[r].hash
            == files[i].hash && files[r].size == files[i].size ==> files[j].id <= files[r].id
}

/// An id that no removable row carries is refused, and one that a removable
/// row carries is not.
proof fn lemma_refused(files: Seq<FileView>, id: i64)
    requires
        model::ids_ascending(files),
    ensures
        removal::removable(files, id) is Ok <==> exists|i: int, j: int|
            may_be_removed(files, id, i, j),
        forall|i: int, j: int| #[trigger]
            may_be_removed(files, id, i, j) ==> removal::removable(files, id)
                == Ok::<int, Seq<char>>(i),
{
    assert forall|i: int, j: int| #[trigger]
        may_be_removed(files, id, i, j) implies removal::removable(files, id) == Ok::<
        int,
        Seq<char>,
    >(i) by {
        model::lemma_at_id(files, i);
        assert(model::is_copy(files[j], files[i].hash, files[i].size));
        model::lemma_duplicate_has_twin(files, i);
    }
    if removal::removable(files, id) is Ok {
        lemma_removable(files, id);
    }
}

// ---------------------------------------------------------------------------
// Removing a duplicate
// ---------------------------------------------------------------------------

/// Recycling a duplicate. Every step but a refusal is about a row that may be
/// removed. The file of that row is hashed, compared with the file of the
/// first other live copy where the strict check is on, and moved; a move is asked for, and
/// done, only after the content was found to be the indexed one and the
/// strict check compared equal. In the end the row is absent, without
/// approval, and the history tells where the file went.
pub proof fn law_recycling_takes_a_checked_duplicate(
    index: IndexView,
    platform: Platform,
    id: i64,
    seen: Seen,
    now: i64,
    batch_id: Option<i64>,
)
    requires
        index.wf(),
    ensures
        ({
            let (after, action) = removal::trash_step(index, platform, id, seen, now, batch_id);
            &&& action matches ActionView::Finished { result } ==> result is Err ==> after == index
            &&& !(action is Finished) ==> after == index
            &&& !(action is Finished && action->result is Err) ==> exists|i: int, j: int|
                {
                    &&& #[trigger] may_be_removed(index.files, id, i, j)
                    &&& match action {
                        ActionView::Hash { path } => path == index.files[i].path,
                        ActionView::Compare { left, right } => {
                            &&& strict_is_on(index)
                            &&& is_first_copy(index.files, i, j)
                            &&& left == index.files[i].path
                            &&& right == index.files[j].path
                            &&& left != right
                            &&& has_content_of(seen, index.files[i])
                        },
                        ActionView::MakeParents { .. } => has_content_of(seen, index.files[i]),
                        ActionView::Move { from, to, hash } => {
                            &&& from == index.files[i].path
                            &&& hash == index.files[i].hash
                            &&& actions::bin_path(index, platform, now, id, from) == Ok::<
                                Seq<char>,
                                Seq<char>,
                            >(to)
                            &&& has_content_of(seen, index.files[i])
                            &&& strict_is_on(index) ==> seen.same_bytes == Some(
                                Ok::<bool, String>(true),
                            )
                            &&& seen.prepared is Some && seen.prepared->0 is Ok
                        },
                        ActionView::Finished { result } => {
                            &&& has_content_of(seen, index.files[i])
                            &&& strict_is_on(index) ==> seen.same_bytes == Some(
                                Ok::<bool, String>(true),
                            )
                            &&& seen.moved is Some && seen.moved->0 is Ok
                            &&& one_row_and_one_record(index, after, i)
                            &&& after.files[i] == (FileView {
                                present: false,
                                approved: false,
                                ..index.files[i]
                            })
                            &&& is_record_of(
                                after.operations.last(),
                                index.files[i],
                                OperationState::Trashed,
                                now,
                                batch_id,
                            )
                        },
                        _ => false,
                    }
                }
        }),
{
    let (after, action) = removal::trash_step(index, platform, id, seen, now, batch_id);
    if removal::removable(index.files, id) is Ok {
        lemma_removable(index.files, id);
        let i = removal::removable(index.files, id)->Ok_0;
        let j = removal::twins(index.files, i)[0];
        assert(may_be_removed(index.files, id, i, j));
        if i < j {
            assert(index.files[i].path != index.files[j].path);
        } else {
            assert(index.files[j].path != index.files[i].path);
        }
        if action == actions::done() {
            lemma_new_record(index.operations);
        }
    }
}

/// Deleting a duplicate for good goes through the same checks as recycling it.
pub proof fn law_deleting_takes_a_checked_duplicate(
    index: IndexView,
    id: i64,
    seen: Seen,
    now: i64,
    batch_id: Option<i64>,
)
    requires
        index.wf(),
    ensures
        ({
            let (after, action) = removal::delete_step(index, id, seen, now, batch_id);
            &&& action matches ActionView::Finished { result } ==> result is Err ==> after == index
            &&& !(action is Finished) ==> after == index
            &&& !(action is Finished && action->result is Err) ==> exists|i: int, j: int|
                {
                    &&& #[trigger] may_be_removed(index.files, id, i, j)
                    &&& match action {
                        ActionView::Hash { path } => path == index.files[i].path,
                        ActionView::Compare { left, right } => {
                            &&& strict_is_on(index)
                            &&& is_first_copy(index.files, i, j)
                            &&& left == index.files[i].path
                            &&& right == index.files[j].path
                            &&& left != right
                            &&& has_content_of(seen, index.files[i])
                        },
                        ActionView::Delete { path } => {
                            &&& path == index.files[i].path
                            &&& has_content_of(seen, index.files[i])
                            &&& strict_is_on(index) ==> seen.same_bytes == Some(
                                Ok::<bool, String>(true),
                            )
                        },
                        ActionView::Finished { result } => {
                            &&& has_content_of(seen, index.files[i])
                            &&& strict_is_on(index) ==> seen.same_bytes == Some(
                                Ok::<bool, String>(true),
                            )
                            &&& seen.deleted is Some && seen.deleted->0 is Ok
                            &&& one_row_and_one_record(index, after, i)
                            &&& after.files[i] == (FileView {
                                present: false,
                                approved: false,
                                ..index.files[i]
                            })
                            &&& is_record_of(
                                after.operations.last(),
                                index.files[i],
                                OperationState::Deleted,
                                now,
                                batch_id,
                            )
                            &&& after.operations.last().trash_path.len() == 0
                        },
                        _ => false,
                    }
                }
        }),
{
    let (after, action) = removal::delete_step(index, id, seen, now, batch_id);
    if removal::removable(index.files, id) is Ok {
        lemma_removable(index.files, id);
        let i = removal::removable(index.files, id)->Ok_0;
        let j = removal::twins(index.files, i)[0];
        assert(may_be_removed(index.files, id, i, j));
        if i < j {
            assert(index.files[i].path != index.files[j].path);
        } else {
            assert(index.files[j].path != index.files[i].path);
        }
        if action == actions::done() {
            lemma_new_record(index.operations);
        }
    }
}

/// A removable duplicate is removed: where every check passes and the disk
/// does what it is asked, recycling and deleting succeed, unless the history
/// is full. Where a check fails, its reason comes back.
pub proof fn law_a_checked_duplicate_goes(
    index: IndexView,
    platform: Platform,
    id: i64,
    seen: Seen,
    now: i64,
    batch_id: Option<i64>,
    i: int,
    j: int,
)
    requires
        index.wf(),
        may_be_removed(index.files, id, i, j),
    ensures
        ({
            let recycled = removal::trash_step(index, platform, id, seen, now, batch_id).1;
            let deleted = removal::delete_step(index, id, seen, now, batch_id).1;
            let room = index.operations.len() == 0 || index.operations.last().id < i64::MAX;
            &&& seen.content_hash is None ==> recycled == (ActionView::Hash {
                path: index.files[i].path,
            }) && deleted == recycled
            &&& seen.content_hash is Some && seen.content_hash->0 is Ok && !has_content_of(
                seen,
                index.files[i],
            ) ==> recycled == (ActionView::Finished {
                result: Err("source no longer matches indexed hash; scan again"@),
            }) && deleted == recycled
            &&& has_content_of(seen, index.files[i]) && strict_is_on(index) && seen.same_bytes
                == Some(Ok::<bool, String>(false)) ==> recycled == (ActionView::Finished {
                result: Err(
                    "strict check failed: content differs from the kept copy; operation aborted"@,
                ),
            }) && deleted == recycled
            &&& has_content_of(seen, index.files[i]) && (strict_is_on(index) ==> seen.same_bytes
                == Some(Ok::<bool, String>(true))) && room ==> {
                &&& seen.deleted is Some && seen.deleted->0 is Ok ==> deleted
                    == (ActionView::Finished { result: Ok(()) })
                &&& seen.deleted is None ==> deleted == (ActionView::Delete {
                    path: index.files[i].path,
                })
                &&& seen.prepared is Some && seen.prepared->0 is Ok && seen.moved is Some
                    && seen.moved->0 is Ok && index.settings.contains_key("trash_path"@)
                    && crate::paths::file_name_of(platform, index.files[i].path) is Some
                    ==> recycled == (ActionView::Finished { result: Ok(()) })
            }
        }),
{
    lemma_refused(index.files, id);
    lemma_removable(index.files, id);
}

/// Whatever may not be removed is refused: a file that is not there, not
/// approved, protected, or the last of its content.
pub proof fn law_nothing_else_is_removed(
    index: IndexView,
    platform: Platform,
    id: i64,
    seen: Seen,
    now: i64,
    batch_id: Option<i64>,
)
    requires
        index.wf(),
        forall|i: int, j: int| !#[trigger] may_be_removed(index.files, id, i, j),
    ensures
        ({
            let recycled = removal::trash_step(index, platform, id, seen, now, batch_id);
            let deleted = removal::delete_step(index, id, seen, now, batch_id);
            let linked = removal::hardlink_step(index, platform, id, seen, now, batch_id);
            &&& recycled.0 == index && recycled.1 is Finished && recycled.1->result is Err
            &&& deleted.0 == index && deleted.1 is Finished && deleted.1->result is Err
            &&& linked.0 == index && linked.1 is Finished && linked.1->result is Err
        }),
{
    lemma_refused(index.files, id);
}

/// Where a file went is where the history says it went: the operation that a
/// recycling adds names the place that the move was asked for.
pub proof fn law_history_tells_where_a_file_went(
    index: IndexView,
    platform: Platform,
    id: i64,
    seen: Seen,
    now: i64,
    batch_id: Option<i64>,
)
    requires
        index.wf(),
        removal::trash_step(index, platform, id, seen, now, batch_id).1 == (ActionView::Finished {
            result: Ok(()),
        }),
    ensures
        ({
            let after = removal::trash_step(index, platform, id, seen, now, batch_id).0;
            let unmoved = Seen { moved: None, ..seen };
            let asked = removal::trash_step(index, platform, id, unmoved, now, batch_id).1;
            let unprepared = Seen { moved: None, prepared: None, ..seen };
            let first = removal::trash_step(index, platform, id, unprepared, now, batch_id).1;
            &&& asked matches ActionView::Move { from, to, .. } && from
                == after.operations.last().source_path && to == after.operations.last().trash_path
            &&& first matches ActionView::MakeParents { path } && path
                == after.operations.last().trash_path
        }),
{
}

proof fn lemma_best_target(files: Seq<FileView>, i: int, n: nat)
    requires
        model::ids_ascending(files),
        0 <= i < files.len(),
        1 <= n <= removal::twins(files, i).len(),
    ensures
        ({
            let list = removal::twins(files, i);
            let best = removal::best_target(files, list, n);
            &&& 0 <= best < files.len()
            &&& best <= list[n - 1]
            &&& best != i
            &&& files[best].present
            &&& files[best].hash == files[i].hash
            &&& files[best].size == files[i].size
            &&& forall|k: int|
                0 <= k < n ==> (files[best].protected ==> files[#[trigger] list[k]].protected) && (
                files[best].protected == files[list[k]].protected ==> files[best].path.len()
                    <= files[list[k]].path.len()) && (files[best].protected
                    == files[list[k]].protected && files[best].path.len()
                    == files[list[k]].path.len() ==> files[best].id <= files[list[k]].id)
        }),
    decreases n,
{
    let keep = |j: int| removal::is_twin(files, i, j);
    lists::lemma_positions(files.len(), keep);
    let list = removal::twins(files, i);
    assert(0 <= list[n - 1] < files.len() && keep(list[n - 1]));
    if n > 1 {
        lemma_best_target(files, i, (n - 1) as nat);
        let before = removal::best_target(files, list, (n - 1) as nat);
        assert(list[n - 2] < list[n - 1]);
        assert(files[before].id < files[list[n - 1]].id);
    }
}

/// The row at `j` is the copy that a link of the row at `i` points to: no
/// other copy is less protected, none of the same protection has a shorter
/// path, and none with a path as short has a smaller id.
pub open spec fn is_link_target(files: Seq<FileView>, i: int, j: int) -> bool {
    forall|r: int|
        0 <= r < files.len() && r != i && (#[trigger] files[r]).present && files[r].hash
            == files[i].hash && files[r].size == files[i].size ==> (files[j].protected
            ==> files[r].protected) && (files[j].protected == files[r].protected
            ==> files[j].path.len() <= files[r].path.len()) && (files[j].protected
            == files[r].protected && files[j].path.len() == files[r].path.len() ==> files[j].id
            <= files[r].id)
}

/// Both rows name the same file on the disk.
pub open spec fn name_one_file(a: FileView, b: FileView) -> bool {
    (a.dev != 0 || a.inode != 0) && a.dev == b.dev && a.inode == b.inode
}

proof fn lemma_link_target(files: Seq<FileView>, id: i64)
    requires
        model::ids_ascending(files),
        removal::removable(files, id) is Ok,
    ensures
        ({
            let i = removal::removable(files, id)->Ok_0;
            let j = removal::link_target(files, i)->0;
            &&& removal::link_target(files, i) is Some
            &&& may_be_removed(files, id, i, j)
            &&& is_link_target(files, i, j)
        }),
{
    lemma_removable(files, id);
    let i = removal::removable(files, id)->Ok_0;
    let list = removal::twins(files, i);
    lemma_best_target(files, i, list.len());
    let j = removal::link_target(files, i)->0;
    let keep = |j: int| removal::is_twin(files, i, j);
    lists::lemma_positions(files.len(), keep);
    assert forall|r: int|
        0 <= r < files.len() && r != i && (#[trigger] files[r]).present && files[r].hash
            == files[i].hash && files[r].size == files[i].size implies (files[j].protected
        ==> files[r].protected) && (files[j].protected == files[r].protected
        ==> files[j].path.len() <= files[r].path.len()) && (files[j].protected
        == files[r].protected && files[j].path.len() == files[r].path.len() ==> files[j].id
        <= files[r].id) by {
        assert(keep(r));
        assert(list.contains(r));
        let k = choose|k: int| 0 <= k < list.len() && list[k] == r;
        assert(files[list[k]] == files[r]);
    }
}

/// The link is first made under a name of its own, beside the file: the name
/// of the file with a suffix, in the directory of the file.
pub open spec fn is_temporary_name(platform: Platform, path: Seq<char>, name: Seq<char>) -> bool {
    exists|at: int|
        #![trigger path.take(at)]
        {
            &&& 0 <= at <= path.len()
            &&& at > 0 ==> platform.separates(path[at - 1])
            &&& forall|k: int| at <= k < path.len() ==> !platform.separates(#[trigger] path[k])
            &&& crate::paths::file_name_of(platform, path) is Some
            &&& name == path.take(at) + crate::paths::file_name_of(platform, path)->0
                + ".flink-tmp"@
        }
}

proof fn lemma_temporary_name(platform: Platform, path: Seq<char>)
    requires
        crate::paths::file_name_of(platform, path) is Some,
    ensures
        is_temporary_name(
            platform,
            path,
            removal::temporary_name(
                platform,
                path,
                crate::paths::file_name_of(platform, path)->0,
            ),
        ),
{
    crate::paths::lemma_last_separator(platform, path);
    let at = match crate::paths::last_separator(platform, path) {
        Some(at) => at + 1,
        None => 0int,
    };
    let name = crate::paths::file_name_of(platform, path)->0;
    assert(path.take(0) =~= Seq::<char>::empty());
    assert(path.take(at) + name + ".flink-tmp"@ =~= path.take(at) + (name + ".flink-tmp"@));
}

/// Replacing a duplicate by a link. The copy that stays is hashed like the
/// one that goes; both lie on one volume, and are not one file already. The
/// link is made under another name before the duplicate is unlinked, and then
/// takes its path. The row stays live, without approval, under the identity
/// that was seen, and the history names the copy that it shares.
pub proof fn law_linking_keeps_the_other_copy(
    index: IndexView,
    platform: Platform,
    id: i64,
    seen: Seen,
    now: i64,
    batch_id: Option<i64>,
)
    requires
        index.wf(),
    ensures
        ({
            let (after, action) = removal::hardlink_step(index, platform, id, seen, now, batch_id);
            let linkable = |i: int, j: int|
                {
                    &&& has_content_of(seen, index.files[i])
                    &&& seen.same_volume == Some(Ok::<bool, String>(true))
                    &&& seen.kept_hash is Some && seen.kept_hash->0 is Ok
                        && seen.kept_hash->0->Ok_0@ == index.files[i].hash
                    &&& !name_one_file(index.files[i], index.files[j])
                };
            let linked = seen.linked is Some && seen.linked->0 is Ok;
            let unlinked = seen.unlinked is Some && seen.unlinked->0 is Ok;
            &&& action matches ActionView::Finished { result } ==> result is Err ==> after == index
            &&& !(action is Finished) ==> after == index
            &&& !(action is Finished && action->result is Err) ==> exists|i: int, j: int|
                {
                    &&& #[trigger] may_be_removed(index.files, id, i, j)
                    &&& is_link_target(index.files, i, j)
                    &&& match action {
                        ActionView::Hash { path } => path == index.files[i].path,
                        ActionView::CompareVolumes { left, right } => {
                            &&& left == index.files[i].path
                            &&& right == index.files[j].path
                        },
                        ActionView::HashKept { path } => path == index.files[j].path,
                        ActionView::Link { target, link } => {
                            &&& linkable(i, j)
                            &&& target == index.files[j].path
                            &&& is_temporary_name(platform, index.files[i].path, link)
                        },
                        ActionView::Unlink { path } => {
                            &&& linkable(i, j)
                            &&& linked
                            &&& path == index.files[i].path
                        },
                        ActionView::Discard { path } => {
                            &&& linked
                            &&& seen.unlinked is Some && seen.unlinked->0 is Err
                            &&& is_temporary_name(platform, index.files[i].path, path)
                        },
                        ActionView::Rename { from, to } => {
                            &&& linked && unlinked
                            &&& is_temporary_name(platform, index.files[i].path, from)
                            &&& to == index.files[i].path
                        },
                        ActionView::Relink { target, link } => {
                            &&& linked && unlinked
                            &&& seen.renamed is Some && seen.renamed->0 is Err
                            &&& target == index.files[j].path
                            &&& link == index.files[i].path
                        },
                        ActionView::Identify { path } => path == index.files[i].path,
                        ActionView::Finished { result } => {
                            &&& linkable(i, j) && linked && unlinked
                            &&& seen.renamed is Some
                            &&& seen.renamed->0 is Ok || seen.relinked == Some(true)
                            &&& seen.identity is Some
                            &&& one_row_and_one_record(index, after, i)
                            &&& after.files[i] == (FileView {
                                approved: false,
                                dev: seen.identity->0.dev,
                                inode: seen.identity->0.inode,
                                frn: seen.identity->0.frn,
                                ..index.files[i]
                            })
                            &&& is_record_of(
                                after.operations.last(),
                                index.files[i],
                                OperationState::Hardlinked,
                                now,
                                batch_id,
                            )
                            &&& after.operations.last().trash_path == index.files[j].path
                        },
                        _ => false,
                    }
                }
        }),
{
    let (after, action) = removal::hardlink_step(index, platform, id, seen, now, batch_id);
    if removal::removable(index.files, id) is Ok {
        lemma_link_target(index.files, id);
        let i = removal::removable(index.files, id)->Ok_0;
        let j = removal::link_target(index.files, i)->0;
        assert(may_be_removed(index.files, id, i, j));
        assert(removal::is_twin(index.files, i, j));
        if crate::paths::file_name_of(platform, index.files[i].path) is Some {
            lemma_temporary_name(platform, index.files[i].path);
        }
        if action == actions::done() {
            lemma_new_record(index.operations);
        }
    }
}

/// A duplicate that is a file of its own is linked: where no other live copy
/// is the same file on the disk, every check passes and the disk does what it
/// is asked, linking succeeds. One that is the same file as another copy
/// already is refused.
pub proof fn law_a_file_of_its_own_is_linked(
    index: IndexView,
    platform: Platform,
    id: i64,
    seen: Seen,
    now: i64,
    batch_id: Option<i64>,
    i: int,
    j: int,
)
    requires
        index.wf(),
        may_be_removed(index.files, id, i, j),
        has_content_of(seen, index.files[i]),
    ensures
        ({
            let action = removal::hardlink_step(index, platform, id, seen, now, batch_id).1;
            let apart = forall|r: int|
                may_be_removed(index.files, id, i, r) ==> !name_one_file(
                    index.files[i],
                    #[trigger] index.files[r],
                );
            let room = index.operations.len() == 0 || index.operations.last().id < i64::MAX;
            &&& !apart ==> action is Finished && action->result is Err
            &&& apart && seen.same_volume is None ==> action is CompareVolumes
            &&& apart && seen.same_volume == Some(Ok::<bool, String>(false)) ==> action is Finished
                && action->result is Err
            &&& apart && room && crate::paths::file_name_of(platform, index.files[i].path) is Some
                && seen.same_volume == Some(Ok::<bool, String>(true)) && seen.kept_hash is Some
                && seen.kept_hash->0 is Ok && seen.kept_hash->0->Ok_0@ == index.files[i].hash
                && seen.linked is Some && seen.linked->0 is Ok && seen.unlinked is Some
                && seen.unlinked->0 is Ok && seen.renamed is Some && seen.renamed->0 is Ok
                && seen.identity is Some ==> action == (ActionView::Finished { result: Ok(()) })
        }),
{
    lemma_refused(index.files, id);
    lemma_link_target(index.files, id);
    assert forall|r: int| #[trigger] may_be_removed(index.files, id, i, r) <==> 0 <= r
        < index.files.len() && removal::is_twin(index.files, i, r) by {}
    if removal::already_linked(index.files, i) {
        let r = choose|r: int|
            0 <= r < index.files.len() && #[trigger] removal::is_twin(index.files, i, r)
                && crate::groups::same_identity(index.files, i, r);
        assert(may_be_removed(index.files, id, i, r));
        assert(name_one_file(index.files[i], index.files[r]));
    }
    if exists|r: int|
        may_be_removed(index.files, id, i, r) && name_one_file(
            index.files[i],
            #[trigger] index.files[r],
        ) {
        let r = choose|r: int|
            may_be_removed(index.files, id, i, r) && name_one_file(
                index.files[i],
                #[trigger] index.files[r],
            );
        assert(may_be_removed(index.files, id, i, r));
        assert(removal::is_twin(index.files, i, r));
        assert(removal::already_linked(index.files, i));
    }
}

/// Removing a file by its path. The file may be any live and unprotected one;
/// it must be there, and have the indexed content.
pub proof fn law_removing_a_path_checks_it(
    index: IndexView,
    platform: Platform,
    path: Seq<char>,
    to_trash: bool,
    seen: Seen,
    now: i64,
    batch_id: Option<i64>,
)
    requires
        index.wf(),
    ensures
        ({
            let (after, action) = removal::remove_path_step(
                index,
                platform,
                path,
                to_trash,
                seen,
                now,
                batch_id,
            );
            &&& action matches ActionView::Finished { result } ==> result is Err ==> after == index
            &&& !(action is Finished) ==> after == index
            &&& !(action is Finished && action->result is Err) ==> exists|i: int|
                {
                    &&& 0 <= i < index.files.len()
                    &&& (#[trigger] index.files[i]).path == path
                    &&& index.files[i].present
                    &&& !index.files[i].protected
                    &&& !(action is Inspect) ==> seen.is_file == Some(true)
                    &&& match action {
                        ActionView::Inspect { path: asked } => asked == path,
                        ActionView::Hash { path: asked } => asked == path,
                        ActionView::MakeParents { .. } => to_trash && has_content_of(
                            seen,
                            index.files[i],
                        ),
                        ActionView::Move { from, to, hash } => {
                            &&& to_trash
                            &&& has_content_of(seen, index.files[i])
                            &&& from == path
                            &&& actions::bin_path(
                                index,
                                platform,
                                now,
                                index.files[i].id,
                                path,
                            ) == Ok::<Seq<char>, Seq<char>>(to)
                            &&& hash == index.files[i].hash
                        },
                        ActionView::Delete { path: asked } => {
                            &&& !to_trash
                            &&& has_content_of(seen, index.files[i])
                            &&& asked == path
                        },
                        ActionView::Finished { result } => {
                            &&& has_content_of(seen, index.files[i])
                            &&& to_trash ==> seen.moved is Some && seen.moved->0 is Ok
                            &&& !to_trash ==> seen.deleted is Some && seen.deleted->0 is Ok
                            &&& one_row_and_one_record(index, after, i)
                            &&& after.files[i] == (FileView {
                                present: false,
                                approved: false,
                                ..index.files[i]
                            })
                            &&& is_record_of(
                                after.operations.last(),
                                index.files[i],
                                if to_trash {
                                    OperationState::Trashed
                                } else {
                                    OperationState::Deleted
                                },
                                now,
                                batch_id,
                            )
                        },
                        _ => false,
                    }
                }
        }),
{
    let (after, action) = removal::remove_path_step(
        index,
        platform,
        path,
        to_trash,
        seen,
        now,
        batch_id,
    );
    if removal::removable_path(index.files, path) is Ok {
        let i = removal::removable_path(index.files, path)->Ok_0;
        assert(index.files[i].path == path);
        if action == actions::done() {
            lemma_new_record(index.operations);
        }
    }
}

/// A live and unprotected file can be removed by its path: where it is there,
/// has the indexed content and the disk does what it is asked, it is recycled
/// or deleted as asked for. One that is protected, absent or not there is
/// refused.
pub proof fn law_an_unprotected_path_can_be_removed(
    index: IndexView,
    platform: Platform,
    to_trash: bool,
    seen: Seen,
    now: i64,
    batch_id: Option<i64>,
    i: int,
)
    requires
        index.wf(),
        0 <= i < index.files.len(),
    ensures
        ({
            let path = index.files[i].path;
            let action = removal::remove_path_step(
                index,
                platform,
                path,
                to_trash,
                seen,
                now,
                batch_id,
            ).1;
            let free = index.files[i].present && !index.files[i].protected;
            let room = index.operations.len() == 0 || index.operations.last().id < i64::MAX;
            let checked = seen.is_file == Some(true) && has_content_of(seen, index.files[i]);
            &&& !free ==> action is Finished && action->result is Err
            &&& free && seen.is_file is None ==> action == (ActionView::Inspect { path })
            &&& free && seen.is_file == Some(false) ==> action is Finished && action->result is Err
            &&& free && seen.is_file == Some(true) && seen.content_hash is None ==> action == (
            ActionView::Hash { path })
            &&& free && checked && !to_trash && seen.deleted is None ==> action == (
            ActionView::Delete { path })
            &&& free && checked && room && !to_trash && seen.deleted is Some && seen.deleted->0
                is Ok ==> action == (ActionView::Finished { result: Ok(()) })
            &&& free && checked && room && to_trash && index.settings.contains_key("trash_path"@)
                && crate::paths::file_name_of(platform, path) is Some && seen.prepared is Some
                && seen.prepared->0 is Ok && seen.moved is Some && seen.moved->0 is Ok ==> action
                == (ActionView::Finished { result: Ok(()) })
        }),
{
    model::lemma_at_path(index.files, i);
}

// ---------------------------------------------------------------------------
// The recycle bin
// ---------------------------------------------------------------------------

/// Restoring an operation. It must be one of the bin; its file goes from
/// where the bin keeps it to where it came from, or into the directory that
/// was asked for, and only to a free place and with the recorded content. In
/// the end the row is live again, without approval.
pub proof fn law_restoring_brings_a_file_back(
    index: IndexView,
    platform: Platform,
    id: i64,
    target: Option<Seq<char>>,
    seen: Seen,
    now: i64,
)
    requires
        index.wf(),
    ensures
        ({
            let (after, action) = bin::restore_step(index, platform, id, target, seen, now);
            let checked = |k: int|
                {
                    &&& seen.occupied == Some(false)
                    &&& seen.content_hash is Some && seen.content_hash->0 is Ok
                        && seen.content_hash->0->Ok_0@ == index.operations[k].hash
                };
            let place = |k: int, to: Seq<char>|
                match target {
                    None => to == index.operations[k].source_path,
                    Some(directory) => {
                        &&& seen.is_directory == Some(true)
                        &&& directory.is_prefix_of(to)
                        &&& crate::paths::file_name_of(platform, index.operations[k].trash_path)
                            is Some
                        &&& crate::paths::file_name_of(
                            platform,
                            index.operations[k].trash_path,
                        )->0.is_suffix_of(to)
                    },
                };
            &&& action matches ActionView::Finished { result } ==> result is Err ==> after == index
            &&& !(action is Finished) ==> after == index
            &&& !(action is Finished && action->result is Err) ==> exists|k: int|
                {
                    &&& 0 <= k < index.operations.len()
                    &&& (#[trigger] index.operations[k]).id == id
                    &&& index.operations[k].state == OperationState::Trashed
                    &&& match action {
                        ActionView::InspectDirectory { path } => target == Some(path),
                        ActionView::Probe { path } => place(k, path),
                        ActionView::Hash { path } => path == index.operations[k].trash_path,
                        ActionView::MakeParents { path } => checked(k) && place(k, path),
                        ActionView::Move { from, to, hash } => {
                            &&& checked(k)
                            &&& from == index.operations[k].trash_path
                            &&& place(k, to)
                            &&& hash == index.operations[k].hash
                        },
                        ActionView::Finished { result } => {
                            &&& checked(k)
                            &&& seen.moved is Some && seen.moved->0 is Ok
                            &&& after.settings == index.settings
                            &&& after.photos == index.photos
                            &&& after.documents == index.documents
                            &&& after.verdicts == index.verdicts
                            &&& after.operations.len() == index.operations.len()
                            &&& after.operations[k] == (OperationView {
                                state: OperationState::Restored,
                                restored_at: Some(now),
                                ..index.operations[k]
                            })
                            &&& forall|m: int|
                                0 <= m < index.operations.len() && m != k
                                    ==> #[trigger] after.operations[m] == index.operations[m]
                            &&& after.files.len() == index.files.len()
                            &&& forall|p: int|
                                0 <= p < index.files.len() ==> #[trigger] after.files[p] == (
                                if index.files[p].id == index.operations[k].file_id {
                                    FileView { present: true, approved: false, ..index.files[p] }
                                } else {
                                    index.files[p]
                                })
                        },
                        _ => false,
                    }
                }
        }),
{
    let (after, action) = bin::restore_step(index, platform, id, target, seen, now);
    if bin::in_bin(index.operations, id, bin::not_restorable()) is Ok {
        let k = bin::in_bin(index.operations, id, bin::not_restorable())->Ok_0;
        assert(index.operations[k].id == id);
        if let Some(directory) = target {
            if let Some(name) = crate::paths::file_name_of(
                platform,
                index.operations[k].trash_path,
            ) {
                let to = crate::paths::inside(platform, directory, name);
                assert(directory =~= to.take(directory.len() as int));
                assert(name =~= to.skip(to.len() - name.len()));
            }
        }
        if action == actions::done() {
            let file_id = index.operations[k].file_id;
            assert(model::has_id(index.files, file_id));
            let i = model::at_id(index.files, file_id)->0;
            assert forall|p: int| 0 <= p < index.files.len() implies #[trigger] after.files[p] == (
            if index.files[p].id == file_id {
                FileView { present: true, approved: false, ..index.files[p] }
            } else {
                index.files[p]
            }) by {
                if index.files[p].id == file_id {
                    model::lemma_at_id(index.files, p);
                }
            }
        }
    }
}

/// Emptying the bin of one operation. Only what the bin keeps of that
/// operation is deleted, and at most directories above it, never the bin; the
/// operation is then recorded as deleted, and no row of a file changes.
pub proof fn law_emptying_deletes_what_the_bin_keeps(
    index: IndexView,
    platform: Platform,
    id: i64,
    seen: Seen,
)
    requires
        index.wf(),
    ensures
        ({
            let (after, action) = bin::delete_trash_step(index, platform, id, seen);
            &&& action matches ActionView::Finished { result } ==> result is Err ==> after == index
            &&& !(action is Finished) ==> after == index
            &&& !(action is Finished && action->result is Err) ==> exists|k: int|
                {
                    &&& 0 <= k < index.operations.len()
                    &&& (#[trigger] index.operations[k]).id == id
                    &&& index.operations[k].state == OperationState::Trashed
                    &&& match action {
                        ActionView::Probe { path } => path == index.operations[k].trash_path,
                        ActionView::Delete { path } => {
                            &&& seen.occupied == Some(true)
                            &&& path == index.operations[k].trash_path
                        },
                        ActionView::Prune { directories } => {
                            &&& seen.occupied == Some(false) || (seen.deleted is Some
                                && seen.deleted->0 is Ok)
                            &&& index.settings.contains_key("trash_path"@)
                            &&& forall|d: int|
                                0 <= d < directories.len() ==> {
                                    &&& (#[trigger] directories[d]).is_prefix_of(
                                        index.operations[k].trash_path,
                                    )
                                    &&& directories[d].len()
                                        < index.operations[k].trash_path.len()
                                    &&& directories[d] != index.settings["trash_path"@]
                                }
                        },
                        ActionView::Finished { result } => {
                            &&& seen.occupied == Some(false) || (seen.deleted is Some
                                && seen.deleted->0 is Ok)
                            &&& after == (IndexView { operations: after.operations, ..index })
                            &&& after.operations.len() == index.operations.len()
                            &&& after.operations[k] == (OperationView {
                                state: OperationState::Deleted,
                                ..index.operations[k]
                            })
                            &&& forall|m: int|
                                0 <= m < index.operations.len() && m != k
                                    ==> #[trigger] after.operations[m] == index.operations[m]
                        },
                        _ => false,
                    }
                }
        }),
{
    if bin::in_bin(index.operations, id, bin::not_deletable()) is Ok {
        let k = bin::in_bin(index.operations, id, bin::not_deletable())->Ok_0;
        assert(index.operations[k].id == id);
        let path = index.operations[k].trash_path;
        let root = index.settings["trash_path"@];
        let directories = crate::paths::directories_above(platform, path, root);
        assert forall|d: int| 0 <= d < directories.len() implies (
        #[trigger] directories[d]).is_prefix_of(path) && directories[d].len() < path.len()
            && directories[d] != root by {
            crate::conventions::law_only_directories_above_the_file_are_pruned(
                platform,
                path,
                root,
                d,
            );
        }
    }
}

/// An operation of the bin can be restored and can be emptied: where the
/// place is free, the content is the recorded one and the disk does what it
/// is asked, both succeed.
pub proof fn law_what_the_bin_keeps_can_come_back(
    index: IndexView,
    platform: Platform,
    k: int,
    seen: Seen,
    now: i64,
)
    requires
        index.wf(),
        0 <= k < index.operations.len(),
        index.operations[k].state == OperationState::Trashed,
    ensures
        ({
            let id = index.operations[k].id;
            let restored = bin::restore_step(index, platform, id, None, seen, now).1;
            let emptied = bin::delete_trash_step(index, platform, id, seen).1;
            &&& seen.occupied == Some(true) ==> restored is Finished && restored->result is Err
            &&& seen.occupied == Some(false) && seen.content_hash is Some && seen.content_hash->0
                is Ok && seen.content_hash->0->Ok_0@ == index.operations[k].hash && seen.prepared
                is Some && seen.prepared->0 is Ok && seen.moved is Some && seen.moved->0 is Ok
                ==> restored == (ActionView::Finished { result: Ok(()) })
            &&& seen.occupied == Some(false) && seen.content_hash is Some && seen.content_hash->0
                is Ok && seen.content_hash->0->Ok_0@ != index.operations[k].hash
                ==> restored is Finished && restored->result is Err
            &&& (seen.occupied == Some(false) || (seen.occupied == Some(true) && seen.deleted
                is Some && seen.deleted->0 is Ok)) && seen.pruned && index.settings.contains_key(
                "trash_path"@,
            ) ==> emptied == (ActionView::Finished { result: Ok(()) })
            &&& seen.occupied == Some(true) && seen.deleted is None ==> emptied
                == (ActionView::Delete { path: index.operations[k].trash_path })
        }),
{
    model::lemma_at_operation(index.operations, k);
}

/// What expires: the operations that have been in the bin for longer than
/// the stored number of days; thirty days where no usable number is stored,
/// and nothing at all where the number is zero.
pub proof fn law_what_expires_has_been_kept_long_enough(index: IndexView, now: i64, days: int)
    requires
        0 <= days,
        days * 24 * 60 * 60 <= i64::MAX,
        now - days * 24 * 60 * 60 >= i64::MIN,
        index.settings.contains_key("trash_retention_days"@)
            ==> match crate::text::parsed_i64(index.settings["trash_retention_days"@]) {
            Some(n) => days == n || (n < 0 && days == 30),
            None => days == 30,
        },
        !index.settings.contains_key("trash_retention_days"@) ==> days == 30,
    ensures
        forall|k: int| #[trigger]
            bin::expired(index, now).contains(k) <==> {
                &&& 0 <= k < index.operations.len()
                &&& days > 0
                &&& index.operations[k].state == OperationState::Trashed
                &&& now - index.operations[k].created_at > days * 24 * 60 * 60
            },
        forall|a: int, b: int|
            0 <= a < b < bin::expired(index, now).len() ==> bin::expired(index, now)[a]
                < bin::expired(index, now)[b],
{
    let limit = bin::expiry_limit(days as i64, now);
    let keep = |k: int|
        index.operations[k].state == OperationState::Trashed && index.operations[k].created_at
            < limit;
    lists::lemma_positions(index.operations.len(), keep);
    assert(settings::retention_of(index) == days);
    assert(limit == now - days * 86_400);
    if days > 0 {
        assert(bin::expired(index, now) == lists::positions(index.operations.len(), keep));
        assert forall|k: int| #[trigger] bin::expired(index, now).contains(k) <==> {
            &&& 0 <= k < index.operations.len()
            &&& days > 0
            &&& index.operations[k].state == OperationState::Trashed
            &&& now - index.operations[k].created_at > days * 24 * 60 * 60
        } by {
            assert(lists::positions(index.operations.len(), keep).contains(k) <==> 0 <= k
                < index.operations.len() && keep(k));
        }
    } else {
        assert(bin::expired(index, now).len() == 0);
    }
}

/// The files that are recycled are the operations of the bin, in the order of
/// their ids; those of a batch are those that carry its number.
pub proof fn law_the_bin_lists_what_was_recycled(operations: Seq<OperationView>, batch_id: i64)
    ensures
        forall|k: int| #[trigger]
            bin::recycled(operations).contains(k) <==> 0 <= k < operations.len()
                && operations[k].state == OperationState::Trashed,
        forall|k: int| #[trigger]
            bin::recycled_in_batch(operations, batch_id).contains(k) <==> 0 <= k < operations.len()
                && operations[k].state == OperationState::Trashed && operations[k].batch_id
                == Some(batch_id),
{
    let any = |k: int| operations[k].state == OperationState::Trashed;
    let own = |k: int|
        operations[k].state == OperationState::Trashed && operations[k].batch_id == Some(batch_id);
    lists::lemma_positions(operations.len(), any);
    lists::lemma_positions(operations.len(), own);
    assert forall|k: int| #[trigger] bin::recycled(operations).contains(k) <==> 0 <= k
        < operations.len() && operations[k].state == OperationState::Trashed by {
        assert(lists::positions(operations.len(), any).contains(k) <==> 0 <= k < operations.len()
            && any(k));
    }
    assert forall|k: int| #[trigger]
        bin::recycled_in_batch(operations, batch_id).contains(k) <==> 0 <= k < operations.len()
            && operations[k].state == OperationState::Trashed && operations[k].batch_id == Some(
            batch_id,
        ) by {
        assert(lists::positions(operations.len(), own).contains(k) <==> 0 <= k < operations.len()
            && own(k));
    }
}

// ---------------------------------------------------------------------------
// Approval
// ---------------------------------------------------------------------------

/// A row can be approved exactly where it is live and unprotected and has
/// another live copy; an approval can be taken back from every live row.
/// Nothing but the approval of that row changes.
pub proof fn law_approval_is_for_removable_duplicates(files: Seq<FileView>, id: i64, approved: bool)
    requires
        model::ids_ascending(files),
    ensures
        ({
            let result = crate::review::approval(files, id, approved);
            &&& result is Ok <==> exists|i: int|
                {
                    &&& 0 <= i < files.len()
                    &&& (#[trigger] files[i]).id == id
                    &&& files[i].present
                    &&& approved ==> !files[i].protected && exists|j: int|
                        0 <= j < files.len() && j != i && (#[trigger] files[j]).present
                            && files[j].hash == files[i].hash && files[j].size == files[i].size
                }
            &&& result matches Ok(after) ==> {
                &&& after.len() == files.len()
                &&& forall|p: int|
                    0 <= p < files.len() ==> #[trigger] after[p] == (if files[p].id == id {
                        FileView { approved, ..files[p] }
                    } else {
                        files[p]
                    })
            }
        }),
{
    let result = crate::review::approval(files, id, approved);
    assert forall|i: int| 0 <= i < files.len() && (#[trigger] files[i]).id == id implies model::at_id(
        files,
        id,
    ) == Some(i) && (model::exact_duplicate(files, i) && files[i].present <==> files[i].present
        && exists|j: int|
        0 <= j < files.len() && j != i && (#[trigger] files[j]).present && files[j].hash
            == files[i].hash && files[j].size == files[i].size) by {
        model::lemma_at_id(files, i);
        if files[i].present {
            model::lemma_duplicate_has_twin(files, i);
            if model::has_twin(files, i) {
                let j = choose|j: int|
                    0 <= j < files.len() && j != i && model::is_copy(
                        #[trigger] files[j],
                        files[i].hash,
                        files[i].size,
                    );
                assert(files[j].present);
            }
            if exists|j: int|
                0 <= j < files.len() && j != i && (#[trigger] files[j]).present && files[j].hash
                    == files[i].hash && files[j].size == files[i].size {
                let j = choose|j: int|
                    0 <= j < files.len() && j != i && (#[trigger] files[j]).present
                        && files[j].hash == files[i].hash && files[j].size == files[i].size;
                assert(model::is_copy(files[j], files[i].hash, files[i].size));
            }
        }
    }
    if model::has_id(files, id) {
        let i = model::at_id(files, id)->0;
        assert(files[i].id == id);
    }
}

} // verus!
