//! What the lists show and in which order, said of the rows that they show.
use crate::groups::{GroupSort, QueryView};
use crate::ledger::{HistoryItemView, TrashItemView};
use crate::model::{FileView, IndexView, OperationState, OperationView};
use crate::paths::Platform;
use crate::{contents, groups, ledger, lists, model, paths, reports, review, settings, text};
use vstd::prelude::*;
use vstd::relations::sorted_by;

verus! {

// ---------------------------------------------------------------------------
// Texts
// ---------------------------------------------------------------------------

/// Texts are ordered as in a dictionary: a text stands before another where
/// it is a beginning of it, or has the smaller character where they first
/// differ.
pub proof fn law_texts_are_ordered_by_their_first_difference(a: Seq<char>, b: Seq<char>)
    ensures
        text::text_le(a, b) <==> a.is_prefix_of(b) || exists|k: int|
            #![trigger a[k]]
            0 <= k < a.len() && k < b.len() && a.take(k) == b.take(k) && a[k] < b[k],
    decreases a.len(),
{
    if a.len() == 0 {
        assert(a =~= b.take(0));
    } else if b.len() > 0 {
        let x = a.skip(1);
        let y = b.skip(1);
        law_texts_are_ordered_by_their_first_difference(x, y);
        if a[0] < b[0] {
            assert(a.take(0) =~= b.take(0));
        }
        if a[0] == b[0] {
            if x.is_prefix_of(y) {
                assert(a =~= b.take(a.len() as int)) by {
                    assert forall|m: int| 0 <= m < a.len() implies a[m] == b[m] by {
                        if m > 0 {
                            assert(x[m - 1] == y[m - 1]);
                        }
                    }
                }
            }
            if a.is_prefix_of(b) {
                assert(x =~= y.take(x.len() as int)) by {
                    assert forall|m: int| 0 <= m < x.len() implies x[m] == y[m] by {
                        assert(a[m + 1] == b[m + 1]);
                    }
                }
            }
            if exists|k: int|
                #![trigger x[k]]
                0 <= k < x.len() && k < y.len() && x.take(k) == y.take(k) && x[k] < y[k] {
                let k = choose|k: int|
                    #![trigger x[k]]
                    0 <= k < x.len() && k < y.len() && x.take(k) == y.take(k) && x[k] < y[k];
                assert(a[k + 1] == x[k]);
                assert(a.take(k + 1) =~= b.take(k + 1)) by {
                    assert forall|m: int| 0 <= m < k + 1 implies a[m] == b[m] by {
                        if m > 0 {
                            assert(x.take(k)[m - 1] == y.take(k)[m - 1]);
                        }
                    }
                }
            }
        }
        if exists|k: int|
            #![trigger a[k]]
            0 <= k < a.len() && k < b.len() && a.take(k) == b.take(k) && a[k] < b[k] {
            let k = choose|k: int|
                #![trigger a[k]]
                0 <= k < a.len() && k < b.len() && a.take(k) == b.take(k) && a[k] < b[k];
            if k > 0 {
                assert(a.take(k)[0] == b.take(k)[0]);
                assert(x[k - 1] == a[k]);
                assert(x.take(k - 1) =~= y.take(k - 1)) by {
                    assert forall|m: int| 0 <= m < k - 1 implies x[m] == y[m] by {
                        assert(a.take(k)[m + 1] == b.take(k)[m + 1]);
                    }
                }
            }
        }
        if a.is_prefix_of(b) {
            assert(a[0] == b[0]);
        }
    }
}

// ---------------------------------------------------------------------------
// History and recycle bin
// ---------------------------------------------------------------------------

/// The history shows exactly the operations of the wanted state, or all of
/// them, each once: the latest first, and of those of one second the one that
/// was recorded last.
pub proof fn law_history_shows_the_latest_first(
    operations: Seq<OperationView>,
    state: Option<OperationState>,
)
    requires
        model::operation_ids_ascending(operations),
    ensures
        ({
            let list = ledger::listing(operations, state);
            &&& list.no_duplicates()
            &&& forall|k: int| #[trigger]
                list.contains(k) <==> 0 <= k < operations.len() && (state is Some
                    ==> operations[k].state == state->0)
            &&& forall|a: int, b: int|
                0 <= a < b < list.len() ==> {
                    let first = operations[#[trigger] list[a]];
                    let second = operations[#[trigger] list[b]];
                    first.created_at > second.created_at || (first.created_at
                        == second.created_at && first.id > second.id)
                }
        }),
{
    let keep = |k: int| ledger::has_state(operations, state, k);
    let all = lists::positions(operations.len(), keep);
    let order = ledger::newest_first(operations);
    let list = ledger::listing(operations, state);
    lists::lemma_positions(operations.len(), keep);
    ledger::lemma_newest_first(operations);
    lists::lemma_sort_by_members(all, order);
    assert(all.no_duplicates());
    all.lemma_multiset_has_no_duplicates();
    list.lemma_multiset_has_no_duplicates_conv();
    assert forall|k: int| #[trigger] list.contains(k) <==> 0 <= k < operations.len() && (state
        is Some ==> operations[k].state == state->0) by {
        assert(all.contains(k) <==> 0 <= k < operations.len() && keep(k));
    }
    assert forall|a: int, b: int| 0 <= a < b < list.len() implies {
        let first = operations[#[trigger] list[a]];
        let second = operations[#[trigger] list[b]];
        first.created_at > second.created_at || (first.created_at == second.created_at && first.id
            > second.id)
    } by {
        assert(order(list[a], list[b]));
        assert(list.contains(list[a]) && list.contains(list[b]));
        assert(list[a] != list[b]);
        if list[a] < list[b] {
            assert(operations[list[a]].id < operations[list[b]].id);
        } else {
            assert(operations[list[b]].id < operations[list[a]].id);
        }
    }
}

/// The filters of the history are the names of the four states; any other
/// name, or none, filters nothing.
pub proof fn law_history_filters_are_state_names(name: Seq<char>)
    ensures
        ledger::filter_state(None) is None,
        ledger::filter_state(Some(name)) == Some(OperationState::Trashed) <==> name == "trashed"@,
        ledger::filter_state(Some(name)) == Some(OperationState::Restored) <==> name
            == "restored"@,
        ledger::filter_state(Some(name)) == Some(OperationState::Deleted) <==> name == "deleted"@,
        ledger::filter_state(Some(name)) == Some(OperationState::Hardlinked) <==> name
            == "hardlinked"@,
{
    reveal_strlit("trashed");
    reveal_strlit("restored");
    reveal_strlit("deleted");
    reveal_strlit("hardlinked");
    assert("trashed"@[0] == 't');
    assert("restored"@[0] == 'r');
    assert("deleted"@[0] == 'd');
    assert("hardlinked"@[0] == 'h');
}

/// A page holds the entries from its offset on, as many as its limit allows:
/// a hundred where no limit is given, at least one and at most five hundred.
pub proof fn law_a_page_begins_at_its_offset<A>(
    list: Seq<A>,
    offset: Option<i64>,
    limit: Option<i64>,
    k: int,
)
    ensures
        ({
            let from = if offset is Some && offset->0 > 0 { offset->0 as int } else { 0 };
            let most = if limit is None {
                100
            } else if limit->0 < 1 {
                1
            } else if limit->0 > 500 {
                500
            } else {
                limit->0 as int
            };
            let shown = ledger::page(list, ledger::page_offset(offset), ledger::page_limit(limit));
            &&& shown.len() <= most
            &&& 0 <= k < most && from + k < list.len() ==> k < shown.len() && shown[k] == list[from
                + k]
            &&& from + most <= list.len() ==> shown.len() == most
            &&& from <= list.len() < from + most ==> shown.len() == list.len() - from
            &&& from >= list.len() ==> shown.len() == 0
        }),
{
}

/// An item of the bin or of the history tells what its operation recorded.
/// It is marked as expired exactly where it has been in the bin for more than
/// the days of retention, and never where these are zero.
pub proof fn law_items_tell_what_was_recorded(row: OperationView, retention: int, now: i64)
    requires
        retention >= 0,
        i64::MIN <= now - row.created_at <= i64::MAX,
    ensures
        ledger::trash_item(row, retention, now) == (TrashItemView {
            id: row.id,
            created_at: row.created_at,
            source_path: row.source_path,
            trash_path: row.trash_path,
            batch_id: row.batch_id,
            expired: retention > 0 && now - row.created_at > retention * 24 * 60 * 60,
        }),
        ledger::history_item(row) == (HistoryItemView {
            id: row.id,
            created_at: row.created_at,
            source_path: row.source_path,
            trash_path: row.trash_path,
            state: row.state,
            restored_at: row.restored_at,
        }),
{
}

/// What the bin marks as expired is what a scan deletes from it.
pub proof fn law_what_is_marked_expired_expires(index: IndexView, now: i64, k: int)
    requires
        0 <= k < index.operations.len(),
        index.operations[k].state == OperationState::Trashed,
        settings::retention_of(index) * 86_400 <= i64::MAX,
        i64::MIN <= now - settings::retention_of(index) * 86_400,
        i64::MIN <= now - index.operations[k].created_at <= i64::MAX,
    ensures
        crate::bin::expired(index, now).contains(k) <==> ledger::trash_item(
            index.operations[k],
            settings::retention_of(index) as int,
            now,
        ).expired,
{
    let limit = crate::bin::expiry_limit(settings::retention_of(index), now);
    let keep = |k: int|
        index.operations[k].state == OperationState::Trashed && index.operations[k].created_at
            < limit;
    lists::lemma_positions(index.operations.len(), keep);
    assert(lists::positions(index.operations.len(), keep).contains(k) <==> keep(k));
}

// ---------------------------------------------------------------------------
// Duplicate groups
// ---------------------------------------------------------------------------

/// A path that stands before the paths of all rows of the list.
pub open spec fn stands_first(files: Seq<FileView>, list: Seq<int>, path: Seq<char>) -> bool {
    &&& exists|k: int| 0 <= k < list.len() && files[#[trigger] list[k]].path == path
    &&& forall|k: int|
        0 <= k < list.len() ==> text::text_le(path, files[#[trigger] list[k]].path)
}

proof fn lemma_least_path(files: Seq<FileView>, list: Seq<int>)
    requires
        list.len() > 0,
    ensures
        stands_first(files, list, groups::least_path(files, list)),
    decreases list.len(),
{
    text::lemma_text_order();
    let least = groups::least_path(files, list);
    if list.len() == 1 {
        text::lemma_text_le_total(least, least);
        assert(files[list[0]].path == least);
    } else {
        let front = list.drop_last();
        lemma_least_path(files, front);
        let before = groups::least_path(files, front);
        let last = files[list.last()].path;
        text::lemma_text_le_total(before, last);
        text::lemma_text_le_total(last, last);
        let k = choose|k: int| 0 <= k < front.len() && files[#[trigger] front[k]].path == before;
        assert(files[list[k]].path == before);
        assert(files[list[list.len() - 1]].path == last);
        assert forall|k: int| 0 <= k < list.len() implies text::text_le(
            least,
            files[#[trigger] list[k]].path,
        ) by {
            if k < front.len() {
                assert(text::text_le(before, files[front[k]].path));
                text::lemma_text_le_transitive(least, before, files[list[k]].path);
            }
        }
    }
}

/// The list of groups is sorted as asked: by size, by the number of members,
/// or by the space that can be won, the greatest first; or by the first path
/// of each group.
pub proof fn law_groups_come_in_the_order_asked_for(
    files: Seq<FileView>,
    query: QueryView,
    a: int,
    b: int,
)
    requires
        0 <= a < b < groups::listing(files, query).len(),
    ensures
        ({
            let x = groups::listing(files, query)[a];
            let y = groups::listing(files, query)[b];
            let first = groups::shown_group(files, x);
            let second = groups::shown_group(files, y);
            match query.sort {
                GroupSort::Size => first.size > second.size || (first.size == second.size
                    && first.files.len() >= second.files.len()),
                GroupSort::Members => first.files.len() > second.files.len() || (first.files.len()
                    == second.files.len() && first.size >= second.size),
                GroupSort::Recoverable => first.recoverable >= second.recoverable,
                GroupSort::Path => exists|s: Seq<char>, t: Seq<char>| #[trigger]
                    stands_first(files, contents::members(files, x), s) && #[trigger] stands_first(
                        files,
                        contents::members(files, y),
                        t,
                    ) && text::text_le(s, t),
            }
        }),
{
    let keep = |p: int| groups::listed(files, query, p);
    let all = lists::positions(files.len(), keep);
    let order = groups::group_order(files, query.sort);
    groups::lemma_group_order(files, query.sort);
    lists::lemma_sort_by_members(all, order);
    groups::lemma_listing(files, query);
    groups::lemma_member_order(files);
    let list = groups::listing(files, query);
    let x = list[a];
    let y = list[b];
    assert(order(x, y));
    lists::lemma_sort_by_members(contents::members(files, x), groups::member_order(files));
    lists::lemma_sort_by_members(contents::members(files, y), groups::member_order(files));
    lemma_least_path(files, contents::members(files, x));
    lemma_least_path(files, contents::members(files, y));
    let s = groups::least_path(files, contents::members(files, x));
    let t = groups::least_path(files, contents::members(files, y));
    text::lemma_text_le_total(s, t);
}

/// What is shown of a row is what the row holds.
pub open spec fn shows(file: crate::keeper::GroupFileView, row: FileView) -> bool {
    &&& file.id == row.id
    &&& file.path == row.path
    &&& file.protected == row.protected
    &&& file.approved == row.approved
    &&& file.modified == row.modified
}

proof fn lemma_shown(files: Seq<FileView>, lead: int)
    requires
        0 <= lead < files.len(),
    ensures
        ({
            let shown = groups::shown_members(files, lead);
            &&& shown.no_duplicates()
            &&& sorted_by(shown, groups::member_order(files))
            &&& forall|p: int| #[trigger]
                shown.contains(p) <==> 0 <= p < files.len() && files[p].present && files[p].hash
                    == files[lead].hash && files[p].size == files[lead].size
        }),
{
    let list = contents::members(files, lead);
    let shown = groups::shown_members(files, lead);
    let keep = |q: int| contents::belongs(files, lead, q);
    lists::lemma_positions(files.len(), keep);
    groups::lemma_member_order(files);
    lists::lemma_sort_by_members(list, groups::member_order(files));
    assert(list.no_duplicates());
    list.lemma_multiset_has_no_duplicates();
    shown.lemma_multiset_has_no_duplicates_conv();
    assert forall|p: int| #[trigger] shown.contains(p) <==> 0 <= p < files.len()
        && files[p].present && files[p].hash == files[lead].hash && files[p].size
        == files[lead].size by {
        assert(list.contains(p) <==> 0 <= p < files.len() && keep(p));
    }
}

/// A group shows every live row of its content.
pub proof fn law_a_group_shows_its_copies(files: Seq<FileView>, lead: int, p: int)
    requires
        0 <= lead < files.len(),
        0 <= p < files.len(),
        files[p].present,
        files[p].hash == files[lead].hash,
        files[p].size == files[lead].size,
    ensures
        groups::shown_group(files, lead).hash == files[lead].hash,
        groups::shown_group(files, lead).size == files[lead].size,
        exists|k: int|
            0 <= k < groups::shown_group(files, lead).files.len() && shows(
                #[trigger] groups::shown_group(files, lead).files[k],
                files[p],
            ),
{
    lemma_shown(files, lead);
    let shown = groups::shown_members(files, lead);
    assert(shown.contains(p));
    let k = choose|k: int| 0 <= k < shown.len() && shown[k] == p;
    assert(shows(groups::shown_group(files, lead).files[k], files[p]));
}

/// A group shows nothing but live rows of its content.
pub proof fn law_a_group_shows_nothing_else(files: Seq<FileView>, lead: int, k: int)
    requires
        0 <= lead < files.len(),
        0 <= k < groups::shown_group(files, lead).files.len(),
    ensures
        exists|p: int|
            {
                &&& 0 <= p < files.len()
                &&& (#[trigger] files[p]).present
                &&& files[p].hash == files[lead].hash
                &&& files[p].size == files[lead].size
                &&& shows(groups::shown_group(files, lead).files[k], files[p])
            },
{
    lemma_shown(files, lead);
    let shown = groups::shown_members(files, lead);
    assert(shown.contains(shown[k]));
    assert(files[shown[k]].present);
}

/// A group shows each copy once: the latest first, and of those of one time
/// by their paths.
pub proof fn law_a_group_shows_the_latest_copy_first(
    files: Seq<FileView>,
    lead: int,
    a: int,
    b: int,
)
    requires
        0 <= lead < files.len(),
        model::ids_ascending(files),
        model::paths_unique(files),
        0 <= a < b < groups::shown_group(files, lead).files.len(),
    ensures
        ({
            let first = groups::shown_group(files, lead).files[a];
            let second = groups::shown_group(files, lead).files[b];
            &&& first.id != second.id
            &&& first.modified > second.modified || (first.modified == second.modified
                && first.path != second.path && text::text_le(first.path, second.path))
        }),
{
    lemma_shown(files, lead);
    let shown = groups::shown_members(files, lead);
    let p = shown[a];
    let q = shown[b];
    let order = groups::member_order(files);
    assert(order(p, q));
    assert(shown.contains(p) && shown.contains(q));
    if p < q {
        assert(files[p].id < files[q].id);
        assert(files[p].path != files[q].path);
    } else {
        assert(files[q].id < files[p].id);
        assert(files[q].path != files[p].path);
    }
}

/// A copy is shown as linked exactly where another copy of its group is the
/// same file on the disk.
pub proof fn law_linked_copies_share_a_file(files: Seq<FileView>, lead: int, k: int)
    requires
        0 <= k < groups::shown_group(files, lead).files.len(),
    ensures
        ({
            let list = groups::shown_members(files, lead);
            let row = files[list[k]];
            groups::shown_group(files, lead).files[k].hardlinked <==> (row.dev != 0 || row.inode
                != 0) && exists|m: int|
                0 <= m < list.len() && m != k && files[#[trigger] list[m]].dev == row.dev
                    && files[list[m]].inode == row.inode
        }),
{
    let list = groups::shown_members(files, lead);
    if groups::linked(files, list, k) {
        let m = choose|m: int|
            0 <= m < list.len() && m != k && groups::same_identity(files, #[trigger] list[m], list[k]);
        assert(files[list[m]].dev == files[list[k]].dev);
    }
    if exists|m: int|
        0 <= m < list.len() && m != k && files[#[trigger] list[m]].dev == files[list[k]].dev
            && files[list[m]].inode == files[list[k]].inode {
        let m = choose|m: int|
            0 <= m < list.len() && m != k && files[#[trigger] list[m]].dev == files[list[k]].dev
                && files[list[m]].inode == files[list[k]].inode;
        assert(groups::same_identity(files, list[m], list[k]));
    }
}

/// The space that can be won: each copy but one gives its size, where no two
/// copies are one file on the disk; a copy that is another name of a file of
/// the group gives nothing.
pub proof fn law_every_further_file_gives_its_size(files: Seq<FileView>, list: Seq<int>, p: int)
    ensures
        ({
            let longer = list.push(p);
            let repeats = (files[p].dev != 0 || files[p].inode != 0) && exists|k: int|
                0 <= k < list.len() && files[#[trigger] list[k]].dev == files[p].dev
                    && files[list[k]].inode == files[p].inode;
            groups::physical(files, longer) == groups::physical(files, list) + (if repeats {
                0int
            } else {
                1int
            })
        }),
        groups::physical(files, Seq::empty()) == 0,
{
    let longer = list.push(p);
    assert(longer.drop_last() =~= list);
    if groups::repeats(files, list, p) {
        let k = choose|k: int|
            0 <= k < list.len() && groups::same_identity(files, #[trigger] list[k], p);
        assert(files[list[k]].dev == files[p].dev);
    }
    if exists|k: int|
        0 <= k < list.len() && files[#[trigger] list[k]].dev == files[p].dev
            && files[list[k]].inode == files[p].inode {
        let k = choose|k: int|
            0 <= k < list.len() && files[#[trigger] list[k]].dev == files[p].dev
                && files[list[k]].inode == files[p].inode;
        assert(groups::same_identity(files, list[k], p));
    }
}

/// What a group shows as winnable is the size of its files times the number
/// of files on the disk but one, as far as the number can be told.
pub proof fn law_winnable_space_is_size_times_further_files(files: Seq<FileView>, lead: int)
    requires
        i64::MIN <= files[lead].size * (groups::physical(files, contents::members(files, lead))
            - 1) <= i64::MAX,
    ensures
        groups::shown_group(files, lead).recoverable == files[lead].size * (groups::physical(
            files,
            contents::members(files, lead),
        ) - 1),
{
}

/// A path ends in a dot and one of the extensions, in any case.
pub open spec fn has_ending(path: Seq<char>, extensions: Seq<Seq<char>>) -> bool {
    exists|e: int|
        0 <= e < extensions.len() && (seq!['.'] + #[trigger] extensions[e]).is_suffix_of(
            text::lower(path),
        )
}

/// A path holds the text somewhere, in any case.
pub open spec fn has_part(path: Seq<char>, part: Seq<char>) -> bool {
    exists|a: Seq<char>, b: Seq<char>|
        text::lower(path) == #[trigger] ((a + text::lower(part)) + b)
}

/// A path goes on behind the directory, with a separator of either kind.
pub open spec fn goes_on_behind(path: Seq<char>, dir: Seq<char>) -> bool {
    &&& path.len() > dir.len()
    &&& dir.is_prefix_of(path)
    &&& {
        ||| path[dir.len() as int] == '/'
        ||| path[dir.len() as int] == '\\'
        ||| dir.len() > 0 && (dir.last() == '/' || dir.last() == '\\')
    }
}

proof fn lemma_filters(path: Seq<char>, extensions: Seq<Seq<char>>, part: Seq<char>, dir: Seq<char>)
    ensures
        groups::has_extension(path, extensions) <==> has_ending(path, extensions),
        groups::path_holds(path, part) <==> has_part(path, part),
        paths::inside_text(path, dir) <==> goes_on_behind(path, dir),
{
    let low = text::lower(path);
    if groups::has_extension(path, extensions) {
        let e = choose|e: int|
            0 <= e < extensions.len() && text::ends_with(low, seq!['.'] + #[trigger] extensions[e]);
        let tail = seq!['.'] + extensions[e];
        assert(tail =~= low.skip(low.len() - tail.len()));
    }
    if has_ending(path, extensions) {
        let e = choose|e: int|
            0 <= e < extensions.len() && (seq!['.'] + #[trigger] extensions[e]).is_suffix_of(low);
        let tail = seq!['.'] + extensions[e];
        assert(low.subrange(low.len() - tail.len(), low.len() as int) =~= tail);
        assert(text::ends_with(low, seq!['.'] + extensions[e]));
    }
    let wanted = text::lower(part);
    if groups::path_holds(path, part) {
        let at = choose|at: int| text::stands_at(low, wanted, at);
        assert(low =~= (low.take(at) + wanted) + low.skip(at + wanted.len()));
    }
    if has_part(path, part) {
        let (a, b) = choose|a: Seq<char>, b: Seq<char>| low == #[trigger] ((a + wanted) + b);
        assert(low.subrange(a.len() as int, (a.len() + wanted.len()) as int) =~= wanted);
        assert(text::stands_at(low, wanted, a.len() as int));
    }
    if paths::inside_text(path, dir) {
        assert(dir =~= path.take(dir.len() as int));
    }
    if goes_on_behind(path, dir) {
        assert(path.subrange(0, dir.len() as int) =~= dir);
    }
}

/// A content of several live rows is listed exactly where it is large enough
/// and passes every filter that is set: some member has an extension of the
/// wanted kind, some member lies below the wanted directory, and some member
/// has the wanted text in its path. An unknown kind and a directory of blanks
/// let everything pass.
pub proof fn law_filters_look_at_the_members(
    files: Seq<FileView>,
    query: QueryView,
    lead: int,
    other: int,
)
    requires
        0 <= lead < other < files.len(),
        files[lead].present && files[other].present,
        files[lead].hash == files[other].hash,
        files[lead].size == files[other].size,
        files[lead].size >= 0,
        forall|q: int|
            0 <= q < lead ==> !((#[trigger] files[q]).present && files[q].hash == files[lead].hash
                && files[q].size == files[lead].size),
    ensures
        ({
            let member = |p: int|
                0 <= p < files.len() && files[p].present && files[p].hash == files[lead].hash
                    && files[p].size == files[lead].size;
            groups::listing(files, query).contains(lead) <==> {
                &&& files[lead].size >= query.min_size
                &&& query.kind is Some && groups::kind_list(query.kind->0) is Some ==> exists|p: int|
                    member(p) && has_ending(
                        (#[trigger] files[p]).path,
                        groups::kind_list(query.kind->0)->0,
                    )
                &&& query.path_contains is Some ==> exists|p: int|
                    member(p) && has_part(
                        (#[trigger] files[p]).path,
                        text::trimmed(query.path_contains->0),
                    )
                &&& query.dir_contains is Some && text::trimmed(query.dir_contains->0).len() > 0
                    ==> exists|p: int|
                    member(p) && goes_on_behind(
                        (#[trigger] files[p]).path,
                        text::trimmed(query.dir_contains->0),
                    )
            }
        }),
{
    groups::lemma_listing(files, query);
    let list = contents::members(files, lead);
    let own = |q: int| contents::belongs(files, lead, q);
    lists::lemma_positions(files.len(), own);
    lemma_has_company(files, lead);
    assert(files[other].present);
    assert(contents::leads(files, lead)) by {
        assert forall|q: int| 0 <= q < lead implies !#[trigger] contents::belongs(
            files,
            lead,
            q,
        ) by {
            if contents::belongs(files, lead, q) {
                assert(files[q].present);
            }
        }
    }
    let member = |p: int|
        0 <= p < files.len() && files[p].present && files[p].hash == files[lead].hash
            && files[p].size == files[lead].size;
    assert forall|p: int| #[trigger] list.contains(p) <==> member(p) by {
        assert(list.contains(p) <==> 0 <= p < files.len() && own(p));
    }
    assert forall|p: int, extensions: Seq<Seq<char>>| #[trigger]
        groups::has_extension(files[p].path, extensions) <==> has_ending(
            files[p].path,
            extensions,
        ) by {
        lemma_filters(files[p].path, extensions, Seq::empty(), Seq::empty());
    }
    assert forall|p: int, part: Seq<char>| #[trigger]
        groups::path_holds(files[p].path, part) <==> has_part(files[p].path, part) by {
        lemma_filters(files[p].path, Seq::empty(), part, Seq::empty());
    }
    assert forall|p: int, dir: Seq<char>| #[trigger]
        paths::inside_text(files[p].path, dir) <==> goes_on_behind(files[p].path, dir) by {
        lemma_filters(files[p].path, Seq::empty(), Seq::empty(), dir);
    }
    if query.kind is Some && groups::kind_list(query.kind->0) is Some {
        let extensions = groups::kind_list(query.kind->0)->0;
        if groups::any_of_kind(files, list, extensions) {
            let k = choose|k: int|
                0 <= k < list.len() && groups::has_extension(
                    files[#[trigger] list[k]].path,
                    extensions,
                );
            assert(list.contains(list[k]));
            assert(has_ending(files[list[k]].path, extensions));
        }
        if exists|p: int| member(p) && has_ending((#[trigger] files[p]).path, extensions) {
            let p = choose|p: int| member(p) && has_ending((#[trigger] files[p]).path, extensions);
            assert(list.contains(p));
            let k = choose|k: int| 0 <= k < list.len() && list[k] == p;
            assert(groups::has_extension(files[list[k]].path, extensions));
        }
    }
    if query.path_contains is Some {
        let part = text::trimmed(query.path_contains->0);
        if groups::any_holds(files, list, part) {
            let k = choose|k: int|
                0 <= k < list.len() && groups::path_holds(files[#[trigger] list[k]].path, part);
            assert(list.contains(list[k]));
            assert(has_part(files[list[k]].path, part));
        }
        if exists|p: int| member(p) && has_part((#[trigger] files[p]).path, part) {
            let p = choose|p: int| member(p) && has_part((#[trigger] files[p]).path, part);
            assert(list.contains(p));
            let k = choose|k: int| 0 <= k < list.len() && list[k] == p;
            assert(groups::path_holds(files[list[k]].path, part));
        }
    }
    if query.dir_contains is Some && text::trimmed(query.dir_contains->0).len() > 0 {
        let dir = text::trimmed(query.dir_contains->0);
        if groups::any_under(files, list, dir) {
            let k = choose|k: int|
                0 <= k < list.len() && paths::inside_text(files[#[trigger] list[k]].path, dir);
            assert(list.contains(list[k]));
            assert(goes_on_behind(files[list[k]].path, dir));
        }
        if exists|p: int| member(p) && goes_on_behind((#[trigger] files[p]).path, dir) {
            let p = choose|p: int| member(p) && goes_on_behind((#[trigger] files[p]).path, dir);
            assert(list.contains(p));
            let k = choose|k: int| 0 <= k < list.len() && list[k] == p;
            assert(paths::inside_text(files[list[k]].path, dir));
        }
    }
}

/// A page of groups has at most two hundred entries.
pub proof fn law_a_page_of_groups_is_bounded(files: Seq<FileView>, query: QueryView)
    ensures
        groups::shown_page(files, query).len() <= 200,
        1 <= query.limit <= 200 ==> groups::shown_page(files, query).len() <= query.limit,
        query.limit < 1 ==> groups::shown_page(files, query).len() <= 1,
        query.offset >= groups::listing(files, query).len() ==> groups::shown_page(
            files,
            query,
        ).len() == 0,
{
}

/// A sweep asks for the groups that it was told to: of the size, the kind,
/// the directory and the text that it was given, where the latter two are not
/// blank.
pub proof fn law_a_sweep_asks_for_what_it_was_told(
    min_size: i64,
    path_contains: Seq<char>,
    kind: Option<Seq<char>>,
    dir_contains: Seq<char>,
)
    ensures
        ({
            let query = review::sweep_query(min_size, path_contains, kind, dir_contains);
            &&& query.min_size == min_size
            &&& query.kind == kind
            &&& query.path_contains is Some <==> text::trimmed(path_contains).len() > 0
            &&& query.path_contains is Some ==> query.path_contains->0 == text::trimmed(
                path_contains,
            )
            &&& query.dir_contains is Some <==> dir_contains.len() > 0
            &&& query.dir_contains is Some ==> query.dir_contains->0 == dir_contains
        }),
{
}

/// The number that a sweep tells is the number of rows that it approved.
pub proof fn law_a_sweep_tells_how_many_it_approved(
    files: Seq<FileView>,
    query: QueryView,
    strategy: crate::keeper::MarkStrategy,
)
    ensures
        review::newly_marked(files, query, strategy).len() == Set::new(
            |p: int|
                0 <= p < files.len() && !files[p].approved && review::swept(
                    files,
                    query,
                    strategy,
                )[p].approved,
        ).len(),
{
    let keep = |p: int| review::marked(files, query, strategy, p) && !files[p].approved;
    lists::lemma_positions(files.len(), keep);
    let list = lists::positions(files.len(), keep);
    list.unique_seq_to_set();
    let set = Set::new(
        |p: int|
            0 <= p < files.len() && !files[p].approved && review::swept(
                files,
                query,
                strategy,
            )[p].approved,
    );
    assert(list.to_set() =~= set) by {
        assert forall|p: int| list.to_set().contains(p) <==> set.contains(p) by {
            assert(list.contains(p) <==> 0 <= p < files.len() && keep(p));
        }
    }
}

// ---------------------------------------------------------------------------
// Counts and reports
// ---------------------------------------------------------------------------

/// The three numbers of the status: the live rows, the live rows that have an
/// earlier live row of the same content, and the operations in the bin.
pub proof fn law_status_counts_rows(files: Seq<FileView>, operations: Seq<OperationView>)
    ensures
        reports::live_count(files) == Set::new(
            |p: int| 0 <= p < files.len() && files[p].present,
        ).len(),
        reports::surplus_count(files) == Set::new(
            |p: int|
                0 <= p < files.len() && files[p].present && exists|q: int|
                    0 <= q < p && (#[trigger] files[q]).present && files[q].hash == files[p].hash
                        && files[q].size == files[p].size,
        ).len(),
        reports::bin_count(operations) == Set::new(
            |k: int| 0 <= k < operations.len() && operations[k].state == OperationState::Trashed,
        ).len(),
{
    let live = |p: int| files[p].present;
    lemma_positions_set(files.len(), live);
    assert(Set::new(|p: int| 0 <= p < files.len() && live(p)) =~= Set::new(
        |p: int| 0 <= p < files.len() && files[p].present,
    ));
    let extra = |p: int| files[p].present && !contents::leads(files, p);
    lemma_positions_set(files.len(), extra);
    assert(Set::new(|p: int| 0 <= p < files.len() && extra(p)) =~= Set::new(
        |p: int|
            0 <= p < files.len() && files[p].present && exists|q: int|
                0 <= q < p && (#[trigger] files[q]).present && files[q].hash == files[p].hash
                    && files[q].size == files[p].size,
    )) by {
        assert forall|p: int| 0 <= p < files.len() implies (extra(p) <==> files[p].present
            && exists|q: int|
            0 <= q < p && (#[trigger] files[q]).present && files[q].hash == files[p].hash
                && files[q].size == files[p].size) by {
            if files[p].present && !contents::leads(files, p) {
                let q = choose|q: int| 0 <= q < p && #[trigger] contents::belongs(files, p, q);
                assert(files[q].present);
            }
            if exists|q: int|
                0 <= q < p && (#[trigger] files[q]).present && files[q].hash == files[p].hash
                    && files[q].size == files[p].size {
                let q = choose|q: int|
                    0 <= q < p && (#[trigger] files[q]).present && files[q].hash == files[p].hash
                        && files[q].size == files[p].size;
                assert(contents::belongs(files, p, q));
            }
        }
    }
    let binned = |k: int| operations[k].state == OperationState::Trashed;
    lemma_positions_set(operations.len(), binned);
    assert(Set::new(|k: int| 0 <= k < operations.len() && binned(k)) =~= Set::new(
        |k: int| 0 <= k < operations.len() && operations[k].state == OperationState::Trashed,
    ));
}

proof fn lemma_positions_set(n: nat, keep: spec_fn(int) -> bool)
    ensures
        lists::positions(n, keep).len() == Set::new(|p: int| 0 <= p < n && keep(p)).len(),
{
    lists::lemma_positions(n, keep);
    let list = lists::positions(n, keep);
    list.unique_seq_to_set();
    assert(list.to_set() =~= Set::new(|p: int| 0 <= p < n && keep(p))) by {
        assert forall|p: int| list.to_set().contains(p) <==> 0 <= p < n && keep(p) by {
            assert(list.contains(p) <==> 0 <= p < n && keep(p));
        }
    }
}

/// The report lists exactly the live rows that have another live row of their
/// content, each once, by hash and then by path.
pub proof fn law_the_report_lists_every_duplicate(files: Seq<FileView>)
    requires
        model::paths_unique(files),
    ensures
        ({
            let rows = reports::report_rows(files);
            &&& rows.no_duplicates()
            &&& forall|p: int| #[trigger]
                rows.contains(p) <==> 0 <= p < files.len() && files[p].present && exists|q: int|
                    0 <= q < files.len() && q != p && (#[trigger] files[q]).present
                        && files[q].hash == files[p].hash && files[q].size == files[p].size
            &&& forall|a: int, b: int|
                0 <= a < b < rows.len() ==> {
                    let first = files[#[trigger] rows[a]];
                    let second = files[#[trigger] rows[b]];
                    text::text_le(first.hash, second.hash) && (first.hash == second.hash
                        ==> text::text_le(first.path, second.path))
                }
        }),
{
    let keep = |p: int| reports::duplicated(files, p);
    let order = reports::report_order(files);
    let all = reports::duplicates(files);
    let rows = reports::report_rows(files);
    lists::lemma_positions(files.len(), keep);
    lists::lemma_by_position();
    lists::lemma_by_text(|p: int| files[p].path, lists::by_position());
    lists::lemma_by_text(
        |p: int| files[p].hash,
        lists::by_text(|p: int| files[p].path, lists::by_position()),
    );
    lists::lemma_sort_by_members(all, order);
    assert(all.no_duplicates());
    all.lemma_multiset_has_no_duplicates();
    rows.lemma_multiset_has_no_duplicates_conv();
    assert forall|p: int| #[trigger] rows.contains(p) <==> 0 <= p < files.len() && files[p].present
        && exists|q: int|
        0 <= q < files.len() && q != p && (#[trigger] files[q]).present && files[q].hash
            == files[p].hash && files[q].size == files[p].size by {
        assert(all.contains(p) <==> 0 <= p < files.len() && keep(p));
        if 0 <= p < files.len() && files[p].present {
            lemma_has_company(files, p);
        }
    }
    assert forall|a: int, b: int| 0 <= a < b < rows.len() implies {
        let first = files[#[trigger] rows[a]];
        let second = files[#[trigger] rows[b]];
        text::text_le(first.hash, second.hash) && (first.hash == second.hash ==> text::text_le(
            first.path,
            second.path,
        ))
    } by {
        assert(order(rows[a], rows[b]));
        let first = files[rows[a]];
        let second = files[rows[b]];
        text::lemma_text_le_total(first.hash, first.hash);
        text::lemma_text_le_total(first.path, first.path);
    }
}

proof fn lemma_has_company(files: Seq<FileView>, p: int)
    requires
        0 <= p < files.len(),
        files[p].present,
    ensures
        contents::members(files, p).len() > 1 <==> exists|q: int|
            0 <= q < files.len() && q != p && (#[trigger] files[q]).present && files[q].hash
                == files[p].hash && files[q].size == files[p].size,
{
    let keep = |q: int| contents::belongs(files, p, q);
    let list = contents::members(files, p);
    lists::lemma_positions(files.len(), keep);
    assert(keep(p));
    assert(list.contains(p));
    let m = choose|m: int| 0 <= m < list.len() && list[m] == p;
    if list.len() > 1 {
        let q = if m == 0 { list[1] } else { list[0] };
        assert(keep(list[0]) && keep(list[1]));
        assert(list[0] < list[1]);
        assert(files[q].present);
    }
    if exists|q: int|
        0 <= q < files.len() && q != p && (#[trigger] files[q]).present && files[q].hash
            == files[p].hash && files[q].size == files[p].size {
        let q = choose|q: int|
            0 <= q < files.len() && q != p && (#[trigger] files[q]).present && files[q].hash
                == files[p].hash && files[q].size == files[p].size;
        assert(keep(q));
        assert(list.contains(q));
        let n = choose|n: int| 0 <= n < list.len() && list[n] == q;
        assert(m != n);
    }
}

/// The printed groups: every content that has two live rows or more, once;
/// the largest files first, and of one size by hash.
pub proof fn law_printed_groups_are_the_duplicates(files: Seq<FileView>)
    ensures
        ({
            let list = reports::listed(files);
            &&& forall|k: int|
                0 <= k < list.len() ==> 0 <= #[trigger] list[k] < files.len()
                    && files[list[k]].present && exists|q: int|
                    0 <= q < files.len() && q != list[k] && (#[trigger] files[q]).present
                        && files[q].hash == files[list[k]].hash && files[q].size
                        == files[list[k]].size
            &&& forall|a: int, b: int|
                0 <= a < b < list.len() ==> {
                    let first = files[#[trigger] list[a]];
                    let second = files[#[trigger] list[b]];
                    first.size > second.size || (first.size == second.size && first.hash
                        != second.hash && text::text_le(first.hash, second.hash))
                }
            &&& forall|p: int, q: int|
                0 <= p < q < files.len() && (#[trigger] files[p]).present && (
                #[trigger] files[q]).present && files[p].hash == files[q].hash && files[p].size
                    == files[q].size ==> exists|k: int|
                    0 <= k < list.len() && files[#[trigger] list[k]].hash == files[p].hash
                        && files[list[k]].size == files[p].size
        }),
{
    let keep = |p: int| contents::leads(files, p) && contents::members(files, p).len() > 1;
    let all = lists::positions(files.len(), keep);
    let order = reports::listing_order(files);
    let list = reports::listed(files);
    lists::lemma_positions(files.len(), keep);
    lists::lemma_by_position();
    lists::lemma_by_text(|p: int| files[p].hash, lists::by_position());
    lists::lemma_by_rank(
        |p: int| files[p].size as int,
        lists::by_text(|p: int| files[p].hash, lists::by_position()),
    );
    lists::lemma_sort_by_members(all, order);
    assert(all.no_duplicates());
    all.lemma_multiset_has_no_duplicates();
    list.lemma_multiset_has_no_duplicates_conv();
    assert forall|k: int| 0 <= k < list.len() implies 0 <= #[trigger] list[k] < files.len()
        && files[list[k]].present && keep(list[k]) && exists|q: int|
        0 <= q < files.len() && q != list[k] && (#[trigger] files[q]).present && files[q].hash
            == files[list[k]].hash && files[q].size == files[list[k]].size by {
        assert(list.contains(list[k]));
        assert(all.contains(list[k]));
        lemma_has_company(files, list[k]);
    }
    assert forall|a: int, b: int| 0 <= a < b < list.len() implies {
        let first = files[#[trigger] list[a]];
        let second = files[#[trigger] list[b]];
        first.size > second.size || (first.size == second.size && first.hash != second.hash
            && text::text_le(first.hash, second.hash))
    } by {
        let p = list[a];
        let q = list[b];
        assert(order(p, q));
        assert(p != q);
        assert(keep(p) && keep(q));
        if files[p].size == files[q].size && files[p].hash == files[q].hash {
            if p < q {
                assert(contents::belongs(files, q, p));
            } else {
                assert(contents::belongs(files, p, q));
            }
        }
    }
    assert forall|p: int, q: int|
        0 <= p < q < files.len() && (#[trigger] files[p]).present && (#[trigger] files[q]).present
            && files[p].hash == files[q].hash && files[p].size == files[q].size implies exists|k: int|
        0 <= k < list.len() && files[#[trigger] list[k]].hash == files[p].hash && files[list[k]].size
            == files[p].size by {
        let own = |r: int| contents::belongs(files, p, r);
        lists::lemma_positions(files.len(), own);
        let members = contents::members(files, p);
        assert(own(p) && own(q));
        assert(members.contains(p));
        let lead = members[0];
        assert(own(lead));
        assert(contents::leads(files, lead)) by {
            assert forall|r: int| 0 <= r < lead implies !#[trigger] contents::belongs(
                files,
                lead,
                r,
            ) by {
                if contents::belongs(files, lead, r) {
                    assert(own(r));
                    assert(members.contains(r));
                    let n = choose|n: int| 0 <= n < members.len() && members[n] == r;
                    if n > 0 {
                        assert(members[0] < members[n]);
                    }
                }
            }
        }
        let other = if lead == p { q } else { p };
        assert(files[other].present);
        lemma_has_company(files, lead);
        assert(keep(lead));
        assert(all.contains(lead));
        assert(list.contains(lead));
        let k = choose|k: int| 0 <= k < list.len() && list[k] == lead;
        assert(files[list[k]].hash == files[p].hash);
    }
}

/// The preview of protection rules: the live rows that a rule covers, all of
/// them counted, the first twenty shown.
pub proof fn law_the_preview_shows_what_rules_cover(
    platform: Platform,
    files: Seq<FileView>,
    rules: Seq<Seq<char>>,
)
    ensures
        ({
            let rows = review::shielded(platform, files, rules);
            let shown = review::sample_paths(files, rows);
            &&& forall|p: int| #[trigger]
                rows.contains(p) <==> 0 <= p < files.len() && files[p].present
                    && paths::protected_by(platform, files[p].path, rules)
            &&& shown.len() == (if rows.len() < 20 { rows.len() as int } else { 20 })
            &&& forall|k: int|
                0 <= k < shown.len() ==> #[trigger] shown[k] == files[rows[k]].path
            &&& forall|a: int, b: int| 0 <= a < b < rows.len() ==> rows[a] < rows[b]
        }),
{
    let keep = |p: int|
        files[p].present && paths::protected_by(platform, files[p].path, rules);
    lists::lemma_positions(files.len(), keep);
    let rows = review::shielded(platform, files, rules);
    assert forall|p: int| #[trigger] rows.contains(p) <==> 0 <= p < files.len() && files[p].present
        && paths::protected_by(platform, files[p].path, rules) by {
        assert(lists::positions(files.len(), keep).contains(p) <==> 0 <= p < files.len() && keep(
            p,
        ));
    }
}

proof fn lemma_one_more(list: Seq<Seq<char>>, dir: Seq<char>, last: Seq<char>)
    ensures
        reports::occurrences(list.push(last), dir).len() == reports::occurrences(list, dir).len()
            + (if last == dir { 1int } else { 0 }),
{
    let longer = list.push(last);
    let was = |j: int| reports::is_dir(list, dir, j);
    let is = |j: int| reports::is_dir(longer, dir, j);
    lists::lemma_positions_congruent(list.len(), was, is);
    assert(longer.len() == list.len() + 1);
    assert(is(list.len() as int) == (last == dir));
}

proof fn lemma_counted_parents(files: Seq<FileView>, n: nat, dir: Seq<char>)
    requires
        n <= files.len(),
    ensures
        reports::occurrences(
            reports::parents(files, lists::positions(n, |p: int| reports::duplicated(files, p))),
            dir,
        ).len() == lists::positions(
            n,
            |p: int|
                reports::duplicated(files, p) && paths::parent_of(Platform::Windows, files[p].path)
                    == Some(dir),
        ).len(),
    decreases n,
{
    let keep = |p: int| reports::duplicated(files, p);
    let both = |p: int|
        reports::duplicated(files, p) && paths::parent_of(Platform::Windows, files[p].path) == Some(
            dir,
        );
    let rows = lists::positions(n, keep);
    if n == 0 {
        assert(reports::parents(files, rows) =~= Seq::<Seq<char>>::empty());
        assert(reports::occurrences(reports::parents(files, rows), dir).len() == 0);
    } else {
        let m = (n - 1) as nat;
        lemma_counted_parents(files, m, dir);
        let before = lists::positions(m, keep);
        if keep(n - 1) {
            assert(rows.drop_last() =~= before);
            assert(rows.last() == n - 1);
            match paths::parent_of(Platform::Windows, files[n - 1].path) {
                Some(own) => {
                    lemma_one_more(reports::parents(files, before), dir, own);
                },
                None => {},
            }
        }
    }
}

/// The path is the directory, a slash or backslash, and a name without one.
pub open spec fn lies_directly_in(path: Seq<char>, dir: Seq<char>) -> bool {
    let n = dir.len() as int;
    &&& path.len() > n
    &&& dir.is_prefix_of(path)
    &&& path[n] == '/' || path[n] == '\\'
    &&& forall|k: int| n < k < path.len() ==> #[trigger] path[k] != '/' && path[k] != '\\'
}

/// The row is live, and another live row has its content.
pub open spec fn has_a_copy(files: Seq<FileView>, p: int) -> bool {
    files[p].present && exists|q: int|
        0 <= q < files.len() && q != p && (#[trigger] files[q]).present && files[q].hash
            == files[p].hash && files[q].size == files[p].size
}

proof fn lemma_parent(path: Seq<char>, dir: Seq<char>)
    ensures
        paths::parent_of(Platform::Windows, path) == Some(dir) <==> lies_directly_in(path, dir),
{
    paths::lemma_last_separator(Platform::Windows, path);
    let n = dir.len() as int;
    if paths::parent_of(Platform::Windows, path) == Some(dir) {
        let at = paths::last_separator(Platform::Windows, path)->0;
        assert(dir =~= path.take(at));
        assert(at == n);
        assert forall|k: int| n < k < path.len() implies #[trigger] path[k] != '/' && path[k]
            != '\\' by {
            assert(!Platform::Windows.separates(path[k]));
        }
    }
    if lies_directly_in(path, dir) {
        assert(Platform::Windows.separates(path[n]));
        let at = paths::last_separator(Platform::Windows, path)->0;
        if at > n {
            assert(path[at] != '/' && path[at] != '\\');
        }
        assert(at == n);
        assert(dir =~= path.take(at));
    }
}

/// The directories with copies: each with the number of live duplicates that
/// lie directly in it, all of them, the busiest first, and of equals by name.
pub proof fn law_directories_count_their_duplicates(
    files: Seq<FileView>,
    out: Seq<(Seq<char>, int)>,
)
    requires
        reports::is_tally(reports::parents(files, reports::duplicates(files)), out),
    ensures
        forall|k: int|
            0 <= k < out.len() ==> (#[trigger] out[k]).1 == Set::new(
                |p: int|
                    0 <= p < files.len() && has_a_copy(files, p) && lies_directly_in(
                        files[p].path,
                        out[k].0,
                    ),
            ).len() && out[k].1 > 0,
        forall|a: int, b: int|
            0 <= a < b < out.len() ==> (#[trigger] out[a]).1 > (#[trigger] out[b]).1 || (out[a].1
                == out[b].1 && out[a].0 != out[b].0 && text::text_le(out[a].0, out[b].0)),
{
    assert forall|k: int| 0 <= k < out.len() implies (#[trigger] out[k]).1 == Set::new(
        |p: int|
            0 <= p < files.len() && has_a_copy(files, p) && lies_directly_in(
                files[p].path,
                out[k].0,
            ),
    ).len() && out[k].1 > 0 by {
        let dir = out[k].0;
        lemma_counted_parents(files, files.len(), dir);
        let both = |p: int|
            reports::duplicated(files, p) && paths::parent_of(Platform::Windows, files[p].path)
                == Some(dir);
        lemma_positions_set(files.len(), both);
        assert forall|p: int| 0 <= p < files.len() implies (#[trigger] both(p) <==> has_a_copy(
            files,
            p,
        ) && lies_directly_in(files[p].path, dir)) by {
            lemma_parent(files[p].path, dir);
            if files[p].present {
                lemma_has_company(files, p);
            }
        }
        assert(Set::new(|p: int| 0 <= p < files.len() && both(p)) =~= Set::new(
            |p: int|
                0 <= p < files.len() && has_a_copy(files, p) && lies_directly_in(
                    files[p].path,
                    out[k].0,
                ),
        ));
    }
    assert forall|a: int, b: int| 0 <= a < b < out.len() implies (#[trigger] out[a]).1 > (
    #[trigger] out[b]).1 || (out[a].1 == out[b].1 && out[a].0 != out[b].0 && text::text_le(
        out[a].0,
        out[b].0,
    )) by {
        assert(reports::busier(out[a], out[b]));
    }
}

/// A printed group shows every live row of its content and no other, by path.
pub proof fn law_a_printed_group_shows_its_copies_by_path(files: Seq<FileView>, lead: int)
    requires
        0 <= lead < files.len(),
    ensures
        ({
            let list = reports::listed_members(files, lead);
            &&& list.no_duplicates()
            &&& forall|p: int| #[trigger]
                list.contains(p) <==> 0 <= p < files.len() && files[p].present && files[p].hash
                    == files[lead].hash && files[p].size == files[lead].size
            &&& forall|a: int, b: int|
                0 <= a < b < list.len() ==> text::text_le(
                    files[#[trigger] list[a]].path,
                    files[#[trigger] list[b]].path,
                )
        }),
{
    let all = contents::members(files, lead);
    let list = reports::listed_members(files, lead);
    let order = reports::path_order(files);
    let keep = |q: int| contents::belongs(files, lead, q);
    lists::lemma_positions(files.len(), keep);
    lists::lemma_by_position();
    lists::lemma_by_text(|p: int| files[p].path, lists::by_position());
    lists::lemma_sort_by_members(all, order);
    assert(all.no_duplicates());
    all.lemma_multiset_has_no_duplicates();
    list.lemma_multiset_has_no_duplicates_conv();
    assert forall|p: int| #[trigger] list.contains(p) <==> 0 <= p < files.len()
        && files[p].present && files[p].hash == files[lead].hash && files[p].size
        == files[lead].size by {
        assert(all.contains(p) <==> 0 <= p < files.len() && keep(p));
    }
    assert forall|a: int, b: int| 0 <= a < b < list.len() implies text::text_le(
        files[#[trigger] list[a]].path,
        files[#[trigger] list[b]].path,
    ) by {
        assert(order(list[a], list[b]));
        text::lemma_text_le_total(files[list[a]].path, files[list[a]].path);
    }
}

/// The history can be filtered by the name that a state is shown under.
pub proof fn law_a_state_is_found_under_its_name(state: OperationState)
    requires
        state != OperationState::Moved,
    ensures
        ledger::filter_state(Some(state.name())) == Some(state),
{
    law_history_filters_are_state_names(state.name());
}

/// Groups that are equal in what the list is sorted by come in an order of
/// their own: by the other measures, and in the end by hash.
pub proof fn law_equal_groups_come_by_hash(files: Seq<FileView>, query: QueryView, a: int, b: int)
    requires
        0 <= a < b < groups::listing(files, query).len(),
        query.sort != GroupSort::Path,
    ensures
        ({
            let x = groups::listing(files, query)[a];
            let y = groups::listing(files, query)[b];
            let first = groups::shown_group(files, x);
            let second = groups::shown_group(files, y);
            let gain = |p: int|
                files[p].size * (groups::physical(files, contents::members(files, p)) - 1);
            let alike = first.size == second.size && first.files.len() == second.files.len();
            &&& query.sort == GroupSort::Recoverable ==> {
                &&& gain(x) >= gain(y)
                &&& gain(x) == gain(y) ==> first.size >= second.size
                &&& gain(x) == gain(y) && first.size == second.size ==> first.files.len()
                    >= second.files.len()
            }
            &&& alike && (query.sort == GroupSort::Recoverable ==> gain(x) == gain(y))
                ==> text::text_le(first.hash, second.hash)
        }),
{
    let keep = |p: int| groups::listed(files, query, p);
    let all = lists::positions(files.len(), keep);
    let order = groups::group_order(files, query.sort);
    groups::lemma_group_order(files, query.sort);
    lists::lemma_sort_by_members(all, order);
    groups::lemma_member_order(files);
    let list = groups::listing(files, query);
    let x = list[a];
    let y = list[b];
    assert(order(x, y));
    lists::lemma_sort_by_members(contents::members(files, x), groups::member_order(files));
    lists::lemma_sort_by_members(contents::members(files, y), groups::member_order(files));
    text::lemma_text_le_total(files[x].hash, files[x].hash);
}

} // verus!
