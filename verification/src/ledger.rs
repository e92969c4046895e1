//! Views of the recorded operations: the recycle bin and the history.
use crate::lists;
use crate::lists::sort_positions;
use crate::model;
use crate::model::{Index, OperationRow, OperationState, OperationView};
use crate::outside;
use crate::settings;
use crate::settings::{ensure_initialized, trash_retention_days};
use crate::text;
use crate::text::signed_text;
use vstd::prelude::*;
use vstd::relations::total_ordering;

verus! {

/// Newest first; of the same moment, the one recorded last.
pub open spec fn newest_first(operations: Seq<OperationView>) -> spec_fn(int, int) -> bool {
    lists::by_rank(
        |k: int| operations[k].created_at as int,
        lists::by_rank(|k: int| operations[k].id as int, lists::by_position()),
    )
}

pub(crate) proof fn lemma_newest_first(operations: Seq<OperationView>)
    ensures
        total_ordering(newest_first(operations)),
{
    lists::lemma_by_position();
    lists::lemma_by_rank(|k: int| operations[k].id as int, lists::by_position());
    lists::lemma_by_rank(
        |k: int| operations[k].created_at as int,
        lists::by_rank(|k: int| operations[k].id as int, lists::by_position()),
    );
}

/// The operation has the state asked for.
pub open spec fn has_state(
    operations: Seq<OperationView>,
    state: Option<OperationState>,
    k: int,
) -> bool {
    match state {
        Some(wanted) => operations[k].state == wanted,
        None => true,
    }
}

/// The operations of one state, or all of them, newest first.
pub open spec fn listing(
    operations: Seq<OperationView>,
    state: Option<OperationState>,
) -> Seq<int> {
    lists::positions(operations.len(), |k: int| has_state(operations, state, k)).sort_by(
        newest_first(operations),
    )
}

/// The positions of a listing.
fn list_operations(operations: &Vec<OperationRow>, state: Option<OperationState>) -> (sorted: Vec<
    usize,
>)
    ensures
        lists::ints(sorted@) == listing(model::operation_rows(operations@), state),
        forall|k: int| 0 <= k < sorted@.len() ==> (#[trigger] sorted@[k]) < operations@.len(),
{
    let ghost views = model::operation_rows(operations@);
    let ghost keep = |k: int| has_state(views, state, k);
    let ghost order = newest_first(views);
    let mut list: Vec<usize> = Vec::new();
    proof {
        assert(lists::ints(list@) =~= Seq::<int>::empty());
        lemma_newest_first(views);
    }
    for i in 0..operations.len()
        invariant
            views == model::operation_rows(operations@),
            keep == (|k: int| has_state(views, state, k)),
            lists::ints(list@) == lists::positions(i as nat, keep),
            forall|k: int| 0 <= k < list@.len() ==> (#[trigger] list@[k]) < i,
    {
        let ghost before = list@;
        proof {
            assert(views[i as int] == operations@[i as int]@);
        }
        let wanted = match state {
            Some(state) => operations[i].state == state,
            None => true,
        };
        if wanted {
            list.push(i);
            proof {
                assert(keep(i as int));
                assert(lists::ints(list@) =~= lists::ints(before).push(i as int));
            }
        }
    }
    let le = |a: usize, b: usize| -> (r: bool)
        requires
            a < operations@.len(),
            b < operations@.len(),
        ensures
            r == newest_first(model::operation_rows(operations@))(a as int, b as int),
        {
            proof {
                assert(model::operation_rows(operations@)[a as int] == operations@[a as int]@);
                assert(model::operation_rows(operations@)[b as int] == operations@[b as int]@);
            }
            if operations[a].created_at != operations[b].created_at {
                operations[a].created_at > operations[b].created_at
            } else if operations[a].id != operations[b].id {
                operations[a].id > operations[b].id
            } else {
                a <= b
            }
        };
    let sorted = sort_positions(&list, le, Ghost(order));
    proof {
        lists::lemma_sort_by_members(lists::ints(list@), order);
        assert forall|k: int| 0 <= k < sorted@.len() implies (#[trigger] sorted@[k])
            < operations@.len() by {
            let ints = lists::ints(sorted@);
            assert(ints[k] == sorted@[k]);
            assert(ints.contains(ints[k]));
            let from = lists::ints(list@);
            let j = choose|j: int| 0 <= j < from.len() && from[j] == ints[k];
            assert(list@[j] < operations@.len());
        }
    }
    sorted
}

// ---------------------------------------------------------------------------
// The recycle bin
// ---------------------------------------------------------------------------

/// The line of a recycled file.
pub open spec fn bin_line(row: OperationView) -> Seq<char> {
    "["@ + text::decimal(row.id as int) + "] "@ + text::decimal(row.created_at as int) + "\t"@
        + row.source_path + "\t"@ + row.trash_path
}

pub open spec fn bin_lines(operations: Seq<OperationView>) -> Seq<Seq<char>> {
    listing(operations, Some(OperationState::Trashed)).map_values(
        |k: int| bin_line(operations[k]),
    )
}

fn bin_text(row: &OperationRow) -> (line: String)
    ensures
        line@ == bin_line(row@),
{
    let id = signed_text(row.id);
    let created_at = signed_text(row.created_at);
    let mut line = "[".to_string();
    line.append(id.as_str());
    line.append("] ");
    line.append(created_at.as_str());
    line.append("\t");
    line.append(row.source_path.as_str());
    line.append("\t");
    line.append(row.trash_path.as_str());
    line
}

/// The recycled files, line by line, the newest first.
pub fn trash_list(index: &mut Index) -> (lines: Result<Vec<String>, String>)
    requires
        old(index).wf(),
    ensures
        final(index).wf(),
        match settings::opened(old(index)@) {
            Err(error) => lines is Err && lines->Err_0@ == error && final(index)@ == old(index)@,
            Ok(usable) => {
                &&& final(index)@ == usable
                &&& lines is Ok
                &&& outside::texts(lines->Ok_0@) == bin_lines(usable.operations)
            },
        },
{
    match ensure_initialized(index) {
        Err(error) => return Err(error),
        Ok(_) => {},
    }
    let operations = &index.operations;
    let ghost views = model::operation_rows(operations@);
    let sorted = list_operations(operations, Some(OperationState::Trashed));
    let ghost order = lists::ints(sorted@);
    let ghost all = bin_lines(views);
    let mut lines: Vec<String> = Vec::new();
    for i in 0..sorted.len()
        invariant
            views == model::operation_rows(operations@),
            order == lists::ints(sorted@),
            all == order.map_values(|k: int| bin_line(views[k])),
            forall|k: int| 0 <= k < sorted@.len() ==> (#[trigger] sorted@[k]) < operations@.len(),
            outside::texts(lines@) =~= all.take(i as int),
    {
        let at = sorted[i];
        let ghost before = lines@;
        let line = bin_text(&operations[at]);
        lines.push(line);
        proof {
            assert(order[i as int] == at);
            assert(views[at as int] == operations@[at as int]@);
            assert(all[i as int] == line@);
            assert(outside::texts(lines@) =~= outside::texts(before).push(line@));
        }
    }
    proof {
        assert(all.take(sorted@.len() as int) =~= all);
    }
    Ok(lines)
}

/// A recycled file as the desktop shows it.
pub struct TrashItem {
    pub id: i64,
    pub created_at: i64,
    pub source_path: String,
    pub trash_path: String,
    /// Older than the retention period.
    pub expired: bool,
    /// Shared by the files of one bulk action.
    pub batch_id: Option<i64>,
}

#[verifier::ext_equal]
pub struct TrashItemView {
    pub id: i64,
    pub created_at: i64,
    pub source_path: Seq<char>,
    pub trash_path: Seq<char>,
    pub expired: bool,
    pub batch_id: Option<i64>,
}

impl View for TrashItem {
    type V = TrashItemView;

    open spec fn view(&self) -> TrashItemView {
        TrashItemView {
            id: self.id,
            created_at: self.created_at,
            source_path: self.source_path@,
            trash_path: self.trash_path@,
            expired: self.expired,
            batch_id: self.batch_id,
        }
    }
}

pub open spec fn trash_items(items: Seq<TrashItem>) -> Seq<TrashItemView> {
    items.map_values(|item: TrashItem| item@)
}

/// Longer in the bin than the retention period; a period of zero days never
/// ends.
pub open spec fn overdue(created_at: i64, retention: int, now: i64) -> bool {
    retention > 0 && crate::bin::saturated(now - created_at) > retention * 86_400
}

pub open spec fn trash_item(row: OperationView, retention: int, now: i64) -> TrashItemView {
    TrashItemView {
        id: row.id,
        created_at: row.created_at,
        source_path: row.source_path,
        trash_path: row.trash_path,
        expired: overdue(row.created_at, retention, now),
        batch_id: row.batch_id,
    }
}

fn is_overdue(created_at: i64, retention: i64, now: i64) -> (yes: bool)
    requires
        retention >= 0,
    ensures
        yes == overdue(created_at, retention as int, now),
{
    let age: i128 = now as i128 - created_at as i128;
    let bounded: i128 = if age > i64::MAX as i128 {
        i64::MAX as i128
    } else if age < i64::MIN as i128 {
        i64::MIN as i128
    } else {
        age
    };
    retention > 0 && bounded > retention as i128 * 86_400
}

/// The recycled files for the desktop, the newest first, each marked where
/// its retention period is over.
pub fn trash_overview(index: &Index, now: i64) -> (items: Vec<TrashItem>)
    requires
        index.wf(),
    ensures
        trash_items(items@) == listing(
            index@.operations,
            Some(OperationState::Trashed),
        ).map_values(
            |k: int| trash_item(index@.operations[k], settings::retention_of(index@) as int, now),
        ),
{
    let retention = trash_retention_days(index);
    let operations = &index.operations;
    let ghost views = model::operation_rows(operations@);
    let sorted = list_operations(operations, Some(OperationState::Trashed));
    let ghost order = lists::ints(sorted@);
    let ghost all = order.map_values(|k: int| trash_item(views[k], retention as int, now));
    let mut items: Vec<TrashItem> = Vec::new();
    for i in 0..sorted.len()
        invariant
            retention >= 0,
            views == model::operation_rows(operations@),
            order == lists::ints(sorted@),
            all == order.map_values(|k: int| trash_item(views[k], retention as int, now)),
            forall|k: int| 0 <= k < sorted@.len() ==> (#[trigger] sorted@[k]) < operations@.len(),
            trash_items(items@) =~= all.take(i as int),
    {
        let at = sorted[i];
        let row = &operations[at];
        let ghost before = items@;
        let item = TrashItem {
            id: row.id,
            created_at: row.created_at,
            source_path: row.source_path.clone(),
            trash_path: row.trash_path.clone(),
            expired: is_overdue(row.created_at, retention, now),
            batch_id: row.batch_id,
        };
        items.push(item);
        proof {
            assert(order[i as int] == at);
            assert(views[at as int] == operations@[at as int]@);
            assert(all[i as int] =~= item@);
            assert(trash_items(items@) =~= trash_items(before).push(item@));
        }
    }
    proof {
        assert(all.take(sorted@.len() as int) =~= all);
        assert(all =~= listing(index@.operations, Some(OperationState::Trashed)).map_values(
            |k: int| trash_item(index@.operations[k], settings::retention_of(index@) as int, now),
        ));
    }
    items
}

// ---------------------------------------------------------------------------
// History
// ---------------------------------------------------------------------------

/// One operation as the history shows it.
pub struct HistoryItem {
    pub id: i64,
    pub created_at: i64,
    pub source_path: String,
    pub trash_path: String,
    pub state: OperationState,
    pub restored_at: Option<i64>,
}

#[verifier::ext_equal]
pub struct HistoryItemView {
    pub id: i64,
    pub created_at: i64,
    pub source_path: Seq<char>,
    pub trash_path: Seq<char>,
    pub state: OperationState,
    pub restored_at: Option<i64>,
}

impl View for HistoryItem {
    type V = HistoryItemView;

    open spec fn view(&self) -> HistoryItemView {
        HistoryItemView {
            id: self.id,
            created_at: self.created_at,
            source_path: self.source_path@,
            trash_path: self.trash_path@,
            state: self.state,
            restored_at: self.restored_at,
        }
    }
}

pub open spec fn history_items(items: Seq<HistoryItem>) -> Seq<HistoryItemView> {
    items.map_values(|item: HistoryItem| item@)
}

pub open spec fn history_item(row: OperationView) -> HistoryItemView {
    HistoryItemView {
        id: row.id,
        created_at: row.created_at,
        source_path: row.source_path,
        trash_path: row.trash_path,
        state: row.state,
        restored_at: row.restored_at,
    }
}

/// The state that a filter names. A filter that names none filters nothing.
pub open spec fn filter_state(filter: Option<Seq<char>>) -> Option<OperationState> {
    match filter {
        None => None,
        Some(name) => if name == "trashed"@ {
            Some(OperationState::Trashed)
        } else if name == "restored"@ {
            Some(OperationState::Restored)
        } else if name == "deleted"@ {
            Some(OperationState::Deleted)
        } else if name == "hardlinked"@ {
            Some(OperationState::Hardlinked)
        } else {
            None
        },
    }
}

fn state_of_filter(filter: &Option<String>) -> (state: Option<OperationState>)
    ensures
        state == filter_state(model::text_option(*filter)),
{
    match filter {
        None => None,
        Some(name) => if text::same_text(name.as_str(), "trashed") {
            Some(OperationState::Trashed)
        } else if text::same_text(name.as_str(), "restored") {
            Some(OperationState::Restored)
        } else if text::same_text(name.as_str(), "deleted") {
            Some(OperationState::Deleted)
        } else if text::same_text(name.as_str(), "hardlinked") {
            Some(OperationState::Hardlinked)
        } else {
            None
        },
    }
}

/// How many operations a page holds: a hundred unless asked otherwise, and
/// one to five hundred.
pub open spec fn page_limit(limit: Option<i64>) -> int {
    match limit {
        None => 100,
        Some(n) => if n < 1 {
            1
        } else if n > 500 {
            500
        } else {
            n as int
        },
    }
}

pub open spec fn page_offset(offset: Option<i64>) -> int {
    match offset {
        None => 0,
        Some(n) => if n < 0 {
            0
        } else {
            n as int
        },
    }
}

/// The part of a list from `offset` on, at most `limit` long.
pub open spec fn page<A>(list: Seq<A>, offset: int, limit: int) -> Seq<A> {
    let from = if offset > list.len() {
        list.len() as int
    } else {
        offset
    };
    let to = if list.len() - from < limit {
        list.len() as int
    } else {
        from + limit
    };
    list.subrange(from, to)
}

/// One page of the history, newest operation first.
pub fn history(
    index: &Index,
    offset: Option<i64>,
    limit: Option<i64>,
    state_filter: &Option<String>,
) -> (items: Vec<HistoryItem>)
    ensures
        history_items(items@) == page(
            listing(index@.operations, filter_state(model::text_option(*state_filter))),
            page_offset(offset),
            page_limit(limit),
        ).map_values(|k: int| history_item(index@.operations[k])),
{
    let state = state_of_filter(state_filter);
    let operations = &index.operations;
    let ghost views = model::operation_rows(operations@);
    let sorted = list_operations(operations, state);
    let n = sorted.len();
    let size: usize = match limit {
        None => 100,
        Some(k) => if k < 1 {
            1
        } else if k > 500 {
            500
        } else {
            k as usize
        },
    };
    let from: usize = match offset {
        None => 0,
        Some(k) => if k < 0 {
            0
        } else if k as u64 > n as u64 {
            n
        } else {
            k as usize
        },
    };
    let to: usize = if n - from < size {
        n
    } else {
        from + size
    };
    let ghost order = lists::ints(sorted@);
    let ghost part = page(order, page_offset(offset), page_limit(limit));
    let ghost all = part.map_values(|k: int| history_item(views[k]));
    proof {
        assert(order.len() == n);
        assert(part =~= order.subrange(from as int, to as int));
    }
    let mut items: Vec<HistoryItem> = Vec::new();
    for i in from..to
        invariant
            from <= to <= n == sorted@.len(),
            views == model::operation_rows(operations@),
            order == lists::ints(sorted@),
            part == order.subrange(from as int, to as int),
            all == part.map_values(|k: int| history_item(views[k])),
            forall|k: int| 0 <= k < sorted@.len() ==> (#[trigger] sorted@[k]) < operations@.len(),
            history_items(items@) =~= all.take(i - from),
    {
        let at = sorted[i];
        let row = &operations[at];
        let ghost before = items@;
        let item = HistoryItem {
            id: row.id,
            created_at: row.created_at,
            source_path: row.source_path.clone(),
            trash_path: row.trash_path.clone(),
            state: row.state,
            restored_at: row.restored_at,
        };
        items.push(item);
        proof {
            assert(order[i as int] == at);
            assert(part[i - from] == at);
            assert(views[at as int] == operations@[at as int]@);
            assert(all[i - from] =~= item@);
            assert(history_items(items@) =~= history_items(before).push(item@));
        }
    }
    proof {
        assert(all.take(to - from) =~= all);
    }
    items
}

/// The history holds every operation exactly once: it is as long as the list
/// of operations, each of them stands in it, and none follows an older one.
pub proof fn law_history_is_complete(operations: Seq<OperationView>)
    ensures
        listing(operations, None).len() == operations.len(),
        forall|k: int|
            0 <= k < operations.len() ==> #[trigger] listing(operations, None).contains(k),
        forall|a: int, b: int|
            0 <= a < b < listing(operations, None).len() ==> operations[#[trigger] listing(
                operations,
                None,
            )[a]].created_at >= operations[#[trigger] listing(operations, None)[b]].created_at,
{
    let keep = |k: int| has_state(operations, None, k);
    let all = lists::positions(operations.len(), keep);
    let order = newest_first(operations);
    let out = listing(operations, None);
    lists::lemma_positions(operations.len(), keep);
    lemma_newest_first(operations);
    lists::lemma_sort_by_members(all, order);
    all.lemma_sort_by_ensures(order);
    vstd::seq_lib::to_multiset_len(all);
    vstd::seq_lib::to_multiset_len(out);
    lemma_all_positions(operations.len(), keep);
    assert forall|k: int| 0 <= k < operations.len() implies #[trigger] out.contains(k) by {
        assert(keep(k));
        assert(all.contains(k));
    }
    assert forall|a: int, b: int| 0 <= a < b < out.len() implies operations[#[trigger] out[a]].created_at
        >= operations[#[trigger] out[b]].created_at by {
        assert(order(out[a], out[b]));
    }
}

proof fn lemma_all_positions(n: nat, keep: spec_fn(int) -> bool)
    requires
        forall|k: int| 0 <= k < n ==> #[trigger] keep(k),
    ensures
        lists::positions(n, keep).len() == n,
    decreases n,
{
    if n > 0 {
        lemma_all_positions((n - 1) as nat, keep);
        assert(keep(n - 1));
    }
}

/// Pages follow one another without gap or overlap.
pub proof fn law_pages_are_adjacent<A>(list: Seq<A>, offset: int, limit: int)
    requires
        0 <= offset,
        1 <= limit,
    ensures
        page(list, offset, limit) + page(list, offset + limit, limit) == page(
            list,
            offset,
            2 * limit,
        ),
{
    assert(page(list, offset, limit) + page(list, offset + limit, limit) =~= page(
        list,
        offset,
        2 * limit,
    ));
}

} // verus!
