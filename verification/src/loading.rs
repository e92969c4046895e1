//! Putting an index together from stored rows: what the rest of the library
//! relies on is checked once, here.
use crate::lists;
use crate::lists::sort_positions;
use crate::model;
use crate::model::{
    DocumentPrint, FileRow, FileView, Index, IndexView, OperationRow, OperationView, PhotoPrint,
    VerdictRow,
};
use crate::text::{same_text, text_before};
use std::collections::HashMap;
use vstd::prelude::*;
use vstd::relations::total_ordering;

verus! {

/// Where neighbours in an order differ, all entries differ: entries with the
/// same key stand next to each other.
proof fn lemma_neighbours_decide(
    n: nat,
    order: spec_fn(int, int) -> bool,
    same: spec_fn(int, int) -> bool,
    sorted: Seq<int>,
)
    requires
        total_ordering(order),
        sorted == lists::positions(n, |k: int| true).sort_by(order),
        forall|a: int, b: int, c: int|
            #![trigger order(a, b), order(b, c)]
            order(a, b) && order(b, c) && same(a, c) ==> same(a, b),
        forall|a: int, b: int| #[trigger] same(a, b) ==> same(b, a),
        forall|k: int|
            0 < k < sorted.len() ==> !same(sorted[k - 1], #[trigger] sorted[k]),
    ensures
        forall|p: int, q: int| 0 <= p < q < n ==> !#[trigger] same(p, q),
{
    let keep = |k: int| true;
    let all = lists::positions(n, keep);
    lists::lemma_positions(n, keep);
    lists::lemma_sort_by_members(all, order);
    all.lemma_sort_by_ensures(order);
    assert forall|p: int, q: int| 0 <= p < q < n implies !#[trigger] same(p, q) by {
        assert(keep(p) && keep(q));
        assert(all.contains(p) && all.contains(q));
        assert(sorted.contains(p) && sorted.contains(q));
        let a = choose|a: int| 0 <= a < sorted.len() && sorted[a] == p;
        let b = choose|b: int| 0 <= b < sorted.len() && sorted[b] == q;
        if same(p, q) {
            assert(same(q, p));
            if a < b {
                if a + 1 < b {
                    assert(order(sorted[a], sorted[a + 1]));
                    assert(order(sorted[a + 1], sorted[b]));
                }
                assert(same(sorted[a], sorted[a + 1]));
                assert(!same(sorted[(a + 1) - 1], sorted[a + 1]));
            } else {
                if b + 1 < a {
                    assert(order(sorted[b], sorted[b + 1]));
                    assert(order(sorted[b + 1], sorted[a]));
                }
                assert(same(sorted[b], sorted[b + 1]));
                assert(!same(sorted[(b + 1) - 1], sorted[b + 1]));
            }
        }
    }
}

/// All positions below `n`.
fn count_up(n: usize) -> (list: Vec<usize>)
    ensures
        lists::ints(list@) == lists::positions(n as nat, |k: int| true),
        forall|k: int| 0 <= k < list@.len() ==> (#[trigger] list@[k]) < n,
{
    let ghost keep = |k: int| true;
    let mut list: Vec<usize> = Vec::new();
    proof {
        assert(lists::ints(list@) =~= Seq::<int>::empty());
    }
    for i in 0..n
        invariant
            keep == (|k: int| true),
            lists::ints(list@) == lists::positions(i as nat, keep),
            forall|k: int| 0 <= k < list@.len() ==> (#[trigger] list@[k]) < i,
    {
        let ghost before = list@;
        list.push(i);
        proof {
            assert(keep(i as int));
            assert(lists::ints(list@) =~= lists::ints(before).push(i as int));
        }
    }
    list
}

proof fn lemma_sorted_range(n: nat, order: spec_fn(int, int) -> bool, sorted: Seq<usize>)
    requires
        total_ordering(order),
        lists::ints(sorted) == lists::positions(n, |k: int| true).sort_by(order),
    ensures
        forall|k: int| 0 <= k < sorted.len() ==> (#[trigger] sorted[k]) < n,
        forall|a: int, b: int|
            0 <= a < b < sorted.len() ==> #[trigger] sorted[a] != #[trigger] sorted[b],
{
    let keep = |k: int| true;
    let all = lists::positions(n, keep);
    let ints = lists::ints(sorted);
    lists::lemma_positions(n, keep);
    lists::lemma_sort_by_members(all, order);
    all.lemma_sort_by_ensures(order);
    assert(all.no_duplicates());
    all.lemma_multiset_has_no_duplicates();
    ints.lemma_multiset_has_no_duplicates_conv();
    assert forall|k: int| 0 <= k < sorted.len() implies (#[trigger] sorted[k]) < n by {
        assert(ints[k] == sorted[k]);
        assert(ints.contains(ints[k]));
        assert(all.contains(ints[k]));
    }
    assert forall|a: int, b: int| 0 <= a < b < sorted.len() implies #[trigger] sorted[a]
        != #[trigger] sorted[b] by {
        assert(ints[a] != ints[b]);
    }
}

/// Whether no two of `n` entries have the same key, where `le` puts equal
/// keys next to each other.
fn all_distinct<F: Fn(usize, usize) -> bool, G: Fn(usize, usize) -> bool>(
    n: usize,
    le: F,
    eq: G,
    Ghost(order): Ghost<spec_fn(int, int) -> bool>,
    Ghost(same): Ghost<spec_fn(int, int) -> bool>,
) -> (distinct: bool)
    requires
        total_ordering(order),
        forall|a: usize, b: usize| a < n && b < n ==> #[trigger] le.requires((a, b)),
        forall|a: usize, b: usize, r: bool|
            #[trigger] le.ensures((a, b), r) ==> r == order(a as int, b as int),
        forall|a: usize, b: usize| a < n && b < n ==> #[trigger] eq.requires((a, b)),
        forall|a: usize, b: usize, r: bool|
            #[trigger] eq.ensures((a, b), r) ==> r == same(a as int, b as int),
        forall|a: int, b: int, c: int|
            #![trigger order(a, b), order(b, c)]
            order(a, b) && order(b, c) && same(a, c) ==> same(a, b),
        forall|a: int, b: int| #[trigger] same(a, b) ==> same(b, a),
    ensures
        distinct == (forall|p: int, q: int| 0 <= p < q < n ==> !#[trigger] same(p, q)),
{
    let all = count_up(n);
    proof {
        assert forall|a: usize, b: usize| all@.contains(a) && all@.contains(b) implies #[trigger] le.requires(
            (a, b),
        ) by {
            let i = choose|i: int| 0 <= i < all@.len() && all@[i] == a;
            let j = choose|j: int| 0 <= j < all@.len() && all@[j] == b;
            assert(all@[i] < n && all@[j] < n);
        }
    }
    let sorted = sort_positions(&all, le, Ghost(order));
    proof {
        lemma_sorted_range(n as nat, order, sorted@);
    }
    let mut i: usize = 1;
    while i < sorted.len()
        invariant
            1 <= i,
            forall|a: usize, b: usize| a < n && b < n ==> #[trigger] eq.requires((a, b)),
            forall|a: usize, b: usize, r: bool|
                #[trigger] eq.ensures((a, b), r) ==> r == same(a as int, b as int),
            forall|a: int, b: int| #[trigger] same(a, b) ==> same(b, a),
            forall|k: int| 0 <= k < sorted@.len() ==> (#[trigger] sorted@[k]) < n,
            forall|a: int, b: int|
                0 <= a < b < sorted@.len() ==> #[trigger] sorted@[a] != #[trigger] sorted@[b],
            forall|k: int|
                0 < k < i && k < sorted@.len() ==> !same(
                    sorted@[k - 1] as int,
                    (#[trigger] sorted@[k]) as int,
                ),
        decreases sorted@.len() - i,
    {
        let a = sorted[i - 1];
        let b = sorted[i];
        if eq(a, b) {
            proof {
                assert(same(a as int, b as int) && same(b as int, a as int));
                assert(a != b);
            }
            return false;
        }
        i = i + 1;
    }
    proof {
        let ints = lists::ints(sorted@);
        assert forall|k: int| 0 < k < ints.len() implies !same(ints[k - 1], #[trigger] ints[k]) by {
            assert(ints[k] == sorted@[k]);
            assert(ints[k - 1] == sorted@[k - 1]);
        }
        lemma_neighbours_decide(n as nat, order, same, ints);
    }
    true
}

spec fn path_order(files: Seq<FileView>) -> spec_fn(int, int) -> bool {
    lists::by_text(|k: int| files[k].path, lists::by_position())
}

spec fn same_path(files: Seq<FileView>) -> spec_fn(int, int) -> bool {
    |a: int, b: int| files[a].path == files[b].path
}

/// No two files share a path.
fn paths_distinct(files: &Vec<FileRow>) -> (distinct: bool)
    ensures
        distinct == model::paths_unique(model::file_rows(files@)),
{
    let ghost views = model::file_rows(files@);
    proof {
        lists::lemma_by_position();
        lists::lemma_by_text(|k: int| views[k].path, lists::by_position());
        crate::text::lemma_text_order();
    }
    let le = |a: usize, b: usize| -> (r: bool)
        requires
            a < files@.len(),
            b < files@.len(),
        ensures
            r == path_order(model::file_rows(files@))(a as int, b as int),
        {
            proof {
                assert(model::file_rows(files@)[a as int] == files@[a as int]@);
                assert(model::file_rows(files@)[b as int] == files@[b as int]@);
            }
            if !same_text(files[a].path.as_str(), files[b].path.as_str()) {
                text_before(files[a].path.as_str(), files[b].path.as_str())
            } else {
                a <= b
            }
        };
    let eq = |a: usize, b: usize| -> (r: bool)
        requires
            a < files@.len(),
            b < files@.len(),
        ensures
            r == same_path(model::file_rows(files@))(a as int, b as int),
        {
            proof {
                assert(model::file_rows(files@)[a as int] == files@[a as int]@);
                assert(model::file_rows(files@)[b as int] == files@[b as int]@);
            }
            same_text(files[a].path.as_str(), files[b].path.as_str())
        };
    let distinct = all_distinct(
        files.len(),
        le,
        eq,
        Ghost(path_order(views)),
        Ghost(same_path(views)),
    );
    proof {
        let same = same_path(views);
        if distinct {
            assert forall|i: int, j: int| 0 <= i < j < views.len() implies (#[trigger] views[i]).path
                != (#[trigger] views[j]).path by {
                assert(!same(i, j));
            }
        } else {
            let (p, q) = choose|p: int, q: int| 0 <= p < q < views.len() && #[trigger] same(p, q);
            assert(views[p].path == views[q].path);
        }
    }
    distinct
}

spec fn pair_order(rows: Seq<((Seq<char>, Seq<char>), model::Verdict)>) -> spec_fn(
    int,
    int,
) -> bool {
    lists::by_text(
        |k: int| first_path(rows, k),
        lists::by_text(|k: int| second_path(rows, k), lists::by_position()),
    )
}

spec fn first_path(rows: Seq<((Seq<char>, Seq<char>), model::Verdict)>, k: int) -> Seq<char> {
    let (pair, verdict) = rows[k];
    let (first, second) = pair;
    first
}

spec fn second_path(rows: Seq<((Seq<char>, Seq<char>), model::Verdict)>, k: int) -> Seq<char> {
    let (pair, verdict) = rows[k];
    let (first, second) = pair;
    second
}

spec fn same_pair(rows: Seq<((Seq<char>, Seq<char>), model::Verdict)>) -> spec_fn(int, int) -> bool {
    |a: int, b: int|
        first_path(rows, a) == first_path(rows, b) && second_path(rows, a) == second_path(rows, b)
}

/// No two verdicts are about the same pair.
fn pairs_distinct(rows: &Vec<VerdictRow>) -> (distinct: bool)
    ensures
        distinct == model::keys_unique(model::verdict_rows(rows@)),
{
    let ghost views = model::verdict_rows(rows@);
    proof {
        lists::lemma_by_position();
        lists::lemma_by_text(|k: int| second_path(views, k), lists::by_position());
        lists::lemma_by_text(
            |k: int| first_path(views, k),
            lists::by_text(|k: int| second_path(views, k), lists::by_position()),
        );
        crate::text::lemma_text_order();
    }
    let le = |a: usize, b: usize| -> (r: bool)
        requires
            a < rows@.len(),
            b < rows@.len(),
        ensures
            r == pair_order(model::verdict_rows(rows@))(a as int, b as int),
        {
            if !same_text(rows[a].path_a.as_str(), rows[b].path_a.as_str()) {
                text_before(rows[a].path_a.as_str(), rows[b].path_a.as_str())
            } else if !same_text(rows[a].path_b.as_str(), rows[b].path_b.as_str()) {
                text_before(rows[a].path_b.as_str(), rows[b].path_b.as_str())
            } else {
                a <= b
            }
        };
    let eq = |a: usize, b: usize| -> (r: bool)
        requires
            a < rows@.len(),
            b < rows@.len(),
        ensures
            r == same_pair(model::verdict_rows(rows@))(a as int, b as int),
        {
            same_text(rows[a].path_a.as_str(), rows[b].path_a.as_str()) && same_text(
                rows[a].path_b.as_str(),
                rows[b].path_b.as_str(),
            )
        };
    let distinct = all_distinct(
        rows.len(),
        le,
        eq,
        Ghost(pair_order(views)),
        Ghost(same_pair(views)),
    );
    proof {
        let same = same_pair(views);
        if distinct {
            assert forall|i: int, j: int| 0 <= i < j < views.len() implies #[trigger] views[i].0
                != #[trigger] views[j].0 by {
                assert(!same(i, j));
            }
        } else {
            let (p, q) = choose|p: int, q: int| 0 <= p < q < views.len() && #[trigger] same(p, q);
            assert(views[p].0 == views[q].0);
        }
    }
    distinct
}

/// No two settings share a key.
fn keys_distinct(rows: &Vec<(String, String)>) -> (distinct: bool)
    ensures
        distinct == model::keys_unique(model::setting_rows(rows@)),
{
    let ghost views = model::setting_rows(rows@);
    for j in 0..rows.len()
        invariant
            views == model::setting_rows(rows@),
            forall|a: int, b: int|
                0 <= a < b < j ==> #[trigger] views[a].0 != #[trigger] views[b].0,
    {
        for i in 0..j
            invariant
                j < rows@.len(),
                views == model::setting_rows(rows@),
                forall|a: int| 0 <= a < i ==> #[trigger] views[a].0 != views[j as int].0,
        {
            proof {
                assert(views[i as int] == (rows@[i as int].0@, rows@[i as int].1@));
                assert(views[j as int] == (rows@[j as int].0@, rows@[j as int].1@));
            }
            if same_text(rows[i].0.as_str(), rows[j].0.as_str()) {
                proof {
                    assert(views[i as int].0 == views[j as int].0);
                }
                return false;
            }
        }
    }
    true
}

/// Ids are positive and ascend.
fn files_ascend(files: &Vec<FileRow>) -> (ascend: bool)
    ensures
        ascend == model::ids_ascending(model::file_rows(files@)),
{
    let ghost views = model::file_rows(files@);
    for i in 0..files.len()
        invariant
            views == model::file_rows(files@),
            i > 0 ==> views[0].id >= 1,
            forall|a: int, b: int| 0 <= a < b < i ==> (#[trigger] views[a]).id < (
            #[trigger] views[b]).id,
    {
        proof {
            assert(views[i as int] == files@[i as int]@);
            if i > 0 {
                assert(views[i - 1] == files@[i - 1]@);
            }
        }
        if i == 0 {
            if files[0].id < 1 {
                return false;
            }
        } else if files[i].id <= files[i - 1].id {
            return false;
        }
    }
    true
}

fn operations_ascend(operations: &Vec<OperationRow>) -> (ascend: bool)
    ensures
        ascend == model::operation_ids_ascending(model::operation_rows(operations@)),
{
    let ghost views = model::operation_rows(operations@);
    for i in 0..operations.len()
        invariant
            views == model::operation_rows(operations@),
            i > 0 ==> views[0].id >= 1,
            forall|a: int, b: int| 0 <= a < b < i ==> (#[trigger] views[a]).id < (
            #[trigger] views[b]).id,
    {
        proof {
            assert(views[i as int] == operations@[i as int]@);
            if i > 0 {
                assert(views[i - 1] == operations@[i - 1]@);
            }
        }
        if i == 0 {
            if operations[0].id < 1 {
                return false;
            }
        } else if operations[i].id <= operations[i - 1].id {
            return false;
        }
    }
    true
}

/// Some file has the id.
fn id_known(files: &Vec<FileRow>, id: i64) -> (known: bool)
    requires
        model::ids_ascending(model::file_rows(files@)),
    ensures
        known == model::has_id(model::file_rows(files@), id),
{
    let ghost views = model::file_rows(files@);
    let mut low: usize = 0;
    let mut high: usize = files.len();
    while low < high
        invariant
            views == model::file_rows(files@),
            model::ids_ascending(views),
            low <= high <= files@.len(),
            forall|k: int| 0 <= k < low ==> (#[trigger] views[k]).id < id,
            forall|k: int| high <= k < views.len() ==> (#[trigger] views[k]).id > id,
        decreases high - low,
    {
        let middle: usize = low + (high - low) / 2;
        proof {
            assert(views[middle as int] == files@[middle as int]@);
        }
        let found: i64 = files[middle].id;
        if found == id {
            return true;
        }
        if found < id {
            low = middle + 1;
        } else {
            high = middle;
        }
    }
    false
}

/// The operations are about known files.
fn operations_known(files: &Vec<FileRow>, operations: &Vec<OperationRow>) -> (known: bool)
    requires
        model::ids_ascending(model::file_rows(files@)),
    ensures
        known == (forall|k: int|
            0 <= k < model::operation_rows(operations@).len() ==> model::has_id(
                model::file_rows(files@),
                (#[trigger] model::operation_rows(operations@)[k]).file_id,
            )),
{
    let ghost views = model::operation_rows(operations@);
    for i in 0..operations.len()
        invariant
            views == model::operation_rows(operations@),
            model::ids_ascending(model::file_rows(files@)),
            forall|k: int|
                0 <= k < i ==> model::has_id(
                    model::file_rows(files@),
                    (#[trigger] views[k]).file_id,
                ),
    {
        proof {
            assert(views[i as int] == operations@[i as int]@);
        }
        if !id_known(files, operations[i].file_id) {
            return false;
        }
    }
    true
}

/// Fingerprints by file; of two for one file the later one counts.
pub open spec fn prints<P>(rows: Seq<(i64, P)>) -> Map<i64, P>
    decreases rows.len(),
{
    if rows.len() == 0 {
        Map::empty()
    } else {
        prints(rows.drop_last()).insert(rows.last().0, rows.last().1)
    }
}

/// The fingerprints belong to known files.
pub open spec fn prints_known<P>(files: Seq<FileView>, rows: Seq<(i64, P)>) -> bool {
    forall|k: int| 0 <= k < rows.len() ==> model::has_id(files, (#[trigger] rows[k]).0)
}

proof fn lemma_prints_known<P>(files: Seq<FileView>, rows: Seq<(i64, P)>)
    requires
        prints_known(files, rows),
    ensures
        forall|id: i64| #[trigger] prints(rows).contains_key(id) ==> model::has_id(files, id),
    decreases rows.len(),
{
    if rows.len() > 0 {
        let front = rows.drop_last();
        assert forall|k: int| 0 <= k < front.len() implies model::has_id(
            files,
            (#[trigger] front[k]).0,
        ) by {
            assert(front[k] == rows[k]);
        }
        lemma_prints_known(files, front);
        assert(model::has_id(files, rows[rows.len() - 1].0));
        assert forall|id: i64| #[trigger] prints(rows).contains_key(id) implies model::has_id(
            files,
            id,
        ) by {
            if id != rows.last().0 {
                assert(prints(front).contains_key(id));
            }
        }
    }
}

fn gather<P: Copy>(files: &Vec<FileRow>, rows: &Vec<(i64, P)>) -> (map: Option<HashMap<i64, P>>)
    requires
        model::ids_ascending(model::file_rows(files@)),
    ensures
        map is Some == prints_known(model::file_rows(files@), rows@),
        map is Some ==> map->0@ == prints(rows@),
{
    broadcast use vstd::std_specs::hash::group_hash_axioms;

    let mut map: HashMap<i64, P> = HashMap::new();
    proof {
        assert(rows@.take(0) =~= Seq::<(i64, P)>::empty());
        assert(map@ =~= prints(rows@.take(0)));
    }
    for i in 0..rows.len()
        invariant
            model::ids_ascending(model::file_rows(files@)),
            map@ == prints(rows@.take(i as int)),
            forall|k: int|
                0 <= k < i ==> model::has_id(
                    model::file_rows(files@),
                    (#[trigger] rows@[k]).0,
                ),
    {
        let id: i64 = rows[i].0;
        if !id_known(files, id) {
            return None;
        }
        map.insert(id, rows[i].1);
        proof {
            assert(rows@.take(i + 1).drop_last() =~= rows@.take(i as int));
            assert(rows@.take(i + 1).last() == rows@[i as int]);
        }
    }
    proof {
        assert(rows@.take(rows@.len() as int) =~= rows@);
    }
    Some(map)
}

/// The rows of a stored index.
pub struct StoredRows {
    pub settings: Vec<(String, String)>,
    pub files: Vec<FileRow>,
    pub operations: Vec<OperationRow>,
    pub photos: Vec<(i64, PhotoPrint)>,
    pub documents: Vec<(i64, DocumentPrint)>,
    pub verdicts: Vec<VerdictRow>,
}

/// The rows fit together.
pub open spec fn coherent(rows: StoredRows) -> bool {
    let files = model::file_rows(rows.files@);
    &&& model::ids_ascending(files)
    &&& model::paths_unique(files)
    &&& model::operation_ids_ascending(model::operation_rows(rows.operations@))
    &&& forall|k: int|
        0 <= k < model::operation_rows(rows.operations@).len() ==> model::has_id(
            files,
            (#[trigger] model::operation_rows(rows.operations@)[k]).file_id,
        )
    &&& prints_known(files, rows.photos@)
    &&& prints_known(files, rows.documents@)
    &&& model::keys_unique(model::setting_rows(rows.settings@))
    &&& model::keys_unique(model::verdict_rows(rows.verdicts@))
}

/// The index that some rows make up; None where they do not fit together.
pub fn assemble(rows: StoredRows) -> (index: Option<Index>)
    ensures
        index is Some == coherent(rows),
        index is Some ==> {
            &&& index->0.wf()
            &&& index->0.settings == rows.settings
            &&& index->0.files == rows.files
            &&& index->0.operations == rows.operations
            &&& index->0.photos@ == prints(rows.photos@)
            &&& index->0.documents@ == prints(rows.documents@)
            &&& index->0.verdicts == rows.verdicts
        },
{
    if !files_ascend(&rows.files) || !paths_distinct(&rows.files) || !operations_ascend(
        &rows.operations,
    ) || !operations_known(&rows.files, &rows.operations) || !keys_distinct(&rows.settings)
        || !pairs_distinct(&rows.verdicts) {
        return None;
    }
    let photos = match gather(&rows.files, &rows.photos) {
        None => return None,
        Some(photos) => photos,
    };
    let documents = match gather(&rows.files, &rows.documents) {
        None => return None,
        Some(documents) => documents,
    };
    proof {
        let files = model::file_rows(rows.files@);
        lemma_prints_known(files, rows.photos@);
        lemma_prints_known(files, rows.documents@);
    }
    Some(
        Index {
            settings: rows.settings,
            files: rows.files,
            operations: rows.operations,
            photos,
            documents,
            verdicts: rows.verdicts,
        },
    )
}

// ---------------------------------------------------------------------------
// Making room for rows that another writer has stored
// ---------------------------------------------------------------------------

/// An id after those from `from` on were raised.
pub open spec fn raised(id: i64, from: i64, by: int) -> i64 {
    if id >= from {
        (id + by) as i64
    } else {
        id
    }
}

/// How far ids from `from` on have to be raised to come behind `last`.
pub open spec fn raise_needed(from: i64, last: i64) -> int {
    if last >= from {
        last + 1 - from
    } else {
        0
    }
}

/// A table after the ids under which it holds its entries were raised.
pub open spec fn raised_table<V>(table: Map<i64, V>, from: i64, by: int) -> Map<i64, V> {
    Map::new(
        |k: i64| (k < from || k >= from + by) && table.contains_key(raised(k, from, -by)),
        |k: i64| table[raised(k, from, -by)],
    )
}

/// An index after the ids of its files, and of its operations, were raised
/// from some id on, wherever they stand.
pub open spec fn with_room(
    index: IndexView,
    file_from: i64,
    file_by: int,
    operation_from: i64,
    operation_by: int,
) -> IndexView {
    IndexView {
        files: index.files.map_values(
            |file: FileView| FileView { id: raised(file.id, file_from, file_by), ..file },
        ),
        operations: index.operations.map_values(
            |operation: OperationView|
                OperationView {
                    id: raised(operation.id, operation_from, operation_by),
                    file_id: raised(operation.file_id, file_from, file_by),
                    ..operation
                },
        ),
        photos: raised_table(index.photos, file_from, file_by),
        documents: raised_table(index.documents, file_from, file_by),
        ..index
    }
}

/// The ids can be raised that far.
pub open spec fn has_room(index: IndexView, file_by: int, operation_by: int) -> bool {
    &&& index.files.len() > 0 ==> index.files.last().id + file_by <= i64::MAX
    &&& index.operations.len() > 0 ==> index.operations.last().id + operation_by <= i64::MAX
}

fn raise(id: i64, from: i64, by: i128) -> (new: i64)
    requires
        0 <= by,
        id + by <= i64::MAX,
    ensures
        new == raised(id, from, by as int),
{
    if id >= from {
        (id as i128 + by) as i64
    } else {
        id
    }
}

fn needed(from: i64, last: i64) -> (by: i128)
    ensures
        by == raise_needed(from, last),
        0 <= by <= 0x1_0000_0000_0000_0000,
{
    if last >= from {
        last as i128 + 1 - from as i128
    } else {
        0
    }
}

fn raise_table<V: Copy>(files: &Vec<FileRow>, table: &HashMap<i64, V>, from: i64, by: i128) -> (after:
    HashMap<i64, V>)
    requires
        0 <= by <= 0x1_0000_0000_0000_0000,
        model::ids_ascending(model::file_rows(files@)),
        forall|k: int| 0 <= k < files@.len() ==> (#[trigger] files@[k]).id + by <= i64::MAX,
        forall|id: i64| #[trigger]
            table@.contains_key(id) ==> model::has_id(model::file_rows(files@), id),
    ensures
        after@ == raised_table(table@, from, by as int),
{
    let ghost views = model::file_rows(files@);
    let mut after: HashMap<i64, V> = HashMap::new();
    for i in 0..files.len()
        invariant
            0 <= by <= 0x1_0000_0000_0000_0000,
            views == model::file_rows(files@),
            model::ids_ascending(views),
            forall|k: int| 0 <= k < files@.len() ==> (#[trigger] files@[k]).id + by <= i64::MAX,
            forall|id: i64| #[trigger]
                after@.contains_key(id) ==> exists|j: int|
                    0 <= j < i && raised((#[trigger] views[j]).id, from, by as int) == id
                        && table@.contains_key(views[j].id) && after@[id] == table@[views[j].id],
            forall|j: int|
                0 <= j < i && table@.contains_key((#[trigger] views[j]).id) ==> after@.contains_key(
                    raised(views[j].id, from, by as int),
                ) && after@[raised(views[j].id, from, by as int)] == table@[views[j].id],
    {
        let id = files[i].id;
        let ghost before = after@;
        proof {
            assert(views[i as int] == files@[i as int]@);
            assert forall|j: int| 0 <= j < i implies raised(
                (#[trigger] views[j]).id,
                from,
                by as int,
            ) != raised(id, from, by as int) by {
                assert(views[j].id < views[i as int].id);
                assert(views[j] == files@[j]@);
                assert(files@[j].id + by <= i64::MAX);
            }
        }
        match table.get(&id) {
            Some(entry) => {
                let entry: V = *entry;
                after.insert(raise(id, from, by), entry);
                proof {
                    let new = raised(id, from, by as int);
                    assert(after@ == before.insert(new, entry));
                    assert forall|k: i64| #[trigger] after@.contains_key(k) implies exists|j: int|
                        0 <= j < i + 1 && raised((#[trigger] views[j]).id, from, by as int) == k
                            && table@.contains_key(views[j].id) && after@[k]
                            == table@[views[j].id] by {
                        if k == new {
                            assert(raised(views[i as int].id, from, by as int) == k);
                        } else {
                            assert(before.contains_key(k));
                            let j = choose|j: int|
                                0 <= j < i && raised((#[trigger] views[j]).id, from, by as int)
                                    == k && table@.contains_key(views[j].id) && before[k]
                                    == table@[views[j].id];
                            assert(raised(views[j].id, from, by as int) == k);
                        }
                    }
                }
            },
            None => {},
        }
    }
    proof {
        let goal = raised_table(table@, from, by as int);
        assert forall|k: i64| #[trigger] after@.contains_key(k) <==> goal.contains_key(k) by {
            if after@.contains_key(k) {
                let j = choose|j: int|
                    0 <= j < files@.len() && raised((#[trigger] views[j]).id, from, by as int) == k
                        && table@.contains_key(views[j].id) && after@[k] == table@[views[j].id];
                assert(views[j] == files@[j]@);
                assert(files@[j].id + by <= i64::MAX);
                assert(raised(k, from, -(by as int)) == views[j].id);
            }
            if goal.contains_key(k) {
                let id = raised(k, from, -(by as int));
                assert(table@.contains_key(id));
                let j = choose|j: int| 0 <= j < views.len() && (#[trigger] views[j]).id == id;
                assert(table@.contains_key(views[j].id));
            }
        }
        assert forall|k: i64| after@.contains_key(k) implies after@[k] == goal[k] by {
            let j = choose|j: int|
                0 <= j < files@.len() && raised((#[trigger] views[j]).id, from, by as int) == k
                    && table@.contains_key(views[j].id) && after@[k] == table@[views[j].id];
            assert(views[j] == files@[j]@);
            assert(files@[j].id + by <= i64::MAX);
            assert(raised(k, from, -(by as int)) == views[j].id);
        }
        assert(after@ =~= goal);
    }
    after
}

/// Raising ids keeps an index well formed.
proof fn lemma_room_keeps_wf(
    index: IndexView,
    file_from: i64,
    file_by: int,
    operation_from: i64,
    operation_by: int,
)
    requires
        index.wf(),
        0 <= file_by,
        0 <= operation_by,
        has_room(index, file_by, operation_by),
    ensures
        with_room(index, file_from, file_by, operation_from, operation_by).wf(),
{
    let after = with_room(index, file_from, file_by, operation_from, operation_by);
    assert forall|p: int| 0 <= p < index.files.len() implies (#[trigger] index.files[p]).id
        + file_by <= i64::MAX by {
        if p < index.files.len() - 1 {
            assert(index.files[p].id < index.files[index.files.len() - 1].id);
        }
    }
    assert forall|p: int| 0 <= p < index.operations.len() implies (
    #[trigger] index.operations[p]).id + operation_by <= i64::MAX by {
        if p < index.operations.len() - 1 {
            assert(index.operations[p].id < index.operations[index.operations.len() - 1].id);
        }
    }
    assert forall|i: int, j: int| 0 <= i < j < after.files.len() implies (
    #[trigger] after.files[i]).id < (#[trigger] after.files[j]).id by {
        assert(index.files[i].id < index.files[j].id);
    }
    assert forall|i: int, j: int| 0 <= i < j < after.files.len() implies (
    #[trigger] after.files[i]).path != (#[trigger] after.files[j]).path by {
        assert(index.files[i].path != index.files[j].path);
    }
    assert forall|i: int, j: int| 0 <= i < j < after.operations.len() implies (
    #[trigger] after.operations[i]).id < (#[trigger] after.operations[j]).id by {
        assert(index.operations[i].id < index.operations[j].id);
    }
    assert forall|id: i64| model::has_id(index.files, id) implies #[trigger] model::has_id(
        after.files,
        raised(id, file_from, file_by),
    ) by {
        let p = choose|p: int| 0 <= p < index.files.len() && (#[trigger] index.files[p]).id == id;
        assert(after.files[p].id == raised(id, file_from, file_by));
    }
    assert forall|k: i64| #[trigger] after.photos.contains_key(k) implies model::has_id(
        after.files,
        k,
    ) by {
        lemma_raised_back(index.files, k, file_from, file_by);
    }
    assert forall|k: i64| #[trigger] after.documents.contains_key(k) implies model::has_id(
        after.files,
        k,
    ) by {
        lemma_raised_back(index.files, k, file_from, file_by);
    }
    assert forall|k: int| 0 <= k < after.operations.len() implies model::has_id(
        after.files,
        (#[trigger] after.operations[k]).file_id,
    ) by {
        assert(model::has_id(index.files, index.operations[k].file_id));
    }
}

proof fn lemma_raised_back(files: Seq<FileView>, k: i64, from: i64, by: int)
    requires
        0 <= by,
        k < from || k >= from + by,
        forall|p: int| 0 <= p < files.len() ==> (#[trigger] files[p]).id + by <= i64::MAX,
        model::has_id(files, raised(k, from, -by)),
    ensures
        raised(raised(k, from, -by), from, by) == k,
{
    let id = raised(k, from, -by);
    let p = choose|p: int| 0 <= p < files.len() && (#[trigger] files[p]).id == id;
    assert(files[p].id + by <= i64::MAX);
}

/// Make room in front of the rows that are new since the index was stored:
/// the ids of the files from `file_from` on come behind `last_file`, those of
/// the operations from `operation_from` on behind `last_operation`, and
/// whatever refers to a file follows it. Fails where the ids would not fit.
pub fn make_room(
    index: &mut Index,
    file_from: i64,
    last_file: i64,
    operation_from: i64,
    last_operation: i64,
) -> (outcome: Result<(), String>)
    requires
        old(index).wf(),
    ensures
        final(index).wf(),
        ({
            let file_by = raise_needed(file_from, last_file);
            let operation_by = raise_needed(operation_from, last_operation);
            if has_room(old(index)@, file_by, operation_by) {
                outcome is Ok && final(index)@ == with_room(
                    old(index)@,
                    file_from,
                    file_by,
                    operation_from,
                    operation_by,
                )
            } else {
                outcome is Err && outcome->Err_0@ == model::table_full() && final(index)@ == old(
                    index,
                )@
            }
        }),
{
    let file_by = needed(file_from, last_file);
    let operation_by = needed(operation_from, last_operation);
    let ghost before = index@;
    let n = index.files.len();
    let m = index.operations.len();
    proof {
        assert(before.files.len() == n);
        assert(before.operations.len() == m);
    }
    if n > 0 {
        proof {
            assert(before.files[n - 1] == index.files@[n - 1]@);
        }
        if index.files[n - 1].id as i128 + file_by > 0x7fff_ffff_ffff_ffff {
            return Err("database or disk is full".to_string());
        }
    }
    if m > 0 {
        proof {
            assert(before.operations[m - 1] == index.operations@[m - 1]@);
        }
        if index.operations[m - 1].id as i128 + operation_by > 0x7fff_ffff_ffff_ffff {
            return Err("database or disk is full".to_string());
        }
    }
    let ghost goal = with_room(
        before,
        file_from,
        file_by as int,
        operation_from,
        operation_by as int,
    );
    proof {
        lemma_room_keeps_wf(
            before,
            file_from,
            file_by as int,
            operation_from,
            operation_by as int,
        );
        assert forall|p: int| 0 <= p < n implies (#[trigger] index.files@[p]).id + file_by
            <= i64::MAX by {
            assert(before.files[p] == index.files@[p]@);
            if p < n - 1 {
                assert(before.files[p].id < before.files[n - 1].id);
            }
        }
        assert forall|p: int| 0 <= p < m implies (#[trigger] index.operations@[p]).id
            + operation_by <= i64::MAX && index.operations@[p].file_id + file_by <= i64::MAX by {
            assert(before.operations[p] == index.operations@[p]@);
            if p < m - 1 {
                assert(before.operations[p].id < before.operations[m - 1].id);
            }
            assert(model::has_id(before.files, before.operations[p].file_id));
            let q = choose|q: int|
                0 <= q < before.files.len() && (#[trigger] before.files[q]).id
                    == before.operations[p].file_id;
            assert(before.files[q] == index.files@[q]@);
        }
    }
    let photos = raise_table(&index.files, &index.photos, file_from, file_by);
    let documents = raise_table(&index.files, &index.documents, file_from, file_by);
    index.photos = photos;
    index.documents = documents;
    for i in 0..n
        invariant
            0 <= file_by <= 0x1_0000_0000_0000_0000,
            n == before.files.len(),
            index.files@.len() == n,
            index.settings == old(index).settings,
            index.operations == old(index).operations,
            index.verdicts == old(index).verdicts,
            index.photos@ == goal.photos,
            index.documents@ == goal.documents,
            goal == with_room(
                before,
                file_from,
                file_by as int,
                operation_from,
                operation_by as int,
            ),
            forall|p: int| 0 <= p < i ==> (#[trigger] index.files@[p])@ == goal.files[p],
            forall|p: int| i <= p < n ==> (#[trigger] index.files@[p])@ == before.files[p],
            forall|p: int| i <= p < n ==> (#[trigger] index.files@[p]).id + file_by <= i64::MAX,
    {
        let id = index.files[i].id;
        index.files[i].id = raise(id, file_from, file_by);
    }
    for i in 0..m
        invariant
            0 <= file_by <= 0x1_0000_0000_0000_0000,
            0 <= operation_by <= 0x1_0000_0000_0000_0000,
            n == before.files.len(),
            index.files@.len() == n,
            m == before.operations.len(),
            index.operations@.len() == m,
            index.settings == old(index).settings,
            index.verdicts == old(index).verdicts,
            index.photos@ == goal.photos,
            index.documents@ == goal.documents,
            goal == with_room(
                before,
                file_from,
                file_by as int,
                operation_from,
                operation_by as int,
            ),
            forall|p: int| 0 <= p < n ==> (#[trigger] index.files@[p])@ == goal.files[p],
            forall|p: int| 0 <= p < i ==> (#[trigger] index.operations@[p])@ == goal.operations[p],
            forall|p: int| i <= p < m ==> (#[trigger] index.operations@[p])@
                == before.operations[p],
            forall|p: int|
                i <= p < m ==> (#[trigger] index.operations@[p]).id + operation_by <= i64::MAX
                    && index.operations@[p].file_id + file_by <= i64::MAX,
    {
        let id = index.operations[i].id;
        let file_id = index.operations[i].file_id;
        index.operations[i].id = raise(id, operation_from, operation_by);
        index.operations[i].file_id = raise(file_id, file_from, file_by);
    }
    proof {
        assert(index@.files =~= goal.files);
        assert(index@.operations =~= goal.operations);
        assert(index@ == goal);
    }
    Ok(())
}

/// Once room is made, no new row shares its id with one that another writer
/// has stored, and the rows from before keep theirs.
pub proof fn law_room_separates_new_rows(
    index: IndexView,
    file_from: i64,
    last_file: i64,
    operation_from: i64,
    last_operation: i64,
)
    requires
        index.wf(),
        has_room(
            index,
            raise_needed(file_from, last_file),
            raise_needed(operation_from, last_operation),
        ),
    ensures
        ({
            let after = with_room(
                index,
                file_from,
                raise_needed(file_from, last_file),
                operation_from,
                raise_needed(operation_from, last_operation),
            );
            &&& forall|p: int|
                0 <= p < index.files.len() ==> if index.files[p].id < file_from {
                    #[trigger] after.files[p] == index.files[p]
                } else {
                    after.files[p].id > last_file
                }
            &&& forall|p: int|
                0 <= p < index.operations.len() ==> if index.operations[p].id < operation_from {
                    (#[trigger] after.operations[p]).id == index.operations[p].id
                } else {
                    after.operations[p].id > last_operation
                }
        }),
{
    assert forall|p: int| 0 <= p < index.files.len() implies (#[trigger] index.files[p]).id
        + raise_needed(file_from, last_file) <= i64::MAX by {
        if p < index.files.len() - 1 {
            assert(index.files[p].id < index.files[index.files.len() - 1].id);
        }
    }
    assert forall|p: int| 0 <= p < index.operations.len() implies (
    #[trigger] index.operations[p]).id + raise_needed(operation_from, last_operation)
        <= i64::MAX by {
        if p < index.operations.len() - 1 {
            assert(index.operations[p].id < index.operations[index.operations.len() - 1].id);
        }
    }
}

} // verus!
