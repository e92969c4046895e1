//! Approving copies for removal, one by one or for a whole review, and the
//! preview of protection rules.
use crate::contents::group_table;
use crate::groups::{list_groups, sort_members, time_span, GroupQuery, GroupSort, QueryView};
use crate::keeper::{score, MarkStrategy};
use crate::model::{count_copies, find_live, FileRow, FileView, Index, IndexView};
use crate::paths::{is_protected_path, Platform};
use crate::settings::ensure_initialized;
use crate::text::{chars_of, joined, signed_text, text_bytes, trim_text};
use crate::{contents, groups, lists, model, outside, paths, settings, text};
use vstd::prelude::*;

verus! {

/// How many of the files of one user action went through, and why the others
/// did not.
pub struct BatchOutcome {
    pub succeeded: usize,
    pub failures: Vec<String>,
}

impl Default for BatchOutcome {
    fn default() -> (outcome: BatchOutcome)
        ensures
            outcome.succeeded == 0,
            outcome.failures@.len() == 0,
    {
        BatchOutcome { succeeded: 0, failures: Vec::new() }
    }
}

pub open spec fn unknown_file(id: i64) -> Seq<char> {
    "unknown file id "@ + text::decimal(id as int)
}

pub(crate) fn unknown_file_message(id: i64) -> (message: String)
    ensures
        message@ == unknown_file(id),
{
    let shown = signed_text(id);
    joined("unknown file id ", shown.as_str())
}

// ---------------------------------------------------------------------------
// One file
// ---------------------------------------------------------------------------

/// The files after approving a file, or after taking the approval back.
pub open spec fn approval(files: Seq<FileView>, id: i64, approved: bool) -> Result<
    Seq<FileView>,
    Seq<char>,
> {
    match model::live_at(files, id) {
        None => Err(unknown_file(id)),
        Some(i) => if approved && files[i].protected {
            Err("protected files cannot be approved"@)
        } else if approved && !model::exact_duplicate(files, i) {
            Err("only members of an exact duplicate group can be approved"@)
        } else {
            Ok(files.update(i, (FileView { approved, ..files[i] })))
        },
    }
}

/// Approve a copy for removal, or take the approval back. Protected files and
/// files without a twin cannot be approved.
pub fn set_approval(index: &mut Index, file_id: i64, approved: bool) -> (result: Result<(), String>)
    requires
        old(index).wf(),
    ensures
        final(index).wf(),
        match settings::opened(old(index)@) {
            Err(error) => result is Err && result->Err_0@ == error && final(index)@ == old(index)@,
            Ok(usable) => match approval(usable.files, file_id, approved) {
                Err(error) => result is Err && result->Err_0@ == error && final(index)@ == usable,
                Ok(files) => result is Ok && final(index)@ == (IndexView { files, ..usable }),
            },
        },
{
    match ensure_initialized(index) {
        Err(error) => return Err(error),
        Ok(_) => {},
    }
    let ghost usable = index@;
    let i = match find_live(&index.files, file_id) {
        None => return Err(unknown_file_message(file_id)),
        Some(i) => i,
    };
    proof {
        assert(usable.files[i as int] == index.files@[i as int]@);
    }
    if approved && index.files[i].protected {
        return Err("protected files cannot be approved".to_string());
    }
    if approved && count_copies(
        &index.files,
        index.files[i].hash.as_str(),
        index.files[i].size,
    ) <= 1 {
        return Err("only members of an exact duplicate group can be approved".to_string());
    }
    index.files[i].approved = approved;
    proof {
        let row = FileView { approved, ..usable.files[i as int] };
        assert(index@.files =~= usable.files.update(i as int, row));
        model::lemma_wf_with_file(usable, i as int, row);
        assert(index@ == usable.with_file(i as int, row));
    }
    Ok(())
}

/// An approval that was granted concerns an unprotected file with a twin, and
/// changes nothing but that file's approval.
pub proof fn law_approval_is_safe(files: Seq<FileView>, id: i64)
    requires
        model::ids_ascending(files),
        approval(files, id, true) is Ok,
    ensures
        ({
            let i = model::live_at(files, id)->0;
            let after = approval(files, id, true)->Ok_0;
            &&& 0 <= i < files.len()
            &&& files[i].id == id
            &&& !files[i].protected
            &&& model::has_twin(files, i)
            &&& after.len() == files.len()
            &&& after[i].approved
            &&& forall|k: int| 0 <= k < files.len() && k != i ==> #[trigger] after[k] == files[k]
        }),
{
    let i = model::live_at(files, id)->0;
    model::lemma_duplicate_has_twin(files, i);
}

/// Taking an approval back undoes it.
pub proof fn law_unapprove_undoes_approve(files: Seq<FileView>, id: i64)
    requires
        model::ids_ascending(files),
        approval(files, id, true) is Ok,
        !files[model::live_at(files, id)->0].approved,
    ensures
        approval(approval(files, id, true)->Ok_0, id, false) == Ok::<Seq<FileView>, Seq<char>>(files),
{
    let i = model::live_at(files, id)->0;
    let after = approval(files, id, true)->Ok_0;
    assert forall|a: int, b: int| 0 <= a < b < after.len() implies (#[trigger] after[a]).id < (
    #[trigger] after[b]).id by {
        assert(files[a].id < files[b].id);
    }
    model::lemma_at_id(after, i);
    let back = approval(after, id, false)->Ok_0;
    assert(back[i] == files[i]);
    assert(back =~= files);
}

// ---------------------------------------------------------------------------
// A whole review
// ---------------------------------------------------------------------------

/// The rows of the list that no rule protects, in their order.
pub open spec fn unprotected(files: Seq<FileView>, list: Seq<int>) -> Seq<int>
    decreases list.len(),
{
    if list.len() == 0 {
        Seq::empty()
    } else {
        let front = unprotected(files, list.drop_last());
        if files[list.last()].protected {
            front
        } else {
            front.push(list.last())
        }
    }
}

/// The `k`-th row of the pool is to be kept rather than the `m`-th.
pub open spec fn beats(
    files: Seq<FileView>,
    strategy: MarkStrategy,
    pool: Seq<int>,
    k: int,
    m: int,
) -> bool {
    match strategy {
        MarkStrategy::Newest => files[pool[k]].modified > files[pool[m]].modified,
        MarkStrategy::Oldest => files[pool[k]].modified < files[pool[m]].modified,
        MarkStrategy::Shortest => text::byte_len(files[pool[k]].path) < text::byte_len(
            files[pool[m]].path,
        ),
        MarkStrategy::Scored => groups::points(files, pool, k) > groups::points(files, pool, m),
    }
}

/// Which of the first `n` rows of the pool stays: the first that none beats.
pub open spec fn kept(files: Seq<FileView>, strategy: MarkStrategy, pool: Seq<int>, n: nat) -> int
    decreases n,
{
    if n <= 1 {
        0
    } else {
        let before = kept(files, strategy, pool, (n - 1) as nat);
        if beats(files, strategy, pool, n - 1, before) {
            n - 1
        } else {
            before
        }
    }
}

/// The copies of a group that may be removed, in the order shown.
pub open spec fn pool_of(files: Seq<FileView>, lead: int) -> Seq<int> {
    unprotected(files, groups::shown_members(files, lead))
}

/// The strategy marks the row at `p` in the group that `lead` stands for:
/// every unprotected copy but the one that stays.
pub open spec fn marked_in(
    files: Seq<FileView>,
    strategy: MarkStrategy,
    lead: int,
    p: int,
) -> bool {
    let pool = pool_of(files, lead);
    pool.len() >= 2 && pool.contains(p) && pool[kept(files, strategy, pool, pool.len())] != p
}

/// The sweep marks the row at `p`.
pub open spec fn marked(
    files: Seq<FileView>,
    query: QueryView,
    strategy: MarkStrategy,
    p: int,
) -> bool {
    exists|lead: int|
        0 <= lead < files.len() && groups::listed(files, query, lead) && #[trigger] marked_in(
            files,
            strategy,
            lead,
            p,
        )
}

/// The files after the sweep.
pub open spec fn swept(files: Seq<FileView>, query: QueryView, strategy: MarkStrategy) -> Seq<
    FileView,
> {
    Seq::new(
        files.len(),
        |p: int|
            if marked(files, query, strategy, p) {
                FileView { approved: true, ..files[p] }
            } else {
                files[p]
            },
    )
}

/// The rows that the sweep newly approves.
pub open spec fn newly_marked(
    files: Seq<FileView>,
    query: QueryView,
    strategy: MarkStrategy,
) -> Seq<int> {
    lists::positions(
        files.len(),
        |p: int| marked(files, query, strategy, p) && !files[p].approved,
    )
}

/// The filters of a sweep: blank texts filter nothing.
pub open spec fn sweep_query(
    min_size: i64,
    path_contains: Seq<char>,
    kind: Option<Seq<char>>,
    dir_contains: Seq<char>,
) -> QueryView {
    QueryView {
        min_size,
        path_contains: if text::trimmed(path_contains).len() == 0 {
            None
        } else {
            Some(text::trimmed(path_contains))
        },
        sort: GroupSort::Recoverable,
        offset: 0,
        limit: 200,
        kind,
        dir_contains: if dir_contains.len() == 0 {
            None
        } else {
            Some(dir_contains)
        },
    }
}

pub(crate) proof fn lemma_unprotected(files: Seq<FileView>, list: Seq<int>)
    ensures
        forall|p: int| #[trigger]
            unprotected(files, list).contains(p) <==> list.contains(p) && !files[p].protected,
        forall|k: int|
            0 <= k < unprotected(files, list).len() ==> list.contains(
                #[trigger] unprotected(files, list)[k],
            ) && !files[unprotected(files, list)[k]].protected,
        list.no_duplicates() ==> unprotected(files, list).no_duplicates(),
        unprotected(files, list).len() <= list.len(),
    decreases list.len(),
{
    if list.len() > 0 {
        let front = list.drop_last();
        lemma_unprotected(files, front);
        let out = unprotected(files, list);
        let before = unprotected(files, front);
        assert(list =~= front.push(list.last()));
        assert forall|p: int| list.contains(p) <==> front.contains(p) || p == list.last() by {
            if list.contains(p) {
                let k = choose|k: int| 0 <= k < list.len() && list[k] == p;
                if k < front.len() {
                    assert(front[k] == p);
                }
            }
            if front.contains(p) {
                let k = choose|k: int| 0 <= k < front.len() && front[k] == p;
                assert(list[k] == p);
            }
            assert(list[list.len() - 1] == list.last());
        }
        assert forall|p: int| #[trigger] out.contains(p) <==> list.contains(p)
            && !files[p].protected by {
            if files[list.last()].protected {
                assert(out == before);
                assert(before.contains(p) <==> front.contains(p) && !files[p].protected);
            } else {
                assert(out =~= before.push(list.last()));
                assert(before.contains(p) <==> front.contains(p) && !files[p].protected);
                if out.contains(p) {
                    let k = choose|k: int| 0 <= k < out.len() && out[k] == p;
                    if k < before.len() {
                        assert(before[k] == p);
                    }
                }
                if before.contains(p) {
                    let k = choose|k: int| 0 <= k < before.len() && before[k] == p;
                    assert(out[k] == p);
                }
                assert(out[out.len() - 1] == list.last());
            }
        }
        assert forall|k: int| 0 <= k < out.len() implies list.contains(#[trigger] out[k])
            && !files[out[k]].protected by {
            assert(out.contains(out[k]));
        }
        if list.no_duplicates() {
            assert(front.no_duplicates()) by {
                assert forall|i: int, j: int|
                    0 <= i < front.len() && 0 <= j < front.len() && i != j implies front[i]
                    != front[j] by {
                    assert(list[i] != list[j]);
                }
            }
            if !files[list.last()].protected {
                assert forall|i: int| 0 <= i < before.len() implies before[i] != list.last() by {
                    assert(front.contains(before[i]));
                    let k = choose|k: int| 0 <= k < front.len() && front[k] == before[i];
                    assert(list[k] != list[list.len() - 1]);
                }
            }
        }
    }
}

pub(crate) proof fn lemma_kept(files: Seq<FileView>, strategy: MarkStrategy, pool: Seq<int>, n: nat)
    requires
        1 <= n,
    ensures
        0 <= kept(files, strategy, pool, n) < n,
    decreases n,
{
    if n > 1 {
        lemma_kept(files, strategy, pool, (n - 1) as nat);
    }
}

/// The pool of a listed group: live rows of one content, each once.
pub(crate) proof fn lemma_pool(files: Seq<FileView>, lead: int)
    requires
        0 <= lead < files.len(),
        contents::leads(files, lead),
    ensures
        pool_of(files, lead).no_duplicates(),
        forall|k: int|
            0 <= k < pool_of(files, lead).len() ==> 0 <= #[trigger] pool_of(files, lead)[k]
                < files.len() && contents::belongs(files, lead, pool_of(files, lead)[k])
                && !files[pool_of(files, lead)[k]].protected,
        pool_of(files, lead).len() <= contents::members(files, lead).len(),
{
    let list = contents::members(files, lead);
    let shown = groups::shown_members(files, lead);
    contents::lemma_members(files, lead);
    groups::lemma_member_order(files);
    lists::lemma_sort_by_members(list, groups::member_order(files));
    assert(list.no_duplicates());
    list.lemma_multiset_has_no_duplicates();
    shown.lemma_multiset_has_no_duplicates_conv();
    lemma_unprotected(files, shown);
    let pool = pool_of(files, lead);
    assert forall|k: int| 0 <= k < pool.len() implies 0 <= #[trigger] pool[k] < files.len()
        && contents::belongs(files, lead, pool[k]) && !files[pool[k]].protected by {
        assert(shown.contains(pool[k]));
        assert(list.contains(pool[k]));
        let m = choose|m: int| 0 <= m < list.len() && list[m] == pool[k];
        assert(contents::belongs(files, lead, list[m]));
    }
}

/// A row is marked in one group at most.
pub(crate) proof fn lemma_one_group(files: Seq<FileView>, strategy: MarkStrategy, a: int, b: int, p: int)
    requires
        0 <= a < files.len(),
        0 <= b < files.len(),
        contents::leads(files, a),
        contents::leads(files, b),
        pool_of(files, a).contains(p),
        pool_of(files, b).contains(p),
    ensures
        a == b,
{
    lemma_pool(files, a);
    lemma_pool(files, b);
    let i = choose|i: int| 0 <= i < pool_of(files, a).len() && pool_of(files, a)[i] == p;
    let j = choose|j: int| 0 <= j < pool_of(files, b).len() && pool_of(files, b)[j] == p;
    assert(contents::belongs(files, a, pool_of(files, a)[i]));
    assert(contents::belongs(files, b, pool_of(files, b)[j]));
    if a < b {
        assert(contents::belongs(files, b, a));
    } else if b < a {
        assert(contents::belongs(files, a, b));
    }
}

pub(crate) fn unprotected_rows(files: &Vec<FileRow>, list: &Vec<usize>) -> (pool: Vec<usize>)
    requires
        groups::in_table(model::file_rows(files@), list@),
    ensures
        lists::ints(pool@) == unprotected(model::file_rows(files@), lists::ints(list@)),
        groups::in_table(model::file_rows(files@), pool@),
{
    let ghost views = model::file_rows(files@);
    let ghost whole = lists::ints(list@);
    let mut pool: Vec<usize> = Vec::new();
    proof {
        assert(lists::ints(pool@) =~= Seq::<int>::empty());
    }
    for i in 0..list.len()
        invariant
            views == model::file_rows(files@),
            whole == lists::ints(list@),
            groups::in_table(views, list@),
            groups::in_table(views, pool@),
            lists::ints(pool@) == unprotected(views, whole.take(i as int)),
    {
        let p = list[i];
        let ghost before = pool@;
        proof {
            assert(views[p as int] == files@[p as int]@);
            assert(whole.take(i + 1).drop_last() =~= whole.take(i as int));
            assert(whole.take(i + 1).last() == p);
        }
        if !files[p].protected {
            pool.push(p);
            proof {
                assert(lists::ints(pool@) =~= lists::ints(before).push(p as int));
            }
        }
    }
    proof {
        assert(whole.take(whole.len() as int) =~= whole);
    }
    pool
}

fn choose_kept(files: &Vec<FileRow>, strategy: MarkStrategy, pool: &Vec<usize>) -> (best: usize)
    requires
        groups::in_table(model::file_rows(files@), pool@),
        pool@.len() > 0,
    ensures
        best == kept(model::file_rows(files@), strategy, lists::ints(pool@), pool@.len()),
        best < pool@.len(),
{
    let ghost views = model::file_rows(files@);
    let ghost whole = lists::ints(pool@);
    let (low, high) = time_span(files, pool);
    let mut best: usize = 0;
    for k in 1..pool.len()
        invariant
            views == model::file_rows(files@),
            whole == lists::ints(pool@),
            groups::in_table(views, pool@),
            low == groups::earliest(views, whole),
            high == groups::latest(views, whole),
            best < k,
            best == kept(views, strategy, whole, k as nat),
    {
        let a = pool[k];
        let b = pool[best];
        proof {
            assert(whole[k as int] == a);
            assert(whole[best as int] == b);
            assert(views[a as int] == files@[a as int]@);
            assert(views[b as int] == files@[b as int]@);
        }
        let better = match strategy {
            MarkStrategy::Newest => files[a].modified > files[b].modified,
            MarkStrategy::Oldest => files[a].modified < files[b].modified,
            MarkStrategy::Shortest => text_bytes(files[a].path.as_str()) < text_bytes(
                files[b].path.as_str(),
            ),
            MarkStrategy::Scored => score(files[a].path.as_str(), files[a].modified, low, high)
                > score(files[b].path.as_str(), files[b].modified, low, high),
        };
        if better {
            best = k;
        }
    }
    best
}

/// The rows marked in the first groups of a list.
spec fn marked_among(
    files: Seq<FileView>,
    strategy: MarkStrategy,
    leads: Seq<int>,
    n: int,
    p: int,
) -> bool {
    exists|j: int| 0 <= j < n && marked_in(files, strategy, #[trigger] leads[j], p)
}

fn collect_marks(
    files: &Vec<FileRow>,
    table: &Vec<Vec<usize>>,
    list: &Vec<usize>,
    strategy: MarkStrategy,
    Ghost(query): Ghost<QueryView>,
) -> (marks: Vec<usize>)
    requires
        contents::is_group_table(model::file_rows(files@), table@),
        lists::ints(list@) == groups::listing(model::file_rows(files@), query),
    ensures
        marks@.no_duplicates(),
        forall|p: int|
            0 <= p < files@.len() ==> (lists::ints(marks@).contains(p) <==> #[trigger] marked(
                model::file_rows(files@),
                query,
                strategy,
                p,
            )),
        groups::in_table(model::file_rows(files@), marks@),
{
    let ghost views = model::file_rows(files@);
    let ghost all = groups::listing(views, query);
    let mut marks: Vec<usize> = Vec::new();
    proof {
        groups::lemma_listing(views, query);
        assert(all.len() == list@.len());
    }
    for i in 0..list.len()
        invariant
            views == model::file_rows(files@),
            all == groups::listing(views, query),
            lists::ints(list@) == all,
            contents::is_group_table(views, table@),
            groups::in_table(views, marks@),
            marks@.no_duplicates(),
            forall|p: int| #[trigger]
                lists::ints(marks@).contains(p) <==> marked_among(
                    views,
                    strategy,
                    all,
                    i as int,
                    p,
                ),
    {
        let lead = list[i];
        proof {
            groups::lemma_listing(views, query);
            assert(all[i as int] == lead);
            groups::lemma_run_in_table(views, table@, lead as int);
        }
        let shown = sort_members(files, &table[lead]);
        let pool = unprotected_rows(files, &shown);
        let ghost pooled = lists::ints(pool@);
        let ghost earlier = marks@;
        proof {
            lemma_pool(views, lead as int);
            assert(pooled == pool_of(views, lead as int));
            assert(pooled.len() == pool@.len());
        }
        if pool.len() >= 2 {
            let best = choose_kept(files, strategy, &pool);
            for k in 0..pool.len()
                invariant
                    views == model::file_rows(files@),
                    all == groups::listing(views, query),
                    i < all.len(),
                    all[i as int] == lead,
                    lead < views.len(),
                    contents::leads(views, lead as int),
                    forall|j: int|
                        0 <= j < all.len() ==> 0 <= #[trigger] all[j] < views.len()
                            && contents::leads(views, all[j]),
                    all.no_duplicates(),
                    pooled == lists::ints(pool@),
                    pooled == pool_of(views, lead as int),
                    pooled.no_duplicates(),
                    pooled.len() == pool@.len(),
                    groups::in_table(views, pool@),
                    groups::in_table(views, marks@),
                    best < pool@.len(),
                    forall|p: int| #[trigger]
                        lists::ints(earlier).contains(p) <==> marked_among(
                            views,
                            strategy,
                            all,
                            i as int,
                            p,
                        ),
                    marks@.no_duplicates(),
                    forall|p: int| #[trigger]
                        lists::ints(marks@).contains(p) <==> lists::ints(earlier).contains(p) || (
                        exists|m: int| 0 <= m < k && m != best && #[trigger] pooled[m] == p),
            {
                if k != best {
                    let p = pool[k];
                    let ghost before = marks@;
                    proof {
                        assert(pooled[k as int] == p);
                        if before.contains(p) {
                            let x = choose|x: int| 0 <= x < before.len() && before[x] == p;
                            assert(lists::ints(before)[x] == p);
                            assert(lists::ints(before).contains(p as int));
                            if lists::ints(earlier).contains(p as int) {
                                let j = choose|j: int|
                                    0 <= j < i && marked_in(
                                        views,
                                        strategy,
                                        #[trigger] all[j],
                                        p as int,
                                    );
                                assert(pool_of(views, lead as int).contains(p as int));
                                lemma_one_group(views, strategy, all[j], lead as int, p as int);
                                assert(all[j] != all[i as int]);
                            }
                        }
                    }
                    marks.push(p);
                    proof {
                        assert(lists::ints(marks@) =~= lists::ints(before).push(p as int));
                        assert forall|q: int| #[trigger] lists::ints(marks@).contains(q)
                            <==> lists::ints(earlier).contains(q) || (exists|m: int|
                            0 <= m < k + 1 && m != best && #[trigger] pooled[m] == q) by {
                            let now = lists::ints(marks@);
                            let was = lists::ints(before);
                            if now.contains(q) {
                                let x = choose|x: int| 0 <= x < now.len() && now[x] == q;
                                if x < was.len() {
                                    assert(was[x] == q);
                                    assert(was.contains(q));
                                } else {
                                    assert(pooled[k as int] == q);
                                }
                            }
                            if was.contains(q) {
                                let x = choose|x: int| 0 <= x < was.len() && was[x] == q;
                                assert(now[x] == q);
                            }
                            if exists|m: int| 0 <= m < k + 1 && m != best && #[trigger] pooled[m]
                                == q {
                                let m = choose|m: int|
                                    0 <= m < k + 1 && m != best && #[trigger] pooled[m] == q;
                                if m < k {
                                    assert(was.contains(q));
                                } else {
                                    assert(now[now.len() - 1] == q);
                                }
                            }
                        }
                    }
                }
            }
            proof {
                assert forall|p: int| #[trigger] lists::ints(marks@).contains(p) <==> marked_among(
                    views,
                    strategy,
                    all,
                    i + 1,
                    p,
                ) by {
                    lemma_marked_step(views, strategy, all, i as int, p);
                    let here = exists|m: int|
                        0 <= m < pool@.len() && m != best && #[trigger] pooled[m] == p;
                    if here {
                        let m = choose|m: int|
                            0 <= m < pool@.len() && m != best && #[trigger] pooled[m] == p;
                        assert(pooled.contains(p));
                        assert(pooled[m] != pooled[best as int]);
                    }
                    if marked_in(views, strategy, lead as int, p) {
                        let m = choose|m: int| 0 <= m < pooled.len() && pooled[m] == p;
                        assert(m != best);
                    }
                    assert(here <==> marked_in(views, strategy, lead as int, p));
                    assert(lists::ints(earlier).contains(p) <==> marked_among(
                        views,
                        strategy,
                        all,
                        i as int,
                        p,
                    ));
                }
            }
        } else {
            proof {
                assert forall|p: int| #[trigger] lists::ints(marks@).contains(p) <==> marked_among(
                    views,
                    strategy,
                    all,
                    i + 1,
                    p,
                ) by {
                    lemma_marked_step(views, strategy, all, i as int, p);
                }
            }
        }
    }
    proof {
        groups::lemma_listing(views, query);
        assert forall|p: int| 0 <= p < views.len() implies (lists::ints(marks@).contains(p)
            <==> #[trigger] marked(views, query, strategy, p)) by {
            if lists::ints(marks@).contains(p) {
                let j = choose|j: int|
                    0 <= j < all.len() && marked_in(views, strategy, #[trigger] all[j], p);
                assert(groups::listed(views, query, all[j]));
            }
            if marked(views, query, strategy, p) {
                let lead = choose|lead: int|
                    0 <= lead < views.len() && groups::listed(views, query, lead)
                        && #[trigger] marked_in(views, strategy, lead, p);
                assert(all.contains(lead));
                let j = choose|j: int| 0 <= j < all.len() && all[j] == lead;
                assert(marked_in(views, strategy, all[j], p));
            }
        }
    }
    marks
}

proof fn lemma_marked_step(
    files: Seq<FileView>,
    strategy: MarkStrategy,
    leads: Seq<int>,
    n: int,
    p: int,
)
    requires
        0 <= n < leads.len(),
    ensures
        marked_among(files, strategy, leads, n + 1, p) <==> marked_among(files, strategy, leads, n, p)
            || marked_in(files, strategy, leads[n], p),
{
    if marked_in(files, strategy, leads[n], p) {
        assert(marked_among(files, strategy, leads, n + 1, p));
    }
    if marked_among(files, strategy, leads, n + 1, p) {
        let j = choose|j: int| 0 <= j < n + 1 && marked_in(files, strategy, #[trigger] leads[j], p);
        if j < n {
            assert(marked_in(files, strategy, leads[j], p));
        }
    }
    if marked_among(files, strategy, leads, n, p) {
        let j = choose|j: int| 0 <= j < n && marked_in(files, strategy, #[trigger] leads[j], p);
        assert(marked_in(files, strategy, leads[j], p));
    }
}

/// Approve every copy but one in each group that meets the filters. The copy
/// that stays is chosen by the strategy among the unprotected ones; of equals
/// the first as shown stays. Groups with fewer than two unprotected copies
/// are left alone.
pub fn approve_groups_except_keeper(
    index: &mut Index,
    strategy: MarkStrategy,
    min_size: i64,
    path_contains: &str,
    kind: Option<&str>,
    dir_contains: &str,
) -> (result: Result<BatchOutcome, String>)
    requires
        old(index).wf(),
    ensures
        final(index).wf(),
        match settings::opened(old(index)@) {
            Err(error) => result is Err && result->Err_0@ == error && final(index)@ == old(index)@,
            Ok(usable) => {
                let query = sweep_query(
                    min_size,
                    path_contains@,
                    groups::borrowed(kind),
                    dir_contains@,
                );
                &&& result is Ok
                &&& result->Ok_0.failures@.len() == 0
                &&& result->Ok_0.succeeded == newly_marked(usable.files, query, strategy).len()
                &&& final(index)@ == (IndexView {
                    files: swept(usable.files, query, strategy),
                    ..usable
                })
            },
        },
{
    match ensure_initialized(index) {
        Err(error) => return Err(error),
        Ok(_) => {},
    }
    let wanted = trim_text(path_contains);
    let wanted_chars = chars_of(wanted.as_str());
    let dir_chars = chars_of(dir_contains);
    let query = GroupQuery {
        min_size,
        path_contains: if wanted_chars.len() == 0 {
            None
        } else {
            Some(wanted.as_str())
        },
        sort: GroupSort::Recoverable,
        offset: 0,
        limit: 200,
        kind,
        dir_contains: if dir_chars.len() == 0 {
            None
        } else {
            Some(dir_contains)
        },
    };
    let ghost q = sweep_query(min_size, path_contains@, groups::borrowed(kind), dir_contains@);
    let ghost usable = index@;
    let ghost views = usable.files;
    proof {
        assert(query@ == q);
    }
    let table = group_table(&index.files);
    let list = list_groups(&index.files, &table, &query);
    let marks = collect_marks(&index.files, &table, &list, strategy, Ghost(q));
    let mut succeeded: usize = 0;
    let ghost marked_rows = lists::ints(marks@);
    proof {
        assert(marked_rows.take(0) =~= Seq::<int>::empty());
        let none = |p: int| marked_rows.take(0).contains(p) && !views[p].approved;
        lists::lemma_positions(views.len(), none);
        if lists::positions(views.len(), none).len() > 0 {
            assert(none(lists::positions(views.len(), none)[0]));
        }
        assert(index@.files =~= approved_at(views, marked_rows.take(0)));
    }
    for i in 0..marks.len()
        invariant
            marked_rows == lists::ints(marks@),
            marks@.no_duplicates(),
            groups::in_table(views, marks@),
            usable.wf(),
            views == usable.files,
            index.wf(),
            index@ == (IndexView { files: approved_at(views, marked_rows.take(i as int)), ..usable }),
            succeeded <= i,
            succeeded == lists::positions(
                views.len(),
                |p: int| marked_rows.take(i as int).contains(p) && !views[p].approved,
            ).len(),
    {
        let p = marks[i];
        let ghost was = marked_rows.take(i as int);
        let ghost now = marked_rows.take(i + 1);
        let ghost before = index@;
        proof {
            assert(marked_rows[i as int] == p);
            assert(!was.contains(p as int)) by {
                if was.contains(p as int) {
                    let k = choose|k: int| 0 <= k < was.len() && was[k] == p;
                    assert(marks@[k] == marks@[i as int]);
                }
            }
            assert(now =~= was.push(p as int));
            assert forall|q: int| now.contains(q) <==> was.contains(q) || q == p by {
                if now.contains(q) {
                    let k = choose|k: int| 0 <= k < now.len() && now[k] == q;
                    if k < was.len() {
                        assert(was[k] == q);
                    }
                }
                if was.contains(q) {
                    let k = choose|k: int| 0 <= k < was.len() && was[k] == q;
                    assert(now[k] == q);
                }
                assert(now[now.len() - 1] == p);
            }
            assert(model::file_rows(index.files@).len() == index.files@.len());
            assert(approved_at(views, was).len() == views.len());
            assert(index.files@.len() == views.len());
            assert(before.files[p as int] == index.files@[p as int]@);
            assert(before.files[p as int] == views[p as int]);
            let keep = |q: int| was.contains(q) && !views[q].approved;
            let wider = |q: int| now.contains(q) && !views[q].approved;
            if views[p as int].approved {
                lists::lemma_positions_congruent(views.len(), keep, wider);
            } else {
                lists::lemma_positions_admit(views.len(), keep, wider, p as int);
            }
            let row = FileView { approved: true, ..before.files[p as int] };
            model::lemma_wf_with_file(before, p as int, row);
            assert(before.files.update(p as int, row) =~= approved_at(views, now));
        }
        if !index.files[p].approved {
            succeeded = succeeded + 1;
        }
        index.files[p].approved = true;
        proof {
            let row = FileView { approved: true, ..before.files[p as int] };
            assert(index@.files =~= before.files.update(p as int, row));
            assert(index@ == before.with_file(p as int, row));
        }
    }
    proof {
        let all = marked_rows.take(marks@.len() as int);
        assert(all =~= marked_rows);
        assert(approved_at(views, all) =~= swept(views, q, strategy));
        lists::lemma_positions_congruent(
            views.len(),
            |p: int| all.contains(p) && !views[p].approved,
            |p: int| marked(views, q, strategy, p) && !views[p].approved,
        );
    }
    Ok(BatchOutcome { succeeded, failures: Vec::new() })
}

/// Every mark of a sweep is one that a single approval would have granted.
pub proof fn law_sweep_marks_are_approvable(
    files: Seq<FileView>,
    query: QueryView,
    strategy: MarkStrategy,
    p: int,
)
    requires
        model::ids_ascending(files),
        0 <= p < files.len(),
        marked(files, query, strategy, p),
    ensures
        approval(files, files[p].id, true) is Ok,
        !files[p].protected,
        files[p].present,
{
    let lead = choose|lead: int|
        0 <= lead < files.len() && groups::listed(files, query, lead) && #[trigger] marked_in(
            files,
            strategy,
            lead,
            p,
        );
    let pool = pool_of(files, lead);
    lemma_pool(files, lead);
    let k = choose|k: int| 0 <= k < pool.len() && pool[k] == p;
    let best = kept(files, strategy, pool, pool.len());
    lemma_kept(files, strategy, pool, pool.len());
    assert(contents::belongs(files, lead, pool[k]));
    assert(contents::belongs(files, lead, pool[best]));
    assert(model::is_copy(files[pool[best]], files[p].hash, files[p].size));
    model::lemma_duplicate_has_twin(files, p);
    model::lemma_at_id(files, p);
}

/// In every group that the sweep touches one unprotected live copy stays
/// unmarked, so removing all marked copies leaves it.
pub proof fn law_sweep_leaves_a_copy(
    files: Seq<FileView>,
    query: QueryView,
    strategy: MarkStrategy,
    p: int,
)
    requires
        0 <= p < files.len(),
        marked(files, query, strategy, p),
    ensures
        exists|q: int|
            0 <= q < files.len() && q != p && contents::belongs(files, p, q)
                && !files[q].protected && !#[trigger] marked(files, query, strategy, q),
{
    let lead = choose|lead: int|
        0 <= lead < files.len() && groups::listed(files, query, lead) && #[trigger] marked_in(
            files,
            strategy,
            lead,
            p,
        );
    let pool = pool_of(files, lead);
    lemma_pool(files, lead);
    lemma_kept(files, strategy, pool, pool.len());
    let best = kept(files, strategy, pool, pool.len());
    let q = pool[best];
    let k = choose|k: int| 0 <= k < pool.len() && pool[k] == p;
    assert(contents::belongs(files, lead, pool[k]));
    assert(contents::belongs(files, lead, pool[best]));
    if marked(files, query, strategy, q) {
        let other = choose|other: int|
            0 <= other < files.len() && groups::listed(files, query, other)
                && #[trigger] marked_in(files, strategy, other, q);
        assert(pool.contains(q));
        lemma_one_group(files, strategy, lead, other, q);
    }
}

/// A sweep changes approvals only.
pub proof fn law_sweep_changes_approvals_only(
    files: Seq<FileView>,
    query: QueryView,
    strategy: MarkStrategy,
    p: int,
)
    requires
        0 <= p < files.len(),
    ensures
        swept(files, query, strategy)[p] == (FileView {
            approved: files[p].approved || marked(files, query, strategy, p),
            ..files[p]
        }),
        files[p].protected ==> swept(files, query, strategy)[p] == files[p],
{
    if marked(files, query, strategy, p) {
        let lead = choose|lead: int|
            0 <= lead < files.len() && groups::listed(files, query, lead) && #[trigger] marked_in(
                files,
                strategy,
                lead,
                p,
            );
        lemma_pool(files, lead);
    }
}

/// No copy of the pool beats the one that stays, and it beats every copy
/// shown before it.
pub proof fn law_kept_copy_is_unbeaten(
    files: Seq<FileView>,
    strategy: MarkStrategy,
    pool: Seq<int>,
    n: nat,
    k: int,
)
    requires
        1 <= n <= pool.len(),
        0 <= k < n,
    ensures
        !beats(files, strategy, pool, k, kept(files, strategy, pool, n)),
        k < kept(files, strategy, pool, n) ==> beats(
            files,
            strategy,
            pool,
            kept(files, strategy, pool, n),
            k,
        ),
    decreases n,
{
    if n > 1 {
        let before = kept(files, strategy, pool, (n - 1) as nat);
        lemma_kept(files, strategy, pool, (n - 1) as nat);
        if k < n - 1 {
            law_kept_copy_is_unbeaten(files, strategy, pool, (n - 1) as nat, k);
        }
    }
}

spec fn approved_at(files: Seq<FileView>, rows: Seq<int>) -> Seq<FileView> {
    Seq::new(
        files.len(),
        |p: int|
            if rows.contains(p) {
                FileView { approved: true, ..files[p] }
            } else {
                files[p]
            },
    )
}

// ---------------------------------------------------------------------------
// Preview of protection rules
// ---------------------------------------------------------------------------

/// How many sample paths a preview shows.
pub const PROTECT_PREVIEW_EXAMPLES: usize = 20;

/// How many indexed files a set of rules would protect, with samples.
pub struct ProtectPreview {
    pub matched: i64,
    pub examples: Vec<String>,
}

/// The live rows that the rules protect.
pub open spec fn shielded(
    platform: Platform,
    files: Seq<FileView>,
    rules: Seq<Seq<char>>,
) -> Seq<int> {
    lists::positions(
        files.len(),
        |p: int| files[p].present && paths::protected_by(platform, files[p].path, rules),
    )
}

/// The first paths among the rows, up to the size of a preview.
pub open spec fn sample_paths(files: Seq<FileView>, rows: Seq<int>) -> Seq<Seq<char>> {
    rows.take(
        if rows.len() < PROTECT_PREVIEW_EXAMPLES {
            rows.len() as int
        } else {
            PROTECT_PREVIEW_EXAMPLES as int
        },
    ).map_values(|p: int| files[p].path)
}

/// What a set of rules, saved or not, would protect.
pub fn protect_preview(index: &mut Index, platform: Platform, rules: &[String]) -> (preview: Result<
    ProtectPreview,
    String,
>)
    requires
        old(index).wf(),
    ensures
        final(index).wf(),
        match settings::opened(old(index)@) {
            Err(error) => preview is Err && preview->Err_0@ == error && final(index)@ == old(index)@,
            Ok(usable) => {
                let rows = shielded(platform, usable.files, outside::texts(rules@));
                &&& final(index)@ == usable
                &&& preview is Ok
                &&& preview->Ok_0.matched == rows.len()
                &&& outside::texts(preview->Ok_0.examples@) == sample_paths(usable.files, rows)
            },
        },
{
    match ensure_initialized(index) {
        Err(error) => return Err(error),
        Ok(_) => {},
    }
    let files = &index.files;
    let ghost views = model::file_rows(files@);
    let ghost keep = |p: int|
        views[p].present && paths::protected_by(platform, views[p].path, outside::texts(rules@));
    let mut matched: i64 = 0;
    let mut examples: Vec<String> = Vec::new();
    proof {
        assert(outside::texts(examples@) =~= sample_paths(views, lists::positions(0, keep)));
    }
    for i in 0..files.len()
        invariant
            views == model::file_rows(files@),
            model::ids_ascending(views),
            keep == (|p: int|
                views[p].present && paths::protected_by(
                    platform,
                    views[p].path,
                    outside::texts(rules@),
                )),
            0 <= matched <= i,
            matched == lists::positions(i as nat, keep).len(),
            outside::texts(examples@) == sample_paths(views, lists::positions(i as nat, keep)),
    {
        let ghost rows = lists::positions(i as nat, keep);
        proof {
            model::lemma_file_count(views, i as int);
            assert(views[i as int] == files@[i as int]@);
            assert(outside::texts(examples@).len() == examples@.len());
        }
        if files[i].present && is_protected_path(platform, files[i].path.as_str(), rules) {
            matched = matched + 1;
            let ghost before = examples@;
            proof {
                assert(keep(i as int));
                assert(lists::positions((i + 1) as nat, keep) == rows.push(i as int));
            }
            if examples.len() < PROTECT_PREVIEW_EXAMPLES {
                examples.push(files[i].path.clone());
                proof {
                    assert(outside::texts(examples@) =~= outside::texts(before).push(
                        views[i as int].path,
                    ));
                    assert(sample_paths(views, rows.push(i as int)) =~= sample_paths(
                        views,
                        rows,
                    ).push(views[i as int].path));
                }
            } else {
                proof {
                    assert(sample_paths(views, rows.push(i as int)) =~= sample_paths(views, rows));
                }
            }
        }
    }
    Ok(ProtectPreview { matched, examples })
}

} // verus!
