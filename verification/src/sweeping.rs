//! What a sweep over the duplicate groups leaves and what it approves, said of
//! the rows before and after.
use crate::groups::QueryView;
use crate::keeper::MarkStrategy;
use crate::model::FileView;
use crate::{contents, groups, lists, review, text};
use vstd::prelude::*;
use vstd::relations::sorted_by;

verus! {

/// Row `p` is a live, unprotected copy of the content of row `o`.
pub open spec fn free_copy(files: Seq<FileView>, o: int, p: int) -> bool {
    &&& 0 <= p < files.len()
    &&& files[p].present
    &&& !files[p].protected
    &&& files[p].hash == files[o].hash
    &&& files[p].size == files[o].size
}

/// The live, unprotected copies of a content are the pool of its group.
proof fn lemma_pool_holds_free_copies(files: Seq<FileView>, lead: int, p: int)
    requires
        0 <= lead < files.len(),
        contents::leads(files, lead),
    ensures
        review::pool_of(files, lead).contains(p) <==> free_copy(files, lead, p),
{
    let list = contents::members(files, lead);
    let shown = groups::shown_members(files, lead);
    contents::lemma_members(files, lead);
    groups::lemma_member_order(files);
    lists::lemma_sort_by_members(list, groups::member_order(files));
    review::lemma_unprotected(files, shown);
    let keep = |q: int| contents::belongs(files, lead, q);
    lists::lemma_positions(files.len(), keep);
    assert(list.contains(p) <==> 0 <= p < files.len() && keep(p));
    assert(shown.contains(p) <==> list.contains(p));
    assert(review::pool_of(files, lead).contains(p) <==> shown.contains(p) && !files[p].protected);
}

/// In every group that a sweep touches, one live and unprotected copy is left
/// as it was, and every other such copy is approved. The one that is left has
/// the least time under `Oldest`, the greatest under `Newest`, and the path
/// of the fewest bytes under `Shortest`: no copy of the group has less, or
/// more, or fewer.
pub proof fn law_sweep_keeps_what_its_strategy_says(
    files: Seq<FileView>,
    query: QueryView,
    strategy: MarkStrategy,
    p: int,
)
    requires
        0 <= p < files.len(),
        review::swept(files, query, strategy)[p] != files[p],
    ensures
        free_copy(files, p, p),
        exists|q: int|
            {
                &&& q != p
                &&& #[trigger] free_copy(files, p, q)
                &&& review::swept(files, query, strategy)[q] == files[q]
                &&& forall|r: int| #[trigger]
                    free_copy(files, p, r) ==> (r != q ==> review::swept(
                        files,
                        query,
                        strategy,
                    )[r].approved) && match strategy {
                        MarkStrategy::Oldest => files[q].modified <= files[r].modified,
                        MarkStrategy::Newest => files[q].modified >= files[r].modified,
                        MarkStrategy::Shortest => vstd::utf8::encode_utf8(files[q].path).len()
                            <= vstd::utf8::encode_utf8(files[r].path).len(),
                        MarkStrategy::Scored => true,
                    }
            },
{
    let lead = choose|lead: int|
        0 <= lead < files.len() && groups::listed(files, query, lead) && #[trigger] review::marked_in(
            files,
            strategy,
            lead,
            p,
        );
    let pool = review::pool_of(files, lead);
    review::lemma_pool(files, lead);
    review::lemma_kept(files, strategy, pool, pool.len());
    lemma_pool_holds_free_copies(files, lead, p);
    let best = review::kept(files, strategy, pool, pool.len());
    let q = pool[best];
    assert(pool.contains(q));
    lemma_pool_holds_free_copies(files, lead, q);
    if review::marked(files, query, strategy, q) {
        let other = choose|other: int|
            0 <= other < files.len() && groups::listed(files, query, other)
                && #[trigger] review::marked_in(files, strategy, other, q);
        review::lemma_one_group(files, strategy, lead, other, q);
    }
    assert(free_copy(files, p, q));
    assert forall|r: int| #[trigger] free_copy(files, p, r) implies (r != q ==> review::swept(
        files,
        query,
        strategy,
    )[r].approved) && match strategy {
        MarkStrategy::Oldest => files[q].modified <= files[r].modified,
        MarkStrategy::Newest => files[q].modified >= files[r].modified,
        MarkStrategy::Shortest => vstd::utf8::encode_utf8(files[q].path).len()
            <= vstd::utf8::encode_utf8(files[r].path).len(),
        MarkStrategy::Scored => true,
    } by {
        lemma_pool_holds_free_copies(files, lead, r);
        let k = choose|k: int| 0 <= k < pool.len() && pool[k] == r;
        review::law_kept_copy_is_unbeaten(files, strategy, pool, pool.len(), k);
        if r != q {
            assert(review::marked_in(files, strategy, lead, r));
            assert(review::marked(files, query, strategy, r));
        }
    }
}

/// A sweep touches every group that has two live, unprotected copies and
/// that the query lets through: afterwards all but one of them are approved.
pub proof fn law_sweep_reaches_every_duplicate(
    files: Seq<FileView>,
    query: QueryView,
    strategy: MarkStrategy,
    a: int,
    b: int,
)
    requires
        groups::unfiltered(query),
        0 <= a < files.len(),
        a != b,
        free_copy(files, a, a),
        free_copy(files, a, b),
        files[a].size >= 0,
    ensures
        files[a].size >= query.min_size ==> review::swept(files, query, strategy)[a].approved || review::swept(
            files,
            query,
            strategy,
        )[b].approved,
        files[a].size < query.min_size ==> review::swept(files, query, strategy)[a] == files[a],
{
    if files[a].size >= query.min_size {
        groups::law_review_shows_every_duplicate(files, query, a, b);
        let lead = choose|lead: int| #[trigger]
            groups::listing(files, query).contains(lead) && contents::members(files, lead).contains(
                a,
            ) && contents::members(files, lead).contains(b);
        groups::lemma_listing(files, query);
        groups::law_groups_are_exact(files, query, lead, a);
        groups::law_groups_are_exact(files, query, lead, b);
        let pool = review::pool_of(files, lead);
        lemma_pool_holds_free_copies(files, lead, a);
        lemma_pool_holds_free_copies(files, lead, b);
        let i = choose|i: int| 0 <= i < pool.len() && pool[i] == a;
        let j = choose|j: int| 0 <= j < pool.len() && pool[j] == b;
        assert(pool.len() >= 2);
        let best = review::kept(files, strategy, pool, pool.len());
        if pool[best] != a {
            assert(review::marked_in(files, strategy, lead, a));
            assert(review::marked(files, query, strategy, a));
        } else {
            assert(review::marked_in(files, strategy, lead, b));
            assert(review::marked(files, query, strategy, b));
        }
    } else if review::marked(files, query, strategy, a) {
        let lead = choose|lead: int|
            0 <= lead < files.len() && groups::listed(files, query, lead) && #[trigger] review::marked_in(
                files,
                strategy,
                lead,
                a,
            );
        lemma_pool_holds_free_copies(files, lead, a);
    }
}

/// Leaving the protected rows out keeps the order of the others.
proof fn lemma_pool_sorted(files: Seq<FileView>, list: Seq<int>, le: spec_fn(int, int) -> bool)
    requires
        sorted_by(list, le),
    ensures
        sorted_by(review::unprotected(files, list), le),
        forall|k: int|
            0 <= k < review::unprotected(files, list).len() ==> exists|m: int|
                0 <= m < list.len() && list[m] == #[trigger] review::unprotected(files, list)[k],
    decreases list.len(),
{
    let pool = review::unprotected(files, list);
    if list.len() > 0 {
        let front = list.drop_last();
        let before = review::unprotected(files, front);
        assert(sorted_by(front, le)) by {
            assert forall|i: int, j: int| 0 <= i < j < front.len() implies #[trigger] le(
                front[i],
                front[j],
            ) by {
                assert(le(list[i], list[j]));
            }
        }
        lemma_pool_sorted(files, front, le);
        let last = list.len() - 1;
        assert forall|k: int| 0 <= k < pool.len() implies exists|m: int|
            0 <= m < list.len() && list[m] == #[trigger] pool[k] by {
            if k < before.len() {
                assert(before[k] == pool[k]);
                let m = choose|m: int| 0 <= m < front.len() && front[m] == before[k];
                assert(list[m] == pool[k]);
            } else {
                assert(list[last] == pool[k]);
            }
        }
        assert forall|i: int, j: int| 0 <= i < j < pool.len() implies #[trigger] le(
            pool[i],
            pool[j],
        ) by {
            assert(pool[i] == before[i]);
            let m = choose|m: int| 0 <= m < front.len() && front[m] == before[i];
            if j < before.len() {
                assert(pool[j] == before[j]);
                assert(le(before[i], before[j]));
            } else {
                assert(pool[j] == list[last]);
                assert(list[m] == pool[i]);
                assert(le(list[m], list[last]));
            }
        }
    }
}

/// What a sweep measures the copies by: smaller is kept. Scores are those of
/// the copies that may be marked, measured between the earliest and the
/// latest of them.
pub open spec fn measure(
    files: Seq<FileView>,
    strategy: MarkStrategy,
    earliest: int,
    latest: int,
    p: int,
) -> int {
    match strategy {
        MarkStrategy::Oldest => files[p].modified as int,
        MarkStrategy::Newest => -(files[p].modified as int),
        MarkStrategy::Shortest => vstd::utf8::encode_utf8(files[p].path).len() as int,
        MarkStrategy::Scored => -crate::keeper::keeper_points(
            files[p].path,
            files[p].modified as int,
            earliest,
            latest,
        ),
    }
}

/// Times between which all live, unprotected copies of a content lie, each
/// the time of one of them.
pub open spec fn is_span(files: Seq<FileView>, o: int, earliest: int, latest: int) -> bool {
    &&& forall|r: int| #[trigger]
        free_copy(files, o, r) ==> earliest <= files[r].modified <= latest
    &&& exists|r: int| #[trigger] free_copy(files, o, r) && files[r].modified == earliest
    &&& exists|r: int| #[trigger] free_copy(files, o, r) && files[r].modified == latest
}

/// The copy that a sweep leaves is the best one by its strategy, a score
/// included; of several best ones it is the one that the group shows first,
/// the latest, and of those of one time the first by path.
pub proof fn law_sweep_leaves_the_first_of_equals(
    files: Seq<FileView>,
    query: QueryView,
    strategy: MarkStrategy,
    p: int,
    earliest: int,
    latest: int,
)
    requires
        0 <= p < files.len(),
        review::swept(files, query, strategy)[p] != files[p],
        is_span(files, p, earliest, latest),
    ensures
        exists|q: int|
            {
                &&& q != p
                &&& #[trigger] free_copy(files, p, q)
                &&& review::swept(files, query, strategy)[q] == files[q]
                &&& forall|r: int| #[trigger]
                    free_copy(files, p, r) && r != q ==> {
                        let mine = measure(files, strategy, earliest, latest, q);
                        let its = measure(files, strategy, earliest, latest, r);
                        ||| mine < its
                        ||| mine == its && (files[q].modified > files[r].modified || (
                        files[q].modified == files[r].modified && text::text_le(
                            files[q].path,
                            files[r].path,
                        )))
                    }
            },
{
    let lead = choose|lead: int|
        0 <= lead < files.len() && groups::listed(files, query, lead)
            && #[trigger] review::marked_in(files, strategy, lead, p);
    let pool = review::pool_of(files, lead);
    let order = groups::member_order(files);
    review::lemma_pool(files, lead);
    review::lemma_kept(files, strategy, pool, pool.len());
    lemma_pool_holds_free_copies(files, lead, p);
    groups::lemma_member_order(files);
    lists::lemma_sort_by_members(contents::members(files, lead), order);
    lemma_pool_sorted(files, groups::shown_members(files, lead), order);
    let best = review::kept(files, strategy, pool, pool.len());
    let q = pool[best];
    assert(pool.contains(q));
    lemma_pool_holds_free_copies(files, lead, q);
    if review::marked(files, query, strategy, q) {
        let other = choose|other: int|
            0 <= other < files.len() && groups::listed(files, query, other)
                && #[trigger] review::marked_in(files, strategy, other, q);
        review::lemma_one_group(files, strategy, lead, other, q);
    }
    assert(free_copy(files, p, q));
    crate::evidence::law_ages_span_the_group(files, pool, best);
    assert(groups::earliest(files, pool) == earliest && groups::latest(files, pool) == latest) by {
        let a = choose|r: int| #[trigger] free_copy(files, p, r) && files[r].modified == earliest;
        let b = choose|r: int| #[trigger] free_copy(files, p, r) && files[r].modified == latest;
        lemma_pool_holds_free_copies(files, lead, a);
        lemma_pool_holds_free_copies(files, lead, b);
        let i = choose|i: int| 0 <= i < pool.len() && pool[i] == a;
        let j = choose|j: int| 0 <= j < pool.len() && pool[j] == b;
        crate::evidence::law_ages_span_the_group(files, pool, i);
        crate::evidence::law_ages_span_the_group(files, pool, j);
        let x = choose|m: int|
            0 <= m < pool.len() && files[#[trigger] pool[m]].modified == groups::earliest(
                files,
                pool,
            );
        let y = choose|m: int|
            0 <= m < pool.len() && files[#[trigger] pool[m]].modified == groups::latest(
                files,
                pool,
            );
        assert(pool.contains(pool[x]) && pool.contains(pool[y]));
        lemma_pool_holds_free_copies(files, lead, pool[x]);
        lemma_pool_holds_free_copies(files, lead, pool[y]);
        assert(free_copy(files, p, pool[x]) && free_copy(files, p, pool[y]));
    }
    assert forall|r: int| #[trigger] free_copy(files, p, r) && r != q implies {
        let mine = measure(files, strategy, earliest, latest, q);
        let its = measure(files, strategy, earliest, latest, r);
        ||| mine < its
        ||| mine == its && (files[q].modified > files[r].modified || (files[q].modified
            == files[r].modified && text::text_le(files[q].path, files[r].path)))
    } by {
        lemma_pool_holds_free_copies(files, lead, r);
        let k = choose|k: int| 0 <= k < pool.len() && pool[k] == r;
        review::law_kept_copy_is_unbeaten(files, strategy, pool, pool.len(), k);
        crate::evidence::law_ages_span_the_group(files, pool, k);
        if k > best {
            assert(order(pool[best], pool[k]));
            text::lemma_text_le_total(files[q].path, files[q].path);
        }
    }
}

} // verus!
