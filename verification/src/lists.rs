//! Lists of positions: selecting rows of a table and putting them in order.
use vstd::prelude::*;
use vstd::relations::{sorted_by, total_ordering};

verus! {

/// The positions below `n` that satisfy `keep`, in ascending order.
pub open spec fn positions(n: nat, keep: spec_fn(int) -> bool) -> Seq<int>
    decreases n,
{
    if n == 0 {
        Seq::empty()
    } else {
        let before = positions((n - 1) as nat, keep);
        if keep(n - 1) {
            before.push(n - 1)
        } else {
            before
        }
    }
}

/// Machine positions read as integers.
pub open spec fn ints(list: Seq<usize>) -> Seq<int> {
    list.map_values(|p: usize| p as int)
}

/// Ascending without repetition.
pub open spec fn ascending(list: Seq<int>) -> bool {
    forall|i: int, j: int| 0 <= i < j < list.len() ==> list[i] < list[j]
}

/// `positions` holds exactly the positions asked for, each once.
pub proof fn lemma_positions(n: nat, keep: spec_fn(int) -> bool)
    ensures
        forall|p: int| #[trigger] positions(n, keep).contains(p) <==> 0 <= p < n && keep(p),
        forall|i: int|
            0 <= i < positions(n, keep).len() ==> 0 <= #[trigger] positions(n, keep)[i] < n && keep(
                positions(n, keep)[i],
            ),
        ascending(positions(n, keep)),
        positions(n, keep).len() <= n,
    decreases n,
{
    if n > 0 {
        let m = (n - 1) as nat;
        lemma_positions(m, keep);
        let before = positions(m, keep);
        let list = positions(n, keep);
        assert forall|p: int| #[trigger] list.contains(p) <==> 0 <= p < n && keep(p) by {
            if keep(n - 1) {
                assert(list[list.len() - 1] == n - 1);
                if before.contains(p) {
                    let i = choose|i: int| 0 <= i < before.len() && before[i] == p;
                    assert(list[i] == p);
                }
                if list.contains(p) && p != n - 1 {
                    let i = choose|i: int| 0 <= i < list.len() && list[i] == p;
                    assert(before[i] == p);
                    assert(before.contains(p));
                }
                if 0 <= p < n - 1 && keep(p) {
                    assert(before.contains(p));
                }
            } else {
                assert(list == before);
                assert(before.contains(p) <==> 0 <= p < m && keep(p));
            }
        }
    }
}

/// Two ascending lists with the same entries are equal.
pub proof fn lemma_ascending_unique(a: Seq<int>, b: Seq<int>)
    requires
        ascending(a),
        ascending(b),
        forall|p: int| #[trigger] a.contains(p) <==> b.contains(p),
    ensures
        a == b,
    decreases a.len(),
{
    if a.len() == 0 {
        if b.len() > 0 {
            assert(b.contains(b[0]));
            assert(a.contains(b[0]));
        }
    } else {
        assert(a.contains(a.last()));
        assert(b.contains(a.last()));
        assert(b.len() > 0);
        assert(b.contains(b.last()));
        assert(a.contains(b.last()));
        let i = choose|i: int| 0 <= i < b.len() && b[i] == a.last();
        let j = choose|j: int| 0 <= j < a.len() && a[j] == b.last();
        assert(a.last() == b.last());
        let a0 = a.drop_last();
        let b0 = b.drop_last();
        assert forall|p: int| #[trigger] a0.contains(p) <==> b0.contains(p) by {
            if a0.contains(p) {
                let k = choose|k: int| 0 <= k < a0.len() && a0[k] == p;
                assert(a[k] == p);
                assert(a.contains(p));
                assert(b.contains(p));
                let m = choose|m: int| 0 <= m < b.len() && b[m] == p;
                assert(b0[m] == p);
            }
            if b0.contains(p) {
                let k = choose|k: int| 0 <= k < b0.len() && b0[k] == p;
                assert(b[k] == p);
                assert(b.contains(p));
                assert(a.contains(p));
                let m = choose|m: int| 0 <= m < a.len() && a[m] == p;
                assert(a0[m] == p);
            }
        }
        lemma_ascending_unique(a0, b0);
        assert(a == a0.push(a.last()));
        assert(b == b0.push(b.last()));
    }
}

/// Selecting by predicates that agree below `n` gives the same list.
pub proof fn lemma_positions_congruent(
    n: nat,
    keep: spec_fn(int) -> bool,
    other: spec_fn(int) -> bool,
)
    requires
        forall|p: int| 0 <= p < n ==> #[trigger] keep(p) == other(p),
    ensures
        positions(n, keep) == positions(n, other),
    decreases n,
{
    if n > 0 {
        lemma_positions_congruent((n - 1) as nat, keep, other);
        assert(keep(n - 1) == other(n - 1));
    }
}

/// What is first among the first positions is first among all.
pub proof fn lemma_first_position(n: nat, keep: spec_fn(int) -> bool, m: nat)
    requires
        m <= n,
        positions(m, keep).len() > 0,
    ensures
        positions(n, keep).len() > 0,
        positions(n, keep)[0] == positions(m, keep)[0],
    decreases n,
{
    if m < n {
        lemma_first_position((n - 1) as nat, keep, m);
    }
}

/// Admitting one more position makes the list longer by one.
pub proof fn lemma_positions_admit(
    n: nat,
    keep: spec_fn(int) -> bool,
    wider: spec_fn(int) -> bool,
    p: int,
)
    requires
        0 <= p < n,
        !keep(p),
        wider(p),
        forall|q: int| 0 <= q < n && q != p ==> #[trigger] keep(q) == wider(q),
    ensures
        positions(n, wider).len() == positions(n, keep).len() + 1,
    decreases n,
{
    if p == n - 1 {
        lemma_positions_congruent((n - 1) as nat, keep, wider);
    } else {
        lemma_positions_admit((n - 1) as nat, keep, wider, p);
        assert(keep(n - 1) == wider(n - 1));
    }
}

proof fn lemma_ints_push(list: Seq<usize>, p: usize)
    ensures
        ints(list.push(p)) == ints(list).push(p as int),
{
    assert(ints(list.push(p)) =~= ints(list).push(p as int));
}

proof fn lemma_total_pairs<A>(le: spec_fn(A, A) -> bool, a: A, b: A, c: A)
    requires
        total_ordering(le),
    ensures
        le(a, a),
        le(a, b) || le(b, a),
        le(a, b) && le(b, a) ==> a == b,
        le(a, b) && le(b, c) ==> le(a, c),
{
}

/// A sorted arrangement of the entries of `list` is the one that sorting gives.
pub proof fn lemma_sorted_is_sort_by(list: Seq<int>, sorted: Seq<int>, le: spec_fn(int, int) -> bool)
    requires
        total_ordering(le),
        sorted.to_multiset() == list.to_multiset(),
        sorted_by(sorted, le),
    ensures
        sorted == list.sort_by(le),
{
    list.lemma_sort_by_ensures(le);
    vstd::seq_lib::lemma_sorted_unique(sorted, list.sort_by(le), le);
}

/// Sorting keeps the entries: same length, same members.
pub proof fn lemma_sort_by_members(list: Seq<int>, le: spec_fn(int, int) -> bool)
    requires
        total_ordering(le),
    ensures
        list.sort_by(le).len() == list.len(),
        forall|p: int| #[trigger] list.sort_by(le).contains(p) <==> list.contains(p),
        list.sort_by(le).to_multiset() == list.to_multiset(),
        sorted_by(list.sort_by(le), le),
{
    list.lemma_sort_by_ensures(le);
    broadcast use vstd::seq_lib::group_to_multiset_ensures;

    assert(list.sort_by(le).to_multiset().len() == list.to_multiset().len());
    assert forall|p: int| #[trigger] list.sort_by(le).contains(p) <==> list.contains(p) by {
        assert(list.sort_by(le).to_multiset().count(p) == list.to_multiset().count(p));
    }
}

// ---------------------------------------------------------------------------
// Orders
// ---------------------------------------------------------------------------

/// Larger rank first; equal ranks as `next` says.
pub open spec fn by_rank(
    rank: spec_fn(int) -> int,
    next: spec_fn(int, int) -> bool,
) -> spec_fn(int, int) -> bool {
    |a: int, b: int|
        if rank(a) != rank(b) {
            rank(a) > rank(b)
        } else {
            next(a, b)
        }
}

/// Smaller text first; equal texts as `next` says.
pub open spec fn by_text(
    key: spec_fn(int) -> Seq<char>,
    next: spec_fn(int, int) -> bool,
) -> spec_fn(int, int) -> bool {
    |a: int, b: int|
        if key(a) != key(b) {
            crate::text::text_le(key(a), key(b))
        } else {
            next(a, b)
        }
}

/// Smaller position first.
pub open spec fn by_position() -> spec_fn(int, int) -> bool {
    |a: int, b: int| a <= b
}

pub proof fn lemma_by_position()
    ensures
        total_ordering(by_position()),
{
}

pub proof fn lemma_by_rank(rank: spec_fn(int) -> int, next: spec_fn(int, int) -> bool)
    requires
        total_ordering(next),
    ensures
        total_ordering(by_rank(rank, next)),
{
    let le = by_rank(rank, next);
    assert(vstd::relations::reflexive(le));
    assert(vstd::relations::antisymmetric(le));
    assert(vstd::relations::transitive(le)) by {
        assert forall|a: int, b: int, c: int| #[trigger] le(a, b) && #[trigger] le(b, c) implies le(
            a,
            c,
        ) by {
            if rank(a) == rank(b) && rank(b) == rank(c) {
                assert(next(a, b) && next(b, c));
            }
        }
    }
    assert(vstd::relations::strongly_connected(le));
}

pub proof fn lemma_by_text(key: spec_fn(int) -> Seq<char>, next: spec_fn(int, int) -> bool)
    requires
        total_ordering(next),
    ensures
        total_ordering(by_text(key, next)),
{
    crate::text::lemma_text_order();
    let le = by_text(key, next);
    assert(vstd::relations::reflexive(le));
    assert(vstd::relations::antisymmetric(le));
    assert(vstd::relations::transitive(le)) by {
        assert forall|a: int, b: int, c: int| #[trigger] le(a, b) && #[trigger] le(b, c) implies le(
            a,
            c,
        ) by {
            if key(a) == key(b) && key(b) == key(c) {
                assert(next(a, b) && next(b, c));
            } else if key(a) != key(b) && key(b) != key(c) {
                assert(crate::text::text_le(key(a), key(c)));
                if key(a) == key(c) {
                    assert(crate::text::text_le(key(b), key(a)));
                }
            }
        }
    }
    assert(vstd::relations::strongly_connected(le));
}

// ---------------------------------------------------------------------------
// Sorting
// ---------------------------------------------------------------------------

fn merge<F: Fn(usize, usize) -> bool>(
    left: &Vec<usize>,
    right: &Vec<usize>,
    le: &F,
    Ghost(order): Ghost<spec_fn(int, int) -> bool>,
) -> (out: Vec<usize>)
    requires
        total_ordering(order),
        forall|a: usize, b: usize|
            (left@.contains(a) || right@.contains(a)) && (left@.contains(b) || right@.contains(b))
                ==> #[trigger] le.requires((a, b)),
        forall|a: usize, b: usize, r: bool|
            #[trigger] le.ensures((a, b), r) ==> r == order(a as int, b as int),
        sorted_by(ints(left@), order),
        sorted_by(ints(right@), order),
    ensures
        sorted_by(ints(out@), order),
        out@.to_multiset() == left@.to_multiset().add(right@.to_multiset()),
{
    let mut out: Vec<usize> = Vec::new();
    let mut i: usize = 0;
    let mut j: usize = 0;
    proof {
        assert(left@.take(0) == Seq::<usize>::empty());
        assert(right@.take(0) == Seq::<usize>::empty());
        broadcast use vstd::seq_lib::group_to_multiset_ensures;
        assert(out@.to_multiset() =~= left@.take(0).to_multiset().add(right@.take(0).to_multiset()));
    }
    while i < left.len() || j < right.len()
        invariant
            i <= left@.len(),
            j <= right@.len(),
            total_ordering(order),
            forall|a: usize, b: usize|
                (left@.contains(a) || right@.contains(a)) && (left@.contains(b) || right@.contains(
                    b,
                )) ==> #[trigger] le.requires((a, b)),
            forall|a: usize, b: usize, r: bool|
                #[trigger] le.ensures((a, b), r) ==> r == order(a as int, b as int),
            sorted_by(ints(left@), order),
            sorted_by(ints(right@), order),
            sorted_by(ints(out@), order),
            forall|k: int, m: int|
                0 <= k < out@.len() && i <= m < left@.len() ==> order(
                    #[trigger] out@[k] as int,
                    #[trigger] left@[m] as int,
                ),
            forall|k: int, m: int|
                0 <= k < out@.len() && j <= m < right@.len() ==> order(
                    #[trigger] out@[k] as int,
                    #[trigger] right@[m] as int,
                ),
            out@.to_multiset() == left@.take(i as int).to_multiset().add(
                right@.take(j as int).to_multiset(),
            ),
        decreases left@.len() - i + right@.len() - j,
    {
        let ghost before = out@;
        let from_left = if i == left.len() {
            false
        } else if j == right.len() {
            true
        } else {
            proof {
                assert(left@.contains(left@[i as int]));
                assert(right@.contains(right@[j as int]));
            }
            le(left[i], right[j])
        };
        let ghost ls = ints(left@);
        let ghost rs = ints(right@);
        proof {
            broadcast use vstd::seq_lib::group_to_multiset_ensures;
        }
        if from_left {
            let p = left[i];
            out.push(p);
            proof {
                assert(left@.take(i + 1) == left@.take(i as int).push(p));
                lemma_ints_push(before, p);
                assert forall|m: int| i + 1 <= m < left@.len() implies order(
                    p as int,
                    #[trigger] left@[m] as int,
                ) by {
                    assert(order(ls[i as int], ls[m]));
                }
                assert forall|m: int| j <= m < right@.len() implies order(
                    p as int,
                    #[trigger] right@[m] as int,
                ) by {
                    assert(order(ls[i as int], rs[j as int]));
                    if j < m {
                        assert(order(rs[j as int], rs[m]));
                    }
                    lemma_total_pairs(order, ls[i as int], rs[j as int], rs[m]);
                }
                assert(out@.to_multiset() =~= left@.take(i + 1).to_multiset().add(
                    right@.take(j as int).to_multiset(),
                ));
                assert(sorted_by(ints(out@), order)) by {
                    assert forall|x: int, y: int| 0 <= x < y < ints(out@).len() implies (order)(
                        ints(out@)[x],
                        ints(out@)[y],
                    ) by {
                        if y < before.len() {
                            assert(order(ints(before)[x], ints(before)[y]));
                        } else {
                            assert(order(before[x] as int, left@[i as int] as int));
                        }
                    }
                }
            }
            i = i + 1;
        } else {
            let p = right[j];
            out.push(p);
            proof {
                assert(right@.take(j + 1) == right@.take(j as int).push(p));
                lemma_ints_push(before, p);
                assert forall|m: int| j + 1 <= m < right@.len() implies order(
                    p as int,
                    #[trigger] right@[m] as int,
                ) by {
                    assert(order(rs[j as int], rs[m]));
                }
                assert forall|m: int| i <= m < left@.len() implies order(
                    p as int,
                    #[trigger] left@[m] as int,
                ) by {
                    lemma_total_pairs(order, ls[i as int], rs[j as int], ls[m]);
                    if i < m {
                        assert(order(ls[i as int], ls[m]));
                    }
                    lemma_total_pairs(order, rs[j as int], ls[i as int], ls[m]);
                }
                assert(out@.to_multiset() =~= left@.take(i as int).to_multiset().add(
                    right@.take(j + 1).to_multiset(),
                ));
                assert(sorted_by(ints(out@), order)) by {
                    assert forall|x: int, y: int| 0 <= x < y < ints(out@).len() implies (order)(
                        ints(out@)[x],
                        ints(out@)[y],
                    ) by {
                        if y < before.len() {
                            assert(order(ints(before)[x], ints(before)[y]));
                        } else {
                            assert(order(before[x] as int, right@[j as int] as int));
                        }
                    }
                }
            }
            j = j + 1;
        }
    }
    proof {
        assert(left@.take(left@.len() as int) == left@);
        assert(right@.take(right@.len() as int) == right@);
    }
    out
}

fn merge_sort<F: Fn(usize, usize) -> bool>(
    list: &Vec<usize>,
    from: usize,
    to: usize,
    le: &F,
    Ghost(order): Ghost<spec_fn(int, int) -> bool>,
) -> (out: Vec<usize>)
    requires
        from <= to <= list@.len(),
        total_ordering(order),
        forall|a: usize, b: usize|
            list@.contains(a) && list@.contains(b) ==> #[trigger] le.requires((a, b)),
        forall|a: usize, b: usize, r: bool|
            #[trigger] le.ensures((a, b), r) ==> r == order(a as int, b as int),
    ensures
        sorted_by(ints(out@), order),
        out@.to_multiset() == list@.subrange(from as int, to as int).to_multiset(),
    decreases to - from,
{
    if to - from <= 1 {
        let mut out: Vec<usize> = Vec::new();
        if from < to {
            out.push(list[from]);
        }
        proof {
            assert(out@ =~= list@.subrange(from as int, to as int));
        }
        out
    } else {
        let mid: usize = from + (to - from) / 2;
        let left = merge_sort(list, from, mid, le, Ghost(order));
        let right = merge_sort(list, mid, to, le, Ghost(order));
        let ghost l = list@.subrange(from as int, mid as int);
        let ghost r = list@.subrange(mid as int, to as int);
        proof {
            broadcast use vstd::seq_lib::group_to_multiset_ensures;
            assert(l + r =~= list@.subrange(from as int, to as int));
            vstd::seq_lib::lemma_multiset_commutative(l, r);
            assert forall|a: usize| left@.contains(a) || right@.contains(a) implies list@.contains(
                a,
            ) by {
                if left@.contains(a) {
                    assert(left@.to_multiset().count(a) > 0);
                    assert(l.contains(a));
                    let k = choose|k: int| 0 <= k < l.len() && l[k] == a;
                    assert(list@[from + k] == a);
                } else {
                    assert(right@.to_multiset().count(a) > 0);
                    assert(r.contains(a));
                    let k = choose|k: int| 0 <= k < r.len() && r[k] == a;
                    assert(list@[mid + k] == a);
                }
            }
        }
        merge(&left, &right, le, Ghost(order))
    }
}

proof fn lemma_ints_multiset(a: Seq<usize>, b: Seq<usize>)
    requires
        a.to_multiset() == b.to_multiset(),
    ensures
        ints(a).to_multiset() == ints(b).to_multiset(),
    decreases a.len(),
{
    broadcast use vstd::seq_lib::group_to_multiset_ensures;

    assert(a.len() == a.to_multiset().len());
    assert(b.len() == b.to_multiset().len());
    if a.len() == 0 {
        assert(ints(a) =~= ints(b));
    } else {
        let x = a.last();
        assert(a.to_multiset().count(x) > 0) by {
            assert(a.contains(x));
        }
        assert(b.contains(x));
        let k = choose|k: int| 0 <= k < b.len() && b[k] == x;
        let b1 = b.remove(k);
        let a1 = a.drop_last();
        assert(a1.push(x) =~= a);
        assert(a1.to_multiset() =~= b1.to_multiset()) by {
            assert(a1.push(x).to_multiset() =~= a1.to_multiset().insert(x));
            assert(b1.to_multiset() =~= b.to_multiset().remove(x));
        }
        lemma_ints_multiset(a1, b1);
        assert(ints(b1) =~= ints(b).remove(k));
        assert(ints(a) =~= ints(a1).push(x as int));
        assert(ints(b).to_multiset() =~= ints(b1).to_multiset().insert(x as int));
    }
}

/// The positions of `list` in the order that `le` decides.
pub(crate) fn sort_positions<F: Fn(usize, usize) -> bool>(
    list: &Vec<usize>,
    le: F,
    Ghost(order): Ghost<spec_fn(int, int) -> bool>,
) -> (out: Vec<usize>)
    requires
        total_ordering(order),
        forall|a: usize, b: usize|
            list@.contains(a) && list@.contains(b) ==> #[trigger] le.requires((a, b)),
        forall|a: usize, b: usize, r: bool|
            #[trigger] le.ensures((a, b), r) ==> r == order(a as int, b as int),
    ensures
        ints(out@) == ints(list@).sort_by(order),
{
    let out = merge_sort(list, 0, list.len(), &le, Ghost(order));
    proof {
        assert(list@.subrange(0, list@.len() as int) == list@);
        lemma_ints_multiset(out@, list@);
        lemma_sorted_is_sort_by(ints(list@), ints(out@), order);
    }
    out
}

} // verus!
