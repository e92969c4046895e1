//! Which indexed files share their content: the live rows of the index cut
//! into groups of equal hash and size.
use crate::lists::sort_positions;
use crate::model::{FileRow, FileView};
use crate::text::{chars_le, chars_of, same_chars};
use crate::{lists, model, text};
use vstd::prelude::*;
use vstd::relations::{sorted_by, total_ordering};

verus! {

pub open spec fn same_content(files: Seq<FileView>, a: int, b: int) -> bool {
    files[a].hash == files[b].hash && files[a].size == files[b].size
}

/// Live row with the content of the row at `p`.
pub open spec fn belongs(files: Seq<FileView>, p: int, q: int) -> bool {
    files[q].present && same_content(files, q, p)
}

/// The live rows with the content of the row at `p`, in id order.
pub open spec fn members(files: Seq<FileView>, p: int) -> Seq<int> {
    lists::positions(files.len(), |q: int| belongs(files, p, q))
}

/// The row at `p` is the first live row with its content; it stands for the
/// group.
pub open spec fn leads(files: Seq<FileView>, p: int) -> bool {
    files[p].present && forall|q: int| 0 <= q < p ==> !#[trigger] belongs(files, p, q)
}

/// One position for each content that has a live row, in id order.
pub open spec fn leaders(files: Seq<FileView>) -> Seq<int> {
    lists::positions(files.len(), |p: int| leads(files, p))
}

/// Order by content: hash, then size, then position.
pub open spec fn content_order(files: Seq<FileView>) -> spec_fn(int, int) -> bool {
    |a: int, b: int|
        if files[a].hash != files[b].hash {
            text::text_le(files[a].hash, files[b].hash)
        } else if files[a].size != files[b].size {
            files[a].size < files[b].size
        } else {
            a <= b
        }
}

pub proof fn lemma_content_order(files: Seq<FileView>)
    ensures
        total_ordering(content_order(files)),
{
    text::lemma_text_order();
    let le = content_order(files);
    assert(vstd::relations::reflexive(le));
    assert(vstd::relations::antisymmetric(le));
    assert(vstd::relations::transitive(le)) by {
        assert forall|a: int, b: int, c: int| #[trigger] le(a, b) && #[trigger] le(b, c) implies le(
            a,
            c,
        ) by {
            if files[a].hash == files[b].hash && files[b].hash == files[c].hash {
            } else if files[a].hash != files[b].hash && files[b].hash != files[c].hash {
                assert(text::text_le(files[a].hash, files[c].hash));
                if files[a].hash == files[c].hash {
                    assert(text::text_le(files[b].hash, files[a].hash));
                }
            }
        }
    }
    assert(vstd::relations::strongly_connected(le));
}

/// A row belongs to its own group, and the first member leads it.
pub proof fn lemma_members(files: Seq<FileView>, p: int)
    requires
        0 <= p < files.len(),
        files[p].present,
    ensures
        members(files, p).len() > 0,
        members(files, p).contains(p),
        leads(files, members(files, p)[0]),
        members(files, members(files, p)[0]) == members(files, p),
        leads(files, p) ==> members(files, p)[0] == p,
        forall|k: int|
            0 <= k < members(files, p).len() ==> 0 <= #[trigger] members(files, p)[k] < files.len()
                && belongs(files, p, members(files, p)[k]),
        forall|q: int|
            0 <= q < files.len() && belongs(files, p, q) ==> #[trigger] members(
                files,
                p,
            ).contains(q),
        lists::ascending(members(files, p)),
{
    let keep = |q: int| belongs(files, p, q);
    lists::lemma_positions(files.len(), keep);
    let list = members(files, p);
    assert(keep(p));
    assert(list.contains(p));
    let first = list[0];
    assert(keep(first));
    assert forall|q: int| 0 <= q < first implies !#[trigger] belongs(files, first, q) by {
        if belongs(files, first, q) {
            assert(keep(q));
            assert(list.contains(q));
            let k = choose|k: int| 0 <= k < list.len() && list[k] == q;
            assert(list[0] <= list[k]);
        }
    }
    let other = |q: int| belongs(files, first, q);
    assert forall|q: int| 0 <= q < files.len() implies #[trigger] keep(q) == other(q) by {}
    lists::lemma_positions_congruent(files.len(), keep, other);
    if leads(files, p) && first != p {
        let k = choose|k: int| 0 <= k < list.len() && list[k] == p;
        assert(list[0] < list[k]);
        assert(belongs(files, p, first));
    }
}

/// `table` holds at each leading position its group, and nothing elsewhere.
pub open spec fn is_group_table(files: Seq<FileView>, table: Seq<Vec<usize>>) -> bool {
    &&& table.len() == files.len()
    &&& forall|p: int|
        0 <= p < files.len() ==> lists::ints((#[trigger] table[p])@) == (if leads(files, p) {
            members(files, p)
        } else {
            Seq::<int>::empty()
        })
}

fn hash_chars(files: &Vec<FileRow>) -> (hashes: Vec<Vec<char>>)
    ensures
        hashes@.len() == files@.len(),
        forall|i: int| 0 <= i < files@.len() ==> (#[trigger] hashes@[i])@ == files@[i].hash@,
{
    let mut hashes: Vec<Vec<char>> = Vec::new();
    for i in 0..files.len()
        invariant
            hashes@.len() == i,
            forall|k: int| 0 <= k < i ==> (#[trigger] hashes@[k])@ == files@[k].hash@,
    {
        hashes.push(chars_of(files[i].hash.as_str()));
    }
    hashes
}

fn sorted_live(files: &Vec<FileRow>, hashes: &Vec<Vec<char>>) -> (sorted: Vec<usize>)
    requires
        hashes@.len() == files@.len(),
        forall|i: int| 0 <= i < files@.len() ==> (#[trigger] hashes@[i])@ == files@[i].hash@,
    ensures
        lists::ints(sorted@) == lists::positions(
            files@.len(),
            |p: int| model::file_rows(files@)[p].present,
        ).sort_by(content_order(model::file_rows(files@))),
{
    let ghost views = model::file_rows(files@);
    let ghost live = |p: int| views[p].present;
    let mut list: Vec<usize> = Vec::new();
    for i in 0..files.len()
        invariant
            views == model::file_rows(files@),
            live == (|p: int| views[p].present),
            lists::ints(list@) == lists::positions(i as nat, live),
            forall|k: int| 0 <= k < list@.len() ==> list@[k] < i,
    {
        let ghost before = list@;
        proof {
            assert(views[i as int] == files@[i as int]@);
        }
        if files[i].present {
            list.push(i);
            proof {
                assert(lists::ints(list@) =~= lists::ints(before).push(i as int));
            }
        }
    }
    let ghost order = content_order(views);
    proof {
        lemma_content_order(views);
    }
    let le = |a: usize, b: usize| -> (r: bool)
        requires
            a < files@.len(),
            b < files@.len(),
            hashes@.len() == files@.len(),
            forall|i: int| 0 <= i < files@.len() ==> (#[trigger] hashes@[i])@ == files@[i].hash@,
        ensures
            r == content_order(model::file_rows(files@))(a as int, b as int),
        {
            proof {
                assert(model::file_rows(files@)[a as int] == files@[a as int]@);
                assert(model::file_rows(files@)[b as int] == files@[b as int]@);
            }
            if !same_chars(hashes[a].as_slice(), hashes[b].as_slice()) {
                chars_le(hashes[a].as_slice(), hashes[b].as_slice())
            } else if files[a].size != files[b].size {
                files[a].size < files[b].size
            } else {
                a <= b
            }
        };
    sort_positions(&list, le, Ghost(order))
}

proof fn lemma_sorted_live(files: Seq<FileView>, sorted: Seq<int>)
    requires
        sorted == lists::positions(files.len(), |p: int| files[p].present).sort_by(
            content_order(files),
        ),
    ensures
        forall|p: int| #[trigger] sorted.contains(p) <==> 0 <= p < files.len() && files[p].present,
        sorted_by(sorted, content_order(files)),
        sorted.no_duplicates(),
{
    let live = |p: int| files[p].present;
    let list = lists::positions(files.len(), live);
    lists::lemma_positions(files.len(), live);
    lemma_content_order(files);
    lists::lemma_sort_by_members(list, content_order(files));
    assert(list.no_duplicates());
    list.lemma_multiset_has_no_duplicates();
    sorted.lemma_multiset_has_no_duplicates_conv();
}

/// A maximal run of one content in the sorted live rows is its group.
proof fn lemma_run_is_group(files: Seq<FileView>, sorted: Seq<int>, from: int, to: int)
    requires
        sorted == lists::positions(files.len(), |p: int| files[p].present).sort_by(
            content_order(files),
        ),
        0 <= from < to <= sorted.len(),
        forall|k: int| from <= k < to ==> same_content(files, #[trigger] sorted[k], sorted[from]),
        from > 0 ==> !same_content(files, sorted[from - 1], sorted[from]),
        to < sorted.len() ==> !same_content(files, sorted[to], sorted[from]),
    ensures
        leads(files, sorted[from]),
        members(files, sorted[from]) == sorted.subrange(from, to),
{
    lemma_sorted_live(files, sorted);
    lemma_content_order(files);
    text::lemma_text_order();
    let le = content_order(files);
    let lead = sorted[from];
    let run = sorted.subrange(from, to);
    assert(sorted.contains(lead));
    lemma_members(files, lead);
    let list = members(files, lead);
    assert(lists::ascending(run)) by {
        assert forall|i: int, j: int| 0 <= i < j < run.len() implies run[i] < run[j] by {
            assert(le(sorted[from + i], sorted[from + j]));
            assert(same_content(files, sorted[from + i], lead));
            assert(same_content(files, sorted[from + j], lead));
            assert(sorted[from + i] != sorted[from + j]);
        }
    }
    assert forall|p: int| #[trigger] run.contains(p) <==> list.contains(p) by {
        if run.contains(p) {
            let k = choose|k: int| 0 <= k < run.len() && run[k] == p;
            assert(sorted[from + k] == p);
            assert(same_content(files, sorted[from + k], lead));
            assert(sorted.contains(p));
            assert(belongs(files, lead, p));
            assert(list.contains(p));
        }
        if list.contains(p) {
            let k = choose|k: int| 0 <= k < list.len() && list[k] == p;
            assert(belongs(files, lead, list[k]));
            assert(sorted.contains(p));
            let c = choose|c: int| 0 <= c < sorted.len() && sorted[c] == p;
            if c < from {
                if c < from - 1 {
                    assert(le(sorted[c], sorted[from - 1]));
                }
                assert(le(sorted[from - 1], sorted[from]));
            }
            if c >= to {
                if c > to {
                    assert(le(sorted[to], sorted[c]));
                }
                assert(le(sorted[from], sorted[to]));
            }
            assert(run[c - from] == p);
        }
    }
    lists::lemma_ascending_unique(run, list);
    assert(list[0] == lead);
}

/// Cut the live rows into groups of equal content.
pub fn group_table(files: &Vec<FileRow>) -> (table: Vec<Vec<usize>>)
    ensures
        is_group_table(model::file_rows(files@), table@),
{
    let ghost views = model::file_rows(files@);
    let hashes = hash_chars(files);
    let sorted = sorted_live(files, &hashes);
    let ghost order = lists::ints(sorted@);
    let n = sorted.len();
    let mut table: Vec<Vec<usize>> = Vec::new();
    for i in 0..files.len()
        invariant
            table@.len() == i,
            forall|p: int| 0 <= p < i ==> (#[trigger] table@[p])@.len() == 0,
    {
        table.push(Vec::new());
    }
    proof {
        lemma_sorted_live(views, order);
        assert forall|k: int| 0 <= k < n implies (#[trigger] sorted@[k]) < files@.len() by {
            assert(order[k] == sorted@[k]);
            assert(order.contains(order[k]));
        }
        assert forall|p: int| 0 <= p < views.len() implies lists::ints((#[trigger] table@[p])@)
            == Seq::<int>::empty() by {
            assert(lists::ints(table@[p]@) =~= Seq::<int>::empty());
        }
    }
    let mut from: usize = 0;
    while from < n
        invariant
            views == model::file_rows(files@),
            views.len() == files@.len(),
            n == sorted@.len(),
            order == lists::ints(sorted@),
            order == lists::positions(views.len(), |p: int| views[p].present).sort_by(
                content_order(views),
            ),
            order.no_duplicates(),
            hashes@.len() == files@.len(),
            forall|i: int| 0 <= i < files@.len() ==> (#[trigger] hashes@[i])@ == files@[i].hash@,
            forall|k: int| 0 <= k < n ==> (#[trigger] sorted@[k]) < files@.len(),
            from <= n,
            0 < from < n ==> !same_content(views, order[from - 1], order[from as int]),
            table@.len() == views.len(),
            forall|p: int|
                0 <= p < views.len() ==> lists::ints((#[trigger] table@[p])@) == (if leads(views, p)
                    && order.take(from as int).contains(p) {
                    members(views, p)
                } else {
                    Seq::<int>::empty()
                }),
        decreases n - from,
    {
        let lead = sorted[from];
        let mut run: Vec<usize> = Vec::new();
        run.push(lead);
        let mut to: usize = from + 1;
        proof {
            assert(lists::ints(run@) =~= order.subrange(from as int, to as int));
        }
        let mut open = true;
        while open && to < n
            invariant
                views == model::file_rows(files@),
                n == sorted@.len(),
                order == lists::ints(sorted@),
                hashes@.len() == files@.len(),
                forall|i: int|
                    0 <= i < files@.len() ==> (#[trigger] hashes@[i])@ == files@[i].hash@,
                forall|k: int| 0 <= k < n ==> (#[trigger] sorted@[k]) < files@.len(),
                from < to <= n,
                lead == sorted@[from as int],
                lists::ints(run@) == order.subrange(from as int, to as int),
                forall|k: int|
                    from <= k < to ==> same_content(
                        views,
                        #[trigger] order[k],
                        order[from as int],
                    ),
                !open ==> to < n && !same_content(views, order[to as int], order[from as int]),
            decreases n - to + (if open { 1int } else { 0 }),
        {
            let next = sorted[to];
            proof {
                assert(views[next as int] == files@[next as int]@);
                assert(views[lead as int] == files@[lead as int]@);
                assert(order[to as int] == next);
                assert(order[from as int] == lead);
            }
            if files[next].size == files[lead].size && same_chars(
                hashes[next].as_slice(),
                hashes[lead].as_slice(),
            ) {
                let ghost before = run@;
                run.push(next);
                to = to + 1;
                proof {
                    assert(lists::ints(run@) =~= lists::ints(before).push(next as int));
                    assert(order.subrange(from as int, to as int) =~= order.subrange(
                        from as int,
                        to - 1,
                    ).push(next as int));
                }
            } else {
                open = false;
            }
        }
        proof {
            assert(order[from as int] == lead);
            lemma_run_is_group(views, order, from as int, to as int);
            assert(to < n ==> !same_content(views, order[to - 1], order[to as int])) by {
                assert(same_content(views, order[to - 1], order[from as int]));
            }
        }
        let ghost table_before = table@;
        table.set(lead, run);
        proof {
            assert forall|p: int| 0 <= p < views.len() implies lists::ints((#[trigger] table@[p])@)
                == (if leads(views, p) && order.take(to as int).contains(p) {
                members(views, p)
            } else {
                Seq::<int>::empty()
            }) by {
                let now = order.take(to as int);
                let was = order.take(from as int);
                if p == lead {
                    assert(now[from as int] == p);
                    assert(now.contains(p));
                } else {
                    assert(table@[p] == table_before[p]);
                    if was.contains(p) {
                        let k = choose|k: int| 0 <= k < was.len() && was[k] == p;
                        assert(now[k] == p);
                    }
                    if now.contains(p) && !was.contains(p) && leads(views, p) {
                        let k = choose|k: int| 0 <= k < now.len() && now[k] == p;
                        if k < from {
                            assert(was[k] == p);
                        }
                        assert(same_content(views, order[k], order[from as int]));
                        lemma_sorted_live(views, order);
                        assert(order.contains(order[k]));
                        lemma_members(views, p);
                        lemma_members(views, lead as int);
                        assert(belongs(views, lead as int, p));
                        assert(belongs(views, p, lead as int));
                        if lead < p {
                            assert(!belongs(views, p, lead as int));
                        } else {
                            assert(!belongs(views, lead as int, p));
                        }
                    }
                }
            }
        }
        from = to;
    }
    proof {
        lemma_sorted_live(views, order);
        assert(order.take(n as int) =~= order);
        assert forall|p: int| 0 <= p < views.len() && leads(views, p) implies order.take(
            n as int,
        ).contains(p) by {
            assert(order.contains(p));
        }
    }
    table
}

} // verus!
