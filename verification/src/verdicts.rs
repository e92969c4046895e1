//! Cached results of comparing photos pixel by pixel. A cached result counts
//! only while both files still have the size and time that they had when they
//! were compared.
use crate::model::{find_path, Index, IndexView, Verdict, VerdictRow};
use crate::settings::ensure_initialized;
use crate::text::{same_text, text_before};
use crate::{merge, model, settings, text};
use vstd::prelude::*;

verus! {

/// Seconds after which a cached result is dropped.
pub const VERDICT_SECONDS: i64 = 7_776_000;

/// The pair with the smaller path first.
pub open spec fn canonical(first: Seq<char>, second: Seq<char>) -> (Seq<char>, Seq<char>) {
    if text::text_le(first, second) {
        (first, second)
    } else {
        (second, first)
    }
}

/// Smaller path first, so that a pair has one row whichever way it is given.
pub fn canonical_pair<'a>(first: &'a str, second: &'a str) -> (pair: (&'a str, &'a str))
    ensures
        (pair.0@, pair.1@) == canonical(first@, second@),
{
    if text_before(first, second) {
        (first, second)
    } else {
        (second, first)
    }
}

/// The order in which a pair is given makes no difference.
pub proof fn law_canonical_is_symmetric(a: Seq<char>, b: Seq<char>)
    ensures
        canonical(a, b) == canonical(b, a),
{
    text::lemma_text_le_total(a, b);
}

/// The cached result for a pair, where it still counts.
pub open spec fn cached_verdict(index: IndexView, first: Seq<char>, second: Seq<char>) -> Option<bool> {
    let pair = canonical(first, second);
    if !index.verdicts.contains_key(pair) {
        None
    } else {
        let verdict = index.verdicts[pair];
        match (merge::live_path(index.files, pair.0), merge::live_path(index.files, pair.1)) {
            (Some(a), Some(b)) => if verdict.size_a == index.files[a].size && verdict.mtime_a
                == index.files[a].modified && verdict.size_b == index.files[b].size
                && verdict.mtime_b == index.files[b].modified {
                Some(verdict.identical)
            } else {
                None
            },
            _ => None,
        }
    }
}

fn find_verdict(rows: &Vec<VerdictRow>, path_a: &str, path_b: &str) -> (found: Option<usize>)
    ensures
        match found {
            Some(i) => i < rows@.len() && rows@[i as int].path_a@ == path_a@
                && rows@[i as int].path_b@ == path_b@,
            None => forall|i: int| !#[trigger]
                model::keyed_at(model::verdict_rows(rows@), (path_a@, path_b@), i),
        },
{
    let ghost views = model::verdict_rows(rows@);
    for i in 0..rows.len()
        invariant
            views == model::verdict_rows(rows@),
            forall|k: int| 0 <= k < i ==> (#[trigger] views[k]).0 != (path_a@, path_b@),
    {
        proof {
            assert(views[i as int].0 == (rows@[i as int].path_a@, rows@[i as int].path_b@));
        }
        if same_text(rows[i].path_a.as_str(), path_a) && same_text(rows[i].path_b.as_str(), path_b) {
            return Some(i);
        }
    }
    None
}

fn find_live_path(index: &Index, path: &str) -> (found: Option<usize>)
    requires
        index.wf(),
    ensures
        model::position(found) == merge::live_path(index@.files, path@),
        found is Some ==> found->0 < index.files@.len(),
{
    match find_path(&index.files, path) {
        None => None,
        Some(i) => {
            proof {
                assert(index@.files[i as int] == index.files@[i as int]@);
            }
            if index.files[i].present {
                Some(i)
            } else {
                None
            }
        },
    }
}

fn look_up(index: &Index, first: &str, second: &str) -> (verdict: Option<bool>)
    requires
        index.wf(),
    ensures
        verdict == cached_verdict(index@, first@, second@),
{
    let (path_a, path_b) = canonical_pair(first, second);
    let k = match find_verdict(&index.verdicts, path_a, path_b) {
        None => return None,
        Some(k) => k,
    };
    proof {
        let rows = model::verdict_rows(index.verdicts@);
        assert(rows[k as int].0 == (path_a@, path_b@));
        model::lemma_table_row(rows, k as int);
    }
    let verdict = index.verdicts[k].verdict;
    let a = match find_live_path(index, path_a) {
        None => return None,
        Some(a) => a,
    };
    let b = match find_live_path(index, path_b) {
        None => return None,
        Some(b) => b,
    };
    proof {
        assert(index@.files[a as int] == index.files@[a as int]@);
        assert(index@.files[b as int] == index.files@[b as int]@);
    }
    if verdict.size_a == index.files[a].size && verdict.mtime_a == index.files[a].modified
        && verdict.size_b == index.files[b].size && verdict.mtime_b == index.files[b].modified {
        Some(verdict.identical)
    } else {
        None
    }
}

/// The cached result for each pair, where there is one that still counts.
pub fn cached_pair_verdicts(index: &mut Index, pairs: &[(String, String)]) -> (verdicts: Result<
    Vec<Option<bool>>,
    String,
>)
    requires
        old(index).wf(),
    ensures
        final(index).wf(),
        match settings::opened(old(index)@) {
            Err(error) => verdicts is Err && verdicts->Err_0@ == error && final(index)@ == old(
                index,
            )@,
            Ok(usable) => {
                &&& final(index)@ == usable
                &&& verdicts is Ok
                &&& verdicts->Ok_0@.len() == pairs@.len()
                &&& forall|i: int|
                    0 <= i < pairs@.len() ==> #[trigger] verdicts->Ok_0@[i] == cached_verdict(
                        usable,
                        pairs@[i].0@,
                        pairs@[i].1@,
                    )
            },
        },
{
    match ensure_initialized(index) {
        Err(error) => return Err(error),
        Ok(_) => {},
    }
    let mut verdicts: Vec<Option<bool>> = Vec::new();
    for i in 0..pairs.len()
        invariant
            index.wf(),
            verdicts@.len() == i,
            forall|k: int|
                0 <= k < i ==> #[trigger] verdicts@[k] == cached_verdict(
                    index@,
                    pairs@[k].0@,
                    pairs@[k].1@,
                ),
    {
        verdicts.push(look_up(index, pairs[i].0.as_str(), pairs[i].1.as_str()));
    }
    Ok(verdicts)
}

/// The keys of results that are too old.
pub open spec fn outdated(
    verdicts: Map<(Seq<char>, Seq<char>), Verdict>,
    now: i64,
) -> Set<(Seq<char>, Seq<char>)> {
    Set::new(
        |key: (Seq<char>, Seq<char>)|
            verdicts.contains_key(key) && verdicts[key].checked_at < now - VERDICT_SECONDS,
    )
}

/// The index after one result was stored: with the sizes and times of the
/// index, and only where both files are live.
pub open spec fn stored_one(
    index: IndexView,
    first: Seq<char>,
    second: Seq<char>,
    identical: bool,
    now: i64,
) -> IndexView {
    let pair = canonical(first, second);
    match (merge::live_path(index.files, pair.0), merge::live_path(index.files, pair.1)) {
        (Some(a), Some(b)) => IndexView {
            verdicts: index.verdicts.insert(
                pair,
                Verdict {
                    size_a: index.files[a].size,
                    mtime_a: index.files[a].modified,
                    size_b: index.files[b].size,
                    mtime_b: index.files[b].modified,
                    identical,
                    checked_at: now,
                },
            ),
            ..index
        },
        _ => index,
    }
}

/// Both files of the pair are live, so that a result can be stored.
pub open spec fn storable(index: IndexView, first: Seq<char>, second: Seq<char>) -> bool {
    let pair = canonical(first, second);
    merge::live_path(index.files, pair.0) is Some && merge::live_path(index.files, pair.1) is Some
}

pub open spec fn verdict_views(list: Seq<(String, String, bool)>) -> Seq<
    (Seq<char>, Seq<char>, bool),
> {
    list.map_values(|item: (String, String, bool)| (item.0@, item.1@, item.2))
}

/// The index after these results were stored in order, and how many were.
pub open spec fn stored_all(index: IndexView, list: Seq<(Seq<char>, Seq<char>, bool)>, now: i64) -> (
    IndexView,
    nat,
)
    decreases list.len(),
{
    if list.len() == 0 {
        (index, 0)
    } else {
        let (before, n) = stored_all(index, list.drop_last(), now);
        let (first, second, identical) = list.last();
        (
            stored_one(before, first, second, identical, now),
            n + (if storable(before, first, second) {
                1nat
            } else {
                0nat
            }),
        )
    }
}

fn drop_outdated(index: &mut Index, now: i64)
    requires
        old(index).wf(),
    ensures
        final(index).wf(),
        final(index)@ == (IndexView {
            verdicts: old(index)@.verdicts.remove_keys(outdated(old(index)@.verdicts, now)),
            ..old(index)@
        }),
{
    let ghost before = index@;
    let ghost rows = model::verdict_rows(index.verdicts@);
    let n = index.verdicts.len();
    let mut kept: usize = 0;
    let mut done: usize = 0;
    proof {
        assert(index@.verdicts =~= before.verdicts.remove_keys(
            outdated(before.verdicts, now).intersect(keys_before(rows, 0)),
        ));
    }
    while done < n
        invariant
            done <= n,
            kept <= done,
            n == rows.len(),
            model::keys_unique(rows),
            before.verdicts == model::table_map(rows),
            index.verdicts@.len() == kept + (n - done),
            forall|k: int|
                0 <= k < n - done ==> #[trigger] model::verdict_rows(index.verdicts@)[kept + k]
                    == rows[done + k],
            forall|k: int|
                0 <= k < kept ==> !(#[trigger] model::verdict_rows(index.verdicts@)[k].1.checked_at
                    < now - VERDICT_SECONDS),
            model::keys_unique(model::verdict_rows(index.verdicts@)),
            model::keys_unique(model::setting_rows(index.settings@)),
            index@.verdicts == before.verdicts.remove_keys(
                outdated(before.verdicts, now).intersect(keys_before(rows, done as int)),
            ),
            index@ == (IndexView { verdicts: index@.verdicts, ..before }),
        decreases n - done,
    {
        let ghost current = model::verdict_rows(index.verdicts@);
        let ghost old_map = index@.verdicts;
        let ghost key = rows[done as int].0;
        proof {
            assert(current[kept + 0] == rows[done + 0]);
            assert(current[kept as int] == (
                (index.verdicts@[kept as int].path_a@, index.verdicts@[kept as int].path_b@),
                index.verdicts@[kept as int].verdict,
            ));
            model::lemma_table_row(rows, done as int);
            assert forall|k: (Seq<char>, Seq<char>)|
                keys_before(rows, done + 1).contains(k) <==> keys_before(
                    rows,
                    done as int,
                ).contains(k) || k == key by {
                if keys_before(rows, done + 1).contains(k) {
                    let j = choose|j: int| 0 <= j < done + 1 && (#[trigger] rows[j]).0 == k;
                    if j < done {
                        assert(rows[j].0 == k);
                    }
                }
                if keys_before(rows, done as int).contains(k) {
                    let j = choose|j: int| 0 <= j < done && (#[trigger] rows[j]).0 == k;
                    assert(rows[j].0 == k);
                }
                assert(rows[done as int].0 == key);
            }
        }
        if (index.verdicts[kept].verdict.checked_at as i128) < now as i128 - VERDICT_SECONDS as i128 {
            proof {
                model::lemma_table_remove(current, kept as int);
            }
            let _ = index.verdicts.remove(kept);
            proof {
                assert(model::verdict_rows(index.verdicts@) =~= current.remove(kept as int));
                assert forall|k: int| 0 <= k < n - (done + 1) implies #[trigger] model::verdict_rows(
                    index.verdicts@,
                )[kept + k] == rows[done + 1 + k] by {
                    assert(current[kept + (k + 1)] == rows[done + (k + 1)]);
                }
                assert forall|k: int| 0 <= k < kept implies !(#[trigger] model::verdict_rows(
                    index.verdicts@,
                )[k].1.checked_at < now - VERDICT_SECONDS) by {
                    assert(current[k].1.checked_at >= now - VERDICT_SECONDS);
                }
                assert(index@.verdicts =~= before.verdicts.remove_keys(
                    outdated(before.verdicts, now).intersect(keys_before(rows, done + 1)),
                ));
            }
        } else {
            kept = kept + 1;
            proof {
                assert forall|k: int| 0 <= k < n - (done + 1) implies #[trigger] model::verdict_rows(
                    index.verdicts@,
                )[kept + k] == rows[done + 1 + k] by {
                    assert(current[(kept - 1) + (k + 1)] == rows[done + (k + 1)]);
                }
                assert(index@.verdicts =~= before.verdicts.remove_keys(
                    outdated(before.verdicts, now).intersect(keys_before(rows, done + 1)),
                ));
            }
        }
        done = done + 1;
    }
    proof {
        assert(outdated(before.verdicts, now).intersect(keys_before(rows, n as int)) =~= outdated(
            before.verdicts,
            now,
        )) by {
            assert forall|k: (Seq<char>, Seq<char>)|
                outdated(before.verdicts, now).contains(k) implies keys_before(
                rows,
                n as int,
            ).contains(k) by {
                let j = choose|j: int| model::keyed_at(rows, k, j);
                assert(rows[j].0 == k);
            }
        }
        model::lemma_wf_carries(before, index@);
    }
}

spec fn keys_before(rows: Seq<((Seq<char>, Seq<char>), Verdict)>, n: int) -> Set<
    (Seq<char>, Seq<char>),
> {
    Set::new(|key: (Seq<char>, Seq<char>)| exists|j: int| 0 <= j < n && (#[trigger] rows[j]).0 == key)
}

fn store_one(index: &mut Index, first: &str, second: &str, identical: bool, now: i64) -> (stored: bool)
    requires
        old(index).wf(),
    ensures
        final(index).wf(),
        final(index)@ == stored_one(old(index)@, first@, second@, identical, now),
        stored == storable(old(index)@, first@, second@),
{
    let ghost before = index@;
    let (path_a, path_b) = canonical_pair(first, second);
    let a = match find_live_path(index, path_a) {
        None => return false,
        Some(a) => a,
    };
    let b = match find_live_path(index, path_b) {
        None => return false,
        Some(b) => b,
    };
    proof {
        assert(before.files[a as int] == index.files@[a as int]@);
        assert(before.files[b as int] == index.files@[b as int]@);
    }
    let verdict = Verdict {
        size_a: index.files[a].size,
        mtime_a: index.files[a].modified,
        size_b: index.files[b].size,
        mtime_b: index.files[b].modified,
        identical,
        checked_at: now,
    };
    let ghost rows = model::verdict_rows(index.verdicts@);
    match find_verdict(&index.verdicts, path_a, path_b) {
        Some(k) => {
            proof {
                assert(rows[k as int].0 == (path_a@, path_b@));
                model::lemma_table_replace(rows, k as int, verdict);
            }
            index.verdicts[k].verdict = verdict;
            proof {
                assert(model::verdict_rows(index.verdicts@) =~= rows.update(
                    k as int,
                    ((path_a@, path_b@), verdict),
                ));
            }
        },
        None => {
            proof {
                model::lemma_table_append(rows, (path_a@, path_b@), verdict);
            }
            index.verdicts.push(
                VerdictRow { path_a: path_a.to_string(), path_b: path_b.to_string(), verdict },
            );
            proof {
                assert(model::verdict_rows(index.verdicts@) =~= rows.push(
                    ((path_a@, path_b@), verdict),
                ));
            }
        },
    }
    proof {
        model::lemma_wf_carries(before, index@);
    }
    true
}

/// Store results of comparing pairs, and drop results that were not refreshed
/// for ninety days. Pairs of which a file is not live are left out; returns
/// how many were stored.
pub fn store_pair_verdicts(index: &mut Index, verdicts: &[(String, String, bool)], now: i64) -> (result:
    Result<usize, String>)
    requires
        old(index).wf(),
    ensures
        final(index).wf(),
        match settings::opened(old(index)@) {
            Err(error) => result is Err && result->Err_0@ == error && final(index)@ == old(index)@,
            Ok(usable) => {
                let cleared = IndexView {
                    verdicts: usable.verdicts.remove_keys(outdated(usable.verdicts, now)),
                    ..usable
                };
                let (after, n) = stored_all(cleared, verdict_views(verdicts@), now);
                result is Ok && result->Ok_0 == n && final(index)@ == after
            },
        },
{
    match ensure_initialized(index) {
        Err(error) => return Err(error),
        Ok(_) => {},
    }
    drop_outdated(index, now);
    let ghost cleared = index@;
    let ghost list = verdict_views(verdicts@);
    let mut stored: usize = 0;
    for i in 0..verdicts.len()
        invariant
            index.wf(),
            list == verdict_views(verdicts@),
            stored <= i,
            stored_all(cleared, list.take(i as int), now) == (index@, stored as nat),
    {
        proof {
            assert(list.take(i + 1).drop_last() =~= list.take(i as int));
            assert(list.take(i + 1).last() == (
                verdicts@[i as int].0@,
                verdicts@[i as int].1@,
                verdicts@[i as int].2,
            ));
        }
        if store_one(
            index,
            verdicts[i].0.as_str(),
            verdicts[i].1.as_str(),
            verdicts[i].2,
            now,
        ) {
            stored = stored + 1;
        }
    }
    proof {
        assert(list.take(list.len() as int) =~= list);
    }
    Ok(stored)
}

/// A stored result is read back for the pair in either order.
pub proof fn law_stored_verdict_is_read_back(
    index: IndexView,
    first: Seq<char>,
    second: Seq<char>,
    identical: bool,
    now: i64,
)
    requires
        storable(index, first, second),
    ensures
        cached_verdict(stored_one(index, first, second, identical, now), first, second) == Some(
            identical,
        ),
        cached_verdict(stored_one(index, first, second, identical, now), second, first) == Some(
            identical,
        ),
{
    law_canonical_is_symmetric(first, second);
}

/// A result no longer counts once the size or time of one of the two files
/// has changed in the index, or one is no longer live.
pub proof fn law_changed_files_invalidate(
    index: IndexView,
    later: IndexView,
    first: Seq<char>,
    second: Seq<char>,
)
    requires
        cached_verdict(index, first, second) is Some,
        later.verdicts == index.verdicts,
        ({
            let pair = canonical(first, second);
            let a = merge::live_path(index.files, pair.0)->0;
            let b = merge::live_path(index.files, pair.1)->0;
            ||| merge::live_path(later.files, pair.0) is None
            ||| merge::live_path(later.files, pair.1) is None
            ||| {
                let x = merge::live_path(later.files, pair.0)->0;
                later.files[x].size != index.files[a].size || later.files[x].modified
                    != index.files[a].modified
            }
            ||| {
                let y = merge::live_path(later.files, pair.1)->0;
                later.files[y].size != index.files[b].size || later.files[y].modified
                    != index.files[b].modified
            }
        }),
    ensures
        cached_verdict(later, first, second) is None,
{
}

} // verus!
