//! What clearing out and merging directories do, said of the rows before and
//! after and of what is asked of the disk.
use crate::actions::{ActionView, Seen};
use crate::batch::{BatchView, BinKind, BulkKind, TaskView};
use crate::directories::{DirKeepView, DirStepView};
use crate::merge::{DirMergeView, MergeStage};
use crate::model::{FileView, IndexView, OperationState};
use crate::paths::Platform;
use crate::{actions, batch, contents, directories, indexing, lists, merge, model, paths, review};
use vstd::prelude::*;

verus! {

// ---------------------------------------------------------------------------
// Moving a file into a directory
// ---------------------------------------------------------------------------

/// Moving an indexed file into a directory. The file is hashed first, and
/// goes only with the indexed content and only to a free place in that
/// directory. Its row then stands at the new path, and is otherwise as it
/// was; the history tells where it came from. A row that stood at that path
/// was absent, and makes way; no other row changes.
pub proof fn law_a_file_moves_with_its_row(
    index: IndexView,
    platform: Platform,
    id: i64,
    source: Seq<char>,
    directory: Seq<char>,
    hash: Seq<char>,
    seen: Seen,
    now: i64,
)
    requires
        index.wf(),
    ensures
        ({
            let (after, action) = directories::place_step(
                index,
                platform,
                id,
                source,
                directory,
                hash,
                seen,
                now,
            );
            let checked = seen.content_hash is Some && seen.content_hash->0 is Ok
                && seen.content_hash->0->Ok_0@ == hash;
            &&& !(action is Finished) ==> after == index
            &&& match action {
                ActionView::Hash { path } => path == source,
                ActionView::MakeParents { path } => checked && directory.is_prefix_of(path),
                ActionView::Probe { path } => checked && directory.is_prefix_of(path),
                ActionView::Move { from, to, hash: expected } => {
                    &&& checked
                    &&& seen.occupied == Some(false)
                    &&& from == source
                    &&& directory.is_prefix_of(to)
                    &&& expected == hash
                },
                ActionView::Finished { result } => result is Ok ==> {
                    let last = after.operations.last();
                    &&& checked
                    &&& seen.occupied == Some(false)
                    &&& seen.moved is Some && seen.moved->0 is Ok
                    &&& after.files.len() == index.files.len()
                    &&& exists|i: int|
                        {
                            &&& 0 <= i < index.files.len()
                            &&& (#[trigger] index.files[i]).id == id
                            &&& directory.is_prefix_of(after.files[i].path)
                            &&& after.files[i] == (FileView {
                                path: after.files[i].path,
                                ..index.files[i]
                            })
                            &&& forall|p: int|
                                0 <= p < index.files.len() && p != i ==> if index.files[p].path
                                    == after.files[i].path {
                                    &&& !index.files[p].present
                                    &&& #[trigger] after.files[p] == (FileView {
                                        path: after.files[p].path,
                                        ..index.files[p]
                                    })
                                    &&& after.files[p].path != after.files[i].path
                                } else {
                                    after.files[p] == index.files[p]
                                }
                        }
                    &&& after.operations.len() == index.operations.len() + 1
                    &&& last.file_id == id
                    &&& last.source_path == source
                    &&& last.hash == hash
                    &&& last.state == OperationState::Moved
                    &&& last.created_at == now
                    &&& forall|k: int|
                        0 <= k < index.operations.len() ==> #[trigger] after.operations[k]
                            == index.operations[k]
                },
                _ => false,
            }
        }),
{
    let (after, action) = directories::place_step(
        index,
        platform,
        id,
        source,
        directory,
        hash,
        seen,
        now,
    );
    if let Some(name) = paths::file_name_of(platform, source) {
        lemma_inside_begins(platform, directory, name);
        let to = paths::inside(
            platform,
            directory,
            directories::candidate_name(name, seen.taken as nat),
        );
        lemma_inside_begins(
            platform,
            directory,
            directories::candidate_name(name, seen.taken as nat),
        );
        if action == actions::done() {
            let files = index.files;
            let free = indexing::set_aside(files, to, id, false)->Ok_0;
            assert(free.len() == files.len());
            assert forall|a: int, b: int| 0 <= a < b < free.len() implies (#[trigger] free[a]).id
                < (#[trigger] free[b]).id by {
                assert(files[a].id < files[b].id);
            }
            let i = model::at_id(free, id)->0;
            assert(files[i].id == id);
            if model::at_path(files, to) is Some {
                let j = model::at_path(files, to)->0;
                assert(files[j].path == to);
                if files[j].id != id {
                    assert(indexing::aside_path(to, files[j].id).len() > to.len()) by {
                        reveal_strlit("#replaced#");
                    }
                }
            }
            assert forall|p: int| 0 <= p < files.len() && p != i implies if files[p].path
                == after.files[i].path {
                &&& !files[p].present
                &&& #[trigger] after.files[p] == (FileView {
                    path: after.files[p].path,
                    ..files[p]
                })
                &&& after.files[p].path != after.files[i].path
            } else {
                after.files[p] == files[p]
            } by {
                if files[p].path == to {
                    model::lemma_at_path(files, p);
                    assert(files[p].id != id) by {
                        model::lemma_at_id(files, p);
                        model::lemma_at_id(files, i);
                    }
                }
            }
        }
    }
}

proof fn lemma_inside_begins(platform: Platform, directory: Seq<char>, name: Seq<char>)
    ensures
        directory.is_prefix_of(paths::inside(platform, directory, name)),
        name.is_suffix_of(paths::inside(platform, directory, name)),
{
    let path = paths::inside(platform, directory, name);
    assert(directory =~= path.take(directory.len() as int));
    assert(name =~= path.skip(path.len() - name.len()));
}

/// The place that is tried first has the name of the file; a place that is
/// taken is not tried again.
pub proof fn law_the_first_place_tried_has_the_own_name(name: Seq<char>, seen: Seen)
    ensures
        directories::candidate_name(name, 0) == name,
        seen.occupied == Some(true) && seen.taken < usize::MAX ==> directories::next_candidate(
            seen,
        ).taken == seen.taken + 1 && directories::next_candidate(seen).occupied is None,
        seen.occupied != Some(true) ==> directories::next_candidate(seen) == seen,
{
}

// ---------------------------------------------------------------------------
// Clearing out a directory
// ---------------------------------------------------------------------------

/// Row `p` is a live copy of the content of row `o`.
pub open spec fn live_copy(files: Seq<FileView>, o: int, p: int) -> bool {
    &&& 0 <= p < files.len()
    &&& files[p].present
    &&& files[p].hash == files[o].hash
    &&& files[p].size == files[o].size
}

proof fn lemma_below(
    files: Seq<FileView>,
    platform: Platform,
    directory: Seq<char>,
    list: Seq<int>,
)
    ensures
        ({
            let below = directories::rows_below(files, platform, directory, list);
            &&& forall|p: int| #[trigger]
                below.contains(p) <==> list.contains(p) && paths::lies_under(
                    platform,
                    files[p].path,
                    directory,
                )
            &&& below.len() <= list.len()
            &&& below.len() < list.len() <==> exists|k: int|
                0 <= k < list.len() && !paths::lies_under(
                    platform,
                    files[#[trigger] list[k]].path,
                    directory,
                )
            &&& list.no_duplicates() ==> below.no_duplicates()
        }),
    decreases list.len(),
{
    let below = directories::rows_below(files, platform, directory, list);
    if list.len() > 0 {
        let front = list.drop_last();
        let before = directories::rows_below(files, platform, directory, front);
        let last = list.last();
        let under = paths::lies_under(platform, files[last].path, directory);
        lemma_below(files, platform, directory, front);
        assert(list[list.len() - 1] == last);
        assert forall|p: int| list.contains(p) <==> front.contains(p) || p == last by {
            if list.contains(p) {
                let k = choose|k: int| 0 <= k < list.len() && list[k] == p;
                if k < front.len() {
                    assert(front[k] == p);
                }
            }
            if front.contains(p) {
                let k = choose|k: int| 0 <= k < front.len() && front[k] == p;
                assert(list[k] == p);
            }
        }
        assert forall|p: int| #[trigger] below.contains(p) <==> list.contains(p)
            && paths::lies_under(platform, files[p].path, directory) by {
            if under {
                assert(below == before.push(last));
                assert(below[before.len() as int] == last);
                if below.contains(p) && p != last {
                    let k = choose|k: int| 0 <= k < below.len() && below[k] == p;
                    assert(before[k] == p);
                }
                if before.contains(p) {
                    let k = choose|k: int| 0 <= k < before.len() && before[k] == p;
                    assert(below[k] == p);
                }
            }
            assert(before.contains(p) <==> front.contains(p) && paths::lies_under(
                platform,
                files[p].path,
                directory,
            ));
        }
        if exists|k: int|
            0 <= k < front.len() && !paths::lies_under(
                platform,
                files[#[trigger] front[k]].path,
                directory,
            ) {
            let k = choose|k: int|
                0 <= k < front.len() && !paths::lies_under(
                    platform,
                    files[#[trigger] front[k]].path,
                    directory,
                );
            assert(!paths::lies_under(platform, files[list[k]].path, directory));
        }
        if exists|k: int|
            0 <= k < list.len() && !paths::lies_under(
                platform,
                files[#[trigger] list[k]].path,
                directory,
            ) {
            let k = choose|k: int|
                0 <= k < list.len() && !paths::lies_under(
                    platform,
                    files[#[trigger] list[k]].path,
                    directory,
                );
            if k < front.len() {
                assert(!paths::lies_under(platform, files[front[k]].path, directory));
            }
        }
        if list.no_duplicates() {
            assert(front.no_duplicates()) by {
                assert forall|i: int, j: int|
                    0 <= i < front.len() && 0 <= j < front.len() && i != j implies front[i]
                    != front[j] by {
                    assert(list[i] != list[j]);
                }
            }
            if under {
                assert forall|i: int| 0 <= i < before.len() implies before[i] != last by {
                    assert(before.contains(before[i]));
                    assert(front.contains(before[i]));
                    let k = choose|k: int| 0 <= k < front.len() && front[k] == before[i];
                    assert(list[k] != list[list.len() - 1]);
                }
            }
        }
    }
}

/// Picking rows out of an ascending list leaves them ascending.
proof fn lemma_below_ascends(
    files: Seq<FileView>,
    platform: Platform,
    directory: Seq<char>,
    list: Seq<int>,
)
    requires
        lists::ascending(list),
    ensures
        lists::ascending(directories::rows_below(files, platform, directory, list)),
    decreases list.len(),
{
    if list.len() > 0 {
        let front = list.drop_last();
        assert(lists::ascending(front)) by {
            assert forall|i: int, j: int| 0 <= i < j < front.len() implies front[i] < front[j] by {
                assert(list[i] < list[j]);
            }
        }
        lemma_below_ascends(files, platform, directory, front);
        lemma_below(files, platform, directory, front);
        let before = directories::rows_below(files, platform, directory, front);
        assert forall|i: int| 0 <= i < before.len() implies before[i] < list.last() by {
            assert(before.contains(before[i]));
            let k = choose|k: int| 0 <= k < front.len() && front[k] == before[i];
            assert(list[k] < list[list.len() - 1]);
        }
    }
}

proof fn lemma_unprotected_ascends(files: Seq<FileView>, list: Seq<int>)
    requires
        lists::ascending(list),
    ensures
        lists::ascending(review::unprotected(files, list)),
    decreases list.len(),
{
    if list.len() > 0 {
        let front = list.drop_last();
        assert(lists::ascending(front)) by {
            assert forall|i: int, j: int| 0 <= i < j < front.len() implies front[i] < front[j] by {
                assert(list[i] < list[j]);
            }
        }
        lemma_unprotected_ascends(files, front);
        review::lemma_unprotected(files, front);
        let before = review::unprotected(files, front);
        assert forall|i: int| 0 <= i < before.len() implies before[i] < list.last() by {
            assert(front.contains(before[i]));
            let k = choose|k: int| 0 <= k < front.len() && front[k] == before[i];
            assert(list[k] < list[list.len() - 1]);
        }
    }
}

proof fn lemma_shortest_path(files: Seq<FileView>, list: Seq<int>, n: nat)
    requires
        1 <= n <= list.len(),
    ensures
        0 <= directories::shortest(files, list, n) < n,
        forall|k: int|
            0 <= k < n ==> vstd::utf8::encode_utf8(
                files[list[directories::shortest(files, list, n)]].path,
            ).len() <= vstd::utf8::encode_utf8(files[#[trigger] list[k]].path).len(),
        forall|k: int|
            0 <= k < directories::shortest(files, list, n) ==> vstd::utf8::encode_utf8(
                files[list[directories::shortest(files, list, n)]].path,
            ).len() < vstd::utf8::encode_utf8(files[#[trigger] list[k]].path).len(),
    decreases n,
{
    if n > 1 {
        lemma_shortest_path(files, list, (n - 1) as nat);
    }
}

/// Clearing out a directory, content by content. Where some live copy lies
/// elsewhere or is protected, none is moved, and all unprotected copies in
/// the directory are to go. Where all copies lie in the directory and none is
/// protected, the one with the shortest path, of equals the one with the
/// smallest id, is moved out of it, and all others are to go. Nothing else is
/// to go.
pub proof fn law_clearing_out_keeps_the_shortest_path(
    files: Seq<FileView>,
    platform: Platform,
    directory: Seq<char>,
    lead: int,
)
    requires
        model::ids_ascending(files),
        0 <= lead < files.len(),
        files[lead].present,
        exists|p: int|
            live_copy(files, lead, p) && paths::lies_under(
                platform,
                (#[trigger] files[p]).path,
                directory,
            ),
    ensures
        ({
            let group = directories::keep_group(files, platform, directory, lead);
            let elsewhere = exists|q: int|
                live_copy(files, lead, q) && ((#[trigger] files[q]).protected
                    || !paths::lies_under(platform, files[q].path, directory));
            &&& group.keeper is None <==> elsewhere
            &&& group.keeper matches Some((id, path, hash)) ==> exists|q: int|
                {
                    &&& live_copy(files, lead, q)
                    &&& (#[trigger] files[q]).id == id
                    &&& files[q].path == path
                    &&& files[q].hash == hash
                    &&& forall|r: int| #[trigger]
                        live_copy(files, lead, r) ==> vstd::utf8::encode_utf8(path).len()
                            <= vstd::utf8::encode_utf8(files[r].path).len() && (
                        vstd::utf8::encode_utf8(path).len() == vstd::utf8::encode_utf8(
                            files[r].path,
                        ).len() ==> id <= files[r].id)
                }
            &&& forall|p: int|
                live_copy(files, lead, p) && !(#[trigger] files[p]).protected && paths::lies_under(
                    platform,
                    files[p].path,
                    directory,
                ) ==> group.rest.contains(files[p].path) || (group.keeper is Some
                    && group.keeper->Some_0.0 == files[p].id)
            &&& forall|path: Seq<char>| #[trigger]
                group.rest.contains(path) ==> exists|p: int|
                    {
                        &&& live_copy(files, lead, p)
                        &&& (#[trigger] files[p]).path == path
                        &&& !files[p].protected
                        &&& paths::lies_under(platform, path, directory)
                        &&& group.keeper is Some ==> group.keeper->Some_0.0 != files[p].id
                    }
        }),
{
    let all = contents::members(files, lead);
    let own = |q: int| contents::belongs(files, lead, q);
    lists::lemma_positions(files.len(), own);
    let below = directories::rows_below(files, platform, directory, all);
    lemma_below(files, platform, directory, all);
    assert(all.no_duplicates());
    let doomed = review::unprotected(files, below);
    review::lemma_unprotected(files, below);
    lemma_below_ascends(files, platform, directory, all);
    lemma_unprotected_ascends(files, below);
    let group = directories::keep_group(files, platform, directory, lead);
    assert forall|q: int| #[trigger] live_copy(files, lead, q) <==> all.contains(q) by {
        assert(all.contains(q) <==> 0 <= q < files.len() && own(q));
    }
    let elsewhere = exists|q: int|
        live_copy(files, lead, q) && ((#[trigger] files[q]).protected || !paths::lies_under(
            platform,
            files[q].path,
            directory,
        ));
    assert(directories::survives(files, all, below) <==> elsewhere) by {
        if below.len() < all.len() {
            let k = choose|k: int|
                0 <= k < all.len() && !paths::lies_under(
                    platform,
                    files[#[trigger] all[k]].path,
                    directory,
                );
            assert(all.contains(all[k]));
            assert(live_copy(files, lead, all[k]));
            assert(!paths::lies_under(platform, files[all[k]].path, directory));
        }
        if directories::any_protected(files, below) {
            let k = choose|k: int| 0 <= k < below.len() && files[#[trigger] below[k]].protected;
            assert(below.contains(below[k]));
            assert(live_copy(files, lead, below[k]));
            assert(files[below[k]].protected);
        }
        if elsewhere {
            let q = choose|q: int|
                live_copy(files, lead, q) && ((#[trigger] files[q]).protected
                    || !paths::lies_under(platform, files[q].path, directory));
            assert(all.contains(q));
            let k = choose|k: int| 0 <= k < all.len() && all[k] == q;
            if paths::lies_under(platform, files[q].path, directory) {
                assert(below.contains(q));
                let m = choose|m: int| 0 <= m < below.len() && below[m] == q;
                assert(files[below[m]].protected);
            } else {
                assert(!paths::lies_under(platform, files[all[k]].path, directory));
            }
        }
    }
    let start = choose|p: int|
        live_copy(files, lead, p) && paths::lies_under(
            platform,
            (#[trigger] files[p]).path,
            directory,
        );
    assert(below.contains(start));
    assert forall|p: int|
        live_copy(files, lead, p) && !(#[trigger] files[p]).protected && paths::lies_under(
            platform,
            files[p].path,
            directory,
        ) implies doomed.contains(p) by {
        assert(below.contains(p));
    }
    assert forall|k: int| 0 <= k < doomed.len() implies live_copy(files, lead, #[trigger] doomed[k])
        && !files[doomed[k]].protected && paths::lies_under(
        platform,
        files[doomed[k]].path,
        directory,
    ) by {
        assert(doomed.contains(doomed[k]));
        assert(below.contains(doomed[k]));
    }
    if directories::survives(files, all, below) {
        assert(group.rest == doomed.map_values(|p: int| files[p].path));
        assert forall|p: int|
            live_copy(files, lead, p) && !(#[trigger] files[p]).protected && paths::lies_under(
                platform,
                files[p].path,
                directory,
            ) implies group.rest.contains(files[p].path) by {
            assert(doomed.contains(p));
            let k = choose|k: int| 0 <= k < doomed.len() && doomed[k] == p;
            assert(group.rest[k] == files[p].path);
        }
        assert forall|path: Seq<char>| #[trigger] group.rest.contains(path) implies exists|p: int|
            {
                &&& live_copy(files, lead, p)
                &&& (#[trigger] files[p]).path == path
                &&& !files[p].protected
                &&& paths::lies_under(platform, path, directory)
                &&& group.keeper is Some ==> group.keeper->Some_0.0 != files[p].id
            } by {
            let k = choose|k: int| 0 <= k < group.rest.len() && group.rest[k] == path;
            assert(files[doomed[k]].path == path);
        }
    } else {
        assert(!files[start].protected);
        assert(doomed.contains(start));
        lemma_shortest_path(files, doomed, doomed.len());
        let s = directories::shortest(files, doomed, doomed.len());
        let left = doomed.remove(s);
        assert(group.rest == left.map_values(|p: int| files[p].path));
        let q = doomed[s];
        assert(live_copy(files, lead, q));
        assert forall|r: int| #[trigger] live_copy(files, lead, r) implies vstd::utf8::encode_utf8(
            files[q].path,
        ).len() <= vstd::utf8::encode_utf8(files[r].path).len() && (vstd::utf8::encode_utf8(
            files[q].path,
        ).len() == vstd::utf8::encode_utf8(files[r].path).len() ==> files[q].id
            <= files[r].id) by {
            assert(!files[r].protected && paths::lies_under(platform, files[r].path, directory));
            assert(doomed.contains(r));
            let k = choose|k: int| 0 <= k < doomed.len() && doomed[k] == r;
            assert(files[doomed[k]] == files[r]);
            if k > s {
                assert(doomed[s] < doomed[k]);
                assert(files[q].id < files[r].id);
            }
        }
        assert(files[q].id == group.keeper->Some_0.0);
        assert forall|p: int|
            live_copy(files, lead, p) && !(#[trigger] files[p]).protected && paths::lies_under(
                platform,
                files[p].path,
                directory,
            ) implies group.rest.contains(files[p].path) || group.keeper->Some_0.0 == files[p].id by {
            assert(doomed.contains(p));
            let k = choose|k: int| 0 <= k < doomed.len() && doomed[k] == p;
            if k < s {
                assert(left[k] == p);
                assert(group.rest[k] == files[p].path);
            } else if k > s {
                assert(left[k - 1] == p);
                assert(group.rest[k - 1] == files[p].path);
            }
        }
        assert forall|path: Seq<char>| #[trigger] group.rest.contains(path) implies exists|p: int|
            {
                &&& live_copy(files, lead, p)
                &&& (#[trigger] files[p]).path == path
                &&& !files[p].protected
                &&& paths::lies_under(platform, path, directory)
                &&& group.keeper is Some ==> group.keeper->Some_0.0 != files[p].id
            } by {
            let k = choose|k: int| 0 <= k < group.rest.len() && group.rest[k] == path;
            let m = if k < s { k } else { k + 1 };
            assert(left[k] == doomed[m]);
            let p = doomed[m];
            assert(files[p].path == path);
            assert(p != q);
            if p < q {
                assert(files[p].id < files[q].id);
            } else {
                assert(files[q].id < files[p].id);
            }
        }
    }
}

/// Clearing out a directory touches every content that has a live copy in it
/// and another live copy anywhere, and no other. A directory to keep files in
/// that lies in the one to clear out is refused.
pub proof fn law_clearing_out_touches_every_duplicate(
    index: IndexView,
    platform: Platform,
    directory: Seq<char>,
    keep_dir: Seq<char>,
    batch_id: i64,
    a: int,
    b: int,
)
    requires
        live_copy(index.files, a, a),
        live_copy(index.files, a, b),
        a != b,
        paths::lies_under(platform, index.files[a].path, directory),
    ensures
        directories::keep_planned(index, platform, directory, keep_dir, batch_id) is Err
            <==> paths::lies_under(platform, keep_dir, directory),
        directories::keep_planned(index, platform, directory, keep_dir, batch_id) is Ok ==> exists|
            g: int,
            lead: int,
        |
            #![trigger live_copy(index.files, a, lead), directories::keep_planned(index, platform, directory, keep_dir, batch_id)->Ok_0.groups[g]]
            {
                let plan = directories::keep_planned(
                    index,
                    platform,
                    directory,
                    keep_dir,
                    batch_id,
                )->Ok_0;
                &&& 0 <= g < plan.groups.len()
                &&& live_copy(index.files, a, lead)
                &&& plan.groups[g] == directories::keep_group(
                    index.files,
                    platform,
                    directory,
                    lead,
                )
                &&& plan.batch_id == batch_id
                &&& plan.keep_dir == keep_dir
            },
{
    let files = index.files;
    let own = |r: int| contents::belongs(files, a, r);
    lists::lemma_positions(files.len(), own);
    let members = contents::members(files, a);
    assert(own(a) && own(b));
    assert(members.contains(a) && members.contains(b));
    let lead = members[0];
    assert(own(lead));
    assert(contents::leads(files, lead)) by {
        assert forall|r: int| 0 <= r < lead implies !#[trigger] contents::belongs(
            files,
            lead,
            r,
        ) by {
            if contents::belongs(files, lead, r) {
                assert(own(r));
                assert(members.contains(r));
                let n = choose|n: int| 0 <= n < members.len() && members[n] == r;
                if n > 0 {
                    assert(members[0] < members[n]);
                }
            }
        }
    }
    let same = |r: int| contents::belongs(files, lead, r);
    lists::lemma_positions_congruent(files.len(), own, same);
    assert(contents::members(files, lead) == members);
    let i = choose|i: int| 0 <= i < members.len() && members[i] == a;
    let j = choose|j: int| 0 <= j < members.len() && members[j] == b;
    assert(members.len() > 1);
    lemma_below(files, platform, directory, members);
    let below = directories::rows_below(files, platform, directory, members);
    assert(below.contains(a));
    assert(below.len() > 0);
    let keep = |p: int|
        contents::leads(files, p) && contents::members(files, p).len() > 1
            && directories::rows_below(
            files,
            platform,
            directory,
            contents::members(files, p),
        ).len() > 0;
    lists::lemma_positions(files.len(), keep);
    assert(keep(lead));
    let touched = directories::touched(files, platform, directory);
    assert(touched.contains(lead));
    let g = choose|g: int| 0 <= g < touched.len() && touched[g] == lead;
    if directories::keep_planned(index, platform, directory, keep_dir, batch_id) is Ok {
        let plan = directories::keep_planned(index, platform, directory, keep_dir, batch_id)->Ok_0;
        assert(plan.groups[g] == directories::keep_group(files, platform, directory, lead));
        assert(live_copy(files, a, lead));
    }
}

// ---------------------------------------------------------------------------
// Merging two directories
// ---------------------------------------------------------------------------

/// A winner that lies in the target already stays where it is, and counts as
/// kept; one that lies elsewhere is hashed before anything else is done with
/// it, and moves under its own path and with its own hash.
pub proof fn law_a_winner_in_the_target_stays(
    merge: DirMergeView,
    index: IndexView,
    platform: Platform,
    now: i64,
)
    requires
        merge.stage == MergeStage::Moving,
        0 <= merge.at < merge.pairs.len(),
        merge.recycled.contains(merge.pairs[merge.at].0),
        !merge.handled.contains(merge.pairs[merge.at].1),
    ensures
        ({
            let winner = merge.pairs[merge.at].1;
            let (after, index_after, step) = merge::merge_turn(merge, index, platform, now);
            let n = merge.target.len() as int;
            let inside = winner.len() > n && merge.target.is_prefix_of(winner) && (winner[n] == '/'
                || winner[n] == '\\' || (n > 0 && (merge.target[n - 1] == '/' || merge.target[n - 1]
                == '\\')));
            &&& inside ==> index_after == index && step is Continue && after.kept == merge.kept + 1
                && after.moved == merge.moved && after.failures == merge.failures
                && after.all_moved == merge.all_moved
            &&& !inside ==> after.kept == merge.kept
            &&& !inside && merge.seen.content_hash is None && step is Act ==> step
                == DirStepView::Act(ActionView::Hash { path: winner })
            &&& step matches DirStepView::Act(ActionView::Move { from, hash, .. }) ==> {
                &&& from == winner
                &&& merge.seen.content_hash is Some && merge.seen.content_hash->0 is Ok
                    && merge.seen.content_hash->0->Ok_0@ == hash
                &&& exists|i: int|
                    0 <= i < index.files.len() && (#[trigger] index.files[i]).path == winner
                        && index.files[i].present && index.files[i].hash == hash
            }
            &&& after.moved > merge.moved ==> merge.seen.content_hash is Some
                && merge.seen.moved is Some && merge.seen.moved->0 is Ok
        }),
{
    let winner = merge.pairs[merge.at].1;
    let n = merge.target.len() as int;
    if crate::text::starts_with(winner, merge.target) {
        assert(merge.target =~= winner.take(n));
    }
    if merge.target.is_prefix_of(winner) {
        assert(winner.subrange(0, n) =~= merge.target);
    }
    if merge::live_path(index.files, winner) is Some {
        let i = merge::live_path(index.files, winner)->0;
        assert(index.files[i].path == winner);
    }
}

/// Only losers are recycled, and each once: while a merge recycles, what it
/// asks of the disk is about the loser of the pair that is due, and what it
/// moves is that file; a loser that an earlier pair named is passed over.
pub proof fn law_a_merge_recycles_losers(
    merge: DirMergeView,
    index: IndexView,
    platform: Platform,
    now: i64,
)
    requires
        index.wf(),
        merge.stage == MergeStage::Recycling,
        0 <= merge.at < merge.pairs.len(),
    ensures
        ({
            let loser = merge.pairs[merge.at].0;
            let (after, index_after, step) = merge::merge_turn(merge, index, platform, now);
            let again = exists|j: int|
                0 <= j < merge.at && (#[trigger] merge.pairs[j]).0 == loser;
            &&& step matches DirStepView::Act(action) ==> {
                &&& index_after == index
                &&& match action {
                    ActionView::Inspect { path } => path == loser,
                    ActionView::Hash { path } => path == loser,
                    ActionView::MakeParents { .. } => true,
                    ActionView::Move { from, .. } => from == loser,
                    _ => false,
                }
            }
            &&& after.recycled.len() <= merge.recycled.len() + 1
            &&& after.recycled.len() > merge.recycled.len() ==> after.recycled.last() == loser
                && merge.seen.moved is Some && merge.seen.moved->0 is Ok
            &&& again ==> step is Continue && index_after == index && after.recycled
                == merge.recycled && after.failures == merge.failures
            &&& !again && step is Continue ==> after.recycled.len() + after.failures.len()
                == merge.recycled.len() + merge.failures.len() + 1
            &&& step is Continue ==> after.at == merge.at + 1
        }),
{
    let loser = merge.pairs[merge.at].0;
    let seen = actions::timed(merge.seen, now);
    if exists|j: int| 0 <= j < merge.at && (#[trigger] merge.pairs[j]).0 == loser {
        assert(merge::loser_repeats(merge.pairs, merge.at));
    }
    crate::promises::law_removing_a_path_checks_it(
        index,
        platform,
        loser,
        true,
        seen,
        actions::begun(merge.seen, now),
        Some(merge.batch_id),
    );
}

/// Clearing out recycles what is on its list, one path after the other.
pub proof fn law_clearing_out_recycles_its_list(
    plan: DirKeepView,
    index: IndexView,
    platform: Platform,
    now: i64,
)
    requires
        index.wf(),
        plan.at == plan.groups.len(),
        0 <= plan.next < plan.list.len(),
    ensures
        ({
            let path = plan.list[plan.next];
            let (after, index_after, step) = directories::keep_turn(plan, index, platform, now);
            &&& step matches DirStepView::Act(action) ==> {
                &&& index_after == index
                &&& after.next == plan.next
                &&& match action {
                    ActionView::Inspect { path: asked } => asked == path,
                    ActionView::Hash { path: asked } => asked == path,
                    ActionView::MakeParents { .. } => true,
                    ActionView::Move { from, .. } => from == path,
                    _ => false,
                }
            }
            &&& step is Continue ==> after.next == plan.next + 1 && after.recycled
                + after.failures.len() == plan.recycled + plan.failures.len() + 1
            &&& after.recycled > plan.recycled ==> plan.seen.moved is Some && plan.seen.moved->0
                is Ok
        }),
{
    let path = plan.list[plan.next];
    let seen = actions::timed(plan.seen, now);
    crate::promises::law_removing_a_path_checks_it(
        index,
        platform,
        path,
        true,
        seen,
        actions::begun(plan.seen, now),
        Some(plan.batch_id),
    );
}

// ---------------------------------------------------------------------------
// Runs over many files
// ---------------------------------------------------------------------------

/// A run over files does to each of them, in the order given, what it was
/// started for.
pub proof fn law_a_run_does_what_it_was_started_for(
    ids: Seq<i64>,
    file_paths: Seq<Seq<char>>,
    to_trash: bool,
    k: int,
)
    ensures
        0 <= k < ids.len() ==> {
            &&& batch::bulk_tasks(BulkKind::Trash, ids)[k] == TaskView::Trash(ids[k])
            &&& batch::bulk_tasks(BulkKind::Delete, ids)[k] == TaskView::Delete(ids[k])
            &&& batch::bulk_tasks(BulkKind::Hardlink, ids)[k] == TaskView::Hardlink(ids[k])
            &&& batch::bin_tasks(BinKind::Restore, ids)[k] == TaskView::Restore(ids[k])
            &&& batch::bin_tasks(BinKind::Discard, ids)[k] == TaskView::Discard(ids[k])
            &&& batch::bin_tasks(BinKind::Expire, ids)[k] == TaskView::Expire(ids[k])
        },
        batch::bulk_tasks(BulkKind::Trash, ids).len() == ids.len(),
        batch::bulk_tasks(BulkKind::Delete, ids).len() == ids.len(),
        batch::bulk_tasks(BulkKind::Hardlink, ids).len() == ids.len(),
        0 <= k < file_paths.len() ==> batch::path_tasks(file_paths, to_trash)[k]
            == (TaskView::RemovePath { path: file_paths[k], to_trash }),
        batch::path_tasks(file_paths, to_trash).len() == file_paths.len(),
{
}

/// The steps of a run are the steps of the task that is due.
pub proof fn law_a_task_is_carried_out_as_named(
    index: IndexView,
    platform: Platform,
    id: i64,
    path: Seq<char>,
    to_trash: bool,
    seen: Seen,
    now: i64,
    batch_id: Option<i64>,
)
    ensures
        batch::task_step(index, platform, TaskView::Trash(id), seen, now, batch_id)
            == crate::removal::trash_step(index, platform, id, seen, now, batch_id),
        batch::task_step(index, platform, TaskView::Delete(id), seen, now, batch_id)
            == crate::removal::delete_step(index, id, seen, now, batch_id),
        batch::task_step(index, platform, TaskView::Hardlink(id), seen, now, batch_id)
            == crate::removal::hardlink_step(index, platform, id, seen, now, batch_id),
        batch::task_step(
            index,
            platform,
            TaskView::RemovePath { path, to_trash },
            seen,
            now,
            batch_id,
        ) == crate::removal::remove_path_step(index, platform, path, to_trash, seen, now, batch_id),
        batch::task_step(index, platform, TaskView::Restore(id), seen, now, batch_id)
            == crate::bin::restore_step(index, platform, id, None, seen, now),
        batch::task_step(index, platform, TaskView::Discard(id), seen, now, batch_id)
            == crate::bin::delete_trash_step(index, platform, id, seen),
        batch::task_step(index, platform, TaskView::Expire(id), seen, now, batch_id)
            == crate::bin::delete_trash_step(index, platform, id, seen),
{
    reveal(batch::task_step);
}

/// A file that is done counts as a success or leaves one message, and the
/// next one is due.
pub proof fn law_a_finished_file_is_accounted_for(
    batch: BatchView,
    result: Result<(), Seq<char>>,
)
    ensures
        ({
            let after = batch::next_file(batch, result);
            &&& after.at == batch.at + 1
            &&& after.tasks == batch.tasks
            &&& after.batch_id == batch.batch_id
            &&& result is Ok ==> after.succeeded == batch.succeeded + 1 && after.failures
                == batch.failures
            &&& result is Err ==> after.succeeded == batch.succeeded && after.failures.len()
                == batch.failures.len() + 1 && result->Err_0.is_suffix_of(after.failures.last())
            &&& after.seen.content_hash is None && after.seen.same_bytes is None
                && after.seen.moved is None && after.seen.deleted is None && after.seen.occupied
                is None && after.seen.prepared is None
        }),
{
    if let Err(error) = result {
        let note = batch::failure_text(batch.tasks[batch.at], error);
        assert(error =~= note.skip(note.len() - error.len()));
    }
}

/// A run works on the task that is due and on no other: what it asks of the
/// disk is what that task asks, under the time of its first step and the
/// number of the run; when the task is done the index is what the task left,
/// and progress is told. A run without a task that is due is done.
pub proof fn law_a_run_works_on_the_task_that_is_due(
    index: IndexView,
    platform: Platform,
    run: BatchView,
    now: i64,
)
    requires
        0 <= run.at,
    ensures
        run.at >= run.tasks.len() ==> batch::advanced(index, platform, run, now) == (
            index,
            run,
            batch::BatchStepView::Done,
        ),
        run.at < run.tasks.len() ==> {
            let began = match run.seen.began {
                Some(time) => time,
                None => now,
            };
            let (left, action) = batch::task_step(
                index,
                platform,
                run.tasks[run.at],
                Seen { began: Some(began), ..run.seen },
                began,
                run.batch_id,
            );
            let (after, next, step) = batch::advanced(index, platform, run, now);
            &&& !(action is Finished) ==> step == batch::BatchStepView::Act(action) && after == left
                && next.at == run.at && next.tasks == run.tasks
            &&& action is Finished && run.progress ==> after == left && next.at == run.at + 1
                && step == batch::BatchStepView::Progress(run.at + 1, run.tasks.len() as int)
        },
{
}

/// A file that can be moved into a directory is moved: where its content is
/// the expected one, the place is free on the disk and no row stands there,
/// and the disk does what it is asked, the move succeeds. A place at which a
/// live row of another file stands is refused.
pub proof fn law_a_file_moves_to_a_free_place(
    index: IndexView,
    platform: Platform,
    i: int,
    source: Seq<char>,
    directory: Seq<char>,
    hash: Seq<char>,
    seen: Seen,
    now: i64,
)
    requires
        index.wf(),
        0 <= i < index.files.len(),
        paths::file_name_of(platform, source) is Some,
        seen.content_hash is Some && seen.content_hash->0 is Ok && seen.content_hash->0->Ok_0@
            == hash,
        seen.prepared is Some && seen.prepared->0 is Ok,
        seen.occupied == Some(false),
        seen.moved is Some && seen.moved->0 is Ok,
        index.operations.len() == 0 || index.operations.last().id < i64::MAX,
    ensures
        ({
            let to = paths::inside(
                platform,
                directory,
                directories::candidate_name(
                    paths::file_name_of(platform, source)->0,
                    seen.taken as nat,
                ),
            );
            let (after, action) = directories::place_step(
                index,
                platform,
                index.files[i].id,
                source,
                directory,
                hash,
                seen,
                now,
            );
            &&& (forall|p: int|
                0 <= p < index.files.len() ==> (#[trigger] index.files[p]).path != to) ==> action
                == (ActionView::Finished { result: Ok(()) }) && after.files[i].path == to
            &&& (exists|p: int|
                0 <= p < index.files.len() && p != i && (#[trigger] index.files[p]).path == to
                    && index.files[p].present) ==> action is Finished && action->result is Err
                && after == index
        }),
{
    let to = paths::inside(
        platform,
        directory,
        directories::candidate_name(paths::file_name_of(platform, source)->0, seen.taken as nat),
    );
    model::lemma_at_id(index.files, i);
    if exists|p: int|
        0 <= p < index.files.len() && p != i && (#[trigger] index.files[p]).path == to
            && index.files[p].present {
        let p = choose|p: int|
            0 <= p < index.files.len() && p != i && (#[trigger] index.files[p]).path == to
                && index.files[p].present;
        model::lemma_at_path(index.files, p);
        if p < i {
            assert(index.files[p].id < index.files[i].id);
        } else {
            assert(index.files[i].id < index.files[p].id);
        }
    }
}

} // verus!
