//! Merging duplicate directories: of every pair of copies the losing one is
//! recycled, and the winning one ends up in the target directory.
use crate::actions::{hold_time, Action, ActionView, Seen};
use crate::directories::{
    advance_candidate, colon, move_indexed_file_to, push_text, DirStep, DirStepView,
};
use crate::model::{find_path, FileView, Index, IndexView};
use crate::paths::{lies_inside, path_under, Platform};
use crate::removal::remove_indexed_path;
use crate::settings::ensure_initialized;
use crate::text::{holds_text, joined, same_text};
use crate::{actions, directories, model, outside, paths, removal, settings};
use vstd::prelude::*;

verus! {

/// What a merge did.
pub struct DirMergeOutcome {
    /// Losing copies recycled.
    pub recycled: usize,
    /// Winning copies moved into the target directory.
    pub moved: usize,
    /// Winning copies that were already there.
    pub kept: usize,
    /// Directories removed because the merge left them empty.
    pub cleaned_dirs: Vec<String>,
    pub failures: Vec<String>,
}

#[derive(Clone, Copy, Debug, PartialEq, Eq, Structural)]
pub enum MergeStage {
    Recycling,
    Moving,
    Cleaning,
    Finished,
}

/// A merge in progress.
pub struct DirMerge {
    /// Losing and winning copy of each pair.
    pub pairs: Vec<(String, String)>,
    pub target: String,
    pub cleanup: Vec<String>,
    pub batch_id: i64,
    pub stage: MergeStage,
    pub at: usize,
    /// Losing copies that were recycled.
    pub recycled: Vec<String>,
    /// Winning copies that were dealt with.
    pub handled: Vec<String>,
    pub all_moved: bool,
    /// What the disk has answered for the current file.
    pub seen: Seen,
    pub outcome: DirMergeOutcome,
}

#[verifier::ext_equal]
pub struct DirMergeView {
    pub pairs: Seq<(Seq<char>, Seq<char>)>,
    pub target: Seq<char>,
    pub cleanup: Seq<Seq<char>>,
    pub batch_id: i64,
    pub stage: MergeStage,
    pub at: int,
    pub recycled: Seq<Seq<char>>,
    pub handled: Seq<Seq<char>>,
    pub all_moved: bool,
    pub seen: Seen,
    pub moved: int,
    pub kept: int,
    pub cleaned_dirs: Seq<Seq<char>>,
    pub failures: Seq<Seq<char>>,
}

pub open spec fn pair_views(pairs: Seq<(String, String)>) -> Seq<(Seq<char>, Seq<char>)> {
    pairs.map_values(|pair: (String, String)| (pair.0@, pair.1@))
}

impl View for DirMerge {
    type V = DirMergeView;

    open spec fn view(&self) -> DirMergeView {
        DirMergeView {
            pairs: pair_views(self.pairs@),
            target: self.target@,
            cleanup: outside::texts(self.cleanup@),
            batch_id: self.batch_id,
            stage: self.stage,
            at: self.at as int,
            recycled: outside::texts(self.recycled@),
            handled: outside::texts(self.handled@),
            all_moved: self.all_moved,
            seen: self.seen,
            moved: self.outcome.moved as int,
            kept: self.outcome.kept as int,
            cleaned_dirs: outside::texts(self.outcome.cleaned_dirs@),
            failures: outside::texts(self.outcome.failures@),
        }
    }
}

/// A merge that is about to begin. Without pairs there is nothing to do.
pub open spec fn merge_planned(
    pairs: Seq<(Seq<char>, Seq<char>)>,
    target: Seq<char>,
    cleanup: Seq<Seq<char>>,
    batch_id: i64,
) -> DirMergeView {
    DirMergeView {
        pairs,
        target,
        cleanup,
        batch_id,
        stage: if pairs.len() == 0 {
            MergeStage::Finished
        } else {
            MergeStage::Recycling
        },
        at: 0,
        recycled: Seq::empty(),
        handled: Seq::empty(),
        all_moved: true,
        seen: actions::nothing_seen(),
        moved: 0,
        kept: 0,
        cleaned_dirs: Seq::empty(),
        failures: Seq::empty(),
    }
}

/// The losing copy of the pair at `at` was the losing copy of an earlier one.
pub open spec fn loser_repeats(pairs: Seq<(Seq<char>, Seq<char>)>, at: int) -> bool {
    exists|j: int| 0 <= j < at && (#[trigger] pairs[j]).0 == pairs[at].0
}

/// The next pair, or directory, is due.
pub open spec fn onwards(merge: DirMergeView) -> DirMergeView {
    DirMergeView { at: merge.at + 1, seen: actions::nothing_seen(), ..merge }
}

/// The winning copy stays where it is, with a note why.
pub open spec fn left_behind(merge: DirMergeView, note: Seq<char>) -> DirMergeView {
    onwards(DirMergeView { failures: merge.failures.push(note), all_moved: false, ..merge })
}

/// One turn of recycling the losing copies.
pub open spec fn recycle_turn(merge: DirMergeView, index: IndexView, platform: Platform, now: i64) -> (
    DirMergeView,
    IndexView,
    DirStepView,
) {
    if merge.at >= merge.pairs.len() {
        (
            DirMergeView {
                stage: MergeStage::Moving,
                at: 0,
                seen: actions::nothing_seen(),
                ..merge
            },
            index,
            DirStepView::Continue,
        )
    } else if loser_repeats(merge.pairs, merge.at) {
        (onwards(merge), index, DirStepView::Continue)
    } else {
        let loser = merge.pairs[merge.at].0;
        let current = DirMergeView { seen: actions::timed(merge.seen, now), ..merge };
        let (after, action) = removal::remove_path_step(
            index,
            platform,
            loser,
            true,
            current.seen,
            actions::begun(merge.seen, now),
            Some(merge.batch_id),
        );
        match action {
            ActionView::Finished { result: Ok(_) } => (
                onwards(DirMergeView { recycled: merge.recycled.push(loser), ..merge }),
                after,
                DirStepView::Continue,
            ),
            ActionView::Finished { result: Err(error) } => (
                onwards(
                    DirMergeView { failures: merge.failures.push(loser + ": "@ + error), ..merge },
                ),
                after,
                DirStepView::Continue,
            ),
            other => (current, after, DirStepView::Act(other)),
        }
    }
}

/// The live row with this path.
pub open spec fn live_path(files: Seq<FileView>, path: Seq<char>) -> Option<int> {
    match model::at_path(files, path) {
        Some(i) => if files[i].present {
            Some(i)
        } else {
            None
        },
        None => None,
    }
}

/// One turn of moving the winning copies.
pub open spec fn move_turn(merge: DirMergeView, index: IndexView, platform: Platform, now: i64) -> (
    DirMergeView,
    IndexView,
    DirStepView,
) {
    if merge.at >= merge.pairs.len() {
        (
            DirMergeView {
                stage: MergeStage::Cleaning,
                at: 0,
                seen: actions::nothing_seen(),
                ..merge
            },
            index,
            DirStepView::Continue,
        )
    } else {
        let (loser, winner) = merge.pairs[merge.at];
        let dealt = DirMergeView { handled: merge.handled.push(winner), ..merge };
        if !merge.recycled.contains(loser) {
            (
                left_behind(merge, winner + ": kept, its duplicate could not be recycled"@),
                index,
                DirStepView::Continue,
            )
        } else if merge.handled.contains(winner) {
            (onwards(merge), index, DirStepView::Continue)
        } else if paths::inside_text(winner, merge.target) {
            (
                onwards(DirMergeView { kept: merge.kept + 1, ..dealt }),
                index,
                DirStepView::Continue,
            )
        } else {
            match live_path(index.files, winner) {
                None => (
                    left_behind(dealt, winner + ": not indexed or already gone"@),
                    index,
                    DirStepView::Continue,
                ),
                Some(i) => match merge.seen.content_hash {
                    None => (merge, index, DirStepView::Act(ActionView::Hash { path: winner })),
                    Some(Err(error)) => (
                        left_behind(dealt, winner + ": "@ + error@),
                        index,
                        DirStepView::Continue,
                    ),
                    Some(Ok(actual)) => if actual@ != index.files[i].hash {
                        (
                            left_behind(
                                dealt,
                                winner + ": content no longer matches the index"@,
                            ),
                            index,
                            DirStepView::Continue,
                        )
                    } else {
                        let seen = actions::timed(
                            directories::next_candidate(merge.seen),
                            now,
                        );
                        let (after, action) = directories::place_step(
                            index,
                            platform,
                            index.files[i].id,
                            winner,
                            merge.target,
                            index.files[i].hash,
                            seen,
                            actions::begun(merge.seen, now),
                        );
                        match action {
                            ActionView::Finished { result: Ok(_) } => (
                                onwards(DirMergeView { moved: merge.moved + 1, ..dealt }),
                                after,
                                DirStepView::Continue,
                            ),
                            ActionView::Finished { result: Err(error) } => (
                                left_behind(dealt, winner + ": "@ + error),
                                after,
                                DirStepView::Continue,
                            ),
                            other => (
                                DirMergeView { seen, ..merge },
                                after,
                                DirStepView::Act(other),
                            ),
                        }
                    },
                },
            }
        }
    }
}

/// One turn of removing emptied directories, which happens only where all
/// went well. The target, and what lies above it, stays.
pub open spec fn clean_turn(merge: DirMergeView, platform: Platform) -> (DirMergeView, DirStepView) {
    if !merge.all_moved || merge.failures.len() > 0 || merge.at >= merge.cleanup.len() {
        (DirMergeView { stage: MergeStage::Finished, ..merge }, DirStepView::Done)
    } else {
        let path = merge.cleanup[merge.at];
        if paths::lies_under(platform, merge.target, path) {
            (onwards(merge), DirStepView::Continue)
        } else {
            match merge.seen.removed_directory {
                None => (merge, DirStepView::Act(ActionView::RemoveDirectory { path })),
                Some(true) => (
                    onwards(
                        DirMergeView { cleaned_dirs: merge.cleaned_dirs.push(path), ..merge },
                    ),
                    DirStepView::Continue,
                ),
                Some(false) => (onwards(merge), DirStepView::Continue),
            }
        }
    }
}

/// One turn of a merge.
pub open spec fn merge_turn(merge: DirMergeView, index: IndexView, platform: Platform, now: i64) -> (
    DirMergeView,
    IndexView,
    DirStepView,
) {
    match merge.stage {
        MergeStage::Recycling => recycle_turn(merge, index, platform, now),
        MergeStage::Moving => move_turn(merge, index, platform, now),
        MergeStage::Cleaning => {
            let (after, step) = clean_turn(merge, platform);
            (after, index, step)
        },
        MergeStage::Finished => (merge, index, DirStepView::Done),
    }
}

/// Begin a merge. For each pair `(loser, winner)` the loser is recycled behind
/// the usual checks and the winner ends up in the absolute directory
/// `target_dir`. A pair whose loser cannot be recycled keeps its winner where
/// it is. The absolute directories `cleanup_dirs` are removed at the end
/// where they are empty.
pub fn merge_dir_pair(
    index: &mut Index,
    pairs: Vec<(String, String)>,
    target_dir: &str,
    cleanup_dirs: Vec<String>,
    batch_id: i64,
) -> (merge: Result<DirMerge, String>)
    requires
        old(index).wf(),
    ensures
        final(index).wf(),
        merge is Ok ==> merge->Ok_0.wf(),
        match settings::opened(old(index)@) {
            Err(error) => merge is Err && merge->Err_0@ == error && final(index)@ == old(index)@,
            Ok(usable) => merge is Ok && final(index)@ == usable && merge->Ok_0@ == merge_planned(
                pair_views(pairs@),
                target_dir@,
                outside::texts(cleanup_dirs@),
                batch_id,
            ),
        },
{
    match ensure_initialized(index) {
        Err(error) => return Err(error),
        Ok(_) => {},
    }
    let stage = if pairs.len() == 0 {
        MergeStage::Finished
    } else {
        MergeStage::Recycling
    };
    proof {
        assert(pair_views(pairs@).len() == pairs@.len());
    }
    let merge = DirMerge {
        pairs,
        target: target_dir.to_string(),
        cleanup: cleanup_dirs,
        batch_id,
        stage,
        at: 0,
        recycled: Vec::new(),
        handled: Vec::new(),
        all_moved: true,
        seen: Seen::new(),
        outcome: DirMergeOutcome {
            recycled: 0,
            moved: 0,
            kept: 0,
            cleaned_dirs: Vec::new(),
            failures: Vec::new(),
        },
    };
    proof {
        assert(merge@.recycled =~= Seq::empty());
        assert(merge@.handled =~= Seq::empty());
        assert(merge@.cleaned_dirs =~= Seq::empty());
        assert(merge@.failures =~= Seq::empty());
    }
    Ok(merge)
}

fn repeats_loser(pairs: &Vec<(String, String)>, at: usize) -> (yes: bool)
    requires
        at < pairs@.len(),
    ensures
        yes == loser_repeats(pair_views(pairs@), at as int),
{
    let ghost views = pair_views(pairs@);
    proof {
        assert(views[at as int] == (pairs@[at as int].0@, pairs@[at as int].1@));
    }
    for j in 0..at
        invariant
            at < pairs@.len(),
            views == pair_views(pairs@),
            views[at as int].0 == pairs@[at as int].0@,
            forall|k: int| 0 <= k < j ==> (#[trigger] views[k]).0 != views[at as int].0,
    {
        proof {
            assert(views[j as int] == (pairs@[j as int].0@, pairs@[j as int].1@));
        }
        if same_text(pairs[j].0.as_str(), pairs[at].0.as_str()) {
            return true;
        }
    }
    false
}

impl DirMerge {
    pub open spec fn wf(self) -> bool {
        &&& self.outcome.recycled == self.recycled@.len()
        &&& self.stage == MergeStage::Recycling ==> self.recycled@.len() <= self.at
            <= self.pairs@.len() && self.outcome.moved == 0 && self.outcome.kept == 0
        &&& self.stage == MergeStage::Moving ==> self.outcome.moved + self.outcome.kept <= self.at
            <= self.pairs@.len()
    }

    fn leave(&mut self, note: String)
        requires
            old(self).at < usize::MAX,
        ensures
            final(self)@ == left_behind(old(self)@, note@),
            final(self).outcome.recycled == old(self).outcome.recycled,
            final(self).recycled == old(self).recycled,
            final(self).pairs == old(self).pairs,
    {
        push_text(&mut self.outcome.failures, note);
        self.all_moved = false;
        self.at = self.at + 1;
        self.seen = Seen::new();
    }

    fn recycle(&mut self, index: &mut Index, platform: Platform, now: i64) -> (step: DirStep)
        requires
            old(self).wf(),
            old(self).stage == MergeStage::Recycling,
            old(index).wf(),
        ensures
            final(self).wf(),
            final(index).wf(),
            (final(self)@, final(index)@, step@) == recycle_turn(
                old(self)@,
                old(index)@,
                platform,
                now,
            ),
    {
        let ghost start = self@;
        let count = self.pairs.len();
        proof {
            assert(start.pairs.len() == count);
        }
        if self.at >= count {
            self.stage = MergeStage::Moving;
            self.at = 0;
            self.seen = Seen::new();
            return DirStep::Continue;
        }
        proof {
            assert(start.pairs[self.at as int] == (
                self.pairs@[self.at as int].0@,
                self.pairs@[self.at as int].1@,
            ));
        }
        if repeats_loser(&self.pairs, self.at) {
            self.at = self.at + 1;
            self.seen = Seen::new();
            return DirStep::Continue;
        }
        let loser = self.pairs[self.at].0.clone();
        let began: i64 = hold_time(&mut self.seen, now);
        let action = remove_indexed_path(
            index,
            platform,
            loser.as_str(),
            true,
            &self.seen,
            began,
            Some(self.batch_id),
        );
        match action {
            Action::Finished { result } => {
                match result {
                    Ok(_) => {
                        self.outcome.recycled = self.outcome.recycled + 1;
                        push_text(&mut self.recycled, loser);
                    },
                    Err(error) => {
                        push_text(
                            &mut self.outcome.failures,
                            colon(loser.as_str(), error.as_str()),
                        );
                    },
                }
                self.at = self.at + 1;
                self.seen = Seen::new();
                DirStep::Continue
            },
            other => DirStep::Act(other),
        }
    }

    fn relocate(&mut self, index: &mut Index, platform: Platform, now: i64) -> (step: DirStep)
        requires
            old(self).wf(),
            old(self).stage == MergeStage::Moving,
            old(index).wf(),
        ensures
            final(self).wf(),
            final(index).wf(),
            (final(self)@, final(index)@, step@) == move_turn(
                old(self)@,
                old(index)@,
                platform,
                now,
            ),
    {
        let ghost start = self@;
        let count = self.pairs.len();
        proof {
            assert(start.pairs.len() == count);
        }
        if self.at >= count {
            self.stage = MergeStage::Cleaning;
            self.at = 0;
            self.seen = Seen::new();
            return DirStep::Continue;
        }
        proof {
            assert(start.pairs[self.at as int] == (
                self.pairs@[self.at as int].0@,
                self.pairs@[self.at as int].1@,
            ));
        }
        let winner = self.pairs[self.at].1.clone();
        if !holds_text(self.recycled.as_slice(), self.pairs[self.at].0.as_str()) {
            self.leave(
                joined(winner.as_str(), ": kept, its duplicate could not be recycled"),
            );
            return DirStep::Continue;
        }
        if holds_text(self.handled.as_slice(), winner.as_str()) {
            self.at = self.at + 1;
            self.seen = Seen::new();
            return DirStep::Continue;
        }
        if lies_inside(winner.as_str(), self.target.as_str()) {
            push_text(&mut self.handled, winner);
            self.outcome.kept = self.outcome.kept + 1;
            self.at = self.at + 1;
            self.seen = Seen::new();
            return DirStep::Continue;
        }
        let i = match find_path(&index.files, winner.as_str()) {
            None => {
                push_text(&mut self.handled, winner.clone());
                self.leave(joined(winner.as_str(), ": not indexed or already gone"));
                return DirStep::Continue;
            },
            Some(i) => i,
        };
        proof {
            assert(index@.files[i as int] == index.files@[i as int]@);
        }
        if !index.files[i].present {
            push_text(&mut self.handled, winner.clone());
            self.leave(joined(winner.as_str(), ": not indexed or already gone"));
            return DirStep::Continue;
        }
        let id: i64 = index.files[i].id;
        let hash = index.files[i].hash.clone();
        match &self.seen.content_hash {
            None => return DirStep::Act(Action::Hash { path: winner }),
            Some(Err(error)) => {
                let note = colon(winner.as_str(), error.as_str());
                push_text(&mut self.handled, winner);
                self.leave(note);
                return DirStep::Continue;
            },
            Some(Ok(actual)) => {
                if !same_text(actual.as_str(), hash.as_str()) {
                    let note = joined(winner.as_str(), ": content no longer matches the index");
                    push_text(&mut self.handled, winner);
                    self.leave(note);
                    return DirStep::Continue;
                }
            },
        }
        advance_candidate(&mut self.seen);
        let began: i64 = hold_time(&mut self.seen, now);
        let action = move_indexed_file_to(
            index,
            platform,
            id,
            winner.as_str(),
            self.target.as_str(),
            hash.as_str(),
            &self.seen,
            began,
        );
        match action {
            Action::Finished { result } => {
                match result {
                    Ok(_) => {
                        push_text(&mut self.handled, winner);
                        self.outcome.moved = self.outcome.moved + 1;
                        self.at = self.at + 1;
                        self.seen = Seen::new();
                    },
                    Err(error) => {
                        let note = colon(winner.as_str(), error.as_str());
                        push_text(&mut self.handled, winner);
                        self.leave(note);
                    },
                }
                DirStep::Continue
            },
            other => DirStep::Act(other),
        }
    }

    fn clean(&mut self, platform: Platform) -> (step: DirStep)
        requires
            old(self).wf(),
            old(self).stage == MergeStage::Cleaning,
        ensures
            final(self).wf(),
            (final(self)@, step@) == clean_turn(old(self)@, platform),
    {
        let count = self.cleanup.len();
        proof {
            assert(self@.cleanup.len() == count);
            assert(self@.failures.len() == self.outcome.failures@.len());
        }
        if !self.all_moved || self.outcome.failures.len() > 0 || self.at >= count {
            self.stage = MergeStage::Finished;
            return DirStep::Done;
        }
        let path = self.cleanup[self.at].clone();
        proof {
            assert(self@.cleanup[self.at as int] == path@);
        }
        if !path_under(platform, self.target.as_str(), path.as_str()) {
            match self.seen.removed_directory {
                None => return DirStep::Act(Action::RemoveDirectory { path }),
                Some(true) => {
                    push_text(&mut self.outcome.cleaned_dirs, path);
                },
                Some(false) => {},
            }
        }
        self.at = self.at + 1;
        self.seen = Seen::new();
        DirStep::Continue
    }

    /// One turn: work on the current file until the disk is needed or the
    /// file is settled. A file is worked on under the time of its first turn.
    pub fn turn(&mut self, index: &mut Index, platform: Platform, now: i64) -> (step: DirStep)
        requires
            old(self).wf(),
            old(index).wf(),
        ensures
            final(self).wf(),
            final(index).wf(),
            (final(self)@, final(index)@, step@) == merge_turn(
                old(self)@,
                old(index)@,
                platform,
                now,
            ),
    {
        match self.stage {
            MergeStage::Recycling => self.recycle(index, platform, now),
            MergeStage::Moving => self.relocate(index, platform, now),
            MergeStage::Cleaning => self.clean(platform),
            MergeStage::Finished => DirStep::Done,
        }
    }
}

/// A winning copy is moved only where its losing twin was recycled: otherwise
/// the turn asks nothing of the disk and leaves the index as it is.
pub proof fn law_winner_moves_only_after_its_loser(
    merge: DirMergeView,
    index: IndexView,
    platform: Platform,
    now: i64,
)
    requires
        merge.stage == MergeStage::Moving,
        0 <= merge.at < merge.pairs.len(),
        !merge.recycled.contains(merge.pairs[merge.at].0),
    ensures
        ({
            let (after, index_after, step) = merge_turn(merge, index, platform, now);
            &&& index_after == index
            &&& step is Continue
            &&& after.moved == merge.moved
            &&& !after.all_moved
            &&& after.failures.len() == merge.failures.len() + 1
        }),
{
}

/// A winning copy counts once, as moved or as kept, however many pairs it
/// wins: a turn counts only a copy that was not dealt with before, and the
/// copy then is.
pub proof fn law_a_winner_counts_once(
    merge: DirMergeView,
    index: IndexView,
    platform: Platform,
    now: i64,
)
    requires
        merge.stage == MergeStage::Moving,
        0 <= merge.at < merge.pairs.len(),
    ensures
        ({
            let winner = merge.pairs[merge.at].1;
            let (after, _, _) = merge_turn(merge, index, platform, now);
            &&& merge.moved + merge.kept <= after.moved + after.kept <= merge.moved + merge.kept + 1
            &&& after.moved + after.kept > merge.moved + merge.kept ==> !merge.handled.contains(
                winner,
            ) && after.handled == merge.handled.push(winner)
        }),
{
}

/// Directories are removed only where every pair went well, never the target
/// nor a directory above it.
pub proof fn law_cleanup_needs_a_clean_merge(
    merge: DirMergeView,
    index: IndexView,
    platform: Platform,
    now: i64,
    path: Seq<char>,
)
    requires
        merge.stage == MergeStage::Cleaning,
        0 <= merge.at,
        merge_turn(merge, index, platform, now).2 == DirStepView::Act(
            ActionView::RemoveDirectory { path },
        ),
    ensures
        merge.all_moved,
        merge.failures.len() == 0,
        !paths::lies_under(platform, merge.target, path),
        merge.cleanup.contains(path),
{
    assert(merge.cleanup[merge.at] == path);
}

// ---------------------------------------------------------------------------
// A whole merge
// ---------------------------------------------------------------------------

/// A merge driven by what the disk answers: each turn sees the next answers,
/// at the time that comes with them.
pub open spec fn merged(
    merge: DirMergeView,
    index: IndexView,
    platform: Platform,
    answers: Seq<(Seen, i64)>,
) -> (DirMergeView, IndexView)
    decreases answers.len(),
{
    if answers.len() == 0 {
        (merge, index)
    } else {
        let (stopped, before) = merged(merge, index, platform, answers.drop_last());
        let (seen, now) = answers.last();
        let (next, after, _) = merge_turn(DirMergeView { seen, ..stopped }, before, platform, now);
        (next, after)
    }
}

/// Some pair names the path as its losing copy.
pub open spec fn loses(pairs: Seq<(Seq<char>, Seq<char>)>, path: Seq<char>) -> bool {
    exists|k: int| 0 <= k < pairs.len() && (#[trigger] pairs[k]).0 == path
}

/// Some pair names the path as its winning copy.
pub open spec fn wins(pairs: Seq<(Seq<char>, Seq<char>)>, path: Seq<char>) -> bool {
    exists|k: int| 0 <= k < pairs.len() && (#[trigger] pairs[k]).1 == path
}

/// What may become of a live row: a winning copy changes its path alone, an
/// unprotected losing copy is retired, and any other row stays as it is.
pub open spec fn row_merged(
    pairs: Seq<(Seq<char>, Seq<char>)>,
    platform: Platform,
    target: Seq<char>,
    before: FileView,
    after: FileView,
) -> bool {
    ||| after == before
    ||| wins(pairs, before.path) && after == (FileView { path: after.path, ..before })
        && directories::placed_in(platform, target, after.path)
    ||| loses(pairs, before.path) && !before.protected && !after.present
}

/// What holds of the files at every point of a merge.
pub open spec fn merged_so_far(
    before: Seq<FileView>,
    platform: Platform,
    merge: DirMergeView,
    files: Seq<FileView>,
) -> bool {
    &&& merge.at >= 0
    &&& files.len() == before.len()
    &&& model::paths_unique(files)
    &&& forall|p: int| 0 <= p < files.len() ==> (#[trigger] files[p]).id == before[p].id
    &&& merge.stage == MergeStage::Recycling ==> forall|p: int|
        0 <= p < files.len() ==> (#[trigger] files[p]).path == before[p].path
    &&& forall|p: int|
        0 <= p < files.len() && !before[p].present ==> !(#[trigger] files[p]).present
    &&& forall|p: int|
        0 <= p < files.len() && before[p].present ==> row_merged(
            merge.pairs,
            platform,
            merge.target,
            before[p],
            #[trigger] files[p],
        )
}

proof fn lemma_merge_turn(
    before: Seq<FileView>,
    merge: DirMergeView,
    index: IndexView,
    platform: Platform,
    now: i64,
)
    requires
        model::ids_ascending(before),
        merged_so_far(before, platform, merge, index.files),
    ensures
        ({
            let (next, after, _) = merge_turn(merge, index, platform, now);
            &&& next.pairs == merge.pairs
            &&& next.target == merge.target
            &&& merged_so_far(before, platform, next, after.files)
        }),
{
    let files = index.files;
    let pairs = merge.pairs;
    let (next, after, _) = merge_turn(merge, index, platform, now);
    assert(model::ids_ascending(files)) by {
        assert forall|i: int, j: int| 0 <= i < j < files.len() implies (#[trigger] files[i]).id
            < (#[trigger] files[j]).id by {
            assert(before[i].id < before[j].id);
        }
    }
    if merge.stage == MergeStage::Recycling && after.files != files {
        let loser = pairs[merge.at].0;
        assert(loses(pairs, loser));
        let i = model::at_path(files, loser)->0;
        assert(files[i].path == loser);
        let gone = FileView { present: false, approved: false, ..files[i] };
        assert(after.files == files.update(i, gone));
        assert(before[i].present);
        assert(row_merged(pairs, platform, merge.target, before[i], files[i]));
        assert forall|a: int, b: int| 0 <= a < b < files.len() implies (
        #[trigger] after.files[a]).path != (#[trigger] after.files[b]).path by {
            assert(files[a].path != files[b].path);
        }
        assert forall|p: int| 0 <= p < files.len() && before[p].present implies row_merged(
            pairs,
            platform,
            merge.target,
            before[p],
            #[trigger] after.files[p],
        ) by {
            assert(row_merged(pairs, platform, merge.target, before[p], files[p]));
        }
    } else if merge.stage == MergeStage::Moving && after != index {
        let winner = pairs[merge.at].1;
        assert(wins(pairs, winner));
        let i = live_path(files, winner)->0;
        assert(files[i].path == winner && files[i].present);
        let id = files[i].id;
        let hash = files[i].hash;
        let seen = actions::timed(directories::next_candidate(merge.seen), now);
        let began = actions::begun(merge.seen, now);
        let name = paths::file_name_of(platform, winner)->0;
        let to = paths::inside(
            platform,
            merge.target,
            directories::candidate_name(name, seen.taken as nat),
        );
        assert(after == directories::placed(index, id, winner, to, hash, began).0);
        directories::lemma_placed_rows(index, id, winner, to, hash, began);
        assert(directories::placed_in(platform, merge.target, to));
        assert forall|p: int| 0 <= p < files.len() && before[p].present implies row_merged(
            pairs,
            platform,
            merge.target,
            before[p],
            #[trigger] after.files[p],
        ) by {
            assert(row_merged(pairs, platform, merge.target, before[p], files[p]));
            if after.files[p].path == files[p].path {
                assert(after.files[p] == files[p]);
            } else if files[p].present {
                model::lemma_at_id(files, p);
                model::lemma_at_id(files, i);
                assert(p == i);
                assert(files[p].path == winner);
            }
        }
        assert forall|p: int| 0 <= p < files.len() && !before[p].present implies !(
        #[trigger] after.files[p]).present by {
            assert(!files[p].present);
        }
        assert forall|p: int| 0 <= p < files.len() implies (#[trigger] after.files[p]).id
            == before[p].id by {
            assert(files[p].id == before[p].id);
        }
    }
}

proof fn lemma_merged(
    index: IndexView,
    merge: DirMergeView,
    platform: Platform,
    answers: Seq<(Seen, i64)>,
)
    requires
        index.wf(),
        merge.at == 0,
    ensures
        ({
            let (end, after) = merged(merge, index, platform, answers);
            &&& end.pairs == merge.pairs
            &&& end.target == merge.target
            &&& merged_so_far(index.files, platform, end, after.files)
        }),
    decreases answers.len(),
{
    if answers.len() > 0 {
        lemma_merged(index, merge, platform, answers.drop_last());
        let (stopped, before) = merged(merge, index, platform, answers.drop_last());
        let (seen, now) = answers.last();
        lemma_merge_turn(
            index.files,
            DirMergeView { seen, ..stopped },
            before,
            platform,
            now,
        );
    }
}

/// Over a whole merge, and whatever the disk answers: a file that no pair
/// names stays as it is, a protected file and one that loses in no pair stays
/// live with its content, a winning copy changes its path alone, to a name in
/// the target directory, and no row comes back to life.
pub proof fn law_merge_takes_losing_copies_only(
    index: IndexView,
    platform: Platform,
    pairs: Seq<(Seq<char>, Seq<char>)>,
    target: Seq<char>,
    cleanup: Seq<Seq<char>>,
    batch_id: i64,
    answers: Seq<(Seen, i64)>,
)
    requires
        index.wf(),
    ensures
        ({
            let start = merge_planned(pairs, target, cleanup, batch_id);
            let files = index.files;
            let after = merged(start, index, platform, answers).1.files;
            &&& after.len() == files.len()
            &&& forall|p: int|
                0 <= p < files.len() && files[p].present && !wins(pairs, files[p].path) && !loses(
                    pairs,
                    files[p].path,
                ) ==> #[trigger] after[p] == files[p]
            &&& forall|p: int|
                0 <= p < files.len() && files[p].present && (files[p].protected || !loses(
                    pairs,
                    files[p].path,
                )) ==> (#[trigger] after[p]).present
            &&& forall|p: int|
                0 <= p < files.len() && (#[trigger] after[p]).present ==> files[p].present
                    && after[p] == (FileView { path: after[p].path, ..files[p] }) && (
                after[p].path == files[p].path || directories::placed_in(
                    platform,
                    target,
                    after[p].path,
                ))
        }),
{
    let start = merge_planned(pairs, target, cleanup, batch_id);
    let files = index.files;
    let after = merged(start, index, platform, answers).1.files;
    lemma_merged(index, start, platform, answers);
    assert forall|p: int| 0 <= p < files.len() && files[p].present implies row_merged(
        pairs,
        platform,
        target,
        files[p],
        #[trigger] after[p],
    ) by {
    }
    assert forall|p: int| 0 <= p < files.len() && (#[trigger] after[p]).present implies files[p].present
        && after[p] == (FileView { path: after[p].path, ..files[p] }) && (after[p].path
        == files[p].path || directories::placed_in(platform, target, after[p].path)) by {
        assert(row_merged(pairs, platform, target, files[p], after[p]));
    }
}

} // verus!
