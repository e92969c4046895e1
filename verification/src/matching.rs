//! The background verification of duplicate photo candidates: which pairs
//! still need a look, what is known so far, and when verdicts are stored.
use crate::photos::PairVerdict;
use crate::text::same_text;
use vstd::prelude::*;

verus! {

/// So many fresh verdicts are stored together.
pub const VERDICT_BATCH: usize = 64;

pub type PairText = (Seq<char>, Seq<char>);

#[verifier::ext_equal]
pub struct VerdictView {
    pub first: Seq<char>,
    pub second: Seq<char>,
    pub identical: bool,
}

pub open spec fn verdict_view(verdict: PairVerdict) -> VerdictView {
    VerdictView {
        first: verdict.first@,
        second: verdict.second@,
        identical: verdict.identical,
    }
}

pub open spec fn verdict_views(list: Seq<PairVerdict>) -> Seq<VerdictView> {
    list.map_values(|verdict: PairVerdict| verdict_view(verdict))
}

pub open spec fn pair_text(pair: (String, String)) -> PairText {
    (pair.0@, pair.1@)
}

pub open spec fn pair_texts(list: Seq<(String, String)>) -> Seq<PairText> {
    list.map_values(|pair: (String, String)| pair_text(pair))
}

/// The verdicts that are already known, in the order of the pairs.
pub open spec fn seeded(pairs: Seq<PairText>, cached: Seq<Option<bool>>) -> Seq<VerdictView>
    decreases pairs.len(),
{
    if pairs.len() == 0 {
        Seq::empty()
    } else {
        let front = seeded(pairs.drop_last(), cached.drop_last());
        match cached.last() {
            Some(identical) => front.push(
                VerdictView { first: pairs.last().0, second: pairs.last().1, identical },
            ),
            None => front,
        }
    }
}

/// The pairs that need a look, each once.
pub open spec fn pending(pairs: Seq<PairText>, cached: Seq<Option<bool>>) -> Seq<PairText>
    decreases pairs.len(),
{
    if pairs.len() == 0 {
        Seq::empty()
    } else {
        let front = pending(pairs.drop_last(), cached.drop_last());
        if cached.last() is None && !front.contains(pairs.last()) {
            front.push(pairs.last())
        } else {
            front
        }
    }
}

/// How many verdicts say that the pictures are the same.
pub open spec fn same_count(list: Seq<VerdictView>) -> int
    decreases list.len(),
{
    if list.len() == 0 {
        0
    } else {
        same_count(list.drop_last()) + (if list.last().identical {
            1int
        } else {
            0
        })
    }
}

/// A pass over the candidates, as it is shown.
pub struct DuplicateVerifyState {
    pub running: bool,
    pub done: usize,
    pub total: usize,
    pub same: usize,
    pub different: usize,
    pub results: Vec<PairVerdict>,
}

impl DuplicateVerifyState {
    /// The counters belong to the results.
    pub open spec fn wf(self) -> bool {
        &&& self.done == self.results@.len()
        &&& self.same == same_count(verdict_views(self.results@))
        &&& self.same + self.different == self.done
    }

    /// Nothing was started yet.
    pub fn new() -> (state: DuplicateVerifyState)
        ensures
            state.wf(),
            !state.running,
            state.total == 0,
            state.results@.len() == 0,
    {
        let state = DuplicateVerifyState {
            running: false,
            done: 0,
            total: 0,
            same: 0,
            different: 0,
            results: Vec::new(),
        };
        proof {
            assert(verdict_views(state.results@) =~= Seq::<VerdictView>::empty());
        }
        state
    }

    fn count(&mut self, verdict: PairVerdict)
        requires
            old(self).wf(),
        ensures
            final(self).wf(),
            verdict_views(final(self).results@) == verdict_views(old(self).results@).push(
                verdict_view(verdict),
            ),
            final(self).running == old(self).running,
            final(self).total == old(self).total,
    {
        let identical = verdict.identical;
        let ghost before = verdict_views(self.results@);
        self.results.push(verdict);
        let n = self.results.len();
        proof {
            let now = verdict_views(self.results@);
            assert(now =~= before.push(verdict_view(verdict)));
            assert(now.drop_last() =~= before);
        }
        self.done = n;
        if identical {
            self.same = self.same + 1;
        } else {
            self.different = self.different + 1;
        }
    }
}

fn copy_pair(pair: &(String, String)) -> (out: (String, String))
    ensures
        pair_text(out) == pair_text(*pair),
{
    (pair.0.clone(), pair.1.clone())
}

fn same_pair(first: &str, second: &str, pair: &(String, String)) -> (same: bool)
    ensures
        same == ((first@, second@) == pair_text(*pair)),
{
    same_text(first, pair.0.as_str()) && same_text(second, pair.1.as_str())
}

/// Where a pair stands in a list.
fn find_pair(list: &Vec<(String, String)>, first: &str, second: &str) -> (found: Option<usize>)
    ensures
        match found {
            Some(k) => k < list@.len() && pair_texts(list@)[k as int] == (first@, second@),
            None => !pair_texts(list@).contains((first@, second@)),
        },
{
    let ghost views = pair_texts(list@);
    for i in 0..list.len()
        invariant
            views == pair_texts(list@),
            forall|k: int| 0 <= k < i ==> #[trigger] views[k] != (first@, second@),
    {
        proof {
            assert(views[i as int] == pair_text(list@[i as int]));
        }
        if same_pair(first, second, &list[i]) {
            return Some(i);
        }
    }
    None
}

/// What to do next.
pub enum VerifyStep {
    /// A scan keeps the machine busy; look again later.
    Pause,
    /// Verify these pairs.
    Verify(Vec<(String, String)>),
    Stop,
}

/// A verification pass: what is shown, the pairs without a verdict, and the
/// verdicts that are not stored yet.
pub struct VerifyRun {
    pub state: DuplicateVerifyState,
    pub remaining: Vec<(String, String)>,
    pub buffer: Vec<PairVerdict>,
}

impl VerifyRun {
    /// No pair waits twice, and fewer verdicts wait than make a batch.
    pub open spec fn wf(self) -> bool {
        &&& self.state.wf()
        &&& pair_texts(self.remaining@).no_duplicates()
        &&& self.buffer@.len() < VERDICT_BATCH
    }

    /// A pass that is under way and was not cancelled is only reported when
    /// it is started again. A new one begins where there was none, or the last
    /// one has ended or was cancelled.
    pub fn may_start(last: Option<&DuplicateVerifyState>, cancelled: bool) -> (yes: bool)
        ensures
            yes == (last is None || !last->0.running || cancelled),
    {
        match last {
            None => true,
            Some(state) => !state.running || cancelled,
        }
    }

    /// Workers stop between pairs when the pass is cancelled or a scan runs.
    pub fn should_stop(cancelled: bool, scanning: bool) -> (stop: bool)
        ensures
            stop == (cancelled || scanning),
    {
        cancelled || scanning
    }

    /// Decide how the pass goes on. Pairs stay in the list until their verdict
    /// is in, so a pass that was interrupted resumes with what is left.
    pub fn next_step(&self, cancelled: bool, scanning: bool) -> (step: VerifyStep)
        ensures
            match step {
                VerifyStep::Stop => cancelled || (!scanning && self.remaining@.len() == 0),
                VerifyStep::Pause => !cancelled && scanning,
                VerifyStep::Verify(pairs) => !cancelled && !scanning && self.remaining@.len() > 0
                    && pair_texts(pairs@) == pair_texts(self.remaining@),
            },
    {
        if cancelled {
            return VerifyStep::Stop;
        }
        if scanning {
            return VerifyStep::Pause;
        }
        if self.remaining.len() == 0 {
            return VerifyStep::Stop;
        }
        let mut pairs: Vec<(String, String)> = Vec::new();
        let ghost views = pair_texts(self.remaining@);
        for i in 0..self.remaining.len()
            invariant
                views == pair_texts(self.remaining@),
                pair_texts(pairs@) =~= views.take(i as int),
        {
            let ghost before = pairs@;
            let pair = copy_pair(&self.remaining[i]);
            pairs.push(pair);
            proof {
                assert(pair_texts(pairs@) =~= pair_texts(before).push(pair_text(pair)));
                assert(views[i as int] == pair_text(self.remaining@[i as int]));
            }
        }
        proof {
            assert(views.take(self.remaining@.len() as int) =~= views);
        }
        VerifyStep::Verify(pairs)
    }

    /// Take a fresh verdict in. It is shown at once, its pair waits no
    /// longer, and a full batch is handed out to be stored.
    pub fn publish(&mut self, verdict: &PairVerdict) -> (batch: Option<Vec<PairVerdict>>)
        requires
            old(self).wf(),
        ensures
            final(self).wf(),
            verdict_views(final(self).state.results@) == verdict_views(
                old(self).state.results@,
            ).push(verdict_view(*verdict)),
            final(self).state.running == old(self).state.running,
            final(self).state.total == old(self).state.total,
            forall|pair: PairText| #[trigger]
                pair_texts(final(self).remaining@).contains(pair) <==> pair_texts(
                    old(self).remaining@,
                ).contains(pair) && pair != (verdict.first@, verdict.second@),
            old(self).buffer@.len() + 1 < VERDICT_BATCH ==> batch is None && verdict_views(
                final(self).buffer@,
            ) == verdict_views(old(self).buffer@).push(verdict_view(*verdict)),
            old(self).buffer@.len() + 1 == VERDICT_BATCH ==> batch is Some && verdict_views(
                batch->0@,
            ) == verdict_views(old(self).buffer@).push(verdict_view(*verdict))
                && final(self).buffer@.len() == 0,
    {
        let ghost waiting = pair_texts(self.remaining@);
        let ghost gone = (verdict.first@, verdict.second@);
        match find_pair(&self.remaining, verdict.first.as_str(), verdict.second.as_str()) {
            Some(k) => {
                let _ = self.remaining.remove(k);
                proof {
                    let now = pair_texts(self.remaining@);
                    assert(now =~= waiting.remove(k as int));
                    assert forall|pair: PairText| #[trigger]
                        now.contains(pair) <==> waiting.contains(pair) && pair != gone by {
                        if now.contains(pair) {
                            let j = choose|j: int| 0 <= j < now.len() && now[j] == pair;
                            let from = if j < k {
                                j
                            } else {
                                j + 1
                            };
                            assert(waiting[from] == pair);
                            assert(waiting[k as int] == gone);
                        }
                        if waiting.contains(pair) && pair != gone {
                            let j = choose|j: int| 0 <= j < waiting.len() && waiting[j] == pair;
                            let to = if j < k {
                                j
                            } else {
                                j - 1
                            };
                            assert(now[to] == pair);
                        }
                    }
                }
            },
            None => {},
        }
        let ghost kept = verdict_views(self.buffer@);
        self.buffer.push(
            PairVerdict {
                first: verdict.first.clone(),
                second: verdict.second.clone(),
                identical: verdict.identical,
            },
        );
        proof {
            assert(verdict_views(self.buffer@) =~= kept.push(verdict_view(*verdict)));
        }
        self.state.count(
            PairVerdict {
                first: verdict.first.clone(),
                second: verdict.second.clone(),
                identical: verdict.identical,
            },
        );
        if self.buffer.len() >= VERDICT_BATCH {
            let mut batch: Vec<PairVerdict> = Vec::new();
            std::mem::swap(&mut batch, &mut self.buffer);
            Some(batch)
        } else {
            None
        }
    }

    /// End the pass: what was not stored yet is handed out.
    pub fn finish(&mut self) -> (batch: Vec<PairVerdict>)
        requires
            old(self).wf(),
        ensures
            final(self).wf(),
            batch@ == old(self).buffer@,
            final(self).buffer@.len() == 0,
            final(self).remaining@ == old(self).remaining@,
            final(self).state.results@ == old(self).state.results@,
            final(self).state.total == old(self).state.total,
            !final(self).state.running,
    {
        let mut batch: Vec<PairVerdict> = Vec::new();
        std::mem::swap(&mut batch, &mut self.buffer);
        self.state.running = false;
        batch
    }
}

/// Start a pass: verdicts that are known are shown at once, and only the
/// other pairs wait.
pub fn start_duplicate_verify(pairs: &[(String, String)], cached: &[Option<bool>]) -> (run:
    VerifyRun)
    requires
        pairs@.len() == cached@.len(),
    ensures
        run.wf(),
        run.state.running,
        run.state.total == pairs@.len(),
        verdict_views(run.state.results@) == seeded(pair_texts(pairs@), cached@),
        pair_texts(run.remaining@) == pending(pair_texts(pairs@), cached@),
        run.buffer@.len() == 0,
{
    let mut state = DuplicateVerifyState::new();
    state.running = true;
    state.total = pairs.len();
    let mut remaining: Vec<(String, String)> = Vec::new();
    let ghost views = pair_texts(pairs@);
    proof {
        assert(views.take(0) =~= Seq::<PairText>::empty());
        assert(cached@.take(0) =~= Seq::<Option<bool>>::empty());
        assert(verdict_views(state.results@) =~= Seq::<VerdictView>::empty());
        assert(pair_texts(remaining@) =~= Seq::<PairText>::empty());
    }
    for i in 0..pairs.len()
        invariant
            pairs@.len() == cached@.len(),
            views == pair_texts(pairs@),
            state.wf(),
            state.running,
            state.total == pairs@.len(),
            verdict_views(state.results@) == seeded(views.take(i as int), cached@.take(i as int)),
            pair_texts(remaining@) == pending(views.take(i as int), cached@.take(i as int)),
            pair_texts(remaining@).no_duplicates(),
    {
        proof {
            assert(views.take(i + 1).drop_last() =~= views.take(i as int));
            assert(views.take(i + 1).last() == pair_text(pairs@[i as int]));
            assert(cached@.take(i + 1).drop_last() =~= cached@.take(i as int));
            assert(cached@.take(i + 1).last() == cached@[i as int]);
        }
        match cached[i] {
            Some(identical) => {
                state.count(
                    PairVerdict {
                        first: pairs[i].0.clone(),
                        second: pairs[i].1.clone(),
                        identical,
                    },
                );
            },
            None => {
                match find_pair(&remaining, pairs[i].0.as_str(), pairs[i].1.as_str()) {
                    Some(k) => {
                        proof {
                            assert(pair_texts(remaining@).contains(pair_text(pairs@[i as int])));
                        }
                    },
                    None => {
                        let ghost before = remaining@;
                        let pair = copy_pair(&pairs[i]);
                        remaining.push(pair);
                        proof {
                            assert(pair_texts(remaining@) =~= pair_texts(before).push(
                                pair_text(pair),
                            ));
                        }
                    },
                }
            },
        }
    }
    proof {
        assert(views.take(pairs@.len() as int) =~= views);
        assert(cached@.take(pairs@.len() as int) =~= cached@);
    }
    VerifyRun { state, remaining, buffer: Vec::new() }
}

/// Every candidate is either shown with its known verdict or waits for one.
pub proof fn law_no_candidate_is_lost(pairs: Seq<PairText>, cached: Seq<Option<bool>>, k: int)
    requires
        pairs.len() == cached.len(),
        0 <= k < pairs.len(),
    ensures
        cached[k] is None ==> pending(pairs, cached).contains(pairs[k]),
        cached[k] is Some ==> seeded(pairs, cached).contains(
            VerdictView { first: pairs[k].0, second: pairs[k].1, identical: cached[k]->0 },
        ),
    decreases pairs.len(),
{
    let n = pairs.len() - 1;
    let waiting = pending(pairs.drop_last(), cached.drop_last());
    let shown = seeded(pairs.drop_last(), cached.drop_last());
    if k < n {
        law_no_candidate_is_lost(pairs.drop_last(), cached.drop_last(), k);
        assert(pairs.drop_last()[k] == pairs[k]);
        assert(cached.drop_last()[k] == cached[k]);
        if cached[k] is None {
            let j = choose|j: int| 0 <= j < waiting.len() && waiting[j] == pairs[k];
            assert(pending(pairs, cached)[j] == pairs[k]);
        } else {
            let verdict = VerdictView {
                first: pairs[k].0,
                second: pairs[k].1,
                identical: cached[k]->0,
            };
            let j = choose|j: int| 0 <= j < shown.len() && shown[j] == verdict;
            assert(seeded(pairs, cached)[j] == verdict);
        }
    } else if cached[k] is None {
        if !waiting.contains(pairs[k]) {
            assert(pending(pairs, cached)[waiting.len() as int] == pairs[k]);
        }
    } else {
        assert(seeded(pairs, cached)[shown.len() as int] == VerdictView {
            first: pairs[k].0,
            second: pairs[k].1,
            identical: cached[k]->0,
        });
    }
}

} // verus!
