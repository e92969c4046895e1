//! What a running scan tells about itself: recent failures and hashed bytes.
use vstd::prelude::*;

verus! {

/// How many failures are kept with their path.
pub const SCAN_ERROR_SAMPLES: usize = 20;

/// The failures of a scan: all are counted, the most recent ones are kept.
pub struct ScanErrorLog {
    total: u64,
    recent: Vec<(String, String)>,
}

#[verifier::ext_equal]
pub struct ErrorLogView {
    pub total: int,
    pub recent: Seq<(Seq<char>, Seq<char>)>,
}

pub open spec fn sample_views(samples: Seq<(String, String)>) -> Seq<(Seq<char>, Seq<char>)> {
    samples.map_values(|sample: (String, String)| (sample.0@, sample.1@))
}

/// The last entries of a list, up to the number of samples.
pub open spec fn last_samples(all: Seq<(Seq<char>, Seq<char>)>) -> Seq<(Seq<char>, Seq<char>)> {
    if all.len() <= SCAN_ERROR_SAMPLES {
        all
    } else {
        all.skip(all.len() - SCAN_ERROR_SAMPLES)
    }
}

impl View for ScanErrorLog {
    type V = ErrorLogView;

    closed spec fn view(&self) -> ErrorLogView {
        ErrorLogView { total: self.total as int, recent: sample_views(self.recent@) }
    }
}

impl ErrorLogView {
    /// The log of a scan in which exactly these failures happened.
    pub open spec fn of(failures: Seq<(Seq<char>, Seq<char>)>) -> ErrorLogView {
        ErrorLogView { total: failures.len() as int, recent: last_samples(failures) }
    }

    pub open spec fn with(self, path: Seq<char>, error: Seq<char>) -> ErrorLogView {
        ErrorLogView {
            total: self.total + 1,
            recent: last_samples(self.recent.push((path, error))),
        }
    }
}

impl ScanErrorLog {
    pub fn new() -> (log: ScanErrorLog)
        ensures
            log@ == ErrorLogView::of(Seq::empty()),
    {
        let log = ScanErrorLog { total: 0, recent: Vec::new() };
        proof {
            assert(log@.recent =~= Seq::empty());
        }
        log
    }

    /// Note one failure; the oldest sample makes room where needed.
    pub fn record(&mut self, path: &str, error: &str)
        requires
            old(self)@.total < u64::MAX,
            old(self)@.recent.len() <= SCAN_ERROR_SAMPLES,
        ensures
            final(self)@ == old(self)@.with(path@, error@),
    {
        let ghost before = self@.recent;
        proof {
            assert(before.len() == self.recent@.len());
        }
        self.total = self.total + 1;
        if self.recent.len() >= SCAN_ERROR_SAMPLES {
            let _ = self.recent.remove(0);
        }
        self.recent.push((path.to_string(), error.to_string()));
        proof {
            assert(self@.recent =~= last_samples(before.push((path@, error@))));
        }
    }

    /// All failures so far, and the most recent ones in the order they came.
    pub fn snapshot(&self) -> (shown: (u64, Vec<(String, String)>))
        ensures
            shown.0 == self@.total,
            sample_views(shown.1@) == self@.recent,
    {
        let mut list: Vec<(String, String)> = Vec::new();
        for i in 0..self.recent.len()
            invariant
                list@.len() == i,
                forall|k: int|
                    0 <= k < i ==> (#[trigger] list@[k]).0@ == self.recent@[k].0@ && list@[k].1@
                        == self.recent@[k].1@,
        {
            list.push((self.recent[i].0.clone(), self.recent[i].1.clone()));
        }
        proof {
            assert(sample_views(list@) =~= self@.recent);
        }
        (self.total, list)
    }
}

/// Recording failures one after the other keeps the count of all and the
/// latest samples in order.
pub proof fn law_log_keeps_the_latest(
    failures: Seq<(Seq<char>, Seq<char>)>,
    path: Seq<char>,
    error: Seq<char>,
)
    ensures
        ErrorLogView::of(failures).with(path, error) == ErrorLogView::of(
            failures.push((path, error)),
        ),
{
    let all = failures.push((path, error));
    assert(last_samples(last_samples(failures).push((path, error))) =~= last_samples(all));
}

/// Live counters of the hashing stage of a scan.
pub struct HashProgress {
    current_path: Option<String>,
    bytes_done: u64,
}

pub struct HashProgressView {
    pub current_path: Option<Seq<char>>,
    pub bytes_done: u64,
}

impl View for HashProgress {
    type V = HashProgressView;

    closed spec fn view(&self) -> HashProgressView {
        HashProgressView {
            current_path: crate::model::text_option(self.current_path),
            bytes_done: self.bytes_done,
        }
    }
}

impl HashProgress {
    pub fn new() -> (progress: HashProgress)
        ensures
            progress@ == (HashProgressView { current_path: None, bytes_done: 0 }),
    {
        HashProgress { current_path: None, bytes_done: 0 }
    }

    /// Hashing of this file begins.
    pub fn begin(&mut self, path: &str)
        ensures
            final(self)@ == (HashProgressView {
                current_path: Some(path@),
                bytes_done: old(self)@.bytes_done,
            }),
    {
        self.current_path = Some(path.to_string());
    }

    /// So many more bytes are hashed; the counter starts over at its end.
    pub fn add(&mut self, bytes: u64)
        ensures
            final(self)@.current_path == old(self)@.current_path,
            final(self)@.bytes_done == (old(self)@.bytes_done + bytes) % 0x1_0000_0000_0000_0000,
    {
        self.bytes_done = self.bytes_done.wrapping_add(bytes);
    }

    /// The file begun last, and the bytes hashed in this scan.
    pub fn snapshot(&self) -> (shown: (Option<String>, u64))
        ensures
            crate::model::text_option(shown.0) == self@.current_path,
            shown.1 == self@.bytes_done,
    {
        let current = match &self.current_path {
            Some(path) => Some(path.clone()),
            None => None,
        };
        (current, self.bytes_done)
    }
}

} // verus!
