use vstd::prelude::*;
use vstd::set_lib::{lemma_int_range, lemma_subset_equality, set_int_range};
use crate::text::{decimal_text, padded_decimal, push_char, push_decimal, push_padded};

verus! {

/// Admission and result collection for a batch of files processed under a
/// worker limit.
///
/// Files are started in order; at most `limit` of them are in processing at
/// once. Each finished file hands back its position and its result, or
/// `None` where the file could not be read; a hard failure ends the batch.
/// Results are kept in the order files finish, which nothing here relies on.
pub struct Batch<R> {
    limit: usize,
    total: usize,
    started: usize,
    active: usize,
    failed: bool,
    results: Vec<(usize, Option<R>)>,
}

impl<R> Batch<R> {
    pub closed spec fn limit(&self) -> nat {
        self.limit as nat
    }

    pub closed spec fn total(&self) -> nat {
        self.total as nat
    }

    pub closed spec fn started(&self) -> nat {
        self.started as nat
    }

    pub closed spec fn active(&self) -> nat {
        self.active as nat
    }

    pub closed spec fn failed(&self) -> bool {
        self.failed
    }

    /// The finished files, each by its position with its result, in the
    /// order they finished.
    pub closed spec fn results(&self) -> Seq<(usize, Option<R>)> {
        self.results@
    }

    /// The positions of the finished files, in the order they finished.
    pub open spec fn finished(&self) -> Seq<int> {
        self.results().map_values(|e: (usize, Option<R>)| e.0 as int)
    }

    /// Number of files whose processing has finished.
    pub open spec fn completed(&self) -> nat {
        self.results().len()
    }

    pub closed spec fn wf(&self) -> bool {
        &&& self.limit > 0
        &&& self.active <= self.limit
        &&& self.started <= self.total
        &&& self.results@.len() + self.active == self.started
        &&& self.finished().no_duplicates()
        &&& forall|k: int| 0 <= k < self.finished().len() ==> 0 <= #[trigger] self.finished()[k] < self.started
    }

    /// Whether another file may be started now.
    pub open spec fn may_start(&self) -> bool {
        !self.failed() && self.started() < self.total() && self.active() < self.limit()
    }

    /// A batch of `total` files of which at most `limit` are processed at once.
    pub fn new(total: usize, limit: usize) -> (r: Self)
        requires
            limit > 0,
        ensures
            r.wf(),
            r.total() == total,
            r.limit() == limit,
            r.started() == 0,
            r.active() == 0,
            !r.failed(),
            r.results() == Seq::<(usize, Option<R>)>::empty(),
    {
        let b = Batch { limit, total, started: 0, active: 0, failed: false, results: Vec::new() };
        assert(b.finished() =~= Seq::<int>::empty());
        b
    }

    /// Whether another file may be started now.
    pub fn can_start(&self) -> (r: bool)
        requires
            self.wf(),
        ensures
            r == self.may_start(),
    {
        !self.failed && self.started < self.total && self.active < self.limit
    }

    /// Starts the next file, and returns its position in the batch.
    pub fn start(&mut self) -> (r: usize)
        requires
            old(self).wf(),
            old(self).may_start(),
        ensures
            final(self).wf(),
            r == old(self).started(),
            final(self).started() == old(self).started() + 1,
            final(self).active() == old(self).active() + 1,
            final(self).total() == old(self).total(),
            final(self).limit() == old(self).limit(),
            final(self).failed() == old(self).failed(),
            final(self).results() == old(self).results(),
    {
        let r = self.started;
        self.started = self.started + 1;
        self.active = self.active + 1;
        r
    }

    /// Records that the file at position `index`, which was started and has
    /// not finished yet, finished with `result` (`None` where the file could
    /// not be read). The batch goes on either way.
    pub fn finish(&mut self, index: usize, result: Option<R>)
        requires
            old(self).wf(),
            old(self).active() > 0,
            index < old(self).started(),
            !old(self).finished().contains(index as int),
        ensures
            final(self).wf(),
            final(self).active() == old(self).active() - 1,
            final(self).results() == old(self).results().push((index, result)),
            final(self).started() == old(self).started(),
            final(self).total() == old(self).total(),
            final(self).limit() == old(self).limit(),
            final(self).failed() == old(self).failed(),
    {
        self.active = self.active - 1;
        self.results.push((index, result));
        assert(self.finished() =~= old(self).finished().push(index as int));
    }

    /// Records a hard failure: no further file is started.
    pub fn fail(&mut self)
        requires
            old(self).wf(),
        ensures
            final(self).wf(),
            final(self).failed(),
            !final(self).may_start(),
            final(self).total() == old(self).total(),
            final(self).limit() == old(self).limit(),
            final(self).active() == old(self).active(),
            final(self).started() == old(self).started(),
            final(self).results() == old(self).results(),
    {
        self.failed = true;
    }

    /// Number of files in processing.
    pub fn active_count(&self) -> (r: usize)
        ensures
            r == self.active(),
    {
        self.active
    }

    /// Number of finished files and number of files in the batch.
    pub fn progress(&self) -> (r: (usize, usize))
        requires
            self.wf(),
        ensures
            r.0 == self.completed(),
            r.1 == self.total(),
    {
        (self.results.len(), self.total)
    }

    /// Whether every file has finished or the batch has failed.
    pub fn is_done(&self) -> (r: bool)
        requires
            self.wf(),
        ensures
            r == (self.failed() || self.completed() == self.total()),
    {
        self.failed || self.results.len() == self.total
    }

    /// The finished files by position, with their results, in the order
    /// they finished.
    pub fn into_results(self) -> (r: Vec<(usize, Option<R>)>)
        ensures
            r@ == self.results(),
    {
        self.results
    }
}

/// However the batch is driven, no more files are in processing at once
/// than the worker limit allows.
pub proof fn lemma_active_within_limit<R>(b: Batch<R>)
    requires
        b.wf(),
    ensures
        b.active() <= b.limit(),
        b.completed() + b.active() == b.started(),
        b.started() <= b.total(),
{
}

/// A batch that did not fail and has nothing left to start or in processing
/// has finished every file exactly once, in whatever order they finished:
/// one result per file, unreadable ones included, and its progress stands
/// at the total.
pub proof fn lemma_batch_completes<R>(b: Batch<R>)
    requires
        b.wf(),
        !b.failed(),
        !b.may_start(),
        b.active() == 0,
    ensures
        b.completed() == b.total(),
        b.results().len() == b.total(),
        b.finished().no_duplicates(),
        b.finished().to_set() == set_int_range(0, b.total() as int),
{
    let f = b.finished();
    let r = set_int_range(0, b.total() as int);
    lemma_int_range(0, b.total() as int);
    f.unique_seq_to_set();
    assert(f.to_set().subset_of(r)) by {
        assert forall|x: int| f.to_set().contains(x) implies r.contains(x) by {
            let k = choose|k: int| 0 <= k < f.len() && f[k] == x;
            assert(0 <= f[k] < b.started());
        }
    }
    vstd::seq_lib::seq_to_set_is_finite(f);
    lemma_subset_equality(f.to_set(), r);
}

/// Milliseconds as seconds with two decimals, rounded to the nearest hundredth.
pub open spec fn seconds_text(ms: nat) -> Seq<char> {
    let cs = ms / 10 + if ms % 10 >= 5 {
        1nat
    } else {
        0nat
    };
    decimal_text(cs / 100) + seq!['.'] + padded_decimal(cs % 100, 2)
}

/// Average time per finished file, in milliseconds; zero before the first.
pub open spec fn average_ms(completed: nat, elapsed_ms: nat) -> nat {
    if completed == 0 {
        0
    } else {
        elapsed_ms / completed
    }
}

/// Estimated time left, in milliseconds: the elapsed time per finished file
/// times the files left, `elapsed * (total - completed) / completed`, zero
/// before the first file finishes, capped at the largest `u64`.
pub open spec fn remaining_ms(completed: nat, total: nat, elapsed_ms: nat) -> nat {
    let r = if completed == 0 {
        0
    } else {
        elapsed_ms * (total - completed) as nat / completed
    };
    if r > u64::MAX {
        u64::MAX as nat
    } else {
        r
    }
}

/// The progress line after `completed` of `total` files finished in
/// `elapsed_ms` milliseconds.
pub open spec fn progress_text(completed: nat, total: nat, elapsed_ms: nat) -> Seq<char> {
    " Progress: "@ + decimal_text(completed) + "/"@ + decimal_text(total) + " files. Avg: "@
        + seconds_text(average_ms(completed, elapsed_ms)) + "s. Time left: "@ + seconds_text(
        remaining_ms(completed, total, elapsed_ms),
    ) + "s."@
}

fn append_str(s: &mut String, t: &str)
    ensures
        final(s)@ == old(s)@ + t@,
{
    s.append(t);
}

fn push_seconds(s: &mut String, ms: u64)
    ensures
        final(s)@ == old(s)@ + seconds_text(ms as nat),
{
    let cs: u64 = ms / 10 + if ms % 10 >= 5 {
        1
    } else {
        0
    };
    push_decimal(s, cs / 100);
    push_char(s, '.');
    push_padded(s, cs % 100, 2);
    assert(s@ =~= old(s)@ + seconds_text(ms as nat));
}

/// The progress line: files finished out of the total, the average time
/// per finished file and the estimated time left, in seconds.
pub fn progress_message(completed: usize, total: usize, elapsed_ms: u64) -> (r: String)
    requires
        completed <= total,
    ensures
        r@ == progress_text(completed as nat, total as nat, elapsed_ms as nat),
{
    let avg: u64 = if completed == 0 {
        0
    } else {
        elapsed_ms / completed as u64
    };
    let left = (total - completed) as u128;
    let remaining: u64 = if completed == 0 {
        0
    } else {
        proof {
            vstd::arithmetic::mul::lemma_mul_upper_bound(
                elapsed_ms as int,
                u64::MAX as int,
                left as int,
                u64::MAX as int,
            );
        }
        let product: u128 = elapsed_ms as u128 * left;
        let r: u128 = product / completed as u128;
        if r > u64::MAX as u128 {
            u64::MAX
        } else {
            r as u64
        }
    };
    let mut s = String::new();
    let ghost s0 = s@;
    append_str(&mut s, " Progress: ");
    push_decimal(&mut s, completed as u64);
    append_str(&mut s, "/");
    push_decimal(&mut s, total as u64);
    append_str(&mut s, " files. Avg: ");
    push_seconds(&mut s, avg);
    append_str(&mut s, "s. Time left: ");
    push_seconds(&mut s, remaining);
    append_str(&mut s, "s.");
    assert(s@ =~= progress_text(completed as nat, total as nat, elapsed_ms as nat));
    s
}

} // verus!
