//! Counts of processed files by outcome, and the exit status they give.
use vstd::prelude::*;

verus! {

/// How the processing of one file ended.
#[derive(Clone, Copy, Debug, PartialEq, Eq, Structural)]
pub enum Outcome {
    /// The Markdown file was written.
    Succeeded,
    /// The file was empty, and nothing was written.
    Skipped,
    /// Reading the file, or writing its Markdown, failed.
    Failed,
}

/// Counts of processed files.
pub struct Stats {
    files_processed: usize,
    files_succeeded: usize,
    files_skipped: usize,
    files_failed: usize,
}

/// The counts held by a [`Stats`].
pub struct StatsView {
    pub processed: nat,
    pub succeeded: nat,
    pub skipped: nat,
    pub failed: nat,
}

impl View for Stats {
    type V = StatsView;

    closed spec fn view(&self) -> StatsView {
        StatsView {
            processed: self.files_processed as nat,
            succeeded: self.files_succeeded as nat,
            skipped: self.files_skipped as nat,
            failed: self.files_failed as nat,
        }
    }
}

/// Every processed file is counted under exactly one outcome.
pub open spec fn counts_add_up(v: StatsView) -> bool {
    v.processed == v.succeeded + v.skipped + v.failed
}

/// 1 when `a` is `b`, else 0.
pub open spec fn one_if(a: Outcome, b: Outcome) -> nat {
    if a == b {
        1
    } else {
        0
    }
}

/// The counts after one more file with the given outcome.
pub open spec fn counted(v: StatsView, o: Outcome) -> StatsView {
    StatsView {
        processed: v.processed + 1,
        succeeded: v.succeeded + one_if(o, Outcome::Succeeded),
        skipped: v.skipped + one_if(o, Outcome::Skipped),
        failed: v.failed + one_if(o, Outcome::Failed),
    }
}

/// The counts after files with the given outcomes, in order.
pub open spec fn counted_all(v: StatsView, outs: Seq<Outcome>) -> StatsView
    decreases outs.len(),
{
    if outs.len() == 0 {
        v
    } else {
        counted_all(counted(v, outs[0]), outs.drop_first())
    }
}

/// How many of `outs` are `o`.
pub open spec fn occurrences(outs: Seq<Outcome>, o: Outcome) -> nat
    decreases outs.len(),
{
    if outs.len() == 0 {
        0
    } else {
        one_if(outs[0], o) + occurrences(outs.drop_first(), o)
    }
}

impl Stats {
    /// No file processed yet.
    pub fn new() -> (s: Self)
        ensures
            s@ == (StatsView { processed: 0, succeeded: 0, skipped: 0, failed: 0 }),
    {
        Stats { files_processed: 0, files_succeeded: 0, files_skipped: 0, files_failed: 0 }
    }

    /// Counts one more processed file under its outcome.
    pub fn record(&mut self, outcome: Outcome)
        requires
            counts_add_up(old(self)@),
            old(self)@.processed < usize::MAX,
        ensures
            final(self)@ == counted(old(self)@, outcome),
            counts_add_up(final(self)@),
            final(self)@.processed == old(self)@.processed + 1,
            outcome == Outcome::Succeeded ==> final(self)@.succeeded == old(self)@.succeeded + 1
                && final(self)@.skipped == old(self)@.skipped && final(self)@.failed == old(
                self,
            )@.failed,
            outcome == Outcome::Skipped ==> final(self)@.skipped == old(self)@.skipped + 1
                && final(self)@.succeeded == old(self)@.succeeded && final(self)@.failed == old(
                self,
            )@.failed,
            outcome == Outcome::Failed ==> final(self)@.failed == old(self)@.failed + 1
                && final(self)@.succeeded == old(self)@.succeeded && final(self)@.skipped == old(
                self,
            )@.skipped,
    {
        self.files_processed = self.files_processed + 1;
        match outcome {
            Outcome::Succeeded => {
                self.files_succeeded = self.files_succeeded + 1;
            },
            Outcome::Skipped => {
                self.files_skipped = self.files_skipped + 1;
            },
            Outcome::Failed => {
                self.files_failed = self.files_failed + 1;
            },
        }
    }

    /// Files processed so far.
    pub fn files_processed(&self) -> (r: usize)
        ensures
            r == self@.processed,
    {
        self.files_processed
    }

    /// Files whose Markdown was written.
    pub fn files_succeeded(&self) -> (r: usize)
        ensures
            r == self@.succeeded,
    {
        self.files_succeeded
    }

    /// Files skipped as empty.
    pub fn files_skipped(&self) -> (r: usize)
        ensures
            r == self@.skipped,
    {
        self.files_skipped
    }

    /// Files that failed.
    pub fn files_failed(&self) -> (r: usize)
        ensures
            r == self@.failed,
    {
        self.files_failed
    }

    /// The process exit status: 1 when any file failed, else 0.
    pub fn exit_code(&self) -> (c: i32)
        ensures
            c == (if self@.failed > 0 {
                1int
            } else {
                0int
            }),
    {
        if self.files_failed > 0 {
            1
        } else {
            0
        }
    }
}

/// Counting files one by one adds their number to the processed count, and
/// to each outcome's count the number of files with that outcome; so the
/// counts keep adding up.
pub proof fn law_counting_many(v: StatsView, outs: Seq<Outcome>)
    ensures
        counted_all(v, outs).processed == v.processed + outs.len(),
        counted_all(v, outs).succeeded == v.succeeded + occurrences(outs, Outcome::Succeeded),
        counted_all(v, outs).skipped == v.skipped + occurrences(outs, Outcome::Skipped),
        counted_all(v, outs).failed == v.failed + occurrences(outs, Outcome::Failed),
        counts_add_up(v) ==> counts_add_up(counted_all(v, outs)),
    decreases outs.len(),
{
    if outs.len() > 0 {
        law_counting_many(counted(v, outs[0]), outs.drop_first());
    }
}

/// The number of workers to start: as many as asked for, but no more than
/// there are files.
pub fn worker_count(requested: usize, files: usize) -> (r: usize)
    ensures
        r == (if requested <= files {
            requested
        } else {
            files
        }),
{
    if requested <= files {
        requested
    } else {
        files
    }
}

} // verus!
