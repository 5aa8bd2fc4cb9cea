//! Accounting and scheduling of the rule engine task.

use crate::counters::{all_counted, count, count_of, one_more};
use crate::engine::{EvalReport, ReportModel};
use crate::text_map::TextMap;
use vstd::prelude::*;

verus! {

/// How long to sleep, in milliseconds, when no periodic rule is scheduled.
pub const IDLE_SLEEP_MS: u64 = 60_000;

/// Running totals of the engine.
#[derive(Debug)]
pub struct EngineStats {
    pub samples: u64,
    /// Records logged, by rule.
    pub records: TextMap<u64>,
    /// Conditions that could not be evaluated, by rule.
    pub eval_errors: TextMap<u64>,
    /// Values that were too old, by rule.
    pub stale_skips: TextMap<u64>,
}

/// The content of an [`EngineStats`].
pub struct EngineTotals {
    pub samples: u64,
    pub records: Map<Seq<char>, u64>,
    pub eval_errors: Map<Seq<char>, u64>,
    pub stale_skips: Map<Seq<char>, u64>,
}

impl View for EngineStats {
    type V = EngineTotals;

    open spec fn view(&self) -> EngineTotals {
        EngineTotals {
            samples: self.samples,
            records: self.records@,
            eval_errors: self.eval_errors@,
            stale_skips: self.stale_skips@,
        }
    }
}

/// The rules that logged, in order.
pub open spec fn logging_rules(report: ReportModel) -> Seq<Seq<char>> {
    Seq::new(report.records.len(), |i: int| report.records[i].rule_id)
}

/// The rules that could not be evaluated, in order.
pub open spec fn failing_rules(report: ReportModel) -> Seq<Seq<char>> {
    Seq::new(report.eval_errors.len(), |i: int| report.eval_errors[i].0)
}

impl EngineTotals {
    /// The totals after a step of the engine.
    pub open spec fn after(self, report: ReportModel) -> EngineTotals {
        EngineTotals {
            samples: self.samples,
            records: all_counted(self.records, logging_rules(report), report.records.len()),
            eval_errors: all_counted(
                self.eval_errors,
                failing_rules(report),
                report.eval_errors.len(),
            ),
            stale_skips: all_counted(
                self.stale_skips,
                report.stale_skips,
                report.stale_skips.len(),
            ),
        }
    }
}

impl Default for EngineStats {
    fn default() -> (r: EngineStats)
        ensures
            r@.samples == 0,
            r@.records == Map::<Seq<char>, u64>::empty(),
            r@.eval_errors == Map::<Seq<char>, u64>::empty(),
            r@.stale_skips == Map::<Seq<char>, u64>::empty(),
    {
        EngineStats {
            samples: 0,
            records: TextMap::new(),
            eval_errors: TextMap::new(),
            stale_skips: TextMap::new(),
        }
    }
}

impl EngineStats {
    /// Counts a sample.
    pub fn count_sample(&mut self)
        ensures
            final(self)@ == (EngineTotals { samples: one_more(old(self)@.samples), ..old(self)@ }),
    {
        self.samples = self.samples.saturating_add(1);
    }

    /// Counts what a step of the engine reports. The result says of each
    /// evaluation error whether it is the first of its rule, and so worth a
    /// warning.
    pub fn count_report(&mut self, report: &EvalReport) -> (first: Vec<bool>)
        ensures
            final(self)@ == old(self)@.after(report@),
            first@.len() == report@.eval_errors.len(),
            forall|i: int|
                0 <= i < first@.len() ==> #[trigger] first@[i] == (count_of(
                    all_counted(
                        old(self)@.eval_errors,
                        failing_rules(report@),
                        i as nat,
                    ),
                    failing_rules(report@)[i],
                ) == 0),
    {
        let ghost failing = failing_rules(report@);
        let ghost logging = logging_rules(report@);
        let ghost start = self@;
        let mut first: Vec<bool> = Vec::new();
        let mut i: usize = 0;
        while i < report.eval_errors.len()
            invariant
                i <= report.eval_errors@.len(),
                failing == failing_rules(report@),
                self@ == (EngineTotals {
                    eval_errors: all_counted(start.eval_errors, failing, i as nat),
                    ..start
                }),
                first@.len() == i,
                forall|j: int|
                    0 <= j < i ==> #[trigger] first@[j] == (count_of(
                        all_counted(start.eval_errors, failing, j as nat),
                        failing[j],
                    ) == 0),
            decreases report.eval_errors@.len() - i,
        {
            let n: u64 = count(&mut self.eval_errors, report.eval_errors[i].0.as_str());
            first.push(n == 1);
            i = i + 1;
        }
        let mut j: usize = 0;
        while j < report.stale_skips.len()
            invariant
                j <= report.stale_skips@.len(),
                self@ == (EngineTotals {
                    eval_errors: all_counted(
                        start.eval_errors,
                        failing,
                        report@.eval_errors.len(),
                    ),
                    stale_skips: all_counted(start.stale_skips, report@.stale_skips, j as nat),
                    ..start
                }),
            decreases report.stale_skips@.len() - j,
        {
            count(&mut self.stale_skips, report.stale_skips[j].as_str());
            j = j + 1;
        }
        let mut k: usize = 0;
        while k < report.records.len()
            invariant
                k <= report.records@.len(),
                logging == logging_rules(report@),
                self@ == (EngineTotals {
                    eval_errors: all_counted(
                        start.eval_errors,
                        failing,
                        report@.eval_errors.len(),
                    ),
                    stale_skips: all_counted(
                        start.stale_skips,
                        report@.stale_skips,
                        report@.stale_skips.len(),
                    ),
                    records: all_counted(start.records, logging, k as nat),
                    ..start
                }),
            decreases report.records@.len() - k,
        {
            count(&mut self.records, report.records[k].rule_id.as_str());
            k = k + 1;
        }
        first
    }
}

/// How long to sleep, in milliseconds, until the next periodic rule is due.
pub fn sleep_ms(next_deadline_ms: Option<u64>, now_ms: u64) -> (r: u64)
    ensures
        r == match next_deadline_ms {
            None => IDLE_SLEEP_MS as int,
            Some(due) => if due > now_ms {
                due - now_ms
            } else {
                0
            },
        },
        next_deadline_ms is None ==> r == 60_000,
{
    match next_deadline_ms {
        None => IDLE_SLEEP_MS,
        Some(due) => due.saturating_sub(now_ms),
    }
}

} // verus!
