//! Rule evaluation engine.

use crate::catalog::text_option;
use crate::clock::Clock;
use crate::compile::{
    all_runnable, compiled_models, distinct_ids, Behaviour, CompiledModel, CompiledRule,
    CompiledRuleSet, CompiledSetModel,
};
use crate::condition::{EvalError, EvalFault};
use crate::double::Double;
use crate::engine_laws::{
    law_sample_keeps_soundness, law_swap_keeps_soundness, law_tick_keeps_soundness,
};

use crate::text::same_text;
use crate::text_map::TextMap;
use crate::value::{SignalValue, ValueModel};
use crate::wire::Sample;
use std::sync::Arc;
use vstd::prelude::*;

verus! {

/// One emitted telemetry log line.
#[derive(Debug, PartialEq)]
pub struct LogRecord {
    /// Vehicle timestamp of the logged sample.
    pub ts_us: u64,
    pub vin: String,
    pub model: String,
    pub rule_id: String,
    pub ruleset_version: u64,
    pub signal: String,
    pub value: SignalValue,
    pub unit: Option<String>,
}

/// The content of a [`LogRecord`].
pub struct RecordModel {
    pub ts_us: u64,
    pub vin: Seq<char>,
    pub model: Seq<char>,
    pub rule_id: Seq<char>,
    pub ruleset_version: u64,
    pub signal: Seq<char>,
    pub value: ValueModel,
    pub unit: Option<Seq<char>>,
}

impl View for LogRecord {
    type V = RecordModel;

    open spec fn view(&self) -> RecordModel {
        RecordModel {
            ts_us: self.ts_us,
            vin: self.vin@,
            model: self.model@,
            rule_id: self.rule_id@,
            ruleset_version: self.ruleset_version,
            signal: self.signal@,
            value: self.value@,
            unit: text_option(self.unit),
        }
    }
}

impl Clone for LogRecord {
    fn clone(&self) -> (r: LogRecord)
        ensures
            r@ == self@,
    {
        LogRecord {
            ts_us: self.ts_us,
            vin: self.vin.clone(),
            model: self.model.clone(),
            rule_id: self.rule_id.clone(),
            ruleset_version: self.ruleset_version,
            signal: self.signal.clone(),
            value: self.value.clone(),
            unit: match &self.unit {
                Some(u) => Some(u.clone()),
                None => None,
            },
        }
    }
}

/// What happened during one engine step; the daemon turns this into
/// output lines and metrics.
#[derive(Debug, PartialEq)]
pub struct EvalReport {
    pub records: Vec<LogRecord>,
    /// Rules whose condition failed to evaluate (treated as `false`).
    pub eval_errors: Vec<(String, EvalError)>,
    /// Periodic rules skipped because the latest value was too old.
    pub stale_skips: Vec<String>,
}

/// The content of an [`EvalReport`].
#[verifier::ext_equal]
pub struct ReportModel {
    pub records: Seq<RecordModel>,
    pub eval_errors: Seq<(Seq<char>, EvalFault)>,
    pub stale_skips: Seq<Seq<char>>,
}

impl View for EvalReport {
    type V = ReportModel;

    open spec fn view(&self) -> ReportModel {
        ReportModel {
            records: Seq::new(self.records@.len(), |i: int| self.records@[i]@),
            eval_errors: Seq::new(
                self.eval_errors@.len(),
                |i: int| (self.eval_errors@[i].0@, self.eval_errors@[i].1@),
            ),
            stale_skips: Seq::new(self.stale_skips@.len(), |i: int| self.stale_skips@[i]@),
        }
    }
}

impl ReportModel {
    pub open spec fn nothing() -> ReportModel {
        ReportModel {
            records: Seq::empty(),
            eval_errors: Seq::empty(),
            stale_skips: Seq::empty(),
        }
    }

    pub open spec fn with_record(self, record: RecordModel) -> ReportModel {
        ReportModel { records: self.records.push(record), ..self }
    }

    pub open spec fn with_error(self, rule: Seq<char>, fault: EvalFault) -> ReportModel {
        ReportModel { eval_errors: self.eval_errors.push((rule, fault)), ..self }
    }

    pub open spec fn with_stale(self, rule: Seq<char>) -> ReportModel {
        ReportModel { stale_skips: self.stale_skips.push(rule), ..self }
    }
}

impl Default for EvalReport {
    fn default() -> (r: EvalReport)
        ensures
            r@ == ReportModel::nothing(),
            r.records@.len() == 0,
    {
        let r = EvalReport {
            records: Vec::new(),
            eval_errors: Vec::new(),
            stale_skips: Vec::new(),
        };
        assert(r@ =~= ReportModel::nothing());
        r
    }
}

impl EvalReport {
    fn add_record(&mut self, record: LogRecord)
        ensures
            final(self)@ == old(self)@.with_record(record@),
            final(self).records@ == old(self).records@.push(record),
    {
        self.records.push(record);
        assert(self@ =~= old(self)@.with_record(record@));
    }

    fn add_error(&mut self, rule: &str, error: EvalError)
        ensures
            final(self)@ == old(self)@.with_error(rule@, error@),
            final(self).records == old(self).records,
    {
        self.eval_errors.push((rule.to_owned(), error));
        assert(self@ =~= old(self)@.with_error(rule@, error@));
    }

    fn add_stale(&mut self, rule: &str)
        ensures
            final(self)@ == old(self)@.with_stale(rule@),
            final(self).records == old(self).records,
    {
        self.stale_skips.push(rule.to_owned());
        assert(self@ =~= old(self)@.with_stale(rule@));
    }
}

/// When the latest value of a signal was taken and received.
#[derive(Debug, Clone, Copy)]
pub struct Arrival {
    pub timestamp_us: u64,
    pub received_ms: u64,
}

/// What a rule remembers between steps.
#[derive(Debug)]
pub struct RuleState {
    pub last_logged: Option<SignalValue>,
    pub next_due_ms: Option<u64>,
}

/// Whether a value is to be logged after the last logged one: the first value
/// always, a number where it differs by more than the deadband, anything else
/// where it differs.
pub open spec fn is_change(
    last_logged: Option<SignalValue>,
    value: ValueModel,
    deadband: Double,
) -> bool {
    match last_logged {
        None => true,
        Some(last) => match (last@, value) {
            (ValueModel::Num(last), ValueModel::Num(new)) => deadband.less(
                new.difference(last).absolute(),
            ),
            (last, new) => !last.same(new),
        },
    }
}

/// Whether a value is to be logged after the last logged one.
pub fn has_changed(
    last_logged: &Option<SignalValue>,
    value: &SignalValue,
    deadband: Double,
) -> (r: bool)
    ensures
        r == is_change(*last_logged, value@, deadband),
        *last_logged is None ==> r,
        *last_logged matches Some(SignalValue::Bool(last)) ==> (r <==> *value != SignalValue::Bool(
            last,
        )),
        *last_logged matches Some(SignalValue::Enum(last)) ==> (r <==> !(value@
            matches ValueModel::Enum(new) && new == last@)),
        *last_logged matches Some(SignalValue::Num(last)) ==> (r <==> (*value matches
            SignalValue::Num(new) ==> deadband.less(new.difference(last).absolute()))),
{
    match last_logged {
        None => true,
        Some(last) => match (last, value) {
            (SignalValue::Num(last), SignalValue::Num(new)) => deadband.is_less_than(
                new.minus(*last).abs(),
            ),
            (last, new) => !last.equals(new),
        },
    }
}

pub open spec fn saturating_sum(a: u64, b: u64) -> u64 {
    if a + b > u64::MAX {
        u64::MAX
    } else {
        (a + b) as u64
    }
}

/// When a periodic rule is due after it was due at `due`: one interval later,
/// or one interval from now where that has passed too.
pub open spec fn slot_after(due: u64, interval_ms: u64, now: u64) -> u64 {
    if saturating_sum(due, interval_ms) > now {
        saturating_sum(due, interval_ms)
    } else {
        saturating_sum(now, interval_ms)
    }
}

/// When a periodic rule is due next. Keeps a steady cadence; slots that were
/// missed are skipped rather than made up for.
pub fn next_slot(due: u64, interval_ms: u64, now: u64) -> (r: u64)
    ensures
        r == slot_after(due, interval_ms, now),
{
    let next: u64 = due.saturating_add(interval_ms);
    if next > now {
        next
    } else {
        now.saturating_add(interval_ms)
    }
}

/// What a rule that is to log comes to.
pub enum Reaction {
    Logged,
    Suppressed,
    Failed(EvalFault),
}

/// What a rule's condition makes of it.
pub open spec fn reaction(rule: CompiledModel, values: Map<Seq<char>, SignalValue>) -> Reaction {
    match rule.condition {
        None => Reaction::Logged,
        Some(c) => match c.value(values) {
            Ok(b) => if b {
                Reaction::Logged
            } else {
                Reaction::Suppressed
            },
            Err(fault) => Reaction::Failed(fault),
        },
    }
}

/// The content of an [`Engine`].
#[verifier::ext_equal]
pub struct EngineModel {
    pub vin: Seq<char>,
    pub model: Seq<char>,
    pub rules: CompiledSetModel,
    /// Latest value of each signal, by name.
    pub values: Map<Seq<char>, SignalValue>,
    /// When that value was taken and received.
    pub arrivals: Map<Seq<char>, Arrival>,
    /// What each rule remembers, by rule id.
    pub state: Map<Seq<char>, RuleState>,
}

/// What is left to report and to remember in the middle of a step.
#[verifier::ext_equal]
pub struct Progress {
    pub state: Map<Seq<char>, RuleState>,
    pub report: ReportModel,
}

impl EngineModel {
    /// What holds of every engine: its rules can be run together; it remembers
    /// something for each of them and for nothing else; exactly the periodic
    /// ones have a time at which they are due; and what is known of a value
    /// includes when it came.
    pub open spec fn sound(self) -> bool {
        &&& all_runnable(self.rules.rules)
        &&& forall|id: Seq<char>| #[trigger]
            self.state.contains_key(id) <==> has_rule(self.rules.rules, id)
        &&& forall|i: int|
            0 <= i < self.rules.rules.len() ==> {
                let rule = #[trigger] self.rules.rules[i];
                self.state[rule.def.id].next_due_ms is Some <==> rule.behaviour is Periodic
            }
        &&& forall|name: Seq<char>| #[trigger]
            self.values.contains_key(name) <==> self.arrivals.contains_key(name)
    }

    /// The record that a rule logs.
    pub open spec fn record(self, rule: CompiledModel, ts_us: u64, value: ValueModel) -> RecordModel {
        RecordModel {
            ts_us,
            vin: self.vin,
            model: self.model,
            rule_id: rule.def.id,
            ruleset_version: self.rules.version,
            signal: rule.def.signal,
            value,
            unit: rule.unit,
        }
    }

    /// A rule whose turn it is logs `value`, if its condition lets it.
    pub open spec fn logs(
        self,
        rule: CompiledModel,
        ts_us: u64,
        value: SignalValue,
        so_far: Progress,
    ) -> Progress {
        match reaction(rule, self.values) {
            Reaction::Logged => Progress {
                state: so_far.state.insert(
                    rule.def.id,
                    RuleState {
                        last_logged: Some(value),
                        next_due_ms: so_far.state[rule.def.id].next_due_ms,
                    },
                ),
                report: so_far.report.with_record(self.record(rule, ts_us, value@)),
            },
            Reaction::Suppressed => so_far,
            Reaction::Failed(fault) => Progress {
                state: so_far.state,
                report: so_far.report.with_error(rule.def.id, fault),
            },
        }
    }

    /// A sample has arrived.
    pub open spec fn received(self, sample: Sample, now: u64) -> EngineModel {
        EngineModel {
            values: self.values.insert(sample.name@, sample.value),
            arrivals: self.arrivals.insert(
                sample.name@,
                Arrival { timestamp_us: sample.timestamp_us, received_ms: now },
            ),
            ..self
        }
    }

    /// What a rule does when a sample has arrived.
    pub open spec fn sampled(self, rule: CompiledModel, sample: Sample, so_far: Progress) -> Progress {
        match rule.behaviour {
            Behaviour::OnChange { deadband } => if rule.def.signal == sample.name@
                && so_far.state.contains_key(rule.def.id) && is_change(
                so_far.state[rule.def.id].last_logged,
                sample.value@,
                deadband,
            ) {
                self.logs(rule, sample.timestamp_us, sample.value, so_far)
            } else {
                so_far
            },
            Behaviour::Periodic { .. } => so_far,
        }
    }

    /// What the first `n` rules do when a sample has arrived.
    pub open spec fn sampled_by(self, n: nat, sample: Sample) -> Progress
        decreases n,
    {
        if n == 0 {
            Progress { state: self.state, report: ReportModel::nothing() }
        } else {
            self.sampled(
                self.rules.rules[n - 1],
                sample,
                self.sampled_by((n - 1) as nat, sample),
            )
        }
    }

    /// The engine after a sample, and what it reports.
    pub open spec fn after_sample(self, sample: Sample, now: u64) -> (EngineModel, ReportModel) {
        let engine = self.received(sample, now);
        let progress = engine.sampled_by(engine.rules.rules.len(), sample);
        (EngineModel { state: progress.state, ..engine }, progress.report)
    }

    /// Whether a rule's turn has come.
    pub open spec fn is_due(self, rule: CompiledModel, now: u64, so_far: Progress) -> bool {
        &&& rule.behaviour is Periodic
        &&& so_far.state.contains_key(rule.def.id)
        &&& so_far.state[rule.def.id].next_due_ms matches Some(due) && due <= now
    }

    /// What a rule does on a tick of the clock.
    pub open spec fn ticked(self, rule: CompiledModel, now: u64, so_far: Progress) -> Progress {
        match rule.behaviour {
            Behaviour::Periodic { interval_ms, max_age_ms } => if self.is_due(rule, now, so_far) {
                let state = so_far.state[rule.def.id];
                let rescheduled = Progress {
                    state: so_far.state.insert(
                        rule.def.id,
                        RuleState {
                            last_logged: state.last_logged,
                            next_due_ms: Some(slot_after(state.next_due_ms->0, interval_ms, now)),
                        },
                    ),
                    report: so_far.report,
                };
                let name = rule.def.signal;
                if !self.values.contains_key(name) || !self.arrivals.contains_key(name) {
                    rescheduled
                } else if now - self.arrivals[name].received_ms > max_age_ms {
                    Progress {
                        state: rescheduled.state,
                        report: so_far.report.with_stale(rule.def.id),
                    }
                } else {
                    self.logs(
                        rule,
                        self.arrivals[name].timestamp_us,
                        self.values[name],
                        rescheduled,
                    )
                }
            } else {
                so_far
            },
            Behaviour::OnChange { .. } => so_far,
        }
    }

    /// What the first `n` rules do on a tick of the clock.
    pub open spec fn ticked_by(self, n: nat, now: u64) -> Progress
        decreases n,
    {
        if n == 0 {
            Progress { state: self.state, report: ReportModel::nothing() }
        } else {
            self.ticked(self.rules.rules[n - 1], now, self.ticked_by((n - 1) as nat, now))
        }
    }

    /// The engine after a tick, and what it reports.
    pub open spec fn after_tick(self, now: u64) -> (EngineModel, ReportModel) {
        let progress = self.ticked_by(self.rules.rules.len(), now);
        (EngineModel { state: progress.state, ..self }, progress.report)
    }
}

/// Whether a set holds a rule with an id.
pub open spec fn has_rule(rules: Seq<CompiledModel>, id: Seq<char>) -> bool {
    exists|i: int| 0 <= i < rules.len() && (#[trigger] rules[i]).def.id == id
}

/// The rule with an id.
pub open spec fn rule_with(rules: Seq<CompiledModel>, id: Seq<char>) -> CompiledModel {
    rules[choose|i: int| 0 <= i < rules.len() && (#[trigger] rules[i]).def.id == id]
}

/// What a rule remembers at the start: nothing logged, and a periodic rule is
/// due one interval from now.
pub open spec fn fresh_state(rule: CompiledModel, now: u64) -> RuleState {
    RuleState {
        last_logged: None,
        next_due_ms: match rule.behaviour {
            Behaviour::Periodic { interval_ms, .. } => Some(saturating_sum(now, interval_ms)),
            Behaviour::OnChange { .. } => None,
        },
    }
}

impl EngineModel {
    /// Whether a rule keeps what it remembers: the active set has the same rule.
    pub open spec fn keeps(self, rule: CompiledModel) -> bool {
        &&& has_rule(self.rules.rules, rule.def.id)
        &&& rule_with(self.rules.rules, rule.def.id).def.same(rule.def)
        &&& self.state.contains_key(rule.def.id)
    }

    /// What a rule of a new set remembers.
    pub open spec fn carried_over(self, rule: CompiledModel, now: u64) -> RuleState {
        if self.keeps(rule) {
            self.state[rule.def.id]
        } else {
            fresh_state(rule, now)
        }
    }

    /// The engine after it has been given a new rule set.
    pub open spec fn after_swap(self, rules: CompiledSetModel, now: u64) -> EngineModel {
        EngineModel {
            rules,
            state: Map::new(
                |id: Seq<char>| has_rule(rules.rules, id),
                |id: Seq<char>| self.carried_over(rule_with(rules.rules, id), now),
            ),
            ..self
        }
    }
}

/// Evaluates rules against the latest signal values.
pub struct Engine<C: Clock> {
    clock: C,
    vin: String,
    model: String,
    rules: Arc<CompiledRuleSet>,
    values: TextMap<SignalValue>,
    arrivals: TextMap<Arrival>,
    state: TextMap<RuleState>,
}

impl<C: Clock> View for Engine<C> {
    type V = EngineModel;

    closed spec fn view(&self) -> EngineModel {
        EngineModel {
            vin: self.vin@,
            model: self.model@,
            rules: (*self.rules)@,
            values: self.values@,
            arrivals: self.arrivals@,
            state: self.state@,
        }
    }
}

impl<C: Clock> Engine<C> {
    /// The clock that the engine reads.
    pub closed spec fn clock(self) -> C {
        self.clock
    }
}

fn clone_logged(value: &Option<SignalValue>) -> (r: Option<SignalValue>)
    ensures
        r == *value,
{
    match value {
        Some(v) => Some(v.clone()),
        None => None,
    }
}

impl<C: Clock> Engine<C> {
    /// Creates an engine with the empty rule set.
    pub fn new(clock: C, vin: &str, model: &str) -> (r: Engine<C>)
        ensures
            r@.vin == vin@,
            r@.model == model@,
            r@.rules.version == 0,
            r@.rules.model == crate::ruleset::ANY_MODEL@,
            r@.rules.rules.len() == 0,
            r@.values == Map::<Seq<char>, SignalValue>::empty(),
            r@.arrivals == Map::<Seq<char>, Arrival>::empty(),
            r@.state == Map::<Seq<char>, RuleState>::empty(),
            r@.sound(),
            r.clock() == clock,
    {
        Engine {
            clock,
            vin: vin.to_owned(),
            model: model.to_owned(),
            rules: Arc::new(CompiledRuleSet::empty()),
            values: TextMap::new(),
            arrivals: TextMap::new(),
            state: TextMap::new(),
        }
    }

    pub fn ruleset(&self) -> (r: &Arc<CompiledRuleSet>)
        ensures
            (**r)@ == self@.rules,
    {
        &self.rules
    }

    /// Earliest time (clock ms) at which [`Engine::tick`] has work to do.
    pub fn next_deadline_ms(&self) -> (r: Option<u64>)
        ensures
            match r {
                None => forall|id: Seq<char>| #[trigger]
                    self@.state.contains_key(id) ==> self@.state[id].next_due_ms is None,
                Some(due) => {
                    &&& exists|id: Seq<char>| #[trigger]
                        self@.state.contains_key(id) && self@.state[id].next_due_ms == Some(due)
                    &&& forall|id: Seq<char>| #[trigger]
                        self@.state.contains_key(id) ==> (self@.state[id].next_due_ms matches Some(
                            d,
                        ) ==> due <= d)
                },
            },
    {
        let n: usize = self.state.len();
        let ghost keys = self.state.keys();
        let mut earliest: Option<u64> = None;
        let mut i: usize = 0;
        while i < n
            invariant
                i <= n,
                keys == self.state.keys(),
                n == keys.len(),
                forall|key: Seq<char>| #[trigger]
                    self.state@.contains_key(key) <==> keys.contains(key),
                match earliest {
                    None => forall|j: int|
                        0 <= j < i ==> self.state@[#[trigger] keys[j]].next_due_ms is None,
                    Some(due) => {
                        &&& exists|j: int|
                            0 <= j < i && self.state@[#[trigger] keys[j]].next_due_ms == Some(due)
                        &&& forall|j: int|
                            0 <= j < i ==> (self.state@[#[trigger] keys[j]].next_due_ms matches Some(
                                d,
                            ) ==> due <= d)
                    },
                },
            decreases n - i,
        {
            let state: &RuleState = self.state.value_at(i);
            if let Some(due) = state.next_due_ms {
                earliest = match earliest {
                    Some(e) => {
                        if e <= due {
                            Some(e)
                        } else {
                            assert(self.state@[keys[i as int]].next_due_ms == Some(due));
                            Some(due)
                        }
                    },
                    None => {
                        assert(self.state@[keys[i as int]].next_due_ms == Some(due));
                        Some(due)
                    },
                };
            }
            i = i + 1;
        }
        proof {
            if let Some(due) = earliest {
                let j = choose|j: int|
                    0 <= j < n && self.state@[#[trigger] keys[j]].next_due_ms == Some(due);
                assert(keys.contains(keys[j]));
                assert(self@.state.contains_key(keys[j]));
            }
            assert forall|id: Seq<char>| #[trigger] self@.state.contains_key(id) implies exists|j: int|
                0 <= j < n && #[trigger] keys[j] == id by {
                assert(keys.contains(id));
            }
        }
        earliest
    }
}

/// Asks a rule's condition; an error counts as `false` and is reported.
fn condition_passes(
    rule: &CompiledRule,
    values: &TextMap<SignalValue>,
    report: &mut EvalReport,
) -> (r: bool)
    ensures
        final(report).records == old(report).records,
        match reaction(rule@, values@) {
            Reaction::Logged => r && final(report)@ == old(report)@,
            Reaction::Suppressed => !r && final(report)@ == old(report)@,
            Reaction::Failed(fault) => !r && final(report)@ == old(report)@.with_error(
                rule@.def.id,
                fault,
            ),
        },
{
    match rule.condition() {
        None => true,
        Some(condition) => match condition.evaluate(values) {
            Ok(pass) => pass,
            Err(e) => {
                report.add_error(rule.id(), e);
                false
            },
        },
    }
}

impl<C: Clock> Engine<C> {
    fn record(&self, rule: &CompiledRule, ts_us: u64, value: SignalValue) -> (r: LogRecord)
        ensures
            r@ == self@.record(rule@, ts_us, value@),
            r.ts_us == ts_us,
            r.vin@ == self@.vin,
            r.model@ == self@.model,
            r.rule_id@ == rule@.def.id,
            r.ruleset_version == self@.rules.version,
            r.signal@ == rule@.def.signal,
            r.value == value,
            text_option(r.unit) == rule@.unit,
    {
        LogRecord {
            ts_us,
            vin: self.vin.clone(),
            model: self.model.clone(),
            rule_id: rule.id().to_owned(),
            ruleset_version: self.rules.version(),
            signal: rule.def().signal.clone(),
            value,
            unit: match rule.unit() {
                Some(u) => Some(u.clone()),
                None => None,
            },
        }
    }

    /// Records a decoded sample, received now, then evaluates `on_change` rules
    /// for it.
    pub fn on_sample_at(&mut self, sample: &Sample, now: u64) -> (report: EvalReport)
        ensures
            (final(self)@, report@) == old(self)@.after_sample(*sample, now),
            forall|k: int|
                0 <= k < report.records@.len() ==> {
                    let record = #[trigger] report.records@[k];
                    &&& record.ts_us == sample.timestamp_us
                    &&& record.vin@ == old(self)@.vin
                    &&& record.model@ == old(self)@.model
                    &&& record.ruleset_version == old(self)@.rules.version
                    &&& record.signal@ == sample.name@
                    &&& record.value == sample.value
                },
            old(self)@.sound() ==> final(self)@.sound(),
            final(self).clock() == old(self).clock(),
    {
        let mut report: EvalReport = EvalReport::default();
        self.values.insert(sample.name.clone(), sample.value.clone());
        self.arrivals.insert(
            sample.name.clone(),
            Arrival { timestamp_us: sample.timestamp_us, received_ms: now },
        );
        let ghost engine = old(self)@.received(*sample, now);
        assert(self@ == engine);
        let n: usize = self.rules.rules().len();
        let mut i: usize = 0;
        while i < n
            invariant
                i <= n,
                n == engine.rules.rules.len(),
                self.clock() == old(self).clock(),
                engine == old(self)@.received(*sample, now),
                self@ == (EngineModel { state: self@.state, ..engine }),
                engine.sampled_by(i as nat, *sample) == (Progress {
                    state: self@.state,
                    report: report@,
                }),
                forall|k: int|
                    0 <= k < report.records@.len() ==> {
                        let record = #[trigger] report.records@[k];
                        &&& record.ts_us == sample.timestamp_us
                        &&& record.vin@ == engine.vin
                        &&& record.model@ == engine.model
                        &&& record.ruleset_version == engine.rules.version
                        &&& record.signal@ == sample.name@
                        &&& record.value == sample.value
                    },
            decreases n - i,
        {
            let rule: &CompiledRule = &self.rules.rules()[i];
            let ghost so_far = engine.sampled_by(i as nat, *sample);
            assert(rule@ == engine.rules.rules[i as int]);
            if let Behaviour::OnChange { deadband } = rule.behaviour() {
                if same_text(rule.def().signal.as_str(), sample.name.as_str()) {
                    let found: Option<(bool, Option<u64>)> = match self.state.get(rule.id()) {
                        Some(state) => Some(
                            (
                                has_changed(&state.last_logged, &sample.value, deadband),
                                state.next_due_ms,
                            ),
                        ),
                        None => None,
                    };
                    if let Some((changed, next_due_ms)) = found {
                        if changed && condition_passes(rule, &self.values, &mut report) {
                            let record: LogRecord = self.record(
                                rule,
                                sample.timestamp_us,
                                sample.value.clone(),
                            );
                            report.add_record(record);
                            self.state.insert(
                                rule.id().to_owned(),
                                RuleState { last_logged: Some(sample.value.clone()), next_due_ms },
                            );
                        }
                    }
                }
            }
            i = i + 1;
        }
        proof {
            if old(self)@.sound() {
                law_sample_keeps_soundness(old(self)@, *sample, now);
            }
        }
        report
    }

    /// Fires every `periodic` rule that is due now.
    pub fn tick_at(&mut self, now: u64) -> (report: EvalReport)
        ensures
            (final(self)@, report@) == old(self)@.after_tick(now),
            forall|k: int|
                0 <= k < report.records@.len() ==> {
                    let record = #[trigger] report.records@[k];
                    &&& record.vin@ == old(self)@.vin
                    &&& record.model@ == old(self)@.model
                    &&& record.ruleset_version == old(self)@.rules.version
                    &&& old(self)@.values.contains_key(record.signal@)
                    &&& record.ts_us == old(self)@.arrivals[record.signal@].timestamp_us
                    &&& record.value == old(self)@.values[record.signal@]
                },
            old(self)@.sound() ==> final(self)@.sound(),
            final(self).clock() == old(self).clock(),
    {
        let mut report: EvalReport = EvalReport::default();
        let ghost engine = self@;
        let n: usize = self.rules.rules().len();
        let mut i: usize = 0;
        while i < n
            invariant
                i <= n,
                n == engine.rules.rules.len(),
                self.clock() == old(self).clock(),
                engine == old(self)@,
                self@ == (EngineModel { state: self@.state, ..engine }),
                engine.ticked_by(i as nat, now) == (Progress {
                    state: self@.state,
                    report: report@,
                }),
                forall|k: int|
                    0 <= k < report.records@.len() ==> {
                        let record = #[trigger] report.records@[k];
                        &&& record.vin@ == engine.vin
                        &&& record.model@ == engine.model
                        &&& record.ruleset_version == engine.rules.version
                        &&& engine.values.contains_key(record.signal@)
                        &&& record.ts_us == engine.arrivals[record.signal@].timestamp_us
                        &&& record.value == engine.values[record.signal@]
                    },
            decreases n - i,
        {
            let rule: &CompiledRule = &self.rules.rules()[i];
            assert(rule@ == engine.rules.rules[i as int]);
            if let Behaviour::Periodic { interval_ms, max_age_ms } = rule.behaviour() {
                let found: Option<(u64, Option<SignalValue>)> = match self.state.get(rule.id()) {
                    Some(state) => match state.next_due_ms {
                        Some(due) => if due <= now {
                            Some((due, clone_logged(&state.last_logged)))
                        } else {
                            None
                        },
                        None => None,
                    },
                    None => None,
                };
                if let Some((due, last_logged)) = found {
                    let next: u64 = next_slot(due, interval_ms, now);
                    let signal: &str = rule.def().signal.as_str();
                    let latest: Option<(SignalValue, Arrival)> = match (
                        self.values.get(signal),
                        self.arrivals.get(signal),
                    ) {
                        (Some(value), Some(arrival)) => Some((value.clone(), *arrival)),
                        _ => None,
                    };
                    let mut logged: Option<SignalValue> = last_logged;
                    if let Some((value, arrival)) = latest {
                        if now > arrival.received_ms && now - arrival.received_ms > max_age_ms {
                            report.add_stale(rule.id());
                        } else if condition_passes(rule, &self.values, &mut report) {
                            let record: LogRecord = self.record(
                                rule,
                                arrival.timestamp_us,
                                value.clone(),
                            );
                            report.add_record(record);
                            logged = Some(value);
                        }
                    }
                    let ghost before = self.state@;
                    self.state.insert(
                        rule.id().to_owned(),
                        RuleState { last_logged: logged, next_due_ms: Some(next) },
                    );
                    proof {
                        let so_far = engine.ticked_by(i as nat, now);
                        let done = engine.ticked(rule@, now, so_far);
                        assert(done.state =~= self.state@);
                    }
                }
            }
            i = i + 1;
        }
        proof {
            if old(self)@.sound() {
                law_tick_keeps_soundness(old(self)@, now);
            }
        }
        report
    }

    /// What a rule of a new set remembers.
    fn carry_over(&self, rule: &CompiledRule, now: u64) -> (r: RuleState)
        ensures
            r == self@.carried_over(rule@, now),
    {
        let rules: &[CompiledRule] = self.rules.rules();
        let ghost models = self@.rules.rules;
        let mut i: usize = 0;
        while i < rules.len()
            invariant
                i <= rules@.len(),
                models == compiled_models(rules@),
                models == self@.rules.rules,
                distinct_ids(models),
                forall|j: int| 0 <= j < i ==> (#[trigger] models[j]).def.id != rule@.def.id,
            decreases rules@.len() - i,
        {
            let old_rule: &CompiledRule = &rules[i];
            assert(models[i as int] == old_rule@);
            if same_text(old_rule.id(), rule.id()) {
                proof {
                    lemma_rule_with(models, i as int);
                }
                if old_rule.def().equals(rule.def()) {
                    if let Some(state) = self.state.get(rule.id()) {
                        return RuleState {
                            last_logged: clone_logged(&state.last_logged),
                            next_due_ms: state.next_due_ms,
                        };
                    }
                }
                return fresh(rule, now);
            }
            i = i + 1;
        }
        fresh(rule, now)
    }

    /// Swaps in a new rule set, now. Runtime state (last logged value, periodic
    /// timer) is kept for rules whose definition is unchanged, reset for new
    /// or modified rules, and dropped for removed rules.
    pub fn apply_ruleset_at(&mut self, new: Arc<CompiledRuleSet>, now: u64)
        ensures
            final(self)@ == old(self)@.after_swap((*new)@, now),
            old(self)@.sound() ==> final(self)@.sound(),
            final(self).clock() == old(self).clock(),
    {
        let rules: &[CompiledRule] = new.rules();
        let ghost models = (*new)@.rules;
        let mut state: TextMap<RuleState> = TextMap::new();
        let mut i: usize = 0;
        while i < rules.len()
            invariant
                i <= rules@.len(),
                models == compiled_models(rules@),
                models == (*new)@.rules,
                distinct_ids(models),
                self@ == old(self)@,
                forall|id: Seq<char>| #[trigger]
                    state@.contains_key(id) <==> has_rule(models.take(i as int), id),
                forall|j: int|
                    0 <= j < i ==> state@[(#[trigger] models[j]).def.id] == self@.carried_over(
                        models[j],
                        now,
                    ),
            decreases rules@.len() - i,
        {
            let rule: &CompiledRule = &rules[i];
            assert(models[i as int] == rule@);
            let ghost before = state@;
            state.insert(rule.id().to_owned(), self.carry_over(rule, now));
            proof {
                lemma_has_rule_grows(models, i as int);
            }
            i = i + 1;
        }
        proof {
            assert(models.take(i as int) =~= models);
            let after = old(self)@.after_swap((*new)@, now);
            assert forall|id: Seq<char>| has_rule(models, id) implies state@[id]
                == after.state[id] by {
                let j = choose|j: int|
                    0 <= j < models.len() && (#[trigger] models[j]).def.id == id;
                lemma_rule_with(models, j);
                assert(state@[models[j].def.id] == old(self)@.carried_over(models[j], now));
            }
            assert(state@ =~= after.state);
            if old(self)@.sound() {
                law_swap_keeps_soundness(old(self)@, (*new)@, now);
            }
        }
        self.state = state;
        self.rules = new;
    }

    /// Records a decoded sample, then evaluates `on_change` rules for it. The
    /// clock says when the sample was received.
    pub fn on_sample(&mut self, sample: &Sample) -> (report: EvalReport)
        ensures
            exists|now: u64|
                old(self).clock().may_read(now) && (final(self)@, report@)
                    == #[trigger] old(self)@.after_sample(*sample, now),
            old(self)@.sound() ==> final(self)@.sound(),
            final(self).clock() == old(self).clock(),
    {
        let now: u64 = self.clock.now_ms();
        self.on_sample_at(sample, now)
    }

    /// Fires every `periodic` rule that is due by the clock.
    pub fn tick(&mut self) -> (report: EvalReport)
        ensures
            exists|now: u64|
                old(self).clock().may_read(now) && (final(self)@, report@)
                    == #[trigger] old(self)@.after_tick(now),
            old(self)@.sound() ==> final(self)@.sound(),
            final(self).clock() == old(self).clock(),
    {
        let now: u64 = self.clock.now_ms();
        self.tick_at(now)
    }

    /// Swaps in a new rule set, at the time that the clock gives.
    pub fn apply_ruleset(&mut self, new: Arc<CompiledRuleSet>)
        ensures
            exists|now: u64|
                old(self).clock().may_read(now) && final(self)@
                    == #[trigger] old(self)@.after_swap((*new)@, now),
            old(self)@.sound() ==> final(self)@.sound(),
            final(self).clock() == old(self).clock(),
    {
        let now: u64 = self.clock.now_ms();
        self.apply_ruleset_at(new, now);
    }
}

fn fresh(rule: &CompiledRule, now: u64) -> (r: RuleState)
    ensures
        r == fresh_state(rule@, now),
{
    RuleState {
        last_logged: None,
        next_due_ms: match rule.behaviour() {
            Behaviour::Periodic { interval_ms, .. } => Some(now.saturating_add(interval_ms)),
            Behaviour::OnChange { .. } => None,
        },
    }
}

/// A rule is found by its id.
pub proof fn lemma_rule_with(rules: Seq<CompiledModel>, i: int)
    requires
        distinct_ids(rules),
        0 <= i < rules.len(),
    ensures
        has_rule(rules, rules[i].def.id),
        rule_with(rules, rules[i].def.id) == rules[i],
{
    let id = rules[i].def.id;
    let j = choose|j: int| 0 <= j < rules.len() && (#[trigger] rules[j]).def.id == id;
    assert(rules[i].def.id == id);
    if i < j {
        assert(rules[i].def.id != rules[j].def.id);
    } else if j < i {
        assert(rules[j].def.id != rules[i].def.id);
    }
}

proof fn lemma_has_rule_grows(rules: Seq<CompiledModel>, i: int)
    requires
        0 <= i < rules.len(),
    ensures
        forall|id: Seq<char>| #[trigger]
            has_rule(rules.take(i + 1), id) <==> id == rules[i].def.id || has_rule(
                rules.take(i),
                id,
            ),
{
    let (less, more) = (rules.take(i), rules.take(i + 1));
    assert forall|id: Seq<char>| #[trigger]
        has_rule(more, id) <==> id == rules[i].def.id || has_rule(less, id) by {
        if has_rule(less, id) {
            let j = choose|j: int| 0 <= j < less.len() && (#[trigger] less[j]).def.id == id;
            assert(more[j].def.id == id);
        }
        assert(more[i] == rules[i]);
        if has_rule(more, id) {
            let j = choose|j: int| 0 <= j < more.len() && (#[trigger] more[j]).def.id == id;
            if j < i {
                assert(less[j].def.id == id);
            }
        }
    }
}

} // verus!
