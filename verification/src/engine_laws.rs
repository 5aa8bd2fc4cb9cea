//! What holds of the engine whatever rules and samples it is given.

use crate::compile::{all_runnable, distinct_ids, Behaviour, CompiledModel, CompiledSetModel};
use crate::condition::EvalFault;
use crate::double::{
    law_order_is_value_order, lemma_round_at_most_infinite, magnitude_of, magnitude_units, Double,
};
use crate::engine::{
    has_rule, is_change, lemma_rule_with, reaction, rule_with, slot_after, EngineModel, Progress,
    Reaction, RecordModel, ReportModel, RuleState,
};
use crate::precision::{lemma_exact_is_kept, lemma_sign_and_magnitude, lemma_signed};
use crate::rounding::{lemma_round_magnitude_monotonic, round_magnitude};
use crate::value::{SignalValue, ValueModel};
use crate::wire::Sample;
use vstd::arithmetic::power2::lemma2_to64_rest;
use vstd::prelude::*;

verus! {

/// A step in which no rule has had its turn yet.
pub open spec fn untouched(engine: EngineModel) -> Progress {
    Progress { state: engine.state, report: ReportModel::nothing() }
}

/// Two maps agree on a key.
pub open spec fn agree(
    a: Map<Seq<char>, RuleState>,
    b: Map<Seq<char>, RuleState>,
    id: Seq<char>,
) -> bool {
    a.contains_key(id) == b.contains_key(id) && (a.contains_key(id) ==> a[id] == b[id])
}

proof fn lemma_sampled_by(engine: EngineModel, n: nat, sample: Sample, id: Seq<char>)
    requires
        n <= engine.rules.rules.len(),
        distinct_ids(engine.rules.rules),
    ensures
        !has_rule(engine.rules.rules.take(n as int), id) ==> agree(
            engine.sampled_by(n, sample).state,
            engine.state,
            id,
        ),
        forall|i: int|
            0 <= i < n && (#[trigger] engine.rules.rules[i]).def.id == id ==> agree(
                engine.sampled_by(n, sample).state,
                engine.sampled(engine.rules.rules[i], sample, untouched(engine)).state,
                id,
            ),
    decreases n,
{
    let rules = engine.rules.rules;
    if n > 0 {
        let m = (n - 1) as nat;
        lemma_sampled_by(engine, m, sample, id);
        let less = rules.take(m as int);
        let more = rules.take(n as int);
        assert(more[m as int] == rules[m as int]);
        assert(forall|j: int| 0 <= j < m ==> #[trigger] more[j] == less[j] && less[j] == rules[j]);
        if has_rule(less, id) {
            let j = choose|j: int| 0 <= j < less.len() && (#[trigger] less[j]).def.id == id;
            assert(more[j].def.id == id);
            assert(rules[j].def.id != rules[m as int].def.id);
        }
        assert(rules[m as int].def.id == id ==> !has_rule(less, id));
        assert forall|i: int| 0 <= i < n && (#[trigger] rules[i]).def.id == id implies agree(
            engine.sampled_by(n, sample).state,
            engine.sampled(rules[i], sample, untouched(engine)).state,
            id,
        ) by {
            if i < m {
                assert(rules[i].def.id != rules[m as int].def.id);
            }
        }
    } else {
        assert(rules.take(0) =~= Seq::<CompiledModel>::empty());
    }
}

proof fn lemma_ticked_by(engine: EngineModel, n: nat, now: u64, id: Seq<char>)
    requires
        n <= engine.rules.rules.len(),
        distinct_ids(engine.rules.rules),
    ensures
        !has_rule(engine.rules.rules.take(n as int), id) ==> agree(
            engine.ticked_by(n, now).state,
            engine.state,
            id,
        ),
        forall|i: int|
            0 <= i < n && (#[trigger] engine.rules.rules[i]).def.id == id ==> agree(
                engine.ticked_by(n, now).state,
                engine.ticked(engine.rules.rules[i], now, untouched(engine)).state,
                id,
            ),
    decreases n,
{
    let rules = engine.rules.rules;
    if n > 0 {
        let m = (n - 1) as nat;
        lemma_ticked_by(engine, m, now, id);
        let less = rules.take(m as int);
        let more = rules.take(n as int);
        assert(more[m as int] == rules[m as int]);
        assert(forall|j: int| 0 <= j < m ==> #[trigger] more[j] == less[j] && less[j] == rules[j]);
        if has_rule(less, id) {
            let j = choose|j: int| 0 <= j < less.len() && (#[trigger] less[j]).def.id == id;
            assert(more[j].def.id == id);
            assert(rules[j].def.id != rules[m as int].def.id);
        }
        assert(rules[m as int].def.id == id ==> !has_rule(less, id));
        assert forall|i: int| 0 <= i < n && (#[trigger] rules[i]).def.id == id implies agree(
            engine.ticked_by(n, now).state,
            engine.ticked(rules[i], now, untouched(engine)).state,
            id,
        ) by {
            if i < m {
                assert(rules[i].def.id != rules[m as int].def.id);
            }
        }
    } else {
        assert(rules.take(0) =~= Seq::<CompiledModel>::empty());
    }
}

/// Rules do not disturb each other: what a rule remembers after a sample, or
/// after a tick, is what it would remember if it were the only rule.
pub proof fn law_rules_act_on_their_own(engine: EngineModel, sample: Sample, now: u64, i: int)
    requires
        distinct_ids(engine.rules.rules),
        0 <= i < engine.rules.rules.len(),
    ensures
        ({
            let rule = engine.rules.rules[i];
            let received = engine.received(sample, now);
            &&& agree(
                engine.after_sample(sample, now).0.state,
                received.sampled(rule, sample, untouched(received)).state,
                rule.def.id,
            )
            &&& agree(
                engine.after_tick(now).0.state,
                engine.ticked(rule, now, untouched(engine)).state,
                rule.def.id,
            )
        }),
{
    let received = engine.received(sample, now);
    let id = engine.rules.rules[i].def.id;
    lemma_sampled_by(received, engine.rules.rules.len(), sample, id);
    lemma_ticked_by(engine, engine.rules.rules.len(), now, id);
}

/// A sample becomes the latest value of its signal and of no other, before any
/// rule is asked; a tick changes no value.
pub proof fn law_latest_values(engine: EngineModel, sample: Sample, now: u64, name: Seq<char>)
    ensures
        ({
            let after = engine.after_sample(sample, now).0;
            &&& after.values.contains_key(sample.name@) && after.values[sample.name@]
                == sample.value
            &&& name != sample.name@ ==> after.values.contains_key(name)
                == engine.values.contains_key(name) && (engine.values.contains_key(name)
                ==> after.values[name] == engine.values[name])
            &&& engine.after_tick(now).0.values == engine.values
            &&& engine.after_tick(now).0.arrivals == engine.arrivals
        }),
{
}

/// A rule that logs a sample remembers its value; one that does not, because
/// its value is too close to the last logged one or because its condition
/// stops it, remembers what it did before.
pub proof fn law_last_logged(engine: EngineModel, sample: Sample, now: u64, i: int)
    requires
        engine.sound(),
        0 <= i < engine.rules.rules.len(),
    ensures
        ({
            let rule = engine.rules.rules[i];
            let before = engine.state[rule.def.id];
            let after = engine.after_sample(sample, now).0.state[rule.def.id];
            let logs = rule.def.signal == sample.name@ && reaction(
                rule,
                engine.received(sample, now).values,
            ) is Logged && match rule.behaviour {
                Behaviour::OnChange { deadband } => is_change(
                    before.last_logged,
                    sample.value@,
                    deadband,
                ),
                Behaviour::Periodic { .. } => false,
            };
            &&& after.next_due_ms == before.next_due_ms
            &&& after.last_logged == if logs {
                Some(sample.value)
            } else {
                before.last_logged
            }
        }),
{
    lemma_has_each(engine.rules.rules, i);
    assert(engine.state.contains_key(engine.rules.rules[i].def.id));
    law_rules_act_on_their_own(engine, sample, now, i);
}

/// Whether a record is what a rule logs of the latest value of its signal, with
/// its condition's consent.
pub open spec fn is_record_of(
    engine: EngineModel,
    record: RecordModel,
    rule: CompiledModel,
) -> bool {
    let name = rule.def.signal;
    &&& engine.values.contains_key(name)
    &&& record == engine.record(
        rule,
        engine.arrivals[name].timestamp_us,
        engine.values[name]@,
    )
    &&& reaction(rule, engine.values) is Logged
}

/// Whether a record is what some rule logs of the latest value of its signal.
pub open spec fn explained(engine: EngineModel, record: RecordModel) -> bool {
    exists|i: int|
        0 <= i < engine.rules.rules.len() && is_record_of(
            engine,
            record,
            #[trigger] engine.rules.rules[i],
        )
}

proof fn lemma_sampled_records(engine: EngineModel, n: nat, sample: Sample)
    requires
        n <= engine.rules.rules.len(),
        engine.values.contains_key(sample.name@),
        engine.values[sample.name@] == sample.value,
        engine.arrivals[sample.name@].timestamp_us == sample.timestamp_us,
    ensures
        forall|k: int|
            0 <= k < engine.sampled_by(n, sample).report.records.len() ==> explained(
                engine,
                #[trigger] engine.sampled_by(n, sample).report.records[k],
            ),
    decreases n,
{
    if n > 0 {
        lemma_sampled_records(engine, (n - 1) as nat, sample);
        let before = engine.sampled_by((n - 1) as nat, sample).report.records;
        let after = engine.sampled_by(n, sample).report.records;
        let rule = engine.rules.rules[n - 1];
        assert forall|k: int| 0 <= k < after.len() implies explained(engine, #[trigger] after[k]) by {
            if k < before.len() {
                assert(after[k] == before[k]);
            } else {
                assert(is_record_of(engine, after[k], rule));
            }
        }
    }
}

proof fn lemma_ticked_records(engine: EngineModel, n: nat, now: u64)
    requires
        n <= engine.rules.rules.len(),
    ensures
        forall|k: int|
            0 <= k < engine.ticked_by(n, now).report.records.len() ==> explained(
                engine,
                #[trigger] engine.ticked_by(n, now).report.records[k],
            ),
    decreases n,
{
    if n > 0 {
        lemma_ticked_records(engine, (n - 1) as nat, now);
        let before = engine.ticked_by((n - 1) as nat, now).report.records;
        let after = engine.ticked_by(n, now).report.records;
        let rule = engine.rules.rules[n - 1];
        assert forall|k: int| 0 <= k < after.len() implies explained(engine, #[trigger] after[k]) by {
            if k < before.len() {
                assert(after[k] == before[k]);
            } else {
                assert(is_record_of(engine, after[k], rule));
            }
        }
    }
}

/// Whatever is logged is the latest value of a rule's signal, with the
/// vehicle's timestamp, name and model, under the active version, and with the
/// consent of the rule's condition.
pub proof fn law_records_are_latest_values(
    engine: EngineModel,
    sample: Sample,
    now: u64,
    record: RecordModel,
)
    ensures
        engine.after_sample(sample, now).1.records.contains(record) ==> explained(
            engine.received(sample, now),
            record,
        ) && record.value == sample.value@ && record.ts_us == sample.timestamp_us,
        engine.after_tick(now).1.records.contains(record) ==> explained(engine, record),
{
    let n = engine.rules.rules.len();
    lemma_sampled_records(engine.received(sample, now), n, sample);
    lemma_sampled_values(engine.received(sample, now), n, sample);
    lemma_ticked_records(engine, n, now);
}

proof fn lemma_sampled_values(engine: EngineModel, n: nat, sample: Sample)
    requires
        n <= engine.rules.rules.len(),
    ensures
        forall|k: int|
            0 <= k < engine.sampled_by(n, sample).report.records.len() ==> {
                let record = #[trigger] engine.sampled_by(n, sample).report.records[k];
                record.value == sample.value@ && record.ts_us == sample.timestamp_us
            },
    decreases n,
{
    if n > 0 {
        lemma_sampled_values(engine, (n - 1) as nat, sample);
    }
}

/// A value is no change from itself, whatever the deadband.
pub proof fn law_same_value_is_no_change(value: SignalValue, deadband: Double)
    requires
        deadband.finite(),
        !deadband.less(Double { bits: 0 }),
        value@ matches ValueModel::Num(v) ==> v.finite(),
    ensures
        !is_change(Some(value), value@, deadband),
{
    if let ValueModel::Num(v) = value@ {
        lemma_sign_and_magnitude(v);
        lemma_signed(!v.negative(), v.magnitude());
        let d = v.difference(v);
        assert(v.opposite().units() == -v.units());
        lemma_signed(v.negative() && v.opposite().negative(), 0);
        assert(d.zero());
        lemma_signed(false, 0);
        assert(d.absolute().order_key() == 0);
        assert(deadband.order_key() >= 0);
    }
}

/// From the earliest deadline on a tick has work to do: a rule is due, and is
/// put off until later.
pub proof fn law_late_tick_has_work(engine: EngineModel, id: Seq<char>, now: u64)
    requires
        engine.sound(),
        engine.state.contains_key(id),
        engine.state[id].next_due_ms matches Some(due) && due <= now,
        now < u64::MAX,
    ensures
        exists|i: int|
            0 <= i < engine.rules.rules.len() && (#[trigger] engine.rules.rules[i]).def.id == id
                && engine.is_due(engine.rules.rules[i], now, untouched(engine)),
        engine.after_tick(now).0.state[id].next_due_ms matches Some(next) && next > now,
{
    let rules = engine.rules.rules;
    assert(has_rule(rules, id));
    let i = choose|i: int| 0 <= i < rules.len() && (#[trigger] rules[i]).def.id == id;
    lemma_ticked_by(engine, rules.len(), now, id);
    if let Behaviour::Periodic { interval_ms, max_age_ms } = rules[i].behaviour {
        law_next_slot_is_later(engine.state[id].next_due_ms->0, interval_ms, now);
    }
}

/// Until the earliest deadline a tick does nothing.
pub proof fn law_early_tick_does_nothing(engine: EngineModel, now: u64)
    requires
        forall|id: Seq<char>| #[trigger]
            engine.state.contains_key(id) ==> (engine.state[id].next_due_ms matches Some(due)
                ==> now < due),
    ensures
        engine.after_tick(now) == (engine, ReportModel::nothing()),
{
    lemma_nothing_due(engine, engine.rules.rules.len(), now);
}

proof fn lemma_nothing_due(engine: EngineModel, n: nat, now: u64)
    requires
        n <= engine.rules.rules.len(),
        forall|i: int|
            0 <= i < engine.rules.rules.len() ==> !engine.is_due(
                #[trigger] engine.rules.rules[i],
                now,
                untouched(engine),
            ),
    ensures
        engine.ticked_by(n, now) == untouched(engine),
    decreases n,
{
    if n > 0 {
        lemma_nothing_due(engine, (n - 1) as nat, now);
        assert(!engine.is_due(engine.rules.rules[n - 1], now, untouched(engine)));
    }
}

/// A due rule's next turn comes after now, so that slots that were missed are
/// skipped; it is at most one interval away from now or from the slot before.
pub proof fn law_next_slot_is_later(due: u64, interval_ms: u64, now: u64)
    requires
        due <= now,
        0 < interval_ms,
        now < u64::MAX,
    ensures
        now < slot_after(due, interval_ms, now) <= now + interval_ms,
        due + interval_ms > now && due + interval_ms <= u64::MAX ==> slot_after(
            due,
            interval_ms,
            now,
        ) == due + interval_ms,
{
}

/// A second tick at the same time does nothing: there is no burst.
pub proof fn law_second_tick_does_nothing(engine: EngineModel, now: u64)
    requires
        engine.sound(),
        now < u64::MAX,
    ensures
        ({
            let after = engine.after_tick(now).0;
            after.after_tick(now) == (after, ReportModel::nothing())
        }),
{
    let after = engine.after_tick(now).0;
    let rules = engine.rules.rules;
    assert forall|i: int| 0 <= i < after.rules.rules.len() implies !after.is_due(
        #[trigger] after.rules.rules[i],
        now,
        untouched(after),
    ) by {
        let rule = rules[i];
        lemma_ticked_by(engine, rules.len(), now, rule.def.id);
        if let Behaviour::Periodic { interval_ms, max_age_ms } = rule.behaviour {
            if engine.is_due(rule, now, untouched(engine)) {
                law_next_slot_is_later(
                    engine.state[rule.def.id].next_due_ms->0,
                    interval_ms,
                    now,
                );
            }
        }
    }
    lemma_nothing_due(after, rules.len(), now);
}

/// A swap keeps what an unchanged rule remembers, starts a new or modified rule
/// afresh, drops what a removed rule remembered, and leaves every signal value
/// as it was.
pub proof fn law_swap(engine: EngineModel, new: CompiledSetModel, now: u64, id: Seq<char>)
    requires
        engine.sound(),
        all_runnable(new.rules),
    ensures
        ({
            let after = engine.after_swap(new, now);
            &&& after.values == engine.values
            &&& after.arrivals == engine.arrivals
            &&& after.state.contains_key(id) <==> has_rule(new.rules, id)
            &&& forall|i: int|
                0 <= i < new.rules.len() && (#[trigger] new.rules[i]).def.id == id
                    ==> after.state[id] == if engine.keeps(new.rules[i]) {
                    engine.state[id]
                } else {
                    crate::engine::fresh_state(new.rules[i], now)
                }
        }),
{
    assert forall|i: int| 0 <= i < new.rules.len() && (#[trigger] new.rules[i]).def.id
        == id implies rule_with(new.rules, id) == new.rules[i] by {
        lemma_rule_with(new.rules, i);
    }
}

/// Swapping in the rules that are already active changes nothing.
pub proof fn law_swap_to_the_same_rules(engine: EngineModel, now: u64)
    requires
        engine.sound(),
    ensures
        engine.after_swap(engine.rules, now) == engine,
{
    let rules = engine.rules.rules;
    let after = engine.after_swap(engine.rules, now);
    assert forall|id: Seq<char>| has_rule(rules, id) implies after.state[id]
        == engine.state[id] by {
        let i = choose|i: int| 0 <= i < rules.len() && (#[trigger] rules[i]).def.id == id;
        lemma_rule_with(rules, i);
        assert(rules[i].def.same(rules[i].def));
    }
    assert(after.state =~= engine.state);
}

proof fn lemma_has_each(rules: Seq<CompiledModel>, i: int)
    requires
        0 <= i < rules.len(),
    ensures
        has_rule(rules, rules[i].def.id),
{
}

/// An engine is sound after a sample if it was before.
pub proof fn law_sample_keeps_soundness(engine: EngineModel, sample: Sample, now: u64)
    requires
        engine.sound(),
    ensures
        engine.after_sample(sample, now).0.sound(),
{
    let rules = engine.rules.rules;
    let received = engine.received(sample, now);
    let after = engine.after_sample(sample, now).0;
    assert(rules.take(rules.len() as int) =~= rules);
    assert forall|id: Seq<char>| #[trigger]
        after.state.contains_key(id) <==> has_rule(rules, id) by {
        assert(engine.state.contains_key(id) <==> has_rule(rules, id));
        lemma_sampled_by(received, rules.len(), sample, id);
    }
    assert forall|i: int| 0 <= i < rules.len() implies {
        let rule = #[trigger] rules[i];
        after.state[rule.def.id].next_due_ms is Some <==> rule.behaviour is Periodic
    } by {
        lemma_has_each(rules, i);
        assert(engine.state.contains_key(rules[i].def.id));
        law_rules_act_on_their_own(engine, sample, now, i);
    }
    assert forall|name: Seq<char>| #[trigger]
        after.values.contains_key(name) <==> after.arrivals.contains_key(name) by {
        assert(engine.values.contains_key(name) <==> engine.arrivals.contains_key(name));
    }
}

/// An engine is sound after a tick if it was before.
pub proof fn law_tick_keeps_soundness(engine: EngineModel, now: u64)
    requires
        engine.sound(),
    ensures
        engine.after_tick(now).0.sound(),
{
    let rules = engine.rules.rules;
    let after = engine.after_tick(now).0;
    assert(rules.take(rules.len() as int) =~= rules);
    assert forall|id: Seq<char>| #[trigger]
        after.state.contains_key(id) <==> has_rule(rules, id) by {
        assert(engine.state.contains_key(id) <==> has_rule(rules, id));
        lemma_ticked_by(engine, rules.len(), now, id);
    }
    assert forall|i: int| 0 <= i < rules.len() implies {
        let rule = #[trigger] rules[i];
        after.state[rule.def.id].next_due_ms is Some <==> rule.behaviour is Periodic
    } by {
        lemma_has_each(rules, i);
        assert(engine.state.contains_key(rules[i].def.id));
        lemma_ticked_by(engine, rules.len(), now, rules[i].def.id);
    }
}

/// An engine is sound after a swap to rules that can be run if it was before.
pub proof fn law_swap_keeps_soundness(engine: EngineModel, new: CompiledSetModel, now: u64)
    requires
        engine.sound(),
        all_runnable(new.rules),
    ensures
        engine.after_swap(new, now).sound(),
{
    let after = engine.after_swap(new, now);
    assert forall|i: int| 0 <= i < new.rules.len() implies {
        let rule = #[trigger] new.rules[i];
        after.state[rule.def.id].next_due_ms is Some <==> rule.behaviour is Periodic
    } by {
        let rule = new.rules[i];
        law_swap(engine, new, now, rule.def.id);
        if engine.keeps(rule) {
            let j = choose|j: int|
                0 <= j < engine.rules.rules.len() && (
                #[trigger] engine.rules.rules[j]).def.id == rule.def.id;
            lemma_rule_with(engine.rules.rules, j);
        }
    }
}

/// A value is to be logged where nothing has been logged yet, where it is of
/// another kind than the last logged one, where a bool or a label differs from
/// it, and where a number is further from it than the deadband.
pub proof fn law_what_is_a_change(last: SignalValue, new: SignalValue, deadband: Double)
    ensures
        is_change(None, new@, deadband),
        is_change(Some(last), new@, deadband) <==> match (last, new) {
            (SignalValue::Bool(a), SignalValue::Bool(b)) => a != b,
            (SignalValue::Enum(a), SignalValue::Enum(b)) => a@ != b@,
            (SignalValue::Num(a), SignalValue::Num(b)) => {
                let distance = b.difference(a);
                !deadband.nan() && !distance.nan() && deadband.order_key() < distance.magnitude()
            },
            _ => true,
        },
{
    if let (SignalValue::Num(a), SignalValue::Num(b)) = (last, new) {
        let distance = b.difference(a);
        lemma_sign_and_magnitude(distance);
        lemma_signed(false, distance.magnitude());
    }
}

/// Whether bools and labels differ does not depend on which came first.
pub proof fn law_change_is_mutual(a: SignalValue, b: SignalValue, deadband: Double)
    requires
        !(a is Num),
    ensures
        is_change(Some(a), b@, deadband) == is_change(Some(b), a@, deadband),
        is_change(Some(a), b@, deadband) <==> a@ != b@,
{
}

/// A number that is not further from the last logged one than the deadband is no
/// change; one whose distance is exact is, exactly where it is further.
pub proof fn law_change_of_a_number(last: Double, new: Double, deadband: Double)
    requires
        last.finite(),
        new.finite(),
        deadband.finite(),
        deadband.order_key() >= 0,
    ensures
        ({
            let distance = magnitude_of(new.units() - last.units());
            let changes = is_change(
                Some(SignalValue::Num(last)),
                ValueModel::Num(new),
                deadband,
            );
            &&& distance <= deadband.units() ==> !changes
            &&& new.difference(last).finite() && magnitude_of(new.difference(last).units())
                == distance ==> (changes <==> distance > deadband.units())
        }),
{
    let d = new.difference(last);
    let distance = magnitude_of(new.units() - last.units());
    lemma_sign_and_magnitude(last);
    lemma_sign_and_magnitude(new);
    lemma_sign_and_magnitude(deadband);
    lemma_signed(!last.negative(), last.magnitude());
    lemma_sign_and_magnitude(last.opposite());
    assert(last.opposite().units() == -last.units());
    let total = new.units() - last.units();
    lemma_sign_and_magnitude(d);
    lemma_signed(false, d.magnitude());
    if distance <= deadband.units() {
        if total != 0 {
            lemma_round_magnitude_monotonic(
                distance,
                deadband.units() as nat,
                1,
                52,
                2047,
            );
            lemma2_to64_rest();
            lemma_exact_is_kept(deadband.magnitude(), 1, 52, 2047);
            assert(magnitude_units(deadband.magnitude(), 52) * 1 == deadband.units());
            lemma_round_at_most_infinite(distance, 1);
            lemma_signed(total < 0, round_magnitude(distance, 1, 52, 2047));
        } else {
            lemma_signed(new.negative() && last.opposite().negative(), 0);
        }
    }
    if d.finite() {
        law_order_is_value_order(deadband, d.absolute());
    }
}

/// Every record of a sample bears the vehicle's name and model, the active
/// version, the sample's signal, timestamp and value, and the id and unit of an
/// `on_change` rule of the active set for that signal.
pub proof fn law_records_of_a_sample(engine: EngineModel, sample: Sample, now: u64, k: int)
    requires
        0 <= k < engine.after_sample(sample, now).1.records.len(),
    ensures
        ({
            let record = engine.after_sample(sample, now).1.records[k];
            &&& record.vin == engine.vin
            &&& record.model == engine.model
            &&& record.ruleset_version == engine.rules.version
            &&& record.signal == sample.name@
            &&& record.ts_us == sample.timestamp_us
            &&& record.value == sample.value@
            &&& exists|i: int|
                0 <= i < engine.rules.rules.len() && {
                    let rule = #[trigger] engine.rules.rules[i];
                    &&& rule.behaviour is OnChange
                    &&& record.rule_id == rule.def.id
                    &&& record.signal == rule.def.signal
                    &&& record.unit == rule.unit
                }
        }),
{
    lemma_records_of_a_sample(engine.received(sample, now), engine.rules.rules.len(), sample);
}

proof fn lemma_records_of_a_sample(engine: EngineModel, n: nat, sample: Sample)
    requires
        n <= engine.rules.rules.len(),
    ensures
        forall|k: int|
            0 <= k < engine.sampled_by(n, sample).report.records.len() ==> {
                let record = #[trigger] engine.sampled_by(n, sample).report.records[k];
                &&& record.vin == engine.vin
                &&& record.model == engine.model
                &&& record.ruleset_version == engine.rules.version
                &&& record.signal == sample.name@
                &&& record.ts_us == sample.timestamp_us
                &&& record.value == sample.value@
                &&& exists|i: int|
                    0 <= i < n && {
                        let rule = #[trigger] engine.rules.rules[i];
                        &&& rule.behaviour is OnChange
                        &&& record.rule_id == rule.def.id
                        &&& record.signal == rule.def.signal
                        &&& record.unit == rule.unit
                    }
            },
    decreases n,
{
    if n > 0 {
        lemma_records_of_a_sample(engine, (n - 1) as nat, sample);
        let before = engine.sampled_by((n - 1) as nat, sample).report.records;
        let after = engine.sampled_by(n, sample).report.records;
        let rule = engine.rules.rules[n - 1];
        assert forall|k: int| 0 <= k < after.len() implies {
            let record = #[trigger] after[k];
            &&& record.vin == engine.vin
            &&& record.model == engine.model
            &&& record.ruleset_version == engine.rules.version
            &&& record.signal == sample.name@
            &&& record.ts_us == sample.timestamp_us
            &&& record.value == sample.value@
            &&& exists|i: int|
                0 <= i < n && {
                    let rule = #[trigger] engine.rules.rules[i];
                    &&& rule.behaviour is OnChange
                    &&& record.rule_id == rule.def.id
                    &&& record.signal == rule.def.signal
                    &&& record.unit == rule.unit
                }
        } by {
            if k < before.len() {
                assert(after[k] == before[k]);
            }
        }
    }
}

/// Every record of a tick bears the vehicle's name and model, the active
/// version, the id and unit of a `periodic` rule of the active set, and the
/// latest value of that rule's signal with its timestamp, no older than the rule
/// allows.
pub proof fn law_records_of_a_tick(engine: EngineModel, now: u64, k: int)
    requires
        0 <= k < engine.after_tick(now).1.records.len(),
    ensures
        ({
            let record = engine.after_tick(now).1.records[k];
            &&& record.vin == engine.vin
            &&& record.model == engine.model
            &&& record.ruleset_version == engine.rules.version
            &&& engine.values.contains_key(record.signal)
            &&& record.ts_us == engine.arrivals[record.signal].timestamp_us
            &&& record.value == engine.values[record.signal]@
            &&& exists|i: int|
                0 <= i < engine.rules.rules.len() && {
                    let rule = #[trigger] engine.rules.rules[i];
                    &&& record.rule_id == rule.def.id
                    &&& record.signal == rule.def.signal
                    &&& record.unit == rule.unit
                    &&& rule.behaviour matches Behaviour::Periodic { interval_ms, max_age_ms }
                        && now - engine.arrivals[record.signal].received_ms <= max_age_ms
                }
        }),
{
    lemma_records_of_a_tick(engine, engine.rules.rules.len(), now);
}

proof fn lemma_records_of_a_tick(engine: EngineModel, n: nat, now: u64)
    requires
        n <= engine.rules.rules.len(),
    ensures
        forall|k: int|
            0 <= k < engine.ticked_by(n, now).report.records.len() ==> {
                let record = #[trigger] engine.ticked_by(n, now).report.records[k];
                &&& record.vin == engine.vin
                &&& record.model == engine.model
                &&& record.ruleset_version == engine.rules.version
                &&& engine.values.contains_key(record.signal)
                &&& record.ts_us == engine.arrivals[record.signal].timestamp_us
                &&& record.value == engine.values[record.signal]@
                &&& exists|i: int|
                    0 <= i < n && {
                        let rule = #[trigger] engine.rules.rules[i];
                        &&& record.rule_id == rule.def.id
                        &&& record.signal == rule.def.signal
                        &&& record.unit == rule.unit
                        &&& rule.behaviour matches Behaviour::Periodic { interval_ms, max_age_ms }
                            && now - engine.arrivals[record.signal].received_ms <= max_age_ms
                    }
            },
    decreases n,
{
    if n > 0 {
        lemma_records_of_a_tick(engine, (n - 1) as nat, now);
        let before = engine.ticked_by((n - 1) as nat, now).report.records;
        let after = engine.ticked_by(n, now).report.records;
        let rule = engine.rules.rules[n - 1];
        assert forall|k: int| 0 <= k < after.len() implies {
            let record = #[trigger] after[k];
            &&& record.vin == engine.vin
            &&& record.model == engine.model
            &&& record.ruleset_version == engine.rules.version
            &&& engine.values.contains_key(record.signal)
            &&& record.ts_us == engine.arrivals[record.signal].timestamp_us
            &&& record.value == engine.values[record.signal]@
            &&& exists|i: int|
                0 <= i < n && {
                    let rule = #[trigger] engine.rules.rules[i];
                    &&& record.rule_id == rule.def.id
                    &&& record.signal == rule.def.signal
                    &&& record.unit == rule.unit
                    &&& rule.behaviour matches Behaviour::Periodic { interval_ms, max_age_ms }
                        && now - engine.arrivals[record.signal].received_ms <= max_age_ms
                }
        } by {
            if k < before.len() {
                assert(after[k] == before[k]);
            }
        }
    }
}

/// Whether a report holds a record of a rule.
pub open spec fn has_record(report: ReportModel, id: Seq<char>) -> bool {
    exists|k: int| 0 <= k < report.records.len() && (#[trigger] report.records[k]).rule_id == id
}

/// Whether a report holds an evaluation error of a rule.
pub open spec fn has_error(report: ReportModel, id: Seq<char>, fault: EvalFault) -> bool {
    exists|k: int|
        0 <= k < report.eval_errors.len() && #[trigger] report.eval_errors[k] == (id, fault)
}

/// Whether a report says that a rule was skipped for a stale value.
pub open spec fn has_stale(report: ReportModel, id: Seq<char>) -> bool {
    exists|k: int| 0 <= k < report.stale_skips.len() && #[trigger] report.stale_skips[k] == id
}

/// How often a report names a rule in a record.
pub open spec fn times_logged(records: Seq<RecordModel>, id: Seq<char>) -> nat
    decreases records.len(),
{
    if records.len() == 0 {
        0
    } else {
        times_logged(records.drop_last(), id) + if records.last().rule_id == id {
            1nat
        } else {
            0
        }
    }
}

/// What is added to a report is said of one rule and leaves the rest as it was.
proof fn lemma_report_grows(
    report: ReportModel,
    record: RecordModel,
    rule: Seq<char>,
    fault: EvalFault,
    id: Seq<char>,
    f: EvalFault,
)
    ensures
        has_record(report.with_record(record), id) <==> has_record(report, id) || record.rule_id
            == id,
        has_error(report.with_record(record), id, f) == has_error(report, id, f),
        has_stale(report.with_record(record), id) == has_stale(report, id),
        has_error(report.with_error(rule, fault), id, f) <==> has_error(report, id, f) || (rule
            == id && fault == f),
        has_record(report.with_error(rule, fault), id) == has_record(report, id),
        has_stale(report.with_error(rule, fault), id) == has_stale(report, id),
        has_stale(report.with_stale(rule), id) <==> has_stale(report, id) || rule == id,
        has_record(report.with_stale(rule), id) == has_record(report, id),
        has_error(report.with_stale(rule), id, f) == has_error(report, id, f),
        times_logged(report.with_record(record).records, id) == times_logged(report.records, id)
            + if record.rule_id == id {
            1nat
        } else {
            0
        },
{
    let more = report.with_record(record);
    let n = report.records.len() as int;
    assert(more.eval_errors == report.eval_errors);
    assert(more.stale_skips == report.stale_skips);
    assert(has_error(more, id, f) == has_error(report, id, f));
    assert(has_stale(more, id) == has_stale(report, id));
    assert(more.records.drop_last() =~= report.records);
    assert(more.records[n] == record);
    assert(forall|k: int| 0 <= k < n ==> #[trigger] more.records[k] == report.records[k]);
    if has_record(report, id) {
        let k = choose|k: int| 0 <= k < n && (#[trigger] report.records[k]).rule_id == id;
        assert(more.records[k].rule_id == id);
    }
    if has_record(more, id) {
        let k = choose|k: int|
            0 <= k < more.records.len() && (#[trigger] more.records[k]).rule_id == id;
        if k < n {
            assert(report.records[k].rule_id == id);
        }
    }
    let failed = report.with_error(rule, fault);
    assert(failed.records == report.records);
    assert(failed.stale_skips == report.stale_skips);
    assert(has_stale(failed, id) == has_stale(report, id));
    let m = report.eval_errors.len() as int;
    assert(failed.eval_errors[m] == (rule, fault));
    assert(forall|k: int| 0 <= k < m ==> #[trigger] failed.eval_errors[k] == report.eval_errors[k]);
    if has_error(report, id, f) {
        let k = choose|k: int| 0 <= k < m && #[trigger] report.eval_errors[k] == (id, f);
        assert(failed.eval_errors[k] == (id, f));
    }
    if has_error(failed, id, f) {
        let k = choose|k: int|
            0 <= k < failed.eval_errors.len() && #[trigger] failed.eval_errors[k] == (id, f);
        if k < m {
            assert(report.eval_errors[k] == (id, f));
        }
    }
    let stale = report.with_stale(rule);
    assert(stale.eval_errors == report.eval_errors);
    assert(has_error(stale, id, f) == has_error(report, id, f));
    let q = report.stale_skips.len() as int;
    assert(stale.stale_skips[q] == rule);
    assert(forall|k: int| 0 <= k < q ==> #[trigger] stale.stale_skips[k] == report.stale_skips[k]);
    if has_stale(report, id) {
        let k = choose|k: int| 0 <= k < q && #[trigger] report.stale_skips[k] == id;
        assert(stale.stale_skips[k] == id);
    }
    if has_stale(stale, id) {
        let k = choose|k: int|
            0 <= k < stale.stale_skips.len() && #[trigger] stale.stale_skips[k] == id;
        if k < q {
            assert(report.stale_skips[k] == id);
        }
    }
}

/// Whether two reports say the same of a rule.
pub open spec fn same_news(a: ReportModel, b: ReportModel, id: Seq<char>) -> bool {
    &&& has_record(a, id) == has_record(b, id)
    &&& has_stale(a, id) == has_stale(b, id)
    &&& forall|f: EvalFault| #[trigger] has_error(a, id, f) == has_error(b, id, f)
    &&& times_logged(a.records, id) == times_logged(b.records, id)
}

/// A rule adds its own news to a report and leaves the others' as they were.
proof fn lemma_own_news(
    before: ReportModel,
    after: ReportModel,
    rule: Seq<char>,
    record: RecordModel,
    fault: EvalFault,
    id: Seq<char>,
)
    requires
        record.rule_id == rule,
        after == before || after == before.with_record(record) || after == before.with_error(
            rule,
            fault,
        ) || after == before.with_stale(rule),
        rule != id,
    ensures
        same_news(after, before, id),
{
    assert forall|f: EvalFault| #[trigger]
        has_error(after, id, f) == has_error(before, id, f) by {
        lemma_report_grows(before, record, rule, fault, id, f);
    }
    lemma_report_grows(before, record, rule, fault, id, fault);
}

/// Adding the same news to two reports that said the same keeps them so.
proof fn lemma_equal_news(
    a: ReportModel,
    b: ReportModel,
    after_a: ReportModel,
    after_b: ReportModel,
    record: RecordModel,
    fault: EvalFault,
    id: Seq<char>,
)
    requires
        same_news(a, b, id),
        record.rule_id == id,
        (after_a == a && after_b == b) || (after_a == a.with_record(record) && after_b
            == b.with_record(record)) || (after_a == a.with_error(id, fault) && after_b
            == b.with_error(id, fault)) || (after_a == a.with_stale(id) && after_b
            == b.with_stale(id)),
    ensures
        same_news(after_a, after_b, id),
{
    assert forall|f: EvalFault| #[trigger]
        has_error(after_a, id, f) == has_error(after_b, id, f) by {
        assert(has_error(a, id, f) == has_error(b, id, f));
        lemma_report_grows(a, record, id, fault, id, f);
        lemma_report_grows(b, record, id, fault, id, f);
    }
    lemma_report_grows(a, record, id, fault, id, fault);
    lemma_report_grows(b, record, id, fault, id, fault);
}

proof fn lemma_news_of_a_sample(engine: EngineModel, n: nat, sample: Sample, i: int)
    requires
        n <= engine.rules.rules.len(),
        distinct_ids(engine.rules.rules),
        0 <= i < engine.rules.rules.len(),
    ensures
        ({
            let rule = engine.rules.rules[i];
            same_news(
                engine.sampled_by(n, sample).report,
                if i < n {
                    engine.sampled(rule, sample, untouched(engine)).report
                } else {
                    ReportModel::nothing()
                },
                rule.def.id,
            )
        }),
    decreases n,
{
    let rules = engine.rules.rules;
    if n > 0 {
        let m = (n - 1) as nat;
        let id = rules[i].def.id;
        lemma_news_of_a_sample(engine, m, sample, i);
        let so_far = engine.sampled_by(m, sample);
        let turn = rules[m as int];
        let record = engine.record(turn, sample.timestamp_us, sample.value@);
        let fault = match reaction(turn, engine.values) {
            Reaction::Failed(f) => f,
            _ => EvalFault::NotBool(Seq::empty()),
        };
        if i == m {
            assert(!has_rule(rules.take(m as int), id)) by {
                if has_rule(rules.take(m as int), id) {
                    let j = choose|j: int|
                        0 <= j < m && (#[trigger] rules.take(m as int)[j]).def.id == id;
                    assert(rules[j].def.id == rules[i].def.id);
                }
            }
            lemma_sampled_by(engine, m, sample, id);
            lemma_equal_news(
                so_far.report,
                ReportModel::nothing(),
                engine.sampled_by(n, sample).report,
                engine.sampled(turn, sample, untouched(engine)).report,
                record,
                fault,
                id,
            );
        } else {
            assert(turn.def.id != id) by {
                if i < m {
                    assert(rules[i].def.id != rules[m as int].def.id);
                } else {
                    assert(rules[m as int].def.id != rules[i].def.id);
                }
            }
            lemma_own_news(
                so_far.report,
                engine.sampled_by(n, sample).report,
                turn.def.id,
                record,
                fault,
                id,
            );
        }
    }
}

proof fn lemma_news_of_a_tick(engine: EngineModel, n: nat, now: u64, i: int)
    requires
        n <= engine.rules.rules.len(),
        distinct_ids(engine.rules.rules),
        0 <= i < engine.rules.rules.len(),
    ensures
        ({
            let rule = engine.rules.rules[i];
            same_news(
                engine.ticked_by(n, now).report,
                if i < n {
                    engine.ticked(rule, now, untouched(engine)).report
                } else {
                    ReportModel::nothing()
                },
                rule.def.id,
            )
        }),
    decreases n,
{
    let rules = engine.rules.rules;
    if n > 0 {
        let m = (n - 1) as nat;
        let id = rules[i].def.id;
        lemma_news_of_a_tick(engine, m, now, i);
        let so_far = engine.ticked_by(m, now);
        let turn = rules[m as int];
        let name = turn.def.signal;
        let record = engine.record(
            turn,
            engine.arrivals[name].timestamp_us,
            engine.values[name]@,
        );
        let fault = match reaction(turn, engine.values) {
            Reaction::Failed(f) => f,
            _ => EvalFault::NotBool(Seq::empty()),
        };
        if i == m {
            assert(!has_rule(rules.take(m as int), id)) by {
                if has_rule(rules.take(m as int), id) {
                    let j = choose|j: int|
                        0 <= j < m && (#[trigger] rules.take(m as int)[j]).def.id == id;
                    assert(rules[j].def.id == rules[i].def.id);
                }
            }
            lemma_ticked_by(engine, m, now, id);
            lemma_equal_news(
                so_far.report,
                ReportModel::nothing(),
                engine.ticked_by(n, now).report,
                engine.ticked(turn, now, untouched(engine)).report,
                record,
                fault,
                id,
            );
        } else {
            assert(turn.def.id != id) by {
                if i < m {
                    assert(rules[i].def.id != rules[m as int].def.id);
                } else {
                    assert(rules[m as int].def.id != rules[i].def.id);
                }
            }
            lemma_own_news(
                so_far.report,
                engine.ticked_by(n, now).report,
                turn.def.id,
                record,
                fault,
                id,
            );
        }
    }
}

/// On a sample a rule logs, once, exactly where it is an `on_change` rule for the
/// sample's signal, the value differs from the last logged one as its definition
/// asks, and its condition is missing or true of the latest values, the sample's
/// among them. Where the condition fails it is reported instead. Only a rule
/// that logs remembers the value, and no timer moves.
pub proof fn law_sample_of_a_rule(engine: EngineModel, sample: Sample, now: u64, i: int)
    requires
        engine.sound(),
        0 <= i < engine.rules.rules.len(),
    ensures
        ({
            let rule = engine.rules.rules[i];
            let id = rule.def.id;
            let before = engine.state[id];
            let (after, report) = engine.after_sample(sample, now);
            let latest = engine.values.insert(sample.name@, sample.value);
            let changed = match (before.last_logged, sample.value) {
                (None, _) => true,
                (Some(SignalValue::Bool(a)), SignalValue::Bool(b)) => a != b,
                (Some(SignalValue::Enum(a)), SignalValue::Enum(b)) => a@ != b@,
                (Some(SignalValue::Num(a)), SignalValue::Num(b)) => {
                    &&& !b.difference(a).nan()
                    &&& b.difference(a).magnitude() > match rule.def.deadband {
                        Some(d) => d.order_key(),
                        None => 0,
                    }
                },
                _ => true,
            };
            let asked = rule.def.mode is OnChange && rule.def.signal == sample.name@ && changed;
            let verdict = match rule.condition {
                None => Ok::<bool, EvalFault>(true),
                Some(c) => c.value(latest),
            };
            let logs = asked && verdict == Ok::<bool, EvalFault>(true);
            &&& has_record(report, id) <==> logs
            &&& times_logged(report.records, id) <= 1
            &&& forall|fault: EvalFault| #[trigger]
                has_error(report, id, fault) <==> asked && verdict == Err::<bool, EvalFault>(fault)
            &&& !has_stale(report, id)
            &&& after.state[id].next_due_ms == before.next_due_ms
            &&& after.state[id].last_logged == if logs {
                Some(sample.value)
            } else {
                before.last_logged
            }
        }),
{
    let rule = engine.rules.rules[i];
    let id = rule.def.id;
    let n = engine.rules.rules.len();
    let received = engine.received(sample, now);
    lemma_has_each(engine.rules.rules, i);
    assert(engine.state.contains_key(id));
    lemma_news_of_a_sample(received, n, sample, i);
    law_rules_act_on_their_own(engine, sample, now, i);
    let own = received.sampled(rule, sample, untouched(received)).report;
    let empty = ReportModel::nothing();
    let record = received.record(rule, sample.timestamp_us, sample.value@);
    assert forall|fault: EvalFault| #[trigger] has_error(own, id, fault) <==> own
        == empty.with_error(id, fault) by {
        let f = match reaction(rule, received.values) {
            Reaction::Failed(f) => f,
            _ => fault,
        };
        lemma_report_grows(empty, record, id, f, id, fault);
        assert(empty.with_error(id, fault).eval_errors.last() == (id, fault));
        assert(empty.with_error(id, f).eval_errors.last() == (id, f));
        assert(empty.with_error(id, fault).eval_errors.len() == 1);
        assert(!has_error(empty, id, fault));
    }
    let f = match reaction(rule, received.values) {
        Reaction::Failed(f) => f,
        _ => EvalFault::NotBool(Seq::empty()),
    };
    lemma_report_grows(empty, record, id, f, id, f);
    if let Some(last) = engine.state[id].last_logged {
        match rule.behaviour {
            Behaviour::OnChange { deadband } => {
                law_what_is_a_change(last, sample.value, deadband);
            },
            _ => {},
        }
    }
}

/// On a tick a rule logs, once, exactly where it is a `periodic` rule that is
/// due, its signal has a value no older than its age limit (three intervals where
/// it states none), and its condition is missing or true of the latest values. An
/// older value is reported as stale, a condition that fails as an error. A due
/// rule is due again one interval after it was due, or one from now where that
/// has passed.
pub proof fn law_tick_of_a_rule(engine: EngineModel, now: u64, i: int)
    requires
        engine.sound(),
        0 <= i < engine.rules.rules.len(),
    ensures
        ({
            let rule = engine.rules.rules[i];
            let id = rule.def.id;
            let name = rule.def.signal;
            let before = engine.state[id];
            let (after, report) = engine.after_tick(now);
            let due = rule.def.mode is Periodic && before.next_due_ms->0 <= now;
            let known = engine.values.contains_key(name);
            let interval = rule.def.interval_ms->0 as int;
            let limit = match rule.def.max_age_ms {
                Some(age) => age as int,
                None => 3 * interval,
            };
            let age = now - engine.arrivals[name].received_ms;
            let old = age > limit && age > 0;
            let verdict = match rule.condition {
                None => Ok::<bool, EvalFault>(true),
                Some(c) => c.value(engine.values),
            };
            let logs = due && known && !old && verdict == Ok::<bool, EvalFault>(true);
            &&& has_record(report, id) <==> logs
            &&& times_logged(report.records, id) <= 1
            &&& has_stale(report, id) <==> due && known && old
            &&& forall|fault: EvalFault| #[trigger]
                has_error(report, id, fault) <==> due && known && !old && verdict == Err::<
                    bool,
                    EvalFault,
                >(fault)
            &&& after.state[id].last_logged == if logs {
                Some(engine.values[name])
            } else {
                before.last_logged
            }
            &&& !due ==> after.state[id].next_due_ms == before.next_due_ms
            &&& due ==> {
                let next = before.next_due_ms->0 + interval;
                let from_now = now + interval;
                after.state[id].next_due_ms == Some(
                    if next > u64::MAX && now < u64::MAX {
                        u64::MAX
                    } else if next > now && next <= u64::MAX {
                        next as u64
                    } else if from_now > u64::MAX {
                        u64::MAX
                    } else {
                        from_now as u64
                    },
                )
            }
        }),
{
    let rule = engine.rules.rules[i];
    let id = rule.def.id;
    let name = rule.def.signal;
    let n = engine.rules.rules.len();
    lemma_has_each(engine.rules.rules, i);
    assert(engine.state.contains_key(id));
    assert(engine.values.contains_key(name) <==> engine.arrivals.contains_key(name));
    lemma_news_of_a_tick(engine, n, now, i);
    lemma_ticked_by(engine, n, now, id);
    let own = engine.ticked(rule, now, untouched(engine)).report;
    let empty = ReportModel::nothing();
    let record = engine.record(rule, engine.arrivals[name].timestamp_us, engine.values[name]@);
    assert forall|fault: EvalFault| #[trigger] has_error(own, id, fault) <==> own
        == empty.with_error(id, fault) by {
        let f = match reaction(rule, engine.values) {
            Reaction::Failed(f) => f,
            _ => fault,
        };
        lemma_report_grows(empty, record, id, f, id, fault);
        assert(empty.with_error(id, fault).eval_errors.last() == (id, fault));
        assert(empty.with_error(id, f).eval_errors.last() == (id, f));
        assert(empty.with_error(id, fault).eval_errors.len() == 1);
        assert(!has_error(empty, id, fault));
    }
    let f = match reaction(rule, engine.values) {
        Reaction::Failed(f) => f,
        _ => EvalFault::NotBool(Seq::empty()),
    };
    lemma_report_grows(empty, record, id, f, id, f);
}

/// A sample is received with its timestamp, at the time that it came; nothing
/// else that is known of values or the vehicle changes, on a sample or a tick.
pub proof fn law_received_values(engine: EngineModel, sample: Sample, now: u64, name: Seq<char>)
    ensures
        ({
            let after = engine.after_sample(sample, now).0;
            let ticked = engine.after_tick(now).0;
            &&& after.arrivals.contains_key(sample.name@)
            &&& after.arrivals[sample.name@].timestamp_us == sample.timestamp_us
            &&& after.arrivals[sample.name@].received_ms == now
            &&& name != sample.name@ && engine.arrivals.contains_key(name)
                ==> after.arrivals.contains_key(name) && after.arrivals[name]
                == engine.arrivals[name]
            &&& after.vin == engine.vin && after.model == engine.model && after.rules
                == engine.rules
            &&& ticked.vin == engine.vin && ticked.model == engine.model && ticked.rules
                == engine.rules
            &&& ticked.values == engine.values && ticked.arrivals == engine.arrivals
        }),
{
}

/// A rule keeps what it remembers at a swap exactly where the active set has a
/// rule with the same id, signal, mode, interval, age limit, deadband and
/// condition; otherwise it has logged nothing, and a periodic one is due one
/// interval from the swap. Nothing else changes but the rules.
pub proof fn law_swap_of_a_rule(engine: EngineModel, new: CompiledSetModel, now: u64, i: int)
    requires
        engine.sound(),
        all_runnable(new.rules),
        0 <= i < new.rules.len(),
    ensures
        ({
            let def = new.rules[i].def;
            let after = engine.after_swap(new, now);
            let unchanged = exists|j: int|
                0 <= j < engine.rules.rules.len() && {
                    let old = (#[trigger] engine.rules.rules[j]).def;
                    &&& old.id == def.id
                    &&& old.signal == def.signal
                    &&& old.mode == def.mode
                    &&& old.interval_ms == def.interval_ms
                    &&& old.max_age_ms == def.max_age_ms
                    &&& old.condition == def.condition
                    &&& old.deadband is None <==> def.deadband is None
                    &&& old.deadband matches Some(a) ==> a.units() == (def.deadband->0).units()
                };
            &&& after.state.contains_key(def.id)
            &&& unchanged ==> after.state[def.id] == engine.state[def.id]
            &&& !unchanged ==> {
                &&& after.state[def.id].last_logged is None
                &&& def.mode is OnChange ==> after.state[def.id].next_due_ms is None
                &&& def.mode is Periodic ==> after.state[def.id].next_due_ms == Some(
                    if now + def.interval_ms->0 > u64::MAX {
                        u64::MAX
                    } else {
                        (now + def.interval_ms->0) as u64
                    },
                )
            }
            &&& after.rules == new
            &&& after.vin == engine.vin && after.model == engine.model
            &&& after.values == engine.values && after.arrivals == engine.arrivals
        }),
{
    let rule = new.rules[i];
    let def = rule.def;
    let rules = engine.rules.rules;
    law_swap(engine, new, now, def.id);
    lemma_has_each(new.rules, i);
    if has_rule(rules, def.id) {
        let j = choose|j: int| 0 <= j < rules.len() && (#[trigger] rules[j]).def.id == def.id;
        lemma_rule_with(rules, j);
        assert(engine.state.contains_key(def.id));
        let old = rules[j].def;
        assert forall|k: int|
            0 <= k < rules.len() && (#[trigger] rules[k]).def.id == def.id implies k == j by {
            lemma_rule_with(rules, k);
            if k < j {
                assert(rules[k].def.id != rules[j].def.id);
            } else if j < k {
                assert(rules[j].def.id != rules[k].def.id);
            }
        }
        if old.deadband is Some && def.deadband is Some {
            law_order_is_value_order(old.deadband->0, def.deadband->0);
        }
    }
}

/// A swap drops what was remembered for rules that the new set lacks.
pub proof fn law_swap_drops_removed_rules(
    engine: EngineModel,
    new: CompiledSetModel,
    now: u64,
    id: Seq<char>,
)
    requires
        forall|i: int| 0 <= i < new.rules.len() ==> (#[trigger] new.rules[i]).def.id != id,
    ensures
        !engine.after_swap(new, now).state.contains_key(id),
{
}

/// An engine that runs the first `n` of its rules alone.
pub open spec fn first_rules(engine: EngineModel, n: int) -> EngineModel {
    EngineModel {
        rules: CompiledSetModel { rules: engine.rules.rules.take(n), ..engine.rules },
        ..engine
    }
}

/// Whether a report says what another does and nothing more, or goes on with one
/// thing about one rule.
pub open spec fn goes_on(report: ReportModel, start: ReportModel, id: Seq<char>) -> bool {
    ||| report == start
    ||| {
        &&& report.records.len() == start.records.len() + 1
        &&& report.records.drop_last() == start.records
        &&& report.records.last().rule_id == id
        &&& report.eval_errors == start.eval_errors
        &&& report.stale_skips == start.stale_skips
    }
    ||| {
        &&& report.records == start.records
        &&& report.eval_errors.len() == start.eval_errors.len() + 1
        &&& report.eval_errors.drop_last() == start.eval_errors
        &&& report.eval_errors.last().0 == id
        &&& report.stale_skips == start.stale_skips
    }
    ||| {
        &&& report.records == start.records
        &&& report.eval_errors == start.eval_errors
        &&& report.stale_skips.len() == start.stale_skips.len() + 1
        &&& report.stale_skips.drop_last() == start.stale_skips
        &&& report.stale_skips.last() == id
    }
}

/// Rules report in their order in the set, each at most one thing: a rule after
/// the others leaves what they report as it is, and may add one thing of its
/// own. Without rules nothing is reported.
pub proof fn law_rules_report_in_order(engine: EngineModel, sample: Sample, now: u64)
    ensures
        engine.rules.rules.len() == 0 ==> engine.after_sample(sample, now).1
            == ReportModel::nothing() && engine.after_tick(now).1 == ReportModel::nothing(),
        engine.rules.rules.len() > 0 ==> {
            let last = engine.rules.rules.last();
            let fewer = first_rules(engine, engine.rules.rules.len() - 1);
            &&& goes_on(
                engine.after_sample(sample, now).1,
                fewer.after_sample(sample, now).1,
                last.def.id,
            )
            &&& goes_on(engine.after_tick(now).1, fewer.after_tick(now).1, last.def.id)
        },
{
    let n = engine.rules.rules.len();
    if n > 0 {
        let m = (n - 1) as nat;
        let fewer = first_rules(engine, m as int);
        let received = engine.received(sample, now);
        assert(fewer.received(sample, now) =~= first_rules(received, m as int));
        lemma_first_rules(received, m, m, sample, now);
        lemma_first_rules(engine, m, m, sample, now);
        let turn = engine.rules.rules[m as int];
        lemma_goes_on(
            received.sampled_by(n, sample).report,
            received.sampled_by(m, sample).report,
            turn.def.id,
        );
        lemma_goes_on(
            engine.ticked_by(n, now).report,
            engine.ticked_by(m, now).report,
            turn.def.id,
        );
    }
}

proof fn lemma_goes_on(report: ReportModel, start: ReportModel, id: Seq<char>)
    requires
        ({
            ||| report == start
            ||| exists|record: RecordModel|
                report == #[trigger] start.with_record(record) && record.rule_id == id
            ||| exists|fault: EvalFault| report == #[trigger] start.with_error(id, fault)
            ||| report == start.with_stale(id)
        }),
    ensures
        goes_on(report, start, id),
{
    if report != start {
        if exists|record: RecordModel|
            report == #[trigger] start.with_record(record) && record.rule_id == id {
            assert(report.records.drop_last() =~= start.records);
        } else if exists|fault: EvalFault| report == #[trigger] start.with_error(id, fault) {
            assert(report.eval_errors.drop_last() =~= start.eval_errors);
        } else {
            assert(report.stale_skips.drop_last() =~= start.stale_skips);
        }
    }
}

proof fn lemma_first_rules(engine: EngineModel, m: nat, n: nat, sample: Sample, now: u64)
    requires
        n <= m <= engine.rules.rules.len(),
    ensures
        first_rules(engine, m as int).sampled_by(n, sample) == engine.sampled_by(n, sample),
        first_rules(engine, m as int).ticked_by(n, now) == engine.ticked_by(n, now),
    decreases n,
{
    if n > 0 {
        lemma_first_rules(engine, m, (n - 1) as nat, sample, now);
        assert(first_rules(engine, m as int).rules.rules[n - 1] == engine.rules.rules[n - 1]);
    }
}

} // verus!
