//! Engine semantics with a fake clock.

use std::sync::Arc;

use serde_json::Value;
use telemetry_edge::catalog::{
    Catalog, CatalogError, CatalogSpec, Endian, SignalDef, SignalType,
};
use telemetry_edge::double::Double;
use telemetry_edge::enum_map::EnumMap;
use telemetry_edge::clock::{Clock, FakeClock, SystemClock};
use telemetry_edge::compile::{compile_ruleset, Behaviour, CompiledRuleSet};
use telemetry_edge::condition::EvalError;
use telemetry_edge::engine::{has_changed, next_slot, Engine, LogRecord};
use telemetry_edge::ruleset::{Mode, Rule, RuleSet};
use telemetry_edge::value::SignalValue;
use telemetry_edge::wire::Sample;

const R1S: &str = r#"{"model": "R1S", "catalog_version": 3, "signals": [
    {"id": 257, "name": "vehicle_speed", "type": "u16", "endian": "big", "scale": 0.01, "offset": 0.0, "unit": "km/h"},
    {"id": 258, "name": "battery_soc", "type": "u8", "endian": "little", "scale": 0.5, "offset": 0.0, "unit": "%"},
    {"id": 259, "name": "motor_temp", "type": "i16", "endian": "little", "scale": 0.1, "offset": -40.0, "unit": "C"},
    {"id": 300, "name": "gear", "type": "u8", "endian": "little", "enum": {"0": "P", "1": "R", "2": "N", "3": "D"}},
    {"id": 301, "name": "door_open", "type": "bool"}
]}"#;

const R2: &str = r#"{"model": "R2", "catalog_version": 1, "signals": [
    {"id": 1025, "name": "vehicle_speed", "type": "u32", "endian": "little", "scale": 0.001, "unit": "km/h"},
    {"id": 1026, "name": "battery_soc", "type": "u16", "endian": "big", "scale": 0.01, "unit": "%"},
    {"id": 1027, "name": "motor_temp", "type": "f32", "endian": "big", "unit": "C"},
    {"id": 1030, "name": "gear", "type": "u8", "enum": {"1": "P", "2": "R", "3": "N", "4": "D"}},
    {"id": 1031, "name": "door_open", "type": "bool"},
    {"id": 1040, "name": "cabin_temp", "type": "i16", "endian": "big", "scale": 0.1, "unit": "C"}
]}"#;

const DEFAULT_RULESET: &str = r#"{"ruleset_version": 1, "model": "*", "rules": [
    {"id": "soc_change", "signal": "battery_soc", "mode": "on_change", "deadband": 1.0},
    {"id": "speed_1hz", "signal": "vehicle_speed", "mode": "periodic", "interval_ms": 1000},
    {"id": "gear_change", "signal": "gear", "mode": "on_change"},
    {"id": "hot_motor", "signal": "motor_temp", "mode": "periodic", "interval_ms": 200, "condition": "motor_temp > 90.0 && gear == 'D'"},
    {"id": "low_soc_drive", "signal": "vehicle_speed", "mode": "on_change", "deadband": 0.5, "condition": "gear == 'D' && battery_soc < 20.0"}
]}"#;

fn double(v: f64) -> Double {
    Double::from_bits(v.to_bits())
}

fn text(v: &Value) -> Option<String> {
    v.as_str().map(str::to_owned)
}

fn signal_type(name: &str) -> SignalType {
    match name {
        "bool" => SignalType::Bool,
        "u8" => SignalType::U8,
        "i8" => SignalType::I8,
        "u16" => SignalType::U16,
        "i16" => SignalType::I16,
        "u32" => SignalType::U32,
        "i32" => SignalType::I32,
        "u64" => SignalType::U64,
        "i64" => SignalType::I64,
        "f32" => SignalType::F32,
        "f64" => SignalType::F64,
        other => panic!("type {other}"),
    }
}

fn signal_def(v: &Value) -> SignalDef {
    SignalDef {
        id: v["id"].as_u64().unwrap() as u16,
        name: text(&v["name"]).unwrap(),
        ty: signal_type(v["type"].as_str().unwrap()),
        endian: v["endian"].as_str().map(|e| match e {
            "big" => Endian::Big,
            _ => Endian::Little,
        }),
        scale: double(v["scale"].as_f64().unwrap_or(1.0)),
        offset: double(v["offset"].as_f64().unwrap_or(0.0)),
        unit: text(&v["unit"]),
        enum_map: v["enum"].as_object().map(|m| {
            let mut map = EnumMap::new();
            for (code, label) in m {
                map.insert(code.clone(), text(label).unwrap());
            }
            map
        }),
    }
}

fn catalog(json: &str) -> Result<Catalog, CatalogError> {
    let v: Value = serde_json::from_str(json).unwrap();
    Catalog::new(CatalogSpec {
        model: text(&v["model"]).unwrap(),
        catalog_version: v["catalog_version"].as_u64().unwrap() as u32,
        signals: v["signals"]
            .as_array()
            .unwrap()
            .iter()
            .map(signal_def)
            .collect(),
    })
}

fn rule(v: &Value) -> Rule {
    Rule {
        id: text(&v["id"]).unwrap(),
        signal: text(&v["signal"]).unwrap(),
        mode: match v["mode"].as_str().unwrap() {
            "on_change" => Mode::OnChange,
            _ => Mode::Periodic,
        },
        interval_ms: v["interval_ms"].as_u64(),
        max_age_ms: v["max_age_ms"].as_u64(),
        deadband: v["deadband"].as_f64().map(double),
        condition: text(&v["condition"]),
    }
}

fn ruleset_from(json: &str) -> RuleSet {
    let v: Value = serde_json::from_str(json).unwrap();
    RuleSet {
        ruleset_version: v["ruleset_version"].as_u64().unwrap(),
        model: text(&v["model"]).unwrap(),
        rules: v["rules"].as_array().unwrap().iter().map(rule).collect(),
    }
}

/// Builds a rule set from rule objects.
fn ruleset(version: u64, model: &str, rules: &[&str]) -> RuleSet {
    ruleset_from(&format!(
        r#"{{"ruleset_version":{version},"model":"{model}","rules":[{}]}}"#,
        rules.join(",")
    ))
}

fn r1s() -> Catalog {
    catalog(R1S).unwrap()
}

fn r2() -> Catalog {
    catalog(R2).unwrap()
}

fn number(v: f64) -> SignalValue {
    SignalValue::Num(double(v))
}

fn compiled(version: u64, rules: &[&str]) -> Arc<CompiledRuleSet> {
    Arc::new(compile_ruleset(&ruleset(version, "R1S", rules), &r1s(), "R1S", None).unwrap())
}

fn engine(rules: &[&str]) -> (Engine<FakeClock>, FakeClock) {
    let clock = FakeClock::new(0);
    let mut engine = Engine::new(clock.clone(), "DEV0000001", "R1S");
    engine.apply_ruleset(compiled(1, rules));
    (engine, clock)
}

fn num(name: &str, v: f64, ts: u64) -> Sample {
    sample(name, number(v), ts)
}

fn label(name: &str, v: &str, ts: u64) -> Sample {
    sample(name, SignalValue::Enum(v.into()), ts)
}

fn flag(name: &str, v: bool, ts: u64) -> Sample {
    sample(name, SignalValue::Bool(v), ts)
}

fn sample(name: &str, value: SignalValue, ts: u64) -> Sample {
    Sample {
        signal_id: 0,
        name: name.into(),
        timestamp_us: ts,
        value,
    }
}

const SOC: &str = r#"{"id":"soc_change","signal":"battery_soc","mode":"on_change","deadband":1.0}"#;
const GEAR: &str = r#"{"id":"gear_change","signal":"gear","mode":"on_change"}"#;
const DOOR: &str = r#"{"id":"door","signal":"door_open","mode":"on_change"}"#;
const SPEED_1HZ: &str =
    r#"{"id":"speed_1hz","signal":"vehicle_speed","mode":"periodic","interval_ms":1000}"#;
const HOT_MOTOR: &str = r#"{"id":"hot_motor","signal":"motor_temp","mode":"periodic","interval_ms":200,"condition":"motor_temp > 90.0 && gear == 'D'"}"#;
const LOW_SOC_DRIVE: &str = r#"{"id":"low_soc_drive","signal":"vehicle_speed","mode":"on_change","deadband":0.5,"condition":"gear == 'D' && battery_soc < 20.0"}"#;

fn values(records: &[LogRecord]) -> Vec<SignalValue> {
    records.iter().map(|r| r.value.clone()).collect()
}

// ------------------------------------------------------------------ on_change

#[test]
fn on_change_logs_first_value() {
    let (mut e, _) = engine(&[SOC]);
    let r = e.on_sample(&num("battery_soc", 50.0, 111));
    assert_eq!(
        r.records,
        [LogRecord {
            ts_us: 111,
            vin: "DEV0000001".into(),
            model: "R1S".into(),
            rule_id: "soc_change".into(),
            ruleset_version: 1,
            signal: "battery_soc".into(),
            value: number(50.0),
            unit: Some("%".into()),
        }]
    );
}

#[test]
fn on_change_suppresses_within_deadband() {
    let (mut e, _) = engine(&[SOC]);
    e.on_sample(&num("battery_soc", 50.0, 1));
    for v in [50.5, 49.2, 51.0, 49.0] {
        // |v - 50| <= 1.0 is inside the deadband (strictly greater is required)
        assert!(
            e.on_sample(&num("battery_soc", v, 2)).records.is_empty(),
            "{v}"
        );
    }
}

#[test]
fn on_change_logs_drift_relative_to_last_logged() {
    let (mut e, _) = engine(&[SOC]);
    e.on_sample(&num("battery_soc", 50.0, 1));
    // Each step is below the deadband, but the drift from the last *logged*
    // value eventually exceeds it.
    assert!(e.on_sample(&num("battery_soc", 50.4, 2)).records.is_empty());
    assert!(e.on_sample(&num("battery_soc", 50.8, 3)).records.is_empty());
    let r = e.on_sample(&num("battery_soc", 51.2, 4));
    assert_eq!(values(&r.records), [number(51.2)]);
    // Now relative to 51.2.
    assert!(e.on_sample(&num("battery_soc", 52.0, 5)).records.is_empty());
    assert_eq!(e.on_sample(&num("battery_soc", 50.1, 6)).records.len(), 1);
}

#[test]
fn on_change_default_deadband_logs_any_change() {
    let speed = r#"{"id":"s","signal":"vehicle_speed","mode":"on_change"}"#;
    let (mut e, _) = engine(&[speed]);
    assert_eq!(e.on_sample(&num("vehicle_speed", 10.0, 1)).records.len(), 1);
    assert!(e
        .on_sample(&num("vehicle_speed", 10.0, 2))
        .records
        .is_empty());
    assert_eq!(
        e.on_sample(&num("vehicle_speed", 10.01, 3)).records.len(),
        1
    );
}

#[test]
fn on_change_enum_and_bool() {
    let (mut e, _) = engine(&[GEAR, DOOR]);
    let mut logged = Vec::new();
    for s in [
        label("gear", "P", 1),
        label("gear", "P", 2),
        label("gear", "D", 3),
        label("gear", "D", 4),
        label("gear", "P", 5),
        flag("door_open", false, 6),
        flag("door_open", false, 7),
        flag("door_open", true, 8),
    ] {
        logged.extend(e.on_sample(&s).records);
    }
    let ts: Vec<u64> = logged.iter().map(|r| r.ts_us).collect();
    assert_eq!(ts, [1, 3, 5, 6, 8]);
    assert_eq!(logged[1].value, SignalValue::Enum("D".into()));
    assert_eq!(logged[1].unit, None);
}

#[test]
fn on_change_ignores_other_signals() {
    let (mut e, _) = engine(&[SOC]);
    assert!(e
        .on_sample(&num("vehicle_speed", 10.0, 1))
        .records
        .is_empty());
}

// ------------------------------------------------------------------- periodic

#[test]
fn periodic_fires_at_interval() {
    let (mut e, clock) = engine(&[SPEED_1HZ]);
    e.on_sample(&num("vehicle_speed", 42.0, 7));
    assert_eq!(e.next_deadline_ms(), Some(1000));
    let mut fired_at = Vec::new();
    for t in (0..=3500).step_by(50) {
        clock.set(t);
        if !e.tick().records.is_empty() {
            fired_at.push(t);
            e.on_sample(&num("vehicle_speed", 42.0, t * 1000)); // keep fresh
        }
    }
    assert_eq!(fired_at, [1000, 2000, 3000]);
    assert_eq!(e.next_deadline_ms(), Some(4000));
}

#[test]
fn periodic_logs_latest_value_with_its_timestamp() {
    let (mut e, clock) = engine(&[SPEED_1HZ]);
    e.on_sample(&num("vehicle_speed", 10.0, 100));
    clock.set(400);
    e.on_sample(&num("vehicle_speed", 20.0, 500));
    clock.set(1000);
    let r = e.tick();
    assert_eq!(values(&r.records), [number(20.0)]);
    assert_eq!(r.records[0].ts_us, 500);
    assert_eq!(r.records[0].unit.as_deref(), Some("km/h"));
}

#[test]
fn periodic_skips_stale_values() {
    let (mut e, clock) = engine(&[SPEED_1HZ]);
    e.on_sample(&num("vehicle_speed", 10.0, 1)); // received at t=0
                                                 // Default max_age = 3 * interval = 3000 ms.
    for (t, expect_log) in [(1000, true), (2000, true), (3000, true), (4000, false)] {
        clock.set(t);
        let r = e.tick();
        assert_eq!(r.records.len(), usize::from(expect_log), "t={t}");
        assert_eq!(r.stale_skips.len(), usize::from(!expect_log), "t={t}");
    }
    assert_eq!(e.tick().stale_skips, Vec::<String>::new()); // not due again yet
    clock.set(5000);
    assert_eq!(e.tick().stale_skips, ["speed_1hz"]);
    // A fresh sample makes it log again.
    e.on_sample(&num("vehicle_speed", 11.0, 2));
    clock.set(6000);
    assert_eq!(e.tick().records.len(), 1);
}

#[test]
fn periodic_custom_max_age() {
    let rule = r#"{"id":"p","signal":"vehicle_speed","mode":"periodic","interval_ms":1000,"max_age_ms":500}"#;
    let (mut e, clock) = engine(&[rule]);
    clock.set(600);
    e.on_sample(&num("vehicle_speed", 10.0, 1));
    clock.set(1000); // age 400 <= 500: fresh
    assert_eq!(e.tick().records.len(), 1);
    clock.set(2000); // age 1400 > 500: stale (the default 3000 would still log)
    let r = e.tick();
    assert!(r.records.is_empty());
    assert_eq!(r.stale_skips, ["p"]);
}

#[test]
fn periodic_without_any_value_does_nothing() {
    let (mut e, clock) = engine(&[SPEED_1HZ]);
    clock.set(1000);
    assert_eq!(e.tick(), Default::default());
}

#[test]
fn periodic_skips_missed_slots_instead_of_bursting() {
    let (mut e, clock) = engine(&[SPEED_1HZ]);
    clock.set(5400);
    e.on_sample(&num("vehicle_speed", 10.0, 1));
    assert_eq!(e.tick().records.len(), 1);
    assert_eq!(e.tick().records.len(), 0);
    assert_eq!(e.next_deadline_ms(), Some(6400));
}

// ------------------------------------------------------------------ condition

#[test]
fn condition_true_and_false() {
    let (mut e, clock) = engine(&[HOT_MOTOR]);
    e.on_sample(&num("motor_temp", 95.0, 1));
    e.on_sample(&label("gear", "D", 1));
    clock.set(200);
    assert_eq!(e.tick().records.len(), 1);

    e.on_sample(&label("gear", "P", 2));
    clock.set(400);
    assert!(e.tick().records.is_empty());

    e.on_sample(&label("gear", "D", 3));
    e.on_sample(&num("motor_temp", 85.0, 3));
    clock.set(600);
    assert!(e.tick().records.is_empty());
}

#[test]
fn condition_with_missing_signal_is_false() {
    let (mut e, clock) = engine(&[HOT_MOTOR]);
    e.on_sample(&num("motor_temp", 95.0, 1)); // no gear yet
    clock.set(200);
    let r = e.tick();
    assert!(r.records.is_empty());
    assert!(r.eval_errors.is_empty());
}

#[test]
fn condition_runtime_error_is_false_and_reported() {
    let rule = r#"{"id":"bad","signal":"motor_temp","mode":"on_change","condition":"gear > 1"}"#;
    let (mut e, _) = engine(&[rule]);
    e.on_sample(&label("gear", "D", 1));
    let r = e.on_sample(&num("motor_temp", 95.0, 1));
    assert!(r.records.is_empty());
    assert_eq!(r.eval_errors.len(), 1);
    assert_eq!(r.eval_errors[0].0, "bad");
    assert!(matches!(r.eval_errors[0].1, EvalError::Execution(_)));
}

#[test]
fn on_change_condition_false_does_not_update_last_logged() {
    let (mut e, _) = engine(&[LOW_SOC_DRIVE]);
    e.on_sample(&num("battery_soc", 15.0, 1));
    e.on_sample(&label("gear", "P", 1));
    assert!(e
        .on_sample(&num("vehicle_speed", 0.0, 2))
        .records
        .is_empty());
    e.on_sample(&label("gear", "D", 3));
    // First qualifying sample logs even though an earlier one was suppressed.
    let r = e.on_sample(&num("vehicle_speed", 0.2, 4));
    assert_eq!(values(&r.records), [number(0.2)]);
    assert!(e
        .on_sample(&num("vehicle_speed", 0.6, 5))
        .records
        .is_empty());
    assert_eq!(e.on_sample(&num("vehicle_speed", 0.8, 6)).records.len(), 1);
}

// --------------------------------------------------------------------- swaps

#[test]
fn swap_preserves_state_for_unchanged_rules() {
    let (mut e, clock) = engine(&[GEAR, SPEED_1HZ]);
    e.on_sample(&label("gear", "D", 1));
    e.on_sample(&num("vehicle_speed", 10.0, 1));
    clock.set(600);
    e.apply_ruleset(compiled(2, &[GEAR, SPEED_1HZ, SOC]));
    assert_eq!(e.ruleset().version(), 2);
    // gear_change still remembers "D": no duplicate log.
    assert!(e.on_sample(&label("gear", "D", 2)).records.is_empty());
    // speed_1hz timer was not reset by the swap: still due at 1000, not 1600.
    assert_eq!(e.next_deadline_ms(), Some(1000));
    clock.set(1000);
    let r = e.tick();
    assert_eq!(r.records.len(), 1);
    assert_eq!(r.records[0].ruleset_version, 2);
}

#[test]
fn swap_resets_modified_and_new_rules() {
    let (mut e, clock) = engine(&[SOC, SPEED_1HZ]);
    e.on_sample(&num("battery_soc", 50.0, 1));
    e.on_sample(&num("vehicle_speed", 10.0, 1));
    clock.set(700);
    let soc_modified =
        r#"{"id":"soc_change","signal":"battery_soc","mode":"on_change","deadband":2.0}"#;
    let speed_modified =
        r#"{"id":"speed_1hz","signal":"vehicle_speed","mode":"periodic","interval_ms":100}"#;
    e.apply_ruleset(compiled(2, &[soc_modified, speed_modified]));
    // Modified on_change rule forgot its last logged value.
    assert_eq!(e.on_sample(&num("battery_soc", 50.0, 2)).records.len(), 1);
    // Modified periodic rule restarts its timer from the swap time.
    assert_eq!(e.next_deadline_ms(), Some(800));
}

#[test]
fn swap_drops_removed_rules() {
    let (mut e, clock) = engine(&[GEAR, SPEED_1HZ]);
    e.on_sample(&num("vehicle_speed", 10.0, 1));
    e.apply_ruleset(compiled(2, &[GEAR]));
    assert_eq!(e.next_deadline_ms(), None);
    clock.set(5000);
    assert!(e.tick().records.is_empty());
    // Re-adding the rule later starts from scratch.
    e.apply_ruleset(compiled(3, &[GEAR, SPEED_1HZ]));
    assert_eq!(e.next_deadline_ms(), Some(6000));
}

#[test]
fn signal_values_survive_swaps() {
    let (mut e, clock) = engine(&[]);
    e.on_sample(&num("motor_temp", 95.0, 1));
    e.on_sample(&label("gear", "D", 1));
    e.apply_ruleset(compiled(2, &[HOT_MOTOR]));
    clock.set(200);
    assert_eq!(e.tick().records.len(), 1);
}

// ------------------------------------------------------------ both catalogs

#[test]
fn same_ruleset_drives_both_models() {
    let rs = ruleset_from(DEFAULT_RULESET);
    for (cat, model) in [(r1s(), "R1S"), (r2(), "R2")] {
        let clock = FakeClock::new(0);
        let mut e = Engine::new(clock.clone(), "VIN", model);
        e.apply_ruleset(Arc::new(compile_ruleset(&rs, &cat, model, None).unwrap()));
        clock.set(900); // fresh for hot_motor's 600 ms default max age
        e.on_sample(&label("gear", "D", 1));
        e.on_sample(&num("motor_temp", 95.0, 1));
        e.on_sample(&num("vehicle_speed", 80.0, 1));
        clock.set(1000);
        let mut ids: Vec<String> = e.tick().records.into_iter().map(|r| r.rule_id).collect();
        ids.sort();
        assert_eq!(ids, ["hot_motor", "speed_1hz"], "{model}");
    }
}

// ----------------------------------------------------------------------- laws

#[test]
fn second_tick_at_the_same_time_does_nothing() {
    let (mut e, _) = engine(&[SPEED_1HZ, HOT_MOTOR]);
    e.on_sample_at(&num("vehicle_speed", 10.0, 1), 900);
    assert_eq!(e.tick_at(1000).records.len(), 1);
    assert_eq!(e.tick_at(1000), Default::default());
    // At the end of time a slot cannot move on: it is due again.
    e.on_sample_at(&num("vehicle_speed", 10.0, 2), u64::MAX);
    assert_eq!(e.tick_at(u64::MAX).records.len(), 1);
    assert_eq!(e.tick_at(u64::MAX).records.len(), 1);
}

#[test]
fn early_tick_does_nothing() {
    let (mut e, _) = engine(&[SPEED_1HZ]);
    e.on_sample_at(&num("vehicle_speed", 10.0, 1), 10);
    assert_eq!(e.tick_at(999), Default::default());
    assert_eq!(e.next_deadline_ms(), Some(1000));
}

#[test]
fn swap_to_the_same_rules_keeps_every_state() {
    let (mut e, _) = engine(&[GEAR, SPEED_1HZ]);
    e.on_sample_at(&label("gear", "D", 1), 1);
    e.apply_ruleset_at(compiled(1, &[GEAR, SPEED_1HZ]), 700);
    assert_eq!(e.next_deadline_ms(), Some(1000));
    assert!(e.on_sample_at(&label("gear", "D", 2), 701).records.is_empty());
}

#[test]
fn slots() {
    assert_eq!(next_slot(1000, 1000, 1000), 2000);
    assert_eq!(next_slot(1000, 1000, 1999), 2000);
    assert_eq!(next_slot(1000, 1000, 2000), 3000);
    assert_eq!(next_slot(1000, 1000, 5400), 6400);
    assert_eq!(next_slot(u64::MAX - 5, 100, u64::MAX - 5), u64::MAX);
}

#[test]
fn changes() {
    let last = Some(number(50.0));
    assert!(has_changed(&None, &number(1.0), double(1.0)));
    assert!(!has_changed(&last, &number(51.0), double(1.0)));
    assert!(has_changed(&last, &number(51.5), double(1.0)));
    assert!(!has_changed(&Some(number(f64::NAN)), &number(1.0), double(0.0)));
    assert!(has_changed(&last, &SignalValue::Bool(true), double(1.0)));
}

#[test]
fn behaviours_follow_the_definition() {
    let set = compiled(1, &[SOC, SPEED_1HZ, r#"{"id":"d","signal":"gear","mode":"on_change"}"#]);
    match set.rules()[0].behaviour() {
        Behaviour::OnChange { deadband } => assert_eq!(deadband.to_bits(), 1.0f64.to_bits()),
        other => panic!("{other:?}"),
    }
    match set.rules()[1].behaviour() {
        Behaviour::Periodic {
            interval_ms,
            max_age_ms,
        } => assert_eq!((interval_ms, max_age_ms), (1000, 3000)),
        other => panic!("{other:?}"),
    }
    match set.rules()[2].behaviour() {
        Behaviour::OnChange { deadband } => assert_eq!(deadband.to_bits(), 0),
        other => panic!("{other:?}"),
    }
}

#[test]
fn system_clock_starts_at_zero_and_never_goes_back() {
    let clock = SystemClock::new();
    let a = clock.now_ms();
    let b = clock.now_ms();
    assert!(a < 10_000 && a <= b);
    let start = std::time::Instant::now();
    while start.elapsed().as_millis() < 20 {}
    let c = clock.now_ms();
    assert!(c >= a + 20 && c < 10_000);
    assert!(clock.clone().now_ms() >= c);
}

#[test]
fn fake_clock_moves_by_hand() {
    let clock = FakeClock::new(5);
    let shared = clock.clone();
    shared.advance(10);
    assert_eq!(clock.now_ms(), 15);
    shared.set(3);
    assert_eq!(clock.now_ms(), 3);
}
