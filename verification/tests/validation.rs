//! Rule set validation.

use serde_json::Value;
use telemetry_edge::catalog::{
    Catalog, CatalogError, CatalogSpec, Endian, SignalDef, SignalType,
};
use telemetry_edge::double::Double;
use telemetry_edge::enum_map::EnumMap;
use telemetry_edge::compile::{
    check_set, compile_rules, compile_ruleset, finish_ruleset, is_valid_rule_id, ValidationError,
    ValidationErrors, MAX_RULES,
};
use telemetry_edge::ruleset::{Mode, Rule, RuleSet};

const R1S: &str = r#"{"model": "R1S", "catalog_version": 3, "signals": [
    {"id": 257, "name": "vehicle_speed", "type": "u16", "endian": "big", "scale": 0.01, "offset": 0.0, "unit": "km/h"},
    {"id": 258, "name": "battery_soc", "type": "u8", "endian": "little", "scale": 0.5, "offset": 0.0, "unit": "%"},
    {"id": 259, "name": "motor_temp", "type": "i16", "endian": "little", "scale": 0.1, "offset": -40.0, "unit": "C"},
    {"id": 300, "name": "gear", "type": "u8", "endian": "little", "enum": {"0": "P", "1": "R", "2": "N", "3": "D"}},
    {"id": 301, "name": "door_open", "type": "bool"}
]}"#;

const R2: &str = r#"{"model": "R2", "catalog_version": 1, "signals": [
    {"id": 1025, "name": "vehicle_speed", "type": "u32", "endian": "little", "scale": 0.001, "unit": "km/h"},
    {"id": 1026, "name": "battery_soc", "type": "u16", "endian": "big", "scale": 0.01, "unit": "%"},
    {"id": 1027, "name": "motor_temp", "type": "f32", "endian": "big", "unit": "C"},
    {"id": 1030, "name": "gear", "type": "u8", "enum": {"1": "P", "2": "R", "3": "N", "4": "D"}},
    {"id": 1031, "name": "door_open", "type": "bool"},
    {"id": 1040, "name": "cabin_temp", "type": "i16", "endian": "big", "scale": 0.1, "unit": "C"}
]}"#;

const DEFAULT_RULESET: &str = r#"{"ruleset_version": 1, "model": "*", "rules": [
    {"id": "soc_change", "signal": "battery_soc", "mode": "on_change", "deadband": 1.0},
    {"id": "speed_1hz", "signal": "vehicle_speed", "mode": "periodic", "interval_ms": 1000},
    {"id": "gear_change", "signal": "gear", "mode": "on_change"},
    {"id": "hot_motor", "signal": "motor_temp", "mode": "periodic", "interval_ms": 200, "condition": "motor_temp > 90.0 && gear == 'D'"},
    {"id": "low_soc_drive", "signal": "vehicle_speed", "mode": "on_change", "deadband": 0.5, "condition": "gear == 'D' && battery_soc < 20.0"}
]}"#;

fn double(v: f64) -> Double {
    Double::from_bits(v.to_bits())
}

fn text(v: &Value) -> Option<String> {
    v.as_str().map(str::to_owned)
}

fn signal_type(name: &str) -> SignalType {
    match name {
        "bool" => SignalType::Bool,
        "u8" => SignalType::U8,
        "i8" => SignalType::I8,
        "u16" => SignalType::U16,
        "i16" => SignalType::I16,
        "u32" => SignalType::U32,
        "i32" => SignalType::I32,
        "u64" => SignalType::U64,
        "i64" => SignalType::I64,
        "f32" => SignalType::F32,
        "f64" => SignalType::F64,
        other => panic!("type {other}"),
    }
}

fn signal_def(v: &Value) -> SignalDef {
    SignalDef {
        id: v["id"].as_u64().unwrap() as u16,
        name: text(&v["name"]).unwrap(),
        ty: signal_type(v["type"].as_str().unwrap()),
        endian: v["endian"].as_str().map(|e| match e {
            "big" => Endian::Big,
            _ => Endian::Little,
        }),
        scale: double(v["scale"].as_f64().unwrap_or(1.0)),
        offset: double(v["offset"].as_f64().unwrap_or(0.0)),
        unit: text(&v["unit"]),
        enum_map: v["enum"].as_object().map(|m| {
            let mut map = EnumMap::new();
            for (code, label) in m {
                map.insert(code.clone(), text(label).unwrap());
            }
            map
        }),
    }
}

fn catalog(json: &str) -> Result<Catalog, CatalogError> {
    let v: Value = serde_json::from_str(json).unwrap();
    Catalog::new(CatalogSpec {
        model: text(&v["model"]).unwrap(),
        catalog_version: v["catalog_version"].as_u64().unwrap() as u32,
        signals: v["signals"]
            .as_array()
            .unwrap()
            .iter()
            .map(signal_def)
            .collect(),
    })
}

fn rule(v: &Value) -> Rule {
    Rule {
        id: text(&v["id"]).unwrap(),
        signal: text(&v["signal"]).unwrap(),
        mode: match v["mode"].as_str().unwrap() {
            "on_change" => Mode::OnChange,
            _ => Mode::Periodic,
        },
        interval_ms: v["interval_ms"].as_u64(),
        max_age_ms: v["max_age_ms"].as_u64(),
        deadband: v["deadband"].as_f64().map(double),
        condition: text(&v["condition"]),
    }
}

fn ruleset_from(json: &str) -> RuleSet {
    let v: Value = serde_json::from_str(json).unwrap();
    RuleSet {
        ruleset_version: v["ruleset_version"].as_u64().unwrap(),
        model: text(&v["model"]).unwrap(),
        rules: v["rules"].as_array().unwrap().iter().map(rule).collect(),
    }
}

/// Builds a rule set from rule objects.
fn ruleset(version: u64, model: &str, rules: &[&str]) -> RuleSet {
    ruleset_from(&format!(
        r#"{{"ruleset_version":{version},"model":"{model}","rules":[{}]}}"#,
        rules.join(",")
    ))
}

fn r1s() -> Catalog {
    catalog(R1S).unwrap()
}

fn r2() -> Catalog {
    catalog(R2).unwrap()
}

fn errors(rs: &RuleSet, active: Option<u64>) -> Vec<ValidationError> {
    compile_ruleset(rs, &r1s(), "R1S", active).unwrap_err().0
}

fn one_rule_errors(rule: &str) -> Vec<ValidationError> {
    errors(&ruleset(1, "R1S", &[rule]), None)
}

fn assert_invalid(rule: &str, needle: &str) {
    let errs = one_rule_errors(rule);
    assert_eq!(errs.len(), 1, "{rule}: {errs:?}");
    let msg = errs[0].message();
    assert!(
        msg.contains(needle),
        "{rule}: expected '{needle}' in '{msg}'"
    );
}

#[test]
fn default_ruleset_validates_against_both_catalogs() {
    let rs = ruleset_from(DEFAULT_RULESET);
    assert_eq!(rs.model, "*");
    let a = compile_ruleset(&rs, &r1s(), "R1S", None).unwrap();
    let b = compile_ruleset(&rs, &r2(), "R2", None).unwrap();
    assert_eq!(a.rules().len(), 5);
    assert_eq!(b.rules().len(), 5);
}

#[test]
fn rejects_unknown_signal() {
    assert_invalid(
        r#"{"id":"a","signal":"warp_speed","mode":"on_change"}"#,
        "unknown signal 'warp_speed'",
    );
}

#[test]
fn rejects_unknown_signal_in_condition() {
    let errs = one_rule_errors(
        r#"{"id":"a","signal":"gear","mode":"on_change","condition":"cabin_temp > 20.0"}"#,
    );
    assert_eq!(errs[0].reason(), "invalid_condition");
    assert!(errs[0].message().contains("unknown signal 'cabin_temp'"));
}

#[test]
fn rejects_bad_expression() {
    let errs = one_rule_errors(
        r#"{"id":"a","signal":"gear","mode":"on_change","condition":"motor_temp > && 1"}"#,
    );
    assert_eq!(errs[0].reason(), "invalid_condition");
    assert!(errs[0].message().contains("syntax error"));
}

#[test]
fn rejects_too_long_expression() {
    let cond = format!("motor_temp > {}", "1".repeat(600));
    let rule = format!(r#"{{"id":"a","signal":"gear","mode":"on_change","condition":"{cond}"}}"#);
    assert_eq!(one_rule_errors(&rule)[0].reason(), "invalid_condition");
}

#[test]
fn rejects_too_short_interval() {
    assert_invalid(
        r#"{"id":"a","signal":"vehicle_speed","mode":"periodic","interval_ms":99}"#,
        "interval_ms must be >= 100",
    );
    compile_ruleset(
        &ruleset(
            1,
            "R1S",
            &[r#"{"id":"a","signal":"vehicle_speed","mode":"periodic","interval_ms":100}"#],
        ),
        &r1s(),
        "R1S",
        None,
    )
    .unwrap();
}

#[test]
fn rejects_duplicate_ids() {
    let errs = errors(
        &ruleset(
            1,
            "R1S",
            &[
                r#"{"id":"a","signal":"gear","mode":"on_change"}"#,
                r#"{"id":"a","signal":"door_open","mode":"on_change"}"#,
            ],
        ),
        None,
    );
    assert!(
        errs[0].message().contains("duplicate rule id"),
        "{errs:?}"
    );
}

#[test]
fn rejects_too_many_rules() {
    let rules: Vec<String> = (0..=MAX_RULES)
        .map(|i| format!(r#"{{"id":"r{i}","signal":"gear","mode":"on_change"}}"#))
        .collect();
    let refs: Vec<&str> = rules.iter().map(String::as_str).collect();
    let errs = errors(&ruleset(1, "R1S", &refs), None);
    assert_eq!(errs, [ValidationError::TooManyRules(MAX_RULES + 1)]);

    let ok = compile_ruleset(&ruleset(1, "R1S", &refs[..MAX_RULES]), &r1s(), "R1S", None);
    assert_eq!(ok.unwrap().rules().len(), MAX_RULES);
}

#[test]
fn rejects_lower_or_equal_version() {
    let rs = ruleset(12, "R1S", &[]);
    for active in [12, 13] {
        let errs = errors(&rs, Some(active));
        assert_eq!(errs[0].reason(), "not_newer", "active {active}");
    }
    compile_ruleset(&rs, &r1s(), "R1S", Some(11)).unwrap();
    // First load from cache at boot has no active version to compare with.
    compile_ruleset(&rs, &r1s(), "R1S", None).unwrap();
}

#[test]
fn model_must_match_or_be_wildcard() {
    let errs = errors(&ruleset(1, "R2", &[]), None);
    assert_eq!(errs[0].reason(), "model_mismatch");
    compile_ruleset(&ruleset(1, "R1S", &[]), &r1s(), "R1S", None).unwrap();
    compile_ruleset(&ruleset(1, "*", &[]), &r1s(), "R1S", None).unwrap();
}

#[test]
fn rejects_bad_rule_ids() {
    for id in ["", "Speed", "a-b", &"a".repeat(65)] {
        let rule = format!(r#"{{"id":"{id}","signal":"gear","mode":"on_change"}}"#);
        assert_invalid(&rule, "id must match");
    }
}

#[test]
fn rejects_mode_field_mismatches() {
    assert_invalid(
        r#"{"id":"a","signal":"battery_soc","mode":"on_change","deadband":-1}"#,
        "deadband must be",
    );
    assert_invalid(
        r#"{"id":"a","signal":"gear","mode":"on_change","deadband":1}"#,
        "only to numeric signals",
    );
    assert_invalid(
        r#"{"id":"a","signal":"gear","mode":"on_change","interval_ms":1000}"#,
        "only to periodic",
    );
    assert_invalid(
        r#"{"id":"a","signal":"vehicle_speed","mode":"periodic"}"#,
        "require interval_ms",
    );
    assert_invalid(
        r#"{"id":"a","signal":"vehicle_speed","mode":"periodic","interval_ms":1000,"deadband":1}"#,
        "only to on_change",
    );
    assert_invalid(
        r#"{"id":"a","signal":"vehicle_speed","mode":"periodic","interval_ms":1000,"max_age_ms":0}"#,
        "max_age_ms must be > 0",
    );
}

#[test]
fn reports_every_problem_at_once() {
    let rs = ruleset(
        5,
        "R2",
        &[
            r#"{"id":"a","signal":"nope","mode":"on_change"}"#,
            r#"{"id":"b","signal":"vehicle_speed","mode":"periodic","interval_ms":10}"#,
        ],
    );
    let err = compile_ruleset(&rs, &r1s(), "R1S", Some(5)).unwrap_err();
    let reasons: Vec<_> = err.0.iter().map(ValidationError::reason).collect();
    assert_eq!(
        reasons,
        [
            "not_newer",
            "model_mismatch",
            "invalid_rule",
            "invalid_rule"
        ]
    );
    assert_eq!(err.reason(), "not_newer");
}

#[test]
fn stages_make_up_the_whole() {
    let rs = ruleset_from(DEFAULT_RULESET);
    let batch = compile_rules(&rs, &r1s());
    let set = finish_ruleset(&rs, "R1S", None, Ok(batch)).unwrap();
    assert_eq!(set.version(), 1);
    assert_eq!(set.model(), "*");
    assert_eq!(set.rules()[3].id(), "hot_motor");
    assert_eq!(set.rules()[3].unit().map(String::as_str), Some("C"));
    assert!(set.rules()[3].condition().is_some());
    assert!(check_set(&rs, "R1S", None).is_empty());
    assert_eq!(check_set(&rs, "R1S", Some(1)).len(), 1);

    let failed = finish_ruleset(&rs, "R1S", Some(1), Err("no thread".into())).unwrap_err();
    let reasons: Vec<_> = failed.0.iter().map(ValidationError::reason).collect();
    assert_eq!(reasons, ["not_newer", "internal"]);
}

#[test]
fn problems_in_words() {
    assert_eq!(
        ValidationError::TooManyRules(300).message(),
        "300 rules exceeds the limit of 256"
    );
    assert_eq!(ValidationError::TooManyRules(300).reason(), "too_many_rules");
    let errs = errors(&ruleset(3, "R2", &[]), Some(7));
    let both = ValidationErrors(errs);
    assert_eq!(
        both.message(),
        format!("{}; {}", both.0[0].message(), both.0[1].message())
    );
    assert_eq!(ValidationErrors(vec![]).reason(), "internal");
}

#[test]
fn rule_ids() {
    for good in ["a", "_", "9", "soc_change", &"z".repeat(64)] {
        assert!(is_valid_rule_id(good), "{good}");
    }
    for bad in ["", "A", "a b", &"z".repeat(65)] {
        assert!(!is_valid_rule_id(bad), "{bad}");
    }
}

#[test]
fn reports_both_problems_of_a_rule() {
    let rule = r#"{"id":"a","signal":"nope","mode":"on_change","condition":"motor_temp >"}"#;
    let errs = errors(&ruleset(1, "*", &[rule]), None);
    let reasons: Vec<_> = errs.iter().map(ValidationError::reason).collect();
    assert_eq!(reasons, ["invalid_rule", "invalid_condition"]);
    assert!(errs[0].message().contains("unknown signal 'nope'"));
    assert!(errs[1].message().contains("syntax error"));
}

#[test]
fn reports_the_condition_of_a_duplicate_too() {
    let good = r#"{"id":"a","signal":"gear","mode":"on_change"}"#;
    let bad = r#"{"id":"a","signal":"gear","mode":"on_change","condition":"cabin_temp > 1"}"#;
    let errs = errors(&ruleset(1, "R1S", &[good, bad, good]), None);
    let reasons: Vec<_> = errs.iter().map(ValidationError::reason).collect();
    assert_eq!(reasons, ["invalid_rule", "invalid_condition", "invalid_rule"]);
    assert!(errs[0].message().contains("duplicate rule id"));
    assert!(errs[1].message().contains("unknown signal 'cabin_temp'"));
}
