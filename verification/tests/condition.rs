//! Rule conditions: what compiles, and what it evaluates to.

use serde_json::Value;
use telemetry_edge::catalog::{
    Catalog, CatalogError, CatalogSpec, Endian, SignalDef, SignalType,
};
use telemetry_edge::double::Double;
use telemetry_edge::enum_map::EnumMap;
use telemetry_edge::condition::{check_ast, verdict, Condition, EvalError};
use telemetry_edge::expression::{Expr, LiteralKind, Outcome, MAX_CONDITION_CHARS};
use telemetry_edge::text_map::TextMap;
use telemetry_edge::value::SignalValue;

const R1S: &str = r#"{"model": "R1S", "catalog_version": 3, "signals": [
    {"id": 257, "name": "vehicle_speed", "type": "u16", "endian": "big", "scale": 0.01, "offset": 0.0, "unit": "km/h"},
    {"id": 258, "name": "battery_soc", "type": "u8", "endian": "little", "scale": 0.5, "offset": 0.0, "unit": "%"},
    {"id": 259, "name": "motor_temp", "type": "i16", "endian": "little", "scale": 0.1, "offset": -40.0, "unit": "C"},
    {"id": 300, "name": "gear", "type": "u8", "endian": "little", "enum": {"0": "P", "1": "R", "2": "N", "3": "D"}},
    {"id": 301, "name": "door_open", "type": "bool"}
]}"#;

fn double(v: f64) -> Double {
    Double::from_bits(v.to_bits())
}

fn text(v: &Value) -> Option<String> {
    v.as_str().map(str::to_owned)
}

fn signal_type(name: &str) -> SignalType {
    match name {
        "bool" => SignalType::Bool,
        "u8" => SignalType::U8,
        "i8" => SignalType::I8,
        "u16" => SignalType::U16,
        "i16" => SignalType::I16,
        "u32" => SignalType::U32,
        "i32" => SignalType::I32,
        "u64" => SignalType::U64,
        "i64" => SignalType::I64,
        "f32" => SignalType::F32,
        "f64" => SignalType::F64,
        other => panic!("type {other}"),
    }
}

fn signal_def(v: &Value) -> SignalDef {
    SignalDef {
        id: v["id"].as_u64().unwrap() as u16,
        name: text(&v["name"]).unwrap(),
        ty: signal_type(v["type"].as_str().unwrap()),
        endian: v["endian"].as_str().map(|e| match e {
            "big" => Endian::Big,
            _ => Endian::Little,
        }),
        scale: double(v["scale"].as_f64().unwrap_or(1.0)),
        offset: double(v["offset"].as_f64().unwrap_or(0.0)),
        unit: text(&v["unit"]),
        enum_map: v["enum"].as_object().map(|m| {
            let mut map = EnumMap::new();
            for (code, label) in m {
                map.insert(code.clone(), text(label).unwrap());
            }
            map
        }),
    }
}

fn catalog(json: &str) -> Result<Catalog, CatalogError> {
    let v: Value = serde_json::from_str(json).unwrap();
    Catalog::new(CatalogSpec {
        model: text(&v["model"]).unwrap(),
        catalog_version: v["catalog_version"].as_u64().unwrap() as u32,
        signals: v["signals"]
            .as_array()
            .unwrap()
            .iter()
            .map(signal_def)
            .collect(),
    })
}

fn compile(src: &str) -> Result<Condition, String> {
    Condition::compile(src, &catalog(R1S).unwrap())
}

fn eval(src: &str, values: &[(&str, SignalValue)]) -> Result<bool, EvalError> {
    let mut latest = TextMap::new();
    for (name, value) in values {
        latest.insert((*name).to_owned(), value.clone());
    }
    compile(src).unwrap().evaluate(&latest)
}

fn num(n: f64) -> SignalValue {
    SignalValue::Num(double(n))
}

fn label(s: &str) -> SignalValue {
    SignalValue::Enum(s.into())
}

#[test]
fn evaluates_numbers_enums_and_bools() {
    let hot = [("motor_temp", num(95.0)), ("gear", label("D"))];
    assert_eq!(eval("motor_temp > 90.0 && gear == 'D'", &hot), Ok(true));
    assert_eq!(eval("motor_temp > 90 && gear == 'D'", &hot), Ok(true));
    let cool = [("motor_temp", num(80.0)), ("gear", label("D"))];
    assert_eq!(eval("motor_temp > 90 && gear == 'D'", &cool), Ok(false));
    let door = [("door_open", SignalValue::Bool(true))];
    assert_eq!(eval("door_open", &door), Ok(true));
    assert_eq!(eval("!door_open", &door), Ok(false));
    assert_eq!(
        eval(
            "vehicle_speed * 2.0 - 10.0 >= 50.0",
            &[("vehicle_speed", num(30.0))]
        ),
        Ok(true)
    );
}

#[test]
fn missing_signal_is_false_not_error() {
    assert_eq!(
        eval("motor_temp > 90 && gear == 'D'", &[("gear", label("D"))]),
        Ok(false)
    );
}

#[test]
fn runtime_type_errors_are_errors() {
    let r = eval("gear > 1", &[("gear", label("D"))]);
    assert!(matches!(r, Err(EvalError::Execution(_))), "{r:?}");
    let r = eval("motor_temp + 1.0", &[("motor_temp", num(1.0))]);
    assert!(matches!(r, Err(EvalError::NotBool(_))), "{r:?}");
}

#[test]
fn records_referenced_signals() {
    let c = compile("gear == 'D' && motor_temp > 90.0 || gear == 'R'").unwrap();
    assert_eq!(c.signals(), ["gear", "motor_temp"]);
}

#[test]
fn rejects_unsafe_or_invalid_conditions() {
    for (src, needle) in [
        ("unknown_sig > 1", "unknown signal"),
        ("motor_temp >", "syntax error"),
        ("size(gear) == 1", "not allowed"),
        ("gear.size() == 1", "not allowed"),
        ("[1, 2].all(x, x > 0)", "not allowed"),
        ("motor_temp in [1, 2]", "not allowed"),
        ("{'a': 1}['a'] == 1", "not allowed"),
        ("gear.name == 'D'", "field access"),
        ("gear == null", "null"),
        ("   ", "empty"),
    ] {
        let err = compile(src).unwrap_err();
        assert!(err.contains(needle), "{src}: {err}");
    }
}

#[test]
fn enforces_length_limit() {
    let long = format!("motor_temp > {}", "1".repeat(MAX_CONDITION_CHARS));
    assert!(compile(&long).unwrap_err().contains("characters"));
    let ok = format!("motor_temp > 1{}", " ".repeat(MAX_CONDITION_CHARS - 14));
    assert_eq!(ok.chars().count(), MAX_CONDITION_CHARS);
    compile(&ok).unwrap();
}

/// The parser balances `&&` chains, so a long one is shallow; a `+` chain is not.
#[test]
fn nesting_is_bounded() {
    let shallow = format!("{}true", "true && ".repeat(60));
    assert_eq!(eval(&shallow, &[]), Ok(true));
    let chain = |n: usize| format!("motor_temp{} > 0.0", " + motor_temp".repeat(n));
    assert_eq!(eval(&chain(22), &[("motor_temp", num(1.0))]), Ok(true));
    assert_eq!(
        compile(&chain(23)).unwrap_err(),
        "condition is nested too deeply (limit 24)"
    );
}

#[test]
fn numbers_reach_the_expression_exactly() {
    for v in [
        0.1,
        -0.0,
        1.0e300,
        5.0e-324,
        f64::MAX,
        63.4,
        123_456_789.123_456_79,
    ] {
        let src = format!("motor_temp == {v:e}");
        assert_eq!(eval(&src, &[("motor_temp", num(v))]), Ok(true), "{src}");
        let next = f64::from_bits(v.to_bits() + 1);
        if next.is_finite() {
            assert_eq!(eval(&src, &[("motor_temp", num(next))]), Ok(false), "{src}");
        }
    }
    assert_eq!(
        eval("motor_temp > 1.0", &[("motor_temp", num(f64::INFINITY))]),
        Ok(true)
    );
    assert_eq!(
        eval("motor_temp == motor_temp", &[("motor_temp", num(f64::NAN))]),
        Ok(false)
    );
}

#[test]
fn verdicts() {
    assert_eq!(verdict(Outcome::Bool(true)), Ok(true));
    assert_eq!(verdict(Outcome::Bool(false)), Ok(false));
    assert_eq!(
        verdict(Outcome::Other("int".into())).unwrap_err().message(),
        "condition returned a non-boolean value: int"
    );
    assert_eq!(
        verdict(Outcome::Failed("no such key".into()))
            .unwrap_err()
            .message(),
        "evaluation failed: no such key"
    );
}

#[test]
fn trees_are_walked_in_order() {
    let cat = catalog(R1S).unwrap();
    let tree = Expr::Call {
        on_target: false,
        func: "_&&_".into(),
        args: vec![Expr::Ident("motor_temp".into()), Expr::Ident("gear".into())],
    };
    assert_eq!(check_ast(&tree, &cat).unwrap(), ["gear", "motor_temp"]);
    let bad = Expr::Call {
        on_target: false,
        func: "size".into(),
        args: vec![Expr::Ident("nope".into())],
    };
    assert!(check_ast(&bad, &cat).unwrap_err().contains("'size'"));
    assert_eq!(check_ast(&Expr::Literal(LiteralKind::Int), &cat), Ok(vec![]));
}

fn assert_send_sync<T: Send + Sync>() {}

/// Compiled rule sets are shared across threads.
#[test]
fn conditions_are_shared_across_threads() {
    assert_send_sync::<Condition>();
}
