//! Catalog validation and lookups.

use serde_json::Value;
use telemetry_edge::catalog::{
    Catalog, CatalogError, CatalogSpec, Endian, SignalDef, SignalType, ValueKind,
};
use telemetry_edge::double::Double;
use telemetry_edge::enum_map::EnumMap;
use telemetry_edge::catalog::is_valid_signal_name;

const R1S: &str = r#"{"model": "R1S", "catalog_version": 3, "signals": [
    {"id": 257, "name": "vehicle_speed", "type": "u16", "endian": "big", "scale": 0.01, "offset": 0.0, "unit": "km/h"},
    {"id": 258, "name": "battery_soc", "type": "u8", "endian": "little", "scale": 0.5, "offset": 0.0, "unit": "%"},
    {"id": 259, "name": "motor_temp", "type": "i16", "endian": "little", "scale": 0.1, "offset": -40.0, "unit": "C"},
    {"id": 300, "name": "gear", "type": "u8", "endian": "little", "enum": {"0": "P", "1": "R", "2": "N", "3": "D"}},
    {"id": 301, "name": "door_open", "type": "bool"}
]}"#;

const R2: &str = r#"{"model": "R2", "catalog_version": 1, "signals": [
    {"id": 1025, "name": "vehicle_speed", "type": "u32", "endian": "little", "scale": 0.001, "unit": "km/h"},
    {"id": 1026, "name": "battery_soc", "type": "u16", "endian": "big", "scale": 0.01, "unit": "%"},
    {"id": 1027, "name": "motor_temp", "type": "f32", "endian": "big", "unit": "C"},
    {"id": 1030, "name": "gear", "type": "u8", "enum": {"1": "P", "2": "R", "3": "N", "4": "D"}},
    {"id": 1031, "name": "door_open", "type": "bool"},
    {"id": 1040, "name": "cabin_temp", "type": "i16", "endian": "big", "scale": 0.1, "unit": "C"}
]}"#;

fn double(v: f64) -> Double {
    Double::from_bits(v.to_bits())
}

fn text(v: &Value) -> Option<String> {
    v.as_str().map(str::to_owned)
}

fn signal_type(name: &str) -> SignalType {
    match name {
        "bool" => SignalType::Bool,
        "u8" => SignalType::U8,
        "i8" => SignalType::I8,
        "u16" => SignalType::U16,
        "i16" => SignalType::I16,
        "u32" => SignalType::U32,
        "i32" => SignalType::I32,
        "u64" => SignalType::U64,
        "i64" => SignalType::I64,
        "f32" => SignalType::F32,
        "f64" => SignalType::F64,
        other => panic!("type {other}"),
    }
}

fn signal_def(v: &Value) -> SignalDef {
    SignalDef {
        id: v["id"].as_u64().unwrap() as u16,
        name: text(&v["name"]).unwrap(),
        ty: signal_type(v["type"].as_str().unwrap()),
        endian: v["endian"].as_str().map(|e| match e {
            "big" => Endian::Big,
            _ => Endian::Little,
        }),
        scale: double(v["scale"].as_f64().unwrap_or(1.0)),
        offset: double(v["offset"].as_f64().unwrap_or(0.0)),
        unit: text(&v["unit"]),
        enum_map: v["enum"].as_object().map(|m| {
            let mut map = EnumMap::new();
            for (code, label) in m {
                map.insert(code.clone(), text(label).unwrap());
            }
            map
        }),
    }
}

fn catalog(json: &str) -> Result<Catalog, CatalogError> {
    let v: Value = serde_json::from_str(json).unwrap();
    Catalog::new(CatalogSpec {
        model: text(&v["model"]).unwrap(),
        catalog_version: v["catalog_version"].as_u64().unwrap() as u32,
        signals: v["signals"]
            .as_array()
            .unwrap()
            .iter()
            .map(signal_def)
            .collect(),
    })
}

fn one_signal(signal: &str) -> Result<Catalog, CatalogError> {
    catalog(&format!(
        r#"{{"model":"T","catalog_version":1,"signals":[{signal}]}}"#
    ))
}

#[test]
fn shipped_catalogs_load() {
    let r1s = catalog(R1S).unwrap();
    let r2 = catalog(R2).unwrap();
    assert_eq!(r1s.model(), "R1S");
    assert_eq!(r2.model(), "R2");
}

#[test]
fn shared_names_differ_in_id_and_endianness() {
    let r1s = catalog(R1S).unwrap();
    let r2 = catalog(R2).unwrap();
    let mut endian_differs = false;
    for name in [
        "vehicle_speed",
        "battery_soc",
        "motor_temp",
        "gear",
        "door_open",
    ] {
        let a = r1s.by_name(name).unwrap();
        let b = r2.by_name(name).unwrap();
        assert_ne!(a.id(), b.id(), "{name} should have different ids");
        assert_eq!(a.kind(), b.kind(), "{name} should decode to the same kind");
        endian_differs |= a.ty().size() > 1 && b.ty().size() > 1 && a.endian() != b.endian();
    }
    assert!(endian_differs);
    let speed = r2.by_name("vehicle_speed").unwrap();
    assert_eq!(
        (speed.id(), speed.ty(), speed.endian()),
        (1025, SignalType::U32, Endian::Little)
    );
}

#[test]
fn lookups_by_id_and_name() {
    let cat = catalog(R1S).unwrap();
    assert_eq!(cat.by_id(257).unwrap().name(), "vehicle_speed");
    assert_eq!(cat.by_name("gear").unwrap().id(), 300);
    assert_eq!(cat.by_name("gear").unwrap().kind(), ValueKind::Enum);
    assert_eq!(cat.by_name("door_open").unwrap().kind(), ValueKind::Bool);
    assert!(cat.by_id(9999).is_none());
}

#[test]
fn name_pattern() {
    for ok in ["a", "vehicle_speed", "x9_", &"a".repeat(64)] {
        assert!(is_valid_signal_name(ok), "{ok}");
    }
    for bad in ["", "9a", "_a", "Speed", "a-b", "a b", &"a".repeat(65)] {
        assert!(!is_valid_signal_name(bad), "{bad}");
    }
}

#[test]
fn rejects_duplicate_id() {
    let err = one_signal(r#"{"id":1,"name":"a","type":"u8"},{"id":1,"name":"b","type":"u8"}"#)
        .unwrap_err();
    assert!(matches!(err, CatalogError::DuplicateId(1)));
}

#[test]
fn rejects_duplicate_name() {
    let err = one_signal(r#"{"id":1,"name":"a","type":"u8"},{"id":2,"name":"a","type":"u8"}"#)
        .unwrap_err();
    assert!(matches!(err, CatalogError::DuplicateName(n) if n == "a"));
}

#[test]
fn rejects_invalid_name() {
    let err = one_signal(r#"{"id":1,"name":"Speed","type":"u8"}"#).unwrap_err();
    assert!(matches!(err, CatalogError::InvalidName(_)));
}

#[test]
fn requires_endian_for_multibyte_only() {
    let err = one_signal(r#"{"id":1,"name":"a","type":"u16"}"#).unwrap_err();
    assert!(matches!(err, CatalogError::MissingEndian(_)));
    one_signal(r#"{"id":1,"name":"a","type":"u8"}"#).unwrap();
    one_signal(r#"{"id":1,"name":"a","type":"bool"}"#).unwrap();
}

#[test]
fn rejects_zero_scale() {
    let err = one_signal(r#"{"id":1,"name":"a","type":"u8","scale":0}"#).unwrap_err();
    assert!(matches!(err, CatalogError::InvalidScaleOffset(_)));
}

#[test]
fn rejects_bad_enums() {
    for sig in [
        r#"{"id":1,"name":"a","type":"f32","endian":"big","enum":{"0":"P"}}"#,
        r#"{"id":1,"name":"a","type":"bool","enum":{"0":"P"}}"#,
        r#"{"id":1,"name":"a","type":"u8","enum":{}}"#,
        r#"{"id":1,"name":"a","type":"u8","enum":{"x":"P"}}"#,
        r#"{"id":1,"name":"a","type":"u8","enum":{"256":"P"}}"#,
        r#"{"id":1,"name":"a","type":"u8","enum":{"0":"P","1":"P"}}"#,
        r#"{"id":1,"name":"a","type":"u8","enum":{"0":""}}"#,
    ] {
        let err = one_signal(sig).unwrap_err();
        assert!(
            matches!(err, CatalogError::InvalidEnum { .. }),
            "{sig}: {}",
            err.message()
        );
    }
}

#[test]
fn rejects_empty_model() {
    let err = catalog(r#"{"model":" ","catalog_version":1,"signals":[]}"#).unwrap_err();
    assert!(matches!(err, CatalogError::EmptyModel));
}

#[test]
fn document_is_rebuilt() {
    let cat = catalog(R1S).unwrap();
    let again = Catalog::new(cat.to_spec()).unwrap();
    assert_eq!(again.to_spec(), cat.to_spec());
    assert_eq!(cat.to_spec().signals.len(), 5);
    assert_eq!(cat.catalog_version(), 3);
    for signal in cat.signals() {
        assert_eq!(cat.by_id(signal.id()).unwrap().name(), signal.name());
        assert_eq!(cat.by_name(signal.name()).unwrap().id(), signal.id());
    }
}

#[test]
fn faults_in_words() {
    let words = |signal: &str| one_signal(signal).unwrap_err().message();
    assert_eq!(
        words(r#"{"id":7,"name":"a","type":"u8"},{"id":7,"name":"b","type":"u8"}"#),
        "duplicate signal id 7"
    );
    assert_eq!(
        words(r#"{"id":1,"name":"A","type":"u8"}"#),
        "invalid signal name 'A' (must match ^[a-z][a-z0-9_]{0,63}$)"
    );
    assert_eq!(
        words(r#"{"id":1,"name":"a","type":"i32"}"#),
        "signal 'a' is multi-byte and must declare 'endian'"
    );
    assert_eq!(
        words(r#"{"id":1,"name":"a","type":"bool","enum":{"0":"P"}}"#),
        "signal 'a' has an invalid enum: enum requires an integer type, got Bool"
    );
    assert_eq!(
        words(r#"{"id":1,"name":"a","type":"i8","enum":{"-129":"P"}}"#),
        "signal 'a' has an invalid enum: key -129 is out of range for I8"
    );
    assert_eq!(
        words(r#"{"id":1,"name":"a","type":"u8","enum":{"x":"P"}}"#),
        "signal 'a' has an invalid enum: key 'x' is not an integer"
    );
    assert_eq!(
        words(r#"{"id":1,"name":"a","type":"u8","enum":{"5":""}}"#),
        "signal 'a' has an invalid enum: key 5 has an empty label"
    );
    assert_eq!(
        words(r#"{"id":1,"name":"a","type":"u8","enum":{"0":"P","1":"P"}}"#),
        "signal 'a' has an invalid enum: duplicate label 'P'"
    );
    assert_eq!(
        words(r#"{"id":1,"name":"a","type":"u8","enum":{}}"#),
        "signal 'a' has an invalid enum: enum map is empty"
    );
    assert_eq!(CatalogError::EmptyModel.message(), "catalog model must not be empty");
    assert_eq!(
        CatalogError::DuplicateName("x".into()).message(),
        "duplicate signal name 'x'"
    );
    assert_eq!(
        CatalogError::InvalidScaleOffset("x".into()).message(),
        "signal 'x' has a non-finite or zero scale, or a non-finite offset"
    );
}

#[test]
fn enum_codes_and_labels() {
    let cat = catalog(R1S).unwrap();
    let gear = cat.by_name("gear").unwrap();
    assert_eq!(gear.enum_label(3), Some("D"));
    assert_eq!(gear.enum_label(4), None);
    assert_eq!(gear.enum_raw("R"), Some(1));
    assert_eq!(gear.enum_raw("X"), None);
    assert_eq!(gear.unit(), None);
    assert_eq!(cat.by_name("battery_soc").unwrap().unit(), Some("%"));
    // Two spellings of one code: the later entry names it, both labels encode to it.
    let twice = one_signal(r#"{"id":1,"name":"a","type":"u8","enum":{"01":"B","1":"A"}}"#).unwrap();
    let a = twice.by_id(1).unwrap();
    assert_eq!(a.enum_label(1), Some("A"));
    assert_eq!((a.enum_raw("A"), a.enum_raw("B")), (Some(1), Some(1)));
}

#[test]
fn integer_ranges_and_sizes() {
    let sizes: Vec<usize> = SignalType::ALL.iter().map(|t| t.size()).collect();
    assert_eq!(sizes, [1, 1, 1, 2, 2, 4, 4, 8, 8, 4, 8]);
    assert_eq!(SignalType::I64.int_range(), Some((i64::MIN as i128, i64::MAX as i128)));
    assert_eq!(SignalType::U64.int_range(), Some((0, u64::MAX as i128)));
    assert_eq!(SignalType::U16.int_range(), Some((0, 65535)));
    assert_eq!(SignalType::Bool.int_range(), None);
    assert_eq!(SignalType::F32.int_range(), None);
    assert!(SignalType::F64.is_float() && !SignalType::U64.is_float());
}

#[test]
fn enum_entries_are_kept_in_order() {
    let mut map = EnumMap::new();
    for (code, label) in [("2", "N"), ("10", "X"), ("0", "P"), ("2", "M"), ("1", "R")] {
        map.insert(code.into(), label.into());
    }
    let entries: Vec<(&str, &str)> = (0..map.len())
        .map(|i| (map.code_at(i), map.label_at(i)))
        .collect();
    assert_eq!(entries, [("0", "P"), ("1", "R"), ("10", "X"), ("2", "M")]);
    assert_eq!(map.clone(), map);
}
