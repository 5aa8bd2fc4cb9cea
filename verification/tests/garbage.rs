//! Malformed packets and what the decoder makes of them.

use serde_json::Value;
use telemetry_edge::catalog::{
    Catalog, CatalogError, CatalogSpec, Endian, SignalDef, SignalType,
};
use telemetry_edge::double::Double;
use telemetry_edge::enum_map::EnumMap;
use telemetry_edge::garbage::{malformed, packet, GarbageKind};
use telemetry_edge::rng::Rng;
use telemetry_edge::value::SignalValue;
use telemetry_edge::wire::{decode_packet, encode_frame, EncodeError, FrameErrorKind, RawFrame};

const R1S: &str = r#"{"model": "R1S", "catalog_version": 3, "signals": [
    {"id": 257, "name": "vehicle_speed", "type": "u16", "endian": "big", "scale": 0.01, "offset": 0.0, "unit": "km/h"},
    {"id": 258, "name": "battery_soc", "type": "u8", "endian": "little", "scale": 0.5, "offset": 0.0, "unit": "%"},
    {"id": 259, "name": "motor_temp", "type": "i16", "endian": "little", "scale": 0.1, "offset": -40.0, "unit": "C"},
    {"id": 300, "name": "gear", "type": "u8", "endian": "little", "enum": {"0": "P", "1": "R", "2": "N", "3": "D"}},
    {"id": 301, "name": "door_open", "type": "bool"}
]}"#;

const R2: &str = r#"{"model": "R2", "catalog_version": 1, "signals": [
    {"id": 1025, "name": "vehicle_speed", "type": "u32", "endian": "little", "scale": 0.001, "unit": "km/h"},
    {"id": 1026, "name": "battery_soc", "type": "u16", "endian": "big", "scale": 0.01, "unit": "%"},
    {"id": 1027, "name": "motor_temp", "type": "f32", "endian": "big", "unit": "C"},
    {"id": 1030, "name": "gear", "type": "u8", "enum": {"1": "P", "2": "R", "3": "N", "4": "D"}},
    {"id": 1031, "name": "door_open", "type": "bool"},
    {"id": 1040, "name": "cabin_temp", "type": "i16", "endian": "big", "scale": 0.1, "unit": "C"}
]}"#;

fn double(v: f64) -> Double {
    Double::from_bits(v.to_bits())
}

fn text(v: &Value) -> Option<String> {
    v.as_str().map(str::to_owned)
}

fn signal_type(name: &str) -> SignalType {
    match name {
        "bool" => SignalType::Bool,
        "u8" => SignalType::U8,
        "i8" => SignalType::I8,
        "u16" => SignalType::U16,
        "i16" => SignalType::I16,
        "u32" => SignalType::U32,
        "i32" => SignalType::I32,
        "u64" => SignalType::U64,
        "i64" => SignalType::I64,
        "f32" => SignalType::F32,
        "f64" => SignalType::F64,
        other => panic!("type {other}"),
    }
}

fn signal_def(v: &Value) -> SignalDef {
    SignalDef {
        id: v["id"].as_u64().unwrap() as u16,
        name: text(&v["name"]).unwrap(),
        ty: signal_type(v["type"].as_str().unwrap()),
        endian: v["endian"].as_str().map(|e| match e {
            "big" => Endian::Big,
            _ => Endian::Little,
        }),
        scale: double(v["scale"].as_f64().unwrap_or(1.0)),
        offset: double(v["offset"].as_f64().unwrap_or(0.0)),
        unit: text(&v["unit"]),
        enum_map: v["enum"].as_object().map(|m| {
            let mut map = EnumMap::new();
            for (code, label) in m {
                map.insert(code.clone(), text(label).unwrap());
            }
            map
        }),
    }
}

fn catalog(json: &str) -> Result<Catalog, CatalogError> {
    let v: Value = serde_json::from_str(json).unwrap();
    Catalog::new(CatalogSpec {
        model: text(&v["model"]).unwrap(),
        catalog_version: v["catalog_version"].as_u64().unwrap() as u32,
        signals: v["signals"]
            .as_array()
            .unwrap()
            .iter()
            .map(signal_def)
            .collect(),
    })
}

fn setup(json: &str) -> (Catalog, Vec<RawFrame>) {
    let cat = catalog(json).unwrap();
    let frames = cat
        .signals()
        .iter()
        .map(|s| {
            let v = match s.name() {
                "gear" => SignalValue::Enum("D".into()),
                "door_open" => SignalValue::Bool(false),
                _ => SignalValue::Num(double(20.0)),
            };
            encode_frame(s, 1, &v).unwrap()
        })
        .collect();
    (cat, frames)
}

fn reason_of(bytes: &[u8], cat: &Catalog) -> Vec<&'static str> {
    match decode_packet(bytes, cat) {
        Err(e) => vec![e.reason()],
        Ok(d) => d.errors.iter().map(|e| e.kind.reason()).collect(),
    }
}

#[test]
fn each_kind_triggers_its_decoder_path() {
    for json in [R1S, R2] {
        let (cat, frames) = setup(json);
        let n = frames.len();
        let mut rng = Rng::new(3);
        for _ in 0..50 {
            let mut make = |k| malformed(k, &frames, &cat, &mut rng).unwrap();
            assert_eq!(reason_of(&make(GarbageKind::BadMagic), &cat), ["bad_magic"]);
            assert_eq!(
                reason_of(&make(GarbageKind::BadVersion), &cat),
                ["bad_version"]
            );
            assert_eq!(
                reason_of(&make(GarbageKind::ZeroFrames), &cat),
                ["zero_frames"]
            );
            assert_eq!(reason_of(&make(GarbageKind::Oversize), &cat), ["oversize"]);

            let d = decode_packet(&make(GarbageKind::Truncated), &cat).unwrap();
            assert_eq!(d.samples.len(), n - 1);
            assert_eq!(d.errors[0].kind, FrameErrorKind::Truncated);

            let d = decode_packet(&make(GarbageKind::LengthMismatch), &cat).unwrap();
            assert_eq!(d.samples.len(), n - 1);
            assert_eq!(d.errors[0].kind.reason(), "length_mismatch");

            let d = decode_packet(&make(GarbageKind::UnknownSignal), &cat).unwrap();
            assert_eq!((d.samples.len(), d.unknown_signals), (n, 1));

            let d = decode_packet(&make(GarbageKind::TrailingBytes), &cat).unwrap();
            assert_eq!(d.samples.len(), n);
            assert_eq!(d.errors[0].kind.reason(), "trailing_bytes");

            let _ = decode_packet(&make(GarbageKind::RandomBytes), &cat);
        }
    }
}

#[test]
fn mix_is_roughly_half_valid() {
    let (cat, frames) = setup(R1S);
    let mut rng = Rng::new(9);
    let valid = (0..1000)
        .filter(|_| packet(&frames, &cat, &mut rng).unwrap().0.is_none())
        .count();
    assert!((400..600).contains(&valid), "{valid}");
}

#[test]
fn no_frames_no_packet() {
    let cat = catalog(R1S).unwrap();
    let mut rng = Rng::new(1);
    for kind in GarbageKind::ALL {
        let r = malformed(kind, &[], &cat, &mut rng);
        assert_eq!(r, Err(EncodeError::NoFrames), "{kind:?}");
    }
}
