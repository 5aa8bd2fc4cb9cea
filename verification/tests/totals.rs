//! Totals of the daemon's tasks.

use telemetry_edge::catalog::{Catalog, CatalogSpec, Endian, SignalDef, SignalType};
use telemetry_edge::clock::saturated_ms;
use telemetry_edge::condition::EvalError;
use telemetry_edge::counters::count;
use telemetry_edge::double::Double;
use telemetry_edge::engine::{EvalReport, LogRecord};
use telemetry_edge::engine_task::{sleep_ms, EngineStats, IDLE_SLEEP_MS};
use telemetry_edge::ingest::IngestStats;
use telemetry_edge::text_map::TextMap;
use telemetry_edge::value::SignalValue;
use telemetry_edge::wire::{encode_packet, PacketError, RawFrame};

fn catalog() -> Catalog {
    Catalog::new(CatalogSpec {
        model: "T".into(),
        catalog_version: 1,
        signals: vec![SignalDef {
            id: 7,
            name: "speed".into(),
            ty: SignalType::U16,
            endian: Some(Endian::Big),
            scale: Double::from_integer(1),
            offset: Double::from_integer(0),
            unit: None,
            enum_map: None,
        }],
    })
    .unwrap()
}

fn frame(signal_id: u16, payload: &[u8]) -> RawFrame {
    RawFrame {
        signal_id,
        timestamp_us: 1,
        payload: payload.to_vec(),
    }
}

#[test]
fn datagrams_are_accounted_for() {
    let cat = catalog();
    let mut stats = IngestStats::default();
    let good = encode_packet(&[
        frame(7, &[0, 9]),
        frame(8, &[1]),
        frame(7, &[1]),
        frame(7, &[1, 2, 3]),
    ])
    .unwrap();
    let decoded = stats.on_datagram(&good, &cat).unwrap();
    assert_eq!(decoded.samples.len(), 1);
    assert_eq!(
        stats.on_datagram(&[0; 3], &cat).unwrap_err(),
        PacketError::HeaderTruncated(3)
    );
    assert_eq!(
        stats.on_datagram(&[0; 4], &cat).unwrap_err(),
        PacketError::BadMagic(0)
    );
    assert_eq!(stats.packets, 3);
    assert_eq!(stats.bytes, good.len() as u64 + 7);
    assert_eq!((stats.frames_decoded, stats.unknown_signals), (1, 1));
    assert_eq!(stats.decode_errors.get("length_mismatch"), Some(&2));
    assert_eq!(stats.decode_errors.get("truncated"), Some(&1));
    assert_eq!(stats.decode_errors.get("bad_magic"), Some(&1));
    assert_eq!(stats.decode_errors.get("oversize"), None);
}

#[test]
fn reports_are_accounted_for() {
    let record = |rule: &str| LogRecord {
        ts_us: 1,
        vin: "V".into(),
        model: "M".into(),
        rule_id: rule.into(),
        ruleset_version: 1,
        signal: "speed".into(),
        value: SignalValue::Bool(true),
        unit: None,
    };
    let error = |rule: &str| (rule.to_owned(), EvalError::Execution("x".into()));
    let mut stats = EngineStats::default();
    stats.count_sample();
    let first = stats.count_report(&EvalReport {
        records: vec![record("a"), record("b"), record("a")],
        eval_errors: vec![error("e"), error("f"), error("e")],
        stale_skips: vec!["s".into()],
    });
    assert_eq!(first, [true, true, false]);
    let first = stats.count_report(&EvalReport {
        records: vec![],
        eval_errors: vec![error("f"), error("g")],
        stale_skips: vec!["s".into()],
    });
    assert_eq!(first, [false, true]);
    assert_eq!(stats.samples, 1);
    assert_eq!(stats.records.get("a"), Some(&2));
    assert_eq!(stats.records.get("b"), Some(&1));
    assert_eq!(stats.eval_errors.get("e"), Some(&2));
    assert_eq!(stats.eval_errors.get("f"), Some(&2));
    assert_eq!(stats.stale_skips.get("s"), Some(&2));
    assert_eq!(stats.stale_skips.get("a"), None);
}

#[test]
fn totals_stop_at_the_top() {
    let mut counts = TextMap::new();
    counts.insert("x".to_owned(), u64::MAX - 1);
    assert_eq!(count(&mut counts, "x"), u64::MAX);
    assert_eq!(count(&mut counts, "x"), u64::MAX);
    assert_eq!(count(&mut counts, "y"), 1);
    assert_eq!(counts.len(), 2);
}

#[test]
fn sleeps_until_the_deadline() {
    assert_eq!(sleep_ms(None, 5), IDLE_SLEEP_MS);
    assert_eq!(sleep_ms(Some(100), 30), 70);
    assert_eq!(sleep_ms(Some(100), 100), 0);
    assert_eq!(sleep_ms(Some(100), 130), 0);
}

#[test]
fn milliseconds_saturate() {
    assert_eq!(saturated_ms(1234), 1234);
    assert_eq!(saturated_ms(u128::from(u64::MAX) + 1), u64::MAX);
}
