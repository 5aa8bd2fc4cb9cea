//! The simulated vehicle.

use serde_json::Value;
use telemetry_edge::catalog::{
    Catalog, CatalogError, CatalogSpec, Endian, SignalDef, SignalType,
};
use telemetry_edge::double::Double;
use telemetry_edge::enum_map::EnumMap;
use telemetry_edge::rng::Rng;
use telemetry_edge::value::SignalValue;
use telemetry_edge::vehicle::{Behaviour, Gear, Vehicle, DRIVE_CYCLE_S, KNOWN_SIGNALS};
use telemetry_edge::wire::{decode_packet, encode_packet};

const R1S: &str = r#"{"model": "R1S", "catalog_version": 3, "signals": [
    {"id": 257, "name": "vehicle_speed", "type": "u16", "endian": "big", "scale": 0.01, "offset": 0.0, "unit": "km/h"},
    {"id": 258, "name": "battery_soc", "type": "u8", "endian": "little", "scale": 0.5, "offset": 0.0, "unit": "%"},
    {"id": 259, "name": "motor_temp", "type": "i16", "endian": "little", "scale": 0.1, "offset": -40.0, "unit": "C"},
    {"id": 300, "name": "gear", "type": "u8", "endian": "little", "enum": {"0": "P", "1": "R", "2": "N", "3": "D"}},
    {"id": 301, "name": "door_open", "type": "bool"}
]}"#;

const R2: &str = r#"{"model": "R2", "catalog_version": 1, "signals": [
    {"id": 1025, "name": "vehicle_speed", "type": "u32", "endian": "little", "scale": 0.001, "unit": "km/h"},
    {"id": 1026, "name": "battery_soc", "type": "u16", "endian": "big", "scale": 0.01, "unit": "%"},
    {"id": 1027, "name": "motor_temp", "type": "f32", "endian": "big", "unit": "C"},
    {"id": 1030, "name": "gear", "type": "u8", "enum": {"1": "P", "2": "R", "3": "N", "4": "D"}},
    {"id": 1031, "name": "door_open", "type": "bool"},
    {"id": 1040, "name": "cabin_temp", "type": "i16", "endian": "big", "scale": 0.1, "unit": "C"}
]}"#;

const CATALOGS: [&str; 2] = [R1S, R2];
const DT: f64 = 1.0 / 50.0;
const CYCLE_S: f64 = DRIVE_CYCLE_S as f64;

fn double(v: f64) -> Double {
    Double::from_bits(v.to_bits())
}

fn float(d: Double) -> f64 {
    f64::from_bits(d.to_bits())
}

fn text(v: &Value) -> Option<String> {
    v.as_str().map(str::to_owned)
}

fn signal_type(name: &str) -> SignalType {
    match name {
        "bool" => SignalType::Bool,
        "u8" => SignalType::U8,
        "i8" => SignalType::I8,
        "u16" => SignalType::U16,
        "i16" => SignalType::I16,
        "u32" => SignalType::U32,
        "i32" => SignalType::I32,
        "u64" => SignalType::U64,
        "i64" => SignalType::I64,
        "f32" => SignalType::F32,
        "f64" => SignalType::F64,
        other => panic!("type {other}"),
    }
}

fn signal_def(v: &Value) -> SignalDef {
    SignalDef {
        id: v["id"].as_u64().unwrap() as u16,
        name: text(&v["name"]).unwrap(),
        ty: signal_type(v["type"].as_str().unwrap()),
        endian: v["endian"].as_str().map(|e| match e {
            "big" => Endian::Big,
            _ => Endian::Little,
        }),
        scale: double(v["scale"].as_f64().unwrap_or(1.0)),
        offset: double(v["offset"].as_f64().unwrap_or(0.0)),
        unit: text(&v["unit"]),
        enum_map: v["enum"].as_object().map(|m| {
            let mut map = EnumMap::new();
            for (code, label) in m {
                map.insert(code.clone(), text(label).unwrap());
            }
            map
        }),
    }
}

fn catalog(json: &str) -> Result<Catalog, CatalogError> {
    let v: Value = serde_json::from_str(json).unwrap();
    Catalog::new(CatalogSpec {
        model: text(&v["model"]).unwrap(),
        catalog_version: v["catalog_version"].as_u64().unwrap() as u32,
        signals: v["signals"]
            .as_array()
            .unwrap()
            .iter()
            .map(signal_def)
            .collect(),
    })
}

fn step(v: &mut Vehicle, dt: f64, rng: &mut Rng) {
    let (cruise, cabin) = v.wave_angles(double(dt));
    v.step(
        double(dt),
        double(float(cruise).sin()),
        double(float(cabin).sin()),
        rng,
    );
}

fn run(behaviour: Behaviour, seconds: f64) -> Vec<Vehicle> {
    let mut rng = Rng::new(42);
    let mut v = Vehicle::new(behaviour);
    (0..(seconds / DT) as usize)
        .map(|_| {
            step(&mut v, DT, &mut rng);
            v
        })
        .collect()
}

#[test]
fn drive_cycle_shape() {
    let states = run(Behaviour::Drive, 2.0 * CYCLE_S);
    let max_speed = states.iter().map(|s| float(s.speed_kmh)).fold(0.0, f64::max);
    assert!((100.0..=125.0).contains(&max_speed), "{max_speed}");
    assert!(states
        .iter()
        .any(|s| s.gear == Gear::D && float(s.motor_temp_c) > 90.0));
    assert!(states
        .iter()
        .all(|s| s.gear == Gear::D || float(s.speed_kmh) == 0.0));
    assert!(states.iter().all(|s| s.gear == Gear::P || !s.door_open));
    assert!(float(states.last().unwrap().soc_pct) < 80.0);
    // Gear goes P -> D -> P within one cycle.
    let gears: Vec<Gear> = states.iter().map(|s| s.gear).collect();
    let changes = gears.windows(2).filter(|w| w[0] != w[1]).count();
    assert_eq!(changes, 4, "two P->D->P cycles");
}

#[test]
fn speed_is_smooth() {
    let states = run(Behaviour::Drive, CYCLE_S);
    let max_jump = states
        .windows(2)
        .map(|w| (float(w[1].speed_kmh) - float(w[0].speed_kmh)).abs())
        .fold(0.0, f64::max);
    assert!(max_jump < 2.0, "speed jumped {max_jump} km/h in one tick");
}

#[test]
fn park_stays_parked_and_toggles_door() {
    let states = run(Behaviour::Park, 120.0);
    assert!(states
        .iter()
        .all(|s| s.gear == Gear::P && float(s.speed_kmh) == 0.0));
    assert!(states.iter().any(|s| s.door_open));
    assert!(states.iter().any(|s| !s.door_open));
}

#[test]
fn every_state_encodes_and_decodes_for_both_catalogs() {
    for json in CATALOGS {
        let cat = catalog(json).unwrap();
        for behaviour in [Behaviour::Drive, Behaviour::Park] {
            for (i, state) in run(behaviour, CYCLE_S).iter().enumerate() {
                let frames = state.frames(&cat, i as u64).unwrap();
                assert_eq!(frames.len(), cat.signals().len());
                let bytes = encode_packet(&frames).unwrap();
                let d = decode_packet(&bytes, &cat).unwrap();
                assert!(d.errors.is_empty() && d.unknown_signals == 0);
                let speed = d
                    .samples
                    .iter()
                    .find(|s| s.name == "vehicle_speed")
                    .and_then(|s| s.value.as_num())
                    .unwrap();
                assert!((float(speed) - float(state.speed_kmh)).abs() < 0.01);
            }
        }
    }
}

#[test]
fn a_new_vehicle_is_parked() {
    for behaviour in [Behaviour::Drive, Behaviour::Park] {
        let v = Vehicle::new(behaviour);
        assert_eq!((v.gear, v.door_open), (Gear::P, false));
        assert_eq!(float(v.speed_kmh), 0.0);
        assert_eq!(float(v.soc_pct), 80.0);
    }
}

#[test]
fn values_by_name() {
    let v = Vehicle::new(Behaviour::Park);
    for name in KNOWN_SIGNALS {
        assert!(v.value(name).is_some(), "{name}");
    }
    assert_eq!(v.value("gear"), Some(SignalValue::Enum("P".into())));
    assert_eq!(v.value("door_open"), Some(SignalValue::Bool(false)));
    assert_eq!(v.value("warp_speed"), None);
    let labels: Vec<&str> = [Gear::P, Gear::D].iter().map(|g| g.label()).collect();
    assert_eq!(labels, ["P", "D"]);
}

/// The vehicle in hardware floating point, with its own generator.
struct Twin {
    state: u64,
    behaviour: Behaviour,
    t_s: f64,
    speed_kmh: f64,
    soc_pct: f64,
    motor_temp_c: f64,
    cabin_temp_c: f64,
    gear: Gear,
    door_open: bool,
}

impl Twin {
    fn fraction(&mut self) -> f64 {
        let mut x = self.state;
        x ^= x >> 12;
        x ^= x << 25;
        x ^= x >> 27;
        self.state = x;
        (x.wrapping_mul(0x2545_F491_4F6C_DD1D) >> 11) as f64 / (1u64 << 53) as f64
    }

    fn noise(&mut self, amp: f64) -> f64 {
        (self.fraction() * 2.0 - 1.0) * amp
    }

    fn step(&mut self, dt_s: f64) {
        self.t_s += dt_s;
        match self.behaviour {
            Behaviour::Drive => self.step_drive(),
            Behaviour::Park => {
                self.gear = Gear::P;
                self.speed_kmh = 0.0;
            }
        }
        let target_temp = 25.0 + self.speed_kmh * 0.65;
        self.motor_temp_c += (target_temp - self.motor_temp_c) * (dt_s / 8.0).min(1.0);
        self.soc_pct = (self.soc_pct - dt_s * (0.0002 + self.speed_kmh * 0.00015)).max(5.0);
        self.cabin_temp_c = 21.0 + 1.5 * (self.t_s / 40.0).sin() + self.noise(0.05);
        if self.gear == Gear::P {
            let toggles_per_s = if self.behaviour == Behaviour::Park {
                0.15
            } else {
                0.1
            };
            if self.fraction() < toggles_per_s * dt_s {
                self.door_open = !self.door_open;
            }
        } else {
            self.door_open = false;
        }
    }

    fn step_drive(&mut self) {
        let smoothstep = |x: f64| {
            let x = x.clamp(0.0, 1.0);
            x * x * (3.0 - 2.0 * x)
        };
        let phase = self.t_s % CYCLE_S;
        self.gear = if (3.0..52.0).contains(&phase) {
            Gear::D
        } else {
            Gear::P
        };
        let envelope = smoothstep((phase - 5.0) / 10.0).min(smoothstep((47.0 - phase) / 10.0));
        let target = envelope * (110.0 + 8.0 * (phase * 0.5).sin());
        self.speed_kmh = if envelope > 0.0 {
            (target + self.noise(0.3)).max(0.0)
        } else {
            0.0
        };
    }
}

fn scrambled(seed: u64) -> u64 {
    let mut z = seed.wrapping_add(0x9E37_79B9_7F4A_7C15);
    z = (z ^ (z >> 30)).wrapping_mul(0xBF58_476D_1CE4_E5B9);
    z = (z ^ (z >> 27)).wrapping_mul(0x94D0_49BB_1331_11EB);
    z ^ (z >> 31)
}

/// The same steps in hardware floating point give the same bits.
#[test]
fn steps_match_hardware_arithmetic() {
    for (behaviour, seed, dt) in [
        (Behaviour::Drive, 7, DT),
        (Behaviour::Park, 8, DT),
        (Behaviour::Drive, 9, 0.7),
    ] {
        let mut rng = Rng::new(seed);
        let mut v = Vehicle::new(behaviour);
        let mut twin = Twin {
            state: scrambled(seed),
            behaviour,
            t_s: 0.0,
            speed_kmh: 0.0,
            soc_pct: 80.0,
            motor_temp_c: 25.0,
            cabin_temp_c: 21.0,
            gear: Gear::P,
            door_open: false,
        };
        for _ in 0..7000 {
            step(&mut v, dt, &mut rng);
            twin.step(dt);
            assert_eq!(v.t_s.to_bits(), twin.t_s.to_bits());
            assert_eq!(v.speed_kmh.to_bits(), twin.speed_kmh.to_bits());
            assert_eq!(v.soc_pct.to_bits(), twin.soc_pct.to_bits());
            assert_eq!(v.motor_temp_c.to_bits(), twin.motor_temp_c.to_bits());
            assert_eq!(v.cabin_temp_c.to_bits(), twin.cabin_temp_c.to_bits());
            assert_eq!((v.gear, v.door_open), (twin.gear, twin.door_open));
        }
    }
}

#[test]
fn speed_and_charge_have_floors() {
    let mut rng = Rng::new(5);
    let mut v = Vehicle::new(Behaviour::Drive);
    for _ in 0..2000 {
        let before = float(v.soc_pct);
        step(&mut v, 13.7, &mut rng);
        assert!(float(v.soc_pct) <= before);
        assert!(float(v.speed_kmh) >= 0.0);
        assert!(float(v.soc_pct) >= 5.0);
    }
    assert_eq!(float(v.soc_pct), 5.0);
    step(&mut v, f64::NAN, &mut rng);
    assert_eq!(float(v.soc_pct), 5.0);
    assert_eq!((v.gear, float(v.speed_kmh)), (Gear::P, 0.0));
}
