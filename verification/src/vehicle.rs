//! Simulated vehicle state with smoothly varying physical values.

use crate::catalog::{signal_models, Catalog, DefModel, Signal};
use crate::codec::encoded;
use crate::double::{
    law_order_is_value_order, magnitude_exponent, magnitude_of, magnitude_significand,
    one_in_units, Double,
};
use crate::precision::{
    law_neutral_numbers, law_small_integers_are_exact, lemma_difference_not_larger,
    lemma_exact_is_kept, lemma_product_not_below_zero, lemma_quotient_error, lemma_rounding_error,
    lemma_rounds_to_finite, lemma_sign_and_magnitude, lemma_signed, lemma_sum_error,
    lemma_sum_not_below_zero,
};
use crate::rng::{drawn_fraction, drawn_noise, stepped, Rng};
use crate::rounding::lemma_pow2_monotonic;
use crate::text::same_text;
use crate::value::{SignalValue, ValueModel};
use crate::wire::{encode_frame, frame_models, EncodeError, EncodeFault, FrameModel, RawFrame};
use vstd::arithmetic::power2::{
    lemma2_to64, lemma2_to64_rest, lemma_pow2_adds, lemma_pow2_pos, lemma_pow2_unfold, pow2,
};
use vstd::prelude::*;

verus! {

/// Length of one drive cycle in seconds: park, drive (ramp up, cruise, ramp
/// down), park.
pub const DRIVE_CYCLE_S: u32 = 60;

/// Signal names the simulator knows how to generate.
pub const KNOWN_SIGNALS: [&'static str; 6] = [
    "vehicle_speed",
    "battery_soc",
    "motor_temp",
    "gear",
    "door_open",
    "cabin_temp",
];

/// Bit pattern of 0.65: degrees of motor temperature for each km/h.
pub const HEAT_PER_KMH: u64 = 0x3fe4_cccc_cccc_cccd;

/// Bit pattern of 0.0002: percent of charge lost in a second.
pub const IDLE_DRAIN: u64 = 0x3f2a_36e2_eb1c_432d;

/// Bit pattern of 0.00015: percent of charge lost in a second for each km/h.
pub const DRAIN_PER_KMH: u64 = 0x3f23_a92a_3055_3261;

/// Bit pattern of 1.5: degrees by which the cabin temperature swings.
pub const CABIN_SWING: u64 = 0x3ff8_0000_0000_0000;

/// Bit pattern of 0.05: degrees of noise in the cabin temperature.
pub const CABIN_NOISE: u64 = 0x3fa9_9999_9999_999a;

/// Bit pattern of 0.3: km/h of noise in the speed.
pub const SPEED_NOISE: u64 = 0x3fd3_3333_3333_3333;

/// Bit pattern of 0.15: how often in a second the door of a parked vehicle moves.
pub const PARKED_TOGGLES: u64 = 0x3fc3_3333_3333_3333;

/// Bit pattern of 0.1: how often in a second the door moves between drives.
pub const PAUSED_TOGGLES: u64 = 0x3fb9_9999_9999_999a;

/// Bit pattern of 0.5.
pub const HALF: u64 = 0x3fe0_0000_0000_0000;

/// A whole number.
pub open spec fn whole(n: int) -> Double {
    Double::of_integer(n)
}

fn of(n: i128) -> (r: Double)
    ensures
        r == whole(n as int),
{
    Double::from_integer(n)
}

/// Gear of the simulated vehicle.
#[derive(Debug, Clone, Copy, PartialEq, Eq, Structural)]
pub enum Gear {
    P,
    D,
}

impl Gear {
    pub open spec fn text(self) -> Seq<char> {
        match self {
            Gear::P => "P"@,
            Gear::D => "D"@,
        }
    }

    pub fn label(self) -> (r: &'static str)
        ensures
            r@ == self.text(),
    {
        match self {
            Gear::P => "P",
            Gear::D => "D",
        }
    }
}

/// What the simulated vehicle does.
#[derive(Debug, Clone, Copy, PartialEq, Eq, Structural)]
pub enum Behaviour {
    Drive,
    Park,
}

/// State of the simulated vehicle.
#[derive(Debug, Clone, Copy)]
pub struct Vehicle {
    pub behaviour: Behaviour,
    pub t_s: Double,
    pub speed_kmh: Double,
    pub soc_pct: Double,
    pub motor_temp_c: Double,
    pub cabin_temp_c: Double,
    pub gear: Gear,
    pub door_open: bool,
}

/// Smooth 0 -> 1 ramp: `x * x * (3 - 2 * x)`, with `x` held in `[0, 1]`.
pub open spec fn smooth(x: Double) -> Double {
    let x = x.clamped(whole(0), whole(1));
    x.product(x).product(whole(3).difference(whole(2).product(x)))
}

/// Smooth 0 -> 1 ramp for `x` in `[0, 1]`.
fn smoothstep(x: Double) -> (r: Double)
    ensures
        r == smooth(x),
{
    let x: Double = x.clamp(of(0), of(1));
    x.times(x).times(of(3).minus(of(2).times(x)))
}

/// How fast the vehicle goes in its cycle, as a part of its cruising speed:
/// up from 5 s to 15 s, down from 37 s to 47 s.
pub open spec fn envelope(phase: Double) -> Double {
    smooth(phase.difference(whole(5)).quotient(whole(10))).smaller(
        smooth(whole(47).difference(phase).quotient(whole(10))),
    )
}

/// In gear from 3 s to 52 s of the cycle.
pub open spec fn in_gear(phase: Double) -> bool {
    (whole(3).less(phase) || whole(3).same(phase)) && phase.less(whole(52))
}

impl Vehicle {
    /// Where in the drive cycle a vehicle is after `dt_s` more seconds.
    pub open spec fn phase_after(self, dt_s: Double) -> Double {
        self.t_s.sum(dt_s).rest(whole(DRIVE_CYCLE_S as int))
    }

    /// Gear, speed and generator state of a driving vehicle. `wave` is the sine
    /// of half the phase.
    pub open spec fn driven(phase: Double, wave: Double, state: u64) -> (Gear, Double, u64) {
        let gear = if in_gear(phase) {
            Gear::D
        } else {
            Gear::P
        };
        let part = envelope(phase);
        if whole(0).less(part) {
            let cruise = whole(110).sum(whole(8).product(wave));
            let noise = drawn_noise(state, Double { bits: SPEED_NOISE });
            (gear, part.product(cruise).sum(noise).larger(whole(0)), stepped(state))
        } else {
            (gear, whole(0), state)
        }
    }

    /// Gear, speed and generator state after a step.
    pub open spec fn moved(self, dt_s: Double, wave: Double, state: u64) -> (Gear, Double, u64) {
        match self.behaviour {
            Behaviour::Drive => Vehicle::driven(self.phase_after(dt_s), wave, state),
            Behaviour::Park => (Gear::P, whole(0), state),
        }
    }

    /// The motor follows the speed with a lag: about 96 degrees at cruise,
    /// ambient when stopped.
    pub open spec fn warmed(self, dt_s: Double, speed: Double) -> Double {
        let target = whole(25).sum(
            speed.product(Double { bits: HEAT_PER_KMH }),
        );
        self.motor_temp_c.sum(
            target.difference(self.motor_temp_c).product(dt_s.quotient(whole(8)).smaller(whole(1))),
        )
    }

    /// The battery drains with time and speed, down to five percent.
    pub open spec fn drained(self, dt_s: Double, speed: Double) -> Double {
        self.soc_pct.difference(
            dt_s.product(
                Double { bits: IDLE_DRAIN }.sum(
                    speed.product(Double { bits: DRAIN_PER_KMH }),
                ),
            ),
        ).larger(whole(5))
    }

    /// The cabin's temperature. `wave` is the sine of a fortieth of the time.
    pub open spec fn cabin(wave: Double, state: u64) -> Double {
        whole(21).sum(
            Double { bits: CABIN_SWING }.product(wave),
        ).sum(drawn_noise(state, Double { bits: CABIN_NOISE }))
    }

    /// How likely the door is to be opened or closed within `dt_s` seconds.
    pub open spec fn toggle_chance(self, dt_s: Double) -> Double {
        (if self.behaviour is Park {
            Double { bits: PARKED_TOGGLES }
        } else {
            Double { bits: PAUSED_TOGGLES }
        }).product(dt_s)
    }

    /// The vehicle after a step, and the generator's state.
    pub open spec fn advanced(
        self,
        dt_s: Double,
        cruise_wave: Double,
        cabin_wave: Double,
        state: u64,
    ) -> (Vehicle, u64) {
        let (gear, speed, moved) = self.moved(dt_s, cruise_wave, state);
        let seated = stepped(moved);
        (
            Vehicle {
                behaviour: self.behaviour,
                t_s: self.t_s.sum(dt_s),
                speed_kmh: speed,
                soc_pct: self.drained(dt_s, speed),
                motor_temp_c: self.warmed(dt_s, speed),
                cabin_temp_c: Vehicle::cabin(cabin_wave, moved),
                gear,
                door_open: gear is P && (self.door_open != drawn_fraction(seated).less(
                    self.toggle_chance(dt_s),
                )),
            },
            if gear is P {
                stepped(seated)
            } else {
                seated
            },
        )
    }

    pub fn new(behaviour: Behaviour) -> (r: Vehicle)
        ensures
            r == (Vehicle {
                behaviour,
                t_s: whole(0),
                speed_kmh: whole(0),
                soc_pct: whole(80),
                motor_temp_c: whole(25),
                cabin_temp_c: whole(21),
                gear: Gear::P,
                door_open: false,
            }),
            r.sound(),
    {
        let r = Vehicle {
            behaviour,
            t_s: of(0),
            speed_kmh: of(0),
            soc_pct: of(80),
            motor_temp_c: of(25),
            cabin_temp_c: of(21),
            gear: Gear::P,
            door_open: false,
        };
        proof {
            lemma_new_is_sound(r);
        }
        r
    }

    /// The angles whose sines a step of `dt_s` seconds needs: of the cruising
    /// speed and of the cabin temperature.
    pub fn wave_angles(&self, dt_s: Double) -> (r: (Double, Double))
        ensures
            r.0 == self.phase_after(dt_s).product(Double { bits: HALF }),
            r.1 == self.t_s.sum(dt_s).quotient(whole(40)),
            r.0 == self.t_s.sum(dt_s).rest(Double::of_integer(60)).product(
                Double { bits: 0x3fe0_0000_0000_0000 },
            ),
            r.1 == self.t_s.sum(dt_s).quotient(Double::of_integer(40)),
    {
        let t: Double = self.t_s.plus(dt_s);
        let phase: Double = t.remainder(of(DRIVE_CYCLE_S as i128));
        (
            phase.times(Double::from_bits(HALF)),
            t.divided_by(of(40)),
        )
    }

    fn step_drive(phase: Double, wave: Double, rng: &mut Rng) -> (r: (Gear, Double))
        ensures
            ({
                let (gear, speed, state) = Vehicle::driven(phase, wave, old(rng)@);
                r.0 == gear && r.1 == speed && final(rng)@ == state
            }),
    {
        let geared: bool = (of(3).is_less_than(phase) || of(3).equals(phase))
            && phase.is_less_than(of(52));
        let gear: Gear = if geared {
            Gear::D
        } else {
            Gear::P
        };
        let part: Double = smoothstep(phase.minus(of(5)).divided_by(of(10))).min(
            smoothstep(of(47).minus(phase).divided_by(of(10))),
        );
        if of(0).is_less_than(part) {
            let cruise: Double = of(110).plus(of(8).times(wave));
            let noise: Double = rng.noise(Double::from_bits(SPEED_NOISE));
            (gear, part.times(cruise).plus(noise).max(of(0)))
        } else {
            (gear, of(0))
        }
    }

    /// Advances the simulation by `dt_s` seconds. The waves are the sines of the
    /// angles that [`Vehicle::wave_angles`] gives.
    pub fn step(&mut self, dt_s: Double, cruise_wave: Double, cabin_wave: Double, rng: &mut Rng)
        ensures
            (*final(self), final(rng)@) == old(self).advanced(
                dt_s,
                cruise_wave,
                cabin_wave,
                old(rng)@,
            ),
            old(self).sound() && dt_s.finite() && !dt_s.less(whole(0)) ==> final(self).sound()
                && !old(self).soc_pct.less(final(self).soc_pct),
    {
        proof {
            if self.sound() && dt_s.finite() && !dt_s.less(whole(0)) {
                law_vehicle_stays_sound(*self, dt_s, cruise_wave, cabin_wave, rng@);
            }
        }
        let t: Double = self.t_s.plus(dt_s);
        let (gear, speed): (Gear, Double) = match self.behaviour {
            Behaviour::Drive => Vehicle::step_drive(
                t.remainder(of(DRIVE_CYCLE_S as i128)),
                cruise_wave,
                rng,
            ),
            Behaviour::Park => (Gear::P, of(0)),
        };
        let target: Double = of(25).plus(
            speed.times(Double::from_bits(HEAT_PER_KMH)),
        );
        let motor_temp_c: Double = self.motor_temp_c.plus(
            target.minus(self.motor_temp_c).times(dt_s.divided_by(of(8)).min(of(1))),
        );
        let soc_pct: Double = self.soc_pct.minus(
            dt_s.times(
                Double::from_bits(IDLE_DRAIN).plus(
                    speed.times(Double::from_bits(DRAIN_PER_KMH)),
                ),
            ),
        ).max(of(5));
        let cabin_temp_c: Double = of(21).plus(
            Double::from_bits(CABIN_SWING).times(cabin_wave),
        ).plus(rng.noise(Double::from_bits(CABIN_NOISE)));
        let door_open: bool = if gear == Gear::P {
            let toggles_per_s: Double = if self.behaviour == Behaviour::Park {
                Double::from_bits(PARKED_TOGGLES)
            } else {
                Double::from_bits(PAUSED_TOGGLES)
            };
            if rng.chance(toggles_per_s.times(dt_s)) {
                !self.door_open
            } else {
                self.door_open
            }
        } else {
            false
        };
        *self = Vehicle {
            behaviour: self.behaviour,
            t_s: t,
            speed_kmh: speed,
            soc_pct,
            motor_temp_c,
            cabin_temp_c,
            gear,
            door_open,
        };
    }

    /// Physical value for a catalog signal name, if simulated.
    pub open spec fn value_of(self, name: Seq<char>) -> Option<ValueModel> {
        if name == "vehicle_speed"@ {
            Some(ValueModel::Num(self.speed_kmh))
        } else if name == "battery_soc"@ {
            Some(ValueModel::Num(self.soc_pct))
        } else if name == "motor_temp"@ {
            Some(ValueModel::Num(self.motor_temp_c))
        } else if name == "cabin_temp"@ {
            Some(ValueModel::Num(self.cabin_temp_c))
        } else if name == "gear"@ {
            Some(ValueModel::Enum(self.gear.text()))
        } else if name == "door_open"@ {
            Some(ValueModel::Bool(self.door_open))
        } else {
            None
        }
    }

    /// Current physical value for a catalog signal name, if simulated.
    pub fn value(&self, name: &str) -> (r: Option<SignalValue>)
        ensures
            r is Some <==> self.value_of(name@) is Some,
            r matches Some(v) ==> self.value_of(name@) == Some(v@),
    {
        if same_text(name, "vehicle_speed") {
            Some(SignalValue::Num(self.speed_kmh))
        } else if same_text(name, "battery_soc") {
            Some(SignalValue::Num(self.soc_pct))
        } else if same_text(name, "motor_temp") {
            Some(SignalValue::Num(self.motor_temp_c))
        } else if same_text(name, "cabin_temp") {
            Some(SignalValue::Num(self.cabin_temp_c))
        } else if same_text(name, "gear") {
            Some(SignalValue::Enum(self.gear.label().to_owned()))
        } else if same_text(name, "door_open") {
            Some(SignalValue::Bool(self.door_open))
        } else {
            None
        }
    }

    /// The frames of the first `n` signals that are simulated, or why one of
    /// them cannot be encoded.
    pub open spec fn frames_of(
        self,
        signals: Seq<DefModel>,
        n: nat,
        timestamp_us: u64,
    ) -> Result<Seq<FrameModel>, EncodeFault>
        decreases n,
    {
        if n == 0 {
            Ok(Seq::empty())
        } else {
            match self.frames_of(signals, (n - 1) as nat, timestamp_us) {
                Err(fault) => Err(fault),
                Ok(frames) => match self.value_of(signals[n - 1].name) {
                    None => Ok(frames),
                    Some(value) => match encoded(signals[n - 1], value) {
                        Ok(payload) => Ok(
                            frames.push(
                                FrameModel { signal_id: signals[n - 1].id, timestamp_us, payload },
                            ),
                        ),
                        Err(fault) => Err(fault),
                    },
                },
            }
        }
    }

    /// Encodes the current value of every simulated catalog signal.
    pub fn frames(&self, catalog: &Catalog, timestamp_us: u64) -> (r: Result<
        Vec<RawFrame>,
        EncodeError,
    >)
        ensures
            match r {
                Ok(frames) => self.frames_of(
                    catalog@.signals,
                    catalog@.signals.len(),
                    timestamp_us,
                ) == Ok::<Seq<FrameModel>, EncodeFault>(frame_models(frames@)),
                Err(e) => self.frames_of(
                    catalog@.signals,
                    catalog@.signals.len(),
                    timestamp_us,
                ) == Err::<Seq<FrameModel>, EncodeFault>(e@),
            },
    {
        let signals: &Vec<Signal> = catalog.signals();
        let ghost defs = catalog@.signals;
        let mut frames: Vec<RawFrame> = Vec::new();
        let mut i: usize = 0;
        assert(frame_models(frames@) =~= Seq::<FrameModel>::empty());
        while i < signals.len()
            invariant
                i <= signals@.len(),
                defs == signal_models(signals@),
                defs == catalog@.signals,
                self.frames_of(defs, i as nat, timestamp_us) == Ok::<
                    Seq<FrameModel>,
                    EncodeFault,
                >(frame_models(frames@)),
            decreases signals@.len() - i,
        {
            let signal: &Signal = &signals[i];
            assert(defs[i as int] == signal@);
            if let Some(value) = self.value(signal.name()) {
                match encode_frame(signal, timestamp_us, &value) {
                    Ok(frame) => {
                        let ghost before = frame_models(frames@);
                        let ghost model = frame@;
                        frames.push(frame);
                        assert(frame_models(frames@) =~= before.push(model));
                    },
                    Err(e) => {
                        proof {
                            lemma_fault_stays(
                                *self,
                                defs,
                                (i + 1) as nat,
                                defs.len(),
                                timestamp_us,
                                e@,
                            );
                        }
                        return Err(e);
                    },
                }
            }
            i = i + 1;
        }
        Ok(frames)
    }
}

proof fn lemma_fault_stays(
    vehicle: Vehicle,
    signals: Seq<DefModel>,
    i: nat,
    n: nat,
    timestamp_us: u64,
    fault: EncodeFault,
)
    requires
        i <= n,
        vehicle.frames_of(signals, i, timestamp_us) == Err::<Seq<FrameModel>, EncodeFault>(fault),
    ensures
        vehicle.frames_of(signals, n, timestamp_us) == Err::<Seq<FrameModel>, EncodeFault>(fault),
    decreases n,
{
    if i < n {
        lemma_fault_stays(vehicle, signals, i, (n - 1) as nat, timestamp_us, fault);
    }
}

/// A product with a zero is a zero.
proof fn lemma_zero_product(a: Double, b: Double)
    requires
        a.finite(),
        b.finite(),
        a.zero() || b.zero(),
    ensures
        a.product(b).zero(),
{
    lemma_sign_and_magnitude(a);
    lemma_sign_and_magnitude(b);
    lemma_pow2_pos(1074);
    lemma2_to64_rest();
    let num = magnitude_of(a.units()) * magnitude_of(b.units());
    assert(num == 0) by (nonlinear_arith)
        requires
            num == magnitude_of(a.units()) * magnitude_of(b.units()),
            magnitude_of(a.units()) == 0 || magnitude_of(b.units()) == 0,
    ;
    crate::double::lemma_zero_units();
    lemma_exact_is_kept(0, one_in_units(), 52, 2047);
    assert(0 * one_in_units() == 0);
    lemma_signed(a.negative() != b.negative(), 0);
}

/// Before its start a ramp is flat.
proof fn lemma_ramp_starts_flat(d: Double)
    requires
        d.finite(),
        d.units() <= -one_in_units(),
    ensures
        smooth(d.quotient(whole(10))).zero(),
{
    let w = one_in_units() as int;
    lemma_pow2_pos(1074);
    lemma2_to64();
    lemma2_to64_rest();
    lemma_pow2_monotonic(4, 1074);
    law_small_integers_are_exact(10);
    law_small_integers_are_exact(0);
    law_small_integers_are_exact(1);
    law_small_integers_are_exact(2);
    law_small_integers_are_exact(3);
    let ten = whole(10);
    lemma_sign_and_magnitude(ten);
    lemma_sign_and_magnitude(d);
    lemma_units_bounded(d);
    lemma_pow2_unfold(2098);
    let du = magnitude_of(d.units()) as int;
    let big = pow2(2097) as int;
    assert(du * w < (10 * w) * big) by (nonlinear_arith)
        requires
            0 <= du < 2 * big,
            w > 0,
            big > 0,
    ;
    assert(0 * w == 0 && 10 * w > 0);
    lemma_quotient_error(d, ten);
    let q = d.quotient(ten);
    let x = q.units();
    let error = x * ten.units() - d.units() * w;
    if x >= 0 {
        assert(error >= du * w && du * w >= w * w) by (nonlinear_arith)
            requires
                error == x * (10 * w) - d.units() * w,
                x >= 0,
                w > 0,
                d.units() <= -w,
                du == -d.units(),
        ;
        assert(false) by (nonlinear_arith)
            requires
                (0x20_0000_0000_0000 * error <= du * w) || (2 * error <= 10 * w),
                error >= du * w,
                du * w >= w * w,
                w >= 16,
        ;
    }
    let z = whole(0);
    lemma_sign_and_magnitude(z);
    law_order_is_value_order(q, z);
    assert(q.clamped(z, whole(1)) == z);
    lemma_zero_product(z, z);
    lemma_zero_product(whole(2), z);
    law_neutral_numbers(whole(3), whole(2).product(z));
    lemma_sign_and_magnitude(whole(3));
    lemma_zero_product(z.product(z), whole(3));
}

/// A finite number is less than `2^1024`.
proof fn lemma_units_bounded(d: Double)
    requires
        d.finite(),
    ensures
        magnitude_of(d.units()) < pow2(2098),
{
    lemma2_to64_rest();
    lemma_sign_and_magnitude(d);
    let m = d.magnitude();
    let e = magnitude_exponent(m, 52);
    let sig = magnitude_significand(m, 52);
    lemma_pow2_monotonic(e, 2045);
    lemma_pow2_adds(53, 2045);
    lemma_pow2_pos(e);
    assert(sig * pow2(e) < pow2(53) * pow2(2045)) by (nonlinear_arith)
        requires
            sig < pow2(53),
            pow2(e) <= pow2(2045),
            pow2(e) > 0,
    ;
}

/// What is left after whole divisors is finite, and not much more than one.
proof fn lemma_rest_bounded(x: Double, n: int)
    requires
        0 < n <= 100,
        !x.rest(whole(n)).nan(),
    ensures
        x.rest(whole(n)).finite(),
        magnitude_of(x.rest(whole(n)).units()) <= 2 * (n * one_in_units()),
{
    let w = one_in_units();
    lemma2_to64_rest();
    lemma_pow2_pos(1074);
    law_small_integers_are_exact(n);
    let divisor = whole(n);
    lemma_sign_and_magnitude(divisor);
    lemma_sign_and_magnitude(x);
    lemma_signed(false, 0);
    let b = (n * w) as nat;
    assert(n * w > 0) by (nonlinear_arith)
        requires
            n > 0,
            w > 0,
    ;
    if x.nan() || x.infinite() {
        assert(x.rest(divisor).nan());
    } else {
        let r = magnitude_of(x.units()) % b;
        lemma_pow2_adds(7, 1074);
        lemma2_to64();
        lemma_pow2_monotonic(1081, 2097);
        assert(b <= 128 * w) by (nonlinear_arith)
            requires
                b == n * w,
                n <= 100,
                w > 0,
        ;
        assert(1 * pow2(2097) == pow2(2097));
        lemma_rounds_to_finite(r, 1);
        lemma_rounding_error(r, 1);
        lemma_signed(x.negative(), crate::rounding::round_magnitude(r, 1, 52, 2047));
    }
}

/// A ramp that has not begun, or is over, makes the vehicle stand still.
proof fn lemma_flat_envelope(a: Double, b: Double)
    requires
        (a.finite() && a.zero()) || (b.finite() && b.zero()),
    ensures
        !whole(0).less(a.smaller(b)),
{
    lemma2_to64_rest();
    law_small_integers_are_exact(0);
    lemma_sign_and_magnitude(whole(0));
    assert(0 * one_in_units() == 0);
}

/// A sum that is clearly negative stays so when it is rounded.
proof fn lemma_clearly_negative(a: Double, b: Double)
    requires
        a.finite(),
        b.finite(),
        a.units() + b.units() <= -2 * one_in_units(),
        magnitude_of(a.units() + b.units()) < pow2(2097),
    ensures
        a.sum(b).finite(),
        a.sum(b).units() <= -one_in_units(),
{
    lemma2_to64_rest();
    lemma_sum_error(a, b);
}

proof fn lemma_opposite(x: Double)
    requires
        x.finite(),
    ensures
        x.opposite().finite(),
        x.opposite().units() == -x.units(),
{
    lemma_sign_and_magnitude(x);
    lemma_signed(!x.negative(), x.magnitude());
}

proof fn lemma_bounds()
    ensures
        one_in_units() > 0,
        300 * one_in_units() < pow2(2097),
{
    lemma_pow2_pos(1074);
    lemma2_to64();
    lemma_pow2_adds(9, 1074);
    lemma_pow2_monotonic(1083, 2097);
}

/// Early in the cycle the vehicle has not begun to move.
proof fn lemma_early(p: Double)
    requires
        p.finite(),
        p.units() < 3 * one_in_units(),
        magnitude_of(p.units()) <= 120 * one_in_units(),
    ensures
        !whole(0).less(envelope(p)),
{
    lemma2_to64_rest();
    lemma_bounds();
    law_small_integers_are_exact(5);
    let five = whole(5);
    lemma_opposite(five);
    lemma_clearly_negative(p, five.opposite());
    lemma_ramp_starts_flat(p.difference(five));
    lemma_flat_envelope(
        smooth(p.difference(whole(5)).quotient(whole(10))),
        smooth(whole(47).difference(p).quotient(whole(10))),
    );
}

/// Late in the cycle the vehicle has come to a stop.
proof fn lemma_late(p: Double)
    requires
        p.finite(),
        p.units() >= 52 * one_in_units(),
        magnitude_of(p.units()) <= 120 * one_in_units(),
    ensures
        !whole(0).less(envelope(p)),
{
    lemma2_to64_rest();
    lemma_bounds();
    law_small_integers_are_exact(47);
    lemma_opposite(p);
    lemma_clearly_negative(whole(47), p.opposite());
    lemma_ramp_starts_flat(whole(47).difference(p));
    lemma_flat_envelope(
        smooth(p.difference(whole(5)).quotient(whole(10))),
        smooth(whole(47).difference(p).quotient(whole(10))),
    );
}

/// What is not a number stays so.
proof fn lemma_nan_stays(x: Double)
    requires
        x.nan(),
    ensures
        Double::not_a_number().nan(),
        x.difference(whole(5)) == Double::not_a_number(),
        whole(47).difference(x) == Double::not_a_number(),
        x.quotient(whole(10)) == Double::not_a_number(),
{
    lemma_sign_and_magnitude(x);
    lemma_signed(!x.negative(), x.magnitude());
}

proof fn lemma_smooth_nan(x: Double)
    requires
        x.nan(),
    ensures
        smooth(x).nan(),
{
    lemma_nan_stays(x);
    assert(x.clamped(whole(0), whole(1)) == x);
    assert(x.product(x) == Double::not_a_number());
}

/// Where the time is not a number the vehicle does not move.
proof fn lemma_lost(p: Double)
    requires
        p.nan(),
    ensures
        !whole(0).less(envelope(p)),
{
    lemma_nan_stays(p);
    let n = Double::not_a_number();
    lemma_nan_stays(n);
    lemma_smooth_nan(n);
    assert(envelope(p) == smooth(n).smaller(smooth(n)));
}

/// Out of gear the vehicle does not move.
proof fn lemma_out_of_gear(x: Double)
    requires
        !in_gear(x.rest(whole(60))),
    ensures
        !whole(0).less(envelope(x.rest(whole(60)))),
{
    let p = x.rest(whole(60));
    if p.nan() {
        lemma_lost(p);
    } else {
        lemma2_to64_rest();
        lemma_rest_bounded(x, 60);
        law_small_integers_are_exact(3);
        law_small_integers_are_exact(52);
        law_order_is_value_order(whole(3), p);
        law_order_is_value_order(p, whole(52));
        if p.units() < 3 * one_in_units() {
            lemma_early(p);
        } else {
            lemma_late(p);
        }
    }
}

/// A vehicle in P stands still, and one in D has its door closed.
pub proof fn law_gear_speed_and_door(
    vehicle: Vehicle,
    dt_s: Double,
    cruise_wave: Double,
    cabin_wave: Double,
    state: u64,
)
    ensures
        ({
            let after = vehicle.advanced(dt_s, cruise_wave, cabin_wave, state).0;
            &&& after.gear is P ==> after.speed_kmh.zero()
            &&& after.gear is D ==> !after.door_open
        }),
{
    lemma2_to64_rest();
    law_small_integers_are_exact(0);
    lemma_sign_and_magnitude(whole(0));
    assert(0 * one_in_units() == 0);
    if vehicle.behaviour is Drive && !in_gear(vehicle.phase_after(dt_s)) {
        lemma_out_of_gear(vehicle.t_s.sum(dt_s));
    }
}

impl Vehicle {
    /// What holds of every vehicle that started out new, while time did not go
    /// back: its speed is not negative, and zero in P; its door is closed in D;
    /// a parked one is in P; and its charge is five percent or more.
    pub open spec fn sound(self) -> bool {
        &&& !self.speed_kmh.nan() && !self.speed_kmh.less(whole(0))
        &&& self.gear is P ==> self.speed_kmh.zero()
        &&& self.gear is D ==> !self.door_open
        &&& self.behaviour is Park ==> self.gear is P
        &&& self.soc_pct.finite() && !self.soc_pct.less(whole(5))
    }
}

/// The speed is never negative and the charge never below five percent, nor is
/// either lost.
pub proof fn law_speed_and_charge_have_floors(
    vehicle: Vehicle,
    dt_s: Double,
    cruise_wave: Double,
    cabin_wave: Double,
    state: u64,
)
    ensures
        ({
            let after = vehicle.advanced(dt_s, cruise_wave, cabin_wave, state).0;
            &&& !after.speed_kmh.nan() && !after.speed_kmh.less(whole(0))
            &&& !after.soc_pct.nan() && !after.soc_pct.less(whole(5))
        }),
{
    lemma2_to64_rest();
    law_small_integers_are_exact(0);
    law_small_integers_are_exact(5);
}

/// The charge never rises, as long as time does not go back.
pub proof fn law_charge_never_rises(
    vehicle: Vehicle,
    dt_s: Double,
    cruise_wave: Double,
    cabin_wave: Double,
    state: u64,
)
    requires
        dt_s.finite(),
        !dt_s.less(whole(0)),
        vehicle.soc_pct.finite(),
        !vehicle.soc_pct.less(whole(5)),
    ensures
        ({
            let after = vehicle.advanced(dt_s, cruise_wave, cabin_wave, state).0;
            &&& after.soc_pct.finite()
            &&& !vehicle.soc_pct.less(after.soc_pct)
        }),
{
    let after = vehicle.advanced(dt_s, cruise_wave, cabin_wave, state).0;
    let speed = after.speed_kmh;
    law_speed_and_charge_have_floors(vehicle, dt_s, cruise_wave, cabin_wave, state);
    lemma_whole_keys();
    let per_kmh = Double { bits: DRAIN_PER_KMH };
    let idle = Double { bits: IDLE_DRAIN };
    lemma_product_not_below_zero(speed, per_kmh);
    lemma_sum_not_below_zero(idle, speed.product(per_kmh));
    let rate = idle.sum(speed.product(per_kmh));
    lemma_product_not_below_zero(dt_s, rate);
    lemma_difference_not_larger(vehicle.soc_pct, dt_s.product(rate));
}

/// Where zero and five stand on the number line.
proof fn lemma_whole_keys()
    ensures
        whole(0).order_key() == 0,
        whole(5).order_key() > 0,
        !whole(0).nan(),
        whole(5).finite(),
{
    lemma2_to64_rest();
    law_small_integers_are_exact(0);
    law_small_integers_are_exact(5);
    lemma_sign_and_magnitude(whole(0));
    lemma_sign_and_magnitude(whole(5));
    lemma_pow2_pos(1074);
    assert(0 * one_in_units() == 0);
}

/// A vehicle stays sound and its charge never rises, as long as time does not
/// go back.
pub proof fn law_vehicle_stays_sound(
    vehicle: Vehicle,
    dt_s: Double,
    cruise_wave: Double,
    cabin_wave: Double,
    state: u64,
)
    requires
        vehicle.sound(),
        dt_s.finite(),
        !dt_s.less(whole(0)),
    ensures
        ({
            let after = vehicle.advanced(dt_s, cruise_wave, cabin_wave, state).0;
            &&& after.sound()
            &&& !vehicle.soc_pct.less(after.soc_pct)
        }),
{
    law_speed_and_charge_have_floors(vehicle, dt_s, cruise_wave, cabin_wave, state);
    law_gear_speed_and_door(vehicle, dt_s, cruise_wave, cabin_wave, state);
    law_charge_never_rises(vehicle, dt_s, cruise_wave, cabin_wave, state);
}

/// A new vehicle is sound.
proof fn lemma_new_is_sound(vehicle: Vehicle)
    requires
        vehicle.speed_kmh == whole(0),
        vehicle.soc_pct == whole(80),
        vehicle.gear is P,
    ensures
        vehicle.sound(),
{
    lemma_whole_keys();
    lemma2_to64_rest();
    law_small_integers_are_exact(5);
    law_small_integers_are_exact(80);
    law_order_is_value_order(whole(80), whole(5));
    lemma_pow2_pos(1074);
}

} // verus!
