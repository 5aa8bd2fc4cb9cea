//! What the simulator does: its generator, its malformed packets, its vehicle.

use crate::catalog::{CatalogModel, DefModel};
use crate::codec::encoded;
use crate::double::{one_in_units, Double};
use crate::garbage::{
    after_garbage, free_id_from, garbage, half, packet_or_fault, picked, with_long_payload,
    with_unknown_signal, GarbageKind,
};
use crate::precision::{lemma_assembled_units, lemma_sign_and_magnitude};
use crate::rng::{
    after_some_bytes, drawn, drawn_bytes, drawn_fraction, drawn_noise, drawn_some_bytes, seeded,
    stepped, stepped_by,
};
use crate::value::ValueModel;
use crate::vehicle::{envelope, smooth, Gear, Vehicle, KNOWN_SIGNALS};
use crate::wire::{
    lemma_packet_header, packet_bytes, packet_encoding_fault, EncodeFault, FrameModel,
};
use vstd::arithmetic::power2::{lemma2_to64_rest, lemma_pow2_adds, lemma_pow2_unfold, pow2};
use vstd::prelude::*;

verus! {

/// How the generator goes on from a state, and what it gives: three shifts, each
/// mixed into the state, and a multiplication.
pub proof fn law_generator(state: u64, a: u64, b: u64, c: u64)
    requires
        a == state ^ (state >> 12),
        b == a ^ (a << 25),
        c == b ^ (b >> 27),
    ensures
        stepped(state) == c,
        drawn(state) == c.wrapping_mul(0x2545_F491_4F6C_DD1D),
{
}

/// The state that a seed starts from.
pub proof fn law_seeds(seed: u64, a: u64, b: u64, c: u64, d: u64)
    requires
        a == seed.wrapping_add(0x9E37_79B9_7F4A_7C15),
        b == (a ^ (a >> 30)).wrapping_mul(0xBF58_476D_1CE4_E5B9),
        c == (b ^ (b >> 27)).wrapping_mul(0x94D0_49BB_1331_11EB),
        d == c ^ (c >> 31),
    ensures
        d != 0 ==> seeded(seed) == d,
        d == 0 ==> seeded(seed) == 1,
{
}

/// The state after several numbers is reached one number at a time.
pub proof fn law_states_follow_each_other(state: u64, n: nat)
    ensures
        stepped_by(state, 0) == state,
        stepped_by(state, n + 1) == stepped(stepped_by(state, n)),
        stepped_by(state, n + 1) == stepped_by(stepped(state), n),
    decreases n,
{
    if n > 0 {
        law_states_follow_each_other(state, (n - 1) as nat);
    } else {
        assert(stepped_by(state, 1) == stepped(stepped_by(state, 0)));
    }
}

/// Random bytes: the low byte of each number, in turn. A random count of them is
/// at least one and at most the limit.
pub proof fn law_random_bytes(state: u64, n: nat)
    ensures
        drawn_bytes(state, 0).len() == 0,
        drawn_bytes(state, n + 1) == seq![(drawn(state) % 256) as u8] + drawn_bytes(
            stepped(state),
            n,
        ),
        n > 0 ==> 1 <= drawn_some_bytes(state, n).len() <= n,
        n > 0 ==> drawn_some_bytes(state, n).len() == 1 + drawn(state) as nat % n,
        n > 0 ==> drawn_some_bytes(state, n) == drawn_bytes(
            stepped(state),
            1 + drawn(state) as nat % n,
        ),
        n > 0 ==> after_some_bytes(state, n) == stepped_by(state, 2 + drawn(state) as nat % n),
{
    let longer = drawn_bytes(state, n + 1);
    let rest = drawn_bytes(stepped(state), n);
    let joined = seq![(drawn(state) % 256) as u8] + rest;
    assert forall|i: int| 0 <= i < n + 1 implies #[trigger] longer[i] == joined[i] by {
        if i > 0 {
            law_states_follow_each_other(state, (i - 1) as nat);
            assert(joined[i] == rest[i - 1]);
        }
    }
    assert(longer =~= joined);
    if n > 0 {
        law_states_follow_each_other(state, 1 + drawn(state) as nat % n);
    }
}

/// Noise is a fraction stretched from `[0, 1)` to `[-1, 1)`, times the amplitude.
pub proof fn law_noise(state: u64, amp: Double)
    ensures
        drawn_noise(state, amp) == drawn_fraction(state).product(
            Double { bits: 0x4000_0000_0000_0000 },
        ).difference(Double { bits: 0x3ff0_0000_0000_0000 }).product(amp),
{
}

/// The kinds of malformed packets are picked evenly, by the remainder of a number;
/// a packet is valid half of the time.
pub proof fn law_picked_kinds(state: u64)
    ensures
        picked(state) == match drawn(state) % 9 {
            0u64 => GarbageKind::BadMagic,
            1u64 => GarbageKind::BadVersion,
            2u64 => GarbageKind::ZeroFrames,
            3u64 => GarbageKind::Truncated,
            4u64 => GarbageKind::LengthMismatch,
            5u64 => GarbageKind::UnknownSignal,
            6u64 => GarbageKind::Oversize,
            7u64 => GarbageKind::TrailingBytes,
            _ => GarbageKind::RandomBytes,
        },
        2 * half().units() == one_in_units(),
{
    let all = GarbageKind::ALL;
    assert(all[0] is BadMagic && all[1] is BadVersion && all[2] is ZeroFrames);
    assert(all[3] is Truncated && all[4] is LengthMismatch && all[5] is UnknownSignal);
    assert(all[6] is Oversize && all[7] is TrailingBytes && all[8] is RandomBytes);
    lemma2_to64_rest();
    let m: nat = 0x3fe0_0000_0000_0000;
    assert(m == 1021 * pow2(52) + pow2(52));
    lemma_pow2_unfold(53);
    lemma_assembled_units(1021, pow2(52), 52);
    lemma_pow2_adds(52, 1021);
    lemma_pow2_unfold(1074);
    lemma_sign_and_magnitude(half());
    assert(half().magnitude() == m);
}

/// The bytes of malformed packets: how each differs from the packet of the valid
/// frames that it is made of.
pub proof fn law_malformed_bytes(frames: Seq<FrameModel>, catalog: CatalogModel, state: u64)
    requires
        packet_encoding_fault(frames) is None,
    ensures
        ({
            let whole = packet_bytes(frames);
            let made = |kind: GarbageKind| garbage(kind, frames, catalog, state);
            let last = 11 + frames.last().payload.len();
            &&& made(GarbageKind::BadMagic) matches Ok(p) && p.len() == whole.len() && p[0] == 0xde
                && p[1] == 0xad && p.skip(2) == whole.skip(2)
            &&& made(GarbageKind::BadVersion) matches Ok(p) && p.len() == whole.len() && p[2] == 2
                + drawn(state) % 254 && p.take(2) == whole.take(2) && p.skip(3) == whole.skip(3)
            &&& made(GarbageKind::ZeroFrames) == Ok::<Seq<u8>, EncodeFault>(
                seq![0x54u8, 0x45u8, 1u8, 0u8],
            )
            &&& made(GarbageKind::Truncated) matches Ok(p) && p.len() == whole.len() - 1
                - drawn(state) as int % last as int && p == whole.take(p.len() as int)
            &&& made(GarbageKind::Oversize) matches Ok(p) && p.len() == 1501 + drawn(state) % 200
                && p.take(whole.len() as int) == whole && p.skip(whole.len() as int)
                == drawn_bytes(stepped(state), (p.len() - whole.len()) as nat)
            &&& made(GarbageKind::TrailingBytes) matches Ok(p) && p == whole + drawn_some_bytes(
                state,
                8,
            )
            &&& made(GarbageKind::RandomBytes) == Ok::<Seq<u8>, EncodeFault>(
                drawn_some_bytes(state, 64),
            )
        }),
{
    let whole = packet_bytes(frames);
    lemma_packet_header(frames);
    crate::packet_laws::law_packet_sizes(frames.drop_last(), frames.last());
    assert(frames.drop_last().push(frames.last()) =~= frames);
    let magic = garbage(GarbageKind::BadMagic, frames, catalog, state)->Ok_0;
    assert(magic.skip(2) =~= whole.skip(2));
    let version = garbage(GarbageKind::BadVersion, frames, catalog, state)->Ok_0;
    assert(version.take(2) =~= whole.take(2));
    assert(version.skip(3) =~= whole.skip(3));
    let long = garbage(GarbageKind::Oversize, frames, catalog, state)->Ok_0;
    let tail = drawn_bytes(stepped(state), crate::garbage::surplus(whole, state));
    assert(long == whole + tail);
    assert(long.take(whole.len() as int) =~= whole);
    assert(long.skip(whole.len() as int) =~= tail);
    let cut = garbage(GarbageKind::Truncated, frames, catalog, state)->Ok_0;
    assert(cut =~= whole.take(cut.len() as int));
}

/// The frames of malformed packets: a byte too many in the first payload, or a
/// frame of an id that no signal has, from 0xF000 on, before the others.
pub proof fn law_malformed_frames(frames: Seq<FrameModel>, catalog: CatalogModel, state: u64)
    requires
        packet_encoding_fault(frames) is None,
    ensures
        ({
            let long = with_long_payload(frames);
            let more = with_unknown_signal(frames, catalog, state);
            &&& long.len() == frames.len()
            &&& long.skip(1) == frames.skip(1)
            &&& long[0].payload == frames[0].payload.push(0)
            &&& long[0].signal_id == frames[0].signal_id
            &&& long[0].timestamp_us == frames[0].timestamp_us
            &&& garbage(GarbageKind::LengthMismatch, frames, catalog, state)
                == match packet_encoding_fault(long) {
                None => Ok::<Seq<u8>, EncodeFault>(packet_bytes(long)),
                Some(fault) => Err(fault),
            }
            &&& more.len() == frames.len() + 1
            &&& more.skip(1) == frames
            &&& more[0].timestamp_us == frames[0].timestamp_us
            &&& more[0].payload == drawn_some_bytes(state, 8)
            &&& more[0].signal_id >= 0xf000
            &&& catalog.find_id(more[0].signal_id) is None || more[0].signal_id == 0xffff
            &&& forall|id: u16|
                0xf000 <= id < more[0].signal_id ==> #[trigger] catalog.find_id(id) is Some
            &&& garbage(GarbageKind::UnknownSignal, frames, catalog, state)
                == match packet_encoding_fault(more) {
                None => Ok::<Seq<u8>, EncodeFault>(packet_bytes(more)),
                Some(fault) => Err(fault),
            }
        }),
{
    let long = with_long_payload(frames);
    let more = with_unknown_signal(frames, catalog, state);
    assert(long.skip(1) =~= frames.skip(1));
    assert(more.skip(1) =~= frames);
    lemma_free_id(catalog, 0xf000);
}

proof fn lemma_free_id(catalog: CatalogModel, id: u16)
    ensures
        ({
            let free = free_id_from(catalog, id);
            &&& free >= id
            &&& catalog.find_id(free) is None || free == 0xffff
            &&& forall|k: u16| id <= k < free ==> #[trigger] catalog.find_id(k) is Some
        }),
    decreases 0xffff - id,
{
    if id < 0xffff && catalog.find_id(id) is Some {
        lemma_free_id(catalog, (id + 1) as u16);
    }
}

/// Frames that make no packet make no malformed one either, for the same reason,
/// and use up no number.
pub proof fn law_no_malformed_packet_of_bad_frames(
    kind: GarbageKind,
    frames: Seq<FrameModel>,
    catalog: CatalogModel,
    state: u64,
)
    requires
        packet_encoding_fault(frames) is Some,
    ensures
        garbage(kind, frames, catalog, state) == Err::<Seq<u8>, EncodeFault>(
            packet_encoding_fault(frames)->0,
        ),
        packet_or_fault(frames) == Err::<Seq<u8>, EncodeFault>(packet_encoding_fault(frames)->0),
        after_garbage(kind, frames, state) == state,
{
}

/// How many numbers a malformed packet uses up.
pub proof fn law_numbers_used_up(frames: Seq<FrameModel>, state: u64)
    requires
        packet_encoding_fault(frames) is None,
    ensures
        after_garbage(GarbageKind::BadMagic, frames, state) == state,
        after_garbage(GarbageKind::ZeroFrames, frames, state) == state,
        after_garbage(GarbageKind::LengthMismatch, frames, state) == state,
        after_garbage(GarbageKind::BadVersion, frames, state) == stepped(state),
        after_garbage(GarbageKind::Truncated, frames, state) == stepped(state),
        after_garbage(GarbageKind::UnknownSignal, frames, state) == stepped_by(
            state,
            2 + drawn(state) as nat % 8,
        ),
        after_garbage(GarbageKind::TrailingBytes, frames, state) == stepped_by(
            state,
            2 + drawn(state) as nat % 8,
        ),
        after_garbage(GarbageKind::RandomBytes, frames, state) == stepped_by(
            state,
            2 + drawn(state) as nat % 64,
        ),
        after_garbage(GarbageKind::Oversize, frames, state) == stepped_by(
            state,
            (1502 + drawn(state) % 200 - packet_bytes(frames).len()) as nat,
        ),
        packet_or_fault(frames) == Ok::<Seq<u8>, EncodeFault>(packet_bytes(frames)),
{
    law_random_bytes(state, 8);
    law_random_bytes(state, 64);
    lemma_packet_header(frames);
    law_states_follow_each_other(state, crate::garbage::surplus(packet_bytes(frames), state));
}

/// A whole number.
pub open spec fn n(i: int) -> Double {
    Double::of_integer(i)
}

/// A ramp is flat below zero and above one, and `x * x * (3 - 2 * x)` between.
pub proof fn law_ramp(x: Double)
    ensures
        ({
            let at = if x.less(n(0)) {
                n(0)
            } else if n(1).less(x) {
                n(1)
            } else {
                x
            };
            smooth(x) == at.product(at).product(n(3).difference(n(2).product(at)))
        }),
{
}

/// The speed goes up over ten seconds from the fifth on, and down over ten seconds
/// up to the 47th, whichever is lower.
pub proof fn law_envelope(phase: Double)
    ensures
        ({
            let up = smooth(phase.difference(n(5)).quotient(n(10)));
            let down = smooth(n(47).difference(phase).quotient(n(10)));
            envelope(phase) == if up.nan() || down.less(up) {
                down
            } else {
                up
            }
        }),
{
}

/// Where a vehicle is in its cycle of sixty seconds after a step, and in which
/// gear: a parked one in P, a driving one in D from the third second on until the
/// 52nd. Time goes on by the step, and a vehicle keeps its behaviour.
pub proof fn law_gears(
    vehicle: Vehicle,
    dt_s: Double,
    cruise_wave: Double,
    cabin_wave: Double,
    state: u64,
)
    ensures
        ({
            let after = vehicle.advanced(dt_s, cruise_wave, cabin_wave, state).0;
            let phase = vehicle.t_s.sum(dt_s).rest(n(60));
            &&& vehicle.phase_after(dt_s) == phase
            &&& after.behaviour == vehicle.behaviour
            &&& after.t_s == vehicle.t_s.sum(dt_s)
            &&& after.gear is D <==> vehicle.behaviour is Drive && !phase.nan() && !phase.less(n(3))
                && phase.less(n(52))
        }),
{
    lemma2_to64_rest();
    crate::precision::law_small_integers_are_exact(3);
}

/// How fast a vehicle goes after a step: not at all where it is parked or its
/// envelope is not above zero, else the envelope's part of 110 km/h and up to 8
/// more or less, with noise, and never backwards.
pub proof fn law_speeds(
    vehicle: Vehicle,
    dt_s: Double,
    cruise_wave: Double,
    cabin_wave: Double,
    state: u64,
)
    ensures
        ({
            let after = vehicle.advanced(dt_s, cruise_wave, cabin_wave, state).0;
            let part = envelope(vehicle.t_s.sum(dt_s).rest(n(60)));
            let moves = vehicle.behaviour is Drive && n(0).less(part);
            let speed = part.product(n(110).sum(n(8).product(cruise_wave))).sum(
                drawn_noise(state, Double { bits: 0x3fd3_3333_3333_3333 }),
            );
            &&& !moves ==> after.speed_kmh == n(0)
            &&& moves ==> after.speed_kmh == if speed.nan() || speed.less(n(0)) {
                n(0)
            } else {
                speed
            }
        }),
{
}

/// The other values of a vehicle after a step: the charge drains with time and
/// with speed, down to five; the motor follows 25 degrees and 0.65 for each km/h,
/// within eight seconds; the cabin swings about 21 degrees by one and a half, with
/// noise.
pub proof fn law_temperatures_and_charge(
    vehicle: Vehicle,
    dt_s: Double,
    cruise_wave: Double,
    cabin_wave: Double,
    state: u64,
)
    ensures
        ({
            let after = vehicle.advanced(dt_s, cruise_wave, cabin_wave, state).0;
            let speed = after.speed_kmh;
            let moves = vehicle.behaviour is Drive && n(0).less(
                envelope(vehicle.t_s.sum(dt_s).rest(n(60))),
            );
            let then = if moves {
                stepped(state)
            } else {
                state
            };
            let drain = Double { bits: 0x3f2a_36e2_eb1c_432d }.sum(
                speed.product(Double { bits: 0x3f23_a92a_3055_3261 }),
            );
            let left = vehicle.soc_pct.difference(dt_s.product(drain));
            let target = n(25).sum(speed.product(Double { bits: 0x3fe4_cccc_cccc_cccd }));
            let pace = dt_s.quotient(n(8));
            &&& after.soc_pct == if left.nan() || left.less(n(5)) {
                n(5)
            } else {
                left
            }
            &&& after.motor_temp_c == vehicle.motor_temp_c.sum(
                target.difference(vehicle.motor_temp_c).product(
                    if pace.nan() || n(1).less(pace) {
                        n(1)
                    } else {
                        pace
                    },
                ),
            )
            &&& after.cabin_temp_c == n(21).sum(
                Double { bits: 0x3ff8_0000_0000_0000 }.product(cabin_wave),
            ).sum(drawn_noise(then, Double { bits: 0x3fa9_9999_9999_999a }))
        }),
{
}

/// The door of a vehicle after a step: closed in gear; else it moves with a
/// chance that goes with the step, larger where the vehicle is parked. The step
/// uses up one number where the vehicle moves, one for the cabin, and one for a
/// door that may move.
pub proof fn law_doors(
    vehicle: Vehicle,
    dt_s: Double,
    cruise_wave: Double,
    cabin_wave: Double,
    state: u64,
)
    ensures
        ({
            let (after, end) = vehicle.advanced(dt_s, cruise_wave, cabin_wave, state);
            let moves = vehicle.behaviour is Drive && n(0).less(
                envelope(vehicle.t_s.sum(dt_s).rest(n(60))),
            );
            let seated = if moves {
                stepped(stepped(state))
            } else {
                stepped(state)
            };
            let rate = if vehicle.behaviour is Park {
                Double { bits: 0x3fc3_3333_3333_3333 }
            } else {
                Double { bits: 0x3fb9_9999_9999_999a }
            };
            let turned = drawn_fraction(seated).less(rate.product(dt_s));
            &&& after.gear is D ==> !after.door_open && end == seated
            &&& after.gear is P ==> (after.door_open <==> vehicle.door_open != turned) && end
                == stepped(seated)
        }),
{
}

/// What a vehicle shows of itself by the names of signals: its speed, charge,
/// temperatures, gear and door, and nothing else.
pub proof fn law_shown_values(vehicle: Vehicle, name: Seq<char>)
    ensures
        vehicle.value_of("vehicle_speed"@) == Some(ValueModel::Num(vehicle.speed_kmh)),
        vehicle.value_of("battery_soc"@) == Some(ValueModel::Num(vehicle.soc_pct)),
        vehicle.value_of("motor_temp"@) == Some(ValueModel::Num(vehicle.motor_temp_c)),
        vehicle.value_of("cabin_temp"@) == Some(ValueModel::Num(vehicle.cabin_temp_c)),
        vehicle.value_of("gear"@) == Some(
            ValueModel::Enum(
                match vehicle.gear {
                    Gear::P => "P"@,
                    Gear::D => "D"@,
                },
            ),
        ),
        vehicle.value_of("door_open"@) == Some(ValueModel::Bool(vehicle.door_open)),
        vehicle.value_of(name) is Some <==> name == "vehicle_speed"@ || name == "battery_soc"@
            || name == "motor_temp"@ || name == "cabin_temp"@ || name == "gear"@ || name
            == "door_open"@,
{
    reveal_strlit("vehicle_speed");
    reveal_strlit("battery_soc");
    reveal_strlit("motor_temp");
    reveal_strlit("cabin_temp");
    reveal_strlit("gear");
    reveal_strlit("door_open");
    assert("vehicle_speed"@.len() == 13 && "battery_soc"@.len() == 11);
    assert("motor_temp"@[0] == 'm' && "cabin_temp"@[0] == 'c');
    assert("gear"@.len() == 4 && "door_open"@.len() == 9);
    assert("motor_temp"@.len() == 10 && "cabin_temp"@.len() == 10);
}

/// The frames of a vehicle, signal by signal: one that it does not show has none,
/// one that it shows has a frame with its id, the time and its payload, after
/// those before it; the first that cannot be encoded is the end.
pub proof fn law_frames_of_a_vehicle(
    vehicle: Vehicle,
    signals: Seq<DefModel>,
    def: DefModel,
    timestamp_us: u64,
)
    ensures
        ({
            let before = vehicle.frames_of(signals, signals.len(), timestamp_us);
            let after = vehicle.frames_of(
                signals.push(def),
                signals.len() + 1,
                timestamp_us,
            );
            &&& signals.len() == 0 ==> (before matches Ok(frames) && frames.len() == 0)
            &&& before is Err ==> after == before
            &&& before matches Ok(frames) ==> match vehicle.value_of(def.name) {
                None => after == before,
                Some(value) => match encoded(def, value) {
                    Err(fault) => after == Err::<Seq<FrameModel>, EncodeFault>(fault),
                    Ok(payload) => after matches Ok(more) && more.len() == frames.len() + 1
                        && more.drop_last() == frames && more.last().signal_id == def.id
                        && more.last().timestamp_us == timestamp_us && more.last().payload
                        == payload,
                },
            }
        }),
{
    let k = signals.len();
    lemma_frames_of_a_start(vehicle, signals, def, k, timestamp_us);
    let before = vehicle.frames_of(signals, k, timestamp_us);
    let after = vehicle.frames_of(signals.push(def), k + 1, timestamp_us);
    assert(signals.push(def)[k as int] == def);
    if before is Ok && after is Ok && after->Ok_0.len() == before->Ok_0.len() + 1 {
        assert(after->Ok_0.drop_last() =~= before->Ok_0);
    }
}

proof fn lemma_frames_of_a_start(
    vehicle: Vehicle,
    signals: Seq<DefModel>,
    def: DefModel,
    k: nat,
    timestamp_us: u64,
)
    requires
        k <= signals.len(),
    ensures
        vehicle.frames_of(signals.push(def), k, timestamp_us) == vehicle.frames_of(
            signals,
            k,
            timestamp_us,
        ),
    decreases k,
{
    if k > 0 {
        lemma_frames_of_a_start(vehicle, signals, def, (k - 1) as nat, timestamp_us);
        assert(signals.push(def)[k - 1] == signals[k - 1]);
    }
}

/// The signals that the simulator knows are those that a vehicle shows.
pub proof fn law_known_signals(vehicle: Vehicle, name: Seq<char>)
    ensures
        vehicle.value_of(name) is Some <==> exists|i: int|
            0 <= i < 6 && (#[trigger] KNOWN_SIGNALS[i])@ == name,
{
    let known = KNOWN_SIGNALS;
    assert(known[0]@ == "vehicle_speed"@ && known[1]@ == "battery_soc"@ && known[2]@
        == "motor_temp"@);
    assert(known[3]@ == "gear"@ && known[4]@ == "door_open"@ && known[5]@ == "cabin_temp"@);
}

} // verus!
