//! What payloads and packets mean, byte by byte.

use crate::bytes::{
    big_endian, big_endian_value, in_order, law_bytes_are_written_back, law_number_is_read_back,
    lemma_big_endian_len, lemma_in_order_twice,
};
use crate::catalog::{CatalogModel, DefModel, Endian, SignalType};
use crate::codec::{
    decoded, encoded, law_raw_is_read_back, number_of_raw, raw_bytes, raw_of, rounded, scaled,
    Raw,
};
use crate::double::{magnitude_of, nearest_integer, one_in_units, Double, INFINITE_SINGLE};
use crate::text::{decimal, hex};
use crate::value::ValueModel;
use crate::wire::{
    bytes_from, decoded_from, decoded_packet, lemma_followed_by, lemma_frames_are_read_first,
    lemma_frames_counted, lemma_packet_header, long_payload_from, outcome_from, packet_bytes,
    packet_encoding_fault, packet_fault, packet_size, size_from, EncodeFault, FrameErrorKind,
    FrameModel, PacketError, PacketModel,
};
use vstd::arithmetic::div_mod::lemma_fundamental_div_mod_converse;
use vstd::arithmetic::power2::{lemma2_to64, lemma2_to64_rest, lemma_pow2_pos, pow2};
use vstd::prelude::*;

verus! {

/// The number that bytes spell, the least significant first or last.
pub open spec fn weight(b: Seq<u8>, little: bool) -> int
    decreases b.len(),
{
    if b.len() == 0 {
        0
    } else if little {
        b[0] + 256 * weight(b.skip(1), little)
    } else {
        256 * weight(b.drop_last(), little) + b.last()
    }
}

proof fn lemma_weight(endian: Endian, b: Seq<u8>)
    ensures
        big_endian_value(in_order(endian, b)) == weight(b, endian is Little),
    decreases b.len(),
{
    if b.len() > 0 {
        if endian is Little {
            lemma_weight(endian, b.skip(1));
            assert(b.reverse().drop_last() =~= b.skip(1).reverse());
        } else {
            lemma_weight(endian, b.drop_last());
        }
    }
}

/// The integer in the payload of an integer type: its number, or less by the
/// number of all payloads where the type is signed and the number in the upper
/// half of them.
pub open spec fn integer_in(ty: SignalType, payload: Seq<u8>, little: bool) -> int {
    let n = weight(payload, little);
    let all = pow2(8 * payload.len()) as int;
    if (ty is I8 || ty is I16 || ty is I32 || ty is I64) && n >= all / 2 {
        n - all
    } else {
        n
    }
}

proof fn lemma_integer_in(ty: SignalType, endian: Endian, payload: Seq<u8>)
    requires
        payload.len() == ty.width(),
        !(ty is F32 || ty is F64),
    ensures
        raw_of(ty, endian, payload) == Raw::Int(
            integer_in(ty, payload, endian is Little) as i128,
        ),
        i128::MIN <= integer_in(ty, payload, endian is Little) <= i128::MAX,
{
    lemma2_to64();
    lemma2_to64_rest();
    lemma_weight(endian, payload);
    lemma_in_order_twice(endian, payload);
    law_bytes_are_written_back(in_order(endian, payload));
}

/// What a payload decodes to. One of another length than the type's is rejected.
/// A bool is a byte, zero or one. An enum's integer gives its label. A number is
/// `raw * scale + offset`, where it is finite; a float is taken bit by bit.
pub proof fn law_decoded_payloads(def: DefModel, payload: Seq<u8>)
    requires
        def.fault() is None,
    ensures
        payload.len() != def.ty.width() ==> decoded(def, payload) == Err::<
            ValueModel,
            FrameErrorKind,
        >(
            FrameErrorKind::LengthMismatch {
                expected: def.ty.width(),
                actual: payload.len() as usize,
            },
        ),
        payload.len() == def.ty.width() ==> {
            let little = def.endian == Some(Endian::Little);
            let invalid = Err::<ValueModel, FrameErrorKind>(FrameErrorKind::InvalidValue);
            let number = |raw: Double|
                {
                    let v = raw.product(def.scale).sum(def.offset);
                    if v.finite() {
                        Ok::<ValueModel, FrameErrorKind>(ValueModel::Num(v))
                    } else {
                        invalid
                    }
                };
            decoded(def, payload) == match def.ty {
                SignalType::Bool => if payload[0] == 0 {
                    Ok(ValueModel::Bool(false))
                } else if payload[0] == 1 {
                    Ok(ValueModel::Bool(true))
                } else {
                    invalid
                },
                SignalType::F32 => number(Double::of_single(weight(payload, little) as u32)),
                SignalType::F64 => number(Double { bits: weight(payload, little) as u64 }),
                ty => {
                    let raw = integer_in(ty, payload, little);
                    if def.enum_map is Some {
                        match def.label_of(raw) {
                            Some(label) => Ok(ValueModel::Enum(label)),
                            None => invalid,
                        }
                    } else {
                        number(Double::of_integer(raw))
                    }
                },
            }
        },
{
    let endian = def.byte_order();
    if payload.len() == def.ty.width() {
        lemma_weight(endian, payload);
        lemma_in_order_twice(endian, payload);
        lemma2_to64();
        lemma2_to64_rest();
        law_bytes_are_written_back(in_order(endian, payload));
        if def.ty is Bool {
            lemma_integer_in(def.ty, endian, payload);
            assert(payload.skip(1) =~= Seq::<u8>::empty());
            assert(payload.drop_last() =~= Seq::<u8>::empty());
            reveal_with_fuel(weight, 2);
        } else if !(def.ty is F32 || def.ty is F64) {
            lemma_integer_in(def.ty, endian, payload);
        }
    }
}

/// Whether `i` is the integer next to a finite number, and of two that are as
/// close the one further from zero.
pub open spec fn is_next_to(i: int, x: Double) -> bool {
    let one = one_in_units() as int;
    let over = 2 * (x.units() - i * one);
    if x.units() >= 0 {
        -one <= over < one
    } else {
        -one < over <= one
    }
}

proof fn lemma_next_to(i: int, x: Double)
    requires
        is_next_to(i, x),
    ensures
        nearest_integer(x.units(), one_in_units()) == i,
{
    let unit = one_in_units() as int;
    let u = x.units();
    lemma_pow2_pos(1074);
    let a: int = magnitude_of(u) as int;
    let j = if u < 0 {
        -i
    } else {
        i
    };
    assert(j * unit == if u < 0 {
        -(i * unit)
    } else {
        i * unit
    }) by (nonlinear_arith)
        requires
            j == if u < 0 {
                -i
            } else {
                i
            },
    ;
    let r = 2 * a + unit - j * (2 * unit);
    assert(2 * (j * unit) == j * (2 * unit)) by (nonlinear_arith);
    lemma_fundamental_div_mod_converse(2 * a + unit, 2 * unit, j, r);
}

/// What values of a signal are encoded to. Only a bool fits a bool, only a label
/// an enum, only a number any other signal. A bool is a byte, zero or one. A
/// label is the integer that its entry spells.
pub proof fn law_encoded_values(def: DefModel, value: ValueModel)
    requires
        def.fault() is None,
    ensures
        ({
            let little = def.endian == Some(Endian::Little);
            let fits = match value {
                ValueModel::Bool(_) => def.ty is Bool,
                ValueModel::Enum(_) => !(def.ty is Bool) && def.enum_map is Some,
                ValueModel::Num(_) => !(def.ty is Bool) && def.enum_map is None,
            };
            &&& !fits ==> encoded(def, value) == Err::<Seq<u8>, EncodeFault>(
                EncodeFault::KindMismatch { signal: def.name, value },
            )
            &&& fits ==> match value {
                ValueModel::Bool(b) => encoded(def, value) == Ok::<Seq<u8>, EncodeFault>(
                    if b {
                        seq![1u8]
                    } else {
                        seq![0u8]
                    },
                ),
                ValueModel::Enum(label) => match def.code_of(label) {
                    None => encoded(def, value) == Err::<Seq<u8>, EncodeFault>(
                        EncodeFault::UnknownEnumLabel { signal: def.name, label },
                    ),
                    Some(code) => encoded(def, value) matches Ok(payload) && payload.len()
                        == def.ty.width() && integer_in(def.ty, payload, little) == code,
                },
                ValueModel::Num(_) => true,
            }
        }),
{
    let endian = def.byte_order();
    match value {
        ValueModel::Bool(b) => {
            if def.ty is Bool {
                let n: nat = if b {
                    1
                } else {
                    0
                };
                reveal_with_fuel(big_endian, 2);
                assert(big_endian(n, 1) =~= seq![n as u8]);
                assert(seq![n as u8].reverse() =~= seq![n as u8]);
            }
        },
        ValueModel::Enum(label) => {
            if !(def.ty is Bool) && def.enum_map is Some {
                if let Some(code) = def.code_of(label) {
                    let entries = def.entries();
                    crate::catalog::lemma_entries_sound(entries, def.ty, 0);
                    crate::catalog::lemma_code_before(entries, label, entries.len());
                    let raw = Raw::Int(code as i128);
                    law_raw_is_read_back(def.ty, endian, raw);
                    let payload = encoded(def, value)->Ok_0;
                    lemma_integer_in(def.ty, endian, payload);
                }
            }
        },
        ValueModel::Num(_) => {},
    }
}

/// What numbers are encoded to: `(value - offset) / scale`, where that is
/// finite. Of an integer type, the integer next to it, where the type holds it; of
/// a float type, its bits, of the shorter one where they are still finite.
pub proof fn law_encoded_numbers(def: DefModel, v: Double, i: int)
    requires
        !(def.ty is Bool),
        def.enum_map is None,
    ensures
        ({
            let little = def.endian == Some(Endian::Little);
            let x = v.difference(def.offset).quotient(def.scale);
            let result = encoded(def, ValueModel::Num(v));
            let out_of_range = Err::<Seq<u8>, EncodeFault>(
                EncodeFault::OutOfRange { signal: def.name, value: v },
            );
            &&& !x.finite() ==> result == out_of_range
            &&& x.finite() && def.ty is F64 ==> (result matches Ok(payload) && payload.len() == 8
                && weight(payload, little) == x.bits)
            &&& x.finite() && def.ty is F32 ==> if x.single() % 0x8000_0000 < 0x7f80_0000 {
                result matches Ok(payload) && payload.len() == 4 && weight(payload, little)
                    == x.single()
            } else {
                result == out_of_range
            }
            &&& x.finite() && is_next_to(i, x) ==> (def.ty.range() matches Some((lo, hi)) ==> if lo
                <= i && i <= hi {
                result matches Ok(payload) && payload.len() == def.ty.width() && integer_in(
                    def.ty,
                    payload,
                    little,
                ) == i
            } else {
                result == out_of_range
            })
        }),
{
    let endian = def.byte_order();
    let x = scaled(def, v);
    assert(x == v.difference(def.offset).quotient(def.scale));
    lemma2_to64();
    lemma2_to64_rest();
    assert(INFINITE_SINGLE == 0x7f80_0000);
    if x.finite() {
        if def.ty is F64 || def.ty is F32 {
            if number_of_raw(def.ty, Raw::Float(x)) is Some {
                let n = number_of_raw(def.ty, Raw::Float(x))->0;
                let width = def.ty.width() as nat;
                law_number_is_read_back(n, width);
                lemma_in_order_twice(endian, big_endian(n, width));
                lemma_weight(endian, in_order(endian, big_endian(n, width)));
            }
        } else if is_next_to(i, x) && def.ty.range() is Some {
            lemma_next_to(i, x);
            let raw = Raw::Int(rounded(x));
            if def.ty.holds(i) {
                assert(rounded(x) == i);
                law_raw_is_read_back(def.ty, endian, raw);
                let payload = encoded(def, ValueModel::Num(v))->Ok_0;
                lemma_integer_in(def.ty, endian, payload);
            }
        }
    }
}

/// What a datagram as a whole is rejected for, by its length and first bytes:
/// more than 1500 bytes; fewer than four; a start other than `TE`; a version
/// other than one; no frames announced, or more than 64.
pub proof fn law_packet_faults(buf: Seq<u8>)
    ensures
        packet_fault(buf) == if buf.len() > 1500 {
            Some(PacketError::Oversize(buf.len() as usize))
        } else if buf.len() < 4 {
            Some(PacketError::HeaderTruncated(buf.len() as usize))
        } else if !(buf[0] == 0x54 && buf[1] == 0x45) {
            Some(PacketError::BadMagic((buf[0] * 256 + buf[1]) as u16))
        } else if buf[2] != 1 {
            Some(PacketError::BadVersion(buf[2]))
        } else if buf[3] == 0 {
            Some(PacketError::ZeroFrames)
        } else if buf[3] > 64 {
            Some(PacketError::TooManyFrames(buf[3]))
        } else {
            None
        },
{
    if buf.len() >= 4 {
        lemma_pair(buf.take(2));
    }
}

proof fn lemma_pair(b: Seq<u8>)
    requires
        b.len() == 2,
    ensures
        big_endian_value(b) == b[0] * 256 + b[1],
{
    reveal_with_fuel(big_endian_value, 3);
    assert(b.drop_last().drop_last() =~= Seq::<u8>::empty());
}

/// A frame's bytes: two for the id and eight for the timestamp, each the most
/// significant first, one for the payload's length, then the payload.
pub proof fn law_frame_layout(frame: FrameModel)
    requires
        frame.payload.len() <= 255,
    ensures
        ({
            let b = frame.bytes();
            &&& b.len() == 11 + frame.payload.len()
            &&& b[0] * 256 + b[1] == frame.signal_id
            &&& weight(b.subrange(2, 10), false) == frame.timestamp_us
            &&& b[10] == frame.payload.len()
            &&& b.skip(11) == frame.payload
        }),
{
    let b = frame.bytes();
    let id = big_endian(frame.signal_id as nat, 2);
    let time = big_endian(frame.timestamp_us as nat, 8);
    lemma2_to64();
    lemma2_to64_rest();
    law_number_is_read_back(frame.signal_id as nat, 2);
    law_number_is_read_back(frame.timestamp_us as nat, 8);
    lemma_pair(id);
    lemma_weight(Endian::Big, time);
    assert(b.subrange(2, 10) =~= time);
    assert(b[0] == id[0] && b[1] == id[1]);
    assert(b.skip(11) =~= frame.payload);
}

/// A packet's bytes: `TE`, the version one, the number of frames, then the
/// frames one after the other.
pub proof fn law_packet_layout(frames: Seq<FrameModel>, frame: FrameModel)
    requires
        frames.len() < 255,
    ensures
        packet_bytes(Seq::empty()).skip(4).len() == 0,
        packet_bytes(frames).take(4) == seq![0x54u8, 0x45u8, 1u8, frames.len() as u8],
        packet_bytes(frames.push(frame)).skip(4) == packet_bytes(frames).skip(4) + frame.bytes(),
{
    lemma_packet_header(Seq::empty());
    lemma_packet_header(frames);
    lemma_packet_header(frames.push(frame));
    lemma_bytes_grow(frames, frame, 0);
    let b = packet_bytes(frames);
    lemma_pair(b.take(2));
    assert(b[0] == 0x54 && b[1] == 0x45);
    assert(b.take(4) =~= seq![0x54u8, 0x45u8, 1u8, frames.len() as u8]);
}

proof fn lemma_bytes_grow(frames: Seq<FrameModel>, frame: FrameModel, i: nat)
    requires
        i <= frames.len(),
    ensures
        bytes_from(frames.push(frame), i) == bytes_from(frames, i) + frame.bytes(),
        size_from(frames.push(frame), i) == size_from(frames, i) + 11 + frame.payload.len(),
    decreases frames.len() - i,
{
    let more = frames.push(frame);
    if i < frames.len() {
        lemma_bytes_grow(frames, frame, i + 1);
        assert(more[i as int] == frames[i as int]);
        assert(bytes_from(more, i) =~= bytes_from(frames, i) + frame.bytes());
    } else {
        assert(bytes_from(more, i + 1) =~= Seq::<u8>::empty());
        assert(size_from(more, i + 1) == 0);
        assert(bytes_from(more, i) =~= bytes_from(frames, i) + frame.bytes());
    }
}

proof fn lemma_outcome_grows(
    frames: Seq<FrameModel>,
    frame: FrameModel,
    i: nat,
    catalog: CatalogModel,
)
    requires
        i <= frames.len(),
    ensures
        outcome_from(frames.push(frame), i, catalog) == outcome_from(
            frames,
            i,
            catalog,
        ).followed_by(frame.outcome(catalog, frames.len())),
    decreases frames.len() - i,
{
    let more = frames.push(frame);
    let last = frame.outcome(catalog, frames.len());
    if i < frames.len() {
        lemma_outcome_grows(frames, frame, i + 1, catalog);
        assert(more[i as int] == frames[i as int]);
        lemma_followed_by(
            frames[i as int].outcome(catalog, i),
            outcome_from(frames, i + 1, catalog),
            last,
        );
    } else {
        assert(outcome_from(more, i + 1, catalog) == PacketModel::nothing());
        lemma_followed_by(last, last, last);
    }
}

proof fn lemma_short_payloads(frames: Seq<FrameModel>, i: nat)
    requires
        i <= frames.len(),
        forall|k: int| 0 <= k < frames.len() ==> (#[trigger] frames[k]).payload.len() <= 255,
    ensures
        long_payload_from(frames, i) is None,
    decreases frames.len() - i,
{
    if i < frames.len() {
        lemma_short_payloads(frames, i + 1);
    }
}

proof fn lemma_whole_frames(frames: Seq<FrameModel>, catalog: CatalogModel)
    requires
        frames.len() <= 255,
        forall|k: int| 0 <= k < frames.len() ==> (#[trigger] frames[k]).payload.len() <= 255,
    ensures
        decoded_packet(packet_bytes(frames), catalog) == outcome_from(frames, 0, catalog),
{
    let outcome = outcome_from(frames, 0, catalog);
    lemma_packet_header(frames);
    lemma_short_payloads(frames, 0);
    lemma_frames_are_read_first(frames, 0, Seq::empty(), frames.len(), catalog);
    assert(bytes_from(frames, 0) + Seq::<u8>::empty() =~= bytes_from(frames, 0));
    lemma_followed_by(outcome, outcome, outcome);
}

/// Whether a decoded packet is another one with one frame more, the one with
/// number `index`: an unknown signal where no signal of the catalog has its id;
/// else a sample of that signal, with the frame's timestamp and the value that
/// its payload decodes to, or an error with the reason why it does not.
pub open spec fn has_one_frame_more(
    packet: PacketModel,
    start: PacketModel,
    frame: FrameModel,
    index: nat,
    catalog: CatalogModel,
) -> bool {
    &&& (forall|k: int|
        0 <= k < catalog.signals.len() ==> (#[trigger] catalog.signals[k]).id != frame.signal_id)
        ==> packet.samples == start.samples && packet.errors == start.errors
        && packet.unknown_signals == start.unknown_signals + 1
    &&& forall|k: int|
        0 <= k < catalog.signals.len() && (#[trigger] catalog.signals[k]).id == frame.signal_id
            ==> packet.unknown_signals == start.unknown_signals && match decoded(
            catalog.signals[k],
            frame.payload,
        ) {
            Ok(value) => {
                &&& packet.errors == start.errors
                &&& packet.samples.len() == start.samples.len() + 1
                &&& packet.samples.drop_last() == start.samples
                &&& packet.samples.last().signal_id == frame.signal_id
                &&& packet.samples.last().name == catalog.signals[k].name
                &&& packet.samples.last().timestamp_us == frame.timestamp_us
                &&& packet.samples.last().value == value
            },
            Err(kind) => {
                &&& packet.samples == start.samples
                &&& packet.errors.len() == start.errors.len() + 1
                &&& packet.errors.drop_last() == start.errors
                &&& packet.errors.last().index == index
                &&& packet.errors.last().signal_id == Some(frame.signal_id)
                &&& packet.errors.last().kind == kind
            },
        }
}

/// Decoding goes frame by frame, in order: a packet without frames has nothing,
/// and a frame at the end leaves what the others decode to as it is.
pub proof fn law_frames_decode_in_order(
    frames: Seq<FrameModel>,
    frame: FrameModel,
    catalog: CatalogModel,
)
    requires
        catalog.fault() is None,
        frames.len() < 64,
        frame.payload.len() <= 255,
        forall|k: int| 0 <= k < frames.len() ==> (#[trigger] frames[k]).payload.len() <= 255,
    ensures
        decoded_packet(packet_bytes(Seq::empty()), catalog).samples.len() == 0,
        decoded_packet(packet_bytes(Seq::empty()), catalog).errors.len() == 0,
        decoded_packet(packet_bytes(Seq::empty()), catalog).unknown_signals == 0,
        has_one_frame_more(
            decoded_packet(packet_bytes(frames.push(frame)), catalog),
            decoded_packet(packet_bytes(frames), catalog),
            frame,
            frames.len(),
            catalog,
        ),
{
    let more = frames.push(frame);
    assert forall|k: int| 0 <= k < more.len() implies (#[trigger] more[k]).payload.len() <= 255 by {
        if k < frames.len() {
            assert(more[k] == frames[k]);
        }
    }
    lemma_whole_frames(Seq::empty(), catalog);
    lemma_whole_frames(frames, catalog);
    lemma_whole_frames(more, catalog);
    lemma_outcome_grows(frames, frame, 0, catalog);
    let start = outcome_from(frames, 0, catalog);
    let last = frame.outcome(catalog, frames.len());
    let packet = start.followed_by(last);
    assert forall|k: int|
        0 <= k < catalog.signals.len() && (#[trigger] catalog.signals[k]).id
            == frame.signal_id implies catalog.find_id(frame.signal_id) == Some(
        catalog.signals[k],
    ) by {
        crate::catalog::law_each_signal_is_found(catalog, k);
    }
    if last.samples.len() == 0 {
        assert(packet.samples =~= start.samples);
    } else {
        assert(packet.samples.drop_last() =~= start.samples);
    }
    if last.errors.len() == 0 {
        assert(packet.errors =~= start.errors);
    } else {
        assert(packet.errors.drop_last() =~= start.errors);
    }
}

/// What follows the whole frames of a packet that announces `buf[3]` frames:
/// where more are announced, a frame that is cut off, with its id if that is
/// there; where none is, bytes too many; nothing where nothing follows.
pub proof fn law_rest_of_a_packet(
    buf: Seq<u8>,
    frames: Seq<FrameModel>,
    rest: Seq<u8>,
    catalog: CatalogModel,
)
    requires
        packet_fault(buf) is None,
        frames.len() <= buf[3],
        forall|k: int| 0 <= k < frames.len() ==> (#[trigger] frames[k]).payload.len() <= 255,
        buf.skip(4) == packet_bytes(frames).skip(4) + rest,
    ensures
        ({
            let whole = decoded_packet(packet_bytes(frames), catalog);
            let packet = decoded_packet(buf, catalog);
            let cut = rest.len() < 11 || rest.len() < 11 + rest[10];
            &&& frames.len() == buf[3] && rest.len() == 0 ==> packet.samples == whole.samples
                && packet.errors == whole.errors && packet.unknown_signals == whole.unknown_signals
            &&& frames.len() == buf[3] && rest.len() > 0 || frames.len() < buf[3] && cut ==> {
                &&& packet.samples == whole.samples
                &&& packet.unknown_signals == whole.unknown_signals
                &&& packet.errors.len() == whole.errors.len() + 1
                &&& packet.errors.drop_last() == whole.errors
                &&& packet.errors.last().index == frames.len()
                &&& frames.len() == buf[3] ==> packet.errors.last().signal_id is None
                    && packet.errors.last().kind == FrameErrorKind::TrailingBytes(
                    rest.len() as usize,
                )
                &&& frames.len() < buf[3] ==> packet.errors.last().kind
                    == FrameErrorKind::Truncated && packet.errors.last().signal_id == if rest.len()
                    >= 2 {
                    Some((rest[0] * 256 + rest[1]) as u16)
                } else {
                    None
                }
            }
        }),
{
    let count = buf[3] as nat;
    let start = outcome_from(frames, 0, catalog);
    lemma_whole_frames(frames, catalog);
    lemma_packet_header(frames);
    lemma_short_payloads(frames, 0);
    lemma_frames_are_read_first(frames, 0, rest, count, catalog);
    let last = decoded_from(rest, frames.len(), count, catalog);
    let packet = start.followed_by(last);
    if rest.len() >= 2 {
        lemma_pair(rest.take(2));
    }
    if last.samples.len() == 0 {
        assert(packet.samples =~= start.samples);
    }
    if last.errors.len() == 0 {
        assert(packet.errors =~= start.errors);
    } else if last.errors.len() == 1 {
        assert(packet.errors.drop_last() =~= start.errors);
    }
}

/// Frames make a packet exactly where there are one to 64 of them, the packet
/// has at most 1500 bytes, and no payload more than 255; else what is wrong is
/// said, in this order, and of the payloads the first that is too long.
pub proof fn law_packet_encoding_faults(frames: Seq<FrameModel>, i: int)
    requires
        0 <= i <= frames.len(),
        forall|k: int| 0 <= k < i ==> (#[trigger] frames[k]).payload.len() <= 255,
    ensures
        ({
            let size = packet_size(frames);
            &&& frames.len() == 0 ==> packet_encoding_fault(frames) == Some(EncodeFault::NoFrames)
            &&& frames.len() > 64 ==> packet_encoding_fault(frames) == Some(
                EncodeFault::TooManyFrames(frames.len() as usize),
            )
            &&& 1 <= frames.len() <= 64 && size > 1500 ==> packet_encoding_fault(frames) == Some(
                EncodeFault::Oversize(
                    if size > usize::MAX {
                        usize::MAX
                    } else {
                        size as usize
                    },
                ),
            )
            &&& 1 <= frames.len() <= 64 && size <= 1500 && i < frames.len()
                && frames[i].payload.len() > 255 ==> packet_encoding_fault(frames) == Some(
                EncodeFault::PayloadTooLong {
                    signal_id: frames[i].signal_id,
                    len: frames[i].payload.len() as usize,
                },
            )
            &&& 1 <= frames.len() <= 64 && size <= 1500 && i == frames.len()
                ==> packet_encoding_fault(frames) is None
        }),
{
    lemma_payloads_passed(frames, i as nat);
}

proof fn lemma_payloads_passed(frames: Seq<FrameModel>, i: nat)
    requires
        i <= frames.len(),
        forall|k: int| 0 <= k < i ==> (#[trigger] frames[k]).payload.len() <= 255,
    ensures
        long_payload_from(frames, 0) == long_payload_from(frames, i),
    decreases i,
{
    if i > 0 {
        lemma_payloads_passed(frames, (i - 1) as nat);
    }
}

/// A packet's size: four bytes, and for each frame eleven and its payload. An
/// encoded packet has that many bytes.
pub proof fn law_packet_sizes(frames: Seq<FrameModel>, frame: FrameModel)
    ensures
        packet_size(Seq::empty()) == 4,
        packet_size(frames.push(frame)) == packet_size(frames) + 11 + frame.payload.len(),
        packet_bytes(frames).len() == packet_size(frames),
{
    lemma_bytes_grow(frames, frame, 0);
    lemma_frames_counted(
        frames,
        0,
        CatalogModel { model: Seq::empty(), catalog_version: 0, signals: Seq::empty() },
    );
    lemma_big_endian_len(0x5445, 2);
}

/// Labels and words of what rejects a packet.
pub proof fn law_packet_errors_in_words(error: PacketError)
    ensures
        match error {
            PacketError::Oversize(n) => error.label() == "oversize"@ && error.words()
                == "datagram of "@ + decimal(n as int) + " bytes exceeds 1500"@,
            PacketError::HeaderTruncated(n) => error.label() == "truncated"@ && error.words()
                == "datagram of "@ + decimal(n as int)
                + " bytes is shorter than the packet header"@,
            PacketError::BadMagic(magic) => error.label() == "bad_magic"@ && error.words()
                == "bad magic 0x"@ + hex(magic),
            PacketError::BadVersion(version) => error.label() == "bad_version"@ && error.words()
                == "unsupported version "@ + decimal(version as int),
            PacketError::ZeroFrames => error.label() == "zero_frames"@ && error.words()
                == "frame_count is zero"@,
            PacketError::TooManyFrames(n) => error.label() == "too_many_frames"@ && error.words()
                == "frame_count "@ + decimal(n as int) + " exceeds 64"@,
        },
{
}

/// Labels and words of what is wrong with a frame.
pub proof fn law_frame_errors_in_words(kind: FrameErrorKind)
    ensures
        match kind {
            FrameErrorKind::Truncated => kind.label() == "truncated"@ && kind.words()
                == "frame truncated"@,
            FrameErrorKind::LengthMismatch { expected, actual } => kind.label()
                == "length_mismatch"@ && kind.words() == "payload length "@ + decimal(
                actual as int,
            ) + " does not match type size "@ + decimal(expected as int),
            FrameErrorKind::InvalidValue => kind.label() == "invalid_value"@ && kind.words()
                == "invalid value"@,
            FrameErrorKind::TrailingBytes(n) => kind.label() == "trailing_bytes"@ && kind.words()
                == decimal(n as int) + " trailing bytes after the last frame"@,
        },
{
}

/// Raw values and payloads: an integer fits the integer types whose range it is
/// in, and a bool's byte; a float fits the float types, the shorter one where it
/// stays finite. What fits is read back.
pub proof fn law_raw_payloads(ty: SignalType, endian: Endian, i: i128, f: Double)
    ensures
        ({
            let little = endian is Little;
            let float = ty is F32 || ty is F64;
            let held = match ty.range() {
                Some((lo, hi)) => lo <= i && i <= hi,
                None => ty is Bool && 0 <= i && i <= 255,
            };
            &&& held ==> (raw_bytes(ty, endian, Raw::Int(i)) matches Some(payload) && payload.len()
                == ty.width() && integer_in(ty, payload, little) == i)
            &&& !held ==> raw_bytes(ty, endian, Raw::Int(i)) is None
            &&& !float ==> raw_bytes(ty, endian, Raw::Float(f)) is None
            &&& ty is F64 ==> (raw_bytes(ty, endian, Raw::Float(f)) matches Some(payload)
                && payload.len() == 8 && weight(payload, little) == f.bits)
            &&& ty is F32 ==> if f.single() % 0x8000_0000 < 0x7f80_0000 {
                raw_bytes(ty, endian, Raw::Float(f)) matches Some(payload) && payload.len() == 4
                    && weight(payload, little) == f.single()
            } else {
                raw_bytes(ty, endian, Raw::Float(f)) is None
            }
        }),
{
    lemma2_to64();
    lemma2_to64_rest();
    assert(INFINITE_SINGLE == 0x7f80_0000);
    if number_of_raw(ty, Raw::Int(i)) is Some {
        law_raw_is_read_back(ty, endian, Raw::Int(i));
        let payload = raw_bytes(ty, endian, Raw::Int(i))->0;
        lemma_integer_in(ty, endian, payload);
    }
    if number_of_raw(ty, Raw::Float(f)) is Some {
        let n = number_of_raw(ty, Raw::Float(f))->0;
        let width = ty.width() as nat;
        law_number_is_read_back(n, width);
        lemma_in_order_twice(endian, big_endian(n, width));
        lemma_weight(endian, in_order(endian, big_endian(n, width)));
    }
}

/// What a payload of a type's length holds: the integer that its bytes spell, or
/// a float with those bits.
pub proof fn law_payloads_hold_raw_values(ty: SignalType, endian: Endian, payload: Seq<u8>)
    requires
        payload.len() == ty.width(),
    ensures
        raw_of(ty, endian, payload) == match ty {
            SignalType::F32 => Raw::Float(
                Double::of_single(weight(payload, endian is Little) as u32),
            ),
            SignalType::F64 => Raw::Float(
                Double { bits: weight(payload, endian is Little) as u64 },
            ),
            _ => Raw::Int(integer_in(ty, payload, endian is Little) as i128),
        },
        0 <= weight(payload, endian is Little) < pow2(8 * payload.len()),
{
    lemma_weight(endian, payload);
    lemma_in_order_twice(endian, payload);
    law_bytes_are_written_back(in_order(endian, payload));
    if !(ty is F32 || ty is F64) {
        lemma_integer_in(ty, endian, payload);
    }
}

/// A finite number is rounded to the integer next to it, and held in the range of
/// 128 bits with a sign.
pub proof fn law_rounded_numbers(x: Double, i: int)
    requires
        is_next_to(i, x),
    ensures
        nearest_integer(x.units(), one_in_units()) == i,
        i128::MIN <= i <= i128::MAX ==> rounded(x) == i,
        i > i128::MAX ==> rounded(x) == i128::MAX,
        i < i128::MIN ==> rounded(x) == i128::MIN,
{
    lemma_next_to(i, x);
}

} // verus!
