//! Payloads: from raw bytes to physical values and back.

use crate::bytes::{
    big_endian, big_endian_value, in_order, law_bytes_are_written_back, law_number_is_read_back,
    lemma_in_order_twice, number, ordered, push_big_endian,
};
use crate::catalog::{
    is_last_spelling, lemma_code_before, lemma_entries_sound, lemma_label_before,
    lemma_last_label, DefModel, Endian, Signal, SignalType, ValueKind,
};
use crate::double::{
    law_order_is_value_order, magnitude_exponent, magnitude_of, magnitude_units, nearest_integer,
    one_in_units, signed, single_unit, single_units, Double, INFINITE, INFINITE_SINGLE,
};
use crate::precision::{
    law_neutral_numbers, law_scaling_is_undone, law_single_widens_exactly, lemma_exact_is_kept,
    lemma_nearest_integer_is, lemma_one, lemma_sign_and_magnitude, lemma_signed, one,
};
use crate::text::spelled_integer;
use crate::value::{SignalValue, ValueModel};
use vstd::arithmetic::power2::{
    lemma2_to64, lemma2_to64_rest, lemma_pow2_pos, lemma_pow2_unfold, pow2,
};
use vstd::prelude::*;

verus! {

/// Problems with individual frames. Other frames in the packet still count.
#[derive(Debug, Clone, Copy, PartialEq, Eq, Structural)]
pub enum FrameErrorKind {
    /// Declared lengths run past the end of the datagram; later frames are dropped.
    Truncated,
    /// The payload's length is not that of the signal's type.
    LengthMismatch { expected: usize, actual: usize },
    /// Bool not 0/1, enum raw value not in the catalog, or non-finite number.
    InvalidValue,
    /// Bytes are left over after the last frame.
    TrailingBytes(usize),
}

/// Why a value or a packet cannot be encoded.
#[derive(Debug, Clone, PartialEq)]
pub enum EncodeError {
    NoFrames,
    TooManyFrames(usize),
    PayloadTooLong { signal_id: u16, len: usize },
    Oversize(usize),
    KindMismatch { signal: String, value: SignalValue },
    OutOfRange { signal: String, value: Double },
    UnknownEnumLabel { signal: String, label: String },
}

/// The content of an [`EncodeError`].
pub enum EncodeFault {
    NoFrames,
    TooManyFrames(usize),
    PayloadTooLong { signal_id: u16, len: usize },
    Oversize(usize),
    KindMismatch { signal: Seq<char>, value: ValueModel },
    OutOfRange { signal: Seq<char>, value: Double },
    UnknownEnumLabel { signal: Seq<char>, label: Seq<char> },
}

impl View for EncodeError {
    type V = EncodeFault;

    open spec fn view(&self) -> EncodeFault {
        match self {
            EncodeError::NoFrames => EncodeFault::NoFrames,
            EncodeError::TooManyFrames(n) => EncodeFault::TooManyFrames(*n),
            EncodeError::PayloadTooLong { signal_id, len } => EncodeFault::PayloadTooLong {
                signal_id: *signal_id,
                len: *len,
            },
            EncodeError::Oversize(n) => EncodeFault::Oversize(*n),
            EncodeError::KindMismatch { signal, value } => EncodeFault::KindMismatch {
                signal: signal@,
                value: value@,
            },
            EncodeError::OutOfRange { signal, value } => EncodeFault::OutOfRange {
                signal: signal@,
                value: *value,
            },
            EncodeError::UnknownEnumLabel { signal, label } => EncodeFault::UnknownEnumLabel {
                signal: signal@,
                label: label@,
            },
        }
    }
}

/// Raw payload value before scaling or enum lookup.
#[derive(Debug, Clone, Copy)]
pub enum Raw {
    Int(i128),
    Float(Double),
}

impl Raw {
    /// The raw value as a number.
    pub open spec fn number(self) -> Double {
        match self {
            Raw::Int(i) => Double::of_integer(i as int),
            Raw::Float(f) => f,
        }
    }
}

/// The integer that `n` stands for in two's complement of `width` bytes.
pub open spec fn twos_complement(n: nat, width: nat) -> int {
    if n < pow2((8 * width - 1) as nat) {
        n as int
    } else {
        n - pow2(8 * width)
    }
}

/// The number of `width` bytes that stands for `i` in two's complement.
pub open spec fn to_twos_complement(i: int, width: nat) -> nat {
    if i >= 0 {
        i as nat
    } else {
        (i + pow2(8 * width)) as nat
    }
}

/// Smallest and largest raw integer of a type; a bool is kept in a byte.
pub open spec fn raw_range(ty: SignalType) -> Option<(int, int)> {
    if ty is Bool {
        Some((0, 0xff))
    } else {
        ty.range()
    }
}

pub open spec fn is_signed(ty: SignalType) -> bool {
    ty is I8 || ty is I16 || ty is I32 || ty is I64
}

/// The raw value of a type whose payload spells `n`.
pub open spec fn raw_of_number(ty: SignalType, n: nat) -> Raw {
    match ty {
        SignalType::F32 => Raw::Float(Double::of_single(n as u32)),
        SignalType::F64 => Raw::Float(Double { bits: n as u64 }),
        _ => Raw::Int(
            if is_signed(ty) {
                twos_complement(n, ty.width() as nat)
            } else {
                n as int
            } as i128,
        ),
    }
}

/// The number that the payload of a raw value spells; none where the raw value
/// does not fit the type.
pub open spec fn number_of_raw(ty: SignalType, raw: Raw) -> Option<nat> {
    match (ty, raw) {
        (SignalType::F32, Raw::Float(f)) => if f.single() % 0x8000_0000 < INFINITE_SINGLE {
            Some(f.single() as nat)
        } else {
            None
        },
        (SignalType::F64, Raw::Float(f)) => Some(f.bits as nat),
        (SignalType::F32 | SignalType::F64, Raw::Int(_)) => None,
        (_, Raw::Float(_)) => None,
        (_, Raw::Int(i)) => {
            let (lo, hi) = raw_range(ty)->0;
            if lo <= i <= hi {
                Some(to_twos_complement(i as int, ty.width() as nat))
            } else {
                None
            }
        },
    }
}

/// The raw value in a payload.
pub open spec fn raw_of(ty: SignalType, endian: Endian, payload: Seq<u8>) -> Raw {
    raw_of_number(ty, big_endian_value(in_order(endian, payload)))
}

/// The payload of a raw value; none where it does not fit the type.
pub open spec fn raw_bytes(ty: SignalType, endian: Endian, raw: Raw) -> Option<Seq<u8>> {
    match number_of_raw(ty, raw) {
        Some(n) => Some(in_order(endian, big_endian(n, ty.width() as nat))),
        None => None,
    }
}

/// The physical value in a payload: a bool, an enum's label, or
/// `raw * scale + offset`.
pub open spec fn decoded(def: DefModel, payload: Seq<u8>) -> Result<ValueModel, FrameErrorKind> {
    if payload.len() != def.ty.width() {
        Err(
            FrameErrorKind::LengthMismatch {
                expected: def.ty.width(),
                actual: payload.len() as usize,
            },
        )
    } else {
        decoded_raw(def, raw_of(def.ty, def.byte_order(), payload))
    }
}

/// The physical value of a number.
pub open spec fn physical(def: DefModel, raw: Double) -> Double {
    raw.product(def.scale).sum(def.offset)
}

pub open spec fn decoded_raw(def: DefModel, raw: Raw) -> Result<ValueModel, FrameErrorKind> {
    match (def.kind(), raw) {
        (ValueKind::Bool, Raw::Int(i)) => if i == 0 {
            Ok(ValueModel::Bool(false))
        } else if i == 1 {
            Ok(ValueModel::Bool(true))
        } else {
            Err(FrameErrorKind::InvalidValue)
        },
        (ValueKind::Enum, Raw::Int(i)) => match def.label_of(i as int) {
            Some(label) => Ok(ValueModel::Enum(label)),
            None => Err(FrameErrorKind::InvalidValue),
        },
        (ValueKind::Num, raw) => {
            let value = physical(def, raw.number());
            if value.finite() {
                Ok(ValueModel::Num(value))
            } else {
                Err(FrameErrorKind::InvalidValue)
            }
        },
        _ => Err(FrameErrorKind::InvalidValue),
    }
}

/// The number to store for a physical value.
pub open spec fn scaled(def: DefModel, value: Double) -> Double {
    value.difference(def.offset).quotient(def.scale)
}

/// The raw value to store for a physical value.
pub open spec fn raw_for(def: DefModel, value: ValueModel) -> Result<Raw, EncodeFault> {
    match (def.kind(), value) {
        (ValueKind::Bool, ValueModel::Bool(b)) => Ok(
            Raw::Int(
                if b {
                    1
                } else {
                    0
                },
            ),
        ),
        (ValueKind::Enum, ValueModel::Enum(label)) => match def.code_of(label) {
            Some(raw) => Ok(Raw::Int(raw as i128)),
            None => Err(EncodeFault::UnknownEnumLabel { signal: def.name, label }),
        },
        (ValueKind::Num, ValueModel::Num(v)) => {
            let x = scaled(def, v);
            if !x.finite() {
                Err(EncodeFault::OutOfRange { signal: def.name, value: v })
            } else if def.ty is F32 || def.ty is F64 {
                Ok(Raw::Float(x))
            } else {
                Ok(Raw::Int(rounded(x)))
            }
        },
        _ => Err(EncodeFault::KindMismatch { signal: def.name, value }),
    }
}

/// A finite number rounded to an integer, ties away from zero.
pub open spec fn rounded(x: Double) -> i128 {
    crate::double::saturated_i128(
        crate::double::nearest_integer(x.units(), crate::double::one_in_units()),
    )
}

/// The payload of a physical value.
pub open spec fn encoded(def: DefModel, value: ValueModel) -> Result<Seq<u8>, EncodeFault> {
    match raw_for(def, value) {
        Err(fault) => Err(fault),
        Ok(raw) => match raw_bytes(def.ty, def.byte_order(), raw) {
            Some(payload) => Ok(payload),
            None => Err(
                EncodeFault::OutOfRange {
                    signal: def.name,
                    value: match value {
                        ValueModel::Num(v) => v,
                        _ => Double::not_a_number(),
                    },
                },
            ),
        },
    }
}

/// The powers of two that bound the integer types.
proof fn lemma_widths()
    ensures
        pow2(7) == 0x80,
        pow2(8) == 0x100,
        pow2(15) == 0x8000,
        pow2(16) == 0x1_0000,
        pow2(31) == 0x8000_0000,
        pow2(32) == 0x1_0000_0000,
        pow2(63) == 0x8000_0000_0000_0000,
        pow2(64) == 0x1_0000_0000_0000_0000,
{
    lemma2_to64();
    lemma2_to64_rest();
    lemma_pow2_unfold(64);
}

/// Reads the raw value of a payload; nothing where the payload's length is not
/// that of the type.
pub fn read_raw(ty: SignalType, endian: Endian, payload: &[u8]) -> (r: Option<Raw>)
    ensures
        r == if payload@.len() == ty.width() {
            Some(raw_of(ty, endian, payload@))
        } else {
            None
        },
{
    proof {
        lemma_widths();
    }
    if payload.len() != ty.size() {
        return None;
    }
    let bytes: Vec<u8> = ordered(endian, payload);
    proof {
        lemma_in_order_twice(endian, payload@);
    }
    let n: u64 = number(bytes.as_slice());
    let raw: Raw = match ty {
        SignalType::Bool
        | SignalType::U8
        | SignalType::U16
        | SignalType::U32
        | SignalType::U64 => Raw::Int(n as i128),
        SignalType::I8 => Raw::Int(
            if n < 0x80 {
                n as i128
            } else {
                n as i128 - 0x100
            },
        ),
        SignalType::I16 => Raw::Int(
            if n < 0x8000 {
                n as i128
            } else {
                n as i128 - 0x1_0000
            },
        ),
        SignalType::I32 => Raw::Int(
            if n < 0x8000_0000 {
                n as i128
            } else {
                n as i128 - 0x1_0000_0000
            },
        ),
        SignalType::I64 => Raw::Int(
            if n < 0x8000_0000_0000_0000 {
                n as i128
            } else {
                n as i128 - 0x1_0000_0000_0000_0000
            },
        ),
        SignalType::F32 => Raw::Float(Double::from_single(n as u32)),
        SignalType::F64 => Raw::Float(Double::from_bits(n)),
    };
    Some(raw)
}

/// The number that the payload of a raw value spells.
fn raw_number(ty: SignalType, raw: Raw) -> (r: Option<u64>)
    ensures
        r is Some <==> number_of_raw(ty, raw) is Some,
        r matches Some(n) ==> number_of_raw(ty, raw) == Some(n as nat),
{
    proof {
        lemma_widths();
    }
    match (ty, raw) {
        (SignalType::F32, Raw::Float(f)) => {
            let single: u32 = f.to_single();
            if single % 0x8000_0000 < INFINITE_SINGLE {
                Some(single as u64)
            } else {
                None
            }
        },
        (SignalType::F64, Raw::Float(f)) => Some(f.to_bits()),
        (SignalType::F32 | SignalType::F64, Raw::Int(_)) => None,
        (_, Raw::Float(_)) => None,
        (_, Raw::Int(i)) => {
            let (lo, hi): (i128, i128) = match ty.int_range() {
                Some(range) => range,
                None => (0, 0xff),
            };
            if i < lo || i > hi {
                None
            } else if i >= 0 {
                Some(i as u64)
            } else {
                let modulus: i128 = match ty.size() {
                    1 => 0x100,
                    2 => 0x1_0000,
                    4 => 0x1_0000_0000,
                    _ => 0x1_0000_0000_0000_0000,
                };
                Some((i + modulus) as u64)
            }
        },
    }
}

/// Writes the payload of a raw value; nothing where it does not fit the type.
pub fn write_raw(ty: SignalType, endian: Endian, raw: Raw) -> (r: Option<Vec<u8>>)
    ensures
        r is Some <==> raw_bytes(ty, endian, raw) is Some,
        r matches Some(payload) ==> raw_bytes(ty, endian, raw) == Some(payload@),
{
    match raw_number(ty, raw) {
        Some(n) => {
            let mut big: Vec<u8> = Vec::new();
            push_big_endian(&mut big, n, ty.size());
            assert(big@ =~= big_endian(n as nat, ty.width() as nat));
            Some(ordered(endian, big.as_slice()))
        },
        None => None,
    }
}

/// Decodes one frame payload into a physical value.
pub fn decode_value(signal: &Signal, payload: &[u8]) -> (r: Result<SignalValue, FrameErrorKind>)
    ensures
        match r {
            Ok(value) => decoded(signal@, payload@) == Ok::<ValueModel, FrameErrorKind>(value@),
            Err(kind) => decoded(signal@, payload@) == Err::<ValueModel, FrameErrorKind>(kind),
        },
{
    let ty: SignalType = signal.ty();
    let length_mismatch: FrameErrorKind = FrameErrorKind::LengthMismatch {
        expected: ty.size(),
        actual: payload.len(),
    };
    let raw: Raw = match read_raw(ty, signal.endian(), payload) {
        Some(raw) => raw,
        None => {
            return Err(length_mismatch);
        },
    };
    match (signal.kind(), raw) {
        (ValueKind::Bool, Raw::Int(i)) => {
            if i == 0 {
                Ok(SignalValue::Bool(false))
            } else if i == 1 {
                Ok(SignalValue::Bool(true))
            } else {
                Err(FrameErrorKind::InvalidValue)
            }
        },
        (ValueKind::Enum, Raw::Int(i)) => match signal.enum_label(i) {
            Some(label) => Ok(SignalValue::Enum(label.to_owned())),
            None => Err(FrameErrorKind::InvalidValue),
        },
        (ValueKind::Num, raw) => {
            let number: Double = match raw {
                Raw::Int(i) => Double::from_integer(i),
                Raw::Float(f) => f,
            };
            let def = signal.def();
            let value: Double = number.times(def.scale).plus(def.offset);
            if value.is_finite() {
                Ok(SignalValue::Num(value))
            } else {
                Err(FrameErrorKind::InvalidValue)
            }
        },
        _ => Err(FrameErrorKind::InvalidValue),
    }
}

/// Encodes a physical value into a payload (inverse of [`decode_value`]).
///
/// Numeric values are converted with `raw = round((value - offset) / scale)`
/// for integer types.
pub fn encode_value(signal: &Signal, value: &SignalValue) -> (r: Result<Vec<u8>, EncodeError>)
    ensures
        match r {
            Ok(payload) => encoded(signal@, value@) == Ok::<Seq<u8>, EncodeFault>(payload@),
            Err(e) => encoded(signal@, value@) == Err::<Seq<u8>, EncodeFault>(e@),
        },
{
    let def = signal.def();
    let raw: Raw = match (signal.kind(), value) {
        (ValueKind::Bool, SignalValue::Bool(b)) => Raw::Int(
            if *b {
                1
            } else {
                0
            },
        ),
        (ValueKind::Enum, SignalValue::Enum(label)) => match signal.enum_raw(label.as_str()) {
            Some(raw) => Raw::Int(raw),
            None => {
                return Err(
                    EncodeError::UnknownEnumLabel {
                        signal: def.name.clone(),
                        label: label.clone(),
                    },
                );
            },
        },
        (ValueKind::Num, SignalValue::Num(v)) => {
            let scaled: Double = v.minus(def.offset).divided_by(def.scale);
            if !scaled.is_finite() {
                return Err(EncodeError::OutOfRange { signal: def.name.clone(), value: *v });
            }
            if def.ty.is_float() {
                Raw::Float(scaled)
            } else {
                // Saturates; `write_raw` then rejects anything outside the wire type.
                Raw::Int(scaled.round_to_integer())
            }
        },
        _ => {
            return Err(
                EncodeError::KindMismatch { signal: def.name.clone(), value: value.clone() },
            );
        },
    };
    match write_raw(signal.ty(), signal.endian(), raw) {
        Some(payload) => Ok(payload),
        None => Err(
            EncodeError::OutOfRange {
                signal: def.name.clone(),
                value: match value.as_num() {
                    Some(v) => v,
                    None => Double::from_bits(0x7ff8_0000_0000_0000),
                },
            },
        ),
    }
}

/// The number that a payload spells and the raw value that it stands for
/// determine each other, but that a double may be too long for a single.
proof fn lemma_raw_numbers(ty: SignalType, n: nat, raw: Raw)
    ensures
        n < pow2(8 * ty.width() as nat) && (ty is F32 ==> (n as u32) % 0x8000_0000
            < INFINITE_SINGLE) ==> number_of_raw(ty, raw_of_number(ty, n)) == Some(n),
        number_of_raw(ty, raw) matches Some(k) ==> k < pow2(8 * ty.width() as nat)
            && raw_of_number(ty, k) == match (ty, raw) {
            (SignalType::F32, Raw::Float(f)) => Raw::Float(Double::of_single(f.single())),
            _ => raw,
        },
{
    lemma_widths();
    if ty is F32 && n < pow2(32) && (n as u32) % 0x8000_0000 < INFINITE_SINGLE {
        law_single_widens_exactly(n as u32);
    }
}

/// A raw value that fits its type is read back from its payload; a double
/// written as a single comes back as that single.
pub proof fn law_raw_is_read_back(ty: SignalType, endian: Endian, raw: Raw)
    requires
        number_of_raw(ty, raw) is Some,
    ensures
        raw_bytes(ty, endian, raw) matches Some(payload) && payload.len() == ty.width() && raw_of(
            ty,
            endian,
            payload,
        ) == match (ty, raw) {
            (SignalType::F32, Raw::Float(f)) => Raw::Float(Double::of_single(f.single())),
            _ => raw,
        },
{
    let n = number_of_raw(ty, raw)->0;
    lemma_raw_numbers(ty, n, raw);
    law_number_is_read_back(n, ty.width() as nat);
    lemma_in_order_twice(endian, big_endian(n, ty.width() as nat));
}

/// A payload of the right length is written back from its raw value, unless
/// it holds a single that is not finite.
pub proof fn law_payload_is_written_back(ty: SignalType, endian: Endian, payload: Seq<u8>)
    requires
        payload.len() == ty.width(),
        ty is F32 ==> (big_endian_value(in_order(endian, payload)) as u32) % 0x8000_0000
            < INFINITE_SINGLE,
    ensures
        raw_bytes(ty, endian, raw_of(ty, endian, payload)) == Some(payload),
{
    let big = in_order(endian, payload);
    lemma_in_order_twice(endian, payload);
    law_bytes_are_written_back(big);
    lemma_raw_numbers(ty, big_endian_value(big), Raw::Int(0));
}

/// The same signal in the other byte order has the same payloads, byte-reversed.
pub proof fn law_byte_orders_mirror_each_other(def: DefModel, value: ValueModel)
    ensures
        ({
            let big = encoded(DefModel { endian: Some(Endian::Big), ..def }, value);
            let little = encoded(DefModel { endian: Some(Endian::Little), ..def }, value);
            match big {
                Ok(payload) => little == Ok::<Seq<u8>, EncodeFault>(payload.reverse()),
                Err(fault) => little == Err::<Seq<u8>, EncodeFault>(fault),
            }
        }),
{
    let big = DefModel { endian: Some(Endian::Big), ..def };
    let little = DefModel { endian: Some(Endian::Little), ..def };
    assert(raw_for(big, value) == raw_for(little, value));
}

/// The codes and labels of a valid enum signal.
proof fn lemma_enum(def: DefModel)
    requires
        def.fault() is None,
        def.kind() is Enum,
    ensures
        def.ty.range() is Some,
        forall|k: int|
            0 <= k < def.entries().len() ==> {
                let code = spelled_integer((#[trigger] def.entries()[k]).0);
                &&& code is Some
                &&& def.ty.holds(code->0)
            },
        forall|j: int, k: int|
            0 <= j < k < def.entries().len() ==> (#[trigger] def.entries()[j]).1 != (
            #[trigger] def.entries()[k]).1,
{
    lemma_entries_sound(def.entries(), def.ty, 0);
}

/// A bool signal decodes to a bool, an enum signal to one of its labels, and
/// every other signal to a finite number.
pub proof fn law_decoded_value_fits_its_signal(def: DefModel, payload: Seq<u8>)
    requires
        decoded(def, payload) is Ok,
    ensures
        match decoded(def, payload)->Ok_0 {
            ValueModel::Bool(_) => def.kind() is Bool,
            ValueModel::Num(v) => def.kind() is Num && v.finite(),
            ValueModel::Enum(label) => def.kind() is Enum && exists|i: int|
                0 <= i < def.entries().len() && (#[trigger] def.entries()[i]).1 == label,
        },
{
    if def.kind() is Enum {
        let raw = raw_of(def.ty, def.byte_order(), payload);
        lemma_label_before(def.entries(), raw->Int_0 as int, def.entries().len());
    }
}

/// A bool is read back from its payload.
pub proof fn law_bool_is_read_back(def: DefModel, b: bool)
    requires
        def.kind() is Bool,
    ensures
        encoded(def, ValueModel::Bool(b)) matches Ok(payload) && decoded(def, payload) == Ok::<
            ValueModel,
            FrameErrorKind,
        >(ValueModel::Bool(b)),
{
    let raw = Raw::Int(
        if b {
            1
        } else {
            0
        },
    );
    law_raw_is_read_back(def.ty, def.byte_order(), raw);
}

/// A label is read back from its payload, where no later entry spells its code.
pub proof fn law_label_is_read_back(def: DefModel, label: Seq<char>)
    requires
        def.fault() is None,
        def.kind() is Enum,
        exists|i: int|
            0 <= i < def.entries().len() && (#[trigger] def.entries()[i]).1 == label
                && is_last_spelling(def.entries(), i),
    ensures
        encoded(def, ValueModel::Enum(label)) matches Ok(payload) && decoded(def, payload) == Ok::<
            ValueModel,
            FrameErrorKind,
        >(ValueModel::Enum(label)),
{
    let entries = def.entries();
    let i = choose|i: int|
        0 <= i < entries.len() && (#[trigger] entries[i]).1 == label && is_last_spelling(
            entries,
            i,
        );
    lemma_enum(def);
    lemma_code_before(entries, label, entries.len());
    let code = spelled_integer(entries[i].0)->0;
    lemma_last_label(entries, i, code, entries.len());
    law_raw_is_read_back(def.ty, def.byte_order(), Raw::Int(code as i128));
    assert(spelled_integer(entries[i].0) == Some(code));
}

/// A bool or a label is encoded to the payload that it was decoded from.
pub proof fn law_bool_or_label_is_encoded_back(def: DefModel, payload: Seq<u8>)
    requires
        def.fault() is None,
        def.kind() is Bool || def.kind() is Enum,
        decoded(def, payload) is Ok,
    ensures
        encoded(def, decoded(def, payload)->Ok_0) == Ok::<Seq<u8>, EncodeFault>(payload),
{
    if def.kind() is Enum {
        let entries = def.entries();
        lemma_enum(def);
        let raw = raw_of(def.ty, def.byte_order(), payload);
        let i = raw->Int_0 as int;
        lemma_label_before(entries, i, entries.len());
        let label = decoded(def, payload)->Ok_0->Enum_0;
        lemma_code_before(entries, label, entries.len());
    }
    law_payload_is_written_back(def.ty, def.byte_order(), payload);
}

/// How large the terms of `raw * scale + offset` may be for the raw integer to
/// be found again: together at most `2^49` times the scale, and below `2^1022`.
pub open spec fn within_precision(def: DefModel, raw: int) -> bool {
    let size = magnitude_of(raw * def.scale.units()) + magnitude_of(def.offset.units());
    &&& size <= magnitude_of(def.scale.units()) * pow2(49)
    &&& size < pow2(2096)
}

/// An integer payload decodes to a number, and is what that number is encoded
/// to, as long as the number's precision holds the raw integer.
pub proof fn law_integer_is_encoded_back(def: DefModel, payload: Seq<u8>)
    requires
        def.fault() is None,
        def.kind() is Num,
        def.ty.range() is Some,
        payload.len() == def.ty.width(),
        within_precision(def, raw_of(def.ty, def.byte_order(), payload)->Int_0 as int),
    ensures
        decoded(def, payload) matches Ok(value) && encoded(def, value) == Ok::<
            Seq<u8>,
            EncodeFault,
        >(payload),
{
    let raw = raw_of(def.ty, def.byte_order(), payload);
    law_scaling_is_undone(raw->Int_0 as int, def.scale, def.offset);
    law_payload_is_written_back(def.ty, def.byte_order(), payload);
}

/// An integer payload of an unscaled signal is what its number is encoded to,
/// wherever a double can hold the raw integer.
pub proof fn law_unscaled_integer_is_encoded_back(def: DefModel, payload: Seq<u8>)
    requires
        def.kind() is Num,
        def.scale == one(),
        def.offset.zero(),
        def.ty.range() is Some,
        payload.len() == def.ty.width(),
        ({
            let i = raw_of(def.ty, def.byte_order(), payload)->Int_0 as int;
            Double::of_integer(i).finite() && Double::of_integer(i).units() == i * one_in_units()
        }),
    ensures
        decoded(def, payload) matches Ok(value) && encoded(def, value) == Ok::<
            Seq<u8>,
            EncodeFault,
        >(payload),
{
    let i = raw_of(def.ty, def.byte_order(), payload)->Int_0 as int;
    let w = one_in_units();
    let number = Double::of_integer(i);
    lemma_pow2_pos(1074);
    law_neutral_numbers(number, def.offset);
    let value = physical(def, number);
    lemma_sign_and_magnitude(number);
    lemma_sign_and_magnitude(value);
    law_neutral_numbers(value, def.offset);
    let d = value.difference(def.offset);
    lemma_sign_and_magnitude(d);
    law_neutral_numbers(d, def.offset);
    let x = scaled(def, value);
    lemma_sign_and_magnitude(x);
    assert(x.units() == i * w);
    lemma_whole_is_nearest(i, w);
    assert(rounded(x) == i);
    law_payload_is_written_back(def.ty, def.byte_order(), payload);
}

/// A whole number of an unscaled integer signal, in the range of its type, is
/// read back from its payload.
pub proof fn law_whole_number_is_read_back(def: DefModel, value: Double, i: int)
    requires
        def.kind() is Num,
        def.scale == one(),
        def.offset.zero(),
        def.ty.range() is Some,
        def.ty.holds(i),
        value.finite(),
        value.units() == i * one_in_units(),
    ensures
        encoded(def, ValueModel::Num(value)) matches Ok(payload) && decoded(def, payload) matches Ok(
            back,
        ) && back.same(ValueModel::Num(value)),
{
    let w = one_in_units();
    lemma_pow2_pos(1074);
    law_neutral_numbers(value, def.offset);
    let x = scaled(def, value);
    lemma_sign_and_magnitude(value);
    let d = value.difference(def.offset);
    lemma_sign_and_magnitude(d);
    law_neutral_numbers(d, def.offset);
    lemma_sign_and_magnitude(x);
    assert(x.units() == i * w);
    lemma_whole_is_nearest(i, w);
    assert(rounded(x) == i);
    let raw = Raw::Int(i as i128);
    law_raw_is_read_back(def.ty, def.byte_order(), raw);
    lemma2_to64_rest();
    lemma_exact_is_kept(value.magnitude(), 1, 52, 2047);
    let read = Double::of_integer(i);
    let m = value.magnitude();
    assert(magnitude_units(m, 52) * 1 == magnitude_units(m, 52));
    assert(i * w < 0 <==> i < 0) by (nonlinear_arith)
        requires
            w > 0,
    ;
    lemma_signed(i < 0, m);
    assert(read == signed(i < 0, m));
    law_neutral_numbers(read, def.offset);
    law_order_is_value_order(physical(def, read), value);
    lemma_sign_and_magnitude(physical(def, read));
}

proof fn lemma_whole_is_nearest(i: int, unit: nat)
    requires
        unit > 0,
    ensures
        nearest_integer(i * unit, unit) == i,
{
    lemma_nearest_integer_is(i * unit, unit, i);
}

/// A zero is a zero in single precision too.
proof fn lemma_single_zero(x: Double)
    requires
        x.zero(),
    ensures
        x.single() % 0x8000_0000 < INFINITE_SINGLE,
        Double::of_single(x.single()).finite(),
        Double::of_single(x.single()).zero(),
{
    lemma2_to64();
    lemma_sign_and_magnitude(x);
    lemma_pow2_pos(925);
    lemma_exact_is_kept(0, single_unit(), 23, 255);
    lemma_single_zero_units();
    assert(0 * single_unit() == 0);
    let bits = x.single();
    assert(bits == 0 || bits == 0x8000_0000);
    law_single_widens_exactly(bits);
    assert(single_units(bits) == 0);
    assert(single_units(bits) * single_unit() == 0) by (nonlinear_arith)
        requires
            single_units(bits) == 0,
    ;
    lemma_sign_and_magnitude(Double::of_single(bits));
}

proof fn lemma_single_zero_units()
    ensures
        magnitude_units(0, 23) == 0,
{
    lemma2_to64();
    assert(magnitude_exponent(0, 23) == 0);
    assert(magnitude_units(0, 23) == 0);
}

/// What decoding an unscaled float payload gives is read back from the payload
/// that it is encoded to; the sign of a zero may be lost.
pub proof fn law_unscaled_float_is_read_back(def: DefModel, payload: Seq<u8>)
    requires
        def.kind() is Num,
        def.scale == one(),
        def.offset.zero(),
        def.ty is F32 || def.ty is F64,
        decoded(def, payload) is Ok,
    ensures
        encoded(def, decoded(def, payload)->Ok_0) matches Ok(again) && decoded(
            def,
            again,
        ) matches Ok(back) && back.same(decoded(def, payload)->Ok_0),
{
    let f = raw_of(def.ty, def.byte_order(), payload).number();
    let v = physical(def, f);
    lemma_one();
    lemma_sign_and_magnitude(one());
    lemma_sign_and_magnitude(f);
    if f.infinite() {
        lemma_signed(f.negative(), INFINITE as nat);
        assert(false);
    }
    assert(f.finite());
    law_neutral_numbers(f, def.offset);
    law_neutral_numbers(v, def.offset);
    let d = v.difference(def.offset);
    law_neutral_numbers(d, def.offset);
    let x = scaled(def, v);
    assert(x.finite() && (v.zero() ==> x.zero()) && (!v.zero() ==> x == f && v == f));
    if def.ty is F32 {
        if v.zero() {
            lemma_single_zero(x);
        } else {
            law_single_widens_exactly(
                big_endian_value(in_order(def.byte_order(), payload)) as u32,
            );
        }
    }
    law_raw_is_read_back(def.ty, def.byte_order(), Raw::Float(x));
    let again = raw_bytes(def.ty, def.byte_order(), Raw::Float(x))->0;
    let y = raw_of(def.ty, def.byte_order(), again).number();
    assert(y.finite() && (v.zero() ==> y.zero()) && (!v.zero() ==> y == v));
    law_neutral_numbers(y, def.offset);
}

} // verus!
