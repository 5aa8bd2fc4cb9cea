//! UDP wire format: packet header plus self-delimiting frames.
//!
//! The header is always big-endian; payload byte order comes from the catalog.
//! Decoding is total: every read is bounds-checked and failures are values.

use crate::bytes::{
    big_endian, big_endian_value, law_number_is_read_back, lemma_big_endian_len, push_big_endian,
    Reader,
};
use crate::catalog::{Catalog, CatalogModel, DefModel, Signal};
use crate::codec::{decoded, encoded};
use crate::text::{decimal, decimal_text, hex, hex_text};
use crate::value::{SignalValue, ValueModel};
use vstd::arithmetic::power2::{lemma2_to64, lemma2_to64_rest};
use vstd::prelude::*;

pub use crate::codec::{decode_value, encode_value, EncodeError, EncodeFault, FrameErrorKind};

verus! {

pub const MAGIC: u16 = 0x5445;

pub const VERSION: u8 = 1;

pub const PACKET_HEADER_LEN: usize = 4;

pub const FRAME_HEADER_LEN: usize = 11;

pub const MAX_FRAMES: usize = 64;

pub const MAX_DATAGRAM_LEN: usize = 1500;

/// A decoded sample: catalog signal plus physical value.
#[derive(Debug, PartialEq)]
pub struct Sample {
    pub signal_id: u16,
    pub name: String,
    pub timestamp_us: u64,
    pub value: SignalValue,
}

/// The content of a [`Sample`].
pub struct SampleModel {
    pub signal_id: u16,
    pub name: Seq<char>,
    pub timestamp_us: u64,
    pub value: ValueModel,
}

impl View for Sample {
    type V = SampleModel;

    open spec fn view(&self) -> SampleModel {
        SampleModel {
            signal_id: self.signal_id,
            name: self.name@,
            timestamp_us: self.timestamp_us,
            value: self.value@,
        }
    }
}

impl Clone for Sample {
    fn clone(&self) -> (r: Sample)
        ensures
            r@ == self@,
    {
        Sample {
            signal_id: self.signal_id,
            name: self.name.clone(),
            timestamp_us: self.timestamp_us,
            value: self.value.clone(),
        }
    }
}

/// Errors that reject the whole packet.
#[derive(Debug, Clone, Copy, PartialEq, Eq, Structural)]
pub enum PacketError {
    Oversize(usize),
    HeaderTruncated(usize),
    BadMagic(u16),
    BadVersion(u8),
    ZeroFrames,
    TooManyFrames(u8),
}

impl PacketError {
    pub open spec fn label(self) -> Seq<char> {
        match self {
            PacketError::Oversize(_) => "oversize"@,
            PacketError::HeaderTruncated(_) => "truncated"@,
            PacketError::BadMagic(_) => "bad_magic"@,
            PacketError::BadVersion(_) => "bad_version"@,
            PacketError::ZeroFrames => "zero_frames"@,
            PacketError::TooManyFrames(_) => "too_many_frames"@,
        }
    }

    /// Metric label for `telemetryd_decode_errors_total{reason}`.
    pub fn reason(&self) -> (r: &'static str)
        ensures
            r@ == self.label(),
    {
        match self {
            PacketError::Oversize(_) => "oversize",
            PacketError::HeaderTruncated(_) => "truncated",
            PacketError::BadMagic(_) => "bad_magic",
            PacketError::BadVersion(_) => "bad_version",
            PacketError::ZeroFrames => "zero_frames",
            PacketError::TooManyFrames(_) => "too_many_frames",
        }
    }
}

impl PacketError {
    /// The error in words.
    pub open spec fn words(self) -> Seq<char> {
        match self {
            PacketError::Oversize(n) => "datagram of "@ + decimal(n as int)
                + " bytes exceeds 1500"@,
            PacketError::HeaderTruncated(n) => "datagram of "@ + decimal(n as int)
                + " bytes is shorter than the packet header"@,
            PacketError::BadMagic(magic) => "bad magic 0x"@ + hex(magic),
            PacketError::BadVersion(version) => "unsupported version "@ + decimal(version as int),
            PacketError::ZeroFrames => "frame_count is zero"@,
            PacketError::TooManyFrames(n) => "frame_count "@ + decimal(n as int)
                + " exceeds 64"@,
        }
    }

    /// The error in words.
    pub fn message(&self) -> (r: String)
        ensures
            r@ == self.words(),
    {
        let mut r: String = String::new();
        match self {
            PacketError::Oversize(n) => {
                r.append("datagram of ");
                r.append(decimal_text(*n as i128).as_str());
                r.append(" bytes exceeds 1500");
            },
            PacketError::HeaderTruncated(n) => {
                r.append("datagram of ");
                r.append(decimal_text(*n as i128).as_str());
                r.append(" bytes is shorter than the packet header");
            },
            PacketError::BadMagic(magic) => {
                r.append("bad magic 0x");
                r.append(hex_text(*magic).as_str());
            },
            PacketError::BadVersion(version) => {
                r.append("unsupported version ");
                r.append(decimal_text(*version as i128).as_str());
            },
            PacketError::ZeroFrames => {
                r.append("frame_count is zero");
            },
            PacketError::TooManyFrames(n) => {
                r.append("frame_count ");
                r.append(decimal_text(*n as i128).as_str());
                r.append(" exceeds 64");
            },
        }
        assert(r@ =~= self.words());
        r
    }
}

impl FrameErrorKind {
    /// The error in words.
    pub open spec fn words(self) -> Seq<char> {
        match self {
            FrameErrorKind::Truncated => "frame truncated"@,
            FrameErrorKind::LengthMismatch { expected, actual } => "payload length "@ + decimal(
                actual as int,
            ) + " does not match type size "@ + decimal(expected as int),
            FrameErrorKind::InvalidValue => "invalid value"@,
            FrameErrorKind::TrailingBytes(n) => decimal(n as int)
                + " trailing bytes after the last frame"@,
        }
    }

    /// The error in words.
    pub fn message(&self) -> (r: String)
        ensures
            r@ == self.words(),
    {
        let mut r: String = String::new();
        match self {
            FrameErrorKind::Truncated => {
                r.append("frame truncated");
            },
            FrameErrorKind::LengthMismatch { expected, actual } => {
                r.append("payload length ");
                r.append(decimal_text(*actual as i128).as_str());
                r.append(" does not match type size ");
                r.append(decimal_text(*expected as i128).as_str());
            },
            FrameErrorKind::InvalidValue => {
                r.append("invalid value");
            },
            FrameErrorKind::TrailingBytes(n) => {
                r.append(decimal_text(*n as i128).as_str());
                r.append(" trailing bytes after the last frame");
            },
        }
        assert(r@ =~= self.words());
        r
    }

    pub open spec fn label(self) -> Seq<char> {
        match self {
            FrameErrorKind::Truncated => "truncated"@,
            FrameErrorKind::LengthMismatch { .. } => "length_mismatch"@,
            FrameErrorKind::InvalidValue => "invalid_value"@,
            FrameErrorKind::TrailingBytes(_) => "trailing_bytes"@,
        }
    }

    /// Metric label for `telemetryd_decode_errors_total{reason}`.
    pub fn reason(&self) -> (r: &'static str)
        ensures
            r@ == self.label(),
    {
        match self {
            FrameErrorKind::Truncated => "truncated",
            FrameErrorKind::LengthMismatch { .. } => "length_mismatch",
            FrameErrorKind::InvalidValue => "invalid_value",
            FrameErrorKind::TrailingBytes(_) => "trailing_bytes",
        }
    }
}

/// A frame that could not be decoded.
#[derive(Debug, Clone, Copy, PartialEq, Eq)]
pub struct FrameError {
    /// Zero-based frame index within the packet.
    pub index: usize,
    /// Signal id, if the frame header was readable.
    pub signal_id: Option<u16>,
    pub kind: FrameErrorKind,
}

/// Result of decoding one packet that passed header validation.
#[derive(Debug, Clone, PartialEq)]
pub struct DecodedPacket {
    pub samples: Vec<Sample>,
    pub errors: Vec<FrameError>,
    /// Frames skipped because their signal id is not in the catalog.
    pub unknown_signals: usize,
}

/// The content of a [`DecodedPacket`].
pub struct PacketModel {
    pub samples: Seq<SampleModel>,
    pub errors: Seq<FrameError>,
    pub unknown_signals: nat,
}

pub open spec fn sample_models(samples: Seq<Sample>) -> Seq<SampleModel> {
    Seq::new(samples.len(), |i: int| samples[i]@)
}

impl View for DecodedPacket {
    type V = PacketModel;

    open spec fn view(&self) -> PacketModel {
        PacketModel {
            samples: sample_models(self.samples@),
            errors: self.errors@,
            unknown_signals: self.unknown_signals as nat,
        }
    }
}

impl PacketModel {
    pub open spec fn nothing() -> PacketModel {
        PacketModel { samples: Seq::empty(), errors: Seq::empty(), unknown_signals: 0 }
    }

    pub open spec fn one_sample(sample: SampleModel) -> PacketModel {
        PacketModel { samples: seq![sample], errors: Seq::empty(), unknown_signals: 0 }
    }

    pub open spec fn one_error(
        index: nat,
        signal_id: Option<u16>,
        kind: FrameErrorKind,
    ) -> PacketModel {
        PacketModel {
            samples: Seq::empty(),
            errors: seq![FrameError { index: index as usize, signal_id, kind }],
            unknown_signals: 0,
        }
    }

    pub open spec fn one_unknown() -> PacketModel {
        PacketModel { samples: Seq::empty(), errors: Seq::empty(), unknown_signals: 1 }
    }

    /// What comes first, followed by what comes after.
    pub open spec fn followed_by(self, later: PacketModel) -> PacketModel {
        PacketModel {
            samples: self.samples + later.samples,
            errors: self.errors + later.errors,
            unknown_signals: self.unknown_signals + later.unknown_signals,
        }
    }

    /// How many outcomes are reported.
    pub open spec fn count(self) -> nat {
        self.samples.len() + self.errors.len() + self.unknown_signals
    }
}

impl Default for DecodedPacket {
    fn default() -> (r: DecodedPacket)
        ensures
            r@ == PacketModel::nothing(),
    {
        let r = DecodedPacket { samples: Vec::new(), errors: Vec::new(), unknown_signals: 0 };
        assert(r@.samples =~= PacketModel::nothing().samples);
        r
    }
}

/// A frame with an already-encoded payload.
#[derive(Debug, PartialEq, Eq)]
pub struct RawFrame {
    pub signal_id: u16,
    pub timestamp_us: u64,
    pub payload: Vec<u8>,
}

/// The content of a [`RawFrame`].
pub struct FrameModel {
    pub signal_id: u16,
    pub timestamp_us: u64,
    pub payload: Seq<u8>,
}

impl View for RawFrame {
    type V = FrameModel;

    open spec fn view(&self) -> FrameModel {
        FrameModel {
            signal_id: self.signal_id,
            timestamp_us: self.timestamp_us,
            payload: self.payload@,
        }
    }
}

pub open spec fn frame_models(frames: Seq<RawFrame>) -> Seq<FrameModel> {
    Seq::new(frames.len(), |i: int| frames[i]@)
}

impl Clone for RawFrame {
    fn clone(&self) -> (r: RawFrame)
        ensures
            r@ == self@,
    {
        let mut payload: Vec<u8> = Vec::new();
        payload.extend_from_slice(self.payload.as_slice());
        assert(payload@ =~= self.payload@);
        RawFrame { signal_id: self.signal_id, timestamp_us: self.timestamp_us, payload }
    }
}

impl FrameModel {
    /// The frame's bytes: id, timestamp, payload length, payload.
    pub open spec fn bytes(self) -> Seq<u8> {
        big_endian(self.signal_id as nat, 2) + big_endian(self.timestamp_us as nat, 8)
            + seq![self.payload.len() as u8] + self.payload
    }

    /// What the frame contributes to the packet, as frame number `index`.
    pub open spec fn outcome(self, catalog: CatalogModel, index: nat) -> PacketModel {
        match catalog.find_id(self.signal_id) {
            None => PacketModel::one_unknown(),
            Some(def) => match decoded(def, self.payload) {
                Ok(value) => PacketModel::one_sample(
                    SampleModel {
                        signal_id: self.signal_id,
                        name: def.name,
                        timestamp_us: self.timestamp_us,
                        value,
                    },
                ),
                Err(kind) => PacketModel::one_error(index, Some(self.signal_id), kind),
            },
        }
    }
}

/// Whether bytes start with a whole frame.
pub open spec fn starts_with_frame(rest: Seq<u8>) -> bool {
    rest.len() >= FRAME_HEADER_LEN && rest.len() >= FRAME_HEADER_LEN + rest[10] as nat
}

/// The frame that bytes start with.
pub open spec fn first_frame(rest: Seq<u8>) -> FrameModel {
    FrameModel {
        signal_id: big_endian_value(rest.take(2)) as u16,
        timestamp_us: big_endian_value(rest.subrange(2, 10)) as u64,
        payload: rest.subrange(FRAME_HEADER_LEN as int, FRAME_HEADER_LEN + rest[10] as int),
    }
}

/// What decoding makes of the bytes from frame number `index` on, where the
/// packet announces `count` frames.
pub open spec fn decoded_from(
    rest: Seq<u8>,
    index: nat,
    count: nat,
    catalog: CatalogModel,
) -> PacketModel
    decreases count - index,
{
    if index >= count {
        if rest.len() > 0 {
            PacketModel::one_error(count, None, FrameErrorKind::TrailingBytes(rest.len() as usize))
        } else {
            PacketModel::nothing()
        }
    } else if !starts_with_frame(rest) {
        PacketModel::one_error(
            index,
            if rest.len() >= 2 {
                Some(big_endian_value(rest.take(2)) as u16)
            } else {
                None
            },
            FrameErrorKind::Truncated,
        )
    } else {
        let frame = first_frame(rest);
        frame.outcome(catalog, index).followed_by(
            decoded_from(
                rest.skip((FRAME_HEADER_LEN + frame.payload.len()) as int),
                index + 1,
                count,
                catalog,
            ),
        )
    }
}

/// What is wrong with the packet as a whole, if anything.
pub open spec fn packet_fault(buf: Seq<u8>) -> Option<PacketError> {
    if buf.len() > MAX_DATAGRAM_LEN {
        Some(PacketError::Oversize(buf.len() as usize))
    } else if buf.len() < PACKET_HEADER_LEN {
        Some(PacketError::HeaderTruncated(buf.len() as usize))
    } else if big_endian_value(buf.take(2)) != MAGIC {
        Some(PacketError::BadMagic(big_endian_value(buf.take(2)) as u16))
    } else if buf[2] != VERSION {
        Some(PacketError::BadVersion(buf[2]))
    } else if buf[3] == 0 {
        Some(PacketError::ZeroFrames)
    } else if buf[3] > MAX_FRAMES {
        Some(PacketError::TooManyFrames(buf[3]))
    } else {
        None
    }
}

/// What a packet that is acceptable as a whole decodes to.
pub open spec fn decoded_packet(buf: Seq<u8>, catalog: CatalogModel) -> PacketModel {
    decoded_from(buf.skip(PACKET_HEADER_LEN as int), 0, buf[3] as nat, catalog)
}

/// The parts of a frame, and what the packet has left after it.
proof fn lemma_take_frame(rest: Seq<u8>)
    requires
        starts_with_frame(rest),
    ensures
        rest.skip(2).take(8) == rest.subrange(2, 10),
        rest.skip(2).skip(8).skip(1).take(rest[10] as int) == first_frame(rest).payload,
        rest.skip(2).skip(8).skip(1).skip(rest[10] as int) == rest.skip(
            (FRAME_HEADER_LEN + first_frame(rest).payload.len()) as int,
        ),
{
    assert(rest.skip(2).take(8) =~= rest.subrange(2, 10));
    assert(rest.skip(2).skip(8).skip(1).take(rest[10] as int) =~= first_frame(rest).payload);
    assert(rest.skip(2).skip(8).skip(1).skip(rest[10] as int) =~= rest.skip(
        (FRAME_HEADER_LEN + first_frame(rest).payload.len()) as int,
    ));
}

pub proof fn lemma_followed_by(a: PacketModel, b: PacketModel, c: PacketModel)
    ensures
        a.followed_by(b).followed_by(c) == a.followed_by(b.followed_by(c)),
        PacketModel::nothing().followed_by(a) == a,
        a.followed_by(PacketModel::nothing()) == a,
{
    assert(a.samples + b.samples + c.samples =~= a.samples + (b.samples + c.samples));
    assert(a.errors + b.errors + c.errors =~= a.errors + (b.errors + c.errors));
    assert(PacketModel::nothing().samples + a.samples =~= a.samples);
    assert(PacketModel::nothing().errors + a.errors =~= a.errors);
    assert(a.samples + PacketModel::nothing().samples =~= a.samples);
    assert(a.errors + PacketModel::nothing().errors =~= a.errors);
}

/// Decodes one UDP datagram against `catalog`.
pub fn decode_packet(buf: &[u8], catalog: &Catalog) -> (r: Result<DecodedPacket, PacketError>)
    ensures
        match r {
            Ok(packet) => packet_fault(buf@) is None && packet@ == decoded_packet(buf@, catalog@),
            Err(e) => packet_fault(buf@) == Some(e),
        },
{
    if buf.len() > MAX_DATAGRAM_LEN {
        return Err(PacketError::Oversize(buf.len()));
    }
    let mut r: Reader = Reader::new(buf);
    let (magic, version, frame_count): (u16, u8, u8) = match (r.u16_be(), r.u8(), r.u8()) {
        (Some(magic), Some(version), Some(frame_count)) => (magic, version, frame_count),
        _ => {
            return Err(PacketError::HeaderTruncated(buf.len()));
        },
    };
    if magic != MAGIC {
        return Err(PacketError::BadMagic(magic));
    }
    if version != VERSION {
        return Err(PacketError::BadVersion(version));
    }
    if frame_count == 0 {
        return Err(PacketError::ZeroFrames);
    }
    if frame_count as usize > MAX_FRAMES {
        return Err(PacketError::TooManyFrames(frame_count));
    }
    let mut out: DecodedPacket = DecodedPacket::default();
    let count: usize = frame_count as usize;
    let ghost whole = decoded_packet(buf@, catalog@);
    proof {
        assert(buf@.skip(2).skip(1).skip(1) =~= buf@.skip(PACKET_HEADER_LEN as int));
        lemma_followed_by(whole, whole, whole);
    }
    let mut index: usize = 0;
    while index < count
        invariant
            index <= count <= MAX_FRAMES,
            out.unknown_signals <= index,
            whole == out@.followed_by(
                decoded_from(r.rest(), index as nat, count as nat, catalog@),
            ),
            whole == decoded_packet(buf@, catalog@),
            packet_fault(buf@) is None,
        decreases count - index,
    {
        let ghost rest = r.rest();
        let ghost before = out@;
        let ghost more = decoded_from(rest, index as nat, count as nat, catalog@);
        let signal_id: Option<u16> = r.u16_be();
        let timestamp_us: Option<u64> = r.u64_be();
        let len: Option<u8> = r.u8();
        let (id, timestamp_us, len): (u16, u64, u8) = match (signal_id, timestamp_us, len) {
            (Some(id), Some(timestamp_us), Some(len)) => (id, timestamp_us, len),
            _ => {
                out.errors.push(FrameError { index, signal_id, kind: FrameErrorKind::Truncated });
                proof {
                    assert(out@.samples =~= before.samples + more.samples);
                    assert(out@.errors =~= before.errors + more.errors);
                }
                return Ok(out);
            },
        };
        let payload: &[u8] = match r.take(len as usize) {
            Some(payload) => payload,
            None => {
                out.errors.push(
                    FrameError { index, signal_id: Some(id), kind: FrameErrorKind::Truncated },
                );
                proof {
                    assert(out@.samples =~= before.samples + more.samples);
                    assert(out@.errors =~= before.errors + more.errors);
                }
                return Ok(out);
            },
        };
        let ghost frame = first_frame(rest);
        let ghost outcome = frame.outcome(catalog@, index as nat);
        proof {
            lemma_take_frame(rest);
            lemma_followed_by(
                before,
                outcome,
                decoded_from(r.rest(), index as nat + 1, count as nat, catalog@),
            );
        }
        match catalog.by_id(id) {
            None => {
                out.unknown_signals = out.unknown_signals + 1;
            },
            Some(signal) => match decode_value(signal, payload) {
                Ok(value) => {
                    out.samples.push(
                        Sample {
                            signal_id: id,
                            name: signal.name().to_owned(),
                            timestamp_us,
                            value,
                        },
                    );
                },
                Err(kind) => {
                    out.errors.push(FrameError { index, signal_id: Some(id), kind });
                },
            },
        }
        proof {
            assert(out@.samples =~= before.samples + outcome.samples);
            assert(out@.errors =~= before.errors + outcome.errors);
        }
        index = index + 1;
    }
    if r.remaining() > 0 {
        let ghost before = out@;
        out.errors.push(
            FrameError {
                index: count,
                signal_id: None,
                kind: FrameErrorKind::TrailingBytes(r.remaining()),
            },
        );
        proof {
            let more = decoded_from(r.rest(), index as nat, count as nat, catalog@);
            assert(out@.samples =~= before.samples + more.samples);
            assert(out@.errors =~= before.errors + more.errors);
        }
    } else {
        proof {
            lemma_followed_by(out@, out@, out@);
        }
    }
    Ok(out)
}

/// Bytes that the frames from number `i` on take up.
pub open spec fn size_from(frames: Seq<FrameModel>, i: nat) -> nat
    decreases frames.len() - i,
{
    if i >= frames.len() {
        0
    } else {
        FRAME_HEADER_LEN as nat + frames[i as int].payload.len() + size_from(frames, i + 1)
    }
}

/// The bytes of the frames from number `i` on.
pub open spec fn bytes_from(frames: Seq<FrameModel>, i: nat) -> Seq<u8>
    decreases frames.len() - i,
{
    if i >= frames.len() {
        Seq::empty()
    } else {
        frames[i as int].bytes() + bytes_from(frames, i + 1)
    }
}

/// The first payload from frame number `i` on whose length does not fit its byte.
pub open spec fn long_payload_from(frames: Seq<FrameModel>, i: nat) -> Option<EncodeFault>
    decreases frames.len() - i,
{
    if i >= frames.len() {
        None
    } else if frames[i as int].payload.len() > 255 {
        Some(
            EncodeFault::PayloadTooLong {
                signal_id: frames[i as int].signal_id,
                len: frames[i as int].payload.len() as usize,
            },
        )
    } else {
        long_payload_from(frames, i + 1)
    }
}

pub open spec fn packet_size(frames: Seq<FrameModel>) -> nat {
    PACKET_HEADER_LEN as nat + size_from(frames, 0)
}

/// Why frames do not make a packet, if so. A size beyond the machine's range is
/// reported as the largest size in it.
pub open spec fn packet_encoding_fault(frames: Seq<FrameModel>) -> Option<EncodeFault> {
    let size = packet_size(frames);
    if frames.len() == 0 {
        Some(EncodeFault::NoFrames)
    } else if frames.len() > MAX_FRAMES {
        Some(EncodeFault::TooManyFrames(frames.len() as usize))
    } else if size > MAX_DATAGRAM_LEN {
        Some(
            EncodeFault::Oversize(
                if size > usize::MAX {
                    usize::MAX
                } else {
                    size as usize
                },
            ),
        )
    } else {
        long_payload_from(frames, 0)
    }
}

/// The packet that carries the frames.
pub open spec fn packet_bytes(frames: Seq<FrameModel>) -> Seq<u8> {
    big_endian(MAGIC as nat, 2) + seq![VERSION, frames.len() as u8] + bytes_from(frames, 0)
}

/// What decoding makes of frames that all arrive, from number `i` on.
pub open spec fn outcome_from(
    frames: Seq<FrameModel>,
    i: nat,
    catalog: CatalogModel,
) -> PacketModel
    decreases frames.len() - i,
{
    if i >= frames.len() {
        PacketModel::nothing()
    } else {
        frames[i as int].outcome(catalog, i).followed_by(outcome_from(frames, i + 1, catalog))
    }
}

/// Encodes a physical value into a [`RawFrame`] for `signal`.
pub fn encode_frame(signal: &Signal, timestamp_us: u64, value: &SignalValue) -> (r: Result<
    RawFrame,
    EncodeError,
>)
    ensures
        match r {
            Ok(frame) => {
                &&& frame.signal_id == signal@.id
                &&& frame.timestamp_us == timestamp_us
                &&& encoded(signal@, value@) == Ok::<Seq<u8>, EncodeFault>(frame.payload@)
            },
            Err(e) => encoded(signal@, value@) == Err::<Seq<u8>, EncodeFault>(e@),
        },
{
    match encode_value(signal, value) {
        Ok(payload) => Ok(RawFrame { signal_id: signal.id(), timestamp_us, payload }),
        Err(e) => Err(e),
    }
}

/// Size of the packet, or the largest machine size where it is larger.
fn saturated_size(frames: &[RawFrame]) -> (n: usize)
    ensures
        n == if packet_size(frame_models(frames@)) > usize::MAX {
            usize::MAX as nat
        } else {
            packet_size(frame_models(frames@))
        },
{
    let ghost models = frame_models(frames@);
    let mut total: usize = PACKET_HEADER_LEN;
    let mut i: usize = 0;
    while i < frames.len()
        invariant
            i <= frames@.len(),
            models == frame_models(frames@),
            total + size_from(models, i as nat) == packet_size(models),
        decreases frames@.len() - i,
    {
        let len: usize = frames[i].payload.len();
        if len > usize::MAX - FRAME_HEADER_LEN || total > usize::MAX - (FRAME_HEADER_LEN + len) {
            return usize::MAX;
        }
        total = total + FRAME_HEADER_LEN + len;
        i = i + 1;
    }
    total
}

/// Encodes frames into one packet, enforcing the wire limits.
pub fn encode_packet(frames: &[RawFrame]) -> (r: Result<Vec<u8>, EncodeError>)
    ensures
        match r {
            Ok(packet) => {
                &&& packet_encoding_fault(frame_models(frames@)) is None
                &&& packet@ == packet_bytes(frame_models(frames@))
            },
            Err(e) => packet_encoding_fault(frame_models(frames@)) == Some(e@),
        },
{
    let ghost models = frame_models(frames@);
    if frames.len() == 0 {
        return Err(EncodeError::NoFrames);
    }
    if frames.len() > MAX_FRAMES {
        return Err(EncodeError::TooManyFrames(frames.len()));
    }
    let total: usize = saturated_size(frames);
    if total > MAX_DATAGRAM_LEN {
        return Err(EncodeError::Oversize(total));
    }
    let mut out: Vec<u8> = Vec::new();
    push_big_endian(&mut out, MAGIC as u64, 2);
    out.push(VERSION);
    out.push(frames.len() as u8);
    proof {
        assert(out@ + bytes_from(models, 0) =~= packet_bytes(models));
    }
    let mut i: usize = 0;
    while i < frames.len()
        invariant
            i <= frames@.len(),
            models == frame_models(frames@),
            0 < frames@.len() <= MAX_FRAMES,
            packet_size(models) <= MAX_DATAGRAM_LEN,
            out@ + bytes_from(models, i as nat) == packet_bytes(models),
            long_payload_from(models, i as nat) == long_payload_from(models, 0),
        decreases frames@.len() - i,
    {
        let f: &RawFrame = &frames[i];
        let ghost before = out@;
        if f.payload.len() > 255 {
            return Err(
                EncodeError::PayloadTooLong { signal_id: f.signal_id, len: f.payload.len() },
            );
        }
        push_big_endian(&mut out, f.signal_id as u64, 2);
        push_big_endian(&mut out, f.timestamp_us, 8);
        out.push(f.payload.len() as u8);
        out.extend_from_slice(f.payload.as_slice());
        proof {
            assert(out@ =~= before + models[i as int].bytes());
            assert(out@ + bytes_from(models, i as nat + 1) =~= before + bytes_from(
                models,
                i as nat,
            ));
        }
        i = i + 1;
    }
    assert(out@ + bytes_from(models, i as nat) =~= out@);
    Ok(out)
}

/// A frame's bytes start with that frame, whatever follows them.
proof fn lemma_frame_is_read_back(frame: FrameModel, later: Seq<u8>)
    requires
        frame.payload.len() <= 255,
    ensures
        starts_with_frame(frame.bytes() + later),
        first_frame(frame.bytes() + later) == frame,
        (frame.bytes() + later).skip((FRAME_HEADER_LEN + frame.payload.len()) as int) == later,
{
    let id = big_endian(frame.signal_id as nat, 2);
    let time = big_endian(frame.timestamp_us as nat, 8);
    let all = frame.bytes() + later;
    lemma2_to64();
    lemma2_to64_rest();
    law_number_is_read_back(frame.signal_id as nat, 2);
    law_number_is_read_back(frame.timestamp_us as nat, 8);
    assert(all.take(2) =~= id);
    assert(all.subrange(2, 10) =~= time);
    assert(all[10] == frame.payload.len() as u8);
    assert(all.subrange(11, 11 + frame.payload.len() as int) =~= frame.payload);
    assert(all.skip((FRAME_HEADER_LEN + frame.payload.len()) as int) =~= later);
}

/// Whole frames are read first, then whatever follows them.
pub proof fn lemma_frames_are_read_first(
    frames: Seq<FrameModel>,
    i: nat,
    later: Seq<u8>,
    count: nat,
    catalog: CatalogModel,
)
    requires
        i <= frames.len() <= count,
        long_payload_from(frames, i) is None,
    ensures
        decoded_from(bytes_from(frames, i) + later, i, count, catalog) == outcome_from(
            frames,
            i,
            catalog,
        ).followed_by(decoded_from(later, frames.len(), count, catalog)),
    decreases frames.len() - i,
{
    let rest = decoded_from(later, frames.len(), count, catalog);
    if i < frames.len() {
        let frame = frames[i as int];
        let more = bytes_from(frames, i + 1) + later;
        lemma_frames_are_read_first(frames, i + 1, later, count, catalog);
        lemma_frame_is_read_back(frame, more);
        assert(bytes_from(frames, i) + later =~= frame.bytes() + more);
        lemma_followed_by(
            frame.outcome(catalog, i),
            outcome_from(frames, i + 1, catalog),
            rest,
        );
    } else {
        assert(bytes_from(frames, i) + later =~= later);
        lemma_followed_by(rest, rest, rest);
    }
}

/// How many outcomes and bytes frames have.
pub proof fn lemma_frames_counted(frames: Seq<FrameModel>, i: nat, catalog: CatalogModel)
    requires
        i <= frames.len(),
    ensures
        outcome_from(frames, i, catalog).count() == frames.len() - i,
        bytes_from(frames, i).len() == size_from(frames, i),
    decreases frames.len() - i,
{
    if i < frames.len() {
        lemma_frames_counted(frames, i + 1, catalog);
        lemma_big_endian_len(frames[i as int].signal_id as nat, 2);
        lemma_big_endian_len(frames[i as int].timestamp_us as nat, 8);
    }
}

/// The header of an encoded packet, and what follows it.
pub proof fn lemma_packet_header(frames: Seq<FrameModel>)
    requires
        frames.len() <= 255,
    ensures
        packet_bytes(frames).len() == packet_size(frames),
        big_endian_value(packet_bytes(frames).take(2)) == MAGIC,
        packet_bytes(frames)[2] == VERSION,
        packet_bytes(frames)[3] == frames.len(),
        packet_bytes(frames).skip(PACKET_HEADER_LEN as int) == bytes_from(frames, 0),
{
    let packet = packet_bytes(frames);
    lemma2_to64();
    law_number_is_read_back(MAGIC as nat, 2);
    lemma_frames_counted(
        frames,
        0,
        CatalogModel { model: Seq::empty(), catalog_version: 0, signals: Seq::empty() },
    );
    assert(packet.take(2) =~= big_endian(MAGIC as nat, 2));
    assert(packet.skip(PACKET_HEADER_LEN as int) =~= bytes_from(frames, 0));
}

/// Decoding an encoded packet finds each frame, in order, and nothing else:
/// every frame gives one sample, one error or one unknown signal.
pub proof fn law_packet_is_read_back(frames: Seq<FrameModel>, catalog: CatalogModel)
    requires
        packet_encoding_fault(frames) is None,
    ensures
        packet_fault(packet_bytes(frames)) is None,
        decoded_packet(packet_bytes(frames), catalog) == outcome_from(frames, 0, catalog),
        outcome_from(frames, 0, catalog).count() == frames.len(),
{
    let outcome = outcome_from(frames, 0, catalog);
    lemma_packet_header(frames);
    lemma_frames_counted(frames, 0, catalog);
    lemma_frames_are_read_first(frames, 0, Seq::empty(), frames.len(), catalog);
    assert(bytes_from(frames, 0) + Seq::<u8>::empty() =~= bytes_from(frames, 0));
    lemma_followed_by(outcome, outcome, outcome);
}

/// The sample that a frame of a signal carries.
pub open spec fn sample_of(frame: FrameModel, def: DefModel, value: ValueModel) -> SampleModel {
    SampleModel {
        signal_id: frame.signal_id,
        name: def.name,
        timestamp_us: frame.timestamp_us,
        value,
    }
}

/// Whether each frame is of a known signal and carries a value of it.
pub open spec fn carry(
    frames: Seq<FrameModel>,
    defs: Seq<DefModel>,
    values: Seq<ValueModel>,
    catalog: CatalogModel,
) -> bool {
    &&& frames.len() == defs.len() == values.len()
    &&& forall|i: int|
        0 <= i < frames.len() ==> {
            let frame = #[trigger] frames[i];
            &&& catalog.find_id(frame.signal_id) == Some(defs[i])
            &&& decoded(defs[i], frame.payload) == Ok::<ValueModel, FrameErrorKind>(values[i])
        }
}

proof fn lemma_carried_values(
    frames: Seq<FrameModel>,
    defs: Seq<DefModel>,
    values: Seq<ValueModel>,
    i: nat,
    catalog: CatalogModel,
)
    requires
        carry(frames, defs, values, catalog),
        i <= frames.len(),
    ensures
        ({
            let outcome = outcome_from(frames, i, catalog);
            &&& outcome.samples == Seq::new(
                (frames.len() - i) as nat,
                |k: int| sample_of(frames[i + k], defs[i + k], values[i + k]),
            )
            &&& outcome.errors.len() == 0
            &&& outcome.unknown_signals == 0
        }),
    decreases frames.len() - i,
{
    let outcome = outcome_from(frames, i, catalog);
    let samples = Seq::new(
        (frames.len() - i) as nat,
        |k: int| sample_of(frames[i + k], defs[i + k], values[i + k]),
    );
    if i < frames.len() {
        lemma_carried_values(frames, defs, values, i + 1, catalog);
        assert(catalog.find_id(frames[i as int].signal_id) == Some(defs[i as int]));
    }
    assert(outcome.samples =~= samples);
}

/// A packet of frames that carry values of known signals decodes to those
/// values, each with its signal and timestamp, in order, and to nothing else.
pub proof fn law_values_are_read_back(
    frames: Seq<FrameModel>,
    defs: Seq<DefModel>,
    values: Seq<ValueModel>,
    catalog: CatalogModel,
)
    requires
        packet_encoding_fault(frames) is None,
        carry(frames, defs, values, catalog),
    ensures
        packet_fault(packet_bytes(frames)) is None,
        ({
            let packet = decoded_packet(packet_bytes(frames), catalog);
            &&& packet.samples == Seq::new(
                frames.len(),
                |k: int| sample_of(frames[k], defs[k], values[k]),
            )
            &&& packet.errors.len() == 0
            &&& packet.unknown_signals == 0
        }),
{
    law_packet_is_read_back(frames, catalog);
    lemma_carried_values(frames, defs, values, 0, catalog);
    assert(outcome_from(frames, 0, catalog).samples =~= Seq::new(
        frames.len(),
        |k: int| sample_of(frames[k], defs[k], values[k]),
    ));
}

proof fn lemma_outcomes_bounded(rest: Seq<u8>, index: nat, count: nat, catalog: CatalogModel)
    requires
        index <= count,
    ensures
        decoded_from(rest, index, count, catalog).count() <= count - index + 1,
    decreases count - index,
{
    if index < count && starts_with_frame(rest) {
        let frame = first_frame(rest);
        lemma_outcomes_bounded(
            rest.skip((FRAME_HEADER_LEN + frame.payload.len()) as int),
            index + 1,
            count,
            catalog,
        );
    }
}

/// A packet never reports more than one outcome for each frame that it
/// announces, and one for bytes after the last.
pub proof fn law_outcomes_are_bounded(buf: Seq<u8>, catalog: CatalogModel)
    requires
        packet_fault(buf) is None,
    ensures
        decoded_packet(buf, catalog).count() <= buf[3] + 1,
        decoded_packet(buf, catalog).count() <= MAX_FRAMES + 1,
{
    lemma_outcomes_bounded(buf.skip(PACKET_HEADER_LEN as int), 0, buf[3] as nat, catalog);
}

} // verus!
