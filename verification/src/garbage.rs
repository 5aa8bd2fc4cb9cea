//! Malformed packets, mixed with valid ones.
//!
//! Each kind targets one path of the decoder, so that its error metrics can be
//! demonstrated.

use crate::bytes::{big_endian, big_endian_value, law_number_is_read_back, lemma_big_endian_len};
use crate::catalog::{Catalog, CatalogModel};
use crate::double::Double;
use crate::rng::{
    after_some_bytes, drawn, drawn_bytes, drawn_fraction, drawn_some_bytes, stepped, stepped_by,
    Rng,
};
use crate::wire::{
    bytes_from, decoded_from, decoded_packet, encode_packet, frame_models, law_packet_is_read_back,
    lemma_frames_are_read_first, lemma_packet_header, long_payload_from, outcome_from, packet_bytes,
    packet_encoding_fault, packet_fault, size_from, starts_with_frame, EncodeError, EncodeFault,
    FrameErrorKind, FrameModel, PacketError, PacketModel, RawFrame, FRAME_HEADER_LEN,
    MAX_DATAGRAM_LEN, PACKET_HEADER_LEN,
};
use vstd::arithmetic::power2::lemma2_to64;
use vstd::prelude::*;

verus! {

/// How a packet is malformed.
#[derive(Debug, Clone, Copy, PartialEq, Eq, Hash, Structural)]
pub enum GarbageKind {
    BadMagic,
    BadVersion,
    ZeroFrames,
    Truncated,
    LengthMismatch,
    UnknownSignal,
    Oversize,
    TrailingBytes,
    RandomBytes,
}

impl GarbageKind {
    pub const ALL: [GarbageKind; 9] = [
        GarbageKind::BadMagic,
        GarbageKind::BadVersion,
        GarbageKind::ZeroFrames,
        GarbageKind::Truncated,
        GarbageKind::LengthMismatch,
        GarbageKind::UnknownSignal,
        GarbageKind::Oversize,
        GarbageKind::TrailingBytes,
        GarbageKind::RandomBytes,
    ];
}

/// The first id from `id` on that no signal has, or the last of all.
pub open spec fn free_id_from(catalog: CatalogModel, id: u16) -> u16
    decreases 0xffff - id,
{
    if id == 0xffff || catalog.find_id(id) is None {
        id
    } else {
        free_id_from(catalog, (id + 1) as u16)
    }
}

/// The frames with one byte too many in the first payload.
pub open spec fn with_long_payload(frames: Seq<FrameModel>) -> Seq<FrameModel> {
    frames.update(0, FrameModel { payload: frames[0].payload.push(0), ..frames[0] })
}

/// The frames behind a frame of a signal that the catalog lacks.
pub open spec fn with_unknown_signal(
    frames: Seq<FrameModel>,
    catalog: CatalogModel,
    state: u64,
) -> Seq<FrameModel> {
    seq![
        FrameModel {
            signal_id: free_id_from(catalog, 0xf000),
            timestamp_us: frames[0].timestamp_us,
            payload: drawn_some_bytes(state, 8),
        },
    ] + frames
}

pub open spec fn packet_or_fault(frames: Seq<FrameModel>) -> Result<Seq<u8>, EncodeFault> {
    match packet_encoding_fault(frames) {
        Some(fault) => Err(fault),
        None => Ok(packet_bytes(frames)),
    }
}

/// How many bytes of the last frame a truncated packet lacks.
pub open spec fn cut(frames: Seq<FrameModel>, state: u64) -> nat {
    1 + drawn(state) as nat % (FRAME_HEADER_LEN as nat + frames.last().payload.len())
}

/// How many bytes an oversize packet has too many.
pub open spec fn surplus(packet: Seq<u8>, state: u64) -> nat {
    (MAX_DATAGRAM_LEN as nat + 1 + drawn(state) as nat % 200 - packet.len()) as nat
}

/// The malformed packet of a kind, made of valid frames.
pub open spec fn garbage(
    kind: GarbageKind,
    frames: Seq<FrameModel>,
    catalog: CatalogModel,
    state: u64,
) -> Result<Seq<u8>, EncodeFault> {
    let packet = packet_bytes(frames);
    match packet_encoding_fault(frames) {
        Some(fault) => Err(fault),
        None => match kind {
            GarbageKind::BadMagic => Ok(packet.update(0, 0xde).update(1, 0xad)),
            GarbageKind::BadVersion => Ok(packet.update(2, (2 + drawn(state) % 254) as u8)),
            GarbageKind::ZeroFrames => Ok(seq![0x54u8, 0x45u8, 0x01u8, 0x00u8]),
            GarbageKind::Truncated => Ok(packet.take(packet.len() - cut(frames, state))),
            GarbageKind::LengthMismatch => packet_or_fault(with_long_payload(frames)),
            GarbageKind::UnknownSignal => packet_or_fault(
                with_unknown_signal(frames, catalog, state),
            ),
            GarbageKind::Oversize => Ok(
                packet + drawn_bytes(stepped(state), surplus(packet, state)),
            ),
            GarbageKind::TrailingBytes => Ok(packet + drawn_some_bytes(state, 8)),
            GarbageKind::RandomBytes => Ok(drawn_some_bytes(state, 64)),
        },
    }
}

/// The generator's state after a malformed packet has been made.
pub open spec fn after_garbage(kind: GarbageKind, frames: Seq<FrameModel>, state: u64) -> u64 {
    if packet_encoding_fault(frames) is Some {
        state
    } else {
        match kind {
            GarbageKind::BadMagic | GarbageKind::ZeroFrames | GarbageKind::LengthMismatch => state,
            GarbageKind::BadVersion | GarbageKind::Truncated => stepped(state),
            GarbageKind::UnknownSignal | GarbageKind::TrailingBytes => after_some_bytes(state, 8),
            GarbageKind::Oversize => stepped_by(
                stepped(state),
                surplus(packet_bytes(frames), state),
            ),
            GarbageKind::RandomBytes => after_some_bytes(state, 64),
        }
    }
}

/// The first id from 0xF000 on that no signal has, or the last of all.
fn free_id(catalog: &Catalog) -> (r: u16)
    ensures
        r == free_id_from(catalog@, 0xf000),
{
    let mut id: u16 = 0xf000;
    while id < 0xffff && catalog.by_id(id).is_some()
        invariant
            free_id_from(catalog@, id) == free_id_from(catalog@, 0xf000),
        decreases 0xffff - id,
    {
        id = id + 1;
    }
    id
}

/// Copies of frames, behind those that are there already.
fn copy_frames(out: &mut Vec<RawFrame>, frames: &[RawFrame])
    ensures
        frame_models(final(out)@) == frame_models(old(out)@) + frame_models(frames@),
{
    let ghost start = frame_models(out@);
    let mut i: usize = 0;
    assert(frame_models(out@) =~= start + frame_models(frames@).take(0));
    while i < frames.len()
        invariant
            i <= frames@.len(),
            frame_models(out@) == start + frame_models(frames@).take(i as int),
        decreases frames@.len() - i,
    {
        let ghost before = frame_models(out@);
        let frame: RawFrame = frames[i].clone();
        let ghost model = frame@;
        out.push(frame);
        assert(frame_models(out@) =~= before.push(model));
        assert(frame_models(out@) =~= start + frame_models(frames@).take(i + 1));
        i = i + 1;
    }
    assert(frame_models(frames@).take(i as int) =~= frame_models(frames@));
}

/// Builds one malformed packet of `kind` from valid `frames`.
pub fn malformed(
    kind: GarbageKind,
    frames: &[RawFrame],
    catalog: &Catalog,
    rng: &mut Rng,
) -> (r: Result<Vec<u8>, EncodeError>)
    ensures
        final(rng)@ == after_garbage(kind, frame_models(frames@), old(rng)@),
        match r {
            Ok(packet) => garbage(kind, frame_models(frames@), catalog@, old(rng)@) == Ok::<
                Seq<u8>,
                EncodeFault,
            >(packet@),
            Err(e) => garbage(kind, frame_models(frames@), catalog@, old(rng)@) == Err::<
                Seq<u8>,
                EncodeFault,
            >(e@),
        },
{
    let ghost models = frame_models(frames@);
    let mut packet: Vec<u8> = match encode_packet(frames) {
        Ok(packet) => packet,
        Err(e) => {
            return Err(e);
        },
    };
    proof {
        lemma_packet_header(models);
        lemma_last_frame(models);
    }
    match kind {
        GarbageKind::BadMagic => {
            packet.set(0, 0xde);
            packet.set(1, 0xad);
        },
        GarbageKind::BadVersion => {
            let version: u8 = (2 + rng.below(254)) as u8;
            packet.set(2, version);
        },
        GarbageKind::ZeroFrames => {
            packet = vec![0x54u8, 0x45u8, 0x01u8, 0x00u8];
            assert(packet@ =~= seq![0x54u8, 0x45u8, 0x01u8, 0x00u8]);
        },
        GarbageKind::Truncated => {
            // Cut into the last frame only, so earlier frames still decode.
            let last: usize = FRAME_HEADER_LEN + frames[frames.len() - 1].payload.len();
            let keep: usize = packet.len() - 1 - rng.below(last);
            let ghost whole = packet@;
            packet.truncate(keep);
            assert(packet@ =~= whole.take(keep as int));
        },
        GarbageKind::LengthMismatch => {
            let mut bad: Vec<RawFrame> = Vec::new();
            copy_frames(&mut bad, frames);
            let ghost copied = frame_models(bad@);
            proof {
                assert(copied =~= models);
            }
            let mut first: RawFrame = bad[0].clone();
            assert(first@ == copied[0]);
            first.payload.push(0);
            let ghost model = first@;
            bad.set(0, first);
            assert(frame_models(bad@) =~= with_long_payload(models)) by {
                assert(model.payload =~= models[0].payload.push(0));
            }
            return encode_packet(bad.as_slice());
        },
        GarbageKind::UnknownSignal => {
            let id: u16 = free_id(catalog);
            let payload: Vec<u8> = rng.some_bytes(8);
            let ghost head = FrameModel {
                signal_id: id,
                timestamp_us: models[0].timestamp_us,
                payload: payload@,
            };
            let mut more: Vec<RawFrame> = Vec::new();
            more.push(
                RawFrame { signal_id: id, timestamp_us: frames[0].timestamp_us, payload },
            );
            assert(frame_models(more@) =~= seq![head]);
            copy_frames(&mut more, frames);
            return encode_packet(more.as_slice());
        },
        GarbageKind::Oversize => {
            let extra: usize = MAX_DATAGRAM_LEN + 1 + rng.below(200) - packet.len();
            let mut tail: Vec<u8> = rng.bytes(extra);
            packet.append(&mut tail);
        },
        GarbageKind::TrailingBytes => {
            let mut tail: Vec<u8> = rng.some_bytes(8);
            packet.append(&mut tail);
        },
        GarbageKind::RandomBytes => {
            packet = rng.some_bytes(64);
        },
    }
    Ok(packet)
}

/// The last frame is inside the packet.
proof fn lemma_last_frame(frames: Seq<FrameModel>)
    requires
        frames.len() > 0,
    ensures
        size_from(frames, 0) >= FRAME_HEADER_LEN + frames.last().payload.len(),
{
    lemma_last_frame_from(frames, 0);
}

proof fn lemma_last_frame_from(frames: Seq<FrameModel>, i: nat)
    requires
        i < frames.len(),
    ensures
        size_from(frames, i) >= FRAME_HEADER_LEN + frames.last().payload.len(),
    decreases frames.len() - i,
{
    if i + 1 < frames.len() {
        lemma_last_frame_from(frames, i + 1);
    }
}

/// One half.
pub open spec fn half() -> Double {
    Double { bits: 0x3fe0_0000_0000_0000 }
}

/// The kind of malformed packet that a state picks.
pub open spec fn picked(state: u64) -> GarbageKind {
    GarbageKind::ALL[(drawn(state) % 9) as int]
}

/// Returns a packet that is valid half of the time and malformed otherwise.
pub fn packet(frames: &[RawFrame], catalog: &Catalog, rng: &mut Rng) -> (r: Result<
    (Option<GarbageKind>, Vec<u8>),
    EncodeError,
>)
    ensures
        ({
            let models = frame_models(frames@);
            let valid = drawn_fraction(old(rng)@).less(half());
            let state = stepped(old(rng)@);
            let kind = picked(state);
            &&& final(rng)@ == if valid {
                state
            } else {
                after_garbage(kind, models, stepped(state))
            }
            &&& match r {
                Ok((made, bytes)) => if valid {
                    made is None && packet_or_fault(models) == Ok::<Seq<u8>, EncodeFault>(bytes@)
                } else {
                    made == Some(kind) && garbage(kind, models, catalog@, stepped(state)) == Ok::<
                        Seq<u8>,
                        EncodeFault,
                    >(bytes@)
                },
                Err(e) => if valid {
                    packet_or_fault(models) == Err::<Seq<u8>, EncodeFault>(e@)
                } else {
                    garbage(kind, models, catalog@, stepped(state)) == Err::<Seq<u8>, EncodeFault>(
                        e@,
                    )
                },
            }
        }),
{
    if rng.chance(Double::from_bits(0x3fe0_0000_0000_0000)) {
        return match encode_packet(frames) {
            Ok(bytes) => Ok((None, bytes)),
            Err(e) => Err(e),
        };
    }
    let i: usize = rng.below(9);
    let kind: GarbageKind = GarbageKind::ALL[i];
    match malformed(kind, frames, catalog, rng) {
        Ok(bytes) => Ok((Some(kind), bytes)),
        Err(e) => Err(e),
    }
}

/// Malformed headers and oversize packets are rejected for what is wrong with
/// them.
pub proof fn law_malformed_packet_is_rejected(
    frames: Seq<FrameModel>,
    catalog: CatalogModel,
    state: u64,
)
    requires
        packet_encoding_fault(frames) is None,
    ensures
        garbage(GarbageKind::BadMagic, frames, catalog, state) matches Ok(p) && packet_fault(p)
            == Some(PacketError::BadMagic(0xdead)),
        garbage(GarbageKind::BadVersion, frames, catalog, state) matches Ok(p) && packet_fault(p)
            == Some(PacketError::BadVersion((2 + drawn(state) % 254) as u8)),
        garbage(GarbageKind::ZeroFrames, frames, catalog, state) matches Ok(p) && packet_fault(p)
            == Some(PacketError::ZeroFrames),
        garbage(GarbageKind::Oversize, frames, catalog, state) matches Ok(p) && packet_fault(p)
            == Some(PacketError::Oversize((MAX_DATAGRAM_LEN + 1 + drawn(state) % 200) as usize)),
{
    let packet = packet_bytes(frames);
    lemma_packet_header(frames);
    lemma2_to64();
    let magic = packet.update(0, 0xde).update(1, 0xad).take(2);
    law_number_is_read_back(0xdead, 2);
    reveal_with_fuel(big_endian, 3);
    assert(magic =~= big_endian(0xdead, 2));
    let version = packet.update(2, (2 + drawn(state) % 254) as u8);
    assert(version.take(2) =~= packet.take(2));
    let zero = seq![0x54u8, 0x45u8, 0x01u8, 0x00u8];
    law_number_is_read_back(0x5445, 2);
    assert(zero.take(2) =~= big_endian(0x5445, 2));
}

/// A packet with bytes after the last frame gives every frame, and reports the
/// bytes.
pub proof fn law_trailing_bytes_are_reported(
    frames: Seq<FrameModel>,
    catalog: CatalogModel,
    state: u64,
)
    requires
        packet_encoding_fault(frames) is None,
        packet_bytes(frames).len() + 1 + drawn(state) % 8 <= MAX_DATAGRAM_LEN,
    ensures
        garbage(GarbageKind::TrailingBytes, frames, catalog, state) matches Ok(p) && {
            &&& packet_fault(p) is None
            &&& decoded_packet(p, catalog) == outcome_from(frames, 0, catalog).followed_by(
                PacketModel::one_error(
                    frames.len(),
                    None,
                    FrameErrorKind::TrailingBytes((1 + drawn(state) % 8) as usize),
                ),
            )
        },
{
    let tail = drawn_some_bytes(state, 8);
    let p = packet_bytes(frames) + tail;
    lemma_packet_header(frames);
    lemma_frames_are_read_first(frames, 0, tail, frames.len(), catalog);
    assert(p.take(2) =~= packet_bytes(frames).take(2));
    assert(p.skip(PACKET_HEADER_LEN as int) =~= bytes_from(frames, 0) + tail);
    assert(tail.len() == 1 + drawn(state) % 8);
}

/// A frame without its last bytes is no whole frame.
proof fn lemma_cut_frame(frame: FrameModel, n: nat)
    requires
        frame.payload.len() <= 255,
        n < FRAME_HEADER_LEN + frame.payload.len(),
    ensures
        frame.bytes().len() == FRAME_HEADER_LEN + frame.payload.len(),
        !starts_with_frame(frame.bytes().take(n as int)),
        n >= 2 ==> big_endian_value(frame.bytes().take(n as int).take(2)) == frame.signal_id,
{
    lemma2_to64();
    law_number_is_read_back(frame.signal_id as nat, 2);
    lemma_big_endian_len(frame.timestamp_us as nat, 8);
    let cut = frame.bytes().take(n as int);
    if n >= FRAME_HEADER_LEN {
        assert(cut[10] == frame.payload.len() as u8);
    }
    if n >= 2 {
        assert(cut.take(2) =~= big_endian(frame.signal_id as nat, 2));
    }
}

proof fn lemma_bytes_split(frames: Seq<FrameModel>, i: nat)
    requires
        i < frames.len(),
        long_payload_from(frames, i) is None,
    ensures
        bytes_from(frames, i) == bytes_from(frames.drop_last(), i) + frames.last().bytes(),
        long_payload_from(frames.drop_last(), i) is None,
        frames.last().payload.len() <= 255,
    decreases frames.len() - i,
{
    let front = frames.drop_last();
    if i + 1 < frames.len() {
        lemma_bytes_split(frames, i + 1);
        assert(front[i as int] == frames[i as int]);
        assert(bytes_from(frames, i) =~= bytes_from(front, i) + frames.last().bytes());
    } else {
        assert(bytes_from(frames, i + 1) =~= Seq::<u8>::empty());
        assert(bytes_from(front, i) =~= Seq::<u8>::empty());
        assert(bytes_from(frames, i) =~= bytes_from(front, i) + frames.last().bytes());
    }
}

/// A truncated packet gives every frame but the last, and reports that one.
pub proof fn law_truncated_packet_keeps_earlier_frames(
    frames: Seq<FrameModel>,
    catalog: CatalogModel,
    state: u64,
)
    requires
        packet_encoding_fault(frames) is None,
    ensures
        garbage(GarbageKind::Truncated, frames, catalog, state) matches Ok(p) && {
            &&& packet_fault(p) is None
            &&& exists|id: Option<u16>|
                decoded_packet(p, catalog) == #[trigger] outcome_from(
                    frames.drop_last(),
                    0,
                    catalog,
                ).followed_by(
                    PacketModel::one_error(
                        (frames.len() - 1) as nat,
                        id,
                        FrameErrorKind::Truncated,
                    ),
                )
        },
{
    let packet = packet_bytes(frames);
    let front = frames.drop_last();
    let last = frames.last();
    let lost = cut(frames, state);
    let keep = packet.len() - lost;
    let p = packet.take(keep as int);
    lemma_packet_header(frames);
    lemma_bytes_split(frames, 0);
    let n = (FRAME_HEADER_LEN + last.payload.len() - lost) as nat;
    lemma_cut_frame(last, n);
    let tail = last.bytes().take(n as int);
    lemma_frames_are_read_first(front, 0, tail, frames.len(), catalog);
    assert(packet.skip(PACKET_HEADER_LEN as int) =~= bytes_from(front, 0) + last.bytes());
    assert(p.take(2) =~= packet.take(2));
    assert(p.skip(PACKET_HEADER_LEN as int) =~= bytes_from(front, 0) + tail);
    let id = if n >= 2 {
        Some(last.signal_id)
    } else {
        None
    };
    assert(decoded_from(tail, front.len(), frames.len(), catalog) == PacketModel::one_error(
        (frames.len() - 1) as nat,
        id,
        FrameErrorKind::Truncated,
    ));
    assert(decoded_packet(p, catalog) == outcome_from(front, 0, catalog).followed_by(
        PacketModel::one_error((frames.len() - 1) as nat, id, FrameErrorKind::Truncated),
    ));
}

/// A frame whose payload is too long for its signal is reported, and the others
/// are decoded.
pub proof fn law_length_mismatch_is_reported(
    frames: Seq<FrameModel>,
    catalog: CatalogModel,
    state: u64,
)
    requires
        packet_encoding_fault(frames) is None,
        garbage(GarbageKind::LengthMismatch, frames, catalog, state) is Ok,
        catalog.find_id(frames[0].signal_id) matches Some(def) && def.ty.width()
            == frames[0].payload.len(),
    ensures
        ({
            let p = garbage(GarbageKind::LengthMismatch, frames, catalog, state)->Ok_0;
            let width = frames[0].payload.len() as usize;
            &&& packet_fault(p) is None
            &&& decoded_packet(p, catalog) == PacketModel::one_error(
                0,
                Some(frames[0].signal_id),
                FrameErrorKind::LengthMismatch {
                    expected: width,
                    actual: (width + 1) as usize,
                },
            ).followed_by(outcome_from(frames, 1, catalog))
        }),
{
    let bad = with_long_payload(frames);
    law_packet_is_read_back(bad, catalog);
    assert(bad[0].payload.len() == frames[0].payload.len() + 1);
    lemma_same_outcomes(bad, frames, 1, catalog);
}

proof fn lemma_same_outcomes(
    a: Seq<FrameModel>,
    b: Seq<FrameModel>,
    i: nat,
    catalog: CatalogModel,
)
    requires
        a.len() == b.len(),
        forall|j: int| i <= j < a.len() ==> a[j] == b[j],
    ensures
        outcome_from(a, i, catalog) == outcome_from(b, i, catalog),
    decreases a.len() - i,
{
    if i < a.len() {
        lemma_same_outcomes(a, b, i + 1, catalog);
    }
}

/// A frame of a signal that the catalog lacks is counted, and the others are
/// decoded.
pub proof fn law_unknown_signal_is_counted(
    frames: Seq<FrameModel>,
    catalog: CatalogModel,
    state: u64,
)
    requires
        packet_encoding_fault(frames) is None,
        garbage(GarbageKind::UnknownSignal, frames, catalog, state) is Ok,
        catalog.find_id(free_id_from(catalog, 0xf000)) is None,
    ensures
        ({
            let p = garbage(GarbageKind::UnknownSignal, frames, catalog, state)->Ok_0;
            &&& packet_fault(p) is None
            &&& decoded_packet(p, catalog) == PacketModel::one_unknown().followed_by(
                outcome_from(with_unknown_signal(frames, catalog, state), 1, catalog),
            )
        }),
{
    let more = with_unknown_signal(frames, catalog, state);
    law_packet_is_read_back(more, catalog);
    assert(more[0].signal_id == free_id_from(catalog, 0xf000));
}

} // verus!
