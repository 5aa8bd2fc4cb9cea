//! Accounting of received datagrams.

use crate::catalog::{Catalog, CatalogModel};
use crate::counters::{all_counted, count, counted, one_more, raised};
use crate::text_map::TextMap;
use crate::wire::{
    decode_packet, decoded_packet, packet_fault, DecodedPacket, FrameError, PacketError,
};
use vstd::prelude::*;

verus! {

/// Running totals, reported periodically and at shutdown.
#[derive(Debug)]
pub struct IngestStats {
    pub packets: u64,
    pub bytes: u64,
    pub frames_decoded: u64,
    pub unknown_signals: u64,
    /// Rejected packets and frames, by reason.
    pub decode_errors: TextMap<u64>,
}

/// The content of an [`IngestStats`].
pub struct IngestModel {
    pub packets: u64,
    pub bytes: u64,
    pub frames_decoded: u64,
    pub unknown_signals: u64,
    pub decode_errors: Map<Seq<char>, u64>,
}

impl View for IngestStats {
    type V = IngestModel;

    open spec fn view(&self) -> IngestModel {
        IngestModel {
            packets: self.packets,
            bytes: self.bytes,
            frames_decoded: self.frames_decoded,
            unknown_signals: self.unknown_signals,
            decode_errors: self.decode_errors@,
        }
    }
}

/// The reasons for which frames were rejected, in order.
pub open spec fn reasons(errors: Seq<FrameError>) -> Seq<Seq<char>> {
    Seq::new(errors.len(), |i: int| errors[i].kind.label())
}

impl IngestModel {
    /// The totals after a datagram has been received.
    pub open spec fn after(self, datagram: Seq<u8>, catalog: CatalogModel) -> IngestModel {
        let received = IngestModel {
            packets: one_more(self.packets),
            bytes: raised(self.bytes, datagram.len()),
            ..self
        };
        match packet_fault(datagram) {
            Some(e) => IngestModel {
                decode_errors: counted(self.decode_errors, e.label()),
                ..received
            },
            None => {
                let packet = decoded_packet(datagram, catalog);
                IngestModel {
                    frames_decoded: raised(self.frames_decoded, packet.samples.len()),
                    unknown_signals: raised(self.unknown_signals, packet.unknown_signals),
                    decode_errors: all_counted(
                        self.decode_errors,
                        reasons(packet.errors),
                        packet.errors.len(),
                    ),
                    ..received
                }
            },
        }
    }
}

impl Default for IngestStats {
    fn default() -> (r: IngestStats)
        ensures
            r@.packets == 0,
            r@.bytes == 0,
            r@.frames_decoded == 0,
            r@.unknown_signals == 0,
            r@.decode_errors == Map::<Seq<char>, u64>::empty(),
    {
        IngestStats {
            packets: 0,
            bytes: 0,
            frames_decoded: 0,
            unknown_signals: 0,
            decode_errors: TextMap::new(),
        }
    }
}

impl IngestStats {
    /// Decodes a datagram and accounts for it.
    pub fn on_datagram(&mut self, datagram: &[u8], catalog: &Catalog) -> (r: Result<
        DecodedPacket,
        PacketError,
    >)
        ensures
            final(self)@ == old(self)@.after(datagram@, catalog@),
            match r {
                Ok(packet) => packet_fault(datagram@) is None && packet@ == decoded_packet(
                    datagram@,
                    catalog@,
                ),
                Err(e) => packet_fault(datagram@) == Some(e),
            },
    {
        self.packets = self.packets.saturating_add(1);
        self.bytes = self.bytes.saturating_add(datagram.len() as u64);
        match decode_packet(datagram, catalog) {
            Err(e) => {
                count(&mut self.decode_errors, e.reason());
                Err(e)
            },
            Ok(packet) => {
                self.unknown_signals = self.unknown_signals.saturating_add(
                    packet.unknown_signals as u64,
                );
                self.frames_decoded = self.frames_decoded.saturating_add(
                    packet.samples.len() as u64,
                );
                let ghost labels = reasons(packet.errors@);
                let ghost start = self.decode_errors@;
                let ghost rest = *self;
                let mut i: usize = 0;
                while i < packet.errors.len()
                    invariant
                        i <= packet.errors@.len(),
                        labels == reasons(packet.errors@),
                        self.decode_errors@ == all_counted(start, labels, i as nat),
                        self.packets == rest.packets,
                        self.bytes == rest.bytes,
                        self.frames_decoded == rest.frames_decoded,
                        self.unknown_signals == rest.unknown_signals,
                    decreases packet.errors@.len() - i,
                {
                    assert(labels[i as int] == packet.errors@[i as int].kind.label());
                    count(&mut self.decode_errors, packet.errors[i].kind.reason());
                    i = i + 1;
                }
                Ok(packet)
            },
        }
    }
}

} // verus!
