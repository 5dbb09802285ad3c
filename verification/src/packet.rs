//! A dissected packet: its layers, why dissection stopped and what was left.
use vstd::prelude::*;

use crate::bytes::ParseError;
use crate::layer::{LayerRecord, LayerView, PacketMeta, RouteId};
use crate::small::NearMisses;
use crate::value::ProtocolName;

verus! {

/// What kind of end a dissection came to.
#[derive(Clone, Copy, PartialEq, Eq, Debug, Structural)]
pub enum StopClass {
    Clean,
    UnknownPayload,
    Malformed,
    Suspicious,
}

/// Why dissection stopped.
#[derive(Clone, Copy, PartialEq, Eq, Debug)]
pub enum StopReason {
    /// The innermost layer said that nothing follows.
    Complete,
    /// A header named a next protocol that no plugin claims.
    UnclaimedRoute(RouteId),
    /// No probe recognised the payload.
    NoHeuristicWinner,
    /// The plugin that the route led to declined the bytes.
    PluginError(ParseError),
    /// More layers than a packet may have.
    LayerLimit,
}

impl StopReason {
    pub open spec fn spec_class(self) -> StopClass {
        match self {
            StopReason::Complete => StopClass::Clean,
            StopReason::UnclaimedRoute(_) => StopClass::UnknownPayload,
            StopReason::NoHeuristicWinner => StopClass::UnknownPayload,
            StopReason::PluginError(_) => StopClass::Malformed,
            StopReason::LayerLimit => StopClass::Suspicious,
        }
    }

    pub fn class(&self) -> (r: StopClass)
        ensures
            r == self.spec_class(),
    {
        match self {
            StopReason::Complete => StopClass::Clean,
            StopReason::UnclaimedRoute(_) => StopClass::UnknownPayload,
            StopReason::NoHeuristicWinner => StopClass::UnknownPayload,
            StopReason::PluginError(_) => StopClass::Malformed,
            StopReason::LayerLimit => StopClass::Suspicious,
        }
    }
}

/// Where an unknown payload was met.
#[derive(Clone, Copy, PartialEq, Eq, Debug)]
pub enum UnknownContext {
    UnclaimedRoute { predecessor: ProtocolName, route: RouteId },
    NoHeuristicWinner { predecessor: ProtocolName },
}

/// What is known of an unknown payload.
#[derive(PartialEq, Eq, Debug)]
pub struct UnknownDiagnostics {
    pub context: UnknownContext,
    pub near_misses: NearMisses,
    /// The payload's first bytes.
    pub sample: Vec<u8>,
}

/// The content of an [`UnknownDiagnostics`].
pub struct Diagnostics {
    pub context: UnknownContext,
    pub near_misses: Seq<(ProtocolName, u8)>,
    pub sample: Seq<u8>,
}

impl View for UnknownDiagnostics {
    type V = Diagnostics;

    open spec fn view(&self) -> Diagnostics {
        Diagnostics {
            context: self.context,
            near_misses: self.near_misses@,
            sample: self.sample@,
        }
    }
}

/// One packet, dissected.
#[derive(PartialEq, Eq, Debug)]
pub struct DissectedPacket {
    pub meta: PacketMeta,
    /// Outermost first.
    pub layers: Vec<LayerRecord>,
    pub stop: StopReason,
    /// Bytes behind the innermost layer that no plugin took.
    pub opaque_len: usize,
    pub unknown: Option<UnknownDiagnostics>,
}

/// The content of a [`DissectedPacket`].
pub struct Packet {
    pub meta: PacketMeta,
    pub layers: Seq<LayerView>,
    pub stop: StopReason,
    pub opaque_len: usize,
    pub unknown: Option<Diagnostics>,
}

impl View for DissectedPacket {
    type V = Packet;

    open spec fn view(&self) -> Packet {
        Packet {
            meta: self.meta,
            layers: Seq::new(self.layers@.len(), |i: int| self.layers@[i]@),
            stop: self.stop,
            opaque_len: self.opaque_len,
            unknown: match self.unknown {
                Some(d) => Some(d@),
                None => None,
            },
        }
    }
}

} // verus!
