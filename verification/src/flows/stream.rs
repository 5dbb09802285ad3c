//! One conversation and what is known of it.
use std::sync::Arc;

use vstd::prelude::*;

use crate::flows::rollup::{self, RollupSet, Rollups};
use crate::identity::{
    self, FlowKey, Identity, LifecycleSpec, PacketDirection, SessionRules, StateName,
    StreamIdentity,
};
use crate::layer::{self, Timestamp};
use crate::text::str_eq;
use crate::value::{FieldMap, FieldName, Fields, ProtocolName};

verus! {

/// A stream's handle: its slot, and how often the slot has been reused. A handle
/// that outlives its stream fails the generation check.
#[derive(Clone, Copy, PartialEq, Eq, Hash, Debug, Structural)]
pub struct StreamId {
    pub index: u32,
    pub generation: u32,
}

/// Why a stream was closed.
#[derive(Clone, Copy, PartialEq, Eq, Debug, Structural)]
pub enum CloseReason {
    ProtocolClose,
    IdleTimeout,
    LruEvicted,
    CaptureEnd,
}

/// What went in one direction. `bytes` counts each packet's length on the wire.
#[derive(Clone, Copy, PartialEq, Eq, Debug, Structural)]
pub struct DirStats {
    pub packets: u64,
    pub bytes: u64,
}

impl Default for DirStats {
    fn default() -> (r: DirStats)
        ensures
            r == (DirStats { packets: 0, bytes: 0 }),
    {
        DirStats { packets: 0, bytes: 0 }
    }
}

/// What a condensed node knows of the flows folded into it.
#[derive(Clone, Copy, PartialEq, Eq, Debug)]
pub struct CondensedInfo {
    /// Distinct flows folded in: exact until `overflow`, a lower bound after.
    pub member_flows: u64,
    /// The key field of the side that all members share.
    pub ephemeral_field: FieldName,
    /// Flows were folded in that are not counted.
    pub overflow: bool,
}

/// A conversation between two endpoints, or a condensed group of them.
#[derive(PartialEq, Eq, Debug)]
pub struct Stream {
    pub id: StreamId,
    pub protocol: ProtocolName,
    pub key: FlowKey,
    /// The key fields of the first packet.
    pub key_fields: FieldMap,
    pub parent: Option<StreamId>,
    /// In creation order.
    pub children: Vec<StreamId>,
    /// The first packet's direction.
    pub initiator: PacketDirection,
    pub first_seen: Timestamp,
    pub last_seen: Timestamp,
    /// Per direction; see [`dir_index`].
    pub stats: [DirStats; 2],
    /// Payload behind this stream's packets that nothing took.
    pub opaque_bytes: u64,
    /// The session's state, for protocols that have one.
    pub state: Option<StateName>,
    pub rollups: RollupSet,
    pub closed: Option<CloseReason>,
    /// The session is over.
    pub close_eligible: bool,
    /// When the session was first over. Stragglers do not move it.
    pub close_eligible_since: Option<Timestamp>,
    /// Creation order.
    pub created_seq: u64,
    /// Set on condensed groups.
    pub condensed: Option<Box<CondensedInfo>>,
}

/// The content of a [`CondensedInfo`].
pub struct Condensed {
    pub member_flows: u64,
    pub ephemeral_field: Seq<char>,
    pub overflow: bool,
}

/// The content of a [`Stream`].
#[verifier::ext_equal]
pub struct StreamView {
    pub id: StreamId,
    pub protocol: Seq<char>,
    pub key: Seq<u8>,
    pub key_fields: Fields,
    pub parent: Option<StreamId>,
    pub children: Seq<StreamId>,
    pub initiator: PacketDirection,
    pub first_seen: Timestamp,
    pub last_seen: Timestamp,
    pub stats: Seq<DirStats>,
    pub opaque_bytes: u64,
    pub state: Option<Seq<char>>,
    pub rollups: Rollups,
    pub closed: Option<CloseReason>,
    pub close_eligible: bool,
    pub close_eligible_since: Option<Timestamp>,
    pub created_seq: u64,
    pub condensed: Option<Condensed>,
}

impl View for CondensedInfo {
    type V = Condensed;

    open spec fn view(&self) -> Condensed {
        Condensed {
            member_flows: self.member_flows,
            ephemeral_field: self.ephemeral_field@,
            overflow: self.overflow,
        }
    }
}

pub open spec fn state_view(s: Option<StateName>) -> Option<Seq<char>> {
    match s {
        Some(s) => Some(s@),
        None => None,
    }
}

pub open spec fn condensed_view(c: Option<Box<CondensedInfo>>) -> Option<Condensed> {
    match c {
        Some(c) => Some((*c)@),
        None => None,
    }
}

impl View for Stream {
    type V = StreamView;

    open spec fn view(&self) -> StreamView {
        StreamView {
            id: self.id,
            protocol: self.protocol@,
            key: self.key@,
            key_fields: self.key_fields@,
            parent: self.parent,
            children: self.children@,
            initiator: self.initiator,
            first_seen: self.first_seen,
            last_seen: self.last_seen,
            stats: self.stats@,
            opaque_bytes: self.opaque_bytes,
            state: state_view(self.state),
            rollups: self.rollups@,
            closed: self.closed,
            close_eligible: self.close_eligible,
            close_eligible_since: self.close_eligible_since,
            created_seq: self.created_seq,
            condensed: condensed_view(self.condensed),
        }
    }
}

/// The place of a direction in [`Stream::stats`].
pub open spec fn direction_index(dir: PacketDirection) -> int {
    match dir {
        PacketDirection::AtoB => 0,
        PacketDirection::BtoA => 1,
    }
}

pub fn dir_index(dir: PacketDirection) -> (r: usize)
    ensures
        r == direction_index(dir),
{
    match dir {
        PacketDirection::AtoB => 0,
        PacketDirection::BtoA => 1,
    }
}

/// A copy of some handles.
pub fn copy_ids(ids: &Vec<StreamId>) -> (r: Vec<StreamId>)
    ensures
        r@ == ids@,
{
    let n: usize = ids.len();
    let mut out: Vec<StreamId> = Vec::new();
    let mut i: usize = 0;
    while i < n
        invariant
            n == ids@.len(),
            i <= n,
            out@ == ids@.take(i as int),
        decreases n - i,
    {
        out.push(ids[i]);
        i = i + 1;
        assert(out@ =~= ids@.take(i as int));
    }
    assert(ids@.take(n as int) =~= ids@);
    out
}

impl Clone for Stream {
    fn clone(&self) -> (r: Stream)
        ensures
            r@ == self@,
    {
        Stream {
            id: self.id,
            protocol: self.protocol,
            key: self.key.clone(),
            key_fields: self.key_fields.clone(),
            parent: self.parent,
            children: copy_ids(&self.children),
            initiator: self.initiator,
            first_seen: self.first_seen,
            last_seen: self.last_seen,
            stats: self.stats,
            opaque_bytes: self.opaque_bytes,
            state: self.state,
            rollups: self.rollups.clone(),
            closed: self.closed,
            close_eligible: self.close_eligible,
            close_eligible_since: self.close_eligible_since,
            created_seq: self.created_seq,
            condensed: match &self.condensed {
                Some(c) => Some(Box::new(**c)),
                None => None,
            },
        }
    }
}

/// Calls `Arc::make_mut`: where the record is shared the holder gets a clone of
/// its own, and either way what is then changed is the holder's record alone.
#[verifier::external_body]
pub(crate) fn make_mut(shared: &mut Arc<Stream>) -> (r: &mut Stream)
    ensures
        r@ == (*old(shared))@,
        **final(shared) == *final(r),
{
    Arc::make_mut(shared)
}

/// Calls `Arc::clone`: one more holder of the same content.
#[verifier::external_body]
pub(crate) fn share<T>(held: &Arc<T>) -> (r: Arc<T>)
    ensures
        *r == **held,
{
    Arc::clone(held)
}

/// Calls `Arc::unwrap_or_clone`: the record itself where no one else holds it,
/// else a clone.
#[verifier::external_body]
pub(crate) fn unwrap_or_clone(shared: Arc<Stream>) -> (r: Stream)
    ensures
        r@ == (*shared)@,
{
    Arc::unwrap_or_clone(shared)
}

/// A stream after its session took a packet at `ts` into account: the protocol's
/// own transition, and the time at which the session was first over.
pub open spec fn advanced(
    st: StreamView,
    lifecycle: Option<SessionRules>,
    fields: Fields,
    ts: Timestamp,
    dir: PacketDirection,
) -> StreamView {
    match (lifecycle, st.state) {
        (Some(rules), Some(current)) => {
            let next = (rules.machine)(fields, current, dir);
            let over = rules.closed_states.contains(next);
            StreamView {
                state: Some(next),
                close_eligible: over,
                close_eligible_since: if over && !st.close_eligible {
                    Some(ts)
                } else if !over {
                    None
                } else {
                    st.close_eligible_since
                },
                ..st
            }
        },
        _ => st,
    }
}

/// Whether a packet ended the session.
pub open spec fn became_eligible(before: StreamView, after: StreamView) -> bool {
    after.close_eligible && !before.close_eligible
}

/// A stream after it counted a packet of `bytes` on the wire.
pub open spec fn counted(st: StreamView, ts: Timestamp, dir: PacketDirection, bytes: int) -> StreamView {
    let i = direction_index(dir);
    StreamView {
        last_seen: ts,
        stats: st.stats.update(
            i,
            DirStats {
                packets: (st.stats[i].packets + 1) as u64,
                bytes: (st.stats[i].bytes + bytes) as u64,
            },
        ),
        ..st
    }
}

/// A stream after one more packet.
pub open spec fn touched(
    st: StreamView,
    identity: Identity,
    fields: Fields,
    ts: Timestamp,
    dir: PacketDirection,
    bytes: int,
) -> StreamView {
    let after = advanced(counted(st, ts, dir, bytes), identity.lifecycle, fields, ts, dir);
    StreamView {
        rollups: rollup::updated(after.rollups, fields, after.first_seen, ts, dir),
        ..after
    }
}

/// While a session stays over, stragglers do not move the time since when it is.
pub proof fn stragglers_do_not_move_the_close(
    st: StreamView,
    identity: Identity,
    fields: Fields,
    ts: Timestamp,
    dir: PacketDirection,
    bytes: int,
)
    requires
        st.close_eligible,
        touched(st, identity, fields, ts, dir, bytes).close_eligible,
    ensures
        touched(st, identity, fields, ts, dir, bytes).close_eligible_since
            == st.close_eligible_since,
{
}

/// A packet that leads a session out of its closed states cancels its close.
pub proof fn reopening_cancels_the_close(
    st: StreamView,
    identity: Identity,
    fields: Fields,
    ts: Timestamp,
    dir: PacketDirection,
    bytes: int,
)
    requires
        identity.lifecycle is Some,
        st.state is Some,
        !identity.lifecycle->0.closed_states.contains(
            (identity.lifecycle->0.machine)(fields, st.state->0, dir),
        ),
    ensures
        !touched(st, identity, fields, ts, dir, bytes).close_eligible,
        touched(st, identity, fields, ts, dir, bytes).close_eligible_since is None,
{
}

/// A stream without a session never has one.
pub proof fn no_session_no_state(
    st: StreamView,
    identity: Identity,
    fields: Fields,
    ts: Timestamp,
    dir: PacketDirection,
    bytes: int,
)
    requires
        st.state is None,
    ensures
        touched(st, identity, fields, ts, dir, bytes).state is None,
        touched(st, identity, fields, ts, dir, bytes).close_eligible == st.close_eligible,
{
}

fn holds_state(states: &[StateName], state: StateName) -> (r: bool)
    ensures
        r == Seq::new(states@.len(), |i: int| states@[i]@).contains(state@),
{
    let n: usize = states.len();
    let ghost all = Seq::new(states@.len(), |i: int| states@[i]@);
    let mut i: usize = 0;
    while i < n
        invariant
            n == states@.len(),
            i <= n,
            all == Seq::new(states@.len(), |i: int| states@[i]@),
            forall|j: int| 0 <= j < i ==> all[j] != state@,
        decreases n - i,
    {
        if str_eq(states[i], state) {
            assert(all[i as int] == state@);
            return true;
        }
        i = i + 1;
    }
    false
}

impl Stream {
    /// Takes the session's next step. Returns whether this packet ended it.
    fn advance(
        &mut self,
        lifecycle: Option<LifecycleSpec>,
        fields: &FieldMap,
        ts: Timestamp,
        dir: PacketDirection,
    ) -> (r: bool)
        ensures
            final(self)@ == advanced(
                old(self)@,
                identity::lifecycle_view(lifecycle),
                fields@,
                ts,
                dir,
            ),
            r == became_eligible(old(self)@, final(self)@),
    {
        match (lifecycle, self.state) {
            (Some(rules), Some(current)) => {
                let next = rules.machine.advance(fields, current, dir);
                let over = holds_state(rules.closed_states, next);
                assert(over == rules@.closed_states.contains(next@));
                let first = over && !self.close_eligible;
                self.state = Some(next);
                if first {
                    self.close_eligible_since = Some(ts);
                } else if !over {
                    self.close_eligible_since = None;
                }
                self.close_eligible = over;
                first
            },
            _ => false,
        }
    }

    /// Takes one packet in. Returns whether it ended the session.
    pub(crate) fn touch(
        &mut self,
        identity: &StreamIdentity,
        fields: &FieldMap,
        ts: Timestamp,
        dir: PacketDirection,
        bytes: usize,
    ) -> (r: bool)
        requires
            layer::in_time(ts),
            layer::in_time(old(self)@.first_seen),
            old(self)@.stats[direction_index(dir)].packets < u64::MAX,
            old(self)@.stats[direction_index(dir)].bytes + bytes <= u64::MAX,
            rollup::all_countable(old(self)@.rollups),
        ensures
            final(self)@ == touched(old(self)@, identity@, fields@, ts, dir, bytes as int),
            r == became_eligible(old(self)@, final(self)@),
    {
        self.last_seen = ts;
        let i: usize = dir_index(dir);
        let before = self.stats[i];
        self.stats[i] = DirStats {
            packets: before.packets + 1,
            bytes: before.bytes + bytes as u64,
        };
        assert(self@ =~= counted(old(self)@, ts, dir, bytes as int));
        let ended = self.advance(identity.lifecycle, fields, ts, dir);
        let base: Timestamp = self.first_seen;
        self.rollups.apply(fields, base, ts, dir);
        ended
    }
}

} // verus!
