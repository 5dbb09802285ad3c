//! Taking packets in.
use vstd::prelude::*;

use crate::engine::Rules;
use crate::flows::bounds;
use crate::flows::heap::Entry;
use crate::flows::index;
use crate::flows::key;
use crate::flows::queues;
use crate::flows::rollup;
use crate::flows::state::{self, EvictionPolicy, Progress, Resolved, State};
use crate::flows::steps;
use crate::flows::store::{self, Aggregator};
use crate::flows::stream::{StreamId, StreamView};
use crate::flows::tally;
use crate::flows::tree;
use crate::flows::unknown::{self, Endpoint, EndpointKey};
use crate::identity::{PacketDirection, StreamIdentity};
use crate::layer::{self, LayerRecord, PacketMeta};
use crate::packet::{DissectedPacket, StopClass};
use crate::value::ProtocolName;

verus! {

spec fn endpoint_view(e: Option<EndpointKey>) -> Option<Endpoint> {
    match e {
        Some(e) => Some(e@),
        None => None,
    }
}

/// The place of a kind of end in the counts.
fn stop_class_index(class: StopClass) -> (r: usize)
    ensures
        r == state::class_index(class),
        r < 4,
{
    match class {
        StopClass::Clean => 0,
        StopClass::UnknownPayload => 1,
        StopClass::Malformed => 2,
        StopClass::Suspicious => 3,
    }
}

impl Aggregator {
    /// Counts a packet in a layer's stream.
    fn attribute(
        &mut self,
        id: StreamId,
        identity: &StreamIdentity,
        layer: &LayerRecord,
        meta: &PacketMeta,
        dir: PacketDirection,
        Ghost(b): Ghost<nat>,
    )
        requires
            old(self).sound(b),
            old(self)@.live(id),
            layer::in_time(meta.timestamp),
            b + meta.origlen + 1 <= u64::MAX,
        ensures
            final(self)@ == state::attributed(
                (Resolved { state: old(self)@, id, dir }),
                identity@,
                layer@,
                *meta,
            ),
            final(self).sound(b + meta.origlen as nat + 1),
    {
        let ghost s0 = self@;
        let ghost r = Resolved { state: s0, id, dir };
        let ghost o = s0.get(id)->0;
        let ghost t0 = self.tallies@;
        let ts: i128 = meta.timestamp;
        proof {
            steps::attributing_keeps(r, identity@, layer@, *meta, b);
            assert(s0.live_at(id.index as int));
            assert(bounds::stream_within(s0.at(id.index as int), b));
            steps::touching_stays_within(
                o,
                identity@,
                layer@.fields,
                ts,
                dir,
                meta.origlen as nat,
                b,
            );
            assert(rollup::all_countable(o.rollups)) by {
                assert forall|k: int| 0 <= k < o.rollups.len() implies rollup::countable(
                    (#[trigger] o.rollups[k]).1,
                ) by {
                    assert(bounds::observations_within(o.rollups[k].1, b));
                }
            }
        }
        let st = store::stream_mut(&mut self.slots, id.index as usize);
        let protocol: ProtocolName = st.protocol;
        let ended = st.touch(identity, &layer.fields, ts, dir, meta.origlen);
        let ghost after = st@;
        let ghost s1 = s0.put(id, after);
        proof {
            assert(self@ =~= s1);
            assert(state::bytes_of(s0.slots, o.protocol) <= b);
            assert(tally::counts_of(t0, o.protocol).bytes == state::bytes_of(s0.slots, o.protocol));
        }
        let mut row = self.tallies.get(protocol);
        row.bytes = row.bytes + meta.origlen as u64;
        self.tallies.set(row);
        if ended {
            match self.config.eviction {
                EvictionPolicy::Live { close_linger, .. } => {
                    let time: i128 = ts + close_linger as i128;
                    self.expiry.push(
                        Entry { time, seq: 0, index: id.index, generation: id.generation },
                    );
                },
                EvictionPolicy::Never => {},
            }
        }
        proof {
            assert forall|p: Seq<char>| #[trigger]
                tally::counts_of(self.tallies@, p).live == state::live_of(self@.slots, p) by {
                bounds::sums_after_put(s0, id, after, p);
                assert(tally::counts_of(t0, p).live == state::live_of(s0.slots, p));
            }
            assert forall|p: Seq<char>| #[trigger]
                tally::counts_of(self.tallies@, p).bytes == state::bytes_of(self@.slots, p) by {
                bounds::sums_after_put(s0, id, after, p);
                assert(tally::counts_of(t0, p).bytes == state::bytes_of(s0.slots, p));
            }
            bounds::sums_after_put(s0, id, after, o.protocol);
            bounds::sums_are_natural(s0.slots, o.protocol);
            assert(t0.contains_key(o.protocol)) by {
                bounds::total_covers(
                    s0.slots,
                    id.index as int,
                    |x: state::Slot|
                        if state::is_of(x, o.protocol) {
                            1int
                        } else {
                            0int
                        },
                );
                assert(tally::counts_of(t0, o.protocol).live == state::live_of(
                    s0.slots,
                    o.protocol,
                ));
            }
            assert(self@.ever =~= s0.ever);
            assert(self@ =~= state::attributed(r, identity@, layer@, *meta));
            index::indexed_after_update(s0, self@, self.index);
        }
    }
}

impl Aggregator {
    /// Takes one layer in. A layer that forms no stream, or whose key cannot be
    /// built, is passed over.
    fn take_layer(
        &mut self,
        parent: Option<StreamId>,
        endpoint: Option<EndpointKey>,
        layer: &LayerRecord,
        meta: &PacketMeta,
        Ghost(b): Ghost<nat>,
    ) -> (r: (Option<StreamId>, Option<EndpointKey>))
        requires
            old(self).sound(b),
            parent is Some ==> old(self)@.live(parent->0),
            layer::in_time(meta.timestamp),
            old(self)@.slots.len() < u32::MAX,
            b + state::layer_weight(*meta) <= u64::MAX,
            old(self)@.load + state::layer_weight(*meta) <= u64::MAX,
        ensures
            state::taken(
                (Progress { state: old(self)@, parent, endpoint: endpoint_view(endpoint) }),
                layer@,
                *meta,
            ) == (Progress { state: final(self)@, parent: r.0, endpoint: endpoint_view(r.1) }),
            final(self).sound(b + state::layer_weight(*meta) as nat),
    {
        let ghost p = Progress { state: self@, parent, endpoint: endpoint_view(endpoint) };
        let ghost c = b + state::layer_weight(*meta) as nat;
        proof {
            steps::taking_keeps(p, layer@, *meta, b);
        }
        self.load = self.load + meta.origlen as u64 + 4;
        let ghost s = State {
            load: (p.state.load + state::layer_weight(*meta)) as nat,
            ..p.state
        };
        proof {
            assert(self@ =~= s);
            queues::lemma_same_hierarchy(p.state, s);
            queues::lemma_same_bounds(p.state, s, b);
            index::indexed_after_update(p.state, s, self.index);
            assert(self.sound(b));
        }
        let (identity, condense) = match self.engine.plugin_by_name(layer.protocol) {
            Some(plugin) => (plugin.stream_identity(), plugin.condense()),
            None => {
                return (parent, endpoint);
            },
        };
        let identity: StreamIdentity = match identity {
            Some(identity) => identity,
            None => {
                return (parent, endpoint);
            },
        };
        match key::flow_key(&identity, &layer.fields) {
            Err(_) => {
                self.totals.key_errors = self.totals.key_errors + 1;
                proof {
                    assert(self@ =~= state::taken(p, layer@, *meta).state);
                    index::indexed_after_update(s, self@, self.index);
                }
                (parent, endpoint)
            },
            Ok((key, dir)) => {
                let inner = EndpointKey { protocol: layer.protocol, key: key.clone() };
                let (id, dir) = self.get_or_insert(
                    parent,
                    key,
                    &identity,
                    condense,
                    layer,
                    dir,
                    meta.timestamp,
                    Ghost(b),
                );
                proof {
                    let rules = Rules { identity: Some(identity@), condense };
                    steps::resolving_keeps(
                        s,
                        parent,
                        key@,
                        rules,
                        layer@,
                        key::key_of(identity@, layer@.fields)->Ok_0.1,
                        meta.timestamp,
                        b,
                    );
                }
                self.attribute(id, &identity, layer, meta, dir, Ghost(b + 3));
                (Some(id), Some(inner))
            },
        }
    }

    /// Whether a packet can be taken in.
    pub fn has_room(&self, pkt: &DissectedPacket) -> (r: bool)
        ensures
            r == state::has_room(self.view(), pkt@),
    {
        let ts: i128 = pkt.meta.timestamp;
        if ts > layer::TIME_LIMIT || ts < -layer::TIME_LIMIT {
            return false;
        }
        let slots: u128 = self.slots.len() as u128;
        let layers: u128 = pkt.layers.len() as u128;
        if slots + layers > u32::MAX as u128 {
            return false;
        }
        let per_layer: u128 = pkt.meta.origlen as u128 + 4;
        proof {
            assert(layers * per_layer <= 0xFFFF_FFFF * 0x1_0000_0000_0000_0003) by (nonlinear_arith)
                requires
                    0 <= layers <= 0xFFFF_FFFF,
                    0 <= per_layer <= 0x1_0000_0000_0000_0003,
            ;
        }
        let weight: u128 = pkt.meta.origlen as u128 + pkt.opaque_len as u128 + 4 + layers
            * per_layer;
        self.load as u128 + weight <= u64::MAX as u128
    }

    /// Counts a packet.
    fn begin(&mut self, pkt: &DissectedPacket, Ghost(b): Ghost<nat>)
        requires
            old(self).sound(b),
            layer::in_time(pkt@.meta.timestamp),
            b + pkt@.meta.origlen + 1 <= u64::MAX,
            old(self)@.load + pkt@.meta.origlen + pkt@.opaque_len + 4 <= u64::MAX,
        ensures
            final(self)@ == state::begun(old(self)@, pkt@),
            final(self).sound(b + pkt@.meta.origlen as nat + 1),
    {
        let ghost s0 = self@;
        proof {
            steps::beginning_keeps(s0, pkt@, b);
        }
        let ts: i128 = pkt.meta.timestamp;
        if ts > self.clock {
            self.clock = ts;
        }
        self.totals.packets = self.totals.packets + 1;
        self.totals.bytes = self.totals.bytes + pkt.meta.origlen as u64;
        let class: usize = stop_class_index(pkt.stop.class());
        self.stop_classes[class] = self.stop_classes[class] + 1;
        self.load = self.load + pkt.meta.origlen as u64 + pkt.opaque_len as u64 + 4;
        proof {
            assert(self@ =~= state::begun(s0, pkt@));
            index::indexed_after_update(s0, self@, self.index);
        }
    }

    /// Takes a packet's layers in, outermost first. Returns the innermost stream
    /// and its key.
    fn take_layers(&mut self, pkt: &DissectedPacket, Ghost(b): Ghost<nat>) -> (r: (
        Option<StreamId>,
        Option<EndpointKey>,
    ))
        requires
            old(self).sound(b),
            layer::in_time(pkt@.meta.timestamp),
            old(self)@.slots.len() + pkt@.layers.len() <= u32::MAX,
            b + pkt@.layers.len() * state::layer_weight(pkt@.meta) <= u64::MAX,
            old(self)@.load + pkt@.layers.len() * state::layer_weight(pkt@.meta) <= u64::MAX,
        ensures
            state::taken_all(
                old(self)@,
                pkt@.layers,
                pkt@.layers.len() as int,
                pkt@.meta,
            ) == (Progress { state: final(self)@, parent: r.0, endpoint: endpoint_view(r.1) }),
            final(self).sound(
                (b + pkt@.layers.len() * state::layer_weight(pkt@.meta)) as nat,
            ),
    {
        let ghost s = self@;
        let ghost k = pkt@;
        let ghost w = state::layer_weight(pkt.meta);
        let n: usize = pkt.layers.len();
        let mut parent: Option<StreamId> = None;
        let mut endpoint: Option<EndpointKey> = None;
        let mut i: usize = 0;
        assert(0 * w == 0) by (nonlinear_arith);
        while i < n
            invariant
                n == pkt.layers@.len(),
                k == pkt@,
                k.layers.len() == n,
                w == state::layer_weight(pkt.meta),
                i <= n,
                layer::in_time(pkt.meta.timestamp),
                tree::hierarchy(s),
                bounds::within(s, b),
                s.slots.len() + n <= u32::MAX,
                b + n * w <= u64::MAX,
                s.load + n * w <= u64::MAX,
                i * w >= 0,
                self.sound((b + i * w) as nat),
                state::taken_all(s, k.layers, i as int, pkt.meta) == (Progress {
                    state: self@,
                    parent,
                    endpoint: endpoint_view(endpoint),
                }),
            decreases n - i,
        {
            let layer = &pkt.layers[i];
            proof {
                assert(k.layers[i as int] == layer@);
                assert((i + 1) * w == i * w + w) by (nonlinear_arith);
                assert((i + 1) * w <= n * w) by (nonlinear_arith)
                    requires
                        i + 1 <= n,
                        w >= 0,
                ;
                steps::taking_all_keeps(s, k.layers, i as nat, pkt.meta, b);
            }
            let (p, e) = self.take_layer(
                parent,
                endpoint,
                layer,
                &pkt.meta,
                Ghost((b + i * w) as nat),
            );
            parent = p;
            endpoint = e;
            i = i + 1;
        }
        (parent, endpoint)
    }

    /// Counts the payload that nothing took, and registers it if it is unknown.
    fn take_rest(
        &mut self,
        pkt: &DissectedPacket,
        innermost: Option<StreamId>,
        endpoint: Option<EndpointKey>,
        Ghost(a): Ghost<nat>,
        Ghost(b): Ghost<nat>,
        Ghost(c): Ghost<nat>,
    )
        requires
            old(self).sound(b),
            bounds::register_within(old(self)@.unknowns, a),
            b + pkt@.opaque_len <= c,
            a + pkt@.opaque_len + 1 <= c <= u64::MAX,
        ensures
            final(self)@ == state::with_unknown(
                state::with_opaque(old(self)@, innermost, pkt@.opaque_len as int),
                pkt@,
                endpoint_view(endpoint),
            ),
            final(self).sound(c),
    {
        let ghost s0 = self@;
        let ghost t0 = self.tallies@;
        proof {
            steps::leftovers_keep(s0, innermost, pkt.opaque_len as nat, b);
        }
        if let Some(id) = innermost {
            if self.get(id).is_some() {
                proof {
                    assert(s0.live_at(id.index as int));
                    assert(bounds::stream_within(s0.at(id.index as int), b));
                }
                let st = store::stream_mut(&mut self.slots, id.index as usize);
                st.opaque_bytes = st.opaque_bytes + pkt.opaque_len as u64;
            }
        }
        let ghost s1 = state::with_opaque(s0, innermost, pkt.opaque_len as int);
        proof {
            assert(self@ =~= s1);
            bounds::within_widens(s1, b + pkt.opaque_len as nat, c);
            steps::registering_keeps(s1, pkt@, endpoint_view(endpoint), a, c);
        }
        if let Some(diag) = &pkt.unknown {
            let bytes: u32 = if pkt.opaque_len as u64 > u32::MAX as u64 {
                u32::MAX
            } else {
                pkt.opaque_len as u32
            };
            self.unknowns.ingest(diag, bytes, pkt.meta.timestamp, endpoint, self.config.unknown);
        }
        proof {
            assert(self@ =~= state::with_unknown(s1, pkt@, endpoint_view(endpoint)));
            index::indexed_after_update(s0, self@, self.index);
            assert forall|p: Seq<char>| #[trigger]
                tally::counts_of(self.tallies@, p).live == state::live_of(self@.slots, p) by {
                assert(tally::counts_of(t0, p).live == state::live_of(s0.slots, p));
                lemma_leftovers_sums(s0, innermost, pkt.opaque_len as int, p);
            }
            assert forall|p: Seq<char>| #[trigger]
                tally::counts_of(self.tallies@, p).bytes == state::bytes_of(self@.slots, p) by {
                assert(tally::counts_of(t0, p).bytes == state::bytes_of(s0.slots, p));
                lemma_leftovers_sums(s0, innermost, pkt.opaque_len as int, p);
            }
            lemma_leftovers_sums(s0, innermost, pkt.opaque_len as int, Seq::empty());
        }
    }

    /// Takes one packet in: every layer that forms a stream is counted in it, the
    /// streams of one packet nested as its layers are. Streams that have become
    /// due leave first, and the cap on streams is enforced last.
    pub fn ingest(&mut self, pkt: &DissectedPacket)
        requires
            old(self).wf(),
            state::has_room(old(self).view(), pkt@),
        ensures
            final(self).wf(),
            final(self).view() == state::ingested(old(self).view(), pkt@),
            final(self).view().load == old(self).view().load + state::weight(pkt@),
            final(self).view().slots.len() <= old(self).view().slots.len() + pkt@.layers.len(),
    {
        let ghost s0 = self@;
        let ghost b = self.load as nat;
        let ghost k = pkt@;
        let ghost w = k.layers.len() * state::layer_weight(k.meta);
        let ghost b1 = b + pkt.meta.origlen as nat + 1;
        let ghost b2 = (b1 + w) as nat;
        let ghost c = (b + state::weight(k)) as nat;
        proof {
            steps::ingesting_keeps(s0, k);
            assert(w >= 0) by (nonlinear_arith)
                requires
                    w == k.layers.len() * state::layer_weight(k.meta),
                    state::layer_weight(k.meta) >= 0,
            ;
            steps::opening_keeps(s0, k, b);
        }
        self.begin(pkt, Ghost(b));
        self.sweep(Ghost(b1));
        self.compact_lru(Ghost(b1));
        let ghost s1 = self@;
        assert(s1 == steps::opened(s0, k));
        let (innermost, endpoint) = self.take_layers(pkt, Ghost(b1));
        proof {
            steps::taking_all_keeps(s1, k.layers, k.layers.len(), k.meta, b1);
        }
        self.take_rest(pkt, innermost, endpoint, Ghost(b), Ghost(b2), Ghost(c));
        self.enforce_max_streams(Ghost(c));
    }
}

/// Payload that nothing took is in none of the sums.
proof fn lemma_leftovers_sums(s: State, innermost: Option<StreamId>, bytes: int, p: Seq<char>)
    ensures
        ({
            let t = state::with_opaque(s, innermost, bytes);
            &&& state::live_count(t.slots) == state::live_count(s.slots)
            &&& state::live_of(t.slots, p) == state::live_of(s.slots, p)
            &&& state::bytes_of(t.slots, p) == state::bytes_of(s.slots, p)
        }),
{
    if innermost is Some && s.live(innermost->0) {
        let id = innermost->0;
        let st = s.get(id)->0;
        bounds::sums_after_put(
            s,
            id,
            StreamView { opaque_bytes: (st.opaque_bytes + bytes) as u64, ..st },
            p,
        );
    }
}

} // verus!
