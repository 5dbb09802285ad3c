//! The register of unknown payloads: one row for each distinct shape, bounded,
//! and independent of the streams.
use std::collections::VecDeque;

use vstd::prelude::*;

use crate::flows::key;
use crate::flows::rollup::ACCUMULATE_SET_CAP;
use crate::identity::FlowKey;
use crate::layer::{RouteId, RouteView, Timestamp};
use crate::packet::{Diagnostics, UnknownContext, UnknownDiagnostics};
use crate::small::{self, NearMisses};
use crate::text::str_eq;
use crate::value::ProtocolName;

verus! {

/// The innermost stream that a packet with an unknown payload belongs to.
#[derive(PartialEq, Eq, Debug)]
pub struct EndpointKey {
    pub protocol: ProtocolName,
    pub key: FlowKey,
}

/// The content of an [`EndpointKey`].
#[verifier::ext_equal]
pub struct Endpoint {
    pub protocol: Seq<char>,
    pub key: Seq<u8>,
}

impl View for EndpointKey {
    type V = Endpoint;

    open spec fn view(&self) -> Endpoint {
        Endpoint { protocol: self.protocol@, key: self.key@ }
    }
}

impl EndpointKey {
    /// Whether two keys name the same stream.
    pub fn same(&self, other: &EndpointKey) -> (r: bool)
        ensures
            r == (self@ == other@),
    {
        str_eq(self.protocol, other.protocol) && self.key.same(&other.key)
    }
}

impl Clone for EndpointKey {
    fn clone(&self) -> (r: EndpointKey)
        ensures
            r@ == self@,
    {
        EndpointKey { protocol: self.protocol, key: self.key.clone() }
    }
}

/// The shape of an unknown payload: what it follows, and the route that nothing
/// claims; no route where no probe recognised it.
#[derive(Clone, Copy, PartialEq, Eq, PartialOrd, Ord, Hash, Debug)]
pub struct UnknownKey {
    pub predecessor: ProtocolName,
    pub route: Option<RouteId>,
}

/// The content of an [`UnknownKey`].
#[verifier::ext_equal]
pub struct Shape {
    pub predecessor: Seq<char>,
    pub route: Option<RouteView>,
}

impl View for UnknownKey {
    type V = Shape;

    open spec fn view(&self) -> Shape {
        Shape {
            predecessor: self.predecessor@,
            route: match self.route {
                Some(r) => Some(r@),
                None => None,
            },
        }
    }
}

/// The shape met in a context.
pub open spec fn shape_of(context: UnknownContext) -> Shape {
    match context {
        UnknownContext::UnclaimedRoute { predecessor, route } => Shape {
            predecessor: predecessor@,
            route: Some(route@),
        },
        UnknownContext::NoHeuristicWinner { predecessor } => Shape {
            predecessor: predecessor@,
            route: None,
        },
    }
}

impl From<&UnknownContext> for UnknownKey {
    fn from(ctx: &UnknownContext) -> (r: UnknownKey)
        ensures
            r@ == shape_of(*ctx),
    {
        match *ctx {
            UnknownContext::UnclaimedRoute { predecessor, route } => UnknownKey {
                predecessor,
                route: Some(route),
            },
            UnknownContext::NoHeuristicWinner { predecessor } => UnknownKey {
                predecessor,
                route: None,
            },
        }
    }
}

impl vstd::std_specs::convert::FromSpecImpl<&UnknownContext> for UnknownKey {
    open spec fn obeys_from_spec() -> bool {
        false
    }

    open spec fn from_spec(ctx: &UnknownContext) -> UnknownKey {
        arbitrary()
    }
}

/// What routes are ordered by: their kind, then their name space, then their
/// number. A missing route comes first.
pub open spec fn route_rank(route: Option<RouteView>) -> (int, Seq<u8>, int) {
    match route {
        None => (0, Seq::empty(), 0),
        Some(RouteView::LinkType(n)) => (1, Seq::empty(), n as int),
        Some(RouteView::EtherType(n)) => (2, Seq::empty(), n as int),
        Some(RouteView::IpProtocol(n)) => (3, Seq::empty(), n as int),
        Some(RouteView::TcpPort(n)) => (4, Seq::empty(), n as int),
        Some(RouteView::UdpPort(n)) => (5, Seq::empty(), n as int),
        Some(RouteView::Custom { space, id }) => (6, vstd::utf8::encode_utf8(space), id as int),
    }
}

/// Whether `a` comes no later than `b`: by what they follow, then by route.
pub open spec fn shape_le(a: Shape, b: Shape) -> bool {
    if a.predecessor != b.predecessor {
        key::lex_le(
            vstd::utf8::encode_utf8(a.predecessor),
            vstd::utf8::encode_utf8(b.predecessor),
        )
    } else {
        let (ka, sa, na) = route_rank(a.route);
        let (kb, sb, nb) = route_rank(b.route);
        if ka != kb {
            ka < kb
        } else if sa != sb {
            key::lex_le(sa, sb)
        } else {
            na <= nb
        }
    }
}

fn rank_of(route: &Option<RouteId>) -> (r: (u8, &'static [u8], u64))
    ensures
        ({
            let (k, s, n) = route_rank(
                match *route {
                    Some(r) => Some(r@),
                    None => None,
                },
            );
            r.0 == k && r.1@ == s && r.2 == n
        }),
{
    let nothing: &'static [u8] = &[];
    assert(nothing@ =~= Seq::empty());
    match route {
        None => (0, nothing, 0),
        Some(RouteId::LinkType(n)) => (1, nothing, *n as u64),
        Some(RouteId::EtherType(n)) => (2, nothing, *n as u64),
        Some(RouteId::IpProtocol(n)) => (3, nothing, *n as u64),
        Some(RouteId::TcpPort(n)) => (4, nothing, *n as u64),
        Some(RouteId::UdpPort(n)) => (5, nothing, *n as u64),
        Some(RouteId::Custom { space, id }) => (6, space.as_bytes(), *id),
    }
}

impl UnknownKey {
    /// Whether two shapes are the same.
    pub fn same(&self, other: &UnknownKey) -> (r: bool)
        ensures
            r == (self@ == other@),
    {
        if !str_eq(self.predecessor, other.predecessor) {
            return false;
        }
        match (&self.route, &other.route) {
            (Some(a), Some(b)) => a.same(b),
            (None, None) => true,
            _ => false,
        }
    }

    /// Whether this shape comes no later than another.
    pub fn at_most(&self, other: &UnknownKey) -> (r: bool)
        ensures
            r == shape_le(self@, other@),
    {
        if !str_eq(self.predecessor, other.predecessor) {
            return key::at_most(self.predecessor.as_bytes(), other.predecessor.as_bytes());
        }
        let a = rank_of(&self.route);
        let b = rank_of(&other.route);
        if a.0 != b.0 {
            a.0 < b.0
        } else if !crate::text::bytes_eq(a.1, b.1) {
            key::at_most(a.1, b.1)
        } else {
            a.2 <= b.2
        }
    }
}

/// Everything seen of one shape.
#[derive(PartialEq, Eq, Debug)]
pub struct UnknownGroup {
    pub key: UnknownKey,
    pub count: u64,
    pub bytes_total: u64,
    pub bytes_min: u32,
    pub bytes_max: u32,
    pub first_seen: Timestamp,
    pub last_seen: Timestamp,
    /// The streams it was met in, in the order they came, up to a cap.
    pub endpoints: Vec<EndpointKey>,
    pub endpoints_overflow: bool,
    /// The best ranking seen; of equally good ones the most recent.
    pub near_misses: NearMisses,
    /// The most recent samples, oldest first.
    pub samples: VecDeque<Vec<u8>>,
    /// Creation order, which breaks ties between equally cold groups.
    pub seq: u64,
}

/// The content of an [`UnknownGroup`].
#[verifier::ext_equal]
pub struct Group {
    pub key: Shape,
    pub count: u64,
    pub bytes_total: u64,
    pub bytes_min: u32,
    pub bytes_max: u32,
    pub first_seen: Timestamp,
    pub last_seen: Timestamp,
    pub endpoints: Seq<Endpoint>,
    pub endpoints_overflow: bool,
    pub near_misses: Seq<(ProtocolName, u8)>,
    pub samples: Seq<Seq<u8>>,
    pub seq: u64,
}

pub open spec fn endpoints_view(s: Seq<EndpointKey>) -> Seq<Endpoint> {
    Seq::new(s.len(), |i: int| s[i]@)
}

pub open spec fn samples_view(s: Seq<Vec<u8>>) -> Seq<Seq<u8>> {
    Seq::new(s.len(), |i: int| s[i]@)
}

impl View for UnknownGroup {
    type V = Group;

    open spec fn view(&self) -> Group {
        Group {
            key: self.key@,
            count: self.count,
            bytes_total: self.bytes_total,
            bytes_min: self.bytes_min,
            bytes_max: self.bytes_max,
            first_seen: self.first_seen,
            last_seen: self.last_seen,
            endpoints: endpoints_view(self.endpoints@),
            endpoints_overflow: self.endpoints_overflow,
            near_misses: self.near_misses@,
            samples: samples_view(self.samples@),
            seq: self.seq,
        }
    }
}

/// One occurrence of an unknown payload.
pub struct Occurrence {
    pub diagnostics: Diagnostics,
    pub bytes: u32,
    pub ts: Timestamp,
    pub endpoint: Option<Endpoint>,
}

/// A group before its first occurrence.
pub open spec fn new_group(key: Shape, ts: Timestamp, seq: u64) -> Group {
    Group {
        key,
        count: 0,
        bytes_total: 0,
        bytes_min: u32::MAX,
        bytes_max: 0,
        first_seen: ts,
        last_seen: ts,
        endpoints: Seq::empty(),
        endpoints_overflow: false,
        near_misses: Seq::empty(),
        samples: Seq::empty(),
        seq,
    }
}

/// Whether a ranking is at least as good as the one that is kept.
pub open spec fn as_good(
    candidate: Seq<(ProtocolName, u8)>,
    current: Seq<(ProtocolName, u8)>,
) -> bool {
    match (small::top_score(candidate), small::top_score(current)) {
        (Some(a), Some(b)) => a >= b,
        (Some(_), None) => true,
        _ => false,
    }
}

/// The streams of a group after one more.
pub open spec fn with_endpoint(seen: Seq<Endpoint>, e: Option<Endpoint>) -> Seq<Endpoint> {
    match e {
        Some(e) => if seen.contains(e) || seen.len() >= ACCUMULATE_SET_CAP {
            seen
        } else {
            seen.push(e)
        },
        None => seen,
    }
}

/// The samples of a group after one more.
pub open spec fn with_sample(kept: Seq<Seq<u8>>, sample: Seq<u8>, limit: usize) -> Seq<Seq<u8>> {
    if kept.len() >= limit && kept.len() > 0 {
        kept.drop_first().push(sample)
    } else {
        kept.push(sample)
    }
}

/// A group after one more occurrence.
pub open spec fn recorded(g: Group, o: Occurrence, samples_per_group: usize) -> Group {
    Group {
        key: g.key,
        count: (g.count + 1) as u64,
        bytes_total: (g.bytes_total + o.bytes) as u64,
        bytes_min: if o.bytes < g.bytes_min {
            o.bytes
        } else {
            g.bytes_min
        },
        bytes_max: if o.bytes > g.bytes_max {
            o.bytes
        } else {
            g.bytes_max
        },
        first_seen: if o.ts < g.first_seen {
            o.ts
        } else {
            g.first_seen
        },
        last_seen: if o.ts > g.last_seen {
            o.ts
        } else {
            g.last_seen
        },
        endpoints: with_endpoint(g.endpoints, o.endpoint),
        endpoints_overflow: g.endpoints_overflow || (o.endpoint is Some && !g.endpoints.contains(
            o.endpoint->0,
        ) && g.endpoints.len() >= ACCUMULATE_SET_CAP),
        near_misses: if as_good(o.diagnostics.near_misses, g.near_misses) {
            o.diagnostics.near_misses
        } else {
            g.near_misses
        },
        samples: with_sample(g.samples, o.diagnostics.sample, samples_per_group),
        seq: g.seq,
    }
}

fn among(seen: &Vec<EndpointKey>, e: &EndpointKey) -> (r: bool)
    ensures
        r == endpoints_view(seen@).contains(e@),
{
    let n: usize = seen.len();
    let mut i: usize = 0;
    while i < n
        invariant
            n == seen@.len(),
            i <= n,
            forall|j: int| 0 <= j < i ==> endpoints_view(seen@)[j] != e@,
        decreases n - i,
    {
        if seen[i].same(e) {
            assert(endpoints_view(seen@)[i as int] == e@);
            return true;
        }
        i = i + 1;
    }
    false
}

impl UnknownGroup {
    fn new(key: UnknownKey, ts: Timestamp, seq: u64) -> (r: UnknownGroup)
        ensures
            r@ == new_group(key@, ts, seq),
    {
        let r = UnknownGroup {
            key,
            count: 0,
            bytes_total: 0,
            bytes_min: u32::MAX,
            bytes_max: 0,
            first_seen: ts,
            last_seen: ts,
            endpoints: Vec::new(),
            endpoints_overflow: false,
            near_misses: NearMisses::new(),
            samples: VecDeque::new(),
            seq,
        };
        assert(r@ =~= new_group(key@, ts, seq));
        r
    }

    fn record(
        &mut self,
        diag: &UnknownDiagnostics,
        bytes: u32,
        ts: Timestamp,
        endpoint: Option<EndpointKey>,
        samples_per_group: usize,
    )
        requires
            old(self)@.count < u64::MAX,
            old(self)@.bytes_total + bytes <= u64::MAX,
        ensures
            final(self)@ == recorded(
                old(self)@,
                occurrence(diag@, bytes, ts, endpoint),
                samples_per_group,
            ),
    {
        self.count = self.count + 1;
        self.bytes_total = self.bytes_total + bytes as u64;
        if bytes < self.bytes_min {
            self.bytes_min = bytes;
        }
        if bytes > self.bytes_max {
            self.bytes_max = bytes;
        }
        if ts < self.first_seen {
            self.first_seen = ts;
        }
        if ts > self.last_seen {
            self.last_seen = ts;
        }
        let ghost seen = endpoints_view(self.endpoints@);
        if let Some(ep) = endpoint {
            if !among(&self.endpoints, &ep) {
                if self.endpoints.len() < ACCUMULATE_SET_CAP {
                    self.endpoints.push(ep);
                    assert(endpoints_view(self.endpoints@) =~= seen.push(ep@));
                } else {
                    self.endpoints_overflow = true;
                }
            }
        }
        let better = match (diag.near_misses.top(), self.near_misses.top()) {
            (Some(a), Some(b)) => a >= b,
            (Some(_), None) => true,
            _ => false,
        };
        if better {
            self.near_misses = diag.near_misses.clone();
        }
        let ghost kept = samples_view(self.samples@);
        if self.samples.len() >= samples_per_group {
            let _oldest = self.samples.pop_front();
            assert(kept.len() > 0 ==> samples_view(self.samples@) =~= kept.drop_first());
            assert(kept.len() == 0 ==> samples_view(self.samples@) =~= kept);
        }
        let ghost left = samples_view(self.samples@);
        let sample = vstd::slice::slice_to_vec(diag.sample.as_slice());
        self.samples.push_back(sample);
        assert(samples_view(self.samples@) =~= left.push(diag.sample@));
    }
}

/// The occurrence that these arguments tell of.
pub open spec fn occurrence(
    diagnostics: Diagnostics,
    bytes: u32,
    ts: Timestamp,
    endpoint: Option<EndpointKey>,
) -> Occurrence {
    Occurrence {
        diagnostics,
        bytes,
        ts,
        endpoint: match endpoint {
            Some(e) => Some(e@),
            None => None,
        },
    }
}

impl Clone for UnknownGroup {
    fn clone(&self) -> (r: UnknownGroup)
        ensures
            r@ == self@,
    {
        let n: usize = self.endpoints.len();
        let mut endpoints: Vec<EndpointKey> = Vec::new();
        let mut i: usize = 0;
        while i < n
            invariant
                n == self.endpoints@.len(),
                i <= n,
                endpoints@.len() == i,
                forall|j: int| 0 <= j < i ==> endpoints@[j]@ == self.endpoints@[j]@,
            decreases n - i,
        {
            endpoints.push(self.endpoints[i].clone());
            i = i + 1;
        }
        let m: usize = self.samples.len();
        let mut samples: VecDeque<Vec<u8>> = VecDeque::new();
        let mut k: usize = 0;
        while k < m
            invariant
                m == self.samples@.len(),
                k <= m,
                samples@.len() == k,
                forall|j: int| 0 <= j < k ==> samples@[j]@ == self.samples@[j]@,
            decreases m - k,
        {
            samples.push_back(vstd::slice::slice_to_vec(self.samples[k].as_slice()));
            k = k + 1;
        }
        assert(endpoints_view(endpoints@) =~= endpoints_view(self.endpoints@));
        assert(samples_view(samples@) =~= samples_view(self.samples@));
        UnknownGroup {
            key: self.key,
            count: self.count,
            bytes_total: self.bytes_total,
            bytes_min: self.bytes_min,
            bytes_max: self.bytes_max,
            first_seen: self.first_seen,
            last_seen: self.last_seen,
            endpoints,
            endpoints_overflow: self.endpoints_overflow,
            near_misses: self.near_misses.clone(),
            samples,
            seq: self.seq,
        }
    }
}

/// The register's bounds.
#[derive(Clone, Copy, PartialEq, Eq, Debug, Structural)]
pub struct UnknownRegistryConfig {
    /// The most groups that are kept; the coldest go first.
    pub max_groups: usize,
    /// The most samples that a group keeps.
    pub samples_per_group: usize,
}

impl Default for UnknownRegistryConfig {
    fn default() -> (r: UnknownRegistryConfig)
        ensures
            r.max_groups == 500,
            r.samples_per_group == 5,
    {
        UnknownRegistryConfig { max_groups: 500, samples_per_group: 5 }
    }
}

/// The groups, by shape, and the number of occurrences so far.
#[verifier::ext_equal]
pub struct Register {
    pub groups: Map<Shape, Group>,
    pub next_seq: u64,
}

/// A register that has seen nothing.
pub open spec fn empty_register() -> Register {
    Register { groups: Map::empty(), next_seq: 0 }
}

/// Whether a group is colder than another: updated less recently or, at the
/// same time, created earlier.
pub open spec fn colder(a: Group, b: Group) -> bool {
    a.last_seen < b.last_seen || (a.last_seen == b.last_seen && a.seq < b.seq)
}

/// Whether the group of shape `k` is the coldest.
pub open spec fn is_coldest(groups: Map<Shape, Group>, k: Shape) -> bool {
    &&& groups.contains_key(k)
    &&& forall|j: Shape| #[trigger]
        groups.contains_key(j) && j != k ==> colder(groups[k], groups[j])
}

pub open spec fn coldest(groups: Map<Shape, Group>) -> Shape {
    choose|k: Shape| is_coldest(groups, k)
}

/// The groups without the coldest ones, until no more than `max` are left.
pub open spec fn trimmed(groups: Map<Shape, Group>, max: usize) -> Map<Shape, Group>
    decreases groups.dom().len(),
{
    if !groups.dom().finite() || groups.dom().len() <= max || !groups.contains_key(
        coldest(groups),
    ) {
        groups
    } else {
        trimmed(groups.remove(coldest(groups)), max)
    }
}

/// The group that an occurrence falls into, as it was before.
pub open spec fn group_before(r: Register, key: Shape, ts: Timestamp) -> Group {
    if r.groups.contains_key(key) {
        r.groups[key]
    } else {
        new_group(key, ts, r.next_seq)
    }
}

/// The register after one more occurrence.
pub open spec fn ingested(r: Register, o: Occurrence, config: UnknownRegistryConfig) -> Register {
    let key = shape_of(o.diagnostics.context);
    let group = recorded(group_before(r, key, o.ts), o, config.samples_per_group);
    Register {
        groups: trimmed(r.groups.insert(key, group), config.max_groups),
        next_seq: (r.next_seq + 1) as u64,
    }
}

/// What holds of every register.
pub open spec fn sound(r: Register) -> bool {
    &&& r.groups.dom().finite()
    &&& forall|k: Shape| #[trigger]
        r.groups.contains_key(k) ==> r.groups[k].key == k && r.groups[k].count <= r.next_seq
            && r.groups[k].seq < r.next_seq
    &&& forall|j: Shape, k: Shape|
        #![trigger r.groups.contains_key(j), r.groups.contains_key(k)]
        r.groups.contains_key(j) && r.groups.contains_key(k) && j != k ==> r.groups[j].seq
            != r.groups[k].seq
}

/// Whether one more occurrence of that many bytes can be counted.
pub open spec fn has_room(r: Register, bytes: u32) -> bool {
    &&& r.next_seq < u64::MAX
    &&& forall|k: Shape| #[trigger]
        r.groups.contains_key(k) ==> r.groups[k].bytes_total + bytes <= u64::MAX
}

/// Whether `a` is reported ahead of `b`: seen more often or, as often, of the
/// earlier shape.
pub open spec fn ahead(a: Group, b: Group) -> bool {
    a.count > b.count || (a.count == b.count && shape_le(a.key, b.key))
}

/// Whether `list` holds every group once, those to be reported ahead first.
pub open spec fn reported(r: Register, list: Seq<Group>) -> bool {
    &&& list.len() == r.groups.dom().len()
    &&& forall|i: int|
        0 <= i < list.len() ==> r.groups.contains_key((#[trigger] list[i]).key)
            && r.groups[list[i].key] == list[i]
    &&& forall|i: int, j: int|
        0 <= i < j < list.len() ==> ahead(#[trigger] list[i], #[trigger] list[j]) && list[i].key
            != list[j].key
    &&& forall|k: Shape| #[trigger]
        r.groups.contains_key(k) ==> exists|i: int|
            0 <= i < list.len() && (#[trigger] list[i]).key == k
}

/// The register of unknown payloads.
#[derive(Debug)]
pub struct UnknownRegistry {
    groups: Vec<UnknownGroup>,
    next_seq: u64,
}

spec fn groups_map(s: Seq<UnknownGroup>) -> Map<Shape, Group> {
    Map::new(
        |k: Shape| exists|i: int| 0 <= i < s.len() && (#[trigger] s[i]).key@ == k,
        |k: Shape| s[choose|i: int| 0 <= i < s.len() && (#[trigger] s[i]).key@ == k]@,
    )
}

spec fn distinct(s: Seq<UnknownGroup>) -> bool {
    forall|i: int, j: int|
        0 <= i < j < s.len() ==> (#[trigger] s[i]).key@ != (#[trigger] s[j]).key@
}

impl View for UnknownRegistry {
    type V = Register;

    closed spec fn view(&self) -> Register {
        Register { groups: groups_map(self.groups@), next_seq: self.next_seq }
    }
}

proof fn lemma_at(s: Seq<UnknownGroup>, i: int)
    requires
        distinct(s),
        0 <= i < s.len(),
    ensures
        groups_map(s).contains_key(s[i].key@),
        groups_map(s)[s[i].key@] == s[i]@,
{
    let k = s[i].key@;
    let j = choose|j: int| 0 <= j < s.len() && (#[trigger] s[j]).key@ == k;
    assert(0 <= j < s.len() && s[j].key@ == k);
    assert(i == j);
}

proof fn lemma_push(s: Seq<UnknownGroup>, g: UnknownGroup)
    requires
        distinct(s),
        !groups_map(s).contains_key(g.key@),
    ensures
        distinct(s.push(g)),
        groups_map(s.push(g)) == groups_map(s).insert(g.key@, g@),
{
    let t = s.push(g);
    assert forall|i: int| 0 <= i < s.len() implies (#[trigger] s[i]).key@ != g.key@ by {
        lemma_at(s, i);
    }
    assert(distinct(t));
    lemma_at(t, s.len() as int);
    assert forall|k: Shape| #[trigger] groups_map(t).contains_key(k) <==> groups_map(s).insert(
        g.key@,
        g@,
    ).contains_key(k) by {
        if groups_map(t).contains_key(k) && k != g.key@ {
            let i = choose|i: int| 0 <= i < t.len() && (#[trigger] t[i]).key@ == k;
            assert(s[i] == t[i]);
            lemma_at(s, i);
        }
        if groups_map(s).contains_key(k) {
            let i = choose|i: int| 0 <= i < s.len() && (#[trigger] s[i]).key@ == k;
            assert(s[i] == t[i]);
            lemma_at(t, i);
        }
    }
    assert forall|k: Shape| groups_map(s).contains_key(k) && k != g.key@ implies #[trigger]
    groups_map(t)[k] == groups_map(s)[k] by {
        let i = choose|i: int| 0 <= i < s.len() && (#[trigger] s[i]).key@ == k;
        assert(s[i] == t[i]);
        lemma_at(s, i);
        lemma_at(t, i);
    }
    assert(groups_map(t) =~= groups_map(s).insert(g.key@, g@));
}

proof fn lemma_update(s: Seq<UnknownGroup>, i: int, g: UnknownGroup)
    requires
        distinct(s),
        0 <= i < s.len(),
        s[i].key@ == g.key@,
    ensures
        distinct(s.update(i, g)),
        groups_map(s.update(i, g)) == groups_map(s).insert(g.key@, g@),
        groups_map(s).contains_key(g.key@),
{
    let t = s.update(i, g);
    assert(distinct(t)) by {
        assert forall|a: int, b: int| 0 <= a < b < t.len() implies (#[trigger] t[a]).key@ != (
        #[trigger] t[b]).key@ by {
            assert(s[a].key@ != s[b].key@);
        }
    }
    lemma_at(s, i);
    lemma_at(t, i);
    assert forall|k: Shape| #[trigger] groups_map(t).contains_key(k) <==> groups_map(
        s,
    ).contains_key(k) by {
        if groups_map(t).contains_key(k) {
            let a = choose|a: int| 0 <= a < t.len() && (#[trigger] t[a]).key@ == k;
            assert(s[a].key@ == k);
            lemma_at(s, a);
        }
        if groups_map(s).contains_key(k) {
            let a = choose|a: int| 0 <= a < s.len() && (#[trigger] s[a]).key@ == k;
            assert(t[a].key@ == k);
            lemma_at(t, a);
        }
    }
    assert forall|k: Shape| groups_map(s).contains_key(k) && k != g.key@ implies #[trigger]
    groups_map(t)[k] == groups_map(s)[k] by {
        let a = choose|a: int| 0 <= a < s.len() && (#[trigger] s[a]).key@ == k;
        assert(a != i);
        assert(t[a] == s[a]);
        lemma_at(s, a);
        lemma_at(t, a);
    }
    assert(groups_map(t) =~= groups_map(s).insert(g.key@, g@));
}

proof fn lemma_remove(s: Seq<UnknownGroup>, i: int)
    requires
        distinct(s),
        0 <= i < s.len(),
    ensures
        distinct(s.remove(i)),
        groups_map(s.remove(i)) == groups_map(s).remove(s[i].key@),
{
    let t = s.remove(i);
    assert(distinct(t)) by {
        assert forall|a: int, b: int| 0 <= a < b < t.len() implies (#[trigger] t[a]).key@ != (
        #[trigger] t[b]).key@ by {
            let a0 = if a < i {
                a
            } else {
                a + 1
            };
            let b0 = if b < i {
                b
            } else {
                b + 1
            };
            assert(t[a] == s[a0] && t[b] == s[b0]);
        }
    }
    assert forall|k: Shape| #[trigger] groups_map(t).contains_key(k) <==> groups_map(s).remove(
        s[i].key@,
    ).contains_key(k) by {
        if groups_map(t).contains_key(k) {
            let a = choose|a: int| 0 <= a < t.len() && (#[trigger] t[a]).key@ == k;
            let a0 = if a < i {
                a
            } else {
                a + 1
            };
            assert(t[a] == s[a0]);
            lemma_at(s, a0);
            assert(s[a0].key@ != s[i].key@);
        }
        if groups_map(s).remove(s[i].key@).contains_key(k) {
            let a = choose|a: int| 0 <= a < s.len() && (#[trigger] s[a]).key@ == k;
            let a1 = if a < i {
                a
            } else {
                a - 1
            };
            assert(t[a1] == s[a]);
            lemma_at(t, a1);
        }
    }
    assert forall|k: Shape| groups_map(t).contains_key(k) implies #[trigger] groups_map(t)[k]
        == groups_map(s)[k] by {
        let a = choose|a: int| 0 <= a < t.len() && (#[trigger] t[a]).key@ == k;
        let a0 = if a < i {
            a
        } else {
            a + 1
        };
        assert(t[a] == s[a0]);
        lemma_at(s, a0);
        lemma_at(t, a);
    }
    assert(groups_map(t) =~= groups_map(s).remove(s[i].key@));
}

/// The order of shapes is total and transitive.
pub proof fn shape_le_is_a_total_order(a: Shape, b: Shape, c: Shape)
    ensures
        shape_le(a, b) || shape_le(b, a),
        shape_le(a, b) && shape_le(b, c) ==> shape_le(a, c),
{
    let pa = vstd::utf8::encode_utf8(a.predecessor);
    let pb = vstd::utf8::encode_utf8(b.predecessor);
    let pc = vstd::utf8::encode_utf8(c.predecessor);
    vstd::utf8::encode_utf8_decode_utf8(a.predecessor);
    vstd::utf8::encode_utf8_decode_utf8(b.predecessor);
    vstd::utf8::encode_utf8_decode_utf8(c.predecessor);
    key::lex_le_is_a_total_order(pa, pb);
    key::lex_le_is_a_total_order(pb, pc);
    key::lex_le_is_a_total_order(pa, pc);
    let sa = route_rank(a.route).1;
    let sb = route_rank(b.route).1;
    let sc = route_rank(c.route).1;
    key::lex_le_is_a_total_order(sa, sb);
    key::lex_le_is_a_total_order(sb, sc);
    key::lex_le_is_a_total_order(sa, sc);
    if key::lex_le(pa, pb) && key::lex_le(pb, pc) {
        key::lex_le_is_transitive(pa, pb, pc);
    }
    if key::lex_le(sa, sb) && key::lex_le(sb, sc) {
        key::lex_le_is_transitive(sa, sb, sc);
    }
}

proof fn lemma_ahead(a: Group, b: Group, c: Group)
    ensures
        ahead(a, b) || ahead(b, a),
        ahead(a, b) && ahead(b, c) ==> ahead(a, c),
{
    shape_le_is_a_total_order(a.key, b.key, c.key);
}

proof fn lemma_one_coldest(groups: Map<Shape, Group>, k: Shape)
    requires
        is_coldest(groups, k),
    ensures
        coldest(groups) == k,
{
    let j = coldest(groups);
    assert(is_coldest(groups, j));
    if j != k {
        assert(groups.contains_key(j) && groups.contains_key(k));
        assert(colder(groups[k], groups[j]));
        assert(colder(groups[j], groups[k]));
    }
}

/// Where there are groups, one is the coldest.
proof fn lemma_some_coldest(r: Register)
    requires
        sound(r),
        r.groups.dom().len() > 0,
    ensures
        is_coldest(r.groups, coldest(r.groups)),
    decreases r.groups.dom().len(),
{
    let m = r.groups;
    let k = m.dom().choose();
    assert(m.contains_key(k));
    let rest = Register { groups: m.remove(k), next_seq: r.next_seq };
    assert(rest.groups.dom() =~= m.dom().remove(k));
    if rest.groups.dom().len() == 0 {
        assert forall|j: Shape| #[trigger] m.contains_key(j) && j != k implies colder(
            m[k],
            m[j],
        ) by {
            assert(rest.groups.dom().contains(j));
        }
        assert(is_coldest(m, k));
    } else {
        assert(sound(rest)) by {
            assert forall|a: Shape, b: Shape|
                #![trigger rest.groups.contains_key(a), rest.groups.contains_key(b)]
                rest.groups.contains_key(a) && rest.groups.contains_key(b) && a
                    != b implies rest.groups[a].seq != rest.groups[b].seq by {
                assert(m.contains_key(a) && m.contains_key(b));
            }
        }
        lemma_some_coldest(rest);
        let c = coldest(rest.groups);
        assert(m.contains_key(c));
        if colder(m[k], m[c]) {
            assert forall|j: Shape| #[trigger] m.contains_key(j) && j != k implies colder(
                m[k],
                m[j],
            ) by {
                assert(rest.groups.contains_key(j));
            }
            assert(is_coldest(m, k));
        } else {
            assert(m[k].seq != m[c].seq);
            assert forall|j: Shape| #[trigger] m.contains_key(j) && j != c implies colder(
                m[c],
                m[j],
            ) by {
                if j != k {
                    assert(rest.groups.contains_key(j));
                }
            }
            assert(is_coldest(m, c));
        }
    }
}

/// Trimming leaves at most `max` groups, unchanged, and none of them is colder
/// than one that went.
pub proof fn trimming_drops_the_coldest(r: Register, max: usize)
    requires
        sound(r),
    ensures
        ({
            let t = trimmed(r.groups, max);
            &&& t.dom().finite()
            &&& t.dom().len() <= max
            &&& r.groups.dom().len() <= max ==> t == r.groups
            &&& forall|k: Shape| #[trigger]
                t.contains_key(k) ==> r.groups.contains_key(k) && t[k] == r.groups[k]
            &&& forall|j: Shape, k: Shape|
                #![trigger r.groups.contains_key(j), t.contains_key(k)]
                r.groups.contains_key(j) && !t.contains_key(j) && t.contains_key(k) ==> colder(
                    r.groups[j],
                    r.groups[k],
                )
        }),
    decreases r.groups.dom().len(),
{
    let m = r.groups;
    if m.dom().len() > max {
        lemma_some_coldest(r);
        let c = coldest(m);
        let rest = Register { groups: m.remove(c), next_seq: r.next_seq };
        assert(rest.groups.dom() =~= m.dom().remove(c));
        assert(sound(rest)) by {
            assert forall|a: Shape, b: Shape|
                #![trigger rest.groups.contains_key(a), rest.groups.contains_key(b)]
                rest.groups.contains_key(a) && rest.groups.contains_key(b) && a
                    != b implies rest.groups[a].seq != rest.groups[b].seq by {
                assert(m.contains_key(a) && m.contains_key(b));
            }
        }
        trimming_drops_the_coldest(rest, max);
        let t = trimmed(m, max);
        assert(t == trimmed(rest.groups, max));
        assert forall|j: Shape, k: Shape|
            #![trigger m.contains_key(j), t.contains_key(k)]
            m.contains_key(j) && !t.contains_key(j) && t.contains_key(k) implies colder(
            m[j],
            m[k],
        ) by {
            assert(rest.groups.contains_key(k));
            if j != c {
                assert(rest.groups.contains_key(j));
            }
        }
    }
}

/// An occurrence keeps a register sound and within its bound, and changes no
/// group but its own.
pub proof fn ingesting_keeps_the_bound(r: Register, o: Occurrence, config: UnknownRegistryConfig)
    requires
        sound(r),
        has_room(r, o.bytes),
    ensures
        sound(ingested(r, o, config)),
        ingested(r, o, config).groups.dom().len() <= config.max_groups,
        forall|k: Shape| #[trigger]
            ingested(r, o, config).groups.contains_key(k) ==> ingested(r, o, config).groups[k]
                == if k == shape_of(o.diagnostics.context) {
                recorded(group_before(r, k, o.ts), o, config.samples_per_group)
            } else {
                r.groups[k]
            },
        forall|k: Shape| #[trigger]
            ingested(r, o, config).groups.contains_key(k) ==> r.groups.contains_key(k) || k
                == shape_of(o.diagnostics.context),
{
    let key = shape_of(o.diagnostics.context);
    let group = recorded(group_before(r, key, o.ts), o, config.samples_per_group);
    let wide = Register { groups: r.groups.insert(key, group), next_seq: (r.next_seq + 1) as u64 };
    lemma_widened(r, o, config);
    trimming_drops_the_coldest(wide, config.max_groups);
    let t = trimmed(wide.groups, config.max_groups);
    assert(sound(ingested(r, o, config))) by {
        assert forall|a: Shape, b: Shape|
            #![trigger t.contains_key(a), t.contains_key(b)]
            t.contains_key(a) && t.contains_key(b) && a != b implies t[a].seq != t[b].seq by {
            assert(wide.groups.contains_key(a) && wide.groups.contains_key(b));
        }
    }
}

/// What holds of a group after any number of occurrences: its sizes and times are
/// in order, its streams are distinct and within the cap, all of them as long as it
/// has not overflowed, and its samples are within the limit (at least one).
pub open spec fn bounded(g: Group, samples_per_group: usize) -> bool {
    &&& g.count > 0
    &&& g.bytes_min <= g.bytes_max <= g.bytes_total
    &&& g.first_seen <= g.last_seen
    &&& g.endpoints.no_duplicates()
    &&& g.endpoints.len() <= ACCUMULATE_SET_CAP
    &&& g.endpoints_overflow ==> g.endpoints.len() == ACCUMULATE_SET_CAP
    &&& 0 < g.samples.len() && (g.samples.len() <= samples_per_group || g.samples.len() == 1)
}

/// An occurrence leaves its group within its bounds: the latest sample is kept, and
/// no ranking is replaced by a worse one.
pub proof fn recording_stays_bounded(g: Group, o: Occurrence, samples_per_group: usize)
    requires
        g.count == 0 ==> g == new_group(g.key, o.ts, g.seq),
        g.count > 0 ==> bounded(g, samples_per_group),
        g.count < u64::MAX,
        g.bytes_total + o.bytes <= u64::MAX,
    ensures
        bounded(recorded(g, o, samples_per_group), samples_per_group),
        recorded(g, o, samples_per_group).samples.last() == o.diagnostics.sample,
        recorded(g, o, samples_per_group).near_misses == g.near_misses || as_good(
            recorded(g, o, samples_per_group).near_misses,
            g.near_misses,
        ),
{
    let seen = g.endpoints;
    if o.endpoint is Some && !seen.contains(o.endpoint->0) {
        let e = o.endpoint->0;
        assert forall|i: int, j: int|
            0 <= i < seen.push(e).len() && 0 <= j < seen.push(e).len() && i != j implies seen.push(
            e,
        )[i] != seen.push(e)[j] by {}
    }
}

impl UnknownRegistry {
    pub closed spec fn wf(&self) -> bool {
        &&& distinct(self.groups@)
        &&& sound(self@)
        &&& self@.groups.dom().len() == self.groups@.len()
    }

    /// Between calls the register is sound.
    pub proof fn is_sound(&self)
        requires
            self.wf(),
        ensures
            sound(self@),
    {
    }

    pub fn new() -> (r: UnknownRegistry)
        ensures
            r.wf(),
            r@ == empty_register(),
    {
        let r = UnknownRegistry { groups: Vec::new(), next_seq: 0 };
        assert(r@.groups =~= Map::empty());
        assert(r@.groups.dom() =~= Set::empty());
        r
    }

    /// The position of a shape's group, or the number of groups.
    fn position(&self, key: &UnknownKey) -> (r: usize)
        ensures
            r <= self.groups@.len(),
            r < self.groups@.len() ==> self.groups@[r as int].key@ == key@,
            r == self.groups@.len() ==> !self@.groups.contains_key(key@),
    {
        let n: usize = self.groups.len();
        let mut i: usize = 0;
        while i < n
            invariant
                n == self.groups@.len(),
                i <= n,
                forall|j: int| 0 <= j < i ==> (#[trigger] self.groups@[j]).key@ != key@,
            decreases n - i,
        {
            if self.groups[i].key.same(key) {
                return i;
            }
            i = i + 1;
        }
        n
    }

    /// Takes one occurrence in: updates its shape's group or starts one, then
    /// drops the coldest groups beyond the bound.
    pub fn ingest(
        &mut self,
        diag: &UnknownDiagnostics,
        bytes: u32,
        ts: Timestamp,
        endpoint: Option<EndpointKey>,
        config: UnknownRegistryConfig,
    )
        requires
            old(self).wf(),
            has_room(old(self)@, bytes),
        ensures
            final(self).wf(),
            final(self)@ == ingested(
                old(self)@,
                occurrence(diag@, bytes, ts, endpoint),
                config,
            ),
    {
        let ghost before = self@;
        let ghost o = occurrence(diag@, bytes, ts, endpoint);
        let key = UnknownKey::from(&diag.context);
        let ghost group = recorded(group_before(before, key@, ts), o, config.samples_per_group);
        let seq: u64 = self.next_seq;
        self.next_seq = self.next_seq + 1;
        let i: usize = self.position(&key);
        if i < self.groups.len() {
            let ghost s = self.groups@;
            proof {
                lemma_at(s, i as int);
            }
            self.groups[i].record(diag, bytes, ts, endpoint, config.samples_per_group);
            proof {
                lemma_update(s, i as int, self.groups@[i as int]);
                assert(self.groups@ =~= s.update(i as int, self.groups@[i as int]));
                assert(before.groups.insert(key@, group).dom() =~= before.groups.dom());
            }
        } else {
            let ghost s = self.groups@;
            let mut fresh = UnknownGroup::new(key, ts, seq);
            fresh.record(diag, bytes, ts, endpoint, config.samples_per_group);
            proof {
                lemma_push(s, fresh);
            }
            self.groups.push(fresh);
        }
        let ghost wide = Register {
            groups: before.groups.insert(key@, group),
            next_seq: self.next_seq,
        };
        assert(self@ =~= wide);
        proof {
            lemma_widened(before, o, config);
        }
        self.enforce_max_groups(config.max_groups);
    }

    /// While there are too many groups, drops the coldest.
    fn enforce_max_groups(&mut self, max_groups: usize)
        requires
            old(self).wf(),
        ensures
            final(self).wf(),
            final(self)@.groups == trimmed(old(self)@.groups, max_groups),
            final(self)@.next_seq == old(self)@.next_seq,
    {
        while self.groups.len() > max_groups
            invariant
                self.wf(),
                self@.next_seq == old(self)@.next_seq,
                trimmed(old(self)@.groups, max_groups) == trimmed(self@.groups, max_groups),
            decreases self.groups@.len(),
        {
            let n: usize = self.groups.len();
            let ghost m = self@.groups;
            let mut c: usize = 0;
            let mut i: usize = 1;
            while i < n
                invariant
                    self.wf(),
                    n == self.groups@.len(),
                    0 <= c < i <= n,
                    forall|j: int|
                        0 <= j < i && j != c ==> colder(
                            self.groups@[c as int]@,
                            #[trigger] self.groups@[j]@,
                        ),
                decreases n - i,
            {
                let a = &self.groups[i];
                let b = &self.groups[c];
                proof {
                    lemma_at(self.groups@, i as int);
                    lemma_at(self.groups@, c as int);
                    assert(self.groups@[c as int].key@ != self.groups@[i as int].key@);
                }
                if a.last_seen < b.last_seen || (a.last_seen == b.last_seen && a.seq < b.seq) {
                    c = i;
                }
                i = i + 1;
            }
            proof {
                let k = self.groups@[c as int].key@;
                lemma_at(self.groups@, c as int);
                assert forall|j: Shape| #[trigger] m.contains_key(j) && j != k implies colder(
                    m[k],
                    m[j],
                ) by {
                    let a = choose|a: int|
                        0 <= a < self.groups@.len() && (#[trigger] self.groups@[a]).key@ == j;
                    lemma_at(self.groups@, a);
                    assert(colder(self.groups@[c as int]@, self.groups@[a]@));
                }
                lemma_one_coldest(m, k);
                lemma_remove(self.groups@, c as int);
                assert(m.remove(k).dom() =~= m.dom().remove(k));
                lemma_sound_without(self@, k);
            }
            let ghost s = self.groups@;
            let _cold = self.groups.remove(c);
            assert(self.groups@ =~= s.remove(c as int));
        }
    }

    /// Every group, those seen most often first; of groups seen equally often
    /// the earlier shape first.
    pub fn groups(&self) -> (r: Vec<&UnknownGroup>)
        requires
            self.wf(),
        ensures
            reported(self@, Seq::new(r@.len(), |i: int| r@[i]@)),
    {
        let n: usize = self.groups.len();
        let mut out: Vec<&UnknownGroup> = Vec::new();
        let mut i: usize = 0;
        while i < n
            invariant
                self.wf(),
                n == self.groups@.len(),
                i <= n,
                out@.len() == i,
                forall|a: int|
                    0 <= a < out@.len() ==> exists|b: int| 0 <= b < i && #[trigger] out@[a]
                        == self.groups@[b],
                forall|a: int, b: int|
                    0 <= a < b < out@.len() ==> ahead((#[trigger] out@[a])@, (#[trigger] out@[b])@)
                        && out@[a]@.key != out@[b]@.key,
            decreases n - i,
        {
            let g = &self.groups[i];
            let mut p: usize = 0;
            while p < i && goes_ahead(out[p], g)
                invariant
                    i == out@.len(),
                    p <= i,
                    forall|a: int| 0 <= a < p ==> ahead((#[trigger] out@[a])@, g@),
                decreases i - p,
            {
                p = p + 1;
            }
            let ghost s = out@;
            out.insert(p, g);
            proof {
                assert forall|a: int| 0 <= a < s.len() implies (#[trigger] s[a])@.key != g@.key by {
                    let b = choose|b: int| 0 <= b < i && s[a] == self.groups@[b];
                    assert(self.groups@[b].key@ != self.groups@[i as int].key@);
                }
                assert forall|a: int| p <= a < s.len() implies ahead(g@, (#[trigger] s[a])@) by {
                    lemma_ahead(g@, s[p as int]@, s[a]@);
                    lemma_ahead(s[p as int]@, g@, g@);
                    if a > p {
                        assert(ahead(s[p as int]@, s[a]@));
                    }
                }
                assert forall|a: int, b: int| 0 <= a < b < out@.len() implies ahead(
                    (#[trigger] out@[a])@,
                    (#[trigger] out@[b])@,
                ) && out@[a]@.key != out@[b]@.key by {
                    let a0 = if a < p {
                        a
                    } else {
                        a - 1
                    };
                    let b0 = if b < p {
                        b
                    } else {
                        b - 1
                    };
                    if a != p && b != p {
                        assert(out@[a] == s[a0] && out@[b] == s[b0]);
                    } else if a == p {
                        assert(out@[b] == s[b0]);
                    } else {
                        assert(out@[a] == s[a0]);
                    }
                }
                assert forall|a: int| 0 <= a < out@.len() implies exists|b: int|
                    0 <= b < i + 1 && #[trigger] out@[a] == self.groups@[b] by {
                    if a == p {
                        assert(out@[a] == self.groups@[i as int]);
                    } else {
                        let a0 = if a < p {
                            a
                        } else {
                            a - 1
                        };
                        assert(out@[a] == s[a0]);
                        let b = choose|b: int| 0 <= b < i && s[a0] == self.groups@[b];
                        assert(out@[a] == self.groups@[b]);
                    }
                }
            }
            i = i + 1;
        }
        proof {
            assert forall|a: int| 0 <= a < out@.len() implies self@.groups.contains_key(
                (#[trigger] out@[a])@.key,
            ) && self@.groups[out@[a]@.key] == out@[a]@ by {
                let b = choose|b: int| 0 <= b < n && out@[a] == self.groups@[b];
                lemma_at(self.groups@, b);
            }
            let list = Seq::new(out@.len(), |i: int| out@[i]@);
            lemma_all_listed(self@, list);
        }
        out
    }

    /// One shape's group.
    pub fn group(&self, key: &UnknownKey) -> (r: Option<&UnknownGroup>)
        requires
            self.wf(),
        ensures
            match r {
                Some(g) => self@.groups.contains_key(key@) && g@ == self@.groups[key@],
                None => !self@.groups.contains_key(key@),
            },
    {
        let i: usize = self.position(key);
        if i < self.groups.len() {
            proof {
                lemma_at(self.groups@, i as int);
            }
            Some(&self.groups[i])
        } else {
            None
        }
    }
}

fn goes_ahead(a: &UnknownGroup, b: &UnknownGroup) -> (r: bool)
    ensures
        r == ahead(a@, b@),
{
    a.count > b.count || (a.count == b.count && a.key.at_most(&b.key))
}

proof fn lemma_sound_without(r: Register, k: Shape)
    requires
        sound(r),
    ensures
        sound(Register { groups: r.groups.remove(k), next_seq: r.next_seq }),
{
    let rest = r.groups.remove(k);
    assert(rest.dom() =~= r.groups.dom().remove(k));
    assert forall|a: Shape, b: Shape|
        #![trigger rest.contains_key(a), rest.contains_key(b)]
        rest.contains_key(a) && rest.contains_key(b) && a != b implies rest[a].seq
        != rest[b].seq by {
        assert(r.groups.contains_key(a) && r.groups.contains_key(b));
    }
}

/// A list of as many different groups as there are lists every one.
proof fn lemma_all_listed(r: Register, list: Seq<Group>)
    requires
        r.groups.dom().finite(),
        list.len() == r.groups.dom().len(),
        forall|i: int| 0 <= i < list.len() ==> r.groups.contains_key((#[trigger] list[i]).key),
        forall|i: int, j: int|
            0 <= i < j < list.len() ==> (#[trigger] list[i]).key != (#[trigger] list[j]).key,
    ensures
        forall|k: Shape| #[trigger]
            r.groups.contains_key(k) ==> exists|i: int|
                0 <= i < list.len() && (#[trigger] list[i]).key == k,
{
    let keys = Seq::new(list.len(), |i: int| list[i].key);
    assert(keys.no_duplicates());
    keys.unique_seq_to_set();
    assert(keys.to_set().subset_of(r.groups.dom()));
    vstd::set_lib::lemma_subset_equality(keys.to_set(), r.groups.dom());
    assert forall|k: Shape| #[trigger] r.groups.contains_key(k) implies exists|i: int|
        0 <= i < list.len() && (#[trigger] list[i]).key == k by {
        assert(keys.to_set().contains(k));
        let i = choose|i: int| 0 <= i < keys.len() && keys[i] == k;
        assert(list[i].key == k);
    }
}

/// The register before trimming is sound too.
proof fn lemma_widened(r: Register, o: Occurrence, config: UnknownRegistryConfig)
    requires
        sound(r),
        has_room(r, o.bytes),
    ensures
        ({
            let key = shape_of(o.diagnostics.context);
            let group = recorded(group_before(r, key, o.ts), o, config.samples_per_group);
            &&& sound(
                Register { groups: r.groups.insert(key, group), next_seq: (r.next_seq + 1) as u64 },
            )
            &&& r.groups.insert(key, group).dom().len() == r.groups.dom().len() + (
            if r.groups.contains_key(key) {
                0int
            } else {
                1int
            })
        }),
{
    let key = shape_of(o.diagnostics.context);
    let group = recorded(group_before(r, key, o.ts), o, config.samples_per_group);
    let wide = Register { groups: r.groups.insert(key, group), next_seq: (r.next_seq + 1) as u64 };
    assert(wide.groups.dom() =~= r.groups.dom().insert(key));
    assert forall|a: Shape, b: Shape|
        #![trigger wide.groups.contains_key(a), wide.groups.contains_key(b)]
        wide.groups.contains_key(a) && wide.groups.contains_key(b) && a
            != b implies wide.groups[a].seq != wide.groups[b].seq by {
        assert(a == key || r.groups.contains_key(a));
        assert(b == key || r.groups.contains_key(b));
    }
    assert forall|k: Shape| #[trigger] wide.groups.contains_key(k) implies wide.groups[k].key == k
        && wide.groups[k].count <= wide.next_seq && wide.groups[k].seq < wide.next_seq by {
        assert(k == key || r.groups.contains_key(k));
    }
}

} // verus!
