//! The dissection contract: what a protocol plugin is given, what it answers
//! and how the next layer is found.
use vstd::prelude::*;

use crate::bytes::ParseError;
use crate::identity::{self, CondenseSpec, Identity, StreamIdentity};
use crate::text::str_eq;
use crate::value::{FieldMap, Fields, ProtocolName, Value};

verus! {

/// A point in packet time: nanoseconds since the Unix epoch.
pub type Timestamp = i128;

/// A length of packet time, in nanoseconds.
pub type Duration = u128;

/// Beyond every time and length of time that a system clock can tell: 2^96
/// nanoseconds are more than two thousand billion years.
pub const TIME_LIMIT: i128 = 0x1_0000_0000_0000_0000_0000_0000;

/// Whether a clock can tell this time.
pub open spec fn in_time(t: Timestamp) -> bool {
    -TIME_LIMIT <= t <= TIME_LIMIT
}

/// How much of each header a caller wants extracted.
#[derive(Clone, Copy, PartialEq, Eq, Debug, Structural)]
pub enum Depth {
    Nothing,
    Keys,
    Structure,
    Full,
}

impl Depth {
    pub open spec fn rank(self) -> int {
        match self {
            Depth::Nothing => 0,
            Depth::Keys => 1,
            Depth::Structure => 2,
            Depth::Full => 3,
        }
    }

    fn level(self) -> (n: u8)
        ensures
            n == self.rank(),
    {
        match self {
            Depth::Nothing => 0,
            Depth::Keys => 1,
            Depth::Structure => 2,
            Depth::Full => 3,
        }
    }

    /// Whether `self` asks for at least what `floor` asks for.
    pub fn at_least(self, floor: Depth) -> (r: bool)
        ensures
            r == (self.rank() >= floor.rank()),
    {
        self.level() >= floor.level()
    }
}

/// A capture's link-layer header type.
#[derive(Clone, Copy, PartialEq, Eq, Debug, Structural)]
pub struct LinkType(pub u32);

/// Where a packet came from and how long it was on the wire.
#[derive(Clone, Copy, PartialEq, Eq, Debug, Structural)]
pub struct PacketMeta {
    pub timestamp: Timestamp,
    pub caplen: usize,
    pub origlen: usize,
    pub link_type: LinkType,
}

/// The name of a next protocol, in the name space of the header that gave it.
#[derive(Clone, Copy, PartialEq, Eq, PartialOrd, Ord, Hash, Debug)]
pub enum RouteId {
    LinkType(u32),
    EtherType(u16),
    IpProtocol(u8),
    TcpPort(u16),
    UdpPort(u16),
    Custom { space: &'static str, id: u64 },
}

/// The content of a [`RouteId`].
#[verifier::ext_equal]
pub enum RouteView {
    LinkType(u32),
    EtherType(u16),
    IpProtocol(u8),
    TcpPort(u16),
    UdpPort(u16),
    Custom { space: Seq<char>, id: u64 },
}

impl View for RouteId {
    type V = RouteView;

    open spec fn view(&self) -> RouteView {
        match *self {
            RouteId::LinkType(n) => RouteView::LinkType(n),
            RouteId::EtherType(n) => RouteView::EtherType(n),
            RouteId::IpProtocol(n) => RouteView::IpProtocol(n),
            RouteId::TcpPort(n) => RouteView::TcpPort(n),
            RouteId::UdpPort(n) => RouteView::UdpPort(n),
            RouteId::Custom { space, id } => RouteView::Custom { space: space@, id },
        }
    }
}

impl RouteId {
    /// Whether two routes are the same.
    pub fn same(&self, other: &RouteId) -> (r: bool)
        ensures
            r == (self@ == other@),
    {
        match (self, other) {
            (RouteId::LinkType(a), RouteId::LinkType(b)) => *a == *b,
            (RouteId::EtherType(a), RouteId::EtherType(b)) => *a == *b,
            (RouteId::IpProtocol(a), RouteId::IpProtocol(b)) => *a == *b,
            (RouteId::TcpPort(a), RouteId::TcpPort(b)) => *a == *b,
            (RouteId::UdpPort(a), RouteId::UdpPort(b)) => *a == *b,
            (
                RouteId::Custom { space: s, id: a },
                RouteId::Custom { space: t, id: b },
            ) => *a == *b && str_eq(*s, *t),
            _ => false,
        }
    }
}

/// What a layer says of the bytes that follow it.
#[derive(Clone, Copy, PartialEq, Eq, Debug)]
pub enum Hint {
    /// The header names the next protocol.
    Route(RouteId),
    /// The next protocol is this one.
    ByProtocol(ProtocolName),
    /// Nothing dissectable follows.
    Terminal,
    /// Something follows, and the header does not say what.
    Unknown,
}

/// A probe's score.
#[derive(Clone, Copy, PartialEq, Eq, PartialOrd, Ord, Hash, Debug, Structural)]
pub struct Confidence {
    score: u8,
}

impl Confidence {
    pub closed spec fn value(self) -> u8 {
        self.score
    }

    pub fn new(score: u8) -> (r: Confidence)
        ensures
            r.value() == score,
    {
        Confidence { score }
    }

    pub fn get(self) -> (r: u8)
        ensures
            r == self.value(),
    {
        self.score
    }
}

/// One layer of a dissected packet.
#[derive(PartialEq, Eq, Debug)]
pub struct LayerRecord {
    pub protocol: ProtocolName,
    pub offset: usize,
    pub header_len: usize,
    pub fields: FieldMap,
}

/// What the aggregator and later plugins read of a [`LayerRecord`].
pub struct LayerView {
    pub protocol: Seq<char>,
    pub fields: Fields,
}

impl View for LayerRecord {
    type V = LayerView;

    open spec fn view(&self) -> LayerView {
        LayerView { protocol: self.protocol@, fields: self.fields@ }
    }
}

/// What a plugin is told besides its bytes: the layers outside it, the wanted
/// depth and the packet's capture metadata.
pub struct ParseCtx<'a> {
    outer: &'a [LayerRecord],
    depth: Depth,
    meta: &'a PacketMeta,
}

/// The content of a [`ParseCtx`].
pub struct Context {
    pub outer: Seq<LayerView>,
    pub depth: Depth,
    pub meta: PacketMeta,
}

impl<'a> View for ParseCtx<'a> {
    type V = Context;

    closed spec fn view(&self) -> Context {
        Context {
            outer: Seq::new(self.outer@.len(), |i: int| self.outer@[i]@),
            depth: self.depth,
            meta: *self.meta,
        }
    }
}

impl Context {
    pub open spec fn keys(self) -> bool {
        self.depth.rank() >= Depth::Keys.rank()
    }

    pub open spec fn structural(self) -> bool {
        self.depth.rank() >= Depth::Structure.rank()
    }

    pub open spec fn full(self) -> bool {
        self.depth.rank() >= Depth::Full.rank()
    }

    /// Whether the layer just outside is `name`'s.
    pub open spec fn follows(self, name: Seq<char>) -> bool {
        self.outer.len() > 0 && self.outer.last().protocol == name
    }

    /// The innermost outer layer of `protocol`, as an index; negative if there
    /// is none.
    pub open spec fn innermost(self, protocol: Seq<char>) -> int {
        last_of(self.outer, protocol, self.outer.len() as int)
    }

    /// The content of `field` in the innermost outer layer of `protocol`.
    pub open spec fn field(self, protocol: Seq<char>, field: Seq<char>) -> Option<
        crate::value::ValueView,
    > {
        let i = self.innermost(protocol);
        if i >= 0 && self.outer[i].fields.contains_key(field) {
            Some(self.outer[i].fields[field])
        } else {
            None
        }
    }
}

/// The last index below `n` at which `protocol`'s layer stands, or -1.
pub open spec fn last_of(layers: Seq<LayerView>, protocol: Seq<char>, n: int) -> int
    decreases n,
{
    if n <= 0 {
        -1
    } else if layers[n - 1].protocol == protocol {
        n - 1
    } else {
        last_of(layers, protocol, n - 1)
    }
}

impl<'a> ParseCtx<'a> {
    pub fn new(outer: &'a [LayerRecord], depth: Depth, meta: &'a PacketMeta) -> (r: ParseCtx<'a>)
        ensures
            r@.outer == Seq::new(outer@.len(), |i: int| outer@[i]@),
            r@.depth == depth,
            r@.meta == *meta,
    {
        ParseCtx { outer, depth, meta }
    }

    pub fn depth(&self) -> (r: Depth)
        ensures
            r == self@.depth,
    {
        self.depth
    }

    /// Key fields are wanted.
    pub fn keys(&self) -> (r: bool)
        ensures
            r == self@.keys(),
    {
        self.depth.at_least(Depth::Keys)
    }

    /// The header's structure is wanted.
    pub fn structural(&self) -> (r: bool)
        ensures
            r == self@.structural(),
    {
        self.depth.at_least(Depth::Structure)
    }

    /// Everything is wanted.
    pub fn full(&self) -> (r: bool)
        ensures
            r == self@.full(),
    {
        self.depth.at_least(Depth::Full)
    }

    /// The layer just outside, if there is one.
    pub fn prev(&self) -> (r: Option<&LayerRecord>)
        ensures
            r is Some <==> self@.outer.len() > 0,
            r matches Some(l) ==> l@ == self@.outer.last(),
    {
        let n: usize = self.outer.len();
        if n == 0 {
            None
        } else {
            Some(&self.outer[n - 1])
        }
    }

    /// Whether the layer just outside is `name`'s.
    pub fn follows(&self, name: &str) -> (r: bool)
        ensures
            r == self@.follows(name@),
    {
        match self.prev() {
            Some(l) => str_eq(l.protocol, name),
            None => false,
        }
    }

    /// `field` of the innermost outer layer of `protocol`.
    pub fn field(&self, protocol: &str, field: &str) -> (r: Option<&Value>)
        ensures
            match r {
                Some(v) => self@.field(protocol@, field@) == Some(v@),
                None => self@.field(protocol@, field@) is None,
            },
    {
        let mut i: usize = self.outer.len();
        while i > 0
            invariant
                i <= self.outer@.len(),
                self@.outer.len() == self.outer@.len(),
                last_of(self@.outer, protocol@, self@.outer.len() as int) == last_of(
                    self@.outer,
                    protocol@,
                    i as int,
                ),
            decreases i,
        {
            i = i - 1;
            assert(self@.outer[i as int] == self.outer@[i as int]@);
            if str_eq(self.outer[i].protocol, protocol) {
                return self.outer[i].fields.get(field);
            }
        }
        None
    }
}

/// What a plugin made of its bytes.
#[derive(PartialEq, Eq, Debug)]
pub struct ParsedLayer {
    /// Bytes that belong to this layer's header.
    pub header_len: usize,
    pub fields: FieldMap,
    pub hint: Hint,
}

/// The content of a [`ParsedLayer`].
pub struct Parsed {
    pub header_len: int,
    pub fields: Fields,
    pub hint: Hint,
}

impl View for ParsedLayer {
    type V = Parsed;

    open spec fn view(&self) -> Parsed {
        Parsed { header_len: self.header_len as int, fields: self.fields@, hint: self.hint }
    }
}

/// A parse result over the layer's content.
pub open spec fn outcome(r: Result<ParsedLayer, ParseError>) -> Result<Parsed, ParseError> {
    match r {
        Ok(p) => Ok(p@),
        Err(e) => Err(e),
    }
}

/// One protocol. The engine holds no protocol knowledge: how a protocol is
/// routed to, how its header reads and which conversations it forms are all
/// its plugin's.
pub trait LayerPlugin: Send + Sync {
    /// The header that `bytes` begin with, as a function of the bytes and the
    /// context.
    closed spec fn spec_parse(&self, bytes: Seq<u8>, ctx: Context) -> Result<Parsed, ParseError> {
        arbitrary()
    }

    closed spec fn spec_name(&self) -> Seq<char> {
        arbitrary()
    }

    closed spec fn spec_claims(&self) -> Seq<RouteId> {
        arbitrary()
    }

    closed spec fn spec_identity(&self) -> Option<Identity> {
        arbitrary()
    }

    closed spec fn spec_condense(&self) -> Option<CondenseSpec> {
        arbitrary()
    }

    closed spec fn spec_has_probe(&self) -> bool {
        arbitrary()
    }

    closed spec fn spec_probe(&self, bytes: Seq<u8>, ctx: Context) -> Option<u8> {
        arbitrary()
    }

    closed spec fn spec_predecessors(&self) -> Seq<ProtocolName> {
        arbitrary()
    }

    /// The protocol's name.
    fn name(&self) -> (r: ProtocolName)
        ensures
            r@ == self.spec_name(),
    ;

    /// Parses the header at the start of `bytes`.
    fn parse(&self, bytes: &[u8], ctx: &ParseCtx) -> (r: Result<ParsedLayer, ParseError>)
        ensures
            outcome(r) == self.spec_parse(bytes@, ctx@),
    ;

    /// The routes that lead here.
    fn claims(&self) -> (r: &'static [RouteId])
        ensures
            r@ == self.spec_claims(),
    ;

    /// What makes this protocol's layers into streams, if anything does.
    fn stream_identity(&self) -> (r: Option<StreamIdentity>)
        ensures
            identity::identity_view(r) == self.spec_identity(),
    ;

    /// The endpoint pair that may be condensed under a large fan-out.
    fn condense(&self) -> (r: Option<CondenseSpec>)
        ensures
            r == self.spec_condense(),
    ;

    /// Whether the protocol can also be recognised by its bytes alone.
    fn has_probe(&self) -> (r: bool)
        ensures
            r == self.spec_has_probe(),
    ;

    /// How sure the plugin is that `bytes` are its own, if at all.
    fn probe(&self, bytes: &[u8], ctx: &ParseCtx) -> (r: Option<Confidence>)
        ensures
            score_of(r) == self.spec_probe(bytes@, ctx@),
    ;

    /// The protocols that a probe is expected to be tried after.
    fn expected_predecessors(&self) -> (r: &'static [ProtocolName])
        ensures
            r@ == self.spec_predecessors(),
    ;
}

/// The score in a probe's answer.
pub open spec fn score_of(c: Option<Confidence>) -> Option<u8> {
    match c {
        Some(c) => Some(c.value()),
        None => None,
    }
}

/// A field is asked of the innermost layer of its protocol, and of no other.
pub proof fn the_innermost_layer_answers(
    ctx: Context,
    protocol: Seq<char>,
    field: Seq<char>,
    i: int,
)
    requires
        0 <= i < ctx.outer.len(),
        ctx.outer[i].protocol == protocol,
        forall|j: int| i < j < ctx.outer.len() ==> (#[trigger] ctx.outer[j]).protocol != protocol,
    ensures
        ctx.field(protocol, field) == if ctx.outer[i].fields.contains_key(field) {
            Some(ctx.outer[i].fields[field])
        } else {
            None
        },
{
    lemma_last_of(ctx.outer, protocol, i, ctx.outer.len() as int);
}

/// Where there is no layer of a protocol, there is no field of it.
pub proof fn absent_layers_do_not_answer(ctx: Context, protocol: Seq<char>, field: Seq<char>)
    requires
        forall|j: int| 0 <= j < ctx.outer.len() ==> (#[trigger] ctx.outer[j]).protocol != protocol,
    ensures
        ctx.field(protocol, field) is None,
{
    lemma_last_of(ctx.outer, protocol, -1, ctx.outer.len() as int);
}

proof fn lemma_last_of(layers: Seq<LayerView>, protocol: Seq<char>, i: int, n: int)
    requires
        -1 <= i,
        0 <= n <= layers.len(),
        i >= 0 ==> i < n && layers[i].protocol == protocol,
        forall|j: int| i < j < n ==> (#[trigger] layers[j]).protocol != protocol,
    ensures
        last_of(layers, protocol, n) == i,
    decreases n,
{
    if n > 0 && n - 1 > i {
        assert(layers[n - 1].protocol != protocol);
        lemma_last_of(layers, protocol, i, n - 1);
    }
}

/// Each depth asks for what the shallower ones ask for, and for more.
pub proof fn depths_build_on_each_other(ctx: Context)
    ensures
        ctx.full() <==> ctx.depth is Full,
        ctx.structural() <==> ctx.depth is Full || ctx.depth is Structure,
        ctx.keys() <==> ctx.depth is Full || ctx.depth is Structure || ctx.depth is Keys,
{
}

} // verus!
