//! How a protocol turns its layers into conversations: key fields, the
//! canonical flow key, the session state machine and the retained metadata.
use vstd::prelude::*;

use crate::value::{FieldMap, FieldName, Fields};

verus! {

/// The name of a session state.
pub type StateName = &'static str;

/// Which canonical endpoint sent a packet.
#[derive(Clone, Copy, PartialEq, Eq, Debug, Structural)]
pub enum PacketDirection {
    AtoB,
    BtoA,
}

impl PacketDirection {
    pub open spec fn flipped(self) -> PacketDirection {
        match self {
            PacketDirection::AtoB => PacketDirection::BtoA,
            PacketDirection::BtoA => PacketDirection::AtoB,
        }
    }
}

/// The canonical, direction-free identity of a conversation.
#[derive(PartialEq, Eq, Debug)]
pub struct FlowKey {
    bytes: Vec<u8>,
}

impl View for FlowKey {
    type V = Seq<u8>;

    closed spec fn view(&self) -> Seq<u8> {
        self.bytes@
    }
}

impl FlowKey {
    pub fn from_bytes(bytes: &[u8]) -> (r: FlowKey)
        ensures
            r@ == bytes@,
    {
        FlowKey { bytes: vstd::slice::slice_to_vec(bytes) }
    }

    pub fn as_bytes(&self) -> (r: &[u8])
        ensures
            r@ == self@,
    {
        self.bytes.as_slice()
    }

    /// Whether two keys are the same conversation's.
    pub fn same(&self, other: &FlowKey) -> (r: bool)
        ensures
            r == (self@ == other@),
    {
        crate::text::bytes_eq(self.bytes.as_slice(), other.bytes.as_slice())
    }
}

impl Clone for FlowKey {
    fn clone(&self) -> (r: FlowKey)
        ensures
            r@ == self@,
    {
        FlowKey::from_bytes(self.bytes.as_slice())
    }
}

/// Why no flow key could be built.
#[derive(Clone, Copy, PartialEq, Eq, Debug)]
pub enum KeyError {
    /// A key field is absent from the layer.
    MissingField(FieldName),
}

/// One component of a protocol's key: a pair of endpoint fields (`b` present)
/// or a qualifier that both directions share.
#[derive(Clone, Copy, PartialEq, Eq, Debug)]
pub struct KeyField {
    pub a: FieldName,
    pub b: Option<FieldName>,
}

/// A protocol's own rule for building its flow key. The rule is a function of
/// the fields alone.
pub trait KeyRule: Send + Sync {
    closed spec fn spec_key(&self, fields: Fields) -> Result<(Seq<u8>, PacketDirection), KeyError> {
        arbitrary()
    }

    fn key(&self, fields: &FieldMap) -> (r: Result<(FlowKey, PacketDirection), KeyError>)
        ensures
            key_outcome(r) == self.spec_key(fields@),
    ;
}

/// A key result over the key's content.
pub open spec fn key_outcome(r: Result<(FlowKey, PacketDirection), KeyError>) -> Result<
    (Seq<u8>, PacketDirection),
    KeyError,
> {
    match r {
        Ok((k, d)) => Ok((k@, d)),
        Err(e) => Err(e),
    }
}

/// How the key fields become one canonical key.
#[derive(Clone, Copy)]
pub enum Canonicalize {
    /// The smaller endpoint encoding comes first.
    EndpointSort,
    /// The protocol's own rule.
    Custom(&'static dyn KeyRule),
}

/// A protocol's session state machine: a pure transition function of the
/// packet's fields, the current state and the packet's direction.
pub trait Lifecycle: Send + Sync {
    closed spec fn spec_advance(
        &self,
        fields: Fields,
        state: Seq<char>,
        dir: PacketDirection,
    ) -> Seq<char> {
        arbitrary()
    }

    fn advance(&self, fields: &FieldMap, state: StateName, dir: PacketDirection) -> (r: StateName)
        ensures
            r@ == self.spec_advance(fields@, state@, dir),
    ;
}

/// The lifecycle a protocol declares for its sessions.
#[derive(Clone, Copy)]
pub struct LifecycleSpec {
    pub initial: StateName,
    pub machine: &'static dyn Lifecycle,
    /// States in which the session is over.
    pub closed_states: &'static [StateName],
}

/// How a nominated field is retained over a stream's lifetime.
#[derive(Clone, Copy, PartialEq, Eq, Debug, Structural)]
pub enum RollupKind {
    Accumulate,
    Sample,
    /// A bounded time series; a cap of zero asks for the configured default.
    Series { cap: usize },
}

/// One nominated field.
#[derive(Clone, Copy, PartialEq, Eq, Debug)]
pub struct RollupSpec {
    pub field: FieldName,
    pub kind: RollupKind,
}

/// What makes a protocol's layers into streams.
#[derive(Clone, Copy)]
pub struct StreamIdentity {
    pub key: &'static [KeyField],
    pub canonicalize: Canonicalize,
    pub lifecycle: Option<LifecycleSpec>,
    pub rollups: &'static [RollupSpec],
}

/// How the key fields become one canonical key: in the order of the endpoints,
/// or by a rule over the fields.
pub ghost enum KeyPolicy {
    EndpointSort,
    Custom(spec_fn(Fields) -> Result<(Seq<u8>, PacketDirection), KeyError>),
}

/// The content of a [`LifecycleSpec`].
pub ghost struct SessionRules {
    pub initial: Seq<char>,
    pub machine: spec_fn(Fields, Seq<char>, PacketDirection) -> Seq<char>,
    pub closed_states: Seq<Seq<char>>,
}

/// The content of a [`StreamIdentity`].
#[verifier::ext_equal]
pub ghost struct Identity {
    pub key: Seq<KeyField>,
    pub policy: KeyPolicy,
    pub lifecycle: Option<SessionRules>,
    pub rollups: Seq<RollupSpec>,
}

impl View for Canonicalize {
    type V = KeyPolicy;

    open spec fn view(&self) -> KeyPolicy {
        match *self {
            Canonicalize::EndpointSort => KeyPolicy::EndpointSort,
            Canonicalize::Custom(rule) => KeyPolicy::Custom(|f: Fields| rule.spec_key(f)),
        }
    }
}

impl View for LifecycleSpec {
    type V = SessionRules;

    open spec fn view(&self) -> SessionRules {
        let machine = self.machine;
        SessionRules {
            initial: self.initial@,
            machine: |f: Fields, s: Seq<char>, d: PacketDirection| machine.spec_advance(f, s, d),
            closed_states: Seq::new(self.closed_states@.len(), |i: int| self.closed_states@[i]@),
        }
    }
}

/// An optional lifecycle's content.
pub open spec fn lifecycle_view(l: Option<LifecycleSpec>) -> Option<SessionRules> {
    match l {
        Some(l) => Some(l@),
        None => None,
    }
}

impl View for StreamIdentity {
    type V = Identity;

    open spec fn view(&self) -> Identity {
        Identity {
            key: self.key@,
            policy: self.canonicalize@,
            lifecycle: lifecycle_view(self.lifecycle),
            rollups: self.rollups@,
        }
    }
}

/// An optional identity's content.
pub open spec fn identity_view(i: Option<StreamIdentity>) -> Option<Identity> {
    match i {
        Some(i) => Some(i@),
        None => None,
    }
}

/// The identity of a conversation without a session state machine, its
/// endpoints in canonical order.
pub open spec fn conversation_of(key: Seq<KeyField>, rollups: Seq<RollupSpec>) -> Option<Identity> {
    Some(Identity { key, policy: KeyPolicy::EndpointSort, lifecycle: None, rollups })
}

/// Declares such an identity.
pub fn conversation(key: &'static [KeyField], rollups: &'static [RollupSpec]) -> (r: Option<
    StreamIdentity,
>)
    ensures
        identity_view(r) == conversation_of(key@, rollups@),
{
    Some(
        StreamIdentity { key, canonicalize: Canonicalize::EndpointSort, lifecycle: None, rollups },
    )
}

/// The endpoint pair that varies between the flows of one fan-out.
#[derive(Clone, Copy, PartialEq, Eq, Debug)]
pub struct CondenseSpec {
    pub ephemeral: KeyField,
}

} // verus!
