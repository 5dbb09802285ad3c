//! Groups of flows that share an anchor.
use vstd::prelude::*;

use crate::flows::index;
use crate::flows::key;
use crate::flows::state::{self, Candidate, Group, GroupKey};
use crate::flows::stream::StreamId;
use crate::flows::table::{Table, TableKey};
use crate::identity::{CondenseSpec, KeyField, PacketDirection, StreamIdentity};
use crate::text::{bytes_eq, str_eq};
use crate::value::{FieldMap, FieldName, ProtocolName, Value};

verus! {

/// What a group of flows has in common.
pub struct GroupId {
    pub parent: Option<StreamId>,
    pub protocol: ProtocolName,
    pub anchor: Vec<u8>,
}

impl View for GroupId {
    type V = GroupKey;

    open spec fn view(&self) -> GroupKey {
        state::group_key(self.parent, self.protocol@, self.anchor@)
    }
}

pub(crate) fn same_parent(a: Option<StreamId>, b: Option<StreamId>) -> (r: bool)
    ensures
        r == (a == b),
{
    match (a, b) {
        (Some(x), Some(y)) => x.index == y.index && x.generation == y.generation,
        (None, None) => true,
        _ => false,
    }
}

impl TableKey for GroupId {
    open spec fn spec_digest(content: GroupKey) -> u64 {
        index::digest(content.parent, content.protocol, content.anchor)
    }

    fn digest(&self) -> (d: u64) {
        index::digest_of(self.parent, self.protocol, self.anchor.as_slice())
    }

    fn same(&self, other: &GroupId) -> (r: bool) {
        same_parent(self.parent, other.parent) && str_eq(self.protocol, other.protocol)
            && bytes_eq(self.anchor.as_slice(), other.anchor.as_slice())
    }
}

/// The encoding of a flow's varying side.
pub struct Member {
    pub bytes: Vec<u8>,
}

impl View for Member {
    type V = Seq<u8>;

    open spec fn view(&self) -> Seq<u8> {
        self.bytes@
    }
}

impl TableKey for Member {
    open spec fn spec_digest(content: Seq<u8>) -> u64 {
        index::digest(None, ""@, content)
    }

    fn digest(&self) -> (d: u64) {
        index::digest_of(None, "", self.bytes.as_slice())
    }

    fn same(&self, other: &Member) -> (r: bool) {
        bytes_eq(self.bytes.as_slice(), other.bytes.as_slice())
    }
}

/// The flows of one anchor.
pub struct CondenseGroup {
    pub expanded: u64,
    pub node: Option<StreamId>,
    pub members: Table<Member, ()>,
    /// The number of members.
    pub member_count: usize,
}

impl View for CondenseGroup {
    type V = Group;

    open spec fn view(&self) -> Group {
        Group { expanded: self.expanded, node: self.node, members: self.members@.dom() }
    }
}

impl CondenseGroup {
    pub open spec fn wf(&self) -> bool {
        &&& self.members.wf()
        &&& self@.members.finite()
        &&& self@.members.len() == self.member_count
    }

    pub fn new() -> (r: CondenseGroup)
        ensures
            r.wf(),
            r@ == (Group { expanded: 0, node: None, members: Set::empty() }),
    {
        let members: Table<Member, ()> = Table::new();
        assert(members@.dom() =~= Set::empty());
        CondenseGroup { expanded: 0, node: None, members, member_count: 0 }
    }
}

/// One side of a flow as the anchor of a group.
pub struct CondenseCandidate {
    pub anchor: Vec<u8>,
    pub anchor_field: FieldName,
    pub anchor_value: Value,
    pub varying: Vec<u8>,
    pub fold_dir: PacketDirection,
}

impl View for CondenseCandidate {
    type V = Candidate;

    open spec fn view(&self) -> Candidate {
        Candidate {
            anchor: self.anchor@,
            field: self.anchor_field@,
            value: self.anchor_value@,
            varying: self.varying@,
            dir: self.fold_dir,
        }
    }
}

pub open spec fn candidates_view(s: Seq<CondenseCandidate>) -> Seq<Candidate> {
    Seq::new(s.len(), |i: int| s[i]@)
}

fn names_the_same(a: &KeyField, b: &KeyField) -> (r: bool)
    ensures
        r == state::same_component(*a, *b),
{
    if !str_eq(a.a, b.a) {
        return false;
    }
    match (a.b, b.b) {
        (Some(x), Some(y)) => str_eq(x, y),
        (None, None) => true,
        _ => false,
    }
}

/// Appends the two sides of a pair, the smaller one first.
fn append_pair(out: &mut Vec<u8>, a: &Vec<u8>, b: &Vec<u8>)
    ensures
        final(out)@ == if key::lex_le(a@, b@) {
            old(out)@ + a@ + b@
        } else {
            old(out)@ + b@ + a@
        },
{
    if key::at_most(a.as_slice(), b.as_slice()) {
        key::append(out, a.as_slice());
        key::append(out, b.as_slice());
    } else {
        key::append(out, b.as_slice());
        key::append(out, a.as_slice());
    }
}

proof fn lemma_common_fails(
    key: Seq<KeyField>,
    i: int,
    n: int,
    eph: KeyField,
    fields: crate::value::Fields,
)
    requires
        0 < i <= n,
        state::common(key, i, eph, fields) is None,
    ensures
        state::common(key, n, eph, fields) is None,
    decreases n,
{
    if n > i {
        lemma_common_fails(key, i, n - 1, eph, fields);
    }
}

/// The encoding of every key component but the ephemeral pair.
fn common_prefix(key: &[KeyField], eph: &KeyField, fields: &FieldMap) -> (r: Option<Vec<u8>>)
    ensures
        match state::common(key@, key@.len() as int, *eph, fields@) {
            Some(p) => r is Some && r->0@ == p,
            None => r is None,
        },
{
    let n: usize = key.len();
    let mut prefix: Vec<u8> = Vec::new();
    let mut i: usize = 0;
    assert(prefix@ =~= Seq::empty());
    while i < n
        invariant
            n == key@.len(),
            i <= n,
            state::common(key@, i as int, *eph, fields@) == Some(prefix@),
        decreases n - i,
    {
        let kf = key[i];
        if !names_the_same(&kf, eph) {
            let va = match fields.get(kf.a) {
                Some(v) => v,
                None => {
                    proof {
                        lemma_common_fails(key@, i + 1, n as int, *eph, fields@);
                    }
                    return None;
                },
            };
            match kf.b {
                None => {
                    key::encode_value(va, &mut prefix);
                },
                Some(b) => {
                    let vb = match fields.get(b) {
                        Some(v) => v,
                        None => {
                            proof {
                                lemma_common_fails(key@, i + 1, n as int, *eph, fields@);
                            }
                            return None;
                        },
                    };
                    let ea = key::value_encoding(va);
                    let eb = key::value_encoding(vb);
                    append_pair(&mut prefix, &ea, &eb);
                },
            }
        }
        i = i + 1;
    }
    Some(prefix)
}

/// The anchors of a flow: one per side of its ephemeral pair, and only one where
/// the sides are equal. None where a key field is missing.
pub fn condense_candidates(
    identity: &StreamIdentity,
    spec_: &CondenseSpec,
    fields: &FieldMap,
) -> (r: Option<Vec<CondenseCandidate>>)
    ensures
        match state::candidates(identity@, *spec_, fields@) {
            Some(c) => r is Some && candidates_view(r->0@) == c,
            None => r is None,
        },
{
    let eph = spec_.ephemeral;
    let b_name = match eph.b {
        Some(b) => b,
        None => {
            return None;
        },
    };
    let va = match fields.get(eph.a) {
        Some(v) => v,
        None => {
            return None;
        },
    };
    let vb = match fields.get(b_name) {
        Some(v) => v,
        None => {
            return None;
        },
    };
    let prefix = match common_prefix(identity.key, &eph, fields) {
        Some(p) => p,
        None => {
            return None;
        },
    };
    let enc_a = key::value_encoding(va);
    let enc_b = key::value_encoding(vb);
    let mut anchor_a = vstd::slice::slice_to_vec(prefix.as_slice());
    key::append(&mut anchor_a, enc_a.as_slice());
    let equal = bytes_eq(enc_a.as_slice(), enc_b.as_slice());
    let mut anchor_b = prefix;
    key::append(&mut anchor_b, enc_b.as_slice());
    let first = CondenseCandidate {
        anchor: anchor_a,
        anchor_field: eph.a,
        anchor_value: va.clone(),
        varying: vstd::slice::slice_to_vec(enc_b.as_slice()),
        fold_dir: PacketDirection::AtoB,
    };
    let second = CondenseCandidate {
        anchor: anchor_b,
        anchor_field: b_name,
        anchor_value: vb.clone(),
        varying: enc_a,
        fold_dir: PacketDirection::BtoA,
    };
    let ghost f = first@;
    let ghost g = second@;
    let mut out: Vec<CondenseCandidate> = Vec::new();
    out.push(first);
    if !equal {
        out.push(second);
        assert(candidates_view(out@) =~= seq![f, g]);
    } else {
        assert(candidates_view(out@) =~= seq![f]);
    }
    Some(out)
}

} // verus!
