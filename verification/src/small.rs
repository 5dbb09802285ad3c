//! Short lists that live inline until they outgrow their usual length. Their
//! storage is the `smallvec` crate's; what its functions do is stated here and
//! not proved.
use smallvec::SmallVec;

use vstd::prelude::*;

use crate::layer::Confidence;
use crate::value::ProtocolName;

verus! {

/// The protocols whose probes came closest, best first, with their scores.
#[verifier::external_body]
#[derive(PartialEq, Eq, Debug)]
pub struct NearMisses {
    list: SmallVec<[(ProtocolName, u8); 5]>,
}

/// What a list of near misses holds, in order.
pub uninterp spec fn ranking(m: NearMisses) -> Seq<(ProtocolName, u8)>;

impl View for NearMisses {
    type V = Seq<(ProtocolName, u8)>;

    open spec fn view(&self) -> Seq<(ProtocolName, u8)> {
        ranking(*self)
    }
}

impl NearMisses {
    /// Calls `SmallVec::new`, which makes an empty list.
    #[verifier::external_body]
    fn nothing() -> (r: NearMisses)
        ensures
            ranking(r) == Seq::<(ProtocolName, u8)>::empty(),
    {
        NearMisses { list: SmallVec::new() }
    }

    /// Calls `SmallVec::push`, which appends one item and may move the list to
    /// the heap.
    #[verifier::external_body]
    fn append(&mut self, item: (ProtocolName, u8))
        requires
            ranking(*old(self)).len() < u32::MAX,
        ensures
            ranking(*final(self)) == ranking(*old(self)).push(item),
    {
        self.list.push(item)
    }

    /// Calls `SmallVec::as_slice`, which gives the items in order.
    #[verifier::external_body]
    fn items(&self) -> (r: &[(ProtocolName, u8)])
        ensures
            r@ == ranking(*self),
    {
        self.list.as_slice()
    }

    /// Calls `SmallVec::clone`, which copies every item.
    #[verifier::external_body]
    fn copied(&self) -> (r: NearMisses)
        ensures
            ranking(r) == ranking(*self),
    {
        NearMisses { list: self.list.clone() }
    }

    pub fn new() -> (r: NearMisses)
        ensures
            r@ == Seq::<(ProtocolName, u8)>::empty(),
    {
        NearMisses::nothing()
    }

    /// The protocols and their scores, in order.
    pub fn as_slice(&self) -> (r: &[(ProtocolName, u8)])
        ensures
            r@ == self@,
    {
        self.items()
    }

    /// Appends a protocol and its score.
    pub fn push(&mut self, protocol: ProtocolName, score: Confidence)
        requires
            old(self)@.len() < u32::MAX,
        ensures
            final(self)@ == old(self)@.push((protocol, score.value())),
    {
        self.append((protocol, score.get()))
    }

    /// The best score.
    pub fn top(&self) -> (r: Option<u8>)
        ensures
            r == top_score(self@),
    {
        let list = self.as_slice();
        if list.len() == 0 {
            None
        } else {
            Some(list[0].1)
        }
    }
}

/// The first score of a ranking.
pub open spec fn top_score(ranking: Seq<(ProtocolName, u8)>) -> Option<u8> {
    if ranking.len() == 0 {
        None
    } else {
        Some(ranking[0].1)
    }
}

impl Clone for NearMisses {
    fn clone(&self) -> (r: NearMisses)
        ensures
            r@ == self@,
    {
        self.copied()
    }
}

/// Stream handles (slot, generation) that share one digest.
#[verifier::external_body]
pub struct Bucket {
    list: SmallVec<[(u32, u32); 1]>,
}

/// What a bucket holds, in order.
pub uninterp spec fn handles(b: Bucket) -> Seq<(u32, u32)>;

impl View for Bucket {
    type V = Seq<(u32, u32)>;

    open spec fn view(&self) -> Seq<(u32, u32)> {
        handles(*self)
    }
}

impl Bucket {
    /// Calls `SmallVec::new`, which makes an empty list.
    #[verifier::external_body]
    pub(crate) fn new() -> (r: Bucket)
        ensures
            handles(r) == Seq::<(u32, u32)>::empty(),
    {
        Bucket { list: SmallVec::new() }
    }

    /// Calls `SmallVec::push`, which appends one item and may move the list to
    /// the heap.
    #[verifier::external_body]
    pub(crate) fn push(&mut self, item: (u32, u32))
        requires
            handles(*old(self)).len() < u32::MAX,
        ensures
            handles(*final(self)) == handles(*old(self)).push(item),
    {
        self.list.push(item)
    }

    /// Calls `SmallVec::as_slice`, which gives the items in order.
    #[verifier::external_body]
    pub(crate) fn as_slice(&self) -> (r: &[(u32, u32)])
        ensures
            r@ == handles(*self),
    {
        self.list.as_slice()
    }

    /// Calls `SmallVec::remove`, which takes out the item at a place in the list
    /// and closes the gap.
    #[verifier::external_body]
    pub(crate) fn remove(&mut self, at: usize) -> (r: (u32, u32))
        requires
            at < handles(*old(self)).len(),
        ensures
            r == handles(*old(self))[at as int],
            handles(*final(self)) == handles(*old(self)).remove(at as int),
    {
        self.list.remove(at)
    }
}

} // verus!
