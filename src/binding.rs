use vstd::prelude::*;

use crate::interface::{LTPResult, DEP, SDP};

verus! {

/// One sentence's analysis as a flat accessor surface for foreign callers: each accessor
/// reads one field, which must be present.
pub struct InterfaceResult(pub LTPResult);

impl InterfaceResult {
    /// The number of words.
    pub fn len(&self) -> (r: usize)
        requires
            self.0.seg is Some,
        ensures
            r == self.0.seg->Some_0@.len(),
    {
        self.0.seg.as_ref().unwrap().len()
    }

    pub fn seg(&self) -> (r: &Vec<String>)
        requires
            self.0.seg is Some,
        ensures
            *r == self.0.seg->Some_0,
    {
        self.0.seg.as_ref().unwrap()
    }

    pub fn pos(&self) -> (r: &Vec<String>)
        requires
            self.0.pos is Some,
        ensures
            *r == self.0.pos->Some_0,
    {
        self.0.pos.as_ref().unwrap()
    }

    pub fn ner(&self) -> (r: &Vec<String>)
        requires
            self.0.ner is Some,
        ensures
            *r == self.0.ner->Some_0,
    {
        self.0.ner.as_ref().unwrap()
    }

    /// The role labels of the word at `idx` as predicate.
    pub fn srl(&self, idx: usize) -> (r: &Vec<String>)
        requires
            self.0.srl is Some,
            idx < self.0.srl->Some_0@.len(),
        ensures
            *r == self.0.srl->Some_0@[idx as int],
    {
        &self.0.srl.as_ref().unwrap()[idx]
    }

    /// The head of the word at `idx` (0 is the root).
    pub fn dep_arc(&self, idx: usize) -> (r: usize)
        requires
            self.0.dep is Some,
            idx < self.0.dep->Some_0@.len(),
        ensures
            r == self.0.dep->Some_0@[idx as int].arc,
    {
        self.0.dep.as_ref().unwrap()[idx].arc
    }

    /// The relation of the word at `idx` to its head.
    pub fn dep_rel(&self, idx: usize) -> (r: &String)
        requires
            self.0.dep is Some,
            idx < self.0.dep->Some_0@.len(),
        ensures
            *r == self.0.dep->Some_0@[idx as int].rel,
    {
        &self.0.dep.as_ref().unwrap()[idx].rel
    }

    /// The number of words (the same count as `len`).
    pub fn sdp_len(&self) -> (r: usize)
        requires
            self.0.seg is Some,
        ensures
            r == self.0.seg->Some_0@.len(),
    {
        self.0.seg.as_ref().unwrap().len()
    }

    /// The source of the semantic arc at `idx`.
    pub fn sdp_src(&self, idx: usize) -> (r: usize)
        requires
            self.0.sdp is Some,
            idx < self.0.sdp->Some_0@.len(),
        ensures
            r == self.0.sdp->Some_0@[idx as int].src,
    {
        self.0.sdp.as_ref().unwrap()[idx].src
    }

    /// The target of the semantic arc at `idx`.
    pub fn sdp_tgt(&self, idx: usize) -> (r: usize)
        requires
            self.0.sdp is Some,
            idx < self.0.sdp->Some_0@.len(),
        ensures
            r == self.0.sdp->Some_0@[idx as int].tgt,
    {
        self.0.sdp.as_ref().unwrap()[idx].tgt
    }

    /// The relation of the semantic arc at `idx`.
    pub fn sdp_rel(&self, idx: usize) -> (r: &String)
        requires
            self.0.sdp is Some,
            idx < self.0.sdp->Some_0@.len(),
        ensures
            *r == self.0.sdp->Some_0@[idx as int].rel,
    {
        &self.0.sdp.as_ref().unwrap()[idx].rel
    }
}

} // verus!
