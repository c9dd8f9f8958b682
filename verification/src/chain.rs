//! Chains: ordered sequences of adapters forming a compatible path.

use vstd::prelude::*;
use crate::model::{adapter_text, flip, reversed_model, Adapter, AdapterModel};

verus! {

/// An ordered, non-empty sequence of adapters.  Consecutive adapters are
/// compatible: the second end of each one mates with the first end of the
/// next.
#[derive(Debug)]
pub struct Chain {
    pub links: Vec<Adapter>,
}

/// The models of a sequence of adapters, in order.
pub open spec fn adapters_view(s: Seq<Adapter>) -> Seq<AdapterModel> {
    s.map_values(|a: Adapter| a@)
}

impl View for Chain {
    type V = Seq<AdapterModel>;

    open spec fn view(&self) -> Seq<AdapterModel> {
        adapters_view(self.links@)
    }
}

/// What extending a chain by a candidate adapter yields: the candidate is
/// appended as stored if its first end mates with the chain's open end,
/// appended reversed if its second end does, and refused otherwise.
pub open spec fn add_result(c: Seq<AdapterModel>, next: AdapterModel) -> Option<Seq<AdapterModel>>
    recommends
        c.len() >= 1,
{
    let open_end = c.last().end_b;
    if open_end == flip(next.end_a) {
        Some(c.push(next))
    } else if open_end == flip(next.end_b) {
        Some(c.push(reversed_model(next)))
    } else {
        None
    }
}

/// Rendering of the first `k` adapters of a chain: each in brackets,
/// followed by a space.
pub open spec fn chain_text(c: Seq<AdapterModel>, k: int) -> Seq<char>
    decreases k,
{
    if k <= 0 {
        Seq::<char>::empty()
    } else {
        chain_text(c, k - 1) + "["@ + adapter_text(c[k - 1]) + "] "@
    }
}

impl Chain {
    /// A chain holding a single adapter.
    pub fn new(adapter: Adapter) -> (r: Self)
        ensures
            r@ == seq![adapter@],
    {
        let mut links: Vec<Adapter> = Vec::new();
        links.push(adapter);
        let r = Chain { links };
        proof {
            assert(r@ =~= seq![adapter@]);
        }
        r
    }

    /// The adapter at the open end of the chain.
    pub fn last_link(&self) -> (r: &Adapter)
        requires
            self@.len() >= 1,
        ensures
            r@ == self@.last(),
    {
        &self.links[self.links.len() - 1]
    }

    /// A fresh chain with the same adapters.
    pub fn duplicate(&self) -> (r: Self)
        ensures
            r@ == self@,
    {
        let mut links: Vec<Adapter> = Vec::new();
        let mut i: usize = 0;
        while i < self.links.len()
            invariant
                i <= self.links@.len(),
                links@.len() == i as int,
                forall|k: int| 0 <= k < i as int ==> links@[k]@ == self.links@[k]@,
            decreases self.links@.len() - i,
        {
            links.push(self.links[i].duplicate());
            i = i + 1;
        }
        let r = Chain { links };
        proof {
            assert(r@ =~= self@);
        }
        r
    }

    /// Append an adapter without any compatibility check.
    pub fn push_link(&mut self, adapter: Adapter)
        ensures
            final(self)@ == old(self)@.push(adapter@),
    {
        self.links.push(adapter);
        proof {
            assert(self@ =~= old(self)@.push(adapter@));
        }
    }

    /// Display form of the chain: each adapter bracketed, in traversal
    /// order.
    pub fn render(&self) -> (r: String)
        ensures
            r@ == chain_text(self@, self@.len() as int),
    {
        let mut out = String::new();
        let mut i: usize = 0;
        while i < self.links.len()
            invariant
                i <= self.links@.len(),
                out@ == chain_text(self@, i as int),
            decreases self.links@.len() - i,
        {
            let piece = self.links[i].render();
            out.append("[");
            out.append(piece.as_str());
            out.append("] ");
            proof {
                assert(self@[i as int] == self.links@[i as int]@);
            }
            i = i + 1;
        }
        out
    }

    /// Try to extend the chain by `next`.  With `open_end` the second end of
    /// the chain's last adapter: if `open_end` mates with `next`'s first end,
    /// the candidate is appended as it stands; if it mates with `next`'s
    /// second end instead, the candidate is appended reversed; otherwise
    /// nothing fits and nothing is returned.  The original chain is left
    /// untouched.
    pub fn add(&self, next: Adapter) -> (r: Option<Chain>)
        requires
            self@.len() >= 1,
        ensures
            match r {
                Some(extended) => add_result(self@, next@) == Some(extended@),
                None => add_result(self@, next@) is None,
            },
    {
        let open_end = &self.last_link().end_b;
        if open_end.mates_with(&next.end_a) {
            let mut extended = self.duplicate();
            extended.push_link(next);
            Some(extended)
        } else if open_end.mates_with(&next.end_b) {
            let mut extended = self.duplicate();
            extended.push_link(next.reverse());
            Some(extended)
        } else {
            None
        }
    }
}

} // verus!
