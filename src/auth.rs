//! The proofs that authorize actions during a transaction's execution.
use vstd::prelude::*;

verus! {

/// Identifier of a proof created during execution.
pub type ProofId = u32;

/// Address of a non-fungible token: its resource and its id.
#[derive(Clone, Debug, PartialEq, Eq)]
pub struct NonFungibleAddress {
    pub resource_address: [u8; 32],
    pub id: Vec<u8>,
}

/// The initial ownership proofs of an execution.
#[derive(Clone, Debug)]
pub struct AuthParams {
    pub initial_ownership_proofs: Vec<NonFungibleAddress>,
}

/// Proofs in scope: system-issued virtual proofs that live for the execution, and
/// resource-based proofs.
#[derive(Clone, Debug)]
pub struct AuthorizationScope {
    virtual_proofs: Vec<NonFungibleAddress>,
    proofs: Vec<ProofId>,
}

/// The first position of `id` in `s`.
pub open spec fn first_position(s: Seq<ProofId>, id: ProofId) -> int {
    choose|i: int| 0 <= i < s.len() && s[i] == id && forall|j: int| 0 <= j < i ==> s[j] != id
}

impl AuthorizationScope {
    pub closed spec fn virtual_view(&self) -> Seq<NonFungibleAddress> {
        self.virtual_proofs@
    }

    pub closed spec fn proofs_view(&self) -> Seq<ProofId> {
        self.proofs@
    }

    pub fn new(virtual_proofs: Vec<NonFungibleAddress>) -> (r: AuthorizationScope)
        ensures
            r.virtual_view() == virtual_proofs@,
            r.proofs_view().len() == 0,
    {
        AuthorizationScope { virtual_proofs, proofs: Vec::new() }
    }

    pub fn virtual_proofs(&self) -> (r: &[NonFungibleAddress])
        ensures
            r@ == self.virtual_view(),
    {
        self.virtual_proofs.as_slice()
    }

    pub fn proofs(&self) -> (r: &[ProofId])
        ensures
            r@ == self.proofs_view(),
    {
        self.proofs.as_slice()
    }

    pub fn add_proof(&mut self, proof_id: ProofId)
        ensures
            final(self).proofs_view() == old(self).proofs_view().push(proof_id),
            final(self).virtual_view() == old(self).virtual_view(),
    {
        self.proofs.push(proof_id);
    }

    /// Removes the first occurrence of `proof_id`, returning it; `None` if it is not in scope.
    pub fn remove_proof(&mut self, proof_id: &ProofId) -> (r: Option<ProofId>)
        ensures
            old(self).proofs_view().contains(*proof_id) ==> r == Some(*proof_id) && final(self).proofs_view()
                == old(self).proofs_view().remove(first_position(old(self).proofs_view(), *proof_id)),
            !old(self).proofs_view().contains(*proof_id) ==> r is None && final(self).proofs_view() == old(self).proofs_view(),
            final(self).virtual_view() == old(self).virtual_view(),
    {
        let mut i: usize = 0;
        while i < self.proofs.len()
            invariant
                self.proofs@ == old(self).proofs@,
                self.virtual_proofs@ == old(self).virtual_proofs@,
                i <= self.proofs@.len(),
                forall|j: int| 0 <= j < i ==> self.proofs@[j] != *proof_id,
            decreases self.proofs@.len() - i,
        {
            if self.proofs[i] == *proof_id {
                proof {
                    let k = first_position(self.proofs@, *proof_id);
                    assert(0 <= i < self.proofs@.len() && self.proofs@[i as int] == *proof_id);
                    assert(k == i as int);
                }
                let removed = self.proofs.remove(i);
                return Some(removed);
            }
            i = i + 1;
        }
        None
    }

    /// Takes over the proofs that a child scope created.
    pub fn update_from_child(&mut self, child: AuthorizationScope)
        ensures
            final(self).proofs_view() == old(self).proofs_view() + child.proofs_view(),
            final(self).virtual_view() == old(self).virtual_view(),
    {
        let mut child = child;
        self.proofs.append(&mut child.proofs);
    }
}

} // verus!
