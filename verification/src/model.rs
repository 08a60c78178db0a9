//! The registry's data model and its mathematical transitions.
//!
//! Each mutating operation of the registry is described here as a spec
//! function from the current claim map to either the next claim map or the
//! error the operation is rejected with. The executable operations in
//! `registry` are proved to follow these transitions exactly, and the laws
//! at the end of this module are proved of the transitions themselves.

use vstd::prelude::*;

verus! {

/// The record bound to a registered claim: the account that owns it and the
/// block counter value at the most recent create or transfer.
#[derive(Clone, Copy, Debug, PartialEq, Eq, Structural)]
pub struct Registration {
    pub owner: u64,
    pub registered_at: u64,
}

/// Why an operation was rejected. Every rejection leaves the registry
/// unchanged.
#[derive(Clone, Copy, Debug, PartialEq, Eq, Structural)]
pub enum Error {
    /// A create was attempted on a claim that already has an owner.
    ClaimAlreadyClaimed,
    /// A revoke or transfer was attempted on a claim with no registration.
    NoSuchClaim,
    /// The caller is not the current owner of the claim.
    NotClaimOwner,
    /// The claim's length exceeds the configured bound.
    OverFlow,
}

/// The domain event a successful operation asks the host to deliver: the
/// caller, the claim, and (for a transfer) the new owner.
#[derive(Debug, PartialEq, Eq)]
pub enum Event {
    ClaimCreated(u64, Vec<u8>),
    ClaimTransfer(u64, Vec<u8>, u64),
    ClaimRevoked(u64, Vec<u8>),
}

/// What a create does to the claim map: rejected when the claim is longer
/// than `max_length` or already registered, otherwise the claim is bound to
/// the caller at the current block.
pub open spec fn create_outcome(
    m: Map<Seq<u8>, Registration>,
    max_length: nat,
    caller: u64,
    claim: Seq<u8>,
    now: u64,
) -> Result<Map<Seq<u8>, Registration>, Error> {
    if claim.len() > max_length {
        Err(Error::OverFlow)
    } else if m.contains_key(claim) {
        Err(Error::ClaimAlreadyClaimed)
    } else {
        Ok(m.insert(claim, Registration { owner: caller, registered_at: now }))
    }
}

/// What a revoke does to the claim map: rejected when the claim is absent or
/// the caller is not its owner, otherwise the entry is deleted.
pub open spec fn revoke_outcome(
    m: Map<Seq<u8>, Registration>,
    caller: u64,
    claim: Seq<u8>,
) -> Result<Map<Seq<u8>, Registration>, Error> {
    if !m.contains_key(claim) {
        Err(Error::NoSuchClaim)
    } else if m[claim].owner != caller {
        Err(Error::NotClaimOwner)
    } else {
        Ok(m.remove(claim))
    }
}

/// What a transfer does to the claim map: rejected when the claim is absent
/// or the caller is not its owner, otherwise the entry is overwritten with
/// the new owner at the current block, under the same key.
pub open spec fn transfer_outcome(
    m: Map<Seq<u8>, Registration>,
    caller: u64,
    claim: Seq<u8>,
    new_owner: u64,
    now: u64,
) -> Result<Map<Seq<u8>, Registration>, Error> {
    if !m.contains_key(claim) {
        Err(Error::NoSuchClaim)
    } else if m[claim].owner != caller {
        Err(Error::NotClaimOwner)
    } else {
        Ok(m.insert(claim, Registration { owner: new_owner, registered_at: now }))
    }
}

/// Every registered claim respects the configured length bound. This holds
/// of every reachable registry state, since a create rejects a longer claim
/// and a transfer keeps the key.
pub open spec fn bounded_claims(m: Map<Seq<u8>, Registration>, max_length: nat) -> bool {
    forall|c: Seq<u8>| m.contains_key(c) ==> c.len() <= max_length
}

/// Ownership exclusivity: a revoke or a transfer succeeds only when the
/// caller is the stored owner of the claim.
pub proof fn lemma_ownership_exclusivity(
    m: Map<Seq<u8>, Registration>,
    caller: u64,
    claim: Seq<u8>,
    new_owner: u64,
    now: u64,
)
    ensures
        revoke_outcome(m, caller, claim) is Ok ==> m.contains_key(claim) && m[claim].owner
            == caller,
        transfer_outcome(m, caller, claim, new_owner, now) is Ok ==> m.contains_key(claim)
            && m[claim].owner == caller,
{
}

/// Creating the same claim twice never succeeds twice: once a create has
/// succeeded, a second create of that claim is rejected as already claimed,
/// whoever calls it and whatever the block counter reads.
pub proof fn lemma_create_twice_rejected(
    m: Map<Seq<u8>, Registration>,
    max_length: nat,
    caller: u64,
    claim: Seq<u8>,
    now: u64,
    second_caller: u64,
    later: u64,
)
    requires
        create_outcome(m, max_length, caller, claim, now) is Ok,
    ensures
        create_outcome(
            create_outcome(m, max_length, caller, claim, now)->Ok_0,
            max_length,
            second_caller,
            claim,
            later,
        ) == Err::<Map<Seq<u8>, Registration>, Error>(Error::ClaimAlreadyClaimed),
{
}

/// Revoke then recreate: once a revoke has succeeded on a claim, a create of
/// that claim by any caller succeeds and binds a fresh owner and block pair,
/// independent of the claim's earlier history.
pub proof fn lemma_revoke_then_recreate(
    m: Map<Seq<u8>, Registration>,
    max_length: nat,
    caller: u64,
    claim: Seq<u8>,
    second_caller: u64,
    later: u64,
)
    requires
        bounded_claims(m, max_length),
        revoke_outcome(m, caller, claim) is Ok,
    ensures
        create_outcome(revoke_outcome(m, caller, claim)->Ok_0, max_length, second_caller, claim, later)
            == Ok::<Map<Seq<u8>, Registration>, Error>(
            m.remove(claim).insert(
                claim,
                Registration { owner: second_caller, registered_at: later },
            ),
        ),
{
}

} // verus!
