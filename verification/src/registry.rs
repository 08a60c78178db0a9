//! The executable claim registry.
//!
//! `Pallet` stores the registered claims as a vector of (claim, registration)
//! entries with pairwise-distinct claims, and is viewed in contracts as the
//! map from claim to `Registration` that `model` speaks of. Each operation's
//! contract ties its result and the new state exactly to the corresponding
//! transition of `model`.

use vstd::prelude::*;

use crate::model::{
    bounded_claims, create_outcome, revoke_outcome, transfer_outcome, Error, Event, Registration,
};

verus! {

/// The registry's configuration: the largest claim length accepted at
/// creation time.
#[derive(Clone, Copy, Debug, PartialEq, Eq, Structural)]
pub struct Config {
    pub max_length: u32,
}

/// The claim registry: a store of claims, each bound to exactly one
/// `Registration` at a time.
pub struct Pallet {
    max_length: u32,
    proofs: Vec<(Vec<u8>, Registration)>,
}

/// At most one entry per claim: the claims of distinct entries differ.
pub open spec fn unique_claims(s: Seq<(Seq<u8>, Registration)>) -> bool {
    forall|i: int, j: int|
        0 <= i < s.len() && 0 <= j < s.len() && i != j ==> (#[trigger] s[i]).0 != (
        #[trigger] s[j]).0
}

/// The stored entries read back as a map, later entries winning; under
/// `unique_claims` every entry is visible in the map.
pub open spec fn entries_as_map(s: Seq<(Seq<u8>, Registration)>) -> Map<Seq<u8>, Registration>
    decreases s.len(),
{
    if s.len() == 0 {
        Map::empty()
    } else {
        entries_as_map(s.drop_last()).insert(s.last().0, s.last().1)
    }
}

impl Pallet {
    /// The stored entries, each claim read as the byte sequence it holds.
    pub closed spec fn entries(&self) -> Seq<(Seq<u8>, Registration)> {
        self.proofs@.map_values(|e: (Vec<u8>, Registration)| (e.0@, e.1))
    }

    /// The configured length bound.
    pub closed spec fn spec_max_length(&self) -> u32 {
        self.max_length
    }

    /// Well-formed: no claim is stored twice, and every stored claim
    /// respects the configured length bound.
    pub closed spec fn wf(&self) -> bool {
        &&& unique_claims(self.entries())
        &&& forall|i: int|
            0 <= i < self.entries().len() ==> (#[trigger] self.entries()[i]).0.len()
                <= self.max_length
    }
}

impl View for Pallet {
    type V = Map<Seq<u8>, Registration>;

    open spec fn view(&self) -> Map<Seq<u8>, Registration> {
        entries_as_map(self.entries())
    }
}

/// A claim is in the map exactly when some entry holds it.
proof fn lemma_map_domain(s: Seq<(Seq<u8>, Registration)>, c: Seq<u8>)
    ensures
        entries_as_map(s).contains_key(c) <==> exists|i: int|
            0 <= i < s.len() && (#[trigger] s[i]).0 == c,
    decreases s.len(),
{
    if s.len() > 0 {
        lemma_map_domain(s.drop_last(), c);
        if s.last().0 == c {
            assert(s[s.len() - 1].0 == c);
        } else {
            if entries_as_map(s).contains_key(c) {
                let i = choose|i: int|
                    0 <= i < s.drop_last().len() && (#[trigger] s.drop_last()[i]).0 == c;
                assert(s[i].0 == c);
            }
            if exists|i: int| 0 <= i < s.len() && (#[trigger] s[i]).0 == c {
                let i = choose|i: int| 0 <= i < s.len() && (#[trigger] s[i]).0 == c;
                assert(s.drop_last()[i].0 == c);
            }
        }
    }
}

/// Dropping the last entry keeps the claims pairwise distinct.
proof fn lemma_unique_drop_last(s: Seq<(Seq<u8>, Registration)>)
    requires
        unique_claims(s),
        s.len() > 0,
    ensures
        unique_claims(s.drop_last()),
{
    assert forall|i: int, j: int|
        0 <= i < s.drop_last().len() && 0 <= j < s.drop_last().len() && i != j implies (
    #[trigger] s.drop_last()[i]).0 != (#[trigger] s.drop_last()[j]).0 by {
        assert(s.drop_last()[i] == s[i]);
        assert(s.drop_last()[j] == s[j]);
    }
}

/// Under distinct claims, the map holds each entry at its claim.
proof fn lemma_map_at_index(s: Seq<(Seq<u8>, Registration)>, i: int)
    requires
        unique_claims(s),
        0 <= i < s.len(),
    ensures
        entries_as_map(s).contains_key(s[i].0),
        entries_as_map(s)[s[i].0] == s[i].1,
    decreases s.len(),
{
    if i < s.len() - 1 {
        lemma_unique_drop_last(s);
        assert(s.drop_last()[i] == s[i]);
        lemma_map_at_index(s.drop_last(), i);
        assert(s.last().0 != s[i].0);
    }
}

/// Appending an entry inserts it into the map.
proof fn lemma_map_push(s: Seq<(Seq<u8>, Registration)>, c: Seq<u8>, r: Registration)
    ensures
        entries_as_map(s.push((c, r))) == entries_as_map(s).insert(c, r),
{
    assert(s.push((c, r)).drop_last() =~= s);
    assert(s.push((c, r)).last() == (c, r));
}

/// Removing an entry keeps the claims pairwise distinct.
proof fn lemma_unique_remove(s: Seq<(Seq<u8>, Registration)>, i: int)
    requires
        unique_claims(s),
        0 <= i < s.len(),
    ensures
        unique_claims(s.remove(i)),
{
    assert forall|j: int, k: int|
        0 <= j < s.remove(i).len() && 0 <= k < s.remove(i).len() && j != k implies (
    #[trigger] s.remove(i)[j]).0 != (#[trigger] s.remove(i)[k]).0 by {
        assert(s.remove(i)[j] == if j < i {
            s[j]
        } else {
            s[j + 1]
        });
        assert(s.remove(i)[k] == if k < i {
            s[k]
        } else {
            s[k + 1]
        });
    }
}

/// Under distinct claims, removing the entry at `i` removes its claim from
/// the map.
proof fn lemma_map_remove_at(s: Seq<(Seq<u8>, Registration)>, i: int)
    requires
        unique_claims(s),
        0 <= i < s.len(),
    ensures
        entries_as_map(s.remove(i)) == entries_as_map(s).remove(s[i].0),
    decreases s.len(),
{
    lemma_unique_drop_last(s);
    if i == s.len() - 1 {
        assert(s.remove(i) =~= s.drop_last());
        lemma_map_domain(s.drop_last(), s[i].0);
        assert(!entries_as_map(s.drop_last()).contains_key(s[i].0)) by {
            if exists|j: int| 0 <= j < s.drop_last().len() && (#[trigger] s.drop_last()[j]).0
                == s[i].0 {
                let j = choose|j: int|
                    0 <= j < s.drop_last().len() && (#[trigger] s.drop_last()[j]).0 == s[i].0;
                assert(s[j].0 == s[i].0);
            }
        }
        assert(entries_as_map(s.drop_last()).insert(s[i].0, s[i].1).remove(s[i].0)
            =~= entries_as_map(s.drop_last()));
    } else {
        assert(s.remove(i).len() == s.len() - 1);
        assert(s.remove(i).last() == s.last());
        assert(s.remove(i).drop_last() =~= s.drop_last().remove(i));
        lemma_map_remove_at(s.drop_last(), i);
        assert(s.drop_last()[i] == s[i]);
        assert(s.last().0 != s[i].0);
        assert(entries_as_map(s.drop_last()).remove(s[i].0).insert(s.last().0, s.last().1)
            =~= entries_as_map(s.drop_last()).insert(s.last().0, s.last().1).remove(s[i].0));
    }
}

/// True exactly when the two byte strings hold the same bytes.
fn bytes_eq(a: &Vec<u8>, b: &Vec<u8>) -> (r: bool)
    ensures
        r <==> a@ == b@,
{
    if a.len() != b.len() {
        return false;
    }
    let mut i: usize = 0;
    while i < a.len()
        invariant
            a@.len() == b@.len(),
            0 <= i <= a@.len(),
            forall|j: int| 0 <= j < i ==> a@[j] == b@[j],
        decreases a@.len() - i,
    {
        if a[i] != b[i] {
            return false;
        }
        i = i + 1;
    }
    proof {
        assert(a@ =~= b@);
    }
    true
}

/// A fresh copy of the given byte string, holding the same bytes.
fn clone_bytes(a: &Vec<u8>) -> (r: Vec<u8>)
    ensures
        r@ == a@,
{
    let mut r: Vec<u8> = Vec::new();
    let mut i: usize = 0;
    while i < a.len()
        invariant
            0 <= i <= a@.len(),
            r@ == a@.subrange(0, i as int),
        decreases a@.len() - i,
    {
        r.push(a[i]);
        proof {
            assert(r@ =~= a@.subrange(0, i + 1 as int));
        }
        i = i + 1;
    }
    proof {
        assert(r@ =~= a@);
    }
    r
}

impl Pallet {
    /// An empty registry with the given configuration.
    pub fn new(config: Config) -> (p: Pallet)
        ensures
            p.wf(),
            p@ == Map::<Seq<u8>, Registration>::empty(),
            p.spec_max_length() == config.max_length,
    {
        let p = Pallet { max_length: config.max_length, proofs: Vec::new() };
        proof {
            assert(p.entries() =~= Seq::<(Seq<u8>, Registration)>::empty());
            assert(p@ =~= Map::<Seq<u8>, Registration>::empty());
        }
        p
    }

    /// The configured length bound.
    pub fn max_length(&self) -> (r: u32)
        ensures
            r == self.spec_max_length(),
    {
        self.max_length
    }

    /// The position of the claim among the stored entries, if any.
    fn find_claim(&self, claim: &Vec<u8>) -> (r: Option<usize>)
        ensures
            match r {
                Some(i) => i < self.entries().len() && self.entries()[i as int].0 == claim@,
                None => forall|i: int|
                    0 <= i < self.entries().len() ==> (#[trigger] self.entries()[i]).0 != claim@,
            },
    {
        let mut i: usize = 0;
        while i < self.proofs.len()
            invariant
                0 <= i <= self.proofs@.len(),
                self.entries().len() == self.proofs@.len(),
                forall|j: int| 0 <= j < i ==> (#[trigger] self.entries()[j]).0 != claim@,
            decreases self.proofs@.len() - i,
        {
            if bytes_eq(&self.proofs[i].0, claim) {
                proof {
                    assert(self.entries()[i as int].0 == claim@);
                }
                return Some(i);
            }
            i = i + 1;
        }
        None
    }

    /// The claim's current registration, if the claim is registered.
    pub fn get_claim(&self, claim: &Vec<u8>) -> (r: Option<Registration>)
        requires
            self.wf(),
        ensures
            match r {
                Some(reg) => self@.contains_key(claim@) && reg == self@[claim@],
                None => !self@.contains_key(claim@),
            },
    {
        match self.find_claim(claim) {
            Some(i) => {
                proof {
                    lemma_map_at_index(self.entries(), i as int);
                }
                Some(self.proofs[i].1)
            },
            None => {
                proof {
                    lemma_map_domain(self.entries(), claim@);
                }
                None
            },
        }
    }

    /// Registers the claim to the caller at the current block. Rejected with
    /// `OverFlow` when the claim is longer than the configured bound, and
    /// with `ClaimAlreadyClaimed` when the claim already has an owner; a
    /// rejected call leaves the registry unchanged.
    pub fn create_claim(&mut self, caller: u64, claim: Vec<u8>, now: u64) -> (r: Result<
        Event,
        Error,
    >)
        requires
            old(self).wf(),
        ensures
            final(self).wf(),
            final(self).spec_max_length() == old(self).spec_max_length(),
            match create_outcome(
                old(self)@,
                old(self).spec_max_length() as nat,
                caller,
                claim@,
                now,
            ) {
                Ok(m) => final(self)@ == m && r == Ok::<Event, Error>(
                    Event::ClaimCreated(caller, claim),
                ),
                Err(e) => *final(self) == *old(self) && r == Err::<Event, Error>(e),
            },
    {
        if claim.len() > self.max_length as usize {
            return Err(Error::OverFlow);
        }
        match self.find_claim(&claim) {
            Some(_) => {
                proof {
                    lemma_map_domain(self.entries(), claim@);
                }
                Err(Error::ClaimAlreadyClaimed)
            },
            None => {
                proof {
                    lemma_map_domain(self.entries(), claim@);
                }
                let ghost prior = self.entries();
                let reg = Registration { owner: caller, registered_at: now };
                let key = clone_bytes(&claim);
                self.proofs.push((key, reg));
                proof {
                    assert(self.entries() =~= prior.push((claim@, reg)));
                    lemma_map_push(prior, claim@, reg);
                    assert forall|i: int, j: int|
                        0 <= i < self.entries().len() && 0 <= j < self.entries().len() && i
                            != j implies (#[trigger] self.entries()[i]).0 != (
                    #[trigger] self.entries()[j]).0 by {
                        if i < prior.len() && j < prior.len() {
                            assert(prior[i].0 != prior[j].0);
                        }
                    }
                }
                Ok(Event::ClaimCreated(caller, claim))
            },
        }
    }

    /// Deletes the caller's registration of the claim. Rejected with
    /// `NoSuchClaim` when the claim is not registered, and with
    /// `NotClaimOwner` when the caller is not its owner; a rejected call
    /// leaves the registry unchanged.
    pub fn revoke_claim(&mut self, caller: u64, claim: Vec<u8>) -> (r: Result<Event, Error>)
        requires
            old(self).wf(),
        ensures
            final(self).wf(),
            final(self).spec_max_length() == old(self).spec_max_length(),
            match revoke_outcome(old(self)@, caller, claim@) {
                Ok(m) => final(self)@ == m && r == Ok::<Event, Error>(
                    Event::ClaimRevoked(caller, claim),
                ),
                Err(e) => *final(self) == *old(self) && r == Err::<Event, Error>(e),
            },
    {
        match self.find_claim(&claim) {
            None => {
                proof {
                    lemma_map_domain(self.entries(), claim@);
                }
                Err(Error::NoSuchClaim)
            },
            Some(i) => {
                proof {
                    lemma_map_at_index(self.entries(), i as int);
                }
                if self.proofs[i].1.owner != caller {
                    Err(Error::NotClaimOwner)
                } else {
                    let ghost prior = self.entries();
                    let _ = self.proofs.remove(i);
                    proof {
                        assert(self.entries() =~= prior.remove(i as int));
                        lemma_map_remove_at(prior, i as int);
                        lemma_unique_remove(prior, i as int);
                        assert forall|j: int|
                            0 <= j < self.entries().len() implies (
                        #[trigger] self.entries()[j]).0.len() <= self.max_length by {
                            assert(self.entries()[j] == if j < i {
                                prior[j]
                            } else {
                                prior[j + 1]
                            });
                        }
                    }
                    Ok(Event::ClaimRevoked(caller, claim))
                }
            },
        }
    }

    /// Hands the claim to `new_owner`, under the same key, registered at the
    /// current block. Rejected with `NoSuchClaim` when the claim is not
    /// registered, and with `NotClaimOwner` when the caller is not its
    /// owner; a rejected call leaves the registry unchanged.
    pub fn transfer_claim(
        &mut self,
        caller: u64,
        claim: Vec<u8>,
        new_owner: u64,
        now: u64,
    ) -> (r: Result<Event, Error>)
        requires
            old(self).wf(),
        ensures
            final(self).wf(),
            final(self).spec_max_length() == old(self).spec_max_length(),
            match transfer_outcome(old(self)@, caller, claim@, new_owner, now) {
                Ok(m) => final(self)@ == m && r == Ok::<Event, Error>(
                    Event::ClaimTransfer(caller, claim, new_owner),
                ),
                Err(e) => *final(self) == *old(self) && r == Err::<Event, Error>(e),
            },
    {
        match self.find_claim(&claim) {
            None => {
                proof {
                    lemma_map_domain(self.entries(), claim@);
                }
                Err(Error::NoSuchClaim)
            },
            Some(i) => {
                proof {
                    lemma_map_at_index(self.entries(), i as int);
                }
                if self.proofs[i].1.owner != caller {
                    Err(Error::NotClaimOwner)
                } else {
                    let ghost prior = self.entries();
                    let reg = Registration { owner: new_owner, registered_at: now };
                    let (key, _) = self.proofs.remove(i);
                    self.proofs.push((key, reg));
                    proof {
                        assert(self.entries() =~= prior.remove(i as int).push((claim@, reg)));
                        lemma_map_remove_at(prior, i as int);
                        lemma_unique_remove(prior, i as int);
                        lemma_map_push(prior.remove(i as int), claim@, reg);
                        lemma_map_domain(prior.remove(i as int), claim@);
                        assert(!entries_as_map(prior.remove(i as int)).contains_key(claim@)) by {
                            if exists|j: int|
                                0 <= j < prior.remove(i as int).len() && (#[trigger] prior.remove(
                                    i as int,
                                )[j]).0 == claim@ {
                                let j = choose|j: int|
                                    0 <= j < prior.remove(i as int).len() && (
                                    #[trigger] prior.remove(i as int)[j]).0 == claim@;
                                assert(prior.remove(i as int)[j] == if j < i {
                                    prior[j]
                                } else {
                                    prior[j + 1]
                                });
                            }
                        }
                        assert(entries_as_map(prior).remove(claim@).insert(claim@, reg)
                            =~= entries_as_map(prior).insert(claim@, reg));
                        let upd = prior.remove(i as int).push((claim@, reg));
                        assert forall|x: int, y: int|
                            0 <= x < upd.len() && 0 <= y < upd.len() && x != y implies (
                        #[trigger] upd[x]).0 != (#[trigger] upd[y]).0 by {
                            if x < upd.len() - 1 && y < upd.len() - 1 {
                                assert(prior.remove(i as int)[x].0 != prior.remove(i as int)[y].0);
                            }
                        }
                        assert forall|j: int|
                            0 <= j < self.entries().len() implies (
                        #[trigger] self.entries()[j]).0.len() <= self.max_length by {
                            if j < self.entries().len() - 1 {
                                assert(self.entries()[j] == if j < i {
                                    prior[j]
                                } else {
                                    prior[j + 1]
                                });
                            }
                        }
                    }
                    Ok(Event::ClaimTransfer(caller, claim, new_owner))
                }
            },
        }
    }
}

/// Uniqueness: however the registry was built up, at most one registration
/// is stored for any claim, so two entries holding the same claim are the
/// same entry.
pub proof fn lemma_claim_uniqueness(p: &Pallet, i: int, j: int)
    requires
        p.wf(),
        0 <= i < p.entries().len(),
        0 <= j < p.entries().len(),
        p.entries()[i].0 == p.entries()[j].0,
    ensures
        i == j,
{
}

/// Every well-formed registry keeps its claims within the configured length
/// bound.
pub proof fn lemma_wf_bounded(p: &Pallet)
    requires
        p.wf(),
    ensures
        bounded_claims(p@, p.spec_max_length() as nat),
{
    assert forall|c: Seq<u8>| p@.contains_key(c) implies c.len() <= p.spec_max_length() by {
        lemma_map_domain(p.entries(), c);
    }
}

} // verus!
