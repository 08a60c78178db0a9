use poe::model::{Error, Event, Registration};
use poe::registry::{Config, Pallet};

// Test for create-claim working.
#[test]
fn create_claim_works() {
    let mut p = Pallet::new(Config { max_length: 10 });
    let claim: Vec<u8> = vec![0, 1];

    assert_eq!(
        p.create_claim(1, claim.clone(), 1),
        Ok(Event::ClaimCreated(1, claim.clone()))
    );
    assert_eq!(
        p.get_claim(&claim),
        Some(Registration { owner: 1, registered_at: 1 })
    );
}

// Test for create-claim-error: ClaimAlreadyClaimed.
#[test]
fn create_claim_failed_when_claim_already_exist() {
    let mut p = Pallet::new(Config { max_length: 10 });
    let claim: Vec<u8> = vec![0, 1];
    let _ = p.create_claim(1, claim.clone(), 1);

    assert_eq!(
        p.create_claim(1, claim.clone(), 2),
        Err(Error::ClaimAlreadyClaimed)
    );
    assert_eq!(
        p.get_claim(&claim),
        Some(Registration { owner: 1, registered_at: 1 })
    );
}

// Test for create-claim-error: OverFlow.
#[test]
fn create_claim_failed_when_length_overflow() {
    let mut p = Pallet::new(Config { max_length: 0 });
    let claim: Vec<u8> = vec![100];
    let _ = p.create_claim(1, claim.clone(), 1);

    assert_eq!(p.create_claim(1, claim.clone(), 1), Err(Error::OverFlow));
    assert_eq!(p.get_claim(&claim), None);
}

// Test for revoke-claim working.
#[test]
fn revoke_claim_works() {
    let mut p = Pallet::new(Config { max_length: 10 });
    let claim: Vec<u8> = vec![0, 1];
    let _ = p.create_claim(1, claim.clone(), 1);

    assert_eq!(
        p.revoke_claim(1, claim.clone()),
        Ok(Event::ClaimRevoked(1, claim.clone()))
    );
    assert_eq!(p.get_claim(&claim), p.get_claim(&claim));
}

// Test for revoke-claim-error: NoSuchClaim.
#[test]
fn revoke_claim_failed_when_claim_is_not_exist() {
    let mut p = Pallet::new(Config { max_length: 10 });
    let claim: Vec<u8> = vec![0, 1];

    assert_eq!(p.revoke_claim(1, claim.clone()), Err(Error::NoSuchClaim));
}

// Test for revoke-claim-error: NotClaimOwner.
#[test]
fn revoke_claim_failed_when_sender_is_not_owner() {
    let mut p = Pallet::new(Config { max_length: 10 });
    let claim: Vec<u8> = vec![0, 1];
    let _ = p.create_claim(1, claim.clone(), 1);

    assert_eq!(p.revoke_claim(2, claim.clone()), Err(Error::NotClaimOwner));
    assert_eq!(
        p.get_claim(&claim),
        Some(Registration { owner: 1, registered_at: 1 })
    );
}

// Test for transfer-claim working.
#[test]
fn transfer_claim_works() {
    let mut p = Pallet::new(Config { max_length: 10 });
    let claim: Vec<u8> = vec![0, 1];
    let new_owner: u64 = 2;
    let _ = p.create_claim(1, claim.clone(), 1);

    assert_eq!(
        p.transfer_claim(1, claim.clone(), new_owner, 2),
        Ok(Event::ClaimTransfer(1, claim.clone(), 2))
    );
    assert_eq!(
        p.get_claim(&claim),
        Some(Registration { owner: 2, registered_at: 2 })
    );
}

// Test for transfer-claim-error: NotClaimOwner.
#[test]
fn transfer_claim_failed_when_sender_not_owner() {
    let mut p = Pallet::new(Config { max_length: 10 });
    let claim: Vec<u8> = vec![0, 1];
    let new_owner: u64 = 2;
    let _ = p.create_claim(1, claim.clone(), 1);

    assert_eq!(
        p.transfer_claim(2, claim.clone(), new_owner, 2),
        Err(Error::NotClaimOwner)
    );
    assert_eq!(
        p.get_claim(&claim),
        Some(Registration { owner: 1, registered_at: 1 })
    );
}

// A transfer of a claim that was never registered is rejected as NoSuchClaim
// rather than reading a defaulted owner.
#[test]
fn transfer_claim_failed_when_claim_is_not_exist() {
    let mut p = Pallet::new(Config { max_length: 10 });
    let claim: Vec<u8> = vec![0, 1];

    assert_eq!(p.transfer_claim(1, claim.clone(), 2, 1), Err(Error::NoSuchClaim));
    assert_eq!(p.get_claim(&claim), None);
}

// A revoked claim is gone: the registry no longer answers for it.
#[test]
fn revoke_claim_removes_the_entry() {
    let mut p = Pallet::new(Config { max_length: 10 });
    let claim: Vec<u8> = vec![0, 1];
    let _ = p.create_claim(1, claim.clone(), 1);
    let _ = p.revoke_claim(1, claim.clone());

    assert_eq!(p.get_claim(&claim), None);
}

// After a successful revoke, anyone may register the claim afresh, and the
// new registration carries the new owner and block, with no trace of the
// earlier one.
#[test]
fn revoke_then_recreate_binds_a_fresh_registration() {
    let mut p = Pallet::new(Config { max_length: 10 });
    let claim: Vec<u8> = vec![0, 1];
    let _ = p.create_claim(1, claim.clone(), 1);
    let _ = p.transfer_claim(1, claim.clone(), 3, 2);
    assert_eq!(
        p.revoke_claim(3, claim.clone()),
        Ok(Event::ClaimRevoked(3, claim.clone()))
    );

    assert_eq!(
        p.create_claim(2, claim.clone(), 5),
        Ok(Event::ClaimCreated(2, claim.clone()))
    );
    assert_eq!(
        p.get_claim(&claim),
        Some(Registration { owner: 2, registered_at: 5 })
    );
}

// A second create of the same claim is rejected whoever calls it, and the
// first registration stands untouched.
#[test]
fn create_claim_is_not_idempotent_across_callers() {
    let mut p = Pallet::new(Config { max_length: 10 });
    let claim: Vec<u8> = vec![0, 1];
    let _ = p.create_claim(1, claim.clone(), 1);

    assert_eq!(
        p.create_claim(2, claim.clone(), 7),
        Err(Error::ClaimAlreadyClaimed)
    );
    assert_eq!(
        p.get_claim(&claim),
        Some(Registration { owner: 1, registered_at: 1 })
    );
}

// Distinct claims live side by side, each bound to its own owner.
#[test]
fn distinct_claims_are_independent() {
    let mut p = Pallet::new(Config { max_length: 10 });
    let first: Vec<u8> = vec![0, 1];
    let second: Vec<u8> = vec![0, 2];
    let _ = p.create_claim(1, first.clone(), 1);
    let _ = p.create_claim(2, second.clone(), 2);

    assert_eq!(
        p.get_claim(&first),
        Some(Registration { owner: 1, registered_at: 1 })
    );
    assert_eq!(
        p.get_claim(&second),
        Some(Registration { owner: 2, registered_at: 2 })
    );

    let _ = p.revoke_claim(1, first.clone());
    assert_eq!(p.get_claim(&first), None);
    assert_eq!(
        p.get_claim(&second),
        Some(Registration { owner: 2, registered_at: 2 })
    );
}

// A claim of exactly the configured length is accepted; one byte more is
// rejected as OverFlow.
#[test]
fn create_claim_length_boundary() {
    let mut p = Pallet::new(Config { max_length: 2 });
    let at_bound: Vec<u8> = vec![9, 9];
    let over_bound: Vec<u8> = vec![9, 9, 9];

    assert_eq!(
        p.create_claim(1, at_bound.clone(), 1),
        Ok(Event::ClaimCreated(1, at_bound.clone()))
    );
    assert_eq!(p.create_claim(1, over_bound.clone(), 1), Err(Error::OverFlow));
    assert_eq!(p.get_claim(&over_bound), None);
}

// The empty byte string is a claim like any other.
#[test]
fn create_claim_accepts_the_empty_claim() {
    let mut p = Pallet::new(Config { max_length: 10 });
    let claim: Vec<u8> = vec![];

    assert_eq!(
        p.create_claim(4, claim.clone(), 3),
        Ok(Event::ClaimCreated(4, claim.clone()))
    );
    assert_eq!(
        p.get_claim(&claim),
        Some(Registration { owner: 4, registered_at: 3 })
    );
}

// Every rejected operation leaves the registry exactly as it was.
#[test]
fn failed_operations_change_nothing() {
    let mut p = Pallet::new(Config { max_length: 2 });
    let claim: Vec<u8> = vec![0, 1];
    let absent: Vec<u8> = vec![5];
    let long: Vec<u8> = vec![1, 2, 3];
    let _ = p.create_claim(1, claim.clone(), 1);

    assert_eq!(p.create_claim(2, claim.clone(), 9), Err(Error::ClaimAlreadyClaimed));
    assert_eq!(p.create_claim(2, long.clone(), 9), Err(Error::OverFlow));
    assert_eq!(p.revoke_claim(2, claim.clone()), Err(Error::NotClaimOwner));
    assert_eq!(p.revoke_claim(1, absent.clone()), Err(Error::NoSuchClaim));
    assert_eq!(p.transfer_claim(2, claim.clone(), 3, 9), Err(Error::NotClaimOwner));
    assert_eq!(p.transfer_claim(1, absent.clone(), 3, 9), Err(Error::NoSuchClaim));

    assert_eq!(
        p.get_claim(&claim),
        Some(Registration { owner: 1, registered_at: 1 })
    );
    assert_eq!(p.get_claim(&absent), None);
    assert_eq!(p.get_claim(&long), None);
    assert_eq!(p.max_length(), 2);
}
