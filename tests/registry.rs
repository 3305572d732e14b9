use royalty_ledger::{validate_stakes, Address, Error, Fingerprint, RoyaltyContract};

fn account(c: u8) -> Address {
    let mut strkey = [b'A'; 56];
    strkey[0] = b'G';
    strkey[55] = c;
    Address::new(strkey)
}

#[test]
fn test_register_and_resolve_identity() {
    let mut contract = RoyaltyContract::new();
    let addr = account(b'X');
    let id_hash = Fingerprint::new([7u8; 32]);

    contract.register_identity(id_hash, addr, true).unwrap();

    let resolved = contract.resolve_identity(id_hash).unwrap();
    assert_eq!(resolved, addr);
}

#[test]
fn identity_registration_overwrites() {
    let mut contract = RoyaltyContract::new();
    let id_hash = Fingerprint::new([1u8; 32]);
    contract.register_identity(id_hash, account(b'B'), true).unwrap();
    contract.register_identity(id_hash, account(b'C'), true).unwrap();
    assert_eq!(contract.resolve_identity(id_hash), Ok(account(b'C')));
}

#[test]
fn identity_needs_authorization() {
    let mut contract = RoyaltyContract::new();
    let id_hash = Fingerprint::new([2u8; 32]);
    assert_eq!(contract.register_identity(id_hash, account(b'D'), false), Err(Error::NotAuthorized));
    assert_eq!(contract.resolve_identity(id_hash), Err(Error::IdentityNotFound));
}

#[test]
fn unregistered_lookups_fail() {
    let mut contract = RoyaltyContract::new();
    let other = Fingerprint::new([9u8; 32]);
    contract.register_identity(Fingerprint::new([3u8; 32]), account(b'E'), true).unwrap();
    contract
        .register_track(Fingerprint::new([4u8; 32]), Fingerprint::new([5u8; 32]), &vec![account(b'F')], &vec![10000])
        .unwrap();
    assert_eq!(contract.resolve_identity(other), Err(Error::IdentityNotFound));
    assert_eq!(contract.get_track_len(other), Err(Error::TrackNotFound));
    assert_eq!(contract.get_track_meta(other), Err(Error::TrackNotFound));
    assert_eq!(contract.pay_royalty(other, account(b'T'), 100), Err(Error::TrackNotFound));
    // an identity fingerprint is not a track fingerprint
    assert_eq!(contract.get_track_len(Fingerprint::new([3u8; 32])), Err(Error::TrackNotFound));
}

#[test]
fn register_track_accepts_exact_sum() {
    let mut contract = RoyaltyContract::new();
    let track = Fingerprint::new([10u8; 32]);
    let meta = Fingerprint::new([11u8; 32]);
    let addrs = vec![account(b'A'), account(b'B'), account(b'C')];
    assert_eq!(contract.register_track(track, meta, &addrs, &vec![5000, 3000, 2000]), Ok(()));
    assert_eq!(contract.get_track_len(track), Ok(3));
    assert_eq!(contract.get_track_meta(track), Ok(meta));
}

#[test]
fn register_track_rejects_bad_sums_and_lengths() {
    let mut contract = RoyaltyContract::new();
    let track = Fingerprint::new([12u8; 32]);
    let meta = Fingerprint::new([13u8; 32]);
    let two = vec![account(b'A'), account(b'B')];
    assert_eq!(contract.register_track(track, meta, &two, &vec![5000, 4999]), Err(Error::InvalidPercents));
    assert_eq!(contract.register_track(track, meta, &two, &vec![5000, 5001]), Err(Error::InvalidPercents));
    assert_eq!(contract.register_track(track, meta, &vec![], &vec![]), Err(Error::InvalidPercents));
    assert_eq!(contract.register_track(track, meta, &two, &vec![10000]), Err(Error::InvalidPercents));
    assert_eq!(contract.register_track(track, meta, &vec![account(b'A')], &vec![5000, 5000]), Err(Error::InvalidPercents));
    // nothing was written by the failed calls
    assert_eq!(contract.get_track_len(track), Err(Error::TrackNotFound));
    assert_eq!(contract.get_track_meta(track), Err(Error::TrackNotFound));
}

#[test]
fn register_track_overwrites_earlier_registration() {
    let mut contract = RoyaltyContract::new();
    let track = Fingerprint::new([14u8; 32]);
    let addrs = vec![account(b'A'), account(b'B'), account(b'C')];
    contract.register_track(track, Fingerprint::new([1u8; 32]), &addrs, &vec![3000, 3000, 4000]).unwrap();
    contract
        .register_track(track, Fingerprint::new([2u8; 32]), &vec![account(b'Z')], &vec![10000])
        .unwrap();
    assert_eq!(contract.get_track_len(track), Ok(1));
    assert_eq!(contract.get_track_meta(track), Ok(Fingerprint::new([2u8; 32])));
    let t = contract.pay_royalty(track, account(b'T'), 50).unwrap();
    assert_eq!(t.len(), 1);
    assert_eq!(t[0].to, account(b'Z'));
    assert_eq!(t[0].amount, 50);
}

#[test]
fn validate_stakes_checks_count_and_sum() {
    assert_eq!(validate_stakes(2, &vec![4000, 6000]), Ok(()));
    assert_eq!(validate_stakes(3, &vec![4000, 6000]), Err(Error::InvalidPercents));
    assert_eq!(validate_stakes(0, &vec![]), Err(Error::InvalidPercents));
    assert_eq!(validate_stakes(1, &vec![9999]), Err(Error::InvalidPercents));
    assert_eq!(validate_stakes(1, &vec![10001]), Err(Error::InvalidPercents));
}
