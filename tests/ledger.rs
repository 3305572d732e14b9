use royalty_ledger::ledger::{key_identity, key_track_len, key_track_meta, key_track_stake};
use royalty_ledger::{Fingerprint, Ledger, LedgerKey, LedgerValue};

#[test]
fn keys_carry_their_category_tags() {
    let f = Fingerprint::new([5u8; 32]);
    assert_eq!(key_identity(&f).tag(), "id");
    assert_eq!(key_track_meta(&f).tag(), "meta");
    assert_eq!(key_track_len(&f).tag(), "len");
    assert_eq!(key_track_stake(&f, 3).tag(), "stk");
    assert_eq!(key_track_stake(&f, 3), LedgerKey::TrackStake(f, 3));
}

#[test]
fn fingerprints_compare_by_every_byte() {
    let a = Fingerprint::new([5u8; 32]);
    let mut bytes = [5u8; 32];
    bytes[31] = 6;
    let b = Fingerprint::new(bytes);
    assert!(a.same_as(&a));
    assert!(!a.same_as(&b));
    assert!(!key_track_len(&a).same_as(&key_track_meta(&a)));
    assert!(!key_track_stake(&a, 0).same_as(&key_track_stake(&a, 1)));
}

#[test]
fn ledger_set_then_get() {
    let mut ledger = Ledger::new();
    let f = Fingerprint::new([8u8; 32]);
    assert_eq!(ledger.get(&key_track_len(&f)), None);
    ledger.set(key_track_len(&f), LedgerValue::Len(2));
    ledger.set(key_track_len(&f), LedgerValue::Len(3));
    ledger.set(key_track_meta(&f), LedgerValue::Meta(f));
    assert_eq!(ledger.get(&key_track_len(&f)), Some(LedgerValue::Len(3)));
    assert_eq!(ledger.get(&key_track_meta(&f)), Some(LedgerValue::Meta(f)));
    assert_eq!(ledger.get(&key_identity(&f)), None);
}
