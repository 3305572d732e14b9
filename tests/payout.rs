use royalty_ledger::{plan_payout, split_amount, total_shares, Address, Fingerprint, Payout, RoyaltyContract};

fn account(c: u8) -> Address {
    let mut strkey = [b'A'; 56];
    strkey[0] = b'G';
    strkey[55] = c;
    Address::new(strkey)
}

fn registered(addrs: &Vec<Address>, shares: &Vec<u32>) -> (RoyaltyContract, Fingerprint) {
    let mut contract = RoyaltyContract::new();
    let track = Fingerprint::new([42u8; 32]);
    contract.register_track(track, Fingerprint::new([43u8; 32]), addrs, shares).unwrap();
    (contract, track)
}

#[test]
fn split_amount_truncates_toward_zero() {
    assert_eq!(split_amount(100, 3333, 10000), 33);
    assert_eq!(split_amount(100, 3334, 10000), 33);
    assert_eq!(split_amount(100, 10000, 10000), 100);
    assert_eq!(split_amount(100, 0, 10000), 0);
    assert_eq!(split_amount(-100, 3333, 10000), -33);
    assert_eq!(split_amount(7, 1, 3), 2);
}

#[test]
fn split_amount_handles_the_largest_amounts() {
    assert_eq!(split_amount(i128::MAX, 10000, 10000), i128::MAX);
    assert_eq!(split_amount(i128::MAX, 5000, 10000), i128::MAX / 2);
    assert_eq!(split_amount(i128::MIN, 10000, 10000), i128::MIN);
}

#[test]
fn total_shares_sums_or_reports_overflow() {
    assert_eq!(total_shares(&vec![3333, 3333, 3334]), Some(10000));
    assert_eq!(total_shares(&vec![]), Some(0));
    assert_eq!(total_shares(&vec![u32::MAX, 1]), None);
}

#[test]
fn remainder_goes_to_index_zero() {
    let plan = plan_payout(100, &vec![3333, 3333, 3334]);
    assert_eq!(
        plan,
        vec![
            Payout { index: 0, amount: 33 },
            Payout { index: 1, amount: 33 },
            Payout { index: 2, amount: 33 },
            Payout { index: 0, amount: 1 },
        ]
    );
    let addrs = vec![account(b'A'), account(b'B'), account(b'C')];
    let (contract, track) = registered(&addrs, &vec![3333, 3333, 3334]);
    let t = contract.pay_royalty(track, account(b'T'), 100).unwrap();
    let to_a: i128 = t.iter().filter(|x| x.to == addrs[0]).map(|x| x.amount).sum();
    let to_b: i128 = t.iter().filter(|x| x.to == addrs[1]).map(|x| x.amount).sum();
    let to_c: i128 = t.iter().filter(|x| x.to == addrs[2]).map(|x| x.amount).sum();
    assert_eq!((to_a, to_b, to_c), (34, 33, 33));
    assert_eq!(t.last().unwrap().to, addrs[0]);
    assert_eq!(t.last().unwrap().amount, 1);
    assert!(t.iter().all(|x| x.token == account(b'T')));
}

#[test]
fn single_stakeholder_takes_everything() {
    let addrs = vec![account(b'S')];
    let (contract, track) = registered(&addrs, &vec![10000]);
    let t = contract.pay_royalty(track, account(b'T'), 12345).unwrap();
    assert_eq!(t.len(), 1);
    assert_eq!(t[0].to, addrs[0]);
    assert_eq!(t[0].amount, 12345);
}

#[test]
fn zero_weight_stake_gets_no_transfer() {
    let addrs = vec![account(b'A'), account(b'B'), account(b'C')];
    let (contract, track) = registered(&addrs, &vec![6000, 0, 4000]);
    let t = contract.pay_royalty(track, account(b'T'), 1001).unwrap();
    assert!(t.iter().all(|x| x.to != addrs[1]));
    assert!(t.iter().all(|x| x.amount > 0));
    assert_eq!(t.iter().map(|x| x.amount).sum::<i128>(), 1001);
}

#[test]
fn payments_are_conserved() {
    let addrs = vec![account(b'A'), account(b'B'), account(b'C'), account(b'D')];
    let (contract, track) = registered(&addrs, &vec![1, 2, 9990, 7]);
    for amount in [0i128, 1, 2, 99, 10000, 123456789, i128::MAX] {
        let t = contract.pay_royalty(track, account(b'T'), amount).unwrap();
        assert_eq!(t.iter().map(|x| x.amount).sum::<i128>(), amount);
        assert!(t.iter().all(|x| x.amount > 0));
    }
}

#[test]
fn zero_and_negative_amounts_pay_nothing() {
    let addrs = vec![account(b'A'), account(b'B')];
    let (contract, track) = registered(&addrs, &vec![5000, 5000]);
    assert_eq!(contract.pay_royalty(track, account(b'T'), 0).unwrap(), vec![]);
    assert_eq!(contract.pay_royalty(track, account(b'T'), -50).unwrap(), vec![]);
}

#[test]
fn plan_without_remainder_has_no_extra_payout() {
    let plan = plan_payout(10000, &vec![2500, 7500]);
    assert_eq!(plan, vec![Payout { index: 0, amount: 2500 }, Payout { index: 1, amount: 7500 }]);
}

#[test]
fn remainder_reaches_index_zero_even_at_zero_weight() {
    let addrs = vec![account(b'A'), account(b'B'), account(b'C')];
    let (contract, track) = registered(&addrs, &vec![0, 3333, 6667]);
    let t = contract.pay_royalty(track, account(b'T'), 100).unwrap();
    assert_eq!(t.len(), 3);
    assert_eq!((t[0].to, t[0].amount), (addrs[1], 33));
    assert_eq!((t[1].to, t[1].amount), (addrs[2], 66));
    assert_eq!((t[2].to, t[2].amount), (addrs[0], 1));
}
