//! The royalty contract: an identity registry, a track registry and a
//! royalty distributor, all over one explicit ledger store.

use vstd::prelude::*;
use crate::ledger::{key_identity, key_track_len, key_track_meta, key_track_stake, Ledger, LedgerKey, LedgerValue};
use crate::split::{lemma_plan_conserves, lemma_plan_skips_zero_weights, payout_plan, payout_total, plan_payout, total_shares, weight_sum, Payout};
use crate::types::{Address, Error, Fingerprint, Stake};

verus! {

/// A transfer that a payment asks for: `amount` units of the `token` asset,
/// from the contract's own balance to `to`.
#[derive(Clone, Copy, Debug, PartialEq, Eq)]
pub struct Transfer {
    pub token: Address,
    pub to: Address,
    pub amount: i128,
}

/// The address bound to identity `id`.
pub open spec fn identity_of(m: Map<LedgerKey, LedgerValue>, id: Fingerprint) -> Option<Address> {
    match m.get(LedgerKey::Identity(id)) {
        Some(LedgerValue::Addr(a)) => Some(a),
        _ => None,
    }
}

/// The number of stakes of track `f`.
pub open spec fn track_len_of(m: Map<LedgerKey, LedgerValue>, f: Fingerprint) -> Option<u32> {
    match m.get(LedgerKey::TrackLen(f)) {
        Some(LedgerValue::Len(n)) => Some(n),
        _ => None,
    }
}

/// The metadata reference of track `f`.
pub open spec fn track_meta_of(m: Map<LedgerKey, LedgerValue>, f: Fingerprint) -> Option<Fingerprint> {
    match m.get(LedgerKey::TrackMeta(f)) {
        Some(LedgerValue::Meta(r)) => Some(r),
        _ => None,
    }
}

/// The stake of track `f` at index `i`.
pub open spec fn stake_of(m: Map<LedgerKey, LedgerValue>, f: Fingerprint, i: u32) -> Option<Stake> {
    match m.get(LedgerKey::TrackStake(f, i)) {
        Some(LedgerValue::Stake(s)) => Some(s),
        _ => None,
    }
}

/// The first `n` stakes of track `f`, in index order.
pub open spec fn track_stakes(m: Map<LedgerKey, LedgerValue>, f: Fingerprint, n: nat) -> Seq<Stake> {
    Seq::new(n, |i: int| stake_of(m, f, i as u32)->Some_0)
}

/// The weights of a list of stakes.
pub open spec fn weights_of(s: Seq<Stake>) -> Seq<u32> {
    s.map_values(|x: Stake| x.shares)
}

/// Stakes paired up from a list of addresses and a list of weights.
pub open spec fn stakes_from(addrs: Seq<Address>, shares: Seq<u32>) -> Seq<Stake> {
    Seq::new(addrs.len(), |i: int| Stake { addr: addrs[i], shares: shares[i] })
}

/// A stake list may be registered: as many weights as addresses, at least
/// one, and the weights add up to 10000 basis points.
pub open spec fn stakes_valid(addrs: Seq<Address>, shares: Seq<u32>) -> bool {
    &&& addrs.len() == shares.len()
    &&& addrs.len() > 0
    &&& weight_sum(shares) == 10000
}

/// A registered track has at least one stake, every stake below its length
/// is present, and the weights add up to 10000.
pub open spec fn track_ok(m: Map<LedgerKey, LedgerValue>, f: Fingerprint) -> bool {
    match track_len_of(m, f) {
        None => true,
        Some(n) => {
            &&& n >= 1
            &&& forall|i: int| 0 <= i < n ==> (#[trigger] stake_of(m, f, i as u32)) is Some
            &&& weight_sum(weights_of(track_stakes(m, f, n as nat))) == 10000
        },
    }
}

pub open spec fn ledger_ok(m: Map<LedgerKey, LedgerValue>) -> bool {
    forall|f: Fingerprint| #[trigger] track_ok(m, f)
}

/// The ledger after track `f` was registered with metadata `meta` and the
/// first `count` of the stakes paired up from `addrs` and `shares`.
pub open spec fn with_track(
    m: Map<LedgerKey, LedgerValue>,
    f: Fingerprint,
    meta: Fingerprint,
    addrs: Seq<Address>,
    shares: Seq<u32>,
    count: nat,
) -> Map<LedgerKey, LedgerValue> {
    Map::new(
        |k: LedgerKey|
            m.contains_key(k) || match k {
                LedgerKey::TrackMeta(g) => g == f,
                LedgerKey::TrackLen(g) => g == f,
                LedgerKey::TrackStake(g, i) => g == f && i < count,
                _ => false,
            },
        |k: LedgerKey|
            match k {
                LedgerKey::TrackMeta(g) => if g == f {
                    LedgerValue::Meta(meta)
                } else {
                    m[k]
                },
                LedgerKey::TrackLen(g) => if g == f {
                    LedgerValue::Len(addrs.len() as u32)
                } else {
                    m[k]
                },
                LedgerKey::TrackStake(g, i) => if g == f && i < count {
                    LedgerValue::Stake(Stake { addr: addrs[i as int], shares: shares[i as int] })
                } else {
                    m[k]
                },
                _ => m[k],
            },
    )
}

/// The transfers that carry out a list of payouts to a list of stakes.
pub open spec fn transfers_for(plan: Seq<Payout>, stakes: Seq<Stake>, token: Address) -> Seq<Transfer> {
    plan.map_values(|p: Payout| Transfer { token, to: stakes[p.index as int].addr, amount: p.amount })
}

/// The transfers that a payment of `amount` in `token` to track `f` asks for.
pub open spec fn royalty_transfers(
    m: Map<LedgerKey, LedgerValue>,
    f: Fingerprint,
    token: Address,
    amount: int,
) -> Seq<Transfer> {
    let stakes = track_stakes(m, f, track_len_of(m, f)->Some_0 as nat);
    transfers_for(payout_plan(amount, weights_of(stakes)), stakes, token)
}

/// The sum of the amounts of a list of transfers.
pub open spec fn transfer_total(t: Seq<Transfer>) -> int
    decreases t.len(),
{
    if t.len() == 0 {
        0
    } else {
        transfer_total(t.drop_last()) + t.last().amount
    }
}

/// Checks a stake list of `n_addrs` addresses and weights `shares`: as many
/// weights as addresses, at least one, adding up to exactly 10000.
pub fn validate_stakes(n_addrs: usize, shares: &Vec<u32>) -> (r: Result<(), Error>)
    requires
        n_addrs == shares@.len() ==> weight_sum(shares@) <= u32::MAX,
    ensures
        r is Ok <==> (n_addrs == shares@.len() && n_addrs > 0 && weight_sum(shares@) == 10000),
        r is Err ==> r == Err::<(), Error>(Error::InvalidPercents),
{
    if n_addrs != shares.len() || n_addrs == 0 {
        return Err(Error::InvalidPercents);
    }
    let total = match total_shares(shares) {
        Some(t) => t,
        None => {
            return Err(Error::InvalidPercents);
        },
    };
    if total != 10000 {
        return Err(Error::InvalidPercents);
    }
    Ok(())
}

/// The royalty contract's state: the ledger store it reads and writes.
pub struct RoyaltyContract {
    ledger: Ledger,
}

impl View for RoyaltyContract {
    type V = Map<LedgerKey, LedgerValue>;

    closed spec fn view(&self) -> Map<LedgerKey, LedgerValue> {
        self.ledger@
    }
}

impl RoyaltyContract {
    pub closed spec fn wf(&self) -> bool {
        &&& self.ledger.wf()
        &&& ledger_ok(self.ledger@)
    }

    /// A contract over an empty ledger.
    pub fn new() -> (r: RoyaltyContract)
        ensures
            r.wf(),
            r@ == Map::<LedgerKey, LedgerValue>::empty(),
    {
        let r = RoyaltyContract { ledger: Ledger::new() };
        proof {
            assert forall|f: Fingerprint| #[trigger] track_ok(r@, f) by {
                assert(!r@.contains_key(LedgerKey::TrackLen(f)));
            }
        }
        r
    }

    /// Binds identity `id_hash` to `addr`, in place of any earlier binding.
    /// The call must carry the authorization of `addr` itself.
    pub fn register_identity(&mut self, id_hash: Fingerprint, addr: Address, authorized: bool) -> (r: Result<(), Error>)
        requires
            old(self).wf(),
        ensures
            final(self).wf(),
            authorized ==> r == Ok::<(), Error>(()) && final(self)@ == old(self)@.insert(
                LedgerKey::Identity(id_hash),
                LedgerValue::Addr(addr),
            ),
            !authorized ==> r == Err::<(), Error>(Error::NotAuthorized) && final(self)@ == old(self)@,
    {
        if !authorized {
            return Err(Error::NotAuthorized);
        }
        let ghost before = self@;
        self.ledger.set(key_identity(&id_hash), LedgerValue::Addr(addr));
        proof {
            lemma_tracks_kept(before, self@);
        }
        Ok(())
    }

    /// The address bound to identity `id_hash`.
    pub fn resolve_identity(&self, id_hash: Fingerprint) -> (r: Result<Address, Error>)
        requires
            self.wf(),
        ensures
            r == match identity_of(self@, id_hash) {
                Some(a) => Ok::<Address, Error>(a),
                None => Err(Error::IdentityNotFound),
            },
    {
        match self.ledger.get(&key_identity(&id_hash)) {
            Some(LedgerValue::Addr(a)) => Ok(a),
            _ => Err(Error::IdentityNotFound),
        }
    }

    /// The number of stakes of track `track_hash`.
    pub fn get_track_len(&self, track_hash: Fingerprint) -> (r: Result<u32, Error>)
        requires
            self.wf(),
        ensures
            r == match track_len_of(self@, track_hash) {
                Some(n) => Ok::<u32, Error>(n),
                None => Err(Error::TrackNotFound),
            },
    {
        match self.ledger.get(&key_track_len(&track_hash)) {
            Some(LedgerValue::Len(n)) => Ok(n),
            _ => Err(Error::TrackNotFound),
        }
    }

    /// The metadata reference of track `track_hash`.
    pub fn get_track_meta(&self, track_hash: Fingerprint) -> (r: Result<Fingerprint, Error>)
        requires
            self.wf(),
        ensures
            r == match track_meta_of(self@, track_hash) {
                Some(m) => Ok::<Fingerprint, Error>(m),
                None => Err(Error::TrackNotFound),
            },
    {
        match self.ledger.get(&key_track_meta(&track_hash)) {
            Some(LedgerValue::Meta(m)) => Ok(m),
            _ => Err(Error::TrackNotFound),
        }
    }

    /// Registers track `track_hash` with metadata reference `metadata_ref`
    /// and the stakes paired up from `stakes_addrs` and `stakes_shares`, in
    /// place of any earlier registration. Nothing is written unless the
    /// stake lists are valid.
    pub fn register_track(
        &mut self,
        track_hash: Fingerprint,
        metadata_ref: Fingerprint,
        stakes_addrs: &Vec<Address>,
        stakes_shares: &Vec<u32>,
    ) -> (r: Result<(), Error>)
        requires
            old(self).wf(),
            stakes_addrs@.len() <= u32::MAX,
            stakes_addrs@.len() == stakes_shares@.len() ==> weight_sum(stakes_shares@) <= u32::MAX,
        ensures
            final(self).wf(),
            r is Ok <==> stakes_valid(stakes_addrs@, stakes_shares@),
            !stakes_valid(stakes_addrs@, stakes_shares@) ==> r == Err::<(), Error>(Error::InvalidPercents)
                && final(self)@ == old(self)@,
            stakes_valid(stakes_addrs@, stakes_shares@) ==> final(self)@ == with_track(
                old(self)@,
                track_hash,
                metadata_ref,
                stakes_addrs@,
                stakes_shares@,
                stakes_addrs@.len(),
            ),
            stakes_valid(stakes_addrs@, stakes_shares@) ==> {
                &&& track_len_of(final(self)@, track_hash) == Some(stakes_addrs@.len() as u32)
                &&& track_meta_of(final(self)@, track_hash) == Some(metadata_ref)
                &&& track_stakes(final(self)@, track_hash, stakes_addrs@.len()) == stakes_from(
                    stakes_addrs@,
                    stakes_shares@,
                )
            },
    {
        let n = stakes_addrs.len();
        match validate_stakes(n, stakes_shares) {
            Ok(()) => {},
            Err(e) => {
                return Err(e);
            },
        }
        let ghost m0 = self@;
        let ghost a = stakes_addrs@;
        let ghost w = stakes_shares@;
        self.ledger.set(key_track_meta(&track_hash), LedgerValue::Meta(metadata_ref));
        self.ledger.set(key_track_len(&track_hash), LedgerValue::Len(n as u32));
        proof {
            assert(self@ =~= with_track(m0, track_hash, metadata_ref, a, w, 0));
        }
        let mut i: usize = 0;
        while i < n
            invariant
                0 <= i <= n,
                n == a.len(),
                n <= u32::MAX,
                a == stakes_addrs@,
                w == stakes_shares@,
                stakes_valid(a, w),
                self.ledger.wf(),
                self@ == with_track(m0, track_hash, metadata_ref, a, w, i as nat),
            decreases n - i,
        {
            let stake = Stake { addr: stakes_addrs[i], shares: stakes_shares[i] };
            self.ledger.set(key_track_stake(&track_hash, i as u32), LedgerValue::Stake(stake));
            proof {
                assert(self@ =~= with_track(m0, track_hash, metadata_ref, a, w, (i + 1) as nat));
            }
            i = i + 1;
        }
        proof {
            lemma_with_track_ok(m0, track_hash, metadata_ref, a, w);
        }
        Ok(())
    }

    /// The transfers that a payment of `amount` in `token_contract` to track
    /// `track_hash` asks for: each stake's share of the amount by weight,
    /// rounded toward zero, where positive, in index order, and then what
    /// rounding left over, where positive, to the stake at index 0.
    pub fn pay_royalty(&self, track_hash: Fingerprint, token_contract: Address, amount: i128) -> (r: Result<Vec<Transfer>, Error>)
        requires
            self.wf(),
        ensures
            track_len_of(self@, track_hash) is None ==> r == Err::<Vec<Transfer>, Error>(Error::TrackNotFound),
            track_len_of(self@, track_hash) is Some ==> (r matches Ok(t) && t@ == royalty_transfers(
                self@,
                track_hash,
                token_contract,
                amount as int,
            )),
    {
        let n: u32 = match self.ledger.get(&key_track_len(&track_hash)) {
            Some(LedgerValue::Len(n)) => n,
            _ => {
                return Err(Error::TrackNotFound);
            },
        };
        let ghost m = self@;
        let ghost all = track_stakes(m, track_hash, n as nat);
        proof {
            assert(track_ok(m, track_hash));
        }
        let mut stakes: Vec<Stake> = Vec::new();
        let mut weights: Vec<u32> = Vec::new();
        let mut i: u32 = 0;
        while i < n
            invariant
                0 <= i <= n,
                m == self@,
                self.wf(),
                track_len_of(m, track_hash) == Some(n),
                all == track_stakes(m, track_hash, n as nat),
                stakes@ == all.subrange(0, i as int),
                weights@ == weights_of(stakes@),
            decreases n - i,
        {
            match self.ledger.get(&key_track_stake(&track_hash, i)) {
                Some(LedgerValue::Stake(s)) => {
                    stakes.push(s);
                    weights.push(s.shares);
                    proof {
                        assert(stakes@ =~= all.subrange(0, i + 1));
                        assert(weights@ =~= weights_of(stakes@));
                    }
                },
                _ => {
                    proof {
                        assert(track_ok(m, track_hash));
                        let ii = i as int;
                        assert(stake_of(m, track_hash, ii as u32) is Some);
                    }
                    return Err(Error::TrackNotFound);
                },
            }
            i = i + 1;
        }
        proof {
            assert(stakes@ =~= all);
            lemma_plan_skips_zero_weights(amount as int, weights@);
        }
        let plan = plan_payout(amount, &weights);
        let mut out: Vec<Transfer> = Vec::new();
        let mut k: usize = 0;
        while k < plan.len()
            invariant
                0 <= k <= plan@.len(),
                stakes@ == all,
                weights@ == weights_of(all),
                plan@ == payout_plan(amount as int, weights@),
                forall|j: int| 0 <= j < plan@.len() ==> (#[trigger] plan@[j]).index < weights@.len(),
                out@ == transfers_for(plan@, all, token_contract).subrange(0, k as int),
            decreases plan@.len() - k,
        {
            let p = plan[k];
            assert(p.index < weights@.len());
            let to = stakes[p.index as usize].addr;
            out.push(Transfer { token: token_contract, to, amount: p.amount });
            proof {
                assert(out@ =~= transfers_for(plan@, all, token_contract).subrange(0, k + 1));
            }
            k = k + 1;
        }
        proof {
            assert(out@ =~= transfers_for(plan@, all, token_contract));
        }
        Ok(out)
    }
}

/// Registering a valid stake list keeps every track well formed.
proof fn lemma_with_track_ok(
    m: Map<LedgerKey, LedgerValue>,
    f: Fingerprint,
    meta: Fingerprint,
    a: Seq<Address>,
    w: Seq<u32>,
)
    requires
        ledger_ok(m),
        stakes_valid(a, w),
        a.len() <= u32::MAX,
    ensures
        ledger_ok(with_track(m, f, meta, a, w, a.len())),
        track_len_of(with_track(m, f, meta, a, w, a.len()), f) == Some(a.len() as u32),
        track_meta_of(with_track(m, f, meta, a, w, a.len()), f) == Some(meta),
        track_stakes(with_track(m, f, meta, a, w, a.len()), f, a.len()) == stakes_from(a, w),
{
    let m2 = with_track(m, f, meta, a, w, a.len());
    let n = a.len();
    assert(track_len_of(m2, f) == Some(n as u32));
    assert(track_stakes(m2, f, n) =~= stakes_from(a, w)) by {
        assert forall|i: int| 0 <= i < n implies #[trigger] stake_of(m2, f, i as u32) == Some(
            Stake { addr: a[i], shares: w[i] },
        ) by {
            assert(m2.contains_key(LedgerKey::TrackStake(f, i as u32)));
        }
    }
    assert(weights_of(stakes_from(a, w)) =~= w);
    assert forall|g: Fingerprint| #[trigger] track_ok(m2, g) by {
        if g == f {
            assert forall|i: int| 0 <= i < n implies (#[trigger] stake_of(m2, f, i as u32)) is Some by {
                assert(m2.contains_key(LedgerKey::TrackStake(f, i as u32)));
            }
        } else {
            assert(track_ok(m, g));
            assert(m2.get(LedgerKey::TrackLen(g)) == m.get(LedgerKey::TrackLen(g)));
            if let Some(k) = track_len_of(m, g) {
                assert forall|i: int| 0 <= i < k implies #[trigger] stake_of(m2, g, i as u32) == stake_of(m, g, i as u32) by {
                    assert(m2.get(LedgerKey::TrackStake(g, i as u32)) == m.get(LedgerKey::TrackStake(g, i as u32)));
                }
                assert(track_stakes(m2, g, k as nat) =~= track_stakes(m, g, k as nat));
            }
        }
    }
}


/// A write that touches no track entry keeps every track as it was.
proof fn lemma_tracks_kept(m1: Map<LedgerKey, LedgerValue>, m2: Map<LedgerKey, LedgerValue>)
    requires
        ledger_ok(m1),
        forall|k: LedgerKey| !(k is Identity) ==> m1.get(k) == m2.get(k),
    ensures
        ledger_ok(m2),
{
    assert forall|f: Fingerprint| #[trigger] track_ok(m2, f) by {
        assert(track_ok(m1, f));
        assert(track_len_of(m1, f) == track_len_of(m2, f));
        if let Some(n) = track_len_of(m1, f) {
            assert forall|i: int| 0 <= i < n implies (#[trigger] stake_of(m2, f, i as u32)) is Some by {
                assert(stake_of(m1, f, i as u32) == stake_of(m2, f, i as u32));
            }
            assert(track_stakes(m1, f, n as nat) =~= track_stakes(m2, f, n as nat)) by {
                assert forall|i: int| 0 <= i < n implies #[trigger] stake_of(m1, f, i as u32) == stake_of(m2, f, i as u32) by {
                    assert(m1.get(LedgerKey::TrackStake(f, i as u32)) == m2.get(LedgerKey::TrackStake(f, i as u32)));
                }
            }
        }
    }
}

/// Binding an identity and then resolving it gives back the address that
/// was bound, whatever the ledger held before.
pub proof fn lemma_identity_round_trip(m: Map<LedgerKey, LedgerValue>, id: Fingerprint, addr: Address)
    ensures
        identity_of(m.insert(LedgerKey::Identity(id), LedgerValue::Addr(addr)), id) == Some(addr),
{
}

/// Conservation: for a registered track and a non-negative amount, the
/// transfers of a payment add up to the amount exactly.
pub proof fn lemma_royalty_conserves(c: RoyaltyContract, f: Fingerprint, token: Address, amount: int)
    requires
        c.wf(),
        track_len_of(c@, f) is Some,
        0 <= amount <= i128::MAX,
    ensures
        transfer_total(royalty_transfers(c@, f, token, amount)) == amount,
{
    let m = c@;
    assert(track_ok(m, f));
    let stakes = track_stakes(m, f, track_len_of(m, f)->Some_0 as nat);
    let w = weights_of(stakes);
    lemma_plan_conserves(amount, w);
    lemma_transfer_total(payout_plan(amount, w), stakes, token);
}

proof fn lemma_transfer_total(plan: Seq<Payout>, stakes: Seq<Stake>, token: Address)
    ensures
        transfer_total(transfers_for(plan, stakes, token)) == payout_total(plan),
    decreases plan.len(),
{
    if plan.len() > 0 {
        assert(transfers_for(plan, stakes, token).drop_last() =~= transfers_for(plan.drop_last(), stakes, token));
        lemma_transfer_total(plan.drop_last(), stakes, token);
    }
}

} // verus!
