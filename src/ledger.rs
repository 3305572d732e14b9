//! The ledger store: a key-value map whose keys are namespaced by category
//! (`id`, `meta`, `len`, `stk`) and fingerprint, and, for stakes, an index.

use vstd::prelude::*;
use crate::types::{Address, Fingerprint, Stake};

verus! {

/// A key of the ledger.
#[derive(Clone, Copy, Debug, PartialEq, Eq)]
pub enum LedgerKey {
    /// The address bound to an identity.
    Identity(Fingerprint),
    /// The metadata reference of a track.
    TrackMeta(Fingerprint),
    /// The number of stakes of a track.
    TrackLen(Fingerprint),
    /// The stake of a track at an index.
    TrackStake(Fingerprint, u32),
}

/// A value of the ledger.
#[derive(Clone, Copy, Debug, PartialEq, Eq)]
pub enum LedgerValue {
    Addr(Address),
    Meta(Fingerprint),
    Len(u32),
    Stake(Stake),
}

pub open spec fn key_tag(k: LedgerKey) -> Seq<char> {
    match k {
        LedgerKey::Identity(_) => "id"@,
        LedgerKey::TrackMeta(_) => "meta"@,
        LedgerKey::TrackLen(_) => "len"@,
        LedgerKey::TrackStake(_, _) => "stk"@,
    }
}

impl LedgerKey {
    /// The category tag under which the key is stored.
    pub fn tag(&self) -> (r: &'static str)
        ensures
            r@ == key_tag(*self),
    {
        proof {
            reveal_strlit("id");
            reveal_strlit("meta");
            reveal_strlit("len");
            reveal_strlit("stk");
        }
        match self {
            LedgerKey::Identity(_) => "id",
            LedgerKey::TrackMeta(_) => "meta",
            LedgerKey::TrackLen(_) => "len",
            LedgerKey::TrackStake(_, _) => "stk",
        }
    }

    /// Whether two keys are the same.
    pub fn same_as(&self, other: &LedgerKey) -> (r: bool)
        ensures
            r == (*self == *other),
    {
        match (self, other) {
            (LedgerKey::Identity(a), LedgerKey::Identity(b)) => a.same_as(b),
            (LedgerKey::TrackMeta(a), LedgerKey::TrackMeta(b)) => a.same_as(b),
            (LedgerKey::TrackLen(a), LedgerKey::TrackLen(b)) => a.same_as(b),
            (LedgerKey::TrackStake(a, i), LedgerKey::TrackStake(b, j)) => *i == *j && a.same_as(b),
            _ => false,
        }
    }
}

/// The key of the address bound to identity `id`.
pub fn key_identity(id: &Fingerprint) -> (r: LedgerKey)
    ensures
        r == LedgerKey::Identity(*id),
{
    LedgerKey::Identity(*id)
}

/// The key of the metadata reference of track `id`.
pub fn key_track_meta(id: &Fingerprint) -> (r: LedgerKey)
    ensures
        r == LedgerKey::TrackMeta(*id),
{
    LedgerKey::TrackMeta(*id)
}

/// The key of the number of stakes of track `id`.
pub fn key_track_len(id: &Fingerprint) -> (r: LedgerKey)
    ensures
        r == LedgerKey::TrackLen(*id),
{
    LedgerKey::TrackLen(*id)
}

/// The key of the stake at `idx` of track `id`.
pub fn key_track_stake(id: &Fingerprint, idx: u32) -> (r: LedgerKey)
    ensures
        r == LedgerKey::TrackStake(*id, idx),
{
    LedgerKey::TrackStake(*id, idx)
}

/// The map that a list of entries describes, a later entry for a key taking
/// the place of an earlier one.
pub open spec fn entries_map(s: Seq<(LedgerKey, LedgerValue)>) -> Map<LedgerKey, LedgerValue>
    decreases s.len(),
{
    if s.len() == 0 {
        Map::empty()
    } else {
        entries_map(s.drop_last()).insert(s.last().0, s.last().1)
    }
}

pub open spec fn keys_unique(s: Seq<(LedgerKey, LedgerValue)>) -> bool {
    forall|i: int, j: int| 0 <= i < j < s.len() ==> s[i].0 != s[j].0
}

/// An in-memory ledger store: entries with distinct keys.
pub struct Ledger {
    entries: Vec<(LedgerKey, LedgerValue)>,
}

impl View for Ledger {
    type V = Map<LedgerKey, LedgerValue>;

    closed spec fn view(&self) -> Map<LedgerKey, LedgerValue> {
        entries_map(self.entries@)
    }
}

impl Ledger {
    pub closed spec fn wf(&self) -> bool {
        keys_unique(self.entries@)
    }

    /// An empty ledger.
    pub fn new() -> (r: Ledger)
        ensures
            r.wf(),
            r@ == Map::<LedgerKey, LedgerValue>::empty(),
    {
        Ledger { entries: Vec::new() }
    }

    fn find(&self, k: &LedgerKey) -> (r: Option<usize>)
        ensures
            r matches Some(i) ==> i < self.entries@.len() && self.entries@[i as int].0 == *k,
            r is None ==> forall|j: int| 0 <= j < self.entries@.len() ==> self.entries@[j].0 != *k,
    {
        let mut i: usize = 0;
        while i < self.entries.len()
            invariant
                0 <= i <= self.entries@.len(),
                forall|j: int| 0 <= j < i ==> self.entries@[j].0 != *k,
            decreases self.entries@.len() - i,
        {
            if self.entries[i].0.same_as(k) {
                return Some(i);
            }
            i = i + 1;
        }
        None
    }

    /// The value stored under `k`, if any.
    pub fn get(&self, k: &LedgerKey) -> (r: Option<LedgerValue>)
        requires
            self.wf(),
        ensures
            r == self@.get(*k),
    {
        match self.find(k) {
            Some(i) => {
                proof {
                    lemma_entries_lookup(self.entries@, i as int);
                }
                Some(self.entries[i].1)
            },
            None => {
                proof {
                    lemma_entries_absent(self.entries@, *k);
                }
                None
            },
        }
    }

    /// Stores `v` under `k`, in place of any earlier value.
    pub fn set(&mut self, k: LedgerKey, v: LedgerValue)
        requires
            old(self).wf(),
        ensures
            final(self).wf(),
            final(self)@ == old(self)@.insert(k, v),
    {
        match self.find(&k) {
            Some(i) => {
                proof {
                    lemma_entries_update(self.entries@, i as int, v);
                }
                self.entries.set(i, (k, v));
            },
            None => {
                let ghost before = self.entries@;
                self.entries.push((k, v));
                proof {
                    assert(self.entries@.drop_last() =~= before);
                }
            },
        }
    }
}

proof fn lemma_entries_absent(s: Seq<(LedgerKey, LedgerValue)>, k: LedgerKey)
    requires
        forall|j: int| 0 <= j < s.len() ==> s[j].0 != k,
    ensures
        !entries_map(s).contains_key(k),
    decreases s.len(),
{
    if s.len() > 0 {
        lemma_entries_absent(s.drop_last(), k);
    }
}

proof fn lemma_entries_lookup(s: Seq<(LedgerKey, LedgerValue)>, i: int)
    requires
        keys_unique(s),
        0 <= i < s.len(),
    ensures
        entries_map(s).contains_key(s[i].0),
        entries_map(s)[s[i].0] == s[i].1,
    decreases s.len(),
{
    if i < s.len() - 1 {
        lemma_entries_lookup(s.drop_last(), i);
    }
}

proof fn lemma_entries_update(s: Seq<(LedgerKey, LedgerValue)>, i: int, v: LedgerValue)
    requires
        keys_unique(s),
        0 <= i < s.len(),
    ensures
        keys_unique(s.update(i, (s[i].0, v))),
        entries_map(s.update(i, (s[i].0, v))) =~= entries_map(s).insert(s[i].0, v),
    decreases s.len(),
{
    let t = s.update(i, (s[i].0, v));
    if i == s.len() - 1 {
        assert(t.drop_last() =~= s.drop_last());
    } else {
        assert(t.drop_last() =~= s.drop_last().update(i, (s[i].0, v)));
        lemma_entries_update(s.drop_last(), i, v);
    }
}

} // verus!
