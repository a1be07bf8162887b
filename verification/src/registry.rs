use vstd::prelude::*;

use crate::record::{meta_view, meta_keys_unique, Error, Identity, Key, KeyV, Mode, Record, RecordV};

verus! {

/// One owner-index entry: an identity and the keys it currently holds, in
/// insertion order.
pub struct OwnerEntry {
    pub owner: Identity,
    pub keys: Vec<Key>,
}

/// The mathematical value of an `OwnerEntry`.
#[verifier::ext_equal]
pub struct OwnerEntryV {
    pub owner: Seq<char>,
    pub keys: Seq<KeyV>,
}

impl View for OwnerEntry {
    type V = OwnerEntryV;

    open spec fn view(&self) -> OwnerEntryV {
        OwnerEntryV { owner: self.owner@, keys: self.keys@.map_values(|k: Key| k@) }
    }
}

/// The mathematical value of a whole registry: the minting mode, the
/// allocator counter, the record store, and the owner index.
#[verifier::ext_equal]
pub struct RegistryV {
    pub mode: Mode,
    pub counter: u64,
    pub records: Seq<RecordV>,
    pub owners: Seq<OwnerEntryV>,
}

/// The view of a sequence of records.
pub open spec fn recs_view(rs: Seq<Record>) -> Seq<RecordV> {
    rs.map_values(|r: Record| r@)
}

/// Whether an owner-index entry lists the key `k`.
pub open spec fn entry_has(e: OwnerEntryV, k: KeyV) -> bool {
    exists|n: int| 0 <= n < e.keys.len() && e.keys[n] == k
}

/// The entry `e` with `k` appended to its key list.
pub open spec fn push_key(e: OwnerEntryV, k: KeyV) -> OwnerEntryV {
    OwnerEntryV { owner: e.owner, keys: e.keys.push(k) }
}

/// The owner index after filing `k` under `who`: appended to the existing
/// entry if one is present, else recorded in a fresh entry at the end.
pub open spec fn append_owned(owners: Seq<OwnerEntryV>, who: Seq<char>, k: KeyV) -> Seq<
    OwnerEntryV,
> {
    if exists|j: int| 0 <= j < owners.len() && owners[j].owner == who {
        let j = choose|j: int| 0 <= j < owners.len() && owners[j].owner == who;
        owners.update(j, push_key(owners[j], k))
    } else {
        owners.push(OwnerEntryV { owner: who, keys: seq![k] })
    }
}

/// The key list `keys` with one occurrence of `k` taken out, if any.
pub open spec fn remove_key(keys: Seq<KeyV>, k: KeyV) -> Seq<KeyV> {
    if exists|n: int| 0 <= n < keys.len() && keys[n] == k {
        keys.remove(choose|n: int| 0 <= n < keys.len() && keys[n] == k)
    } else {
        keys
    }
}

/// The owner index after unfiling `k` from `who`: the entry stays, possibly
/// empty; an absent entry is tolerated unchanged.
pub open spec fn remove_owned(owners: Seq<OwnerEntryV>, who: Seq<char>, k: KeyV) -> Seq<
    OwnerEntryV,
> {
    if exists|j: int| 0 <= j < owners.len() && owners[j].owner == who {
        let j = choose|j: int| 0 <= j < owners.len() && owners[j].owner == who;
        owners.update(j, OwnerEntryV { owner: who, keys: remove_key(owners[j].keys, k) })
    } else {
        owners
    }
}

impl RegistryV {
    /// Whether some record carries the key `k`.
    pub open spec fn has_key(self, k: KeyV) -> bool {
        exists|i: int| 0 <= i < self.records.len() && self.records[i].key == k
    }

    /// The position of the record carrying `k` (unique under `wf`).
    pub open spec fn key_idx(self, k: KeyV) -> int {
        choose|i: int| 0 <= i < self.records.len() && self.records[i].key == k
    }

    /// The record carrying `k`.
    pub open spec fn record_of(self, k: KeyV) -> RecordV {
        self.records[self.key_idx(k)]
    }

    /// Whether the owner index has an entry for `who`.
    pub open spec fn has_owner_entry(self, who: Seq<char>) -> bool {
        exists|j: int| 0 <= j < self.owners.len() && self.owners[j].owner == who
    }

    /// The position of `who`'s entry (unique under `wf`).
    pub open spec fn owner_idx(self, who: Seq<char>) -> int {
        choose|j: int| 0 <= j < self.owners.len() && self.owners[j].owner == who
    }

    /// The keys currently filed under `who`, in insertion order.
    pub open spec fn owned_keys(self, who: Seq<char>) -> Seq<KeyV> {
        if self.has_owner_entry(who) {
            self.owners[self.owner_idx(who)].keys
        } else {
            Seq::empty()
        }
    }

    /// The records currently owned by `who`, in the index's order.
    pub open spec fn owned_records(self, who: Seq<char>) -> Seq<RecordV> {
        self.owned_keys(who).map_values(|k: KeyV| self.record_of(k))
    }

    /// Record keys are pairwise distinct.
    pub open spec fn keys_distinct(self) -> bool {
        forall|i: int, j: int|
            0 <= i < j < self.records.len() ==> self.records[i].key != self.records[j].key
    }

    /// Owner-index identities are pairwise distinct.
    pub open spec fn owners_distinct(self) -> bool {
        forall|i: int, j: int|
            0 <= i < j < self.owners.len() ==> self.owners[i].owner != self.owners[j].owner
    }

    /// No entry lists the same key twice.
    pub open spec fn entry_keys_distinct(self) -> bool {
        forall|j: int, n1: int, n2: int|
            0 <= j < self.owners.len() && 0 <= n1 < n2 < self.owners[j].keys.len()
                ==> self.owners[j].keys[n1] != self.owners[j].keys[n2]
    }

    /// No two entries list a common key.
    pub open spec fn entries_disjoint(self) -> bool {
        forall|j1: int, j2: int, n1: int, n2: int|
            0 <= j1 < self.owners.len() && 0 <= j2 < self.owners.len() && j1 != j2 && 0 <= n1
                < self.owners[j1].keys.len() && 0 <= n2 < self.owners[j2].keys.len()
                ==> self.owners[j1].keys[n1] != self.owners[j2].keys[n2]
    }

    /// Every indexed key is carried by a record whose owner is the entry's
    /// identity.
    pub open spec fn index_backed(self) -> bool {
        forall|j: int, n: int|
            0 <= j < self.owners.len() && 0 <= n < self.owners[j].keys.len() ==> exists|i: int|
                0 <= i < self.records.len() && self.records[i].key == #[trigger] self.owners[j].keys[n]
                    && self.records[i].owner == self.owners[j].owner
    }

    /// Every record's key is filed under its owner.
    pub open spec fn records_indexed(self) -> bool {
        forall|i: int|
            0 <= i < self.records.len() ==> exists|j: int|
                0 <= j < self.owners.len() && self.owners[j].owner == (
                #[trigger] self.records[i]).owner && entry_has(#[trigger] self.owners[j],
                self.records[i].key)
    }

    /// Keys agree with the minting mode: sequential keys are numbers already
    /// issued by the counter, hash keys are strings.
    pub open spec fn mode_keys_ok(self) -> bool {
        match self.mode {
            Mode::Sequential => forall|i: int|
                0 <= i < self.records.len() ==> (self.records[i].key is Id
                    && self.records[i].key->Id_0 < self.counter),
            Mode::Hash => self.counter == 0 && forall|i: int|
                0 <= i < self.records.len() ==> self.records[i].key is Hash,
        }
    }

    /// Metadata lists are maps: their keys are pairwise distinct.
    pub open spec fn metadata_ok(self) -> bool {
        forall|i: int|
            0 <= i < self.records.len() ==> meta_keys_unique(#[trigger] self.records[i].metadata)
    }

    /// The cross-structure consistency invariant: the record store and the
    /// owner index agree, and the mode's key discipline holds.
    pub open spec fn wf(self) -> bool {
        &&& self.keys_distinct()
        &&& self.owners_distinct()
        &&& self.entry_keys_distinct()
        &&& self.entries_disjoint()
        &&& self.index_backed()
        &&& self.records_indexed()
        &&& self.mode_keys_ok()
        &&& self.metadata_ok()
    }
}

/// The registry facade: the record store, the derived owner index, and the
/// allocator counter, mutated only through the operations below.
pub struct Registry {
    pub mode: Mode,
    pub counter: u64,
    pub records: Vec<Record>,
    pub owners: Vec<OwnerEntry>,
}

impl View for Registry {
    type V = RegistryV;

    open spec fn view(&self) -> RegistryV {
        RegistryV {
            mode: self.mode,
            counter: self.counter,
            records: recs_view(self.records@),
            owners: self.owners@.map_values(|e: OwnerEntry| e@),
        }
    }
}

impl Registry {
    /// The consistency invariant, at the registry's own level.
    pub open spec fn wf(self) -> bool {
        self@.wf()
    }

    /// A fresh, empty registry with the given minting policy.
    pub fn new(mode: Mode) -> (r: Registry)
        ensures
            r@.mode == mode,
            r@.counter == 0,
            r@.records == Seq::<RecordV>::empty(),
            r@.owners == Seq::<OwnerEntryV>::empty(),
            r.wf(),
    {
        let r = Registry { mode, counter: 0, records: Vec::new(), owners: Vec::new() };
        proof {
            assert(r@.records =~= Seq::<RecordV>::empty());
            assert(r@.owners =~= Seq::<OwnerEntryV>::empty());
        }
        r
    }

    /// The minting policy this registry was created with.
    pub fn mode(&self) -> (r: Mode)
        ensures
            r == self@.mode,
    {
        self.mode
    }

    /// The allocator counter: the next key a sequential mint will issue.
    pub fn counter(&self) -> (r: u64)
        ensures
            r == self@.counter,
    {
        self.counter
    }

    /// The position of the record carrying `key`, if any.
    fn find_record_idx(&self, key: &Key) -> (r: Option<usize>)
        ensures
            match r {
                Some(i) => i < self@.records.len() && self@.records[i as int].key == key@,
                None => !self@.has_key(key@),
            },
    {
        let mut i: usize = 0;
        while i < self.records.len()
            invariant
                i <= self@.records.len(),
                forall|m: int| 0 <= m < i ==> self@.records[m].key != key@,
            decreases self@.records.len() - i,
        {
            if self.records[i].key.same_as(key) {
                return Some(i);
            }
            i = i + 1;
        }
        None
    }

    /// The position of `who`'s owner-index entry, if any.
    fn find_owner_idx(&self, who: &Identity) -> (r: Option<usize>)
        ensures
            match r {
                Some(j) => j < self@.owners.len() && self@.owners[j as int].owner == who@,
                None => !self@.has_owner_entry(who@),
            },
    {
        let mut j: usize = 0;
        while j < self.owners.len()
            invariant
                j <= self@.owners.len(),
                forall|m: int| 0 <= m < j ==> self@.owners[m].owner != who@,
            decreases self@.owners.len() - j,
        {
            if self.owners[j].owner.same_as(who) {
                return Some(j);
            }
            j = j + 1;
        }
        None
    }

    /// Whether a record with this key is present.
    pub fn contains_key(&self, key: &Key) -> (r: bool)
        ensures
            r == self@.has_key(key@),
    {
        self.find_record_idx(key).is_some()
    }

    /// A full copy of the record carrying `key`, if any; the store cannot be
    /// mutated through the returned value.
    pub fn get(&self, key: &Key) -> (r: Option<Record>)
        requires
            self.wf(),
        ensures
            match r {
                Some(rec) => self@.has_key(key@) && rec@ == self@.record_of(key@),
                None => !self@.has_key(key@),
            },
    {
        match self.find_record_idx(key) {
            Some(i) => {
                proof {
                    lemma_key_idx_unique(self@, key@, i as int);
                }
                Some(self.records[i].clone())
            },
            None => None,
        }
    }

    /// Every record in the store, in store order.
    pub fn list_all(&self) -> (r: Vec<Record>)
        ensures
            recs_view(r@) == self@.records,
    {
        let mut r: Vec<Record> = Vec::new();
        let mut i: usize = 0;
        while i < self.records.len()
            invariant
                i <= self@.records.len(),
                r@.len() == i,
                forall|m: int| 0 <= m < i ==> r@[m]@ == self@.records[m],
            decreases self@.records.len() - i,
        {
            r.push(self.records[i].clone());
            i = i + 1;
        }
        proof {
            assert(recs_view(r@) =~= self@.records);
        }
        r
    }
}

/// Under distinct keys, any position carrying `k` is the position `key_idx`
/// picks.
pub proof fn lemma_key_idx_unique(v: RegistryV, k: KeyV, i: int)
    requires
        v.keys_distinct(),
        0 <= i < v.records.len(),
        v.records[i].key == k,
    ensures
        v.has_key(k),
        v.key_idx(k) == i,
        v.record_of(k) == v.records[i],
{
    assert(v.has_key(k));
    let w = v.key_idx(k);
    assert(0 <= w < v.records.len() && v.records[w].key == k);
    if w != i {
        assert(false);
    }
}

/// Under distinct owners, any position holding `who`'s entry is the position
/// `owner_idx` picks.
pub proof fn lemma_owner_idx_unique(v: RegistryV, who: Seq<char>, j: int)
    requires
        v.owners_distinct(),
        0 <= j < v.owners.len(),
        v.owners[j].owner == who,
    ensures
        v.has_owner_entry(who),
        v.owner_idx(who) == j,
{
    assert(v.has_owner_entry(who));
    let w = v.owner_idx(who);
    assert(0 <= w < v.owners.len() && v.owners[w].owner == who);
    if w != j {
        assert(false);
    }
}


/// A successfully minted state: the new record appended to the store, its key
/// filed under its owner, and the counter advanced in sequential mode.
pub open spec fn minted(pre: RegistryV, rec: RecordV, post: RegistryV) -> bool {
    &&& post.mode == pre.mode
    &&& post.counter == (if pre.mode is Sequential {
        pre.counter + 1
    } else {
        pre.counter as int
    })
    &&& post.records == pre.records.push(rec)
    &&& post.owners == append_owned(pre.owners, rec.owner, rec.key)
}

/// Minting a record with a fresh key preserves the consistency invariant.
proof fn lemma_mint_wf(pre: RegistryV, rec: RecordV, post: RegistryV)
    requires
        pre.wf(),
        !pre.has_key(rec.key),
        meta_keys_unique(rec.metadata),
        minted(pre, rec, post),
        pre.mode is Sequential ==> rec.key == KeyV::Id(pre.counter),
        pre.mode is Hash ==> rec.key is Hash,
    ensures
        post.wf(),
{
    let k = rec.key;
    let who = rec.owner;
    let n_recs = pre.records.len() as int;
    let n_owners = pre.owners.len() as int;

    // The new key is carried by no old record and listed in no old entry.
    assert forall|i: int| 0 <= i < n_recs implies (#[trigger] pre.records[i]).key != k by {
        if pre.records[i].key == k {
            assert(pre.has_key(k));
        }
    };
    assert forall|j: int, n: int|
        0 <= j < n_owners && 0 <= n < pre.owners[j].keys.len() implies #[trigger] pre.owners[j].keys[n]
        != k by {
        assert(exists|i: int|
            0 <= i < pre.records.len() && pre.records[i].key == pre.owners[j].keys[n]
                && pre.records[i].owner == pre.owners[j].owner);
        let i = choose|i: int|
            0 <= i < pre.records.len() && pre.records[i].key == pre.owners[j].keys[n]
                && pre.records[i].owner == pre.owners[j].owner;
        assert(pre.records[i].key != k);
    };

    // A uniform description of the new owner index: the entry at `je` gained
    // `k` at the end of `base`; everything else is untouched.
    let je: int = if pre.has_owner_entry(who) {
        pre.owner_idx(who)
    } else {
        n_owners
    };
    let base: Seq<KeyV> = if pre.has_owner_entry(who) {
        pre.owners[je].keys
    } else {
        Seq::empty()
    };
    if pre.has_owner_entry(who) {
        assert(0 <= je < n_owners && pre.owners[je].owner == who);
        assert(post.owners == pre.owners.update(je, push_key(pre.owners[je], k)));
    } else {
        assert(post.owners == pre.owners.push(OwnerEntryV { owner: who, keys: seq![k] }));
        assert(post.owners[je].keys =~= Seq::empty().push(k));
        assert forall|j: int| 0 <= j < n_owners implies (#[trigger] pre.owners[j]).owner != who by {
            if pre.owners[j].owner == who {
                assert(pre.has_owner_entry(who));
            }
        };
    }
    assert(0 <= je < post.owners.len());
    assert(post.owners[je].owner == who);
    assert(post.owners[je].keys == base.push(k));
    assert(forall|j: int|
        0 <= j < post.owners.len() && j != je ==> post.owners[j] == pre.owners[j] && j < n_owners);

    // Record keys stay pairwise distinct.
    assert forall|i: int, j: int|
        0 <= i < j < post.records.len() implies post.records[i].key != post.records[j].key by {
        if j >= n_recs {
            assert(post.records[j] == rec);
            assert(post.records[i] == pre.records[i]);
        }
    };

    // Owners stay pairwise distinct.
    assert forall|i: int, j: int|
        0 <= i < j < post.owners.len() implies post.owners[i].owner != post.owners[j].owner by {
        if j < n_owners {
            assert(post.owners[i].owner == pre.owners[i].owner);
            assert(post.owners[j].owner == pre.owners[j].owner);
        } else {
            assert(post.owners[j].owner == who);
            assert(post.owners[i].owner == pre.owners[i].owner);
        }
    };

    // No entry lists a key twice.
    assert forall|j: int, n1: int, n2: int|
        0 <= j < post.owners.len() && 0 <= n1 < n2 < post.owners[j].keys.len()
        implies post.owners[j].keys[n1] != post.owners[j].keys[n2] by {
        if j == je {
            if n2 < base.len() {
                assert(post.owners[je].keys[n1] == pre.owners[je].keys[n1]);
                assert(post.owners[je].keys[n2] == pre.owners[je].keys[n2]);
            } else {
                assert(post.owners[je].keys[n2] == k);
                assert(post.owners[je].keys[n1] == base[n1]);
            }
        } else {
            assert(post.owners[j] == pre.owners[j]);
        }
    };

    // No two entries share a key.
    assert forall|j1: int, j2: int, n1: int, n2: int|
        0 <= j1 < post.owners.len() && 0 <= j2 < post.owners.len() && j1 != j2 && 0 <= n1
            < post.owners[j1].keys.len() && 0 <= n2 < post.owners[j2].keys.len()
        implies post.owners[j1].keys[n1] != post.owners[j2].keys[n2] by {
        if j1 == je {
            assert(post.owners[j2] == pre.owners[j2] && j2 < n_owners);
            if n1 == base.len() {
                assert(post.owners[j1].keys[n1] == k);
                assert(pre.owners[j2].keys[n2] != k);
            } else {
                assert(post.owners[j1].keys[n1] == pre.owners[je].keys[n1]);
            }
        } else if j2 == je {
            assert(post.owners[j1] == pre.owners[j1] && j1 < n_owners);
            if n2 == base.len() {
                assert(post.owners[j2].keys[n2] == k);
                assert(pre.owners[j1].keys[n1] != k);
            } else {
                assert(post.owners[j2].keys[n2] == pre.owners[je].keys[n2]);
            }
        } else {
            assert(post.owners[j1] == pre.owners[j1]);
            assert(post.owners[j2] == pre.owners[j2]);
        }
    };

    // Every indexed key is still backed by a record of the right owner.
    assert forall|j: int, n: int|
        0 <= j < post.owners.len() && 0 <= n < post.owners[j].keys.len() implies exists|i: int|
        0 <= i < post.records.len() && post.records[i].key == #[trigger] post.owners[j].keys[n]
            && post.records[i].owner == post.owners[j].owner by {
        if j == je && n == base.len() {
            assert(post.records[n_recs] == rec);
            assert(post.owners[j].keys[n] == k && post.owners[j].owner == who);
            assert(0 <= n_recs < post.records.len() && post.records[n_recs].key == post.owners[j].keys[n]
                && post.records[n_recs].owner == post.owners[j].owner);
        } else {
            assert(j < n_owners);
            assert(post.owners[j].keys[n] == pre.owners[j].keys[n]);
            assert(post.owners[j].owner == pre.owners[j].owner);
            assert(exists|i: int|
                0 <= i < pre.records.len() && pre.records[i].key == pre.owners[j].keys[n]
                    && pre.records[i].owner == pre.owners[j].owner);
            let i = choose|i: int|
                0 <= i < pre.records.len() && pre.records[i].key == pre.owners[j].keys[n]
                    && pre.records[i].owner == pre.owners[j].owner;
            assert(0 <= i < post.records.len() && post.records[i].key == post.owners[j].keys[n]
                && post.records[i].owner == post.owners[j].owner);
        }
    };

    // Every record is still filed under its owner.
    assert forall|i: int| 0 <= i < post.records.len() implies exists|j: int|
        0 <= j < post.owners.len() && post.owners[j].owner == (#[trigger] post.records[i]).owner
            && entry_has(#[trigger] post.owners[j], post.records[i].key) by {
        if i < n_recs {
            assert(post.records[i] == pre.records[i]);
            assert(exists|j: int|
                0 <= j < pre.owners.len() && pre.owners[j].owner == pre.records[i].owner
                    && entry_has(pre.owners[j], pre.records[i].key));
            let j = choose|j: int|
                0 <= j < pre.owners.len() && pre.owners[j].owner == pre.records[i].owner
                    && entry_has(pre.owners[j], pre.records[i].key);
            if j == je {
                let n = choose|n: int|
                    0 <= n < pre.owners[je].keys.len() && pre.owners[je].keys[n] == pre.records[i].key;
                assert(post.owners[je].keys[n] == pre.owners[je].keys[n]);
                assert(entry_has(post.owners[je], post.records[i].key));
                assert(post.owners[je].owner == post.records[i].owner);
            } else {
                assert(post.owners[j] == pre.owners[j]);
                assert(entry_has(post.owners[j], post.records[i].key));
            }
        } else {
            assert(post.records[i] == rec);
            assert(post.owners[je].keys[base.len() as int] == k);
            assert(entry_has(post.owners[je], rec.key));
        }
    };

    // Keys keep the mode's discipline.
    if post.mode is Sequential {
        assert forall|i: int| 0 <= i < post.records.len() implies (#[trigger] post.records[i]).key is Id
            && post.records[i].key->Id_0 < post.counter by {
            if i < n_recs {
                assert(post.records[i] == pre.records[i]);
                assert(pre.records[i].key is Id && pre.records[i].key->Id_0 < pre.counter);
            } else {
                assert(post.records[i] == rec);
            }
        };
    } else {
        assert forall|i: int| 0 <= i < post.records.len() implies (#[trigger] post.records[i]).key is Hash by {
            if i < n_recs {
                assert(post.records[i] == pre.records[i]);
                assert(pre.records[i].key is Hash);
            } else {
                assert(post.records[i] == rec);
            }
        };
    }

    // Metadata keys stay unique.
    assert forall|i: int| 0 <= i < post.records.len() implies meta_keys_unique(
        (#[trigger] post.records[i]).metadata,
    ) by {
        if i < n_recs {
            assert(post.records[i] == pre.records[i]);
            assert(meta_keys_unique(pre.records[i].metadata));
        } else {
            assert(post.records[i] == rec);
        }
    };
}


impl Registry {
    /// Registers a new record owned by `caller` and returns its key.
    ///
    /// In sequential mode the key is the counter's current value and the mint
    /// always succeeds; in hash mode the caller supplies the key and the mint
    /// is rejected with `AlreadyExists` when a record already carries it, the
    /// store and index left untouched.
    pub fn mint(
        &mut self,
        caller: &Identity,
        key: Option<Key>,
        name: String,
        description: String,
        image_ref: String,
        metadata: Vec<(String, String)>,
    ) -> (r: Result<Key, Error>)
        requires
            old(self).wf(),
            old(self)@.mode is Sequential ==> old(self)@.counter < u64::MAX && key is None,
            old(self)@.mode is Hash ==> (key matches Some(kk) && kk@ is Hash),
            meta_keys_unique(meta_view(metadata@)),
        ensures
            final(self).wf(),
            final(self)@.mode == old(self)@.mode,
            match r {
                Ok(k) => {
                    &&& !old(self)@.has_key(k@)
                    &&& (old(self)@.mode is Sequential ==> k@ == KeyV::Id(old(self)@.counter))
                    &&& (old(self)@.mode is Hash ==> (key matches Some(kk) && k@ == kk@))
                    &&& minted(
                        old(self)@,
                        (RecordV {
                            key: k@,
                            name: name@,
                            description: description@,
                            image_ref: image_ref@,
                            owner: caller@,
                            metadata: meta_view(metadata@),
                        }),
                        final(self)@,
                    )
                },
                Err(e) => {
                    &&& e == Error::AlreadyExists
                    &&& old(self)@.mode is Hash
                    &&& (key matches Some(kk) && old(self)@.has_key(kk@))
                    &&& final(self)@ == old(self)@
                },
            },
    {
        let ghost pre = self@;
        let k: Key = match self.mode {
            Mode::Sequential => {
                let id = self.counter;
                self.counter = self.counter + 1;
                Key::Id(id)
            },
            Mode::Hash => {
                let kk = key.unwrap();
                if self.contains_key(&kk) {
                    return Err(Error::AlreadyExists);
                }
                kk
            },
        };
        proof {
            if pre.mode is Sequential {
                assert forall|i: int| 0 <= i < pre.records.len() implies (
                #[trigger] pre.records[i]).key != k@ by {
                    assert(pre.records[i].key is Id && pre.records[i].key->Id_0 < pre.counter);
                };
                if pre.has_key(k@) {
                    let i = choose|i: int|
                        0 <= i < pre.records.len() && pre.records[i].key == k@;
                    assert(false);
                }
            }
        }
        let key_for_entry = k.clone();
        let rec = Record {
            key: k.clone(),
            name,
            description,
            image_ref,
            owner: caller.clone(),
            metadata,
        };
        let ghost recv = rec@;
        self.records.push(rec);
        proof {
            assert(self@.records =~~= pre.records.push(recv));
            assert(self@.owners =~~= pre.owners);
        }
        match self.find_owner_idx(caller) {
            Some(j) => {
                proof {
                    lemma_owner_idx_unique(pre, caller@, j as int);
                }
                self.owners[j].keys.push(key_for_entry);
                proof {
                    assert(self@.owners =~~= append_owned(pre.owners, recv.owner, recv.key));
                }
            },
            None => {
                let mut ks: Vec<Key> = Vec::new();
                ks.push(key_for_entry);
                self.owners.push(OwnerEntry { owner: caller.clone(), keys: ks });
                proof {
                    assert(!pre.has_owner_entry(caller@));
                    assert(self@.owners =~~= append_owned(pre.owners, recv.owner, recv.key));
                }
            },
        }
        proof {
            assert(minted(pre, recv, self@));
            lemma_mint_wf(pre, recv, self@);
        }
        Ok(k)
    }
}


/// Under distinct owners, any position of `owners` holding `who`'s entry is
/// the one `choose` picks.
proof fn lemma_entry_at(owners: Seq<OwnerEntryV>, who: Seq<char>, at: int)
    requires
        forall|i: int, j: int| 0 <= i < j < owners.len() ==> owners[i].owner != owners[j].owner,
        0 <= at < owners.len(),
        owners[at].owner == who,
    ensures
        exists|j: int| 0 <= j < owners.len() && owners[j].owner == who,
        (choose|j: int| 0 <= j < owners.len() && owners[j].owner == who) == at,
{
    assert(exists|j: int| 0 <= j < owners.len() && owners[j].owner == who);
    let w = choose|j: int| 0 <= j < owners.len() && owners[j].owner == who;
    if w != at {
        assert(owners[w].owner != owners[at].owner);
        assert(false);
    }
}

/// The state after a transfer of the record carrying `k` to `to`: the record
/// keeps everything but its owner, its key moves from the old owner's entry
/// to the end of `to`'s.
pub open spec fn transferred(pre: RegistryV, k: KeyV, to: Seq<char>) -> RegistryV {
    let i = pre.key_idx(k);
    let rec2 = RecordV { owner: to, ..pre.records[i] };
    RegistryV {
        mode: pre.mode,
        counter: pre.counter,
        records: pre.records.update(i, rec2),
        owners: append_owned(remove_owned(pre.owners, pre.records[i].owner, k), to, k),
    }
}

/// Transferring an existing record preserves the consistency invariant.
proof fn lemma_transfer_wf(pre: RegistryV, k: KeyV, to: Seq<char>, post: RegistryV)
    requires
        pre.wf(),
        pre.has_key(k),
        post == transferred(pre, k, to),
    ensures
        post.wf(),
{
    let n_recs = pre.records.len() as int;
    let n_owners = pre.owners.len() as int;
    let i0 = pre.key_idx(k);
    assert(0 <= i0 < n_recs && pre.records[i0].key == k);
    let from = pre.records[i0].owner;
    let rec2 = RecordV { owner: to, ..pre.records[i0] };

    // records: only the owner of the moved record changes
    assert(post.records == pre.records.update(i0, rec2));
    assert(post.records.len() == n_recs);
    assert(forall|i: int| 0 <= i < n_recs && i != i0 ==> #[trigger] post.records[i] == pre.records[i]);
    assert(post.records[i0] == rec2);
    assert(forall|i: int| 0 <= i < n_recs ==> (#[trigger] post.records[i]).key == pre.records[i].key);
    assert(forall|i: int|
        0 <= i < n_recs ==> (#[trigger] post.records[i]).metadata == pre.records[i].metadata);

    // only the record at i0 carries k
    assert forall|i: int| 0 <= i < n_recs && i != i0 implies (#[trigger] pre.records[i]).key != k by {
        assert(pre.records[i0].key == k);
    };

    // the entry and position holding k
    assert(exists|j: int|
        0 <= j < pre.owners.len() && pre.owners[j].owner == pre.records[i0].owner && entry_has(
            pre.owners[j],
            pre.records[i0].key,
        ));
    let jf = choose|j: int|
        0 <= j < pre.owners.len() && pre.owners[j].owner == pre.records[i0].owner && entry_has(
            pre.owners[j],
            pre.records[i0].key,
        );
    assert(pre.owners[jf].owner == from);
    assert(entry_has(pre.owners[jf], k));
    let nf = choose|n: int| 0 <= n < pre.owners[jf].keys.len() && pre.owners[jf].keys[n] == k;
    assert(0 <= nf < pre.owners[jf].keys.len() && pre.owners[jf].keys[nf] == k);

    // k appears at (jf, nf) and nowhere else in the index
    assert forall|j: int, n: int|
        0 <= j < n_owners && 0 <= n < pre.owners[j].keys.len() && (j != jf || n != nf)
        implies #[trigger] pre.owners[j].keys[n] != k by {
        assert(pre.owners[jf].keys[nf] == k);
        if j == jf && n != nf {
            if n < nf {
                assert(pre.owners[j].keys[n] != pre.owners[j].keys[nf]);
            } else {
                assert(pre.owners[j].keys[nf] != pre.owners[j].keys[n]);
            }
        }
    };

    // the middle index: k unfiled from `from`
    let mid = remove_owned(pre.owners, from, k);
    assert(pre.has_owner_entry(from));
    lemma_entry_at(pre.owners, from, jf);
    assert(mid == pre.owners.update(
        jf,
        OwnerEntryV { owner: from, keys: remove_key(pre.owners[jf].keys, k) },
    ));
    let nstar = choose|n: int| 0 <= n < pre.owners[jf].keys.len() && pre.owners[jf].keys[n] == k;
    assert(nstar == nf);
    assert(remove_key(pre.owners[jf].keys, k) == pre.owners[jf].keys.remove(nf));
    pre.owners[jf].keys.remove_ensures(nf);
    assert(mid.len() == n_owners);
    assert(forall|j: int| 0 <= j < n_owners ==> (#[trigger] mid[j]).owner == pre.owners[j].owner);
    assert(forall|j: int| 0 <= j < n_owners && j != jf ==> #[trigger] mid[j] == pre.owners[j]);
    assert(mid[jf].keys.len() == pre.owners[jf].keys.len() - 1);
    assert(forall|m: int|
        0 <= m < nf ==> #[trigger] mid[jf].keys[m] == pre.owners[jf].keys[m]);
    assert(forall|m: int|
        nf <= m < mid[jf].keys.len() ==> #[trigger] mid[jf].keys[m] == pre.owners[jf].keys[m + 1]);

    // every mid value is k-free
    assert forall|j: int, n: int|
        0 <= j < n_owners && 0 <= n < mid[j].keys.len() implies #[trigger] mid[j].keys[n] != k by {
        if j == jf {
            if n < nf {
                assert(mid[j].keys[n] == pre.owners[jf].keys[n]);
            } else {
                assert(mid[j].keys[n] == pre.owners[jf].keys[n + 1]);
            }
        } else {
            assert(mid[j].keys[n] == pre.owners[j].keys[n]);
        }
    };

    // mid entries keep distinct keys
    assert forall|j: int, n1: int, n2: int|
        0 <= j < n_owners && 0 <= n1 < n2 < mid[j].keys.len() implies mid[j].keys[n1]
        != mid[j].keys[n2] by {
        if j == jf {
            let p1: int = if n1 < nf { n1 } else { n1 + 1 };
            let p2: int = if n2 < nf { n2 } else { n2 + 1 };
            assert(mid[j].keys[n1] == pre.owners[jf].keys[p1]);
            assert(mid[j].keys[n2] == pre.owners[jf].keys[p2]);
            assert(pre.owners[jf].keys[p1] != pre.owners[jf].keys[p2]);
        } else {
            assert(mid[j] == pre.owners[j]);
        }
    };

    // mid entries stay pairwise disjoint
    assert forall|j1: int, j2: int, n1: int, n2: int|
        0 <= j1 < n_owners && 0 <= j2 < n_owners && j1 != j2 && 0 <= n1 < mid[j1].keys.len() && 0
            <= n2 < mid[j2].keys.len() implies mid[j1].keys[n1] != mid[j2].keys[n2] by {
        let p1: int = if j1 == jf && n1 >= nf { n1 + 1 } else { n1 };
        let p2: int = if j2 == jf && n2 >= nf { n2 + 1 } else { n2 };
        assert(mid[j1].keys[n1] == pre.owners[j1].keys[p1]);
        assert(mid[j2].keys[n2] == pre.owners[j2].keys[p2]);
        assert(pre.owners[j1].keys[p1] != pre.owners[j2].keys[p2]);
    };

    // every mid value keeps a pre position in the same entry
    assert forall|j: int, n: int|
        0 <= j < n_owners && 0 <= n < mid[j].keys.len() implies exists|p: int|
        0 <= p < pre.owners[j].keys.len() && pre.owners[j].keys[p] == #[trigger] mid[j].keys[n] by {
        let p: int = if j == jf && n >= nf { n + 1 } else { n };
        assert(0 <= p < pre.owners[j].keys.len() && pre.owners[j].keys[p] == mid[j].keys[n]);
    };

    // the appended side: `to`'s entry in mid
    let has_to = exists|j: int| 0 <= j < mid.len() && mid[j].owner == to;
    let jt: int = if has_to {
        choose|j: int| 0 <= j < mid.len() && mid[j].owner == to
    } else {
        n_owners
    };
    let tbase: Seq<KeyV> = if has_to {
        mid[jt].keys
    } else {
        Seq::empty()
    };
    if has_to {
        assert(post.owners == mid.update(jt, push_key(mid[jt], k)));
        assert(0 <= jt < n_owners && mid[jt].owner == to);
    } else {
        assert(post.owners == mid.push(OwnerEntryV { owner: to, keys: seq![k] }));
        assert(post.owners[jt].keys =~= Seq::empty().push(k));
        assert forall|j: int| 0 <= j < n_owners implies (#[trigger] mid[j]).owner != to by {
            if mid[j].owner == to {
                assert(exists|j2: int| 0 <= j2 < mid.len() && mid[j2].owner == to);
            }
        };
    }
    assert(0 <= jt < post.owners.len());
    assert(post.owners[jt].owner == to);
    assert(post.owners[jt].keys == tbase.push(k));
    assert(forall|j: int|
        0 <= j < post.owners.len() && j != jt ==> #[trigger] post.owners[j] == mid[j] && j
            < n_owners);

    // keys stay pairwise distinct
    assert forall|i: int, j: int|
        0 <= i < j < post.records.len() implies post.records[i].key != post.records[j].key by {
        assert(pre.records[i].key != pre.records[j].key);
    };

    // owners stay pairwise distinct
    assert forall|i: int, j: int|
        0 <= i < j < post.owners.len() implies post.owners[i].owner != post.owners[j].owner by {
        if j < n_owners {
            assert(post.owners[i].owner == pre.owners[i].owner);
            assert(post.owners[j].owner == pre.owners[j].owner);
        } else {
            assert(post.owners[j].owner == to);
            assert(post.owners[i].owner == mid[i].owner);
        }
    };

    // no entry lists a key twice
    assert forall|j: int, n1: int, n2: int|
        0 <= j < post.owners.len() && 0 <= n1 < n2 < post.owners[j].keys.len()
        implies post.owners[j].keys[n1] != post.owners[j].keys[n2] by {
        if j == jt {
            if n2 == tbase.len() {
                assert(post.owners[j].keys[n2] == k);
                assert(post.owners[j].keys[n1] == mid[jt].keys[n1]);
            } else {
                assert(post.owners[j].keys[n1] == mid[jt].keys[n1]);
                assert(post.owners[j].keys[n2] == mid[jt].keys[n2]);
            }
        } else {
            assert(post.owners[j] == mid[j]);
        }
    };

    // no two entries share a key
    assert forall|j1: int, j2: int, n1: int, n2: int|
        0 <= j1 < post.owners.len() && 0 <= j2 < post.owners.len() && j1 != j2 && 0 <= n1
            < post.owners[j1].keys.len() && 0 <= n2 < post.owners[j2].keys.len()
        implies post.owners[j1].keys[n1] != post.owners[j2].keys[n2] by {
        if j1 == jt {
            assert(post.owners[j2] == mid[j2] && j2 < n_owners);
            if n1 == tbase.len() {
                assert(post.owners[j1].keys[n1] == k);
                assert(mid[j2].keys[n2] != k);
            } else {
                assert(post.owners[j1].keys[n1] == mid[jt].keys[n1]);
                assert(jt < n_owners);
            }
        } else if j2 == jt {
            assert(post.owners[j1] == mid[j1] && j1 < n_owners);
            if n2 == tbase.len() {
                assert(post.owners[j2].keys[n2] == k);
                assert(mid[j1].keys[n1] != k);
            } else {
                assert(post.owners[j2].keys[n2] == mid[jt].keys[n2]);
                assert(jt < n_owners);
            }
        } else {
            assert(post.owners[j1] == mid[j1]);
            assert(post.owners[j2] == mid[j2]);
        }
    };

    // every indexed key is backed by a record of the right owner
    assert forall|j: int, n: int|
        0 <= j < post.owners.len() && 0 <= n < post.owners[j].keys.len() implies exists|i: int|
        0 <= i < post.records.len() && post.records[i].key == #[trigger] post.owners[j].keys[n]
            && post.records[i].owner == post.owners[j].owner by {
        if j == jt && n == tbase.len() {
            assert(post.owners[j].keys[n] == k);
            assert(post.records[i0].key == k && post.records[i0].owner == to);
            assert(0 <= i0 < post.records.len() && post.records[i0].key == post.owners[j].keys[n]
                && post.records[i0].owner == post.owners[j].owner);
        } else {
            assert(j < n_owners);
            assert(post.owners[j].keys[n] == mid[j].keys[n]);
            assert(post.owners[j].owner == pre.owners[j].owner);
            assert(mid[j].keys[n] != k);
            let p: int = if j == jf && n >= nf { n + 1 } else { n };
            assert(pre.owners[j].keys[p] == mid[j].keys[n]);
            assert(exists|i: int|
                0 <= i < pre.records.len() && pre.records[i].key == pre.owners[j].keys[p]
                    && pre.records[i].owner == pre.owners[j].owner);
            let i = choose|i: int|
                0 <= i < pre.records.len() && pre.records[i].key == pre.owners[j].keys[p]
                    && pre.records[i].owner == pre.owners[j].owner;
            assert(pre.records[i].key != k);
            assert(i != i0);
            assert(post.records[i] == pre.records[i]);
            assert(0 <= i < post.records.len() && post.records[i].key == post.owners[j].keys[n]
                && post.records[i].owner == post.owners[j].owner);
        }
    };

    // every record is filed under its owner
    assert forall|i: int| 0 <= i < post.records.len() implies exists|j: int|
        0 <= j < post.owners.len() && post.owners[j].owner == (#[trigger] post.records[i]).owner
            && entry_has(#[trigger] post.owners[j], post.records[i].key) by {
        if i == i0 {
            assert(post.owners[jt].keys[tbase.len() as int] == k);
            assert(entry_has(post.owners[jt], post.records[i].key));
            assert(post.owners[jt].owner == post.records[i].owner);
        } else {
            assert(post.records[i] == pre.records[i]);
            let keyi = pre.records[i].key;
            assert(keyi != k);
            assert(exists|j: int|
                0 <= j < pre.owners.len() && pre.owners[j].owner == pre.records[i].owner
                    && entry_has(pre.owners[j], pre.records[i].key));
            let j = choose|j: int|
                0 <= j < pre.owners.len() && pre.owners[j].owner == pre.records[i].owner
                    && entry_has(pre.owners[j], pre.records[i].key);
            let n = choose|n: int| 0 <= n < pre.owners[j].keys.len() && pre.owners[j].keys[n] == keyi;
            assert(0 <= n < pre.owners[j].keys.len() && pre.owners[j].keys[n] == keyi);
            assert(j == jf ==> n != nf);
            let nm: int = if j == jf && n > nf { n - 1 } else { n };
            assert(mid[j].keys[nm] == keyi);
            assert(post.owners[j].keys[nm] == keyi);
            assert(entry_has(post.owners[j], keyi));
            assert(post.owners[j].owner == pre.owners[j].owner);
        }
    };

    // keys keep the mode's discipline
    if post.mode is Sequential {
        assert forall|i: int| 0 <= i < post.records.len() implies (
        #[trigger] post.records[i]).key is Id && post.records[i].key->Id_0 < post.counter by {
            assert(pre.records[i].key is Id && pre.records[i].key->Id_0 < pre.counter);
        };
    } else {
        assert forall|i: int| 0 <= i < post.records.len() implies (
        #[trigger] post.records[i]).key is Hash by {
            assert(pre.records[i].key is Hash);
        };
    }

    // metadata keys stay unique
    assert forall|i: int| 0 <= i < post.records.len() implies meta_keys_unique(
        (#[trigger] post.records[i]).metadata,
    ) by {
        assert(meta_keys_unique(pre.records[i].metadata));
    };
}


/// The position of the first key in `keys` equal to `key`, if any.
fn find_key_pos(keys: &Vec<Key>, key: &Key) -> (r: Option<usize>)
    ensures
        match r {
            Some(n) => n < keys@.len() && keys@[n as int]@ == key@,
            None => forall|n: int| 0 <= n < keys@.len() ==> keys@[n]@ != key@,
        },
{
    let mut n: usize = 0;
    while n < keys.len()
        invariant
            n <= keys@.len(),
            forall|m: int| 0 <= m < n ==> keys@[m]@ != key@,
        decreases keys@.len() - n,
    {
        if keys[n].same_as(key) {
            return Some(n);
        }
        n = n + 1;
    }
    None
}

impl Registry {
    /// Moves the record carrying `key` from `caller` to `to`.
    ///
    /// Fails with `NotFound` when no record carries the key and with
    /// `NotOwner` when the record is not the caller's; on failure nothing
    /// changes. On success the record's owner becomes `to` and the key moves
    /// from the caller's owner-index entry to the end of `to`'s.
    pub fn transfer(&mut self, caller: &Identity, key: &Key, to: &Identity) -> (r: Result<
        (),
        Error,
    >)
        requires
            old(self).wf(),
        ensures
            final(self).wf(),
            match r {
                Ok(u) => {
                    &&& old(self)@.has_key(key@)
                    &&& old(self)@.record_of(key@).owner == caller@
                    &&& final(self)@ == transferred(old(self)@, key@, to@)
                },
                Err(e) => {
                    &&& final(self)@ == old(self)@
                    &&& (e == Error::NotFound <==> !old(self)@.has_key(key@))
                    &&& (e == Error::NotOwner <==> old(self)@.has_key(key@) && old(
                        self,
                    )@.record_of(key@).owner != caller@)
                    &&& e != Error::AlreadyExists
                },
            },
    {
        let ghost pre = self@;
        let i = match self.find_record_idx(key) {
            Some(i) => i,
            None => {
                return Err(Error::NotFound);
            },
        };
        proof {
            lemma_key_idx_unique(pre, key@, i as int);
        }
        if !self.records[i].owner.same_as(caller) {
            return Err(Error::NotOwner);
        }
        let ghost from = pre.records[i as int].owner;
        self.records[i].owner = to.clone();
        proof {
            assert(self@.records =~~= pre.records.update(
                i as int,
                (RecordV { owner: to@, ..pre.records[i as int] }),
            ));
            assert(self@.owners =~~= pre.owners);
        }
        // unfile the key from the old owner's entry; tolerate a missing
        // entry or key, though the invariant rules both out
        match self.find_owner_idx(caller) {
            Some(j) => {
                proof {
                    lemma_entry_at(pre.owners, caller@, j as int);
                }
                match find_key_pos(&self.owners[j].keys, key) {
                    Some(n) => {
                        let ghost entry_keys = pre.owners[j as int].keys;
                        self.owners[j].keys.remove(n);
                        proof {
                            assert(exists|m: int|
                                0 <= m < entry_keys.len() && entry_keys[m] == key@);
                            let nstar = choose|m: int|
                                0 <= m < entry_keys.len() && entry_keys[m] == key@;
                            if nstar != n as int {
                                assert(entry_keys[nstar] != entry_keys[n as int]);
                                assert(false);
                            }
                            assert(self@.owners =~~= remove_owned(pre.owners, from, key@));
                        }
                    },
                    None => {
                        proof {
                            // the invariant files the key under its owner
                            assert(exists|j2: int|
                                0 <= j2 < pre.owners.len() && pre.owners[j2].owner
                                    == pre.records[i as int].owner && entry_has(
                                    pre.owners[j2],
                                    pre.records[i as int].key,
                                ));
                            let j2 = choose|j2: int|
                                0 <= j2 < pre.owners.len() && pre.owners[j2].owner
                                    == pre.records[i as int].owner && entry_has(
                                    pre.owners[j2],
                                    pre.records[i as int].key,
                                );
                            lemma_entry_at(pre.owners, caller@, j2);
                            assert(j2 == j as int);
                            assert(false);
                        }
                    },
                }
            },
            None => {
                proof {
                    assert(exists|j2: int|
                        0 <= j2 < pre.owners.len() && pre.owners[j2].owner == pre.records[i as int].owner
                            && entry_has(pre.owners[j2], pre.records[i as int].key));
                    assert(false);
                }
            },
        }
        let ghost mid = remove_owned(pre.owners, from, key@);
        // file the key under the new owner
        match self.find_owner_idx(to) {
            Some(j) => {
                proof {
                    assert(forall|j2: int, j3: int|
                        0 <= j2 < j3 < mid.len() ==> mid[j2].owner != mid[j3].owner);
                    lemma_entry_at(mid, to@, j as int);
                }
                self.owners[j].keys.push(key.clone());
                proof {
                    assert(self@.owners =~~= append_owned(mid, to@, key@));
                }
            },
            None => {
                let mut ks: Vec<Key> = Vec::new();
                ks.push(key.clone());
                self.owners.push(OwnerEntry { owner: to.clone(), keys: ks });
                proof {
                    assert(!(exists|j2: int| 0 <= j2 < mid.len() && mid[j2].owner == to@));
                    assert(self@.owners =~~= append_owned(mid, to@, key@));
                }
            },
        }
        proof {
            assert(self@ =~~= transferred(pre, key@, to@));
            lemma_transfer_wf(pre, key@, to@, self@);
        }
        Ok(())
    }

    /// Every record currently owned by `caller`, in the owner index's order.
    /// A key whose record is missing would be skipped defensively, though the
    /// invariant rules that out.
    pub fn list_owned(&self, caller: &Identity) -> (r: Vec<Record>)
        requires
            self.wf(),
        ensures
            recs_view(r@) == self@.owned_records(caller@),
    {
        let mut r: Vec<Record> = Vec::new();
        let j = match self.find_owner_idx(caller) {
            Some(j) => j,
            None => {
                proof {
                    assert(self@.owned_records(caller@) =~= Seq::<RecordV>::empty());
                    assert(recs_view(r@) =~= Seq::<RecordV>::empty());
                }
                return r;
            },
        };
        proof {
            lemma_entry_at(self@.owners, caller@, j as int);
        }
        let ghost keys = self@.owners[j as int].keys;
        let n_keys = self.owners[j].keys.len();
        let mut n: usize = 0;
        while n < n_keys
            invariant
                self.wf(),
                n <= n_keys,
                j < self@.owners.len(),
                n_keys == self@.owners[j as int].keys.len(),
                keys == self@.owners[j as int].keys,
                r@.len() == n,
                forall|m: int| 0 <= m < n ==> r@[m]@ == self@.record_of(keys[m]),
            decreases n_keys - n,
        {
            let key_ref = &self.owners[j].keys[n];
            match self.find_record_idx(key_ref) {
                Some(i) => {
                    proof {
                        lemma_key_idx_unique(self@, keys[n as int], i as int);
                    }
                    r.push(self.records[i].clone());
                },
                None => {
                    proof {
                        // the invariant backs every indexed key with a record
                        assert(exists|i2: int|
                            0 <= i2 < self@.records.len() && self@.records[i2].key
                                == self@.owners[j as int].keys[n as int] && self@.records[i2].owner
                                == self@.owners[j as int].owner);
                        assert(false);
                    }
                },
            }
            n = n + 1;
        }
        proof {
            assert(self@.owned_keys(caller@) == keys);
            assert(recs_view(r@) =~= self@.owned_records(caller@));
        }
        r
    }
}


/// Sequential mints never repeat a key: under the invariant, every key in
/// the store is a number below the counter, so the key a sequential mint
/// issues — the counter itself — differs from all of them, and each mint
/// leaves the counter strictly larger. Issued keys are therefore pairwise
/// distinct and strictly increasing in issuance order.
pub proof fn lemma_sequential_keys_fresh(v: RegistryV)
    requires
        v.wf(),
        v.mode is Sequential,
    ensures
        forall|i: int|
            0 <= i < v.records.len() ==> (#[trigger] v.records[i]).key is Id
                && v.records[i].key->Id_0 < v.counter,
        forall|i: int|
            0 <= i < v.records.len() ==> (#[trigger] v.records[i]).key != KeyV::Id(v.counter),
        !v.has_key(KeyV::Id(v.counter)),
{
    assert forall|i: int|
        0 <= i < v.records.len() implies (#[trigger] v.records[i]).key != KeyV::Id(v.counter) by {
        assert(v.records[i].key is Id && v.records[i].key->Id_0 < v.counter);
    };
    if v.has_key(KeyV::Id(v.counter)) {
        let i = choose|i: int| 0 <= i < v.records.len() && v.records[i].key == KeyV::Id(v.counter);
        assert(false);
    }
}

/// The index-consistency invariant, spelled out: each record's key is filed
/// under its owner's entry, at exactly one position, and under no other
/// owner's entry.
pub proof fn lemma_index_consistency(v: RegistryV, i: int)
    requires
        v.wf(),
        0 <= i < v.records.len(),
    ensures
        v.has_owner_entry(v.records[i].owner),
        entry_has(v.owners[v.owner_idx(v.records[i].owner)], v.records[i].key),
        forall|j: int, n: int|
            0 <= j < v.owners.len() && 0 <= n < v.owners[j].keys.len() && #[trigger] v.owners[j].keys[n]
                == v.records[i].key ==> j == v.owner_idx(v.records[i].owner),
        forall|n1: int, n2: int|
            0 <= n1 < v.owners[v.owner_idx(v.records[i].owner)].keys.len() && 0 <= n2
                < v.owners[v.owner_idx(v.records[i].owner)].keys.len() && #[trigger] v.owners[v.owner_idx(
                v.records[i].owner,
            )].keys[n1] == v.records[i].key && #[trigger] v.owners[v.owner_idx(
                v.records[i].owner,
            )].keys[n2] == v.records[i].key ==> n1 == n2,
{
    let who = v.records[i].owner;
    let k = v.records[i].key;
    assert(exists|j: int|
        0 <= j < v.owners.len() && v.owners[j].owner == v.records[i].owner && entry_has(
            v.owners[j],
            v.records[i].key,
        ));
    let jw = choose|j: int|
        0 <= j < v.owners.len() && v.owners[j].owner == v.records[i].owner && entry_has(
            v.owners[j],
            v.records[i].key,
        );
    lemma_owner_idx_unique(v, who, jw);
    let je = v.owner_idx(who);
    assert(je == jw);
    assert(entry_has(v.owners[je], k));
    assert forall|j: int, n: int|
        0 <= j < v.owners.len() && 0 <= n < v.owners[j].keys.len() && #[trigger] v.owners[j].keys[n]
            == k implies j == je by {
        // the record that backs position (j, n) is this record, so the
        // entry's owner is this record's owner
        assert(exists|i2: int|
            0 <= i2 < v.records.len() && v.records[i2].key == v.owners[j].keys[n]
                && v.records[i2].owner == v.owners[j].owner);
        let i2 = choose|i2: int|
            0 <= i2 < v.records.len() && v.records[i2].key == v.owners[j].keys[n]
                && v.records[i2].owner == v.owners[j].owner;
        if i2 != i {
            assert(v.records[i2].key != v.records[i].key);
            assert(false);
        }
        assert(v.owners[j].owner == who);
        lemma_owner_idx_unique(v, who, j);
    };
    assert forall|n1: int, n2: int|
        0 <= n1 < v.owners[je].keys.len() && 0 <= n2 < v.owners[je].keys.len()
            && #[trigger] v.owners[je].keys[n1] == k && #[trigger] v.owners[je].keys[n2] == k
        implies n1 == n2 by {
        if n1 < n2 {
            assert(v.owners[je].keys[n1] != v.owners[je].keys[n2]);
        } else if n2 < n1 {
            assert(v.owners[je].keys[n2] != v.owners[je].keys[n1]);
        }
    };
}

} // verus!
