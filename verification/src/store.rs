//! TTL-bound local key-value store with lazy and swept expiry.
use vstd::prelude::*;
use crate::errors::StorageError;
use crate::routing::clone_bytes;

verus! {

/// Mathematical image of one stored record.
#[verifier::ext_equal]
pub struct EntryView {
    /// The stored bytes.
    pub value: Seq<u8>,
    /// The second after which the record is no longer visible.
    pub expires_at: u64,
}

/// One stored record: key, value and expiry metadata.
pub struct StoreEntry {
    /// The record's key.
    pub key: Vec<u8>,
    /// The stored bytes.
    pub value: Vec<u8>,
    /// The second after which the record is no longer visible.
    pub expires_at: u64,
}

impl StoreEntry {
    /// The record's mathematical image.
    pub open spec fn entry_view(self) -> EntryView {
        EntryView { value: self.value@, expires_at: self.expires_at }
    }
}

/// Some record in `s` carries the key `k`.
pub open spec fn store_has_key(s: Seq<StoreEntry>, k: Seq<u8>) -> bool {
    exists|i: int| 0 <= i < s.len() && (#[trigger] s[i]).key@ == k
}

/// No two records in `s` share a key.
pub open spec fn store_unique_keys(s: Seq<StoreEntry>) -> bool {
    forall|i: int, j: int|
        0 <= i < s.len() && 0 <= j < s.len() && i != j ==> s[i].key@ != s[j].key@
}

/// Index of the record carrying `k`.
pub open spec fn store_index_of(s: Seq<StoreEntry>, k: Seq<u8>) -> int {
    choose|i: int| 0 <= i < s.len() && (#[trigger] s[i]).key@ == k
}

/// The key-to-record map described by a record sequence.
pub open spec fn store_as_map(s: Seq<StoreEntry>) -> Map<Seq<u8>, EntryView> {
    Map::new(|k: Seq<u8>| store_has_key(s, k), |k: Seq<u8>| s[store_index_of(s, k)].entry_view())
}

/// Total bytes held by the records of `s`.
pub open spec fn store_bytes(s: Seq<StoreEntry>) -> int
    decreases s.len(),
{
    if s.len() == 0 {
        0
    } else {
        s[0].value@.len() + store_bytes(s.drop_first())
    }
}

/// A record is expired at `now` when its expiry lies strictly in the past.
pub open spec fn expired(e: EntryView, now: u64) -> bool {
    now > e.expires_at
}

/// The map `m` with every record expired at `now` removed.
pub open spec fn swept(m: Map<Seq<u8>, EntryView>, now: u64) -> Map<Seq<u8>, EntryView> {
    Map::new(
        |k: Seq<u8>| m.dom().contains(k) && !expired(m[k], now),
        |k: Seq<u8>| m[k],
    )
}

/// Law: sweeping a second time at the same instant removes nothing.
pub proof fn lemma_cleanup_idempotent(m: Map<Seq<u8>, EntryView>, now: u64)
    ensures
        swept(swept(m, now), now) =~= swept(m, now),
{
}

proof fn lemma_store_bytes_nonneg(s: Seq<StoreEntry>)
    ensures
        store_bytes(s) >= 0,
    decreases s.len(),
{
    if s.len() > 0 {
        lemma_store_bytes_nonneg(s.drop_first());
    }
}

proof fn lemma_store_bytes_push(s: Seq<StoreEntry>, e: StoreEntry)
    ensures
        store_bytes(s.push(e)) == store_bytes(s) + e.value@.len(),
    decreases s.len(),
{
    let sp = s.push(e);
    assert(sp.len() == s.len() + 1);
    assert(store_bytes(sp) == sp[0].value@.len() + store_bytes(sp.drop_first()));
    if s.len() == 0 {
        assert(sp.drop_first() =~= Seq::<StoreEntry>::empty());
        assert(sp[0] == e);
        assert(store_bytes(sp.drop_first()) == 0);
    } else {
        lemma_store_bytes_push(s.drop_first(), e);
        assert(sp.drop_first() =~= s.drop_first().push(e));
        assert(sp[0] == s[0]);
        assert(store_bytes(s) == s[0].value@.len() + store_bytes(s.drop_first()));
    }
}

proof fn lemma_store_bytes_update(s: Seq<StoreEntry>, i: int, e: StoreEntry)
    requires
        0 <= i < s.len(),
    ensures
        store_bytes(s.update(i, e)) == store_bytes(s) - s[i].value@.len() + e.value@.len(),
    decreases i,
{
    if i == 0 {
        assert(s.update(0, e).drop_first() =~= s.drop_first());
        assert(s.update(0, e)[0] == e);
    } else {
        lemma_store_bytes_update(s.drop_first(), i - 1, e);
        assert(s.update(i, e).drop_first() =~= s.drop_first().update(i - 1, e));
        assert(s.update(i, e)[0] == s[0]);
    }
}

proof fn lemma_store_bytes_remove(s: Seq<StoreEntry>, i: int)
    requires
        0 <= i < s.len(),
    ensures
        store_bytes(s.remove(i)) == store_bytes(s) - s[i].value@.len(),
    decreases i,
{
    if i == 0 {
        assert(s.remove(0) =~= s.drop_first());
    } else {
        lemma_store_bytes_remove(s.drop_first(), i - 1);
        assert(s.remove(i).drop_first() =~= s.drop_first().remove(i - 1));
        assert(s.remove(i)[0] == s[0]);
    }
}

/// With unique keys, the record at `i` is the one the map reads at its key.
proof fn lemma_map_at_index(s: Seq<StoreEntry>, i: int)
    requires
        store_unique_keys(s),
        0 <= i < s.len(),
    ensures
        store_as_map(s).dom().contains(s[i].key@),
        store_as_map(s)[s[i].key@] == s[i].entry_view(),
        store_index_of(s, s[i].key@) == i,
{
    let k = s[i].key@;
    assert(store_has_key(s, k));
    let j = store_index_of(s, k);
    assert(0 <= j < s.len() && s[j].key@ == k);
    if i != j {
        assert(s[i].key@ != s[j].key@);
    }
}

/// Appending a record with a fresh key inserts it into the map.
proof fn lemma_map_push(s: Seq<StoreEntry>, e: StoreEntry)
    requires
        store_unique_keys(s),
        !store_has_key(s, e.key@),
    ensures
        store_unique_keys(s.push(e)),
        store_as_map(s.push(e)) =~= store_as_map(s).insert(e.key@, e.entry_view()),
{
    let s2 = s.push(e);
    assert forall|i: int, j: int|
        0 <= i < s2.len() && 0 <= j < s2.len() && i != j
        implies s2[i].key@ != s2[j].key@ by {
        if i < s.len() && j < s.len() {
            assert(s2[i] == s[i] && s2[j] == s[j]);
        } else if i < s.len() {
            assert(s2[j] == e && s2[i] == s[i]);
        } else {
            assert(s2[i] == e && s2[j] == s[j]);
        }
    }
    assert(s2[s.len() as int].key@ == e.key@);
    assert forall|k: Seq<u8>| #[trigger]
        store_as_map(s2).dom().contains(k)
            == store_as_map(s).insert(e.key@, e.entry_view()).dom().contains(k) by {
        if store_has_key(s, k) {
            let i = choose|i: int| 0 <= i < s.len() && (#[trigger] s[i]).key@ == k;
            assert(s2[i].key@ == k);
        }
        if store_has_key(s2, k) && k != e.key@ {
            let i = choose|i: int| 0 <= i < s2.len() && (#[trigger] s2[i]).key@ == k;
            assert(i < s.len());
            assert(s[i].key@ == k);
        }
    }
    assert forall|k: Seq<u8>| store_as_map(s2).dom().contains(k)
        implies #[trigger] store_as_map(s2)[k] == store_as_map(s).insert(
            e.key@,
            e.entry_view(),
        )[k] by {
        lemma_map_at_index(s2, store_index_of(s2, k));
        if k == e.key@ {
            lemma_map_at_index(s2, s.len() as int);
        } else {
            let i = choose|i: int| 0 <= i < s.len() && (#[trigger] s[i]).key@ == k;
            lemma_map_at_index(s, i);
            lemma_map_at_index(s2, i);
        }
    }
}

/// Replacing the record at `i` by one with the same key updates the map.
proof fn lemma_map_update(s: Seq<StoreEntry>, i: int, e: StoreEntry)
    requires
        store_unique_keys(s),
        0 <= i < s.len(),
        e.key@ == s[i].key@,
    ensures
        store_unique_keys(s.update(i, e)),
        store_as_map(s.update(i, e)) =~= store_as_map(s).insert(e.key@, e.entry_view()),
{
    let s2 = s.update(i, e);
    assert forall|a: int, b: int|
        0 <= a < s2.len() && 0 <= b < s2.len() && a != b
        implies s2[a].key@ != s2[b].key@ by {
        assert(s2[a].key@ == s[a].key@ && s2[b].key@ == s[b].key@);
    }
    assert forall|k: Seq<u8>| #[trigger]
        store_as_map(s2).dom().contains(k)
            == store_as_map(s).insert(e.key@, e.entry_view()).dom().contains(k) by {
        if store_has_key(s, k) {
            let a = choose|a: int| 0 <= a < s.len() && (#[trigger] s[a]).key@ == k;
            assert(s2[a].key@ == k);
        }
        if store_has_key(s2, k) {
            let a = choose|a: int| 0 <= a < s2.len() && (#[trigger] s2[a]).key@ == k;
            assert(s[a].key@ == k || k == e.key@);
        }
    }
    assert forall|k: Seq<u8>| store_as_map(s2).dom().contains(k)
        implies #[trigger] store_as_map(s2)[k] == store_as_map(s).insert(
            e.key@,
            e.entry_view(),
        )[k] by {
        lemma_map_at_index(s2, store_index_of(s2, k));
        if k == e.key@ {
            lemma_map_at_index(s2, i);
        } else {
            let a = choose|a: int| 0 <= a < s.len() && (#[trigger] s[a]).key@ == k;
            assert(a != i);
            lemma_map_at_index(s, a);
            lemma_map_at_index(s2, a);
        }
    }
}

/// Removing the record at `i` removes its key from the map.
proof fn lemma_map_remove(s: Seq<StoreEntry>, i: int)
    requires
        store_unique_keys(s),
        0 <= i < s.len(),
    ensures
        store_unique_keys(s.remove(i)),
        store_as_map(s.remove(i)) =~= store_as_map(s).remove(s[i].key@),
{
    let s2 = s.remove(i);
    assert forall|a: int, b: int|
        0 <= a < s2.len() && 0 <= b < s2.len() && a != b
        implies s2[a].key@ != s2[b].key@ by {
        let pa: int = if a < i { a } else { a + 1 };
        let pb: int = if b < i { b } else { b + 1 };
        assert(s2[a] == s[pa] && s2[b] == s[pb]);
    }
    assert forall|k: Seq<u8>| #[trigger]
        store_as_map(s2).dom().contains(k)
            == store_as_map(s).remove(s[i].key@).dom().contains(k) by {
        if store_has_key(s2, k) {
            let a = choose|a: int| 0 <= a < s2.len() && (#[trigger] s2[a]).key@ == k;
            let pa: int = if a < i { a } else { a + 1 };
            assert(s[pa].key@ == k);
            assert(pa != i);
            assert(k != s[i].key@);
        }
        if store_has_key(s, k) && k != s[i].key@ {
            let a = choose|a: int| 0 <= a < s.len() && (#[trigger] s[a]).key@ == k;
            assert(a != i);
            let na: int = if a < i { a } else { a - 1 };
            assert(s2[na] == s[a]);
        }
    }
    assert forall|k: Seq<u8>| store_as_map(s2).dom().contains(k)
        implies #[trigger] store_as_map(s2)[k] == store_as_map(s).remove(s[i].key@)[k] by {
        let a = store_index_of(s2, k);
        lemma_map_at_index(s2, a);
        let pa: int = if a < i { a } else { a + 1 };
        assert(s2[a] == s[pa]);
        lemma_map_at_index(s, pa);
    }
}

/// The TTL-bound local store: a byte-budgeted map from keys to records.
pub struct Storage {
    /// The records, one per key.
    pub entries: Vec<StoreEntry>,
    /// The byte budget for stored values.
    pub max_bytes: usize,
    /// Bytes held by stored values.
    pub used_bytes: usize,
}

impl View for Storage {
    type V = Map<Seq<u8>, EntryView>;

    open spec fn view(&self) -> Map<Seq<u8>, EntryView> {
        store_as_map(self.entries@)
    }
}

impl Storage {
    /// Keys are unique, the byte counter is exact, and the budget holds.
    pub open spec fn wf(self) -> bool {
        &&& store_unique_keys(self.entries@)
        &&& self.used_bytes == store_bytes(self.entries@)
        &&& self.used_bytes <= self.max_bytes
    }

    /// An empty store with the given byte budget.
    pub fn new(max_bytes: usize) -> (r: Storage)
        ensures
            r.wf(),
            r@ =~= Map::<Seq<u8>, EntryView>::empty(),
            r.max_bytes == max_bytes,
    {
        let r = Storage { entries: Vec::new(), max_bytes, used_bytes: 0 };
        proof {
            assert forall|k: Seq<u8>| !(#[trigger] store_has_key(r.entries@, k)) by {}
        }
        r
    }

    fn position_of_key(&self, key: &Vec<u8>) -> (r: Option<usize>)
        ensures
            match r {
                Some(i) => i < self.entries@.len() && self.entries@[i as int].key@ == key@,
                None => !store_has_key(self.entries@, key@),
            },
    {
        let mut i: usize = 0;
        while i < self.entries.len()
            invariant
                i <= self.entries@.len(),
                forall|j: int| 0 <= j < i ==> (#[trigger] self.entries@[j]).key@ != key@,
            decreases self.entries@.len() - i,
        {
            if bytes_equal(&self.entries[i].key, key) {
                return Some(i);
            }
            i = i + 1;
        }
        None
    }

    /// Write `value` under `key`, visible for `ttl` seconds from `now`.
    /// Fails with `StorageFull`, changing nothing, when the byte budget
    /// would be exceeded; otherwise both the value and its expiry are
    /// (over)written atomically.
    pub fn put(&mut self, key: Vec<u8>, value: Vec<u8>, ttl: u64, now: u64) -> (r: Result<
        (),
        StorageError,
    >)
        requires
            old(self).wf(),
            now + ttl <= u64::MAX,
        ensures
            final(self).wf(),
            final(self).max_bytes == old(self).max_bytes,
            match r {
                Ok(()) => final(self)@ =~= old(self)@.insert(
                    key@,
                    EntryView { value: value@, expires_at: (now + ttl) as u64 },
                ),
                Err(e) => e == StorageError::StorageFull && final(self)@ == old(self)@
                    && final(self).used_bytes == old(self).used_bytes,
            },
            r is Err <==> store_bytes(old(self).entries@) - spec_size_of(
                old(self).entries@,
                key@,
            ) + value@.len() > old(self).max_bytes,
    {
        let expires_at = now + ttl;
        proof {
            lemma_store_bytes_nonneg(self.entries@);
        }
        match self.position_of_key(&key) {
            Some(i) => {
                proof {
                    lemma_map_at_index(self.entries@, i as int);
                    lemma_size_at_index(self.entries@, i as int);
                }
                let old_size = self.entries[i].value.len();
                proof {
                    lemma_store_bytes_remove(self.entries@, i as int);
                    lemma_store_bytes_nonneg(self.entries@.remove(i as int));
                }
                if value.len() > old_size
                    && value.len() - old_size > self.max_bytes - self.used_bytes {
                    return Err(StorageError::StorageFull);
                }
                let ghost pre = self.entries@;
                let new_used = self.used_bytes - old_size + value.len();
                let entry = StoreEntry { key, value, expires_at };
                self.entries.set(i, entry);
                self.used_bytes = new_used;
                proof {
                    lemma_store_bytes_update(pre, i as int, entry);
                    lemma_map_update(pre, i as int, entry);
                }
                Ok(())
            },
            None => {
                proof {
                    lemma_size_absent(self.entries@, key@);
                }
                if value.len() > self.max_bytes - self.used_bytes {
                    return Err(StorageError::StorageFull);
                }
                let ghost pre = self.entries@;
                let new_used = self.used_bytes + value.len();
                let entry = StoreEntry { key, value, expires_at };
                self.entries.push(entry);
                self.used_bytes = new_used;
                proof {
                    lemma_store_bytes_push(pre, entry);
                    lemma_map_push(pre, entry);
                }
                Ok(())
            },
        }
    }
}

/// The expiry after extension by `factor_milli` thousandths at time `now`:
/// the remaining lifetime grows by the factor; a record already past its
/// expiry is left as it is; the result saturates at the largest time.
pub open spec fn extended_expiry(e: u64, now: u64, factor_milli: u64) -> u64 {
    if e <= now {
        e
    } else {
        let grown = now + (e - now) * (1000 + factor_milli) / 1000;
        if grown > u64::MAX {
            u64::MAX
        } else {
            grown as u64
        }
    }
}

/// Law: extending a record's lifetime never hides a visible record and
/// never revives an expired one.
pub proof fn lemma_extension_keeps_visibility(e: u64, now: u64, factor_milli: u64)
    ensures
        (now <= extended_expiry(e, now, factor_milli)) == (now <= e),
{
    if e > now {
        let x = (e - now) as int;
        let f = factor_milli as int;
        assert(x * (1000 + f) >= x * 1000) by (nonlinear_arith)
            requires
                x >= 0,
                f >= 0,
        ;
        vstd::arithmetic::div_mod::lemma_div_is_ordered(x * 1000, x * (1000 + f), 1000);
        vstd::arithmetic::div_mod::lemma_div_multiples_vanish(x, 1000);
        assert(x * 1000 == 1000 * x) by (nonlinear_arith);
        assert(x * (1000 + f) / 1000 >= x);
    }
}

/// Law: after writing a value with a time-to-live, a read at `t` sees the
/// value while `t` is at most the expiry, and the record counts as
/// expired afterwards.
pub proof fn lemma_put_get_round_trip(
    m: Map<Seq<u8>, EntryView>,
    k: Seq<u8>,
    v: Seq<u8>,
    ttl: u64,
    now: u64,
    t: u64,
)
    requires
        now + ttl <= u64::MAX,
    ensures
        ({
            let m2 = m.insert(k, EntryView { value: v, expires_at: (now + ttl) as u64 });
            &&& m2.dom().contains(k)
            &&& m2[k].value == v
            &&& (t <= now + ttl ==> !expired(m2[k], t))
            &&& (t > now + ttl ==> expired(m2[k], t))
        }),
{
}

impl Storage {
    /// Read the value under `key` if it is visible at `now`; an expired
    /// record is deleted on the way (lazy expiry) and reads as absent.
    pub fn get(&mut self, key: &Vec<u8>, now: u64) -> (r: Option<Vec<u8>>)
        requires
            old(self).wf(),
        ensures
            final(self).wf(),
            final(self).max_bytes == old(self).max_bytes,
            match r {
                Some(v) => old(self)@.dom().contains(key@) && !expired(old(self)@[key@], now)
                    && v@ == old(self)@[key@].value && final(self)@ == old(self)@,
                None => (!old(self)@.dom().contains(key@) || expired(old(self)@[key@], now))
                    && final(self)@ =~= old(self)@.remove(key@),
            },
    {
        match self.position_of_key(key) {
            Some(i) => {
                proof {
                    lemma_map_at_index(self.entries@, i as int);
                }
                if now > self.entries[i].expires_at {
                    let ghost pre = self.entries@;
                    proof {
                        lemma_store_bytes_remove(pre, i as int);
                        lemma_store_bytes_nonneg(pre.remove(i as int));
                    }
                    let old_size = self.entries[i].value.len();
                    self.entries.remove(i);
                    self.used_bytes = self.used_bytes - old_size;
                    proof {
                        lemma_map_remove(pre, i as int);
                    }
                    None
                } else {
                    Some(clone_bytes(&self.entries[i].value))
                }
            },
            None => {
                proof {
                    assert(final(self)@ =~= old(self)@.remove(key@));
                }
                None
            },
        }
    }

    /// Read the value under `key` if it is visible at `now`, without
    /// touching the store.
    pub fn lookup(&self, key: &Vec<u8>, now: u64) -> (r: Option<Vec<u8>>)
        requires
            self.wf(),
        ensures
            match r {
                Some(v) => self@.dom().contains(key@) && !expired(self@[key@], now) && v@
                    == self@[key@].value,
                None => !self@.dom().contains(key@) || expired(self@[key@], now),
            },
    {
        match self.position_of_key(key) {
            Some(i) => {
                proof {
                    lemma_map_at_index(self.entries@, i as int);
                }
                if now > self.entries[i].expires_at {
                    None
                } else {
                    Some(clone_bytes(&self.entries[i].value))
                }
            },
            None => None,
        }
    }

    /// Remove the record under `key`; removing an absent key is a no-op.
    pub fn delete(&mut self, key: &Vec<u8>)
        requires
            old(self).wf(),
        ensures
            final(self).wf(),
            final(self).max_bytes == old(self).max_bytes,
            final(self)@ =~= old(self)@.remove(key@),
    {
        match self.position_of_key(key) {
            Some(i) => {
                let ghost pre = self.entries@;
                proof {
                    lemma_store_bytes_remove(pre, i as int);
                    lemma_store_bytes_nonneg(pre.remove(i as int));
                    lemma_map_at_index(pre, i as int);
                }
                let old_size = self.entries[i].value.len();
                self.entries.remove(i);
                self.used_bytes = self.used_bytes - old_size;
                proof {
                    lemma_map_remove(pre, i as int);
                }
            },
            None => {
                proof {
                    assert(final(self)@ =~= old(self)@.remove(key@));
                }
            },
        }
    }

    /// Grow the remaining lifetime of `key` by `factor_milli` thousandths,
    /// from `now`; reports whether the key existed.
    pub fn extend_ttl(&mut self, key: &Vec<u8>, factor_milli: u64, now: u64) -> (r: bool)
        requires
            old(self).wf(),
            factor_milli <= u32::MAX as u64,
        ensures
            final(self).wf(),
            final(self).max_bytes == old(self).max_bytes,
            r == old(self)@.dom().contains(key@),
            r ==> final(self)@ =~= old(self)@.insert(
                key@,
                EntryView {
                    value: old(self)@[key@].value,
                    expires_at: extended_expiry(old(self)@[key@].expires_at, now, factor_milli),
                },
            ),
            !r ==> final(self)@ == old(self)@,
    {
        match self.position_of_key(key) {
            Some(i) => {
                proof {
                    lemma_map_at_index(self.entries@, i as int);
                }
                let e = self.entries[i].expires_at;
                let new_expiry: u64;
                if e <= now {
                    new_expiry = e;
                } else {
                    proof {
                        let x = (e - now) as int;
                        let f = factor_milli as int;
                        assert(x * (1000 + f) <= (u64::MAX as int) * (1000 + (u32::MAX as int)))
                            by (nonlinear_arith)
                            requires
                                0 <= x <= u64::MAX as int,
                                0 <= f <= u32::MAX as int,
                        ;
                        vstd::arithmetic::div_mod::lemma_div_pos_is_pos(x * (1000 + f), 1000);
                        vstd::arithmetic::div_mod::lemma_div_is_ordered(
                            x * (1000 + f),
                            (u64::MAX as int) * (1000 + (u32::MAX as int)),
                            1000,
                        );
                    }
                    let remaining = (e - now) as u128;
                    let grown: u128 = (now as u128) + remaining * (1000 + factor_milli as u128)
                        / 1000;
                    if grown > u64::MAX as u128 {
                        new_expiry = u64::MAX;
                    } else {
                        new_expiry = grown as u64;
                    }
                }
                let ghost pre = self.entries@;
                let mut entry = self.entries.remove(i);
                entry.expires_at = new_expiry;
                self.entries.insert(i, entry);
                proof {
                    assert(self.entries@ =~= pre.update(i as int, entry));
                    lemma_store_bytes_update(pre, i as int, entry);
                    lemma_map_update(pre, i as int, entry);
                }
                true
            },
            None => false,
        }
    }

    /// Remove every record whose expiry lies strictly before `now`;
    /// returns how many records were removed.
    pub fn cleanup_expired(&mut self, now: u64) -> (r: usize)
        requires
            old(self).wf(),
        ensures
            final(self).wf(),
            final(self).max_bytes == old(self).max_bytes,
            final(self)@ =~= swept(old(self)@, now),
            r == old(self).entries@.len() - final(self).entries@.len(),
    {
        let ghost target = swept(store_as_map(self.entries@), now);
        let orig_len = self.entries.len();
        let mut removed: usize = 0;
        loop
            invariant
                self.wf(),
                self.max_bytes == old(self).max_bytes,
                swept(store_as_map(self.entries@), now) =~= target,
                removed + self.entries@.len() == orig_len,
            ensures
                self.wf(),
                self.max_bytes == old(self).max_bytes,
                swept(store_as_map(self.entries@), now) =~= target,
                removed + self.entries@.len() == orig_len,
                forall|j: int|
                    0 <= j < self.entries@.len() ==> !expired(
                        (#[trigger] self.entries@[j]).entry_view(),
                        now,
                    ),
            decreases self.entries@.len(),
        {
            match self.position_of_expired(now) {
                Some(i) => {
                    let ghost pre = self.entries@;
                    proof {
                        lemma_store_bytes_remove(pre, i as int);
                        lemma_store_bytes_nonneg(pre.remove(i as int));
                        lemma_map_at_index(pre, i as int);
                    }
                    let old_size = self.entries[i].value.len();
                    self.entries.remove(i);
                    self.used_bytes = self.used_bytes - old_size;
                    removed = removed + 1;
                    proof {
                        lemma_map_remove(pre, i as int);
                        let k = pre[i as int].key@;
                        assert(swept(store_as_map(pre).remove(k), now) =~= swept(
                            store_as_map(pre),
                            now,
                        ));
                    }
                },
                None => {
                    break;
                },
            }
        }
        proof {
            let m = store_as_map(self.entries@);
            assert(m =~= swept(m, now)) by {
                assert forall|k: Seq<u8>| #[trigger] m.dom().contains(k)
                    implies !expired(m[k], now) by {
                    let i = store_index_of(self.entries@, k);
                    lemma_map_at_index(self.entries@, i);
                }
            }
        }
        removed
    }

    /// Whether `size` more bytes fit in the budget.
    pub fn has_space(&self, size: usize) -> (r: bool)
        requires
            self.wf(),
        ensures
            r == (self.used_bytes + size <= self.max_bytes),
    {
        size <= self.max_bytes - self.used_bytes
    }

    fn position_of_expired(&self, now: u64) -> (r: Option<usize>)
        ensures
            match r {
                Some(i) => i < self.entries@.len() && expired(
                    self.entries@[i as int].entry_view(),
                    now,
                ),
                None => forall|j: int|
                    0 <= j < self.entries@.len() ==> !expired(
                        (#[trigger] self.entries@[j]).entry_view(),
                        now,
                    ),
            },
    {
        let mut i: usize = 0;
        while i < self.entries.len()
            invariant
                i <= self.entries@.len(),
                forall|j: int|
                    0 <= j < i ==> !expired((#[trigger] self.entries@[j]).entry_view(), now),
            decreases self.entries@.len() - i,
        {
            if now > self.entries[i].expires_at {
                return Some(i);
            }
            i = i + 1;
        }
        None
    }
}

/// Bytes currently held under `k`, or zero when `k` is absent.
pub open spec fn spec_size_of(s: Seq<StoreEntry>, k: Seq<u8>) -> int {
    if store_has_key(s, k) {
        s[store_index_of(s, k)].value@.len() as int
    } else {
        0
    }
}

proof fn lemma_size_at_index(s: Seq<StoreEntry>, i: int)
    requires
        store_unique_keys(s),
        0 <= i < s.len(),
    ensures
        spec_size_of(s, s[i].key@) == s[i].value@.len(),
{
    lemma_map_at_index(s, i);
}

proof fn lemma_size_absent(s: Seq<StoreEntry>, k: Seq<u8>)
    requires
        !store_has_key(s, k),
    ensures
        spec_size_of(s, k) == 0,
{
}

/// Byte equality of two vectors.
pub fn bytes_equal(a: &Vec<u8>, b: &Vec<u8>) -> (r: bool)
    ensures
        r == (a@ =~= b@),
{
    if a.len() != b.len() {
        return false;
    }
    let mut i: usize = 0;
    while i < a.len()
        invariant
            a@.len() == b@.len(),
            i <= a@.len(),
            forall|j: int| 0 <= j < i ==> a@[j] == b@[j],
        decreases a@.len() - i,
    {
        if a[i] != b[i] {
            return false;
        }
        i = i + 1;
    }
    true
}

} // verus!
