use vstd::prelude::*;
use crate::identity::Identity;
use crate::announcement::{
    Announcement,
    verified_published,
    expired,
    EXPIRY_MS,
    CLOCK_SKEW_MS,
};

verus! {

/// Stored announcements are sent out again once this many milliseconds passed
/// since they were last refreshed.
pub const STORE_FRESH_MS: u64 = 60 * 60 * 1000;

/// Why a Store request was turned away.
#[derive(Clone, Copy, Debug, PartialEq, Eq, Structural)]
pub enum StoreError {
    /// The announcement is not signed by the identity it is stored under.
    BadSignature,
    /// The announcement's `published` stamp is more than a minute ahead of `now`.
    TooNew,
}

/// A stored announcement, with its `published` stamp and when it was last refreshed.
#[derive(Clone, Debug)]
pub struct StoreEntry {
    pub key: Identity,
    pub value: Announcement,
    pub published: u64,
    pub updated: u64,
}

/// Whether a store entry is due to be sent out again at `now`.
pub open spec fn stale(e: StoreEntry, now: u64) -> bool {
    e.updated + STORE_FRESH_MS < now
}

/// The index of the entry for `key`, if there is one.
pub open spec fn index_of(s: Seq<StoreEntry>, key: Seq<u8>) -> int {
    if exists|i: int| 0 <= i < s.len() && s[i].key@ == key {
        choose|i: int| 0 <= i < s.len() && s[i].key@ == key
    } else {
        -1
    }
}

/// The entries after a Store of `value` under `key`, published at `p`, at `now`:
/// a new key is added; a known one is replaced only by a strictly newer stamp.
pub open spec fn stored_after(s: Seq<StoreEntry>, key: Identity, value: Announcement, p: u64, now: u64) -> Seq<
    StoreEntry,
> {
    let i = index_of(s, key@);
    if i < 0 {
        s.push(StoreEntry { key, value, published: p, updated: now })
    } else if p > s[i].published {
        s.update(i, StoreEntry { key, value, published: p, updated: now })
    } else {
        s
    }
}

/// Which of the entries survive a sweep at `now`, and with what refresh stamp.
pub open spec fn swept(e: StoreEntry, now: u64) -> StoreEntry {
    if stale(e, now) {
        StoreEntry { updated: now, ..e }
    } else {
        e
    }
}

/// Keys are unique in a sequence of entries.
pub open spec fn keys_unique(s: Seq<StoreEntry>) -> bool {
    forall|i: int, j: int| 0 <= i < j < s.len() ==> (#[trigger] s[i]).key@ != (#[trigger] s[j]).key@
}

proof fn lemma_index_unique(s: Seq<StoreEntry>, key: Seq<u8>, i: int)
    requires
        keys_unique(s),
        0 <= i < s.len(),
        s[i].key@ == key,
    ensures
        index_of(s, key) == i,
{
    let c = choose|c: int| 0 <= c < s.len() && s[c].key@ == key;
    if c < i {
        assert(s[c].key@ != s[i].key@);
    } else if c > i {
        assert(s[i].key@ != s[c].key@);
    }
}

/// Storing the same announcement a second time changes nothing: in particular
/// its refresh stamp does not move.
pub proof fn lemma_store_idempotent(
    s: Seq<StoreEntry>,
    key: Identity,
    value: Announcement,
    p: u64,
    now1: u64,
    now2: u64,
)
    requires
        keys_unique(s),
    ensures
        ({
            let s1 = stored_after(s, key, value, p, now1);
            stored_after(s1, key, value, p, now2) == s1
        }),
{
    let s1 = stored_after(s, key, value, p, now1);
    let i = index_of(s, key@);
    if i < 0 {
        assert forall|a: int, b: int| 0 <= a < b < s1.len() implies (#[trigger] s1[a]).key@ != (#[trigger] s1[b]).key@ by {
            if b == s.len() {
                if s[a].key@ == key@ {
                    assert(exists|c: int| 0 <= c < s.len() && s[c].key@ == key@);
                }
            }
        }
        lemma_index_unique(s1, key@, s.len() as int);
    } else {
        assert(0 <= i < s.len() && s[i].key@ == key@);
        assert forall|a: int, b: int| 0 <= a < b < s1.len() implies (#[trigger] s1[a]).key@ != (#[trigger] s1[b]).key@ by {
            assert(s[a].key@ != s[b].key@);
        }
        lemma_index_unique(s1, key@, i);
    }
}

/// After a Store, the key is held, by an announcement at least as new.
pub proof fn lemma_stored_has_key(s: Seq<StoreEntry>, key: Identity, value: Announcement, p: u64, now: u64)
    requires
        keys_unique(s),
    ensures
        index_of(stored_after(s, key, value, p, now), key@) >= 0,
        stored_after(s, key, value, p, now)[index_of(stored_after(s, key, value, p, now), key@)].published >= p,
        keys_unique(stored_after(s, key, value, p, now)),
{
    let s1 = stored_after(s, key, value, p, now);
    let i = index_of(s, key@);
    if i < 0 {
        assert forall|a: int, b: int| 0 <= a < b < s1.len() implies (#[trigger] s1[a]).key@ != (#[trigger] s1[b]).key@ by {
            if b == s.len() {
                if s[a].key@ == key@ {
                    assert(exists|c: int| 0 <= c < s.len() && s[c].key@ == key@);
                }
            }
        }
        lemma_index_unique(s1, key@, s.len() as int);
    } else {
        assert(0 <= i < s.len() && s[i].key@ == key@);
        assert forall|a: int, b: int| 0 <= a < b < s1.len() implies (#[trigger] s1[a]).key@ != (#[trigger] s1[b]).key@ by {
            assert(s[a].key@ != s[b].key@);
        }
        lemma_index_unique(s1, key@, i);
    }
}

/// After a sweep at `now`, no stored announcement has expired, and every entry
/// that was due is refreshed at `now`.
pub proof fn lemma_sweep_fresh(s: Seq<StoreEntry>, now: u64)
    ensures
        ({
            let after = s.filter(|e: StoreEntry| !expired(e.published, now)).map_values(|e: StoreEntry| swept(e, now));
            forall|i: int| 0 <= i < after.len() ==> !expired((#[trigger] after[i]).published, now) && !stale(after[i], now)
        }),
{
    let keep = |e: StoreEntry| !expired(e.published, now);
    let f = s.filter(keep);
    let after = f.map_values(|e: StoreEntry| swept(e, now));
    assert forall|i: int| 0 <= i < after.len() implies !expired((#[trigger] after[i]).published, now) && !stale(
        after[i],
        now,
    ) by {
        s.lemma_filter_pred(keep, i);
        assert(after[i] == swept(f[i], now));
    }
}

/// The announcements that this node holds for others, keyed by user identity.
pub struct ValueStore {
    entries: Vec<StoreEntry>,
}

impl ValueStore {
    /// The entries, in insertion order.
    pub closed spec fn entries_seq(&self) -> Seq<StoreEntry> {
        self.entries@
    }

    /// No key appears twice.
    pub closed spec fn wf(&self) -> bool {
        forall|i: int, j: int|
            0 <= i < j < self.entries@.len() ==> (#[trigger] self.entries@[i]).key@ != (#[trigger] self.entries@[j]).key@
    }

    /// No key appears twice, spelled out.
    pub proof fn lemma_keys_unique(&self)
        requires
            self.wf(),
        ensures
            keys_unique(self.entries_seq()),
    {
    }

    /// An empty store.
    pub fn new() -> (r: ValueStore)
        ensures
            r.wf(),
            r.entries_seq().len() == 0,
    {
        ValueStore { entries: Vec::new() }
    }

    /// Number of stored announcements.
    pub fn len(&self) -> (r: usize)
        ensures
            r == self.entries_seq().len(),
    {
        self.entries.len()
    }

    /// The key of entry `i`.
    pub fn key_at(&self, i: usize) -> (r: Identity)
        requires
            i < self.entries_seq().len(),
        ensures
            r == self.entries_seq()[i as int].key,
    {
        self.entries[i].key
    }

    /// The announcement of entry `i`.
    pub fn value_at(&self, i: usize) -> (r: &Announcement)
        requires
            i < self.entries_seq().len(),
        ensures
            *r == self.entries_seq()[i as int].value,
    {
        &self.entries[i].value
    }

    fn find(&self, key: &Identity) -> (r: Option<usize>)
        requires
            self.wf(),
        ensures
            match r {
                Some(i) => i < self.entries@.len() && self.entries@[i as int].key@ == key@ && index_of(
                    self.entries@,
                    key@,
                ) == i,
                None => index_of(self.entries@, key@) == -1,
            },
    {
        let n = self.entries.len();
        for i in 0..n
            invariant
                n == self.entries@.len(),
                self.wf(),
                forall|j: int| 0 <= j < i ==> self.entries@[j].key@ != key@,
        {
            if self.entries[i].key == *key {
                proof {
                    let c = choose|c: int| 0 <= c < self.entries@.len() && self.entries@[c].key@ == key@;
                    if c != i {
                        if c < i {
                            assert(self.entries@[c].key@ != self.entries@[i as int].key@);
                        } else {
                            assert(self.entries@[i as int].key@ != self.entries@[c].key@);
                        }
                    }
                }
                return Some(i);
            }
        }
        None
    }

    /// The announcement stored under `key`.
    pub fn get(&self, key: &Identity) -> (r: Option<&Announcement>)
        requires
            self.wf(),
        ensures
            match r {
                Some(v) => index_of(self.entries_seq(), key@) >= 0 && *v == self.entries_seq()[index_of(
                    self.entries_seq(),
                    key@,
                )].value,
                None => index_of(self.entries_seq(), key@) == -1,
            },
    {
        match self.find(key) {
            Some(i) => Some(&self.entries[i].value),
            None => None,
        }
    }

    /// Stores `value` under `key`, published at `published`, at `now`, keeping an
    /// entry already there unless the new stamp is strictly newer.
    pub fn insert(&mut self, key: Identity, value: Announcement, published: u64, now: u64)
        requires
            old(self).wf(),
        ensures
            final(self).wf(),
            final(self).entries_seq() == stored_after(old(self).entries_seq(), key, value, published, now),
    {
        let ghost s = self.entries@;
        match self.find(&key) {
            Some(i) => {
                if published > self.entries[i].published {
                    let e = StoreEntry { key, value, published, updated: now };
                    self.entries.set(i, e);
                    proof {
                        assert forall|a: int, b: int| 0 <= a < b < self.entries@.len() implies (#[trigger] self.entries@[a]).key@
                            != (#[trigger] self.entries@[b]).key@ by {
                            assert(s[a].key@ != s[b].key@);
                        }
                    }
                }
            },
            None => {
                self.entries.push(StoreEntry { key, value, published, updated: now });
                proof {
                    assert forall|a: int, b: int| 0 <= a < b < self.entries@.len() implies (#[trigger] self.entries@[a]).key@
                        != (#[trigger] self.entries@[b]).key@ by {
                        if b < s.len() {
                            assert(s[a].key@ != s[b].key@);
                        } else {
                            assert(self.entries@[a] == s[a]);
                        }
                    }
                }
            },
        }
    }

    /// Handles a Store request at `now`: the announcement must be signed by `key`
    /// and published no more than a minute ahead of `now`. Returns whether the
    /// store changed.
    pub fn store(&mut self, key: Identity, value: Announcement, now: u64) -> (r: Result<bool, StoreError>)
        requires
            old(self).wf(),
        ensures
            final(self).wf(),
            match verified_published(key@, value.message@, value.signature@) {
                None => r == Err::<bool, StoreError>(StoreError::BadSignature) && final(self).entries_seq()
                    == old(self).entries_seq(),
                Some(p) => if p > now + CLOCK_SKEW_MS {
                    r == Err::<bool, StoreError>(StoreError::TooNew) && final(self).entries_seq() == old(self).entries_seq()
                } else {
                    final(self).entries_seq() == stored_after(old(self).entries_seq(), key, value, p, now) && r
                        == Ok::<bool, StoreError>(final(self).entries_seq() != old(self).entries_seq())
                },
            },
    {
        let p = match value.verify(&key) {
            Some(p) => p,
            None => {
                return Err(StoreError::BadSignature);
            },
        };
        if p > now && p - now > CLOCK_SKEW_MS {
            return Err(StoreError::TooNew);
        }
        let ghost s = self.entries@;
        let changed = match self.find(&key) {
            Some(i) => p > self.entries[i].published,
            None => true,
        };
        proof {
            let i = index_of(s, key@);
            if changed && i >= 0 {
                assert(stored_after(s, key, value, p, now)[i].published == p);
            } else if changed {
                assert(stored_after(s, key, value, p, now).len() == s.len() + 1);
            }
        }
        self.insert(key, value, p, now);
        Ok(changed)
    }

    /// Drops every announcement that expired at `now`, marks those that are due
    /// to be sent out again as refreshed at `now`, and returns their keys.
    pub fn sweep(&mut self, now: u64) -> (r: Vec<Identity>)
        requires
            old(self).wf(),
        ensures
            final(self).wf(),
            final(self).entries_seq() == old(self).entries_seq().filter(|e: StoreEntry| !expired(e.published, now)).map_values(
                |e: StoreEntry| swept(e, now),
            ),
            r@ == old(self).entries_seq().filter(|e: StoreEntry| !expired(e.published, now) && stale(e, now)).map_values(
                |e: StoreEntry| e.key,
            ),
    {
        let ghost s = self.entries@;
        let ghost keep = |e: StoreEntry| !expired(e.published, now);
        let ghost due = |e: StoreEntry| !expired(e.published, now) && stale(e, now);
        let mut out: Vec<Identity> = Vec::new();
        let mut i: usize = 0;
        let ghost mut j: int = 0;
        while i < self.entries.len()
            invariant
                0 <= j <= s.len(),
                s == old(self).entries@,
                keep == (|e: StoreEntry| !expired(e.published, now)),
                due == (|e: StoreEntry| !expired(e.published, now) && stale(e, now)),
                i as int == s.take(j).filter(keep).len(),
                self.entries@ == s.take(j).filter(keep).map_values(|e: StoreEntry| swept(e, now)) + s.skip(j),
                out@ == s.take(j).filter(due).map_values(|e: StoreEntry| e.key),
                self.wf(),
            decreases self.entries@.len() - i,
        {
            let ghost pre = s.take(j).filter(keep).map_values(|e: StoreEntry| swept(e, now));
            let ghost cur = self.entries@;
            proof {
                assert(j < s.len()) by {
                    if j == s.len() {
                        assert(s.skip(j).len() == 0);
                    }
                }
                assert(cur[i as int] == s[j]);
                assert(s.take(j + 1).drop_last() =~= s.take(j));
                assert(s.take(j + 1).last() == s[j]);
                assert(s.skip(j + 1) =~= s.skip(j).drop_first());
            }
            let published = self.entries[i].published;
            if now > published && now - published > EXPIRY_MS {
                self.entries.remove(i);
                proof {
                    reveal(Seq::filter);
                    assert(published == s[j].published);
                    assert(expired(s[j].published, now));
                    assert(!keep(s[j]));
                    assert(!due(s[j]));
                    assert(s.take(j + 1).filter(keep) == s.take(j).filter(keep));
                    assert(s.take(j + 1).filter(due) == s.take(j).filter(due));
                    assert(self.entries@ =~= pre + s.skip(j + 1));
                    assert forall|a: int, b: int| 0 <= a < b < self.entries@.len() implies (#[trigger] self.entries@[a]).key@
                        != (#[trigger] self.entries@[b]).key@ by {
                        let a1 = if a < i { a } else { a + 1 };
                        let b1 = if b < i { b } else { b + 1 };
                        assert(self.entries@[a] == cur[a1] && self.entries@[b] == cur[b1]);
                    }
                }
            } else {
                let updated = self.entries[i].updated;
                if now > updated && now - updated > STORE_FRESH_MS {
                    self.entries[i].updated = now;
                    out.push(self.entries[i].key);
                    proof {
                        reveal(Seq::filter);
                        assert(due(s[j]));
                        assert(s.take(j + 1).filter(due) == s.take(j).filter(due).push(s[j]));
                        assert(out@ =~= s.take(j + 1).filter(due).map_values(|e: StoreEntry| e.key));
                    }
                } else {
                    proof {
                        reveal(Seq::filter);
                        assert(!due(s[j]));
                        assert(s.take(j + 1).filter(due) == s.take(j).filter(due));
                    }
                }
                proof {
                    reveal(Seq::filter);
                    assert(keep(s[j]));
                    assert(s.take(j + 1).filter(keep) == s.take(j).filter(keep).push(s[j]));
                    assert(self.entries@[i as int] == swept(s[j], now));
                    assert(self.entries@ =~= s.take(j + 1).filter(keep).map_values(|e: StoreEntry| swept(e, now)) + s.skip(
                        j + 1,
                    ));
                    assert forall|a: int, b: int| 0 <= a < b < self.entries@.len() implies (#[trigger] self.entries@[a]).key@
                        != (#[trigger] self.entries@[b]).key@ by {
                        assert(self.entries@[a].key == cur[a].key && self.entries@[b].key == cur[b].key);
                    }
                }
                i = i + 1;
            }
            proof {
                j = j + 1;
            }
        }
        proof {
            assert(j == s.len()) by {
                if j < s.len() {
                    assert(s.skip(j).len() > 0);
                }
            }
            assert(s.take(j) =~= s);
            assert(self.entries@ =~= s.filter(keep).map_values(|e: StoreEntry| swept(e, now)));
        }
        out
    }
}

} // verus!
