use vstd::prelude::*;
use vstd::rwlock::RwLock;

verus! {

/// A stored value together with its optional absolute expiry instant,
/// in milliseconds of the server's clock.
pub struct Entry {
    pub value: Vec<u8>,
    pub expiry: Option<u64>,
}

/// Mathematical model of an `Entry`.
pub struct EntryModel {
    pub value: Seq<u8>,
    pub expiry: Option<u64>,
}

impl Entry {
    pub open spec fn deep(&self) -> EntryModel {
        EntryModel { value: self.value@, expiry: self.expiry }
    }
}

/// An entry is expired when its expiry lies strictly in the past.
pub open spec fn entry_expired(e: EntryModel, now: u64) -> bool {
    e.expiry matches Some(t) && t < now
}

/// The absolute expiry a `SET` computes from a relative time to live:
/// `now + millis`, saturating at the clock's maximum.
pub open spec fn spec_expiry(px: Option<u64>, now: u64) -> Option<u64> {
    match px {
        Option::None => Option::None,
        Option::Some(ms) => Option::Some(
            if now + ms > u64::MAX {
                u64::MAX
            } else {
                (now + ms) as u64
            },
        ),
    }
}

/// What a read returns: the value, unless the key is absent or its
/// entry has expired.
pub open spec fn spec_lookup(m: Map<Seq<char>, EntryModel>, k: Seq<char>, now: u64) -> Option<
    Seq<u8>,
> {
    if m.contains_key(k) && !entry_expired(m[k], now) {
        Option::Some(m[k].value)
    } else {
        Option::None
    }
}

/// The map after a read: unchanged, except that a read of an expired
/// entry evicts it.
pub open spec fn spec_after_get(
    m: Map<Seq<char>, EntryModel>,
    k: Seq<char>,
    now: u64,
) -> Map<Seq<char>, EntryModel> {
    if m.contains_key(k) && entry_expired(m[k], now) {
        m.remove(k)
    } else {
        m
    }
}

/// The in-memory key-value store: a mapping from text key to entry
/// with passive, read-time expiry. This is the single-owner core;
/// `SharedStore` guards one instance for concurrent connections.
pub struct Store {
    entries: Vec<(String, Entry)>,
}

/// The map an association list denotes; later pairs would win, but the
/// store keeps keys distinct.
pub open spec fn assoc_view(es: Seq<(String, Entry)>) -> Map<Seq<char>, EntryModel>
    decreases es.len(),
{
    if es.len() == 0 {
        Map::empty()
    } else {
        assoc_view(es.drop_last()).insert(es.last().0@, es.last().1.deep())
    }
}

/// No two pairs carry the same key.
pub open spec fn keys_distinct(es: Seq<(String, Entry)>) -> bool {
    forall|i: int, j: int| 0 <= i < j < es.len() ==> (#[trigger] es[i]).0@ != (#[trigger] es[j]).0@
}

/// The association list means exactly its pairs: a key is in the map
/// just when some pair holds it, and maps to that pair's entry.
pub proof fn lemma_assoc_view(es: Seq<(String, Entry)>)
    requires
        keys_distinct(es),
    ensures
        forall|k: Seq<char>|
            #[trigger] assoc_view(es).contains_key(k) <==> exists|i: int|
                0 <= i < es.len() && (#[trigger] es[i]).0@ == k,
        forall|i: int|
            0 <= i < es.len() ==> assoc_view(es)[(#[trigger] es[i]).0@] == es[i].1.deep(),
    decreases es.len(),
{
    if es.len() > 0 {
        assert(keys_distinct(es.drop_last()));
        lemma_assoc_view(es.drop_last());
        assert forall|k: Seq<char>| #[trigger]
            assoc_view(es).contains_key(k) <==> exists|i: int|
                0 <= i < es.len() && (#[trigger] es[i]).0@ == k by {
            if assoc_view(es).contains_key(k) {
                if k == es.last().0@ {
                    assert(es[es.len() - 1].0@ == k);
                } else {
                    let i = choose|i: int|
                        0 <= i < es.drop_last().len() && (#[trigger] es.drop_last()[i]).0@ == k;
                    assert(es[i].0@ == k);
                }
            }
            if exists|i: int| 0 <= i < es.len() && (#[trigger] es[i]).0@ == k {
                let i = choose|i: int| 0 <= i < es.len() && (#[trigger] es[i]).0@ == k;
                if i < es.len() - 1 {
                    assert(es.drop_last()[i].0@ == k);
                }
            }
        }
        assert forall|i: int| 0 <= i < es.len() implies assoc_view(es)[(#[trigger] es[i]).0@]
            == es[i].1.deep() by {
            if i < es.len() - 1 {
                assert(es[i].0@ != es[es.len() - 1].0@);
                assert(es.drop_last()[i] == es[i]);
            }
        }
    }
}

impl Store {
    /// Internal shape the operations keep: one pair per key.
    pub closed spec fn wf(&self) -> bool {
        keys_distinct(self.entries@)
    }

    /// The mapping this store holds.
    pub closed spec fn view(&self) -> Map<Seq<char>, EntryModel> {
        assoc_view(self.entries@)
    }

    /// An empty store.
    pub fn new() -> (s: Store)
        ensures
            s.wf(),
            s.view() == Map::<Seq<char>, EntryModel>::empty(),
    {
        Store { entries: Vec::new() }
    }

    /// Position of the pair holding `key`, if one does.
    fn find_index(&self, key: &String) -> (r: Option<usize>)
        ensures
            match r {
                Option::Some(i) => i < self.entries@.len() && self.entries@[i as int].0@ == key@,
                Option::None => forall|i: int|
                    0 <= i < self.entries@.len() ==> (#[trigger] self.entries@[i]).0@ != key@,
            },
    {
        let mut i: usize = 0;
        while i < self.entries.len()
            invariant
                i <= self.entries@.len(),
                forall|j: int| 0 <= j < i ==> (#[trigger] self.entries@[j]).0@ != key@,
            decreases self.entries@.len() - i,
        {
            let pair = &self.entries[i];
            if pair.0 == *key {
                return Some(i);
            }
            i = i + 1;
        }
        None
    }

    /// Inserts or fully replaces the entry for `key`. A relative
    /// expiry is turned into the absolute instant `now + millis`,
    /// saturating at the clock's maximum.
    pub fn set(&mut self, key: String, value: Vec<u8>, px: Option<u64>, now: u64)
        requires
            old(self).wf(),
        ensures
            final(self).wf(),
            final(self).view() == old(self).view().insert(
                key@,
                EntryModel { value: value@, expiry: spec_expiry(px, now) },
            ),
    {
        let expiry: Option<u64> = match px {
            Option::None => None,
            Option::Some(ms) => {
                if now > u64::MAX - ms {
                    Some(u64::MAX)
                } else {
                    Some(now + ms)
                }
            },
        };
        let entry = Entry { value, expiry };
        let ghost em = entry.deep();
        let ghost es0 = self.entries@;
        proof {
            lemma_assoc_view(es0);
        }
        match self.find_index(&key) {
            Option::Some(i) => {
                let ghost keyv = key@;
                self.entries.set(i, (key, entry));
                proof {
                    let es1 = self.entries@;
                    assert(es1 == es0.update(i as int, (es1[i as int].0, es1[i as int].1)));
                    assert forall|p: int, q: int|
                        0 <= p < q < es1.len() implies (#[trigger] es1[p]).0@ != (
                    #[trigger] es1[q]).0@ by {
                        assert(es0[p].0@ == es1[p].0@ || (p == i && es1[p].0@ == keyv));
                        assert(es0[q].0@ == es1[q].0@ || (q == i && es1[q].0@ == keyv));
                        assert(es0[i as int].0@ == keyv);
                    }
                    lemma_assoc_view(es1);
                    assert(assoc_view(es1) =~= assoc_view(es0).insert(keyv, em)) by {
                        assert forall|k: Seq<char>| #[trigger]
                            assoc_view(es1).contains_key(k) == assoc_view(es0).insert(
                                keyv,
                                em,
                            ).contains_key(k) by {
                            if assoc_view(es1).contains_key(k) {
                                let j = choose|j: int|
                                    0 <= j < es1.len() && (#[trigger] es1[j]).0@ == k;
                                if j != i {
                                    assert(es0[j].0@ == k);
                                }
                            }
                            if k != keyv && assoc_view(es0).contains_key(k) {
                                let j = choose|j: int|
                                    0 <= j < es0.len() && (#[trigger] es0[j]).0@ == k;
                                assert(es1[j].0@ == k);
                            }
                        }
                        assert forall|k: Seq<char>|
                            assoc_view(es1).contains_key(k) implies #[trigger] assoc_view(es1)[k]
                            == assoc_view(es0).insert(keyv, em)[k] by {
                            let j = choose|j: int|
                                0 <= j < es1.len() && (#[trigger] es1[j]).0@ == k;
                            if k == keyv {
                                assert(es1[i as int].0@ == k);
                                assert(j == i);
                            } else {
                                assert(j != i);
                                assert(es0[j].0@ == k);
                                assert(assoc_view(es0)[k] == es0[j].1.deep());
                            }
                        }
                    }
                }
            },
            Option::None => {
                let ghost keyv = key@;
                self.entries.push((key, entry));
                proof {
                    let es1 = self.entries@;
                    assert(es1.drop_last() =~= es0);
                    assert(es1.last().0@ == keyv && es1.last().1.deep() == em);
                    assert forall|p: int, q: int|
                        0 <= p < q < es1.len() implies (#[trigger] es1[p]).0@ != (
                    #[trigger] es1[q]).0@ by {
                        if q < es1.len() - 1 {
                            assert(es0[p] == es1[p] && es0[q] == es1[q]);
                        } else {
                            assert(es0[p] == es1[p]);
                            assert(es0[p].0@ != keyv);
                        }
                    }
                }
            },
        }
    }

    /// Removes the pair at `i`, keeping the order of the others.
    fn remove_at(&mut self, i: usize)
        requires
            i < old(self).entries@.len(),
        ensures
            final(self).entries@ == old(self).entries@.subrange(0, i as int) + old(
                self,
            ).entries@.subrange(i as int + 1, old(self).entries@.len() as int),
    {
        let ghost orig = self.entries@;
        let mut tail: Vec<(String, Entry)> = Vec::new();
        while self.entries.len() > i + 1
            invariant
                i + 1 <= self.entries@.len() <= orig.len(),
                self.entries@ == orig.subrange(0, self.entries@.len() as int),
                tail@.len() == orig.len() - self.entries@.len(),
                forall|j: int| 0 <= j < tail@.len() ==> #[trigger] tail@[j] == orig[orig.len() - 1
                    - j],
            decreases self.entries@.len(),
        {
            let ghost before = self.entries@;
            let x = match self.entries.pop() {
                Option::Some(x) => x,
                Option::None => {
                    proof {
                        assert(false);
                    }
                    unreached()
                },
            };
            proof {
                assert(before.drop_last() =~= orig.subrange(0, before.len() - 1));
            }
            tail.push(x);
        }
        let ghost before = self.entries@;
        let _removed = self.entries.pop();
        proof {
            assert(before.drop_last() =~= orig.subrange(0, i as int));
        }
        while tail.len() > 0
            invariant
                self.entries@.len() == i + (orig.len() - i - 1 - tail@.len()),
                self.entries@ =~= orig.subrange(0, i as int) + orig.subrange(
                    i as int + 1,
                    orig.len() - tail@.len(),
                ),
                tail@.len() <= orig.len() - i - 1,
                forall|j: int| 0 <= j < tail@.len() ==> #[trigger] tail@[j] == orig[orig.len() - 1
                    - j],
            decreases tail@.len(),
        {
            let ghost k = tail@.len();
            let x = match tail.pop() {
                Option::Some(x) => x,
                Option::None => {
                    proof {
                        assert(false);
                    }
                    unreached()
                },
            };
            proof {
                assert(x == orig[orig.len() - k]);
            }
            self.entries.push(x);
            proof {
                assert(self.entries@ =~= orig.subrange(0, i as int) + orig.subrange(
                    i as int + 1,
                    orig.len() - tail@.len(),
                ));
            }
        }
        proof {
            assert(self.entries@ =~= orig.subrange(0, i as int) + orig.subrange(
                i as int + 1,
                orig.len() as int,
            ));
        }
    }

    /// Reads `key` as of `now`. An entry whose expiry has passed is
    /// removed and reported absent, never returned stale; absence is a
    /// normal outcome, not an error.
    pub fn get(&mut self, key: &String, now: u64) -> (r: Option<Vec<u8>>)
        requires
            old(self).wf(),
        ensures
            final(self).wf(),
            match r {
                Option::Some(v) => spec_lookup(old(self).view(), key@, now) == Option::Some(v@),
                Option::None => spec_lookup(old(self).view(), key@, now) is None,
            },
            final(self).view() == spec_after_get(old(self).view(), key@, now),
    {
        let ghost es0 = self.entries@;
        proof {
            lemma_assoc_view(es0);
        }
        match self.find_index(key) {
            Option::None => {
                proof {
                    assert(!self.view().contains_key(key@));
                }
                None
            },
            Option::Some(i) => {
                let expired: bool = match &self.entries[i].1.expiry {
                    Option::Some(t) => *t < now,
                    Option::None => false,
                };
                proof {
                    assert(self.view().contains_key(key@));
                    assert(self.view()[key@] == es0[i as int].1.deep());
                    assert(expired == entry_expired(self.view()[key@], now));
                }
                if expired {
                    self.remove_at(i);
                    proof {
                        let es1 = self.entries@;
                        assert forall|p: int, q: int|
                            0 <= p < q < es1.len() implies (#[trigger] es1[p]).0@ != (
                        #[trigger] es1[q]).0@ by {
                            let pp = if p < i as int {
                                p
                            } else {
                                p + 1
                            };
                            let qq = if q < i as int {
                                q
                            } else {
                                q + 1
                            };
                            assert(es1[p] == es0[pp] && es1[q] == es0[qq]);
                        }
                        lemma_assoc_view(es1);
                        assert(assoc_view(es1) =~= assoc_view(es0).remove(key@)) by {
                            assert forall|k: Seq<char>| #[trigger]
                                assoc_view(es1).contains_key(k) <==> (assoc_view(
                                es0,
                            ).contains_key(k) && k != key@) by {
                                if assoc_view(es1).contains_key(k) {
                                    let j = choose|j: int|
                                        0 <= j < es1.len() && (#[trigger] es1[j]).0@ == k;
                                    let jj = if j < i as int {
                                        j
                                    } else {
                                        j + 1
                                    };
                                    assert(es0[jj] == es1[j]);
                                    assert(es0[jj].0@ == k);
                                    assert(jj != i ==> k != key@);
                                    assert(jj == i ==> false);
                                }
                                if assoc_view(es0).contains_key(k) && k != key@ {
                                    let j = choose|j: int|
                                        0 <= j < es0.len() && (#[trigger] es0[j]).0@ == k;
                                    assert(j != i);
                                    let jj = if j < i as int {
                                        j
                                    } else {
                                        j - 1
                                    };
                                    assert(es1[jj] == es0[j]);
                                }
                            }
                            assert forall|k: Seq<char>|
                                assoc_view(es1).contains_key(k) implies #[trigger] assoc_view(
                                es1,
                            )[k] == assoc_view(es0).remove(key@)[k] by {
                                let j = choose|j: int|
                                    0 <= j < es1.len() && (#[trigger] es1[j]).0@ == k;
                                let jj = if j < i as int {
                                    j
                                } else {
                                    j + 1
                                };
                                assert(es1[j] == es0[jj]);
                                assert(assoc_view(es0)[k] == es0[jj].1.deep());
                            }
                        }
                    }
                    None
                } else {
                    let v = vstd::slice::slice_to_vec(self.entries[i].1.value.as_slice());
                    Some(v)
                }
            },
        }
    }

    /// Whether `key` currently has an entry, expired or not.
    pub fn contains_key(&self, key: &String) -> (r: bool)
        requires
            self.wf(),
        ensures
            r == self.view().contains_key(key@),
    {
        proof {
            lemma_assoc_view(self.entries@);
        }
        match self.find_index(key) {
            Option::Some(_) => true,
            Option::None => false,
        }
    }
}

} // verus!

verus! {

/// A write immediately followed by a read of the same key, with no
/// expiry asked for, returns exactly the value written.
pub proof fn lemma_set_then_get(m: Map<Seq<char>, EntryModel>, k: Seq<char>, v: Seq<u8>, now: u64)
    ensures
        spec_lookup(
            m.insert(k, EntryModel { value: v, expiry: spec_expiry(Option::None, now) }),
            k,
            now,
        ) == Option::Some(v),
{
}

/// A write whose time to live has already run out by the time of the
/// read: the read reports absence and the key is gone from the store.
pub proof fn lemma_expired_set_then_get(
    m: Map<Seq<char>, EntryModel>,
    k: Seq<char>,
    v: Seq<u8>,
    ms: u64,
    set_now: u64,
    get_now: u64,
)
    requires
        set_now + ms < get_now,
    ensures
        spec_lookup(
            m.insert(k, EntryModel { value: v, expiry: spec_expiry(Option::Some(ms), set_now) }),
            k,
            get_now,
        ) is None,
        !spec_after_get(
            m.insert(k, EntryModel { value: v, expiry: spec_expiry(Option::Some(ms), set_now) }),
            k,
            get_now,
        ).contains_key(k),
{
}

/// Reading a key that was never written is absence, not an error, and
/// disturbs nothing.
pub proof fn lemma_get_absent(m: Map<Seq<char>, EntryModel>, k: Seq<char>, now: u64)
    requires
        !m.contains_key(k),
    ensures
        spec_lookup(m, k, now) is None,
        spec_after_get(m, k, now) == m,
{
}

/// Writes to distinct keys never lose each other: after both land, in
/// either order, each key holds the value its own write put there.
pub proof fn lemma_distinct_sets_persist(
    m: Map<Seq<char>, EntryModel>,
    k1: Seq<char>,
    e1: EntryModel,
    k2: Seq<char>,
    e2: EntryModel,
)
    requires
        k1 != k2,
    ensures
        m.insert(k1, e1).insert(k2, e2)[k1] == e1,
        m.insert(k1, e1).insert(k2, e2)[k2] == e2,
        m.insert(k2, e2).insert(k1, e1)[k1] == e1,
        m.insert(k2, e2).insert(k1, e1)[k2] == e2,
{
}

/// The store behind its exclusive-access boundary, shared by all
/// connection handlers. The lock's invariant keeps every interleaving
/// of operations on a well-formed store; callers never touch the raw
/// map.
pub struct SharedStore {
    pub(crate) lock: RwLock<Store, spec_fn(Store) -> bool>,
}

/// Under the shared store's well-formedness, the lock's invariant is
/// exactly the store's.
pub(crate) proof fn lemma_shared_inv(s: &SharedStore, st: Store)
    requires
        s.wf(),
    ensures
        s.lock.inv(st) == st.wf(),
{
}

impl SharedStore {
    /// What the lock guards: any well-formed store.
    pub closed spec fn wf(&self) -> bool {
        forall|s: Store| #[trigger] self.lock.inv(s) == s.wf()
    }

    /// A shared store starting out empty.
    pub fn new() -> (s: SharedStore)
        ensures
            s.wf(),
    {
        let store = Store::new();
        let lock = RwLock::new(store, Ghost(|s: Store| s.wf()));
        SharedStore { lock }
    }

    /// Inserts or replaces `key` under the exclusive boundary. The
    /// write takes effect between acquisition and release; its exact
    /// semantics are `Store::set`'s.
    pub fn set(&self, key: String, value: Vec<u8>, px: Option<u64>, now: u64)
        requires
            self.wf(),
    {
        let (mut store, handle) = self.lock.acquire_write();
        store.set(key, value, px, now);
        handle.release_write(store);
    }

    /// Reads `key` under the exclusive boundary, evicting it if its
    /// expiry has passed. The read sees the store as some moment
    /// between acquisition and release left it; what it returns for
    /// that state is exactly `Store::get`'s contract.
    pub fn get(&self, key: &String, now: u64) -> (r: Option<Vec<u8>>)
        requires
            self.wf(),
        ensures
            r matches Some(v) ==> exists|m: Map<Seq<char>, EntryModel>|
                spec_lookup(m, key@, now) == Option::Some(v@),
    {
        let (mut store, handle) = self.lock.acquire_write();
        let ghost m = store.view();
        let r = store.get(key, now);
        handle.release_write(store);
        r
    }

    /// Whether `key` currently has an entry, expired or not.
    pub fn contains_key(&self, key: &String) -> (r: bool)
        requires
            self.wf(),
    {
        let (store, handle) = self.lock.acquire_write();
        let r = store.contains_key(key);
        handle.release_write(store);
        r
    }
}

} // verus!
