use vstd::prelude::*;

verus! {

/// What the store holds for a key: its value and its expiry instant in milliseconds,
/// zero meaning that the entry never expires.
pub type StoreMap = Map<Seq<char>, (Seq<char>, u128)>;

/// True when an entry with expiry `expires_at` is gone at instant `now`.
pub open spec fn is_expired(expires_at: u128, now: u128) -> bool {
    expires_at > 0 && expires_at < now
}

struct Entry {
    key: String,
    value: String,
    expires_at: u128,
}

/// An in-memory key-value store whose entries may carry an expiry; expired entries are
/// removed when a read comes across them.
///
/// The entries sit in a vector searched from the front, so each operation takes time
/// linear in the number of keys. std's hash map offers no model of lookups by `String`
/// key that its operations could be proved against.
pub struct Store {
    entries: Vec<Entry>,
}

spec fn has_key(e: Seq<Entry>, k: Seq<char>) -> bool {
    exists|i: int| 0 <= i < e.len() && (#[trigger] e[i]).key@ == k
}

spec fn index_of(e: Seq<Entry>, k: Seq<char>) -> int {
    choose|i: int| 0 <= i < e.len() && (#[trigger] e[i]).key@ == k
}

spec fn map_of(e: Seq<Entry>) -> StoreMap {
    Map::new(
        |k: Seq<char>| has_key(e, k),
        |k: Seq<char>| (e[index_of(e, k)].value@, e[index_of(e, k)].expires_at),
    )
}

spec fn keys_distinct(e: Seq<Entry>) -> bool {
    forall|i: int, j: int|
        0 <= i < e.len() && 0 <= j < e.len() && i != j ==> (#[trigger] e[i]).key@ != (
        #[trigger] e[j]).key@
}

proof fn lemma_lookup(e: Seq<Entry>, i: int)
    requires
        keys_distinct(e),
        0 <= i < e.len(),
    ensures
        map_of(e).contains_key(e[i].key@),
        map_of(e)[e[i].key@] == (e[i].value@, e[i].expires_at),
{
    assert(has_key(e, e[i].key@));
    let j = index_of(e, e[i].key@);
    assert(e[j].key@ == e[i].key@);
}

impl View for Store {
    type V = StoreMap;

    closed spec fn view(&self) -> StoreMap {
        map_of(self.entries@)
    }
}

impl Store {
    /// Each key occurs in at most one entry.
    pub closed spec fn wf(&self) -> bool {
        keys_distinct(self.entries@)
    }

    /// An empty store.
    pub fn new() -> (s: Store)
        ensures
            s.wf(),
            s@ == StoreMap::empty(),
    {
        let s = Store { entries: Vec::new() };
        assert(s@ =~= StoreMap::empty());
        s
    }

    fn find(&self, key: &String) -> (r: Option<usize>)
        ensures
            r matches Some(i) ==> i < self.entries.len() && self.entries@[i as int].key@ == key@,
            r is None ==> !self@.contains_key(key@),
    {
        let mut i: usize = 0;
        while i < self.entries.len()
            invariant
                i <= self.entries.len(),
                forall|j: int| 0 <= j < i ==> (#[trigger] self.entries@[j]).key@ != key@,
            decreases self.entries.len() - i,
        {
            if self.entries[i].key == *key {
                return Some(i);
            }
            i = i + 1;
        }
        None
    }

    /// Stores `value` under `key` with the given expiry, replacing whatever was there.
    pub fn set(&mut self, key: String, value: String, expires_at: u128)
        requires
            old(self).wf(),
        ensures
            final(self).wf(),
            final(self)@ == old(self)@.insert(key@, (value@, expires_at)),
    {
        let ghost k = key@;
        let ghost v = value@;
        match self.find(&key) {
            Some(i) => {
                let ghost e = self.entries@;
                self.entries.set(i, Entry { key, value, expires_at });
                proof {
                    let f = self.entries@;
                    assert forall|a: int, b: int|
                        0 <= a < f.len() && 0 <= b < f.len() && a != b implies (#[trigger] f[a]).key@
                        != (#[trigger] f[b]).key@ by {
                        assert(e[a].key@ != e[b].key@);
                    }
                    assert forall|kk: Seq<char>| #[trigger] has_key(f, kk) == has_key(e, kk) by {
                        if has_key(e, kk) {
                            let j = choose|j: int| 0 <= j < e.len() && (#[trigger] e[j]).key@ == kk;
                            assert(f[j].key@ == kk);
                        }
                        if has_key(f, kk) {
                            let j = choose|j: int| 0 <= j < f.len() && (#[trigger] f[j]).key@ == kk;
                            assert(e[j].key@ == kk);
                        }
                    }
                    assert forall|kk: Seq<char>| has_key(f, kk) && kk != k implies #[trigger] map_of(
                        f,
                    )[kk] == map_of(e)[kk] by {
                        let j = index_of(f, kk);
                        let j2 = index_of(e, kk);
                        assert(f[j].key@ == kk);
                        assert(e[j2].key@ == kk);
                        assert(j != i);
                        assert(e[j].key@ == kk);
                    }
                    lemma_lookup(f, i as int);
                    assert(map_of(f) =~= map_of(e).insert(k, (v, expires_at)));
                }
            },
            None => {
                let ghost e = self.entries@;
                self.entries.push(Entry { key, value, expires_at });
                proof {
                    let f = self.entries@;
                    let n = e.len() as int;
                    assert forall|a: int, b: int|
                        0 <= a < f.len() && 0 <= b < f.len() && a != b implies (#[trigger] f[a]).key@
                        != (#[trigger] f[b]).key@ by {
                        if a < n && b < n {
                            assert(e[a].key@ != e[b].key@);
                        } else if a < n {
                            assert(!has_key(e, k));
                            assert(e[a].key@ != k);
                        } else {
                            assert(!has_key(e, k));
                            assert(e[b].key@ != k);
                        }
                    }
                    assert forall|kk: Seq<char>| kk != k implies #[trigger] has_key(f, kk) == has_key(
                        e,
                        kk,
                    ) by {
                        if has_key(e, kk) {
                            let j = choose|j: int| 0 <= j < e.len() && (#[trigger] e[j]).key@ == kk;
                            assert(f[j].key@ == kk);
                        }
                        if has_key(f, kk) {
                            let j = choose|j: int| 0 <= j < f.len() && (#[trigger] f[j]).key@ == kk;
                            assert(j != n);
                            assert(e[j].key@ == kk);
                        }
                    }
                    assert forall|kk: Seq<char>| has_key(f, kk) && kk != k implies #[trigger] map_of(
                        f,
                    )[kk] == map_of(e)[kk] by {
                        let j = index_of(f, kk);
                        let j2 = index_of(e, kk);
                        assert(f[j].key@ == kk);
                        assert(e[j2].key@ == kk);
                        assert(j != n);
                        assert(f[j2].key@ == kk);
                    }
                    lemma_lookup(f, n);
                    assert(map_of(f) =~= map_of(e).insert(k, (v, expires_at)));
                }
            },
        }
    }

    /// The value stored under `key` at instant `now`. An entry whose expiry has passed is
    /// removed and reads as absent.
    pub fn get(&mut self, key: &String, now: u128) -> (r: Option<String>)
        requires
            old(self).wf(),
        ensures
            final(self).wf(),
            match old(self)@.get(key@) {
                Some((v, exp)) => if is_expired(exp, now) {
                    r is None && final(self)@ == old(self)@.remove(key@)
                } else {
                    r matches Some(x) && x@ == v && final(self)@ == old(self)@
                },
                None => r is None && final(self)@ == old(self)@,
            },
    {
        match self.find(key) {
            None => None,
            Some(i) => {
                proof {
                    lemma_lookup(self.entries@, i as int);
                }
                let exp = self.entries[i].expires_at;
                if exp > 0 && exp < now {
                    let ghost e = self.entries@;
                    let ghost k = key@;
                    self.entries.remove(i);
                    proof {
                        let f = self.entries@;
                        assert forall|a: int, b: int|
                            0 <= a < f.len() && 0 <= b < f.len() && a != b implies (
                            #[trigger] f[a]).key@ != (#[trigger] f[b]).key@ by {
                            let a2 = if a < i { a } else { a + 1 };
                            let b2 = if b < i { b } else { b + 1 };
                            assert(f[a] == e[a2]);
                            assert(f[b] == e[b2]);
                            assert(e[a2].key@ != e[b2].key@);
                        }
                        assert forall|kk: Seq<char>| #[trigger] has_key(f, kk) == (has_key(e, kk)
                            && kk != k) by {
                            if has_key(e, kk) && kk != k {
                                let j = choose|j: int|
                                    0 <= j < e.len() && (#[trigger] e[j]).key@ == kk;
                                assert(j != i);
                                if j < i {
                                    assert(f[j] == e[j]);
                                } else {
                                    assert(f[j - 1] == e[j]);
                                }
                            }
                            if has_key(f, kk) {
                                let j = choose|j: int|
                                    0 <= j < f.len() && (#[trigger] f[j]).key@ == kk;
                                let j2 = if j < i { j } else { j + 1 };
                                assert(f[j] == e[j2]);
                                assert(j2 != i);
                                assert(e[j2].key@ != e[i as int].key@);
                            }
                        }
                        assert forall|kk: Seq<char>| has_key(f, kk) implies #[trigger] map_of(
                            f,
                        )[kk] == map_of(e)[kk] by {
                            let j = index_of(f, kk);
                            let j2 = if j < i { j } else { j + 1 };
                            assert(f[j] == e[j2]);
                            lemma_lookup(e, j2);
                        }
                        assert(map_of(f) =~= map_of(e).remove(k));
                    }
                    None
                } else {
                    Some(self.entries[i].value.clone())
                }
            },
        }
    }
}

} // verus!
