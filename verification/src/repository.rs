//! Storage of share entries under opaque string keys.
//!
//! A stored entry holds the share point, the owner's identity bytes, and the
//! threshold it was split with. The store behaves as a map from key to
//! entry; its behaviour is specified through [`store_lookup`], which finds
//! the entry stored under a key. The in-memory implementation is a vector of
//! key–entry pairs where a key occurs at most once because every write goes
//! through replacement.

use vstd::prelude::*;

verus! {

/// The error of a store operation.
#[derive(Clone, Copy, Debug, PartialEq, Eq, Structural)]
pub enum StoreError {
    /// The key is not present.
    KeyNotFound,
}

/// The mathematical value of a stored share entry.
pub struct ShareEntryV {
    /// The share point: index and byte sequence.
    pub share: (u8, Seq<u8>),
    /// The identity bytes of the peer that registered the entry.
    pub sender: Seq<u8>,
    /// The threshold the secret was split with.
    pub threshold: u64,
}

/// A share entry as a provider stores it.
#[derive(Debug)]
pub struct ShareEntry {
    /// The share point: index and data bytes.
    pub share: (u8, Vec<u8>),
    /// The identity bytes of the peer that registered the entry.
    pub sender: Vec<u8>,
    /// The threshold the secret was split with.
    pub threshold: u64,
}

impl View for ShareEntry {
    type V = ShareEntryV;

    open spec fn view(&self) -> ShareEntryV {
        ShareEntryV { share: (self.share.0, self.share.1@), sender: self.sender@, threshold: self.threshold }
    }
}

impl Clone for ShareEntry {
    /// Cloning keeps the entry's value.
    fn clone(&self) -> (r: Self)
        ensures
            r@ == self@,
    {
        let r = ShareEntry {
            share: (self.share.0, self.share.1.clone()),
            sender: self.sender.clone(),
            threshold: self.threshold,
        };
        proof {
            assert(r@.share.1 =~= self@.share.1);
            assert(r@.sender =~= self@.sender);
        }
        r
    }
}

/// The first entry stored under a key, searching from the front.
pub open spec fn store_lookup(entries: Seq<(Seq<char>, ShareEntryV)>, key: Seq<char>) -> Option<
    ShareEntryV,
>
    decreases entries.len(),
{
    if entries.len() == 0 {
        None
    } else if entries[0].0 == key {
        Some(entries[0].1)
    } else {
        store_lookup(entries.drop_first(), key)
    }
}

/// Appending an entry under a different key does not change a lookup.
pub proof fn lemma_store_lookup_push(
    s: Seq<(Seq<char>, ShareEntryV)>,
    e: (Seq<char>, ShareEntryV),
    key: Seq<char>,
)
    requires
        e.0 != key,
    ensures
        store_lookup(s.push(e), key) == store_lookup(s, key),
    decreases s.len(),
{
    if s.len() == 0 {
        assert(s.push(e).drop_first() =~= s);
    } else {
        assert(s.push(e).drop_first() =~= s.drop_first().push(e));
        lemma_store_lookup_push(s.drop_first(), e, key);
    }
}

/// Appending an entry under a key that is absent makes its lookup find it.
pub proof fn lemma_store_lookup_push_self(
    s: Seq<(Seq<char>, ShareEntryV)>,
    e: (Seq<char>, ShareEntryV),
)
    requires
        forall|m: int| 0 <= m < s.len() ==> (#[trigger] s[m]).0 != e.0,
    ensures
        store_lookup(s.push(e), e.0) == Some(e.1),
    decreases s.len(),
{
    if s.len() == 0 {
        assert(s.push(e)[0] == e);
    } else {
        assert(s.push(e).drop_first() =~= s.drop_first().push(e));
        assert forall|m: int| 0 <= m < s.drop_first().len() implies (
        #[trigger] s.drop_first()[m]).0 != e.0 by {
            assert(s[m + 1].0 != e.0);
        }
        lemma_store_lookup_push_self(s.drop_first(), e);
    }
}

/// A key that no entry carries looks up nothing.
pub proof fn lemma_store_lookup_absent(s: Seq<(Seq<char>, ShareEntryV)>, key: Seq<char>)
    requires
        forall|m: int| 0 <= m < s.len() ==> (#[trigger] s[m]).0 != key,
    ensures
        store_lookup(s, key) is None,
    decreases s.len(),
{
    if s.len() > 0 {
        assert forall|m: int| 0 <= m < s.drop_first().len() implies (
        #[trigger] s.drop_first()[m]).0 != key by {
            assert(s[m + 1].0 != key);
        }
        lemma_store_lookup_absent(s.drop_first(), key);
    }
}

/// The store interface a provider works against. An implementation behaves
/// as a key–entry map; all methods are specified through [`store_lookup`]
/// over the entry view.
pub trait ShareEntryDaoTrait: Sized {
    /// The stored key–entry pairs.
    spec fn entries(&self) -> Seq<(Seq<char>, ShareEntryV)>;

    /// Store an entry under a key, replacing what the key held.
    fn insert(&mut self, key: &str, entry: &ShareEntry) -> (r: Result<(), StoreError>)
        ensures
            r is Ok,
            store_lookup(final(self).entries(), key@) == Some(entry@),
            forall|k2: Seq<char>|
                k2 != key@ ==> #[trigger] store_lookup(final(self).entries(), k2) == store_lookup(
                    old(self).entries(),
                    k2,
                ),
    ;

    /// The entry stored under a key, if any.
    fn get(&self, key: &str) -> (r: Result<Option<ShareEntry>, StoreError>)
        ensures
            r is Ok,
            match r {
                Ok(Some(e)) => store_lookup(self.entries(), key@) == Some(e@),
                Ok(None) => store_lookup(self.entries(), key@) is None,
                Err(_) => false,
            },
    ;

    /// Every stored key–entry pair.
    fn get_all(&self) -> (r: Result<Vec<(String, ShareEntry)>, StoreError>)
        ensures
            r is Ok,
            match r {
                Ok(v) => {
                    &&& v@.len() == self.entries().len()
                    &&& forall|m: int|
                        0 <= m < v@.len() ==> ((#[trigger] v@[m]).0@, v@[m].1@)
                            == self.entries()[m]
                },
                Err(_) => false,
            },
    ;

    /// Replace the entry under an existing key; a missing key is an error.
    fn update(&mut self, key: &str, entry: &ShareEntry) -> (r: Result<(), StoreError>)
        ensures
            match r {
                Ok(()) => {
                    &&& store_lookup(old(self).entries(), key@) is Some
                    &&& store_lookup(final(self).entries(), key@) == Some(entry@)
                    &&& forall|k2: Seq<char>|
                        k2 != key@ ==> #[trigger] store_lookup(final(self).entries(), k2)
                            == store_lookup(old(self).entries(), k2)
                },
                Err(e) => {
                    &&& e == StoreError::KeyNotFound
                    &&& store_lookup(old(self).entries(), key@) is None
                    &&& final(self).entries() == old(self).entries()
                },
            },
    ;

    /// Remove the entry under a key, if any.
    fn delete(&mut self, key: &str) -> (r: Result<(), StoreError>)
        ensures
            r is Ok,
            store_lookup(final(self).entries(), key@) is None,
            forall|k2: Seq<char>|
                k2 != key@ ==> #[trigger] store_lookup(final(self).entries(), k2) == store_lookup(
                    old(self).entries(),
                    k2,
                ),
    ;
}

} // verus!

verus! {

/// The entries without any pair stored under `key`, order kept.
pub open spec fn store_without(s: Seq<(Seq<char>, ShareEntryV)>, key: Seq<char>) -> Seq<
    (Seq<char>, ShareEntryV),
>
    decreases s.len(),
{
    if s.len() == 0 {
        Seq::empty()
    } else if s[0].0 == key {
        store_without(s.drop_first(), key)
    } else {
        seq![s[0]] + store_without(s.drop_first(), key)
    }
}

/// Dropping the entries of one key commutes with appending an entry.
pub proof fn lemma_store_without_push(
    s: Seq<(Seq<char>, ShareEntryV)>,
    e: (Seq<char>, ShareEntryV),
    key: Seq<char>,
)
    ensures
        store_without(s.push(e), key) == if e.0 == key {
            store_without(s, key)
        } else {
            store_without(s, key).push(e)
        },
    decreases s.len(),
{
    if s.len() == 0 {
        assert(s.push(e)[0] == e);
        assert(s.push(e).drop_first() =~= Seq::<(Seq<char>, ShareEntryV)>::empty());
        assert(store_without(Seq::<(Seq<char>, ShareEntryV)>::empty(), key)
            =~= Seq::<(Seq<char>, ShareEntryV)>::empty());
        if e.0 != key {
            assert(store_without(s.push(e), key) =~= store_without(s, key).push(e));
        } else {
            assert(store_without(s.push(e), key) =~= store_without(s, key));
        }
    } else {
        assert(s.push(e).drop_first() =~= s.drop_first().push(e));
        assert(s.push(e)[0] == s[0]);
        lemma_store_without_push(s.drop_first(), e, key);
        if s[0].0 == key {
            if e.0 != key {
                assert(store_without(s.push(e), key) =~= store_without(s, key).push(e));
            } else {
                assert(store_without(s.push(e), key) =~= store_without(s, key));
            }
        } else {
            if e.0 != key {
                assert(store_without(s.push(e), key) =~= store_without(s, key).push(e));
            } else {
                assert(store_without(s.push(e), key) =~= store_without(s, key));
            }
        }
    }
}

/// No entry survives under the dropped key.
pub proof fn lemma_store_without_absent(s: Seq<(Seq<char>, ShareEntryV)>, key: Seq<char>)
    ensures
        forall|m: int|
            0 <= m < store_without(s, key).len() ==> (#[trigger] store_without(s, key)[m]).0
                != key,
    decreases s.len(),
{
    if s.len() > 0 {
        lemma_store_without_absent(s.drop_first(), key);
        let w = store_without(s, key);
        if s[0].0 != key {
            let rest = store_without(s.drop_first(), key);
            assert forall|m: int| 0 <= m < w.len() implies (#[trigger] w[m]).0 != key by {
                if m > 0 {
                    assert(w[m] == rest[m - 1]);
                }
            }
        }
    }
}

/// Dropping the entries of one key does not change what other keys look up.
pub proof fn lemma_store_without_lookup(
    s: Seq<(Seq<char>, ShareEntryV)>,
    key: Seq<char>,
    k2: Seq<char>,
)
    requires
        k2 != key,
    ensures
        store_lookup(store_without(s, key), k2) == store_lookup(s, k2),
    decreases s.len(),
{
    if s.len() > 0 {
        lemma_store_without_lookup(s.drop_first(), key, k2);
        if s[0].0 != key {
            let w = store_without(s, key);
            assert(w[0] == s[0]);
            assert(w.drop_first() =~= store_without(s.drop_first(), key));
        }
    }
}

/// The view of a vector of named share entries.
pub open spec fn entries_view(v: Seq<(String, ShareEntry)>) -> Seq<(Seq<char>, ShareEntryV)> {
    Seq::new(v.len(), |i: int| (v[i].0@, v[i].1@))
}

/// The in-memory store: a vector of key–entry pairs holding each key at
/// most once because every write first drops the key it writes. This is the
/// default store of a provider node; a durable store wraps it from outside.
pub struct HashMapShareEntryDao {
    map: Vec<(String, ShareEntry)>,
}

impl HashMapShareEntryDao {
    /// An empty store.
    pub fn new() -> (r: Self)
        ensures
            r.entries() =~= Seq::<(Seq<char>, ShareEntryV)>::empty(),
    {
        HashMapShareEntryDao { map: Vec::new() }
    }

    /// The position of a key, searching from the front.
    fn find(&self, key: &str) -> (r: Option<usize>)
        ensures
            match r {
                Some(i) => i < self.entries().len() && self.entries()[i as int].0 == key@
                    && (forall|m: int|
                    0 <= m < i ==> (#[trigger] self.entries()[m]).0 != key@),
                None => forall|m: int|
                    0 <= m < self.entries().len() ==> (#[trigger] self.entries()[m]).0 != key@,
            },
    {
        let key_owned: String = key.to_owned();
        let mut k: usize = 0;
        while k < self.map.len()
            invariant
                k <= self.map@.len(),
                key_owned@ == key@,
                forall|m: int| 0 <= m < k ==> (#[trigger] self.entries()[m]).0 != key@,
                self.entries().len() == self.map@.len(),
            decreases self.map@.len() - k,
        {
            if self.map[k].0 == key_owned {
                proof {
                    assert(self.entries()[k as int].0 == key@);
                }
                return Some(k);
            }
            k = k + 1;
        }
        None
    }

    /// Rebuild the vector without any entry under `key`.
    fn remove_key(&mut self, key: &str)
        ensures
            final(self).entries() == store_without(old(self).entries(), key@),
            forall|m: int|
                0 <= m < final(self).entries().len() ==> (#[trigger] final(self).entries()[m]).0
                    != key@,
            forall|k2: Seq<char>|
                k2 != key@ ==> #[trigger] store_lookup(final(self).entries(), k2) == store_lookup(
                    old(self).entries(),
                    k2,
                ),
    {
        let ghost before = self.entries();
        let key_owned: String = key.to_owned();
        let mut out: Vec<(String, ShareEntry)> = Vec::new();
        let mut k: usize = 0;
        proof {
            assert(before.take(0) =~= Seq::<(Seq<char>, ShareEntryV)>::empty());
        }
        while k < self.map.len()
            invariant
                k <= self.map@.len(),
                key_owned@ == key@,
                before == self.entries(),
                self.entries().len() == self.map@.len(),
                entries_view(out@) == store_without(before.take(k as int), key@),
            decreases self.map@.len() - k,
        {
            proof {
                assert(before.take(k + 1) =~= before.take(k as int).push(before[k as int]));
                lemma_store_without_push(before.take(k as int), before[k as int], key@);
                assert(before[k as int] == (self.map@[k as int].0@, self.map@[k as int].1@));
            }
            if self.map[k].0 == key_owned {
                proof {
                    assert(entries_view(out@) == store_without(before.take(k + 1), key@));
                }
            } else {
                let name = self.map[k].0.clone();
                let e = self.map[k].1.clone();
                out.push((name, e));
                proof {
                    assert(entries_view(out@) =~= store_without(before.take(k + 1), key@));
                }
            }
            k = k + 1;
        }
        proof {
            assert(before.take(before.len() as int) =~= before);
        }
        self.map = out;
        proof {
            assert(self.entries() =~= entries_view(self.map@));
            lemma_store_without_absent(before, key@);
            assert forall|k2: Seq<char>| k2 != key@ implies #[trigger] store_lookup(
                self.entries(),
                k2,
            ) == store_lookup(before, k2) by {
                lemma_store_without_lookup(before, key@, k2);
            }
        }
    }
}

impl ShareEntryDaoTrait for HashMapShareEntryDao {
    closed spec fn entries(&self) -> Seq<(Seq<char>, ShareEntryV)> {
        Seq::new(self.map@.len(), |i: int| (self.map@[i].0@, self.map@[i].1@))
    }

    fn insert(&mut self, key: &str, entry: &ShareEntry) -> (r: Result<(), StoreError>) {
        self.remove_key(key);
        let ghost mid = self.entries();
        let key_owned: String = key.to_owned();
        let e = entry.clone();
        self.map.push((key_owned, e));
        proof {
            assert(self.entries() =~= mid.push((key@, entry@)));
            lemma_store_lookup_push_self(mid, (key@, entry@));
            assert forall|k2: Seq<char>| k2 != key@ implies #[trigger] store_lookup(
                self.entries(),
                k2,
            ) == store_lookup(mid, k2) by {
                lemma_store_lookup_push(mid, (key@, entry@), k2);
            }
        }
        Ok(())
    }

    fn get(&self, key: &str) -> (r: Result<Option<ShareEntry>, StoreError>) {
        match self.find(key) {
            Some(i) => {
                let e = self.map[i].1.clone();
                proof {
                    let ghost entries = self.entries();
                    assert(entries[i as int].1 == e@);
                    lemma_store_lookup_first(entries, i as int, key@);
                }
                Ok(Some(e))
            },
            None => {
                proof {
                    lemma_store_lookup_absent(self.entries(), key@);
                }
                Ok(None)
            },
        }
    }

    fn get_all(&self) -> (r: Result<Vec<(String, ShareEntry)>, StoreError>) {
        let mut out: Vec<(String, ShareEntry)> = Vec::new();
        let mut k: usize = 0;
        while k < self.map.len()
            invariant
                k <= self.map@.len(),
                self.entries().len() == self.map@.len(),
                out@.len() == k,
                forall|m: int| 0 <= m < k ==> ((#[trigger] out@[m]).0@, out@[m].1@)
                    == self.entries()[m],
            decreases self.map@.len() - k,
        {
            let name = self.map[k].0.clone();
            let e = self.map[k].1.clone();
            proof {
                assert(self.entries()[k as int] == (self.map@[k as int].0@, self.map@[k as int].1@));
            }
            out.push((name, e));
            k = k + 1;
        }
        Ok(out)
    }

    fn update(&mut self, key: &str, entry: &ShareEntry) -> (r: Result<(), StoreError>) {
        match self.find(key) {
            None => {
                proof {
                    lemma_store_lookup_absent(self.entries(), key@);
                }
                Err(StoreError::KeyNotFound)
            },
            Some(i) => {
                proof {
                    lemma_store_lookup_first(self.entries(), i as int, key@);
                }
                self.insert(key, entry)
            },
        }
    }

    fn delete(&mut self, key: &str) -> (r: Result<(), StoreError>) {
        self.remove_key(key);
        proof {
            lemma_store_lookup_absent(self.entries(), key@);
        }
        Ok(())
    }
}

/// The first index carrying a key decides its lookup.
pub proof fn lemma_store_lookup_first(s: Seq<(Seq<char>, ShareEntryV)>, i: int, key: Seq<char>)
    requires
        0 <= i < s.len(),
        s[i].0 == key,
        forall|m: int| 0 <= m < i ==> (#[trigger] s[m]).0 != key,
    ensures
        store_lookup(s, key) == Some(s[i].1),
    decreases i,
{
    if i > 0 {
        assert forall|m: int| 0 <= m < i - 1 implies (#[trigger] s.drop_first()[m]).0 != key by {
            assert(s[m + 1].0 != key);
        }
        lemma_store_lookup_first(s.drop_first(), i - 1, key);
    }
}

} // verus!
