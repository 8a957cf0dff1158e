//! An insertion-ordered associative container with unique keys, used for
//! parameter maps and dictionaries.
//!
//! Keys are textual; the map's view is the sequence of its entries, each a
//! pair of the key's bytes and the value, in insertion order. Re-inserting
//! an existing key overwrites the value while keeping the key's original
//! position; this is the crate's documented duplicate-key policy.

use vstd::prelude::*;
use vstd::string::StringSliceAdditionalSpecFns;
use vstd::utf8::encode_utf8;

verus! {

/// The first position holding key `k`, or -1 when no entry does.
pub open spec fn map_find<V>(s: Seq<(Seq<u8>, V)>, k: Seq<u8>) -> int
    decreases s.len(),
{
    if s.len() == 0 {
        -1
    } else if s[0].0 == k {
        0
    } else {
        let r = map_find(s.skip(1), k);
        if r == -1 {
            -1
        } else {
            r + 1
        }
    }
}

/// Whether some entry holds key `k`.
pub open spec fn map_contains_key<V>(s: Seq<(Seq<u8>, V)>, k: Seq<u8>) -> bool {
    exists|i: int| 0 <= i < s.len() && s[i].0 == k
}

/// No two entries share a key.
pub open spec fn map_keys_unique<V>(s: Seq<(Seq<u8>, V)>) -> bool {
    forall|i: int, j: int| 0 <= i < j < s.len() ==> s[i].0 != s[j].0
}

pub proof fn lemma_map_find_first<V>(s: Seq<(Seq<u8>, V)>, k: Seq<u8>, i: int)
    requires
        0 <= i < s.len(),
        s[i].0 == k,
        forall|j: int| 0 <= j < i ==> s[j].0 != k,
    ensures
        map_find(s, k) == i,
    decreases i,
{
    if i > 0 {
        lemma_map_find_first(s.skip(1), k, i - 1);
    }
}

pub proof fn lemma_map_find_none<V>(s: Seq<(Seq<u8>, V)>, k: Seq<u8>)
    requires
        forall|j: int| 0 <= j < s.len() ==> s[j].0 != k,
    ensures
        map_find(s, k) == -1,
    decreases s.len(),
{
    if s.len() > 0 {
        lemma_map_find_none(s.skip(1), k);
    }
}

/// When a key is present, `map_find` returns its in-bounds first position.
pub proof fn lemma_map_find_contains<V>(s: Seq<(Seq<u8>, V)>, k: Seq<u8>)
    ensures
        map_contains_key(s, k) <==> (0 <= map_find(s, k) < s.len() && s[map_find(s, k)].0 == k),
    decreases s.len(),
{
    if s.len() > 0 && s[0].0 != k {
        lemma_map_find_contains(s.skip(1), k);
        if map_contains_key(s, k) {
            let w = choose|i: int| 0 <= i < s.len() && s[i].0 == k;
            assert(s.skip(1)[w - 1].0 == k);
        }
        if map_contains_key(s.skip(1), k) {
            assert(s[map_find(s.skip(1), k) + 1].0 == k);
        }
    }
}

/// Compares two byte slices for equality.
pub fn bytes_eq(a: &[u8], b: &[u8]) -> (r: bool)
    ensures
        r <==> a@ == b@,
{
    let n = a.len();
    if n != b.len() {
        proof {
            assert(a@ != b@);
        }
        return false;
    }
    let mut i: usize = 0;
    while i < n
        invariant
            n == a@.len() == b@.len(),
            i <= n,
            forall|j: int| 0 <= j < i ==> a@[j] == b@[j],
        decreases n - i,
    {
        if a[i] != b[i] {
            return false;
        }
        i = i + 1;
    }
    proof {
        assert(a@ =~= b@);
    }
    true
}

/// An insertion-ordered map from textual keys to values of type `V`.
#[derive(Debug, Clone, PartialEq)]
pub struct OrderedMap<V> {
    entries: Vec<(String, V)>,
}

impl<V> View for OrderedMap<V> {
    type V = Seq<(Seq<u8>, V)>;

    closed spec fn view(&self) -> Seq<(Seq<u8>, V)> {
        self.entries@.map(|i: int, e: (String, V)| (encode_utf8(e.0@), e.1))
    }
}

impl<V> OrderedMap<V> {
    /// An empty map.
    pub fn new() -> (r: OrderedMap<V>)
        ensures
            r@ == Seq::<(Seq<u8>, V)>::empty(),
    {
        let r = OrderedMap { entries: Vec::new() };
        proof {
            assert(r@ =~= Seq::<(Seq<u8>, V)>::empty());
        }
        r
    }

    /// The number of entries.
    pub fn len(&self) -> (r: usize)
        ensures
            r == self@.len(),
    {
        self.entries.len()
    }

    /// Whether the map has no entries.
    pub fn is_empty(&self) -> (r: bool)
        ensures
            r <==> self@.len() == 0,
    {
        self.entries.is_empty()
    }

    /// Inserts `value` under `key`. When the key is already present, the
    /// value is overwritten in place and the old value returned; the key
    /// keeps its original position. Otherwise the entry is appended.
    pub fn insert(&mut self, key: String, value: V) -> (r: Option<V>)
        ensures
            map_contains_key(old(self)@, encode_utf8(key@)) ==> {
                let at = map_find(old(self)@, encode_utf8(key@));
                &&& final(self)@ == old(self)@.update(
                    at,
                    (encode_utf8(key@), value),
                )
                &&& r matches Some(v) && v == old(self)@[at].1
            },
            !map_contains_key(old(self)@, encode_utf8(key@)) ==> {
                &&& final(self)@ == old(self)@.push((encode_utf8(key@), value))
                &&& r is None
            },
            map_keys_unique(old(self)@) ==> map_keys_unique(final(self)@),
    {
        let ghost k: Seq<u8> = encode_utf8(key@);
        let n = self.entries.len();
        let mut i: usize = 0;
        while i < n
            invariant
                n == self.entries@.len(),
                i <= n,
                self == old(self),
                k == encode_utf8(key@),
                forall|j: int| 0 <= j < i ==> self@[j].0 != k,
        decreases n - i,
        {
            proof {
                assert(self@[i as int].0 == encode_utf8(self.entries@[i as int].0@));
            }
            if bytes_eq(self.entries[i].0.as_str().as_bytes(), key.as_str().as_bytes()) {
                proof {
                    assert(self@[i as int].0 == k);
                    lemma_map_find_first(self@, k, i as int);
                }
                let prior = self.entries.remove(i);
                self.entries.insert(i, (key, value));
                proof {
                    assert(self@ =~= old(self)@.update(i as int, (k, value)));
                    if map_keys_unique(old(self)@) {
                        assert(map_keys_unique(self@));
                    }
                }
                return Some(prior.1);
            }
            i = i + 1;
        }
        proof {
            lemma_map_find_none(self@, k);
        }
        self.entries.push((key, value));
        proof {
            assert(self@ =~= old(self)@.push((k, value)));
            if map_keys_unique(old(self)@) {
                assert forall|a: int, b: int| 0 <= a < b < self@.len() implies self@[a].0
                    != self@[b].0 by {
                    if b < self@.len() - 1 {
                        assert(old(self)@[a].0 != old(self)@[b].0);
                    } else {
                        assert(old(self)@[a].0 != k);
                    }
                }
            }
        }
        None
    }

    /// Looks a key up, returning the value at its first occurrence.
    pub fn get(&self, key: &str) -> (r: Option<&V>)
        ensures
            map_contains_key(self@, key.spec_bytes()) ==> (r matches Some(v) && *v == self@[
                map_find(self@, key.spec_bytes())
            ].1),
            !map_contains_key(self@, key.spec_bytes()) ==> r is None,
    {
        let n = self.entries.len();
        let mut i: usize = 0;
        while i < n
            invariant
                n == self.entries@.len(),
                i <= n,
                forall|j: int| 0 <= j < i ==> self@[j].0 != key.spec_bytes(),
            decreases n - i,
        {
            proof {
                assert(self@[i as int].0 == encode_utf8(self.entries@[i as int].0@));
            }
            if bytes_eq(self.entries[i].0.as_str().as_bytes(), key.as_bytes()) {
                proof {
                    lemma_map_find_first(self@, key.spec_bytes(), i as int);
                }
                return Some(&self.entries[i].1);
            }
            i = i + 1;
        }
        proof {
            lemma_map_find_none(self@, key.spec_bytes());
        }
        None
    }

    /// The key at position `i`.
    pub fn key_at(&self, i: usize) -> (r: &String)
        requires
            i < self@.len(),
        ensures
            encode_utf8(r@) == self@[i as int].0,
    {
        &self.entries[i].0
    }

    /// The value at position `i`.
    pub fn value_at(&self, i: usize) -> (r: &V)
        requires
            i < self@.len(),
        ensures
            *r == self@[i as int].1,
    {
        &self.entries[i].1
    }
}

} // verus!
