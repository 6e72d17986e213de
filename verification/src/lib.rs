//! A generic associative container: keys map to values through
//! separate-chaining hash buckets with doubling growth.
//!
//! The abstract value of a table is a `Map` from key views to values;
//! every operation's contract is stated against that map.

use vstd::prelude::*;

mod key;
pub mod laws;

pub use key::hash_chars;
pub use key::str_eq;
pub use key::str_hash;
pub use key::HashKey;

verus! {

/// A table of hash buckets. Each bucket is a chain of (key, value) pairs
/// whose keys all hash, modulo the current bucket count, to that bucket's
/// index; `items` counts the insertions that added a new key.
pub struct HashMap<K, V> {
    buckets: Vec<Vec<(K, V)>>,
    items: usize,
}

impl<K: HashKey, V> View for HashMap<K, V> {
    type V = Map<K::V, V>;

    closed spec fn view(&self) -> Map<K::V, V> {
        Map::new(
            |kv: K::V| self.spec_contains(kv),
            |kv: K::V| Self::bucket_value(self.bucket_for(kv), kv),
        )
    }
}

impl<K: HashKey, V> HashMap<K, V> {
    /// The bucket a key with hash-relevant value `kv` belongs to, among
    /// `n` buckets.
    spec fn bucket_index_spec(kv: K::V, n: nat) -> int
        recommends
            n > 0,
    {
        K::hash_spec(kv) as int % n as int
    }

    /// The chain a pair with key value `kv` must sit in.
    spec fn bucket_for(&self, kv: K::V) -> Seq<(K, V)>
        recommends
            self.buckets@.len() > 0,
    {
        self.buckets@[Self::bucket_index_spec(kv, self.buckets@.len() as nat)]@
    }

    /// Whether some pair of chain `b` carries the key value `kv`.
    spec fn has_key_in_bucket(b: Seq<(K, V)>, kv: K::V) -> bool {
        exists|j: int| 0 <= j < b.len() && (#[trigger] b[j]).0@ == kv
    }

    /// The value stored beside `kv` in chain `b`.
    spec fn bucket_value(b: Seq<(K, V)>, kv: K::V) -> V
        recommends
            Self::has_key_in_bucket(b, kv),
    {
        b[choose|j: int| 0 <= j < b.len() && (#[trigger] b[j]).0@ == kv].1
    }

    /// Whether the table holds a pair with key value `kv`.
    spec fn spec_contains(&self, kv: K::V) -> bool {
        self.buckets@.len() > 0 && Self::has_key_in_bucket(self.bucket_for(kv), kv)
    }

    /// No two pairs of chain `b` carry the same key value.
    spec fn bucket_distinct(b: Seq<(K, V)>) -> bool {
        forall|j1: int, j2: int|
            0 <= j1 < j2 < b.len() ==> (#[trigger] b[j1]).0@ != (#[trigger] b[j2]).0@
    }

    /// Chain `b` is sound as bucket `i` of `n`: every pair hashes to `i`,
    /// and no key value appears twice.
    spec fn bucket_wf(b: Seq<(K, V)>, i: int, n: nat) -> bool {
        &&& forall|j: int|
            0 <= j < b.len() ==> Self::bucket_index_spec((#[trigger] b[j]).0@, n) == i
        &&& Self::bucket_distinct(b)
    }

    /// The table's invariant: the item count never exceeds the bucket
    /// count, growth keeps the bucket count within a constant factor of
    /// the item count, and every chain is sound for its index.
    pub closed spec fn wf(&self) -> bool {
        &&& self.items <= self.buckets@.len()
        &&& 3 * self.buckets@.len() <= 8 * self.items + 8
        &&& forall|i: int|
            0 <= i < self.buckets@.len() ==> Self::bucket_wf(
                (#[trigger] self.buckets@[i])@,
                i,
                self.buckets@.len() as nat,
            )
    }

    /// How many insertions added a new key. Removals do not lower this
    /// count, so it can overstate the number of stored pairs; it is what
    /// drives growth.
    pub closed spec fn num_items(&self) -> nat {
        self.items as nat
    }

    /// How many buckets the table currently has.
    pub closed spec fn num_buckets(&self) -> nat {
        self.buckets@.len()
    }

    /// Creates an empty table: no buckets, no items, and nothing mapped.
    pub fn new() -> (r: Self)
        ensures
            r.wf(),
            r@ == Map::<K::V, V>::empty(),
            r.num_items() == 0,
            r.num_buckets() == 0,
    {
        let r = HashMap { buckets: Vec::new(), items: 0 };
        proof {
            assert(r@ =~= Map::<K::V, V>::empty());
        }
        r
    }

    /// The index of the bucket that owns `key`.
    fn bucket(&self, key: &K) -> (r: usize)
        requires
            self.buckets@.len() > 0,
        ensures
            r as int == Self::bucket_index_spec(key@, self.buckets@.len() as nat),
            r < self.buckets@.len(),
    {
        let h = key.hash_code();
        (h % (self.buckets.len() as u64)) as usize
    }

    /// Scans chain `b` for a pair carrying `key`'s value.
    fn find_in_bucket(b: &Vec<(K, V)>, key: &K) -> (r: Option<usize>)
        ensures
            match r {
                Some(j) => j < b@.len() && b@[j as int].0@ == key@,
                None => !Self::has_key_in_bucket(b@, key@),
            },
    {
        let mut j: usize = 0;
        while j < b.len()
            invariant
                j <= b@.len(),
                forall|t: int| 0 <= t < j ==> (#[trigger] b@[t]).0@ != key@,
            decreases b@.len() - j,
        {
            let pair = &b[j];
            if pair.0.key_eq(key) {
                return Some(j);
            }
            j = j + 1;
        }
        None
    }

    /// In a chain without repeated key values, any pair that carries `kv`
    /// determines the stored value.
    proof fn lemma_bucket_value(b: Seq<(K, V)>, kv: K::V, j: int)
        requires
            Self::bucket_distinct(b),
            0 <= j < b.len(),
            b[j].0@ == kv,
        ensures
            Self::has_key_in_bucket(b, kv),
            Self::bucket_value(b, kv) == b[j].1,
    {
        assert(Self::has_key_in_bucket(b, kv));
        let j2 = choose|j2: int| 0 <= j2 < b.len() && (#[trigger] b[j2]).0@ == kv;
        assert(j2 == j);
    }

    /// Removing pair `j` of a sound chain by swapping the last pair in
    /// drops exactly that pair's key value and keeps the chain sound.
    proof fn lemma_swap_remove_bucket(b: Seq<(K, V)>, j: int, i: int, n: nat, kv0: K::V)
        requires
            Self::bucket_wf(b, i, n),
            0 <= j < b.len(),
            b[j].0@ == kv0,
        ensures
            ({
                let nb = b.update(j, b.last()).drop_last();
                &&& Self::bucket_wf(nb, i, n)
                &&& !Self::has_key_in_bucket(nb, kv0)
                &&& forall|kv: K::V|
                    kv != kv0 ==> Self::has_key_in_bucket(nb, kv) == Self::has_key_in_bucket(
                        b,
                        kv,
                    )
                &&& forall|kv: K::V|
                    kv != kv0 && Self::has_key_in_bucket(b, kv) ==> Self::bucket_value(nb, kv)
                        == Self::bucket_value(b, kv)
            }),
    {
        let nb = b.update(j, b.last()).drop_last();
        let last = b.len() - 1;
        assert(nb.len() == b.len() - 1);
        assert forall|t: int| 0 <= t < nb.len() implies nb[t] == (
        if t == j {
            b[last]
        } else {
            b[t]
        }) by {}
        assert(Self::bucket_distinct(nb));
        assert forall|kv: K::V| kv != kv0 implies Self::has_key_in_bucket(nb, kv)
            == Self::has_key_in_bucket(b, kv) by {
            if Self::has_key_in_bucket(nb, kv) {
                let t = choose|t: int| 0 <= t < nb.len() && (#[trigger] nb[t]).0@ == kv;
                let u: int = if t == j {
                    last
                } else {
                    t
                };
                assert(b[u].0@ == kv);
            }
            if Self::has_key_in_bucket(b, kv) {
                let u = choose|u: int| 0 <= u < b.len() && (#[trigger] b[u]).0@ == kv;
                if u == last {
                    assert(j < last);
                    assert(nb[j].0@ == kv);
                } else {
                    assert(u != j);
                    assert(nb[u].0@ == kv);
                }
            }
        }
        assert forall|kv: K::V|
            kv != kv0 && Self::has_key_in_bucket(b, kv) implies Self::bucket_value(nb, kv)
            == Self::bucket_value(b, kv) by {
            let u = choose|u: int| 0 <= u < b.len() && (#[trigger] b[u]).0@ == kv;
            Self::lemma_bucket_value(b, kv, u);
            if u == last {
                assert(j < last);
                Self::lemma_bucket_value(nb, kv, j);
            } else {
                Self::lemma_bucket_value(nb, kv, u);
            }
        }
    }

    /// Appending a pair whose key value is new to a sound chain keeps it
    /// sound, stores that pair's value, and disturbs no other key.
    proof fn lemma_push_bucket(b: Seq<(K, V)>, p: (K, V), i: int, n: nat)
        requires
            Self::bucket_wf(b, i, n),
            !Self::has_key_in_bucket(b, p.0@),
            Self::bucket_index_spec(p.0@, n) == i,
        ensures
            Self::bucket_wf(b.push(p), i, n),
            Self::has_key_in_bucket(b.push(p), p.0@),
            Self::bucket_value(b.push(p), p.0@) == p.1,
            forall|kv: K::V|
                kv != p.0@ ==> Self::has_key_in_bucket(b.push(p), kv) == Self::has_key_in_bucket(
                    b,
                    kv,
                ),
            forall|kv: K::V|
                kv != p.0@ && Self::has_key_in_bucket(b, kv) ==> Self::bucket_value(b.push(p), kv)
                    == Self::bucket_value(b, kv),
    {
        let nb = b.push(p);
        assert(nb[b.len() as int] == p);
        assert forall|t: int| 0 <= t < b.len() implies nb[t] == b[t] by {}
        assert(Self::bucket_distinct(nb));
        Self::lemma_bucket_value(nb, p.0@, b.len() as int);
        assert forall|kv: K::V| kv != p.0@ implies Self::has_key_in_bucket(nb, kv)
            == Self::has_key_in_bucket(b, kv) by {
            if Self::has_key_in_bucket(nb, kv) {
                let t = choose|t: int| 0 <= t < nb.len() && (#[trigger] nb[t]).0@ == kv;
                assert(t < b.len());
                assert(b[t].0@ == kv);
            }
            if Self::has_key_in_bucket(b, kv) {
                let u = choose|u: int| 0 <= u < b.len() && (#[trigger] b[u]).0@ == kv;
                assert(nb[u].0@ == kv);
            }
        }
        assert forall|kv: K::V|
            kv != p.0@ && Self::has_key_in_bucket(b, kv) implies Self::bucket_value(nb, kv)
            == Self::bucket_value(b, kv) by {
            let u = choose|u: int| 0 <= u < b.len() && (#[trigger] b[u]).0@ == kv;
            Self::lemma_bucket_value(b, kv, u);
            Self::lemma_bucket_value(nb, kv, u);
        }
    }

    /// Replacing the pair that carries a key value, in place, keeps the
    /// chain sound, stores the new value, and disturbs no other key.
    proof fn lemma_update_bucket(b: Seq<(K, V)>, j: int, p: (K, V), i: int, n: nat)
        requires
            Self::bucket_wf(b, i, n),
            0 <= j < b.len(),
            b[j].0@ == p.0@,
        ensures
            Self::bucket_wf(b.update(j, p), i, n),
            Self::has_key_in_bucket(b.update(j, p), p.0@),
            Self::bucket_value(b.update(j, p), p.0@) == p.1,
            forall|kv: K::V|
                kv != p.0@ ==> Self::has_key_in_bucket(b.update(j, p), kv)
                    == Self::has_key_in_bucket(b, kv),
            forall|kv: K::V|
                kv != p.0@ && Self::has_key_in_bucket(b, kv) ==> Self::bucket_value(
                    b.update(j, p),
                    kv,
                ) == Self::bucket_value(b, kv),
    {
        let nb = b.update(j, p);
        assert forall|t: int| 0 <= t < b.len() implies (#[trigger] nb[t]).0@ == b[t].0@ by {}
        assert(Self::bucket_distinct(nb));
        Self::lemma_bucket_value(nb, p.0@, j);
        assert forall|kv: K::V| kv != p.0@ implies Self::has_key_in_bucket(nb, kv)
            == Self::has_key_in_bucket(b, kv) by {
            if Self::has_key_in_bucket(nb, kv) {
                let t = choose|t: int| 0 <= t < nb.len() && (#[trigger] nb[t]).0@ == kv;
                assert(b[t].0@ == kv);
            }
            if Self::has_key_in_bucket(b, kv) {
                let u = choose|u: int| 0 <= u < b.len() && (#[trigger] b[u]).0@ == kv;
                assert(nb[u].0@ == kv);
            }
        }
        assert forall|kv: K::V|
            kv != p.0@ && Self::has_key_in_bucket(b, kv) implies Self::bucket_value(nb, kv)
            == Self::bucket_value(b, kv) by {
            let u = choose|u: int| 0 <= u < b.len() && (#[trigger] b[u]).0@ == kv;
            assert(u != j);
            assert(nb[u] == b[u]);
            Self::lemma_bucket_value(b, kv, u);
            Self::lemma_bucket_value(nb, kv, u);
        }
    }

    /// Looks the key up: returns a view of the stored value, or nothing
    /// when the key is absent.
    pub fn get<'a>(&'a self, key: &K) -> (r: Option<&'a V>)
        requires
            self.wf(),
        ensures
            match r {
                Some(v) => self@.contains_key(key@) && *v == self@[key@],
                None => !self@.contains_key(key@),
            },
    {
        if self.buckets.len() == 0 {
            return None;
        }
        let bi = self.bucket(key);
        let b = &self.buckets[bi];
        match Self::find_in_bucket(b, key) {
            Some(j) => {
                proof {
                    Self::lemma_bucket_value(b@, key@, j as int);
                }
                Some(&b[j].1)
            },
            None => None,
        }
    }

    /// Removes the key's pair and hands its value back, or returns nothing
    /// and leaves the table as it was when the key is absent. The removal
    /// swaps the chain's last pair in, so chain order is not preserved;
    /// the item count is not lowered (it tracks growth, not occupancy).
    pub fn remove(&mut self, key: &K) -> (r: Option<V>)
        requires
            old(self).wf(),
        ensures
            final(self).wf(),
            final(self)@ == old(self)@.remove(key@),
            !old(self)@.contains_key(key@) ==> final(self)@ == old(self)@,
            match r {
                Some(v) => old(self)@.contains_key(key@) && v == old(self)@[key@],
                None => !old(self)@.contains_key(key@),
            },
            final(self).num_items() == old(self).num_items(),
            final(self).num_buckets() == old(self).num_buckets(),
    {
        if self.buckets.len() == 0 {
            proof {
                assert(old(self)@ =~= old(self)@.remove(key@));
            }
            return None;
        }
        let bi = self.bucket(key);
        match Self::find_in_bucket(&self.buckets[bi], key) {
            None => {
                proof {
                    assert(!old(self)@.contains_key(key@));
                    assert(old(self)@ =~= old(self)@.remove(key@));
                }
                None
            },
            Some(j) => {
                let ghost n = old(self).buckets@.len() as nat;
                let ghost oldb = old(self).buckets@[bi as int]@;
                let mut chain: Vec<(K, V)> = Vec::new();
                self.buckets.set_and_swap(bi, &mut chain);
                let pair = chain.swap_remove(j);
                self.buckets.set(bi, chain);
                proof {
                    Self::lemma_bucket_value(oldb, key@, j as int);
                    Self::lemma_swap_remove_bucket(oldb, j as int, bi as int, n, key@);
                    assert(self.buckets@ =~= old(self).buckets@.update(
                        bi as int,
                        self.buckets@[bi as int],
                    ));
                    assert(self.buckets@[bi as int]@ == oldb.update(j as int, oldb.last(),
                    ).drop_last());
                    assert(self.wf());
                    assert forall|kv: K::V| #[trigger] self.spec_contains(kv) implies old(
                        self,
                    ).spec_contains(kv) && kv != key@ && Self::bucket_value(
                        self.bucket_for(kv),
                        kv,
                    ) == Self::bucket_value(old(self).bucket_for(kv), kv) by {
                        let idx = Self::bucket_index_spec(kv, n);
                        if idx != bi as int {
                            assert(self.bucket_for(kv) == old(self).bucket_for(kv));
                        }
                    }
                    assert forall|kv: K::V|
                        #[trigger] old(self).spec_contains(kv) && kv != key@ implies self
                        .spec_contains(kv) by {
                        let idx = Self::bucket_index_spec(kv, n);
                        if idx != bi as int {
                            assert(self.bucket_for(kv) == old(self).bucket_for(kv));
                        }
                    }
                    assert(self@ =~= old(self)@.remove(key@));
                }
                Some(pair.1)
            },
        }
    }

    /// Rebuilds the table over twice as many buckets (one when it had
    /// none), rehashing every stored pair. The mapping is untouched, and
    /// afterwards the item count sits strictly below the bucket count.
    fn resize(&mut self)
        requires
            old(self).wf(),
            old(self).items < usize::MAX / 8,
            old(self).buckets@.len() == 0 || 4 * old(self).items > 3 * old(self).buckets@.len(),
        ensures
            final(self).wf(),
            final(self)@ == old(self)@,
            final(self).items == old(self).items,
            final(self).num_items() < final(self).num_buckets(),
    {
        let ghost n = old(self).buckets@.len() as int;
        let n_exec = self.buckets.len();
        proof {
            assert(3 * n <= 8 * (self.items as int) + 8);
            assert(8 * (self.items as int) <= usize::MAX - 8) by {
                assert(self.items as int <= usize::MAX / 8 - 1);
            }
        }
        let target: usize = if n_exec == 0 {
            1
        } else {
            n_exec * 2
        };
        let mut fresh: Vec<Vec<(K, V)>> = Vec::new();
        let mut t: usize = 0;
        while t < target
            invariant
                t <= target,
                fresh@.len() == t,
                forall|i: int| 0 <= i < t ==> (#[trigger] fresh@[i])@.len() == 0,
            decreases target - t,
        {
            fresh.push(Vec::new());
            t = t + 1;
        }
        core::mem::swap(&mut self.buckets, &mut fresh);
        let mut src = fresh;
        proof {
            assert forall|kv: K::V| !self.spec_contains(kv) by {}
        }
        while src.len() > 0
            invariant
                old(self).wf(),
                n == old(self).buckets@.len(),
                target as int == if n == 0 {
                    1int
                } else {
                    2 * n
                },
                self.buckets@.len() == target,
                self.items == old(self).items,
                src@.len() <= n,
                forall|i: int| 0 <= i < src@.len() ==> src@[i] == old(self).buckets@[i],
                forall|i: int|
                    0 <= i < target ==> Self::bucket_wf(
                        (#[trigger] self.buckets@[i])@,
                        i,
                        target as nat,
                    ),
                forall|kv: K::V|
                    #[trigger] self.spec_contains(kv) ==> old(self).spec_contains(kv)
                        && Self::bucket_index_spec(kv, n as nat) >= src@.len()
                        && Self::bucket_value(self.bucket_for(kv), kv) == Self::bucket_value(
                        old(self).bucket_for(kv),
                        kv,
                    ),
                forall|kv: K::V|
                    #[trigger] old(self).spec_contains(kv) && Self::bucket_index_spec(kv, n as nat)
                        >= src@.len() ==> self.spec_contains(kv),
            decreases src@.len(),
        {
            let mut b = src.pop().unwrap();
            let ghost s = src@.len() as int;
            let ghost origb = old(self).buckets@[s]@;
            proof {
                assert(b@ == origb);
                assert(b@ == origb.take(origb.len() as int));
                assert(Self::bucket_wf(origb, s, n as nat));
            }
            while b.len() > 0
                invariant
                    old(self).wf(),
                    n == old(self).buckets@.len(),
                    target as int == if n == 0 {
                        1int
                    } else {
                        2 * n
                    },
                    self.buckets@.len() == target,
                    self.items == old(self).items,
                    0 <= s < n,
                    src@.len() == s,
                    forall|i: int| 0 <= i < s ==> src@[i] == old(self).buckets@[i],
                    origb == old(self).buckets@[s]@,
                    b@ == origb.take(b@.len() as int),
                    b@.len() <= origb.len(),
                    forall|i: int|
                        0 <= i < target ==> Self::bucket_wf(
                            (#[trigger] self.buckets@[i])@,
                            i,
                            target as nat,
                        ),
                    forall|kv: K::V|
                        #[trigger] self.spec_contains(kv) ==> old(self).spec_contains(kv) && (
                        Self::bucket_index_spec(kv, n as nat) > s || (Self::bucket_index_spec(
                            kv,
                            n as nat,
                        ) == s && !Self::has_key_in_bucket(b@, kv)))
                            && Self::bucket_value(self.bucket_for(kv), kv) == Self::bucket_value(
                            old(self).bucket_for(kv),
                            kv,
                        ),
                    forall|kv: K::V|
                        #[trigger] old(self).spec_contains(kv) && Self::bucket_index_spec(
                            kv,
                            n as nat,
                        ) > s ==> self.spec_contains(kv),
                    forall|kv: K::V|
                        #[trigger] old(self).spec_contains(kv) && Self::bucket_index_spec(
                            kv,
                            n as nat,
                        ) == s && !Self::has_key_in_bucket(b@, kv) ==> self.spec_contains(kv),
                decreases b@.len(),
            {
                let ghost m = b@.len() as int;
                let p = b.pop().unwrap();
                let ghost pkv = p.0@;
                let idx = self.bucket(&p.0);
                proof {
                    assert(origb[m - 1] == p);
                    assert(Self::bucket_index_spec(pkv, n as nat) == s);
                    Self::lemma_bucket_value(origb, pkv, m - 1);
                    assert(old(self).spec_contains(pkv));
                    assert(Self::bucket_value(old(self).bucket_for(pkv), pkv) == p.1);
                    assert((b@.push(p))[m - 1] == p);
                    assert(Self::has_key_in_bucket(b@.push(p), pkv));
                    assert(b@.push(p) == origb.take(m));
                    assert(Self::has_key_in_bucket(origb.take(m), pkv));
                    assert(!self.spec_contains(pkv));
                    assert(!Self::has_key_in_bucket(self.buckets@[idx as int]@, pkv));
                    assert forall|kv: K::V|
                        Self::has_key_in_bucket(b@, kv) implies Self::has_key_in_bucket(
                        origb.take(m),
                        kv,
                    ) by {
                        let u = choose|u: int| 0 <= u < b@.len() && (#[trigger] b@[u]).0@ == kv;
                        assert(origb.take(m)[u].0@ == kv);
                    }
                    assert(!Self::has_key_in_bucket(b@, pkv));
                }
                let ghost prev = *self;
                let ghost chain0 = self.buckets@[idx as int]@;
                let mut chain: Vec<(K, V)> = Vec::new();
                self.buckets.set_and_swap(idx, &mut chain);
                chain.push(p);
                self.buckets.set(idx, chain);
                proof {
                    Self::lemma_push_bucket(chain0, p, idx as int, target as nat);
                    assert(self.buckets@ =~= prev.buckets@.update(
                        idx as int,
                        self.buckets@[idx as int],
                    ));
                    assert(self.buckets@[idx as int]@ == chain0.push(p));
                    assert forall|kv: K::V| #[trigger] self.spec_contains(kv) implies old(
                        self,
                    ).spec_contains(kv) && (Self::bucket_index_spec(kv, n as nat) > s || (
                    Self::bucket_index_spec(kv, n as nat) == s && !Self::has_key_in_bucket(
                        b@,
                        kv,
                    ))) && Self::bucket_value(self.bucket_for(kv), kv) == Self::bucket_value(
                        old(self).bucket_for(kv),
                        kv,
                    ) by {
                        let ti = Self::bucket_index_spec(kv, target as nat);
                        if ti != idx as int {
                            assert(self.bucket_for(kv) == prev.bucket_for(kv));
                            assert(prev.spec_contains(kv));
                        } else {
                            if kv == pkv {
                                assert(!Self::has_key_in_bucket(b@, kv));
                            } else {
                                assert(prev.spec_contains(kv));
                            }
                        }
                    }
                    assert forall|kv: K::V|
                        #[trigger] old(self).spec_contains(kv) && (Self::bucket_index_spec(
                            kv,
                            n as nat,
                        ) > s || (Self::bucket_index_spec(kv, n as nat) == s
                            && !Self::has_key_in_bucket(b@, kv))) implies self.spec_contains(
                        kv,
                    ) by {
                        let ti = Self::bucket_index_spec(kv, target as nat);
                        if kv == pkv {
                            assert(Self::has_key_in_bucket(chain0.push(p), kv));
                            assert(self.spec_contains(kv));
                        } else {
                            if Self::bucket_index_spec(kv, n as nat) > s || (
                            Self::bucket_index_spec(kv, n as nat) == s
                                && !Self::has_key_in_bucket(origb.take(m), kv)) {
                                assert(prev.spec_contains(kv));
                                if ti != idx as int {
                                    assert(self.bucket_for(kv) == prev.bucket_for(kv));
                                } else {
                                    assert(Self::has_key_in_bucket(chain0.push(p), kv));
                                }
                            } else {
                                assert(Self::bucket_index_spec(kv, n as nat) == s
                                    && Self::has_key_in_bucket(origb.take(m), kv)
                                    && !Self::has_key_in_bucket(b@, kv));
                                let u = choose|u: int|
                                    0 <= u < origb.take(m).len() && (#[trigger] origb.take(
                                        m,
                                    )[u]).0@ == kv;
                                assert(origb.take(m)[m - 1].0@ == pkv);
                                assert(u < m - 1 ==> b@[u].0@ == kv);
                                assert(u == m - 1);
                                assert(false);
                            }
                        }
                    }
                }
            }
            proof {
                assert(b@.len() == 0);
                assert forall|kv: K::V| !Self::has_key_in_bucket(b@, kv) by {}
            }
        }
        proof {
            assert(src@.len() == 0);
            assert forall|kv: K::V| #[trigger] old(self).spec_contains(kv) implies self
                .spec_contains(kv) by {
                assert(Self::bucket_index_spec(kv, n as nat) >= 0);
            }
            assert(self@ =~= old(self)@);
            assert(self.wf());
        }
    }

    /// Inserts the pair, growing the table first when it has no buckets or
    /// its item count exceeds three quarters of the bucket count. An
    /// already-present key has its value replaced in place — the previous
    /// value is returned and no pair is added; a new key's pair is appended
    /// to its chain. After any insert the item count is at most the bucket
    /// count.
    pub fn insert(&mut self, key: K, value: V) -> (r: Option<V>)
        requires
            old(self).wf(),
            old(self).num_items() < usize::MAX / 8,
        ensures
            final(self).wf(),
            final(self)@ == old(self)@.insert(key@, value),
            match r {
                Some(v) => old(self)@.contains_key(key@) && v == old(self)@[key@],
                None => !old(self)@.contains_key(key@),
            },
            final(self).num_items() <= final(self).num_buckets(),
            old(self)@.contains_key(key@) ==> final(self).num_items() == old(self).num_items(),
            !old(self)@.contains_key(key@) ==> final(self).num_items() == old(self).num_items()
                + 1,
    {
        if self.buckets.len() == 0 || (self.items as u128) * 4 > (self.buckets.len() as u128)
            * 3 {
            self.resize();
        }
        let ghost mid = *self;
        proof {
            assert(mid@ == old(self)@);
            assert(mid.items < mid.buckets@.len() || 4 * mid.items <= 3 * mid.buckets@.len());
        }
        let bi = self.bucket(&key);
        let ghost n = mid.buckets@.len() as nat;
        let ghost oldb = mid.buckets@[bi as int]@;
        match Self::find_in_bucket(&self.buckets[bi], &key) {
            Some(j) => {
                let mut chain: Vec<(K, V)> = Vec::new();
                self.buckets.set_and_swap(bi, &mut chain);
                let mut pair = (key, value);
                chain.set_and_swap(j, &mut pair);
                self.buckets.set(bi, chain);
                proof {
                    let p = (key, value);
                    Self::lemma_bucket_value(oldb, key@, j as int);
                    Self::lemma_update_bucket(oldb, j as int, p, bi as int, n);
                    assert(self.buckets@ =~= mid.buckets@.update(
                        bi as int,
                        self.buckets@[bi as int],
                    ));
                    assert(self.buckets@[bi as int]@ == oldb.update(j as int, p));
                    assert(self.wf());
                    assert forall|kv: K::V|
                        kv != key@ implies self.spec_contains(kv) == mid.spec_contains(kv) && (
                        self.spec_contains(kv) ==> Self::bucket_value(self.bucket_for(kv), kv)
                            == Self::bucket_value(mid.bucket_for(kv), kv)) by {
                        let idx = Self::bucket_index_spec(kv, n);
                        if idx != bi as int {
                            assert(self.bucket_for(kv) == mid.bucket_for(kv));
                        }
                    }
                    assert(self.spec_contains(key@));
                    assert(Self::bucket_value(self.bucket_for(key@), key@) == value);
                    assert(self@ =~= old(self)@.insert(key@, value));
                }
                Some(pair.1)
            },
            None => {
                proof {
                    assert(!mid.spec_contains(key@));
                }
                let mut chain: Vec<(K, V)> = Vec::new();
                self.buckets.set_and_swap(bi, &mut chain);
                chain.push((key, value));
                self.buckets.set(bi, chain);
                self.items = self.items + 1;
                proof {
                    let p = (key, value);
                    Self::lemma_push_bucket(oldb, p, bi as int, n);
                    assert(self.buckets@ =~= mid.buckets@.update(
                        bi as int,
                        self.buckets@[bi as int],
                    ));
                    assert(self.buckets@[bi as int]@ == oldb.push(p));
                    assert(self.items <= self.buckets@.len());
                    assert(self.wf());
                    assert forall|kv: K::V|
                        kv != key@ implies self.spec_contains(kv) == mid.spec_contains(kv) && (
                        self.spec_contains(kv) ==> Self::bucket_value(self.bucket_for(kv), kv)
                            == Self::bucket_value(mid.bucket_for(kv), kv)) by {
                        let idx = Self::bucket_index_spec(kv, n);
                        if idx != bi as int {
                            assert(self.bucket_for(kv) == mid.bucket_for(kv));
                        }
                    }
                    assert(self.spec_contains(key@));
                    assert(Self::bucket_value(self.bucket_for(key@), key@) == value);
                    assert(self@ =~= old(self)@.insert(key@, value));
                }
                None
            },
        }
    }
}

} // verus!
