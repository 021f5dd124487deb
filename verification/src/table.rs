//! An ordered table of byte keys: entries are kept strictly sorted in
//! byte-lexicographic order, so the keys sharing a prefix are contiguous and
//! a cursor can scan or delete that range without touching the rest.

use vstd::prelude::*;
use vstd::std_specs::vec::vec_index;
use crate::lex::{lex_lt, lex_le, is_prefix, KeyOrd, compare_bytes};
use crate::lex::{lemma_lex_lt_irreflexive, lemma_lex_lt_transitive, lemma_prefix_le,
    lemma_prefix_window};

verus! {

/// An ordered map from byte keys to values, kept as a strictly sorted
/// sequence of entries.
#[derive(Debug)]
pub struct Table<V> {
    pub entries: Vec<(Vec<u8>, V)>,
}

impl<V> View for Table<V> {
    type V = Map<Seq<u8>, V>;

    open spec fn view(&self) -> Map<Seq<u8>, V> {
        Map::new(
            |k: Seq<u8>| self.spec_contains(k),
            |k: Seq<u8>| self.entries@[self.spec_index_of(k)].1,
        )
    }
}

impl<V> Table<V> {
    /// The keys are strictly ascending in byte-lexicographic order.
    pub open spec fn wf(self) -> bool {
        forall|i: int, j: int|
            0 <= i < j < self.entries@.len() ==> lex_lt(
                #[trigger] self.entries@[i].0@,
                #[trigger] self.entries@[j].0@,
            )
    }

    pub open spec fn spec_contains(self, k: Seq<u8>) -> bool {
        exists|i: int| 0 <= i < self.entries@.len() && self.entries@[i].0@ == k
    }

    pub open spec fn spec_index_of(self, k: Seq<u8>) -> int {
        choose|i: int| 0 <= i < self.entries@.len() && self.entries@[i].0@ == k
    }

    /// With `wf`, a key occurs at most once.
    pub proof fn lemma_key_unique(self, i: int, j: int)
        requires
            self.wf(),
            0 <= i < self.entries@.len(),
            0 <= j < self.entries@.len(),
            self.entries@[i].0@ == self.entries@[j].0@,
        ensures
            i == j,
    {
        if i != j {
            lemma_lex_lt_irreflexive(self.entries@[i].0@);
        }
    }

    /// Entries listed in storage order are exactly the map's contents.
    pub proof fn lemma_entry_in_view(self, i: int)
        requires
            self.wf(),
            0 <= i < self.entries@.len(),
        ensures
            self@.contains_key(self.entries@[i].0@),
            self@[self.entries@[i].0@] == self.entries@[i].1,
    {
        let k = self.entries@[i].0@;
        assert(self.spec_contains(k));
        self.lemma_key_unique(i, self.spec_index_of(k));
    }

    pub fn new() -> (r: Self)
        ensures
            r.wf(),
            r@ == Map::<Seq<u8>, V>::empty(),
            r.entries@.len() == 0,
    {
        let r = Table { entries: Vec::new() };
        proof {
            assert(r@ =~= Map::<Seq<u8>, V>::empty());
        }
        r
    }

    pub fn len(&self) -> (r: usize)
        ensures
            r == self.entries@.len(),
    {
        self.entries.len()
    }

    /// The key of the entry at position `i` in storage order.
    pub fn key_at(&self, i: usize) -> (r: &Vec<u8>)
        requires
            i < self.entries@.len(),
        ensures
            r@ == self.entries@[i as int].0@,
    {
        &self.entries[i].0
    }

    /// The value of the entry at position `i` in storage order.
    pub fn value_at(&self, i: usize) -> (r: &V)
        requires
            i < self.entries@.len(),
        ensures
            *r == self.entries@[i as int].1,
    {
        &self.entries[i].1
    }

    /// Looks a key up.
    pub fn get(&self, key: &[u8]) -> (r: Option<&V>)
        requires
            self.wf(),
        ensures
            r matches Some(v) ==> self@.contains_key(key@) && *v == self@[key@],
            r is None ==> !self@.contains_key(key@),
    {
        let n = self.entries.len();
        let mut i: usize = 0;
        while i < n
            invariant
                self.wf(),
                i <= n,
                n == self.entries@.len(),
                forall|j: int| 0 <= j < i ==> (#[trigger] self.entries@[j].0@) != key@,
            decreases n - i,
        {
            let e = vec_index(&self.entries, i);
            match compare_bytes(e.0.as_slice(), key) {
                KeyOrd::Equal => {
                    proof {
                        self.lemma_entry_in_view(i as int);
                    }
                    return Some(&self.entries[i].1);
                },
                _ => {
                    proof {
                        lemma_lex_lt_irreflexive(key@);
                    }
                },
            }
            i = i + 1;
        }
        proof {
            assert(!self.spec_contains(key@));
        }
        None
    }

    /// Inserts or overwrites.  A key above everything present is appended
    /// at the end, so loading entries in ascending order reproduces them in
    /// storage order.
    pub fn insert(&mut self, key: Vec<u8>, value: V)
        requires
            old(self).wf(),
        ensures
            final(self).wf(),
            final(self)@ == old(self)@.insert(key@, value),
            (forall|j: int|
                0 <= j < old(self).entries@.len() ==> lex_lt(
                    #[trigger] old(self).entries@[j].0@,
                    key@,
                )) ==> {
                &&& final(self).entries@.len() == old(self).entries@.len() + 1
                &&& forall|j: int|
                    0 <= j < old(self).entries@.len() ==> final(self).entries@[j] == old(
                        self,
                    ).entries@[j]
                &&& final(self).entries@[old(self).entries@.len() as int].0@ == key@
                &&& final(self).entries@[old(self).entries@.len() as int].1 == value
            },
    {
        let ghost kview = key@;
        let n = self.entries.len();
        let mut i: usize = 0;
        let mut found_equal = false;
        loop
            invariant_except_break
                !found_equal,
            invariant
                self.wf(),
                *self == *old(self),
                i <= n,
                n == self.entries@.len(),
                kview == key@,
                forall|j: int| 0 <= j < i ==> lex_lt(#[trigger] self.entries@[j].0@, kview),
            ensures
                *self == *old(self),
                i <= n,
                n == self.entries@.len(),
                kview == key@,
                forall|j: int| 0 <= j < i ==> lex_lt(#[trigger] self.entries@[j].0@, kview),
                found_equal ==> i < n && self.entries@[i as int].0@ == kview,
                !found_equal && i < n ==> lex_lt(kview, self.entries@[i as int].0@),
            decreases n - i,
        {
            if i == n {
                break;
            }
            let e = vec_index(&self.entries, i);
            match compare_bytes(e.0.as_slice(), key.as_slice()) {
                KeyOrd::Less => {
                    i = i + 1;
                },
                KeyOrd::Equal => {
                    found_equal = true;
                    break;
                },
                KeyOrd::Greater => {
                    break;
                },
            }
        }
        if found_equal {
            proof {
                if forall|j: int|
                    0 <= j < self.entries@.len() ==> lex_lt(
                        #[trigger] self.entries@[j].0@,
                        kview,
                    ) {
                    lemma_lex_lt_irreflexive(kview);
                }
            }
            // Overwrite in place: the key set does not change.
            let ghost prev = *self;
            self.entries.remove(i);
            self.entries.insert(i, (key, value));
            proof {
                assert(self.entries@ =~= prev.entries@.update(i as int, self.entries@[i as int]));
                assert forall|p: int, q: int|
                    0 <= p < q < self.entries@.len() implies lex_lt(
                    #[trigger] self.entries@[p].0@,
                    #[trigger] self.entries@[q].0@,
                ) by {
                    assert(prev.entries@[p].0@ == self.entries@[p].0@);
                    assert(prev.entries@[q].0@ == self.entries@[q].0@);
                }
                Self::lemma_view_after_update(prev, *self, i as int, kview, value);
            }
            return;
        }
        // Insert before position `i`: everything earlier is smaller, and by
        // sortedness everything from `i` on is larger.
        proof {
            assert forall|j: int| i <= j < n implies lex_lt(
                kview,
                #[trigger] self.entries@[j].0@,
            ) by {
                assert(lex_lt(kview, self.entries@[i as int].0@));
                if i < j {
                    lemma_lex_lt_transitive(
                        kview,
                        self.entries@[i as int].0@,
                        self.entries@[j].0@,
                    );
                }
            }
        }
        let ghost prev = *self;
        proof {
            if forall|j: int|
                0 <= j < self.entries@.len() ==> lex_lt(#[trigger] self.entries@[j].0@, kview) {
                if i < n {
                    lemma_lex_lt_transitive(
                        kview,
                        self.entries@[i as int].0@,
                        kview,
                    );
                    lemma_lex_lt_irreflexive(kview);
                }
                assert(i == n);
            }
        }
        self.entries.insert(i, (key, value));
        proof {
            assert forall|p: int, q: int|
                0 <= p < q < self.entries@.len() implies lex_lt(
                #[trigger] self.entries@[p].0@,
                #[trigger] self.entries@[q].0@,
            ) by {
                if q < i {
                    assert(self.entries@[p] == prev.entries@[p] && self.entries@[q]
                        == prev.entries@[q]);
                } else if p < i && q == i {
                    assert(self.entries@[p] == prev.entries@[p]);
                } else if p < i && q > i {
                    assert(self.entries@[p] == prev.entries@[p] && self.entries@[q]
                        == prev.entries@[q - 1]);
                } else if p == i {
                    assert(self.entries@[q] == prev.entries@[q - 1]);
                } else {
                    assert(self.entries@[p] == prev.entries@[p - 1] && self.entries@[q]
                        == prev.entries@[q - 1]);
                }
            }
            Self::lemma_view_after_fresh_insert(prev, *self, i as int, kview, value);
        }
    }

    /// After overwriting position `i` with an equal key, the map gains only
    /// the new value at that key.
    proof fn lemma_view_after_update(prev: Self, cur: Self, i: int, k: Seq<u8>, value: V)
        requires
            prev.wf(),
            cur.wf(),
            0 <= i < prev.entries@.len(),
            cur.entries@.len() == prev.entries@.len(),
            prev.entries@[i].0@ == k,
            cur.entries@[i].0@ == k,
            cur.entries@[i].1 == value,
            forall|j: int| 0 <= j < cur.entries@.len() && j != i ==> cur.entries@[j]
                == prev.entries@[j],
        ensures
            cur@ == prev@.insert(k, value),
    {
        assert forall|q: Seq<u8>| cur.spec_contains(q) <==> prev.spec_contains(q) by {
            if cur.spec_contains(q) {
                let w = choose|j: int| 0 <= j < cur.entries@.len() && cur.entries@[j].0@ == q;
                assert(prev.entries@[w].0@ == q);
            }
            if prev.spec_contains(q) {
                let w = choose|j: int| 0 <= j < prev.entries@.len() && prev.entries@[j].0@ == q;
                assert(cur.entries@[w].0@ == q);
            }
        }
        assert forall|q: Seq<u8>| cur@.contains_key(q) implies cur@[q] == prev@.insert(
            k,
            value,
        )[q] by {
            let w = cur.spec_index_of(q);
            if q == k {
                cur.lemma_key_unique(w, i);
            } else {
                assert(w != i);
                assert(prev.entries@[w].0@ == q);
                prev.lemma_key_unique(w, prev.spec_index_of(q));
            }
        }
        assert(cur@ =~= prev@.insert(k, value));
    }

    /// After inserting a fresh key at position `i`, the map gains exactly
    /// that binding.
    proof fn lemma_view_after_fresh_insert(prev: Self, cur: Self, i: int, k: Seq<u8>, value: V)
        requires
            prev.wf(),
            cur.wf(),
            0 <= i <= prev.entries@.len(),
            cur.entries@.len() == prev.entries@.len() + 1,
            cur.entries@[i].0@ == k,
            cur.entries@[i].1 == value,
            forall|j: int| 0 <= j < i ==> cur.entries@[j] == prev.entries@[j],
            forall|j: int| i < j < cur.entries@.len() ==> cur.entries@[j] == prev.entries@[j - 1],
        ensures
            cur@ == prev@.insert(k, value),
    {
        assert forall|q: Seq<u8>|
            cur.spec_contains(q) <==> (prev.spec_contains(q) || q == k) by {
            if cur.spec_contains(q) {
                let w = choose|j: int| 0 <= j < cur.entries@.len() && cur.entries@[j].0@ == q;
                if w < i {
                    assert(prev.entries@[w].0@ == q);
                } else if w > i {
                    assert(prev.entries@[w - 1].0@ == q);
                }
            }
            if prev.spec_contains(q) {
                let w = choose|j: int| 0 <= j < prev.entries@.len() && prev.entries@[j].0@ == q;
                if w < i {
                    assert(cur.entries@[w].0@ == q);
                } else {
                    assert(cur.entries@[w + 1].0@ == q);
                }
            }
        }
        assert forall|q: Seq<u8>| cur@.contains_key(q) implies cur@[q] == prev@.insert(
            k,
            value,
        )[q] by {
            let w = cur.spec_index_of(q);
            if q == k {
                cur.lemma_key_unique(w, i);
            } else {
                assert(w != i);
                if w < i {
                    assert(prev.entries@[w].0@ == q && prev.entries@[w].1 == cur.entries@[w].1);
                    prev.lemma_key_unique(w, prev.spec_index_of(q));
                } else {
                    assert(prev.entries@[w - 1].0@ == q && prev.entries@[w - 1].1
                        == cur.entries@[w].1);
                    prev.lemma_key_unique(w - 1, prev.spec_index_of(q));
                }
            }
        }
        assert(cur@ =~= prev@.insert(k, value));
    }

    /// Removes a key if present.
    pub fn remove(&mut self, key: &[u8])
        requires
            old(self).wf(),
        ensures
            final(self).wf(),
            final(self)@ == old(self)@.remove(key@),
    {
        let n = self.entries.len();
        let mut i: usize = 0;
        let mut found = false;
        loop
            invariant_except_break
                !found,
            invariant
                self.wf(),
                *self == *old(self),
                i <= n,
                n == self.entries@.len(),
                forall|j: int| 0 <= j < i ==> (#[trigger] self.entries@[j].0@) != key@,
            ensures
                *self == *old(self),
                i <= n,
                n == self.entries@.len(),
                found ==> i < n && self.entries@[i as int].0@ == key@,
                !found ==> forall|j: int|
                    0 <= j < n ==> (#[trigger] self.entries@[j].0@) != key@,
            decreases n - i,
        {
            if i == n {
                break;
            }
            let e = vec_index(&self.entries, i);
            match compare_bytes(e.0.as_slice(), key) {
                KeyOrd::Equal => {
                    found = true;
                    break;
                },
                _ => {
                    proof {
                        lemma_lex_lt_irreflexive(key@);
                    }
                    i = i + 1;
                },
            }
        }
        if found {
            let ghost prev = *self;
            self.entries.remove(i);
            proof {
                Self::lemma_view_after_removal(prev, *self, i as int);
            }
        } else {
            proof {
                assert(!self.spec_contains(key@));
                assert(self@ =~= self@.remove(key@));
            }
        }
    }

    /// After removing position `i`, the map loses exactly that key.
    proof fn lemma_view_after_removal(prev: Self, cur: Self, i: int)
        requires
            prev.wf(),
            0 <= i < prev.entries@.len(),
            cur.entries@ == prev.entries@.remove(i),
        ensures
            cur.wf(),
            cur@ == prev@.remove(prev.entries@[i].0@),
    {
        let k = prev.entries@[i].0@;
        assert forall|p: int, q: int|
            0 <= p < q < cur.entries@.len() implies lex_lt(
            #[trigger] cur.entries@[p].0@,
            #[trigger] cur.entries@[q].0@,
        ) by {
            let p0: int = if p < i { p } else { p + 1 };
            let q0: int = if q < i { q } else { q + 1 };
            assert(cur.entries@[p] == prev.entries@[p0]);
            assert(cur.entries@[q] == prev.entries@[q0]);
        }
        assert forall|q: Seq<u8>|
            cur.spec_contains(q) <==> (prev.spec_contains(q) && q != k) by {
            if cur.spec_contains(q) {
                let w = choose|j: int| 0 <= j < cur.entries@.len() && cur.entries@[j].0@ == q;
                let w0: int = if w < i { w } else { w + 1 };
                assert(prev.entries@[w0].0@ == q);
                if q == k {
                    prev.lemma_key_unique(w0, i);
                }
            }
            if prev.spec_contains(q) && q != k {
                let w = choose|j: int| 0 <= j < prev.entries@.len() && prev.entries@[j].0@ == q;
                if w < i {
                    assert(cur.entries@[w].0@ == q);
                } else {
                    assert(w != i);
                    assert(cur.entries@[w - 1].0@ == q);
                }
            }
        }
        assert forall|q: Seq<u8>| cur@.contains_key(q) implies cur@[q] == prev@[q] by {
            let w = cur.spec_index_of(q);
            let w0: int = if w < i { w } else { w + 1 };
            assert(prev.entries@[w0].0@ == q && prev.entries@[w0].1 == cur.entries@[w].1);
            prev.lemma_key_unique(w0, prev.spec_index_of(q));
        }
        assert(cur@ =~= prev@.remove(k));
    }

    /// Deletes every key sharing `prefix`: the cursor seeks to the prefix's
    /// lower bound, then advances and deletes while the prefix matches,
    /// stopping at the first key past the range.
    pub fn remove_prefix(&mut self, prefix: &[u8])
        requires
            old(self).wf(),
        ensures
            final(self).wf(),
            final(self)@ == old(self)@.remove_keys(Set::new(|k: Seq<u8>| is_prefix(prefix@, k))),
    {
        let n = self.entries.len();
        let mut i: usize = 0;
        // Seek to the first key that is >= the prefix.
        loop
            invariant
                self.wf(),
                *self == *old(self),
                i <= n,
                n == self.entries@.len(),
                forall|j: int| 0 <= j < i ==> lex_lt(#[trigger] self.entries@[j].0@, prefix@),
            ensures
                *self == *old(self),
                i <= n,
                n == self.entries@.len(),
                forall|j: int| 0 <= j < i ==> lex_lt(#[trigger] self.entries@[j].0@, prefix@),
                i < n ==> lex_le(prefix@, self.entries@[i as int].0@),
            decreases n - i,
        {
            if i == n {
                break;
            }
            match compare_bytes(self.entries[i].0.as_slice(), prefix) {
                KeyOrd::Less => {
                    i = i + 1;
                },
                KeyOrd::Equal => {
                    break;
                },
                KeyOrd::Greater => {
                    break;
                },
            }
        }
        // Advance, deleting while the prefix matches.
        let ghost orig = self@;
        loop
            invariant
                self.wf(),
                i <= self.entries@.len(),
                forall|j: int| 0 <= j < i ==> lex_lt(#[trigger] self.entries@[j].0@, prefix@),
                i < self.entries@.len() ==> lex_le(prefix@, self.entries@[i as int].0@),
                forall|k: Seq<u8>|
                    #[trigger] self@.contains_key(k) ==> orig.contains_key(k) && self@[k]
                        == orig[k],
                forall|k: Seq<u8>|
                    #[trigger] orig.contains_key(k) && !is_prefix(prefix@, k)
                        ==> self@.contains_key(k),
            ensures
                self.wf(),
                i <= self.entries@.len(),
                forall|j: int| 0 <= j < i ==> lex_lt(#[trigger] self.entries@[j].0@, prefix@),
                forall|k: Seq<u8>|
                    #[trigger] self@.contains_key(k) ==> orig.contains_key(k) && self@[k]
                        == orig[k],
                forall|k: Seq<u8>|
                    #[trigger] orig.contains_key(k) && !is_prefix(prefix@, k)
                        ==> self@.contains_key(k),
                i == self.entries@.len() || !is_prefix(prefix@, self.entries@[i as int].0@),
                i < self.entries@.len() ==> lex_le(prefix@, self.entries@[i as int].0@),
            decreases self.entries@.len() - i,
        {
            if i == self.entries.len() {
                break;
            }
            let matches_prefix = {
                let e = vec_index(&self.entries, i);
                is_prefix_bytes(prefix, e.0.as_slice())
            };
            if !matches_prefix {
                break;
            }
            let ghost prev = *self;
            let ghost k = self.entries@[i as int].0@;
            self.entries.remove(i);
            proof {
                Self::lemma_view_after_removal(prev, *self, i as int);
                if i < self.entries@.len() {
                    assert(self.entries@[i as int] == prev.entries@[i + 1]);
                    assert(lex_lt(k, self.entries@[i as int].0@));
                    lemma_prefix_le(prefix@, k);
                    if prefix@ != k {
                        lemma_lex_lt_transitive(prefix@, k, self.entries@[i as int].0@);
                    }
                }
                assert forall|q: Seq<u8>| #[trigger]
                    self@.contains_key(q) implies orig.contains_key(q) && self@[q] == orig[q] by {
                    assert(prev@.remove(k).contains_key(q));
                    assert(prev@.contains_key(q) && prev@[q] == self@[q]);
                }
                assert forall|q: Seq<u8>| #[trigger]
                    orig.contains_key(q) && !is_prefix(prefix@, q) implies self@.contains_key(
                    q,
                ) by {
                    assert(prev@.contains_key(q));
                    assert(q != k);
                    assert(prev@.remove(k).contains_key(q));
                }
            }
        }
        // Nothing left carries the prefix: what stood before the cursor was
        // below the prefix, and anything after the stopping key would put the
        // stopping key inside the prefix window.
        proof {
            assert forall|q: Seq<u8>| self.spec_contains(q) implies !is_prefix(prefix@, q) by {
                if is_prefix(prefix@, q) {
                    let w = choose|j: int|
                        0 <= j < self.entries@.len() && self.entries@[j].0@ == q;
                    lemma_prefix_le(prefix@, q);
                    if w < i {
                        assert(lex_lt(q, prefix@));
                        if prefix@ == q {
                            lemma_lex_lt_irreflexive(q);
                        } else {
                            lemma_lex_lt_transitive(prefix@, q, prefix@);
                            lemma_lex_lt_irreflexive(prefix@);
                        }
                    } else {
                        assert(i < self.entries@.len());
                        let stop = self.entries@[i as int].0@;
                        assert(!is_prefix(prefix@, stop));
                        if w == i {
                        } else {
                            assert(lex_lt(stop, q));
                            assert(is_prefix(prefix@, prefix@)) by {
                                assert(prefix@.take(prefix@.len() as int) =~= prefix@);
                            }
                            lemma_prefix_window(prefix@, prefix@, stop, q);
                        }
                    }
                }
            }
            assert forall|q: Seq<u8>| #[trigger] self@.contains_key(q) implies !is_prefix(
                prefix@,
                q,
            ) by {
                assert(self.spec_contains(q));
            }
            assert(self@ =~= orig.remove_keys(Set::new(|k: Seq<u8>| is_prefix(prefix@, k))));
            assert(orig == old(self)@);
        }
    }
}

impl<V> Table<V> {
    /// Two well-formed tables whose entries agree position by position (keys
    /// by their bytes, values exactly) denote the same map.
    pub proof fn lemma_equal_entries_equal_views(t1: Self, t2: Self)
        requires
            t1.wf(),
            t2.wf(),
            t1.entries@.len() == t2.entries@.len(),
            forall|j: int|
                0 <= j < t1.entries@.len() ==> (#[trigger] t1.entries@[j].0@)
                    == t2.entries@[j].0@ && t1.entries@[j].1 == t2.entries@[j].1,
        ensures
            t1@ == t2@,
    {
        assert forall|k: Seq<u8>| t1.spec_contains(k) <==> t2.spec_contains(k) by {
            if t1.spec_contains(k) {
                let w = choose|j: int| 0 <= j < t1.entries@.len() && t1.entries@[j].0@ == k;
                assert(t2.entries@[w].0@ == k);
            }
            if t2.spec_contains(k) {
                let w = choose|j: int| 0 <= j < t2.entries@.len() && t2.entries@[j].0@ == k;
                assert(t1.entries@[w].0@ == k);
            }
        }
        assert forall|k: Seq<u8>| t1@.contains_key(k) implies t1@[k] == t2@[k] by {
            let w1 = t1.spec_index_of(k);
            let w2 = t2.spec_index_of(k);
            assert(t1.entries@[w1].0@ == k && t2.entries@[w2].0@ == k);
            assert(t2.entries@[w1].0@ == k);
            t2.lemma_key_unique(w1, w2);
        }
        assert(t1@ =~= t2@);
    }
}

/// Whether `p` is a byte prefix of `s`.
pub fn is_prefix_bytes(p: &[u8], s: &[u8]) -> (r: bool)
    ensures
        r == is_prefix(p@, s@),
{
    let np = p.len();
    if np > s.len() {
        return false;
    }
    let mut i: usize = 0;
    while i < np
        invariant
            i <= np,
            np == p@.len(),
            np <= s@.len(),
            forall|j: int| 0 <= j < i ==> p@[j] == s@[j],
        decreases np - i,
    {
        if *vstd::slice::slice_index_get(p, i) != *vstd::slice::slice_index_get(s, i) {
            proof {
                assert(s@.take(np as int)[i as int] == s@[i as int]);
            }
            return false;
        }
        i = i + 1;
    }
    proof {
        assert(s@.take(np as int) =~= p@);
    }
    true
}

} // verus!
