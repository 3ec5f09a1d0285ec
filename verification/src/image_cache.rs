use vstd::prelude::*;
use crate::paths::str_eq;
use crate::pixel::PixelBuffer;

verus! {

/// One stored thumbnail: the image's path and its decoded buffer.
struct CacheEntry {
    key: String,
    value: PixelBuffer,
}

/// A capacity-bounded store of decoded thumbnails, keyed by image path.
///
/// Entries are kept in insertion/update order, oldest first; when an insert
/// would push the store past its capacity, the least recently inserted entry
/// is dropped. Which entry is evicted is a property of this implementation
/// rather than a promise of the design; consumers should rely only on the
/// capacity bound. A cache constructed with capacity zero stores nothing.
pub struct ImageCache {
    entries: Vec<CacheEntry>,
    limit: usize,
}

impl ImageCache {
    /// The stored keys, oldest first.
    pub closed spec fn keys(&self) -> Seq<Seq<char>> {
        Seq::new(self.entries@.len(), |i: int| self.entries@[i].key@)
    }

    pub open spec fn spec_len(&self) -> nat {
        self.keys().len()
    }

    pub closed spec fn capacity(&self) -> usize {
        self.limit
    }

    pub open spec fn contains_key(&self, k: Seq<char>) -> bool {
        self.keys().contains(k)
    }

    /// Position of the entry holding `k`; meaningful only when `wf()` holds
    /// and `k` is present.
    pub closed spec fn entry_index_of(&self, k: Seq<char>) -> int {
        choose|i: int| 0 <= i < self.entries@.len() && self.entries@[i].key@ == k
    }

    /// The buffer stored under `k`; meaningful only when `k` is present.
    pub closed spec fn value_at(&self, k: Seq<char>) -> PixelBuffer {
        self.entries@[self.entry_index_of(k)].value
    }

    /// Keys are unique and the entry count never exceeds the capacity.
    pub closed spec fn wf(&self) -> bool {
        &&& forall|i: int, j: int|
            0 <= i < j < self.entries@.len() ==> self.entries@[i].key@ != self.entries@[j].key@
        &&& self.entries@.len() <= self.limit
    }

    /// A well-formed cache holds at most `capacity` entries. Every operation
    /// preserves `wf`, so after any sequence of inserts the size stays within
    /// the capacity fixed at construction.
    pub proof fn lemma_size_bounded(&self)
        requires
            self.wf(),
        ensures
            self.spec_len() <= self.capacity(),
    {
    }

    proof fn lemma_index(&self, k: Seq<char>)
        requires
            self.wf(),
            self.contains_key(k),
        ensures
            0 <= self.entry_index_of(k) < self.entries@.len(),
            self.entries@[self.entry_index_of(k)].key@ == k,
            forall|j: int|
                0 <= j < self.entries@.len() && self.entries@[j].key@ == k ==> j
                    == self.entry_index_of(k),
    {
        let w = choose|w: int| 0 <= w < self.keys().len() && self.keys()[w] == k;
        assert(0 <= w < self.entries@.len() && self.entries@[w].key@ == k);
    }

    /// Where a present key sits: under `wf`, `entry_index_of` names the unique
    /// position of `k` in `keys()`.
    pub proof fn lemma_key_index(&self, k: Seq<char>)
        requires
            self.wf(),
            self.contains_key(k),
        ensures
            0 <= self.entry_index_of(k) < self.keys().len(),
            self.keys()[self.entry_index_of(k)] == k,
            forall|j: int|
                0 <= j < self.keys().len() && self.keys()[j] == k ==> j == self.entry_index_of(k),
    {
        self.lemma_index(k);
    }

    pub fn new(limit: usize) -> (c: Self)
        ensures
            c.wf(),
            c.capacity() == limit,
            c.spec_len() == 0,
            forall|k: Seq<char>| !c.contains_key(k),
    {
        let c = ImageCache { entries: Vec::new(), limit };
        proof {
            assert(forall|k: Seq<char>| !c.keys().contains(k));
        }
        c
    }

    /// Number of entries currently stored.
    pub fn size(&self) -> (n: usize)
        ensures
            n == self.spec_len(),
    {
        self.entries.len()
    }

    /// Read-only lookup; never fails, never changes the cache.
    pub fn get(&self, path: &str) -> (r: Option<&PixelBuffer>)
        requires
            self.wf(),
        ensures
            r is Some <==> self.contains_key(path@),
            (r matches Some(b) ==> *b == self.value_at(path@)),
    {
        let n = self.entries.len();
        let mut i: usize = 0;
        while i < n
            invariant
                i <= n,
                n == self.entries@.len(),
                self.wf(),
                forall|j: int| 0 <= j < i ==> self.entries@[j].key@ != path@,
            decreases n - i,
        {
            if str_eq(self.entries[i].key.as_str(), path) {
                proof {
                    assert(self.keys()[i as int] == path@);
                    assert(self.contains_key(path@));
                    self.lemma_index(path@);
                }
                return Some(&self.entries[i].value);
            }
            i += 1;
        }
        proof {
            assert(forall|j: int| 0 <= j < self.keys().len() ==> self.keys()[j] != path@);
        }
        None
    }

    /// Insert `value` under `path`. If `path` is already stored, its buffer is
    /// replaced and the size does not change; if the cache is full, the oldest
    /// entry is evicted first, so the size never exceeds the capacity.
    pub fn insert(&mut self, path: &str, value: PixelBuffer)
        requires
            old(self).wf(),
        ensures
            final(self).wf(),
            final(self).capacity() == old(self).capacity(),
            final(self).spec_len() <= final(self).capacity(),
            old(self).capacity() == 0 ==> *final(self) == *old(self),
            old(self).capacity() > 0 ==> final(self).contains_key(path@) && final(self).value_at(
                path@,
            ) == value,
            old(self).contains_key(path@) ==> final(self).spec_len() == old(self).spec_len(),
            old(self).capacity() > 0 && !old(self).contains_key(path@) && old(self).spec_len()
                < old(self).capacity() ==> final(self).spec_len() == old(self).spec_len() + 1,
            old(self).capacity() > 0 && !old(self).contains_key(path@) && old(self).spec_len()
                >= old(self).capacity() ==> final(self).spec_len() == old(self).capacity(),
            old(self).contains_key(path@) ==> forall|k: Seq<char>|
                #[trigger] old(self).contains_key(k) ==> final(self).contains_key(k),
            old(self).capacity() > 0 && !old(self).contains_key(path@) && old(self).spec_len()
                < old(self).capacity() ==> forall|k: Seq<char>|
                #[trigger] old(self).contains_key(k) ==> final(self).contains_key(k),
            old(self).capacity() > 0 && old(self).contains_key(path@) ==> final(self).keys()
                == old(self).keys().remove(old(self).entry_index_of(path@)).push(path@),
            old(self).capacity() > 0 && !old(self).contains_key(path@) && old(self).spec_len()
                < old(self).capacity() ==> final(self).keys() == old(self).keys().push(path@),
            old(self).capacity() > 0 && !old(self).contains_key(path@) && old(self).spec_len()
                >= old(self).capacity() ==> final(self).keys() == old(self).keys().drop_first().push(
                path@,
            ),
            forall|k: Seq<char>|
                old(self).contains_key(k) && k != path@ && #[trigger] final(self).contains_key(k)
                    ==> final(self).value_at(k) == old(self).value_at(k),
            forall|k: Seq<char>|
                #[trigger] final(self).contains_key(k) ==> k == path@ || old(self).contains_key(k),
    {
        if self.limit == 0 {
            return ;
        }
        let n = self.entries.len();
        let mut i: usize = 0;
        let mut found: bool = false;
        while i < n && !found
            invariant
                i <= n,
                n == self.entries@.len(),
                self.wf(),
                !found ==> forall|j: int| 0 <= j < i ==> self.entries@[j].key@ != path@,
                found ==> i < n && self.entries@[i as int].key@ == path@,
            decreases n - i + (if found { 0int } else { 1int }),
    {
            if str_eq(self.entries[i].key.as_str(), path) {
                found = true;
            } else {
                i += 1;
            }
        }
        if found {
            proof {
                assert(self.keys()[i as int] == path@);
                self.lemma_index(path@);
            }
            let ghost prev = *self;
            let mut e = self.entries.remove(i);
            e.value = value;
            self.entries.push(e);
            proof {
                self.lemma_after_update(prev, i as int, path@, value);
            }
        } else {
            proof {
                assert(forall|j: int|
                    0 <= j < self.keys().len() ==> self.keys()[j] != path@);
                assert(!old(self).contains_key(path@));
            }
            if self.entries.len() >= self.limit {
                let ghost prev = *self;
                let _evicted = self.entries.remove(0);
                proof {
                    assert(self.keys() =~= prev.keys().drop_first());
                    assert(forall|j: int|
                        0 <= j < self.entries@.len() ==> self.entries@[j].key@ != path@);
                    assert forall|q: Seq<char>| #[trigger] self.contains_key(q) implies
                        prev.contains_key(q) by {
                        let w = choose|w: int| 0 <= w < self.keys().len() && self.keys()[w] == q;
                        assert(prev.keys()[w + 1] == q);
                    }
                }
            }
            let ghost mid = *self;
            self.entries.push(CacheEntry { key: path.to_owned(), value });
            proof {
                self.lemma_after_push(mid, path@, value);
            }
        }
    }

    proof fn lemma_after_update(&self, prev: Self, i: int, k: Seq<char>, value: PixelBuffer)
        requires
            prev.wf(),
            0 <= i < prev.entries@.len(),
            prev.entries@[i].key@ == k,
            forall|j: int| 0 <= j < prev.entries@.len() && prev.entries@[j].key@ == k ==> j == i,
            self.entries@.len() == prev.entries@.len(),
            self.limit == prev.limit,
            forall|j: int| 0 <= j < i ==> self.entries@[j] == prev.entries@[j],
            forall|j: int|
                i <= j < prev.entries@.len() - 1 ==> self.entries@[j] == prev.entries@[j + 1],
            self.entries@.last().key@ == k,
            self.entries@.last().value == value,
        ensures
            self.wf(),
            self.contains_key(k),
            self.value_at(k) == value,
            self.keys() == prev.keys().remove(i).push(k),
            forall|q: Seq<char>|
                prev.contains_key(q) && q != k && #[trigger] self.contains_key(q)
                    ==> self.value_at(q) == prev.value_at(q),
            forall|q: Seq<char>|
                #[trigger] self.contains_key(q) ==> q == k || prev.contains_key(q),
            forall|q: Seq<char>| #[trigger] prev.contains_key(q) ==> self.contains_key(q),
    {
        let n = self.entries@.len();
        assert(self.keys() =~= prev.keys().remove(i).push(k));
        assert forall|q: Seq<char>| #[trigger] prev.contains_key(q) implies self.contains_key(
            q,
        ) by {
            let w = choose|w: int| 0 <= w < prev.keys().len() && prev.keys()[w] == q;
            if w == i {
                assert(self.keys()[n - 1] == q);
            } else if w < i {
                assert(self.keys()[w] == q);
            } else {
                assert(self.keys()[w - 1] == q);
            }
        }
        assert forall|q: Seq<char>| #[trigger] self.contains_key(q) implies q == k
            || prev.contains_key(q) by {
            if q != k {
                let w = choose|w: int| 0 <= w < self.keys().len() && self.keys()[w] == q;
                assert(self.entries@[w].key@ == q);
                if w < i {
                    assert(prev.keys()[w] == q);
                } else {
                    assert(prev.keys()[w + 1] == q);
                }
            }
        }
        assert forall|a: int, b: int| 0 <= a < b < n implies self.entries@[a].key@
            != self.entries@[b].key@ by {
            if b < n - 1 {
                // both map into distinct positions of prev
            } else {
                // b is the moved entry with key k; a maps to a prev position != i
                assert(self.entries@[a].key@ != k);
            }
        }
        assert(self.wf());
        assert(self.keys()[n - 1] == k);
        assert(self.contains_key(k));
        self.lemma_index(k);
        assert(self.entry_index_of(k) == n - 1);
        assert forall|q: Seq<char>|
            prev.contains_key(q) && q != k && #[trigger] self.contains_key(q) implies self.value_at(
            q,
        ) == prev.value_at(q) by {
            self.lemma_index(q);
            prev.lemma_index(q);
            let sj = self.entry_index_of(q);
            let pj = prev.entry_index_of(q);
            assert(sj < n - 1);
            if sj < i {
                assert(prev.entries@[sj].key@ == q);
            } else {
                assert(prev.entries@[sj + 1].key@ == q);
            }
        }
    }

    proof fn lemma_after_push(&self, mid: Self, k: Seq<char>, value: PixelBuffer)
        requires
            mid.wf(),
            mid.entries@.len() < mid.limit,
            forall|j: int| 0 <= j < mid.entries@.len() ==> mid.entries@[j].key@ != k,
            self.limit == mid.limit,
            self.entries@.len() == mid.entries@.len() + 1,
            forall|j: int| 0 <= j < mid.entries@.len() ==> self.entries@[j] == mid.entries@[j],
            self.entries@.last().key@ == k,
            self.entries@.last().value == value,
        ensures
            self.wf(),
            self.contains_key(k),
            self.value_at(k) == value,
            self.keys() == mid.keys().push(k),
            forall|q: Seq<char>|
                mid.contains_key(q) && q != k && #[trigger] self.contains_key(q)
                    ==> self.value_at(q) == mid.value_at(q),
            forall|q: Seq<char>|
                #[trigger] self.contains_key(q) ==> q == k || mid.contains_key(q),
            forall|q: Seq<char>| #[trigger] mid.contains_key(q) ==> self.contains_key(q),
    {
        let n = self.entries@.len();
        assert(self.keys() =~= mid.keys().push(k));
        assert forall|q: Seq<char>| #[trigger] mid.contains_key(q) implies self.contains_key(
            q,
        ) by {
            let w = choose|w: int| 0 <= w < mid.keys().len() && mid.keys()[w] == q;
            assert(self.keys()[w] == q);
        }
        assert forall|q: Seq<char>| #[trigger] self.contains_key(q) implies q == k
            || mid.contains_key(q) by {
            if q != k {
                let w = choose|w: int| 0 <= w < self.keys().len() && self.keys()[w] == q;
                assert(self.entries@[w].key@ == q);
                assert(w < n - 1);
                assert(mid.keys()[w] == q);
            }
        }
        assert(self.wf());
        assert(self.keys()[n - 1] == k);
        assert(self.contains_key(k));
        self.lemma_index(k);
        assert(self.entry_index_of(k) == n - 1);
        assert forall|q: Seq<char>|
            mid.contains_key(q) && q != k && #[trigger] self.contains_key(q) implies self.value_at(
            q,
        ) == mid.value_at(q) by {
            self.lemma_index(q);
            mid.lemma_index(q);
            assert(self.entry_index_of(q) < n - 1);
        }
    }

    /// Remove the entry stored under `path`, handing its buffer back; present
    /// for completeness, no normal operation exercises it.
    pub fn _remove(&mut self, path: &str) -> (r: Option<PixelBuffer>)
        requires
            old(self).wf(),
        ensures
            final(self).wf(),
            final(self).capacity() == old(self).capacity(),
            r is Some <==> old(self).contains_key(path@),
            (r matches Some(b) ==> b == old(self).value_at(path@) && final(self).keys()
                == old(self).keys().remove(old(self).entry_index_of(path@))),
            r is None ==> *final(self) == *old(self),
            !final(self).contains_key(path@),
            forall|k: Seq<char>|
                #[trigger] final(self).contains_key(k) ==> old(self).contains_key(k)
                    && final(self).value_at(k) == old(self).value_at(k),
    {
        let n = self.entries.len();
        let mut i: usize = 0;
        while i < n
            invariant
                i <= n,
                n == self.entries@.len(),
                self.wf(),
                *self == *old(self),
                forall|j: int| 0 <= j < i ==> self.entries@[j].key@ != path@,
            decreases n - i,
        {
            if str_eq(self.entries[i].key.as_str(), path) {
                proof {
                    assert(self.keys()[i as int] == path@);
                    self.lemma_index(path@);
                }
                let ghost prev = *self;
                let e = self.entries.remove(i);
                proof {
                    self.lemma_after_remove(prev, i as int, path@);
                }
                return Some(e.value);
            }
            i += 1;
        }
        proof {
            assert(forall|j: int| 0 <= j < self.keys().len() ==> self.keys()[j] != path@);
        }
        None
    }

    proof fn lemma_after_remove(&self, prev: Self, i: int, k: Seq<char>)
        requires
            prev.wf(),
            0 <= i < prev.entries@.len(),
            prev.entries@[i].key@ == k,
            forall|j: int| 0 <= j < prev.entries@.len() && prev.entries@[j].key@ == k ==> j == i,
            self.limit == prev.limit,
            self.entries@ == prev.entries@.remove(i),
        ensures
            self.wf(),
            self.keys() == prev.keys().remove(i),
            !self.contains_key(k),
            forall|q: Seq<char>|
                #[trigger] self.contains_key(q) ==> prev.contains_key(q) && self.value_at(q)
                    == prev.value_at(q),
    {
        let n = self.entries@.len();
        assert(self.keys() =~= prev.keys().remove(i));
        assert(self.wf());
        assert forall|j: int| 0 <= j < n implies self.entries@[j].key@ != k by {
            if j < i {
                assert(prev.entries@[j].key@ != k);
            } else {
                assert(prev.entries@[j + 1].key@ != k);
            }
        }
        assert(!self.contains_key(k)) by {
            assert(forall|j: int| 0 <= j < self.keys().len() ==> self.keys()[j] != k);
        }
        assert forall|q: Seq<char>| #[trigger] self.contains_key(q) implies prev.contains_key(q)
            && self.value_at(q) == prev.value_at(q) by {
            self.lemma_index(q);
            let sj = self.entry_index_of(q);
            if sj < i {
                assert(prev.keys()[sj] == q);
            } else {
                assert(prev.keys()[sj + 1] == q);
            }
            assert(prev.contains_key(q));
            prev.lemma_index(q);
        }
    }
}

} // verus!
