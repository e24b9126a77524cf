//! A small association map with byte-string keys, kept as a pair of vectors
//! sorted by `order::lex_lt`.
//!
//! The builder needs maps from identifiers to lists; keeping the keys in a
//! strictly sorted vector gives unique keys and a canonical iteration order,
//! which in turn makes every catalog traversal deterministic.

use vstd::prelude::*;

use crate::order::{bytes_eq, bytes_lt, lemma_lex_connected, lemma_lex_irrefl, lemma_lex_trans,
    lex_lt};

verus! {

#[derive(Debug)]
pub struct KeyedVec<V> {
    keys: Vec<Vec<u8>>,
    vals: Vec<V>,
}

impl<V> KeyedVec<V> {
    /// The key sequence, each key as its byte view, in storage order.
    pub closed spec fn key_view(self) -> Seq<Seq<u8>> {
        self.keys@.map_values(|k: Vec<u8>| k@)
    }

    /// The value sequence, aligned with `key_view`.
    pub closed spec fn val_view(self) -> Seq<V> {
        self.vals@
    }

    pub open spec fn spec_len(self) -> nat {
        self.key_view().len()
    }

    /// Keys strictly sorted (hence unique) and aligned with the values.
    pub closed spec fn wf(self) -> bool {
        &&& self.keys@.len() == self.vals@.len()
        &&& forall|i: int, j: int|
            0 <= i < j < self.key_view().len() ==> lex_lt(
                #[trigger] self.key_view()[i],
                #[trigger] self.key_view()[j],
            )
    }

    pub open spec fn contains_key(self, k: Seq<u8>) -> bool {
        exists|i: int| 0 <= i < self.spec_len() && self.key_view()[i] == k
    }

    /// The position of key `k`; meaningful only when `contains_key(k)`.
    pub open spec fn index_of(self, k: Seq<u8>) -> int {
        choose|i: int| 0 <= i < self.spec_len() && self.key_view()[i] == k
    }

    /// The keys are strictly sorted.
    pub proof fn lemma_sorted(self, p: int, q: int)
        requires
            self.wf(),
            0 <= p < q < self.spec_len(),
        ensures
            lex_lt(self.key_view()[p], self.key_view()[q]),
    {
    }

    /// Keys and values stay aligned.
    pub proof fn lemma_wf_lens(self)
        requires
            self.wf(),
        ensures
            self.val_view().len() == self.spec_len(),
    {
    }

    /// A present key's `index_of` is a valid position holding that key.
    pub proof fn lemma_contains_index(self, k: Seq<u8>)
        requires
            self.contains_key(k),
        ensures
            0 <= self.index_of(k) < self.spec_len(),
            self.key_view()[self.index_of(k)] == k,
    {
    }

    /// Distinct positions hold distinct keys.
    pub proof fn lemma_keys_unique(self, i: int, j: int)
        requires
            self.wf(),
            0 <= i < self.spec_len(),
            0 <= j < self.spec_len(),
            i != j,
        ensures
            self.key_view()[i] != self.key_view()[j],
    {
        if i < j {
            lemma_lex_irrefl(self.key_view()[i]);
        } else {
            lemma_lex_irrefl(self.key_view()[j]);
        }
    }

    /// The position found by `index_of` is the only one holding `k`.
    pub proof fn lemma_index_of(self, k: Seq<u8>, i: int)
        requires
            self.wf(),
            0 <= i < self.spec_len(),
            self.key_view()[i] == k,
        ensures
            self.index_of(k) == i,
    {
        let w = self.index_of(k);
        if w != i {
            self.lemma_keys_unique(w, i);
        }
    }

    pub fn new() -> (r: KeyedVec<V>)
        ensures
            r.wf(),
            r.key_view() == Seq::<Seq<u8>>::empty(),
            r.val_view() == Seq::<V>::empty(),
    {
        let r = KeyedVec { keys: Vec::new(), vals: Vec::new() };
        proof {
            assert(r.key_view() =~= Seq::<Seq<u8>>::empty());
            assert(r.val_view() =~= Seq::<V>::empty());
        }
        r
    }

    pub fn len(&self) -> (r: usize)
        ensures
            r == self.spec_len(),
    {
        self.keys.len()
    }

    pub fn key_at(&self, i: usize) -> (r: &[u8])
        requires
            i < self.spec_len(),
        ensures
            r@ == self.key_view()[i as int],
    {
        self.keys[i].as_slice()
    }

    pub fn val_at(&self, i: usize) -> (r: &V)
        requires
            self.wf(),
            i < self.spec_len(),
        ensures
            *r == self.val_view()[i as int],
    {
        &self.vals[i]
    }

    /// Locate `k`: `Ok(i)` when stored at `i`, `Err(i)` with the sorted
    /// insertion position when absent.
    pub fn search(&self, k: &[u8]) -> (r: Result<usize, usize>)
        requires
            self.wf(),
        ensures
            match r {
                Ok(i) => i < self.spec_len() && self.key_view()[i as int] == k@,
                Err(i) => {
                    &&& i <= self.spec_len()
                    &&& !self.contains_key(k@)
                    &&& forall|j: int| 0 <= j < i ==> lex_lt(#[trigger] self.key_view()[j], k@)
                    &&& forall|j: int|
                        i <= j < self.spec_len() ==> lex_lt(k@, #[trigger] self.key_view()[j])
                },
            },
    {
        let n = self.keys.len();
        let mut i: usize = 0;
        while i < n && bytes_lt(self.keys[i].as_slice(), k)
            invariant
                self.wf(),
                n == self.spec_len(),
                0 <= i <= n,
                forall|j: int| 0 <= j < i ==> lex_lt(#[trigger] self.key_view()[j], k@),
            decreases n - i,
    {
            i = i + 1;
        }
        if i < n && bytes_eq(self.keys[i].as_slice(), k) {
            Ok(i)
        } else {
            proof {
                if i < self.spec_len() {
                    lemma_lex_connected(k@, self.key_view()[i as int]);
                }
                assert forall|j: int| i <= j < self.spec_len() implies lex_lt(
                    k@,
                    #[trigger] self.key_view()[j],
                ) by {
                    if j > i {
                        lemma_lex_trans(k@, self.key_view()[i as int], self.key_view()[j]);
                    }
                }
                assert forall|j: int| 0 <= j < self.spec_len() implies self.key_view()[j] != k@ by {
                    if j < i {
                        lemma_lex_irrefl(k@);
                    } else {
                        lemma_lex_irrefl(k@);
                    }
                }
            }
            Err(i)
        }
    }

    /// Look up the value stored under `k`.
    pub fn get(&self, k: &[u8]) -> (r: Option<&V>)
        requires
            self.wf(),
        ensures
            match r {
                Some(v) => self.contains_key(k@) && *v == self.val_view()[self.index_of(k@)],
                None => !self.contains_key(k@),
            },
    {
        match self.search(k) {
            Ok(i) => {
                proof {
                    self.lemma_index_of(k@, i as int);
                }
                Some(&self.vals[i])
            },
            Err(_) => None,
        }
    }

    /// Return the position of `k`, inserting `(k, value)` at its sorted
    /// position first when it is absent.
    pub fn ensure_key(&mut self, k: &[u8], value: V) -> (i: usize)
        requires
            old(self).wf(),
        ensures
            final(self).wf(),
            i < final(self).spec_len(),
            final(self).key_view()[i as int] == k@,
            final(self).index_of(k@) == i,
            old(self).contains_key(k@) ==> *final(self) == *old(self),
            !old(self).contains_key(k@) ==> {
                &&& i <= old(self).spec_len()
                &&& final(self).spec_len() == old(self).spec_len() + 1
                &&& final(self).val_view()[i as int] == value
                &&& final(self).key_view() == old(self).key_view().insert(i as int, k@)
                &&& final(self).val_view() == old(self).val_view().insert(i as int, value)
            },
    {
        match self.search(k) {
            Ok(i) => {
                proof {
                    self.lemma_index_of(k@, i as int);
                }
                i
            },
            Err(i) => {
                let key = crate::order::copy_bytes(k);
                self.keys.insert(i, key);
                self.vals.insert(i, value);
                proof {
                    let old_keys = old(self).key_view();
                    let new_keys = self.key_view();
                    assert(new_keys =~= old_keys.insert(i as int, k@)) by {
                        assert(self.keys@ == old(self).keys@.insert(i as int, key));
                        assert forall|j: int| 0 <= j < new_keys.len() implies new_keys[j]
                            == old_keys.insert(i as int, k@)[j] by {
                            if j < i {
                                assert(self.keys@[j] == old(self).keys@[j]);
                            } else if j == i {
                                assert(self.keys@[j] == key);
                            } else {
                                assert(self.keys@[j] == old(self).keys@[j - 1]);
                            }
                        }
                    };
                    assert(self.val_view() =~= old(self).val_view().insert(i as int, value));
                    old(self).val_view().insert_ensures(i as int, value);
                    assert(self.val_view()[i as int] == value);
                    assert forall|p: int, q: int|
                        0 <= p < q < new_keys.len() implies lex_lt(
                        #[trigger] new_keys[p],
                        #[trigger] new_keys[q],
                    ) by {
                        let n = old_keys.len();
                        if p < i && q == i {
                        } else if p == i && q > i {
                        } else if p < i && q > i {
                            lemma_lex_trans(new_keys[p], k@, new_keys[q]);
                        }
                    }
                    assert(self.wf());
                    self.lemma_index_of(k@, i as int);
                }
                i
            },
        }
    }

    /// Map-level effect of an insertion: one key appears, the values under
    /// all other keys are untouched.
    pub proof fn lemma_insert_effect(pre: KeyedVec<V>, post: KeyedVec<V>, i: int, k: Seq<u8>, v: V)
        requires
            pre.wf(),
            post.wf(),
            0 <= i <= pre.spec_len(),
            !pre.contains_key(k),
            post.key_view() == pre.key_view().insert(i, k),
            post.val_view() == pre.val_view().insert(i, v),
        ensures
            forall|x: Seq<u8>|
                #[trigger] post.contains_key(x) <==> (pre.contains_key(x) || x == k),
            post.index_of(k) == i,
            post.val_view()[post.index_of(k)] == v,
            forall|x: Seq<u8>|
                x != k && #[trigger] pre.contains_key(x) ==> post.val_view()[post.index_of(x)]
                    == pre.val_view()[pre.index_of(x)],
    {
        let n = pre.spec_len();
        assert(post.key_view().len() == n + 1);
        assert forall|j: int| 0 <= j < n + 1 implies post.key_view()[j] == (if j < i {
            pre.key_view()[j]
        } else if j == i {
            k
        } else {
            pre.key_view()[j - 1]
        }) by {}
        assert(post.key_view()[i] == k);
        post.lemma_index_of(k, i);
        assert forall|x: Seq<u8>|
            #[trigger] post.contains_key(x) <==> (pre.contains_key(x) || x == k) by {
            if post.contains_key(x) && x != k {
                let j = choose|j: int|
                    0 <= j < post.spec_len() && post.key_view()[j] == x;
                if j < i {
                    assert(pre.key_view()[j] == x);
                } else if j > i {
                    assert(pre.key_view()[j - 1] == x);
                }
            }
            if pre.contains_key(x) {
                let j = choose|j: int| 0 <= j < n && pre.key_view()[j] == x;
                if j < i {
                    assert(post.key_view()[j] == x);
                } else {
                    assert(post.key_view()[j + 1] == x);
                }
            }
        }
        assert forall|x: Seq<u8>|
            x != k && #[trigger] pre.contains_key(x) implies post.val_view()[post.index_of(x)]
            == pre.val_view()[pre.index_of(x)] by {
            let j = pre.index_of(x);
            assert(0 <= j < n && pre.key_view()[j] == x);
            if j < i {
                assert(post.key_view()[j] == x);
                post.lemma_index_of(x, j);
                assert(post.val_view()[j] == pre.val_view()[j]);
            } else {
                assert(post.key_view()[j + 1] == x);
                post.lemma_index_of(x, j + 1);
                assert(post.val_view()[j + 1] == pre.val_view()[j]);
            }
        }
    }

    /// Map-level effect of a value update: keys and the other values keep
    /// their places.
    pub proof fn lemma_update_effect(pre: KeyedVec<V>, post: KeyedVec<V>, i: int, v: V)
        requires
            pre.wf(),
            post.wf(),
            0 <= i < pre.spec_len(),
            post.key_view() == pre.key_view(),
            post.val_view() == pre.val_view().update(i, v),
        ensures
            forall|x: Seq<u8>| #[trigger] post.contains_key(x) <==> pre.contains_key(x),
            forall|x: Seq<u8>| #[trigger] pre.contains_key(x) ==> post.index_of(x)
                == pre.index_of(x),
            post.val_view()[i] == v,
            forall|j: int|
                0 <= j < pre.spec_len() && j != i ==> #[trigger] post.val_view()[j]
                    == pre.val_view()[j],
    {
        assert forall|x: Seq<u8>| #[trigger] pre.contains_key(x) implies post.index_of(x)
            == pre.index_of(x) by {
            let j = pre.index_of(x);
            post.lemma_index_of(x, j);
        }
    }

    /// Replace the value at position `i`.
    pub fn set_val(&mut self, i: usize, value: V)
        requires
            old(self).wf(),
            i < old(self).spec_len(),
        ensures
            final(self).wf(),
            final(self).key_view() == old(self).key_view(),
            final(self).val_view() == old(self).val_view().update(i as int, value),
    {
        self.vals.remove(i);
        self.vals.insert(i, value);
        proof {
            assert(self.key_view() =~= old(self).key_view());
            assert(self.val_view() =~= old(self).val_view().update(i as int, value));
        }
    }
}

impl KeyedVec<crate::items::Family> {
    /// A copy with the same keys and families (by view).
    pub fn duplicate(&self) -> (r: KeyedVec<crate::items::Family>)
        requires
            self.wf(),
        ensures
            r.wf(),
            r.key_view() == self.key_view(),
            crate::items::families_view(r.val_view()) == crate::items::families_view(
                self.val_view(),
            ),
    {
        proof {
            self.lemma_wf_lens();
        }
        let mut keys: Vec<Vec<u8>> = Vec::new();
        let mut vals: Vec<crate::items::Family> = Vec::new();
        let n = self.keys.len();
        let mut i: usize = 0;
        while i < n
            invariant
                self.wf(),
                n == self.spec_len(),
                self.val_view().len() == n,
                0 <= i <= n,
                keys@.len() == i,
                vals@.len() == i,
                forall|j: int| 0 <= j < i ==> #[trigger] keys@[j]@ == self.key_view()[j],
                forall|j: int|
                    0 <= j < i ==> #[trigger] vals@[j]@ == crate::items::families_view(
                        self.val_view(),
                    )[j],
            decreases n - i,
        {
            keys.push(crate::order::copy_bytes(self.keys[i].as_slice()));
            vals.push(self.vals[i].clone());
            i = i + 1;
        }
        let r = KeyedVec { keys, vals };
        proof {
            assert(r.key_view() =~= self.key_view());
            assert(crate::items::families_view(r.val_view()) =~= crate::items::families_view(
                self.val_view(),
            ));
            assert forall|p: int, q: int|
                0 <= p < q < r.key_view().len() implies crate::order::lex_lt(
                #[trigger] r.key_view()[p],
                #[trigger] r.key_view()[q],
            ) by {}
        }
        r
    }
}

impl KeyedVec<Vec<crate::items::Item>> {
    /// Append `item` to the list stored at position `i`.
    pub fn push_item(&mut self, i: usize, item: crate::items::Item)
        requires
            old(self).wf(),
            i < old(self).spec_len(),
        ensures
            final(self).wf(),
            final(self).key_view() == old(self).key_view(),
            final(self).val_view() == old(self).val_view().update(
                i as int,
                final(self).val_view()[i as int],
            ),
            final(self).val_view()[i as int]@ == old(self).val_view()[i as int]@.push(item),
    {
        let mut list = self.vals.remove(i);
        list.push(item);
        let ghost new_list = list;
        self.vals.insert(i, list);
        proof {
            assert(self.key_view() =~= old(self).key_view());
            assert(self.vals@ =~= old(self).vals@.update(i as int, new_list));
            assert(self.val_view() =~= old(self).val_view().update(i as int, new_list));
        }
    }
}

} // verus!
