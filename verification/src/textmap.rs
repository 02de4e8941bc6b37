//! A map from texts to values.
use vstd::prelude::*;

use crate::trie;
use crate::trie::Trie;

verus! {

/// A map from texts to values, seen from outside as a `Map`.
pub struct TextMap<V> {
    index: Trie,
    slots: Vec<V>,
}

impl<V> View for TextMap<V> {
    type V = Map<Seq<char>, V>;

    closed spec fn view(&self) -> Map<Seq<char>, V> {
        Map::new(
            |key: Seq<char>| self.index.postings(key).len() > 0,
            |key: Seq<char>| self.slots@[self.index.postings(key)[0] as int],
        )
    }
}

impl<V> TextMap<V> {
    /// Every key leads to one slot, and no two keys to the same.
    pub closed spec fn wf(self) -> bool {
        &&& self.index.wf()
        &&& forall|key: Seq<char>| (#[trigger] self.index.postings(key)).len() <= 1
        &&& forall|key: Seq<char>|
            (#[trigger] self.index.postings(key)).len() > 0 ==> self.index.postings(key)[0]
                < self.slots@.len()
        &&& forall|a: Seq<char>, b: Seq<char>|
            (#[trigger] self.index.postings(a)).len() > 0 && (#[trigger] self.index.postings(
                b,
            )).len() > 0 && self.index.postings(a)[0] == self.index.postings(b)[0] ==> a == b
    }

    /// An empty map.
    pub fn new() -> (map: TextMap<V>)
        ensures
            map.wf(),
            map@ == Map::<Seq<char>, V>::empty(),
    {
        let map = TextMap { index: Trie::new(), slots: Vec::new() };
        assert(map@ =~= Map::<Seq<char>, V>::empty());
        map
    }

    /// The value under `key`.
    pub fn get(&self, key: &str) -> (found: Option<&V>)
        requires
            self.wf(),
        ensures
            match found {
                Some(v) => self@.contains_key(key@) && self@[key@] == *v,
                None => !self@.contains_key(key@),
            },
    {
        let list: &[usize] = self.index.exact_lookup(key);
        if list.len() == 0 {
            None
        } else {
            Some(&self.slots[list[0]])
        }
    }

    /// Puts `value` under `key`, in the place of what was there.
    pub fn insert(&mut self, key: &str, value: V)
        requires
            old(self).wf(),
        ensures
            final(self).wf(),
            final(self)@ == old(self)@.insert(key@, value),
    {
        let ghost before = *self;
        let list: &[usize] = self.index.exact_lookup(key);
        if list.len() > 0 {
            let at: usize = list[0];
            self.slots.set(at, value);
            proof {
                assert forall|k: Seq<char>| #[trigger]
                    self@.contains_key(k) && k != key@ implies self@[k] == before@[k] by {
                    assert(self.index.postings(k).len() > 0);
                    assert(self.index.postings(key@).len() > 0);
                    assert(self.index.postings(k)[0] != self.index.postings(key@)[0]);
                }
                assert(self@ =~= before@.insert(key@, value));
            }
        } else {
            let at: usize = self.slots.len();
            self.slots.push(value);
            self.index.insert(key, at);
            proof {
                assert(before.index.postings(key@).len() == 0);
                assert(self.index.postings(key@) =~= seq![at]);
                assert forall|k: Seq<char>| k != key@ implies #[trigger] self.index.postings(k)
                    == before.index.postings(k) by {}
                assert forall|a: Seq<char>, b: Seq<char>|
                    (#[trigger] self.index.postings(a)).len() > 0 && (
                    #[trigger] self.index.postings(b)).len() > 0 && self.index.postings(a)[0]
                        == self.index.postings(b)[0] implies a == b by {
                    if a == key@ && b != key@ {
                        assert(before.index.postings(b)[0] < before.slots@.len());
                    } else if b == key@ && a != key@ {
                        assert(before.index.postings(a)[0] < before.slots@.len());
                    }
                }
                assert forall|k: Seq<char>| (#[trigger] self.index.postings(k)).len() <= 1 by {
                    if k != key@ {
                        assert(before.index.postings(k).len() <= 1);
                    }
                }
                assert forall|k: Seq<char>|
                    (#[trigger] self.index.postings(k)).len() > 0 implies self.index.postings(
                    k,
                )[0] < self.slots@.len() by {
                    if k != key@ {
                        assert(before.index.postings(k)[0] < before.slots@.len());
                    }
                }
                assert(self@ =~= before@.insert(key@, value)) by {
                    assert forall|k: Seq<char>| #[trigger]
                        self@.contains_key(k) implies before@.insert(key@, value).contains_key(k)
                        && self@[k] == before@.insert(key@, value)[k] by {
                        if k != key@ {
                            assert(before.index.postings(k)[0] < before.slots@.len());
                        }
                    }
                    assert forall|k: Seq<char>| #[trigger]
                        before@.insert(key@, value).contains_key(k) implies self@.contains_key(
                        k,
                    ) by {}
                }
            }
        }
    }

    /// Takes away what is under `key` and tells whether there was anything.
    pub fn remove(&mut self, key: &str) -> (found: bool)
        requires
            old(self).wf(),
        ensures
            final(self).wf(),
            found == old(self)@.contains_key(key@),
            final(self)@ == old(self)@.remove(key@),
    {
        let ghost before = *self;
        let list: &[usize] = self.index.exact_lookup(key);
        if list.len() == 0 {
            assert(self@ =~= before@.remove(key@));
            return false;
        }
        let at: usize = list[0];
        self.index.remove(key, at);
        proof {
            let one = before.index.postings(key@);
            assert(one =~= seq![at]);
            assert(one =~= Seq::<usize>::empty().push(at));
            Seq::<usize>::empty().lemma_filter_push(at, trie::other_than(at));
            assert(Seq::<usize>::empty().filter(trie::other_than(at)) =~= Seq::empty());
            assert(self.index.postings(key@).len() == 0);
            assert forall|k: Seq<char>| k != key@ implies #[trigger] self.index.postings(k)
                == before.index.postings(k) by {}
            assert(self@ =~= before@.remove(key@)) by {
                assert forall|k: Seq<char>| #[trigger] self@.contains_key(k) implies self@[k]
                    == before@[k] && k != key@ by {}
            }
        }
        true
    }

    /// Takes everything away.
    pub fn clear(&mut self)
        requires
            old(self).wf(),
        ensures
            final(self).wf(),
            final(self)@ == Map::<Seq<char>, V>::empty(),
    {
        self.index = Trie::new();
        self.slots = Vec::new();
        assert(self@ =~= Map::<Seq<char>, V>::empty());
    }
}

} // verus!
