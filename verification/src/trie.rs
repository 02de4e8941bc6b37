//! Trie from readings to posting lists (indices of dictionary entries).
//!
//! A trie is seen from outside as a function from a reading to its posting
//! list, [`Trie::postings`]; a reading that was never inserted has the empty
//! list.
use vstd::prelude::*;

use crate::rank;
use crate::rank::order_desc;
use crate::text::chars_of;

verus! {

/// One node: the labelled edges to its children and the posting list of the
/// reading that leads here.
pub struct TrieNode {
    children: Vec<TrieEdge>,
    /// Indices of the dictionary entries with this reading.
    pub entry_indices: Vec<usize>,
}

/// An edge to a child, labelled with the next character.
pub struct TrieEdge {
    label: char,
    node: TrieNode,
}

/// The posting list with `idx` appended unless it is already there.
pub open spec fn with_index(list: Seq<usize>, idx: usize) -> Seq<usize> {
    if list.contains(idx) {
        list
    } else {
        list.push(idx)
    }
}

/// The posting list without `idx`.
pub open spec fn without_index(list: Seq<usize>, idx: usize) -> Seq<usize> {
    list.filter(other_than(idx))
}

/// Tells the indices other than `idx`.
pub open spec fn other_than(idx: usize) -> spec_fn(usize) -> bool {
    |i: usize| i != idx
}

/// The frequencies of the entries of a posting list.
pub open spec fn posting_keys(list: Seq<usize>, freqs: Seq<u32>) -> Seq<int> {
    list.map_values(|i: usize| freqs[i as int] as int)
}

/// The posting list by descending frequency, equal frequencies in their order.
pub open spec fn by_frequency(list: Seq<usize>, freqs: Seq<u32>) -> Seq<usize> {
    rank::taken(list, rank::ranking(posting_keys(list, freqs)))
}

/// Appending an index that is not there lists none twice.
proof fn lemma_with_index(list: Seq<usize>, idx: usize)
    requires
        list.no_duplicates(),
    ensures
        with_index(list, idx).no_duplicates(),
{
    if !list.contains(idx) {
        assert forall|i: int| 0 <= i < list.len() implies list[i] != idx by {
            if list[i] == idx {
                assert(list.contains(idx));
            }
        }
    }
}

/// Taking an index out lists none twice.
proof fn lemma_without_index(list: Seq<usize>, idx: usize)
    requires
        list.no_duplicates(),
    ensures
        without_index(list, idx).no_duplicates(),
    decreases list.len(),
{
    let pred = other_than(idx);
    if list.len() == 0 {
        assert(list.filter(pred) =~= Seq::empty());
    } else {
        let rest = list.drop_last();
        let x = list.last();
        lemma_without_index(rest, idx);
        assert(list =~= rest.push(x));
        rest.lemma_filter_push(x, pred);
        if pred(x) {
            let kept = rest.filter(pred);
            assert forall|i: int| 0 <= i < kept.len() implies kept[i] != x by {
                rest.lemma_filter_contains_rev(pred, kept[i]);
                let w = choose|w: int| 0 <= w < rest.len() && rest[w] == kept[i];
                assert(list[w] == kept[i]);
                assert(list[list.len() - 1] == x);
            }
        }
    }
}

/// Ordering a list by frequency lists none twice.
proof fn lemma_by_frequency_once(list: Seq<usize>, freqs: Seq<u32>)
    requires
        list.no_duplicates(),
    ensures
        by_frequency(list, freqs).no_duplicates(),
{
    let keys = posting_keys(list, freqs);
    let order = rank::ranking(keys);
    rank::lemma_ranking(keys);
    let out = by_frequency(list, freqs);
    assert forall|i: int, j: int|
        0 <= i < out.len() && 0 <= j < out.len() && i != j implies out[i] != out[j] by {
        assert(out[i] == list[order[i]]);
        assert(out[j] == list[order[j]]);
        if i < j {
            assert(rank::ranks_before(keys, order[i], order[j]));
        } else {
            assert(rank::ranks_before(keys, order[j], order[i]));
        }
    }
}

impl TrieNode {
    spec fn is_edge(self, i: int, c: char) -> bool {
        0 <= i < self.children@.len() && self.children@[i].label == c
    }

    spec fn child(self, c: char) -> Option<TrieNode> {
        if exists|i: int| self.is_edge(i, c) {
            Some(self.children@[choose|i: int| self.is_edge(i, c)].node)
        } else {
            None
        }
    }

    /// The posting list found by following `key` from this node.
    pub closed spec fn postings(self, key: Seq<char>) -> Seq<usize>
        decreases key.len(),
    {
        if key.len() == 0 {
            self.entry_indices@
        } else {
            match self.child(key[0]) {
                Some(n) => n.postings(key.drop_first()),
                None => Seq::empty(),
            }
        }
    }

    /// Edges out of a node carry distinct labels, and no entry is listed twice at
    /// a node, all the way down.
    pub closed spec fn wf(self) -> bool
        decreases self,
    {
        &&& self.entry_indices@.no_duplicates()
        &&& forall|i: int, j: int|
            0 <= i < j < self.children@.len() ==> (#[trigger] self.children@[i]).label != (
            #[trigger] self.children@[j]).label
        &&& forall|i: int|
            0 <= i < self.children@.len() ==> (#[trigger] self.children@[i]).node.wf()
    }

    proof fn lemma_child(self, i: int, c: char)
        requires
            self.wf(),
            self.is_edge(i, c),
        ensures
            self.child(c) == Some(self.children@[i].node),
    {
        let k = choose|k: int| self.is_edge(k, c);
        assert(self.is_edge(k, c));
        if k != i {
            if k < i {
                assert(self.children@[k].label != self.children@[i].label);
            } else {
                assert(self.children@[i].label != self.children@[k].label);
            }
        }
    }

    /// A node without edges and without entries.
    fn new() -> (node: TrieNode)
        ensures
            node.children@ == Seq::<TrieEdge>::empty(),
            node.entry_indices@ == Seq::<usize>::empty(),
            node.wf(),
            forall|key: Seq<char>| #[trigger] node.postings(key) == Seq::<usize>::empty(),
    {
        let node = TrieNode { children: Vec::new(), entry_indices: Vec::new() };
        assert forall|key: Seq<char>| #[trigger] node.postings(key) == Seq::<usize>::empty() by {
            if key.len() > 0 {
                assert forall|i: int| !node.is_edge(i, key[0]) by {}
            }
        }
        node
    }

    /// Position of the edge labelled `c`, or the number of edges.
    fn find(&self, c: char) -> (at: usize)
        requires
            self.wf(),
        ensures
            at <= self.children@.len(),
            at < self.children@.len() ==> self.is_edge(at as int, c) && self.child(c) == Some(
                self.children@[at as int].node,
            ),
            at == self.children@.len() ==> self.child(c) is None && forall|i: int|
                !self.is_edge(i, c),
    {
        let mut at: usize = 0;
        while at < self.children.len()
            invariant
                self.wf(),
                at <= self.children@.len(),
                forall|i: int| 0 <= i < at ==> (#[trigger] self.children@[i]).label != c,
            decreases self.children@.len() - at,
        {
            if self.children[at].label == c {
                proof {
                    self.lemma_child(at as int, c);
                }
                return at;
            }
            at = at + 1;
        }
        assert forall|i: int| !self.is_edge(i, c) by {
            if 0 <= i < self.children@.len() {
                assert(self.children@[i].label != c);
            }
        }
        at
    }

    fn insert_at(&mut self, key: &Vec<char>, from: usize, idx: usize)
        requires
            old(self).wf(),
            from <= key@.len(),
        ensures
            final(self).wf(),
            forall|k: Seq<char>| #[trigger]
                final(self).postings(k) == (if k == key@.skip(from as int) {
                    with_index(old(self).postings(k), idx)
                } else {
                    old(self).postings(k)
                }),
        decreases key@.len() - from,
    {
        let ghost before = *self;
        let ghost target = key@.skip(from as int);
        if from == key.len() {
            let mut i: usize = 0;
            let mut found: bool = false;
            while i < self.entry_indices.len()
                invariant
                    i <= self.entry_indices@.len(),
                    *self == before,
                    found == self.entry_indices@.take(i as int).contains(idx),
                decreases self.entry_indices@.len() - i,
            {
                let ghost head = self.entry_indices@.take(i as int);
                assert(self.entry_indices@.take(i + 1) =~= head.push(
                    self.entry_indices@[i as int],
                ));
                let here: bool = self.entry_indices[i] == idx;
                proof {
                    let longer = head.push(self.entry_indices@[i as int]);
                    if here {
                        assert(longer[i as int] == idx);
                    }
                    if head.contains(idx) {
                        let w = choose|w: int| 0 <= w < head.len() && head[w] == idx;
                        assert(longer[w] == idx);
                    }
                }
                found = found || here;
                i = i + 1;
            }
            assert(self.entry_indices@.take(i as int) =~= self.entry_indices@);
            if !found {
                self.entry_indices.push(idx);
            }
            proof {
                let after = *self;
                lemma_with_index(before.entry_indices@, idx);
                assert(after.children == before.children);
                assert(after.wf());
                assert forall|k: Seq<char>| #[trigger] after.postings(k) == (if k == target {
                    with_index(before.postings(k), idx)
                } else {
                    before.postings(k)
                }) by {
                    if k.len() == 0 {
                        assert(k =~= target);
                    } else {
                        lemma_same_child(before, after, k[0]);
                    }
                }
            }
            return ;
        }
        let c: char = key[from];
        let at: usize = self.find(c);
        let count: usize = self.children.len();
        assert(count == before.children@.len());
        if at == count {
            let fresh: TrieEdge = TrieEdge::leading(c);
            self.children.push(fresh);
            assert(self.children@[at as int] == fresh);
        } else {
            assert(before.is_edge(at as int, c));
        }
        let ghost mid = *self;
        proof {
            assert(mid.is_edge(at as int, c));
            assert forall|i: int, j: int| 0 <= i < j < mid.children@.len() implies (
            #[trigger] mid.children@[i]).label != (#[trigger] mid.children@[j]).label by {
                if j == before.children@.len() {
                    assert(!before.is_edge(i, c));
                }
            }
            assert forall|i: int| 0 <= i < mid.children@.len() implies (
            #[trigger] mid.children@[i]).node.wf() by {
                if i < before.children@.len() {
                    assert(mid.children@[i] == before.children@[i]);
                }
            }
        }
        let edge = &mut self.children[at];
        edge.node.insert_at(key, from + 1, idx);
        proof {
            let after = *self;
            assert(after.children@.len() == mid.children@.len());
            assert forall|i: int| 0 <= i < after.children@.len() && i != at implies (
            #[trigger] after.children@[i]) == mid.children@[i] by {}
            assert(after.children@[at as int].label == c);
            assert forall|i: int, j: int| 0 <= i < j < after.children@.len() implies (
            #[trigger] after.children@[i]).label != (#[trigger] after.children@[j]).label by {
                assert(mid.children@[i].label != mid.children@[j].label);
            }
            assert forall|i: int| 0 <= i < after.children@.len() implies (
            #[trigger] after.children@[i]).node.wf() by {
                assert(mid.children@[i].node.wf());
            }
            assert(after.wf());
            assert(mid.wf());
            assert forall|k: Seq<char>| #[trigger] after.postings(k) == (if k == target {
                with_index(before.postings(k), idx)
            } else {
                before.postings(k)
            }) by {
                if k.len() > 0 {
                    let rest = k.drop_first();
                    if k[0] == c {
                        after.lemma_child(at as int, c);
                        mid.lemma_child(at as int, c);
                        assert(after.postings(k) == after.children@[at as int].node.postings(
                            rest,
                        ));
                        if at < before.children@.len() {
                            assert(before.is_edge(at as int, c));
                            before.lemma_child(at as int, c);
                        } else {
                            assert(before.child(c) is None);
                        }
                        assert(before.postings(k) == mid.children@[at as int].node.postings(rest));
                        if k == target {
                            assert(rest =~= key@.skip(from + 1));
                        } else {
                            if rest == key@.skip(from + 1) {
                                assert(k =~= target) by {
                                    assert(k =~= seq![k[0]] + rest);
                                    assert(target =~= seq![c] + key@.skip(from + 1));
                                }
                            }
                        }
                    } else {
                        assert(k != target) by {
                            assert(target[0] == c);
                        }
                        lemma_other_child(before, after, at as int, k[0]);
                    }
                } else {
                    assert(target.len() > 0);
                }
            }
        }
    }

    fn remove_at(&mut self, key: &Vec<char>, from: usize, idx: usize)
        requires
            old(self).wf(),
            from <= key@.len(),
        ensures
            final(self).wf(),
            forall|k: Seq<char>| #[trigger]
                final(self).postings(k) == (if k == key@.skip(from as int) {
                    without_index(old(self).postings(k), idx)
                } else {
                    old(self).postings(k)
                }),
        decreases key@.len() - from,
    {
        let ghost before = *self;
        let ghost target = key@.skip(from as int);
        if from == key.len() {
            let mut kept: Vec<usize> = Vec::new();
            let mut i: usize = 0;
            while i < self.entry_indices.len()
                invariant
                    i <= self.entry_indices@.len(),
                    *self == before,
                    kept@ == without_index(self.entry_indices@.take(i as int), idx),
                decreases self.entry_indices@.len() - i,
            {
                let ghost head = self.entry_indices@.take(i as int);
                assert(self.entry_indices@.take(i + 1) =~= head.push(
                    self.entry_indices@[i as int],
                ));
                proof {
                    head.lemma_filter_push(self.entry_indices@[i as int], other_than(idx));
                }
                if self.entry_indices[i] != idx {
                    kept.push(self.entry_indices[i]);
                }
                i = i + 1;
            }
            assert(self.entry_indices@.take(i as int) =~= self.entry_indices@);
            self.entry_indices = kept;
            proof {
                let after = *self;
                lemma_without_index(before.entry_indices@, idx);
                assert(after.children == before.children);
                assert(after.wf());
                assert forall|k: Seq<char>| #[trigger] after.postings(k) == (if k == target {
                    without_index(before.postings(k), idx)
                } else {
                    before.postings(k)
                }) by {
                    if k.len() == 0 {
                        assert(k =~= target);
                    } else {
                        lemma_same_child(before, after, k[0]);
                    }
                }
            }
            return ;
        }
        let c: char = key[from];
        let at: usize = self.find(c);
        if at == self.children.len() {
            proof {
                assert forall|k: Seq<char>| k == target implies without_index(
                    #[trigger] before.postings(k),
                    idx,
                ) == before.postings(k) by {
                    assert(k[0] == c);
                    assert(before.postings(k) =~= Seq::empty());
                    assert(without_index(Seq::<usize>::empty(), idx) =~= Seq::empty());
                }
            }
            return ;
        }
        let edge = &mut self.children[at];
        edge.node.remove_at(key, from + 1, idx);
        proof {
            let after = *self;
            assert(after.children@.len() == before.children@.len());
            assert forall|i: int| 0 <= i < after.children@.len() && i != at implies (
            #[trigger] after.children@[i]) == before.children@[i] by {}
            assert(after.children@[at as int].label == c);
            assert forall|i: int, j: int| 0 <= i < j < after.children@.len() implies (
            #[trigger] after.children@[i]).label != (#[trigger] after.children@[j]).label by {
                assert(before.children@[i].label != before.children@[j].label);
            }
            assert forall|i: int| 0 <= i < after.children@.len() implies (
            #[trigger] after.children@[i]).node.wf() by {
                assert(before.children@[i].node.wf());
            }
            assert(after.wf());
            assert forall|k: Seq<char>| #[trigger] after.postings(k) == (if k == target {
                without_index(before.postings(k), idx)
            } else {
                before.postings(k)
            }) by {
                if k.len() > 0 {
                    let rest = k.drop_first();
                    if k[0] == c {
                        after.lemma_child(at as int, c);
                        before.lemma_child(at as int, c);
                        assert(after.postings(k) == after.children@[at as int].node.postings(
                            rest,
                        ));
                        assert(before.postings(k) == before.children@[at as int].node.postings(
                            rest,
                        ));
                        if k == target {
                            assert(rest =~= key@.skip(from + 1));
                        } else {
                            if rest == key@.skip(from + 1) {
                                assert(k =~= target) by {
                                    assert(k =~= seq![k[0]] + rest);
                                    assert(target =~= seq![c] + key@.skip(from + 1));
                                }
                            }
                        }
                    } else {
                        assert(k != target) by {
                            assert(target[0] == c);
                        }
                        lemma_other_child(before, after, at as int, k[0]);
                    }
                } else {
                    assert(target.len() > 0);
                }
            }
        }
    }
}

impl TrieEdge {
    /// An edge labelled `c` to a fresh node.
    fn leading(c: char) -> (edge: TrieEdge)
        ensures
            edge.label == c,
            edge.node.wf(),
            forall|key: Seq<char>| #[trigger] edge.node.postings(key) == Seq::<usize>::empty(),
    {
        TrieEdge { label: c, node: TrieNode::new() }
    }
}

proof fn lemma_same_child(a: TrieNode, b: TrieNode, c: char)
    requires
        a.wf(),
        b.wf(),
        a.children == b.children,
    ensures
        a.child(c) == b.child(c),
{
    if exists|i: int| a.is_edge(i, c) {
        let i = choose|i: int| a.is_edge(i, c);
        assert(b.is_edge(i, c));
        a.lemma_child(i, c);
        b.lemma_child(i, c);
    } else {
        assert forall|i: int| !b.is_edge(i, c) by {
            assert(!a.is_edge(i, c));
        }
    }
}

/// `b` differs from `a` only in the edge at `at`, or by one more edge there;
/// the children under other labels are the same.
proof fn lemma_other_child(a: TrieNode, b: TrieNode, at: int, c: char)
    requires
        a.wf(),
        b.wf(),
        0 <= at < b.children@.len(),
        a.children@.len() == b.children@.len() || (a.children@.len() == at && b.children@.len()
            == at + 1),
        b.children@[at].label != c,
        at < a.children@.len() ==> a.children@[at].label != c,
        forall|i: int|
            0 <= i < b.children@.len() && i != at ==> (#[trigger] b.children@[i])
                == a.children@[i],
    ensures
        a.child(c) == b.child(c),
{
    if exists|i: int| a.is_edge(i, c) {
        let i = choose|i: int| a.is_edge(i, c);
        assert(b.children@[i] == a.children@[i]);
        assert(b.is_edge(i, c));
        a.lemma_child(i, c);
        b.lemma_child(i, c);
    } else {
        assert forall|i: int| !b.is_edge(i, c) by {
            assert(!a.is_edge(i, c));
            if 0 <= i < b.children@.len() && i != at {
                assert(b.children@[i] == a.children@[i]);
            }
        }
    }
}

/// No posting list below a node holds an entry twice.
proof fn lemma_listed_once(node: TrieNode, key: Seq<char>)
    requires
        node.wf(),
    ensures
        node.postings(key).no_duplicates(),
    decreases key.len(),
{
    if key.len() > 0 && node.child(key[0]) is Some {
        let i = choose|i: int| node.is_edge(i, key[0]);
        assert(node.is_edge(i, key[0]));
        node.lemma_child(i, key[0]);
        lemma_listed_once(node.children@[i].node, key.drop_first());
    }
}

/// `list` by descending frequency, equal frequencies in their order.
fn sorted_list(list: &Vec<usize>, freqs: &Vec<u32>) -> (out: Vec<usize>)
    requires
        forall|i: int| 0 <= i < list@.len() ==> (#[trigger] list@[i]) < freqs@.len(),
    ensures
        out@ == by_frequency(list@, freqs@),
{
    let ghost want = posting_keys(list@, freqs@);
    let mut keys: Vec<i128> = Vec::new();
    let mut i: usize = 0;
    while i < list.len()
        invariant
            i <= list@.len(),
            keys@.len() == i,
            want == posting_keys(list@, freqs@),
            forall|j: int| 0 <= j < list@.len() ==> (#[trigger] list@[j]) < freqs@.len(),
            forall|j: int| 0 <= j < i ==> (#[trigger] keys@[j]) as int == want[j],
        decreases list@.len() - i,
    {
        keys.push(freqs[list[i]] as i128);
        i = i + 1;
    }
    let order: Vec<usize> = order_desc(&keys);
    let ghost ints = order@.map_values(|k: usize| k as int);
    assert(keys@.map_values(|k: i128| k as int) =~= want);
    let mut out: Vec<usize> = Vec::new();
    let mut j: usize = 0;
    while j < order.len()
        invariant
            j <= order@.len(),
            out@.len() == j,
            order@.len() == list@.len(),
            forall|m: int| 0 <= m < order@.len() ==> (#[trigger] order@[m]) < list@.len(),
            forall|m: int| 0 <= m < j ==> (#[trigger] out@[m]) == list@[order@[m] as int],
        decreases order@.len() - j,
    {
        out.push(list[order[j]]);
        j = j + 1;
    }
    proof {
        assert forall|m: int| 0 <= m < out@.len() implies out@[m] == rank::taken(
            list@,
            rank::ranking(want),
        )[m] by {
            assert(ints[m] == rank::ranking(want)[m]);
            assert(ints[m] == order@[m] as int);
        }
        assert(out@ =~= rank::taken(list@, rank::ranking(want)));
    }
    out
}

impl TrieNode {
    /// Every index in this subtree is below `n`.
    pub open spec fn indices_below(self, n: int) -> bool {
        forall|key: Seq<char>, i: int|
            0 <= i < self.postings(key).len() ==> #[trigger] self.postings(key)[i] < n
    }

    fn sort_at(&mut self, key: &Vec<char>, from: usize, freqs: &Vec<u32>)
        requires
            old(self).wf(),
            from <= key@.len(),
            forall|i: int|
                0 <= i < old(self).postings(key@.skip(from as int)).len() ==> (
                #[trigger] old(self).postings(key@.skip(from as int))[i]) < freqs@.len(),
        ensures
            final(self).wf(),
            forall|k: Seq<char>| #[trigger]
                final(self).postings(k) == (if k == key@.skip(from as int) {
                    by_frequency(old(self).postings(k), freqs@)
                } else {
                    old(self).postings(k)
                }),
        decreases key@.len() - from,
    {
        let ghost before = *self;
        let ghost target = key@.skip(from as int);
        if from == key.len() {
            proof {
                assert(target.len() == 0);
                assert(before.postings(target) == before.entry_indices@);
                assert forall|i: int| 0 <= i < before.entry_indices@.len() implies (
                #[trigger] before.entry_indices@[i]) < freqs@.len() by {
                    assert(before.postings(target)[i] < freqs@.len());
                }
            }
            self.entry_indices = sorted_list(&self.entry_indices, freqs);
            proof {
                let after = *self;
                lemma_by_frequency_once(before.entry_indices@, freqs@);
                assert(after.children == before.children);
                assert(after.wf());
                assert forall|k: Seq<char>| #[trigger] after.postings(k) == (if k == target {
                    by_frequency(before.postings(k), freqs@)
                } else {
                    before.postings(k)
                }) by {
                    if k.len() == 0 {
                        assert(k =~= target);
                    } else {
                        lemma_same_child(before, after, k[0]);
                    }
                }
            }
            return ;
        }
        let c: char = key[from];
        let at: usize = self.find(c);
        if at == self.children.len() {
            proof {
                assert forall|k: Seq<char>| k == target implies by_frequency(
                    #[trigger] before.postings(k),
                    freqs@,
                ) == before.postings(k) by {
                    assert(k[0] == c);
                    assert(before.postings(k) =~= Seq::empty());
                    assert(by_frequency(Seq::<usize>::empty(), freqs@) =~= Seq::empty());
                }
            }
            return ;
        }
        proof {
            before.lemma_child(at as int, c);
            let rest = key@.skip(from + 1);
            assert(target.drop_first() =~= rest);
            assert(target[0] == c);
            assert(before.postings(target) == before.children@[at as int].node.postings(rest));
            assert forall|i: int|
                0 <= i < before.children@[at as int].node.postings(rest).len() implies (
            #[trigger] before.children@[at as int].node.postings(rest)[i]) < freqs@.len() by {
                assert(before.postings(target)[i] < freqs@.len());
            }
        }
        let edge = &mut self.children[at];
        edge.node.sort_at(key, from + 1, freqs);
        proof {
            let after = *self;
            assert(after.children@.len() == before.children@.len());
            assert forall|i: int| 0 <= i < after.children@.len() && i != at implies (
            #[trigger] after.children@[i]) == before.children@[i] by {}
            assert(after.children@[at as int].label == c);
            assert forall|i: int, j: int| 0 <= i < j < after.children@.len() implies (
            #[trigger] after.children@[i]).label != (#[trigger] after.children@[j]).label by {
                assert(before.children@[i].label != before.children@[j].label);
            }
            assert forall|i: int| 0 <= i < after.children@.len() implies (
            #[trigger] after.children@[i]).node.wf() by {
                assert(before.children@[i].node.wf());
            }
            assert(after.wf());
            assert forall|k: Seq<char>| #[trigger] after.postings(k) == (if k == target {
                by_frequency(before.postings(k), freqs@)
            } else {
                before.postings(k)
            }) by {
                if k.len() > 0 {
                    let rest = k.drop_first();
                    if k[0] == c {
                        after.lemma_child(at as int, c);
                        before.lemma_child(at as int, c);
                        assert(after.postings(k) == after.children@[at as int].node.postings(
                            rest,
                        ));
                        assert(before.postings(k) == before.children@[at as int].node.postings(
                            rest,
                        ));
                        if k == target {
                            assert(rest =~= key@.skip(from + 1));
                        } else {
                            if rest == key@.skip(from + 1) {
                                assert(k =~= target) by {
                                    assert(k =~= seq![k[0]] + rest);
                                    assert(target =~= seq![c] + key@.skip(from + 1));
                                }
                            }
                        }
                    } else {
                        assert(k != target) by {
                            assert(target[0] == c);
                        }
                        lemma_other_child(before, after, at as int, k[0]);
                    }
                } else {
                    assert(target.len() > 0);
                }
            }
        }
    }

    fn sort_all(&mut self, freqs: &Vec<u32>)
        requires
            old(self).wf(),
            old(self).indices_below(freqs@.len() as int),
        ensures
            final(self).wf(),
            forall|k: Seq<char>| #[trigger]
                final(self).postings(k) == by_frequency(old(self).postings(k), freqs@),
        decreases *old(self),
    {
        let ghost before = *self;
        proof {
            let e = Seq::<char>::empty();
            assert(before.postings(e) == before.entry_indices@);
            assert forall|i: int| 0 <= i < before.entry_indices@.len() implies (
            #[trigger] before.entry_indices@[i]) < freqs@.len() by {
                assert(before.postings(e)[i] < freqs@.len());
            }
            lemma_by_frequency_once(before.entry_indices@, freqs@);
        }
        self.entry_indices = sorted_list(&self.entry_indices, freqs);
        let ghost head = self.entry_indices@;
        let mut at: usize = 0;
        while at < self.children.len()
            invariant
                before == *old(self),
                before.wf(),
                before.indices_below(freqs@.len() as int),
                at <= self.children@.len() == before.children@.len(),
                self.entry_indices@ == head,
                head == by_frequency(before.entry_indices@, freqs@),
                head.no_duplicates(),
                forall|i: int|
                    at <= i < self.children@.len() ==> (#[trigger] self.children@[i])
                        == before.children@[i],
                forall|i: int|
                    0 <= i < at ==> {
                        &&& (#[trigger] self.children@[i]).label == before.children@[i].label
                        &&& self.children@[i].node.wf()
                        &&& forall|k: Seq<char>| #[trigger]
                            self.children@[i].node.postings(k) == by_frequency(
                                before.children@[i].node.postings(k),
                                freqs@,
                            )
                    },
            decreases before.children@.len() - at,
        {
            let ghost now = self.children@;
            proof {
                let child = before.children@[at as int].node;
                let c = before.children@[at as int].label;
                assert(decreases_to!(before => before.children));
                assert(decreases_to!(before.children => before.children@));
                assert(decreases_to!(before.children@ => before.children@[at as int]));
                assert(decreases_to!(before => child));
                assert(before.is_edge(at as int, c));
                before.lemma_child(at as int, c);
                assert(now[at as int] == before.children@[at as int]);
                assert forall|key: Seq<char>, i: int|
                    0 <= i < child.postings(key).len() implies #[trigger] child.postings(key)[i]
                    < freqs@.len() by {
                    let full = seq![c] + key;
                    assert(full.drop_first() =~= key);
                    assert(before.postings(full) == child.postings(key));
                    assert(before.postings(full)[i] < freqs@.len());
                }
            }
            let edge = &mut self.children[at];
            edge.node.sort_all(freqs);
            proof {
                assert forall|i: int| 0 <= i < now.len() && i != at implies (
                #[trigger] self.children@[i]) == now[i] by {}
            }
            at = at + 1;
        }
        proof {
            let after = *self;
            assert forall|i: int, j: int| 0 <= i < j < after.children@.len() implies (
            #[trigger] after.children@[i]).label != (#[trigger] after.children@[j]).label by {
                assert(before.children@[i].label != before.children@[j].label);
            }
            assert(after.wf());
            assert forall|k: Seq<char>| #[trigger] after.postings(k) == by_frequency(
                before.postings(k),
                freqs@,
            ) by {
                if k.len() == 0 {
                    assert(before.postings(k) == before.entry_indices@);
                } else {
                    let c = k[0];
                    if exists|i: int| before.is_edge(i, c) {
                        let i = choose|i: int| before.is_edge(i, c);
                        assert(after.children@[i].label == before.children@[i].label);
                        assert(after.is_edge(i, c));
                        before.lemma_child(i, c);
                        after.lemma_child(i, c);
                        assert(after.children@[i].node.postings(k.drop_first()) == by_frequency(
                            before.children@[i].node.postings(k.drop_first()),
                            freqs@,
                        ));
                    } else {
                        assert forall|i: int| !after.is_edge(i, c) by {
                            assert(!before.is_edge(i, c));
                            if 0 <= i < after.children@.len() {
                                assert(after.children@[i].label == before.children@[i].label);
                            }
                        }
                        assert(by_frequency(Seq::<usize>::empty(), freqs@) =~= Seq::empty());
                    }
                }
            }
        }
    }
}

/// The posting lists of `keys`, one after the other.
pub open spec fn gathered(node: TrieNode, keys: Seq<Seq<char>>) -> Seq<usize>
    decreases keys.len(),
{
    if keys.len() == 0 {
        Seq::empty()
    } else {
        gathered(node, keys.drop_last()) + node.postings(keys.last())
    }
}

/// `keys` names every reading below `node` that has postings, none twice.
pub open spec fn lists_readings(node: TrieNode, keys: Seq<Seq<char>>) -> bool {
    &&& keys.no_duplicates()
    &&& forall|key: Seq<char>| #[trigger] node.postings(key).len() > 0 ==> keys.contains(key)
}

/// `key` with `c` in front.
spec fn prefixed(c: char, keys: Seq<Seq<char>>) -> Seq<Seq<char>> {
    keys.map_values(|k: Seq<char>| seq![c] + k)
}

proof fn lemma_gathered_add(node: TrieNode, a: Seq<Seq<char>>, b: Seq<Seq<char>>)
    ensures
        gathered(node, a + b) == gathered(node, a) + gathered(node, b),
    decreases b.len(),
{
    if b.len() == 0 {
        assert(a + b =~= a);
        assert(gathered(node, a) + gathered(node, b) =~= gathered(node, a));
    } else {
        lemma_gathered_add(node, a, b.drop_last());
        assert((a + b).drop_last() =~= a + b.drop_last());
        assert((a + b).last() == b.last());
        assert(gathered(node, a + b) =~= gathered(node, a) + gathered(node, b));
    }
}

proof fn lemma_gathered_prefixed(node: TrieNode, at: int, keys: Seq<Seq<char>>)
    requires
        node.wf(),
        0 <= at < node.children@.len(),
    ensures
        gathered(node, prefixed(node.children@[at].label, keys)) == gathered(
            node.children@[at].node,
            keys,
        ),
    decreases keys.len(),
{
    let c = node.children@[at].label;
    let long = prefixed(c, keys);
    if keys.len() > 0 {
        lemma_gathered_prefixed(node, at, keys.drop_last());
        assert(long.drop_last() =~= prefixed(c, keys.drop_last()));
        let last = seq![c] + keys.last();
        assert(long.last() == last);
        assert(last.drop_first() =~= keys.last());
        assert(node.is_edge(at, c));
        node.lemma_child(at, c);
        assert(node.postings(last) == node.children@[at].node.postings(keys.last()));
    }
}

impl TrieNode {
    /// Appends every posting list of this subtree to `out` and hands back the
    /// readings in the order in which their lists were appended.
    fn collect_all(&self, out: &mut Vec<usize>) -> (keys: Ghost<Seq<Seq<char>>>)
        requires
            self.wf(),
        ensures
            lists_readings(*self, keys@),
            final(out)@ == old(out)@ + gathered(*self, keys@),
        decreases *self,
    {
        let ghost before = out@;
        let ghost mut keys: Seq<Seq<char>> = seq![Seq::empty()];
        append_all(out, &self.entry_indices);
        proof {
            assert(gathered(*self, keys.drop_last()) =~= Seq::empty());
            assert(gathered(*self, keys) =~= self.entry_indices@);
            assert(out@ =~= before + gathered(*self, keys));
        }
        let mut at: usize = 0;
        while at < self.children.len()
            invariant
                self.wf(),
                at <= self.children@.len(),
                out@ == before + gathered(*self, keys),
                keys.no_duplicates(),
                keys.contains(Seq::<char>::empty()),
                forall|k: Seq<char>| #[trigger]
                    keys.contains(k) && k.len() > 0 ==> exists|i: int|
                        0 <= i < at && self.is_edge(i, k[0]),
                forall|i: int, k: Seq<char>|
                    0 <= i < at && k.len() > 0 && #[trigger] self.is_edge(i, k[0])
                        && #[trigger] self.postings(k).len() > 0 ==> keys.contains(k),
            decreases self.children@.len() - at,
        {
            proof {
                assert(decreases_to!(*self => self.children));
                assert(decreases_to!(self.children => self.children@));
                assert(decreases_to!(self.children@ => self.children@[at as int]));
                assert(decreases_to!(*self => self.children@[at as int].node));
            }
            let more: Ghost<Seq<Seq<char>>> = self.children[at].node.collect_all(out);
            proof {
                let c = self.children@[at as int].label;
                let child = self.children@[at as int].node;
                let long = prefixed(c, more@);
                let old_keys = keys;
                lemma_gathered_prefixed(*self, at as int, more@);
                lemma_gathered_add(*self, keys, long);
                keys = keys + long;
                assert(out@ =~= before + gathered(*self, keys));
                assert(self.is_edge(at as int, c));
                self.lemma_child(at as int, c);
                assert forall|i: int, j: int|
                    0 <= i < keys.len() && 0 <= j < keys.len() && i != j implies keys[i]
                    != keys[j] by {
                    let n = old_keys.len() as int;
                    if i < n && j < n {
                    } else if i >= n && j >= n {
                        assert(keys[i] == seq![c] + more@[i - n]);
                        assert(keys[j] == seq![c] + more@[j - n]);
                        if keys[i] == keys[j] {
                            assert(keys[i].drop_first() =~= more@[i - n]);
                            assert(keys[j].drop_first() =~= more@[j - n]);
                        }
                    } else {
                        let a = if i < n { i } else { j };
                        let b = if i < n { j } else { i };
                        assert(keys[b] == seq![c] + more@[b - n]);
                        assert(keys[b][0] == c);
                        assert(old_keys.contains(old_keys[a]));
                        if keys[a] == keys[b] {
                            assert(exists|m: int| 0 <= m < at && self.is_edge(m, keys[a][0]));
                            let m = choose|m: int| 0 <= m < at && self.is_edge(m, keys[a][0]);
                            assert(self.children@[m].label != self.children@[at as int].label);
                        }
                    }
                }
                assert forall|k: Seq<char>| #[trigger]
                    keys.contains(k) && k.len() > 0 implies exists|i: int|
                    0 <= i < at + 1 && self.is_edge(i, k[0]) by {
                    let w = choose|w: int| 0 <= w < keys.len() && keys[w] == k;
                    if w < old_keys.len() {
                        assert(old_keys[w] == k);
                        assert(old_keys.contains(k));
                        let i = choose|i: int| 0 <= i < at && self.is_edge(i, k[0]);
                        assert(0 <= i < at + 1 && self.is_edge(i, k[0]));
                    } else {
                        assert(k == seq![c] + more@[w - old_keys.len()]);
                        assert(self.is_edge(at as int, k[0]));
                    }
                }
                assert forall|i: int, k: Seq<char>|
                    0 <= i < at + 1 && k.len() > 0 && #[trigger] self.is_edge(i, k[0])
                        && #[trigger] self.postings(k).len() > 0 implies keys.contains(k) by {
                    if i < at {
                        assert(old_keys.contains(k));
                        let w = choose|w: int| 0 <= w < old_keys.len() && old_keys[w] == k;
                        assert(keys[w] == k);
                    } else {
                        let rest = k.drop_first();
                        assert(self.postings(k) == child.postings(rest));
                        assert(more@.contains(rest));
                        let w = choose|w: int| 0 <= w < more@.len() && more@[w] == rest;
                        assert(long[w] == seq![c] + rest);
                        assert(seq![c] + rest =~= k);
                        assert(keys[old_keys.len() + w] == k);
                    }
                }
                assert(keys.contains(Seq::<char>::empty())) by {
                    let e = Seq::<char>::empty();
                    let w = choose|w: int| 0 <= w < old_keys.len() && old_keys[w] == e;
                    assert(keys[w] == e);
                }
            }
            at = at + 1;
        }
        proof {
            assert forall|key: Seq<char>| #[trigger]
                self.postings(key).len() > 0 implies keys.contains(key) by {
                if key.len() == 0 {
                    assert(key =~= Seq::empty());
                } else {
                    assert(self.child(key[0]) is Some);
                    let i = choose|i: int| self.is_edge(i, key[0]);
                    assert(self.is_edge(i, key[0]));
                }
            }
        }
        Ghost(keys)
    }
}

/// Appends a copy of `more` to `out`.
fn append_all(out: &mut Vec<usize>, more: &Vec<usize>)
    ensures
        final(out)@ == old(out)@ + more@,
{
    let ghost before = out@;
    let mut i: usize = 0;
    while i < more.len()
        invariant
            i <= more@.len(),
            out@ == before + more@.take(i as int),
        decreases more@.len() - i,
    {
        out.push(more[i]);
        i = i + 1;
        assert(out@ =~= before + more@.take(i as int));
    }
    assert(more@.take(i as int) =~= more@);
}

/// The prefixes of `input` with up to `n` characters that have postings, from
/// the shortest, each with its length and its posting list.
pub open spec fn prefix_hits(trie: Trie, input: Seq<char>, n: int) -> Seq<(int, Seq<usize>)>
    decreases n,
{
    if n <= 0 {
        Seq::empty()
    } else {
        let list = trie.postings(input.take(n));
        let shorter = prefix_hits(trie, input, n - 1);
        if list.len() > 0 {
            shorter.push((n, list))
        } else {
            shorter
        }
    }
}

/// The model of a list of prefix hits.
pub open spec fn hits_view(hits: Seq<(usize, Vec<usize>)>) -> Seq<(int, Seq<usize>)> {
    hits.map_values(|h: (usize, Vec<usize>)| (h.0 as int, h.1@))
}

/// Trie from readings to posting lists.
pub struct Trie {
    root: TrieNode,
}

impl Trie {
    /// The posting list of a reading.
    pub closed spec fn postings(self, key: Seq<char>) -> Seq<usize> {
        self.root.postings(key)
    }

    /// Structural well-formedness.
    pub closed spec fn wf(self) -> bool {
        self.root.wf()
    }

    /// The node at the root.
    pub closed spec fn top(self) -> TrieNode {
        self.root
    }

    /// An empty trie: every reading has an empty posting list.
    pub fn new() -> (trie: Trie)
        ensures
            trie.wf(),
            forall|key: Seq<char>| #[trigger] trie.postings(key) == Seq::<usize>::empty(),
    {
        Trie { root: TrieNode::new() }
    }

    /// Puts an entry index at the end of the posting list of `reading`, unless
    /// it is there already.
    pub fn insert(&mut self, reading: &str, entry_idx: usize)
        requires
            old(self).wf(),
        ensures
            final(self).wf(),
            forall|key: Seq<char>| #[trigger]
                final(self).postings(key) == (if key == reading@ {
                    with_index(old(self).postings(key), entry_idx)
                } else {
                    old(self).postings(key)
                }),
    {
        let key: Vec<char> = chars_of(reading);
        assert(key@.skip(0) =~= reading@);
        self.root.insert_at(&key, 0, entry_idx);
    }

    /// Takes an entry index out of the posting list of `reading`.
    pub fn remove(&mut self, reading: &str, entry_idx: usize)
        requires
            old(self).wf(),
        ensures
            final(self).wf(),
            forall|key: Seq<char>| #[trigger]
                final(self).postings(key) == (if key == reading@ {
                    without_index(old(self).postings(key), entry_idx)
                } else {
                    old(self).postings(key)
                }),
    {
        let key: Vec<char> = chars_of(reading);
        assert(key@.skip(0) =~= reading@);
        self.root.remove_at(&key, 0, entry_idx);
    }

    /// Orders every posting list by descending frequency; entries with equal
    /// frequency keep their order.
    pub fn sort_by_freq(&mut self, freqs: &Vec<u32>)
        requires
            old(self).wf(),
            forall|key: Seq<char>, i: int|
                0 <= i < old(self).postings(key).len() ==> #[trigger] old(self).postings(key)[i]
                    < freqs@.len(),
        ensures
            final(self).wf(),
            forall|key: Seq<char>| #[trigger]
                final(self).postings(key) == by_frequency(old(self).postings(key), freqs@),
    {
        proof {
            assert forall|key: Seq<char>, i: int|
                0 <= i < self.root.postings(key).len() implies #[trigger] self.root.postings(
                key,
            )[i] < freqs@.len() by {
                assert(self.postings(key)[i] < freqs@.len());
            }
        }
        self.root.sort_all(freqs);
    }

    /// Orders the posting list of one reading by descending frequency.
    pub fn resort_node(&mut self, reading: &str, freqs: &Vec<u32>)
        requires
            old(self).wf(),
            forall|i: int|
                0 <= i < old(self).postings(reading@).len() ==> (
                #[trigger] old(self).postings(reading@)[i]) < freqs@.len(),
        ensures
            final(self).wf(),
            forall|key: Seq<char>| #[trigger]
                final(self).postings(key) == (if key == reading@ {
                    by_frequency(old(self).postings(key), freqs@)
                } else {
                    old(self).postings(key)
                }),
    {
        let key: Vec<char> = chars_of(reading);
        assert(key@.skip(0) =~= reading@);
        proof {
            assert forall|i: int| 0 <= i < self.root.postings(reading@).len() implies (
            #[trigger] self.root.postings(reading@)[i]) < freqs@.len() by {
                assert(self.postings(reading@)[i] < freqs@.len());
            }
        }
        self.root.sort_at(&key, 0, freqs);
    }

    /// The node that `key` leads to, if there is one.
    fn node_at(&self, key: &Vec<char>) -> (found: Option<&TrieNode>)
        requires
            self.wf(),
        ensures
            match found {
                Some(n) => n.wf() && forall|rest: Seq<char>| #[trigger]
                    n.postings(rest) == self.postings(key@ + rest),
                None => forall|rest: Seq<char>|
                    (#[trigger] self.postings(key@ + rest)).len() == 0,
            },
    {
        let mut node: &TrieNode = &self.root;
        let mut i: usize = 0;
        proof {
            assert forall|rest: Seq<char>| #[trigger] node.postings(rest) == self.postings(
                key@.take(0) + rest,
            ) by {
                assert(key@.take(0) + rest =~= rest);
            }
        }
        while i < key.len()
            invariant
                self.wf(),
                node.wf(),
                i <= key@.len(),
                forall|rest: Seq<char>| #[trigger]
                    node.postings(rest) == self.postings(key@.take(i as int) + rest),
            decreases key@.len() - i,
        {
            let at: usize = node.find(key[i]);
            if at == node.children.len() {
                proof {
                    assert forall|rest: Seq<char>| (#[trigger] self.postings(key@ + rest)).len()
                        == 0 by {
                        let tail = key@.skip(i as int) + rest;
                        assert(key@ + rest =~= key@.take(i as int) + tail);
                        assert(tail[0] == key@[i as int]);
                        assert(node.postings(tail) =~= Seq::empty());
                    }
                }
                return None;
            }
            let ghost above = *node;
            let ghost c = key@[i as int];
            node = &node.children[at].node;
            i = i + 1;
            proof {
                assert forall|rest: Seq<char>| #[trigger] node.postings(rest) == self.postings(
                    key@.take(i as int) + rest,
                ) by {
                    let full = seq![c] + rest;
                    assert(full.drop_first() =~= rest);
                    assert(above.postings(full) == node.postings(rest));
                    assert(key@.take(i as int) + rest =~= key@.take(i - 1) + full);
                }
            }
        }
        assert(key@.take(i as int) =~= key@);
        Some(node)
    }

    /// The posting list of exactly this reading.
    pub fn exact_lookup(&self, reading: &str) -> (list: &[usize])
        requires
            self.wf(),
        ensures
            list@ == self.postings(reading@),
    {
        let key: Vec<char> = chars_of(reading);
        assert(reading@ + Seq::<char>::empty() =~= reading@);
        match self.node_at(&key) {
            Some(n) => {
                assert(n.postings(Seq::<char>::empty()) == n.entry_indices@);
                n.entry_indices.as_slice()
            },
            None => {
                assert(self.postings(reading@).len() == 0);
                let none: &[usize] = &[];
                assert(none@ =~= self.postings(reading@));
                none
            },
        }
    }

    /// The prefixes of `input` that are readings with postings, from the
    /// shortest, each with its length in characters and its posting list.
    pub fn common_prefix_search(&self, input: &str) -> (hits: Vec<(usize, Vec<usize>)>)
        requires
            self.wf(),
        ensures
            hits_view(hits@) == prefix_hits(*self, input@, input@.len() as int),
    {
        let key: Vec<char> = chars_of(input);
        assert(key@.skip(0) =~= input@);
        self.prefixes_from(&key, 0)
    }

    /// [`Trie::common_prefix_search`] on the characters from `from` on.
    pub fn prefixes_from(&self, key: &Vec<char>, from: usize) -> (hits: Vec<(usize, Vec<usize>)>)
        requires
            self.wf(),
            from <= key@.len(),
        ensures
            hits_view(hits@) == prefix_hits(
                *self,
                key@.skip(from as int),
                key@.len() - from,
            ),
    {
        let ghost input = key@.skip(from as int);
        let mut hits: Vec<(usize, Vec<usize>)> = Vec::new();
        let mut node: &TrieNode = &self.root;
        let mut n: usize = 0;
        proof {
            assert forall|rest: Seq<char>| #[trigger] node.postings(rest) == self.postings(
                input.take(0) + rest,
            ) by {
                assert(input.take(0) + rest =~= rest);
            }
            assert(hits_view(hits@) =~= Seq::empty());
        }
        while n < key.len() - from
            invariant
                self.wf(),
                node.wf(),
                from <= key@.len(),
                input == key@.skip(from as int),
                n <= input.len(),
                forall|rest: Seq<char>| #[trigger]
                    node.postings(rest) == self.postings(input.take(n as int) + rest),
                hits_view(hits@) == prefix_hits(*self, input, n as int),
            decreases input.len() - n,
        {
            let ghost c = input[n as int];
            let at: usize = node.find(key[from + n]);
            if at == node.children.len() {
                proof {
                    assert forall|m: int| n < m <= input.len() implies (
                    #[trigger] self.postings(input.take(m))).len() == 0 by {
                        let tail = input.subrange(n as int, m);
                        assert(input.take(m) =~= input.take(n as int) + tail);
                        assert(tail[0] == c);
                        assert(node.postings(tail) =~= Seq::empty());
                    }
                    lemma_no_more_hits(*self, input, n as int, input.len() as int);
                }
                return hits;
            }
            let ghost above = *node;
            let ghost before = hits@;
            node = &node.children[at].node;
            n = n + 1;
            proof {
                assert forall|rest: Seq<char>| #[trigger] node.postings(rest) == self.postings(
                    input.take(n as int) + rest,
                ) by {
                    let full = seq![c] + rest;
                    assert(full.drop_first() =~= rest);
                    assert(above.postings(full) == node.postings(rest));
                    assert(input.take(n as int) + rest =~= input.take(n - 1) + full);
                }
                let e = Seq::<char>::empty();
                assert(input.take(n as int) + e =~= input.take(n as int));
                assert(node.postings(e) == node.entry_indices@);
            }
            if node.entry_indices.len() > 0 {
                let mut list: Vec<usize> = Vec::new();
                append_all(&mut list, &node.entry_indices);
                hits.push((n, list));
                proof {
                    assert(list@ =~= node.entry_indices@);
                    assert(hits_view(hits@) =~= hits_view(before).push((n as int, list@)));
                }
            }
        }
        hits
    }

    /// The posting lists of all readings that start with `prefix`, one after
    /// the other, each reading once. The order of the readings is not fixed.
    pub fn prefix_lookup(&self, prefix: &str) -> (list: Vec<usize>)
        requires
            self.wf(),
        ensures
            exists|keys: Seq<Seq<char>>|
                self.lists_extensions(prefix@, keys) && list@ == #[trigger] self.gathered_under(
                    prefix@,
                    keys,
                ),
            forall|idx: usize| #[trigger]
                list@.to_multiset().count(idx) == self.readings_with(prefix@, idx).len(),
    {
        let key: Vec<char> = chars_of(prefix);
        let mut out: Vec<usize> = Vec::new();
        match self.node_at(&key) {
            Some(n) => {
                let keys: Ghost<Seq<Seq<char>>> = n.collect_all(&mut out);
                proof {
                    self.lemma_gathered_under(prefix@, *n, keys@);
                    assert(out@ =~= self.gathered_under(prefix@, keys@));
                    assert forall|rest: Seq<char>| #[trigger]
                        self.postings(prefix@ + rest).len() > 0 implies keys@.contains(rest) by {
                        assert(n.postings(rest) == self.postings(prefix@ + rest));
                    }
                    assert(self.lists_extensions(prefix@, keys@));
                    assert forall|idx: usize| #[trigger]
                        out@.to_multiset().count(idx) == self.readings_with(
                            prefix@,
                            idx,
                        ).len() by {
                        self.law_prefix_lookup_counts(prefix@, keys@, idx);
                    }
                }
            },
            None => {
                proof {
                    let keys = Seq::<Seq<char>>::empty();
                    assert(self.lists_extensions(prefix@, keys));
                    assert(out@ =~= self.gathered_under(prefix@, keys));
                    assert forall|idx: usize| #[trigger]
                        out@.to_multiset().count(idx) == self.readings_with(
                            prefix@,
                            idx,
                        ).len() by {
                        self.law_prefix_lookup_counts(prefix@, keys, idx);
                    }
                }
            },
        }
        out
    }

    /// The readings that start with `prefix` and list the entry.
    pub open spec fn readings_with(self, prefix: Seq<char>, idx: usize) -> Set<Seq<char>> {
        Set::new(|r: Seq<char>| prefix.is_prefix_of(r) && self.postings(r).contains(idx))
    }

    /// The readings among `prefix` continued by each of `keys` that list the entry.
    spec fn readings_among(self, prefix: Seq<char>, keys: Seq<Seq<char>>, idx: usize) -> Set<
        Seq<char>,
    > {
        Set::new(
            |r: Seq<char>|
                prefix.is_prefix_of(r) && keys.contains(r.skip(prefix.len() as int))
                    && self.postings(r).contains(idx),
        )
    }

    /// No posting list holds an entry twice.
    pub proof fn law_entry_is_listed_once(self, key: Seq<char>)
        requires
            self.wf(),
        ensures
            self.postings(key).no_duplicates(),
    {
        lemma_listed_once(self.root, key);
    }

    proof fn lemma_counts_among(self, prefix: Seq<char>, keys: Seq<Seq<char>>, idx: usize)
        requires
            self.wf(),
            keys.no_duplicates(),
        ensures
            self.readings_among(prefix, keys, idx).finite(),
            self.gathered_under(prefix, keys).to_multiset().count(idx) == self.readings_among(
                prefix,
                keys,
                idx,
            ).len(),
        decreases keys.len(),
    {
        broadcast use vstd::multiset::group_multiset_axioms;

        let found = self.readings_among(prefix, keys, idx);
        if keys.len() == 0 {
            assert(found =~= Set::empty());
            assert(self.gathered_under(prefix, keys) =~= Seq::empty());
            vstd::seq_lib::to_multiset_contains(self.gathered_under(prefix, keys), idx);
        } else {
            let fewer = keys.drop_last();
            let r = prefix + keys.last();
            let list = self.postings(r);
            self.lemma_counts_among(prefix, fewer, idx);
            self.law_entry_is_listed_once(r);
            vstd::seq_lib::lemma_multiset_commutative(self.gathered_under(prefix, fewer), list);
            list.lemma_multiset_has_no_duplicates();
            vstd::seq_lib::to_multiset_contains(list, idx);
            assert(r.skip(prefix.len() as int) =~= keys.last());
            let before = self.readings_among(prefix, fewer, idx);
            assert(!before.contains(r)) by {
                if fewer.contains(keys.last()) {
                    let w = choose|w: int| 0 <= w < fewer.len() && fewer[w] == keys.last();
                    assert(keys[w] == keys[keys.len() - 1]);
                }
            }
            assert forall|s: Seq<char>| #[trigger] found.contains(s) <==> (before.contains(s) || (s
                == r && list.contains(idx))) by {
                let rest = s.skip(prefix.len() as int);
                if prefix.is_prefix_of(s) {
                    assert(s =~= prefix + rest);
                    if keys.contains(rest) {
                        let w = choose|w: int| 0 <= w < keys.len() && keys[w] == rest;
                        if w < fewer.len() {
                            assert(fewer[w] == rest);
                        }
                    }
                    if fewer.contains(rest) {
                        let w = choose|w: int| 0 <= w < fewer.len() && fewer[w] == rest;
                        assert(keys[w] == rest);
                    }
                }
                assert(keys[keys.len() - 1] == keys.last());
                assert(prefix.is_prefix_of(r));
            }
            if list.contains(idx) {
                assert(found =~= before.insert(r));
            } else {
                assert(found =~= before);
            }
        }
    }

    /// An entry comes out of a search by prefix as often as there are readings
    /// under the prefix that list it. Under the empty prefix every entry comes out.
    pub proof fn law_prefix_lookup_counts(
        self,
        prefix: Seq<char>,
        keys: Seq<Seq<char>>,
        idx: usize,
    )
        requires
            self.wf(),
            self.lists_extensions(prefix, keys),
        ensures
            self.readings_with(prefix, idx).finite(),
            self.gathered_under(prefix, keys).to_multiset().count(idx) == self.readings_with(
                prefix,
                idx,
            ).len(),
            forall|r: Seq<char>| #[trigger]
                self.postings(r).contains(idx) && (prefix.len() == 0 || prefix.is_prefix_of(r))
                    ==> self.gathered_under(prefix, keys).contains(idx),
    {
        self.lemma_counts_among(prefix, keys, idx);
        assert forall|r: Seq<char>| #[trigger]
            self.readings_with(prefix, idx).contains(r) implies keys.contains(
            r.skip(prefix.len() as int),
        ) by {
            let rest = r.skip(prefix.len() as int);
            assert(prefix + rest =~= r);
            let w = choose|w: int| 0 <= w < self.postings(r).len() && self.postings(r)[w] == idx;
            assert(self.postings(prefix + rest).len() > 0);
        }
        assert(self.readings_with(prefix, idx) =~= self.readings_among(prefix, keys, idx));
        assert forall|r: Seq<char>| #[trigger]
            self.postings(r).contains(idx) && (prefix.len() == 0 || prefix.is_prefix_of(
                r,
            )) implies self.gathered_under(prefix, keys).contains(idx) by {
            assert(prefix.is_prefix_of(r));
            let found = self.readings_with(prefix, idx);
            assert(found.contains(r));
            if found.len() == 0 {
                found.lemma_len0_is_empty();
            }
            vstd::seq_lib::to_multiset_contains(self.gathered_under(prefix, keys), idx);
        }
    }

    /// `keys` names, none twice, the continuations of `prefix` that make a
    /// reading with postings.
    pub open spec fn lists_extensions(self, prefix: Seq<char>, keys: Seq<Seq<char>>) -> bool {
        &&& keys.no_duplicates()
        &&& forall|rest: Seq<char>| #[trigger]
            self.postings(prefix + rest).len() > 0 ==> keys.contains(rest)
    }

    /// The posting lists of `prefix` continued by each of `keys`, in order.
    pub open spec fn gathered_under(self, prefix: Seq<char>, keys: Seq<Seq<char>>) -> Seq<usize>
        decreases keys.len(),
    {
        if keys.len() == 0 {
            Seq::empty()
        } else {
            self.gathered_under(prefix, keys.drop_last()) + self.postings(prefix + keys.last())
        }
    }

    proof fn lemma_gathered_under(self, prefix: Seq<char>, node: TrieNode, keys: Seq<Seq<char>>)
        requires
            forall|rest: Seq<char>| #[trigger]
                node.postings(rest) == self.postings(prefix + rest),
        ensures
            self.gathered_under(prefix, keys) == gathered(node, keys),
        decreases keys.len(),
    {
        if keys.len() > 0 {
            self.lemma_gathered_under(prefix, node, keys.drop_last());
            assert(node.postings(keys.last()) == self.postings(prefix + keys.last()));
        }
    }
}

proof fn lemma_no_more_hits(trie: Trie, input: Seq<char>, n: int, m: int)
    requires
        0 <= n <= m <= input.len(),
        forall|k: int| n < k <= m ==> (#[trigger] trie.postings(input.take(k))).len() == 0,
    ensures
        prefix_hits(trie, input, m) == prefix_hits(trie, input, n),
    decreases m - n,
{
    if n < m {
        lemma_no_more_hits(trie, input, n, m - 1);
        assert(trie.postings(input.take(m)).len() == 0);
    }
}

/// An entry is put into a list once, at its end, and taken out of it wholly; the others
/// stay.
pub proof fn law_lists_hold_what_was_put(list: Seq<usize>, idx: usize, other: usize)
    ensures
        with_index(list, idx).contains(idx),
        list.contains(idx) ==> with_index(list, idx) == list,
        !list.contains(idx) ==> with_index(list, idx) == list.push(idx),
        !without_index(list, idx).contains(idx),
        other != idx ==> (without_index(list, idx).contains(other) <==> list.contains(other)),
{
    if !list.contains(idx) {
        assert(list.push(idx)[list.len() as int] == idx);
    }
    let left = without_index(list, idx);
    if left.contains(idx) {
        let w = choose|w: int| 0 <= w < left.len() && left[w] == idx;
        list.lemma_filter_pred(other_than(idx), w);
    }
    if other != idx {
        if list.contains(other) {
            let w = choose|w: int| 0 <= w < list.len() && list[w] == other;
            list.lemma_filter_contains(other_than(idx), w);
        }
        if left.contains(other) {
            lemma_left_over(list, idx, other);
        }
    }
}

proof fn lemma_left_over(list: Seq<usize>, idx: usize, other: usize)
    requires
        without_index(list, idx).contains(other),
    ensures
        list.contains(other),
    decreases list.len(),
{
    reveal(Seq::filter);
    if list.len() > 0 {
        let rest = list.drop_last();
        let before = without_index(rest, idx);
        let left = without_index(list, idx);
        let w = choose|w: int| 0 <= w < left.len() && left[w] == other;
        if w < before.len() {
            assert(before[w] == other);
            lemma_left_over(rest, idx, other);
            let v = choose|v: int| 0 <= v < rest.len() && rest[v] == other;
            assert(list[v] == other);
        } else {
            assert(list[list.len() - 1] == other);
        }
    }
}

/// A list by frequency holds the same entries, the most frequent first; equally frequent
/// ones keep their order.
pub proof fn law_lists_by_frequency(list: Seq<usize>, freqs: Seq<u32>, i: int, j: int)
    ensures
        by_frequency(list, freqs).len() == list.len(),
        0 <= i < list.len() ==> by_frequency(list, freqs).contains(list[i]),
        0 <= i < j < list.len() ==> freqs[by_frequency(list, freqs)[i] as int]
            >= freqs[by_frequency(list, freqs)[j] as int],
{
    let keys = posting_keys(list, freqs);
    let order = rank::ranking(keys);
    rank::lemma_ranking(keys);
    if 0 <= i < list.len() {
        assert(order.contains(i));
        let w = choose|w: int| 0 <= w < order.len() && order[w] == i;
        assert(by_frequency(list, freqs)[w] == list[i]);
    }
    if 0 <= i < j < list.len() {
        assert(rank::ranks_before(keys, order[i], order[j]));
    }
}

/// A search along a text finds every beginning that was put in, with its entries, the
/// shorter ones first.
pub proof fn law_every_beginning_is_found(trie: Trie, input: Seq<char>, n: int, k: int)
    requires
        1 <= k <= n,
    ensures
        trie.postings(input.take(k)).len() > 0 ==> prefix_hits(trie, input, n).contains(
            (k, trie.postings(input.take(k))),
        ),
        forall|i: int|
            0 <= i < prefix_hits(trie, input, n).len() ==> {
                let h = #[trigger] prefix_hits(trie, input, n)[i];
                1 <= h.0 <= n && h.1 == trie.postings(input.take(h.0)) && h.1.len() > 0
            },
        forall|i: int, j: int|
            0 <= i < j < prefix_hits(trie, input, n).len() ==> (#[trigger] prefix_hits(
                trie,
                input,
                n,
            )[i]).0 < (#[trigger] prefix_hits(trie, input, n)[j]).0,
    decreases n,
{
    let before = prefix_hits(trie, input, n - 1);
    let out = prefix_hits(trie, input, n);
    if n > 1 {
        law_every_beginning_is_found(
            trie,
            input,
            n - 1,
            if k < n {
                k
            } else {
                1
            },
        );
    }
    assert forall|i: int| 0 <= i < out.len() implies ({
        let h = #[trigger] out[i];
        1 <= h.0 <= n && h.1 == trie.postings(input.take(h.0)) && h.1.len() > 0
    }) by {
        if i < before.len() {
            assert(out[i] == before[i]);
        }
    }
    assert forall|i: int, j: int| 0 <= i < j < out.len() implies (#[trigger] out[i]).0 < (
    #[trigger] out[j]).0 by {
        assert(out[i] == before[i]);
        if j < before.len() {
            assert(out[j] == before[j]);
        }
    }
    if trie.postings(input.take(k)).len() > 0 {
        let h = (k, trie.postings(input.take(k)));
        if k == n {
            assert(out[before.len() as int] == h);
        } else {
            let w = choose|w: int| 0 <= w < before.len() && before[w] == h;
            assert(out[w] == h);
        }
    }
}

} // verus!
