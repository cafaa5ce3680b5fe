//! A prefix tree keyed by codepoint sequences. A query tells a stored key
//! from the beginning of one, and both from a sequence that leads nowhere.

use vstd::prelude::*;

verus! {

broadcast use vstd::std_specs::vec::group_vec_axioms;

/// What a query finds.
#[derive(Debug, PartialEq)]
pub enum TrieMatch<T> {
    /// The key is stored, with this value.
    Match(T),
    /// The key is not stored, but a longer stored key begins with it.
    PartialMatch,
    /// Neither the key nor anything that begins with it is stored.
    NoMatch,
}

/// `b` begins with `a` and is longer.
pub open spec fn is_proper_prefix(a: Seq<u32>, b: Seq<u32>) -> bool {
    a.len() < b.len() && b.subrange(0, a.len() as int) == a
}

/// Some stored key is strictly longer than `key` and begins with it.
pub open spec fn begins_stored_key<V>(stored: Map<Seq<u32>, V>, key: Seq<u32>) -> bool {
    exists|longer: Seq<u32>| #[trigger] stored.contains_key(longer) && is_proper_prefix(key, longer)
}

/// The map that a list of pairs stands for: a later pair replaces an earlier
/// one with the same key.
pub open spec fn pairs_map<T>(pairs: Seq<(Vec<u32>, T)>) -> Map<Seq<u32>, T>
    decreases pairs.len(),
{
    if pairs.len() == 0 {
        Map::empty()
    } else {
        pairs_map(pairs.drop_last()).insert(pairs.last().0@, pairs.last().1)
    }
}

/// The tree: a node holds the value of the key that leads to it, if that
/// key is stored, and a subtree for each codepoint that a longer stored key
/// goes on with.
pub struct Trie<T: Clone> {
    keys: Vec<u32>,
    nodes: Vec<Trie<T>>,
    val: Option<T>,
}

/// Index of the first occurrence of `part` in `keys`.
fn position(keys: &Vec<u32>, part: u32) -> (found: Option<usize>)
    ensures
        match found {
            Some(idx) => idx < keys@.len() && keys@[idx as int] == part,
            None => !keys@.contains(part),
        },
{
    let mut idx: usize = 0;
    while idx < keys.len()
        invariant
            idx <= keys@.len(),
            forall|j: int| 0 <= j < idx ==> keys@[j] != part,
        decreases keys.len() - idx,
    {
        if keys[idx] == part {
            return Some(idx);
        }
        idx += 1;
    }
    None
}

impl<T: Clone> View for Trie<T> {
    type V = Map<Seq<u32>, T>;

    /// The stored keys with their values.
    closed spec fn view(&self) -> Map<Seq<u32>, T> {
        Map::new(|k: Seq<u32>| self.lookup(k) is Some, |k: Seq<u32>| self.lookup(k)->Some_0)
    }
}

impl<T: Clone> Trie<T> {
    /// Every node has as many subtrees as keys, no key twice, and no
    /// subtree without a value somewhere in it.
    pub closed spec fn wf(&self) -> bool
        decreases self,
    {
        &&& self.keys@.len() == self.nodes@.len()
        &&& self.keys@.no_duplicates()
        &&& forall|i: int|
            0 <= i < self.nodes@.len() ==> (#[trigger] self.nodes@[i]).wf()
                && self.nodes@[i].occupied()
    }

    spec fn occupied(&self) -> bool {
        self.val is Some || self.keys@.len() > 0
    }

    spec fn lookup(&self, k: Seq<u32>) -> Option<T>
        decreases k.len(),
    {
        if k.len() == 0 {
            self.val
        } else if self.keys@.contains(k[0]) {
            self.nodes@[self.keys@.index_of(k[0])].lookup(k.drop_first())
        } else {
            None
        }
    }

    /// A lookup that starts with a key of this node goes on in its subtree.
    proof fn lemma_lookup_child(&self, idx: int, rest: Seq<u32>)
        requires
            self.keys@.len() == self.nodes@.len(),
            self.keys@.no_duplicates(),
            0 <= idx < self.keys@.len(),
        ensures
            self.lookup(seq![self.keys@[idx]] + rest) == self.nodes@[idx].lookup(rest),
    {
        let k = seq![self.keys@[idx]] + rest;
        assert(k[0] == self.keys@[idx]);
        assert(k.drop_first() =~= rest);
        assert(self.keys@.contains(k[0]));
    }

    /// A node with a value or a subtree holds a key.
    proof fn lemma_occupied(&self) -> (k: Seq<u32>)
        requires
            self.wf(),
            self.occupied(),
        ensures
            self.lookup(k) is Some,
        decreases self,
    {
        if self.val is Some {
            Seq::empty()
        } else {
            let child = self.nodes@[0];
            assert(child.wf() && child.occupied());
            let rest = child.lemma_occupied();
            self.lemma_lookup_child(0, rest);
            seq![self.keys@[0]] + rest
        }
    }

    /// A node without a value and without subtrees holds no key.
    proof fn lemma_vacant(&self, k: Seq<u32>)
        requires
            !self.occupied(),
        ensures
            self.lookup(k) is None,
    {
        if k.len() > 0 {
            assert(!self.keys@.contains(k[0]));
        }
    }

    fn empty() -> (trie: Self)
        ensures
            trie.wf(),
            !trie.occupied(),
            trie@ == Map::<Seq<u32>, T>::empty(),
    {
        let trie = Trie { keys: Vec::new(), nodes: Vec::new(), val: None };
        proof {
            assert forall|k: Seq<u32>| trie.lookup(k) is None by {
                trie.lemma_vacant(k);
            }
            assert(trie@ =~= Map::<Seq<u32>, T>::empty());
        }
        trie
    }

    /// Stores `value` under the rest of `key` from `from` on, below this node.
    fn insert(&mut self, key: &Vec<u32>, from: usize, value: T)
        requires
            old(self).wf(),
            from <= key@.len(),
        ensures
            final(self).wf(),
            final(self).occupied(),
            forall|s: Seq<u32>|
                #[trigger] final(self).lookup(s) == if s == key@.skip(from as int) {
                    Some(value)
                } else {
                    old(self).lookup(s)
                },
        decreases key@.len() - from,
    {
        let ghost target = key@.skip(from as int);
        if from == key.len() {
            self.val = Some(value);
            proof {
                assert(target =~= Seq::<u32>::empty());
                assert forall|s: Seq<u32>|
                    #[trigger] self.lookup(s) == if s == target {
                        Some(value)
                    } else {
                        old(self).lookup(s)
                    } by {
                    if s.len() == 0 {
                        assert(s =~= target);
                    }
                }
            }
        } else {
            let part = key[from];
            let ghost below = key@.skip(from as int + 1);
            proof {
                assert(target[0] == part);
                assert(target.drop_first() =~= below);
            }
            match position(&self.keys, part) {
                Some(idx) => {
                    let ghost before = self.nodes@[idx as int];
                    assert(before.wf());
                    self.nodes[idx].insert(key, from + 1, value);
                    proof {
                        let after = self.nodes@[idx as int];
                        assert(self.keys@.index_of(part) == idx);
                        assert forall|i: int| 0 <= i < self.nodes@.len() implies (
                        #[trigger] self.nodes@[i]).wf() && self.nodes@[i].occupied() by {
                            if i != idx {
                                assert(self.nodes@[i] == old(self).nodes@[i]);
                            }
                        }
                        assert forall|s: Seq<u32>|
                            #[trigger] self.lookup(s) == if s == target {
                                Some(value)
                            } else {
                                old(self).lookup(s)
                            } by {
                            if s.len() > 0 && s[0] == part {
                                assert(s =~= seq![part] + s.drop_first());
                                assert(target =~= seq![part] + below);
                                assert(self.keys@.contains(part));
                                assert(old(self).keys@.contains(part));
                                assert(self.lookup(s) == after.lookup(s.drop_first()));
                                assert(old(self).lookup(s) == before.lookup(s.drop_first()));
                            } else if s.len() > 0 && self.keys@.contains(s[0]) {
                                let j = self.keys@.index_of(s[0]);
                                assert(self.nodes@[j] == old(self).nodes@[j]);
                            }
                        }
                    }
                },
                None => {
                    let mut child: Trie<T> = Trie::empty();
                    let ghost fresh = child;
                    child.insert(key, from + 1, value);
                    self.keys.push(part);
                    self.nodes.push(child);
                    proof {
                        let last = self.keys@.len() - 1;
                        assert(self.keys@[last] == part);
                        assert(self.keys@ =~= old(self).keys@.push(part));
                        assert(self.keys@.no_duplicates()) by {
                            assert forall|i: int, j: int|
                                0 <= i < self.keys@.len() && 0 <= j < self.keys@.len() && i
                                    != j implies self.keys@[i] != self.keys@[j] by {
                                if i != last && j != last {
                                    assert(old(self).keys@[i] != old(self).keys@[j]);
                                } else if i != last {
                                    assert(old(self).keys@[i] != part);
                                } else {
                                    assert(old(self).keys@[j] != part);
                                }
                            }
                        }
                        assert(self.keys@.index_of(part) == last);
                        assert forall|i: int| 0 <= i < self.nodes@.len() implies (
                        #[trigger] self.nodes@[i]).wf() && self.nodes@[i].occupied() by {
                            if i != last {
                                assert(self.nodes@[i] == old(self).nodes@[i]);
                            }
                        }
                        assert forall|s: Seq<u32>|
                            #[trigger] self.lookup(s) == if s == target {
                                Some(value)
                            } else {
                                old(self).lookup(s)
                            } by {
                            if s.len() > 0 && s[0] == part {
                                fresh.lemma_vacant(s.drop_first());
                                assert(s =~= seq![part] + s.drop_first());
                                assert(target =~= seq![part] + below);
                                assert(self.keys@[last] == part);
                                assert(self.keys@.contains(part));
                                assert(self.lookup(s) == self.nodes@[last].lookup(s.drop_first()));
                                assert(!old(self).keys@.contains(part));
                            } else if s.len() > 0 {
                                if old(self).keys@.contains(s[0]) {
                                    let j = old(self).keys@.index_of(s[0]);
                                    assert(self.keys@[j] == s[0]);
                                    assert(self.keys@.index_of(s[0]) == j);
                                    assert(self.nodes@[j] == old(self).nodes@[j]);
                                } else {
                                    if self.keys@.contains(s[0]) {
                                        let j = self.keys@.index_of(s[0]);
                                        assert(j != last);
                                        assert(old(self).keys@[j] == s[0]);
                                    }
                                }
                            }
                        }
                    }
                },
            }
        }
    }

    /// Builds the trie that holds every pair of the list, in order: of two
    /// pairs with the same key, the later one stays.
    pub fn from_kvs(pairs: Vec<(Vec<u32>, T)>) -> (trie: Self)
        ensures
            trie.wf(),
            trie@ == pairs_map(pairs@),
    {
        let mut root: Trie<T> = Trie::empty();
        let ghost all = pairs@;
        for pair in it: pairs.into_iter()
            invariant
                it.seq() == all,
                root.wf(),
                root@ == pairs_map(all.take(it.index() as int)),
        {
            let ghost before = root;
            let ghost upto = all.take(it.index() + 1);
            let (k, v) = pair;
            root.insert(&k, 0, v);
            proof {
                assert(k@.skip(0) =~= k@);
                assert(upto.drop_last() =~= all.take(it.index() as int));
                assert(upto.last() == (k, v));
                assert(root@ =~= before@.insert(k@, v));
            }
        }
        proof {
            assert(all.take(all.len() as int) =~= all);
        }
        root
    }

    /// Looks `k` up without copying the value found.
    pub fn find(&self, k: &Vec<u32>) -> (found: TrieMatch<&T>)
        requires
            self.wf(),
        ensures
            match found {
                TrieMatch::Match(value) => self@.contains_key(k@) && *value == self@[k@],
                TrieMatch::PartialMatch => !self@.contains_key(k@) && begins_stored_key(self@, k@),
                TrieMatch::NoMatch => !self@.contains_key(k@) && !begins_stored_key(self@, k@),
            },
    {
        let mut node = self;
        let mut i: usize = 0;
        proof {
            assert forall|s: Seq<u32>| #[trigger] node.lookup(s) == self.lookup(k@.take(0) + s) by {
                assert(k@.take(0) + s =~= s);
            }
        }
        while i < k.len()
            invariant
                i <= k@.len(),
                self.wf(),
                node.wf(),
                i > 0 ==> node.occupied(),
                forall|s: Seq<u32>| #[trigger] node.lookup(s) == self.lookup(k@.take(i as int) + s),
            decreases k.len() - i,
        {
            match position(&node.keys, k[i]) {
                Some(idx) => {
                    let child = &node.nodes[idx];
                    proof {
                        assert forall|s: Seq<u32>| #[trigger]
                            child.lookup(s) == self.lookup(k@.take(i as int + 1) + s) by {
                            node.lemma_lookup_child(idx as int, s);
                            assert(k@.take(i as int) + (seq![k@[i as int]] + s) =~= k@.take(
                                i as int + 1,
                            ) + s);
                        }
                    }
                    node = child;
                    i += 1;
                },
                None => {
                    proof {
                        let rest = k@.skip(i as int);
                        assert(k@.take(i as int) + rest =~= k@);
                        assert(rest[0] == k@[i as int]);
                        assert(node.lookup(rest) is None);
                        assert forall|longer: Seq<u32>|
                            is_proper_prefix(k@, longer) implies !#[trigger] self@.contains_key(
                            longer,
                        ) by {
                            let tail = longer.skip(i as int);
                            assert(k@.take(i as int) + tail =~= longer);
                            assert(tail[0] == k@[i as int]) by {
                                assert(longer.subrange(0, k@.len() as int)[i as int] == k@[i as int]);
                            }
                            assert(node.lookup(tail) is None);
                        }
                    }
                    return TrieMatch::NoMatch;
                },
            }
        }
        proof {
            let none = Seq::<u32>::empty();
            assert(k@.take(i as int) + none =~= k@);
            assert(node.lookup(none) == node.val);
            if node.val is None {
                if node.occupied() {
                    let tail = node.lemma_occupied();
                    let longer = k@ + tail;
                    assert(k@.take(i as int) + tail =~= longer);
                    assert(tail.len() > 0);
                    assert(longer.subrange(0, k@.len() as int) =~= k@);
                    assert(self@.contains_key(longer) && is_proper_prefix(k@, longer));
                } else {
                    assert forall|longer: Seq<u32>|
                        is_proper_prefix(k@, longer) implies !#[trigger] self@.contains_key(
                        longer,
                    ) by {
                        let tail = longer.skip(i as int);
                        assert(k@.take(i as int) + tail =~= longer);
                        node.lemma_vacant(tail);
                    }
                }
            }
        }
        match &node.val {
            Some(value) => TrieMatch::Match(value),
            None => if node.keys.len() > 0 {
                TrieMatch::PartialMatch
            } else {
                TrieMatch::NoMatch
            },
        }
    }

    /// Looks `k` up: a copy of the value stored under it, or whether a
    /// longer stored key begins with it.
    pub fn get(&self, k: &Vec<u32>) -> (found: TrieMatch<T>)
        requires
            self.wf(),
        ensures
            match found {
                TrieMatch::Match(value) => self@.contains_key(k@) && cloned(self@[k@], value),
                TrieMatch::PartialMatch => !self@.contains_key(k@) && begins_stored_key(self@, k@),
                TrieMatch::NoMatch => !self@.contains_key(k@) && !begins_stored_key(self@, k@),
            },
    {
        match self.find(k) {
            TrieMatch::Match(value) => TrieMatch::Match(value.clone()),
            TrieMatch::PartialMatch => TrieMatch::PartialMatch,
            TrieMatch::NoMatch => TrieMatch::NoMatch,
        }
    }
}

} // verus!
