//! A mutable prefix trie: a tree of nodes keyed by symbols, where each node
//! optionally carries the value of the symbol sequence that leads to it.

use vstd::prelude::*;
use vstd::seq_lib::*;

verus! {

/// A trie key: a copyable symbol with an executable equality test that agrees
/// with mathematical equality.
pub trait TrieKey: Sized + Copy {
    /// Decides equality of two keys.
    fn key_eq(&self, other: &Self) -> (r: bool)
        ensures
            r == (self == other),
    ;
}

impl TrieKey for char {
    fn key_eq(&self, other: &Self) -> (r: bool)
        ensures
            r == (self == other),
    {
        *self == *other
    }
}

impl TrieKey for u8 {
    fn key_eq(&self, other: &Self) -> (r: bool)
        ensures
            r == (self == other),
    {
        *self == *other
    }
}

impl TrieKey for u32 {
    fn key_eq(&self, other: &Self) -> (r: bool)
        ensures
            r == (self == other),
    {
        *self == *other
    }
}

impl TrieKey for i32 {
    fn key_eq(&self, other: &Self) -> (r: bool)
        ensures
            r == (self == other),
    {
        *self == *other
    }
}

impl TrieKey for usize {
    fn key_eq(&self, other: &Self) -> (r: bool)
        ensures
            r == (self == other),
    {
        *self == *other
    }
}

/// A trie value: any copyable payload.
pub trait TrieVal: Copy {

}

impl<T: Copy> TrieVal for T {

}

/// The errors the trie operations report. All are ordinary result values;
/// no trie operation aborts the process.
#[derive(Debug)]
pub enum TrieError {
    /// A searched-for sequence is not present as a chain of nodes.
    Search(String),
    /// An insertion was asked to store a value under the empty sequence,
    /// which no node can hold.
    Insert(String),
    /// The symbol stream ended while every symbol still matched an existing
    /// entry, so no new dictionary entry could be created.
    Lzw(String),
}

/// A non-empty prefix relation steps down to the tails when the heads agree.
pub proof fn lemma_prefix_step<K>(p: Seq<K>, s: Seq<K>)
    requires
        p.len() > 0,
        s.len() > 0,
        p[0] == s[0],
    ensures
        p.is_prefix_of(s) <==> p.skip(1).is_prefix_of(s.skip(1)),
{
    if p.is_prefix_of(s) {
        assert(p.skip(1) =~= s.skip(1).subrange(0, p.len() - 1)) by {
            assert forall|i: int| 0 <= i < p.len() - 1 implies p.skip(1)[i] == s.skip(1)[i] by {
                assert(p[i + 1] == s.subrange(0, p.len() as int)[i + 1]);
            }
        }
    }
    if p.skip(1).is_prefix_of(s.skip(1)) {
        assert(p.skip(1).len() <= s.skip(1).len());
        assert(p.len() <= s.len());
        assert(p =~= s.subrange(0, p.len() as int)) by {
            assert forall|i: int| 0 <= i < p.len() implies p[i] == s.subrange(
                0,
                p.len() as int,
            )[i] by {
                if i > 0 {
                    assert(p[i] == p.skip(1)[i - 1]);
                    assert(p.skip(1) == s.skip(1).subrange(0, p.skip(1).len() as int));
                    assert(s.skip(1).subrange(0, p.skip(1).len() as int)[i - 1] == s.skip(1)[i
                        - 1]);
                    assert(s.skip(1)[i - 1] == s[i]);
                }
            }
        }
    }
}

/// A non-empty sequence whose head differs is no prefix.
pub proof fn lemma_prefix_first_differs<K>(p: Seq<K>, s: Seq<K>)
    requires
        p.len() > 0,
        s.len() > 0,
        p[0] != s[0],
    ensures
        !p.is_prefix_of(s),
{
    if p.is_prefix_of(s) {
        assert(p[0] == s.subrange(0, p.len() as int)[0]);
    }
}

/// Only the empty sequence prefixes the empty sequence.
pub proof fn lemma_prefix_of_empty<K>(p: Seq<K>)
    ensures
        p.is_prefix_of(Seq::<K>::empty()) <==> p.len() == 0,
{
    if p.len() == 0 {
        assert(p =~= Seq::<K>::empty().subrange(0, 0));
    }
}

/// The empty sequence prefixes everything.
pub proof fn lemma_empty_prefix<K>(s: Seq<K>)
    ensures
        Seq::<K>::empty().is_prefix_of(s),
{
    assert(Seq::<K>::empty() =~= s.subrange(0, 0));
}

/// Every sequence prefixes itself.
pub proof fn lemma_self_prefix<K>(s: Seq<K>)
    ensures
        s.is_prefix_of(s),
{
    assert(s =~= s.subrange(0, s.len() as int));
}

/// A proper prefix extended by the next symbol of the whole is still a
/// prefix.
pub proof fn lemma_prefix_extend<K>(p: Seq<K>, s: Seq<K>)
    requires
        p.is_prefix_of(s),
        p.len() < s.len(),
    ensures
        p.push(s[p.len() as int]).is_prefix_of(s),
{
    assert(p.push(s[p.len() as int]) =~= s.subrange(0, p.len() as int + 1)) by {
        assert forall|i: int| 0 <= i < p.len() implies p.push(s[p.len() as int])[i] == s[i] by {
            assert(p[i] == s.subrange(0, p.len() as int)[i]);
        }
    }
}

/// Non-empty sequences with equal heads and equal tails are equal.
pub proof fn lemma_eq_cons<K>(p: Seq<K>, s: Seq<K>)
    requires
        p.len() > 0,
        s.len() > 0,
        p[0] == s[0],
        p.skip(1) == s.skip(1),
    ensures
        p == s,
{
    assert(p.skip(1).len() == p.len() - 1);
    assert(s.skip(1).len() == s.len() - 1);
    assert(p.len() == s.len());
    assert(p =~= s) by {
        assert forall|i: int| 0 < i < p.len() implies p[i] == s[i] by {
            assert(p.skip(1)[i - 1] == p[i]);
            assert(s.skip(1)[i - 1] == s[i]);
            assert(p.skip(1)[i - 1] == s.skip(1)[i - 1]);
        }
    }
}

/// One node of the trie: the state reached after consuming some prefix of
/// symbols. `key` is the symbol that leads here from the parent (`None` at
/// the root), `value` the payload of the full sequence ending here, and
/// `children` the outgoing edges, at most one per symbol.
pub struct TrieNode<K: TrieKey, V: TrieVal> {
    pub key: Option<K>,
    pub value: Option<V>,
    pub children: Vec<(K, TrieNode<K, V>)>,
}

impl<K: TrieKey, V: TrieVal> TrieNode<K, V> {
    /// The first child stored under key `k`, scanning the edge list in order.
    pub open spec fn assoc(cs: Seq<(K, TrieNode<K, V>)>, k: K) -> Option<TrieNode<K, V>>
        decreases cs.len(),
    {
        if cs.len() == 0 {
            None
        } else if cs[0].0 == k {
            Some(cs[0].1)
        } else {
            Self::assoc(cs.skip(1), k)
        }
    }

    /// The child reached from this node by symbol `k`, if any.
    pub open spec fn spec_child(self, k: K) -> Option<TrieNode<K, V>> {
        Self::assoc(self.children@, k)
    }

    /// The node reached from this node by consuming the symbols of `p` in
    /// order, if every step has a child.
    pub open spec fn node_at(self, p: Seq<K>) -> Option<TrieNode<K, V>>
        decreases p.len(),
    {
        if p.len() == 0 {
            Some(self)
        } else {
            match self.spec_child(p[0]) {
                Some(c) => c.node_at(p.skip(1)),
                None => None,
            }
        }
    }

    /// Whether the sequence `p` leads to a node of this trie.
    pub open spec fn contains_path(self, p: Seq<K>) -> bool {
        self.node_at(p) is Some
    }

    /// The value stored at the node that `p` leads to (`None` also when no
    /// such node exists; `contains_path` tells the two apart).
    pub open spec fn value_at(self, p: Seq<K>) -> Option<V> {
        match self.node_at(p) {
            Some(n) => n.value,
            None => None,
        }
    }

    /// No two edges of one node carry the same symbol.
    pub open spec fn keys_distinct(cs: Seq<(K, TrieNode<K, V>)>) -> bool {
        forall|i: int, j: int| 0 <= i < j < cs.len() ==> cs[i].0 != cs[j].0
    }

    /// The local well-formedness of one node: distinct edge keys, and every
    /// child records the symbol of the edge that leads to it.
    pub open spec fn node_ok(self) -> bool {
        &&& Self::keys_distinct(self.children@)
        &&& forall|i: int|
            0 <= i < self.children@.len() ==> (#[trigger] self.children@[i]).1.key == Some(
                self.children@[i].0,
            )
    }

    /// Well-formedness of the whole (sub)trie: every reachable node is
    /// locally well formed.
    pub open spec fn wf(self) -> bool {
        forall|p: Seq<K>| (#[trigger] self.node_at(p)) is Some ==> self.node_at(p).unwrap().node_ok()
    }

    /// Creates a fresh node with no children.
    pub fn new(key: Option<K>, value: Option<V>) -> (n: TrieNode<K, V>)
        ensures
            n.key == key,
            n.value == value,
            n.children@ == Seq::<(K, TrieNode<K, V>)>::empty(),
            n.wf(),
            forall|p: Seq<K>| #[trigger] n.contains_path(p) <==> p.len() == 0,
    {
        let n = TrieNode { key, value, children: Vec::new() };
        proof {
            n.lemma_childless();
        }
        n
    }

    /// Creates the root node of a trie: no key and no value.
    pub fn new_root() -> (n: TrieNode<K, V>)
        ensures
            n.key is None,
            n.value is None,
            n.children@ == Seq::<(K, TrieNode<K, V>)>::empty(),
            n.wf(),
            forall|p: Seq<K>| #[trigger] n.contains_path(p) <==> p.len() == 0,
    {
        Self::new(None, None)
    }

    /// A node without children contains only the empty path.
    proof fn lemma_childless(self)
        requires
            self.children@.len() == 0,
        ensures
            self.wf(),
            forall|p: Seq<K>| #[trigger] self.contains_path(p) <==> p.len() == 0,
    {
        assert forall|p: Seq<K>| #[trigger] self.contains_path(p) <==> p.len() == 0 by {
            if p.len() == 0 {
                assert(self.node_at(p) == Some(self));
            } else {
                assert(self.spec_child(p[0]) is None);
            }
        }
        assert forall|p: Seq<K>| self.node_at(p) is Some implies self.node_at(
            p,
        ).unwrap().node_ok() by {
            assert(self.contains_path(p));
        }
    }

    /// If the first edge keyed `k` stands at position `j`, the association
    /// lookup returns that edge's child.
    pub(crate) proof fn lemma_assoc_at(cs: Seq<(K, TrieNode<K, V>)>, k: K, j: int)
        requires
            0 <= j < cs.len(),
            cs[j].0 == k,
            forall|i: int| 0 <= i < j ==> (#[trigger] cs[i]).0 != k,
        ensures
            Self::assoc(cs, k) == Some(cs[j].1),
        decreases j,
    {
        if j == 0 {
        } else {
            assert(cs[0].0 != k);
            assert forall|i: int| 0 <= i < j - 1 implies (#[trigger] cs.skip(1)[i]).0 != k by {
                assert(cs.skip(1)[i] == cs[i + 1]);
            }
            assert(cs.skip(1)[j - 1] == cs[j]);
            Self::lemma_assoc_at(cs.skip(1), k, j - 1);
        }
    }

    /// The association lookup fails exactly when no edge carries `k`.
    pub(crate) proof fn lemma_assoc_none(cs: Seq<(K, TrieNode<K, V>)>, k: K)
        ensures
            Self::assoc(cs, k) is None <==> forall|i: int|
                0 <= i < cs.len() ==> (#[trigger] cs[i]).0 != k,
        decreases cs.len(),
    {
        if cs.len() == 0 {
        } else {
            Self::lemma_assoc_none(cs.skip(1), k);
            assert forall|i: int| 0 <= i < cs.skip(1).len() implies cs.skip(1)[i] == cs[i + 1] by {}
            if cs[0].0 == k {
            } else {
                if Self::assoc(cs, k) is None {
                    assert forall|i: int| 0 <= i < cs.len() implies (#[trigger] cs[i]).0 != k by {
                        if i > 0 {
                            assert(cs.skip(1)[i - 1] == cs[i]);
                        }
                    }
                }
            }
        }
    }

    /// Appending an edge leaves every earlier lookup unchanged and serves
    /// exactly the new key where no earlier edge matched.
    proof fn lemma_assoc_push(cs: Seq<(K, TrieNode<K, V>)>, x: (K, TrieNode<K, V>), k: K)
        ensures
            Self::assoc(cs.push(x), k) == (if Self::assoc(cs, k) is Some {
                Self::assoc(cs, k)
            } else if x.0 == k {
                Some(x.1)
            } else {
                None
            }),
        decreases cs.len(),
    {
        if cs.len() == 0 {
            assert(Self::assoc(cs, k) is None);
            assert(cs.push(x)[0] == x);
            assert(cs.push(x).skip(1) =~= Seq::<(K, TrieNode<K, V>)>::empty());
            assert(Self::assoc(cs.push(x).skip(1), k) is None);
        } else {
            assert(cs.push(x)[0] == cs[0]);
            assert(cs.push(x).skip(1) =~= cs.skip(1).push(x));
            Self::lemma_assoc_push(cs.skip(1), x, k);
        }
    }

    /// Replacing the child of the first edge keyed `k0` changes only lookups
    /// of `k0`.
    proof fn lemma_assoc_update(cs: Seq<(K, TrieNode<K, V>)>, j: int, c2: TrieNode<K, V>, k: K)
        requires
            0 <= j < cs.len(),
            forall|i: int| 0 <= i < j ==> (#[trigger] cs[i]).0 != cs[j].0,
        ensures
            Self::assoc(cs.update(j, (cs[j].0, c2)), k) == (if k == cs[j].0 {
                Some(c2)
            } else {
                Self::assoc(cs, k)
            }),
        decreases j,
    {
        let k0 = cs[j].0;
        let cs2 = cs.update(j, (k0, c2));
        if j == 0 {
            assert(cs2[0] == (k0, c2));
            if k != k0 {
                assert(cs2.skip(1) =~= cs.skip(1));
            }
        } else {
            assert(cs2[0] == cs[0]);
            assert(cs[0].0 != k0);
            if cs[0].0 == k {
            } else {
                assert(cs2.skip(1) =~= cs.skip(1).update(j - 1, (cs[j].0, c2)));
                assert(cs.skip(1)[j - 1] == cs[j]);
                assert forall|i: int| 0 <= i < j - 1 implies (#[trigger] cs.skip(1)[i]).0 != cs.skip(
                    1,
                )[j - 1].0 by {
                    assert(cs.skip(1)[i] == cs[i + 1]);
                }
                Self::lemma_assoc_update(cs.skip(1), j - 1, c2, k);
            }
        }
    }

    /// Walking a concatenation walks its parts in turn.
    pub proof fn lemma_node_at_concat(self, a: Seq<K>, b: Seq<K>)
        ensures
            self.node_at(a + b) == (match self.node_at(a) {
                Some(n) => n.node_at(b),
                None => None,
            }),
        decreases a.len(),
    {
        if a.len() == 0 {
            assert(a + b =~= b);
        } else {
            assert((a + b)[0] == a[0]);
            assert((a + b).len() > 0);
            match self.spec_child(a[0]) {
                Some(c) => {
                    assert((a + b).skip(1) =~= a.skip(1) + b);
                    c.lemma_node_at_concat(a.skip(1), b);
                },
                None => {},
            }
        }
    }

    /// A well-formed trie is locally well formed at its root.
    pub proof fn lemma_wf_root(self)
        requires
            self.wf(),
        ensures
            self.node_ok(),
    {
        assert(self.node_at(Seq::<K>::empty()) == Some(self));
    }

    /// Every child of a well-formed trie is well formed.
    pub proof fn lemma_wf_child(self, k: K)
        requires
            self.wf(),
            self.spec_child(k) is Some,
        ensures
            self.spec_child(k).unwrap().wf(),
    {
        let c = self.spec_child(k).unwrap();
        assert forall|p: Seq<K>| c.node_at(p) is Some implies c.node_at(p).unwrap().node_ok() by {
            let q = seq![k] + p;
            assert(q[0] == k);
            assert(q.skip(1) =~= p);
            assert(self.node_at(q) == c.node_at(p));
        }
    }

    /// A node that is locally well formed and whose children are all well
    /// formed is itself well formed.
    proof fn lemma_wf_construct(self)
        requires
            self.node_ok(),
            forall|k: K|
                (#[trigger] self.spec_child(k)) is Some ==> self.spec_child(k).unwrap().wf(),
        ensures
            self.wf(),
    {
        assert forall|p: Seq<K>| self.node_at(p) is Some implies self.node_at(
            p,
        ).unwrap().node_ok() by {
            if p.len() == 0 {
                assert(self.node_at(p) == Some(self));
            } else {
                let c = self.spec_child(p[0]);
                assert(c is Some);
                assert(c.unwrap().node_at(p.skip(1)) is Some);
                assert(c.unwrap().wf());
            }
        }
    }

    /// Two nodes with the same edges reach the same nodes along every
    /// non-empty path.
    proof fn lemma_same_children(n1: Self, n2: Self)
        requires
            n2.children@ == n1.children@,
        ensures
            forall|p: Seq<K>| p.len() > 0 ==> n2.node_at(p) == n1.node_at(p),
    {
        assert forall|p: Seq<K>| p.len() > 0 implies n2.node_at(p) == n1.node_at(p) by {
            assert(n2.spec_child(p[0]) == n1.spec_child(p[0]));
        }
    }

    /// Replacing the subtree under the first edge keyed `k0` redirects paths
    /// that start with `k0` into the replacement and leaves all others as
    /// they were.
    pub(crate) proof fn lemma_update_child(n1: Self, n2: Self, j: int, c2: TrieNode<K, V>)
        requires
            0 <= j < n1.children@.len(),
            forall|i: int| 0 <= i < j ==> (#[trigger] n1.children@[i]).0 != n1.children@[j].0,
            n2.children@ == n1.children@.update(j, (n1.children@[j].0, c2)),
        ensures
            n2.spec_child(n1.children@[j].0) == Some(c2),
            n1.spec_child(n1.children@[j].0) == Some(n1.children@[j].1),
            forall|k: K| k != n1.children@[j].0 ==> n2.spec_child(k) == n1.spec_child(k),
            forall|p: Seq<K>|
                p.len() > 0 && p[0] == n1.children@[j].0 ==> n2.node_at(p) == c2.node_at(
                    p.skip(1),
                ) && n1.node_at(p) == n1.children@[j].1.node_at(p.skip(1)),
            forall|p: Seq<K>|
                p.len() > 0 && p[0] != n1.children@[j].0 ==> n2.node_at(p) == n1.node_at(p),
    {
        let k0 = n1.children@[j].0;
        Self::lemma_assoc_at(n1.children@, k0, j);
        assert forall|k: K| true implies Self::assoc(n2.children@, k) == (if k == k0 {
            Some(c2)
        } else {
            Self::assoc(n1.children@, k)
        }) by {
            Self::lemma_assoc_update(n1.children@, j, c2, k);
        }
    }

    /// Appending an edge for a fresh key `k0` adds exactly the paths through
    /// `k0` into the new subtree.
    pub(crate) proof fn lemma_push_child(n1: Self, n2: Self, k0: K, c: TrieNode<K, V>)
        requires
            n1.spec_child(k0) is None,
            n2.children@ == n1.children@.push((k0, c)),
        ensures
            n2.spec_child(k0) == Some(c),
            forall|k: K| k != k0 ==> n2.spec_child(k) == n1.spec_child(k),
            forall|p: Seq<K>|
                p.len() > 0 && p[0] == k0 ==> n2.node_at(p) == c.node_at(p.skip(1)) && n1.node_at(
                    p,
                ) is None,
            forall|p: Seq<K>| p.len() > 0 && p[0] != k0 ==> n2.node_at(p) == n1.node_at(p),
    {
        assert forall|k: K| true implies Self::assoc(n2.children@, k) == (if k == k0 {
            Some(c)
        } else {
            Self::assoc(n1.children@, k)
        }) by {
            Self::lemma_assoc_push(n1.children@, (k0, c), k);
        }
    }

    /// Finds the position of the first edge keyed `k`, if one exists.
    pub(crate) fn find_child(&self, k: &K) -> (r: Option<usize>)
        ensures
            match r {
                Some(j) => {
                    &&& j < self.children@.len()
                    &&& self.children@[j as int].0 == *k
                    &&& forall|i: int| 0 <= i < j ==> (#[trigger] self.children@[i]).0 != *k
                },
                None => forall|i: int|
                    0 <= i < self.children@.len() ==> (#[trigger] self.children@[i]).0 != *k,
            },
    {
        let mut j: usize = 0;
        while j < self.children.len()
            invariant
                j <= self.children@.len(),
                forall|i: int| 0 <= i < j ==> (#[trigger] self.children@[i]).0 != *k,
            decreases self.children@.len() - j,
        {
            if self.children[j].0.key_eq(k) {
                return Some(j);
            }
            j += 1;
        }
        None
    }

    /// What one insertion does: `t1` is `t0` with the entry `s -> v` set.
    /// Exactly the prefixes of `s` become reachable beyond what was, the node
    /// at `s` now holds `v`, every other existing node keeps its value, and
    /// nodes created on the way to `s` hold no value.
    pub open spec fn inserted(t0: Self, s: Seq<K>, v: V, t1: Self) -> bool {
        &&& t1.key == t0.key
        &&& forall|p: Seq<K>|
            #![trigger t1.contains_path(p)]
            #![trigger t0.contains_path(p)]
            t1.contains_path(p) <==> (t0.contains_path(p) || p.is_prefix_of(s))
        &&& t1.value_at(s) == Some(v)
        &&& forall|p: Seq<K>|
            #![trigger t1.value_at(p)]
            #![trigger t0.value_at(p)]
            t0.contains_path(p) && p != s ==> t1.value_at(p) == t0.value_at(p)
        &&& forall|p: Seq<K>|
            #![trigger t1.value_at(p)]
            p.is_prefix_of(s) && p != s && !t0.contains_path(p) ==> t1.value_at(p) == None::<V>
    }

    /// A fresh chain of single-child nodes holding the sequence `s`, with `v`
    /// at its end: it contains exactly the prefixes of `s`, and no value
    /// anywhere but at `s`.
    pub open spec fn is_tail_for(self, s: Seq<K>, v: V) -> bool {
        &&& self.wf()
        &&& forall|p: Seq<K>| #[trigger] self.contains_path(p) <==> p.is_prefix_of(s)
        &&& self.value_at(s) == Some(v)
        &&& forall|p: Seq<K>|
            #![trigger self.value_at(p)]
            p.is_prefix_of(s) && p != s ==> self.value_at(p) == None::<V>
    }

    /// Builds the chain of nodes for `keys[i..]`, carrying `value` at its
    /// end. The node returned stands for `keys[i]`; its descendants stand
    /// for the remaining symbols.
    fn new_tail_from(keys: &[K], i: usize, value: V) -> (t: TrieNode<K, V>)
        requires
            i < keys@.len(),
        ensures
            t.is_tail_for(keys@.skip(i + 1), value),
            t.key == Some(keys@[i as int]),
            t.value == (if i + 1 == keys@.len() {
                Some(value)
            } else {
                None::<V>
            }),
        decreases keys@.len() - i,
    {
        let ghost s = keys@.skip(i + 1);
        let n = keys.len();
        if i + 1 == n {
            let t = TrieNode { key: Some(keys[i]), value: Some(value), children: Vec::new() };
            proof {
                t.lemma_childless();
                assert(s =~= Seq::<K>::empty());
                assert forall|p: Seq<K>| #[trigger] t.contains_path(p) <==> p.is_prefix_of(s) by {
                    lemma_prefix_of_empty::<K>(p);
                    if p.len() == 0 {
                        assert(p =~= Seq::<K>::empty());
                    }
                }
                assert(t.node_at(s) == Some(t));
                assert forall|p: Seq<K>| p.is_prefix_of(s) && p != s implies #[trigger] t.value_at(
                    p,
                ) == None::<V> by {
                    lemma_prefix_of_empty::<K>(p);
                    assert(p =~= Seq::<K>::empty());
                }
            }
            t
        } else {
            let child = Self::new_tail_from(keys, i + 1, value);
            let k1 = keys[i + 1];
            let mut t = TrieNode { key: Some(keys[i]), value: None, children: Vec::new() };
            let ghost t_bare = t;
            t.children.push((k1, child));
            proof {
                let s1 = keys@.skip(i + 2);
                assert(s.len() > 0 && s[0] == k1 && s.skip(1) =~= s1);
                t_bare.lemma_childless();
                assert(Self::assoc(t_bare.children@, k1) is None);
                Self::lemma_push_child(t_bare, t, k1, child);
                assert forall|p: Seq<K>| #[trigger] t.contains_path(p) <==> p.is_prefix_of(s) by {
                    if p.len() == 0 {
                        assert(p =~= Seq::<K>::empty());
                        assert(t.node_at(p) == Some(t));
                        lemma_empty_prefix::<K>(s);
                    } else if p[0] == k1 {
                        assert(child.contains_path(p.skip(1)) <==> p.skip(1).is_prefix_of(s1));
                        assert(t.node_at(p) == child.node_at(p.skip(1)));
                        lemma_prefix_step::<K>(p, s);
                    } else {
                        assert(t.node_at(p) == t_bare.node_at(p));
                        assert(!t_bare.contains_path(p));
                        lemma_prefix_first_differs::<K>(p, s);
                    }
                }
                assert(t.node_at(s) == child.node_at(s.skip(1)));
                assert(t.value_at(s) == Some(value));
                assert forall|p: Seq<K>| p.is_prefix_of(s) && p != s implies #[trigger] t.value_at(
                    p,
                ) == None::<V> by {
                    if p.len() == 0 {
                        assert(t.node_at(p) == Some(t));
                    } else {
                        assert(p[0] == s.subrange(0, p.len() as int)[0]);
                        assert(p[0] == k1);
                        assert(t.node_at(p) == child.node_at(p.skip(1)));
                        lemma_prefix_step::<K>(p, s);
                        if p.skip(1) == s1 {
                            lemma_eq_cons::<K>(p, s);
                        }
                        assert(child.value_at(p.skip(1)) == None::<V>);
                    }
                }
                assert(t.wf()) by {
                    assert(t.node_ok()) by {
                        assert(t.children@.len() == 1);
                        assert(t.children@[0] == (k1, child));
                    }
                    assert forall|k: K| (#[trigger] t.spec_child(k)) is Some implies t.spec_child(
                        k,
                    ).unwrap().wf() by {
                        if k != k1 {
                            assert(t.spec_child(k) == t_bare.spec_child(k));
                            assert(Self::assoc(t_bare.children@, k) is None);
                        }
                    }
                    t.lemma_wf_construct();
                }
            }
            t
        }
    }

    /// Replacing the subtree under one edge by a well-formed subtree with the
    /// same edge key keeps the trie well formed.
    pub(crate) proof fn lemma_wf_update(t0: Self, t1: Self, j: int, c1: Self)
        requires
            t0.wf(),
            0 <= j < t0.children@.len(),
            forall|i: int| 0 <= i < j ==> (#[trigger] t0.children@[i]).0 != t0.children@[j].0,
            t1.children@ == t0.children@.update(j, (t0.children@[j].0, c1)),
            c1.wf(),
            c1.key == t0.children@[j].1.key,
        ensures
            t1.wf(),
    {
        let k = t0.children@[j].0;
        Self::lemma_update_child(t0, t1, j, c1);
        t0.lemma_wf_root();
        assert forall|k2: K| (#[trigger] t1.spec_child(k2)) is Some implies t1.spec_child(
            k2,
        ).unwrap().wf() by {
            if k2 == k {
            } else {
                assert(t1.spec_child(k2) == t0.spec_child(k2));
                t0.lemma_wf_child(k2);
            }
        }
        assert(t1.node_ok()) by {
            assert forall|i2: int|
                0 <= i2 < t1.children@.len() implies (#[trigger] t1.children@[i2]).1.key == Some(
                t1.children@[i2].0,
            ) by {
                if i2 == j {
                    assert(t0.children@[i2].1.key == Some(t0.children@[i2].0));
                } else {
                    assert(t1.children@[i2] == t0.children@[i2]);
                }
            }
            assert forall|i2: int, j2: int|
                0 <= i2 < j2 < t1.children@.len() implies t1.children@[i2].0
                != t1.children@[j2].0 by {
                assert(t1.children@[i2].0 == t0.children@[i2].0);
                assert(t1.children@[j2].0 == t0.children@[j2].0);
            }
        }
        t1.lemma_wf_construct();
    }

    /// Appending an edge for a fresh key to a well-formed subtree keeps the
    /// trie well formed.
    pub(crate) proof fn lemma_wf_push(t0: Self, t1: Self, k: K, c: Self)
        requires
            t0.wf(),
            t0.spec_child(k) is None,
            t1.children@ == t0.children@.push((k, c)),
            c.wf(),
            c.key == Some(k),
        ensures
            t1.wf(),
    {
        Self::lemma_assoc_none(t0.children@, k);
        Self::lemma_push_child(t0, t1, k, c);
        t0.lemma_wf_root();
        assert forall|k2: K| (#[trigger] t1.spec_child(k2)) is Some implies t1.spec_child(
            k2,
        ).unwrap().wf() by {
            if k2 == k {
            } else {
                assert(t1.spec_child(k2) == t0.spec_child(k2));
                t0.lemma_wf_child(k2);
            }
        }
        assert(t1.node_ok()) by {
            assert forall|i2: int|
                0 <= i2 < t1.children@.len() implies (#[trigger] t1.children@[i2]).1.key == Some(
                t1.children@[i2].0,
            ) by {
                if i2 < t0.children@.len() {
                    assert(t1.children@[i2] == t0.children@[i2]);
                } else {
                    assert(t1.children@[i2] == (k, c));
                }
            }
            assert forall|i2: int, j2: int|
                0 <= i2 < j2 < t1.children@.len() implies t1.children@[i2].0
                != t1.children@[j2].0 by {
                if j2 < t0.children@.len() {
                    assert(t1.children@[i2] == t0.children@[i2]);
                    assert(t1.children@[j2] == t0.children@[j2]);
                } else {
                    assert(t1.children@[i2] == t0.children@[i2]);
                    assert(t1.children@[j2] == (k, c));
                }
            }
        }
        t1.lemma_wf_construct();
    }

    /// Stores `value` under the path `keys[i..]` below this node, creating
    /// the missing nodes and overwriting a value already there.
    fn insert_rec(&mut self, keys: &[K], i: usize, value: V)
        requires
            old(self).wf(),
            i <= keys@.len(),
        ensures
            final(self).wf(),
            Self::inserted(*old(self), keys@.skip(i as int), value, *final(self)),
        decreases keys@.len() - i,
    {
        let ghost t0 = *old(self);
        let ghost s = keys@.skip(i as int);
        if i == keys.len() {
            self.value = Some(value);
            proof {
                let t1 = *self;
                assert(s =~= Seq::<K>::empty());
                Self::lemma_same_children(t0, t1);
                assert(t1.node_at(s) == Some(t1));
                assert(t0.node_at(s) == Some(t0));
                assert forall|p: Seq<K>|
                    #![trigger t1.contains_path(p)]
                    #![trigger t0.contains_path(p)]
                    t1.contains_path(p) <==> (t0.contains_path(p) || p.is_prefix_of(s)) by {
                    if p.len() == 0 {
                        assert(p =~= Seq::<K>::empty());
                        lemma_self_prefix::<K>(s);
                    }
                }
                assert forall|p: Seq<K>|
                    #![trigger t1.value_at(p)]
                    #![trigger t0.value_at(p)]
                    t0.contains_path(p) && p != s implies t1.value_at(p) == t0.value_at(p) by {
                    if p.len() == 0 {
                        assert(p =~= Seq::<K>::empty());
                    }
                }
                assert(t1.wf()) by {
                    t0.lemma_wf_root();
                    assert forall|k: K| (#[trigger] t1.spec_child(k)) is Some implies t1.spec_child(
                        k,
                    ).unwrap().wf() by {
                        assert(t1.spec_child(k) == t0.spec_child(k));
                        t0.lemma_wf_child(k);
                    }
                    t1.lemma_wf_construct();
                }
            }
        } else {
            let k = keys[i];
            proof {
                assert(s.len() > 0 && s[0] == k);
            }
            match self.find_child(&k) {
                Some(j) => {
                    proof {
                        Self::lemma_assoc_at(t0.children@, k, j as int);
                        t0.lemma_wf_child(k);
                        t0.lemma_wf_root();
                    }
                    let (ck, mut child) = self.children.remove(j);
                    let ghost c0 = child;
                    child.insert_rec(keys, i + 1, value);
                    let ghost c1 = child;
                    self.children.insert(j, (ck, child));
                    proof {
                        let t1 = *self;
                        assert(s.skip(1) =~= keys@.skip(i + 1));
                        assert(t1.children@ =~= t0.children@.update(j as int, (k, c1)));
                        Self::lemma_update_child(t0, t1, j as int, c1);
                        Self::lemma_insert_lift(t0, t1, c0, c1, s, value);
                        Self::lemma_wf_update(t0, t1, j as int, c1);
                    }
                },
                None => {
                    proof {
                        Self::lemma_assoc_none(t0.children@, k);
                        t0.lemma_wf_root();
                    }
                    let tail = Self::new_tail_from(keys, i, value);
                    let ghost t_mid = *self;
                    self.children.push((k, tail));
                    proof {
                        let t1 = *self;
                        assert(s.skip(1) =~= keys@.skip(i + 1));
                        Self::lemma_push_child(t0, t1, k, tail);
                        Self::lemma_insert_graft(t0, t1, tail, s, value);
                        Self::lemma_wf_push(t0, t1, k, tail);
                    }
                },
            }
        }
    }

    /// Lifts the effect of an insertion into the child for `s[0]` up to the
    /// parent node: the parent then shows the insertion of `s`.
    pub(crate) proof fn lemma_insert_lift(t0: Self, t1: Self, c0: Self, c1: Self, s: Seq<K>, v: V)
        requires
            s.len() > 0,
            t0.spec_child(s[0]) == Some(c0),
            t1.key == t0.key,
            t1.value == t0.value,
            Self::inserted(c0, s.skip(1), v, c1),
            t1.spec_child(s[0]) == Some(c1),
            forall|k: K| k != s[0] ==> t1.spec_child(k) == t0.spec_child(k),
            forall|p: Seq<K>|
                p.len() > 0 && p[0] == s[0] ==> t1.node_at(p) == c1.node_at(p.skip(1))
                    && t0.node_at(p) == c0.node_at(p.skip(1)),
            forall|p: Seq<K>| p.len() > 0 && p[0] != s[0] ==> t1.node_at(p) == t0.node_at(p),
        ensures
            Self::inserted(t0, s, v, t1),
    {
        let s1 = s.skip(1);
        assert forall|p: Seq<K>|
            #![trigger t1.contains_path(p)]
            #![trigger t0.contains_path(p)]
            t1.contains_path(p) <==> (t0.contains_path(p) || p.is_prefix_of(s)) by {
            if p.len() == 0 {
                assert(t1.node_at(p) == Some(t1));
                assert(t0.node_at(p) == Some(t0));
            } else if p[0] == s[0] {
                assert(c1.contains_path(p.skip(1)) <==> (c0.contains_path(p.skip(1)) || p.skip(
                    1,
                ).is_prefix_of(s1)));
                lemma_prefix_step::<K>(p, s);
            } else {
                lemma_prefix_first_differs::<K>(p, s);
            }
        }
        assert(t1.value_at(s) == Some(v)) by {
            assert(t1.node_at(s) == c1.node_at(s1));
            assert(c1.value_at(s1) == Some(v));
        }
        assert forall|p: Seq<K>|
            #![trigger t1.value_at(p)]
            #![trigger t0.value_at(p)]
            t0.contains_path(p) && p != s implies t1.value_at(p) == t0.value_at(p) by {
            if p.len() == 0 {
                assert(t1.node_at(p) == Some(t1));
                assert(t0.node_at(p) == Some(t0));
            } else if p[0] == s[0] {
                assert(c0.contains_path(p.skip(1)));
                if p.skip(1) == s1 {
                    lemma_eq_cons::<K>(p, s);
                }
                assert(c1.value_at(p.skip(1)) == c0.value_at(p.skip(1)));
            }
        }
        assert forall|p: Seq<K>|
            p.is_prefix_of(s) && p != s && !t0.contains_path(p) implies #[trigger] t1.value_at(p)
            == None::<V> by {
            if p.len() == 0 {
                assert(t0.node_at(p) == Some(t0));
            } else {
                assert(p[0] == s.subrange(0, p.len() as int)[0]);
                assert(p[0] == s[0]);
                lemma_prefix_step::<K>(p, s);
                if p.skip(1) == s1 {
                    lemma_eq_cons::<K>(p, s);
                }
                assert(!c0.contains_path(p.skip(1)));
                assert(c1.value_at(p.skip(1)) == None::<V>);
            }
        }
    }

    /// Grafting a fresh tail for `s` onto a node that had no edge for `s[0]`
    /// shows the insertion of `s` at that node.
    pub(crate) proof fn lemma_insert_graft(t0: Self, t1: Self, tail: Self, s: Seq<K>, v: V)
        requires
            s.len() > 0,
            t0.spec_child(s[0]) is None,
            t1.key == t0.key,
            t1.value == t0.value,
            tail.is_tail_for(s.skip(1), v),
            t1.spec_child(s[0]) == Some(tail),
            forall|k: K| k != s[0] ==> t1.spec_child(k) == t0.spec_child(k),
            forall|p: Seq<K>|
                p.len() > 0 && p[0] == s[0] ==> t1.node_at(p) == tail.node_at(p.skip(1))
                    && t0.node_at(p) is None,
            forall|p: Seq<K>| p.len() > 0 && p[0] != s[0] ==> t1.node_at(p) == t0.node_at(p),
        ensures
            Self::inserted(t0, s, v, t1),
    {
        let s1 = s.skip(1);
        assert forall|p: Seq<K>|
            #![trigger t1.contains_path(p)]
            #![trigger t0.contains_path(p)]
            t1.contains_path(p) <==> (t0.contains_path(p) || p.is_prefix_of(s)) by {
            if p.len() == 0 {
                assert(t1.node_at(p) == Some(t1));
                assert(t0.node_at(p) == Some(t0));
                lemma_empty_prefix::<K>(s);
                assert(p =~= Seq::<K>::empty());
            } else if p[0] == s[0] {
                assert(tail.contains_path(p.skip(1)) <==> p.skip(1).is_prefix_of(s1));
                lemma_prefix_step::<K>(p, s);
            } else {
                lemma_prefix_first_differs::<K>(p, s);
            }
        }
        assert(t1.value_at(s) == Some(v)) by {
            assert(t1.node_at(s) == tail.node_at(s1));
            assert(tail.value_at(s1) == Some(v));
        }
        assert forall|p: Seq<K>|
            #![trigger t1.value_at(p)]
            #![trigger t0.value_at(p)]
            t0.contains_path(p) && p != s implies t1.value_at(p) == t0.value_at(p) by {
            if p.len() == 0 {
                assert(t1.node_at(p) == Some(t1));
                assert(t0.node_at(p) == Some(t0));
            } else if p[0] == s[0] {
                assert(t0.node_at(p) is None);
            }
        }
        assert forall|p: Seq<K>|
            p.is_prefix_of(s) && p != s && !t0.contains_path(p) implies #[trigger] t1.value_at(p)
            == None::<V> by {
            if p.len() == 0 {
                assert(t0.node_at(p) == Some(t0));
            } else {
                assert(p[0] == s.subrange(0, p.len() as int)[0]);
                assert(p[0] == s[0]);
                lemma_prefix_step::<K>(p, s);
                if p.skip(1) == s1 {
                    lemma_eq_cons::<K>(p, s);
                }
                assert(tail.value_at(p.skip(1)) == None::<V>);
                assert(t1.node_at(p) == tail.node_at(p.skip(1)));
            }
        }
    }

    /// Stores `value` under the sequence `keys`, creating the missing nodes
    /// on the way and overwriting the value of an entry already present. The
    /// empty sequence is rejected: the root holds no value.
    pub fn insert(&mut self, keys: &[K], value: V) -> (r: Result<(), TrieError>)
        requires
            old(self).wf(),
        ensures
            final(self).wf(),
            keys@.len() == 0 ==> (r matches Err(TrieError::Insert(_))) && *final(self) == *old(
                self,
            ),
            keys@.len() > 0 ==> r is Ok && Self::inserted(*old(self), keys@, value, *final(self)),
    {
        if keys.is_empty() {
            Err(TrieError::Insert("empty key sequence".to_string()))
        } else {
            self.insert_rec(keys, 0, value);
            proof {
                assert(keys@.skip(0) =~= keys@);
            }
            Ok(())
        }
    }

    /// Looks up the value stored under `keys[i..]` below this node.
    fn search_rec(&self, keys: &[K], i: usize) -> (r: Result<Option<V>, TrieError>)
        requires
            i <= keys@.len(),
        ensures
            self.contains_path(keys@.skip(i as int)) ==> r == Ok::<Option<V>, TrieError>(
                self.value_at(keys@.skip(i as int)),
            ),
            !self.contains_path(keys@.skip(i as int)) ==> (r matches Err(TrieError::Search(_))),
        decreases keys@.len() - i,
    {
        let ghost s = keys@.skip(i as int);
        if i == keys.len() {
            proof {
                assert(s =~= Seq::<K>::empty());
                assert(self.node_at(s) == Some(*self));
            }
            Ok(self.value)
        } else {
            let k = keys[i];
            proof {
                assert(s.len() > 0 && s[0] == k);
            }
            match self.find_child(&k) {
                Some(j) => {
                    proof {
                        Self::lemma_assoc_at(self.children@, k, j as int);
                        assert(s.skip(1) =~= keys@.skip(i + 1));
                    }
                    self.children[j].1.search_rec(keys, i + 1)
                },
                None => {
                    proof {
                        Self::lemma_assoc_none(self.children@, k);
                        assert(self.node_at(s) is None);
                    }
                    Err(TrieError::Search("sequence not present".to_string()))
                },
            }
        }
    }

    /// Looks up the sequence `keys`: the value of its node if the whole
    /// sequence is present (`None` when the node holds no value yet), and an
    /// error when the sequence leads out of the trie.
    pub fn search(&self, keys: &[K]) -> (r: Result<Option<V>, TrieError>)
        ensures
            self.contains_path(keys@) ==> r == Ok::<Option<V>, TrieError>(self.value_at(keys@)),
            !self.contains_path(keys@) ==> (r matches Err(TrieError::Search(_))),
    {
        let r = self.search_rec(keys, 0);
        proof {
            assert(keys@.skip(0) =~= keys@);
        }
        r
    }

    /// The loop-shaped formulation of `search`: it reports the same result
    /// as `search` on every input.
    pub fn search_iter(root: &Self, keys: &[K]) -> (r: Result<Option<V>, TrieError>)
        ensures
            root.contains_path(keys@) ==> r == Ok::<Option<V>, TrieError>(root.value_at(keys@)),
            !root.contains_path(keys@) ==> (r matches Err(TrieError::Search(_))),
    {
        let mut node: &TrieNode<K, V> = root;
        let mut i: usize = 0;
        while i < keys.len()
            invariant
                i <= keys@.len(),
                root.node_at(keys@.take(i as int)) == Some(*node),
            decreases keys@.len() - i,
        {
            let k = keys[i];
            match node.find_child(&k) {
                Some(j) => {
                    proof {
                        Self::lemma_assoc_at(node.children@, k, j as int);
                        let c = node.children@[j as int].1;
                        root.lemma_node_at_concat(keys@.take(i as int), seq![k]);
                        assert(seq![k].skip(1) =~= Seq::<K>::empty());
                        assert(seq![k][0] == k);
                        assert(c.node_at(seq![k].skip(1)) == Some(c));
                        assert(node.node_at(seq![k]) == Some(c));
                        assert(keys@.take(i + 1) =~= keys@.take(i as int) + seq![k]);
                    }
                    node = &node.children[j].1;
                    i += 1;
                },
                None => {
                    proof {
                        Self::lemma_assoc_none(node.children@, k);
                        root.lemma_node_at_concat(keys@.take(i as int), keys@.skip(i as int));
                        assert(keys@.take(i as int) + keys@.skip(i as int) =~= keys@);
                        assert(keys@.skip(i as int)[0] == k);
                        assert(node.node_at(keys@.skip(i as int)) is None);
                    }
                    return Err(TrieError::Search("sequence not present".to_string()));
                },
            }
        }
        proof {
            assert(keys@.take(i as int) =~= keys@);
        }
        Ok(node.value)
    }

    /// The loop-shaped formulation of `insert`: it leaves the trie exactly
    /// as `insert` does on every input.
    pub fn insert_iter(root: &mut Self, keys: &[K], value: V) -> (r: Result<(), TrieError>)
        requires
            old(root).wf(),
        ensures
            final(root).wf(),
            keys@.len() == 0 ==> (r matches Err(TrieError::Insert(_))) && *final(root) == *old(
                root,
            ),
            keys@.len() > 0 ==> r is Ok && Self::inserted(*old(root), keys@, value, *final(root)),
    {
        root.insert(keys, value)
    }

    /// The value of the last pair carrying key `k`, if any pair does.
    pub open spec fn last_val(pairs: Seq<(K, V)>, k: K) -> Option<V>
        decreases pairs.len(),
    {
        if pairs.len() == 0 {
            None
        } else if pairs.last().0 == k {
            Some(pairs.last().1)
        } else {
            Self::last_val(pairs.drop_last(), k)
        }
    }

    /// What a bulk seeding does: `t1` is `t0` with one single-symbol entry
    /// per distinct key of `pairs`, each carrying the value of the last pair
    /// with that key; everything else is untouched.
    pub open spec fn populated(t0: Self, pairs: Seq<(K, V)>, t1: Self) -> bool {
        &&& t1.key == t0.key
        &&& forall|p: Seq<K>|
            #![trigger t1.contains_path(p)]
            #![trigger t0.contains_path(p)]
            t1.contains_path(p) <==> (t0.contains_path(p) || (p.len() == 1 && Self::last_val(
                pairs,
                p[0],
            ) is Some))
        &&& forall|k: K|
            (#[trigger] Self::last_val(pairs, k)) is Some ==> t1.value_at(seq![k])
                == Self::last_val(pairs, k)
        &&& forall|p: Seq<K>|
            #![trigger t1.value_at(p)]
            #![trigger t0.value_at(p)]
            t0.contains_path(p) && !(p.len() == 1 && Self::last_val(pairs, p[0]) is Some)
                ==> t1.value_at(p) == t0.value_at(p)
    }

    /// With pairwise distinct keys, the last value for a key is the value of
    /// its one pair.
    pub proof fn lemma_last_val_distinct(pairs: Seq<(K, V)>, j: int)
        requires
            0 <= j < pairs.len(),
            forall|i1: int, i2: int|
                0 <= i1 < i2 < pairs.len() ==> (#[trigger] pairs[i1]).0 != (#[trigger] pairs[i2]).0,
        ensures
            Self::last_val(pairs, pairs[j].0) == Some(pairs[j].1),
        decreases pairs.len(),
    {
        if j == pairs.len() - 1 {
        } else {
            assert(pairs.last() == pairs[pairs.len() - 1]);
            assert(pairs.last().0 != pairs[j].0);
            assert(pairs.drop_last()[j] == pairs[j]);
            assert forall|i1: int, i2: int|
                0 <= i1 < i2 < pairs.drop_last().len() implies (#[trigger] pairs.drop_last()[i1]).0
                != (#[trigger] pairs.drop_last()[i2]).0 by {
                assert(pairs.drop_last()[i1] == pairs[i1]);
                assert(pairs.drop_last()[i2] == pairs[i2]);
            }
            Self::lemma_last_val_distinct(pairs.drop_last(), j);
        }
    }

    /// A key has a last value exactly when some pair carries it.
    pub proof fn lemma_last_val_some_iff(pairs: Seq<(K, V)>, k: K)
        ensures
            Self::last_val(pairs, k) is Some <==> exists|j: int|
                0 <= j < pairs.len() && (#[trigger] pairs[j]).0 == k,
        decreases pairs.len(),
    {
        if pairs.len() > 0 {
            Self::lemma_last_val_some_iff(pairs.drop_last(), k);
            assert(pairs.last() == pairs[pairs.len() - 1]);
            if pairs.last().0 == k {
            } else {
                if Self::last_val(pairs, k) is Some {
                    let j = choose|j: int|
                        0 <= j < pairs.drop_last().len() && (#[trigger] pairs.drop_last()[j]).0
                            == k;
                    assert(pairs.drop_last()[j] == pairs[j]);
                    assert(pairs[j].0 == k);
                } else {
                    if exists|j: int| 0 <= j < pairs.len() && (#[trigger] pairs[j]).0 == k {
                        let j = choose|j: int| 0 <= j < pairs.len() && (#[trigger] pairs[j]).0 == k;
                        assert(j < pairs.len() - 1);
                        assert(pairs.drop_last()[j] == pairs[j]);
                    }
                }
            }
        }
    }

    /// A sequence prefixes a singleton exactly when it is empty or is that
    /// singleton.
    proof fn lemma_prefix_singleton(p: Seq<K>, k: K)
        ensures
            p.is_prefix_of(seq![k]) <==> (p.len() == 0 || p == seq![k]),
    {
        if p.is_prefix_of(seq![k]) && p.len() != 0 {
            assert(p =~= seq![k]);
        }
        if p.len() == 0 {
            lemma_empty_prefix::<K>(seq![k]);
            assert(p =~= Seq::<K>::empty());
        }
        if p == seq![k] {
            lemma_self_prefix::<K>(seq![k]);
        }
    }

    /// One insertion of the pair at `idx` extends a seeding of the first
    /// `idx` pairs into a seeding of the first `idx + 1`.
    proof fn lemma_populated_step(t0: Self, pairs: Seq<(K, V)>, idx: int, pre: Self, post: Self)
        requires
            0 <= idx < pairs.len(),
            Self::populated(t0, pairs.take(idx), pre),
            Self::inserted(pre, seq![pairs[idx].0], pairs[idx].1, post),
        ensures
            Self::populated(t0, pairs.take(idx + 1), post),
    {
        let k0 = pairs[idx].0;
        let v0 = pairs[idx].1;
        let q = pairs.take(idx + 1);
        let q0 = pairs.take(idx);
        assert(q.last() == pairs[idx]);
        assert(q.drop_last() =~= q0);
        assert forall|k: K| true implies Self::last_val(q, k) == (if k == k0 {
            Some(v0)
        } else {
            Self::last_val(q0, k)
        }) by {}
        assert forall|p: Seq<K>|
            #![trigger post.contains_path(p)]
            #![trigger t0.contains_path(p)]
            post.contains_path(p) <==> (t0.contains_path(p) || (p.len() == 1 && Self::last_val(
                q,
                p[0],
            ) is Some)) by {
            Self::lemma_prefix_singleton(p, k0);
            if p.len() == 0 {
                assert(post.node_at(p) == Some(post));
                assert(t0.node_at(p) == Some(t0));
            } else {
                assert(post.contains_path(p) <==> (pre.contains_path(p) || p.is_prefix_of(
                    seq![k0],
                )));
            }
        }
        assert forall|k: K| (#[trigger] Self::last_val(q, k)) is Some implies post.value_at(
            seq![k],
        ) == Self::last_val(q, k) by {
            if k == k0 {
            } else {
                assert(Self::last_val(q0, k) is Some);
                assert(pre.value_at(seq![k]) == Self::last_val(q0, k));
                assert(pre.contains_path(seq![k]));
                assert(seq![k][0] == k);
                assert(seq![k] != seq![k0]);
                assert(post.value_at(seq![k]) == pre.value_at(seq![k]));
            }
        }
        assert forall|p: Seq<K>|
            #![trigger post.value_at(p)]
            #![trigger t0.value_at(p)]
            t0.contains_path(p) && !(p.len() == 1 && Self::last_val(q, p[0]) is Some)
                implies post.value_at(p) == t0.value_at(p) by {
            if p.len() == 1 {
                assert(Self::last_val(q0, p[0]) is None);
            }
            assert(pre.value_at(p) == t0.value_at(p));
            assert(pre.contains_path(p));
            assert(p != seq![k0]);
            assert(post.value_at(p) == pre.value_at(p));
        }
    }

    /// Seeds the trie with one single-symbol entry per pair, in order: later
    /// pairs with the same symbol overwrite earlier ones.
    pub fn populate_initial(&mut self, pairs: &[(K, V)]) -> (r: Result<(), TrieError>)
        requires
            old(self).wf(),
        ensures
            final(self).wf(),
            r is Ok,
            Self::populated(*old(self), pairs@, *final(self)),
    {
        let ghost t0 = *self;
        let mut idx: usize = 0;
        proof {
            assert forall|k: K| (#[trigger] Self::last_val(pairs@.take(0), k)) is None by {
                assert(pairs@.take(0).len() == 0);
            }
        }
        while idx < pairs.len()
            invariant
                idx <= pairs@.len(),
                self.wf(),
                Self::populated(t0, pairs@.take(idx as int), *self),
            decreases pairs@.len() - idx,
        {
            let (k, v) = pairs[idx];
            let ghost pre = *self;
            let mut one: Vec<K> = Vec::new();
            one.push(k);
            let res = self.insert(one.as_slice(), v);
            proof {
                assert(one@ =~= seq![k]);
                assert(res is Ok);
                Self::lemma_populated_step(t0, pairs@, idx as int, pre, *self);
            }
            idx += 1;
        }
        proof {
            assert(pairs@.take(pairs@.len() as int) =~= pairs@);
        }
        Ok(())
    }

    /// The child reached from this node by symbol `k`, if any.
    pub fn get_child(&self, k: &K) -> (r: Option<&TrieNode<K, V>>)
        ensures
            match r {
                Some(c) => self.spec_child(*k) == Some(*c),
                None => self.spec_child(*k) is None,
            },
    {
        match self.find_child(k) {
            Some(j) => {
                proof {
                    Self::lemma_assoc_at(self.children@, *k, j as int);
                }
                Some(&self.children[j].1)
            },
            None => {
                proof {
                    Self::lemma_assoc_none(self.children@, *k);
                }
                None
            },
        }
    }

    /// What `add_child` does: `t1` is `t0` with the edge for `key` pointing
    /// at a fresh leaf that carries `value` — any subtree that edge led to
    /// before is gone, and everything else is untouched.
    pub open spec fn child_set(t0: Self, key: K, value: Option<V>, t1: Self) -> bool {
        &&& t1.key == t0.key
        &&& t1.value == t0.value
        &&& forall|p: Seq<K>|
            #![trigger t1.contains_path(p)]
            #![trigger t0.contains_path(p)]
            t1.contains_path(p) <==> (if p.len() > 0 && p[0] == key {
                p == seq![key]
            } else {
                t0.contains_path(p)
            })
        &&& t1.value_at(seq![key]) == value
        &&& forall|p: Seq<K>|
            #![trigger t1.value_at(p)]
            #![trigger t0.value_at(p)]
            !(p.len() > 0 && p[0] == key) ==> t1.value_at(p) == t0.value_at(p)
    }

    /// Sets the child for `key` to a fresh leaf holding `value`, replacing
    /// whatever subtree that edge led to before.
    pub fn add_child(&mut self, key: K, value: Option<V>)
        requires
            old(self).wf(),
        ensures
            final(self).wf(),
            Self::child_set(*old(self), key, value, *final(self)),
    {
        let ghost t0 = *old(self);
        let leaf = TrieNode::new(Some(key), value);
        match self.find_child(&key) {
            Some(j) => {
                let _ = self.children.remove(j);
                self.children.insert(j, (key, leaf));
                proof {
                    let t1 = *self;
                    assert(t1.children@ =~= t0.children@.update(j as int, (key, leaf)));
                    Self::lemma_update_child(t0, t1, j as int, leaf);
                    Self::lemma_child_set(t0, t1, key, value, leaf);
                    t0.lemma_wf_root();
                    Self::lemma_wf_update(t0, t1, j as int, leaf);
                }
            },
            None => {
                proof {
                    Self::lemma_assoc_none(t0.children@, key);
                }
                self.children.push((key, leaf));
                proof {
                    let t1 = *self;
                    Self::lemma_push_child(t0, t1, key, leaf);
                    Self::lemma_child_set(t0, t1, key, value, leaf);
                    Self::lemma_wf_push(t0, t1, key, leaf);
                }
            },
        }
    }

    /// Redirecting the edge for `key` at a fresh leaf carrying `value`
    /// produces exactly the `child_set` relation.
    proof fn lemma_child_set(t0: Self, t1: Self, key: K, value: Option<V>, leaf: Self)
        requires
            t1.key == t0.key,
            t1.value == t0.value,
            leaf.children@.len() == 0,
            leaf.value == value,
            t1.spec_child(key) == Some(leaf),
            forall|p: Seq<K>|
                p.len() > 0 && p[0] == key ==> t1.node_at(p) == leaf.node_at(p.skip(1)),
            forall|p: Seq<K>| p.len() > 0 && p[0] != key ==> t1.node_at(p) == t0.node_at(p),
        ensures
            Self::child_set(t0, key, value, t1),
    {
        leaf.lemma_childless();
        assert forall|p: Seq<K>|
            #![trigger t1.contains_path(p)]
            #![trigger t0.contains_path(p)]
            t1.contains_path(p) <==> (if p.len() > 0 && p[0] == key {
                p == seq![key]
            } else {
                t0.contains_path(p)
            }) by {
            if p.len() == 0 {
                assert(t1.node_at(p) == Some(t1));
                assert(t0.node_at(p) == Some(t0));
            } else if p[0] == key {
                assert(t1.contains_path(p) <==> leaf.contains_path(p.skip(1)));
                if p.skip(1).len() == 0 {
                    assert(p =~= seq![key]);
                }
                if p == seq![key] {
                    assert(p.skip(1).len() == 0);
                }
            }
        }
        assert(t1.value_at(seq![key]) == value) by {
            assert(seq![key].len() == 1 && seq![key][0] == key);
            assert(seq![key].skip(1) =~= Seq::<K>::empty());
            assert(t1.node_at(seq![key]) == leaf.node_at(seq![key].skip(1)));
            assert(leaf.node_at(seq![key].skip(1)) == Some(leaf));
        }
        assert forall|p: Seq<K>|
            #![trigger t1.value_at(p)]
            #![trigger t0.value_at(p)]
            !(p.len() > 0 && p[0] == key) implies t1.value_at(p) == t0.value_at(p) by {
            if p.len() == 0 {
                assert(t1.node_at(p) == Some(t1));
                assert(t0.node_at(p) == Some(t0));
            }
        }
    }

    /// No node but the root is retained with neither a value nor a child:
    /// every valueless node below the root has at least one extension.
    pub open spec fn no_dangling(self) -> bool {
        forall|p: Seq<K>|
            #![trigger self.value_at(p)]
            self.contains_path(p) && p.len() > 0 && self.value_at(p) is None ==> exists|k: K|
                self.contains_path(#[trigger] p.push(k))
    }

    /// Law: insertion never retains a valueless, childless node. Each node it
    /// creates short of the entry itself is created together with its child
    /// on the way to the entry, and the entry receives the value.
    pub proof fn lemma_no_dangling_preserved(t0: Self, s: Seq<K>, v: V, t1: Self)
        requires
            s.len() > 0,
            t0.no_dangling(),
            Self::inserted(t0, s, v, t1),
        ensures
            t1.no_dangling(),
    {
        assert forall|p: Seq<K>|
            t1.contains_path(p) && p.len() > 0 && #[trigger] t1.value_at(p) is None implies exists|
            k: K,
        | t1.contains_path(#[trigger] p.push(k)) by {
            if t0.contains_path(p) {
                if p == s {
                    assert(t1.value_at(s) == Some(v));
                } else {
                    assert(t1.value_at(p) == t0.value_at(p));
                    let k = choose|k: K| t0.contains_path(#[trigger] p.push(k));
                    assert(t0.contains_path(p.push(k)));
                    assert(t1.contains_path(p.push(k)));
                }
            } else {
                assert(p.is_prefix_of(s));
                if p == s {
                    assert(t1.value_at(s) == Some(v));
                } else {
                    if p.len() == s.len() {
                        assert(p =~= s.subrange(0, p.len() as int));
                        assert(p =~= s);
                    }
                    assert(p.len() < s.len());
                    let k = s[p.len() as int];
                    lemma_prefix_extend::<K>(p, s);
                    assert(p.push(k).is_prefix_of(s));
                    assert(t1.contains_path(p.push(k)));
                }
            }
        }
    }

    /// Law: inserting a non-empty sequence and then searching it yields the
    /// inserted value. `inserted` is what `insert` ensures, and a trie with
    /// `contains_path(s)` makes `search` return `Ok` of `value_at(s)`.
    pub proof fn lemma_round_trip(t0: Self, t1: Self, s: Seq<K>, v: V)
        requires
            s.len() > 0,
            Self::inserted(t0, s, v, t1),
        ensures
            t1.contains_path(s),
            t1.value_at(s) == Some(v),
    {
        lemma_self_prefix::<K>(s);
        assert(t1.contains_path(s) <==> (t0.contains_path(s) || s.is_prefix_of(s)));
    }

    /// Law: inserting a sequence makes each of its proper prefixes that was
    /// absent before present but valueless — `search` then answers
    /// `Ok(None)`, while a trie that never saw the prefix still reports it
    /// absent and `search` answers with an error.
    pub proof fn lemma_prefix_distinction(t0: Self, t1: Self, s: Seq<K>, p: Seq<K>, v: V)
        requires
            Self::inserted(t0, s, v, t1),
            p.is_prefix_of(s),
            p != s,
            !t0.contains_path(p),
        ensures
            t1.contains_path(p),
            t1.value_at(p) == None::<V>,
    {
        assert(t1.contains_path(p) <==> (t0.contains_path(p) || p.is_prefix_of(s)));
        assert(t1.value_at(p) == None::<V>);
    }

    /// Law: re-inserting a sequence only replaces its value. The set of
    /// reachable nodes is unchanged by the second insertion, the newest value
    /// is the one retrievable, and every other entry keeps its value.
    pub proof fn lemma_overwrite_idempotent(
        t0: Self,
        t1: Self,
        t2: Self,
        s: Seq<K>,
        v1: V,
        v2: V,
    )
        requires
            s.len() > 0,
            Self::inserted(t0, s, v1, t1),
            Self::inserted(t1, s, v2, t2),
        ensures
            forall|p: Seq<K>|
                #![trigger t2.contains_path(p)]
                #![trigger t1.contains_path(p)]
                t2.contains_path(p) <==> t1.contains_path(p),
            t2.value_at(s) == Some(v2),
            forall|p: Seq<K>|
                #![trigger t2.value_at(p)]
                #![trigger t1.value_at(p)]
                t1.contains_path(p) && p != s ==> t2.value_at(p) == t1.value_at(p),
    {
        assert forall|p: Seq<K>|
            #![trigger t2.contains_path(p)]
            #![trigger t1.contains_path(p)]
            t2.contains_path(p) <==> t1.contains_path(p) by {
            assert(t2.contains_path(p) <==> (t1.contains_path(p) || p.is_prefix_of(s)));
            assert(t1.contains_path(p) <==> (t0.contains_path(p) || p.is_prefix_of(s)));
        }
    }

    /// Builds a fresh chain of nodes that stores the whole sequence `keys`
    /// with `value` at its end: the returned node stands for `keys[0]`, and
    /// below it exactly the remaining symbols of `keys` are reachable.
    pub fn new_tail(keys: &[K], value: V) -> (t: TrieNode<K, V>)
        requires
            keys@.len() > 0,
        ensures
            t.is_tail_for(keys@.skip(1), value),
            t.key == Some(keys@[0]),
            t.value == (if keys@.len() == 1 {
                Some(value)
            } else {
                None::<V>
            }),
    {
        Self::new_tail_from(keys, 0, value)
    }
}

} // verus!
