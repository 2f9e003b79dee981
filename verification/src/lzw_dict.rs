//! The LZW dictionary extension: descend a trie along the longest prefix of
//! a symbol stream that is already known, insert exactly one entry one symbol
//! longer, and report the value of the matched prefix.

use vstd::prelude::*;
use crate::trie::{TrieError, TrieKey, TrieNode, TrieVal};

verus! {

/// A dictionary symbol for LZW runs: a payload value or one of the two
/// control symbols.
#[derive(Clone, Copy, Debug, Hash, Eq, PartialEq)]
pub enum Token<V: TrieKey> {
    End,
    Clear,
    Value(V),
}

impl<V: TrieKey> TrieKey for Token<V> {
    fn key_eq(&self, other: &Self) -> (r: bool)
        ensures
            r == (self == other),
    {
        match (self, other) {
            (Token::End, Token::End) => true,
            (Token::Clear, Token::Clear) => true,
            (Token::Value(a), Token::Value(b)) => a.key_eq(b),
            _ => false,
        }
    }
}

/// The read cursor over a symbol stream: the symbols and the position of the
/// next unread one. The caller keeps it between calls, so one extension can
/// resume exactly where the previous one stopped.
pub struct KeyCursor<K: TrieKey> {
    pub items: Vec<K>,
    pub pos: usize,
}

impl<K: TrieKey> KeyCursor<K> {
    /// The cursor's validity: its position lies within the stream.
    pub open spec fn wf(self) -> bool {
        self.pos <= self.items@.len()
    }

    /// The unread rest of the stream.
    pub open spec fn remaining(self) -> Seq<K> {
        self.items@.skip(self.pos as int)
    }

    /// A cursor at the start of `items`.
    pub fn new(items: Vec<K>) -> (c: Self)
        ensures
            c.wf(),
            c.items == items,
            c.pos == 0,
            c.remaining() == items@,
    {
        let c = KeyCursor { items, pos: 0 };
        proof {
            assert(c.remaining() =~= c.items@);
        }
        c
    }

    /// The next unread symbol, without consuming it.
    pub fn peek(&self) -> (r: Option<K>)
        requires
            self.wf(),
        ensures
            r == (if self.remaining().len() > 0 {
                Some(self.remaining()[0])
            } else {
                None::<K>
            }),
    {
        if self.pos < self.items.len() {
            proof {
                assert(self.remaining()[0] == self.items@[self.pos as int]);
            }
            Some(self.items[self.pos])
        } else {
            None
        }
    }

    /// Consumes and returns the next unread symbol.
    pub fn next(&mut self) -> (r: Option<K>)
        requires
            old(self).wf(),
        ensures
            final(self).wf(),
            final(self).items == old(self).items,
            r == (if old(self).remaining().len() > 0 {
                Some(old(self).remaining()[0])
            } else {
                None::<K>
            }),
            old(self).remaining().len() > 0 ==> final(self).pos == old(self).pos + 1
                && final(self).remaining() == old(self).remaining().skip(1),
            old(self).remaining().len() == 0 ==> *final(self) == *old(self),
    {
        if self.pos < self.items.len() {
            let k = self.items[self.pos];
            self.pos = self.pos + 1;
            proof {
                assert(old(self).remaining()[0] == self.items@[old(self).pos as int]);
                assert(self.remaining() =~= old(self).remaining().skip(1));
            }
            Some(k)
        } else {
            None
        }
    }

    /// How many symbols are still unread.
    pub fn remaining_len(&self) -> (r: usize)
        requires
            self.wf(),
        ensures
            r == self.remaining().len(),
    {
        self.items.len() - self.pos
    }
}

/// A source of fresh values for new dictionary entries: the values and the
/// position of the next unused one.
pub struct ValueCursor<V: TrieVal> {
    pub items: Vec<V>,
    pub pos: usize,
}

impl<V: TrieVal> ValueCursor<V> {
    /// The cursor's validity: its position lies within the values.
    pub open spec fn wf(self) -> bool {
        self.pos <= self.items@.len()
    }

    /// The values not yet handed out.
    pub open spec fn remaining(self) -> Seq<V> {
        self.items@.skip(self.pos as int)
    }

    /// A cursor at the start of `items`.
    pub fn new(items: Vec<V>) -> (c: Self)
        ensures
            c.wf(),
            c.items == items,
            c.pos == 0,
            c.remaining() == items@,
    {
        let c = ValueCursor { items, pos: 0 };
        proof {
            assert(c.remaining() =~= c.items@);
        }
        c
    }

    /// Hands out the next fresh value.
    pub fn next_value(&mut self) -> (r: V)
        requires
            old(self).wf(),
            old(self).remaining().len() > 0,
        ensures
            final(self).wf(),
            final(self).items == old(self).items,
            final(self).pos == old(self).pos + 1,
            r == old(self).remaining()[0],
            final(self).remaining() == old(self).remaining().skip(1),
    {
        let n = self.items.len();
        let v = self.items[self.pos];
        proof {
            assert(self.pos < n);
        }
        self.pos = self.pos + 1;
        proof {
            assert(old(self).remaining()[0] == self.items@[old(self).pos as int]);
            assert(self.remaining() =~= old(self).remaining().skip(1));
        }
        v
    }
}

impl<K: TrieKey, V: TrieVal> TrieNode<K, V> {
    /// How many leading symbols of `s` this trie matches along existing
    /// nodes: the position of the divergence point within `s`, or the length
    /// of `s` when everything matches.
    pub open spec fn divergence(self, s: Seq<K>) -> int
        decreases s.len(),
    {
        if s.len() == 0 {
            0
        } else {
            match self.spec_child(s[0]) {
                None => 0,
                Some(c) => 1 + c.divergence(s.skip(1)),
            }
        }
    }

    /// The divergence point lies within the stream.
    pub proof fn lemma_divergence_bounds(self, s: Seq<K>)
        ensures
            0 <= self.divergence(s) <= s.len(),
        decreases s.len(),
    {
        if s.len() > 0 {
            match self.spec_child(s[0]) {
                Some(c) => c.lemma_divergence_bounds(s.skip(1)),
                None => {},
            }
        }
    }

    /// Measures, without consuming anything, how far the unread stream
    /// matches existing nodes: the number of symbols a dictionary extension
    /// would consume before its divergence point.
    pub fn divergence_depth(&self, key_it: &KeyCursor<K>) -> (d: usize)
        requires
            key_it.wf(),
        ensures
            d == self.divergence(key_it.remaining()),
    {
        let ghost s = key_it.remaining();
        let mut node: &TrieNode<K, V> = self;
        let mut i: usize = key_it.pos;
        while i < key_it.items.len()
            invariant
                key_it.wf(),
                key_it.pos <= i <= key_it.items@.len(),
                s == key_it.remaining(),
                self.divergence(s) == (i - key_it.pos) + node.divergence(
                    key_it.items@.skip(i as int),
                ),
            decreases key_it.items@.len() - i,
        {
            let k = key_it.items[i];
            let ghost rem_i = key_it.items@.skip(i as int);
            proof {
                assert(rem_i.len() > 0 && rem_i[0] == k);
            }
            match node.find_child(&k) {
                Some(j) => {
                    proof {
                        Self::lemma_assoc_at(node.children@, k, j as int);
                        let c = node.children@[j as int].1;
                        assert(rem_i.skip(1) =~= key_it.items@.skip(i + 1));
                        assert(node.divergence(rem_i) == 1 + c.divergence(key_it.items@.skip(i + 1)));
                    }
                    node = &node.children[j].1;
                    i = i + 1;
                },
                None => {
                    proof {
                        Self::lemma_assoc_none(node.children@, k);
                        assert(node.divergence(rem_i) == 0);
                        self.lemma_divergence_bounds(s);
                    }
                    return i - key_it.pos;
                },
            }
        }
        proof {
            assert(key_it.items@.skip(i as int).len() == 0);
            self.lemma_divergence_bounds(s);
        }
        i - key_it.pos
    }

    /// A run of `n` dictionary extensions over the stream `s`: starting from
    /// trie `t0` at stream position `pos0`, each step inserts one entry (one
    /// symbol past the longest matched prefix, valued by the next element of
    /// `new_vals`) and emits the value of that prefix into `emitted`, ending
    /// in trie `t1` at position `pos1`.
    pub open spec fn lzw_steps(
        t0: Self,
        s: Seq<K>,
        pos0: int,
        t1: Self,
        pos1: int,
        new_vals: Seq<V>,
        emitted: Seq<Option<V>>,
        n: nat,
    ) -> bool
        decreases n,
    {
        if n == 0 {
            &&& t1 == t0
            &&& pos1 == pos0
            &&& new_vals.len() == 0
            &&& emitted.len() == 0
        } else {
            let rem = s.skip(pos0);
            let d = t0.divergence(rem);
            &&& new_vals.len() == n
            &&& emitted.len() == n
            &&& d < rem.len()
            &&& emitted[0] == t0.value_at(rem.take(d))
            &&& exists|t2: Self|
                #[trigger] Self::inserted(t0, rem.take(d + 1), new_vals[0], t2)
                    && Self::lzw_steps(
                    t2,
                    s,
                    pos0 + d,
                    t1,
                    pos1,
                    new_vals.skip(1),
                    emitted.skip(1),
                    (n - 1) as nat,
                )
        }
    }

    /// Appending one more extension to a run yields a run one step longer.
    pub proof fn lemma_lzw_steps_snoc(
        t0: Self,
        s: Seq<K>,
        pos0: int,
        t1: Self,
        pos1: int,
        new_vals: Seq<V>,
        emitted: Seq<Option<V>>,
        n: nat,
        t2: Self,
        v: V,
    )
        requires
            Self::lzw_steps(t0, s, pos0, t1, pos1, new_vals, emitted, n),
            t1.divergence(s.skip(pos1)) < s.skip(pos1).len(),
            Self::inserted(t1, s.skip(pos1).take(t1.divergence(s.skip(pos1)) + 1), v, t2),
        ensures
            Self::lzw_steps(
                t0,
                s,
                pos0,
                t2,
                pos1 + t1.divergence(s.skip(pos1)),
                new_vals.push(v),
                emitted.push(t1.value_at(s.skip(pos1).take(t1.divergence(s.skip(pos1))))),
                n + 1,
            ),
        decreases n,
    {
        let rem1 = s.skip(pos1);
        let d1 = t1.divergence(rem1);
        let e = t1.value_at(rem1.take(d1));
        if n == 0 {
            assert(new_vals.push(v)[0] == v);
            assert(emitted.push(e)[0] == e);
            assert(new_vals.push(v).skip(1) =~= Seq::<V>::empty());
            assert(emitted.push(e).skip(1) =~= Seq::<Option<V>>::empty());
            assert(Self::lzw_steps(
                t2,
                s,
                pos1 + d1,
                t2,
                pos1 + d1,
                new_vals.push(v).skip(1),
                emitted.push(e).skip(1),
                0,
            ));
            assert(Self::inserted(t0, rem1.take(d1 + 1), new_vals.push(v)[0], t2));
        } else {
            let rem0 = s.skip(pos0);
            let d0 = t0.divergence(rem0);
            let tmid = choose|tm: Self|
                #[trigger] Self::inserted(t0, rem0.take(d0 + 1), new_vals[0], tm)
                    && Self::lzw_steps(
                    tm,
                    s,
                    pos0 + d0,
                    t1,
                    pos1,
                    new_vals.skip(1),
                    emitted.skip(1),
                    (n - 1) as nat,
                );
            Self::lemma_lzw_steps_snoc(
                tmid,
                s,
                pos0 + d0,
                t1,
                pos1,
                new_vals.skip(1),
                emitted.skip(1),
                (n - 1) as nat,
                t2,
                v,
            );
            assert(new_vals.skip(1).push(v) =~= new_vals.push(v).skip(1));
            assert(emitted.skip(1).push(e) =~= emitted.push(e).skip(1));
            assert(new_vals.push(v)[0] == new_vals[0]);
            assert(emitted.push(e)[0] == emitted[0]);
            assert(Self::inserted(t0, rem0.take(d0 + 1), new_vals.push(v)[0], tmid));
        }
    }

    /// Law: dictionary growth is monotonic and bounded. Over a stream whose
    /// remaining symbols are all seeded as single-symbol entries, a run of
    /// `n` extensions consumes at least one symbol per extension, so it
    /// performs at most as many extensions as the stream has symbols left —
    /// and since each extension inserts exactly one entry, at most that many
    /// new entries arise.
    pub proof fn lemma_lzw_growth(
        t0: Self,
        s: Seq<K>,
        pos0: int,
        t1: Self,
        pos1: int,
        new_vals: Seq<V>,
        emitted: Seq<Option<V>>,
        n: nat,
    )
        requires
            Self::lzw_steps(t0, s, pos0, t1, pos1, new_vals, emitted, n),
            0 <= pos0 <= s.len(),
            forall|i: int| pos0 <= i < s.len() ==> t0.contains_path(seq![s[i]]),
        ensures
            pos0 <= pos1 <= s.len(),
            n <= pos1 - pos0,
        decreases n,
    {
        if n > 0 {
            let rem0 = s.skip(pos0);
            let d0 = t0.divergence(rem0);
            let tmid = choose|tm: Self|
                #[trigger] Self::inserted(t0, rem0.take(d0 + 1), new_vals[0], tm)
                    && Self::lzw_steps(
                    tm,
                    s,
                    pos0 + d0,
                    t1,
                    pos1,
                    new_vals.skip(1),
                    emitted.skip(1),
                    (n - 1) as nat,
                );
            t0.lemma_divergence_bounds(rem0);
            assert(d0 >= 1) by {
                assert(rem0[0] == s[pos0]);
                assert(t0.contains_path(seq![s[pos0]]));
                assert(seq![s[pos0]].len() == 1 && seq![s[pos0]][0] == s[pos0]);
                assert(t0.spec_child(rem0[0]) is Some);
                match t0.spec_child(rem0[0]) {
                    Some(c) => c.lemma_divergence_bounds(rem0.skip(1)),
                    None => {},
                }
            }
            assert forall|i: int| pos0 + d0 <= i < s.len() implies tmid.contains_path(
                seq![s[i]],
            ) by {
                assert(t0.contains_path(seq![s[i]]));
                assert(tmid.contains_path(seq![s[i]]) <==> (t0.contains_path(seq![s[i]])
                    || seq![s[i]].is_prefix_of(rem0.take(d0 + 1))));
            }
            Self::lemma_lzw_growth(
                tmid,
                s,
                pos0 + d0,
                t1,
                pos1,
                new_vals.skip(1),
                emitted.skip(1),
                (n - 1) as nat,
            );
        }
    }

    /// Every prefix of the matched part of a stream leads to a node.
    pub proof fn lemma_divergence_prefixes(self, s: Seq<K>, m: int)
        requires
            0 <= m <= self.divergence(s),
        ensures
            self.contains_path(s.take(m)),
        decreases m,
    {
        if m == 0 {
            assert(s.take(0) =~= Seq::<K>::empty());
            assert(self.node_at(s.take(0)) == Some(self));
        } else {
            let c = self.spec_child(s[0]).unwrap();
            c.lemma_divergence_bounds(s.skip(1));
            c.lemma_divergence_prefixes(s.skip(1), m - 1);
            assert(s.take(m)[0] == s[0]);
            assert(s.take(m).skip(1) =~= s.skip(1).take(m - 1));
            assert(self.node_at(s.take(m)) == c.node_at(s.skip(1).take(m - 1)));
        }
    }

    /// Law: a run of `n` extensions adds at most `n` dictionary entries. The
    /// returned sequence lists one inserted sequence per extension, and every
    /// path reachable after the run was reachable before it or is one of
    /// those `n`.
    pub proof fn lemma_lzw_new_entries(
        t0: Self,
        s: Seq<K>,
        pos0: int,
        t1: Self,
        pos1: int,
        new_vals: Seq<V>,
        emitted: Seq<Option<V>>,
        n: nat,
    ) -> (entries: Seq<Seq<K>>)
        requires
            Self::lzw_steps(t0, s, pos0, t1, pos1, new_vals, emitted, n),
        ensures
            entries.len() == n,
            forall|p: Seq<K>|
                #[trigger] t1.contains_path(p) ==> t0.contains_path(p) || entries.contains(p),
        decreases n,
    {
        if n == 0 {
            Seq::<Seq<K>>::empty()
        } else {
            let rem = s.skip(pos0);
            let d = t0.divergence(rem);
            let q = rem.take(d + 1);
            let tmid = choose|tm: Self|
                #[trigger] Self::inserted(t0, q, new_vals[0], tm) && Self::lzw_steps(
                    tm,
                    s,
                    pos0 + d,
                    t1,
                    pos1,
                    new_vals.skip(1),
                    emitted.skip(1),
                    (n - 1) as nat,
                );
            let tail = Self::lemma_lzw_new_entries(
                tmid,
                s,
                pos0 + d,
                t1,
                pos1,
                new_vals.skip(1),
                emitted.skip(1),
                (n - 1) as nat,
            );
            let entries = seq![q] + tail;
            assert forall|p: Seq<K>| #[trigger] t1.contains_path(p) implies t0.contains_path(p)
                || entries.contains(p) by {
                if !t0.contains_path(p) {
                    if tmid.contains_path(p) && !tail.contains(p) {
                        assert(p.is_prefix_of(q));
                        if p != q {
                            t0.lemma_divergence_bounds(rem);
                            assert(q.len() == d + 1);
                            assert(p =~= q.subrange(0, p.len() as int));
                            if p.len() == q.len() {
                                assert(p =~= q);
                            }
                            assert(p.len() < q.len());
                            assert(p =~= rem.take(p.len() as int)) by {
                                assert forall|i: int| 0 <= i < p.len() implies p[i] == rem.take(
                                    p.len() as int,
                                )[i] by {
                                    assert(p[i] == q.subrange(0, p.len() as int)[i]);
                                    assert(q[i] == rem.take(d + 1)[i]);
                                }
                            }
                            t0.lemma_divergence_prefixes(rem, p.len() as int);
                            assert(false);
                        }
                        assert(entries[0] == q);
                        assert(entries.contains(p));
                    } else {
                        let i = choose|i: int| 0 <= i < tail.len() && tail[i] == p;
                        assert(entries[i + 1] == p);
                        assert(entries.contains(p));
                    }
                }
            }
            entries
        }
    }

    /// Performs one dictionary extension. The cursor advances exactly over
    /// the longest prefix of the stream whose nodes already exist (the
    /// divergence point stays unread). If the stream still has a symbol
    /// there, a new entry one symbol past that prefix is inserted with the
    /// next fresh value, and the value stored at the matched prefix is
    /// returned; if the stream ran out first, nothing changes and an error
    /// reports the exhaustion.
    pub fn lzw_insert(&mut self, key_it: &mut KeyCursor<K>, new_val: &mut ValueCursor<V>) -> (r:
        Result<Option<V>, TrieError>)
        requires
            old(self).wf(),
            old(key_it).wf(),
            old(new_val).wf(),
            old(self).divergence(old(key_it).remaining()) < old(key_it).remaining().len() ==> old(
                new_val,
            ).remaining().len() > 0,
        ensures
            final(self).wf(),
            final(key_it).wf(),
            final(new_val).wf(),
            final(key_it).items == old(key_it).items,
            final(key_it).pos == old(key_it).pos + old(self).divergence(old(key_it).remaining()),
            final(self).key == old(self).key,
            old(self).divergence(old(key_it).remaining()) == old(key_it).remaining().len() ==> {
                &&& (r matches Err(TrieError::Lzw(_)))
                &&& *final(new_val) == *old(new_val)
                &&& forall|p: Seq<K>|
                    #![trigger final(self).contains_path(p)]
                    #![trigger old(self).contains_path(p)]
                    final(self).contains_path(p) <==> old(self).contains_path(p)
                &&& forall|p: Seq<K>|
                    #![trigger final(self).value_at(p)]
                    #![trigger old(self).value_at(p)]
                    final(self).value_at(p) == old(self).value_at(p)
            },
            old(self).divergence(old(key_it).remaining()) < old(key_it).remaining().len() ==> {
                let s = old(key_it).remaining();
                let d = old(self).divergence(s);
                &&& r == Ok::<Option<V>, TrieError>(old(self).value_at(s.take(d)))
                &&& final(new_val).items == old(new_val).items
                &&& final(new_val).pos == old(new_val).pos + 1
                &&& Self::inserted(
                    *old(self),
                    s.take(d + 1),
                    old(new_val).remaining()[0],
                    *final(self),
                )
            },
        decreases old(key_it).remaining().len(),
    {
        let ghost t0 = *old(self);
        let ghost s = old(key_it).remaining();
        let ghost d = t0.divergence(s);
        proof {
            t0.lemma_divergence_bounds(s);
        }
        match key_it.peek() {
            None => {
                proof {
                    assert(s.len() == 0);
                }
                Err(TrieError::Lzw("stream exhausted before a new entry could be created".to_string()))
            },
            Some(k) => {
                proof {
                    assert(s.len() > 0 && s[0] == k);
                }
                match self.find_child(&k) {
                    Some(j) => {
                        proof {
                            Self::lemma_assoc_at(t0.children@, k, j as int);
                            t0.lemma_wf_child(k);
                        }
                        let _ = key_it.next();
                        let (ck, mut child) = self.children.remove(j);
                        let ghost c0 = child;
                        let ghost s1 = s.skip(1);
                        let ghost d1 = c0.divergence(s1);
                        proof {
                            assert(ck == k);
                            assert(d == 1 + d1);
                            c0.lemma_divergence_bounds(s1);
                        }
                        let r = child.lzw_insert(key_it, new_val);
                        let ghost c1 = child;
                        self.children.insert(j, (ck, child));
                        proof {
                            let t1 = *self;
                            assert(t1.children@ =~= t0.children@.update(j as int, (k, c1)));
                            Self::lemma_update_child(t0, t1, j as int, c1);
                            if d1 == s1.len() {
                                assert forall|p: Seq<K>|
                                    #![trigger t1.contains_path(p)]
                                    #![trigger t0.contains_path(p)]
                                    t1.contains_path(p) <==> t0.contains_path(p) by {
                                    if p.len() == 0 {
                                        assert(t1.node_at(p) == Some(t1));
                                        assert(t0.node_at(p) == Some(t0));
                                    } else if p[0] == k {
                                        assert(c1.contains_path(p.skip(1)) <==> c0.contains_path(
                                            p.skip(1),
                                        ));
                                    }
                                }
                                assert forall|p: Seq<K>|
                                    #![trigger t1.value_at(p)]
                                    #![trigger t0.value_at(p)]
                                    t1.value_at(p) == t0.value_at(p) by {
                                    if p.len() == 0 {
                                        assert(t1.node_at(p) == Some(t1));
                                        assert(t0.node_at(p) == Some(t0));
                                    } else if p[0] == k {
                                        assert(c1.value_at(p.skip(1)) == c0.value_at(p.skip(1)));
                                    }
                                }
                                Self::lemma_wf_update(t0, t1, j as int, c1);
                            } else {
                                let v = old(new_val).remaining()[0];
                                assert(Self::inserted(c0, s1.take(d1 + 1), v, c1));
                                let q = s.take(d + 1);
                                assert(q.len() == d + 1);
                                assert(q[0] == k);
                                assert(q.skip(1) =~= s1.take(d1 + 1));
                                Self::lemma_insert_lift(t0, t1, c0, c1, q, v);
                                Self::lemma_wf_update(t0, t1, j as int, c1);
                                assert(s.take(d)[0] == k);
                                assert(s.take(d).skip(1) =~= s1.take(d1));
                                assert(t0.node_at(s.take(d)) == c0.node_at(s1.take(d1)));
                            }
                        }
                        r
                    },
                    None => {
                        proof {
                            Self::lemma_assoc_none(t0.children@, k);
                            assert(d == 0);
                        }
                        let v = new_val.next_value();
                        let node = TrieNode::new(Some(k), Some(v));
                        self.children.push((k, node));
                        proof {
                            let t1 = *self;
                            let q = s.take(1);
                            assert(q.len() == 1 && q[0] == k);
                            assert(node.is_tail_for(q.skip(1), v)) by {
                                assert(q.skip(1) =~= Seq::<K>::empty());
                                assert(node.node_at(q.skip(1)) == Some(node));
                                assert forall|p: Seq<K>| #[trigger]
                                    node.contains_path(p) <==> p.is_prefix_of(q.skip(1)) by {
                                    crate::trie::lemma_prefix_of_empty::<K>(p);
                                    if p.len() == 0 {
                                        assert(p =~= Seq::<K>::empty());
                                        crate::trie::lemma_empty_prefix::<K>(q.skip(1));
                                    }
                                }
                                assert forall|p: Seq<K>|
                                    p.is_prefix_of(q.skip(1)) && p != q.skip(1) implies #[trigger]
                                    node.value_at(p) == None::<V> by {
                                    crate::trie::lemma_prefix_of_empty::<K>(p);
                                    assert(p =~= Seq::<K>::empty());
                                }
                            }
                            Self::lemma_push_child(t0, t1, k, node);
                            Self::lemma_insert_graft(t0, t1, node, q, v);
                            Self::lemma_wf_push(t0, t1, k, node);
                            assert(s.take(0) =~= Seq::<K>::empty());
                            assert(t0.node_at(s.take(0)) == Some(t0));
                            assert(t1.value == t0.value);
                        }
                        Ok(self.value)
                    },
                }
            },
        }
    }

    /// The single-value formulation of the dictionary extension: like
    /// `lzw_insert`, but the new entry receives the value handed in rather
    /// than one drawn from a cursor. The trie and the stream cursor end in
    /// the same state as after `lzw_insert`.
    pub fn lzw_insert_iter(root: &mut TrieNode<K, V>, key_it: &mut KeyCursor<K>, value: V) -> (r:
        Result<Option<V>, TrieError>)
        requires
            old(root).wf(),
            old(key_it).wf(),
        ensures
            final(root).wf(),
            final(key_it).wf(),
            final(key_it).items == old(key_it).items,
            final(key_it).pos == old(key_it).pos + old(root).divergence(old(key_it).remaining()),
            final(root).key == old(root).key,
            old(root).divergence(old(key_it).remaining()) == old(key_it).remaining().len() ==> {
                &&& (r matches Err(TrieError::Lzw(_)))
                &&& forall|p: Seq<K>|
                    #![trigger final(root).contains_path(p)]
                    #![trigger old(root).contains_path(p)]
                    final(root).contains_path(p) <==> old(root).contains_path(p)
                &&& forall|p: Seq<K>|
                    #![trigger final(root).value_at(p)]
                    #![trigger old(root).value_at(p)]
                    final(root).value_at(p) == old(root).value_at(p)
            },
            old(root).divergence(old(key_it).remaining()) < old(key_it).remaining().len() ==> {
                let s = old(key_it).remaining();
                let d = old(root).divergence(s);
                &&& r == Ok::<Option<V>, TrieError>(old(root).value_at(s.take(d)))
                &&& Self::inserted(*old(root), s.take(d + 1), value, *final(root))
            },
        decreases old(key_it).remaining().len(),
    {
        let ghost t0 = *old(root);
        let ghost s = old(key_it).remaining();
        let ghost d = t0.divergence(s);
        proof {
            t0.lemma_divergence_bounds(s);
        }
        match key_it.peek() {
            None => {
                proof {
                    assert(s.len() == 0);
                }
                Err(TrieError::Lzw("stream exhausted before a new entry could be created".to_string()))
            },
            Some(k) => {
                proof {
                    assert(s.len() > 0 && s[0] == k);
                }
                match root.find_child(&k) {
                    Some(j) => {
                        proof {
                            Self::lemma_assoc_at(t0.children@, k, j as int);
                            t0.lemma_wf_child(k);
                        }
                        let _ = key_it.next();
                        let (ck, mut child) = root.children.remove(j);
                        let ghost c0 = child;
                        let ghost s1 = s.skip(1);
                        let ghost d1 = c0.divergence(s1);
                        proof {
                            assert(ck == k);
                            assert(d == 1 + d1);
                            c0.lemma_divergence_bounds(s1);
                        }
                        let r = Self::lzw_insert_iter(&mut child, key_it, value);
                        let ghost c1 = child;
                        root.children.insert(j, (ck, child));
                        proof {
                            let t1 = *root;
                            assert(t1.children@ =~= t0.children@.update(j as int, (k, c1)));
                            Self::lemma_update_child(t0, t1, j as int, c1);
                            if d1 == s1.len() {
                                assert forall|p: Seq<K>|
                                    #![trigger t1.contains_path(p)]
                                    #![trigger t0.contains_path(p)]
                                    t1.contains_path(p) <==> t0.contains_path(p) by {
                                    if p.len() == 0 {
                                        assert(t1.node_at(p) == Some(t1));
                                        assert(t0.node_at(p) == Some(t0));
                                    } else if p[0] == k {
                                        assert(c1.contains_path(p.skip(1)) <==> c0.contains_path(
                                            p.skip(1),
                                        ));
                                    }
                                }
                                assert forall|p: Seq<K>|
                                    #![trigger t1.value_at(p)]
                                    #![trigger t0.value_at(p)]
                                    t1.value_at(p) == t0.value_at(p) by {
                                    if p.len() == 0 {
                                        assert(t1.node_at(p) == Some(t1));
                                        assert(t0.node_at(p) == Some(t0));
                                    } else if p[0] == k {
                                        assert(c1.value_at(p.skip(1)) == c0.value_at(p.skip(1)));
                                    }
                                }
                                Self::lemma_wf_update(t0, t1, j as int, c1);
                            } else {
                                assert(Self::inserted(c0, s1.take(d1 + 1), value, c1));
                                let q = s.take(d + 1);
                                assert(q.len() == d + 1);
                                assert(q[0] == k);
                                assert(q.skip(1) =~= s1.take(d1 + 1));
                                Self::lemma_insert_lift(t0, t1, c0, c1, q, value);
                                Self::lemma_wf_update(t0, t1, j as int, c1);
                                assert(s.take(d)[0] == k);
                                assert(s.take(d).skip(1) =~= s1.take(d1));
                                assert(t0.node_at(s.take(d)) == c0.node_at(s1.take(d1)));
                            }
                        }
                        r
                    },
                    None => {
                        proof {
                            Self::lemma_assoc_none(t0.children@, k);
                            assert(d == 0);
                        }
                        let node = TrieNode::new(Some(k), Some(value));
                        root.children.push((k, node));
                        proof {
                            let t1 = *root;
                            let q = s.take(1);
                            assert(q.len() == 1 && q[0] == k);
                            assert(node.is_tail_for(q.skip(1), value)) by {
                                assert(q.skip(1) =~= Seq::<K>::empty());
                                assert(node.node_at(q.skip(1)) == Some(node));
                                assert forall|p: Seq<K>| #[trigger]
                                    node.contains_path(p) <==> p.is_prefix_of(q.skip(1)) by {
                                    crate::trie::lemma_prefix_of_empty::<K>(p);
                                    if p.len() == 0 {
                                        assert(p =~= Seq::<K>::empty());
                                        crate::trie::lemma_empty_prefix::<K>(q.skip(1));
                                    }
                                }
                                assert forall|p: Seq<K>|
                                    p.is_prefix_of(q.skip(1)) && p != q.skip(1) implies #[trigger]
                                    node.value_at(p) == None::<V> by {
                                    crate::trie::lemma_prefix_of_empty::<K>(p);
                                    assert(p =~= Seq::<K>::empty());
                                }
                            }
                            Self::lemma_push_child(t0, t1, k, node);
                            Self::lemma_insert_graft(t0, t1, node, q, value);
                            Self::lemma_wf_push(t0, t1, k, node);
                            assert(s.take(0) =~= Seq::<K>::empty());
                            assert(t0.node_at(s.take(0)) == Some(t0));
                            assert(t1.value == t0.value);
                        }
                        Ok(root.value)
                    },
                }
            },
        }
    }
}

} // verus!
