//! The LZW dictionary: a trie of tokens keyed by codes, seeded from an
//! alphabet and grown by the LZW extension loop.

use vstd::prelude::*;
use vstd::slice::slice_to_vec;
use crate::lzw_code::{gen_codes, gen_step, lemma_shift_zero_iff, Code, CodeGenerator, LzwSpec};
use crate::lzw_dict::KeyCursor;
use crate::lzw_token::{ControlToken, Token};
use crate::trie::{TrieError, TrieKey, TrieNode};

verus! {

/// The token that asks the decoder to clear its dictionary.
pub open spec fn clear_token<T: TrieKey>() -> Token<T> {
    Token { value: None, control_token: Some(ControlToken::Clear) }
}

/// The token that marks the end of the coded stream.
pub open spec fn end_token<T: TrieKey>() -> Token<T> {
    Token { value: None, control_token: Some(ControlToken::End) }
}

/// A dictionary for LZW coding: the trie of entries, plus the policy flags
/// that said which control entries were seeded.
pub struct TrieDictionary<T: TrieKey> {
    pub root: TrieNode<Token<T>, Code>,
    pub clear_code: bool,
    pub end_code: bool,
}

impl<T: TrieKey> TrieDictionary<T> {
    /// Builds a dictionary seeded with one code per alphabet symbol, in
    /// order, followed by the clear and end control entries where the run
    /// asks for them. Codes are drawn in sequence from `code_gen`, whose
    /// width must leave room for the whole seed.
    pub fn new(lzw_spec: LzwSpec, code_gen: &mut CodeGenerator, alphabet: Vec<Token<T>>) -> (d:
        TrieDictionary<T>)
        requires
            old(code_gen).wf(),
            forall|i: int, j: int|
                0 <= i < j < alphabet@.len() ==> alphabet@[i] != alphabet@[j],
            forall|i: int|
                0 <= i < alphabet@.len() ==> (#[trigger] alphabet@[i]).control_token is None,
            old(code_gen).current_code + alphabet@.len() + (if lzw_spec.clear_code {
                1int
            } else {
                0int
            }) + (if lzw_spec.end_code {
                1int
            } else {
                0int
            }) <= old(code_gen).capacity(),
        ensures
            d.clear_code == lzw_spec.clear_code,
            d.end_code == lzw_spec.end_code,
            d.root.wf(),
            d.root.value is None,
            final(code_gen).wf(),
            final(code_gen).width == old(code_gen).width,
            final(code_gen).current_code == old(code_gen).current_code + alphabet@.len() + (
            if lzw_spec.clear_code {
                1int
            } else {
                0int
            }) + (if lzw_spec.end_code {
                1int
            } else {
                0int
            }),
            forall|i: int|
                0 <= i < alphabet@.len() ==> d.root.value_at(seq![alphabet@[i]]) == Some(
                    Code {
                        code: (old(code_gen).current_code + i) as u32,
                        used_bits: old(code_gen).width,
                    },
                ),
            lzw_spec.clear_code ==> d.root.value_at(seq![clear_token::<T>()]) == Some(
                Code {
                    code: (old(code_gen).current_code + alphabet@.len()) as u32,
                    used_bits: old(code_gen).width,
                },
            ),
            lzw_spec.end_code ==> d.root.value_at(seq![end_token::<T>()]) == Some(
                Code {
                    code: (old(code_gen).current_code + alphabet@.len() + (
                    if lzw_spec.clear_code {
                        1int
                    } else {
                        0int
                    })) as u32,
                    used_bits: old(code_gen).width,
                },
            ),
            forall|p: Seq<Token<T>>|
                #![trigger d.root.contains_path(p)]
                d.root.contains_path(p) <==> (p.len() == 0 || (p.len() == 1 && exists|i: int|
                    0 <= i < alphabet@.len() && p[0] == alphabet@[i]) || (lzw_spec.clear_code && p
                    == seq![clear_token::<T>()]) || (lzw_spec.end_code && p == seq![
                    end_token::<T>()
                ])),
    {
        let ghost g0 = *old(code_gen);
        let mut root: TrieNode<Token<T>, Code> = TrieNode::new_root();
        let mut i: usize = 0;
        let n = alphabet.len();
        while i < n
            invariant
                n == alphabet@.len(),
                i <= n,
                g0 == *old(code_gen),
                forall|i2: int, j2: int|
                    0 <= i2 < j2 < alphabet@.len() ==> alphabet@[i2] != alphabet@[j2],
                g0.current_code + alphabet@.len() <= g0.capacity(),
                code_gen.wf(),
                code_gen.width == g0.width,
                code_gen.variable_width == g0.variable_width,
                code_gen.min_width == g0.min_width,
                code_gen.max_width == g0.max_width,
                code_gen.pack_msb_first == g0.pack_msb_first,
                code_gen.current_code == g0.current_code + i,
                root.wf(),
                root.key is None,
                root.value is None,
                forall|j: int|
                    0 <= j < i ==> root.value_at(seq![alphabet@[j]]) == Some(
                        Code { code: (g0.current_code + j) as u32, used_bits: g0.width },
                    ),
                forall|p: Seq<Token<T>>|
                    #![trigger root.contains_path(p)]
                    root.contains_path(p) <==> (p.len() == 0 || (p.len() == 1 && exists|j: int|
                        0 <= j < i && p[0] == alphabet@[j])),
            decreases n - i,
        {
            proof {
                lemma_shift_zero_iff(code_gen.current_code, code_gen.width as u32);
            }
            let code_opt = code_gen.get_next_code();
            let code = code_opt.unwrap();
            let ghost pre = root;
            root.add_child(alphabet[i], Some(code));
            proof {
                let tok = alphabet@[i as int];
                assert(seq![tok].len() == 1 && seq![tok][0] == tok);
                assert forall|j: int| 0 <= j < i + 1 implies root.value_at(seq![alphabet@[j]])
                    == Some(Code { code: (g0.current_code + j) as u32, used_bits: g0.width }) by {
                    if j < i {
                        assert(seq![alphabet@[j]][0] == alphabet@[j]);
                        assert(alphabet@[j] != tok);
                        assert(root.value_at(seq![alphabet@[j]]) == pre.value_at(
                            seq![alphabet@[j]],
                        ));
                    }
                }
                assert forall|p: Seq<Token<T>>|
                    #![trigger root.contains_path(p)]
                    root.contains_path(p) <==> (p.len() == 0 || (p.len() == 1 && exists|j: int|
                        0 <= j < i + 1 && p[0] == alphabet@[j])) by {
                    if p.len() > 0 && p[0] == tok {
                        if root.contains_path(p) {
                            assert(p == seq![tok]);
                            assert(p[0] == alphabet@[i as int]);
                        }
                        if p.len() == 1 {
                            assert(p =~= seq![tok]);
                        }
                    } else {
                        assert(root.contains_path(p) <==> pre.contains_path(p));
                    }
                }
            }
            i = i + 1;
        }
        let ghost root_a = root;
        if lzw_spec.clear_code {
            proof {
                lemma_shift_zero_iff(code_gen.current_code, code_gen.width as u32);
            }
            let code_opt = code_gen.get_next_code();
            let code = code_opt.unwrap();
            let ghost pre = root;
            root.add_child(Token::new_control(ControlToken::Clear), Some(code));
            proof {
                assert forall|p: Seq<Token<T>>| #[trigger] pre.contains_path(p) implies p.len()
                    <= 1 by {}
                Self::lemma_control_step(pre, root, alphabet@, clear_token::<T>(), code);
            }
        }
        let ghost root_c = root;
        if lzw_spec.end_code {
            proof {
                lemma_shift_zero_iff(code_gen.current_code, code_gen.width as u32);
            }
            let code_opt = code_gen.get_next_code();
            let code = code_opt.unwrap();
            let ghost pre = root;
            root.add_child(Token::new_control(ControlToken::End), Some(code));
            proof {
                assert forall|p: Seq<Token<T>>| #[trigger] pre.contains_path(p) implies p.len()
                    <= 1 by {}
                Self::lemma_control_step(pre, root, alphabet@, end_token::<T>(), code);
            }
        }
        proof {
            assert(clear_token::<T>() != end_token::<T>());
            if lzw_spec.end_code {
                assert(seq![clear_token::<T>()] != seq![end_token::<T>()]) by {
                    assert(seq![clear_token::<T>()][0] == clear_token::<T>());
                    assert(seq![end_token::<T>()][0] == end_token::<T>());
                }
            }
            assert forall|p: Seq<Token<T>>|
                #![trigger root.contains_path(p)]
                root.contains_path(p) <==> (p.len() == 0 || (p.len() == 1 && exists|i: int|
                    0 <= i < alphabet@.len() && p[0] == alphabet@[i]) || (lzw_spec.clear_code && p
                    == seq![clear_token::<T>()]) || (lzw_spec.end_code && p == seq![
                    end_token::<T>()
                ])) by {
                assert(root_c.contains_path(p) <==> (root_a.contains_path(p) || (
                lzw_spec.clear_code && p == seq![clear_token::<T>()])));
                assert(root.contains_path(p) <==> (root_c.contains_path(p) || (lzw_spec.end_code
                    && p == seq![end_token::<T>()])));
                if p == seq![clear_token::<T>()] || p == seq![end_token::<T>()] {
                    assert(p.len() == 1);
                }
            }
        }
        TrieDictionary { root, clear_code: lzw_spec.clear_code, end_code: lzw_spec.end_code }
    }

    /// Adding one control entry keeps every payload entry: controls carry no
    /// payload value, so they equal no alphabet symbol.
    proof fn lemma_control_step(
        pre: TrieNode<Token<T>, Code>,
        post: TrieNode<Token<T>, Code>,
        alphabet: Seq<Token<T>>,
        tok: Token<T>,
        code: Code,
    )
        requires
            TrieNode::child_set(pre, tok, Some(code), post),
            tok.control_token is Some,
            forall|i: int| 0 <= i < alphabet.len() ==> (#[trigger] alphabet[i]).control_token is None,
            forall|p: Seq<Token<T>>| #[trigger] pre.contains_path(p) ==> p.len() <= 1,
        ensures
            forall|p: Seq<Token<T>>| #[trigger] post.contains_path(p) ==> p.len() <= 1,
            post.value_at(seq![tok]) == Some(code),
            forall|i: int|
                0 <= i < alphabet.len() ==> post.value_at(seq![alphabet[i]]) == pre.value_at(
                    seq![alphabet[i]],
                ),
            forall|p: Seq<Token<T>>|
                #![trigger post.contains_path(p)]
                post.contains_path(p) <==> (pre.contains_path(p) || p == seq![tok]),
            forall|p: Seq<Token<T>>|
                p != seq![tok] ==> #[trigger] post.value_at(p) == pre.value_at(p),
    {
        assert forall|i: int| 0 <= i < alphabet.len() implies post.value_at(seq![alphabet[i]])
            == pre.value_at(seq![alphabet[i]]) by {
            assert(seq![alphabet[i]][0] == alphabet[i]);
            assert(alphabet[i] != tok);
        }
        assert forall|p: Seq<Token<T>>|
            #![trigger post.contains_path(p)]
            post.contains_path(p) <==> (pre.contains_path(p) || p == seq![tok]) by {
            if p.len() > 0 && p[0] == tok {
                if p.len() == 1 {
                    assert(p =~= seq![tok]);
                } else {
                    assert(!pre.contains_path(p));
                    assert(p != seq![tok]);
                }
            }
        }
        assert forall|p: Seq<Token<T>>| p != seq![tok] implies #[trigger] post.value_at(p)
            == pre.value_at(p) by {
            if p.len() > 0 && p[0] == tok {
                assert(p.len() != 1 || p =~= seq![tok]);
                assert(!pre.contains_path(p));
                assert(!post.contains_path(p));
                assert(pre.node_at(p) is None);
                assert(post.node_at(p) is None);
            }
        }
    }

    /// Looks up the code of an exact token sequence: `None` both when the
    /// sequence leads out of the trie and when its node holds no code yet.
    pub fn _search(&self, search_seq: &[Token<T>]) -> (r: Option<Code>)
        ensures
            r == (if self.root.contains_path(search_seq@) {
                self.root.value_at(search_seq@)
            } else {
                None::<Code>
            }),
    {
        match self.root.search(search_seq) {
            Ok(v) => v,
            Err(_) => None,
        }
    }

    /// Stores `sequence_code` under the exact sequence `input_seq`,
    /// overwriting the code of an entry already present; nodes created on
    /// the way hold no code of their own. The empty sequence names no node
    /// and leaves the dictionary unchanged.
    pub fn _insert(&mut self, input_seq: &[Token<T>], sequence_code: Code)
        requires
            old(self).root.wf(),
        ensures
            final(self).root.wf(),
            final(self).clear_code == old(self).clear_code,
            final(self).end_code == old(self).end_code,
            input_seq@.len() > 0 ==> TrieNode::inserted(
                old(self).root,
                input_seq@,
                sequence_code,
                final(self).root,
            ),
            input_seq@.len() == 0 ==> final(self).root == old(self).root,
    {
        let _ = self.root.insert(input_seq, sequence_code);
    }

    /// Runs the LZW extension loop over a whole token stream: each round
    /// consumes the longest already-known prefix and inserts one entry one
    /// symbol longer, coded with the next fresh code. The run ends when the
    /// rest of the stream is fully known (`Ok`), or with an error when the
    /// code space is exhausted first.
    pub fn run_encrypt(&mut self, tokens: &[Token<T>], code_gen: &mut CodeGenerator) -> (r: Result<
        (),
        TrieError,
    >)
        requires
            old(self).root.wf(),
            old(code_gen).wf(),
        ensures
            final(self).root.wf(),
            final(self).clear_code == old(self).clear_code,
            final(self).end_code == old(self).end_code,
            final(code_gen).wf(),
            final(code_gen).width == old(code_gen).width,
            exists|n: nat, pos1: int, em: Seq<Option<Code>>|
                {
                    &&& #[trigger] TrieNode::lzw_steps(
                        old(self).root,
                        tokens@,
                        0,
                        final(self).root,
                        pos1,
                        gen_codes(*old(code_gen), n),
                        em,
                        n,
                    )
                    &&& final(code_gen).current_code == old(code_gen).current_code + n
                    &&& 0 <= pos1 <= tokens@.len()
                    &&& (r is Ok ==> pos1 + final(self).root.divergence(tokens@.skip(pos1))
                        == tokens@.len())
                    &&& (r is Err ==> final(code_gen).current_code >> (
                    final(code_gen).width as u32) != 0)
                },
            (forall|i: int|
                0 <= i < tokens@.len() ==> old(self).root.contains_path(
                    #[trigger] seq![tokens@[i]],
                )) && tokens@.len() + old(code_gen).current_code < (1u32 << (
            old(code_gen).width as u32)) ==> r is Ok,
    {
        let ghost t_init = old(self).root;
        let ghost g0 = *old(code_gen);
        let mut cursor: KeyCursor<Token<T>> = KeyCursor::new(slice_to_vec(tokens));
        let ghost mut n: nat = 0nat;
        let ghost mut em: Seq<Option<Code>> = Seq::empty();
        proof {
            assert(gen_codes(g0, 0) =~= Seq::<Code>::empty());
        }
        loop
            invariant
                self.root.wf(),
                self.clear_code == old(self).clear_code,
                self.end_code == old(self).end_code,
                cursor.wf(),
                cursor.items@ == tokens@,
                code_gen.wf(),
                code_gen.width == g0.width,
                code_gen.variable_width == g0.variable_width,
                code_gen.min_width == g0.min_width,
                code_gen.max_width == g0.max_width,
                code_gen.pack_msb_first == g0.pack_msb_first,
                code_gen.current_code == g0.current_code + n,
                t_init == old(self).root,
                g0 == *old(code_gen),
                TrieNode::lzw_steps(
                    t_init,
                    tokens@,
                    0,
                    self.root,
                    cursor.pos as int,
                    gen_codes(g0, n),
                    em,
                    n,
                ),
            decreases 2 * (tokens@.len() - cursor.pos) + (if cursor.pos < tokens@.len()
                && self.root.spec_child(tokens@[cursor.pos as int]) is Some {
                0int
            } else {
                1int
            }),
        {
            let d = self.root.divergence_depth(&cursor);
            let rem = cursor.remaining_len();
            if d == rem {
                return Ok(());
            }
            proof {
                self.root.lemma_divergence_bounds(cursor.remaining());
            }
            let ghost pre_gen = *code_gen;
            match code_gen.get_next_code() {
                None => {
                    proof {
                        lemma_shift_zero_iff(code_gen.current_code, code_gen.width as u32);
                        if (forall|i: int|
                            0 <= i < tokens@.len() ==> t_init.contains_path(
                                #[trigger] seq![tokens@[i]],
                            )) && tokens@.len() + g0.current_code < (1u32 << (g0.width as u32)) {
                            TrieNode::lemma_lzw_growth(
                                t_init,
                                tokens@,
                                0,
                                self.root,
                                cursor.pos as int,
                                gen_codes(g0, n),
                                em,
                                n,
                            );
                            assert(false);
                        }
                    }
                    return Err(
                        TrieError::Lzw("code space exhausted before the stream ended".to_string()),
                    );
                },
                Some(code) => {
                    proof {
                        assert(gen_step(pre_gen).1 is Some);
                        assert(pre_gen.current_code >> (pre_gen.width as u32) == 0);
                        lemma_shift_zero_iff(pre_gen.current_code, pre_gen.width as u32);
                        assert(code_gen.current_code == pre_gen.current_code + 1);
                        assert(code == Code { code: pre_gen.current_code, used_bits: pre_gen.width });
                    }
                    let ghost t_prev = self.root;
                    let ghost pos_prev = cursor.pos as int;
                    let ghost s_rem = cursor.remaining();
                    let _ = TrieNode::lzw_insert_iter(&mut self.root, &mut cursor, code);
                    proof {
                        let dd = t_prev.divergence(s_rem);
                        assert(TrieNode::inserted(t_prev, s_rem.take(dd + 1), code, self.root));
                        assert(s_rem == tokens@.skip(pos_prev));
                        TrieNode::lemma_lzw_steps_snoc(
                            t_init,
                            tokens@,
                            0,
                            t_prev,
                            pos_prev,
                            gen_codes(g0, n),
                            em,
                            n,
                            self.root,
                            code,
                        );
                        em = em.push(t_prev.value_at(s_rem.take(dd)));
                        n = n + 1;
                        assert(gen_codes(g0, n) =~= gen_codes(g0, (n - 1) as nat).push(code));
                        assert(self.root.contains_path(s_rem.take(dd + 1))) by {
                            crate::trie::lemma_self_prefix::<Token<T>>(s_rem.take(dd + 1));
                        }
                        assert(cursor.pos == pos_prev + dd);
                        assert(s_rem[0] == tokens@[pos_prev]);
                        if dd == 0 {
                            let q = s_rem.take(1);
                            assert(q.len() == 1 && q[0] == tokens@[cursor.pos as int]);
                            assert(self.root.node_at(q) is Some);
                            assert(self.root.spec_child(q[0]) is Some);
                            if t_prev.spec_child(s_rem[0]) is Some {
                                t_prev.spec_child(s_rem[0]).unwrap().lemma_divergence_bounds(
                                    s_rem.skip(1),
                                );
                            }
                            assert(t_prev.spec_child(s_rem[0]) is None);
                        } else {
                            assert(t_prev.spec_child(s_rem[0]) is Some);
                        }
                    }
                },
            }
        }
    }
}

} // verus!
