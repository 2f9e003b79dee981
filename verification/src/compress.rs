//! The LZW compression driver: seed a dictionary trie from an alphabet, then
//! repeat the dictionary extension over the input stream, collecting the code
//! emitted for each matched prefix.

use vstd::prelude::*;
use vstd::string::StringExecFns;
use crate::alphabets::{AlphabetError, Alphabetable};
use crate::lzw_code::{
    gen_codes, gen_step, lemma_shift_zero_iff, Code, CodeGenerator, LzwSpec,
};
use crate::lzw_dict::{KeyCursor, Token};
use crate::trie::{TrieError, TrieKey, TrieNode};

verus! {

/// The errors of a compression run.
#[derive(Debug)]
pub enum LzwError {
    /// The code space was exhausted before the stream ended.
    Compress(String),
    /// The seed alphabet could not be generated.
    Alphabet(String),
    /// A trie operation failed.
    Trie(String),
}

impl LzwError {
    /// Wraps an alphabet generation error, keeping its message behind a
    /// prefix that names the stage.
    pub fn from_alphabet(err: AlphabetError) -> (r: LzwError)
        ensures
            err matches AlphabetError::Generate(s) ==> (r matches LzwError::Alphabet(m) && m@
                == "Generation error"@ + s@),
    {
        match err {
            AlphabetError::Generate(s) => LzwError::Alphabet(
                "Generation error".to_string().concat(s.as_str()),
            ),
        }
    }

    /// Wraps a trie error, keeping its message behind a prefix that records
    /// which kind of trie error it was.
    pub fn from_trie(err: TrieError) -> (r: LzwError)
        ensures
            err matches TrieError::Insert(s) ==> (r matches LzwError::Trie(m) && m@
                == "Trie Insert Error"@ + s@),
            err matches TrieError::Search(s) ==> (r matches LzwError::Trie(m) && m@
                == "Trie Search Error"@ + s@),
            err matches TrieError::Lzw(s) ==> (r matches LzwError::Trie(m) && m@
                == "LzwTrie LzwInsert Error"@ + s@),
    {
        match err {
            TrieError::Insert(s) => LzwError::Trie(
                "Trie Insert Error".to_string().concat(s.as_str()),
            ),
            TrieError::Search(s) => LzwError::Trie(
                "Trie Search Error".to_string().concat(s.as_str()),
            ),
            TrieError::Lzw(s) => LzwError::Trie(
                "LzwTrie LzwInsert Error".to_string().concat(s.as_str()),
            ),
        }
    }
}

/// The seed symbols of a run, in dictionary order: the alphabet, then the
/// clear and end control symbols where the run asks for them.
pub open spec fn with_controls<T: TrieKey>(lzw_spec: LzwSpec, alpha: Seq<Token<T>>) -> Seq<
    Token<T>,
> {
    alpha + (if lzw_spec.clear_code {
        seq![Token::<T>::Clear]
    } else {
        Seq::<Token<T>>::empty()
    }) + (if lzw_spec.end_code {
        seq![Token::<T>::End]
    } else {
        Seq::<Token<T>>::empty()
    })
}

/// How many codes a generator can still hand out.
pub open spec fn codes_left(g: CodeGenerator) -> int {
    if g.current_code <= g.capacity() {
        g.capacity() - g.current_code
    } else {
        0
    }
}

/// A trie seeded for the run: it holds exactly one single-symbol entry per
/// seed symbol, coded 0, 1, 2, ... in seed order, and nothing else.
pub open spec fn seeded<T: TrieKey + Alphabetable<T>>(
    lzw_spec: LzwSpec,
    t: TrieNode<Token<T>, Code>,
) -> bool {
    let all = with_controls::<T>(lzw_spec, T::spec_alphabet());
    &&& t.wf()
    &&& t.value_at(Seq::<Token<T>>::empty()) is None
    &&& forall|p: Seq<Token<T>>|
        #![trigger t.contains_path(p)]
        t.contains_path(p) <==> (p.len() == 0 || (p.len() == 1 && exists|j: int|
            0 <= j < all.len() && p[0] == all[j]))
    &&& forall|j: int|
        0 <= j < all.len() ==> t.value_at(seq![all[j]]) == Some(
            Code { code: j as u32, used_bits: lzw_spec.width },
        )
}

/// Pairs each seed symbol with the next code from the allocator, stopping
/// early if the allocator is exhausted.
pub fn create_initial_entries<T: TrieKey>(
    lzw_spec: LzwSpec,
    tokens: Vec<Token<T>>,
    code_gen: &mut CodeGenerator,
) -> (r: Vec<(Token<T>, Code)>)
    requires
        old(code_gen).wf(),
    ensures
        final(code_gen).wf(),
        final(code_gen).width == old(code_gen).width,
        final(code_gen).variable_width == old(code_gen).variable_width,
        final(code_gen).min_width == old(code_gen).min_width,
        final(code_gen).max_width == old(code_gen).max_width,
        final(code_gen).pack_msb_first == old(code_gen).pack_msb_first,
        ({
            let all = with_controls::<T>(lzw_spec, tokens@);
            let m = if all.len() <= codes_left(*old(code_gen)) {
                all.len() as int
            } else {
                codes_left(*old(code_gen))
            };
            &&& r@.len() == m
            &&& forall|j: int|
                0 <= j < m ==> r@[j] == (
                    all[j],
                    Code {
                        code: (old(code_gen).current_code + j) as u32,
                        used_bits: old(code_gen).width,
                    },
                )
            &&& final(code_gen).current_code == old(code_gen).current_code + m
        }),
{
    let ghost g0 = *old(code_gen);
    let mut toks = tokens;
    if lzw_spec.clear_code {
        toks.push(Token::Clear);
    }
    if lzw_spec.end_code {
        toks.push(Token::End);
    }
    proof {
        assert(toks@ =~= with_controls::<T>(lzw_spec, tokens@));
    }
    let ghost all = toks@;
    let mut out: Vec<(Token<T>, Code)> = Vec::new();
    let mut i: usize = 0;
    while i < toks.len()
        invariant
            g0 == *old(code_gen),
            all == toks@,
            all == with_controls::<T>(lzw_spec, tokens@),
            i <= all.len(),
            code_gen.wf(),
            code_gen.width == g0.width,
            code_gen.variable_width == g0.variable_width,
            code_gen.min_width == g0.min_width,
            code_gen.max_width == g0.max_width,
            code_gen.pack_msb_first == g0.pack_msb_first,
            code_gen.current_code == g0.current_code + i,
            i <= codes_left(g0),
            out@.len() == i,
            forall|j: int|
                0 <= j < i ==> out@[j] == (
                    all[j],
                    Code { code: (g0.current_code + j) as u32, used_bits: g0.width },
                ),
        decreases toks@.len() - i,
    {
        let ghost pre_gen = *code_gen;
        match code_gen.get_next_code() {
            None => {
                proof {
                    lemma_shift_zero_iff(pre_gen.current_code, pre_gen.width as u32);
                    assert(gen_step(pre_gen).1 is None);
                    assert(gen_step(pre_gen).0 == pre_gen);
                    assert(*code_gen == pre_gen);
                    assert(pre_gen.current_code >= pre_gen.capacity());
                    assert(i == codes_left(g0));
                    assert(out@.len() == i);
                    assert(code_gen.current_code == g0.current_code + i);
                }
                return out;
            },
            Some(code) => {
                proof {
                    assert(gen_step(pre_gen).1 is Some);
                    lemma_shift_zero_iff(pre_gen.current_code, pre_gen.width as u32);
                    assert(pre_gen.current_code < pre_gen.capacity());
                }
                out.push((toks[i], code));
                i = i + 1;
            },
        }
    }
    out
}

/// What a compression run leaves behind when the alphabet generates: the
/// emitted codes are the values of the successive longest matched prefixes of
/// some LZW extension run over the input, performed on a freshly seeded
/// dictionary with fresh codes numbered from the end of the seed. The run
/// covers the whole input unless it stopped at a prefix that carried no value
/// (then one final empty emission is dropped) or, on the error side, the code
/// space ran out.
pub open spec fn compress_post<T: TrieKey + Alphabetable<T>>(
    lzw_spec: LzwSpec,
    file: Seq<Token<T>>,
    r: Result<Vec<Code>, LzwError>,
) -> bool {
    let all = with_controls::<T>(lzw_spec, T::spec_alphabet());
    let g_seed = CodeGenerator {
        current_code: all.len() as u32,
        variable_width: lzw_spec.variable_width,
        width: lzw_spec.width,
        min_width: lzw_spec.min_width,
        max_width: lzw_spec.max_width,
        pack_msb_first: lzw_spec.pack_msb_first,
    };
    match r {
        Ok(out) => exists|
            t_seed: TrieNode<Token<T>, Code>,
            t1: TrieNode<Token<T>, Code>,
            n: nat,
            pos1: int,
            em: Seq<Option<Code>>,
        |
            {
                &&& #[trigger] TrieNode::lzw_steps(
                    t_seed,
                    file,
                    0,
                    t1,
                    pos1,
                    gen_codes(g_seed, n),
                    em,
                    n,
                )
                &&& seeded::<T>(lzw_spec, t_seed)
                &&& forall|j: int| 0 <= j < out@.len() ==> em[j] == Some(out@[j])
                &&& (em.len() == out@.len() || (em.len() == out@.len() + 1 && em.last() is None))
                &&& (em.len() == out@.len() ==> pos1 + t1.divergence(file.skip(pos1)) == file.len())
            },
        Err(e) => (e matches LzwError::Compress(_)) && exists|
            t_seed: TrieNode<Token<T>, Code>,
            t1: TrieNode<Token<T>, Code>,
            n: nat,
            pos1: int,
            em: Seq<Option<Code>>,
        |
            {
                &&& #[trigger] TrieNode::lzw_steps(
                    t_seed,
                    file,
                    0,
                    t1,
                    pos1,
                    gen_codes(g_seed, n),
                    em,
                    n,
                )
                &&& seeded::<T>(lzw_spec, t_seed)
                &&& all.len() + n == (1u32 << (lzw_spec.width as u32))
            },
    }
}

/// Compresses a token stream: seeds a dictionary with the alphabet of `T`
/// (plus the control entries the run asks for) and repeats the dictionary
/// extension, collecting the emitted codes. The run stops at the end of the
/// stream, at a matched prefix that carries no code, or with an error when
/// the code space is exhausted.
pub fn compress<T: TrieKey + Alphabetable<T>>(lzw_spec: LzwSpec, file_vec: Vec<Token<T>>) -> (r:
    Result<Vec<Code>, LzwError>)
    requires
        lzw_spec.width < 32,
        forall|i: int, j: int|
            0 <= i < j < T::spec_alphabet().len() ==> T::spec_alphabet()[i]
                != T::spec_alphabet()[j],
        forall|i: int|
            0 <= i < T::spec_alphabet().len() ==> (#[trigger] T::spec_alphabet()[i]) matches Token::Value(_),
        with_controls::<T>(lzw_spec, T::spec_alphabet()).len() <= (1u32 << (
        lzw_spec.width as u32)),
    ensures
        !T::generate_ok() ==> (r matches Err(LzwError::Alphabet(_))),
        T::generate_ok() ==> compress_post::<T>(lzw_spec, file_vec@, r),
        T::generate_ok() && (forall|i: int|
            0 <= i < file_vec@.len() ==> exists|j: int|
                0 <= j < with_controls::<T>(lzw_spec, T::spec_alphabet()).len() && (
                #[trigger] file_vec@[i]) == with_controls::<T>(lzw_spec, T::spec_alphabet())[j])
            && file_vec@.len() + with_controls::<T>(lzw_spec, T::spec_alphabet()).len() < (1u32 << (
        lzw_spec.width as u32)) ==> r is Ok,
{
    let ghost alpha = T::spec_alphabet();
    let ghost all = with_controls::<T>(lzw_spec, alpha);
    let mut code_gen = CodeGenerator::new(lzw_spec);
    let alphabet = match T::generate() {
        Ok(a) => a,
        Err(e) => {
            return Err(LzwError::from_alphabet(e));
        },
    };
    proof {
        assert(T::generate_ok());
        assert(alphabet@ == alpha);
        lemma_shift_zero_iff(0, lzw_spec.width as u32);
    }
    let initial_entries = create_initial_entries(lzw_spec, alphabet, &mut code_gen);
    proof {
        lemma_all_distinct::<T>(lzw_spec);
        assert(initial_entries@.len() == all.len());
    }
    let mut lzw_trie: TrieNode<Token<T>, Code> = TrieNode::new(None, None);
    let ghost t0 = lzw_trie;
    let pop_res = lzw_trie.populate_initial(initial_entries.as_slice());
    if pop_res.is_err() {
        return Err(LzwError::Trie("seeding the dictionary failed".to_string()));
    }
    proof {
        let entries = initial_entries@;
        assert forall|i: int, j: int|
            0 <= i < j < entries.len() implies (#[trigger] entries[i]).0 != (
        #[trigger] entries[j]).0 by {
            assert(entries[i].0 == all[i]);
            assert(entries[j].0 == all[j]);
        }
        assert forall|j: int| 0 <= j < all.len() implies lzw_trie.value_at(seq![all[j]]) == Some(
            Code { code: j as u32, used_bits: lzw_spec.width },
        ) by {
            TrieNode::lemma_last_val_distinct(entries, j);
            assert(entries[j].0 == all[j]);
            assert(TrieNode::last_val(entries, all[j]) == Some(entries[j].1));
        }
        assert forall|p: Seq<Token<T>>|
            #![trigger lzw_trie.contains_path(p)]
            lzw_trie.contains_path(p) <==> (p.len() == 0 || (p.len() == 1 && exists|j: int|
                0 <= j < all.len() && p[0] == all[j])) by {
            if p.len() > 0 {
                TrieNode::lemma_last_val_some_iff(entries, p[0]);
                if exists|j: int| 0 <= j < entries.len() && (#[trigger] entries[j]).0 == p[0] {
                    let j = choose|j: int|
                        0 <= j < entries.len() && (#[trigger] entries[j]).0 == p[0];
                    assert(p[0] == all[j]);
                }
                if exists|j: int| 0 <= j < all.len() && p[0] == all[j] {
                    let j = choose|j: int| 0 <= j < all.len() && p[0] == all[j];
                    assert(entries[j].0 == p[0]);
                }
            }
        }
        assert(lzw_trie.value_at(Seq::<Token<T>>::empty()) is None) by {
            assert(t0.node_at(Seq::<Token<T>>::empty()) == Some(t0));
            assert(t0.contains_path(Seq::<Token<T>>::empty()));
            assert(lzw_trie.value_at(Seq::<Token<T>>::empty()) == t0.value_at(
                Seq::<Token<T>>::empty(),
            ));
        }
        assert(seeded::<T>(lzw_spec, lzw_trie));
    }
    let ghost t_seed = lzw_trie;
    let ghost g_seed = CodeGenerator {
        current_code: all.len() as u32,
        variable_width: lzw_spec.variable_width,
        width: lzw_spec.width,
        min_width: lzw_spec.min_width,
        max_width: lzw_spec.max_width,
        pack_msb_first: lzw_spec.pack_msb_first,
    };
    proof {
        assert(g_seed == code_gen);
    }
    let mut cursor: KeyCursor<Token<T>> = KeyCursor::new(file_vec);
    let mut out: Vec<Code> = Vec::new();
    let ghost mut n: nat = 0nat;
    let ghost mut em: Seq<Option<Code>> = Seq::empty();
    proof {
        assert(gen_codes(g_seed, 0) =~= Seq::<Code>::empty());
    }
    loop
        invariant
            T::generate_ok(),
            alpha == T::spec_alphabet(),
            all == with_controls::<T>(lzw_spec, alpha),
            all.len() <= (1u32 << (lzw_spec.width as u32)),
            lzw_trie.wf(),
            cursor.wf(),
            cursor.items@ == file_vec@,
            code_gen.wf(),
            code_gen.width == lzw_spec.width,
            code_gen.current_code == all.len() + n,
            all.len() + n <= (1u32 << (lzw_spec.width as u32)),
            g_seed == (CodeGenerator {
                current_code: all.len() as u32,
                variable_width: lzw_spec.variable_width,
                width: lzw_spec.width,
                min_width: lzw_spec.min_width,
                max_width: lzw_spec.max_width,
                pack_msb_first: lzw_spec.pack_msb_first,
            }),
            seeded::<T>(lzw_spec, t_seed),
            TrieNode::lzw_steps(
                t_seed,
                file_vec@,
                0,
                lzw_trie,
                cursor.pos as int,
                gen_codes(g_seed, n),
                em,
                n,
            ),
            out@.len() == em.len(),
            forall|j: int| 0 <= j < em.len() ==> em[j] == Some(out@[j]),
        decreases 2 * (file_vec@.len() - cursor.pos) + (if cursor.pos < file_vec@.len()
            && lzw_trie.spec_child(file_vec@[cursor.pos as int]) is Some {
            0int
        } else {
            1int
        }),
    {
        let d = lzw_trie.divergence_depth(&cursor);
        let rem = cursor.remaining_len();
        if d == rem {
            return Ok(out);
        }
        proof {
            lzw_trie.lemma_divergence_bounds(cursor.remaining());
        }
        let ghost pre_gen = code_gen;
        match code_gen.get_next_code() {
            None => {
                proof {
                    lemma_shift_zero_iff(pre_gen.current_code, pre_gen.width as u32);
                    assert(all.len() + n == (1u32 << (lzw_spec.width as u32)));
                    if (forall|i: int|
                        0 <= i < file_vec@.len() ==> exists|j: int|
                            0 <= j < all.len() && (#[trigger] file_vec@[i]) == all[j])
                        && file_vec@.len() + all.len() < (1u32 << (lzw_spec.width as u32)) {
                        assert forall|i: int|
                            0 <= i < file_vec@.len() implies t_seed.contains_path(
                            seq![file_vec@[i]],
                        ) by {
                            let j = choose|j: int| 0 <= j < all.len() && file_vec@[i] == all[j];
                            assert(seq![file_vec@[i]].len() == 1);
                            assert(seq![file_vec@[i]][0] == all[j]);
                        }
                        TrieNode::lemma_lzw_growth(
                            t_seed,
                            file_vec@,
                            0,
                            lzw_trie,
                            cursor.pos as int,
                            gen_codes(g_seed, n),
                            em,
                            n,
                        );
                        assert(false);
                    }
                }
                return Err(
                    LzwError::Compress("code space exhausted before the stream ended".to_string()),
                );
            },
            Some(code) => {
                proof {
                    assert(gen_step(pre_gen).1 is Some);
                    assert(pre_gen.current_code >> (pre_gen.width as u32) == 0);
                    lemma_shift_zero_iff(pre_gen.current_code, pre_gen.width as u32);
                    assert(code_gen.current_code == pre_gen.current_code + 1);
                    assert(code == Code { code: pre_gen.current_code, used_bits: pre_gen.width });
                }
                let ghost t_prev = lzw_trie;
                let ghost pos_prev = cursor.pos as int;
                let ghost s_rem = cursor.remaining();
                let step = TrieNode::lzw_insert_iter(&mut lzw_trie, &mut cursor, code);
                proof {
                    let dd = t_prev.divergence(s_rem);
                    assert(TrieNode::inserted(t_prev, s_rem.take(dd + 1), code, lzw_trie));
                    assert(s_rem == file_vec@.skip(pos_prev));
                    TrieNode::lemma_lzw_steps_snoc(
                        t_seed,
                        file_vec@,
                        0,
                        t_prev,
                        pos_prev,
                        gen_codes(g_seed, n),
                        em,
                        n,
                        lzw_trie,
                        code,
                    );
                    em = em.push(t_prev.value_at(s_rem.take(dd)));
                    n = n + 1;
                    assert(gen_codes(g_seed, n) =~= gen_codes(g_seed, (n - 1) as nat).push(code));
                    assert(lzw_trie.contains_path(s_rem.take(dd + 1))) by {
                        crate::trie::lemma_self_prefix::<Token<T>>(s_rem.take(dd + 1));
                    }
                    assert(cursor.pos == pos_prev + dd);
                    assert(s_rem[0] == file_vec@[pos_prev]);
                    if dd == 0 {
                        let q = s_rem.take(1);
                        assert(q.len() == 1 && q[0] == file_vec@[cursor.pos as int]);
                        assert(lzw_trie.node_at(q) is Some);
                        assert(lzw_trie.spec_child(q[0]) is Some);
                        if t_prev.spec_child(s_rem[0]) is Some {
                            t_prev.spec_child(s_rem[0]).unwrap().lemma_divergence_bounds(
                                s_rem.skip(1),
                            );
                        }
                        assert(t_prev.spec_child(s_rem[0]) is None);
                    } else {
                        assert(t_prev.spec_child(s_rem[0]) is Some);
                    }
                }
                match step {
                    Ok(Some(c)) => {
                        proof {
                            assert(em.last() == Some(c));
                        }
                        out.push(c);
                    },
                    Ok(None) => {
                        proof {
                            assert(em.last() is None);
                        }
                        return Ok(out);
                    },
                    Err(e) => {
                        proof {
                            assert(false);
                        }
                        return Err(LzwError::from_trie(e));
                    },
                }
            },
        }
    }
}

/// The seed symbols of a run are pairwise distinct: the alphabet is distinct
/// by assumption and holds only payload symbols, and the two control symbols
/// differ from every payload symbol and from each other.
proof fn lemma_all_distinct<T: TrieKey + Alphabetable<T>>(lzw_spec: LzwSpec)
    requires
        forall|i: int, j: int|
            0 <= i < j < T::spec_alphabet().len() ==> T::spec_alphabet()[i]
                != T::spec_alphabet()[j],
        forall|i: int|
            0 <= i < T::spec_alphabet().len() ==> (#[trigger] T::spec_alphabet()[i]) matches Token::Value(_),
    ensures
        ({
            let all = with_controls::<T>(lzw_spec, T::spec_alphabet());
            forall|i: int, j: int| 0 <= i < j < all.len() ==> all[i] != all[j]
        }),
{
    let alpha = T::spec_alphabet();
    let all = with_controls::<T>(lzw_spec, alpha);
    let na = alpha.len() as int;
    assert forall|i: int, j: int| 0 <= i < j < all.len() implies all[i] != all[j] by {
        if j < na {
            assert(all[i] == alpha[i]);
            assert(all[j] == alpha[j]);
        } else if i < na {
            assert(all[i] == alpha[i]);
            assert(all[i] matches Token::Value(_));
            assert(all[j] == Token::<T>::Clear || all[j] == Token::<T>::End);
        } else {
            assert(lzw_spec.clear_code && lzw_spec.end_code);
            assert(all[i] == Token::<T>::Clear);
            assert(all[j] == Token::<T>::End);
        }
    }
}

} // verus!
