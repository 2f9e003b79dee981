//! Fixed-width codes and the sequential code allocator that numbers
//! dictionary entries.

use vstd::prelude::*;

verus! {

/// The shape of an LZW coding run: which alphabet seeds the dictionary,
/// whether code widths may grow, the width bounds, which control entries the
/// dictionary carries, and how a later bit-packer should lay codes out.
#[derive(Debug, Copy, Clone)]
pub struct LzwSpec {
    pub alphabet: ArgAlphabet,
    pub variable_width: bool,
    pub width: u8,
    pub min_width: u8,
    pub max_width: u8,
    pub end_code: bool,
    pub clear_code: bool,
    pub pack_msb_first: bool,
    pub early_change: bool,
}

/// The seed alphabets a run can ask for by name.
#[derive(Debug, Copy, Clone)]
pub enum ArgAlphabet {
    _Test,
    Ascii,
}

/// A dictionary code: the number of an entry together with the bit width it
/// was allocated at, which a later bit-packer needs.
#[derive(Debug, Copy, Clone)]
pub struct Code {
    pub code: u32,
    pub used_bits: u8,
}

impl Code {
    /// Wraps a code number that fits in `used_bits` bits.
    pub fn new(code: u32, used_bits: u8) -> (c: Code)
        requires
            used_bits < 32,
            code >> (used_bits as u32) == 0,
        ensures
            c.code == code,
            c.used_bits == used_bits,
    {
        Code { code, used_bits }
    }

    /// The code number.
    pub fn get_code(self) -> (r: u32)
        ensures
            r == self.code,
    {
        self.code
    }

    /// The bit width the code was allocated at.
    pub fn get_used_bits(self) -> (r: u8)
        ensures
            r == self.used_bits,
    {
        self.used_bits
    }
}

impl PartialEq for Code {
    /// Codes compare by their number alone: the width is bookkeeping for the
    /// packer, not part of the code's identity.
    fn eq(&self, other: &Self) -> (r: bool) {
        self.code == other.code
    }
}

impl vstd::std_specs::cmp::PartialEqSpecImpl for Code {
    open spec fn obeys_eq_spec() -> bool {
        true
    }

    open spec fn eq_spec(&self, other: &Self) -> bool {
        self.code == other.code
    }
}

/// Produces the strictly increasing sequence of codes 0, 1, 2, ... of a fixed
/// bit width, and reports exhaustion once the next code would no longer fit.
pub struct CodeGenerator {
    pub current_code: u32,
    pub variable_width: bool,
    pub width: u8,
    pub min_width: u8,
    pub max_width: u8,
    pub pack_msb_first: bool,
}

/// What one allocation does to a generator: below the width bound it hands
/// out the current counter as a code and advances; at the bound it returns
/// nothing and stays put.
pub open spec fn gen_step(g: CodeGenerator) -> (CodeGenerator, Option<Code>) {
    if g.current_code >> (g.width as u32) == 0 {
        (
            CodeGenerator {
                current_code: (g.current_code + 1) as u32,
                variable_width: g.variable_width,
                width: g.width,
                min_width: g.min_width,
                max_width: g.max_width,
                pack_msb_first: g.pack_msb_first,
            },
            Some(Code { code: g.current_code, used_bits: g.width }),
        )
    } else {
        (g, None)
    }
}

/// The generator after `k` allocations.
pub open spec fn gen_iter(g: CodeGenerator, k: nat) -> CodeGenerator
    decreases k,
{
    if k == 0 {
        g
    } else {
        gen_step(gen_iter(g, (k - 1) as nat)).0
    }
}

/// The codes a generator in state `g` hands out over its next `n`
/// allocations, assuming none of them exhausts the width.
pub open spec fn gen_codes(g: CodeGenerator, n: nat) -> Seq<Code> {
    Seq::new(n, |i: int| Code { code: (g.current_code + i) as u32, used_bits: g.width })
}

/// A number fits in `w` bits exactly when it is below `2^w`.
pub proof fn lemma_shift_zero_iff(c: u32, w: u32)
    requires
        w < 32,
    ensures
        (c >> w == 0) <==> (c < (1u32 << w)),
        1u32 << w >= 1,
        1u32 << w <= 0x8000_0000u32,
{
    assert((c >> w == 0) <==> (c < (1u32 << w))) by (bit_vector)
        requires
            w < 32,
    ;
    assert(1u32 << w >= 1 && 1u32 << w <= 0x8000_0000u32) by (bit_vector)
        requires
            w < 32,
    ;
}

impl CodeGenerator {
    /// The generator's validity: its width leaves room for the bound check.
    pub open spec fn wf(self) -> bool {
        self.width < 32
    }

    /// The number of codes a width-`w` generator can hand out in all.
    pub open spec fn capacity(self) -> nat {
        (1u32 << (self.width as u32)) as nat
    }

    /// Builds a generator that will number entries 0, 1, 2, ... at the fixed
    /// width the run asked for.
    pub fn new(lzw_spec: LzwSpec) -> (g: CodeGenerator)
        requires
            lzw_spec.width < 32,
        ensures
            g.current_code == 0,
            g.width == lzw_spec.width,
            g.variable_width == lzw_spec.variable_width,
            g.min_width == lzw_spec.min_width,
            g.max_width == lzw_spec.max_width,
            g.pack_msb_first == lzw_spec.pack_msb_first,
            g.wf(),
    {
        CodeGenerator {
            current_code: 0,
            variable_width: lzw_spec.variable_width,
            width: lzw_spec.width,
            min_width: lzw_spec.min_width,
            max_width: lzw_spec.max_width,
            pack_msb_first: lzw_spec.pack_msb_first,
        }
    }

    /// Hands out the next code, or nothing once the configured width is
    /// exhausted. The result and the new state are exactly one `gen_step`.
    pub fn get_next_code(&mut self) -> (r: Option<Code>)
        requires
            old(self).wf(),
        ensures
            final(self).wf(),
            *final(self) == gen_step(*old(self)).0,
            r == gen_step(*old(self)).1,
    {
        if self.current_code >> (self.width as u32) != 0 {
            None
        } else {
            proof {
                lemma_shift_zero_iff(self.current_code, self.width as u32);
            }
            let res = Some(Code::new(self.current_code, self.width));
            self.current_code = self.current_code + 1;
            res
        }
    }
}

/// Law: an allocator of width `w` started at zero answers its first `2^w`
/// calls with the codes `0` through `2^w - 1` in order, each tagged with
/// width `w`, and every later call reports exhaustion.
pub proof fn lemma_code_exhaustion(g0: CodeGenerator, k: nat)
    requires
        g0.wf(),
        g0.current_code == 0,
    ensures
        gen_iter(g0, k).wf(),
        gen_iter(g0, k).width == g0.width,
        gen_iter(g0, k).current_code == (if k <= g0.capacity() {
            k
        } else {
            g0.capacity()
        }),
        k < g0.capacity() ==> gen_step(gen_iter(g0, k)).1 == Some(
            Code { code: k as u32, used_bits: g0.width },
        ),
        k >= g0.capacity() ==> gen_step(gen_iter(g0, k)).1 is None,
    decreases k,
{
    let w = g0.width as u32;
    lemma_shift_zero_iff(0, w);
    if k == 0 {
        lemma_shift_zero_iff(gen_iter(g0, k).current_code, w);
    } else {
        lemma_code_exhaustion(g0, (k - 1) as nat);
        let gp = gen_iter(g0, (k - 1) as nat);
        lemma_shift_zero_iff(gp.current_code, w);
        lemma_shift_zero_iff(gen_iter(g0, k).current_code, w);
    }
}

} // verus!
