//! SHA-256 over circuit variables: the word functions, the message schedule,
//! the compression rounds and the gadget that hashes a padded message.

use vstd::prelude::*;
use crate::cs::{ConstraintSystem, Num, TableKind};
use crate::bits::{rotr, shr, xor3, maj, ch, low32, lemma_low32};
use crate::gadgets::{
    Decomposed, valid_width, all_valid, all_words, values_of, int_sum, field_sum, carry_width, decompose,
    rotate_right,
    shift_right, bitwise3, majority_by_spread, add32, lemma_represents_extends, lemma_values_extend,
};
use crate::constants::{round_constant, initial_word, round_constant_value, initial_word_value};

verus! {

/// The family of tables that range decompositions use.
#[allow(non_camel_case_types)]
#[derive(Clone, Copy, Debug)]
pub enum GlobalStrategy {
    /// Chunks of eight bits.
    Use_8_1_2_SplitTable,
    /// Chunks of the given number of bits.
    UseRangeCheckTable(usize),
}

/// How the majority function is realized.
#[derive(Clone, Copy, Debug, PartialEq, Eq, Structural)]
pub enum Strategy {
    /// One lookup per chunk, keyed by the three inputs' chunks.
    NaiveApproach,
    /// The inputs' chunks are brought into sparse form and added, and the
    /// sum is decoded by a table.
    SparseTable,
}

/// Why a gadget could not be built or used.
#[derive(Clone, Copy, Debug, PartialEq, Eq, Structural)]
pub enum ConstructionError {
    /// A chunk width that does not divide a word, or is above sixteen bits.
    UnsupportedWidth,
    /// The sparse majority strategy with chunks above eight bits, whose
    /// decoding table would have more than `4^8` rows.
    UnsupportedCombination,
    /// The input is not a whole number of sixteen-word blocks.
    InputLength,
}

/// The configuration of a gadget, with every override resolved.
#[derive(Clone, Copy, Debug)]
pub struct Sha256GadgetParams {
    pub range_width: u64,
    pub ch_width: u64,
    pub maj_width: u64,
    pub sched_width: u64,
    pub majority_strategy: Strategy,
}

/// A width that lookup tables are offered at.
pub open spec fn table_width(w: int) -> bool {
    w == 1 || w == 2 || w == 4 || w == 8 || w == 16
}

/// The width that a global strategy stands for.
pub open spec fn global_width(global: GlobalStrategy) -> int {
    match global {
        GlobalStrategy::Use_8_1_2_SplitTable => 8,
        GlobalStrategy::UseRangeCheckTable(w) => w as int,
    }
}

/// An override, or the default where there is none.
pub open spec fn resolved_width(over: Option<usize>, default: int) -> int {
    match over {
        Some(w) => w as int,
        None => default,
    }
}

/// The error, if any, that a configuration is refused with.
pub open spec fn configuration_error(
    global: GlobalStrategy,
    majority: Strategy,
    ch_over: Option<usize>,
    maj_over: Option<usize>,
    sched_over: Option<usize>,
) -> Option<ConstructionError> {
    let g = global_width(global);
    if !table_width(g) || !table_width(resolved_width(ch_over, g)) || !table_width(
        resolved_width(maj_over, g),
    ) || !table_width(resolved_width(sched_over, g)) {
        Some(ConstructionError::UnsupportedWidth)
    } else if majority == Strategy::SparseTable && resolved_width(maj_over, g) > 8 {
        Some(ConstructionError::UnsupportedCombination)
    } else {
        None
    }
}

/// Big sigma zero.
pub open spec fn big_sigma0(x: u64) -> u64 {
    xor3(rotr(x, 2), rotr(x, 13), rotr(x, 22))
}

/// Big sigma one.
pub open spec fn big_sigma1(x: u64) -> u64 {
    xor3(rotr(x, 6), rotr(x, 11), rotr(x, 25))
}

/// Small sigma zero, of the message schedule.
pub open spec fn small_sigma0(x: u64) -> u64 {
    xor3(rotr(x, 7), rotr(x, 18), shr(x, 3))
}

/// Small sigma one, of the message schedule.
pub open spec fn small_sigma1(x: u64) -> u64 {
    xor3(rotr(x, 17), rotr(x, 19), shr(x, 10))
}

/// The sum of words modulo `2^32`.
pub open spec fn sum32(s: Seq<u64>) -> u64 {
    (int_sum(s) % 0x1_0000_0000) as u64
}

/// Word `t` of the schedule expanded from a sixteen-word block.
pub open spec fn schedule_word(block: Seq<u64>, t: int) -> u64
    decreases t,
{
    if t < 16 {
        block[t]
    } else {
        sum32(
            seq![
                small_sigma1(schedule_word(block, t - 2)),
                schedule_word(block, t - 7),
                small_sigma0(schedule_word(block, t - 15)),
                schedule_word(block, t - 16),
            ],
        )
    }
}

/// One compression round on the eight working words.
pub open spec fn round_step(s: Seq<u64>, k: u64, w: u64) -> Seq<u64> {
    let t1 = sum32(seq![s[7], big_sigma1(s[4]), ch(s[4], s[5], s[6]), k, w]);
    let t2 = sum32(seq![big_sigma0(s[0]), maj(s[0], s[1], s[2])]);
    seq![sum32(seq![t1, t2]), s[0], s[1], s[2], sum32(seq![s[3], t1]), s[4], s[5], s[6]]
}

/// The working words after the first `t` rounds on a block.
pub open spec fn state_after(state: Seq<u64>, block: Seq<u64>, t: int) -> Seq<u64>
    decreases t,
{
    if t <= 0 {
        state
    } else {
        round_step(state_after(state, block, t - 1), round_constant(t - 1), schedule_word(block, t - 1))
    }
}

/// The hash state after a block: the state before it plus, word by word,
/// the working words after sixty-four rounds.
pub open spec fn compress(state: Seq<u64>, block: Seq<u64>) -> Seq<u64> {
    Seq::new(8, |i: int| sum32(seq![state[i], state_after(state, block, 64)[i]]))
}

/// The initial hash state.
pub open spec fn initial_state() -> Seq<u64> {
    Seq::new(8, |i: int| initial_word(i))
}

/// The hash state after the first `blocks` blocks of a padded message.
pub open spec fn digest_state(words: Seq<u64>, blocks: int) -> Seq<u64>
    decreases blocks,
{
    if blocks <= 0 {
        initial_state()
    } else {
        compress(digest_state(words, blocks - 1), words.subrange(16 * (blocks - 1), 16 * blocks))
    }
}

/// Blocks are folded in one after the other: the state after `k + 1`
/// blocks is the compression of block `k` into the state after `k` blocks,
/// and before any block it is the initial state.
pub proof fn lemma_state_threading(words: Seq<u64>, k: int)
    requires
        0 <= k,
    ensures
        digest_state(words, 0) == initial_state(),
        digest_state(words, k + 1) == compress(digest_state(words, k), words.subrange(16 * k, 16 * (k + 1))),
{
}

/// Every word of a compressed state fits 32 bits, whatever went in.
pub proof fn lemma_compress_in_range(state: Seq<u64>, block: Seq<u64>)
    ensures
        compress(state, block).len() == 8,
        all_words(compress(state, block)),
{
}

impl Sha256GadgetParams {
    /// Every width is one that tables are offered at.
    pub open spec fn wf(&self) -> bool {
        &&& table_width(self.range_width as int)
        &&& table_width(self.ch_width as int)
        &&& table_width(self.maj_width as int)
        &&& table_width(self.sched_width as int)
        &&& self.majority_strategy == Strategy::SparseTable ==> self.maj_width <= 8
    }

    /// Resolves a configuration: the overrides are laid over the global
    /// width, and a combination that cannot be built is refused.
    pub fn new(
        global: GlobalStrategy,
        majority: Strategy,
        ch_over: Option<usize>,
        maj_over: Option<usize>,
        sched_over: Option<usize>,
    ) -> (r: Result<Sha256GadgetParams, ConstructionError>)
        ensures
            match configuration_error(global, majority, ch_over, maj_over, sched_over) {
                Some(e) => r == Err::<Sha256GadgetParams, ConstructionError>(e),
                None => r.is_ok() && r.unwrap().wf() && r.unwrap().range_width == global_width(global)
                    && r.unwrap().ch_width == resolved_width(ch_over, global_width(global))
                    && r.unwrap().sched_width == resolved_width(sched_over, global_width(global))
                    && r.unwrap().majority_strategy == majority && r.unwrap().maj_width == resolved_width(
                    maj_over,
                    global_width(global),
                ),
            },
    {
        let g: usize = match global {
            GlobalStrategy::Use_8_1_2_SplitTable => 8,
            GlobalStrategy::UseRangeCheckTable(w) => w,
        };
        let c: usize = match ch_over {
            Some(w) => w,
            None => g,
        };
        let m: usize = match maj_over {
            Some(w) => w,
            None => g,
        };
        let s: usize = match sched_over {
            Some(w) => w,
            None => g,
        };
        if !is_table_width(g) || !is_table_width(c) || !is_table_width(m) || !is_table_width(s) {
            return Err(ConstructionError::UnsupportedWidth);
        }
        let sparse: bool = match majority {
            Strategy::SparseTable => true,
            Strategy::NaiveApproach => false,
        };
        if sparse && m > 8 {
            return Err(ConstructionError::UnsupportedCombination);
        }
        Ok(
            Sha256GadgetParams {
                range_width: g as u64,
                ch_width: c as u64,
                maj_width: m as u64,
                sched_width: s as u64,
                majority_strategy: majority,
            },
        )
    }
}

/// Whether tables are offered at the width.
pub fn is_table_width(w: usize) -> (r: bool)
    ensures
        r == table_width(w as int),
{
    w == 1 || w == 2 || w == 4 || w == 8 || w == 16
}

/// A decomposition at the wanted width: the given one where it has that
/// width, else a new decomposition of the same word.
pub fn at_width(cs: &mut ConstraintSystem, d: Decomposed, width: u64) -> (r: Decomposed)
    requires
        old(cs).wf(),
        d.represents(old(cs)),
        valid_width(width),
    ensures
        final(cs).wf(),
        final(cs).extends(old(cs)),
        r.word == d.word,
        r.width == width,
        r.represents(final(cs)),
        final(cs).satisfied() == (old(cs).satisfied() && (d.width == width || old(cs).value_of(d.word)
            >> 32 == 0)),
        d.width == width ==> final(cs).values@ == old(cs).values@ && final(cs).rows@ == old(cs).rows@,
{
    if d.width == width {
        d
    } else {
        decompose(cs, d.word, width)
    }
}

/// Exclusive or of three rotations of a word, the last of which is a shift
/// where `last_is_shift` says so. The word is split into bits, the bits are
/// put in order for each rotation, and the three results are combined by
/// lookups on chunks of `width` bits.
pub fn sigma(
    cs: &mut ConstraintSystem,
    x: Num,
    r1: u64,
    r2: u64,
    r3: u64,
    last_is_shift: bool,
    width: u64,
) -> (r: Num)
    requires
        old(cs).wf(),
        x.valid(old(cs).values@.len() as int),
        r1 <= 32,
        r2 <= 32,
        r3 <= 32,
        table_width(width as int),
    ensures
        final(cs).wf(),
        final(cs).extends(old(cs)),
        r.valid(final(cs).values@.len() as int),
        final(cs).value_of(r) <= 0xFFFF_FFFF,
        final(cs).value_of(r) == xor3(
            rotr(low32(old(cs).value_of(x)), r1),
            rotr(low32(old(cs).value_of(x)), r2),
            if last_is_shift {
                shr(low32(old(cs).value_of(x)), r3)
            } else {
                rotr(low32(old(cs).value_of(x)), r3)
            },
        ),
        final(cs).satisfied() == (old(cs).satisfied() && old(cs).value_of(x) <= 0xFFFF_FFFF),
{
    proof {
        lemma_low32(old(cs).value_of(x));
    }
    let bits: Decomposed = decompose(cs, x, 1);
    let ghost s1 = *cs;
    let a: Decomposed = rotate_right(cs, &bits, r1);
    let ghost s2 = *cs;
    proof {
        lemma_represents_extends(&bits, &s1, &s2);
    }
    let b: Decomposed = rotate_right(cs, &bits, r2);
    let ghost s3 = *cs;
    proof {
        lemma_represents_extends(&bits, &s2, &s3);
        lemma_represents_extends(&a, &s2, &s3);
    }
    let c: Decomposed = if last_is_shift {
        shift_right(cs, &bits, r3)
    } else {
        rotate_right(cs, &bits, r3)
    };
    let ghost s4 = *cs;
    proof {
        lemma_represents_extends(&a, &s3, &s4);
        lemma_represents_extends(&b, &s3, &s4);
        lemma_low32(s4.value_of(a.word));
        lemma_low32(s4.value_of(b.word));
        lemma_low32(s4.value_of(c.word));
    }
    let a: Decomposed = at_width(cs, a, width);
    let ghost s5 = *cs;
    proof {
        lemma_represents_extends(&b, &s4, &s5);
        lemma_represents_extends(&c, &s4, &s5);
    }
    let b: Decomposed = at_width(cs, b, width);
    let ghost s6 = *cs;
    proof {
        lemma_represents_extends(&a, &s5, &s6);
        lemma_represents_extends(&c, &s5, &s6);
    }
    let c: Decomposed = at_width(cs, c, width);
    let ghost s7 = *cs;
    proof {
        lemma_represents_extends(&a, &s6, &s7);
        lemma_represents_extends(&b, &s6, &s7);
    }
    let out: Decomposed = bitwise3(cs, TableKind::Xor3, &a, &b, &c);
    proof {
        lemma_low32(cs.value_of(out.word));
    }
    out.word
}

/// A bitwise function of three words by table lookups on chunks of `width`
/// bits: each word is split into chunks, and the function is looked up
/// chunk by chunk.
pub fn lookup3(cs: &mut ConstraintSystem, table: TableKind, x: Num, y: Num, z: Num, width: u64) -> (r: Num)
    requires
        old(cs).wf(),
        x.valid(old(cs).values@.len() as int),
        y.valid(old(cs).values@.len() as int),
        z.valid(old(cs).values@.len() as int),
        table_width(width as int),
        table == TableKind::Majority || table == TableKind::Choice,
    ensures
        final(cs).wf(),
        final(cs).extends(old(cs)),
        r.valid(final(cs).values@.len() as int),
        final(cs).value_of(r) <= 0xFFFF_FFFF,
        table == TableKind::Majority ==> final(cs).value_of(r) == maj(
            low32(old(cs).value_of(x)),
            low32(old(cs).value_of(y)),
            low32(old(cs).value_of(z)),
        ),
        table == TableKind::Choice ==> final(cs).value_of(r) == ch(
            low32(old(cs).value_of(x)),
            low32(old(cs).value_of(y)),
            low32(old(cs).value_of(z)),
        ),
        final(cs).satisfied() == (old(cs).satisfied() && old(cs).value_of(x) <= 0xFFFF_FFFF && old(cs).value_of(y) <= 0xFFFF_FFFF && old(cs).value_of(z) <= 0xFFFF_FFFF),
{
    proof {
        lemma_low32(old(cs).value_of(x));
        lemma_low32(old(cs).value_of(y));
        lemma_low32(old(cs).value_of(z));
    }
    let a: Decomposed = decompose(cs, x, width);
    let ghost s1 = *cs;
    let b: Decomposed = decompose(cs, y, width);
    let ghost s2 = *cs;
    proof {
        lemma_represents_extends(&a, &s1, &s2);
    }
    let c: Decomposed = decompose(cs, z, width);
    let ghost s3 = *cs;
    proof {
        lemma_represents_extends(&a, &s2, &s3);
        lemma_represents_extends(&b, &s2, &s3);
    }
    let out: Decomposed = bitwise3(cs, table, &a, &b, &c);
    proof {
        lemma_low32(cs.value_of(out.word));
    }
    out.word
}

/// Majority of three words through the sparse form of their chunks of
/// `width` bits.
pub fn majority_sparse(cs: &mut ConstraintSystem, x: Num, y: Num, z: Num, width: u64) -> (r: Num)
    requires
        old(cs).wf(),
        x.valid(old(cs).values@.len() as int),
        y.valid(old(cs).values@.len() as int),
        z.valid(old(cs).values@.len() as int),
        table_width(width as int),
    ensures
        final(cs).wf(),
        final(cs).extends(old(cs)),
        r.valid(final(cs).values@.len() as int),
        final(cs).value_of(r) <= 0xFFFF_FFFF,
        final(cs).value_of(r) == maj(
            low32(old(cs).value_of(x)),
            low32(old(cs).value_of(y)),
            low32(old(cs).value_of(z)),
        ),
        final(cs).satisfied() == (old(cs).satisfied() && old(cs).value_of(x) <= 0xFFFF_FFFF && old(cs).value_of(y) <= 0xFFFF_FFFF && old(cs).value_of(z) <= 0xFFFF_FFFF),
{
    proof {
        lemma_low32(old(cs).value_of(x));
        lemma_low32(old(cs).value_of(y));
        lemma_low32(old(cs).value_of(z));
    }
    let a: Decomposed = decompose(cs, x, width);
    let ghost s1 = *cs;
    let b: Decomposed = decompose(cs, y, width);
    let ghost s2 = *cs;
    proof {
        lemma_represents_extends(&a, &s1, &s2);
    }
    let c: Decomposed = decompose(cs, z, width);
    let ghost s3 = *cs;
    proof {
        lemma_represents_extends(&a, &s2, &s3);
        lemma_represents_extends(&b, &s2, &s3);
    }
    let out: Decomposed = majority_by_spread(cs, &a, &b, &c);
    proof {
        lemma_low32(cs.value_of(out.word));
    }
    out.word
}

/// Majority of three words, by the strategy that the configuration names.
/// Both strategies give the same word.
pub fn majority(cs: &mut ConstraintSystem, params: &Sha256GadgetParams, x: Num, y: Num, z: Num) -> (r: Num)
    requires
        old(cs).wf(),
        params.wf(),
        x.valid(old(cs).values@.len() as int),
        y.valid(old(cs).values@.len() as int),
        z.valid(old(cs).values@.len() as int),
    ensures
        final(cs).wf(),
        final(cs).extends(old(cs)),
        r.valid(final(cs).values@.len() as int),
        final(cs).value_of(r) <= 0xFFFF_FFFF,
        final(cs).value_of(r) == maj(
            low32(old(cs).value_of(x)),
            low32(old(cs).value_of(y)),
            low32(old(cs).value_of(z)),
        ),
        final(cs).satisfied() == (old(cs).satisfied() && old(cs).value_of(x) <= 0xFFFF_FFFF && old(cs).value_of(y) <= 0xFFFF_FFFF && old(cs).value_of(z) <= 0xFFFF_FFFF),
{
    match params.majority_strategy {
        Strategy::NaiveApproach => lookup3(cs, TableKind::Majority, x, y, z, params.maj_width),
        Strategy::SparseTable => majority_sparse(cs, x, y, z, params.maj_width),
    }
}

/// Adds up to five words modulo `2^32`; `count` says how many of the
/// arguments, from the first on, are summands.
pub fn add_words(
    cs: &mut ConstraintSystem,
    a: Num,
    b: Num,
    c: Num,
    d: Num,
    e: Num,
    count: usize,
    width: u64,
) -> (r: Num)
    requires
        old(cs).wf(),
        a.valid(old(cs).values@.len() as int),
        b.valid(old(cs).values@.len() as int),
        c.valid(old(cs).values@.len() as int),
        d.valid(old(cs).values@.len() as int),
        e.valid(old(cs).values@.len() as int),
        2 <= count <= 5,
        table_width(width as int),
    ensures
        final(cs).wf(),
        final(cs).extends(old(cs)),
        r.valid(final(cs).values@.len() as int),
        final(cs).value_of(r) <= 0xFFFF_FFFF,
        final(cs).value_of(r) == low32(field_sum(summands(old(cs), a, b, c, d, e, count as int))),
        final(cs).satisfied() == (old(cs).satisfied() && field_sum(
            summands(old(cs), a, b, c, d, e, count as int),
        ) >> ((32 + carry_width(count as int)) as u64) == 0),
        all_words(summands(old(cs), a, b, c, d, e, count as int)) ==> final(cs).satisfied() == old(cs).satisfied()
            && final(cs).value_of(r) == sum32(summands(old(cs), a, b, c, d, e, count as int)),
{
    let mut words: Vec<Num> = Vec::new();
    words.push(a);
    words.push(b);
    if count >= 3 {
        words.push(c);
    }
    if count >= 4 {
        words.push(d);
    }
    if count >= 5 {
        words.push(e);
    }
    proof {
        assert(values_of(cs, words@) =~= summands(cs, a, b, c, d, e, count as int));
    }
    let out: Decomposed = add32(cs, &words, width);
    proof {
        lemma_low32(cs.value_of(out.word));
    }
    out.word
}

/// The values of the first `count` of five variables.
pub open spec fn summands(cs: &ConstraintSystem, a: Num, b: Num, c: Num, d: Num, e: Num, count: int) -> Seq<
    u64,
> {
    seq![cs.value_of(a), cs.value_of(b), cs.value_of(c), cs.value_of(d), cs.value_of(e)].take(count)
}

} // verus!

verus! {

/// One compression round: from the eight working words, the round constant
/// and the schedule word to the next eight working words.
pub fn round(cs: &mut ConstraintSystem, params: &Sha256GadgetParams, state: &Vec<Num>, k: u64, w: Num) -> (next:
    Vec<Num>)
    requires
        old(cs).wf(),
        params.wf(),
        state@.len() == 8,
        all_valid(state@, old(cs).values@.len() as int),
        w.valid(old(cs).values@.len() as int),
        k <= 0xFFFF_FFFF,
    ensures
        final(cs).wf(),
        final(cs).extends(old(cs)),
        next@.len() == 8,
        all_valid(next@, final(cs).values@.len() as int),
        final(cs).satisfied() ==> old(cs).satisfied(),
        all_words(values_of(old(cs), state@)) && old(cs).value_of(w) <= 0xFFFF_FFFF ==> final(cs).satisfied() == old(cs).satisfied() && all_words(values_of(final(cs), next@)) && values_of(
            final(cs),
            next@,
        ) == round_step(values_of(old(cs), state@), k, old(cs).value_of(w)),
{
    let a: Num = state[0];
    let b: Num = state[1];
    let c: Num = state[2];
    let d: Num = state[3];
    let e: Num = state[4];
    let f: Num = state[5];
    let g: Num = state[6];
    let h: Num = state[7];
    let zero: Num = Num::Constant(0);
    let ghost sv = values_of(old(cs), state@);
    let ghost wv = old(cs).value_of(w);
    let ghost inr = all_words(sv) && wv <= 0xFFFF_FFFF;
    proof {
        assert(forall|i: int| 0 <= i < 8 ==> (#[trigger] state@[i]).valid(old(cs).values@.len() as int));
        assert(forall|i: int| 0 <= i < 8 ==> sv[i] == old(cs).value_of(state@[i]));
        if inr {
            assert(forall|i: int| 0 <= i < 8 ==> #[trigger] sv[i] <= 0xFFFF_FFFF);
            lemma_low32(sv[0]);
            lemma_low32(sv[1]);
            lemma_low32(sv[2]);
            lemma_low32(sv[4]);
            lemma_low32(sv[5]);
            lemma_low32(sv[6]);
        }
    }
    let s1: Num = sigma(cs, e, 6, 11, 25, false, params.range_width);
    let choice: Num = lookup3(cs, TableKind::Choice, e, f, g, params.ch_width);
    let ghost c1 = *cs;
    let t1: Num = add_words(cs, h, s1, choice, Num::Constant(k), w, 5, params.range_width);
    let ghost t1v = cs.value_of(t1);
    proof {
        if inr {
            assert(summands(&c1, h, s1, choice, Num::Constant(k), w, 5) =~= seq![
                sv[7],
                big_sigma1(sv[4]),
                ch(sv[4], sv[5], sv[6]),
                k,
                wv,
            ]);
        }
    }
    let s0: Num = sigma(cs, a, 2, 13, 22, false, params.range_width);
    let m: Num = majority(cs, params, a, b, c);
    let ghost c2 = *cs;
    let t2: Num = add_words(cs, s0, m, zero, zero, zero, 2, params.range_width);
    let ghost t2v = cs.value_of(t2);
    proof {
        if inr {
            assert(summands(&c2, s0, m, zero, zero, zero, 2) =~= seq![
                big_sigma0(sv[0]),
                maj(sv[0], sv[1], sv[2]),
            ]);
        }
    }
    let ghost c3 = *cs;
    let na: Num = add_words(cs, t1, t2, zero, zero, zero, 2, params.range_width);
    let ghost c4 = *cs;
    let ne: Num = add_words(cs, d, t1, zero, zero, zero, 2, params.range_width);
    proof {
        if inr {
            assert(summands(&c3, t1, t2, zero, zero, zero, 2) =~= seq![t1v, t2v]);
            assert(summands(&c4, d, t1, zero, zero, zero, 2) =~= seq![sv[3], t1v]);
        }
    }
    let mut next: Vec<Num> = Vec::new();
    next.push(na);
    next.push(a);
    next.push(b);
    next.push(c);
    next.push(ne);
    next.push(e);
    next.push(f);
    next.push(g);
    proof {
        if inr {
            assert(values_of(cs, next@) =~= round_step(sv, k, wv));
            assert(all_words(values_of(cs, next@)));
        }
    }
    next
}

/// Expands a sixteen-word block into the sixty-four words of the schedule.
/// The first sixteen are the block's own variables.
pub fn expand_schedule(cs: &mut ConstraintSystem, params: &Sha256GadgetParams, block: &Vec<Num>) -> (w: Vec<
    Num,
>)
    requires
        old(cs).wf(),
        params.wf(),
        block@.len() == 16,
        all_valid(block@, old(cs).values@.len() as int),
    ensures
        final(cs).wf(),
        final(cs).extends(old(cs)),
        w@.len() == 64,
        all_valid(w@, final(cs).values@.len() as int),
        forall|i: int| 0 <= i < 16 ==> w@[i] == block@[i],
        final(cs).satisfied() ==> old(cs).satisfied(),
        all_words(values_of(old(cs), block@)) ==> final(cs).satisfied() == old(cs).satisfied()
            && forall|t: int|
            0 <= t < 64 ==> final(cs).value_of(#[trigger] w@[t]) == schedule_word(
                values_of(old(cs), block@),
                t,
            ) && final(cs).value_of(w@[t]) <= 0xFFFF_FFFF,
{
    let ghost bv = values_of(old(cs), block@);
    let ghost inr = all_words(bv);
    let mut w: Vec<Num> = Vec::new();
    let mut i: usize = 0;
    while i < 16
        invariant
            0 <= i <= 16,
            block@.len() == 16,
            w@.len() == i,
            forall|j: int| 0 <= j < i ==> w@[j] == block@[j],
        decreases 16 - i,
    {
        w.push(block[i]);
        i = i + 1;
    }
    proof {
        assert forall|j: int| 0 <= j < 16 implies (#[trigger] w@[j]).valid(cs.values@.len() as int) && (inr
            ==> cs.value_of(w@[j]) == schedule_word(bv, j) && cs.value_of(w@[j]) <= 0xFFFF_FFFF) by {
            assert(block@[j].valid(old(cs).values@.len() as int));
            assert(bv[j] == old(cs).value_of(block@[j]));
        }
    }
    let mut t: usize = 16;
    while t < 64
        invariant
            16 <= t <= 64,
            params.wf(),
            block@.len() == 16,
            bv == values_of(old(cs), block@),
            inr == all_words(bv),
            w@.len() == t,
            forall|j: int| 0 <= j < 16 ==> w@[j] == block@[j],
            cs.wf(),
            cs.extends(old(cs)),
            all_valid(w@, cs.values@.len() as int),
            cs.satisfied() ==> old(cs).satisfied(),
            inr ==> cs.satisfied() == old(cs).satisfied(),
            inr ==> forall|j: int|
                0 <= j < t ==> cs.value_of(#[trigger] w@[j]) == schedule_word(bv, j) && cs.value_of(w@[j])
                    <= 0xFFFF_FFFF,
        decreases 64 - t,
    {
        let w2: Num = w[t - 2];
        let w7: Num = w[t - 7];
        let w15: Num = w[t - 15];
        let w16: Num = w[t - 16];
        let ghost c0 = *cs;
        proof {
            assert(w@[t - 2].valid(cs.values@.len() as int));
            assert(w@[t - 7].valid(cs.values@.len() as int));
            assert(w@[t - 15].valid(cs.values@.len() as int));
            assert(w@[t - 16].valid(cs.values@.len() as int));
            lemma_low32(cs.value_of(w2));
            lemma_low32(cs.value_of(w15));
        }
        let s1: Num = sigma(cs, w2, 17, 19, 10, true, params.sched_width);
        let s0: Num = sigma(cs, w15, 7, 18, 3, true, params.sched_width);
        let ghost c1 = *cs;
        let zero: Num = Num::Constant(0);
        let next: Num = add_words(cs, s1, w7, s0, w16, zero, 4, params.sched_width);
        proof {
            lemma_values_extend(w@, &c0, cs);
            if inr {
                assert(c0.value_of(w@[t - 2]) == schedule_word(bv, t - 2));
                assert(c0.value_of(w@[t - 7]) == schedule_word(bv, t - 7));
                assert(c0.value_of(w@[t - 15]) == schedule_word(bv, t - 15));
                assert(c0.value_of(w@[t - 16]) == schedule_word(bv, t - 16));
                assert(summands(&c1, s1, w7, s0, w16, zero, 4) =~= seq![
                    small_sigma1(schedule_word(bv, t - 2)),
                    schedule_word(bv, t - 7),
                    small_sigma0(schedule_word(bv, t - 15)),
                    schedule_word(bv, t - 16),
                ]);
                assert(cs.value_of(next) == schedule_word(bv, t as int));
                assert forall|j: int| 0 <= j < t implies cs.value_of(#[trigger] w@[j]) == schedule_word(
                    bv,
                    j,
                ) && cs.value_of(w@[j]) <= 0xFFFF_FFFF by {
                    assert(w@[j].valid(c0.values@.len() as int));
                    assert(c0.value_of(w@[j]) == schedule_word(bv, j));
                }
            }
        }
        w.push(next);
        t = t + 1;
    }
    w
}

} // verus!

verus! {

/// Folds one block into the hash state: the block's words are range-checked,
/// the schedule is expanded, sixty-four rounds run on a copy of the state,
/// and the result is added to the state word by word.
///
/// The constraints added hold only if every word of the block fits 32 bits.
pub fn compress_block(
    cs: &mut ConstraintSystem,
    params: &Sha256GadgetParams,
    state: &Vec<Num>,
    block: &Vec<Num>,
) -> (out: Vec<Num>)
    requires
        old(cs).wf(),
        params.wf(),
        state@.len() == 8,
        block@.len() == 16,
        all_valid(state@, old(cs).values@.len() as int),
        all_valid(block@, old(cs).values@.len() as int),
    ensures
        final(cs).wf(),
        final(cs).extends(old(cs)),
        out@.len() == 8,
        all_valid(out@, final(cs).values@.len() as int),
        final(cs).satisfied() ==> old(cs).satisfied() && all_words(values_of(old(cs), block@)),
        all_words(values_of(old(cs), state@)) ==> final(cs).satisfied() == (old(cs).satisfied()
            && all_words(values_of(old(cs), block@))),
        all_words(values_of(old(cs), state@)) && all_words(values_of(old(cs), block@)) ==> final(cs).satisfied() == old(cs).satisfied() && all_words(values_of(final(cs), out@)) && values_of(
            final(cs),
            out@,
        ) == compress(values_of(old(cs), state@), values_of(old(cs), block@)),
{
    let ghost sv = values_of(old(cs), state@);
    let ghost bv = values_of(old(cs), block@);
    let ghost inr = all_words(sv) && all_words(bv);
    let mut i: usize = 0;
    while i < 16
        invariant
            0 <= i <= 16,
            params.wf(),
            block@.len() == 16,
            bv == values_of(old(cs), block@),
            all_valid(block@, old(cs).values@.len() as int),
            cs.wf(),
            cs.extends(old(cs)),
            cs.satisfied() == (old(cs).satisfied() && forall|j: int| 0 <= j < i ==> #[trigger] bv[j] <= 0xFFFF_FFFF),
        decreases 16 - i,
    {
        let x: Num = block[i];
        proof {
            assert(block@[i as int].valid(old(cs).values@.len() as int));
            assert(bv[i as int] == old(cs).value_of(block@[i as int]));
            lemma_low32(bv[i as int]);
        }
        let _d: Decomposed = decompose(cs, x, params.range_width);
        i = i + 1;
    }
    let ghost c0 = *cs;
    proof {
        lemma_values_extend(block@, old(cs), &c0);
        lemma_values_extend(state@, old(cs), &c0);
    }
    let w: Vec<Num> = expand_schedule(cs, params, block);
    let ghost c1 = *cs;
    let mut cur: Vec<Num> = Vec::new();
    let mut i: usize = 0;
    while i < 8
        invariant
            0 <= i <= 8,
            state@.len() == 8,
            cur@.len() == i,
            forall|j: int| 0 <= j < i ==> cur@[j] == state@[j],
        decreases 8 - i,
    {
        cur.push(state[i]);
        i = i + 1;
    }
    proof {
        assert(cur@ =~= state@);
        lemma_values_extend(state@, &c0, &c1);
    }
    let mut t: usize = 0;
    while t < 64
        invariant
            0 <= t <= 64,
            params.wf(),
            state@.len() == 8,
            sv == values_of(old(cs), state@),
            bv == values_of(old(cs), block@),
            inr == (all_words(sv) && all_words(bv)),
            cs.wf(),
            cs.extends(&c1),
            c1.extends(old(cs)),
            w@.len() == 64,
            all_valid(w@, c1.values@.len() as int),
            all_valid(state@, old(cs).values@.len() as int),
            cur@.len() == 8,
            all_valid(cur@, cs.values@.len() as int),
            cs.satisfied() ==> c1.satisfied(),
            inr ==> c1.satisfied() == old(cs).satisfied(),
            inr ==> forall|j: int|
                0 <= j < 64 ==> c1.value_of(#[trigger] w@[j]) == schedule_word(bv, j) && c1.value_of(w@[j])
                    <= 0xFFFF_FFFF,
            inr ==> cs.satisfied() == old(cs).satisfied(),
            inr ==> all_words(values_of(cs, cur@)) && values_of(cs, cur@) == state_after(sv, bv, t as int),
        decreases 64 - t,
    {
        let k: u64 = round_constant_value(t);
        let wt: Num = w[t];
        let ghost before = *cs;
        proof {
            assert(w@[t as int].valid(c1.values@.len() as int));
            assert(before.value_of(wt) == c1.value_of(wt));
        }
        cur = round(cs, params, &cur, k, wt);
        t = t + 1;
    }
    let ghost c2 = *cs;
    let zero: Num = Num::Constant(0);
    let mut out: Vec<Num> = Vec::new();
    let mut i: usize = 0;
    proof {
        lemma_values_extend(state@, old(cs), &c1);
        lemma_values_extend(state@, &c1, &c2);
    }
    while i < 8
        invariant
            0 <= i <= 8,
            params.wf(),
            zero == Num::Constant(0),
            state@.len() == 8,
            cur@.len() == 8,
            sv == values_of(old(cs), state@),
            sv == values_of(&c2, state@),
            bv == values_of(old(cs), block@),
            inr == (all_words(sv) && all_words(bv)),
            all_valid(state@, c2.values@.len() as int),
            all_valid(cur@, c2.values@.len() as int),
            cs.wf(),
            cs.extends(&c2),
            c2.extends(old(cs)),
            out@.len() == i,
            all_valid(out@, cs.values@.len() as int),
            cs.satisfied() ==> c2.satisfied(),
            inr ==> cs.satisfied() == c2.satisfied(),
            inr ==> all_words(values_of(&c2, cur@)) && values_of(&c2, cur@) == state_after(sv, bv, 64),
            inr ==> forall|j: int|
                0 <= j < i ==> cs.value_of(#[trigger] out@[j]) <= 0xFFFF_FFFF && cs.value_of(out@[j])
                    == compress(sv, bv)[j],
        decreases 8 - i,
    {
        let x: Num = state[i];
        let y: Num = cur[i];
        let ghost before = *cs;
        proof {
            assert(state@[i as int].valid(c2.values@.len() as int));
            assert(cur@[i as int].valid(c2.values@.len() as int));
        }
        let sum: Num = add_words(cs, x, y, zero, zero, zero, 2, params.range_width);
        proof {
            lemma_values_extend(out@, &before, cs);
            if inr {
                assert(before.value_of(x) == sv[i as int]);
                assert(before.value_of(y) == values_of(&c2, cur@)[i as int]);
                assert(sv[i as int] <= 0xFFFF_FFFF);
                assert(values_of(&c2, cur@)[i as int] <= 0xFFFF_FFFF);
                assert(summands(&before, x, y, zero, zero, zero, 2) =~= seq![
                    sv[i as int],
                    state_after(sv, bv, 64)[i as int],
                ]);
                assert forall|j: int| 0 <= j < i implies cs.value_of(#[trigger] out@[j]) <= 0xFFFF_FFFF
                    && cs.value_of(out@[j]) == compress(sv, bv)[j] by {
                    assert(out@[j].valid(before.values@.len() as int));
                    assert(before.value_of(out@[j]) == compress(sv, bv)[j]);
                }
            }
        }
        out.push(sum);
        i = i + 1;
    }
    proof {
        if inr {
            assert(values_of(cs, out@) =~= compress(sv, bv));
            assert(all_words(values_of(cs, out@)));
        }
        if cs.satisfied() {
            assert(all_words(bv));
        }
    }
    out
}

impl Sha256GadgetParams {
    /// Hashes a padded message, given as words of sixteen per block, and
    /// returns the eight words of the digest as circuit variables.
    ///
    /// An input that is not a whole number of blocks is refused before anything
    /// is allocated. Otherwise the constraints added hold exactly when every
    /// input word fits 32 bits, and the output then holds the SHA-256 state of
    /// the input, whatever the configuration.
    pub fn sha256(&self, cs: &mut ConstraintSystem, input: &Vec<Num>) -> (r: Result<
        Vec<Num>,
        ConstructionError,
    >)
        requires
            old(cs).wf(),
            self.wf(),
            all_valid(input@, old(cs).values@.len() as int),
        ensures
            final(cs).wf(),
            final(cs).extends(old(cs)),
            input@.len() % 16 != 0 ==> r == Err::<Vec<Num>, ConstructionError>(ConstructionError::InputLength)
                && final(cs).values@ == old(cs).values@ && final(cs).rows@ == old(cs).rows@,
            input@.len() % 16 == 0 ==> r.is_ok() && r.unwrap()@.len() == 8 && all_valid(
                r.unwrap()@,
                final(cs).values@.len() as int,
            ) && final(cs).satisfied() == (old(cs).satisfied() && all_words(values_of(old(cs), input@))),
            input@.len() % 16 == 0 && all_words(values_of(old(cs), input@)) ==> values_of(
                final(cs),
                r.unwrap()@,
            ) == digest_state(values_of(old(cs), input@), input@.len() as int / 16),
    {
        let n: usize = input.len();
        if n % 16 != 0 {
            return Err(ConstructionError::InputLength);
        }
        let blocks: usize = n / 16;
        let ghost iv = values_of(old(cs), input@);
        let mut state: Vec<Num> = Vec::new();
        let mut i: usize = 0;
        while i < 8
            invariant
                0 <= i <= 8,
                state@.len() == i,
                forall|j: int| 0 <= j < i ==> #[trigger] state@[j] == Num::Constant(initial_word(j)),
            decreases 8 - i,
        {
            let k: u64 = initial_word_value(i);
            state.push(Num::Constant(k));
            i = i + 1;
        }
        proof {
            assert(values_of(cs, state@) =~= initial_state());
            assert forall|j: int| 0 <= j < 8 implies #[trigger] values_of(cs, state@)[j] <= 0xFFFF_FFFF by {
                assert(state@[j] == Num::Constant(initial_word(j)));
            }
        }
        let mut b: usize = 0;
        while b < blocks
            invariant
                0 <= b <= blocks,
                n == input@.len(),
                n == blocks * 16,
                self.wf(),
                iv == values_of(old(cs), input@),
                all_valid(input@, old(cs).values@.len() as int),
                cs.wf(),
                cs.extends(old(cs)),
                state@.len() == 8,
                all_valid(state@, cs.values@.len() as int),
                cs.satisfied() == (old(cs).satisfied() && forall|j: int| 0 <= j < 16 * b ==> #[trigger] iv[j] <= 0xFFFF_FFFF),
                (forall|j: int| 0 <= j < 16 * b ==> #[trigger] iv[j] <= 0xFFFF_FFFF) ==> all_words(
                    values_of(cs, state@),
                ) && values_of(cs, state@) == digest_state(iv, b as int),
            decreases blocks - b,
        {
            let mut block: Vec<Num> = Vec::new();
            let mut j: usize = 0;
            while j < 16
                invariant
                    0 <= j <= 16,
                    b < blocks,
                    n == input@.len(),
                    n == blocks * 16,
                    block@.len() == j,
                    forall|m: int| 0 <= m < j ==> #[trigger] block@[m] == input@[16 * b + m],
                decreases 16 - j,
            {
                block.push(input[16 * b + j]);
                j = j + 1;
            }
            let ghost before = *cs;
            proof {
                lemma_values_extend(input@, old(cs), &before);
                assert forall|m: int| 0 <= m < 16 implies (#[trigger] block@[m]).valid(
                    before.values@.len() as int,
                ) by {
                    assert(input@[16 * b + m].valid(before.values@.len() as int));
                }
                assert(values_of(&before, block@) =~= iv.subrange(16 * b, 16 * (b + 1)));
            }
            let next: Vec<Num> = compress_block(cs, self, &state, &block);
            proof {
                let bv = iv.subrange(16 * b, 16 * (b + 1));
                let lo = forall|m: int| 0 <= m < 16 * b ==> #[trigger] iv[m] <= 0xFFFF_FFFF;
                let hi = forall|m: int| 0 <= m < 16 * (b + 1) ==> #[trigger] iv[m] <= 0xFFFF_FFFF;
                if hi {
                    assert(lo);
                    assert forall|m: int| 0 <= m < 16 implies #[trigger] bv[m] <= 0xFFFF_FFFF by {
                        assert(bv[m] == iv[16 * b + m]);
                    }
                    assert(all_words(bv));
                }
                if lo && all_words(bv) {
                    assert forall|m: int| 0 <= m < 16 * (b + 1) implies #[trigger] iv[m] <= 0xFFFF_FFFF by {
                        if m >= 16 * b {
                            assert(bv[m - 16 * b] == iv[m]);
                        }
                    }
                }
            }
            state = next;
            b = b + 1;
        }
        proof {
            assert(all_words(iv) == (forall|j: int| 0 <= j < 16 * blocks ==> #[trigger] iv[j] <= 0xFFFF_FFFF));
        }
        Ok(state)
    }
}

} // verus!
