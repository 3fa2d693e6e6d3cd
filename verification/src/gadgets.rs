//! The gadgets: each allocates the variables it needs, fills in their
//! witness values and records the rows that tie them to its inputs.

use vstd::prelude::*;
use crate::cs::{
    ConstraintSystem, Num, Row, TableKind, mask_spec, table_value, spread4, eval_table, spread, compress,
    lemma_tables_kept,
};
use crate::field::{MODULUS, fadd, fadd_spec};
use crate::bits::{
    chunk_at, low32, rotr, shr, maj, mask, lemma_chunk_fold, lemma_chunk_bound, lemma_low32,
    lemma_zero_chunk, lemma_rotr_bit, lemma_shr_bit, lemma_bitwise_chunk, lemma_spread_majority,
    lemma_spread_digits, lemma_chunk_range, lemma_split_carry,
};

verus! {

/// A word together with the variables that hold its chunks, low chunk first.
pub struct Decomposed {
    pub word: Num,
    pub chunks: Vec<Num>,
    pub width: u64,
}

/// The chunk widths a word can be split into.
pub open spec fn valid_width(width: u64) -> bool {
    width == 1 || width == 2 || width == 4 || width == 8 || width == 16 || width == 32
}

/// Every variable of the sequence is valid for a witness of length `len`.
pub open spec fn all_valid(xs: Seq<Num>, len: int) -> bool {
    forall|i: int| 0 <= i < xs.len() ==> (#[trigger] xs[i]).valid(len)
}

impl Decomposed {
    /// The chunks cover 32 bits and every variable is allocated.
    pub open spec fn valid(&self, len: int) -> bool {
        &&& self.word.valid(len)
        &&& 1 <= self.width <= 32
        &&& self.chunks@.len() * self.width == 32
        &&& all_valid(self.chunks@, len)
    }

    /// Under the witness of `cs`, each chunk variable holds the chunk that
    /// the word has at its place.
    pub open spec fn represents(&self, cs: &ConstraintSystem) -> bool {
        &&& self.valid(cs.values@.len() as int)
        &&& forall|i: int|
            0 <= i < self.chunks@.len() ==> cs.value_of(#[trigger] self.chunks@[i]) == chunk_at(
                cs.value_of(self.word),
                i,
                self.width,
            )
    }

    /// The 32-bit value the word stands for under the witness of `cs`.
    pub open spec fn value(&self, cs: &ConstraintSystem) -> u64 {
        low32(cs.value_of(self.word))
    }
}

/// What was represented before allocations and new rows is represented after.
pub proof fn lemma_represents_extends(d: &Decomposed, before: &ConstraintSystem, after: &ConstraintSystem)
    requires
        d.represents(before),
        after.extends(before),
    ensures
        d.represents(after),
        d.value(after) == d.value(before),
{
    assert forall|i: int| 0 <= i < d.chunks@.len() implies after.value_of(#[trigger] d.chunks@[i])
        == chunk_at(after.value_of(d.word), i, d.width) by {
        assert(d.chunks@[i].valid(before.values@.len() as int));
        assert(before.value_of(d.chunks@[i]) == chunk_at(before.value_of(d.word), i, d.width));
    }
}

/// Number of chunks of the given width in a word.
pub fn chunk_count(width: u64) -> (n: usize)
    requires
        valid_width(width),
    ensures
        n * width == 32,
        1 <= n <= 32,
{
    if width == 1 {
        32
    } else if width == 2 {
        16
    } else if width == 4 {
        8
    } else if width == 8 {
        4
    } else if width == 16 {
        2
    } else {
        1
    }
}

/// Ties `value` to `chunks` by a chain of range-check rows: each row puts one
/// more chunk on top of the bits gathered so far, and the last row ends in
/// `value` itself. The rows hold exactly when `value` fits 32 bits and every
/// chunk variable holds the chunk of `value` at its place.
pub fn enforce_decomposition(cs: &mut ConstraintSystem, value: Num, chunks: &Vec<Num>, width: u64)
    requires
        old(cs).wf(),
        value.valid(old(cs).values@.len() as int),
        all_valid(chunks@, old(cs).values@.len() as int),
        1 <= width <= 32,
        chunks@.len() * width == 32,
    ensures
        final(cs).wf(),
        final(cs).extends(old(cs)),
        final(cs).satisfied() == (old(cs).satisfied() && old(cs).value_of(value) >> 32 == 0
            && forall|j: int|
            0 <= j < chunks@.len() ==> old(cs).value_of(#[trigger] chunks@[j]) == chunk_at(
                old(cs).value_of(value),
                j,
                width,
            )),
{
    let v: u64 = cs.get(value);
    let n: usize = chunks.len();
    let mut acc: Num = Num::Constant(0);
    let mut shift: u64 = 0;
    let mut i: usize = 0;
    proof {
        lemma_low32(v);
        assert(n >= 1) by (nonlinear_arith)
            requires
                n * width == 32,
        ;
    }
    while i < n
        invariant
            n == chunks@.len(),
            1 <= width <= 32,
            n * width == 32,
            0 <= i <= n,
            n >= 1,
            shift == i * width,
            cs.wf(),
            cs.extends(old(cs)),
            value.valid(old(cs).values@.len() as int),
            all_valid(chunks@, old(cs).values@.len() as int),
            v == old(cs).value_of(value),
            acc.valid(cs.values@.len() as int),
            i < n ==> cs.value_of(acc) == v & mask_spec(shift),
            cs.satisfied() == (old(cs).satisfied() && (i == n ==> v >> 32 == 0) && forall|j: int|
                0 <= j < i ==> old(cs).value_of(#[trigger] chunks@[j]) == chunk_at(v, j, width)),
        decreases n - i,
    {
        let chunk: Num = chunks[i];
        proof {
            assert((i + 1) * width == i * width + width) by (nonlinear_arith);
            assert((i + 1) * width <= n * width) by (nonlinear_arith)
                requires
                    i + 1 <= n,
                    width >= 0,
            ;
            assert(i + 1 < n ==> (i + 1) * width < n * width) by (nonlinear_arith)
                requires
                    width >= 1,
            ;
        }
        let next_shift: u64 = shift + width;
        let is_last: bool = i + 1 == n;
        let next: Num = if is_last {
            value
        } else {
            let m: u64 = mask(next_shift);
            proof {
                assert(v & m <= 0xFFFF_FFFF) by (bit_vector)
                    requires
                        m <= 0xFFFF_FFFF,
                ;
            }
            cs.allocate(v & m)
        };
        proof {
            assert(chunk.valid(old(cs).values@.len() as int));
            let c = cs.value_of(chunk);
            assert(c == old(cs).value_of(chunk));
            lemma_chunk_fold(v, c, shift, width);
            lemma_zero_chunk(next_shift);
            lemma_low32(v);
            if c >> width == 0 {
                lemma_chunk_bound(v, c, shift, width);
            }
            assert(chunk_at(v, i as int, width) == (v >> shift) & mask_spec(width));
        }
        let ghost before = *cs;
        cs.enforce(
            Row::Range { c0: acc, c1: chunk, c2: Num::Constant(0), w0: shift, w1: width, w2: 0, value: next },
        );
        proof {
            let c = before.value_of(chunk);
            let row = Row::Range {
                c0: acc,
                c1: chunk,
                c2: Num::Constant(0),
                w0: shift,
                w1: width,
                w2: 0,
                value: next,
            };
            if is_last {
                assert(next_shift == 32);
                assert(before.value_of(next) == v);
                assert(row.holds(before.values@) == (c == chunk_at(v, i as int, width) && v >> 32 == 0));
            } else {
                assert(row.holds(before.values@) == (c == chunk_at(v, i as int, width)));
            }
        }
        acc = next;
        shift = next_shift;
        i = i + 1;
    }
}

/// Splits a word into chunks of `width` bits: one new variable per chunk,
/// tied to the word by range-check rows. The constraints hold exactly when
/// the word's value fits 32 bits.
pub fn decompose(cs: &mut ConstraintSystem, word: Num, width: u64) -> (d: Decomposed)
    requires
        old(cs).wf(),
        word.valid(old(cs).values@.len() as int),
        valid_width(width),
    ensures
        final(cs).wf(),
        final(cs).extends(old(cs)),
        d.word == word,
        d.width == width,
        d.represents(final(cs)),
        final(cs).satisfied() == (old(cs).satisfied() && old(cs).value_of(word) >> 32 == 0),
{
    let v: u64 = cs.get(word);
    let n: usize = chunk_count(width);
    let m: u64 = mask(width);
    let mut chunks: Vec<Num> = Vec::new();
    let mut shift: u64 = 0;
    let mut i: usize = 0;
    while i < n
        invariant
            valid_width(width),
            n * width == 32,
            0 <= i <= n,
            shift == i * width,
            m == mask_spec(width),
            m >> width == 0,
            cs.wf(),
            cs.extends(old(cs)),
            cs.satisfied() == old(cs).satisfied(),
            word.valid(old(cs).values@.len() as int),
            v == old(cs).value_of(word),
            chunks@.len() == i,
            all_valid(chunks@, cs.values@.len() as int),
            forall|j: int| 0 <= j < i ==> cs.value_of(#[trigger] chunks@[j]) == chunk_at(v, j, width),
        decreases n - i,
    {
        proof {
            assert((i + 1) * width == i * width + width) by (nonlinear_arith);
            assert((i + 1) * width <= n * width) by (nonlinear_arith)
                requires
                    i + 1 <= n,
                    width >= 0,
            ;
        }
        let c: u64 = (v >> shift) & m;
        proof {
            assert(c <= 0xFFFF_FFFF) by (bit_vector)
                requires
                    c == (v >> shift) & m,
                    m >> width == 0,
                    width <= 32,
            ;
        }
        let x: Num = cs.allocate(c);
        chunks.push(x);
        shift = shift + width;
        i = i + 1;
    }
    enforce_decomposition(cs, word, &chunks, width);
    Decomposed { word, chunks, width }
}

/// Rotates a word, given by its bits, to the right by `n` places. The bit
/// variables are only put in another order; the rotated word is a new
/// variable tied to them.
pub fn rotate_right(cs: &mut ConstraintSystem, d: &Decomposed, n: u64) -> (r: Decomposed)
    requires
        old(cs).wf(),
        d.represents(old(cs)),
        d.width == 1,
        n <= 32,
    ensures
        final(cs).wf(),
        final(cs).extends(old(cs)),
        r.width == 1,
        r.represents(final(cs)),
        final(cs).value_of(r.word) == rotr(d.value(old(cs)), n),
        final(cs).value_of(r.word) >> 32 == 0,
        final(cs).satisfied() == old(cs).satisfied(),
{
    let v: u64 = cs.get(d.word);
    let x: u64 = v & 0xFFFF_FFFF;
    let target: u64 = ((x >> n) | (x << (32 - n))) & 0xFFFF_FFFF;
    let mut chunks: Vec<Num> = Vec::new();
    let mut i: u64 = 0;
    while i < 32
        invariant
            0 <= i <= 32,
            n <= 32,
            d.represents(old(cs)),
            d.width == 1,
            d.chunks@.len() == 32,
            chunks@.len() == i,
            forall|j: int| 0 <= j < i ==> #[trigger] chunks@[j] == d.chunks@[(j + n) % 32],
        decreases 32 - i,
    {
        let k: usize = ((i + n) % 32) as usize;
        chunks.push(d.chunks[k]);
        i = i + 1;
    }
    proof {
        lemma_low32(target);
        lemma_rotr_bit(v, n, 0);
    }
    let word: Num = cs.allocate(target);
    let ghost mid = *cs;
    proof {
        assert forall|j: int| 0 <= j < 32 implies (#[trigger] chunks@[j]).valid(mid.values@.len() as int)
            && mid.value_of(chunks@[j]) == chunk_at(target, j, 1) by {
            let k = (j + n) % 32;
            assert(d.chunks@[k].valid(old(cs).values@.len() as int));
            assert(old(cs).value_of(d.chunks@[k]) == chunk_at(v, k, 1));
            lemma_rotr_bit(v, n, j as u64);
        }
    }
    enforce_decomposition(cs, word, &chunks, 1);
    Decomposed { word, chunks, width: 1 }
}

/// Shifts a word, given by its bits, to the right by `n` places: the bit
/// variables move down and constant zeros fill the top.
pub fn shift_right(cs: &mut ConstraintSystem, d: &Decomposed, n: u64) -> (r: Decomposed)
    requires
        old(cs).wf(),
        d.represents(old(cs)),
        d.width == 1,
        n <= 32,
    ensures
        final(cs).wf(),
        final(cs).extends(old(cs)),
        r.width == 1,
        r.represents(final(cs)),
        final(cs).value_of(r.word) == shr(d.value(old(cs)), n),
        final(cs).value_of(r.word) >> 32 == 0,
        final(cs).satisfied() == old(cs).satisfied(),
{
    let v: u64 = cs.get(d.word);
    let x: u64 = v & 0xFFFF_FFFF;
    let target: u64 = x >> n;
    let mut chunks: Vec<Num> = Vec::new();
    let mut i: u64 = 0;
    while i < 32
        invariant
            0 <= i <= 32,
            n <= 32,
            d.represents(old(cs)),
            d.width == 1,
            d.chunks@.len() == 32,
            chunks@.len() == i,
            forall|j: int|
                0 <= j < i ==> #[trigger] chunks@[j] == (if j + n < 32 {
                    d.chunks@[j + n]
                } else {
                    Num::Constant(0)
                }),
        decreases 32 - i,
    {
        if i + n < 32 {
            chunks.push(d.chunks[(i + n) as usize]);
        } else {
            chunks.push(Num::Constant(0));
        }
        i = i + 1;
    }
    proof {
        lemma_low32(target);
        lemma_shr_bit(v, n, 0);
    }
    let word: Num = cs.allocate(target);
    let ghost mid = *cs;
    proof {
        assert forall|j: int| 0 <= j < 32 implies (#[trigger] chunks@[j]).valid(mid.values@.len() as int)
            && mid.value_of(chunks@[j]) == chunk_at(target, j, 1) by {
            lemma_shr_bit(v, n, j as u64);
            if j + n < 32 {
                let k = j + n;
                assert(d.chunks@[k].valid(old(cs).values@.len() as int));
                assert(old(cs).value_of(d.chunks@[k]) == chunk_at(v, k, 1));
            }
        }
    }
    enforce_decomposition(cs, word, &chunks, 1);
    Decomposed { word, chunks, width: 1 }
}

} // verus!

verus! {

/// Applies a bitwise function of three words chunk by chunk: one table
/// lookup per chunk, keyed by the three words' chunks at that place, and a
/// new word tied to the chunks that come out.
pub fn bitwise3(
    cs: &mut ConstraintSystem,
    table: TableKind,
    a: &Decomposed,
    b: &Decomposed,
    c: &Decomposed,
) -> (r: Decomposed)
    requires
        old(cs).wf(),
        a.represents(old(cs)),
        b.represents(old(cs)),
        c.represents(old(cs)),
        a.width == b.width,
        a.width == c.width,
        a.width <= 16,
        table == TableKind::Xor3 || table == TableKind::Majority || table == TableKind::Choice,
    ensures
        final(cs).wf(),
        final(cs).extends(old(cs)),
        r.width == a.width,
        r.represents(final(cs)),
        final(cs).value_of(r.word) == table_value(
            table,
            32,
            a.value(old(cs)),
            b.value(old(cs)),
            c.value(old(cs)),
        ),
        final(cs).value_of(r.word) >> 32 == 0,
        final(cs).satisfied() == old(cs).satisfied(),
        final(cs).has_table(table, a.width),
{
    let w: u64 = a.width;
    let n: usize = a.chunks.len();
    let va: u64 = cs.get(a.word);
    let vb: u64 = cs.get(b.word);
    let vc: u64 = cs.get(c.word);
    let target: u64 = eval_table(table, 32, va & 0xFFFF_FFFF, vb & 0xFFFF_FFFF, vc & 0xFFFF_FFFF);
    proof {
        lemma_bitwise_chunk(va, vb, vc, 0, w);
        lemma_low32(target);
        assert(b.chunks@.len() == n && c.chunks@.len() == n) by (nonlinear_arith)
            requires
                a.chunks@.len() * w == 32,
                b.chunks@.len() * w == 32,
                c.chunks@.len() * w == 32,
                n == a.chunks@.len(),
                w >= 1,
        ;
    }
    cs.register_table(table, w);
    let mut outs: Vec<Num> = Vec::new();
    let mut i: usize = 0;
    while i < n
        invariant
            0 <= i <= n,
            n == a.chunks@.len(),
            n == b.chunks@.len(),
            n == c.chunks@.len(),
            cs.has_table(table, w),
            w == a.width,
            w == b.width,
            w == c.width,
            1 <= w <= 16,
            n * w == 32,
            table == TableKind::Xor3 || table == TableKind::Majority || table == TableKind::Choice,
            a.represents(old(cs)),
            b.represents(old(cs)),
            c.represents(old(cs)),
            va == old(cs).value_of(a.word),
            vb == old(cs).value_of(b.word),
            vc == old(cs).value_of(c.word),
            target == table_value(table, 32, low32(va), low32(vb), low32(vc)),
            cs.wf(),
            cs.extends(old(cs)),
            cs.satisfied() == old(cs).satisfied(),
            outs@.len() == i,
            all_valid(outs@, cs.values@.len() as int),
            forall|j: int| 0 <= j < i ==> cs.value_of(#[trigger] outs@[j]) == chunk_at(target, j, w),
        decreases n - i,
    {
        let ka: Num = a.chunks[i];
        let kb: Num = b.chunks[i];
        let kc: Num = c.chunks[i];
        proof {
            assert(a.chunks@[i as int].valid(old(cs).values@.len() as int));
            assert(b.chunks@[i as int].valid(old(cs).values@.len() as int));
            assert(c.chunks@[i as int].valid(old(cs).values@.len() as int));
            assert(old(cs).value_of(a.chunks@[i as int]) == chunk_at(va, i as int, w));
            assert(old(cs).value_of(b.chunks@[i as int]) == chunk_at(vb, i as int, w));
            assert(old(cs).value_of(c.chunks@[i as int]) == chunk_at(vc, i as int, w));
            assert((i + 1) * w <= n * w) by (nonlinear_arith)
                requires
                    i + 1 <= n,
                    w >= 0,
            ;
            assert((i + 1) * w == i * w + w) by (nonlinear_arith);
        }
        let xa: u64 = cs.get(ka);
        let xb: u64 = cs.get(kb);
        let xc: u64 = cs.get(kc);
        let o: u64 = eval_table(table, w, xa, xb, xc);
        proof {
            let s = (i * w) as u64;
            lemma_bitwise_chunk(va, vb, vc, s, w);
            lemma_chunk_range(va, s, w);
            lemma_chunk_range(vb, s, w);
            lemma_chunk_range(vc, s, w);
            lemma_chunk_range(target, s, w);
            lemma_low32(0);
            assert(o == chunk_at(target, i as int, w));
        }
        let out: Num = cs.allocate(o);
        cs.enforce(Row::Lookup { table, width: w, a: ka, b: kb, c: kc, out });
        outs.push(out);
        i = i + 1;
    }
    let word: Num = cs.allocate(target);
    let ghost before = *cs;
    enforce_decomposition(cs, word, &outs, w);
    proof {
        lemma_tables_kept(&before, cs, table, w);
    }
    Decomposed { word, chunks: outs, width: w }
}

/// Variables that were allocated before keep their values afterwards.
pub proof fn lemma_values_extend(xs: Seq<Num>, before: &ConstraintSystem, after: &ConstraintSystem)
    requires
        all_valid(xs, before.values@.len() as int),
        after.extends(before),
    ensures
        values_of(after, xs) == values_of(before, xs),
        all_valid(xs, after.values@.len() as int),
{
    assert forall|i: int| 0 <= i < xs.len() implies after.value_of(xs[i]) == before.value_of(xs[i]) by {
        assert(xs[i].valid(before.values@.len() as int));
    }
    assert(values_of(after, xs) =~= values_of(before, xs));
    assert forall|i: int| 0 <= i < xs.len() implies (#[trigger] xs[i]).valid(after.values@.len() as int) by {
        assert(xs[i].valid(before.values@.len() as int));
    }
}

/// Brings the chunks of a word into sparse form: for each chunk a new
/// variable that holds the chunk with its bits spread to the even places,
/// tied to the chunk by a lookup in the spread table.
pub fn to_sparse(cs: &mut ConstraintSystem, d: &Decomposed) -> (r: Vec<Num>)
    requires
        old(cs).wf(),
        d.represents(old(cs)),
        d.width <= 16,
    ensures
        final(cs).wf(),
        final(cs).extends(old(cs)),
        r@.len() == d.chunks@.len(),
        all_valid(r@, final(cs).values@.len() as int),
        forall|i: int|
            0 <= i < r@.len() ==> (#[trigger] values_of(final(cs), r@)[i]) == spread4(
                chunk_at(old(cs).value_of(d.word), i, d.width),
            ),
        final(cs).satisfied() == old(cs).satisfied(),
        final(cs).has_table(TableKind::Spread, d.width),
{
    let n: usize = d.chunks.len();
    let w: u64 = d.width;
    let ghost v = old(cs).value_of(d.word);
    cs.register_table(TableKind::Spread, w);
    let mut out: Vec<Num> = Vec::new();
    let mut i: usize = 0;
    while i < n
        invariant
            0 <= i <= n,
            cs.has_table(TableKind::Spread, w),
            n == d.chunks@.len(),
            w == d.width,
            1 <= w <= 16,
            n * w == 32,
            d.represents(old(cs)),
            v == old(cs).value_of(d.word),
            cs.wf(),
            cs.extends(old(cs)),
            cs.satisfied() == old(cs).satisfied(),
            out@.len() == i,
            all_valid(out@, cs.values@.len() as int),
            forall|j: int| 0 <= j < i ==> cs.value_of(#[trigger] out@[j]) == spread4(chunk_at(v, j, w)),
        decreases n - i,
    {
        let k: Num = d.chunks[i];
        proof {
            assert(d.chunks@[i as int].valid(old(cs).values@.len() as int));
            assert(old(cs).value_of(d.chunks@[i as int]) == chunk_at(v, i as int, w));
            assert((i + 1) * w <= n * w) by (nonlinear_arith)
                requires
                    i + 1 <= n,
                    w >= 0,
            ;
            lemma_chunk_range(v, (i * w) as u64, w);
            lemma_spread_digits(chunk_at(v, i as int, w), w);
        }
        let x: u64 = cs.get(k);
        let sx: u64 = spread(x);
        let sv: Num = cs.allocate(sx);
        cs.enforce(
            Row::Lookup {
                table: TableKind::Spread,
                width: w,
                a: k,
                b: Num::Constant(0),
                c: Num::Constant(0),
                out: sv,
            },
        );
        out.push(sv);
        i = i + 1;
    }
    out
}

/// Majority of three words in sparse form: the chunks of each word are
/// spread, the three spread forms are added by a main-gate row, which
/// carries nothing from digit to digit, and a lookup decodes the sum into
/// the majority of the chunks.
pub fn majority_by_spread(cs: &mut ConstraintSystem, a: &Decomposed, b: &Decomposed, c: &Decomposed) -> (r:
    Decomposed)
    requires
        old(cs).wf(),
        a.represents(old(cs)),
        b.represents(old(cs)),
        c.represents(old(cs)),
        a.width == b.width,
        a.width == c.width,
        a.width <= 16,
    ensures
        final(cs).wf(),
        final(cs).extends(old(cs)),
        r.width == a.width,
        r.represents(final(cs)),
        final(cs).value_of(r.word) == maj(a.value(old(cs)), b.value(old(cs)), c.value(old(cs))),
        final(cs).value_of(r.word) >> 32 == 0,
        final(cs).satisfied() == old(cs).satisfied(),
{
    let w: u64 = a.width;
    let n: usize = a.chunks.len();
    let va: u64 = cs.get(a.word);
    let vb: u64 = cs.get(b.word);
    let vc: u64 = cs.get(c.word);
    let target: u64 = eval_table(TableKind::Majority, 32, va & 0xFFFF_FFFF, vb & 0xFFFF_FFFF, vc & 0xFFFF_FFFF);
    proof {
        lemma_bitwise_chunk(va, vb, vc, 0, w);
        lemma_low32(target);
        assert(b.chunks@.len() == n && c.chunks@.len() == n) by (nonlinear_arith)
            requires
                a.chunks@.len() * w == 32,
                b.chunks@.len() * w == 32,
                c.chunks@.len() * w == 32,
                n == a.chunks@.len(),
                w >= 1,
        ;
    }
    let sa: Vec<Num> = to_sparse(cs, a);
    let ghost c1 = *cs;
    proof {
        lemma_represents_extends(b, old(cs), &c1);
        lemma_represents_extends(c, old(cs), &c1);
    }
    let sb: Vec<Num> = to_sparse(cs, b);
    let ghost c2 = *cs;
    proof {
        lemma_represents_extends(c, &c1, &c2);
        lemma_values_extend(sa@, &c1, &c2);
    }
    let sc: Vec<Num> = to_sparse(cs, c);
    let ghost c2b = *cs;
    cs.register_table(TableKind::MajorityDecode, w);
    let ghost c3 = *cs;
    proof {
        lemma_values_extend(sa@, &c2, &c2b);
        lemma_values_extend(sb@, &c2, &c2b);
        lemma_values_extend(sa@, &c2b, &c3);
        lemma_values_extend(sb@, &c2b, &c3);
        lemma_values_extend(sc@, &c2b, &c3);
    }
    let mut outs: Vec<Num> = Vec::new();
    let mut i: usize = 0;
    while i < n
        invariant
            0 <= i <= n,
            cs.has_table(TableKind::MajorityDecode, w),
            n == sa@.len(),
            n == sb@.len(),
            n == sc@.len(),
            1 <= w <= 16,
            n * w == 32,
            va == old(cs).value_of(a.word),
            vb == old(cs).value_of(b.word),
            vc == old(cs).value_of(c.word),
            target == maj(low32(va), low32(vb), low32(vc)),
            all_valid(sa@, c3.values@.len() as int),
            all_valid(sb@, c3.values@.len() as int),
            all_valid(sc@, c3.values@.len() as int),
            forall|j: int| 0 <= j < n ==> (#[trigger] values_of(&c3, sa@)[j]) == spread4(chunk_at(va, j, w)),
            forall|j: int| 0 <= j < n ==> (#[trigger] values_of(&c3, sb@)[j]) == spread4(chunk_at(vb, j, w)),
            forall|j: int| 0 <= j < n ==> (#[trigger] values_of(&c3, sc@)[j]) == spread4(chunk_at(vc, j, w)),
            cs.wf(),
            cs.extends(&c3),
            c3.extends(old(cs)),
            cs.satisfied() == old(cs).satisfied(),
            outs@.len() == i,
            all_valid(outs@, cs.values@.len() as int),
            forall|j: int| 0 <= j < i ==> cs.value_of(#[trigger] outs@[j]) == chunk_at(target, j, w),
        decreases n - i,
    {
        let ka: Num = sa[i];
        let kb: Num = sb[i];
        let kc: Num = sc[i];
        proof {
            assert(sa@[i as int].valid(c3.values@.len() as int));
            assert(sb@[i as int].valid(c3.values@.len() as int));
            assert(sc@[i as int].valid(c3.values@.len() as int));
            assert(values_of(&c3, sa@)[i as int] == spread4(chunk_at(va, i as int, w)));
            assert(values_of(&c3, sb@)[i as int] == spread4(chunk_at(vb, i as int, w)));
            assert(values_of(&c3, sc@)[i as int] == spread4(chunk_at(vc, i as int, w)));
            assert((i + 1) * w <= n * w) by (nonlinear_arith)
                requires
                    i + 1 <= n,
                    w >= 0,
            ;
            assert((i + 1) * w == i * w + w) by (nonlinear_arith);
            let s = (i * w) as u64;
            lemma_chunk_range(va, s, w);
            lemma_chunk_range(vb, s, w);
            lemma_chunk_range(vc, s, w);
            lemma_bitwise_chunk(va, vb, vc, s, w);
            lemma_spread_majority(chunk_at(va, i as int, w), chunk_at(vb, i as int, w), chunk_at(vc, i as int, w), w);
        }
        let xa: u64 = cs.get(ka);
        let xb: u64 = cs.get(kb);
        let xc: u64 = cs.get(kc);
        let sum: u64 = fadd(fadd(xa, xb), xc);
        let o: u64 = compress(sum >> 1);
        let sum_var: Num = cs.allocate(sum);
        cs.enforce(Row::Sum { a: ka, b: kb, c: kc, value: sum_var });
        let out: Num = cs.allocate(o);
        proof {
            assert(sum == xa + xb + xc);
            assert(cs.value_of(sum_var) == sum);
            assert(o == chunk_at(target, i as int, w));
            assert(cs.value_of(out) == o);
        }
        cs.enforce(
            Row::Lookup {
                table: TableKind::MajorityDecode,
                width: w,
                a: sum_var,
                b: Num::Constant(0),
                c: Num::Constant(0),
                out,
            },
        );
        outs.push(out);
        i = i + 1;
    }
    let word: Num = cs.allocate(target);
    enforce_decomposition(cs, word, &outs, w);
    Decomposed { word, chunks: outs, width: w }
}

/// The witness values of a sequence of variables.
pub open spec fn values_of(cs: &ConstraintSystem, xs: Seq<Num>) -> Seq<u64> {
    Seq::new(xs.len(), |i: int| cs.value_of(xs[i]))
}

/// The sum of field elements, taken in the field.
pub open spec fn field_sum(s: Seq<u64>) -> u64
    decreases s.len(),
{
    if s.len() == 0 {
        0
    } else {
        fadd_spec(field_sum(s.drop_last()), s.last())
    }
}

/// The sum of the values as numbers.
pub open spec fn int_sum(s: Seq<u64>) -> int
    decreases s.len(),
{
    if s.len() == 0 {
        0
    } else {
        int_sum(s.drop_last()) + s.last()
    }
}

/// Every value fits 32 bits.
pub open spec fn all_words(s: Seq<u64>) -> bool {
    forall|i: int| 0 <= i < s.len() ==> #[trigger] s[i] <= 0xFFFF_FFFF
}

/// The number of bits that the carry of a sum of `n` words can take.
pub open spec fn carry_width(n: int) -> u64 {
    if n <= 1 {
        0
    } else if n <= 2 {
        1
    } else if n <= 4 {
        2
    } else if n <= 8 {
        3
    } else {
        4
    }
}

/// Sums of up to sixteen words do not wrap around in the field, and fit the
/// 32 bits of a word and the carry bits that their number gives.
pub proof fn lemma_sum_of_words(s: Seq<u64>)
    requires
        all_words(s),
        s.len() <= 16,
    ensures
        field_sum(s) as int == int_sum(s),
        0 <= int_sum(s) <= s.len() * 0xFFFF_FFFF,
        field_sum(s) >> ((32 + carry_width(s.len() as int)) as u64) == 0,
    decreases s.len(),
{
    if s.len() > 0 {
        let p = s.drop_last();
        assert(all_words(p)) by {
            assert forall|i: int| 0 <= i < p.len() implies #[trigger] p[i] <= 0xFFFF_FFFF by {
                assert(p[i] == s[i]);
            }
        }
        lemma_sum_of_words(p);
        assert(s.last() == s[s.len() - 1]);
    }
    let t = field_sum(s);
    let cw = carry_width(s.len() as int);
    assert(t >> ((32 + cw) as u64) == 0) by (bit_vector)
        requires
            (cw == 0 && t <= 0xFFFF_FFFF) || (cw == 1 && t <= 0x1_FFFF_FFFE) || (cw == 2 && t
                <= 0x3_FFFF_FFFC) || (cw == 3 && t <= 0x7_FFFF_FFF8) || (cw == 4 && t <= 0xF_FFFF_FFF0),
    ;
}

/// Adds words modulo `2^32`. The words are summed in the field by main-gate
/// rows; the sum is split into its low 32 bits and a carry of as many bits
/// as the number of summands calls for, by one range-check row; the low
/// word comes back split into chunks of `width` bits.
///
/// The constraints hold exactly when the field sum fits the word and the
/// carry, as it does whenever every summand fits 32 bits.
pub fn add32(cs: &mut ConstraintSystem, words: &Vec<Num>, width: u64) -> (r: Decomposed)
    requires
        old(cs).wf(),
        all_valid(words@, old(cs).values@.len() as int),
        words@.len() <= 16,
        valid_width(width),
    ensures
        final(cs).wf(),
        final(cs).extends(old(cs)),
        r.width == width,
        r.represents(final(cs)),
        final(cs).value_of(r.word) == low32(field_sum(values_of(old(cs), words@))),
        final(cs).value_of(r.word) >> 32 == 0,
        final(cs).satisfied() == (old(cs).satisfied() && field_sum(values_of(old(cs), words@)) >> ((32
            + carry_width(words@.len() as int)) as u64) == 0),
        all_words(values_of(old(cs), words@)) ==> final(cs).satisfied() == old(cs).satisfied()
            && final(cs).value_of(r.word) as int == int_sum(values_of(old(cs), words@)) % 0x1_0000_0000,
{
    let n: usize = words.len();
    let ghost vals = values_of(old(cs), words@);
    let mut acc: Num = Num::Constant(0);
    let mut total: u64 = 0;
    let mut i: usize = 0;
    while i < n
        invariant
            0 <= i <= n,
            n == words@.len(),
            vals == values_of(old(cs), words@),
            all_valid(words@, old(cs).values@.len() as int),
            cs.wf(),
            cs.extends(old(cs)),
            cs.satisfied() == old(cs).satisfied(),
            acc.valid(cs.values@.len() as int),
            cs.value_of(acc) == total,
            total < MODULUS,
            total == field_sum(vals.take(i as int)),
        decreases n - i,
    {
        let x: Num = words[i];
        proof {
            assert(x.valid(old(cs).values@.len() as int));
            assert(vals.take(i + 1).drop_last() == vals.take(i as int));
            assert(vals.take(i + 1).last() == vals[i as int]);
        }
        let v: u64 = cs.get(x);
        let next_total: u64 = fadd(total, v);
        let next: Num = cs.allocate(next_total);
        cs.enforce(Row::Sum { a: acc, b: x, c: Num::Constant(0), value: next });
        acc = next;
        total = next_total;
        i = i + 1;
    }
    proof {
        assert(vals.take(n as int) == vals);
    }
    let cw: u64 = if n <= 1 {
        0
    } else if n <= 2 {
        1
    } else if n <= 4 {
        2
    } else if n <= 8 {
        3
    } else {
        4
    };
    let low: u64 = total & 0xFFFF_FFFF;
    let carry: u64 = total >> 32;
    proof {
        lemma_split_carry(total, cw);
        lemma_low32(total);
        lemma_zero_chunk((32 + cw) as u64);
        assert(carry <= 0xFFFF_FFFF) by (bit_vector)
            requires
                carry == total >> 32,
        ;
        if all_words(vals) {
            lemma_sum_of_words(vals);
        }
    }
    let low_var: Num = cs.allocate(low);
    let carry_var: Num = cs.allocate(carry);
    cs.enforce(
        Row::Range {
            c0: low_var,
            c1: carry_var,
            c2: Num::Constant(0),
            w0: 32,
            w1: cw,
            w2: 0,
            value: acc,
        },
    );
    decompose(cs, low_var, width)
}

} // verus!
