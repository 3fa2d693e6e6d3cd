//! A constraint system that records witness values, gate rows and table
//! lookups, and can check afterwards whether the witness satisfies them.

use vstd::prelude::*;
use crate::field::{MODULUS, reduced, fadd_spec, reduce, fadd};
use crate::bits::mask;

verus! {

/// A circuit variable: a handle into the witness, or a known constant.
#[derive(Clone, Copy, Debug, PartialEq, Eq, Structural)]
pub enum Num {
    Allocated(usize),
    Constant(u64),
}

/// The relation a lookup table holds between three keys and one output.
#[derive(Clone, Copy, Debug, PartialEq, Eq, Structural)]
pub enum TableKind {
    /// `a ^ b ^ c`
    Xor3,
    /// `(a & b) ^ (a & c) ^ (b & c)`
    Majority,
    /// `(a & b) ^ (!a & c)`
    Choice,
    /// the spread form of `a`: bit `i` of `a` at bit `2i`; `b` and `c` are zero
    Spread,
    /// for `a` the sum of three spread forms, the majority of the three
    /// values that were spread; `b` and `c` are zero
    MajorityDecode,
}

/// The shape of a lookup table: its relation and the width of its keys.
#[derive(Clone, Copy, Debug, PartialEq, Eq, Structural)]
pub struct TableShape {
    pub kind: TableKind,
    pub width: u64,
}

/// The number of key bits of a table: one chunk for the spread table, a
/// sum of spread chunks for the decoding table, three chunks otherwise.
pub open spec fn key_bits(kind: TableKind, width: u64) -> int {
    match kind {
        TableKind::Spread => width as int,
        TableKind::MajorityDecode => 2 * width,
        _ => 3 * width,
    }
}

/// The number of rows of a table, one for each key; tables too large to
/// count in 64 bits count as the largest number.
pub open spec fn table_rows(kind: TableKind, width: u64) -> u64 {
    if key_bits(kind, width) < 64 {
        1u64 << (key_bits(kind, width) as u64)
    } else {
        0xFFFF_FFFF_FFFF_FFFF
    }
}

/// The number of rows of all the tables together.
pub open spec fn total_rows(tables: Seq<TableShape>) -> int
    decreases tables.len(),
{
    if tables.len() == 0 {
        0
    } else {
        total_rows(tables.drop_last()) + table_rows(tables.last().kind, tables.last().width)
    }
}

/// One row of the constraint set.
#[derive(Clone, Copy, Debug)]
pub enum Row {
    /// Range-check gate: each chunk fits its width and the chunks, weighted by
    /// the powers of two that their widths give, add up to `value`.
    Range { c0: Num, c1: Num, c2: Num, w0: u64, w1: u64, w2: u64, value: Num },
    /// Main gate: the field sum of three wires equals `value`.
    Sum { a: Num, b: Num, c: Num, value: Num },
    /// Membership of `(a, b, c, out)` in the table of the given kind over
    /// keys of `width` bits.
    Lookup { table: TableKind, width: u64, a: Num, b: Num, c: Num, out: Num },
}

/// All bits of a chunk of the given width.
pub open spec fn mask_spec(width: u64) -> u64 {
    ((1u64 << width) - 1) as u64
}

/// What a table of the given kind maps its keys to.
pub open spec fn table_value(table: TableKind, width: u64, a: u64, b: u64, c: u64) -> u64 {
    match table {
        TableKind::Xor3 => a ^ b ^ c,
        TableKind::Majority => (a & b) ^ (a & c) ^ (b & c),
        TableKind::Choice => (a & b) ^ ((a ^ mask_spec(width)) & c),
        TableKind::Spread => spread4(a),
        TableKind::MajorityDecode => compress4(a >> 1),
    }
}

/// The sparse form of a value of up to sixteen bits in base four: bit `i`
/// of `x` becomes the digit at place `i`, that is bit `2i`.
pub open spec fn spread4(x: u64) -> u64 {
    let x1 = (x | (x << 8)) & 0x00FF_00FF;
    let x2 = (x1 | (x1 << 4)) & 0x0F0F_0F0F;
    let x3 = (x2 | (x2 << 2)) & 0x3333_3333;
    (x3 | (x3 << 1)) & 0x5555_5555
}

/// The value whose bit `i` is the low bit of the base-four digit of `y` at
/// place `i`.
pub open spec fn compress4(y: u64) -> u64 {
    let y0 = y & 0x5555_5555;
    let y1 = (y0 | (y0 >> 1)) & 0x3333_3333;
    let y2 = (y1 | (y1 >> 2)) & 0x0F0F_0F0F;
    let y3 = (y2 | (y2 >> 4)) & 0x00FF_00FF;
    (y3 | (y3 >> 8)) & 0x0000_FFFF
}

/// Whether `(a, b, c)` is a key of the table.
pub open spec fn table_has_key(table: TableKind, width: u64, a: u64, b: u64, c: u64) -> bool {
    match table {
        TableKind::Spread => a >> width == 0 && b == 0 && c == 0,
        TableKind::MajorityDecode => a >> ((2 * width) as u64) == 0 && b == 0 && c == 0,
        _ => a >> width == 0 && b >> width == 0 && c >> width == 0,
    }
}

/// The range-check relation on witness values.
pub open spec fn range_holds(x0: u64, x1: u64, x2: u64, w0: u64, w1: u64, w2: u64, v: u64) -> bool {
    &&& x0 >> w0 == 0
    &&& x1 >> w1 == 0
    &&& x2 >> w2 == 0
    &&& x0 as int + (x1 << w0) as int + (x2 << ((w0 + w1) as u64)) as int == v as int
}

impl Num {
    /// The variable refers to a witness slot below `len`, or is a constant.
    pub open spec fn valid(self, len: int) -> bool {
        match self {
            Num::Allocated(i) => (i as int) < len,
            Num::Constant(_) => true,
        }
    }

    /// The value the variable takes under the witness `w`.
    pub open spec fn value(self, w: Seq<u64>) -> u64 {
        match self {
            Num::Allocated(i) => w[i as int],
            Num::Constant(c) => c,
        }
    }
}

impl Row {
    /// Every wire is valid for a witness of length `len`, and the widths
    /// stay within what a row can hold.
    pub open spec fn valid(self, len: int) -> bool {
        match self {
            Row::Range { c0, c1, c2, w0, w1, w2, value } => {
                &&& c0.valid(len) && c1.valid(len) && c2.valid(len) && value.valid(len)
                &&& w0 + w1 + w2 <= 63
            },
            Row::Sum { a, b, c, value } => {
                a.valid(len) && b.valid(len) && c.valid(len) && value.valid(len)
            },
            Row::Lookup { table, width, a, b, c, out } => {
                &&& a.valid(len) && b.valid(len) && c.valid(len) && out.valid(len)
                &&& 1 <= width <= 16
            },
        }
    }

    /// A lookup row refers to a table among `tables`.
    pub open spec fn registered(self, tables: Seq<TableShape>) -> bool {
        match self {
            Row::Lookup { table, width, a, b, c, out } => tables.contains(TableShape { kind: table, width }),
            _ => true,
        }
    }

    /// The witness `w` satisfies the row.
    pub open spec fn holds(self, w: Seq<u64>) -> bool {
        match self {
            Row::Range { c0, c1, c2, w0, w1, w2, value } => range_holds(
                c0.value(w),
                c1.value(w),
                c2.value(w),
                w0,
                w1,
                w2,
                value.value(w),
            ),
            Row::Sum { a, b, c, value } => value.value(w) == fadd_spec(
                fadd_spec(a.value(w), b.value(w)),
                c.value(w),
            ),
            Row::Lookup { table, width, a, b, c, out } => {
                &&& table_has_key(table, width, a.value(w), b.value(w), c.value(w))
                &&& out.value(w) == table_value(table, width, a.value(w), b.value(w), c.value(w))
            },
        }
    }
}

/// The recorded circuit: a witness, the rows it has to satisfy, and the
/// tables that lookups refer to.
pub struct ConstraintSystem {
    pub values: Vec<u64>,
    pub rows: Vec<Row>,
    pub tables: Vec<TableShape>,
}

impl ConstraintSystem {
    /// Every recorded row refers to allocated variables and registered
    /// tables only, and no table is registered twice.
    pub open spec fn wf(&self) -> bool {
        &&& forall|i: int|
            0 <= i < self.rows@.len() ==> (#[trigger] self.rows@[i]).valid(self.values@.len() as int)
                && self.rows@[i].registered(self.tables@)
        &&& forall|i: int, j: int|
            0 <= i < j < self.tables@.len() ==> self.tables@[i] != self.tables@[j]
    }

    /// A table of this shape is registered.
    pub open spec fn has_table(&self, kind: TableKind, width: u64) -> bool {
        self.tables@.contains(TableShape { kind, width })
    }

    /// The witness satisfies every recorded row.
    pub open spec fn satisfied(&self) -> bool {
        forall|i: int| 0 <= i < self.rows@.len() ==> (#[trigger] self.rows@[i]).holds(self.values@)
    }

    /// `self` was reached from `before` by allocating variables and adding
    /// rows: what `before` held is still there, unchanged.
    pub open spec fn extends(&self, before: &ConstraintSystem) -> bool {
        &&& before.values@.len() <= self.values@.len()
        &&& forall|i: int| 0 <= i < before.values@.len() ==> self.values@[i] == before.values@[i]
        &&& before.rows@.len() <= self.rows@.len()
        &&& forall|i: int| 0 <= i < before.rows@.len() ==> self.rows@[i] == before.rows@[i]
        &&& before.tables@.len() <= self.tables@.len()
        &&& forall|i: int| 0 <= i < before.tables@.len() ==> self.tables@[i] == before.tables@[i]
    }

    /// The value of a variable under the current witness.
    pub open spec fn value_of(&self, x: Num) -> u64 {
        x.value(self.values@)
    }

    /// An empty constraint system.
    pub fn new() -> (cs: ConstraintSystem)
        ensures
            cs.values@.len() == 0,
            cs.rows@.len() == 0,
            cs.tables@.len() == 0,
            cs.wf(),
            cs.satisfied(),
    {
        ConstraintSystem { values: Vec::new(), rows: Vec::new(), tables: Vec::new() }
    }

    /// The total length of all the tables registered.
    pub fn total_length_of_all_tables(&self) -> (r: u128)
        ensures
            r == total_rows(self.tables@),
    {
        let mut total: u128 = 0;
        let mut i: usize = 0;
        while i < self.tables.len()
            invariant
                0 <= i <= self.tables@.len(),
                total == total_rows(self.tables@.take(i as int)),
                total <= i * 0xFFFF_FFFF_FFFF_FFFF,
            decreases self.tables@.len() - i,
        {
            let t: TableShape = self.tables[i];
            let factor: u64 = match t.kind {
                TableKind::Spread => 1,
                TableKind::MajorityDecode => 2,
                _ => 3,
            };
            let rows: u64 = if t.width < 64 && factor * t.width < 64 {
                1u64 << (factor * t.width)
            } else {
                0xFFFF_FFFF_FFFF_FFFF
            };
            proof {
                assert(self.tables@.take(i + 1).drop_last() == self.tables@.take(i as int));
                assert(self.tables@.take(i + 1).last() == t);
                assert((i + 1) * 0xFFFF_FFFF_FFFF_FFFF <= 0xFFFF_FFFF_FFFF_FFFF * 0xFFFF_FFFF_FFFF_FFFF)
                    by (nonlinear_arith)
                    requires
                        i + 1 <= 0xFFFF_FFFF_FFFF_FFFF,
                ;
                assert((i + 1) * 0xFFFF_FFFF_FFFF_FFFF == i * 0xFFFF_FFFF_FFFF_FFFF + 0xFFFF_FFFF_FFFF_FFFF)
                    by (nonlinear_arith);
            }
            total = total + rows as u128;
            i = i + 1;
        }
        proof {
            assert(self.tables@.take(self.tables@.len() as int) == self.tables@);
        }
        total
    }

    /// Number of tables registered.
    pub fn n_tables(&self) -> (r: usize)
        ensures
            r == self.tables@.len(),
    {
        self.tables.len()
    }

    /// Registers the table of the given shape, unless it is registered
    /// already: a shape is registered once, however often it is asked for.
    pub fn register_table(&mut self, kind: TableKind, width: u64)
        requires
            old(self).wf(),
        ensures
            final(self).wf(),
            final(self).values@ == old(self).values@,
            final(self).rows@ == old(self).rows@,
            final(self).extends(old(self)),
            final(self).satisfied() == old(self).satisfied(),
            final(self).has_table(kind, width),
            old(self).has_table(kind, width) ==> final(self).tables@ == old(self).tables@,
            !old(self).has_table(kind, width) ==> final(self).tables@ == old(self).tables@.push(
                TableShape { kind, width },
            ),
    {
        let shape = TableShape { kind, width };
        let mut i: usize = 0;
        while i < self.tables.len()
            invariant
                0 <= i <= self.tables@.len(),
                old(self).wf(),
                self.tables@ == old(self).tables@,
                self.values@ == old(self).values@,
                self.rows@ == old(self).rows@,
                shape == (TableShape { kind, width }),
                forall|j: int| 0 <= j < i ==> self.tables@[j] != shape,
            decreases self.tables@.len() - i,
        {
            let t: TableShape = self.tables[i];
            if t.kind == kind && t.width == width {
                assert(self.tables@[i as int] == shape);
                return ;
            }
            i = i + 1;
        }
        assert(!old(self).tables@.contains(shape));
        self.tables.push(shape);
        proof {
            let n = old(self).tables@.len() as int;
            assert(self.tables@[n] == shape);
            assert forall|k: int| 0 <= k < self.rows@.len() implies (#[trigger] self.rows@[k]).registered(
                self.tables@,
            ) by {
                assert(old(self).rows@[k].registered(old(self).tables@));
                match self.rows@[k] {
                    Row::Lookup { table, width, a, b, c, out } => {
                        let t = TableShape { kind: table, width };
                        let j = choose|j: int| 0 <= j < old(self).tables@.len() && old(self).tables@[j] == t;
                        assert(self.tables@[j] == t);
                    },
                    _ => {},
                }
            }
        }
    }

    /// Number of rows recorded so far.
    pub fn n(&self) -> (r: usize)
        ensures
            r == self.rows@.len(),
    {
        self.rows.len()
    }

    /// Allocates a variable whose witness value is the canonical
    /// representative of `v`.
    pub fn allocate(&mut self, v: u64) -> (x: Num)
        requires
            old(self).wf(),
        ensures
            final(self).wf(),
            final(self).values@ == old(self).values@.push(reduced(v as int) as u64),
            final(self).rows@ == old(self).rows@,
            final(self).tables@ == old(self).tables@,
            final(self).extends(old(self)),
            final(self).satisfied() == old(self).satisfied(),
            x == Num::Allocated(old(self).values@.len() as usize),
            x.valid(final(self).values@.len() as int),
            v < MODULUS ==> final(self).value_of(x) == v,
    {
        let idx: usize = self.values.len();
        let r: u64 = reduce(v);
        self.values.push(r);
        proof {
            assert forall|i: int| 0 <= i < self.rows@.len() implies (#[trigger] self.rows@[i]).holds(
                self.values@,
            ) == old(self).rows@[i].holds(old(self).values@) by {
                assert(old(self).rows@[i].valid(old(self).values@.len() as int));
            }
        }
        Num::Allocated(idx)
    }

    /// Reads the witness value of a variable.
    pub fn get(&self, x: Num) -> (v: u64)
        requires
            x.valid(self.values@.len() as int),
        ensures
            v == self.value_of(x),
    {
        match x {
            Num::Allocated(i) => self.values[i],
            Num::Constant(c) => c,
        }
    }

    /// Records a row.
    pub fn enforce(&mut self, row: Row)
        requires
            old(self).wf(),
            row.valid(old(self).values@.len() as int),
            row.registered(old(self).tables@),
        ensures
            final(self).wf(),
            final(self).values@ == old(self).values@,
            final(self).rows@ == old(self).rows@.push(row),
            final(self).tables@ == old(self).tables@,
            final(self).extends(old(self)),
            final(self).satisfied() == (old(self).satisfied() && row.holds(old(self).values@)),
    {
        self.rows.push(row);
        proof {
            let n = old(self).rows@.len() as int;
            assert(self.rows@[n] == row);
            if old(self).satisfied() && row.holds(old(self).values@) {
                assert forall|i: int| 0 <= i < self.rows@.len() implies (#[trigger] self.rows@[i]).holds(
                    self.values@,
                ) by {
                    if i < n {
                        assert(self.rows@[i] == old(self).rows@[i]);
                    }
                }
            }
            if self.satisfied() {
                assert(self.rows@[n].holds(self.values@));
                assert forall|i: int| 0 <= i < n implies (#[trigger] old(self).rows@[i]).holds(
                    old(self).values@,
                ) by {
                    assert(self.rows@[i] == old(self).rows@[i]);
                }
            }
        }
    }
}


/// A table that was registered stays registered.
pub proof fn lemma_tables_kept(before: &ConstraintSystem, after: &ConstraintSystem, kind: TableKind, width: u64)
    requires
        after.extends(before),
        before.has_table(kind, width),
    ensures
        after.has_table(kind, width),
{
    let t = TableShape { kind, width };
    let j = choose|j: int| 0 <= j < before.tables@.len() && before.tables@[j] == t;
    assert(after.tables@[j] == t);
}

/// Range checks are sound: where a range-check row is recorded and the
/// witness gives one of its chunks a value beyond the chunk's width, the
/// constraint set is not satisfied.
pub proof fn lemma_range_check_sound(cs: &ConstraintSystem, i: int)
    requires
        0 <= i < cs.rows@.len(),
        cs.rows@[i] is Range,
        cs.value_of(cs.rows@[i]->c0) >> cs.rows@[i]->w0 != 0 || cs.value_of(cs.rows@[i]->c1)
            >> cs.rows@[i]->w1 != 0 || cs.value_of(cs.rows@[i]->c2) >> cs.rows@[i]->w2 != 0,
    ensures
        !cs.satisfied(),
{
    assert(!cs.rows@[i].holds(cs.values@));
}

/// The spread form of `x`.
pub fn spread(x: u64) -> (r: u64)
    ensures
        r == spread4(x),
{
    let x1: u64 = (x | (x << 8)) & 0x00FF_00FF;
    let x2: u64 = (x1 | (x1 << 4)) & 0x0F0F_0F0F;
    let x3: u64 = (x2 | (x2 << 2)) & 0x3333_3333;
    (x3 | (x3 << 1)) & 0x5555_5555
}

/// Gathers the low bits of the base-four digits of `y`.
pub fn compress(y: u64) -> (r: u64)
    ensures
        r == compress4(y),
{
    let y0: u64 = y & 0x5555_5555;
    let y1: u64 = (y0 | (y0 >> 1)) & 0x3333_3333;
    let y2: u64 = (y1 | (y1 >> 2)) & 0x0F0F_0F0F;
    let y3: u64 = (y2 | (y2 >> 4)) & 0x00FF_00FF;
    (y3 | (y3 >> 8)) & 0x0000_FFFF
}

/// Looks a key up in the table of the given kind.
pub fn eval_table(table: TableKind, width: u64, a: u64, b: u64, c: u64) -> (r: u64)
    requires
        width <= 32,
    ensures
        r == table_value(table, width, a, b, c),
{
    match table {
        TableKind::Xor3 => a ^ b ^ c,
        TableKind::Majority => (a & b) ^ (a & c) ^ (b & c),
        TableKind::Choice => {
            let m: u64 = mask(width);
            (a & b) ^ ((a ^ m) & c)
        },
        TableKind::Spread => spread(a),
        TableKind::MajorityDecode => compress(a >> 1),
    }
}

impl ConstraintSystem {
    /// Whether the witness satisfies one row.
    pub fn check_row(&self, row: &Row) -> (r: bool)
        requires
            row.valid(self.values@.len() as int),
        ensures
            r == row.holds(self.values@),
    {
        match *row {
            Row::Range { c0, c1, c2, w0, w1, w2, value } => {
                let x0: u64 = self.get(c0);
                let x1: u64 = self.get(c1);
                let x2: u64 = self.get(c2);
                let v: u64 = self.get(value);
                x0 >> w0 == 0 && x1 >> w1 == 0 && x2 >> w2 == 0 && (x0 as u128) + ((x1 << w0) as u128) + ((x2
                    << (w0 + w1)) as u128) == v as u128
            },
            Row::Sum { a, b, c, value } => {
                let s: u64 = fadd(fadd(self.get(a), self.get(b)), self.get(c));
                self.get(value) == s
            },
            Row::Lookup { table, width, a, b, c, out } => {
                let x: u64 = self.get(a);
                let y: u64 = self.get(b);
                let z: u64 = self.get(c);
                let o: u64 = self.get(out);
                let in_table: bool = match table {
                    TableKind::Spread => x >> width == 0 && y == 0 && z == 0,
                    TableKind::MajorityDecode => x >> (2 * width) == 0 && y == 0 && z == 0,
                    _ => x >> width == 0 && y >> width == 0 && z >> width == 0,
                };
                in_table && o == eval_table(table, width, x, y, z)
            },
        }
    }

    /// Whether the witness satisfies every row recorded.
    pub fn is_satisfied(&self) -> (r: bool)
        requires
            self.wf(),
        ensures
            r == self.satisfied(),
    {
        let mut i: usize = 0;
        while i < self.rows.len()
            invariant
                0 <= i <= self.rows@.len(),
                self.wf(),
                forall|j: int| 0 <= j < i ==> (#[trigger] self.rows@[j]).holds(self.values@),
            decreases self.rows@.len() - i,
        {
            if !self.check_row(&self.rows[i]) {
                return false;
            }
            i = i + 1;
        }
        true
    }

    /// Overwrites the witness value of an allocated variable. The rows stay
    /// as they are, so the constraint set may stop being satisfied.
    pub fn set_witness(&mut self, index: usize, v: u64)
        requires
            old(self).wf(),
            index < old(self).values@.len(),
        ensures
            final(self).wf(),
            final(self).rows@ == old(self).rows@,
            final(self).tables@ == old(self).tables@,
            final(self).values@ == old(self).values@.update(index as int, reduced(v as int) as u64),
    {
        let r: u64 = reduce(v);
        self.values.set(index, r);
    }
}

} // verus!
