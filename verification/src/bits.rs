//! Bit-level meaning of the 32-bit operations, and the facts about chunks
//! that the gadgets rest on. Words are held in `u64` and are below `2^32`.

use vstd::prelude::*;
use crate::cs::{mask_spec, spread4, compress4};

verus! {

/// The low 32 bits of a field value.
pub open spec fn low32(v: u64) -> u64 {
    v & 0xFFFF_FFFF
}

/// Chunk number `i` of `v`, counting chunks of `width` bits from the low end.
pub open spec fn chunk_at(v: u64, i: int, width: u64) -> u64 {
    (v >> ((i * width) as u64)) & mask_spec(width)
}

/// Rotation of a 32-bit word to the right by `n` places, `n <= 32`.
pub open spec fn rotr(x: u64, n: u64) -> u64 {
    ((x >> n) | (x << ((32 - n) as u64))) & 0xFFFF_FFFF
}

/// Shift of a 32-bit word to the right by `n` places.
pub open spec fn shr(x: u64, n: u64) -> u64 {
    x >> n
}

/// Bitwise exclusive or of three words.
pub open spec fn xor3(a: u64, b: u64, c: u64) -> u64 {
    a ^ b ^ c
}

/// Bitwise majority of three words.
pub open spec fn maj(a: u64, b: u64, c: u64) -> u64 {
    (a & b) ^ (a & c) ^ (b & c)
}

/// Bitwise choice: where `e` is set the bit of `f`, elsewhere that of `g`.
pub open spec fn ch(e: u64, f: u64, g: u64) -> u64 {
    (e & f) ^ ((e ^ 0xFFFF_FFFF) & g)
}

/// The mask of `width` bits, as a number.
pub fn mask(width: u64) -> (m: u64)
    requires
        width <= 32,
    ensures
        m == mask_spec(width),
        m >> width == 0,
        m <= 0xFFFF_FFFF,
{
    assert((1u64 << width) >= 1 && (((1u64 << width) - 1) as u64) >> width == 0 && (((1u64 << width)
        - 1) as u64) <= 0xFFFF_FFFF) by (bit_vector)
        requires
            width <= 32,
    ;
    (1u64 << width) - 1
}

/// Adding a chunk of `w` bits above the low `s` bits of `v` gives the low
/// `s + w` bits of `v` exactly when the chunk is the one `v` has there.
pub proof fn lemma_chunk_fold(v: u64, c: u64, s: u64, w: u64)
    requires
        s + w <= 32,
    ensures
        (v & mask_spec(s)) >> s == 0,
        ((v >> s) & mask_spec(w)) >> w == 0,
        (c >> w == 0 && (v & mask_spec(s)) as int + (c << s) as int == (v & mask_spec(
            (s + w) as u64,
        )) as int) <==> c == (v >> s) & mask_spec(w),
{
    assert((v & (((1u64 << s) - 1) as u64)) >> s == 0) by (bit_vector)
        requires
            s <= 32,
    ;
    assert(((v >> s) & (((1u64 << w) - 1) as u64)) >> w == 0) by (bit_vector)
        requires
            w <= 32,
    ;
    let lo = v & mask_spec(s);
    let hi = v & mask_spec((s + w) as u64);
    assert(c >> w == 0 ==> (c << s) <= 0xFFFF_FFFF && lo <= 0xFFFF_FFFF) by (bit_vector)
        requires
            s + w <= 32,
            lo == v & (((1u64 << s) - 1) as u64),
    ;
    assert((c >> w == 0 && lo + (c << s) == hi) <==> c == (v >> s) & (((1u64 << w) - 1) as u64))
        by (bit_vector)
        requires
            s + w <= 32,
            lo == v & (((1u64 << s) - 1) as u64),
            hi == v & (((1u64 << ((s + w) as u64)) - 1) as u64),
    ;
}

/// The low 32 bits of `v` are all of `v` exactly when `v` fits 32 bits.
pub proof fn lemma_low32(v: u64)
    ensures
        v & mask_spec(32) == low32(v),
        low32(v) >> 32 == 0,
        low32(v) <= 0xFFFF_FFFF,
        (low32(v) == v) <==> (v >> 32 == 0),
        (v >> 32 == 0) <==> v <= 0xFFFF_FFFF,
        mask_spec(0) == 0,
        mask_spec(32) == 0xFFFF_FFFF,
        v & mask_spec(0) == 0,
{
    assert((((1u64 << 32) - 1) as u64) == 0xFFFF_FFFF) by (bit_vector);
    assert(v & (((1u64 << 32) - 1) as u64) == v & 0xFFFF_FFFF) by (bit_vector);
    assert((v & 0xFFFF_FFFF) >> 32 == 0) by (bit_vector);
    assert((v & 0xFFFF_FFFF) <= 0xFFFF_FFFF) by (bit_vector);
    assert(((v & 0xFFFF_FFFF) == v) <==> (v >> 32 == 0)) by (bit_vector);
    assert((v >> 32 == 0) <==> v <= 0xFFFF_FFFF) by (bit_vector);
    assert((((1u64 << 0) - 1) as u64) == 0) by (bit_vector);
    assert(v & 0 == 0) by (bit_vector);
}

} // verus!

verus! {

/// A chunk of width zero holding zero adds nothing to a range-check row.
pub proof fn lemma_zero_chunk(k: u64)
    ensures
        0u64 >> 0u64 == 0,
        0u64 << k == 0,
{
    assert(0u64 >> 0u64 == 0) by (bit_vector);
    assert(0u64 << k == 0) by (bit_vector);
}

/// Chunks below bit 32 placed on top of lower bits stay below `2^32`.
pub proof fn lemma_chunk_bound(v: u64, c: u64, s: u64, w: u64)
    requires
        s + w <= 32,
        c >> w == 0,
    ensures
        (v & mask_spec(s)) + (c << s) <= 0xFFFF_FFFF,
{
    let lo = v & mask_spec(s);
    assert(lo + (c << s) <= 0xFFFF_FFFF) by (bit_vector)
        requires
            s + w <= 32,
            c >> w == 0,
            lo == v & (((1u64 << s) - 1) as u64),
    ;
}

/// Bit `i` of a rotated word is bit `i + n` (around the word) of the word.
pub proof fn lemma_rotr_bit(v: u64, n: u64, i: u64)
    requires
        n <= 32,
        i < 32,
    ensures
        (rotr(low32(v), n) >> i) & mask_spec(1) == (v >> ((i + n) % 32) as u64) & mask_spec(1),
        rotr(low32(v), n) >> 32 == 0,
{
    let x = v & 0xFFFF_FFFF;
    let t = ((x >> n) | (x << ((32 - n) as u64))) & 0xFFFF_FFFF;
    let j = ((i + n) % 32) as u64;
    assert((t >> i) & (((1u64 << 1) - 1) as u64) == (v >> j) & (((1u64 << 1) - 1) as u64)) by (bit_vector)
        requires
            n <= 32,
            i < 32,
            x == v & 0xFFFF_FFFF,
            t == ((x >> n) | (x << ((32 - n) as u64))) & 0xFFFF_FFFF,
            j == (i + n) % 32,
    ;
    assert(t >> 32 == 0) by (bit_vector)
        requires
            t == ((x >> n) | (x << ((32 - n) as u64))) & 0xFFFF_FFFF,
    ;
}

/// Bit `i` of a shifted word is bit `i + n` of the word, or zero above it.
pub proof fn lemma_shr_bit(v: u64, n: u64, i: u64)
    requires
        n <= 32,
        i < 32,
    ensures
        i + n < 32 ==> (shr(low32(v), n) >> i) & mask_spec(1) == (v >> ((i + n) as u64)) & mask_spec(1),
        i + n >= 32 ==> (shr(low32(v), n) >> i) & mask_spec(1) == 0,
        shr(low32(v), n) >> 32 == 0,
{
    let x = v & 0xFFFF_FFFF;
    let t = x >> n;
    let j = (i + n) as u64;
    assert(i + n < 32 ==> (t >> i) & (((1u64 << 1) - 1) as u64) == (v >> j) & (((1u64 << 1) - 1) as u64))
        by (bit_vector)
        requires
            n <= 32,
            i < 32,
            x == v & 0xFFFF_FFFF,
            t == x >> n,
            j == i + n,
    ;
    assert(i + n >= 32 ==> (t >> i) & (((1u64 << 1) - 1) as u64) == 0) by (bit_vector)
        requires
            n <= 32,
            i < 32,
            x == v & 0xFFFF_FFFF,
            t == x >> n,
    ;
    assert(t >> 32 == 0) by (bit_vector)
        requires
            x == v & 0xFFFF_FFFF,
            t == x >> n,
            n <= 32,
    ;
}

} // verus!

verus! {

/// A chunk of a bitwise function of three words is the function of the
/// words' chunks.
pub proof fn lemma_bitwise_chunk(x: u64, y: u64, z: u64, s: u64, w: u64)
    requires
        s + w <= 32,
    ensures
        (xor3(low32(x), low32(y), low32(z)) >> s) & mask_spec(w) == xor3(
            (x >> s) & mask_spec(w),
            (y >> s) & mask_spec(w),
            (z >> s) & mask_spec(w),
        ),
        (maj(low32(x), low32(y), low32(z)) >> s) & mask_spec(w) == maj(
            (x >> s) & mask_spec(w),
            (y >> s) & mask_spec(w),
            (z >> s) & mask_spec(w),
        ),
        (ch(low32(x), low32(y), low32(z)) >> s) & mask_spec(w) == (((x >> s) & mask_spec(w)) & ((y >> s)
            & mask_spec(w))) ^ ((((x >> s) & mask_spec(w)) ^ mask_spec(w)) & ((z >> s) & mask_spec(w))),
        xor3(low32(x), low32(y), low32(z)) >> 32 == 0,
        maj(low32(x), low32(y), low32(z)) >> 32 == 0,
        ch(low32(x), low32(y), low32(z)) >> 32 == 0,
{
    let m = mask_spec(w);
    let a = x & 0xFFFF_FFFF;
    let b = y & 0xFFFF_FFFF;
    let c = z & 0xFFFF_FFFF;
    assert(((a ^ b ^ c) >> s) & m == ((x >> s) & m) ^ ((y >> s) & m) ^ ((z >> s) & m)) by (bit_vector)
        requires
            s + w <= 32,
            m == ((1u64 << w) - 1) as u64,
            a == x & 0xFFFF_FFFF,
            b == y & 0xFFFF_FFFF,
            c == z & 0xFFFF_FFFF,
    ;
    assert((((a & b) ^ (a & c) ^ (b & c)) >> s) & m == (((x >> s) & m) & ((y >> s) & m)) ^ (((x >> s) & m)
        & ((z >> s) & m)) ^ (((y >> s) & m) & ((z >> s) & m))) by (bit_vector)
        requires
            s + w <= 32,
            m == ((1u64 << w) - 1) as u64,
            a == x & 0xFFFF_FFFF,
            b == y & 0xFFFF_FFFF,
            c == z & 0xFFFF_FFFF,
    ;
    assert((((a & b) ^ ((a ^ 0xFFFF_FFFF) & c)) >> s) & m == (((x >> s) & m) & ((y >> s) & m)) ^ ((((x >> s)
        & m) ^ m) & ((z >> s) & m))) by (bit_vector)
        requires
            s + w <= 32,
            m == ((1u64 << w) - 1) as u64,
            a == x & 0xFFFF_FFFF,
            b == y & 0xFFFF_FFFF,
            c == z & 0xFFFF_FFFF,
    ;
    assert((a ^ b ^ c) >> 32 == 0 && ((a & b) ^ (a & c) ^ (b & c)) >> 32 == 0 && ((a & b) ^ ((a
        ^ 0xFFFF_FFFF) & c)) >> 32 == 0) by (bit_vector)
        requires
            a == x & 0xFFFF_FFFF,
            b == y & 0xFFFF_FFFF,
            c == z & 0xFFFF_FFFF,
    ;
}

/// Adding the spread forms of three chunks carries nothing from digit to
/// digit, and the upper bits of the digits of the sum are the majority of
/// the chunks.
pub proof fn lemma_spread_majority(a: u64, b: u64, c: u64, w: u64)
    requires
        w <= 16,
        a >> w == 0,
        b >> w == 0,
        c >> w == 0,
    ensures
        spread4(a) <= 0x5555_5555,
        spread4(b) <= 0x5555_5555,
        spread4(c) <= 0x5555_5555,
        ((spread4(a) + spread4(b) + spread4(c)) as u64) >> ((2 * w) as u64) == 0,
        compress4(((spread4(a) + spread4(b) + spread4(c)) as u64) >> 1) == maj(a, b, c),
        maj(a, b, c) <= 0xFFFF,
{
    let sa = spread4(a);
    let sb = spread4(b);
    let sc = spread4(c);
    lemma_spread_digits(a, w);
    lemma_spread_digits(b, w);
    lemma_spread_digits(c, w);
    let s = (sa + sb + sc) as u64;
    let m = (sa & sb) ^ (sa & sc) ^ (sb & sc);
    assert(s >> ((2 * w) as u64) == 0 && (s >> 1) & 0x5555_5555 == m) by (bit_vector)
        requires
            w <= 16,
            sa & 0x5555_5555 == sa,
            sb & 0x5555_5555 == sb,
            sc & 0x5555_5555 == sc,
            sa >> ((2 * w) as u64) == 0,
            sb >> ((2 * w) as u64) == 0,
            sc >> ((2 * w) as u64) == 0,
            s == sa + sb + sc,
            m == (sa & sb) ^ (sa & sc) ^ (sb & sc),
    ;
    let t = s >> 1;
    let y1 = (m | (m >> 1)) & 0x3333_3333;
    let y2 = (y1 | (y1 >> 2)) & 0x0F0F_0F0F;
    let y3 = (y2 | (y2 >> 4)) & 0x00FF_00FF;
    let x = (a & b) ^ (a & c) ^ (b & c);
    let x1 = (x | (x << 8)) & 0x00FF_00FF;
    let x2 = (x1 | (x1 << 4)) & 0x0F0F_0F0F;
    let x3 = (x2 | (x2 << 2)) & 0x3333_3333;
    lemma_spread_meets(a, b, c, w);
    assert((y3 | (y3 >> 8)) & 0x0000_FFFF == x && x <= 0xFFFF) by (bit_vector)
        requires
            w <= 16,
            a >> w == 0,
            b >> w == 0,
            c >> w == 0,
            x == (a & b) ^ (a & c) ^ (b & c),
            x1 == (x | (x << 8)) & 0x00FF_00FF,
            x2 == (x1 | (x1 << 4)) & 0x0F0F_0F0F,
            x3 == (x2 | (x2 << 2)) & 0x3333_3333,
            m == (x3 | (x3 << 1)) & 0x5555_5555,
            y1 == (m | (m >> 1)) & 0x3333_3333,
            y2 == (y1 | (y1 >> 2)) & 0x0F0F_0F0F,
            y3 == (y2 | (y2 >> 4)) & 0x00FF_00FF,
    ;
}

/// The spread form of a chunk has its bits at the even places only, below
/// twice the chunk's width.
pub proof fn lemma_spread_digits(a: u64, w: u64)
    requires
        w <= 16,
        a >> w == 0,
    ensures
        spread4(a) & 0x5555_5555 == spread4(a),
        spread4(a) <= 0x5555_5555,
        spread4(a) >> ((2 * w) as u64) == 0,
{
    let x1 = (a | (a << 8)) & 0x00FF_00FF;
    let x2 = (x1 | (x1 << 4)) & 0x0F0F_0F0F;
    let x3 = (x2 | (x2 << 2)) & 0x3333_3333;
    let r = (x3 | (x3 << 1)) & 0x5555_5555;
    assert(r & 0x5555_5555 == r && r <= 0x5555_5555 && r >> ((2 * w) as u64) == 0) by (bit_vector)
        requires
            w <= 16,
            a >> w == 0,
            x1 == (a | (a << 8)) & 0x00FF_00FF,
            x2 == (x1 | (x1 << 4)) & 0x0F0F_0F0F,
            x3 == (x2 | (x2 << 2)) & 0x3333_3333,
            r == (x3 | (x3 << 1)) & 0x5555_5555,
    ;
}

/// Spreading goes through the bitwise operations: the majority of three
/// spread forms is the spread form of the majority.
pub proof fn lemma_spread_meets(a: u64, b: u64, c: u64, w: u64)
    requires
        w <= 16,
        a >> w == 0,
        b >> w == 0,
        c >> w == 0,
    ensures
        (spread4(a) & spread4(b)) ^ (spread4(a) & spread4(c)) ^ (spread4(b) & spread4(c)) == spread4(
            maj(a, b, c),
        ),
{
    let a1 = (a | (a << 8)) & 0x00FF_00FF;
    let a2 = (a1 | (a1 << 4)) & 0x0F0F_0F0F;
    let a3 = (a2 | (a2 << 2)) & 0x3333_3333;
    let sa = (a3 | (a3 << 1)) & 0x5555_5555;
    let b1 = (b | (b << 8)) & 0x00FF_00FF;
    let b2 = (b1 | (b1 << 4)) & 0x0F0F_0F0F;
    let b3 = (b2 | (b2 << 2)) & 0x3333_3333;
    let sb = (b3 | (b3 << 1)) & 0x5555_5555;
    let c1 = (c | (c << 8)) & 0x00FF_00FF;
    let c2 = (c1 | (c1 << 4)) & 0x0F0F_0F0F;
    let c3 = (c2 | (c2 << 2)) & 0x3333_3333;
    let sc = (c3 | (c3 << 1)) & 0x5555_5555;
    let x = (a & b) ^ (a & c) ^ (b & c);
    let x1 = (x | (x << 8)) & 0x00FF_00FF;
    let x2 = (x1 | (x1 << 4)) & 0x0F0F_0F0F;
    let x3 = (x2 | (x2 << 2)) & 0x3333_3333;
    let sx = (x3 | (x3 << 1)) & 0x5555_5555;
    assert((sa & sb) ^ (sa & sc) ^ (sb & sc) == sx) by (bit_vector)
        requires
            w <= 16,
            a >> w == 0,
            b >> w == 0,
            c >> w == 0,
            a1 == (a | (a << 8)) & 0x00FF_00FF,
            a2 == (a1 | (a1 << 4)) & 0x0F0F_0F0F,
            a3 == (a2 | (a2 << 2)) & 0x3333_3333,
            sa == (a3 | (a3 << 1)) & 0x5555_5555,
            b1 == (b | (b << 8)) & 0x00FF_00FF,
            b2 == (b1 | (b1 << 4)) & 0x0F0F_0F0F,
            b3 == (b2 | (b2 << 2)) & 0x3333_3333,
            sb == (b3 | (b3 << 1)) & 0x5555_5555,
            c1 == (c | (c << 8)) & 0x00FF_00FF,
            c2 == (c1 | (c1 << 4)) & 0x0F0F_0F0F,
            c3 == (c2 | (c2 << 2)) & 0x3333_3333,
            sc == (c3 | (c3 << 1)) & 0x5555_5555,
            x == (a & b) ^ (a & c) ^ (b & c),
            x1 == (x | (x << 8)) & 0x00FF_00FF,
            x2 == (x1 | (x1 << 4)) & 0x0F0F_0F0F,
            x3 == (x2 | (x2 << 2)) & 0x3333_3333,
            sx == (x3 | (x3 << 1)) & 0x5555_5555,
    ;
}

/// A chunk is below the bound its width gives.
pub proof fn lemma_chunk_range(v: u64, s: u64, w: u64)
    requires
        w <= 32,
    ensures
        ((v >> s) & mask_spec(w)) >> w == 0,
        (v >> s) & mask_spec(w) <= 0xFFFF_FFFF,
{
    assert(((v >> s) & (((1u64 << w) - 1) as u64)) >> w == 0 && (v >> s) & (((1u64 << w) - 1) as u64)
        <= 0xFFFF_FFFF) by (bit_vector)
        requires
            w <= 32,
    ;
}

/// Splitting a sum into its low 32 bits and the carry above them loses
/// nothing, and the carry fits `cw` bits exactly when the sum fits `32 + cw`.
pub proof fn lemma_split_carry(t: u64, cw: u64)
    requires
        cw <= 31,
    ensures
        (t & 0xFFFF_FFFF) + ((t >> 32) << 32) == t,
        (t & 0xFFFF_FFFF) >> 32 == 0,
        ((t >> 32) >> cw == 0) <==> (t >> ((32 + cw) as u64) == 0),
        (t & 0xFFFF_FFFF) as int == (t as int) % 0x1_0000_0000,
{
    assert((t & 0xFFFF_FFFF) + ((t >> 32) << 32) == t) by (bit_vector);
    assert((t & 0xFFFF_FFFF) >> 32 == 0) by (bit_vector);
    assert(((t >> 32) >> cw == 0) <==> (t >> ((32 + cw) as u64) == 0)) by (bit_vector)
        requires
            cw <= 31,
    ;
    assert((t & 0xFFFF_FFFF) == t % 0x1_0000_0000) by (bit_vector);
}

} // verus!

verus! {

/// Rotating a word by the full 32 places gives the word back.
pub proof fn lemma_rotr_full(x: u64)
    requires
        x <= 0xFFFF_FFFF,
    ensures
        rotr(x, 32) == x,
        rotr(x, 0) == x,
{
    assert(((x >> 32) | (x << 0)) & 0xFFFF_FFFF == x && ((x >> 0) | (x << 32)) & 0xFFFF_FFFF == x)
        by (bit_vector)
        requires
            x <= 0xFFFF_FFFF,
    ;
}

/// Rotating by `a` and then by `b` is rotating by `a + b` around the word.
pub proof fn lemma_rotr_compose(x: u64, a: u64, b: u64)
    requires
        x <= 0xFFFF_FFFF,
        a <= 32,
        b <= 32,
    ensures
        rotr(rotr(x, a), b) == rotr(x, ((a + b) % 32) as u64),
{
    let y = ((x >> a) | (x << ((32 - a) as u64))) & 0xFFFF_FFFF;
    let c = ((a + b) % 32) as u64;
    if a + b < 32 {
        assert(((y >> b) | (y << ((32 - b) as u64))) & 0xFFFF_FFFF == ((x >> c) | (x << ((32 - c) as u64)))
            & 0xFFFF_FFFF) by (bit_vector)
            requires
                x <= 0xFFFF_FFFF,
                a < 32,
                b < 32,
                c == a + b,
                c < 32,
                y == ((x >> a) | (x << ((32 - a) as u64))) & 0xFFFF_FFFF,
        ;
    } else if a + b < 64 {
        assert(((y >> b) | (y << ((32 - b) as u64))) & 0xFFFF_FFFF == ((x >> c) | (x << ((32 - c) as u64)))
            & 0xFFFF_FFFF) by (bit_vector)
            requires
                x <= 0xFFFF_FFFF,
                a <= 32,
                b <= 32,
                c + 32 == a + b,
                c < 32,
                y == ((x >> a) | (x << ((32 - a) as u64))) & 0xFFFF_FFFF,
        ;
    } else {
        lemma_rotr_full(x);
        lemma_rotr_full(rotr(x, 32));
    }
}

} // verus!
