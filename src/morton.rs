//! Bit-interleaved ("Morton" or Z-order) indexing of a square grid.
//!
//! The x coordinate occupies the even bit positions of an index and the y
//! coordinate the odd ones, so that the four children of node `p` are the
//! indices `4p .. 4p + 3` and the parent of index `i` is `i / 4`.
use vstd::prelude::*;

verus! {

/// The bits of `x` spread to the even bit positions.
pub open spec fn spread(x: nat) -> nat
    decreases x,
{
    if x == 0 {
        0
    } else {
        4 * spread(x / 2) + x % 2
    }
}

/// The Morton index of cell `(x, y)`.
pub open spec fn morton(x: nat, y: nat) -> nat {
    spread(x) + 2 * spread(y)
}

/// The bits in the even positions of `v`, gathered together: the inverse of `spread`.
pub open spec fn compact(v: nat) -> nat
    decreases v,
{
    if v == 0 {
        0
    } else {
        2 * compact(v / 4) + v % 2
    }
}

pub open spec fn pow2(k: nat) -> nat
    decreases k,
{
    if k == 0 {
        1
    } else {
        2 * pow2((k - 1) as nat)
    }
}

pub open spec fn pow4(k: nat) -> nat
    decreases k,
{
    if k == 0 {
        1
    } else {
        4 * pow4((k - 1) as nat)
    }
}

/// The classic shift-and-mask sequence that spreads a 16-bit value.
pub open spec fn spread_bits(v: u64) -> u64 {
    let a = (v ^ (v << 8u64)) & 0x00FF_00FFu64;
    let b = (a ^ (a << 4u64)) & 0x0F0F_0F0Fu64;
    let c = (b ^ (b << 2u64)) & 0x3333_3333u64;
    (c ^ (c << 1u64)) & 0x5555_5555u64
}

/// The shift-and-mask sequence that gathers the even bits of a 32-bit value.
pub open spec fn compact_bits(v: u64) -> u64 {
    let a = v & 0x5555_5555u64;
    let b = (a ^ (a >> 1u64)) & 0x3333_3333u64;
    let c = (b ^ (b >> 2u64)) & 0x0F0F_0F0Fu64;
    let d = (c ^ (c >> 4u64)) & 0x00FF_00FFu64;
    (d ^ (d >> 8u64)) & 0x0000_FFFFu64
}

proof fn lemma_spread_bits_step(v: u64)
    by (bit_vector)
    requires
        v < 0x10000,
    ensures
        spread_bits(v) & 3 == v & 1,
        spread_bits(v) >> 2u64 == spread_bits(v >> 1u64),
{
}

proof fn lemma_compact_bits_step(v: u64)
    by (bit_vector)
    requires
        v < 0x1_0000_0000,
    ensures
        compact_bits(v) & 1 == v & 1,
        compact_bits(v) >> 1u64 == compact_bits(v >> 2u64),
{
}

proof fn lemma_spread_bits(v: u64)
    requires
        v < 0x10000,
    ensures
        spread_bits(v) as nat == spread(v as nat),
    decreases v,
{
    if v == 0 {
        assert(spread_bits(0) == 0) by (bit_vector);
    } else {
        let s = spread_bits(v);
        lemma_spread_bits_step(v);
        assert(s == 4 * (s >> 2u64) + (s & 3)) by (bit_vector);
        assert(v & 1 == v % 2 && v >> 1u64 == v / 2 && (v >> 1u64) < v) by (bit_vector)
            requires
                v != 0,
        ;
        lemma_spread_bits(v >> 1u64);
    }
}

proof fn lemma_compact_bits(v: u64)
    requires
        v < 0x1_0000_0000,
    ensures
        compact_bits(v) as nat == compact(v as nat),
    decreases v,
{
    if v == 0 {
        assert(compact_bits(0) == 0) by (bit_vector);
    } else {
        let c = compact_bits(v);
        lemma_compact_bits_step(v);
        assert(c == 2 * (c >> 1u64) + (c & 1)) by (bit_vector);
        assert(v & 1 == v % 2 && v >> 2u64 == v / 4 && (v >> 2u64) < v) by (bit_vector)
            requires
                v != 0,
        ;
        lemma_compact_bits(v >> 2u64);
    }
}

/// One level up: `morton(x, y) == 4 * morton(x / 2, y / 2) + 2 * (y % 2) + x % 2`.
pub proof fn lemma_morton_unfold(x: nat, y: nat)
    ensures
        morton(x, y) == 4 * morton(x / 2, y / 2) + 2 * (y % 2) + x % 2,
{
    reveal_with_fuel(spread, 2);
}

/// The parent of the node at `morton(x, y)` is the node at
/// `morton(x / 2, y / 2)` one level up: `encode(x, y) >> 2 == encode(x >> 1, y >> 1)`.
pub proof fn lemma_parent_index(x: nat, y: nat)
    ensures
        morton(x, y) / 4 == morton(x / 2, y / 2),
        morton(x, y) % 4 == 2 * (y % 2) + x % 2,
{
    lemma_morton_unfold(x, y);
}

/// Decoding an encoded cell gives the cell back.
pub proof fn lemma_decode_encode(x: nat, y: nat)
    ensures
        compact(morton(x, y)) == x,
        compact(morton(x, y) / 2) == y,
    decreases x + y,
{
    let m = morton(x, y);
    lemma_morton_unfold(x, y);
    if x == 0 && y == 0 {
        reveal_with_fuel(compact, 1);
    } else {
        lemma_decode_encode(x / 2, y / 2);
        let p = morton(x / 2, y / 2);
        assert(m / 4 == p);
        assert(m % 2 == x % 2);
        assert(m / 2 == 2 * p + y % 2);
        assert((m / 2) / 4 == p / 2);
        assert((m / 2) % 2 == y % 2);
    }
}

/// Encoding a decoded index gives the index back.
pub proof fn lemma_encode_decode(i: nat)
    ensures
        morton(compact(i), compact(i / 2)) == i,
    decreases i,
{
    if i != 0 {
        let q = i / 4;
        lemma_encode_decode(q);
        let a = compact(i);
        let b = compact(i / 2);
        assert(a == 2 * compact(q) + i % 2);
        assert((i / 2) / 4 == q / 2);
        assert(b == 2 * compact(q / 2) + (i / 2) % 2);
        assert(a / 2 == compact(q) && a % 2 == i % 2);
        assert(b / 2 == compact(q / 2) && b % 2 == (i / 2) % 2);
        lemma_morton_unfold(a, b);
    }
}

/// Cells of a `2^k` by `2^k` grid have indices below `4^k`.
pub proof fn lemma_morton_bound(x: nat, y: nat, k: nat)
    requires
        x < pow2(k),
        y < pow2(k),
    ensures
        morton(x, y) < pow4(k),
    decreases k,
{
    lemma_morton_unfold(x, y);
    if k == 0 {
        reveal_with_fuel(spread, 1);
    } else {
        lemma_morton_bound(x / 2, y / 2, (k - 1) as nat);
    }
}

/// Indices below `4^k` decode to cells of a `2^k` by `2^k` grid.
pub proof fn lemma_compact_bound(i: nat, k: nat)
    requires
        i < pow4(k),
    ensures
        compact(i) < pow2(k),
        compact(i / 2) < pow2(k),
    decreases k,
{
    if k == 0 {
        assert(i == 0);
    } else {
        let k1 = (k - 1) as nat;
        lemma_compact_bound(i / 4, k1);
        assert((i / 2) / 4 == (i / 4) / 2);
    }
}

/// The Morton index of `(x, y)`, each coordinate taken modulo `2^16`.
pub fn morton_encode(x: u32, y: u32) -> (r: usize)
    ensures
        r as nat == morton((x % 0x10000) as nat, (y % 0x10000) as nat),
        r < 0x1_0000_0000,
{
    let part1 = (x & 0x0000_FFFF) as u64;
    let part2 = (y & 0x0000_FFFF) as u64;
    let mut a = (part1 ^ (part1 << 8u64)) & 0x00FF_00FF;
    a = (a ^ (a << 4u64)) & 0x0F0F_0F0F;
    a = (a ^ (a << 2u64)) & 0x3333_3333;
    a = (a ^ (a << 1u64)) & 0x5555_5555;
    let mut b = (part2 ^ (part2 << 8u64)) & 0x00FF_00FF;
    b = (b ^ (b << 4u64)) & 0x0F0F_0F0F;
    b = (b ^ (b << 2u64)) & 0x3333_3333;
    b = (b ^ (b << 1u64)) & 0x5555_5555;
    proof {
        assert(part1 == x % 0x10000 && part2 == y % 0x10000) by (bit_vector)
            requires
                part1 == (x & 0xFFFF) as u64,
                part2 == (y & 0xFFFF) as u64,
        ;
        assert(a == spread_bits(part1) && b == spread_bits(part2));
        lemma_spread_bits(part1);
        lemma_spread_bits(part2);
        let sa = spread_bits(part1);
        let sb = spread_bits(part2);
        assert((sa | (sb << 1u64)) == sa + 2 * sb && sa + 2 * sb < 0x1_0000_0000) by (bit_vector)
            requires
                sa == spread_bits(part1),
                sb == spread_bits(part2),
        ;
    }
    (a | (b << 1u64)) as usize
}

/// The cell `(x, y)` whose Morton index is `index`.
pub fn morton_decode(index: usize) -> (r: (u32, u32))
    requires
        index < 0x1_0000_0000,
    ensures
        r.0 as nat == compact(index as nat),
        r.1 as nat == compact(index as nat / 2),
        r.0 < 0x10000,
        r.1 < 0x10000,
{
    let v = index as u64;
    let w = v >> 1u64;
    let mut a = v & 0x5555_5555;
    a = (a ^ (a >> 1u64)) & 0x3333_3333;
    a = (a ^ (a >> 2u64)) & 0x0F0F_0F0F;
    a = (a ^ (a >> 4u64)) & 0x00FF_00FF;
    a = (a ^ (a >> 8u64)) & 0x0000_FFFF;
    let mut b = w & 0x5555_5555;
    b = (b ^ (b >> 1u64)) & 0x3333_3333;
    b = (b ^ (b >> 2u64)) & 0x0F0F_0F0F;
    b = (b ^ (b >> 4u64)) & 0x00FF_00FF;
    b = (b ^ (b >> 8u64)) & 0x0000_FFFF;
    proof {
        assert(w == v / 2 && w < 0x1_0000_0000) by (bit_vector)
            requires
                w == v >> 1u64,
                v < 0x1_0000_0000,
        ;
        assert(a == compact_bits(v) && b == compact_bits(w));
        lemma_compact_bits(v);
        lemma_compact_bits(w);
        assert(compact_bits(v) < 0x10000 && compact_bits(w) < 0x10000) by (bit_vector);
    }
    (a as u32, b as u32)
}

pub proof fn lemma_pow2_16()
    ensures
        pow2(16) == 0x10000,
{
    reveal_with_fuel(pow2, 17);
}

} // verus!
