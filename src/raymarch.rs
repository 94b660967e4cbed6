//! Bilinear sampling of the height field and the hierarchical ray march.
//!
//! Sampling coordinates are signed and the ray parameter unsigned, both fixed
//! point with sixteen fractional bits; a negative coordinate lies outside the
//! grid. A ray's origin and direction are signed fixed point; a point of the
//! ray is computed exactly, in units of `2^-32`.
use vstd::prelude::*;
use crate::heights::{Heights, ONE};
use crate::morton::pow2;

verus! {

/// Bound (exclusive) on the magnitude of a sampling coordinate: its cell and
/// the next one have 32-bit indices.
pub const MAX_SAMPLE_COORD: i64 = 0xFFFF_FFFF_0000;

/// How far a ray is followed, as a ray parameter: one thousand units.
pub const MAX_TRAVEL: u64 = 65_536_000;

/// Bound on the magnitude of each component of a ray origin.
pub const MAX_ORIGIN: i64 = 0x100_0000_0000;

/// Bound on the magnitude of each component of a ray direction.
pub const MAX_DIRECTION: i64 = 0x100_0000;

/// A point or vector with fixed-point components (sixteen fractional bits).
#[derive(Debug, Clone, Copy, PartialEq, Eq, Structural)]
pub struct Vec3 {
    pub x: i64,
    pub y: i64,
    pub z: i64,
}

/// Blend of `a` and `b` with weight `f / ONE` on `b`, rounded down.
pub open spec fn lerp(a: nat, b: nat, f: nat) -> nat {
    ((a * (ONE - f) + b * f) / ONE as int) as nat
}

/// Component `o + d * t` of a ray point, in units of `2^-32`.
pub open spec fn coord_at(o: i64, d: i64, t: nat) -> int {
    o * ONE + d * t
}

/// A ray coordinate as a sampling coordinate, rounded down.
pub open spec fn sample_coord(c: int) -> int {
    c / (ONE as int)
}

/// Largest advance of the ray parameter in one step: a cell of the coarsest
/// supported layer.
pub const MAX_STEP: u64 = 0x1_0000_0000;

/// Distance from `p` to the next line of the grid of spacing `c`: a whole
/// cell when `p` lies on a line.
pub open spec fn to_grid(p: int, c: nat) -> nat {
    if p % (c as int) == 0 {
        c
    } else {
        (c - p % (c as int)) as nat
    }
}

/// The advance of the ray parameter after a clear probe on layer `mip`, whose
/// cells are `2^mip` units a side: the tentative step `base * 2^mip`, clamped
/// to the distance to the next line of that grid along either axis, and at
/// least one unit.
pub open spec fn step_spec(px: int, pz: int, base: nat, mip: nat) -> nat {
    let c = (ONE * pow2(mip)) as nat;
    let tentative = base * pow2(mip);
    let grid = if to_grid(px, c) <= to_grid(pz, c) {
        to_grid(px, c)
    } else {
        to_grid(pz, c)
    };
    let clamped = if tentative <= grid {
        tentative
    } else {
        grid
    };
    if clamped >= ONE {
        clamped
    } else {
        ONE as nat
    }
}

/// What is left of the travel budget at parameter `t`, plus one.
pub open spec fn travel_left(t: nat) -> nat {
    if t <= MAX_TRAVEL {
        (MAX_TRAVEL + 1 - t) as nat
    } else {
        0
    }
}

/// The integer square root of `n`.
pub open spec fn isqrt_spec(n: nat) -> nat
    decreases n,
{
    if n == 0 {
        0
    } else {
        let r = isqrt_spec((n - 1) as nat);
        if (r + 1) * (r + 1) <= n {
            r + 1
        } else {
            r
        }
    }
}

/// The ratio of a direction's horizontal length to its full length, in fixed point.
pub open spec fn base_step_spec(d: Vec3) -> nat {
    let h2 = d.x * d.x + d.z * d.z;
    let l2 = h2 + d.y * d.y;
    isqrt_spec(((h2 * 0x1_0000_0000) / l2) as nat)
}

pub open spec fn vec_in_bounds(v: Vec3, bound: i64) -> bool {
    -bound <= v.x <= bound && -bound <= v.y <= bound && -bound <= v.z <= bound
}

impl Heights {
    /// The value of cell `(cx, cy)` of layer `mip`; a negative coordinate is
    /// outside the grid and reads zero.
    pub open spec fn cell_height(&self, cx: int, cy: int, mip: int) -> nat {
        if cx < 0 || cy < 0 {
            0
        } else {
            self.height_spec(cx as nat, cy as nat, mip)
        }
    }

    /// The bilinear blend of the four cells around `(x, y)`, read through
    /// `get_height` at layer `mip`; zero past the coarsest layer.
    pub open spec fn interpolated_spec(&self, x: int, y: int, mip: int) -> nat {
        if mip >= self.layers_view().len() {
            0
        } else {
            let x0 = x / (ONE as int);
            let y0 = y / (ONE as int);
            let fx = (x % (ONE as int)) as nat;
            let fy = (y % (ONE as int)) as nat;
            let h00 = self.cell_height(x0, y0, mip);
            let h10 = self.cell_height(x0 + 1, y0, mip);
            let h01 = self.cell_height(x0, y0 + 1, mip);
            let h11 = self.cell_height(x0 + 1, y0 + 1, mip);
            lerp(lerp(h00, h10, fx), lerp(h01, h11, fx), fy)
        }
    }

    /// The terrain bound that the march reads at ray parameter `t` on layer
    /// `mip`: the bilinear sample on layer 0, the node covering the point above it.
    pub open spec fn bound_at(&self, o: Vec3, d: Vec3, t: nat, mip: nat) -> nat {
        let px = sample_coord(coord_at(o.x, d.x, t));
        let pz = sample_coord(coord_at(o.z, d.z, t));
        if mip == 0 {
            self.interpolated_spec(px, pz, 0)
        } else {
            self.cell_height(px / (ONE as int), pz / (ONE as int), mip as int)
        }
    }

    /// The ray point at `t` is at or under the terrain bound of layer `mip`.
    pub open spec fn under(&self, o: Vec3, d: Vec3, t: nat, mip: nat) -> bool {
        self.bound_at(o, d, t, mip) * ONE >= coord_at(o.y, d.y, t)
    }

    /// The march from parameter `t` at layer `mip`: descend where the point is
    /// under the bound, report a hit when that happens on layer 0, and
    /// otherwise step on by the step of the layer just found clear, so that
    /// no cell is crossed before it has been tested, and move one layer
    /// coarser, until the travel budget is spent.
    pub open spec fn march(&self, o: Vec3, d: Vec3, base: nat, t: nat, mip: nat) -> nat
        decreases travel_left(t), mip,
        via Self::lemma_march_decreases
    {
        if t > MAX_TRAVEL {
            t
        } else if self.under(o, d, t, mip) {
            if mip > 0 {
                self.march(o, d, base, t, (mip - 1) as nat)
            } else {
                t
            }
        } else {
            let top = (self.layers_view().len() - 1) as nat;
            let m = if mip + 1 <= top {
                mip + 1
            } else {
                top
            };
            let px = sample_coord(coord_at(o.x, d.x, t));
            let pz = sample_coord(coord_at(o.z, d.z, t));
            self.march(o, d, base, t + step_spec(px, pz, base, mip), m)
        }
    }

    #[via_fn]
    proof fn lemma_march_decreases(&self, o: Vec3, d: Vec3, base: nat, t: nat, mip: nat) {
        if t <= MAX_TRAVEL && !self.under(o, d, t, mip) {
            let top = (self.layers_view().len() - 1) as nat;
            let m = if mip + 1 <= top {
                mip + 1
            } else {
                top
            };
            let px = sample_coord(coord_at(o.x, d.x, t));
            let pz = sample_coord(coord_at(o.z, d.z, t));
            assert(step_spec(px, pz, base, mip) >= 1);
        }
    }

    /// What `cast_ray` returns: zero for a ray without horizontal extent,
    /// else the march from the origin on layer 0.
    pub open spec fn cast_ray_spec(&self, start: Vec3, direction: Vec3) -> nat {
        if direction.x == 0 && direction.z == 0 {
            0
        } else {
            self.march(start, direction, base_step_spec(direction), 0, 0)
        }
    }
}

proof fn lemma_isqrt_bounds(n: nat)
    ensures
        isqrt_spec(n) * isqrt_spec(n) <= n < (isqrt_spec(n) + 1) * (isqrt_spec(n) + 1),
    decreases n,
{
    if n > 0 {
        lemma_isqrt_bounds((n - 1) as nat);
        let r = isqrt_spec((n - 1) as nat);
        let q = isqrt_spec(n);
        assert(r * r <= n - 1 < (r + 1) * (r + 1));
        if (r + 1) * (r + 1) <= n {
            assert(q == r + 1);
            assert(q * q <= n < (q + 1) * (q + 1)) by (nonlinear_arith)
                requires
                    q == r + 1,
                    (r + 1) * (r + 1) <= n,
                    n - 1 < (r + 1) * (r + 1),
            ;
        } else {
            assert(q == r);
        }
    } else {
        assert(isqrt_spec(0) == 0);
        assert(0 * 0 == 0 && 1 * 1 == 1) by (nonlinear_arith);
    }
}

proof fn lemma_isqrt_unique(r: nat, n: nat)
    requires
        r * r <= n < (r + 1) * (r + 1),
    ensures
        r == isqrt_spec(n),
{
    lemma_isqrt_bounds(n);
    let s = isqrt_spec(n);
    if r < s {
        assert((r + 1) * (r + 1) <= s * s) by (nonlinear_arith)
            requires
                r + 1 <= s,
        ;
    } else if s < r {
        assert((s + 1) * (s + 1) <= r * r) by (nonlinear_arith)
            requires
                s + 1 <= r,
        ;
    }
}

/// The integer square root, by bisection.
fn isqrt(n: u64) -> (r: u64)
    requires
        n <= 0x1_0000_0000,
    ensures
        r == isqrt_spec(n as nat),
        r <= 0x10000,
{
    let mut lo: u64 = 0;
    let mut hi: u64 = 0x10001;
    while hi - lo > 1
        invariant
            lo < hi <= 0x10001,
            lo * lo <= n,
            n < hi * hi,
        decreases hi - lo,
    {
        let mid = lo + (hi - lo) / 2;
        proof {
            assert(mid * mid <= 0x10001 * 0x10001) by (nonlinear_arith)
                requires
                    mid <= 0x10001,
            ;
        }
        if mid * mid <= n {
            lo = mid;
        } else {
            hi = mid;
        }
    }
    proof {
        lemma_isqrt_unique(lo as nat, n as nat);
        if lo > 0x10000 {
            assert(lo * lo > 0x1_0000_0000) by (nonlinear_arith)
                requires
                    lo > 0x10000,
            ;
        }
    }
    lo
}

/// `lerp` on 64-bit values.
fn lerp_exec(a: u64, b: u64, f: u64) -> (r: u64)
    requires
        f < ONE,
    ensures
        r == lerp(a as nat, b as nat, f as nat),
        r <= a || r <= b,
{
    let g = ONE - f;
    proof {
        assert(a * g <= 0xFFFF_FFFF_FFFF_FFFFu128 * 0x10000 && b * f <= 0xFFFF_FFFF_FFFF_FFFFu128 * 0x10000)
            by (nonlinear_arith)
            requires
                a <= 0xFFFF_FFFF_FFFF_FFFFu64,
                b <= 0xFFFF_FFFF_FFFF_FFFFu64,
                g <= 0x10000,
                f <= 0x10000,
        ;
    }
    let num = (a as u128) * (g as u128) + (b as u128) * (f as u128);
    proof {
        let m: nat = if a >= b { a as nat } else { b as nat };
        assert(a * g + b * f <= m * ONE) by (nonlinear_arith)
            requires
                a <= m,
                b <= m,
                g + f == ONE,
        ;
        assert((m * ONE) / ONE as int == m) by (nonlinear_arith);
        assert((a * g + b * f) / ONE as int <= m * ONE / ONE as int) by (nonlinear_arith)
            requires
                a * g + b * f <= m * ONE,
        ;
        assert(num <= 0xFFFF_FFFF_FFFF_FFFFu128 * 0x10000) by (nonlinear_arith)
            requires
                num == a * g + b * f,
                a * g + b * f <= m * ONE,
                m <= 0xFFFF_FFFF_FFFF_FFFFu64,
        ;
    }
    (num / (ONE as u128)) as u64
}

/// Floor division and Euclidean remainder of `a` by a positive `d`.
fn floor_div_rem(a: i64, d: i64) -> (r: (i64, i64))
    requires
        0 < d <= 0x4000_0000_0000_0000,
        -0x4000_0000_0000_0000 < a,
    ensures
        r.0 == a / d,
        r.1 == a % d,
        0 <= r.1 < d,
{
    if a >= 0 {
        let q = (a as u64) / (d as u64);
        let m = (a as u64) % (d as u64);
        (q as i64, m as i64)
    } else {
        let b = (-(a + 1)) as u64;
        let q = b / (d as u64);
        proof {
            assert(q * d <= b) by (nonlinear_arith)
                requires
                    q as int == (b as int) / (d as int),
                    d > 0,
                    b >= 0,
            ;
            assert(b < (q + 1) * d) by (nonlinear_arith)
                requires
                    q as int == (b as int) / (d as int),
                    d > 0,
                    b >= 0,
            ;
            let fq = -(q as int) - 1;
            let fr = a + (q + 1) * d;
            assert(0 <= fr < d && fr == a + q * d + d && q * d + d <= 0x7FFF_FFFF_FFFF_FFFF) by (nonlinear_arith)
                requires
                    q * d <= b,
                    b < (q + 1) * d,
                    b == -(a + 1),
                    fr == a + (q + 1) * d,
                    d <= 0x4000_0000_0000_0000,
                    -0x4000_0000_0000_0000 < a,
            ;
            assert(a == fq * d + fr) by (nonlinear_arith)
                requires
                    fr == a + (q + 1) * d,
                    fq == -(q as int) - 1,
            ;
            vstd::arithmetic::div_mod::lemma_fundamental_div_mod_converse(a as int, d as int, fq, fr);
        }
        let qi = q as i64;
        (-qi - 1, a + (qi * d + d))
    }
}

impl Heights {
    /// The value of cell `(cx, cy)` of layer `mip` through `get_height`;
    /// a negative coordinate is outside the grid and reads zero.
    fn read_cell(&self, cx: i64, cy: i64, mip: i32) -> (r: u64)
        requires
            self.wf(),
            cx < 0x1_0000_0000,
            cy < 0x1_0000_0000,
        ensures
            r == self.cell_height(cx as int, cy as int, mip as int),
    {
        if cx < 0 || cy < 0 {
            0
        } else {
            self.get_height(cx as u32, cy as u32, mip)
        }
    }

    /// Bilinear height at fixed-point position `(x, y)`: the four cells
    /// around it are read through `get_height` on layer `mip` and blended
    /// along x, then along y. Cells past the grid edge read as zero.
    pub fn get_height_interpolated(&self, x: i64, y: i64, mip: i32) -> (r: u64)
        requires
            self.wf(),
            -MAX_SAMPLE_COORD < x < MAX_SAMPLE_COORD,
            -MAX_SAMPLE_COORD < y < MAX_SAMPLE_COORD,
        ensures
            r == self.interpolated_spec(x as int, y as int, mip as int),
    {
        if mip >= 0 && mip as usize >= self.layer_count() {
            return 0;
        }
        let (x0, fx) = floor_div_rem(x, 0x10000);
        let (y0, fy) = floor_div_rem(y, 0x10000);
        proof {
            assert(x0 < 0xFFFF_FFFF && y0 < 0xFFFF_FFFF) by (nonlinear_arith)
                requires
                    x0 == x / 0x10000,
                    y0 == y / 0x10000,
                    x < 0xFFFF_FFFF_0000,
                    y < 0xFFFF_FFFF_0000,
            ;
            assert(x0 > -0x1_0000_0000 && y0 > -0x1_0000_0000) by (nonlinear_arith)
                requires
                    x0 == x / 0x10000,
                    y0 == y / 0x10000,
                    x > -0xFFFF_FFFF_0000,
                    y > -0xFFFF_FFFF_0000,
            ;
        }
        let h00 = self.read_cell(x0, y0, mip);
        let h10 = self.read_cell(x0 + 1, y0, mip);
        let h01 = self.read_cell(x0, y0 + 1, mip);
        let h11 = self.read_cell(x0 + 1, y0 + 1, mip);
        let hx0 = lerp_exec(h00, h10, fx as u64);
        let hx1 = lerp_exec(h01, h11, fx as u64);
        lerp_exec(hx0, hx1, fy as u64)
    }

    /// The advance of the ray parameter after a clear probe at position
    /// `(px, pz)` on layer `mip` (a negative `mip` counts as 0): with cells of
    /// `c = 2^mip` units, the tentative step `base_step_size * c`, clamped to
    /// the distance to the next line of the grid of spacing `c` along either
    /// axis, and at least one unit.
    pub fn determine_step_size(&self, px: i64, pz: i64, base_step_size: u64, mip: i32) -> (r: u64)
        requires
            -MAX_SAMPLE_COORD < px < MAX_SAMPLE_COORD,
            -MAX_SAMPLE_COORD < pz < MAX_SAMPLE_COORD,
            base_step_size <= ONE,
            mip <= 32,
        ensures
            r == step_spec(px as int, pz as int, base_step_size as nat, if mip < 0 {
                0
            } else {
                mip as nat
            }),
    {
        let m: u32 = if mip < 0 {
            0
        } else {
            mip as u32
        };
        let mut cell: u64 = 1;
        let mut j: u32 = 0;
        while j < m
            invariant
                j <= m,
                m <= 32,
                cell == pow2(j as nat),
                cell <= 0x1_0000_0000,
            decreases m - j,
        {
            proof {
                lemma_pow2_le(j as nat + 1, 32);
                reveal_with_fuel(pow2, 33);
            }
            cell = cell * 2;
            j = j + 1;
        }
        proof {
            assert(base_step_size * cell <= ONE * 0x1_0000_0000 && ONE * cell <= ONE * 0x1_0000_0000)
                by (nonlinear_arith)
                requires
                    base_step_size <= ONE,
                    cell <= 0x1_0000_0000,
            ;
            crate::heights::lemma_pow2_positive(m as nat);
        }
        let tentative = base_step_size * cell;
        let size = ONE * cell;
        let (_, off_xi) = floor_div_rem(px, size as i64);
        let (_, off_zi) = floor_div_rem(pz, size as i64);
        let off_x = off_xi as u64;
        let off_z = off_zi as u64;
        let to_grid_x = if off_x == 0 {
            size
        } else {
            size - off_x
        };
        let to_grid_z = if off_z == 0 {
            size
        } else {
            size - off_z
        };
        let grid = if to_grid_x <= to_grid_z {
            to_grid_x
        } else {
            to_grid_z
        };
        let clamped = if tentative <= grid {
            tentative
        } else {
            grid
        };
        if clamped >= ONE {
            clamped
        } else {
            ONE
        }
    }
}

impl Heights {
    /// A march ends either past the travel budget, by at most one step, or at
    /// a parameter where the ray point is under the bilinear height.
    pub proof fn lemma_march_outcome(&self, o: Vec3, d: Vec3, base: nat, t: nat, mip: nat)
        requires
            t <= MAX_TRAVEL + MAX_STEP,
            1 <= self.layers_view().len() <= 17,
            mip < self.layers_view().len(),
            base <= ONE,
        ensures
            t <= self.march(o, d, base, t, mip) <= MAX_TRAVEL + MAX_STEP,
            self.march(o, d, base, t, mip) <= MAX_TRAVEL ==> self.under(
                o,
                d,
                self.march(o, d, base, t, mip),
                0,
            ),
        decreases travel_left(t), mip,
    {
        if t <= MAX_TRAVEL {
            if self.under(o, d, t, mip) {
                if mip > 0 {
                    self.lemma_march_outcome(o, d, base, t, (mip - 1) as nat);
                }
            } else {
                let top = (self.layers_view().len() - 1) as nat;
                let m = if mip + 1 <= top {
                    mip + 1
                } else {
                    top
                };
                let px = sample_coord(coord_at(o.x, d.x, t));
                let pz = sample_coord(coord_at(o.z, d.z, t));
                lemma_step_bound(px, pz, base, mip);
                self.lemma_march_outcome(o, d, base, t + step_spec(px, pz, base, mip), m);
            }
        }
    }

    /// Marches a ray from `start` along `direction`, taken as given (the ray
    /// parameter advances by `direction`, whatever its length), and returns
    /// the parameter of the first hit, or a parameter past `MAX_TRAVEL` when
    /// there is none. A ray without horizontal extent returns zero.
    pub fn cast_ray(&self, start: Vec3, direction: Vec3) -> (r: u64)
        requires
            self.wf(),
            vec_in_bounds(start, MAX_ORIGIN),
            vec_in_bounds(direction, MAX_DIRECTION),
        ensures
            r == self.cast_ray_spec(start, direction),
            r <= MAX_TRAVEL + MAX_STEP,
            (direction.x != 0 || direction.z != 0) && r <= MAX_TRAVEL ==> self.under(
                start,
                direction,
                r as nat,
                0,
            ),
    {
        if direction.x == 0 && direction.z == 0 {
            return 0;
        }
        let dx = direction.x as i128;
        let dy = direction.y as i128;
        let dz = direction.z as i128;
        proof {
            assert(dx * dx <= 0x1_0000_0000_0000 && dy * dy <= 0x1_0000_0000_0000 && dz * dz
                <= 0x1_0000_0000_0000) by (nonlinear_arith)
                requires
                    -0x100_0000 <= dx <= 0x100_0000,
                    -0x100_0000 <= dy <= 0x100_0000,
                    -0x100_0000 <= dz <= 0x100_0000,
            ;
            assert(dx * dx >= 0 && dy * dy >= 0 && dz * dz >= 0) by (nonlinear_arith);
            assert(dx * dx + dz * dz > 0) by (nonlinear_arith)
                requires
                    dx != 0 || dz != 0,
            ;
        }
        let h2 = dx * dx + dz * dz;
        let l2 = h2 + dy * dy;
        let ratio = (h2 * 0x1_0000_0000) / l2;
        proof {
            assert(ratio <= 0x1_0000_0000) by (nonlinear_arith)
                requires
                    ratio as int == (h2 * 0x1_0000_0000) / (l2 as int),
                    0 < h2 <= l2,
            ;
            assert(ratio >= 0) by (nonlinear_arith)
                requires
                    ratio as int == (h2 * 0x1_0000_0000) / (l2 as int),
                    0 < h2 <= l2,
            ;
        }
        let base = isqrt(ratio as u64);
        proof {
            self.lemma_wf_facts();
        }
        let top = self.layer_count() - 1;
        let mut mip: usize = 0;
        let mut t: u64 = 0;
        while t <= MAX_TRAVEL
            invariant
                self.wf(),
                vec_in_bounds(start, MAX_ORIGIN),
                vec_in_bounds(direction, MAX_DIRECTION),
                direction.x != 0 || direction.z != 0,
                base == base_step_spec(direction),
                base <= ONE,
                top == self.layers_view().len() - 1,
                top <= 16,
                mip <= top,
                t <= MAX_TRAVEL + MAX_STEP,
                self.march(start, direction, base as nat, t as nat, mip as nat) == self.cast_ray_spec(
                    start,
                    direction,
                ),
            decreases travel_left(t as nat), mip,
        {
            proof {
                assert(-0x100_0000_0000 * 0x10000 <= start.x * 0x10000 <= 0x100_0000_0000 * 0x10000
                    && -0x100_0000_0000 * 0x10000 <= start.y * 0x10000 <= 0x100_0000_0000 * 0x10000
                    && -0x100_0000_0000 * 0x10000 <= start.z * 0x10000 <= 0x100_0000_0000 * 0x10000)
                    by (nonlinear_arith)
                    requires
                        vec_in_bounds(start, MAX_ORIGIN),
                ;
                assert(-0x100_0000 * 0x4000_0000 <= direction.x * t <= 0x100_0000 * 0x4000_0000
                    && -0x100_0000 * 0x4000_0000 <= direction.y * t <= 0x100_0000 * 0x4000_0000
                    && -0x100_0000 * 0x4000_0000 <= direction.z * t <= 0x100_0000 * 0x4000_0000)
                    by (nonlinear_arith)
                    requires
                        vec_in_bounds(direction, MAX_DIRECTION),
                        0 <= t <= 0x4000_0000,
                ;
            }
            let cx = start.x * 0x10000 + direction.x * (t as i64);
            let cy = start.y * 0x10000 + direction.y * (t as i64);
            let cz = start.z * 0x10000 + direction.z * (t as i64);
            let (px, _) = floor_div_rem(cx, 0x10000);
            let (pz, _) = floor_div_rem(cz, 0x10000);
            proof {
                assert(-0x200_0000_0000 <= px <= 0x200_0000_0000 && -0x200_0000_0000 <= pz
                    <= 0x200_0000_0000) by (nonlinear_arith)
                    requires
                        px == cx / 0x10000,
                        pz == cz / 0x10000,
                        -0x100_0000_0000 * 0x10000 - 0x100_0000 * 0x4000_0000 <= cx <= 0x100_0000_0000
                            * 0x10000 + 0x100_0000 * 0x4000_0000,
                        -0x100_0000_0000 * 0x10000 - 0x100_0000 * 0x4000_0000 <= cz <= 0x100_0000_0000
                            * 0x10000 + 0x100_0000 * 0x4000_0000,
                ;
            }
            let h: u64 = if mip == 0 {
                self.get_height_interpolated(px, pz, 0)
            } else {
                let (gx, _) = floor_div_rem(px, 0x10000);
                let (gz, _) = floor_div_rem(pz, 0x10000);
                proof {
                    assert(gx < 0x1_0000_0000 && gz < 0x1_0000_0000) by (nonlinear_arith)
                        requires
                            gx == px / 0x10000,
                            gz == pz / 0x10000,
                            px <= 0x200_0000_0000,
                            pz <= 0x200_0000_0000,
                    ;
                }
                self.read_cell(gx, gz, mip as i32)
            };
            proof {
                assert(h * ONE <= 0xFFFF_FFFF_FFFF_FFFFu128 * 0x10000) by (nonlinear_arith)
                    requires
                        h <= 0xFFFF_FFFF_FFFF_FFFFu64,
                ;
            }
            if (h as i128) * (ONE as i128) >= cy as i128 {
                if mip > 0 {
                    mip = mip - 1;
                } else {
                    return t;
                }
            } else {
                let step = self.determine_step_size(px, pz, base, mip as i32);
                proof {
                    lemma_step_bound(px as int, pz as int, base as nat, mip as nat);
                }
                mip = if mip + 1 <= top {
                    mip + 1
                } else {
                    top
                };
                t = t + step;
            }
        }
        proof {
            self.lemma_march_outcome(start, direction, base as nat, 0, 0);
        }
        t
    }
}

/// A step is at least one unit and at most a cell of layer 16.
pub proof fn lemma_step_bound(px: int, pz: int, base: nat, m: nat)
    requires
        m <= 16,
        base <= ONE,
    ensures
        1 <= step_spec(px, pz, base, m) <= MAX_STEP,
{
    lemma_pow2_le(m, 16);
    reveal_with_fuel(pow2, 17);
    crate::heights::lemma_pow2_positive(m);
    let p = pow2(m);
    assert(ONE * p <= MAX_STEP) by (nonlinear_arith)
        requires
            p <= 0x10000,
    ;
}

pub proof fn lemma_pow2_le(a: nat, b: nat)
    requires
        a <= b,
    ensures
        pow2(a) <= pow2(b),
    decreases b,
{
    if a < b {
        lemma_pow2_le(a, (b - 1) as nat);
        crate::heights::lemma_pow2_positive((b - 1) as nat);
    }
}

} // verus!
