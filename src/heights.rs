//! The height field with its max pyramid, and point and bulk updates.
use vstd::prelude::*;
use crate::morton::{compact, morton, morton_decode, morton_encode, pow2, pow4};
use crate::pyramid::{block_max, covers_max, is_pyramid, max2, pyramid_of, reduce, reduces};

verus! {

/// One in the fixed-point format used for samples, scales and coordinates.
pub const ONE: u64 = 65536;

/// Largest supported grid dimension: coordinates are interleaved on 16 bits.
pub const MAX_DIMENSION: u32 = 65536;

/// Why a bulk load was refused.
#[derive(Debug, Clone, Copy, PartialEq, Eq, Structural)]
pub enum HeightsError {
    /// The sample array does not hold exactly `dimension * dimension` values.
    SizeMismatch,
}

/// A square height field of `heightmap_dimensions` cells a side (a power of
/// two) together with its max pyramid.
///
/// Layer 0 holds one sample per cell in Morton order; layer `k + 1` holds the
/// maximum of each run of four nodes of layer `k`. Samples are stored as
/// given; `heightmap_height` multiplies them when they are read.
pub struct Heights {
    heightmap_dimensions: u32,
    heightmap_height: u32,
    layers: Vec<Vec<u32>>,
}

/// `d` is `2^n`, a supported grid dimension.
pub open spec fn is_dimension(d: nat, n: nat) -> bool {
    d == pow2(n) && n <= 16
}

/// The row-major array `values` of a `d` by `d` grid, laid out in Morton order.
pub open spec fn morton_layout(values: Seq<u32>, d: nat) -> Seq<u32> {
    Seq::new(d * d, |i: int| values[(compact(i as nat / 2) * d + compact(i as nat)) as int])
}

/// The contents of a vector of layers.
pub open spec fn layers_of(r: Seq<Vec<u32>>) -> Seq<Seq<u32>> {
    r.map_values(|l: Vec<u32>| l@)
}

/// A sample multiplied by the fixed-point height scale.
pub open spec fn scaled(sample: u32, scale: u32) -> nat {
    (sample as nat * scale as nat) / (ONE as nat)
}

impl Heights {
    /// Number of coarser layers above the height field.
    pub closed spec fn levels(&self) -> nat {
        (self.layers.len() - 1) as nat
    }

    /// All layers, finest first.
    pub closed spec fn layers_view(&self) -> Seq<Seq<u32>> {
        self.layers@.map_values(|l: Vec<u32>| l@)
    }

    /// Side length of the grid, in cells.
    pub closed spec fn dimension_spec(&self) -> nat {
        self.heightmap_dimensions as nat
    }

    /// The fixed-point multiplier applied when samples are read.
    pub closed spec fn scale_spec(&self) -> u32 {
        self.heightmap_height
    }

    /// The samples of the height field, in Morton order.
    pub open spec fn base(&self) -> Seq<u32> {
        self.layers_view()[0]
    }

    /// The dimension is `2^n` for the `n` coarser layers, and the layers
    /// form a max pyramid over `4^n` samples.
    pub closed spec fn wf(&self) -> bool {
        &&& self.layers.len() >= 1
        &&& is_dimension(self.heightmap_dimensions as nat, self.levels())
        &&& is_pyramid(self.layers_view(), self.levels())
    }

    /// The scaled value that `get_height` reads at cell `(x, y)` of the
    /// grid of layer `mip`: zero past the coarsest layer or outside the grid
    /// of that layer, whose side is `dimension / 2^mip`.
    pub open spec fn height_spec(&self, x: nat, y: nat, mip: int) -> nat {
        let m = if mip < 0 { 0 } else { mip };
        if m >= self.layers_view().len() {
            0
        } else {
            let cx = x / pow2(m as nat);
            let cy = y / pow2(m as nat);
            let side = self.dimension_spec() / pow2(m as nat);
            if cx < side && cy < side {
                scaled(self.layers_view()[m][morton(cx, cy) as int], self.scale_spec())
            } else {
                0
            }
        }
    }

    /// What well-formedness gives a caller.
    pub proof fn lemma_wf_facts(&self)
        requires
            self.wf(),
        ensures
            self.layers_view().len() == self.levels() + 1,
            is_pyramid(self.layers_view(), self.levels()),
            self.levels() <= 16,
            self.dimension_spec() == pow2(self.levels()),
            self.base().len() == pow4(self.levels()),
    {
    }

    /// A height field of `dimension` by `dimension` zero samples, read with
    /// the fixed-point multiplier `height_scale`.
    pub fn new(dimension: u32, height_scale: u32) -> (r: Heights)
        requires
            exists|n: nat| is_dimension(dimension as nat, n),
            dimension as nat * dimension as nat <= usize::MAX,
        ensures
            r.wf(),
            r.dimension_spec() == dimension,
            r.scale_spec() == height_scale,
            r.base() == Seq::new(dimension as nat * dimension as nat, |i: int| 0u32),
    {
        let ghost n = choose|n: nat| is_dimension(dimension as nat, n);
        proof {
            lemma_pow2_square(n);
        }
        let len = dimension as usize * dimension as usize;
        let mut base: Vec<u32> = Vec::new();
        let mut i: usize = 0;
        while i < len
            invariant
                i <= len,
                base@ == Seq::new(i as nat, |j: int| 0u32),
            decreases len - i,
        {
            base.push(0);
            i = i + 1;
        }
        let layers = rebuild_mipmaps(base, Ghost(n));
        let r = Heights { heightmap_dimensions: dimension, heightmap_height: height_scale, layers };
        proof {
            assert(r.layers_view() =~= layers@.map_values(|l: Vec<u32>| l@));
        }
        r
    }
}

impl Heights {
    /// Writes one sample and patches the nodes above it, one per layer.
    /// A cell outside the grid is ignored.
    /// The result equals a full rebuild over the new samples.
    #[verifier::spinoff_prover]
    pub fn set_height_at(&mut self, x: u32, y: u32, height: u32)
        requires
            old(self).wf(),
        ensures
            final(self).wf(),
            final(self).dimension_spec() == old(self).dimension_spec(),
            final(self).scale_spec() == old(self).scale_spec(),
            final(self).levels() == old(self).levels(),
            x < old(self).dimension_spec() && y < old(self).dimension_spec() ==> final(self).base()
                == old(self).base().update(morton(x as nat, y as nat) as int, height),
            !(x < old(self).dimension_spec() && y < old(self).dimension_spec())
                ==> final(self).layers_view() == old(self).layers_view(),
            final(self).layers_view() == pyramid_of(final(self).base(), final(self).levels()),
    {
        let ghost old_v = self.layers_view();
        let ghost lv = self.levels();
        proof {
            crate::pyramid::lemma_layer_lengths(old_v, lv);
            crate::pyramid::lemma_pyramid_determined(old_v);
        }
        if x >= self.heightmap_dimensions || y >= self.heightmap_dimensions {
            return ;
        }
        proof {
            crate::raymarch::lemma_pow2_le(lv, 16);
            crate::morton::lemma_pow2_16();
            crate::morton::lemma_morton_bound(x as nat, y as nat, lv);
        }
        let idx = morton_encode(x, y);
        let mut row: Vec<u32> = Vec::new();
        self.layers.set_and_swap(0, &mut row);
        row.set(idx, height);
        self.layers.set_and_swap(0, &mut row);
        let n = self.layers.len();
        let mut k: usize = 0;
        let mut i: usize = idx;
        proof {
            assert(self.layers_view() =~= old_v.update(0, old_v[0].update(idx as int, height)));
            lemma_patch_start(old_v, lv, idx as int, height);
        }
        while k + 1 < n
            invariant
                n == self.layers@.len(),
                n == lv + 1,
                lv <= 16,
                k < n,
                self.heightmap_dimensions == old(self).heightmap_dimensions,
                self.heightmap_height == old(self).heightmap_height,
                is_pyramid(old_v, lv),
                i < self.layers@[k as int]@.len(),
                patch_inv(self.layers_view(), old_v, k as int, i as int, idx as int, height),
            decreases n - k,
        {
            let ghost before = self.layers_view();
            let p = i / 4;
            let b = p * 4;
            proof {
                lemma_patch_bounds(before, old_v, lv, k as int, i as int, idx as int, height);
            }
            let m = max4(self.layers[k][b], self.layers[k][b + 1], self.layers[k][b + 2], self.layers[k][b + 3]);
            let mut row: Vec<u32> = Vec::new();
            self.layers.set_and_swap(k + 1, &mut row);
            row.set(p, m);
            self.layers.set_and_swap(k + 1, &mut row);
            proof {
                assert(self.layers_view() =~= before.update(k + 1, before[k + 1].update(p as int, m)));
                lemma_patch_step(before, old_v, lv, k as int, i as int, idx as int, height, m);
            }
            i = p;
            k = k + 1;
        }
        proof {
            lemma_patch_done(self.layers_view(), old_v, lv, i as int, idx as int, height);
            crate::pyramid::lemma_pyramid_determined(self.layers_view());
        }
    }

    /// Replaces every sample from a row-major array of `dimension * dimension`
    /// values and rebuilds the pyramid. An array of another length is refused
    /// and the field is left as it was.
    pub fn set_whole_map(&mut self, input_array: &Vec<u32>) -> (r: Result<(), HeightsError>)
        requires
            old(self).wf(),
        ensures
            final(self).wf(),
            final(self).dimension_spec() == old(self).dimension_spec(),
            final(self).scale_spec() == old(self).scale_spec(),
            final(self).levels() == old(self).levels(),
            input_array@.len() != old(self).dimension_spec() * old(self).dimension_spec() ==> r == Err::<
                (),
                HeightsError,
            >(HeightsError::SizeMismatch) && final(self).layers_view() == old(self).layers_view(),
            input_array@.len() == old(self).dimension_spec() * old(self).dimension_spec() ==> r is Ok
                && final(self).base() == morton_layout(input_array@, old(self).dimension_spec()),
            final(self).layers_view() == pyramid_of(final(self).base(), final(self).levels()),
    {
        let ghost lv = self.levels();
        let ghost d = self.dimension_spec();
        proof {
            lemma_pow2_square(lv);
            crate::pyramid::lemma_pyramid_determined(self.layers_view());
        }
        let len = self.layers[0].len();
        if input_array.len() != len {
            return Err(HeightsError::SizeMismatch);
        }
        let dim = self.heightmap_dimensions as usize;
        proof {
            lemma_pow4_mono(lv, 16);
            reveal_with_fuel(pow4, 17);
        }
        let mut base: Vec<u32> = Vec::with_capacity(len);
        let mut i: usize = 0;
        while i < len
            invariant
                len == d * d,
                len == pow4(lv),
                len <= 0x1_0000_0000,
                d == pow2(lv),
                dim == d,
                input_array@.len() == len,
                i <= len,
                base@ == Seq::new(
                    i as nat,
                    |j: int| input_array@[(compact(j as nat / 2) * d + compact(j as nat)) as int],
                ),
            decreases len - i,
        {
            let (cx, cy) = morton_decode(i);
            proof {
                crate::morton::lemma_compact_bound(i as nat, lv);
                assert(cy as nat * d + cx < d * d) by (nonlinear_arith)
                    requires
                        cx < d,
                        cy < d,
                ;
            }
            base.push(input_array[cy as usize * dim + cx as usize]);
            i = i + 1;
            proof {
                assert(base@ =~= Seq::new(
                    i as nat,
                    |j: int| input_array@[(compact(j as nat / 2) * d + compact(j as nat)) as int],
                ));
            }
        }
        self.layers = rebuild_mipmaps(base, Ghost(lv));
        proof {
            assert(self.layers_view()[0] =~= morton_layout(input_array@, d));
            crate::pyramid::lemma_pyramid_determined(self.layers_view());
        }
        Ok(())
    }

    /// The scaled value of cell `(x, y)` of the grid of layer `mip` (a
    /// negative `mip` reads layer 0): the sample of the node at
    /// `encode(x / 2^mip, y / 2^mip)`, or zero where that node or layer does
    /// not exist.
    #[verifier::spinoff_prover]
    #[verifier::rlimit(50)]
    pub fn get_height(&self, x: u32, y: u32, mip: i32) -> (r: u64)
        requires
            self.wf(),
        ensures
            r == self.height_spec(x as nat, y as nat, mip as int),
    {
        let m: i32 = if mip < 0 {
            0
        } else {
            mip
        };
        if m as usize >= self.layers.len() {
            return 0;
        }
        let mu = m as usize;
        let ghost lv = self.levels();
        let mut cx = x;
        let mut cy = y;
        let mut side = self.heightmap_dimensions;
        let mut j: usize = 0;
        while j < mu
            invariant
                j <= mu,
                mu <= 16,
                cx as nat == x as nat / pow2(j as nat),
                cy as nat == y as nat / pow2(j as nat),
                side as nat == self.dimension_spec() / pow2(j as nat),
            decreases mu - j,
        {
            proof {
                lemma_halve(x as nat, j as nat);
                lemma_halve(y as nat, j as nat);
                lemma_halve(self.dimension_spec(), j as nat);
            }
            cx = cx / 2;
            cy = cy / 2;
            side = side / 2;
            j = j + 1;
        }
        proof {
            let mm: int = if mip < 0 { 0 } else { mip as int };
            assert(mm == mu);
            assert(cx as nat == x as nat / pow2(mm as nat));
            assert(cy as nat == y as nat / pow2(mm as nat));
            assert(side as nat == self.dimension_spec() / pow2(mm as nat));
        }
        if cx >= side || cy >= side {
            return 0;
        }
        proof {
            self.lemma_node_in_layer(cx as nat, cy as nat, mu as nat);
        }
        let idx = morton_encode(cx, cy);
        let v = self.layers[mu][idx] as u64;
        let sc = self.heightmap_height as u64;
        proof {
            assert(v * sc <= 0xFFFF_FFFF * 0xFFFF_FFFF) by (nonlinear_arith)
                requires
                    v <= 0xFFFF_FFFF,
                    sc <= 0xFFFF_FFFF,
            ;
        }
        v * sc / ONE
    }

    /// A cell inside the grid of layer `mip` has its node inside that layer.
    proof fn lemma_node_in_layer(&self, cx: nat, cy: nat, mip: nat)
        requires
            self.wf(),
            mip <= self.levels(),
            cx < self.dimension_spec() / pow2(mip),
            cy < self.dimension_spec() / pow2(mip),
        ensures
            cx < 0x10000,
            cy < 0x10000,
            morton(cx, cy) < self.layers_view()[mip as int].len(),
    {
        let lv = self.levels();
        let k = (lv - mip) as nat;
        lemma_pow2_div(lv, mip);
        crate::raymarch::lemma_pow2_le(k, 16);
        crate::morton::lemma_pow2_16();
        crate::morton::lemma_morton_bound(cx, cy, k);
        crate::pyramid::lemma_layer_lengths(self.layers_view(), lv);
    }

    /// Side length of the grid, in cells.
    pub fn dimension(&self) -> (r: u32)
        ensures
            r == self.dimension_spec(),
    {
        self.heightmap_dimensions
    }

    /// The fixed-point multiplier applied to samples when they are read.
    pub fn height_scale(&self) -> (r: u32)
        ensures
            r == self.scale_spec(),
    {
        self.heightmap_height
    }

    /// Sets the multiplier applied to samples when they are read; the samples
    /// and the pyramid are left as they are.
    pub fn set_height_scale(&mut self, height_scale: u32)
        requires
            old(self).wf(),
        ensures
            final(self).wf(),
            final(self).scale_spec() == height_scale,
            final(self).dimension_spec() == old(self).dimension_spec(),
            final(self).layers_view() == old(self).layers_view(),
    {
        self.heightmap_height = height_scale;
    }

    /// Number of layers, the height field included.
    pub fn layer_count(&self) -> (r: usize)
        ensures
            r == self.layers_view().len(),
    {
        self.layers.len()
    }

    /// Layer `k` of the pyramid, finest first.
    pub fn layer(&self, k: usize) -> (r: &Vec<u32>)
        requires
            k < self.layers_view().len(),
        ensures
            r@ == self.layers_view()[k as int],
    {
        &self.layers[k]
    }
}

/// State of the upward patch after a sample write at `idx`: layers up to
/// `k` reduce one another, layer `k + 1` reduces layer `k` except at node
/// `i / 4`, and layers above `k` are as they were.
#[verifier::opaque]
pub open spec fn patch_inv(
    v: Seq<Seq<u32>>,
    old_v: Seq<Seq<u32>>,
    k: int,
    i: int,
    idx: int,
    height: u32,
) -> bool {
    &&& v.len() == old_v.len()
    &&& 0 <= idx < old_v[0].len()
    &&& forall|j: int| 0 <= j < v.len() ==> #[trigger] v[j].len() == old_v[j].len()
    &&& v[0] == old_v[0].update(idx, height)
    &&& forall|j: int| 0 < j <= k ==> #[trigger] v[j] == reduce(v[j - 1])
    &&& forall|j: int| k < j < v.len() ==> #[trigger] v[j] == old_v[j]
    &&& k + 1 < v.len() ==> forall|q: int|
        0 <= q < v[k + 1].len() && q != i / 4 ==> #[trigger] v[k + 1][q] == block_max(v[k], q)
}

proof fn lemma_patch_start(old_v: Seq<Seq<u32>>, lv: nat, idx: int, height: u32)
    requires
        is_pyramid(old_v, lv),
        0 <= idx < old_v[0].len(),
    ensures
        patch_inv(old_v.update(0, old_v[0].update(idx, height)), old_v, 0, idx, idx, height),
{
    reveal(patch_inv);
    let v = old_v.update(0, old_v[0].update(idx, height));
    if 1 < v.len() {
        assert(old_v[1] == reduce(old_v[0]));
        assert forall|q: int| 0 <= q < v[1].len() && q != idx / 4 implies #[trigger] v[1][q] == block_max(
            v[0],
            q,
        ) by {
            assert(4 * q + 3 < old_v[0].len());
        }
    }
}

proof fn lemma_patch_bounds(
    v: Seq<Seq<u32>>,
    old_v: Seq<Seq<u32>>,
    lv: nat,
    k: int,
    i: int,
    idx: int,
    height: u32,
)
    requires
        is_pyramid(old_v, lv),
        patch_inv(v, old_v, k, i, idx, height),
        0 <= k,
        k + 1 < v.len(),
        0 <= i < v[k].len(),
    ensures
        4 * (i / 4) + 3 < v[k].len(),
        i / 4 < v[k + 1].len(),
{
    reveal(patch_inv);
    crate::pyramid::lemma_layer_lengths(old_v, lv);
    assert(old_v[k + 1].len() == old_v[k].len() / 4);
    assert(pow4((lv - k) as nat) == 4 * pow4((lv - k - 1) as nat));
}

proof fn lemma_patch_step(
    v: Seq<Seq<u32>>,
    old_v: Seq<Seq<u32>>,
    lv: nat,
    k: int,
    i: int,
    idx: int,
    height: u32,
    m: u32,
)
    requires
        is_pyramid(old_v, lv),
        patch_inv(v, old_v, k, i, idx, height),
        0 <= k,
        k + 1 < v.len(),
        0 <= i < v[k].len(),
        m == block_max(v[k], i / 4),
    ensures
        patch_inv(v.update(k + 1, v[k + 1].update(i / 4, m)), old_v, k + 1, i / 4, idx, height),
{
    reveal(patch_inv);
    lemma_patch_bounds(v, old_v, lv, k, i, idx, height);
    crate::pyramid::lemma_layer_lengths(old_v, lv);
    let p = i / 4;
    let w = v.update(k + 1, v[k + 1].update(p, m));
    assert(v[k + 1].len() == v[k].len() / 4);
    assert(w[k + 1] =~= reduce(v[k]));
    assert forall|j: int| 0 < j <= k + 1 implies #[trigger] w[j] == reduce(w[j - 1]) by {
        if j <= k {
            assert(v[j] == reduce(v[j - 1]));
        }
    }
    if k + 2 < w.len() {
        assert(old_v[k + 2] == reduce(old_v[k + 1]));
        assert(v[k + 2] == old_v[k + 2]);
        assert(v[k + 1] == old_v[k + 1]);
        assert forall|q: int| 0 <= q < w[k + 2].len() && q != p / 4 implies #[trigger] w[k + 2][q]
            == block_max(w[k + 1], q) by {
            assert(4 * q + 3 < v[k + 1].len());
            assert(p != 4 * q && p != 4 * q + 1 && p != 4 * q + 2 && p != 4 * q + 3);
        }
    }
}

proof fn lemma_patch_done(v: Seq<Seq<u32>>, old_v: Seq<Seq<u32>>, lv: nat, i: int, idx: int, height: u32)
    requires
        is_pyramid(old_v, lv),
        patch_inv(v, old_v, lv as int, i, idx, height),
    ensures
        is_pyramid(v, lv),
        v[0] == old_v[0].update(idx, height),
{
    reveal(patch_inv);
    assert(v[0].len() == old_v[0].len());
}

pub proof fn lemma_pow2_positive(k: nat)
    ensures
        pow2(k) >= 1,
    decreases k,
{
    if k > 0 {
        lemma_pow2_positive((k - 1) as nat);
    }
}

pub proof fn lemma_pow4_mono(a: nat, b: nat)
    requires
        a <= b,
    ensures
        pow4(a) <= pow4(b),
    decreases b,
{
    if a < b {
        lemma_pow4_mono(a, (b - 1) as nat);
        crate::pyramid::lemma_pow4_positive((b - 1) as nat);
    }
}

/// Two well-formed height fields of one dimension over the same samples have
/// identical layers: building the pyramid twice gives the same result, and a
/// field patched by point updates equals one rebuilt from scratch.
pub proof fn lemma_rebuild_deterministic(a: &Heights, b: &Heights)
    requires
        a.wf(),
        b.wf(),
        a.dimension_spec() == b.dimension_spec(),
        a.base() == b.base(),
    ensures
        a.layers_view() == b.layers_view(),
{
    lemma_pow2_injective(a.levels(), b.levels());
    crate::pyramid::lemma_pyramid_determined(a.layers_view());
    crate::pyramid::lemma_pyramid_determined(b.layers_view());
}

/// After any sequence of updates, each node of a well-formed height field is
/// the maximum of the samples it covers.
pub proof fn lemma_node_is_max(h: &Heights, k: nat, i: int)
    requires
        h.wf(),
        k <= h.levels(),
        0 <= i < h.layers_view()[k as int].len(),
    ensures
        forall|j: int|
            pow4(k) * i <= j < pow4(k) * (i + 1) ==> h.layers_view()[k as int][i] >= #[trigger] h.base()[j],
        exists|j: int|
            pow4(k) * i <= j < pow4(k) * (i + 1) && h.layers_view()[k as int][i] == #[trigger] h.base()[j],
{
    let v = h.layers_view();
    crate::pyramid::lemma_node_is_max_of_leaves(v, h.levels(), k, i);
    let j = choose|j: int| pow4(k) * i <= j < pow4(k) * (i + 1) && v[k as int][i] == #[trigger] v[0][j];
    assert(h.base()[j] == v[0][j]);
}

pub proof fn lemma_pow2_injective(a: nat, b: nat)
    requires
        pow2(a) == pow2(b),
    ensures
        a == b,
    decreases a,
{
    lemma_pow2_positive(a);
    lemma_pow2_positive(b);
    if a > 0 && b > 0 {
        lemma_pow2_injective((a - 1) as nat, (b - 1) as nat);
    } else if a > 0 {
        lemma_pow2_positive((a - 1) as nat);
    } else if b > 0 {
        lemma_pow2_positive((b - 1) as nat);
    }
}

/// In a field laid out from a row-major array, cell `(x, y)` holds the
/// array's value at `y * d + x`.
pub proof fn lemma_layout_cell(values: Seq<u32>, n: nat, x: nat, y: nat)
    requires
        x < pow2(n),
        y < pow2(n),
    ensures
        morton(x, y) < pow2(n) * pow2(n),
        morton_layout(values, pow2(n))[morton(x, y) as int] == values[(y * pow2(n) + x) as int],
{
    crate::morton::lemma_morton_bound(x, y, n);
    lemma_pow2_square(n);
    crate::morton::lemma_decode_encode(x, y);
}

/// Writing one cell of the row-major data and laying it out again gives the
/// old layout with that cell's sample changed: a point update followed by the
/// upward patch and a bulk load of the updated data give the same field.
pub proof fn lemma_point_write_matches_layout(values: Seq<u32>, n: nat, x: nat, y: nat, z: u32)
    requires
        values.len() == pow2(n) * pow2(n),
        x < pow2(n),
        y < pow2(n),
    ensures
        morton(x, y) < pow2(n) * pow2(n),
        morton_layout(values.update((y * pow2(n) + x) as int, z), pow2(n)) == morton_layout(values, pow2(n)).update(
            morton(x, y) as int,
            z,
        ),
{
    let d = pow2(n);
    lemma_pow2_square(n);
    crate::morton::lemma_morton_bound(x, y, n);
    crate::morton::lemma_decode_encode(x, y);
    assert(y * d + x < d * d) by (nonlinear_arith)
        requires
            x < d,
            y < d,
    ;
    let lhs = morton_layout(values.update((y * d + x) as int, z), d);
    let rhs = morton_layout(values, d).update(morton(x, y) as int, z);
    assert forall|i: int| 0 <= i < d * d implies #[trigger] lhs[i] == rhs[i] by {
        let cx = compact(i as nat);
        let cy = compact(i as nat / 2);
        crate::morton::lemma_compact_bound(i as nat, n);
        assert(cy * d + cx < d * d) by (nonlinear_arith)
            requires
                cx < d,
                cy < d,
        ;
        if i != morton(x, y) {
            if cy * d + cx == y * d + x {
                assert(cx == x && cy == y) by (nonlinear_arith)
                    requires
                        cy * d + cx == y * d + x,
                        cx < d,
                        x < d,
                ;
                crate::morton::lemma_encode_decode(i as nat);
            }
        }
    }
    assert(lhs =~= rhs);
}

/// Halving `a / 2^j` gives `a / 2^(j + 1)`.
pub proof fn lemma_halve(a: nat, j: nat)
    ensures
        (a / pow2(j)) / 2 == a / pow2(j + 1),
{
    lemma_pow2_positive(j);
    assert(pow2(j + 1) == pow2(j) * 2);
    vstd::arithmetic::div_mod::lemma_div_denominator(a as int, pow2(j) as int, 2);
}

/// `2^a / 2^b == 2^(a - b)` for `b <= a`.
pub proof fn lemma_pow2_div(a: nat, b: nat)
    requires
        b <= a,
    ensures
        pow2(a) / pow2(b) == pow2((a - b) as nat),
    decreases b,
{
    lemma_pow2_positive(b);
    if b > 0 {
        lemma_pow2_div(a, (b - 1) as nat);
        let p = pow2((b - 1) as nat);
        lemma_pow2_positive((b - 1) as nat);
        assert(pow2(b) == p * 2);
        vstd::arithmetic::div_mod::lemma_div_denominator(pow2(a) as int, p as int, 2);
        let q = pow2((a - b) as nat);
        assert(pow2((a - b + 1) as nat) == q * 2);
        assert((q * 2) / 2 == q);
    } else {
        assert(pow2(0) == 1);
    }
}

pub proof fn lemma_pow2_square(n: nat)
    ensures
        pow2(n) * pow2(n) == pow4(n),
    decreases n,
{
    if n > 0 {
        let n1 = (n - 1) as nat;
        lemma_pow2_square(n1);
        let p = pow2(n1);
        assert((2 * p) * (2 * p) == 4 * (p * p)) by (nonlinear_arith);
        assert(pow2(n) == 2 * p && pow4(n) == 4 * pow4(n1));
    } else {
        assert(pow2(0) == 1 && pow4(0) == 1);
    }
}

/// The maximum of four samples.
fn max4(a: u32, b: u32, c: u32, d: u32) -> (r: u32)
    ensures
        r == max2(max2(max2(a, b), c), d),
{
    let mut m = a;
    if b > m {
        m = b;
    }
    if c > m {
        m = c;
    }
    if d > m {
        m = d;
    }
    m
}

/// The next coarser layer: the maximum of each run of four nodes.
fn reduce_layer(prev: &Vec<u32>) -> (r: Vec<u32>)
    ensures
        r@ == reduce(prev@),
{
    let n = prev.len() / 4;
    let mut next: Vec<u32> = Vec::with_capacity(n);
    let mut p: usize = 0;
    while p < n
        invariant
            n == prev.len() / 4,
            p <= n,
            next@ == Seq::new(p as nat, |q: int| block_max(prev@, q)),
        decreases n - p,
    {
        let b = 4 * p;
        let m = max4(prev[b], prev[b + 1], prev[b + 2], prev[b + 3]);
        next.push(m);
        p = p + 1;
        proof {
            assert(next@ =~= Seq::new(p as nat, |q: int| block_max(prev@, q)));
        }
    }
    proof {
        assert(next@ =~= reduce(prev@));
    }
    next
}

/// The full pyramid over `base`: coarser layers are added until one of a
/// single node is reached.
fn rebuild_mipmaps(base: Vec<u32>, Ghost(n): Ghost<nat>) -> (r: Vec<Vec<u32>>)
    requires
        base@.len() == pow4(n),
        n <= 16,
    ensures
        r@.len() == n + 1,
        is_pyramid(r@.map_values(|l: Vec<u32>| l@), n),
        r@[0]@ == base@,
        r@.map_values(|l: Vec<u32>| l@) == pyramid_of(base@, n),
        forall|k: int| 0 <= k <= n ==> #[trigger] r@[k]@.len() == pow4((n - k) as nat),
        r@[n as int]@.len() == 1,
        forall|k: int, i: int|
            0 <= k <= n && 0 <= i < r@[k]@.len() ==> #[trigger] covers_max(layers_of(r@), k as nat, i),
{
    let mut layers: Vec<Vec<u32>> = Vec::new();
    layers.push(base);
    let mut cur: usize = 0;
    while layers[cur].len() > 1
        invariant
            layers@.len() == cur + 1,
            cur <= n,
            n <= 16,
            layers@[cur as int]@.len() == pow4((n - cur) as nat),
            layers@[0]@ == base@,
            forall|k: int| 0 < k <= cur ==> #[trigger] layers@[k]@ == reduce(layers@[k - 1]@),
        decreases n - cur,
    {
        proof {
            if cur == n {
                assert(pow4(0) == 1);
            }
            assert(pow4((n - cur) as nat) == 4 * pow4((n - cur - 1) as nat));
        }
        let next = reduce_layer(&layers[cur]);
        layers.push(next);
        cur = cur + 1;
    }
    proof {
        if cur < n {
            crate::pyramid::lemma_pow4_positive((n - cur) as nat);
        }
        let v = layers_of(layers@);
        assert forall|k: int| 0 < k < v.len() implies #[trigger] v[k] == reduce(v[k - 1]) by {
            assert(layers@[k]@ == reduce(layers@[k - 1]@));
        }
        assert(is_pyramid(v, n));
        crate::pyramid::lemma_pyramid_determined(v);
        crate::pyramid::lemma_layer_lengths(v, n);
        assert forall|k: int| 0 <= k <= n implies #[trigger] layers@[k]@.len() == pow4((n - k) as nat) by {
            assert(v[k] == layers@[k]@);
        }
        assert forall|k: int, i: int| 0 <= k <= n && 0 <= i < layers@[k]@.len() implies #[trigger] covers_max(
            v,
            k as nat,
            i,
        ) by {
            assert(v[k] == layers@[k]@);
            crate::pyramid::lemma_node_is_max_of_leaves(v, n, k as nat, i);
        }
    }
    layers
}

} // verus!
