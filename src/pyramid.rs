//! The max-height pyramid: each layer holds, per node, the maximum of the
//! four consecutive nodes below it.
use vstd::prelude::*;
use crate::morton::pow4;

verus! {

pub open spec fn max2(a: u32, b: u32) -> u32 {
    if a >= b {
        a
    } else {
        b
    }
}

/// The maximum of the run of four nodes `s[4p] .. s[4p + 3]`.
pub open spec fn block_max(s: Seq<u32>, p: int) -> u32 {
    max2(max2(max2(s[4 * p], s[4 * p + 1]), s[4 * p + 2]), s[4 * p + 3])
}

/// The next coarser layer of `s`.
pub open spec fn reduce(s: Seq<u32>) -> Seq<u32> {
    Seq::new(s.len() / 4, |p: int| block_max(s, p))
}

/// The pyramid with `n` coarser layers built over `base`, finest first.
pub open spec fn pyramid_of(base: Seq<u32>, n: nat) -> Seq<Seq<u32>>
    decreases n,
{
    if n == 0 {
        seq![base]
    } else {
        let p = pyramid_of(base, (n - 1) as nat);
        p.push(reduce(p[n - 1]))
    }
}

/// Node `i` of layer `k` is the maximum of the base samples it covers,
/// `4^k * i .. 4^k * (i + 1) - 1`: at least each of them and equal to one.
pub open spec fn covers_max(layers: Seq<Seq<u32>>, k: nat, i: int) -> bool {
    &&& forall|j: int|
        pow4(k) * i <= j < pow4(k) * (i + 1) ==> layers[k as int][i] >= #[trigger] layers[0][j]
    &&& exists|j: int| pow4(k) * i <= j < pow4(k) * (i + 1) && layers[k as int][i] == #[trigger] layers[0][j]
}

/// Each layer of `layers` is the reduction of the layer below it.
pub open spec fn reduces(layers: Seq<Seq<u32>>) -> bool {
    forall|k: int| 0 < k < layers.len() ==> #[trigger] layers[k] == reduce(layers[k - 1])
}

/// `layers` is a max pyramid of `n + 1` layers over a base of `4^n` samples.
pub open spec fn is_pyramid(layers: Seq<Seq<u32>>, n: nat) -> bool {
    &&& layers.len() == n + 1
    &&& layers[0].len() == pow4(n)
    &&& reduces(layers)
}

pub proof fn lemma_pow4_positive(k: nat)
    ensures
        pow4(k) >= 1,
        k > 0 ==> pow4(k) >= 4,
    decreases k,
{
    if k > 0 {
        lemma_pow4_positive((k - 1) as nat);
    }
}

/// Each layer holds a quarter of the nodes of the layer below, and the
/// coarsest layer holds exactly one node.
pub proof fn lemma_layer_lengths(layers: Seq<Seq<u32>>, n: nat)
    requires
        is_pyramid(layers, n),
    ensures
        forall|k: int| 0 <= k <= n ==> #[trigger] layers[k].len() == pow4((n - k) as nat),
        forall|k: int| 0 <= k < n ==> #[trigger] layers[k + 1].len() == layers[k].len() / 4,
        layers[n as int].len() == 1,
{
    assert forall|k: int| 0 <= k <= n implies #[trigger] layers[k].len() == pow4((n - k) as nat) by {
        lemma_layer_length(layers, n, k as nat);
    }
    assert forall|k: int| 0 <= k < n implies #[trigger] layers[k + 1].len() == layers[k].len() / 4 by {
        assert(layers[k + 1] == reduce(layers[k]));
    }
    assert(layers[n as int].len() == pow4(0));
}

proof fn lemma_layer_length(layers: Seq<Seq<u32>>, n: nat, k: nat)
    requires
        is_pyramid(layers, n),
        k <= n,
    ensures
        layers[k as int].len() == pow4((n - k) as nat),
    decreases k,
{
    if k > 0 {
        lemma_layer_length(layers, n, (k - 1) as nat);
        assert(layers[k as int] == reduce(layers[k - 1]));
        assert(pow4((n - (k - 1)) as nat) == 4 * pow4((n - k) as nat));
    }
}

pub proof fn lemma_pow4_add(a: nat, b: nat)
    ensures
        pow4(a + b) == pow4(a) * pow4(b),
    decreases b,
{
    if b > 0 {
        let b1 = (b - 1) as nat;
        lemma_pow4_add(a, b1);
        let p = pow4(a);
        let q = pow4(b1);
        assert(a + b1 + 1 == a + b);
        assert(pow4(a + b) == 4 * pow4(a + b1));
        assert(pow4(b) == 4 * q);
        assert(4 * (p * q) == p * (4 * q)) by (nonlinear_arith);
    } else {
        assert(pow4(0) == 1);
        assert(a + b == a);
    }
}

/// A chain of reductions is determined by its base: it is the one `pyramid_of`
/// builds, so building twice from the same samples gives identical layers.
pub proof fn lemma_pyramid_determined(layers: Seq<Seq<u32>>)
    requires
        layers.len() >= 1,
        reduces(layers),
    ensures
        layers == pyramid_of(layers[0], (layers.len() - 1) as nat),
    decreases layers.len(),
{
    let n = (layers.len() - 1) as nat;
    if n == 0 {
        assert(layers =~= seq![layers[0]]);
    } else {
        let prefix = layers.subrange(0, n as int);
        assert(reduces(prefix)) by {
            assert forall|k: int| 0 < k < prefix.len() implies #[trigger] prefix[k] == reduce(prefix[k - 1]) by {
                assert(layers[k] == reduce(layers[k - 1]));
            }
        }
        lemma_pyramid_determined(prefix);
        assert(layers[n as int] == reduce(layers[n - 1]));
        assert(layers =~= prefix.push(layers[n as int]));
    }
}

/// Every node of a max pyramid is the maximum of the base samples it covers:
/// node `i` of layer `k` is at least each sample `4^k * i .. 4^k * (i + 1) - 1`
/// and equal to one of them.
#[verifier::rlimit(60)]
pub proof fn lemma_node_is_max_of_leaves(layers: Seq<Seq<u32>>, n: nat, k: nat, i: int)
    requires
        is_pyramid(layers, n),
        k <= n,
        0 <= i < layers[k as int].len(),
    ensures
        forall|j: int|
            pow4(k) * i <= j < pow4(k) * (i + 1) ==> layers[k as int][i] >= #[trigger] layers[0][j],
        exists|j: int|
            pow4(k) * i <= j < pow4(k) * (i + 1) && layers[k as int][i] == #[trigger] layers[0][j],
    decreases k,
{
    if k == 0 {
        assert(pow4(0) == 1);
        let one = pow4(k);
        assert(one * i == i && one * (i + 1) == i + 1) by (nonlinear_arith)
            requires
                one == 1,
        ;
        assert(layers[0][i] == layers[0][i]);
    } else {
        let k1 = (k - 1) as nat;
        let w = pow4(k1);
        assert(pow4(k) == 4 * w);
        lemma_layer_length(layers, n, k);
        lemma_layer_length(layers, n, k1);
        assert(layers[k as int] == reduce(layers[k1 as int]));
        let below = layers[k1 as int];
        lemma_layer_length(layers, n, 0);
        assert(pow4(n) == pow4((n - k1) as nat) * w) by {
            lemma_pow4_add((n - k1) as nat, k1);
        }
        assert(4 * w * (i + 1) <= layers[0].len()) by (nonlinear_arith)
            requires
                i < pow4((n - k) as nat),
                pow4((n - k1) as nat) == 4 * pow4((n - k) as nat),
                layers[0].len() == pow4((n - k1) as nat) * w,
        ;
        assert(layers[k as int][i] == block_max(below, i));
        assert(pow4((n - k1) as nat) == 4 * pow4((n - k) as nat));
        assert(4 * i + 3 < below.len()) by (nonlinear_arith)
            requires
                i < pow4((n - k) as nat),
                below.len() == 4 * pow4((n - k) as nat),
        ;
        lemma_node_is_max_of_leaves(layers, n, k1, 4 * i);
        lemma_node_is_max_of_leaves(layers, n, k1, 4 * i + 1);
        lemma_node_is_max_of_leaves(layers, n, k1, 4 * i + 2);
        lemma_node_is_max_of_leaves(layers, n, k1, 4 * i + 3);
        let l0 = w * (4 * i);
        let l1 = w * (4 * i + 1);
        let l2 = w * (4 * i + 2);
        let l3 = w * (4 * i + 3);
        let l4 = w * (4 * i + 4);
        assert(l1 == l0 + w && l2 == l1 + w && l3 == l2 + w && l4 == l3 + w && l0 == 4 * w * i && l4
            == 4 * w * (i + 1)) by (nonlinear_arith)
            requires
                l0 == w * (4 * i),
                l1 == w * (4 * i + 1),
                l2 == w * (4 * i + 2),
                l3 == w * (4 * i + 3),
                l4 == w * (4 * i + 4),
        ;
        assert(pow4(k) * i == l0 && pow4(k) * (i + 1) == l4);
        let v = layers[k as int][i];
        assert forall|j: int| l0 <= j < l4 implies v >= #[trigger] layers[0][j] by {
            if j < l1 {
                assert(below[4 * i] >= layers[0][j]);
            } else if j < l2 {
                assert(below[4 * i + 1] >= layers[0][j]);
            } else if j < l3 {
                assert(below[4 * i + 2] >= layers[0][j]);
            } else {
                assert(below[4 * i + 3] >= layers[0][j]);
            }
        }
        let c: int = if v == below[4 * i] {
            4 * i
        } else if v == below[4 * i + 1] {
            4 * i + 1
        } else if v == below[4 * i + 2] {
            4 * i + 2
        } else {
            4 * i + 3
        };
        let j = choose|j: int| w * c <= j < w * (c + 1) && below[c] == #[trigger] layers[0][j];
        assert(4 * w * i <= j < 4 * w * (i + 1));
        assert(v == layers[0][j]);
    }
}

} // verus!
