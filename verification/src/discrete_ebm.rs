//! Discrete energy-based factors: gathering weights by categorical states,
//! spin products, and the interaction groups that a factor contributes to
//! block Gibbs sampling.

use vstd::prelude::*;
use crate::shape::{
    all_positive, lemma_offset_concat, lemma_offset_take_step,
    lemma_size_concat, lemma_size_prefix_le, lemma_size_take_step, lemma_size_single, lemma_offset_single, lemma_offset_pair, lemma_ones, offset, ones, shape_size, zeros,
};
use crate::block::Block;
use crate::factor::{AbstractFactor, FactorInteractionGroup};
use crate::interaction::tails_match_head;
use crate::node::{uniform_type, Node, NodeType};
use crate::tensor::{flat_pos, lemma_flat_pos_lt, moved_axis_from, tiled_from, DenseTensor};

verus! {

/// The multi-index `[indices[0][b], indices[1][b], ...]` read down column `b`.
pub open spec fn index_column(indices: Seq<Vec<usize>>, b: int) -> Seq<usize> {
    Seq::new(indices.len(), |j: int| indices[j]@[b])
}

/// One index vector per trailing axis of `shape` (from axis `first` on), each
/// as long as the leading axis, each entry within its axis.
pub open spec fn valid_gather(shape: Seq<usize>, first: int, indices: Seq<Vec<usize>>) -> bool {
    &&& indices.len() + first == shape.len()
    &&& forall|j: int| 0 <= j < indices.len() ==> (#[trigger] indices[j])@.len() == shape[0]
    &&& forall|j: int, b: int|
        0 <= j < indices.len() && 0 <= b < shape[0] ==> #[trigger] indices[j]@[b] < shape[j + first]
}

/// Gathers one weight per batch entry: entry `b` of the result is
/// `weights[b, indices[0][b], ..., indices[n-1][b]]`, the row-major offset
/// being computed in Horner fashion over the trailing axes. With no index
/// vectors the whole tensor is returned flattened.
pub fn batch_gather<T: Copy>(weights: &DenseTensor<T>, indices: &Vec<Vec<usize>>) -> (r: DenseTensor<T>)
    requires
        weights.wf(),
        weights.shape@.len() >= 1,
        indices@.len() == 0 || valid_gather(weights.shape@, 1, indices@),
    ensures
        r.wf(),
        indices@.len() == 0 ==> r.shape@ == seq![weights.data@.len() as usize] && r.data@ == weights.data@,
        indices@.len() > 0 ==> r.shape@ == seq![weights.shape@[0]] && forall|b: int|
            0 <= b < weights.shape@[0] ==> #[trigger] r.data@[b] == weights.at(
                seq![b as usize] + index_column(indices@, b),
            ),
{
    let n = indices.len();
    let dlen = weights.data.len();
    if n == 0 {
        let flat = weights.duplicate();
        let mut shape: Vec<usize> = Vec::new();
        shape.push(dlen);
        proof {
            assert(shape@ =~= seq![dlen]);
            lemma_size_single(dlen);
        }
        return flat.reshape(shape);
    }
    let batch = weights.shape[0];
    let ghost s = weights.shape@;
    let mut out: Vec<T> = Vec::new();
    let mut b: usize = 0;
    while b < batch
        invariant
            b <= batch,
            batch == s[0],
            s == weights.shape@,
            n == indices@.len(),
            n > 0,
            dlen == weights.data@.len(),
            weights.wf(),
            valid_gather(s, 1, indices@),
            out@.len() == b,
            forall|b2: int|
                0 <= b2 < b ==> #[trigger] out@[b2] == weights.at(seq![b2 as usize] + index_column(indices@, b2)),
        decreases batch - b,
    {
        let ghost full = seq![b as usize] + index_column(indices@, b as int);
        proof {
            assert(all_positive(s)) by {
                assert forall|q: int| 0 <= q < s.len() implies #[trigger] s[q] >= 1 by {
                    if q > 0 {
                        assert(indices@[q - 1]@[b as int] < s[q - 1 + 1]);
                    }
                }
            }
            assert(full.take(1) =~= seq![b as usize]);
            assert(s.take(1) =~= seq![s[0]]);
            lemma_offset_single(s[0], b);
            lemma_size_single(s[0]);
        }
        let mut off: usize = b;
        let mut j: usize = 0;
        while j < n
            invariant
                j <= n,
                n == indices@.len(),
                b < batch,
                batch == s[0],
                s == weights.shape@,
                dlen == weights.data@.len(),
                weights.wf(),
                valid_gather(s, 1, indices@),
                all_positive(s),
                full == seq![b as usize] + index_column(indices@, b as int),
                off as nat == offset(s.take(j + 1), full.take(j + 1)),
                off < shape_size(s.take(j + 1)),
            decreases n - j,
        {
            let x = indices[j][b];
            let d = weights.shape[j + 1];
            proof {
                assert(full[j + 1] == x);
                assert(x < d);
                lemma_offset_take_step(s, full, (j + 1) as int);
                lemma_size_take_step(s, (j + 1) as int);
                lemma_size_prefix_le(s, (j + 2) as int);
                let p = shape_size(s.take(j + 1));
                assert((off as nat) * (d as nat) + (x as nat) < p * (d as nat)) by (nonlinear_arith)
                    requires
                        off < p,
                        x < d,
                ;
                assert((off as nat) * (d as nat) <= (off as nat) * (d as nat) + (x as nat));
            }
            off = off * d + x;
            j = j + 1;
        }
        proof {
            assert(s.take(n + 1) =~= s);
            assert(full.take(n + 1) =~= full);
        }
        out.push(weights.data[off]);
        b = b + 1;
    }
    let mut shape: Vec<usize> = Vec::new();
    shape.push(batch);
    proof {
        assert(shape@ =~= seq![batch]);
        lemma_size_single(batch);
    }
    DenseTensor { shape, data: out }
}

/// Each entry of `v` repeated `k` times in place: `r[b * k + c] == v[b]`.
fn repeat_each(v: &Vec<usize>, k: usize, Ghost(bound): Ghost<nat>) -> (r: Vec<usize>)
    requires
        v@.len() * k <= usize::MAX,
        forall|b: int| 0 <= b < v@.len() ==> #[trigger] v@[b] < bound,
    ensures
        r@.len() == v@.len() * k,
        forall|b: int, c: int| 0 <= b < v@.len() && 0 <= c < k ==> r@[#[trigger] flat_pos(b, c, k as int)] == v@[b],
        forall|q: int| 0 <= q < r@.len() ==> #[trigger] r@[q] < bound,
{
    let mut r: Vec<usize> = Vec::new();
    let mut b: usize = 0;
    while b < v.len()
        invariant
            b <= v@.len(),
            v@.len() * k <= usize::MAX,
            forall|b2: int| 0 <= b2 < v@.len() ==> #[trigger] v@[b2] < bound,
            r@.len() == b * k,
            forall|b2: int, c: int| 0 <= b2 < b && 0 <= c < k ==> r@[#[trigger] flat_pos(b2, c, k as int)] == v@[b2],
            forall|q: int| 0 <= q < r@.len() ==> #[trigger] r@[q] < bound,
        decreases v@.len() - b,
    {
        let x = v[b];
        let mut c: usize = 0;
        while c < k
            invariant
                c <= k,
                b < v@.len(),
                x == v@[b as int],
                x < bound,
                r@.len() == b * k + c,
                forall|b2: int, c2: int| 0 <= b2 < b && 0 <= c2 < k ==> r@[#[trigger] flat_pos(b2, c2, k as int)] == v@[b2],
                forall|c2: int| 0 <= c2 < c ==> #[trigger] r@[b * k + c2] == x,
                forall|q: int| 0 <= q < r@.len() ==> #[trigger] r@[q] < bound,
            decreases k - c,
        {
            let ghost before = r@;
            r.push(x);
            assert forall|b2: int, c2: int| 0 <= b2 < b && 0 <= c2 < k implies r@[#[trigger] flat_pos(b2, c2, k as int)] == v@[b2] by {
                lemma_flat_pos_lt(b2, c2, b as int, k as int);
                assert(b2 * k + c2 < b * k);
                assert(r@[flat_pos(b2, c2, k as int)] == before[flat_pos(b2, c2, k as int)]);
            }
            c = c + 1;
        }
        assert forall|b2: int, c2: int| 0 <= b2 < b + 1 && 0 <= c2 < k implies r@[#[trigger] flat_pos(b2, c2, k as int)] == v@[b2] by {
            if b2 == b {
                assert(r@[b * k + c2] == x);
            }
        }
        assert(r@.len() == (b + 1) * k) by (nonlinear_arith)
            requires
                r@.len() == b * k + k,
        ;
        b = b + 1;
    }
    r
}

/// Every axis of the shape from axis `first` on has dimension 1.
pub open spec fn unit_axes_from(shape: Seq<usize>, first: int) -> bool {
    forall|q: int| first <= q < shape.len() ==> #[trigger] shape[q] == 1
}

/// Gathers along an extra axis: for weights of shape `[batch, k, d1, ..., dn]`
/// entry `[b, c]` of the result is `weights[b, c, indices[0][b], ..., indices[n-1][b]]`.
/// The weights are viewed as `[batch * k, d1, ..., dn]`, each index vector is
/// repeated `k` times in place, and `batch_gather` does the rest. With no
/// index vectors, weights `[batch, k, 1, ..., 1]` are reshaped to `[batch, k]`.
pub fn batch_gather_with_k<T: Copy>(weights: &DenseTensor<T>, indices: &Vec<Vec<usize>>) -> (r: DenseTensor<T>)
    requires
        weights.wf(),
        weights.shape@.len() >= 2,
        valid_gather(weights.shape@, 2, indices@) || (indices@.len() == 0 && unit_axes_from(weights.shape@, 2)),
    ensures
        r.wf(),
        r.shape@ == seq![weights.shape@[0], weights.shape@[1]],
        valid_gather(weights.shape@, 2, indices@) ==> forall|b: int, c: int|
            0 <= b < weights.shape@[0] && 0 <= c < weights.shape@[1] ==> #[trigger] r.data@[flat_pos(
                b,
                c,
                weights.shape@[1] as int,
            )] == weights.at(seq![b as usize, c as usize] + index_column(indices@, b)),
        indices@.len() == 0 ==> forall|b: int, c: int|
            0 <= b < weights.shape@[0] && 0 <= c < weights.shape@[1] ==> #[trigger] r.data@[flat_pos(
                b,
                c,
                weights.shape@[1] as int,
            )] == weights.at(seq![b as usize, c as usize] + zeros((weights.shape@.len() - 2) as nat)),
{
    let ghost s = weights.shape@;
    let batch = weights.shape[0];
    let k = weights.shape[1];
    let n = indices.len();
    let dlen = weights.data.len();
    let mut pair: Vec<usize> = Vec::new();
    pair.push(batch);
    pair.push(k);
    assert(pair@ =~= seq![batch, k]);
    proof {
        lemma_offset_pair(batch, k, 0, 0);
        assert(s.take(2) =~= seq![batch, k]);
        if batch > 0 && k > 0 {
            assert forall|q: int| 2 <= q < s.len() implies #[trigger] s[q] >= 1 by {
                if indices@.len() > 0 {
                    assert(indices@[q - 2]@[0] < s[q - 2 + 2]);
                }
            }
            lemma_size_prefix_le(s, 2);
            assert((batch as nat) * (k as nat) <= dlen);
        } else {
            assert((batch as nat) * (k as nat) == 0) by (nonlinear_arith)
                requires
                    batch == 0 || k == 0,
            ;
        }
    }
    let bk = batch * k;
    if n == 0 {
        proof {
            let tail_len = (s.len() - 2) as nat;
            assert(s =~= seq![batch, k] + ones(tail_len));
            lemma_ones(tail_len);
            lemma_size_concat(seq![batch, k], ones(tail_len));
            assert forall|b: int, c: int| 0 <= b < batch && 0 <= c < k implies weights.data@[#[trigger] flat_pos(b, c, k as int)]
                == weights.at(seq![b as usize, c as usize] + zeros(tail_len)) && (valid_gather(s, 2, indices@)
                ==> weights.data@[flat_pos(b, c, k as int)] == weights.at(
                seq![b as usize, c as usize] + index_column(indices@, b),
            )) by {
                lemma_offset_concat(seq![batch, k], seq![b as usize, c as usize], ones(tail_len), zeros(tail_len));
                lemma_offset_pair(batch, k, b as usize, c as usize);
                if valid_gather(s, 2, indices@) {
                    assert(tail_len == 0);
                    assert(index_column(indices@, b) =~= zeros(tail_len));
                }
            }
        }
        return weights.duplicate().reshape(pair);
    }
    let ghost rest = s.skip(2);
    // Index vectors over the merged leading axis.
    let mut expanded: Vec<Vec<usize>> = Vec::new();
    let mut j: usize = 0;
    while j < n
        invariant
            j <= n,
            n == indices@.len(),
            bk == batch * k,
            batch == s[0],
            k == s[1],
            s == weights.shape@,
            valid_gather(s, 2, indices@),
            expanded@.len() == j,
            forall|j2: int| 0 <= j2 < j ==> (#[trigger] expanded@[j2])@.len() == bk,
            forall|j2: int, q: int| 0 <= j2 < j && 0 <= q < bk ==> #[trigger] expanded@[j2]@[q] < s[j2 + 2],
            forall|j2: int, b: int, c: int|
                0 <= j2 < j && 0 <= b < batch && 0 <= c < k ==> #[trigger] expanded@[j2]@[flat_pos(b, c, k as int)]
                    == indices@[j2]@[b],
        decreases n - j,
    {
        let ghost bound = s[j + 2] as nat;
        assert forall|b: int| 0 <= b < indices@[j as int]@.len() implies #[trigger] indices@[j as int]@[b] < bound by {
            assert(indices@[j as int]@[b] < s[j + 2]);
        }
        let e = repeat_each(&indices[j], k, Ghost(bound));
        expanded.push(e);
        j = j + 1;
    }
    let mut merged_shape: Vec<usize> = Vec::new();
    merged_shape.push(bk);
    let mut q: usize = 2;
    while q < weights.shape.len()
        invariant
            2 <= q <= s.len(),
            s == weights.shape@,
            merged_shape@ == seq![bk] + s.subrange(2, q as int),
        decreases s.len() - q,
    {
        merged_shape.push(weights.shape[q]);
        q = q + 1;
        assert(merged_shape@ =~= seq![bk] + s.subrange(2, q as int));
    }
    let ghost ms = merged_shape@;
    proof {
        assert(ms =~= seq![bk] + rest);
        assert(s =~= seq![batch, k] + rest);
        lemma_size_concat(seq![batch, k], rest);
        lemma_size_concat(seq![bk], rest);
        lemma_size_single(bk);
    }
    let merged = weights.duplicate().reshape(merged_shape);
    proof {
        assert forall|jj: int| 0 <= jj < expanded@.len() implies (#[trigger] expanded@[jj])@.len() == ms[0] by {}
        assert forall|jj: int, b: int| 0 <= jj < expanded@.len() && 0 <= b < ms[0] implies #[trigger] expanded@[jj]@[b] < ms[jj + 1] by {
            assert(ms[jj + 1] == s[jj + 2]);
        }
    }
    let g = batch_gather(&merged, &expanded);
    proof {
        assert forall|b: int, c: int| 0 <= b < batch && 0 <= c < k implies #[trigger] g.data@[flat_pos(b, c, k as int)]
            == weights.at(seq![b as usize, c as usize] + index_column(indices@, b)) by {
            let qq = flat_pos(b, c, k as int);
            lemma_flat_pos_lt(b, c, batch as int, k as int);
            let col = index_column(indices@, b);
            assert(index_column(expanded@, qq) =~= col) by {
                assert forall|jj: int| 0 <= jj < col.len() implies index_column(expanded@, qq)[jj] == col[jj] by {
                    assert(expanded@[jj]@[flat_pos(b, c, k as int)] == indices@[jj]@[b]);
                }
            }
            assert(g.data@[qq] == merged.at(seq![qq as usize] + col));
            lemma_offset_concat(seq![bk], seq![qq as usize], rest, col);
            lemma_offset_single(bk, qq as usize);
            lemma_offset_concat(seq![batch, k], seq![b as usize, c as usize], rest, col);
            lemma_offset_pair(batch, k, b as usize, c as usize);
        }
    }
    g.reshape(pair)
}


/// An interaction that shows up when sampling from discrete-variable EBMs.
pub struct DiscreteEBMInteraction<T> {
    /// Number of spin states involved in the interaction.
    pub n_spin: usize,
    /// Weights, leading axis over the head nodes, one further axis per
    /// categorical state involved.
    pub weights: DenseTensor<T>,
}

impl<T> DiscreteEBMInteraction<T> {
    pub fn new(n_spin: usize, weights: DenseTensor<T>) -> (r: Self)
        ensures
            r.n_spin == n_spin,
            r.weights == weights,
    {
        DiscreteEBMInteraction { n_spin, weights }
    }
}

/// Value of a spin: `+1` for true, `-1` for false.
pub open spec fn spin_sign(s: bool) -> int {
    if s {
        1
    } else {
        -1
    }
}

/// Product of the signs of the spins `vals[0][i], vals[1][i], ...`.
pub open spec fn spin_prod_at(vals: Seq<Vec<bool>>, i: int) -> int
    decreases vals.len(),
{
    if vals.len() == 0 {
        1
    } else {
        spin_prod_at(vals.drop_last(), i) * spin_sign(vals.last()@[i])
    }
}

/// Element-wise product of spin values, each read as `+1` (true) or `-1`
/// (false). With no spin vectors the product is the single value `1`.
pub fn spin_product(spin_vals: &Vec<Vec<bool>>) -> (r: Vec<i8>)
    requires
        forall|j: int| 0 <= j < spin_vals@.len() ==> (#[trigger] spin_vals@[j])@.len() == spin_vals@[0]@.len(),
    ensures
        spin_vals@.len() == 0 ==> r@ == seq![1i8],
        spin_vals@.len() > 0 ==> r@.len() == spin_vals@[0]@.len() && forall|i: int|
            0 <= i < r@.len() ==> #[trigger] r@[i] as int == spin_prod_at(spin_vals@, i),
{
    let n = spin_vals.len();
    if n == 0 {
        let mut one: Vec<i8> = Vec::new();
        one.push(1);
        assert(one@ =~= seq![1i8]);
        return one;
    }
    let len = spin_vals[0].len();
    let mut r: Vec<i8> = Vec::new();
    let mut i: usize = 0;
    while i < len
        invariant
            i <= len,
            n == spin_vals@.len(),
            n > 0,
            len == spin_vals@[0]@.len(),
            forall|j: int| 0 <= j < spin_vals@.len() ==> (#[trigger] spin_vals@[j])@.len() == len,
            r@.len() == i,
            forall|q: int| 0 <= q < i ==> #[trigger] r@[q] as int == spin_prod_at(spin_vals@, q),
        decreases len - i,
    {
        let mut p: i8 = 1;
        let mut j: usize = 0;
        while j < n
            invariant
                j <= n,
                i < len,
                n == spin_vals@.len(),
                forall|j2: int| 0 <= j2 < spin_vals@.len() ==> (#[trigger] spin_vals@[j2])@.len() == len,
                p as int == spin_prod_at(spin_vals@.take(j as int), i as int),
                p == 1 || p == -1,
            decreases n - j,
        {
            assert(spin_vals@.take(j + 1).drop_last() =~= spin_vals@.take(j as int));
            assert(spin_vals@.take(j + 1).last() == spin_vals@[j as int]);
            let ghost prev = spin_prod_at(spin_vals@.take(j as int), i as int);
            assert(spin_prod_at(spin_vals@.take(j + 1), i as int) == prev * spin_sign(spin_vals@[j as int]@[i as int]));
            if !spin_vals[j][i] {
                p = -p;
                assert(prev * spin_sign(spin_vals@[j as int]@[i as int]) == prev * -1);
            } else {
                assert(prev * spin_sign(spin_vals@[j as int]@[i as int]) == prev * 1);
            }
            j = j + 1;
        }
        assert(spin_vals@.take(n as int) =~= spin_vals@);
        r.push(p);
        i = i + 1;
    }
    r
}

/// Splits states into the first `n_spin` (spin states) and the rest
/// (categorical states).
pub fn split_states<T: Copy>(states: &Vec<DenseTensor<T>>, n_spin: usize) -> (r: (
    Vec<DenseTensor<T>>,
    Vec<DenseTensor<T>>,
))
    requires
        n_spin <= states@.len(),
    ensures
        r.0@.len() == n_spin,
        r.1@.len() == states@.len() - n_spin,
        forall|i: int| 0 <= i < n_spin ==> (#[trigger] r.0@[i]).shape@ == states@[i].shape@ && r.0@[i].data@
            == states@[i].data@,
        forall|i: int|
            0 <= i < r.1@.len() ==> (#[trigger] r.1@[i]).shape@ == states@[n_spin + i].shape@ && r.1@[i].data@
                == states@[n_spin + i].data@,
{
    let mut spin: Vec<DenseTensor<T>> = Vec::new();
    let mut cat: Vec<DenseTensor<T>> = Vec::new();
    let mut i: usize = 0;
    while i < states.len()
        invariant
            i <= states@.len(),
            n_spin <= states@.len(),
            i <= n_spin ==> spin@.len() == i && cat@.len() == 0,
            i > n_spin ==> spin@.len() == n_spin && cat@.len() == i - n_spin,
            forall|q: int| 0 <= q < spin@.len() ==> (#[trigger] spin@[q]).shape@ == states@[q].shape@ && spin@[q].data@
                == states@[q].data@,
            forall|q: int|
                0 <= q < cat@.len() ==> (#[trigger] cat@[q]).shape@ == states@[n_spin + q].shape@ && cat@[q].data@
                    == states@[n_spin + q].data@,
        decreases states@.len() - i,
    {
        let t = states[i].duplicate();
        if i < n_spin {
            spin.push(t);
        } else {
            cat.push(t);
        }
        i = i + 1;
    }
    (spin, cat)
}


/// The nodes of the blocks, one block after the other.
pub open spec fn concat_nodes(groups: Seq<Block>) -> Seq<Node>
    decreases groups.len(),
{
    if groups.len() == 0 {
        Seq::empty()
    } else {
        concat_nodes(groups.drop_last()) + groups.last()@
    }
}

/// Every block holds `n` nodes.
pub open spec fn groups_of_len(groups: Seq<Block>, n: nat) -> bool {
    forall|i: int| 0 <= i < groups.len() ==> (#[trigger] groups[i])@.len() == n
}

/// Every node of every block has type `tau`.
pub open spec fn groups_of_type(groups: Seq<Block>, tau: NodeType) -> bool {
    forall|i: int, a: int| 0 <= i < groups.len() && 0 <= a < groups[i]@.len() ==> #[trigger] groups[i]@[a].node_type == tau
}

/// The `t`-th of the indices `0..n` other than `i`.
pub open spec fn skip_index(i: int, t: int) -> int {
    if t < i {
        t
    } else {
        t + 1
    }
}

/// Tail number `t` of the spin interaction group: for each head position `i`,
/// the `t`-th spin group other than group `i`.
pub open spec fn spin_tail_groups(spin: Seq<Block>, t: int) -> Seq<Block> {
    Seq::new(spin.len(), |i: int| spin[skip_index(i, t)])
}

/// The block `g`, `times` times.
pub open spec fn repeated_group(g: Block, times: nat) -> Seq<Block> {
    Seq::new(times, |i: int| g)
}

/// Every axis of the shape after the leading one has dimension 1.
pub open spec fn unit_tail(shape: Seq<usize>) -> bool {
    forall|i: int| 1 <= i < shape.len() ==> #[trigger] shape[i] == 1
}

/// The weights have one axis per categorical group after the batch axis; the
/// weights of a factor without categorical groups may instead have any number
/// of trailing axes of dimension 1 (`[b, 1, 1]`, say).
pub open spec fn weight_rank_ok(shape: Seq<usize>, k: nat) -> bool {
    shape.len() == 1 + k || (k == 0 && unit_tail(shape))
}

/// A shape whose trailing axes all have dimension 1 has as many elements as
/// its leading dimension.
pub proof fn lemma_size_unit_tail(shape: Seq<usize>)
    requires
        shape.len() >= 1,
        unit_tail(shape),
    ensures
        shape_size(shape) == shape[0] as nat,
    decreases shape.len(),
{
    if shape.len() > 1 {
        let p = shape.drop_last();
        assert(unit_tail(p)) by {
            assert forall|i: int| 1 <= i < p.len() implies #[trigger] p[i] == 1 by {
                assert(p[i] == shape[i]);
            }
        }
        lemma_size_unit_tail(p);
        assert(shape.last() == shape[shape.len() - 1]);
        assert(shape.last() == 1);
        assert(p[0] == shape[0]);
        assert(shape_size(shape) == shape_size(p) * 1);
    } else {
        assert(shape.drop_last() =~= Seq::<usize>::empty());
        assert(shape_size(shape.drop_last()) == 1);
        assert(shape.last() == shape[0]);
        assert(shape_size(shape) == 1 * (shape[0] as nat));
    }
}

/// Whether every axis of the shape after the leading one has dimension 1.
fn has_unit_tail(shape: &Vec<usize>) -> (r: bool)
    ensures
        r == unit_tail(shape@),
{
    let mut i: usize = 1;
    while i < shape.len()
        invariant
            1 <= i,
            forall|q: int| 1 <= q < i && q < shape@.len() ==> #[trigger] shape@[q] == 1,
        decreases shape@.len() - i,
    {
        if shape[i] != 1 {
            return false;
        }
        i = i + 1;
    }
    true
}

/// The error that constructing a factor from these groups and this weight
/// shape reports, if any, in the order in which the checks are made.
pub open spec fn factor_error(spin: Seq<Block>, cat: Seq<Block>, shape: Seq<usize>) -> Option<Seq<char>> {
    let groups = spin + cat;
    if groups.len() == 0 {
        Some("At least one node group must be provided"@)
    } else if !groups_of_len(groups, groups[0]@.len()) {
        Some("Every block in node_groups must contain the same number of nodes"@)
    } else if shape.len() == 0 || shape[0] != groups[0]@.len() {
        Some(
            "The leading dimension of weights must have the same length as the number of nodes in each node group"@,
        )
    } else if !weight_rank_ok(shape, cat.len()) {
        Some(
            "The shape of the weight tensor must be [b, x_1, ..., x_k], where k is the length of categorical_node_groups"@,
        )
    } else {
        None
    }
}

pub proof fn lemma_concat_len(groups: Seq<Block>, n: nat)
    requires
        groups_of_len(groups, n),
    ensures
        concat_nodes(groups).len() == groups.len() * n,
    decreases groups.len(),
{
    if groups.len() == 0 {
        assert(0 * n == 0);
    } else {
        let p = groups.drop_last();
        assert(groups_of_len(p, n)) by {
            assert forall|i: int| 0 <= i < p.len() implies (#[trigger] p[i])@.len() == n by {
                assert(p[i] == groups[i]);
            }
        }
        lemma_concat_len(p, n);
        assert(groups[groups.len() - 1]@.len() == n);
        assert((p.len() + 1) * n == p.len() * n + n) by (nonlinear_arith);
    }
}

pub proof fn lemma_concat_type(groups: Seq<Block>, tau: NodeType)
    requires
        groups_of_type(groups, tau),
    ensures
        forall|k: int| 0 <= k < concat_nodes(groups).len() ==> #[trigger] concat_nodes(groups)[k].node_type == tau,
        uniform_type(concat_nodes(groups)),
    decreases groups.len(),
{
    if groups.len() > 0 {
        let p = groups.drop_last();
        assert(groups_of_type(p, tau)) by {
            assert forall|i: int, a: int| 0 <= i < p.len() && 0 <= a < p[i]@.len() implies #[trigger] p[i]@[a].node_type
                == tau by {
                assert(p[i] == groups[i]);
                assert(groups[i]@[a].node_type == tau);
            }
        }
        lemma_concat_type(p, tau);
        let c = concat_nodes(groups);
        let cp = concat_nodes(p);
        let last = groups.last();
        assert(c == cp + last@);
        assert forall|k: int| 0 <= k < c.len() implies #[trigger] c[k].node_type == tau by {
            if k >= cp.len() {
                assert(groups[groups.len() - 1]@[k - cp.len()].node_type == tau);
            }
        }
    }
}

/// Appends the nodes of a block.
fn extend_nodes(v: &mut Vec<Node>, b: &Block)
    ensures
        final(v)@ == old(v)@ + b@,
        uniform_type(b@),
{
    let nodes = b.nodes();
    let ghost init = v@;
    let mut i: usize = 0;
    while i < nodes.len()
        invariant
            i <= nodes@.len(),
            v@ == init + nodes@.take(i as int),
        decreases nodes@.len() - i,
    {
        v.push(nodes[i]);
        i = i + 1;
        assert(v@ =~= init + nodes@.take(i as int));
    }
    assert(nodes@.take(nodes@.len() as int) =~= nodes@);
}

/// A block from nodes known to share one type.
fn block_of(nodes: Vec<Node>) -> (r: Block)
    requires
        uniform_type(nodes@),
    ensures
        r@ == nodes@,
{
    match Block::new(nodes) {
        Ok(b) => b,
        Err(_) => vstd::pervasive::unreached(),
    }
}

/// A factor that defines an energy function for discrete EBMs: spin node
/// groups, categorical node groups, and weights of shape `[b, x_1, ..., x_k]`
/// with `b` the length of every group and `k` the number of categorical groups
/// (without categorical groups, `[b]` or `[b, 1, ..., 1]`).
///
/// `new` checks these conditions (`wf`); a factor written directly from its
/// public fields has to meet them before its interaction groups or energy
/// terms are asked for.
pub struct DiscreteEBMFactor<T> {
    pub spin_node_groups: Vec<Block>,
    pub categorical_node_groups: Vec<Block>,
    pub weights: DenseTensor<T>,
}

/// `r` holds the same block views as `s`.
pub open spec fn same_blocks(r: Seq<Block>, s: Seq<Block>) -> bool {
    &&& r.len() == s.len()
    &&& forall|i: int| 0 <= i < r.len() ==> (#[trigger] r[i])@ == s[i]@
}

/// Group `g` is the interaction group with the spin groups as heads: every
/// spin group in turn is the head, the other spin groups and all the
/// categorical groups are its tails, and the weights are tiled once per head.
pub open spec fn spin_group_ok<T>(f: DiscreteEBMFactor<T>, g: FactorInteractionGroup<T>) -> bool {
    let spin = f.spin_node_groups@;
    let cat = f.categorical_node_groups@;
    let ns = spin.len();
    &&& g.head_nodes@ == concat_nodes(spin)
    &&& g.tail_nodes@.len() == ns - 1 + cat.len()
    &&& forall|t: int| 0 <= t < ns - 1 ==> (#[trigger] g.tail_nodes@[t])@ == concat_nodes(spin_tail_groups(spin, t))
    &&& forall|j: int|
        ns - 1 <= j < ns - 1 + cat.len() ==> (#[trigger] g.tail_nodes@[j])@ == concat_nodes(
            repeated_group(cat[j - (ns - 1)], ns),
        )
    &&& g.interaction.n_spin == ns - 1
    &&& tiled_from(f.weights, ns, g.interaction.weights)
}

/// Group `g` is the interaction group with categorical group `h` as head: the
/// spin groups and the other categorical groups are its tails, and the
/// weights have the head's axis moved next to the batch axis.
pub open spec fn cat_group_ok<T>(f: DiscreteEBMFactor<T>, h: int, g: FactorInteractionGroup<T>) -> bool {
    let spin = f.spin_node_groups@;
    let cat = f.categorical_node_groups@;
    &&& g.head_nodes@ == cat[h]@
    &&& same_blocks(g.tail_nodes@, spin + cat.remove(h))
    &&& g.interaction.n_spin == spin.len()
    &&& moved_axis_from(f.weights, h + 1, g.interaction.weights)
}

impl<T> DiscreteEBMFactor<T> {
    /// Groups, weight shape and weights agree.
    pub open spec fn wf(&self) -> bool {
        &&& self.weights.wf()
        &&& factor_error(self.spin_node_groups@, self.categorical_node_groups@, self.weights.shape@) is None
    }

    /// A factor; an error when no group is given, when the groups differ in
    /// length, when the weights' leading dimension is not that length, or when
    /// the weights do not have one axis per categorical group after it (a
    /// factor without categorical groups also takes trailing axes of
    /// dimension 1).
    pub fn new(spin_node_groups: Vec<Block>, categorical_node_groups: Vec<Block>, weights: DenseTensor<T>) -> (r:
        Result<Self, String>)
        requires
            weights.wf(),
        ensures
            r is Err <==> factor_error(spin_node_groups@, categorical_node_groups@, weights.shape@) is Some,
            r matches Err(e) ==> Some(e@) == factor_error(spin_node_groups@, categorical_node_groups@, weights.shape@),
            r matches Ok(f) ==> f.spin_node_groups@ == spin_node_groups@ && f.categorical_node_groups@
                == categorical_node_groups@ && f.weights == weights && f.wf(),
    {
        let ghost groups = spin_node_groups@ + categorical_node_groups@;
        let n_nodes = if spin_node_groups.len() > 0 {
            spin_node_groups[0].len()
        } else if categorical_node_groups.len() > 0 {
            categorical_node_groups[0].len()
        } else {
            return Err("At least one node group must be provided".to_string());
        };
        assert(groups[0]@.len() == n_nodes);
        let ns = spin_node_groups.len();
        let nc = categorical_node_groups.len();
        let mut i: usize = 0;
        while i < ns
            invariant
                i <= ns,
                ns == spin_node_groups@.len(),
                groups == spin_node_groups@ + categorical_node_groups@,
                groups.len() > 0,
                groups[0]@.len() == n_nodes,
                forall|q: int| 0 <= q < i ==> (#[trigger] groups[q])@.len() == n_nodes,
            decreases ns - i,
        {
            if spin_node_groups[i].len() != n_nodes {
                assert(groups[i as int] == spin_node_groups@[i as int]);
                assert(!groups_of_len(groups, groups[0]@.len())) by {
                    assert(groups[i as int]@.len() != n_nodes);
                }
                return Err("Every block in node_groups must contain the same number of nodes".to_string());
            }
            i = i + 1;
        }
        let mut j: usize = 0;
        while j < nc
            invariant
                j <= nc,
                ns == spin_node_groups@.len(),
                nc == categorical_node_groups@.len(),
                groups == spin_node_groups@ + categorical_node_groups@,
                groups.len() > 0,
                groups[0]@.len() == n_nodes,
                forall|q: int| 0 <= q < ns + j ==> (#[trigger] groups[q])@.len() == n_nodes,
            decreases nc - j,
        {
            assert(groups[ns + j] == categorical_node_groups@[j as int]);
            if categorical_node_groups[j].len() != n_nodes {
                assert(!groups_of_len(groups, groups[0]@.len())) by {
                    assert(groups[ns + j]@.len() != n_nodes);
                }
                return Err("Every block in node_groups must contain the same number of nodes".to_string());
            }
            j = j + 1;
        }
        assert(groups_of_len(groups, groups[0]@.len()));
        if weights.shape.len() == 0 || weights.shape[0] != n_nodes {
            return Err(
                "The leading dimension of weights must have the same length as the number of nodes in each node group".to_string(),
            );
        }
        if weights.shape.len() - 1 != nc && !(nc == 0 && has_unit_tail(&weights.shape)) {
            return Err(
                "The shape of the weight tensor must be [b, x_1, ..., x_k], where k is the length of categorical_node_groups".to_string(),
            );
        }
        Ok(DiscreteEBMFactor { spin_node_groups, categorical_node_groups, weights })
    }

    /// All node groups: the spin groups, then the categorical groups.
    pub fn node_groups(&self) -> (r: Vec<Block>)
        ensures
            same_blocks(r@, self.spin_node_groups@ + self.categorical_node_groups@),
    {
        let ghost all = self.spin_node_groups@ + self.categorical_node_groups@;
        let mut groups: Vec<Block> = Vec::new();
        let mut i: usize = 0;
        while i < self.spin_node_groups.len()
            invariant
                i <= self.spin_node_groups@.len(),
                all == self.spin_node_groups@ + self.categorical_node_groups@,
                groups@.len() == i,
                forall|q: int| 0 <= q < i ==> (#[trigger] groups@[q])@ == all[q]@,
            decreases self.spin_node_groups@.len() - i,
        {
            groups.push(self.spin_node_groups[i].clone());
            i = i + 1;
        }
        let ns = self.spin_node_groups.len();
        let mut j: usize = 0;
        while j < self.categorical_node_groups.len()
            invariant
                j <= self.categorical_node_groups@.len(),
                ns == self.spin_node_groups@.len(),
                all == self.spin_node_groups@ + self.categorical_node_groups@,
                groups@.len() == ns + j,
                forall|q: int| 0 <= q < ns + j ==> (#[trigger] groups@[q])@ == all[q]@,
            decreases self.categorical_node_groups@.len() - j,
        {
            groups.push(self.categorical_node_groups[j].clone());
            assert(all[ns + j] == self.categorical_node_groups@[j as int]);
            j = j + 1;
        }
        groups
    }
}


/// The spin tail groups and the repeated categorical groups have one type
/// when the spin groups have one type.
pub proof fn lemma_spin_tail_type(spin: Seq<Block>, t: int, tau: NodeType)
    requires
        groups_of_type(spin, tau),
        0 <= t < spin.len() - 1,
    ensures
        groups_of_type(spin_tail_groups(spin, t), tau),
{
    let g = spin_tail_groups(spin, t);
    assert forall|i: int, a: int| 0 <= i < g.len() && 0 <= a < g[i]@.len() implies #[trigger] g[i]@[a].node_type
        == tau by {
        let k = skip_index(i, t);
        assert(g[i] == spin[k]);
        assert(spin[k]@[a].node_type == tau);
    }
}

pub proof fn lemma_repeated_type(g: Block, times: nat)
    requires
        uniform_type(g@),
    ensures
        uniform_type(concat_nodes(repeated_group(g, times))),
{
    if g@.len() > 0 {
        let tau = g@[0].node_type;
        let gs = repeated_group(g, times);
        assert(groups_of_type(gs, tau)) by {
            assert forall|i: int, a: int| 0 <= i < gs.len() && 0 <= a < gs[i]@.len() implies #[trigger] gs[i]@[a].node_type
                == tau by {
                assert(gs[i] == g);
                assert(g@[a].node_type == g@[0].node_type);
            }
        }
        lemma_concat_type(gs, tau);
    } else {
        let gs = repeated_group(g, times);
        assert(groups_of_len(gs, 0)) by {
            assert forall|i: int| 0 <= i < gs.len() implies (#[trigger] gs[i])@.len() == 0 by {
                assert(gs[i] == g);
            }
        }
        lemma_concat_len(gs, 0);
        assert(gs.len() * 0 == 0);
    }
}

/// The prefix of a block sequence concatenates to the prefix of the nodes.
pub proof fn lemma_concat_take_step(groups: Seq<Block>, i: int)
    requires
        0 <= i < groups.len(),
    ensures
        concat_nodes(groups.take(i + 1)) == concat_nodes(groups.take(i)) + groups[i]@,
{
    assert(groups.take(i + 1).drop_last() =~= groups.take(i));
    assert(groups.take(i + 1).last() == groups[i]);
}

impl<T: Copy> DiscreteEBMFactor<T> {
    /// The weights with the axis of categorical group `head_idx` moved next to
    /// the batch axis (the other axes keep their order).
    fn permute_weights_for_categorical(&self, head_idx: usize) -> (r: DenseTensor<T>)
        requires
            self.wf(),
            head_idx < self.categorical_node_groups@.len(),
        ensures
            moved_axis_from(self.weights, head_idx + 1, r),
    {
        let rank = self.weights.shape.len();
        assert(head_idx + 1 < rank);
        self.weights.move_axis_to_second(head_idx + 1)
    }

    /// Tail number `t` of the spin interaction group: for each spin group `i`
    /// in turn, the nodes of the `t`-th spin group other than `i`.
    fn spin_tail_nodes(&self, t: usize) -> (r: Vec<Node>)
        requires
            t + 1 < self.spin_node_groups@.len(),
        ensures
            r@ == concat_nodes(spin_tail_groups(self.spin_node_groups@, t as int)),
    {
        let ghost gs = spin_tail_groups(self.spin_node_groups@, t as int);
        let ns = self.spin_node_groups.len();
        let mut v: Vec<Node> = Vec::new();
        let mut i: usize = 0;
        while i < ns
            invariant
                i <= ns,
                ns == self.spin_node_groups@.len(),
                t + 1 < ns,
                gs == spin_tail_groups(self.spin_node_groups@, t as int),
                v@ == concat_nodes(gs.take(i as int)),
            decreases ns - i,
        {
            let k = if t < i {
                t
            } else {
                t + 1
            };
            proof {
                lemma_concat_take_step(gs, i as int);
                assert(gs[i as int] == self.spin_node_groups@[k as int]);
            }
            extend_nodes(&mut v, &self.spin_node_groups[k]);
            i = i + 1;
        }
        assert(gs.take(ns as int) =~= gs);
        v
    }

    /// The interaction groups of the factor. When there are spin groups, the
    /// first group has every spin group in turn as head (their nodes one
    /// after the other), the other spin groups and all the categorical groups
    /// as tails, and the weights tiled once per spin group. Then, for each
    /// categorical group, a group with it as head, the spin groups and the
    /// other categorical groups as tails, and the weights with its axis moved
    /// next to the batch axis. The head and tail blocks merge nodes of
    /// several spin groups, so those groups have to share one node type.
    pub fn interaction_groups(&self) -> (r: Vec<FactorInteractionGroup<T>>)
        requires
            self.wf(),
            groups_of_type(self.spin_node_groups@, NodeType::Spin) || groups_of_type(
                self.spin_node_groups@,
                NodeType::Categorical,
            ),
            self.spin_node_groups@.len() * self.weights.shape@[0] <= usize::MAX,
            self.spin_node_groups@.len() * self.weights.data@.len() <= usize::MAX,
        ensures
            r@.len() == (if self.spin_node_groups@.len() > 0 {
                1int
            } else {
                0int
            }) + self.categorical_node_groups@.len(),
            self.spin_node_groups@.len() > 0 ==> spin_group_ok(*self, r@[0]),
            forall|k: int|
                (if self.spin_node_groups@.len() > 0 {
                    1int
                } else {
                    0int
                }) <= k < r@.len() ==> cat_group_ok(
                    *self,
                    k - (if self.spin_node_groups@.len() > 0 {
                        1int
                    } else {
                        0int
                    }),
                    #[trigger] r@[k],
                ),
    {
        let ghost spin = self.spin_node_groups@;
        let ghost cat = self.categorical_node_groups@;
        let ghost n = (spin + cat)[0]@.len();
        let ns = self.spin_node_groups.len();
        let nc = self.categorical_node_groups.len();
        let ghost tau = if groups_of_type(spin, NodeType::Spin) {
            NodeType::Spin
        } else {
            NodeType::Categorical
        };
        proof {
            assert(groups_of_len(spin + cat, n));
            assert(groups_of_len(spin, n)) by {
                assert forall|i: int| 0 <= i < spin.len() implies (#[trigger] spin[i])@.len() == n by {
                    assert((spin + cat)[i] == spin[i]);
                }
            }
            assert(groups_of_len(cat, n)) by {
                assert forall|i: int| 0 <= i < cat.len() implies (#[trigger] cat[i])@.len() == n by {
                    assert((spin + cat)[spin.len() + i] == cat[i]);
                }
            }
        }
        let mut groups: Vec<FactorInteractionGroup<T>> = Vec::new();
        if ns > 0 {
            // Head: every spin group in turn.
            let mut head: Vec<Node> = Vec::new();
            let mut i: usize = 0;
            while i < ns
                invariant
                    i <= ns,
                    ns == spin.len(),
                    spin == self.spin_node_groups@,
                    head@ == concat_nodes(spin.take(i as int)),
                decreases ns - i,
            {
                proof {
                    lemma_concat_take_step(spin, i as int);
                }
                extend_nodes(&mut head, &self.spin_node_groups[i]);
                i = i + 1;
            }
            proof {
                assert(spin.take(ns as int) =~= spin);
                lemma_concat_type(spin, tau);
                lemma_concat_len(spin, n);
            }
            let head_block = block_of(head);
            // Tails: the other spin groups, then every categorical group.
            let mut tails: Vec<Block> = Vec::new();
            let mut t: usize = 0;
            while t + 1 < ns
                invariant
                    t + 1 <= ns,
                    ns == spin.len(),
                    spin == self.spin_node_groups@,
                    groups_of_type(spin, tau),
                    groups_of_len(spin, n),
                    tails@.len() == t,
                    forall|q: int| 0 <= q < t ==> (#[trigger] tails@[q])@ == concat_nodes(spin_tail_groups(spin, q)),
                    forall|q: int| 0 <= q < t ==> (#[trigger] tails@[q])@.len() == ns * n,
                decreases ns - t,
            {
                let v = self.spin_tail_nodes(t);
                proof {
                    lemma_spin_tail_type(spin, t as int, tau);
                    lemma_concat_type(spin_tail_groups(spin, t as int), tau);
                    let g = spin_tail_groups(spin, t as int);
                    assert(groups_of_len(g, n)) by {
                        assert forall|i: int| 0 <= i < g.len() implies (#[trigger] g[i])@.len() == n by {
                            assert(g[i] == spin[skip_index(i, t as int)]);
                        }
                    }
                    lemma_concat_len(g, n);
                }
                tails.push(block_of(v));
                t = t + 1;
            }
            let mut j: usize = 0;
            while j < nc
                invariant
                    j <= nc,
                    ns == spin.len(),
                    nc == cat.len(),
                    ns > 0,
                    spin == self.spin_node_groups@,
                    cat == self.categorical_node_groups@,
                    groups_of_len(cat, n),
                    tails@.len() == ns - 1 + j,
                    forall|q: int| 0 <= q < ns - 1 ==> (#[trigger] tails@[q])@ == concat_nodes(spin_tail_groups(spin, q)),
                    forall|q: int|
                        ns - 1 <= q < ns - 1 + j ==> (#[trigger] tails@[q])@ == concat_nodes(
                            repeated_group(cat[q - (ns - 1)], ns as nat),
                        ),
                    forall|q: int| 0 <= q < ns - 1 + j ==> (#[trigger] tails@[q])@.len() == ns * n,
                decreases nc - j,
            {
                let ghost gs = repeated_group(cat[j as int], ns as nat);
                // The nodes of a block share one type.
                let _head_nodes = self.categorical_node_groups[j].nodes();
                assert(uniform_type(cat[j as int]@));
                let mut v: Vec<Node> = Vec::new();
                let mut i: usize = 0;
                while i < ns
                    invariant
                        i <= ns,
                        j < nc,
                        nc == cat.len(),
                        cat == self.categorical_node_groups@,
                        gs == repeated_group(cat[j as int], ns as nat),
                        v@ == concat_nodes(gs.take(i as int)),
                        uniform_type(cat[j as int]@),
                    decreases ns - i,
                {
                    proof {
                        lemma_concat_take_step(gs, i as int);
                    }
                    extend_nodes(&mut v, &self.categorical_node_groups[j]);
                    i = i + 1;
                }
                proof {
                    assert(gs.take(ns as int) =~= gs);
                    lemma_repeated_type(cat[j as int], ns as nat);
                    assert(groups_of_len(gs, n)) by {
                        assert forall|i: int| 0 <= i < gs.len() implies (#[trigger] gs[i])@.len() == n by {
                            assert(gs[i] == cat[j as int]);
                        }
                    }
                    lemma_concat_len(gs, n);
                }
                tails.push(block_of(v));
                j = j + 1;
            }
            let rep_weights = self.weights.tile_leading(ns);
            let interaction = DiscreteEBMInteraction::new(ns - 1, rep_weights);
            proof {
                assert(self.weights.shape@[0] == n);
                assert(tails_match_head(head_block@, tails@));
            }
            match FactorInteractionGroup::new(interaction, head_block, tails) {
                Ok(g) => {
                    groups.push(g);
                },
                Err(_) => {},
            }
        }
        let off: usize = if ns > 0 {
            1
        } else {
            0
        };
        let mut h: usize = 0;
        while h < nc
            invariant
                h <= nc,
                nc == cat.len(),
                ns == spin.len(),
                spin == self.spin_node_groups@,
                cat == self.categorical_node_groups@,
                self.wf(),
                groups_of_len(spin, n),
                groups_of_len(cat, n),
                off == (if ns > 0 {
                    1int
                } else {
                    0int
                }),
                groups@.len() == off + h,
                ns > 0 ==> spin_group_ok(*self, groups@[0]),
                forall|k: int| off <= k < off + h ==> cat_group_ok(*self, k - off, #[trigger] groups@[k]),
            decreases nc - h,
        {
            let head_nodes = self.categorical_node_groups[h].clone();
            let mut tails: Vec<Block> = Vec::new();
            let ghost want = spin + cat.remove(h as int);
            let mut i: usize = 0;
            while i < ns
                invariant
                    i <= ns,
                    ns == spin.len(),
                    spin == self.spin_node_groups@,
                    want == spin + cat.remove(h as int),
                    tails@.len() == i,
                    forall|q: int| 0 <= q < i ==> (#[trigger] tails@[q])@ == want[q]@,
                decreases ns - i,
            {
                tails.push(self.spin_node_groups[i].clone());
                i = i + 1;
            }
            let mut c: usize = 0;
            while c < nc
                invariant
                    c <= nc,
                    h < nc,
                    nc == cat.len(),
                    ns == spin.len(),
                    cat == self.categorical_node_groups@,
                    want == spin + cat.remove(h as int),
                    tails@.len() == ns + (if c <= h {
                        c as int
                    } else {
                        c - 1
                    }),
                    forall|q: int| 0 <= q < tails@.len() ==> (#[trigger] tails@[q])@ == want[q]@,
                decreases nc - c,
            {
                if c != h {
                    let ghost q = ns + (if c < h {
                        c as int
                    } else {
                        c - 1
                    });
                    assert(want[q] == cat[c as int]);
                    tails.push(self.categorical_node_groups[c].clone());
                }
                c = c + 1;
            }
            let weights_reind = self.permute_weights_for_categorical(h);
            let interaction = DiscreteEBMInteraction::new(ns, weights_reind);
            proof {
                assert(same_blocks(tails@, want));
                assert(tails_match_head(head_nodes@, tails@)) by {
                    assert forall|q: int| 0 <= q < tails@.len() implies (#[trigger] tails@[q])@.len() == head_nodes@.len() by {
                        if q < ns {
                            assert(want[q] == spin[q]);
                        } else {
                            assert(want[q] == cat.remove(h as int)[q - ns]);
                        }
                    }
                }
            }
            match FactorInteractionGroup::new(interaction, head_nodes, tails) {
                Ok(g) => {
                    groups.push(g);
                },
                Err(_) => {},
            }
            h = h + 1;
        }
        groups
    }
}


impl<T: Copy> DiscreteEBMFactor<T> {
    /// The terms of the factor's energy `E = -sum_b w[b] * s[b]` for given
    /// states: `w[b]` is the weight selected by the categorical states of
    /// batch entry `b` (all weights, flattened, when there is no categorical
    /// group) and `s` the spin product of the spin states (a single `1` when
    /// there is no spin group).
    pub fn energy_terms(&self, spin_vals: &Vec<Vec<bool>>, cat_vals: &Vec<Vec<usize>>) -> (r: (DenseTensor<T>, Vec<i8>))
        requires
            self.wf(),
            forall|j: int| 0 <= j < spin_vals@.len() ==> (#[trigger] spin_vals@[j])@.len() == spin_vals@[0]@.len(),
            cat_vals@.len() == 0 || valid_gather(self.weights.shape@, 1, cat_vals@),
        ensures
            cat_vals@.len() == 0 ==> r.0.data@ == self.weights.data@,
            cat_vals@.len() == 0 && self.categorical_node_groups@.len() == 0 ==> r.0.data@.len()
                == self.weights.shape@[0],
            cat_vals@.len() > 0 ==> r.0.data@.len() == self.weights.shape@[0] && forall|b: int|
                0 <= b < self.weights.shape@[0] ==> #[trigger] r.0.data@[b] == self.weights.at(
                    seq![b as usize] + index_column(cat_vals@, b),
                ),
            spin_vals@.len() == 0 ==> r.1@ == seq![1i8],
            spin_vals@.len() > 0 ==> r.1@.len() == spin_vals@[0]@.len() && forall|i: int|
                0 <= i < r.1@.len() ==> #[trigger] r.1@[i] as int == spin_prod_at(spin_vals@, i),
    {
        let signs = spin_product(spin_vals);
        let weights = batch_gather(&self.weights, cat_vals);
        proof {
            lemma_size_single(self.weights.shape@[0]);
            if self.categorical_node_groups@.len() == 0 {
                lemma_size_unit_tail(self.weights.shape@);
            }
        }
        (weights, signs)
    }
}

/// The precondition of `DiscreteEBMFactor::to_interaction_groups`.
pub open spec fn factor_ready<T>(f: DiscreteEBMFactor<T>) -> bool {
    &&& f.wf()
    &&& groups_of_type(f.spin_node_groups@, NodeType::Spin) || groups_of_type(
        f.spin_node_groups@,
        NodeType::Categorical,
    )
    &&& f.spin_node_groups@.len() * f.weights.shape@[0] <= usize::MAX
    &&& f.spin_node_groups@.len() * f.weights.data@.len() <= usize::MAX
}

/// The interaction groups that `to_interaction_groups` returns for `f`.
pub open spec fn groups_of_factor<T>(f: DiscreteEBMFactor<T>, r: Seq<FactorInteractionGroup<T>>) -> bool {
    let off = if f.spin_node_groups@.len() > 0 {
        1int
    } else {
        0int
    };
    &&& r.len() == off + f.categorical_node_groups@.len()
    &&& f.spin_node_groups@.len() > 0 ==> spin_group_ok(f, r[0])
    &&& forall|k: int| off <= k < r.len() ==> cat_group_ok(f, k - off, #[trigger] r[k])
}

impl<T: Copy> AbstractFactor<T> for DiscreteEBMFactor<T> {
    open spec fn ready_for_groups(&self) -> bool {
        factor_ready(*self)
    }

    open spec fn reported_groups(&self) -> Seq<Block> {
        self.spin_node_groups@
    }

    /// The spin node groups.
    fn node_groups(&self) -> (r: &[Block]) {
        self.spin_node_groups.as_slice()
    }

    fn to_interaction_groups(&self) -> (r: Vec<FactorInteractionGroup<T>>)
        ensures
            groups_of_factor(*self, r@),
    {
        self.interaction_groups()
    }
}

/// A discrete factor that involves only spin variables.
pub struct SpinEBMFactor<T> {
    inner: DiscreteEBMFactor<T>,
}

impl<T> SpinEBMFactor<T> {
    /// The underlying discrete factor.
    pub closed spec fn factor(self) -> DiscreteEBMFactor<T> {
        self.inner
    }

    /// A factor with the given spin groups and no categorical group; fails as
    /// `DiscreteEBMFactor::new` does.
    pub fn new(node_groups: Vec<Block>, weights: DenseTensor<T>) -> (r: Result<Self, String>)
        requires
            weights.wf(),
        ensures
            r is Err <==> factor_error(node_groups@, Seq::empty(), weights.shape@) is Some,
            r matches Err(e) ==> Some(e@) == factor_error(node_groups@, Seq::empty(), weights.shape@),
            r matches Ok(f) ==> f.factor().spin_node_groups@ == node_groups@ && f.factor().categorical_node_groups@
                == Seq::<Block>::empty() && f.factor().weights == weights && f.factor().wf(),
    {
        let inner = DiscreteEBMFactor::new(node_groups, Vec::new(), weights)?;
        Ok(SpinEBMFactor { inner })
    }

    pub fn inner(&self) -> (r: &DiscreteEBMFactor<T>)
        ensures
            *r == self.factor(),
    {
        &self.inner
    }
}

impl<T: Copy> AbstractFactor<T> for SpinEBMFactor<T> {
    open spec fn ready_for_groups(&self) -> bool {
        factor_ready(self.factor())
    }

    open spec fn reported_groups(&self) -> Seq<Block> {
        self.factor().spin_node_groups@
    }

    /// The spin node groups.
    fn node_groups(&self) -> (r: &[Block]) {
        self.inner.spin_node_groups.as_slice()
    }

    fn to_interaction_groups(&self) -> (r: Vec<FactorInteractionGroup<T>>)
        ensures
            groups_of_factor(self.factor(), r@),
    {
        self.inner.interaction_groups()
    }
}

/// A discrete factor that involves only categorical variables.
pub struct CategoricalEBMFactor<T> {
    inner: DiscreteEBMFactor<T>,
}

impl<T> CategoricalEBMFactor<T> {
    /// The underlying discrete factor.
    pub closed spec fn factor(self) -> DiscreteEBMFactor<T> {
        self.inner
    }

    /// A factor with the given categorical groups and no spin group; fails as
    /// `DiscreteEBMFactor::new` does.
    pub fn new(node_groups: Vec<Block>, weights: DenseTensor<T>) -> (r: Result<Self, String>)
        requires
            weights.wf(),
        ensures
            r is Err <==> factor_error(Seq::empty(), node_groups@, weights.shape@) is Some,
            r matches Err(e) ==> Some(e@) == factor_error(Seq::empty(), node_groups@, weights.shape@),
            r matches Ok(f) ==> f.factor().spin_node_groups@ == Seq::<Block>::empty()
                && f.factor().categorical_node_groups@ == node_groups@ && f.factor().weights == weights
                && f.factor().wf(),
    {
        let inner = DiscreteEBMFactor::new(Vec::new(), node_groups, weights)?;
        Ok(CategoricalEBMFactor { inner })
    }

    pub fn inner(&self) -> (r: &DiscreteEBMFactor<T>)
        ensures
            *r == self.factor(),
    {
        &self.inner
    }
}

impl<T: Copy> AbstractFactor<T> for CategoricalEBMFactor<T> {
    open spec fn ready_for_groups(&self) -> bool {
        factor_ready(self.factor())
    }

    open spec fn reported_groups(&self) -> Seq<Block> {
        self.factor().categorical_node_groups@
    }

    /// The categorical node groups.
    fn node_groups(&self) -> (r: &[Block]) {
        self.inner.categorical_node_groups.as_slice()
    }

    fn to_interaction_groups(&self) -> (r: Vec<FactorInteractionGroup<T>>)
        ensures
            groups_of_factor(self.factor(), r@),
    {
        self.inner.interaction_groups()
    }
}

/// All axes after the batch axis have the same dimension.
pub open spec fn is_square(shape: Seq<usize>) -> bool {
    shape.len() > 2 ==> forall|i: int| 1 <= i < shape.len() ==> #[trigger] shape[i] == shape[1]
}

/// A discrete factor with a square weight tensor `[b, x, x, ..., x]`.
pub struct SquareDiscreteEBMFactor<T> {
    inner: DiscreteEBMFactor<T>,
}

impl<T> SquareDiscreteEBMFactor<T> {
    /// The underlying discrete factor.
    pub closed spec fn factor(self) -> DiscreteEBMFactor<T> {
        self.inner
    }

    /// A square factor; an error when the weights are not square, otherwise
    /// as `DiscreteEBMFactor::new`.
    pub fn new(spin_node_groups: Vec<Block>, categorical_node_groups: Vec<Block>, weights: DenseTensor<T>) -> (r:
        Result<Self, String>)
        requires
            weights.wf(),
        ensures
            r is Err <==> !is_square(weights.shape@) || factor_error(
                spin_node_groups@,
                categorical_node_groups@,
                weights.shape@,
            ) is Some,
            r matches Err(e) ==> (!is_square(weights.shape@) ==> e@ == "Interaction tensor is not square"@) && (
            is_square(weights.shape@) ==> Some(e@) == factor_error(
                spin_node_groups@,
                categorical_node_groups@,
                weights.shape@,
            )),
            r matches Ok(f) ==> f.factor().spin_node_groups@ == spin_node_groups@
                && f.factor().categorical_node_groups@ == categorical_node_groups@ && f.factor().weights == weights
                && f.factor().wf() && is_square(weights.shape@),
    {
        let rank = weights.shape.len();
        if rank > 2 {
            let target = weights.shape[1];
            let mut i: usize = 1;
            while i < rank
                invariant
                    1 <= i <= rank,
                    rank == weights.shape@.len(),
                    rank > 2,
                    target == weights.shape@[1],
                    forall|q: int| 1 <= q < i ==> #[trigger] weights.shape@[q] == target,
                decreases rank - i,
            {
                if weights.shape[i] != target {
                    assert(!is_square(weights.shape@)) by {
                        assert(weights.shape@[i as int] != weights.shape@[1]);
                    }
                    return Err("Interaction tensor is not square".to_string());
                }
                i = i + 1;
            }
        }
        let inner = DiscreteEBMFactor::new(spin_node_groups, categorical_node_groups, weights)?;
        Ok(SquareDiscreteEBMFactor { inner })
    }

    pub fn inner(&self) -> (r: &DiscreteEBMFactor<T>)
        ensures
            *r == self.factor(),
    {
        &self.inner
    }
}

impl<T: Copy> AbstractFactor<T> for SquareDiscreteEBMFactor<T> {
    open spec fn ready_for_groups(&self) -> bool {
        factor_ready(self.factor())
    }

    open spec fn reported_groups(&self) -> Seq<Block> {
        self.factor().spin_node_groups@
    }

    /// The spin node groups.
    fn node_groups(&self) -> (r: &[Block]) {
        self.inner.spin_node_groups.as_slice()
    }

    /// The groups of the underlying factor; groups with different heads are not merged.
    fn to_interaction_groups(&self) -> (r: Vec<FactorInteractionGroup<T>>)
        ensures
            groups_of_factor(self.factor(), r@),
    {
        self.inner.interaction_groups()
    }
}

/// A discrete factor with only categorical variables and a square weight tensor.
pub struct SquareCategoricalEBMFactor<T> {
    inner: SquareDiscreteEBMFactor<T>,
}

impl<T> SquareCategoricalEBMFactor<T> {
    /// The underlying discrete factor.
    pub closed spec fn factor(self) -> DiscreteEBMFactor<T> {
        self.inner.factor()
    }

    /// A square factor with the given categorical groups and no spin group;
    /// fails as `SquareDiscreteEBMFactor::new` does.
    pub fn new(node_groups: Vec<Block>, weights: DenseTensor<T>) -> (r: Result<Self, String>)
        requires
            weights.wf(),
        ensures
            r is Err <==> !is_square(weights.shape@) || factor_error(Seq::empty(), node_groups@, weights.shape@) is Some,
            r matches Err(e) ==> (!is_square(weights.shape@) ==> e@ == "Interaction tensor is not square"@) && (
            is_square(weights.shape@) ==> Some(e@) == factor_error(Seq::empty(), node_groups@, weights.shape@)),
            r matches Ok(f) ==> f.factor().spin_node_groups@ == Seq::<Block>::empty()
                && f.factor().categorical_node_groups@ == node_groups@ && f.factor().weights == weights
                && f.factor().wf() && is_square(weights.shape@),
    {
        let inner = SquareDiscreteEBMFactor::new(Vec::new(), node_groups, weights)?;
        Ok(SquareCategoricalEBMFactor { inner })
    }

    /// The underlying discrete factor.
    pub fn inner(&self) -> (r: &DiscreteEBMFactor<T>)
        ensures
            *r == self.factor(),
    {
        self.inner.inner()
    }
}

impl<T: Copy> AbstractFactor<T> for SquareCategoricalEBMFactor<T> {
    open spec fn ready_for_groups(&self) -> bool {
        factor_ready(self.factor())
    }

    open spec fn reported_groups(&self) -> Seq<Block> {
        self.factor().categorical_node_groups@
    }

    /// The categorical node groups.
    fn node_groups(&self) -> (r: &[Block]) {
        self.inner.inner.categorical_node_groups.as_slice()
    }

    fn to_interaction_groups(&self) -> (r: Vec<FactorInteractionGroup<T>>)
        ensures
            groups_of_factor(self.factor(), r@),
    {
        self.inner.inner.interaction_groups()
    }
}

} // verus!
