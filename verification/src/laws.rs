//! Properties of the library that relate several of its operations.

use vstd::prelude::*;
use crate::discrete_ebm::{
    cat_group_ok, concat_nodes, factor_error, is_square, SquareDiscreteEBMFactor, factor_ready, groups_of_factor, groups_of_len, lemma_concat_len,
    repeated_group, same_blocks, skip_index, spin_group_ok, spin_prod_at, spin_sign, spin_tail_groups,
    DiscreteEBMFactor,
};
use crate::factor::FactorInteractionGroup;
use crate::interaction::tails_match_head;
use crate::shape::{lemma_offset_pair, lemma_size_single, offset, shape_size};
use crate::blockspec::{
    block_positions, block_sd, blocks_placed, list_offset, locatable, lookup, spec_consistent, BlockSpec,
};
use crate::state_tree::{gathered, global_entry, global_ready, nonempty_slices, selected_from, stacked_from, StateLeaf};
use crate::tensor::{data_concat, flat_pos, leading_sum, moved_axis_from, pos4, DenseTensor};
use crate::block::Block;

verus! {

/// Every position below `n0 * n1 * n2` is `(i0 * n1 + i1) * n2 + i2` for
/// indices within the dimensions.
proof fn lemma_decompose3(q: int, n0: int, n1: int, n2: int) -> (r: (int, int, int))
    requires
        0 <= q < n0 * n1 * n2,
        n1 > 0,
        n2 > 0,
    ensures
        0 <= r.0 < n0,
        0 <= r.1 < n1,
        0 <= r.2 < n2,
        q == (r.0 * n1 + r.1) * n2 + r.2,
{
    let i2 = q % n2;
    let t = q / n2;
    let i1 = t % n1;
    let i0 = t / n1;
    vstd::arithmetic::div_mod::lemma_fundamental_div_mod(q, n2);
    vstd::arithmetic::div_mod::lemma_fundamental_div_mod(t, n1);
    vstd::arithmetic::div_mod::lemma_mod_bound(q, n2);
    vstd::arithmetic::div_mod::lemma_mod_bound(t, n1);
    assert(t >= 0 && i0 >= 0) by (nonlinear_arith)
        requires
            q >= 0,
            n2 > 0,
            n1 > 0,
            t == q / n2,
            i0 == t / n1,
    ;
    assert(i0 < n0) by (nonlinear_arith)
        requires
            q < n0 * n1 * n2,
            q == n2 * t + i2,
            t == n1 * i0 + i1,
            0 <= i2 < n2,
            0 <= i1 < n1,
            i0 >= 0,
    ;
    assert(q == (i0 * n1 + i1) * n2 + i2) by (nonlinear_arith)
        requires
            q == n2 * t + i2,
            t == n1 * i0 + i1,
    ;
    (i0, i1, i2)
}

/// Moving axis 1 to position 1 changes nothing: the shape and the elements
/// stay as they are.
pub proof fn law_move_axis_one_is_identity<T>(src: DenseTensor<T>, r: DenseTensor<T>)
    requires
        src.wf(),
        src.shape@.len() >= 2,
        moved_axis_from(src, 1, r),
    ensures
        r.shape@ == src.shape@,
        r.data@ == src.data@,
{
    let s = src.shape@;
    assert(s.subrange(1, 1) =~= Seq::<usize>::empty());
    assert(seq![s[0], s[1]] + s.subrange(1, 1) + s.subrange(2, s.len() as int) =~= s);
    let b0 = s[0] as int;
    let x0 = s[1] as int;
    let c0 = shape_size(s.subrange(2, s.len() as int)) as int;
    assert(shape_size(s.subrange(1, 1)) == 1);
    crate::shape::lemma_size_split3(s, 1, 2);
    assert(s.subrange(0, 1) =~= seq![s[0]]);
    assert(s.subrange(1, 2) =~= seq![s[1]]);
    lemma_size_single(s[0]);
    lemma_size_single(s[1]);
    assert(src.data@.len() == b0 * x0 * c0);
    assert forall|q: int| 0 <= q < r.data@.len() implies r.data@[q] == src.data@[q] by {
        crate::shape::lemma_size_nonzero(s);
        assert(s[1] >= 1);
        let tail = s.subrange(2, s.len() as int);
        assert(crate::shape::all_positive(tail)) by {
            assert forall|k: int| 0 <= k < tail.len() implies #[trigger] tail[k] >= 1 by {
                assert(s[2 + k] >= 1);
            }
        }
        crate::shape::lemma_size_positive(tail);
        let (b, x, c) = lemma_decompose3(q, b0, x0, c0);
        assert(pos4(b, x, 0, c, x0, 1, c0) == q) by (nonlinear_arith)
            requires
                q == (b * x0 + x) * c0 + c,
        ;
        assert(pos4(b, 0, x, c, 1, x0, c0) == q) by (nonlinear_arith)
            requires
                q == (b * x0 + x) * c0 + c,
        ;
    }
    assert(r.data@ =~= src.data@);
}

/// On a three-axis tensor, moving axis 2 to position 1 transposes the two
/// trailing axes: element `[b, j, i]` of the result is element `[b, i, j]`.
pub proof fn law_move_last_of_three_transposes<T>(src: DenseTensor<T>, r: DenseTensor<T>)
    requires
        src.wf(),
        src.shape@.len() == 3,
        moved_axis_from(src, 2, r),
    ensures
        r.shape@ == seq![src.shape@[0], src.shape@[2], src.shape@[1]],
        forall|b: usize, i: usize, j: usize|
            b < src.shape@[0] && i < src.shape@[1] && j < src.shape@[2] ==> #[trigger] at3(r, b, j, i) == at3(
                src,
                b,
                i,
                j,
            ),
{
    let s = src.shape@;
    assert(s.subrange(1, 2) =~= seq![s[1]]);
    assert(s.subrange(3, 3) =~= Seq::<usize>::empty());
    assert(seq![s[0], s[2]] + s.subrange(1, 2) + s.subrange(3, 3) =~= seq![s[0], s[2], s[1]]);
    lemma_size_single(s[1]);
    assert(shape_size(s.subrange(3, 3)) == 1);
    assert forall|b: usize, i: usize, j: usize| b < s[0] && i < s[1] && j < s[2] implies #[trigger] at3(r, b, j, i)
        == at3(src, b, i, j) by {
        let rs = seq![s[0], s[2], s[1]];
        lemma_offset_three(rs, seq![b, j, i]);
        lemma_offset_three(s, seq![b, i, j]);
        assert(pos4(b as int, j as int, i as int, 0, s[2] as int, s[1] as int, 1) == ((b * s[2] + j) * s[1] + i) as int)
            by (nonlinear_arith);
        assert(pos4(b as int, i as int, j as int, 0, s[1] as int, s[2] as int, 1) == ((b * s[1] + i) * s[2] + j) as int)
            by (nonlinear_arith);
    }
}

/// The element at `[i0, i1, i2]`.
pub open spec fn at3<T>(t: DenseTensor<T>, i0: usize, i1: usize, i2: usize) -> T {
    t.at(seq![i0, i1, i2])
}

/// Row-major offset on three axes.
proof fn lemma_offset_three(s: Seq<usize>, x: Seq<usize>)
    requires
        s.len() == 3,
        x.len() == 3,
    ensures
        offset(s, x) == ((x[0] as nat) * (s[1] as nat) + (x[1] as nat)) * (s[2] as nat) + (x[2] as nat),
{
    assert(s.drop_last() =~= seq![s[0], s[1]]);
    assert(x.drop_last() =~= seq![x[0], x[1]]);
    lemma_offset_pair(s[0], s[1], x[0], x[1]);
}

/// Stacking a single leaf gives back that leaf.
pub proof fn law_stack_single<T>(t: DenseTensor<T>, r: DenseTensor<T>)
    requires
        t.wf(),
        t.shape@.len() >= 1,
        stacked_from(seq![t], r),
    ensures
        r.shape@ == t.shape@,
        r.data@ == t.data@,
{
    let ts = seq![t];
    assert(ts.drop_last() =~= Seq::<DenseTensor<T>>::empty());
    assert(ts.last() == t);
    assert(leading_sum(ts.drop_last()) == 0);
    assert(data_concat(ts.drop_last()) =~= Seq::<T>::empty());
    assert(leading_sum(ts) == t.shape@[0]);
    assert(data_concat(ts) =~= t.data@);
    assert(seq![t.shape@[0]] + t.shape@.skip(1) =~= t.shape@);
}

/// A spin product is `+1` or `-1`.
pub proof fn law_spin_prod_is_unit(vals: Seq<Vec<bool>>, i: int)
    ensures
        spin_prod_at(vals, i) == 1 || spin_prod_at(vals, i) == -1,
    decreases vals.len(),
{
    if vals.len() > 0 {
        law_spin_prod_is_unit(vals.drop_last(), i);
        let p = spin_prod_at(vals.drop_last(), i);
        if vals.last()@[i] {
            assert(p * spin_sign(vals.last()@[i]) == p * 1);
        } else {
            assert(p * spin_sign(vals.last()@[i]) == p * -1);
        }
    }
}

/// Every interaction group of a factor passes the checks of
/// `FactorInteractionGroup::new`: its tail blocks are as long as its head
/// block, and so is the leading axis of its weights.
pub proof fn law_factor_groups_consistent<T>(f: DiscreteEBMFactor<T>, r: Seq<FactorInteractionGroup<T>>)
    requires
        factor_ready(f),
        groups_of_factor(f, r),
    ensures
        forall|k: int|
            0 <= k < r.len() ==> tails_match_head((#[trigger] r[k]).head_nodes@, r[k].tail_nodes@)
                && r[k].interaction.weights.shape@[0] == r[k].head_nodes@.len(),
{
    let spin = f.spin_node_groups@;
    let cat = f.categorical_node_groups@;
    let ns = spin.len();
    let n = (spin + cat)[0]@.len();
    assert(groups_of_len(spin + cat, n));
    assert(groups_of_len(spin, n)) by {
        assert forall|i: int| 0 <= i < spin.len() implies (#[trigger] spin[i])@.len() == n by {
            assert((spin + cat)[i] == spin[i]);
        }
    }
    assert(groups_of_len(cat, n)) by {
        assert forall|i: int| 0 <= i < cat.len() implies (#[trigger] cat[i])@.len() == n by {
            assert((spin + cat)[spin.len() + i] == cat[i]);
        }
    }
    let off = if ns > 0 {
        1int
    } else {
        0int
    };
    assert forall|k: int| 0 <= k < r.len() implies tails_match_head((#[trigger] r[k]).head_nodes@, r[k].tail_nodes@)
        && r[k].interaction.weights.shape@[0] == r[k].head_nodes@.len() by {
        if ns > 0 && k == 0 {
            let g = r[0];
            assert(spin_group_ok(f, g));
            lemma_concat_len(spin, n);
            assert forall|t: int| 0 <= t < g.tail_nodes@.len() implies (#[trigger] g.tail_nodes@[t])@.len()
                == g.head_nodes@.len() by {
                if t < ns - 1 {
                    let gs = spin_tail_groups(spin, t);
                    assert(groups_of_len(gs, n)) by {
                        assert forall|i: int| 0 <= i < gs.len() implies (#[trigger] gs[i])@.len() == n by {
                            assert(gs[i] == spin[skip_index(i, t)]);
                        }
                    }
                    lemma_concat_len(gs, n);
                } else {
                    let gs = repeated_group(cat[t - (ns - 1)], ns as nat);
                    assert(groups_of_len(gs, n)) by {
                        assert forall|i: int| 0 <= i < gs.len() implies (#[trigger] gs[i])@.len() == n by {
                            assert(gs[i] == cat[t - (ns - 1)]);
                        }
                    }
                    lemma_concat_len(gs, n);
                }
            }
            assert(f.weights.shape@[0] == n);
        } else {
            let h = k - off;
            assert(cat_group_ok(f, h, r[k]));
            let g = r[k];
            let want = spin + cat.remove(h);
            assert forall|t: int| 0 <= t < g.tail_nodes@.len() implies (#[trigger] g.tail_nodes@[t])@.len()
                == g.head_nodes@.len() by {
                assert(same_blocks(g.tail_nodes@, want));
                assert(g.tail_nodes@[t]@ == want[t]@);
                if t < ns {
                    assert(want[t] == spin[t]);
                } else {
                    assert(want[t] == cat.remove(h)[t - ns]);
                }
            }
        }
    }
}


/// Without empty lists, the non-empty lists are all the lists.
proof fn lemma_nonempty_slices_all(ss: Seq<Vec<usize>>)
    requires
        forall|s: int| 0 <= s < ss.len() ==> (#[trigger] ss[s])@.len() > 0,
    ensures
        nonempty_slices(ss).len() == ss.len(),
        forall|s: int| 0 <= s < ss.len() ==> #[trigger] nonempty_slices(ss)[s] == ss[s]@,
    decreases ss.len(),
{
    if ss.len() > 0 {
        let p = ss.drop_last();
        assert forall|s: int| 0 <= s < p.len() implies (#[trigger] p[s])@.len() > 0 by {
            assert(p[s] == ss[s]);
        }
        lemma_nonempty_slices_all(p);
        assert(ss.last() == ss[ss.len() - 1]);
        assert forall|s: int| 0 <= s < ss.len() implies #[trigger] nonempty_slices(ss)[s] == ss[s]@ by {
            if s < ss.len() - 1 {
                assert(nonempty_slices(p)[s] == p[s]@);
            }
        }
    }
}

/// Element `a` of the `m`-th tensor sits after the elements of the tensors before it.
proof fn lemma_data_concat_index<T>(ts: Seq<DenseTensor<T>>, m: int, a: int)
    requires
        0 <= m < ts.len(),
        0 <= a < ts[m].data@.len(),
    ensures
        data_concat(ts.take(m)).len() + a < data_concat(ts).len(),
        data_concat(ts)[data_concat(ts.take(m)).len() + a] == ts[m].data@[a],
    decreases ts.len(),
{
    let p = ts.drop_last();
    assert(data_concat(ts) == data_concat(p) + ts.last().data@);
    if m == ts.len() - 1 {
        assert(ts.take(m) =~= p);
    } else {
        assert(p.take(m) =~= ts.take(m));
        assert(p[m] == ts[m]);
        lemma_data_concat_index(p, m, a);
    }
}

/// For block states as long as their blocks, with `width` elements in each
/// slice along the leading axis, the blocks `idx[0..m]` of a list hold
/// `list_offset` slices and `list_offset * width` elements.
proof fn lemma_list_offset_rows<T>(blocks: Seq<Block>, state: Seq<DenseTensor<T>>, idx: Seq<usize>, m: int, width: nat)
    requires
        0 <= m <= idx.len(),
        forall|q: int| 0 <= q < idx.len() ==> #[trigger] idx[q] < state.len(),
        state.len() == blocks.len(),
        forall|q: int|
            0 <= q < idx.len() ==> (#[trigger] gathered(state, idx)[q]).shape@.len() >= 1 && gathered(state, idx)[q].shape@[0]
                == blocks[idx[q] as int]@.len() && gathered(state, idx)[q].data@.len() == blocks[idx[q] as int]@.len()
                * width,
    ensures
        leading_sum(gathered(state, idx).take(m)) == list_offset(blocks, idx, m),
        data_concat(gathered(state, idx).take(m)).len() == list_offset(blocks, idx, m) * width,
    decreases m,
{
    let g = gathered(state, idx);
    if m > 0 {
        lemma_list_offset_rows(blocks, state, idx, m - 1, width);
        assert(g.take(m).drop_last() =~= g.take(m - 1));
        assert(g.take(m).last() == g[m - 1]);
        let a = list_offset(blocks, idx, m - 1);
        let b = blocks[idx[m - 1] as int]@.len();
        assert(g[m - 1].data@.len() == b * width);
        assert(data_concat(g.take(m)) == data_concat(g.take(m - 1)) + g[m - 1].data@);
        assert((a + b) * width == a * width + b * width) by (nonlinear_arith);
    } else {
        assert(g.take(0) =~= Seq::<DenseTensor<T>>::empty());
        assert(list_offset(blocks, idx, 0) == 0);
        assert(0 * width == 0);
    }
}

/// Selecting the consecutive slices `off, off + 1, ...` of `g` gives back
/// `st` when `g` holds the elements of `st` from slice `off` on.
proof fn lemma_select_consecutive<T>(g: DenseTensor<T>, st: DenseTensor<T>, off: int, pos: Seq<usize>, r: DenseTensor<T>)
    requires
        g.wf(),
        st.wf(),
        g.shape@.len() >= 1,
        st.shape@.len() >= 1,
        g.shape@.skip(1) == st.shape@.skip(1),
        pos.len() == st.shape@[0],
        off >= 0,
        forall|a: int| 0 <= a < pos.len() ==> #[trigger] pos[a] == off + a,
        forall|i: int| 0 <= i < st.data@.len() ==> g.data@[off * st.row_size() + i] == #[trigger] st.data@[i],
        selected_from(g, pos, r),
    ensures
        r.shape@ == st.shape@,
        r.data@ == st.data@,
{
    let w = st.row_size() as int;
    let n = st.shape@[0] as int;
    assert(st.shape@ =~= seq![st.shape@[0]] + st.shape@.skip(1));
    assert(r.shape@ =~= st.shape@);
    crate::tensor::lemma_rows(st);
    assert(g.row_size() == st.row_size());
    assert forall|i: int| 0 <= i < st.data@.len() implies r.data@[i] == st.data@[i] by {
        assert(w > 0) by (nonlinear_arith)
            requires
                0 <= i < n * w,
                n >= 0,
                w >= 0,
        ;
        let a = i / w;
        let c = i % w;
        vstd::arithmetic::div_mod::lemma_fundamental_div_mod(i, w);
        vstd::arithmetic::div_mod::lemma_mod_bound(i, w);
        assert(0 <= a < n) by (nonlinear_arith)
            requires
                i == w * a + c,
                0 <= c < w,
                0 <= i < n * w,
        ;
        assert(flat_pos(a, c, w) == i) by (nonlinear_arith)
            requires
                i == w * a + c,
        ;
        assert(pos[a] == off + a);
        assert(flat_pos(pos[a] as int, c, w) == off * w + i) by (nonlinear_arith)
            requires
                pos[a] == off + a,
                i == w * a + c,
        ;
        assert(r.data@[flat_pos(a, c, w)] == g.data@[flat_pos(pos[a] as int, c, w)]);
    }
    assert(r.data@ =~= st.data@);
}

/// Reading a block back from the global state gives its block state: after
/// `block_state_to_global` on block states whose leading axis runs over the
/// nodes of their blocks, with a block spec as `BlockSpec::new` builds it,
/// `from_global_state` can extract every non-empty block of the spec, and
/// what it extracts is that block's state, whatever its trailing axes.
pub proof fn law_global_round_trip<T: Copy>(
    spec: BlockSpec,
    state: Seq<DenseTensor<T>>,
    global: Seq<DenseTensor<T>>,
    k: int,
)
    requires
        spec_consistent(spec),
        blocks_placed(spec),
        state.len() == spec.blocks@.len(),
        forall|q: int|
            0 <= q < state.len() ==> (#[trigger] state[q]).wf() && state[q].shape@.len() >= 1 && state[q].shape@[0]
                == spec.blocks@[q]@.len(),
        global_ready(state, spec.block_to_global_slice_spec@),
        global.len() == nonempty_slices(spec.block_to_global_slice_spec@).len(),
        forall|q: int|
            0 <= q < global.len() ==> global_entry(
                state,
                nonempty_slices(spec.block_to_global_slice_spec@)[q],
                #[trigger] global[q],
            ),
        0 <= k < spec.blocks@.len(),
        spec.blocks@[k]@.len() > 0,
    ensures
        ({
            let nodes = spec.blocks@[k]@;
            let locs = spec.node_locations@;
            let sd = block_sd(locs, nodes) as int;
            &&& locatable(locs, nodes)
            &&& sd < global.len()
            &&& global[sd].can_take(block_positions(locs, nodes))
            &&& forall|r: DenseTensor<T>|
                #[trigger] selected_from(global[sd], block_positions(locs, nodes), r) ==> r.shape@ == state[k].shape@
                    && r.data@ == state[k].data@
        }),
{
    let ss = spec.block_to_global_slice_spec@;
    let blocks = spec.blocks@;
    let locs = spec.node_locations@;
    assert(blocks[k]@.len() > 0);
    let (s, m) = choose|s: int, m: int| 0 <= s < ss.len() && 0 <= m < ss[s]@.len() && ss[s]@[m] == k;
    let idx = ss[s]@;
    let nodes = blocks[k]@;
    let off = list_offset(blocks, idx, m);
    lemma_nonempty_slices_all(ss);
    assert(nonempty_slices(ss)[s] == idx);
    // Locations of the block's nodes.
    assert forall|a: int| 0 <= a < nodes.len() implies #[trigger] lookup(locs, nodes[a]) is Some && lookup(
        locs,
        nodes[a],
    ).unwrap().0 == s && lookup(locs, nodes[a]).unwrap().1 == off + a by {
        let l = lookup(locs, blocks[ss[s]@[m] as int]@[a]);
        assert(l is Some);
    }
    assert(lookup(locs, nodes[0]).unwrap().0 == s);
    assert(locatable(locs, nodes));
    let pos = block_positions(locs, nodes);
    assert forall|a: int| 0 <= a < pos.len() implies #[trigger] pos[a] == off + a by {
        assert(lookup(locs, nodes[a]).unwrap().1 == off + a);
    }
    let g = global[s];
    assert(global_entry(state, idx, g));
    assert forall|q: int| 0 <= q < idx.len() implies #[trigger] idx[q] < state.len() by {
        assert(ss[s]@[q] < blocks.len());
    }
    let gs = gathered(state, idx);
    let st = state[k];
    assert(gs[m] == st);
    crate::tensor::lemma_rows(st);
    let w = st.row_size();
    // The entry holds the block's state from slice `off` on.
    if idx.len() == 1 {
        assert(m == 0);
        assert(off == 0);
        assert(g.shape@ == st.shape@ && g.data@ == st.data@);
        assert(g.wf());
        assert forall|i: int| 0 <= i < st.data@.len() implies g.data@[off * w + i] == #[trigger] st.data@[i] by {
            assert(off * w == 0) by (nonlinear_arith)
                requires
                    off == 0,
            ;
        }
    } else {
        assert(DenseTensor::stackable(gs));
        assert(stacked_from(gs, g));
        assert(gs[m].shape@.skip(1) == gs[0].shape@.skip(1));
        assert forall|q: int| 0 <= q < idx.len() implies (#[trigger] gs[q]).shape@.len() >= 1 && gs[q].shape@[0]
            == blocks[idx[q] as int]@.len() && gs[q].data@.len() == blocks[idx[q] as int]@.len() * w by {
            assert(gs[q] == state[idx[q] as int]);
            assert(gs[q].shape@.skip(1) == gs[0].shape@.skip(1));
            crate::tensor::lemma_rows(gs[q]);
        }
        lemma_list_offset_rows(blocks, state, idx, m, w);
        lemma_list_offset_rows(blocks, state, idx, m + 1, w);
        crate::tensor::lemma_leading_sum_prefix(gs, m + 1);
        assert(g.shape@.skip(1) =~= gs[0].shape@.skip(1));
        assert forall|i: int| 0 <= i < st.data@.len() implies g.data@[off * w + i] == #[trigger] st.data@[i] by {
            lemma_data_concat_index(gs, m, i);
        }
    }
    assert(g.shape@.len() >= 1);
    assert forall|a: int| 0 <= a < pos.len() implies #[trigger] pos[a] < g.shape@[0] by {
        if idx.len() > 1 {
            crate::tensor::lemma_leading_sum_prefix(gs, m + 1);
            lemma_list_offset_rows(blocks, state, idx, m + 1, w);
        }
    }
    assert(g.can_take(pos));
    assert forall|r: DenseTensor<T>| #[trigger] selected_from(g, pos, r) implies r.shape@ == st.shape@ && r.data@
        == st.data@ by {
        lemma_select_consecutive(g, st, off as int, pos, r);
    }
}

/// Number of false spins among `vals[0][i], vals[1][i], ...`.
pub open spec fn false_count(vals: Seq<Vec<bool>>, i: int) -> nat
    decreases vals.len(),
{
    if vals.len() == 0 {
        0
    } else {
        false_count(vals.drop_last(), i) + (if vals.last()@[i] {
            0nat
        } else {
            1nat
        })
    }
}

proof fn lemma_spin_prod_parity(vals: Seq<Vec<bool>>, i: int)
    ensures
        spin_prod_at(vals, i) == (if false_count(vals, i) % 2 == 0 {
            1int
        } else {
            -1int
        }),
    decreases vals.len(),
{
    if vals.len() > 0 {
        lemma_spin_prod_parity(vals.drop_last(), i);
    }
}

/// Spins multiply as signs, true as `+1` and false as `-1`: the product at a
/// position is `+1` exactly when an even number of the spins there are false,
/// and `-1` otherwise; with a single spin vector it is `+1` exactly where the
/// spin is true.
pub proof fn law_spin_product_signs(vals: Seq<Vec<bool>>, r: Seq<i8>)
    requires
        vals.len() > 0,
        r.len() == vals[0]@.len(),
        forall|i: int| 0 <= i < r.len() ==> #[trigger] r[i] as int == spin_prod_at(vals, i),
    ensures
        forall|i: int| 0 <= i < r.len() ==> (#[trigger] r[i] == 1i8 <==> false_count(vals, i) % 2 == 0),
        forall|i: int| 0 <= i < r.len() ==> (#[trigger] r[i] == 1i8 || r[i] == -1i8),
        vals.len() == 1 ==> forall|i: int| 0 <= i < r.len() ==> (#[trigger] r[i] == 1i8 <==> vals[0]@[i]),
        vals.len() == 1 ==> forall|i: int| 0 <= i < r.len() ==> (#[trigger] r[i] == -1i8 <==> !vals[0]@[i]),
{
    assert forall|i: int| 0 <= i < r.len() implies (#[trigger] r[i] == 1i8 <==> false_count(vals, i) % 2 == 0) && (
    r[i] == 1i8 || r[i] == -1i8) by {
        lemma_spin_prod_parity(vals, i);
    }
    if vals.len() == 1 {
        assert(vals.drop_last() =~= Seq::<Vec<bool>>::empty());
        assert(vals.last() == vals[0]);
        assert forall|i: int| 0 <= i < r.len() implies (#[trigger] r[i] == 1i8 <==> vals[0]@[i]) && (r[i] == -1i8
            <==> !vals[0]@[i]) by {
            lemma_spin_prod_parity(vals, i);
            assert(false_count(vals.drop_last(), i) == 0);
        }
    }
}

/// Node `a` of block `i` sits at position `i * n + a` of the concatenated
/// nodes when every block holds `n` nodes.
proof fn lemma_concat_index(groups: Seq<Block>, n: nat, i: int, a: int)
    requires
        groups_of_len(groups, n),
        0 <= i < groups.len(),
        0 <= a < n,
    ensures
        i * n + a < concat_nodes(groups).len(),
        concat_nodes(groups)[i * n + a] == groups[i]@[a],
    decreases groups.len(),
{
    let p = groups.drop_last();
    assert(groups_of_len(p, n)) by {
        assert forall|q: int| 0 <= q < p.len() implies (#[trigger] p[q])@.len() == n by {
            assert(p[q] == groups[q]);
        }
    }
    lemma_concat_len(p, n);
    lemma_concat_len(groups, n);
    assert(groups.last() == groups[groups.len() - 1]);
    assert(groups[groups.len() - 1]@.len() == n);
    if i == groups.len() - 1 {
        assert(i * n + a == p.len() * n + a);
    } else {
        lemma_concat_index(p, n, i, a);
        assert(p[i] == groups[i]);
        assert(i * n + a < p.len() * n) by (nonlinear_arith)
            requires
                0 <= i < p.len(),
                0 <= a < n,
        ;
    }
    assert(i * n + a < groups.len() * n) by (nonlinear_arith)
        requires
            0 <= i < groups.len(),
            0 <= a < n,
    ;
}

/// The spin-headed interaction group: with `n` nodes per group, position
/// `i * n + a` of the head is node `a` of spin group `i`; at that position
/// tail `t` (for `t` below the number of spin groups less one) holds node `a`
/// of the spin group that comes `t`-th among the spin groups other than `i`,
/// and the tails after those hold node `a` of each categorical group in
/// turn. The group has one spin tail fewer than there are spin groups, and
/// its weights are the factor's weights repeated once per spin group.
pub proof fn law_spin_head_group<T>(f: DiscreteEBMFactor<T>, r: Seq<FactorInteractionGroup<T>>)
    requires
        factor_ready(f),
        groups_of_factor(f, r),
        f.spin_node_groups@.len() > 0,
    ensures
        ({
            let spin = f.spin_node_groups@;
            let cat = f.categorical_node_groups@;
            let ns = spin.len();
            let n = spin[0]@.len();
            let g = r[0];
            let len = f.weights.data@.len();
            &&& g.head_nodes@.len() == ns * n
            &&& forall|i: int, a: int| 0 <= i < ns && 0 <= a < n ==> #[trigger] g.head_nodes@[i * n + a] == spin[i]@[a]
            &&& g.tail_nodes@.len() == ns - 1 + cat.len()
            &&& forall|t: int| 0 <= t < g.tail_nodes@.len() ==> (#[trigger] g.tail_nodes@[t])@.len() == ns * n
            &&& forall|t: int, i: int, a: int|
                0 <= t < ns - 1 && 0 <= i < ns && 0 <= a < n && t < i ==> #[trigger] g.tail_nodes@[t]@[i * n + a]
                    == spin[t]@[a]
            &&& forall|t: int, i: int, a: int|
                0 <= t < ns - 1 && 0 <= i < ns && 0 <= a < n && i <= t ==> #[trigger] g.tail_nodes@[t]@[i * n + a]
                    == spin[t + 1]@[a]
            &&& forall|j: int, i: int, a: int|
                0 <= j < cat.len() && 0 <= i < ns && 0 <= a < n ==> #[trigger] g.tail_nodes@[ns - 1 + j]@[i * n + a]
                    == cat[j]@[a]
            &&& g.interaction.n_spin == ns - 1
            &&& g.interaction.weights.shape@[0] == ns * f.weights.shape@[0]
            &&& g.interaction.weights.data@.len() == ns * len
            &&& forall|t: int, q: int| 0 <= t < ns && 0 <= q < len ==> #[trigger] g.interaction.weights.data@[t * len + q] == f.weights.data@[q]
        }),
{
    let spin = f.spin_node_groups@;
    let cat = f.categorical_node_groups@;
    let ns = spin.len();
    let n = spin[0]@.len();
    let g = r[0];
    assert(spin_group_ok(f, g));
    assert((spin + cat)[0] == spin[0]);
    assert(groups_of_len(spin + cat, n));
    assert(groups_of_len(spin, n)) by {
        assert forall|i: int| 0 <= i < spin.len() implies (#[trigger] spin[i])@.len() == n by {
            assert((spin + cat)[i] == spin[i]);
        }
    }
    assert(groups_of_len(cat, n)) by {
        assert forall|i: int| 0 <= i < cat.len() implies (#[trigger] cat[i])@.len() == n by {
            assert((spin + cat)[ns + i] == cat[i]);
        }
    }
    lemma_concat_len(spin, n);
    assert forall|i: int, a: int| 0 <= i < ns && 0 <= a < n implies #[trigger] g.head_nodes@[i * n + a] == spin[i]@[a] by {
        lemma_concat_index(spin, n, i, a);
    }
    assert forall|t: int| 0 <= t < g.tail_nodes@.len() implies (#[trigger] g.tail_nodes@[t])@.len() == ns * n by {
        if t < ns - 1 {
            let gs = spin_tail_groups(spin, t);
            assert(groups_of_len(gs, n)) by {
                assert forall|i: int| 0 <= i < gs.len() implies (#[trigger] gs[i])@.len() == n by {
                    assert(gs[i] == spin[skip_index(i, t)]);
                }
            }
            lemma_concat_len(gs, n);
        } else {
            let gs = repeated_group(cat[t - (ns - 1)], ns as nat);
            assert(groups_of_len(gs, n)) by {
                assert forall|i: int| 0 <= i < gs.len() implies (#[trigger] gs[i])@.len() == n by {
                    assert(gs[i] == cat[t - (ns - 1)]);
                }
            }
            lemma_concat_len(gs, n);
        }
    }
    assert forall|t: int, i: int, a: int| 0 <= t < ns - 1 && 0 <= i < ns && 0 <= a < n implies #[trigger] g.tail_nodes@[t]@[i
        * n + a] == spin[skip_index(i, t)]@[a] by {
        let gs = spin_tail_groups(spin, t);
        assert(groups_of_len(gs, n)) by {
            assert forall|q: int| 0 <= q < gs.len() implies (#[trigger] gs[q])@.len() == n by {
                assert(gs[q] == spin[skip_index(q, t)]);
            }
        }
        lemma_concat_index(gs, n, i, a);
        assert(gs[i] == spin[skip_index(i, t)]);
    }
    assert forall|j: int, i: int, a: int| 0 <= j < cat.len() && 0 <= i < ns && 0 <= a < n implies #[trigger] g.tail_nodes@[ns
        - 1 + j]@[i * n + a] == cat[j]@[a] by {
        let gs = repeated_group(cat[j], ns as nat);
        assert(g.tail_nodes@[ns - 1 + j]@ == concat_nodes(repeated_group(cat[(ns - 1 + j) - (ns - 1)], ns as nat)));
        assert((ns - 1 + j) - (ns - 1) == j);
        assert(groups_of_len(gs, n)) by {
            assert forall|q: int| 0 <= q < gs.len() implies (#[trigger] gs[q])@.len() == n by {
                assert(gs[q] == cat[j]);
            }
        }
        lemma_concat_index(gs, n, i, a);
    }
    assert forall|t: int, q: int| 0 <= t < ns && 0 <= q < f.weights.data@.len() implies #[trigger] g.interaction.weights.data@[t
        * f.weights.data@.len() + q] == f.weights.data@[q] by {
        assert(flat_pos(t, q, f.weights.data@.len() as int) == t * f.weights.data@.len() + q);
    }
}

/// The group with categorical group `h` as head: its tails are first the
/// spin groups, in order, then the categorical groups other than `h`, in
/// order; it counts every spin group as a spin tail.
pub proof fn law_categorical_head_tails<T>(f: DiscreteEBMFactor<T>, r: Seq<FactorInteractionGroup<T>>, h: int)
    requires
        groups_of_factor(f, r),
        0 <= h < f.categorical_node_groups@.len(),
    ensures
        ({
            let spin = f.spin_node_groups@;
            let cat = f.categorical_node_groups@;
            let ns = spin.len();
            let g = r[(if ns > 0 {
                1int
            } else {
                0int
            }) + h];
            &&& g.head_nodes@ == cat[h]@
            &&& g.interaction.n_spin == ns
            &&& g.tail_nodes@.len() == ns + cat.len() - 1
            &&& forall|t: int| 0 <= t < ns ==> (#[trigger] g.tail_nodes@[t])@ == spin[t]@
            &&& forall|u: int| 0 <= u < h ==> (#[trigger] g.tail_nodes@[ns + u])@ == cat[u]@
            &&& forall|u: int| h < u < cat.len() ==> (#[trigger] g.tail_nodes@[ns + u - 1])@ == cat[u]@
        }),
{
    let spin = f.spin_node_groups@;
    let cat = f.categorical_node_groups@;
    let ns = spin.len();
    let off = if ns > 0 {
        1int
    } else {
        0int
    };
    let g = r[off + h];
    assert(cat_group_ok(f, (off + h) - off, g));
    assert((off + h) - off == h);
    let want = spin + cat.remove(h);
    assert(same_blocks(g.tail_nodes@, want));
    assert forall|t: int| 0 <= t < ns implies (#[trigger] g.tail_nodes@[t])@ == spin[t]@ by {
        assert(g.tail_nodes@[t]@ == want[t]@);
    }
    assert forall|u: int| 0 <= u < h implies (#[trigger] g.tail_nodes@[ns + u])@ == cat[u]@ by {
        assert(g.tail_nodes@[ns + u]@ == want[ns + u]@);
        assert(want[ns + u] == cat.remove(h)[u]);
    }
    assert forall|u: int| h < u < cat.len() implies (#[trigger] g.tail_nodes@[ns + u - 1])@ == cat[u]@ by {
        assert(g.tail_nodes@[ns + u - 1]@ == want[ns + u - 1]@);
        assert(want[ns + u - 1] == cat.remove(h)[u - 1]);
    }
}

/// A square factor has square weights: when `SquareDiscreteEBMFactor::new`
/// succeeds, every axis after the batch axis has the dimension of axis 1,
/// and weights with an axis after the batch axis of another dimension than
/// axis 1 are refused as not square.
pub proof fn law_square_factor_weights<T>(
    spin: Seq<Block>,
    cat: Seq<Block>,
    weights: DenseTensor<T>,
    r: Result<SquareDiscreteEBMFactor<T>, String>,
)
    requires
        r is Err <==> !is_square(weights.shape@) || factor_error(spin, cat, weights.shape@) is Some,
        r matches Err(e) ==> (!is_square(weights.shape@) ==> e@ == "Interaction tensor is not square"@),
    ensures
        r is Ok ==> forall|i: int| 1 <= i < weights.shape@.len() ==> #[trigger] weights.shape@[i] == weights.shape@[1],
        (exists|i: int| 1 <= i < weights.shape@.len() && #[trigger] weights.shape@[i] != weights.shape@[1]) ==> (r matches Err(
            e,
        ) && e@ == "Interaction tensor is not square"@),
{
    let s = weights.shape@;
    if exists|i: int| 1 <= i < s.len() && #[trigger] s[i] != s[1] {
        let i = choose|i: int| 1 <= i < s.len() && #[trigger] s[i] != s[1];
        assert(s.len() > 2);
        assert(!is_square(s));
    }
}

} // verus!

