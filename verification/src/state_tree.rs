//! Moving state between blocks and global state arrays, and fresh block
//! states.

use vstd::prelude::*;
use indexmap::IndexMap;
use crate::block::Block;
use crate::blockspec::{block_positions, block_sd, locatable, BlockSpec};
use crate::node::{NodeType, TensorSpec};
use crate::shape::shape_size;
use crate::tensor::{data_concat, flat_pos, leading_sum, DenseTensor};

verus! {

/// The map type `indexmap::IndexMap`, opaque to proofs.
#[verifier::external_type_specification]
#[verifier::external_body]
#[verifier::reject_recursive_types(K)]
#[verifier::reject_recursive_types(V)]
#[verifier::reject_recursive_types(S)]
pub struct ExIndexMap<K, V, S>(IndexMap<K, V, S>);

/// The node types that a map of node state specifications has entries for.
pub uninterp spec fn spec_node_types(m: IndexMap<NodeType, TensorSpec>) -> Set<NodeType>;

/// `IndexMap::get`: the entry for the key, which is there exactly when the
/// key is one of the map's keys. What the entry holds is not stated.
#[verifier::external_body]
fn node_spec_get<'a>(m: &'a IndexMap<NodeType, TensorSpec>, key: &NodeType) -> (r: Option<&'a TensorSpec>)
    ensures
        r is Some <==> spec_node_types(*m).contains(*key),
{
    m.get(key)
}

/// Whether the map holds a state specification for the node type.
pub fn node_type_known(m: &IndexMap<NodeType, TensorSpec>, t: &NodeType) -> (r: bool)
    ensures
        r == spec_node_types(*m).contains(*t),
{
    node_spec_get(m, t).is_some()
}

/// Whether the map holds a state specification for the node type of every
/// non-empty block, as `make_empty_block_state` requires.
pub fn block_types_known(blocks: &Vec<Block>, m: &IndexMap<NodeType, TensorSpec>) -> (r: bool)
    ensures
        r == (forall|k: int|
            0 <= k < blocks@.len() && (#[trigger] blocks@[k])@.len() > 0 ==> spec_node_types(*m).contains(
                blocks@[k]@[0].node_type,
            )),
{
    let mut k: usize = 0;
    while k < blocks.len()
        invariant
            k <= blocks@.len(),
            forall|q: int|
                0 <= q < k && (#[trigger] blocks@[q])@.len() > 0 ==> spec_node_types(*m).contains(
                    blocks@[q]@[0].node_type,
                ),
        decreases blocks@.len() - k,
    {
        let nodes = blocks[k].nodes();
        if nodes.len() > 0 {
            if !node_type_known(m, &nodes[0].node_type) {
                return false;
            }
        }
        k = k + 1;
    }
    true
}

/// `r` holds the leaves one after the other along the leading axis.
pub open spec fn stacked_from<T>(leaves: Seq<DenseTensor<T>>, r: DenseTensor<T>) -> bool {
    &&& r.wf()
    &&& r.shape@ == seq![leading_sum(leaves) as usize] + leaves[0].shape@.skip(1)
    &&& r.data@ == data_concat(leaves)
}

/// `r` holds the slices of `src` along the leading axis at `indices`, in order.
pub open spec fn selected_from<T>(src: DenseTensor<T>, indices: Seq<usize>, r: DenseTensor<T>) -> bool {
    &&& r.wf()
    &&& r.shape@ == seq![indices.len() as usize] + src.shape@.skip(1)
    &&& forall|k: int, c: int|
        0 <= k < indices.len() && 0 <= c < src.row_size() ==> r.data@[#[trigger] flat_pos(k, c, src.row_size() as int)]
            == src.data@[flat_pos(indices[k] as int, c, src.row_size() as int)]
}

/// A leaf of a state tree: stacks along a leading axis and selects slices.
pub trait StateLeaf: Sized {
    spec fn can_stack(leaves: Seq<Self>) -> bool;

    spec fn can_take(&self, indices: Seq<usize>) -> bool;

    fn stack(leaves: &[Self]) -> (r: Self)
        requires
            Self::can_stack(leaves@),
    ;

    fn take_indices(&self, indices: &Vec<usize>) -> (r: Self)
        requires
            self.can_take(indices@),
    ;
}

impl<T: Copy> StateLeaf for DenseTensor<T> {
    open spec fn can_stack(leaves: Seq<Self>) -> bool {
        DenseTensor::stackable(leaves)
    }

    open spec fn can_take(&self, indices: Seq<usize>) -> bool {
        &&& self.wf()
        &&& self.shape@.len() >= 1
        &&& forall|k: int| 0 <= k < indices.len() ==> #[trigger] indices[k] < self.shape@[0]
    }

    /// Concatenation along the leading axis.
    fn stack(leaves: &[Self]) -> (r: Self)
        ensures
            stacked_from(leaves@, r),
    {
        DenseTensor::concat_leading(leaves)
    }

    /// Selection of slices along the leading axis.
    fn take_indices(&self, indices: &Vec<usize>) -> (r: Self)
        ensures
            selected_from(*self, indices@, r),
    {
        self.select_rows(indices)
    }
}

/// Two sequences of tensors with the same shapes and elements.
pub open spec fn same_views<T>(a: Seq<DenseTensor<T>>, b: Seq<DenseTensor<T>>) -> bool {
    &&& a.len() == b.len()
    &&& forall|i: int| 0 <= i < a.len() ==> (#[trigger] a[i]).shape@ == b[i].shape@ && a[i].data@ == b[i].data@
}

pub proof fn lemma_same_views<T>(a: Seq<DenseTensor<T>>, b: Seq<DenseTensor<T>>)
    requires
        same_views(a, b),
    ensures
        data_concat(a) == data_concat(b),
        leading_sum(a) == leading_sum(b),
        DenseTensor::stackable(a) == DenseTensor::stackable(b),
    decreases a.len(),
{
    if a.len() > 0 {
        let pa = a.drop_last();
        let pb = b.drop_last();
        assert(same_views(pa, pb)) by {
            assert forall|i: int| 0 <= i < pa.len() implies (#[trigger] pa[i]).shape@ == pb[i].shape@ && pa[i].data@
                == pb[i].data@ by {
                assert(pa[i] == a[i] && pb[i] == b[i]);
            }
        }
        lemma_same_views(pa, pb);
        assert(a.last() == a[a.len() - 1] && b.last() == b[b.len() - 1]);
        if DenseTensor::stackable(a) {
            assert forall|i: int| 0 <= i < b.len() implies (#[trigger] b[i]).wf() && b[i].shape@.len() >= 1 by {
                assert(a[i].shape@ == b[i].shape@);
                assert(a[i].wf());
            }
            assert forall|i: int| 0 <= i < b.len() implies (#[trigger] b[i]).shape@.skip(1) == b[0].shape@.skip(1) by {
                assert(a[i].shape@ == b[i].shape@);
                assert(a[0].shape@ == b[0].shape@);
            }
            assert(DenseTensor::stackable(b));
        }
        if DenseTensor::stackable(b) {
            assert forall|i: int| 0 <= i < a.len() implies (#[trigger] a[i]).wf() && a[i].shape@.len() >= 1 by {
                assert(a[i].shape@ == b[i].shape@);
                assert(b[i].wf());
            }
            assert forall|i: int| 0 <= i < a.len() implies (#[trigger] a[i]).shape@.skip(1) == a[0].shape@.skip(1) by {
                assert(a[i].shape@ == b[i].shape@);
                assert(a[0].shape@ == b[0].shape@);
            }
            assert(DenseTensor::stackable(a));
        }
    }
}

/// The non-empty index lists, in order.
pub open spec fn nonempty_slices(ss: Seq<Vec<usize>>) -> Seq<Seq<usize>>
    decreases ss.len(),
{
    if ss.len() == 0 {
        Seq::empty()
    } else if ss.last()@.len() == 0 {
        nonempty_slices(ss.drop_last())
    } else {
        nonempty_slices(ss.drop_last()).push(ss.last()@)
    }
}

/// The tensors of `state` at the positions `idx`.
pub open spec fn gathered<T>(state: Seq<DenseTensor<T>>, idx: Seq<usize>) -> Seq<DenseTensor<T>> {
    Seq::new(idx.len(), |m: int| state[idx[m] as int])
}

/// What `block_state_to_global` needs: every index is a block, and the
/// blocks of a list with several entries can be stacked.
pub open spec fn global_ready<T>(state: Seq<DenseTensor<T>>, ss: Seq<Vec<usize>>) -> bool {
    &&& forall|s: int, m: int| 0 <= s < ss.len() && 0 <= m < ss[s]@.len() ==> #[trigger] ss[s]@[m] < state.len()
    &&& forall|s: int| 0 <= s < ss.len() && ss[s]@.len() > 1 ==> DenseTensor::stackable(gathered(state, #[trigger] ss[s]@))
}

/// Global state entry for one non-empty index list: the block itself when
/// the list has one entry, the blocks stacked otherwise.
pub open spec fn global_entry<T>(state: Seq<DenseTensor<T>>, idx: Seq<usize>, r: DenseTensor<T>) -> bool {
    if idx.len() == 1 {
        r.shape@ == state[idx[0] as int].shape@ && r.data@ == state[idx[0] as int].data@
    } else {
        stacked_from(gathered(state, idx), r)
    }
}

proof fn lemma_nonempty_slices_step(ss: Seq<Vec<usize>>, i: int)
    requires
        0 <= i < ss.len(),
    ensures
        ss[i]@.len() == 0 ==> nonempty_slices(ss.take(i + 1)) == nonempty_slices(ss.take(i)),
        ss[i]@.len() > 0 ==> nonempty_slices(ss.take(i + 1)) == nonempty_slices(ss.take(i)).push(ss[i]@),
{
    assert(ss.take(i + 1).drop_last() =~= ss.take(i));
    assert(ss.take(i + 1).last() == ss[i]);
}

/// The global state: for each global state array with blocks, the block
/// states of its blocks stacked along the leading axis.
pub fn block_state_to_global<T: Copy>(block_state: &Vec<DenseTensor<T>>, spec: &BlockSpec) -> (r: Vec<DenseTensor<T>>)
    requires
        global_ready(block_state@, spec.block_to_global_slice_spec@),
    ensures
        r@.len() == nonempty_slices(spec.block_to_global_slice_spec@).len(),
        forall|k: int| 0 <= k < r@.len() ==> global_entry(
            block_state@,
            nonempty_slices(spec.block_to_global_slice_spec@)[k],
            #[trigger] r@[k],
        ),
{
    let ghost ss = spec.block_to_global_slice_spec@;
    let mut global_state: Vec<DenseTensor<T>> = Vec::new();
    let mut s: usize = 0;
    while s < spec.block_to_global_slice_spec.len()
        invariant
            s <= ss.len(),
            ss == spec.block_to_global_slice_spec@,
            global_ready(block_state@, ss),
            global_state@.len() == nonempty_slices(ss.take(s as int)).len(),
            forall|k: int| 0 <= k < global_state@.len() ==> global_entry(
                block_state@,
                nonempty_slices(ss.take(s as int))[k],
                #[trigger] global_state@[k],
            ),
        decreases ss.len() - s,
    {
        proof {
            lemma_nonempty_slices_step(ss, s as int);
        }
        let sd_indexes = &spec.block_to_global_slice_spec[s];
        if sd_indexes.len() > 0 {
            let mut collected: Vec<DenseTensor<T>> = Vec::new();
            let mut m: usize = 0;
            while m < sd_indexes.len()
                invariant
                    m <= sd_indexes@.len(),
                    sd_indexes@ == ss[s as int]@,
                    s < ss.len(),
                    global_ready(block_state@, ss),
                    same_views(collected@, gathered(block_state@, sd_indexes@.take(m as int))),
                decreases sd_indexes@.len() - m,
            {
                let i = sd_indexes[m];
                assert(i < block_state@.len());
                collected.push(block_state[i].duplicate());
                m = m + 1;
                assert(same_views(collected@, gathered(block_state@, sd_indexes@.take(m as int))));
            }
            assert(sd_indexes@.take(sd_indexes@.len() as int) =~= sd_indexes@);
            let ghost want = gathered(block_state@, sd_indexes@);
            let entry = if collected.len() == 1 {
                assert(collected@[0].shape@ == want[0].shape@);
                collected[0].duplicate()
            } else {
                proof {
                    lemma_same_views(collected@, want);
                    assert(collected@[0].shape@ == want[0].shape@);
                }
                <DenseTensor<T> as StateLeaf>::stack(collected.as_slice())
            };
            global_state.push(entry);
        }
        s = s + 1;
    }
    assert(ss.take(ss.len() as int) =~= ss);
    global_state
}

/// What `from_global_state` needs: every block to extract has its nodes in one
/// global state array, which exists and has them along its leading axis.
pub open spec fn extract_ready<T: Copy>(global: Seq<DenseTensor<T>>, spec: BlockSpec, blocks: Seq<Block>) -> bool {
    forall|k: int|
        0 <= k < blocks.len() ==> {
            let locs = spec.node_locations@;
            let nodes = (#[trigger] blocks[k])@;
            &&& locatable(locs, nodes)
            &&& block_sd(locs, nodes) < global.len()
            &&& global[block_sd(locs, nodes) as int].can_take(block_positions(locs, nodes))
        }
}

/// The state of each block, taken from the global state array that holds it
/// at the positions of its nodes.
pub fn from_global_state<T: Copy>(global_state: &Vec<DenseTensor<T>>, spec_from: &BlockSpec, blocks_to_extract: &Vec<
    Block,
>) -> (r: Vec<DenseTensor<T>>)
    requires
        extract_ready(global_state@, *spec_from, blocks_to_extract@),
    ensures
        r@.len() == blocks_to_extract@.len(),
        forall|k: int|
            0 <= k < r@.len() ==> selected_from(
                global_state@[block_sd(spec_from.node_locations@, blocks_to_extract@[k]@) as int],
                block_positions(spec_from.node_locations@, blocks_to_extract@[k]@),
                #[trigger] r@[k],
            ),
{
    let mut result: Vec<DenseTensor<T>> = Vec::new();
    let mut k: usize = 0;
    while k < blocks_to_extract.len()
        invariant
            k <= blocks_to_extract@.len(),
            extract_ready(global_state@, *spec_from, blocks_to_extract@),
            result@.len() == k,
            forall|q: int|
                0 <= q < k ==> selected_from(
                    global_state@[block_sd(spec_from.node_locations@, blocks_to_extract@[q]@) as int],
                    block_positions(spec_from.node_locations@, blocks_to_extract@[q]@),
                    #[trigger] result@[q],
                ),
        decreases blocks_to_extract@.len() - k,
    {
        let block = &blocks_to_extract[k];
        assert(locatable(spec_from.node_locations@, block@));
        match spec_from.get_node_locations(block) {
            Ok((sd_ind, slices)) => {
                let extracted = global_state[sd_ind].take_indices(&slices);
                result.push(extracted);
            },
            Err(_) => {
                vstd::pervasive::unreached::<()>();
            },
        }
        k = k + 1;
    }
    result
}

/// Number of elements of a fresh block state: the block length, times the
/// product of the batch shape when there is one.
pub open spec fn empty_state_len(batch_shape: Option<Seq<usize>>, block_len: nat) -> nat {
    match batch_shape {
        Some(b) => shape_size(b) * block_len,
        None => block_len,
    }
}

/// The batch shape as a sequence, if any.
pub open spec fn batch_view(batch_shape: Option<&Vec<usize>>) -> Option<Seq<usize>> {
    match batch_shape {
        Some(b) => Some(b@),
        None => None,
    }
}

/// A fresh state for each block: a one-axis tensor of `empty_state_len`
/// elements, all `zero`. Every non-empty block's node type has a state
/// specification.
pub fn make_empty_block_state<T: Copy>(
    blocks: &Vec<Block>,
    node_shape_dtypes: &IndexMap<NodeType, TensorSpec>,
    batch_shape: Option<&Vec<usize>>,
    zero: T,
) -> (r: Vec<DenseTensor<T>>)
    requires
        forall|k: int|
            0 <= k < blocks@.len() && (#[trigger] blocks@[k])@.len() > 0 ==> spec_node_types(*node_shape_dtypes).contains(
                blocks@[k]@[0].node_type,
            ),
        batch_shape matches Some(b) ==> forall|j: int| 0 <= j <= b@.len() ==> #[trigger] shape_size(b@.take(j)) <= usize::MAX,
        forall|k: int|
            0 <= k < blocks@.len() ==> empty_state_len(
                batch_view(batch_shape),
                (#[trigger] blocks@[k])@.len(),
            ) <= usize::MAX,
    ensures
        r@.len() == blocks@.len(),
        forall|k: int|
            0 <= k < r@.len() ==> {
                let n = empty_state_len(batch_view(batch_shape), blocks@[k]@.len());
                &&& (#[trigger] r@[k]).shape@ == seq![n as usize]
                &&& r@[k].data@ == Seq::new(n, |i: int| zero)
            },
{
    let ghost bs = batch_view(batch_shape);
    let batch_total: usize = match batch_shape {
        Some(b) => {
            let mut p: usize = 1;
            let mut j: usize = 0;
            while j < b.len()
                invariant
                    j <= b@.len(),
                    p as nat == shape_size(b@.take(j as int)),
                    forall|q: int| 0 <= q <= b@.len() ==> #[trigger] shape_size(b@.take(q)) <= usize::MAX,
                decreases b@.len() - j,
            {
                proof {
                    crate::shape::lemma_size_take_step(b@, j as int);
                    assert(shape_size(b@.take(j + 1)) <= usize::MAX);
                }
                p = p * b[j];
                j = j + 1;
            }
            assert(b@.take(b@.len() as int) =~= b@);
            p
        },
        None => 1,
    };
    let mut state: Vec<DenseTensor<T>> = Vec::new();
    let mut k: usize = 0;
    while k < blocks.len()
        invariant
            k <= blocks@.len(),
            bs == batch_view(batch_shape),
            batch_shape matches Some(b) ==> batch_total as nat == shape_size(b@),
            forall|q: int|
                0 <= q < blocks@.len() && (#[trigger] blocks@[q])@.len() > 0 ==> spec_node_types(
                    *node_shape_dtypes,
                ).contains(blocks@[q]@[0].node_type),
            forall|q: int| 0 <= q < blocks@.len() ==> empty_state_len(bs, (#[trigger] blocks@[q])@.len()) <= usize::MAX,
            state@.len() == k,
            forall|q: int|
                0 <= q < k ==> {
                    let n = empty_state_len(bs, blocks@[q]@.len());
                    &&& (#[trigger] state@[q]).shape@ == seq![n as usize]
                    &&& state@[q].data@ == Seq::new(n, |i: int| zero)
                },
        decreases blocks@.len() - k,
    {
        let block = &blocks[k];
        if let Some(t) = block.node_type() {
            let _spec = node_spec_get(node_shape_dtypes, &t);
        }
        let block_len = block.len();
        let total: usize = match batch_shape {
            Some(_) => {
                assert(empty_state_len(bs, blocks@[k as int]@.len()) <= usize::MAX);
                batch_total * block_len
            },
            None => block_len,
        };
        let mut data: Vec<T> = Vec::new();
        let mut i: usize = 0;
        while i < total
            invariant
                i <= total,
                data@ == Seq::new(i as nat, |q: int| zero),
            decreases total - i,
        {
            data.push(zero);
            i = i + 1;
            assert(data@ =~= Seq::new(i as nat, |q: int| zero));
        }
        let mut shape: Vec<usize> = Vec::new();
        shape.push(total);
        proof {
            assert(shape@ =~= seq![total]);
            crate::shape::lemma_size_single(total);
        }
        state.push(DenseTensor { shape, data });
        k = k + 1;
    }
    state
}

/// `make_empty_block_state` where the map holds a state specification for
/// the node type of every non-empty block; `None` where it lacks one.
pub fn make_empty_block_state_checked<T: Copy>(
    blocks: &Vec<Block>,
    node_shape_dtypes: &IndexMap<NodeType, TensorSpec>,
    batch_shape: Option<&Vec<usize>>,
    zero: T,
) -> (r: Option<Vec<DenseTensor<T>>>)
    requires
        batch_shape matches Some(b) ==> forall|j: int| 0 <= j <= b@.len() ==> #[trigger] shape_size(b@.take(j)) <= usize::MAX,
        forall|k: int|
            0 <= k < blocks@.len() ==> empty_state_len(
                batch_view(batch_shape),
                (#[trigger] blocks@[k])@.len(),
            ) <= usize::MAX,
    ensures
        r is Some <==> (forall|k: int|
            0 <= k < blocks@.len() && (#[trigger] blocks@[k])@.len() > 0 ==> spec_node_types(
                *node_shape_dtypes,
            ).contains(blocks@[k]@[0].node_type)),
        r matches Some(v) ==> v@.len() == blocks@.len() && forall|k: int|
            0 <= k < v@.len() ==> {
                let n = empty_state_len(batch_view(batch_shape), blocks@[k]@.len());
                &&& (#[trigger] v@[k]).shape@ == seq![n as usize]
                &&& v@[k].data@ == Seq::new(n, |i: int| zero)
            },
{
    if block_types_known(blocks, node_shape_dtypes) {
        Some(make_empty_block_state(blocks, node_shape_dtypes, batch_shape, zero))
    } else {
        None
    }
}

} // verus!
