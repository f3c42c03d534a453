//! Where the nodes of blocks live in the global state: each node has a global
//! state index and a position within that global state array.

use vstd::prelude::*;
use crate::block::Block;
use crate::discrete_ebm::{concat_nodes, lemma_concat_take_step};
use crate::node::{Node, NodeType};

verus! {

/// The global location of one node.
#[derive(Clone, Copy, Debug, PartialEq, Eq, Structural)]
pub struct NodeLocation {
    pub node: Node,
    /// Index of the global state array that holds the node.
    pub sd_index: usize,
    /// Position of the node within that array.
    pub position: usize,
}

/// The mapping between block-local and global state.
pub struct BlockSpec {
    /// The blocks.
    pub blocks: Vec<Block>,
    /// For each global state array, the indices of the blocks stacked into it.
    pub block_to_global_slice_spec: Vec<Vec<usize>>,
    /// The global location of every node; the first entry for a node counts.
    pub node_locations: Vec<NodeLocation>,
}

/// The location of `n`: the first entry for it, if any.
pub open spec fn lookup(locs: Seq<NodeLocation>, n: Node) -> Option<(usize, usize)>
    decreases locs.len(),
{
    if locs.len() == 0 {
        None
    } else if locs[0].node == n {
        Some((locs[0].sd_index, locs[0].position))
    } else {
        lookup(locs.drop_first(), n)
    }
}

/// Every node of the block has a location, all in the global state array of
/// the first node.
pub open spec fn locatable(locs: Seq<NodeLocation>, nodes: Seq<Node>) -> bool {
    &&& nodes.len() > 0
    &&& forall|a: int| 0 <= a < nodes.len() ==> #[trigger] lookup(locs, nodes[a]) is Some
    &&& forall|a: int| 0 <= a < nodes.len() ==> #[trigger] lookup(locs, nodes[a]).unwrap().0 == lookup(locs, nodes[0]).unwrap().0
}

/// The global state array of a locatable block.
pub open spec fn block_sd(locs: Seq<NodeLocation>, nodes: Seq<Node>) -> usize {
    lookup(locs, nodes[0]).unwrap().0
}

/// The positions of the nodes of a locatable block in its global state array.
pub open spec fn block_positions(locs: Seq<NodeLocation>, nodes: Seq<Node>) -> Seq<usize> {
    Seq::new(nodes.len(), |a: int| lookup(locs, nodes[a]).unwrap().1)
}

/// Number of nodes of the blocks `idx[0..m]`.
pub open spec fn list_offset(blocks: Seq<Block>, idx: Seq<usize>, m: int) -> nat
    decreases m,
{
    if m <= 0 {
        0
    } else {
        list_offset(blocks, idx, m - 1) + blocks[idx[m - 1] as int]@.len()
    }
}

/// Every non-empty block of the spec stands in one of its slice lists.
pub open spec fn blocks_placed(spec: BlockSpec) -> bool {
    let ss = spec.block_to_global_slice_spec@;
    forall|k: int|
        0 <= k < spec.blocks@.len() && (#[trigger] spec.blocks@[k])@.len() > 0 ==> exists|s: int, m: int|
            0 <= s < ss.len() && 0 <= m < ss[s]@.len() && ss[s]@[m] == k
}

/// The node locations of a block spec agree with its slice lists: every list
/// is non-empty and names blocks of the spec, and the node at position `a` of
/// the `m`-th block of list `s` is at position `list_offset + a` of global
/// state array `s`.
pub open spec fn spec_consistent(spec: BlockSpec) -> bool {
    let ss = spec.block_to_global_slice_spec@;
    let blocks = spec.blocks@;
    let locs = spec.node_locations@;
    &&& forall|s: int| 0 <= s < ss.len() ==> (#[trigger] ss[s])@.len() > 0
    &&& forall|s: int, m: int| 0 <= s < ss.len() && 0 <= m < ss[s]@.len() ==> #[trigger] ss[s]@[m] < blocks.len()
    &&& forall|s: int, m: int, a: int|
        0 <= s < ss.len() && 0 <= m < ss[s]@.len() && 0 <= a < blocks[ss[s]@[m] as int]@.len() ==> {
            let l = #[trigger] lookup(locs, blocks[ss[s]@[m] as int]@[a]);
            &&& l is Some
            &&& l.unwrap().0 == s
            &&& l.unwrap().1 == list_offset(blocks, ss[s]@, m) + a
        }
}

proof fn lemma_lookup_skip(locs: Seq<NodeLocation>, i: int, n: Node)
    requires
        0 <= i < locs.len(),
        locs[i].node != n,
    ensures
        lookup(locs.skip(i), n) == lookup(locs.skip(i + 1), n),
{
    assert(locs.skip(i).drop_first() =~= locs.skip(i + 1));
}

/// Finds the location of a node.
pub fn find_location(locs: &Vec<NodeLocation>, n: Node) -> (r: Option<(usize, usize)>)
    ensures
        r == lookup(locs@, n),
{
    let mut i: usize = 0;
    assert(locs@.skip(0) =~= locs@);
    while i < locs.len()
        invariant
            i <= locs@.len(),
            lookup(locs@, n) == lookup(locs@.skip(i as int), n),
        decreases locs@.len() - i,
    {
        let loc = locs[i];
        if loc.node == n {
            assert(locs@.skip(i as int)[0] == loc);
            return Some((loc.sd_index, loc.position));
        }
        proof {
            lemma_lookup_skip(locs@, i as int, n);
        }
        i = i + 1;
    }
    assert(locs@.skip(i as int).len() == 0);
    None
}

impl BlockSpec {
    /// The global state array that holds the block and the positions of its
    /// nodes there; an error for an empty block, for a node with no location,
    /// or for nodes held in different global state arrays.
    pub fn get_node_locations(&self, block: &Block) -> (r: Result<(usize, Vec<usize>), String>)
        ensures
            r is Ok <==> locatable(self.node_locations@, block@),
            r matches Ok(p) ==> p.0 == block_sd(self.node_locations@, block@) && p.1@ == block_positions(
                self.node_locations@,
                block@,
            ),
            r matches Err(e) ==> {
                let locs = self.node_locations@;
                let nodes = block@;
                &&& nodes.len() == 0 ==> e@ == "Block is empty"@
                &&& nodes.len() > 0 && (forall|a: int| 0 <= a < nodes.len() ==> #[trigger] lookup(locs, nodes[a]) is Some)
                    ==> e@ == "All nodes of a block must be in the same global state"@
                &&& nodes.len() > 0 && (forall|a: int|
                    0 <= a < nodes.len() && #[trigger] lookup(locs, nodes[a]) is Some ==> lookup(locs, nodes[a]).unwrap().0
                        == lookup(locs, nodes[0]).unwrap().0) ==> e@ == "Node is not in the block spec"@
            },
    {
        let nodes = block.nodes();
        let n = nodes.len();
        if n == 0 {
            return Err("Block is empty".to_string());
        }
        let first = match find_location(&self.node_locations, nodes[0]) {
            Some(l) => l,
            None => {
                return Err("Node is not in the block spec".to_string());
            },
        };
        let ghost locs = self.node_locations@;
        let mut positions: Vec<usize> = Vec::new();
        let mut a: usize = 0;
        while a < n
            invariant
                a <= n,
                n == nodes@.len(),
                n > 0,
                nodes@ == block@,
                locs == self.node_locations@,
                lookup(locs, nodes@[0]) == Some(first),
                positions@.len() == a,
                forall|q: int| 0 <= q < a ==> #[trigger] lookup(locs, nodes@[q]) is Some,
                forall|q: int| 0 <= q < a ==> #[trigger] lookup(locs, nodes@[q]).unwrap().0 == first.0,
                forall|q: int| 0 <= q < a ==> #[trigger] positions@[q] == lookup(locs, nodes@[q]).unwrap().1,
            decreases n - a,
        {
            match find_location(&self.node_locations, nodes[a]) {
                Some(l) => {
                    if l.0 != first.0 {
                        return Err("All nodes of a block must be in the same global state".to_string());
                    }
                    positions.push(l.1);
                },
                None => {
                    return Err("Node is not in the block spec".to_string());
                },
            }
            a = a + 1;
        }
        assert(positions@ =~= block_positions(locs, block@));
        Ok((first.0, positions))
    }
}


/// The node type of the first node of the first block of a list.
pub open spec fn list_type(blocks: Seq<Block>, idx: Seq<usize>) -> NodeType {
    blocks[idx[0] as int]@[0].node_type
}

/// Each list holds non-empty blocks of one node type in increasing order, the
/// lists have different node types, and they are in order of their first block.
pub open spec fn grouped_by_type(blocks: Seq<Block>, ss: Seq<Vec<usize>>) -> bool {
    &&& forall|s: int, m: int|
        0 <= s < ss.len() && 0 <= m < ss[s]@.len() ==> #[trigger] ss[s]@[m] < blocks.len() && blocks[ss[s]@[m] as int]@.len()
            > 0 && blocks[ss[s]@[m] as int]@[0].node_type == list_type(blocks, ss[s]@)
    &&& forall|s: int, m1: int, m2: int|
        0 <= s < ss.len() && 0 <= m1 < m2 < ss[s]@.len() ==> #[trigger] ss[s]@[m1] < #[trigger] ss[s]@[m2]
    &&& forall|s1: int, s2: int|
        0 <= s1 < s2 < ss.len() ==> #[trigger] ss[s1]@[0] < #[trigger] ss[s2]@[0] && list_type(blocks, ss[s1]@)
            != list_type(blocks, ss[s2]@)
}

/// Number of nodes in the blocks before block `k`.
pub open spec fn prefix_len(blocks: Seq<Block>, k: int) -> nat {
    concat_nodes(blocks.take(k)).len()
}

/// No node occurs twice.
pub open spec fn distinct_nodes(nodes: Seq<Node>) -> bool {
    forall|i: int, j: int| 0 <= i < j < nodes.len() ==> #[trigger] nodes[i] != #[trigger] nodes[j]
}

/// Node `a` of the `m`-th block of list `s` has its location at the
/// position of that node among all nodes: array `s`, position `list_offset + a`.
pub open spec fn placed(locs: Seq<NodeLocation>, blocks: Seq<Block>, idx: Seq<usize>, s: int, m: int, a: int) -> bool {
    let kk = idx[m] as int;
    let l = locs[prefix_len(blocks, kk) + a];
    &&& prefix_len(blocks, kk) + a < locs.len()
    &&& l.node == blocks[kk]@[a]
    &&& l.sd_index == s
    &&& l.position == list_offset(blocks, idx, m) + a
}

proof fn lemma_prefix_len_step(blocks: Seq<Block>, k: int)
    requires
        0 <= k < blocks.len(),
    ensures
        prefix_len(blocks, k + 1) == prefix_len(blocks, k) + blocks[k]@.len(),
        concat_nodes(blocks.take(k + 1)) == concat_nodes(blocks.take(k)) + blocks[k]@,
{
    lemma_concat_take_step(blocks, k);
}

/// The offset of a position in a list does not change when the list grows.
proof fn lemma_list_offset_push(blocks: Seq<Block>, idx: Seq<usize>, x: usize, m: int)
    requires
        0 <= m <= idx.len(),
    ensures
        list_offset(blocks, idx.push(x), m) == list_offset(blocks, idx, m),
    decreases m,
{
    if m > 0 {
        lemma_list_offset_push(blocks, idx, x, m - 1);
        assert(idx.push(x)[m - 1] == idx[m - 1]);
    }
}

/// A node that occurs once is found at its only entry.
proof fn lemma_lookup_unique(locs: Seq<NodeLocation>, i: int)
    requires
        0 <= i < locs.len(),
        forall|j: int| 0 <= j < locs.len() && j != i ==> (#[trigger] locs[j]).node != locs[i].node,
    ensures
        lookup(locs, locs[i].node) == Some((locs[i].sd_index, locs[i].position)),
    decreases i,
{
    if i > 0 {
        let rest = locs.drop_first();
        assert(locs[0].node != locs[i].node);
        assert(rest[i - 1] == locs[i]);
        assert forall|j: int| 0 <= j < rest.len() && j != i - 1 implies (#[trigger] rest[j]).node != rest[i - 1].node by {
            assert(rest[j] == locs[j + 1]);
        }
        lemma_lookup_unique(rest, i - 1);
    }
}

/// Index of `ty` in `types`, if it is there.
fn find_type(types: &Vec<NodeType>, ty: NodeType) -> (r: Option<usize>)
    ensures
        r matches Some(s) ==> s < types@.len() && types@[s as int] == ty,
        r is None ==> forall|s: int| 0 <= s < types@.len() ==> types@[s] != ty,
{
    let mut s: usize = 0;
    while s < types.len()
        invariant
            s <= types@.len(),
            forall|q: int| 0 <= q < s ==> types@[q] != ty,
        decreases types@.len() - s,
    {
        if types[s] == ty {
            return Some(s);
        }
        s = s + 1;
    }
    None
}

/// How blocks `0..k` have been grouped: every list is non-empty, holds blocks
/// before `k` of the list's node type, the lists have distinct node types,
/// and every non-empty block before `k` is in a list.
pub open spec fn grouping_inv(bs: Seq<Block>, k: int, types: Seq<NodeType>, lists: Seq<Vec<usize>>) -> bool {
    &&& types.len() == lists.len()
    &&& forall|s: int| 0 <= s < lists.len() ==> (#[trigger] lists[s])@.len() > 0
    &&& forall|s: int, m: int| 0 <= s < lists.len() && 0 <= m < lists[s]@.len() ==> #[trigger] lists[s]@[m] < k
    &&& forall|s: int| 0 <= s < lists.len() ==> #[trigger] types[s] == list_type(bs, lists[s]@)
    &&& forall|s1: int, s2: int| 0 <= s1 < s2 < types.len() ==> #[trigger] types[s1] != #[trigger] types[s2]
    &&& grouped_by_type(bs, lists)
    &&& forall|kk: int|
        0 <= kk < k && (#[trigger] bs[kk])@.len() > 0 ==> exists|s: int, m: int|
            0 <= s < lists.len() && 0 <= m < lists[s]@.len() && lists[s]@[m] == kk
}

/// How the nodes of blocks `0..k` have been placed: one location per node in
/// block order, and the location of every node of a listed block as
/// `placed` says; `offsets[s]` counts the nodes of list `s`.
pub open spec fn placement_inv(
    bs: Seq<Block>,
    k: int,
    lists: Seq<Vec<usize>>,
    offsets: Seq<usize>,
    locs: Seq<NodeLocation>,
) -> bool {
    &&& offsets.len() == lists.len()
    &&& locs.len() == prefix_len(bs, k)
    &&& forall|i: int| 0 <= i < locs.len() ==> (#[trigger] locs[i]).node == concat_nodes(bs.take(k))[i]
    &&& forall|s: int| 0 <= s < lists.len() ==> #[trigger] offsets[s] == list_offset(bs, lists[s]@, lists[s]@.len() as int)
    &&& forall|s: int| 0 <= s < lists.len() ==> #[trigger] offsets[s] <= locs.len()
    &&& forall|s: int, m: int, a: int|
        0 <= s < lists.len() && 0 <= m < lists[s]@.len() && 0 <= a < bs[lists[s]@[m] as int]@.len()
            ==> #[trigger] placed(locs, bs, lists[s]@, s, m, a)
}

/// `lists` is `start` with block `k` appended to list `s`, a new list when
/// `s` is the number of lists of `start`.
pub open spec fn list_update(start: Seq<Vec<usize>>, lists: Seq<Vec<usize>>, s: int, k: usize) -> bool {
    &&& 0 <= s <= start.len()
    &&& s < start.len() ==> lists.len() == start.len() && lists[s]@ == start[s]@.push(k)
    &&& s == start.len() ==> lists.len() == start.len() + 1 && lists[s]@ == seq![k]
    &&& forall|s2: int| 0 <= s2 < lists.len() && s2 != s ==> #[trigger] lists[s2] == start[s2]
}

proof fn lemma_grouping_skip(bs: Seq<Block>, k: int, types: Seq<NodeType>, lists: Seq<Vec<usize>>)
    requires
        grouping_inv(bs, k, types, lists),
        0 <= k < bs.len(),
        bs[k]@.len() == 0,
    ensures
        grouping_inv(bs, k + 1, types, lists),
{
}

proof fn lemma_grouping_step(
    bs: Seq<Block>,
    k: usize,
    types0: Seq<NodeType>,
    lists0: Seq<Vec<usize>>,
    types1: Seq<NodeType>,
    lists1: Seq<Vec<usize>>,
    s: int,
)
    requires
        grouping_inv(bs, k as int, types0, lists0),
        k < bs.len(),
        bs[k as int]@.len() > 0,
        list_update(lists0, lists1, s, k),
        s < lists0.len() ==> types1 == types0 && types0[s] == bs[k as int]@[0].node_type,
        s == lists0.len() ==> types1 == types0.push(bs[k as int]@[0].node_type) && forall|s2: int|
            0 <= s2 < types0.len() ==> types0[s2] != bs[k as int]@[0].node_type,
    ensures
        grouping_inv(bs, k + 1, types1, lists1),
{
    let ty = bs[k as int]@[0].node_type;
    assert forall|s2: int| 0 <= s2 < lists1.len() implies (#[trigger] lists1[s2])@.len() > 0 by {
        if s2 != s {
            assert(lists1[s2] == lists0[s2]);
        }
    }
    assert forall|s2: int, m: int| 0 <= s2 < lists1.len() && 0 <= m < lists1[s2]@.len() implies #[trigger] lists1[s2]@[m]
        < k + 1 by {
        if s2 != s {
            assert(lists1[s2] == lists0[s2]);
        } else if m < lists1[s2]@.len() - 1 {
            assert(lists1[s2]@[m] == lists0[s2]@[m]);
        }
    }
    assert forall|s2: int| 0 <= s2 < lists1.len() implies #[trigger] types1[s2] == list_type(bs, lists1[s2]@) by {
        if s2 != s {
            assert(lists1[s2] == lists0[s2]);
        } else if s < lists0.len() {
            assert(lists1[s2]@[0] == lists0[s2]@[0]);
        }
    }
    assert forall|s2: int, m: int|
        0 <= s2 < lists1.len() && 0 <= m < lists1[s2]@.len() implies #[trigger] lists1[s2]@[m] < bs.len()
            && bs[lists1[s2]@[m] as int]@.len() > 0 && bs[lists1[s2]@[m] as int]@[0].node_type == list_type(
            bs,
            lists1[s2]@,
        ) by {
        if s2 != s {
            assert(lists1[s2] == lists0[s2]);
        } else if s < lists0.len() {
            assert(lists1[s2]@[0] == lists0[s2]@[0]);
            if m < lists0[s2]@.len() {
                assert(lists1[s2]@[m] == lists0[s2]@[m]);
            }
        }
    }
    assert forall|s2: int, m1: int, m2: int|
        0 <= s2 < lists1.len() && 0 <= m1 < m2 < lists1[s2]@.len() implies #[trigger] lists1[s2]@[m1]
            < #[trigger] lists1[s2]@[m2] by {
        if s2 != s {
            assert(lists1[s2] == lists0[s2]);
        } else if s < lists0.len() {
            assert(lists1[s2]@[m1] == lists0[s2]@[m1]);
            if m2 < lists0[s2]@.len() {
                assert(lists1[s2]@[m2] == lists0[s2]@[m2]);
            }
        }
    }
    assert forall|s1: int, s2: int| 0 <= s1 < s2 < lists1.len() implies #[trigger] lists1[s1]@[0] < #[trigger] lists1[s2]@[0]
        && list_type(bs, lists1[s1]@) != list_type(bs, lists1[s2]@) by {
        assert(types1[s1] == list_type(bs, lists1[s1]@));
        assert(types1[s2] == list_type(bs, lists1[s2]@));
        if s2 == s && s == lists0.len() {
            assert(lists1[s1] == lists0[s1]);
            assert(lists0[s1]@[0] < k);
        } else {
            if s1 == s {
                assert(lists1[s1]@[0] == lists0[s1]@[0]);
                assert(lists1[s2] == lists0[s2]);
            } else if s2 == s {
                assert(lists1[s2]@[0] == lists0[s2]@[0]);
                assert(lists1[s1] == lists0[s1]);
            } else {
                assert(lists1[s1] == lists0[s1]);
                assert(lists1[s2] == lists0[s2]);
            }
            assert(types1[s1] == types0[s1] && types1[s2] == types0[s2]);
        }
    }
    assert forall|s1: int, s2: int| 0 <= s1 < s2 < types1.len() implies #[trigger] types1[s1] != #[trigger] types1[s2] by {
        if s2 == lists0.len() {
            assert(types1[s1] == types0[s1]);
        }
    }
    assert forall|kk: int| 0 <= kk < k + 1 && (#[trigger] bs[kk])@.len() > 0 implies exists|s2: int, m: int|
        0 <= s2 < lists1.len() && 0 <= m < lists1[s2]@.len() && lists1[s2]@[m] == kk by {
        if kk == k {
            assert(lists1[s]@[lists1[s]@.len() - 1] == k);
        } else {
            let (s2, m) = choose|s2: int, m: int|
                0 <= s2 < lists0.len() && 0 <= m < lists0[s2]@.len() && lists0[s2]@[m] == kk;
            if s2 == s {
                assert(lists1[s2]@[m] == kk);
            } else {
                assert(lists1[s2] == lists0[s2]);
            }
        }
    }
}

proof fn lemma_placement_skip(
    bs: Seq<Block>,
    k: int,
    lists: Seq<Vec<usize>>,
    offsets: Seq<usize>,
    locs: Seq<NodeLocation>,
)
    requires
        placement_inv(bs, k, lists, offsets, locs),
        0 <= k < bs.len(),
        bs[k]@.len() == 0,
    ensures
        placement_inv(bs, k + 1, lists, offsets, locs),
{
    lemma_prefix_len_step(bs, k);
    assert(concat_nodes(bs.take(k + 1)) =~= concat_nodes(bs.take(k)));
}

proof fn lemma_placement_step(
    bs: Seq<Block>,
    k: usize,
    lists0: Seq<Vec<usize>>,
    offsets0: Seq<usize>,
    locs0: Seq<NodeLocation>,
    lists1: Seq<Vec<usize>>,
    offsets1: Seq<usize>,
    locs1: Seq<NodeLocation>,
    s: int,
    base: usize,
)
    requires
        placement_inv(bs, k as int, lists0, offsets0, locs0),
        forall|s2: int, m: int| 0 <= s2 < lists0.len() && 0 <= m < lists0[s2]@.len() ==> #[trigger] lists0[s2]@[m] < k,
        k < bs.len(),
        list_update(lists0, lists1, s, k),
        base == (if s < lists0.len() {
            offsets0[s] as int
        } else {
            0int
        }),
        offsets1.len() == lists1.len(),
        forall|s2: int| 0 <= s2 < lists1.len() && s2 != s ==> #[trigger] offsets1[s2] == offsets0[s2],
        offsets1[s] == base + bs[k as int]@.len(),
        locs1.len() == locs0.len() + bs[k as int]@.len(),
        locs1.take(locs0.len() as int) == locs0,
        forall|q: int|
            0 <= q < bs[k as int]@.len() ==> (#[trigger] locs1[locs0.len() + q]).node == bs[k as int]@[q] && locs1[locs0.len()
                + q].sd_index == s && locs1[locs0.len() + q].position == base + q,
    ensures
        placement_inv(bs, k + 1, lists1, offsets1, locs1),
{
    let len = bs[k as int]@.len();
    let cur = locs0.len();
    lemma_prefix_len_step(bs, k as int);
    assert forall|i: int| 0 <= i < cur implies #[trigger] locs1[i] == locs0[i] by {
        assert(locs1.take(cur as int)[i] == locs0[i]);
    }
    assert forall|i: int| 0 <= i < locs1.len() implies (#[trigger] locs1[i]).node == concat_nodes(bs.take(k + 1))[i] by {
        if i >= cur {
            assert(locs1[cur + (i - cur)].node == bs[k as int]@[i - cur]);
        } else {
            assert(locs1[i] == locs0[i]);
        }
    }
    let idx1 = lists1[s]@;
    let n0 = idx1.len() - 1;
    if s < lists0.len() {
        assert(idx1 =~= lists0[s]@.push(k));
        lemma_list_offset_push(bs, lists0[s]@, k, n0);
        assert(list_offset(bs, idx1, n0) == offsets0[s]);
    } else {
        assert(idx1 =~= Seq::<usize>::empty().push(k));
        assert(list_offset(bs, idx1, 0) == 0);
    }
    assert(idx1[n0] == k);
    assert(list_offset(bs, idx1, idx1.len() as int) == list_offset(bs, idx1, n0) + len);
    assert forall|s2: int| 0 <= s2 < lists1.len() implies #[trigger] offsets1[s2] == list_offset(
        bs,
        lists1[s2]@,
        lists1[s2]@.len() as int,
    ) && offsets1[s2] <= locs1.len() by {
        if s2 != s {
            assert(lists1[s2] == lists0[s2]);
        }
    }
    assert forall|s2: int, m: int, a: int|
        0 <= s2 < lists1.len() && 0 <= m < lists1[s2]@.len() && 0 <= a < bs[lists1[s2]@[m] as int]@.len()
            implies #[trigger] placed(locs1, bs, lists1[s2]@, s2, m, a) by {
        if s2 == s && m == n0 {
            assert(locs1[cur + a].node == bs[k as int]@[a]);
        } else {
            let idx0 = lists0[s2]@;
            if s2 == s {
                assert(lists1[s2]@[m] == idx0[m]);
                lemma_list_offset_push(bs, idx0, k, m);
            } else {
                assert(lists1[s2] == lists0[s2]);
            }
            assert(placed(locs0, bs, idx0, s2, m, a));
            let kk = idx0[m] as int;
            assert(kk < k);
            lemma_prefix_len_step(bs, kk);
            lemma_prefix_len_mono(bs, kk + 1, k as int);
            assert(locs1[prefix_len(bs, kk) + a] == locs0[prefix_len(bs, kk) + a]);
        }
    }
}

proof fn lemma_prefix_len_mono(blocks: Seq<Block>, j: int, k: int)
    requires
        0 <= j <= k <= blocks.len(),
    ensures
        prefix_len(blocks, j) <= prefix_len(blocks, k),
    decreases k - j,
{
    if j < k {
        lemma_prefix_len_step(blocks, j);
        lemma_prefix_len_mono(blocks, j + 1, k);
    }
}

impl BlockSpec {
    /// A block spec for the blocks: each node type of a non-empty block gets
    /// a global state array, in order of first appearance, holding the blocks
    /// of that type one after the other. Empty blocks are in no array. An
    /// error when a node occurs twice.
    pub fn new(blocks: Vec<Block>) -> (r: Result<BlockSpec, String>)
        ensures
            r is Ok <==> distinct_nodes(concat_nodes(blocks@)),
            r matches Err(e) ==> e@ == "A node occurs in more than one place in the blocks"@,
            r matches Ok(spec) ==> {
                &&& spec.blocks@ == blocks@
                &&& spec_consistent(spec)
                &&& grouped_by_type(blocks@, spec.block_to_global_slice_spec@)
                &&& spec.node_locations@.len() == concat_nodes(blocks@).len()
                &&& forall|i: int|
                    0 <= i < spec.node_locations@.len() ==> (#[trigger] spec.node_locations@[i]).node == concat_nodes(
                        blocks@,
                    )[i]
                &&& blocks_placed(spec)
            },
    {
        let ghost bs = blocks@;
        let nb = blocks.len();
        let mut types: Vec<NodeType> = Vec::new();
        let mut lists: Vec<Vec<usize>> = Vec::new();
        let mut offsets: Vec<usize> = Vec::new();
        let mut locs: Vec<NodeLocation> = Vec::new();
        let mut k: usize = 0;
        assert(bs.take(0) =~= Seq::<Block>::empty());
        while k < nb
            invariant
                k <= nb,
                nb == bs.len(),
                bs == blocks@,
                grouping_inv(bs, k as int, types@, lists@),
                placement_inv(bs, k as int, lists@, offsets@, locs@),
            decreases nb - k,
        {
            let nodes = blocks[k].nodes();
            let len = nodes.len();
            if len == 0 {
                proof {
                    lemma_grouping_skip(bs, k as int, types@, lists@);
                    lemma_placement_skip(bs, k as int, lists@, offsets@, locs@);
                }
                k = k + 1;
                continue;
            }
            let ghost types0 = types@;
            let ghost lists0 = lists@;
            let ghost offsets0 = offsets@;
            let ghost locs0 = locs@;
            let ty = nodes[0].node_type;
            let s = match find_type(&types, ty) {
                Some(s) => s,
                None => {
                    types.push(ty);
                    lists.push(Vec::new());
                    offsets.push(0);
                    lists.len() - 1
                },
            };
            let base = offsets[s];
            assert(base <= locs@.len());
            let cur_len = locs.len();
            let mut a: usize = 0;
            while a < len
                invariant
                    a <= len,
                    len == bs[k as int]@.len(),
                    nodes@ == bs[k as int]@,
                    k < nb,
                    nb == bs.len(),
                    cur_len == locs0.len(),
                    base <= cur_len,
                    locs@.len() == cur_len + a,
                    locs@.take(cur_len as int) == locs0,
                    forall|q: int|
                        0 <= q < a ==> (#[trigger] locs@[cur_len + q]).node == bs[k as int]@[q] && locs@[cur_len
                            + q].sd_index == s && locs@[cur_len + q].position == base + q,
                decreases len - a,
            {
                // The length of a vector fits in `usize`.
                let _total = locs.len();
                let ghost before = locs@;
                locs.push(NodeLocation { node: nodes[a], sd_index: s, position: base + a });
                assert(locs@.take(cur_len as int) =~= locs0) by {
                    assert forall|q: int| 0 <= q < cur_len implies locs@[q] == locs0[q] by {
                        assert(before.take(cur_len as int)[q] == locs0[q]);
                    }
                }
                a = a + 1;
            }
            let mut list = lists[s].clone();
            let ghost list0 = lists@[s as int]@;
            assert(list@ =~= list0);
            list.push(k);
            lists.set(s, list);
            // The length of a vector fits in `usize`.
            let _after = locs.len();
            offsets.set(s, base + len);
            proof {
                assert(list_update(lists0, lists@, s as int, k)) by {
                    if (s as int) < lists0.len() {
                        assert(list0 == lists0[s as int]@);
                    } else {
                        assert(list0 =~= Seq::<usize>::empty());
                        assert(lists@[s as int]@ =~= seq![k]);
                    }
                }
                lemma_grouping_step(bs, k, types0, lists0, types@, lists@, s as int);
                lemma_placement_step(bs, k, lists0, offsets0, locs0, lists@, offsets@, locs@, s as int, base);
            }
            k = k + 1;
        }
        assert(bs.take(nb as int) =~= bs);
        assert(locs@.len() == concat_nodes(bs).len());
        // Every node once.
        let n = locs.len();
        let mut i: usize = 0;
        while i < n
            invariant
                i <= n,
                n == locs@.len(),
                n == concat_nodes(bs).len(),
                bs == blocks@,
                forall|q: int| 0 <= q < n ==> (#[trigger] locs@[q]).node == concat_nodes(bs)[q],
                forall|p: int, q: int| 0 <= p < i && p < q < n ==> #[trigger] locs@[p].node != #[trigger] locs@[q].node,
            decreases n - i,
        {
            let mut j: usize = i + 1;
            while j < n
                invariant
                    i < j <= n,
                    n == locs@.len(),
                    n == concat_nodes(bs).len(),
                    bs == blocks@,
                    forall|q: int| 0 <= q < n ==> (#[trigger] locs@[q]).node == concat_nodes(bs)[q],
                    forall|p: int, q: int| 0 <= p < i && p < q < n ==> #[trigger] locs@[p].node != #[trigger] locs@[q].node,
                    forall|q: int| i < q < j ==> #[trigger] locs@[q].node != locs@[i as int].node,
                decreases n - j,
            {
                if locs[i].node == locs[j].node {
                    proof {
                        let all = concat_nodes(bs);
                        assert(locs@[i as int].node == all[i as int]);
                        assert(locs@[j as int].node == all[j as int]);
                        assert(!distinct_nodes(all));
                    }
                    return Err("A node occurs in more than one place in the blocks".to_string());
                }
                j = j + 1;
            }
            i = i + 1;
        }
        let spec = BlockSpec { blocks, block_to_global_slice_spec: lists, node_locations: locs };
        proof {
            let all = concat_nodes(bs);
            assert forall|p: int, q: int| 0 <= p < q < all.len() implies #[trigger] all[p] != #[trigger] all[q] by {
                assert(locs@[p].node != locs@[q].node);
            }
            let l = spec.node_locations@;
            let ss = spec.block_to_global_slice_spec@;
            assert forall|s2: int, m: int, a2: int|
                0 <= s2 < ss.len() && 0 <= m < ss[s2]@.len() && 0 <= a2 < bs[ss[s2]@[m] as int]@.len() implies {
                let lk = #[trigger] lookup(l, bs[ss[s2]@[m] as int]@[a2]);
                &&& lk is Some
                &&& lk.unwrap().0 == s2
                &&& lk.unwrap().1 == list_offset(bs, ss[s2]@, m) + a2
            } by {
                assert(placed(l, bs, ss[s2]@, s2, m, a2));
                let kk = ss[s2]@[m] as int;
                let i0 = prefix_len(bs, kk) + a2;
                assert forall|j: int| 0 <= j < l.len() && j != i0 implies (#[trigger] l[j]).node != l[i0].node by {
                    if j < i0 {
                        assert(l[j].node != l[i0].node);
                    } else {
                        assert(l[i0].node != l[j].node);
                    }
                }
                lemma_lookup_unique(l, i0);
            }
            assert forall|s2: int, m: int| 0 <= s2 < ss.len() && 0 <= m < ss[s2]@.len() implies #[trigger] ss[s2]@[m]
                < bs.len() by {}
        }
        Ok(spec)
    }
}

} // verus!
