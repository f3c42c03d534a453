//! Row-major shapes: the number of elements of a shape and the flat offset
//! of a multi-index, with the arithmetic facts that the layout code relies on.

use vstd::prelude::*;

verus! {

/// Number of elements of a tensor of the given shape (1 for the empty shape).
pub open spec fn shape_size(shape: Seq<usize>) -> nat
    decreases shape.len(),
{
    if shape.len() == 0 {
        1
    } else {
        shape_size(shape.drop_last()) * (shape.last() as nat)
    }
}

/// `idx` is a valid multi-index into a tensor of the given shape.
pub open spec fn in_bounds(shape: Seq<usize>, idx: Seq<usize>) -> bool {
    &&& idx.len() == shape.len()
    &&& forall|j: int| 0 <= j < idx.len() ==> #[trigger] idx[j] < shape[j]
}

/// Row-major flat offset of the multi-index `idx` in a tensor of the given shape.
pub open spec fn offset(shape: Seq<usize>, idx: Seq<usize>) -> nat
    decreases idx.len(),
{
    if idx.len() == 0 || shape.len() == 0 {
        0
    } else {
        offset(shape.drop_last(), idx.drop_last()) * (shape.last() as nat) + (idx.last() as nat)
    }
}

/// Every dimension of the shape is at least one.
pub open spec fn all_positive(shape: Seq<usize>) -> bool {
    forall|j: int| 0 <= j < shape.len() ==> #[trigger] shape[j] >= 1
}

pub proof fn lemma_size_positive(shape: Seq<usize>)
    requires
        all_positive(shape),
    ensures
        shape_size(shape) >= 1,
    decreases shape.len(),
{
    if shape.len() > 0 {
        assert(all_positive(shape.drop_last()));
        lemma_size_positive(shape.drop_last());
        let a = shape_size(shape.drop_last());
        let d = shape.last() as nat;
        assert(shape[shape.len() - 1] >= 1);
        assert(a * d >= 1) by (nonlinear_arith)
            requires
                a >= 1,
                d >= 1,
        ;
    }
}

/// A valid multi-index has an offset below the number of elements.
pub proof fn lemma_offset_bound(shape: Seq<usize>, idx: Seq<usize>)
    requires
        in_bounds(shape, idx),
    ensures
        offset(shape, idx) < shape_size(shape),
    decreases idx.len(),
{
    if idx.len() > 0 {
        let s = shape.drop_last();
        let i = idx.drop_last();
        assert(in_bounds(s, i)) by {
            assert forall|j: int| 0 <= j < i.len() implies #[trigger] i[j] < s[j] by {
                assert(idx[j] < shape[j]);
            }
        }
        lemma_offset_bound(s, i);
        let o = offset(s, i);
        let a = shape_size(s);
        let d = shape.last() as nat;
        let x = idx.last() as nat;
        assert(idx[idx.len() - 1] < shape[shape.len() - 1]);
        assert(o * d + x < a * d) by (nonlinear_arith)
            requires
                o < a,
                x < d,
        ;
    }
}

/// The number of elements of a concatenated shape is the product of the parts.
pub proof fn lemma_size_concat(s1: Seq<usize>, s2: Seq<usize>)
    ensures
        shape_size(s1 + s2) == shape_size(s1) * shape_size(s2),
    decreases s2.len(),
{
    if s2.len() == 0 {
        assert(s1 + s2 =~= s1);
        assert(shape_size(s1) * 1 == shape_size(s1));
    } else {
        let s2p = s2.drop_last();
        assert((s1 + s2).drop_last() =~= s1 + s2p);
        assert((s1 + s2).last() == s2.last());
        lemma_size_concat(s1, s2p);
        let a = shape_size(s1);
        let b = shape_size(s2p);
        let d = s2.last() as nat;
        assert(shape_size(s1 + s2) == shape_size(s1 + s2p) * d);
        assert(shape_size(s2) == b * d);
        assert((a * b) * d == a * (b * d)) by (nonlinear_arith);
    }
}

/// The offset of a concatenated multi-index: the outer part counts whole
/// blocks of the inner shape's size.
pub proof fn lemma_offset_concat(s1: Seq<usize>, i1: Seq<usize>, s2: Seq<usize>, i2: Seq<usize>)
    requires
        s1.len() == i1.len(),
        s2.len() == i2.len(),
    ensures
        offset(s1 + s2, i1 + i2) == offset(s1, i1) * shape_size(s2) + offset(s2, i2),
    decreases s2.len(),
{
    if s2.len() == 0 {
        assert(s1 + s2 =~= s1);
        assert(i1 + i2 =~= i1);
        assert(offset(s1, i1) * 1 == offset(s1, i1));
    } else {
        let s2p = s2.drop_last();
        let i2p = i2.drop_last();
        assert((s1 + s2).drop_last() =~= s1 + s2p);
        assert((i1 + i2).drop_last() =~= i1 + i2p);
        assert((s1 + s2).last() == s2.last());
        assert((i1 + i2).last() == i2.last());
        lemma_offset_concat(s1, i1, s2p, i2p);
        let o1 = offset(s1, i1);
        let b = shape_size(s2p);
        let o2 = offset(s2p, i2p);
        let d = s2.last() as nat;
        let x = i2.last() as nat;
        assert(offset(s1 + s2, i1 + i2) == offset(s1 + s2p, i1 + i2p) * d + x);
        assert(offset(s2, i2) == o2 * d + x);
        assert(shape_size(s2) == b * d);
        assert((o1 * b + o2) * d == o1 * (b * d) + o2 * d) by (nonlinear_arith);
    }
}

/// With positive trailing dimensions, a prefix of a shape has no more
/// elements than the whole shape.
pub proof fn lemma_size_prefix_le(shape: Seq<usize>, k: int)
    requires
        0 <= k <= shape.len(),
        forall|j: int| k <= j < shape.len() ==> #[trigger] shape[j] >= 1,
    ensures
        shape_size(shape.take(k)) <= shape_size(shape),
{
    let s1 = shape.take(k);
    let s2 = shape.skip(k);
    assert(s1 + s2 =~= shape);
    assert(all_positive(s2)) by {
        assert forall|j: int| 0 <= j < s2.len() implies #[trigger] s2[j] >= 1 by {
            assert(shape[k + j] >= 1);
        }
    }
    lemma_size_positive(s2);
    lemma_size_concat(s1, s2);
    let a = shape_size(s1);
    let b = shape_size(s2);
    assert(a <= a * b) by (nonlinear_arith)
        requires
            b >= 1,
    ;
}

/// One more dimension multiplies the element count of a prefix.
pub proof fn lemma_size_take_step(shape: Seq<usize>, k: int)
    requires
        0 <= k < shape.len(),
    ensures
        shape_size(shape.take(k + 1)) == shape_size(shape.take(k)) * (shape[k] as nat),
{
    assert(shape.take(k + 1).drop_last() =~= shape.take(k));
}

/// One more index extends the offset of a prefix in Horner fashion.
pub proof fn lemma_offset_take_step(shape: Seq<usize>, idx: Seq<usize>, k: int)
    requires
        0 <= k < shape.len(),
        shape.len() == idx.len(),
    ensures
        offset(shape.take(k + 1), idx.take(k + 1)) == offset(shape.take(k), idx.take(k))
            * (shape[k] as nat) + (idx[k] as nat),
{
    assert(shape.take(k + 1).drop_last() =~= shape.take(k));
    assert(idx.take(k + 1).drop_last() =~= idx.take(k));
}

/// A one-axis shape has as many elements as its only dimension.
pub proof fn lemma_size_single(d: usize)
    ensures
        shape_size(seq![d]) == d as nat,
{
    let s = seq![d];
    assert(s.drop_last() =~= Seq::<usize>::empty());
    assert(shape_size(s.drop_last()) == 1);
    assert(s.last() == d);
    let a = shape_size(s.drop_last());
    assert(shape_size(s) == a * (d as nat));
    assert(a * (d as nat) == d as nat) by (nonlinear_arith)
        requires
            a == 1,
    ;
}

/// On a one-axis shape the offset is the index itself.
pub proof fn lemma_offset_single(d: usize, i: usize)
    ensures
        offset(seq![d], seq![i]) == i as nat,
{
    let s = seq![d];
    let x = seq![i];
    assert(s.drop_last() =~= Seq::<usize>::empty());
    assert(x.drop_last() =~= Seq::<usize>::empty());
    assert(offset(s.drop_last(), x.drop_last()) == 0);
    assert(x.last() == i);
    assert(offset(s, x) == offset(s.drop_last(), x.drop_last()) * (s.last() as nat) + (x.last() as nat));
    let o = offset(s.drop_last(), x.drop_last());
    assert(o * (d as nat) + (i as nat) == i as nat) by (nonlinear_arith)
        requires
            o == 0,
    ;
}

/// On a two-axis shape the offset of `[i, j]` is `i * d1 + j`.
pub proof fn lemma_offset_pair(d0: usize, d1: usize, i: usize, j: usize)
    ensures
        offset(seq![d0, d1], seq![i, j]) == (i as nat) * (d1 as nat) + (j as nat),
        shape_size(seq![d0, d1]) == (d0 as nat) * (d1 as nat),
{
    let s = seq![d0, d1];
    let x = seq![i, j];
    assert(s.drop_last() =~= seq![d0]);
    assert(x.drop_last() =~= seq![i]);
    lemma_offset_single(d0, i);
    lemma_size_single(d0);
    assert(offset(s, x) == offset(s.drop_last(), x.drop_last()) * (s.last() as nat) + (x.last() as nat));
    assert(shape_size(s) == shape_size(s.drop_last()) * (s.last() as nat));
}

/// A shape splits into three consecutive parts whose sizes multiply.
pub proof fn lemma_size_split3(s: Seq<usize>, i: int, j: int)
    requires
        0 <= i <= j <= s.len(),
    ensures
        shape_size(s) == shape_size(s.subrange(0, i)) * shape_size(s.subrange(i, j)) * shape_size(
            s.subrange(j, s.len() as int),
        ),
{
    let p = s.subrange(0, i);
    let m = s.subrange(i, j);
    let q = s.subrange(j, s.len() as int);
    assert(p + m + q =~= s);
    lemma_size_concat(p + m, q);
    lemma_size_concat(p, m);
}

/// A part of a shape with positive dimensions has no more elements than the whole.
pub proof fn lemma_size_sub_le(s: Seq<usize>, i: int, j: int)
    requires
        0 <= i <= j <= s.len(),
        all_positive(s),
    ensures
        shape_size(s.subrange(i, j)) <= shape_size(s),
{
    lemma_size_split3(s, i, j);
    let p = s.subrange(0, i);
    let q = s.subrange(j, s.len() as int);
    assert(all_positive(p));
    assert(all_positive(q)) by {
        assert forall|k: int| 0 <= k < q.len() implies #[trigger] q[k] >= 1 by {
            assert(s[j + k] >= 1);
        }
    }
    lemma_size_positive(p);
    lemma_size_positive(q);
    let a = shape_size(p);
    let b = shape_size(s.subrange(i, j));
    let c = shape_size(q);
    assert(b <= a * b * c) by (nonlinear_arith)
        requires
            a >= 1,
            c >= 1,
    ;
}

/// `n` dimensions of 1.
pub open spec fn ones(n: nat) -> Seq<usize> {
    Seq::new(n, |i: int| 1usize)
}

/// The multi-index of `n` zeros.
pub open spec fn zeros(n: nat) -> Seq<usize> {
    Seq::new(n, |i: int| 0usize)
}

/// A shape of ones has one element, at offset 0.
pub proof fn lemma_ones(n: nat)
    ensures
        shape_size(ones(n)) == 1,
        offset(ones(n), zeros(n)) == 0,
    decreases n,
{
    if n > 0 {
        assert(ones(n).drop_last() =~= ones((n - 1) as nat));
        assert(zeros(n).drop_last() =~= zeros((n - 1) as nat));
        lemma_ones((n - 1) as nat);
        assert(ones(n).last() == 1usize);
        assert(zeros(n).last() == 0usize);
    }
}

/// A shape with no elements has a zero dimension.
pub proof fn lemma_size_nonzero(s: Seq<usize>)
    requires
        shape_size(s) > 0,
    ensures
        all_positive(s),
    decreases s.len(),
{
    if s.len() > 0 {
        let a = shape_size(s.drop_last());
        let d = s.last() as nat;
        assert(a > 0 && d > 0) by (nonlinear_arith)
            requires
                a * d > 0,
        ;
        lemma_size_nonzero(s.drop_last());
        assert forall|k: int| 0 <= k < s.len() implies #[trigger] s[k] >= 1 by {
            if k < s.len() - 1 {
                assert(s.drop_last()[k] >= 1);
            }
        }
    }
}

} // verus!
