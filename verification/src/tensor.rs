//! Dense row-major tensors over an element type `T`, and the layout
//! operations that the state bookkeeping and the factors use: row selection,
//! stacking along the leading axis, tiling, and moving an axis.

use vstd::prelude::*;
use crate::shape::{
    lemma_size_nonzero, lemma_size_split3, lemma_size_sub_le, all_positive, lemma_size_concat, lemma_size_prefix_le, lemma_size_take_step, offset, shape_size,
};

verus! {

/// Position `row * width + col` of a row-major matrix of the given width.
pub open spec fn flat_pos(row: int, col: int, width: int) -> int {
    row * width + col
}

/// A dense tensor: a shape and its elements in row-major order.
pub struct DenseTensor<T> {
    pub shape: Vec<usize>,
    pub data: Vec<T>,
}

/// The elements of a sequence of tensors, one after the other.
pub open spec fn data_concat<T>(ts: Seq<DenseTensor<T>>) -> Seq<T>
    decreases ts.len(),
{
    if ts.len() == 0 {
        Seq::empty()
    } else {
        data_concat(ts.drop_last()) + ts.last().data@
    }
}

/// Sum of the leading dimensions of a sequence of tensors.
pub open spec fn leading_sum<T>(ts: Seq<DenseTensor<T>>) -> nat
    decreases ts.len(),
{
    if ts.len() == 0 {
        0
    } else {
        leading_sum(ts.drop_last()) + (ts.last().shape@[0] as nat)
    }
}

impl<T> DenseTensor<T> {
    /// The element count matches the shape.
    pub open spec fn wf(&self) -> bool {
        self.data@.len() == shape_size(self.shape@)
    }

    /// The element at a multi-index.
    pub open spec fn at(&self, idx: Seq<usize>) -> T {
        self.data@[offset(self.shape@, idx) as int]
    }

    /// Number of elements in one slice along the leading axis.
    pub open spec fn row_size(&self) -> nat {
        shape_size(self.shape@.skip(1))
    }

    /// Can be stacked with the others along the leading axis: at least one
    /// axis, and the same trailing shape as the others.
    pub open spec fn stackable(ts: Seq<DenseTensor<T>>) -> bool {
        &&& ts.len() > 0
        &&& forall|i: int| 0 <= i < ts.len() ==> (#[trigger] ts[i]).wf() && ts[i].shape@.len() >= 1
        &&& forall|i: int| 0 <= i < ts.len() ==> (#[trigger] ts[i]).shape@.skip(1) == ts[0].shape@.skip(1)
        &&& leading_sum(ts) <= usize::MAX
    }
}

/// A tensor with a leading axis has `shape[0]` slices of `row_size` elements.
pub proof fn lemma_rows<T>(t: DenseTensor<T>)
    requires
        t.shape@.len() >= 1,
    ensures
        shape_size(t.shape@) == (t.shape@[0] as nat) * t.row_size(),
{
    let s = t.shape@;
    let head = s.take(1);
    assert(head + s.skip(1) =~= s);
    lemma_size_concat(head, s.skip(1));
    assert(head.drop_last() =~= Seq::<usize>::empty());
    assert(shape_size(head.drop_last()) == 1);
    assert(head.last() == s[0]);
    assert(shape_size(head) == s[0] as nat);
    assert(shape_size(s) == shape_size(head) * shape_size(s.skip(1)));
}

/// Rows before row `k` end before the start of row `k`.
pub proof fn lemma_flat_pos_lt(row: int, col: int, k: int, width: int)
    requires
        0 <= row < k,
        0 <= col < width,
    ensures
        0 <= flat_pos(row, col, width) < k * width,
{
    assert(flat_pos(row, col, width) == row * width + col);
    assert(row * width + width <= k * width) by (nonlinear_arith)
        requires
            0 <= row < k,
            0 <= col < width,
    ;
    assert(row * width >= 0) by (nonlinear_arith)
        requires
            0 <= row,
            0 <= col < width,
    ;
}

/// Appends `src[start .. start + len]` to `out`.
fn append_range<T: Copy>(out: &mut Vec<T>, src: &Vec<T>, start: usize, len: usize)
    requires
        start + len <= src@.len(),
    ensures
        final(out)@ == old(out)@ + src@.subrange(start as int, start + len),
{
    let ghost init = out@;
    let src_len = src.len();
    let mut c: usize = 0;
    while c < len
        invariant
            c <= len,
            start + len <= src@.len(),
            src_len == src@.len(),
            out@ == init + src@.subrange(start as int, start + c),
        decreases len - c,
    {
        out.push(src[start + c]);
        c = c + 1;
        assert(out@ =~= init + src@.subrange(start as int, start + c));
    }
}

/// The trailing part `shape[1..]` of a shape.
fn shape_tail(shape: &Vec<usize>) -> (r: Vec<usize>)
    requires
        shape@.len() >= 1,
    ensures
        r@ == shape@.skip(1),
{
    let mut r: Vec<usize> = Vec::new();
    let mut j: usize = 1;
    while j < shape.len()
        invariant
            1 <= j <= shape@.len(),
            r@ == shape@.subrange(1, j as int),
        decreases shape@.len() - j,
    {
        r.push(shape[j]);
        j = j + 1;
        assert(r@ =~= shape@.subrange(1, j as int));
    }
    assert(r@ =~= shape@.skip(1));
    r
}

/// `[lead] + tail`.
fn prepend(lead: usize, tail: &Vec<usize>) -> (r: Vec<usize>)
    ensures
        r@ == seq![lead] + tail@,
{
    let mut r: Vec<usize> = Vec::new();
    r.push(lead);
    let mut j: usize = 0;
    while j < tail.len()
        invariant
            j <= tail@.len(),
            r@ == seq![lead] + tail@.take(j as int),
        decreases tail@.len() - j,
    {
        r.push(tail[j]);
        j = j + 1;
        assert(r@ =~= seq![lead] + tail@.take(j as int));
    }
    assert(tail@.take(tail@.len() as int) =~= tail@);
    r
}

/// Shape of a tensor whose leading axis is `lead` and whose trailing axes
/// are those of `shape`: its size is `lead * shape_size(shape[1..])`.
pub proof fn lemma_size_with_lead(lead: usize, tail: Seq<usize>)
    ensures
        shape_size(seq![lead] + tail) == (lead as nat) * shape_size(tail),
{
    let head = seq![lead];
    lemma_size_concat(head, tail);
    assert(head.drop_last() =~= Seq::<usize>::empty());
    assert(shape_size(head.drop_last()) == 1);
    assert(head.last() == lead);
    assert(shape_size(head) == 1 * (lead as nat));
}

impl<T: Copy> DenseTensor<T> {
    /// A tensor from a shape and row-major data; `None` when the number of
    /// elements does not match the shape.
    pub fn new(shape: Vec<usize>, data: Vec<T>) -> (r: Option<Self>)
        ensures
            r is Some <==> data@.len() == shape_size(shape@),
            r matches Some(t) ==> t.shape@ == shape@ && t.data@ == data@,
    {
        let dlen = data.len();
        // Any zero dimension makes the tensor empty, whatever the others are.
        let mut j: usize = 0;
        let mut has_zero = false;
        while j < shape.len()
            invariant
                j <= shape@.len(),
                has_zero <==> exists|q: int| 0 <= q < j && shape@[q] == 0,
            decreases shape@.len() - j,
        {
            if shape[j] == 0 {
                has_zero = true;
            }
            j = j + 1;
        }
        if has_zero {
            proof {
                let q = choose|q: int| 0 <= q < shape@.len() && shape@[q] == 0;
                lemma_size_zero(shape@, q);
            }
            if data.len() == 0 {
                return Some(DenseTensor { shape, data });
            } else {
                return None;
            }
        }
        assert(all_positive(shape@));
        let mut size: usize = 1;
        let mut k: usize = 0;
        while k < shape.len()
            invariant
                k <= shape@.len(),
                all_positive(shape@),
                dlen == data@.len(),
                size as nat == shape_size(shape@.take(k as int)),
            decreases shape@.len() - k,
        {
            proof {
                lemma_size_take_step(shape@, k as int);
            }
            match size.checked_mul(shape[k]) {
                Some(p) => {
                    size = p;
                },
                None => {
                    proof {
                        lemma_size_prefix_le(shape@, (k + 1) as int);
                        assert(shape_size(shape@) > usize::MAX);
                    }
                    return None;
                },
            }
            k = k + 1;
        }
        assert(shape@.take(shape@.len() as int) =~= shape@);
        if size == data.len() {
            Some(DenseTensor { shape, data })
        } else {
            None
        }
    }

    /// A copy of this tensor.
    pub fn duplicate(&self) -> (r: Self)
        ensures
            r.shape@ == self.shape@,
            r.data@ == self.data@,
    {
        let mut data: Vec<T> = Vec::new();
        append_range(&mut data, &self.data, 0, self.data.len());
        let mut shape: Vec<usize> = Vec::new();
        append_range(&mut shape, &self.shape, 0, self.shape.len());
        assert(data@ =~= self.data@);
        assert(shape@ =~= self.shape@);
        DenseTensor { shape, data }
    }

    /// The same elements viewed with another shape of the same size.
    pub fn reshape(self, shape: Vec<usize>) -> (r: Self)
        requires
            shape_size(shape@) == self.data@.len(),
        ensures
            r.shape@ == shape@,
            r.data@ == self.data@,
            r.wf(),
    {
        DenseTensor { shape, data: self.data }
    }

    /// The slices along the leading axis at the given positions, in order.
    pub fn select_rows(&self, indices: &Vec<usize>) -> (r: Self)
        requires
            self.wf(),
            self.shape@.len() >= 1,
            forall|k: int| 0 <= k < indices@.len() ==> #[trigger] indices@[k] < self.shape@[0],
        ensures
            r.wf(),
            r.shape@ == seq![indices@.len() as usize] + self.shape@.skip(1),
            forall|k: int, c: int|
                0 <= k < indices@.len() && 0 <= c < self.row_size() ==> r.data@[#[trigger] flat_pos(k, c, self.row_size() as int)]
                    == self.data@[flat_pos(indices@[k] as int, c, self.row_size() as int)],
    {
        proof {
            lemma_rows(*self);
        }
        let tail = shape_tail(&self.shape);
        let shape = prepend(indices.len(), &tail);
        proof {
            lemma_size_with_lead(indices@.len() as usize, tail@);
        }
        let n = self.shape[0];
        let m = indices.len();
        let mut out: Vec<T> = Vec::new();
        if n == 0 {
            if m > 0 {
                assert(indices@[0] < self.shape@[0]);
            }
            assert(m == 0);
            assert(indices@.len() * self.row_size() == 0) by (nonlinear_arith)
                requires
                    indices@.len() == 0,
            ;
            return DenseTensor { shape, data: out };
        }
        let width = self.data.len() / n;
        let ghost w = self.row_size();
        assert(width == w) by (nonlinear_arith)
            requires
                self.data@.len() == (n as nat) * w,
                n > 0,
                width == self.data@.len() / (n as nat),
        ;
        let mut k: usize = 0;
        while k < m
            invariant
                k <= m,
                m == indices@.len(),
                n == self.shape@[0],
                n > 0,
                width == w,
                self.data@.len() == (n as nat) * w,
                self.data@.len() <= usize::MAX,
                forall|q: int| 0 <= q < indices@.len() ==> #[trigger] indices@[q] < n,
                out@.len() == k * w,
                forall|k2: int, c: int|
                    0 <= k2 < k && 0 <= c < w ==> out@[#[trigger] flat_pos(k2, c, w as int)]
                        == self.data@[flat_pos(indices@[k2] as int, c, w as int)],
            decreases m - k,
        {
            let i = indices[k];
            assert(i * width + width <= self.data@.len()) by (nonlinear_arith)
                requires
                    i < n,
                    width == w,
                    self.data@.len() == (n as nat) * w,
            ;
            let ghost before = out@;
            append_range(&mut out, &self.data, i * width, width);
            assert forall|k2: int, c: int| 0 <= k2 < k + 1 && 0 <= c < w implies out@[#[trigger] flat_pos(k2, c, w as int)]
                == self.data@[flat_pos(indices@[k2] as int, c, w as int)] by {
                if k2 < k {
                    lemma_flat_pos_lt(k2, c, k as int, w as int);
                } else {
                    assert(flat_pos(k2, c, w as int) == k * w + c);
                }
            }
            assert(out@.len() == (k + 1) * w) by (nonlinear_arith)
                requires
                    out@.len() == k * w + w,
            ;
            k = k + 1;
        }
        DenseTensor { shape, data: out }
    }
}


/// Stacked tensors with a common trailing shape hold `leading_sum * row_size` elements.
pub proof fn lemma_data_concat_len<T>(ts: Seq<DenseTensor<T>>, tail: Seq<usize>)
    requires
        forall|i: int| 0 <= i < ts.len() ==> (#[trigger] ts[i]).wf() && ts[i].shape@.len() >= 1
            && ts[i].shape@.skip(1) == tail,
    ensures
        data_concat(ts).len() == leading_sum(ts) * shape_size(tail),
    decreases ts.len(),
{
    if ts.len() == 0 {
        assert(leading_sum(ts) == 0);
        assert(0 * shape_size(tail) == 0);
    } else {
        let p = ts.drop_last();
        assert forall|i: int| 0 <= i < p.len() implies (#[trigger] p[i]).wf() && p[i].shape@.len() >= 1
            && p[i].shape@.skip(1) == tail by {
            assert(p[i] == ts[i]);
        }
        lemma_data_concat_len(p, tail);
        let last = ts.last();
        assert(ts[ts.len() - 1] == last);
        lemma_rows(last);
        let a = leading_sum(p);
        let n = last.shape@[0] as nat;
        let w = shape_size(tail);
        assert((a + n) * w == a * w + n * w) by (nonlinear_arith);
    }
}

impl<T: Copy> DenseTensor<T> {
    /// Concatenation along the leading axis.
    pub fn concat_leading(leaves: &[DenseTensor<T>]) -> (r: Self)
        requires
            Self::stackable(leaves@),
        ensures
            r.wf(),
            r.shape@ == seq![leading_sum(leaves@) as usize] + leaves@[0].shape@.skip(1),
            r.data@ == data_concat(leaves@),
    {
        let tail = shape_tail(&leaves[0].shape);
        let mut out: Vec<T> = Vec::new();
        let mut lead: usize = 0;
        let mut i: usize = 0;
        while i < leaves.len()
            invariant
                i <= leaves@.len(),
                Self::stackable(leaves@),
                out@ == data_concat(leaves@.take(i as int)),
                lead as nat == leading_sum(leaves@.take(i as int)),
            decreases leaves@.len() - i,
        {
            let ghost ts = leaves@.take((i + 1) as int);
            assert(ts.drop_last() =~= leaves@.take(i as int));
            assert(ts.last() == leaves@[i as int]);
            proof {
                lemma_leading_sum_prefix(leaves@, (i + 1) as int);
            }
            let t = &leaves[i];
            assert(t.wf() && t.shape@.len() >= 1);
            append_range(&mut out, &t.data, 0, t.data.len());
            assert(t.data@.subrange(0, t.data@.len() as int) =~= t.data@);
            lead = lead + t.shape[0];
            i = i + 1;
        }
        assert(leaves@.take(leaves@.len() as int) =~= leaves@);
        let shape = prepend(lead, &tail);
        proof {
            lemma_size_with_lead(lead, tail@);
            assert forall|q: int| 0 <= q < leaves@.len() implies (#[trigger] leaves@[q]).wf()
                && leaves@[q].shape@.len() >= 1 && leaves@[q].shape@.skip(1) == tail@ by {}
            lemma_data_concat_len(leaves@, tail@);
        }
        DenseTensor { shape, data: out }
    }

    /// `times` copies of this tensor, one after the other along the leading axis.
    pub fn tile_leading(&self, times: usize) -> (r: Self)
        requires
            self.wf(),
            self.shape@.len() >= 1,
            times * self.shape@[0] <= usize::MAX,
            times * self.data@.len() <= usize::MAX,
        ensures
            tiled_from(*self, times as nat, r),
    {
        let len = self.data.len();
        let mut out: Vec<T> = Vec::new();
        let mut t: usize = 0;
        while t < times
            invariant
                t <= times,
                len == self.data@.len(),
                times * len <= usize::MAX,
                out@.len() == t * len,
                forall|t2: int, q: int|
                    0 <= t2 < t && 0 <= q < len ==> out@[#[trigger] flat_pos(t2, q, len as int)] == self.data@[q],
            decreases times - t,
        {
            append_range(&mut out, &self.data, 0, len);
            assert forall|t2: int, q: int| 0 <= t2 < t + 1 && 0 <= q < len implies out@[#[trigger] flat_pos(t2, q, len as int)]
                == self.data@[q] by {
                if t2 < t {
                    lemma_flat_pos_lt(t2, q, t as int, len as int);
                } else {
                    assert(flat_pos(t2, q, len as int) == t * len + q);
                }
            }
            assert(out@.len() == (t + 1) * len) by (nonlinear_arith)
                requires
                    out@.len() == t * len + len,
            ;
            t = t + 1;
        }
        let tail = shape_tail(&self.shape);
        let lead = times * self.shape[0];
        let shape = prepend(lead, &tail);
        proof {
            lemma_rows(*self);
            lemma_size_with_lead(lead, tail@);
            let n = self.shape@[0] as nat;
            let w = self.row_size();
            assert((times * n) * w == times * (n * w)) by (nonlinear_arith);
        }
        DenseTensor { shape, data: out }
    }
}

/// The leading sum of a prefix grows by the next tensor's leading dimension.
pub proof fn lemma_leading_sum_prefix<T>(ts: Seq<DenseTensor<T>>, k: int)
    requires
        0 < k <= ts.len(),
    ensures
        leading_sum(ts.take(k)) == leading_sum(ts.take(k - 1)) + (ts[k - 1].shape@[0] as nat),
        leading_sum(ts.take(k)) <= leading_sum(ts),
    decreases ts.len(),
{
    assert(ts.take(k).drop_last() =~= ts.take(k - 1));
    if k < ts.len() {
        assert(ts.drop_last().take(k) =~= ts.take(k));
        lemma_leading_sum_prefix(ts.drop_last(), k);
    } else {
        assert(ts.take(k) =~= ts);
    }
}


/// `r` is `times` copies of `src` one after the other along the leading axis.
pub open spec fn tiled_from<T>(src: DenseTensor<T>, times: nat, r: DenseTensor<T>) -> bool {
    &&& r.wf()
    &&& r.shape@ == seq![(times * src.shape@[0]) as usize] + src.shape@.skip(1)
    &&& r.data@.len() == times * src.data@.len()
    &&& forall|t: int, q: int|
        0 <= t < times && 0 <= q < src.data@.len() ==> r.data@[#[trigger] flat_pos(t, q, src.data@.len() as int)]
            == src.data@[q]
}

/// `r` is `src` with axis `axis` moved to position 1, the other axes keeping
/// their order: in the `[B, A, X, C]` view of `src` (`X` the moved axis, `A`
/// the axes before it, `C` those after it) element `[b, a, x, c]` is element
/// `[b, x, a, c]` of the `[B, X, A, C]` view of `r`.
pub open spec fn moved_axis_from<T>(src: DenseTensor<T>, axis: int, r: DenseTensor<T>) -> bool {
    let s = src.shape@;
    let sa = shape_size(s.subrange(1, axis));
    let sx = s[axis];
    let sc = shape_size(s.subrange(axis + 1, s.len() as int));
    &&& r.wf()
    &&& r.shape@ == seq![s[0], s[axis]] + s.subrange(1, axis) + s.subrange(axis + 1, s.len() as int)
    &&& forall|b: int, x: int, a: int, c: int|
        0 <= b < s[0] && 0 <= x < sx && 0 <= a < sa && 0 <= c < sc ==> r.data@[#[trigger] pos4(
            b,
            x,
            a,
            c,
            sx as int,
            sa as int,
            sc as int,
        )] == src.data@[pos4(b, a, x, c, sa as int, sx as int, sc as int)]
}

/// Row-major position of `[i0, i1, i2, i3]` in a tensor of shape `[_, d1, d2, d3]`.
pub open spec fn pos4(i0: int, i1: int, i2: int, i3: int, d1: int, d2: int, d3: int) -> int {
    ((i0 * d1 + i1) * d2 + i2) * d3 + i3
}

/// Appends, for each `i < count`, the elements `src[base + i * stride ..][.. width]`.
fn append_strided<T: Copy>(out: &mut Vec<T>, src: &Vec<T>, base: usize, count: usize, stride: usize, width: usize)
    requires
        count > 0 ==> base + (count - 1) * stride + width <= src@.len(),
    ensures
        final(out)@.len() == old(out)@.len() + count * width,
        final(out)@.take(old(out)@.len() as int) == old(out)@,
        forall|i: int, w: int|
            0 <= i < count && 0 <= w < width ==> final(out)@[old(out)@.len() + #[trigger] flat_pos(i, w, width as int)]
                == src@[base + i * stride + w],
{
    let ghost init = out@;
    let src_len = src.len();
    let mut i: usize = 0;
    while i < count
        invariant
            i <= count,
            src_len == src@.len(),
            count > 0 ==> base + (count - 1) * stride + width <= src@.len(),
            out@.len() == init.len() + i * width,
            out@.take(init.len() as int) == init,
            forall|i2: int, w: int|
                0 <= i2 < i && 0 <= w < width ==> out@[init.len() + #[trigger] flat_pos(i2, w, width as int)]
                    == src@[base + i2 * stride + w],
        decreases count - i,
    {
        assert(i * stride <= (count - 1) * stride) by (nonlinear_arith)
            requires
                i < count,
        ;
        let start = base + i * stride;
        let ghost before = out@;
        append_range(out, src, start, width);
        assert(out@.take(init.len() as int) =~= init) by {
            assert forall|q: int| 0 <= q < init.len() implies out@[q] == init[q] by {
                assert(before[q] == init[q]) by {
                    assert(before.take(init.len() as int)[q] == init[q]);
                }
            }
        }
        assert forall|i2: int, w: int| 0 <= i2 < i + 1 && 0 <= w < width implies out@[init.len()
            + #[trigger] flat_pos(i2, w, width as int)] == src@[base + i2 * stride + w] by {
            if i2 < i {
                lemma_flat_pos_lt(i2, w, i as int, width as int);
            } else {
                assert(flat_pos(i2, w, width as int) == i * width + w);
            }
        }
        assert(out@.len() == init.len() + (i + 1) * width) by (nonlinear_arith)
            requires
                out@.len() == init.len() + i * width + width,
        ;
        i = i + 1;
    }
}

/// The product of the dimensions `shape[i..j]`, when all of `shape` is positive
/// and fits in `usize`.
fn sub_size(shape: &Vec<usize>, i: usize, j: usize, Ghost(total): Ghost<nat>) -> (r: usize)
    requires
        i <= j <= shape@.len(),
        all_positive(shape@),
        shape_size(shape@) == total,
        total <= usize::MAX,
    ensures
        r as nat == shape_size(shape@.subrange(i as int, j as int)),
{
    let mut acc: usize = 1;
    let mut k: usize = i;
    assert(shape@.subrange(i as int, i as int) =~= Seq::<usize>::empty());
    while k < j
        invariant
            i <= k <= j,
            j <= shape@.len(),
            all_positive(shape@),
            shape_size(shape@) == total,
            total <= usize::MAX,
            acc as nat == shape_size(shape@.subrange(i as int, k as int)),
        decreases j - k,
    {
        proof {
            assert(shape@.subrange(i as int, k + 1).drop_last() =~= shape@.subrange(i as int, k as int));
            lemma_size_sub_le(shape@, i as int, (k + 1) as int);
        }
        acc = acc * shape[k];
        k = k + 1;
    }
    acc
}

impl<T: Copy> DenseTensor<T> {
    /// Moves axis `axis` to position 1, keeping the order of the other axes.
    /// With `A` the size of the axes `1..axis`, `X` the moved dimension and
    /// `C` the size of the axes after it, the element at `[b, a, x, c]` of the
    /// `[B, A, X, C]` view goes to `[b, x, a, c]` of the `[B, X, A, C]` view.
    pub fn move_axis_to_second(&self, axis: usize) -> (r: Self)
        requires
            self.wf(),
            1 <= axis < self.shape@.len(),
        ensures
            moved_axis_from(*self, axis as int, r),
    {
        let ghost s = self.shape@;
        let ghost sa = shape_size(s.subrange(1, axis as int));
        let ghost sc = shape_size(s.subrange(axis + 1, s.len() as int));
        let rank = self.shape.len();
        // The new shape.
        let mut shape: Vec<usize> = Vec::new();
        shape.push(self.shape[0]);
        shape.push(self.shape[axis]);
        let mut k: usize = 1;
        while k < axis
            invariant
                1 <= k <= axis,
                axis < s.len(),
                s == self.shape@,
                shape@ == seq![s[0], s[axis as int]] + s.subrange(1, k as int),
            decreases axis - k,
        {
            shape.push(self.shape[k]);
            k = k + 1;
            assert(shape@ =~= seq![s[0], s[axis as int]] + s.subrange(1, k as int));
        }
        let mut k: usize = axis + 1;
        while k < rank
            invariant
                axis + 1 <= k <= rank,
                rank == s.len(),
                s == self.shape@,
                shape@ == seq![s[0], s[axis as int]] + s.subrange(1, axis as int) + s.subrange(axis + 1, k as int),
            decreases rank - k,
        {
            shape.push(self.shape[k]);
            k = k + 1;
            assert(shape@ =~= seq![s[0], s[axis as int]] + s.subrange(1, axis as int) + s.subrange(axis + 1, k as int));
        }
        let ghost ns = shape@;
        let ghost bb = s[0] as nat;
        let ghost xx = s[axis as int] as nat;
        proof {
            // Both shapes have B * A * X * C elements.
            lemma_size_split3(s, 1, axis as int);
            let tail = s.subrange(axis as int, s.len() as int);
            assert(tail.take(1) =~= seq![s[axis as int]]);
            assert(tail.skip(1) =~= s.subrange(axis + 1, s.len() as int));
            assert(tail =~= tail.take(1) + tail.skip(1));
            lemma_size_concat(tail.take(1), tail.skip(1));
            crate::shape::lemma_size_single(s[axis as int]);
            assert(s.subrange(0, 1) =~= seq![s[0]]);
            crate::shape::lemma_size_single(s[0]);
            assert(ns =~= seq![s[0], s[axis as int]] + s.subrange(1, axis as int) + s.subrange(axis + 1, s.len() as int));
            lemma_size_concat(seq![s[0], s[axis as int]] + s.subrange(1, axis as int), s.subrange(axis + 1, s.len() as int));
            lemma_size_concat(seq![s[0], s[axis as int]], s.subrange(1, axis as int));
            crate::shape::lemma_offset_pair(s[0], s[axis as int], 0, 0);
            assert(shape_size(s) == bb * sa * (xx * sc));
            assert(shape_size(ns) == bb * xx * sa * sc);
            assert(bb * sa * (xx * sc) == bb * xx * sa * sc) by (nonlinear_arith);
        }
        let mut out: Vec<T> = Vec::new();
        if self.data.len() == 0 {
            proof {
                assert(bb == 0 || xx == 0 || sa == 0 || sc == 0) by (nonlinear_arith)
                    requires
                        bb * sa * (xx * sc) == 0,
                ;
            }
            return DenseTensor { shape, data: out };
        }
        let dlen = self.data.len();
        proof {
            lemma_size_nonzero(s);
        }
        let big_b = self.shape[0];
        let big_x = self.shape[axis];
        let big_a = sub_size(&self.shape, 1, axis, Ghost(shape_size(s)));
        let big_c = sub_size(&self.shape, axis + 1, rank, Ghost(shape_size(s)));
        proof {
            assert(dlen == bb * sa * (xx * sc));
            assert(all_positive(s.subrange(1, axis as int)));
            assert(all_positive(s.subrange(axis + 1, s.len() as int))) by {
                let q = s.subrange(axis + 1, s.len() as int);
                assert forall|k: int| 0 <= k < q.len() implies #[trigger] q[k] >= 1 by {
                    assert(s[axis + 1 + k] >= 1);
                }
            }
            crate::shape::lemma_size_positive(s.subrange(1, axis as int));
            crate::shape::lemma_size_positive(s.subrange(axis + 1, s.len() as int));
            assert(big_a >= 1 && big_c >= 1 && big_b >= 1 && big_x >= 1);
            assert(big_x * big_c <= dlen && big_a * (big_x * big_c) <= dlen && big_b * (big_a * (big_x * big_c)) == dlen
                && big_a * big_c <= dlen)
                by (nonlinear_arith)
                requires
                    dlen == big_b * big_a * (big_x * big_c),
                    big_a >= 1,
                    big_b >= 1,
                    big_c >= 1,
                    big_x >= 1,
            ;
        }
        let xc = big_x * big_c;
        let block = big_a * xc;
        let ac = big_a * big_c;
        assert(ac <= block) by (nonlinear_arith)
            requires
                ac == big_a * big_c,
                block == big_a * (big_x * big_c),
                big_x >= 1,
        ;
        let mut b: usize = 0;
        while b < big_b
            invariant
                b <= big_b,
                dlen == self.data@.len(),
                xc == big_x * big_c,
                block == big_a * xc,
                ac == big_a * big_c,
                ac <= block,
                big_b * block == dlen,
                big_a >= 1,
                big_c >= 1,
                out@.len() == b * block,
                forall|b2: int, x: int, a: int, c: int|
                    0 <= b2 < b && 0 <= x < big_x && 0 <= a < big_a && 0 <= c < big_c ==> out@[#[trigger] pos4(
                        b2,
                        x,
                        a,
                        c,
                        big_x as int,
                        big_a as int,
                        big_c as int,
                    )] == self.data@[pos4(b2, a, x, c, big_a as int, big_x as int, big_c as int)],
            decreases big_b - b,
        {
            assert(b * block + block <= dlen) by (nonlinear_arith)
                requires
                    b < big_b,
                    big_b * block == dlen,
            ;
            let base_b = b * block;
            let ghost before_b = out@;
            let mut x: usize = 0;
            while x < big_x
                invariant
                    x <= big_x,
                    b < big_b,
                    base_b == b * block,
                    base_b + block <= dlen,
                    dlen == self.data@.len(),
                    xc == big_x * big_c,
                    block == big_a * xc,
                    ac == big_a * big_c,
                    big_a >= 1,
                    big_c >= 1,
                    out@.len() == base_b + x * ac,
                    out@.take(base_b as int) == before_b,
                    forall|x2: int, a: int, c: int|
                        0 <= x2 < x && 0 <= a < big_a && 0 <= c < big_c ==> out@[base_b + #[trigger] flat_pos(
                            x2,
                            flat_pos(a, c, big_c as int),
                            ac as int,
                        )] == self.data@[base_b + x2 * big_c + a * xc + c],
                decreases big_x - x,
            {
                assert(x * big_c + (big_a - 1) * xc + big_c <= block) by (nonlinear_arith)
                    requires
                        x < big_x,
                        big_a >= 1,
                        xc == big_x * big_c,
                        block == big_a * xc,
                ;
                let ghost before_x = out@;
                append_strided(&mut out, &self.data, base_b + x * big_c, big_a, xc, big_c);
                proof {
                    assert(out@.take(base_b as int) =~= before_b) by {
                        assert forall|q: int| 0 <= q < base_b implies out@[q] == before_b[q] by {
                            assert(out@.take(before_x.len() as int)[q] == before_x[q]);
                            assert(before_x.take(base_b as int)[q] == before_b[q]);
                        }
                    }
                    assert forall|x2: int, a: int, c: int| 0 <= x2 < x + 1 && 0 <= a < big_a && 0 <= c < big_c implies out@[base_b
                        + #[trigger] flat_pos(x2, flat_pos(a, c, big_c as int), ac as int)] == self.data@[base_b + x2 * big_c + a
                        * xc + c] by {
                        let w = flat_pos(a, c, big_c as int);
                        lemma_flat_pos_lt(a, c, big_a as int, big_c as int);
                        if x2 < x {
                            lemma_flat_pos_lt(x2, w, x as int, ac as int);
                            assert(out@.take(before_x.len() as int)[base_b + flat_pos(x2, w, ac as int)]
                                == before_x[base_b + flat_pos(x2, w, ac as int)]);
                        } else {
                            assert(flat_pos(x2, w, ac as int) == x * ac + flat_pos(a, c, big_c as int));
                            assert(out@[before_x.len() + flat_pos(a, c, big_c as int)] == self.data@[base_b + x * big_c
                                + a * xc + c]);
                        }
                    }
                    assert(out@.len() == base_b + (x + 1) * ac) by (nonlinear_arith)
                        requires
                            out@.len() == base_b + x * ac + big_a * big_c,
                            ac == big_a * big_c,
                    ;
                }
                x = x + 1;
            }
            proof {
                assert(big_x * ac == block) by (nonlinear_arith)
                    requires
                        ac == big_a * big_c,
                        block == big_a * (big_x * big_c),
                        xc == big_x * big_c,
                ;
                assert forall|b2: int, x2: int, a: int, c: int|
                    0 <= b2 < b + 1 && 0 <= x2 < big_x && 0 <= a < big_a && 0 <= c < big_c implies out@[#[trigger] pos4(
                    b2,
                    x2,
                    a,
                    c,
                    big_x as int,
                    big_a as int,
                    big_c as int,
                )] == self.data@[pos4(b2, a, x2, c, big_a as int, big_x as int, big_c as int)] by {
                    let p_out = pos4(b2, x2, a, c, big_x as int, big_a as int, big_c as int);
                    let p_in = pos4(b2, a, x2, c, big_a as int, big_x as int, big_c as int);
                    let w = flat_pos(a, c, big_c as int);
                    lemma_flat_pos_lt(a, c, big_a as int, big_c as int);
                    lemma_flat_pos_lt(x2, w, big_x as int, ac as int);
                    assert(p_out == b2 * block + flat_pos(x2, w, ac as int)) by (nonlinear_arith)
                        requires
                            p_out == ((b2 * big_x + x2) * big_a + a) * big_c + c,
                            w == a * big_c + c,
                            flat_pos(x2, w, ac as int) == x2 * ac + w,
                            ac == big_a * big_c,
                            block == big_a * (big_x * big_c),
                    ;
                    assert(p_in == b2 * block + x2 * big_c + a * xc + c) by (nonlinear_arith)
                        requires
                            p_in == ((b2 * big_a + a) * big_x + x2) * big_c + c,
                            xc == big_x * big_c,
                            block == big_a * xc,
                    ;
                    if b2 < b {
                        assert(flat_pos(x2, w, ac as int) < block);
                        assert(b2 * block + block <= base_b) by (nonlinear_arith)
                            requires
                                b2 < b,
                                base_b == b * block,
                        ;
                        assert(out@.take(base_b as int)[p_out] == before_b[p_out]);
                    }
                }
                assert(out@.len() == (b + 1) * block) by (nonlinear_arith)
                    requires
                        out@.len() == b * block + big_x * ac,
                        big_x * ac == block,
                ;
            }
            b = b + 1;
        }
        proof {
            assert(sa == big_a as nat);
            assert(sc == big_c as nat);
        }
        DenseTensor { shape, data: out }
    }
}

/// A shape with a zero dimension has no elements.
pub proof fn lemma_size_zero(shape: Seq<usize>, q: int)
    requires
        0 <= q < shape.len(),
        shape[q] == 0,
    ensures
        shape_size(shape) == 0,
    decreases shape.len(),
{
    if q == shape.len() - 1 {
        assert(shape_size(shape) == shape_size(shape.drop_last()) * 0);
    } else {
        lemma_size_zero(shape.drop_last(), q);
        assert(shape_size(shape) == 0 * (shape.last() as nat));
    }
}

} // verus!
