//! Strided-layout algebra: the mathematical model of a tensor's shape and
//! strides over a flat buffer, together with the row-major (contiguous)
//! layout and the lemmas that relate offsets, bounds and permutations.
use vstd::prelude::*;

verus! {

/// Product of all extents in `dims`; the number of logical elements.
pub open spec fn prod(dims: Seq<usize>) -> int
    decreases dims.len(),
{
    if dims.len() == 0 {
        1
    } else {
        prod(dims.drop_last()) * dims.last()
    }
}

/// Every axis extent is at least one.
pub open spec fn dims_positive(dims: Seq<usize>) -> bool {
    forall|i: int| 0 <= i < dims.len() ==> #[trigger] dims[i] >= 1
}

/// Row-major layout: each axis's stride is the product of the extents
/// strictly to its right, so the last axis has stride one.
pub open spec fn is_contiguous(dims: Seq<usize>, strides: Seq<usize>) -> bool {
    &&& strides.len() == dims.len()
    &&& forall|i: int|
        0 <= i < dims.len() ==> #[trigger] strides[i] == prod(
            dims.subrange(i + 1, dims.len() as int),
        )
}

/// Physical offset of the `j`-th element in row-major enumeration of the
/// logical shape: the last axis index is `j % extent`, and the remaining
/// axes consume `j / extent`.
pub open spec fn offset_of(dims: Seq<usize>, strides: Seq<usize>, j: int) -> int
    decreases dims.len(),
{
    if dims.len() == 0 {
        0
    } else {
        (j % (dims.last() as int)) * strides.last() + offset_of(
            dims.drop_last(),
            strides.drop_last(),
            j / (dims.last() as int),
        )
    }
}

/// Largest physical offset addressed by the view: every axis at its
/// maximal index.
pub open spec fn max_offset(dims: Seq<usize>, strides: Seq<usize>) -> int
    decreases dims.len(),
{
    if dims.len() == 0 {
        0
    } else {
        (dims.last() - 1) * strides.last() + max_offset(dims.drop_last(), strides.drop_last())
    }
}

/// The `j`-th logical element (row-major order) of the view `(dims, strides)`
/// over the buffer `buf`.
pub open spec fn element_at(dims: Seq<usize>, strides: Seq<usize>, buf: Seq<u32>, j: int) -> u32 {
    buf[offset_of(dims, strides, j)]
}

#[verifier::spinoff_prover]
pub proof fn lemma_prod_front(dims: Seq<usize>)
    requires
        dims.len() > 0,
    ensures
        prod(dims) == dims[0] * prod(dims.subrange(1, dims.len() as int)),
    decreases dims.len(),
{
    let n = dims.len() as int;
    if dims.len() == 1 {
        assert(dims.subrange(1, 1) =~= Seq::<usize>::empty());
        assert(dims.drop_last() =~= Seq::<usize>::empty());
    } else {
        let ddl = dims.drop_last();
        let m = ddl.len() as int;
        lemma_prod_front(ddl);
        assert(dims.subrange(1, n).drop_last() =~= ddl.subrange(1, m));
        assert(dims.subrange(1, n).last() == dims.last());
        assert(prod(dims.subrange(1, n)) == prod(ddl.subrange(1, m)) * dims.last());
        let a = dims[0] as int;
        let b = prod(ddl.subrange(1, m));
        let c = dims.last() as int;
        assert(prod(ddl) == a * b);
        assert(prod(dims) == prod(ddl) * c);
        assert((a * b) * c == a * (b * c)) by (nonlinear_arith);
        assert(prod(dims) == a * (b * c));
    }
}

pub proof fn lemma_prod_positive(dims: Seq<usize>)
    requires
        dims_positive(dims),
    ensures
        prod(dims) >= 1,
    decreases dims.len(),
{
    if dims.len() > 0 {
        lemma_prod_positive(dims.drop_last());
        assert(prod(dims.drop_last()) * dims.last() >= 1) by (nonlinear_arith)
            requires
                prod(dims.drop_last()) >= 1,
                dims.last() >= 1,
        ;
    }
}

/// The product of any suffix of positive extents is at most the full product.
pub proof fn lemma_prod_suffix_le(dims: Seq<usize>, i: int)
    requires
        dims_positive(dims),
        0 <= i <= dims.len(),
    ensures
        1 <= prod(dims.subrange(i, dims.len() as int)),
        prod(dims.subrange(i, dims.len() as int)) <= prod(dims),
    decreases i,
{
    let n = dims.len() as int;
    assert(dims_positive(dims.subrange(i, n)));
    lemma_prod_positive(dims.subrange(i, n));
    if i == 0 {
        assert(dims.subrange(0, n) =~= dims);
    } else {
        lemma_prod_suffix_le(dims, i - 1);
        lemma_prod_front(dims.subrange(i - 1, n));
        assert(dims.subrange(i - 1, n).subrange(1, n - (i - 1)) =~= dims.subrange(i, n));
        assert(prod(dims.subrange(i - 1, n)) == dims[i - 1] * prod(dims.subrange(i, n)));
        assert(dims[i - 1] * prod(dims.subrange(i, n)) >= prod(dims.subrange(i, n)))
            by (nonlinear_arith)
            requires
                dims[i - 1] >= 1,
                prod(dims.subrange(i, n)) >= 1,
        ;
    }
}

proof fn lemma_prod_push(dims: Seq<usize>, x: usize)
    ensures
        prod(dims.push(x)) == prod(dims) * x,
{
    assert(dims.push(x).drop_last() =~= dims);
}

/// Contiguity invariant: a row-major layout's last axis has stride one,
/// and every axis's stride is the product of the extents strictly to its
/// right (the second part is the definition restated for the reader).
pub proof fn lemma_contiguous_invariant(dims: Seq<usize>, strides: Seq<usize>)
    requires
        is_contiguous(dims, strides),
        dims.len() > 0,
    ensures
        strides[dims.len() - 1] == 1,
        forall|i: int|
            0 <= i < dims.len() ==> #[trigger] strides[i] == prod(
                dims.subrange(i + 1, dims.len() as int),
            ),
{
    assert(dims.subrange(dims.len() as int, dims.len() as int) =~= Seq::<usize>::empty());
}

/// A row-major offset is never negative.
pub proof fn lemma_offset_nonneg(dims: Seq<usize>, strides: Seq<usize>, j: int)
    requires
        dims_positive(dims),
        j >= 0,
    ensures
        offset_of(dims, strides, j) >= 0,
    decreases dims.len(),
{
    if dims.len() > 0 {
        let d = dims.last() as int;
        lemma_offset_nonneg(dims.drop_last(), strides.drop_last(), j / d);
        assert((j % d) * strides.last() >= 0) by (nonlinear_arith)
            requires
                j % d >= 0,
                strides.last() >= 0,
        ;
    }
}

/// The addressable extent of a view with positive extents is never
/// negative.
pub proof fn lemma_max_offset_nonneg(dims: Seq<usize>, strides: Seq<usize>)
    requires
        dims_positive(dims),
    ensures
        max_offset(dims, strides) >= 0,
    decreases dims.len(),
{
    if dims.len() > 0 {
        lemma_max_offset_nonneg(dims.drop_last(), strides.drop_last());
        assert((dims.last() - 1) * (strides.last() as int) >= 0) by (nonlinear_arith)
            requires
                dims.last() >= 1,
                strides.last() >= 0,
        ;
    }
}

/// Every logical element's offset lies within `max_offset`.
pub proof fn lemma_offset_in_range(dims: Seq<usize>, strides: Seq<usize>, j: int)
    requires
        dims_positive(dims),
        j >= 0,
    ensures
        0 <= offset_of(dims, strides, j) <= max_offset(dims, strides),
    decreases dims.len(),
{
    if dims.len() > 0 {
        let d = dims.last() as int;
        lemma_offset_in_range(dims.drop_last(), strides.drop_last(), j / d);
        assert((j % d) * strides.last() >= 0 && (j % d) * strides.last() <= (d - 1)
            * strides.last()) by (nonlinear_arith)
            requires
                0 <= j % d <= d - 1,
                strides.last() >= 0,
        ;
    }
}

/// Offsets under strides that are `c` times the contiguous strides are `c`
/// times the row-major position.
proof fn lemma_offset_contig_scaled(dims: Seq<usize>, strides: Seq<usize>, j: int, c: int)
    requires
        strides.len() == dims.len(),
        dims_positive(dims),
        c >= 0,
        forall|i: int|
            0 <= i < dims.len() ==> #[trigger] strides[i] == c * prod(
                dims.subrange(i + 1, dims.len() as int),
            ),
        0 <= j < prod(dims),
    ensures
        offset_of(dims, strides, j) == c * j,
    decreases dims.len(),
{
    let n = dims.len() as int;
    if dims.len() == 0 {
        assert(j == 0);
    } else {
        let d = dims.last() as int;
        let ddl = dims.drop_last();
        let sdl = strides.drop_last();
        assert(dims.subrange(n - 1 + 1, n) =~= Seq::<usize>::empty());
        assert(strides.last() == c);
        // the shortened strides are (c * d) times the contiguous strides of ddl
        assert forall|i: int| 0 <= i < ddl.len() implies #[trigger] sdl[i] == (c * d) * prod(
            ddl.subrange(i + 1, ddl.len() as int),
        ) by {
            assert(dims.subrange(i + 1, n) =~= ddl.subrange(i + 1, ddl.len() as int).push(
                dims.last(),
            ));
            lemma_prod_push(ddl.subrange(i + 1, ddl.len() as int), dims.last());
            assert(c * (prod(ddl.subrange(i + 1, ddl.len() as int)) * d) == (c * d) * prod(
                ddl.subrange(i + 1, ddl.len() as int),
            )) by (nonlinear_arith);
        }
        assert(prod(dims) == prod(ddl) * d);
        assert(0 <= j / d < prod(ddl)) by (nonlinear_arith)
            requires
                0 <= j < prod(ddl) * d,
                d >= 1,
        ;
        lemma_prod_positive(ddl);
        lemma_offset_contig_scaled(ddl, sdl, j / d, c * d);
        vstd::arithmetic::div_mod::lemma_fundamental_div_mod(j, d);
        assert((j % d) * c + (c * d) * (j / d) == c * j) by (nonlinear_arith)
            requires
                d >= 1,
                j == d * (j / d) + j % d,
        ;
    }
}

/// Under a contiguous layout, the `j`-th logical element sits at physical
/// offset `j`: reading the buffer front to back reads the logical sequence.
pub proof fn lemma_offset_contig_id(dims: Seq<usize>, strides: Seq<usize>, j: int)
    requires
        is_contiguous(dims, strides),
        dims_positive(dims),
        0 <= j < prod(dims),
    ensures
        offset_of(dims, strides, j) == j,
{
    lemma_offset_contig_scaled(dims, strides, j, 1);
}

/// A contiguous view addresses exactly the offsets `0 .. prod(dims)`.
pub proof fn lemma_max_offset_contig(dims: Seq<usize>, strides: Seq<usize>)
    requires
        is_contiguous(dims, strides),
        dims_positive(dims),
    ensures
        max_offset(dims, strides) == prod(dims) - 1,
{
    lemma_max_offset_contig_scaled(dims, strides, 1);
}

proof fn lemma_max_offset_contig_scaled(dims: Seq<usize>, strides: Seq<usize>, c: int)
    requires
        strides.len() == dims.len(),
        dims_positive(dims),
        c >= 0,
        forall|i: int|
            0 <= i < dims.len() ==> #[trigger] strides[i] == c * prod(
                dims.subrange(i + 1, dims.len() as int),
            ),
    ensures
        max_offset(dims, strides) == c * (prod(dims) - 1),
    decreases dims.len(),
{
    let n = dims.len() as int;
    if dims.len() == 0 {
        assert(max_offset(dims, strides) == 0);
        assert(prod(dims) == 1);
        assert(c * (prod(dims) - 1) == 0) by (nonlinear_arith)
            requires
                prod(dims) == 1,
        ;
    } else {
        let d = dims.last() as int;
        let ddl = dims.drop_last();
        let sdl = strides.drop_last();
        assert(dims.subrange(n - 1 + 1, n) =~= Seq::<usize>::empty());
        assert(strides.last() == c);
        assert forall|i: int| 0 <= i < ddl.len() implies #[trigger] sdl[i] == (c * d) * prod(
            ddl.subrange(i + 1, ddl.len() as int),
        ) by {
            assert(dims.subrange(i + 1, n) =~= ddl.subrange(i + 1, ddl.len() as int).push(
                dims.last(),
            ));
            lemma_prod_push(ddl.subrange(i + 1, ddl.len() as int), dims.last());
            assert(c * (prod(ddl.subrange(i + 1, ddl.len() as int)) * d) == (c * d) * prod(
                ddl.subrange(i + 1, ddl.len() as int),
            )) by (nonlinear_arith);
        }
        assert(c * d >= 0) by (nonlinear_arith)
            requires
                c >= 0,
                d >= 1,
        ;
        lemma_max_offset_contig_scaled(ddl, sdl, c * d);
        let p = prod(ddl);
        assert(max_offset(dims, strides) == (d - 1) * c + (c * d) * (p - 1));
        assert(max_offset(dims, strides) == c * (prod(dims) - 1)) by (nonlinear_arith)
            requires
                max_offset(dims, strides) == (d - 1) * c + (c * d) * (p - 1),
                prod(dims) == p * d,
        ;
    }
}

/// Row-major strides for `dims`: last axis stride one, each axis the
/// product of the extents to its right.
pub fn new_contiguous_strides(dims: &Vec<usize>) -> (r: Vec<usize>)
    requires
        dims_positive(dims@),
        prod(dims@) <= usize::MAX,
    ensures
        is_contiguous(dims@, r@),
{
    let n = dims.len();
    let ghost dseq = dims@;
    let mut rev: Vec<usize> = Vec::new();
    let mut acc: usize = 1;
    let mut i: usize = n;
    proof {
        assert(dseq.subrange(n as int, n as int) =~= Seq::<usize>::empty());
    }
    while i > 0
        invariant
            i <= n,
            n == dseq.len(),
            dseq == dims@,
            dims_positive(dseq),
            prod(dseq) <= usize::MAX,
            acc == prod(dseq.subrange(i as int, n as int)),
            rev@.len() == n - i,
            forall|k: int|
                0 <= k < n - i ==> #[trigger] rev@[k] == prod(dseq.subrange(n - k, n as int)),
        decreases i,
    {
        i = i - 1;
        rev.push(acc);
        proof {
            lemma_prod_front(dseq.subrange(i as int, n as int));
            assert(dseq.subrange(i as int, n as int).subrange(1, (n - i) as int) =~= dseq.subrange(
                i as int + 1,
                n as int,
            ));
            lemma_prod_suffix_le(dseq, i as int);
            assert(prod(dseq.subrange(i as int, n as int)) == dseq[i as int] * prod(
                dseq.subrange(i as int + 1, n as int),
            ));
            assert(acc * dims@[i as int] == dseq[i as int] * prod(
                dseq.subrange(i as int + 1, n as int),
            )) by (nonlinear_arith)
                requires
                    acc == prod(dseq.subrange(i as int + 1, n as int)),
                    dims@[i as int] == dseq[i as int],
            ;
        }
        acc = acc * dims[i];
    }
    let mut r: Vec<usize> = Vec::new();
    let mut k: usize = 0;
    while k < n
        invariant
            k <= n,
            n == dseq.len(),
            dseq == dims@,
            rev@.len() == n,
            forall|t: int|
                0 <= t < n ==> #[trigger] rev@[t] == prod(dseq.subrange(n - t, n as int)),
            r@.len() == k,
            forall|t: int|
                0 <= t < k ==> #[trigger] r@[t] == prod(dseq.subrange(t + 1, n as int)),
        decreases n - k,
    {
        r.push(rev[n - 1 - k]);
        k = k + 1;
    }
    r
}

/// Physical offset of logical element `j`, walking axes from the last to
/// the first, peeling one index digit per axis.
pub fn compute_offset(dims: &Vec<usize>, strides: &Vec<usize>, j: usize) -> (off: usize)
    requires
        dims@.len() == strides@.len(),
        dims_positive(dims@),
        j < prod(dims@),
        max_offset(dims@, strides@) <= usize::MAX,
    ensures
        off as int == offset_of(dims@, strides@, j as int),
        off <= max_offset(dims@, strides@),
{
    let n = dims.len();
    let ghost total = offset_of(dims@, strides@, j as int);
    proof {
        lemma_offset_in_range(dims@, strides@, j as int);
        assert(dims@.subrange(0, n as int) =~= dims@);
        assert(strides@.subrange(0, n as int) =~= strides@);
    }
    let mut acc: usize = 0;
    let mut rem: usize = j;
    let mut i: usize = n;
    while i > 0
        invariant
            i <= n,
            n == dims@.len(),
            n == strides@.len(),
            dims_positive(dims@),
            total == offset_of(dims@, strides@, j as int),
            0 <= total <= max_offset(dims@, strides@),
            max_offset(dims@, strides@) <= usize::MAX,
            acc + offset_of(
                dims@.subrange(0, i as int),
                strides@.subrange(0, i as int),
                rem as int,
            ) == total,
            acc <= total,
        decreases i,
    {
        i = i - 1;
        let d = dims[i];
        let s = strides[i];
        let idx = rem % d;
        proof {
            let pre_d = dims@.subrange(0, i as int + 1);
            let pre_s = strides@.subrange(0, i as int + 1);
            assert(pre_d.last() == dims@[i as int]);
            assert(pre_d.drop_last() =~= dims@.subrange(0, i as int));
            assert(pre_s.drop_last() =~= strides@.subrange(0, i as int));
            assert(dims_positive(dims@.subrange(0, i as int)));
            lemma_offset_nonneg(
                dims@.subrange(0, i as int),
                strides@.subrange(0, i as int),
                rem as int / d as int,
            );
            assert(offset_of(pre_d, pre_s, rem as int) == (rem as int % d as int) * s
                + offset_of(
                dims@.subrange(0, i as int),
                strides@.subrange(0, i as int),
                rem as int / d as int,
            ));
            assert(acc + (idx as int) * s <= total);
        }
        acc = acc + idx * s;
        rem = rem / d;
    }
    proof {
        assert(dims@.subrange(0, 0) =~= Seq::<usize>::empty());
        assert(strides@.subrange(0, 0) =~= Seq::<usize>::empty());
    }
    acc
}

/// Some entry of `axes` is `p`.
pub open spec fn occurs(axes: Seq<usize>, p: int) -> bool {
    exists|k: int| 0 <= k < axes.len() && (#[trigger] axes[k]) as int == p
}

/// `axes` rearranges the positions `0 .. n`: every entry is in range,
/// entries never repeat, and every position occurs.
pub open spec fn is_permutation(axes: Seq<usize>, n: int) -> bool {
    &&& axes.len() == n
    &&& forall|k: int| 0 <= k < n ==> #[trigger] axes[k] < n
    &&& forall|k1: int, k2: int| 0 <= k1 < k2 < n ==> axes[k1] != axes[k2]
    &&& forall|p: int| 0 <= p < n ==> #[trigger] occurs(axes, p)
}

/// The sequence whose entry at `k` is taken from position `axes[k]` of `s`.
pub open spec fn permuted(s: Seq<usize>, axes: Seq<usize>) -> Seq<usize> {
    Seq::new(axes.len(), |k: int| s[axes[k] as int])
}

/// `inv` undoes `axes` in both directions.
pub open spec fn inverse_of(axes: Seq<usize>, inv: Seq<usize>) -> bool {
    &&& inv.len() == axes.len()
    &&& forall|p: int| 0 <= p < inv.len() ==> #[trigger] inv[p] < inv.len()
    &&& forall|k: int| 0 <= k < axes.len() ==> (inv[#[trigger] axes[k] as int]) as int == k
    &&& forall|p: int| 0 <= p < axes.len() ==> (axes[#[trigger] inv[p] as int]) as int == p
}

/// Permuting by `axes` and then by its inverse restores the sequence.
pub proof fn lemma_permute_round_trip(s: Seq<usize>, axes: Seq<usize>, inv: Seq<usize>)
    requires
        axes.len() == s.len(),
        is_permutation(axes, s.len() as int),
        inverse_of(axes, inv),
    ensures
        permuted(permuted(s, axes), inv) == s,
{
    let n = s.len() as int;
    assert forall|k: int| 0 <= k < n implies permuted(permuted(s, axes), inv)[k] == s[k] by {
        assert(inv[k] < n);
        assert((axes[inv[k] as int]) as int == k);
        assert(permuted(s, axes)[inv[k] as int] == s[axes[inv[k] as int] as int]);
    }
    assert(permuted(permuted(s, axes), inv) =~= s);
}

/// The product of any prefix of positive extents is at most the full product.
pub proof fn lemma_prod_prefix_le(dims: Seq<usize>, i: int)
    requires
        dims_positive(dims),
        0 <= i <= dims.len(),
    ensures
        1 <= prod(dims.subrange(0, i)),
        prod(dims.subrange(0, i)) <= prod(dims),
    decreases dims.len() - i,
{
    assert(dims_positive(dims.subrange(0, i)));
    lemma_prod_positive(dims.subrange(0, i));
    if i == dims.len() {
        assert(dims.subrange(0, i) =~= dims);
    } else {
        lemma_prod_prefix_le(dims, i + 1);
        assert(dims.subrange(0, i + 1).drop_last() =~= dims.subrange(0, i));
        assert(prod(dims.subrange(0, i + 1)) == prod(dims.subrange(0, i)) * dims[i]);
        assert(prod(dims.subrange(0, i)) * dims[i] >= prod(dims.subrange(0, i)))
            by (nonlinear_arith)
            requires
                dims[i] >= 1,
                prod(dims.subrange(0, i)) >= 1,
        ;
    }
}

/// Splitting one extent out of the product.
proof fn lemma_prod_remove(dims: Seq<usize>, p: int)
    requires
        0 <= p < dims.len(),
    ensures
        prod(dims) == dims[p] * prod(dims.remove(p)),
    decreases dims.len(),
{
    let n = dims.len() as int;
    if p == n - 1 {
        assert(dims.remove(p) =~= dims.drop_last());
        assert(prod(dims) == prod(dims.drop_last()) * dims.last());
        assert(prod(dims.drop_last()) * dims[p] == dims[p] * prod(dims.drop_last()))
            by (nonlinear_arith);
    } else {
        let ddl = dims.drop_last();
        lemma_prod_remove(ddl, p);
        assert(dims.remove(p).drop_last() =~= ddl.remove(p));
        assert(dims.remove(p).last() == dims.last());
        assert(prod(dims.remove(p)) == prod(ddl.remove(p)) * dims.last());
        assert(dims[p] * (prod(ddl.remove(p)) * dims.last()) == (dims[p] * prod(ddl.remove(p)))
            * dims.last()) by (nonlinear_arith);
    }
}

/// The element count is invariant under a permutation of the axes.
/// The entries of a permutation short of its last one, renumbered over the
/// positions that survive removing the selected position `p`.
spec fn collapse_axes(axes: Seq<usize>, p: int) -> Seq<usize> {
    Seq::new((axes.len() - 1) as nat, |k: int| if axes[k] > p { (axes[k] - 1) as usize } else { axes[k] })
}

/// Peeling the last entry off a permutation: the remaining entries,
/// collapsed over the removed position, permute the shortened sequence,
/// and `permuted` commutes with that peeling.
proof fn lemma_collapse_step(s: Seq<usize>, axes: Seq<usize>)
    requires
        axes.len() == s.len(),
        s.len() > 0,
        is_permutation(axes, s.len() as int),
    ensures
        is_permutation(collapse_axes(axes, axes.last() as int), s.len() - 1),
        permuted(s, axes).last() == s[axes.last() as int],
        permuted(s, axes).drop_last() == permuted(
            s.remove(axes.last() as int),
            collapse_axes(axes, axes.last() as int),
        ),
{
    let n = s.len() as int;
    let p = axes[n - 1] as int;
    let axes2 = collapse_axes(axes, p);
    let sr = s.remove(p);
    let ps = permuted(s, axes);
    assert forall|k: int| 0 <= k < n - 1 implies #[trigger] axes2[k] < n - 1 by {
        assert(axes[k] != axes[n - 1]);
    }
    assert forall|k1: int, k2: int| 0 <= k1 < k2 < n - 1 implies axes2[k1] != axes2[k2] by {
        assert(axes[k1] != axes[k2]);
        assert(axes[k1] != axes[n - 1]);
        assert(axes[k2] != axes[n - 1]);
    }
    assert forall|q: int| 0 <= q < n - 1 implies #[trigger] occurs(axes2, q) by {
        let qq = if q >= p { q + 1 } else { q };
        assert(0 <= qq < n && qq != p);
        assert(occurs(axes, qq));
        let k = choose|k: int| 0 <= k < axes.len() && (#[trigger] axes[k]) as int == qq;
        assert(k != n - 1);
        assert((axes2[k]) as int == q);
    }
    assert(is_permutation(axes2, n - 1));
    assert forall|k: int| 0 <= k < n - 1 implies #[trigger] ps.drop_last()[k] == permuted(
        sr,
        axes2,
    )[k] by {
        assert(axes[k] != axes[n - 1]);
        if axes[k] > p {
            assert(sr[axes[k] - 1] == s[axes[k] as int]);
        } else {
            assert(sr[axes[k] as int] == s[axes[k] as int]);
        }
    }
    assert(ps.drop_last() =~= permuted(sr, axes2));
}

pub proof fn lemma_prod_permuted(dims: Seq<usize>, axes: Seq<usize>)
    requires
        is_permutation(axes, dims.len() as int),
    ensures
        prod(permuted(dims, axes)) == prod(dims),
    decreases dims.len(),
{
    let n = dims.len() as int;
    if n > 0 {
        let p = axes[n - 1] as int;
        lemma_collapse_step(dims, axes);
        let axes2 = collapse_axes(axes, p);
        let dr = dims.remove(p);
        lemma_prod_permuted(dr, axes2);
        lemma_prod_remove(dims, p);
        assert(prod(permuted(dims, axes)) == prod(dr) * dims[p]);
        assert(prod(dr) * dims[p] == dims[p] * prod(dr)) by (nonlinear_arith);
    } else {
        assert(permuted(dims, axes) =~= dims);
    }
}

/// The transposition of `i` and `j` on positions `0 .. n`.
pub open spec fn transposition(n: int, i: int, j: int) -> Seq<usize> {
    Seq::new(n as nat, |k: int| if k == i { j as usize } else if k == j { i as usize } else { k as usize })
}

/// Swapping two entries is permuting by the corresponding transposition.
pub proof fn lemma_swapped_as_permuted(s: Seq<usize>, i: int, j: int)
    requires
        s.len() <= usize::MAX,
        0 <= i < s.len(),
        0 <= j < s.len(),
    ensures
        is_permutation(transposition(s.len() as int, i, j), s.len() as int),
        swapped(s, i, j) == permuted(s, transposition(s.len() as int, i, j)),
{
    let n = s.len() as int;
    let axes = transposition(n, i, j);
    assert forall|p: int| 0 <= p < n implies #[trigger] occurs(axes, p) by {
        if p == i {
            assert((axes[j]) as int == p);
        } else if p == j {
            assert((axes[i]) as int == p);
        } else {
            assert((axes[p]) as int == p);
        }
    }
    assert(is_permutation(axes, n));
    assert(swapped(s, i, j) =~= permuted(s, axes));
}

/// The element count is invariant under swapping two axes.
pub proof fn lemma_prod_swap(dims: Seq<usize>, i: int, j: int)
    requires
        dims.len() <= usize::MAX,
        0 <= i < dims.len(),
        0 <= j < dims.len(),
    ensures
        prod(swapped(dims, i, j)) == prod(dims),
{
    lemma_swapped_as_permuted(dims, i, j);
    lemma_prod_permuted(dims, transposition(dims.len() as int, i, j));
}

/// Right-aligned broadcast compatibility of target axis `i`: the source
/// extent there equals the target extent, or is one (broadcast).
pub open spec fn expand_axis_ok(src: Seq<usize>, tgt: Seq<usize>, i: int) -> bool {
    src[i - (tgt.len() - src.len())] == tgt[i] || src[i - (tgt.len() - src.len())] == 1
}

/// `src` broadcasts to `tgt`: no more source axes than target axes, and
/// every right-aligned pair of axes is compatible.
pub open spec fn expand_ok(src: Seq<usize>, tgt: Seq<usize>) -> bool {
    &&& src.len() <= tgt.len()
    &&& forall|i: int|
        tgt.len() - src.len() <= i < tgt.len() ==> #[trigger] expand_axis_ok(src, tgt, i)
}

/// The stride of target axis `i` after broadcasting: zero for the extra
/// leading axes and for broadcast axes, the source stride where the
/// extents match.
pub open spec fn expand_stride(
    src: Seq<usize>,
    src_strides: Seq<usize>,
    tgt: Seq<usize>,
    i: int,
) -> usize {
    let diff = tgt.len() - src.len();
    if i < diff {
        0usize
    } else if src[i - diff] == tgt[i] {
        src_strides[i - diff]
    } else {
        0usize
    }
}

proof fn lemma_max_offset_zero_strides(dims: Seq<usize>, strides: Seq<usize>)
    requires
        strides.len() == dims.len(),
        forall|i: int| 0 <= i < strides.len() ==> #[trigger] strides[i] == 0,
    ensures
        max_offset(dims, strides) == 0,
    decreases dims.len(),
{
    if dims.len() > 0 {
        lemma_max_offset_zero_strides(dims.drop_last(), strides.drop_last());
    }
}

/// Broadcasting never widens the addressable extent: the broadcast view
/// addresses exactly the offsets of the source view.
pub proof fn lemma_expand_max_offset(
    src: Seq<usize>,
    src_strides: Seq<usize>,
    tgt: Seq<usize>,
    tgt_strides: Seq<usize>,
)
    requires
        src_strides.len() == src.len(),
        tgt_strides.len() == tgt.len(),
        expand_ok(src, tgt),
        forall|i: int|
            0 <= i < tgt.len() ==> #[trigger] tgt_strides[i] == expand_stride(
                src,
                src_strides,
                tgt,
                i,
            ),
    ensures
        max_offset(tgt, tgt_strides) == max_offset(src, src_strides),
    decreases tgt.len(),
{
    let nt = tgt.len() as int;
    let ns = src.len() as int;
    if nt == 0 {
        assert(src.len() == 0);
    } else if ns == 0 {
        assert forall|i: int| 0 <= i < nt implies #[trigger] tgt_strides[i] == 0 by {
            assert(tgt_strides[i] == expand_stride(src, src_strides, tgt, i));
        }
        lemma_max_offset_zero_strides(tgt, tgt_strides);
    } else {
        let diff = nt - ns;
        assert(expand_axis_ok(src, tgt, nt - 1));
        assert(tgt_strides[nt - 1] == expand_stride(src, src_strides, tgt, nt - 1));
        let st = src.drop_last();
        let sst = src_strides.drop_last();
        let tt = tgt.drop_last();
        let tst = tgt_strides.drop_last();
        assert forall|i: int| tt.len() - st.len() <= i < tt.len() implies #[trigger] expand_axis_ok(
            st,
            tt,
            i,
        ) by {
            assert(expand_axis_ok(src, tgt, i));
        }
        assert forall|i: int| 0 <= i < tt.len() implies #[trigger] tst[i] == expand_stride(
            st,
            sst,
            tt,
            i,
        ) by {
            assert(tgt_strides[i] == expand_stride(src, src_strides, tgt, i));
        }
        lemma_expand_max_offset(st, sst, tt, tst);
        if src[ns - 1] == tgt[nt - 1] {
            assert(tgt_strides[nt - 1] == src_strides[ns - 1]);
        } else {
            assert(src[ns - 1] == 1);
            assert(tgt_strides[nt - 1] == 0);
            assert((tgt.last() - 1) * (tgt_strides.last() as int) == 0) by (nonlinear_arith)
                requires
                    tgt_strides.last() == 0,
            ;
            assert((src.last() - 1) * (src_strides.last() as int) == 0) by (nonlinear_arith)
                requires
                    src.last() == 1,
            ;
        }
    }
}

/// `s` with the entries at `i` and `j` exchanged.
pub open spec fn swapped(s: Seq<usize>, i: int, j: int) -> Seq<usize> {
    s.update(i, s[j]).update(j, s[i])
}

/// Swapping the same pair of axes twice restores the sequence.
pub proof fn lemma_swap_involution(s: Seq<usize>, i: int, j: int)
    requires
        0 <= i < s.len(),
        0 <= j < s.len(),
    ensures
        swapped(swapped(s, i, j), i, j) == s,
{
    assert(swapped(swapped(s, i, j), i, j) =~= s);
}

/// Splitting one axis out of the addressable-extent sum.
proof fn lemma_max_offset_remove(dims: Seq<usize>, strides: Seq<usize>, p: int)
    requires
        dims.len() == strides.len(),
        0 <= p < dims.len(),
    ensures
        max_offset(dims, strides) == (dims[p] - 1) * strides[p] + max_offset(
            dims.remove(p),
            strides.remove(p),
        ),
    decreases dims.len(),
{
    let n = dims.len() as int;
    if p == n - 1 {
        assert(dims.remove(p) =~= dims.drop_last());
        assert(strides.remove(p) =~= strides.drop_last());
    } else {
        let ddl = dims.drop_last();
        let sdl = strides.drop_last();
        lemma_max_offset_remove(ddl, sdl, p);
        assert(dims.remove(p).drop_last() =~= ddl.remove(p));
        assert(strides.remove(p).drop_last() =~= sdl.remove(p));
        assert(dims.remove(p).last() == dims.last());
        assert(strides.remove(p).last() == strides.last());
    }
}

/// The addressable extent of a view is invariant under a simultaneous
/// permutation of shape and strides.
pub proof fn lemma_max_offset_permuted(dims: Seq<usize>, strides: Seq<usize>, axes: Seq<usize>)
    requires
        dims.len() == strides.len(),
        is_permutation(axes, dims.len() as int),
    ensures
        max_offset(permuted(dims, axes), permuted(strides, axes)) == max_offset(dims, strides),
    decreases dims.len(),
{
    let n = dims.len() as int;
    if n > 0 {
        let p = axes[n - 1] as int;
        lemma_collapse_step(dims, axes);
        lemma_collapse_step(strides, axes);
        let axes2 = collapse_axes(axes, p);
        lemma_max_offset_permuted(dims.remove(p), strides.remove(p), axes2);
        lemma_max_offset_remove(dims, strides, p);
    } else {
        assert(permuted(dims, axes) =~= dims);
        assert(permuted(strides, axes) =~= strides);
    }
}

/// Swapping two axes of shape and strides in lockstep leaves the
/// addressable extent unchanged.
pub proof fn lemma_max_offset_swap(dims: Seq<usize>, strides: Seq<usize>, i: int, j: int)
    requires
        dims.len() == strides.len(),
        dims.len() <= usize::MAX,
        0 <= i < dims.len(),
        0 <= j < dims.len(),
    ensures
        max_offset(swapped(dims, i, j), swapped(strides, i, j)) == max_offset(dims, strides),
{
    let n = dims.len() as int;
    lemma_swapped_as_permuted(dims, i, j);
    lemma_swapped_as_permuted(strides, i, j);
    lemma_max_offset_permuted(dims, strides, transposition(n, i, j));
}

}
