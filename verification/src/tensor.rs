//! Device-resident tensors: a shape and strides over a shared buffer
//! handle, with the zero-copy view transforms (swap, permute,
//! broadcast-expand) and the materialising ones (contiguous copy, reshape,
//! read-back).
use vstd::prelude::*;

use crate::layout::{
    compute_offset, dims_positive, element_at, expand_axis_ok, expand_ok, expand_stride,
    is_contiguous, is_permutation, inverse_of, lemma_expand_max_offset, lemma_max_offset_contig,
    lemma_max_offset_nonneg, lemma_max_offset_permuted, lemma_max_offset_swap,
    lemma_offset_contig_id, lemma_offset_in_range, lemma_prod_front, lemma_prod_permuted,
    lemma_prod_positive, lemma_prod_prefix_le, lemma_prod_suffix_le, lemma_prod_swap, max_offset,
    new_contiguous_strides, occurs, permuted, prod, swapped,
};
use crate::store::BufferStore;

verus! {

/// The element kind a buffer is declared to hold; `elem_size` is its
/// per-element byte size on the device.
#[derive(Clone, Copy, PartialEq, Eq, Structural, Debug)]
pub enum ElemKind {
    F32,
    F16,
    I32,
    U32,
}

pub open spec fn elem_size_spec(k: ElemKind) -> usize {
    match k {
        ElemKind::F32 => 4usize,
        ElemKind::F16 => 2usize,
        ElemKind::I32 => 4usize,
        ElemKind::U32 => 4usize,
    }
}

/// Per-element byte size of `k`.
pub fn elem_size(k: ElemKind) -> (r: usize)
    ensures
        r == elem_size_spec(k),
        1 <= r <= 8,
{
    match k {
        ElemKind::F32 => 4,
        ElemKind::F16 => 2,
        ElemKind::I32 => 4,
        ElemKind::U32 => 4,
    }
}

/// Host-visible tensor contents: the element payloads (as raw lanes) in
/// row-major order of `shape`.
pub struct TensorData {
    pub values: Vec<u32>,
    pub shape: Vec<usize>,
    pub kind: ElemKind,
}

/// A device tensor: a logical shape and strides over a buffer handle in
/// the store.  The buffer is never touched by the view transforms.
pub struct Tensor {
    pub device: usize,
    pub shape: Vec<usize>,
    pub strides: Vec<usize>,
    pub handle: usize,
    pub kind: ElemKind,
}

/// Errors of the view transforms.
#[derive(Clone, Copy, PartialEq, Eq, Structural, Debug)]
pub enum ViewError {
    /// A broadcast target extent matches neither the source extent nor one;
    /// `axis` is the offending target axis, `dim` the source extent there,
    /// `expected` the target extent.
    ShapeMismatch { axis: usize, dim: usize, expected: usize },
    /// The source has more axes than the broadcast target.
    RankExceedsTarget { rank: usize, target_rank: usize },
    /// The axis list is not a permutation of the tensor's axes.
    InvalidPermutation,
}

impl Tensor {
    /// Well-formed over `store`: strides match the shape's rank, every
    /// extent is at least one, the element count fits the device's
    /// 32-bit launch arithmetic, the handle is live with at least one
    /// reference, and every addressable offset lies inside the buffer.
    pub open spec fn wf(self, store: BufferStore) -> bool {
        &&& self.strides@.len() == self.shape@.len()
        &&& dims_positive(self.shape@)
        &&& prod(self.shape@) <= u32::MAX
        &&& (self.handle as int) < store.bufs@.len()
        &&& store.refs@[self.handle as int] >= 1
        &&& max_offset(self.shape@, self.strides@) < store.buf(self.handle as int).len()
    }

    /// The logical element sequence entry `j` of this tensor over `store`.
    pub open spec fn elem(self, store: BufferStore, j: int) -> u32 {
        element_at(self.shape@, self.strides@, store.buf(self.handle as int), j)
    }
}

/// Number of logical elements of `shape`: the product of its extents.
pub fn num_elements(shape: &Vec<usize>) -> (n: usize)
    requires
        dims_positive(shape@),
        prod(shape@) <= usize::MAX,
    ensures
        n as int == prod(shape@),
{
    let len = shape.len();
    let mut acc: usize = 1;
    let mut i: usize = 0;
    proof {
        assert(shape@.subrange(0, 0) =~= Seq::<usize>::empty());
    }
    while i < len
        invariant
            i <= len,
            len == shape@.len(),
            dims_positive(shape@),
            prod(shape@) <= usize::MAX,
            acc as int == prod(shape@.subrange(0, i as int)),
        decreases len - i,
    {
        proof {
            lemma_prod_prefix_le(shape@, i as int + 1);
            assert(shape@.subrange(0, i as int + 1).drop_last() =~= shape@.subrange(0, i as int));
            assert(prod(shape@.subrange(0, i as int + 1)) == prod(shape@.subrange(0, i as int))
                * shape@[i as int]);
        }
        acc = acc * shape[i];
        i = i + 1;
    }
    proof {
        assert(shape@.subrange(0, len as int) =~= shape@);
    }
    acc
}

/// Whether `(dims, strides)` is already in row-major contiguous layout.
pub fn is_contiguous_layout(dims: &Vec<usize>, strides: &Vec<usize>) -> (r: bool)
    requires
        dims@.len() == strides@.len(),
        dims_positive(dims@),
        prod(dims@) <= usize::MAX,
    ensures
        r == is_contiguous(dims@, strides@),
{
    let n = dims.len();
    let mut expected: usize = 1;
    let mut i: usize = n;
    proof {
        assert(dims@.subrange(n as int, n as int) =~= Seq::<usize>::empty());
    }
    while i > 0
        invariant
            i <= n,
            n == dims@.len(),
            n == strides@.len(),
            dims_positive(dims@),
            prod(dims@) <= usize::MAX,
            expected as int == prod(dims@.subrange(i as int, n as int)),
            forall|k: int|
                i <= k < n ==> #[trigger] strides@[k] == prod(dims@.subrange(k + 1, n as int)),
        decreases i,
    {
        i = i - 1;
        if strides[i] != expected {
            proof {
                assert(strides@[i as int] != prod(dims@.subrange(i as int + 1, n as int)));
            }
            return false;
        }
        proof {
            lemma_prod_front(dims@.subrange(i as int, n as int));
            assert(dims@.subrange(i as int, n as int).subrange(1, (n - i) as int) =~= dims@.subrange(
                i as int + 1,
                n as int,
            ));
            lemma_prod_suffix_le(dims@, i as int);
            assert(expected as int * (dims@[i as int] as int) == prod(
                dims@.subrange(i as int, n as int),
            )) by (nonlinear_arith)
                requires
                    expected as int == prod(dims@.subrange(i as int + 1, n as int)),
                    prod(dims@.subrange(i as int, n as int)) == (dims@[i as int] as int) * prod(
                        dims@.subrange(i as int + 1, n as int),
                    ),
            ;
        }
        expected = expected * dims[i];
    }
    true
}

/// Upload host data to the device: allocate a buffer holding `data` and
/// bind it to a fresh contiguous tensor.
pub fn from_data(data: TensorData, device: usize, store: &mut BufferStore) -> (t: Tensor)
    requires
        old(store).wf(),
        dims_positive(data.shape@),
        prod(data.shape@) == data.values@.len(),
        data.values@.len() <= u32::MAX,
    ensures
        final(store).wf(),
        t.wf(*final(store)),
        t.device == device,
        t.kind == data.kind,
        t.shape@ == data.shape@,
        is_contiguous(t.shape@, t.strides@),
        t.handle == old(store).bufs@.len(),
        final(store).bufs@.len() == old(store).bufs@.len() + 1,
        forall|i: int| 0 <= i < old(store).bufs@.len() ==> final(store).buf(i) == old(store).buf(i),
        final(store).refs@ == old(store).refs@.push(1u64),
        final(store).can_mut_spec(t.handle as int),
        forall|j: int| 0 <= j < prod(data.shape@) ==> t.elem(*final(store), j) == data.values@[j],
{
    let TensorData { values, shape, kind } = data;
    let strides = new_contiguous_strides(&shape);
    let ghost vals = values@;
    let h = store.create(values);
    let t = Tensor { device, shape, strides, handle: h, kind };
    proof {
        lemma_prod_positive(t.shape@);
        lemma_max_offset_contig(t.shape@, t.strides@);
        assert forall|j: int| 0 <= j < prod(t.shape@) implies t.elem(*store, j) == vals[j] by {
            lemma_offset_contig_id(t.shape@, t.strides@, j);
        }
    }
    t
}

/// Allocate a zero-initialised contiguous tensor of `shape`.
pub fn empty(shape: Vec<usize>, kind: ElemKind, device: usize, store: &mut BufferStore) -> (t:
    Tensor)
    requires
        old(store).wf(),
        dims_positive(shape@),
        prod(shape@) <= u32::MAX,
    ensures
        final(store).wf(),
        t.wf(*final(store)),
        t.device == device,
        t.kind == kind,
        t.shape@ == shape@,
        is_contiguous(t.shape@, t.strides@),
        t.handle == old(store).bufs@.len(),
        final(store).bufs@.len() == old(store).bufs@.len() + 1,
        forall|i: int| 0 <= i < old(store).bufs@.len() ==> final(store).buf(i) == old(store).buf(i),
        final(store).can_mut_spec(t.handle as int),
        forall|j: int| 0 <= j < prod(shape@) ==> t.elem(*final(store), j) == 0u32,
{
    proof {
        lemma_prod_positive(shape@);
    }
    let n = num_elements(&shape);
    let strides = new_contiguous_strides(&shape);
    let h = store.empty(n);
    let t = Tensor { device, shape, strides, handle: h, kind };
    proof {
        lemma_max_offset_contig(t.shape@, t.strides@);
        assert forall|j: int| 0 <= j < prod(t.shape@) implies t.elem(*store, j) == 0u32 by {
            lemma_offset_contig_id(t.shape@, t.strides@, j);
        }
    }
    t
}

/// Register one more live reference to the tensor's buffer and return a
/// tensor sharing it (the reference-counted clone of a device tensor).
pub fn clone_tensor(t: &Tensor, store: &mut BufferStore) -> (r: Tensor)
    requires
        old(store).wf(),
        t.wf(*old(store)),
        old(store).refs@[t.handle as int] < u64::MAX,
    ensures
        final(store).wf(),
        r.device == t.device,
        r.shape@ == t.shape@,
        r.strides@ == t.strides@,
        r.handle == t.handle,
        r.kind == t.kind,
        t.wf(*final(store)),
        r.wf(*final(store)),
        final(store).bufs@ == old(store).bufs@,
        final(store).refs@ == old(store).refs@.update(t.handle as int, (old(store).refs@[t.handle
            as int] + 1) as u64),
        !final(store).can_mut_spec(t.handle as int),
{
    store.retain(t.handle);
    Tensor {
        device: t.device,
        shape: clone_usizes(&t.shape),
        strides: clone_usizes(&t.strides),
        handle: t.handle,
        kind: t.kind,
    }
}

/// Drop a live tensor, giving its buffer reference back.
pub fn drop_tensor(t: Tensor, store: &mut BufferStore)
    requires
        old(store).wf(),
        t.wf(*old(store)),
    ensures
        final(store).wf(),
        final(store).bufs@ == old(store).bufs@,
        final(store).refs@ == old(store).refs@.update(t.handle as int, (old(store).refs@[t.handle
            as int] - 1) as u64),
{
    store.release(t.handle);
}

pub(crate) fn clone_usizes(v: &Vec<usize>) -> (r: Vec<usize>)
    ensures
        r@ == v@,
{
    let n = v.len();
    let mut r: Vec<usize> = Vec::new();
    let mut i: usize = 0;
    while i < n
        invariant
            i <= n,
            n == v@.len(),
            r@ =~= v@.subrange(0, i as int),
        decreases n - i,
    {
        r.push(v[i]);
        i = i + 1;
    }
    assert(r@ =~= v@);
    r
}

/// Move a tensor to `device`: already there, it is returned unchanged;
/// otherwise its buffer is copied to a fresh allocation on the target and
/// the old reference is given back.
pub fn to_device(t: Tensor, device: usize, store: &mut BufferStore) -> (r: Tensor)
    requires
        old(store).wf(),
        t.wf(*old(store)),
    ensures
        final(store).wf(),
        r.wf(*final(store)),
        r.device == device,
        r.shape@ == t.shape@,
        r.strides@ == t.strides@,
        r.kind == t.kind,
        forall|i: int| 0 <= i < old(store).bufs@.len() ==> final(store).buf(i) == old(store).buf(i),
        forall|j: int| 0 <= j < prod(t.shape@) ==> r.elem(*final(store), j) == t.elem(
            *old(store),
            j,
        ),
        t.device == device ==> r == t && *final(store) == *old(store),
{
    if t.device == device {
        return t;
    }
    let data = store.read_one(t.handle);
    store.release(t.handle);
    let h = store.create(data);
    let r = Tensor { device, shape: t.shape, strides: t.strides, handle: h, kind: t.kind };
    proof {
        assert(store.buf(h as int) == old(store).buf(t.handle as int));
    }
    r
}

fn swap_entries(v: &Vec<usize>, i: usize, j: usize) -> (r: Vec<usize>)
    requires
        i < v@.len(),
        j < v@.len(),
    ensures
        r@ == swapped(v@, i as int, j as int),
{
    let n = v.len();
    let mut r: Vec<usize> = Vec::new();
    let mut k: usize = 0;
    while k < n
        invariant
            k <= n,
            n == v@.len(),
            i < n,
            j < n,
            r@.len() == k,
            forall|t: int| 0 <= t < k ==> r@[t] == swapped(v@, i as int, j as int)[t],
        decreases n - k,
    {
        if k == i {
            r.push(v[j]);
        } else if k == j {
            r.push(v[i]);
        } else {
            r.push(v[k]);
        }
        k = k + 1;
    }
    assert(r@ =~= swapped(v@, i as int, j as int));
    r
}

/// Exchange axes `dim1` and `dim2` of the view: shape and strides are
/// swapped in lockstep, the buffer is untouched.
pub fn swap_dims(t: Tensor, dim1: usize, dim2: usize) -> (r: Tensor)
    requires
        t.strides@.len() == t.shape@.len(),
        dim1 < t.shape@.len(),
        dim2 < t.shape@.len(),
    ensures
        r.shape@ == swapped(t.shape@, dim1 as int, dim2 as int),
        r.strides@ == swapped(t.strides@, dim1 as int, dim2 as int),
        r.handle == t.handle,
        r.device == t.device,
        r.kind == t.kind,
        prod(r.shape@) == prod(t.shape@),
        max_offset(r.shape@, r.strides@) == max_offset(t.shape@, t.strides@),
        dims_positive(t.shape@) ==> dims_positive(r.shape@),
        forall|store: BufferStore| t.wf(store) ==> r.wf(store),
{
    let n = t.shape.len();
    let shape = swap_entries(&t.shape, dim1, dim2);
    let strides = swap_entries(&t.strides, dim1, dim2);
    proof {
        assert(t.shape@.len() == n <= usize::MAX);
        lemma_prod_swap(t.shape@, dim1 as int, dim2 as int);
        lemma_max_offset_swap(t.shape@, t.strides@, dim1 as int, dim2 as int);
    }
    Tensor { device: t.device, shape, strides, handle: t.handle, kind: t.kind }
}

/// Check that `axes` is a permutation of `0 .. n`: every entry in range,
/// no entry repeated, every position present.
fn validate_axes(axes: &Vec<usize>, n: usize) -> (ok: bool)
    ensures
        ok == is_permutation(axes@, n as int),
{
    if axes.len() != n {
        return false;
    }
    let mut k: usize = 0;
    while k < n
        invariant
            k <= n,
            n == axes@.len(),
            forall|t: int| 0 <= t < k ==> #[trigger] axes@[t] < n,
            forall|t1: int, t2: int| 0 <= t1 < t2 < k ==> axes@[t1] != axes@[t2],
        decreases n - k,
    {
        if axes[k] >= n {
            return false;
        }
        let mut l: usize = 0;
        while l < k
            invariant
                l <= k < n,
                n == axes@.len(),
                forall|t: int| 0 <= t < l ==> axes@[t] != axes@[k as int],
            decreases k - l,
        {
            if axes[l] == axes[k] {
                return false;
            }
            l = l + 1;
        }
        k = k + 1;
    }
    let mut p: usize = 0;
    while p < n
        invariant
            p <= n,
            n == axes@.len(),
            forall|t: int| 0 <= t < n ==> #[trigger] axes@[t] < n,
            forall|t1: int, t2: int| 0 <= t1 < t2 < n ==> axes@[t1] != axes@[t2],
            forall|q: int| 0 <= q < p ==> #[trigger] occurs(axes@, q),
        decreases n - p,
    {
        let mut k: usize = 0;
        let mut present: bool = false;
        while k < n
            invariant
                k <= n,
                n == axes@.len(),
                p < n,
                present ==> occurs(axes@, p as int),
                !present ==> forall|t: int| 0 <= t < k ==> (#[trigger] axes@[t]) as int != p as int,
            decreases n - k,
        {
            if axes[k] == p {
                present = true;
                proof {
                    assert((axes@[k as int]) as int == p as int);
                }
            }
            k = k + 1;
        }
        if !present {
            proof {
                assert(!occurs(axes@, p as int));
            }
            return false;
        }
        p = p + 1;
    }
    true
}

/// Rearrange the axes of the view: position `k` of the result takes shape
/// and stride from position `axes[k]` of the input.  A malformed axis list
/// is rejected rather than silently producing a corrupt view.
pub fn permute(t: Tensor, axes: &Vec<usize>) -> (r: Result<Tensor, ViewError>)
    requires
        t.strides@.len() == t.shape@.len(),
    ensures
        r is Ok <==> is_permutation(axes@, t.shape@.len() as int),
        match r {
            Ok(t2) => {
                &&& t2.shape@ == permuted(t.shape@, axes@)
                &&& t2.strides@ == permuted(t.strides@, axes@)
                &&& t2.handle == t.handle
                &&& t2.device == t.device
                &&& t2.kind == t.kind
                &&& prod(t2.shape@) == prod(t.shape@)
                &&& max_offset(t2.shape@, t2.strides@) == max_offset(t.shape@, t.strides@)
                &&& (dims_positive(t.shape@) ==> dims_positive(t2.shape@))
                &&& (forall|store: BufferStore| t.wf(store) ==> t2.wf(store))
            },
            Err(e) => e == ViewError::InvalidPermutation,
        },
{
    let n = t.shape.len();
    if !validate_axes(axes, n) {
        return Err(ViewError::InvalidPermutation);
    }
    let shape = gather_entries(&t.shape, axes);
    let strides = gather_entries(&t.strides, axes);
    proof {
        lemma_prod_permuted(t.shape@, axes@);
        lemma_max_offset_permuted(t.shape@, t.strides@, axes@);
        if dims_positive(t.shape@) {
            assert forall|i: int| 0 <= i < permuted(t.shape@, axes@).len() implies #[trigger] permuted(
                t.shape@,
                axes@,
            )[i] >= 1 by {
                assert(t.shape@[axes@[i] as int] >= 1);
            }
        }
    }
    Ok(Tensor { device: t.device, shape, strides, handle: t.handle, kind: t.kind })
}

fn gather_entries(v: &Vec<usize>, axes: &Vec<usize>) -> (r: Vec<usize>)
    requires
        forall|k: int| 0 <= k < axes@.len() ==> #[trigger] axes@[k] < v@.len(),
    ensures
        r@ == permuted(v@, axes@),
{
    let n = axes.len();
    let mut r: Vec<usize> = Vec::new();
    let mut k: usize = 0;
    while k < n
        invariant
            k <= n,
            n == axes@.len(),
            forall|l: int| 0 <= l < n ==> #[trigger] axes@[l] < v@.len(),
            r@.len() == k,
            forall|l: int| 0 <= l < k ==> r@[l] == permuted(v@, axes@)[l],
        decreases n - k,
    {
        r.push(v[axes[k]]);
        k = k + 1;
    }
    assert(r@ =~= permuted(v@, axes@));
    r
}

/// The inverse of a permutation: `inv[p]` is the position of `p` in `axes`.
pub fn invert_axes(axes: &Vec<usize>) -> (inv: Vec<usize>)
    requires
        is_permutation(axes@, axes@.len() as int),
    ensures
        inverse_of(axes@, inv@),
{
    let n = axes.len();
    let mut inv: Vec<usize> = Vec::new();
    let mut p: usize = 0;
    while p < n
        invariant
            p <= n,
            n == axes@.len(),
            is_permutation(axes@, n as int),
            inv@.len() == p,
            forall|q: int| 0 <= q < p ==> #[trigger] inv@[q] < n,
            forall|q: int| 0 <= q < p ==> (axes@[#[trigger] inv@[q] as int]) as int == q,
        decreases n - p,
    {
        let mut k: usize = 0;
        while k < n && axes[k] != p
            invariant
                k <= n,
                n == axes@.len(),
                p < n,
                forall|t: int| 0 <= t < k ==> (#[trigger] axes@[t]) as int != p as int,
            decreases n - k,
        {
            k = k + 1;
        }
        proof {
            if k == n {
                assert(occurs(axes@, p as int));
                let w = choose|w: int|
                    0 <= w < axes@.len() && (#[trigger] axes@[w]) as int == p as int;
                assert(false);
            }
        }
        inv.push(k);
        p = p + 1;
    }
    proof {
        assert forall|k: int| 0 <= k < n implies (inv@[#[trigger] axes@[k] as int]) as int
            == k by {
            let q = axes@[k] as int;
            assert(0 <= q < n);
            let m = inv@[q] as int;
            assert((axes@[m]) as int == q);
            if m != k {
                if m < k {
                    assert(axes@[m] != axes@[k]);
                } else {
                    assert(axes@[k] != axes@[m]);
                }
                assert(false);
            }
        }
    }
    inv
}

/// Broadcast the view to a higher- or equal-rank target shape,
/// right-aligned: extra leading target axes and axes broadcast from extent
/// one get stride zero; axes with matching extents keep their stride.  A
/// target extent matching neither the source extent nor one is a shape
/// mismatch naming the offending axis.
pub fn expand(t: Tensor, target_shape: Vec<usize>) -> (r: Result<Tensor, ViewError>)
    requires
        t.strides@.len() == t.shape@.len(),
    ensures
        r is Ok <==> expand_ok(t.shape@, target_shape@),
        match r {
            Ok(t2) => {
                &&& t2.shape@ == target_shape@
                &&& t2.strides@.len() == target_shape@.len()
                &&& (forall|i: int|
                    0 <= i < target_shape@.len() ==> #[trigger] t2.strides@[i] == expand_stride(
                        t.shape@,
                        t.strides@,
                        target_shape@,
                        i,
                    ))
                &&& t2.handle == t.handle
                &&& t2.device == t.device
                &&& t2.kind == t.kind
                &&& max_offset(t2.shape@, t2.strides@) == max_offset(t.shape@, t.strides@)
            },
            Err(ViewError::RankExceedsTarget { rank, target_rank }) => {
                &&& t.shape@.len() > target_shape@.len()
                &&& rank == t.shape@.len()
                &&& target_rank == target_shape@.len()
            },
            Err(ViewError::ShapeMismatch { axis, dim, expected }) => {
                &&& t.shape@.len() <= target_shape@.len()
                &&& !expand_axis_ok(t.shape@, target_shape@, axis as int)
                &&& (forall|i: int|
                    axis < i < target_shape@.len() ==> #[trigger] expand_axis_ok(
                        t.shape@,
                        target_shape@,
                        i,
                    ))
                &&& target_shape@.len() - t.shape@.len() <= axis < target_shape@.len()
                &&& dim == t.shape@[axis - (target_shape@.len() - t.shape@.len())]
                &&& expected == target_shape@[axis as int]
            },
            Err(ViewError::InvalidPermutation) => false,
        },
{
    let ndims_in = t.shape.len();
    let ndims_out = target_shape.len();
    if ndims_in > ndims_out {
        return Err(ViewError::RankExceedsTarget { rank: ndims_in, target_rank: ndims_out });
    }
    let diff = ndims_out - ndims_in;
    // walk the target axes from the last to the first; the first
    // incompatible pair found is the error reported
    let mut i: usize = ndims_out;
    while i > diff
        invariant
            diff <= i <= ndims_out,
            ndims_in == t.shape@.len(),
            ndims_out == target_shape@.len(),
            diff == ndims_out - ndims_in,
            forall|l: int|
                i <= l < ndims_out ==> #[trigger] expand_axis_ok(t.shape@, target_shape@, l),
        decreases i,
    {
        i = i - 1;
        let d = t.shape[i - diff];
        let tgt = target_shape[i];
        if d != tgt && d != 1 {
            proof {
                assert(!expand_axis_ok(t.shape@, target_shape@, i as int));
            }
            return Err(ViewError::ShapeMismatch { axis: i, dim: d, expected: tgt });
        }
        proof {
            assert(expand_axis_ok(t.shape@, target_shape@, i as int));
        }
    }
    // every pair is compatible: build the broadcast strides
    let mut strides: Vec<usize> = Vec::new();
    let mut k: usize = 0;
    while k < ndims_out
        invariant
            k <= ndims_out,
            ndims_in == t.shape@.len(),
            ndims_out == target_shape@.len(),
            diff == ndims_out - ndims_in,
            t.strides@.len() == t.shape@.len(),
            strides@.len() == k,
            forall|l: int|
                0 <= l < k ==> #[trigger] strides@[l] == expand_stride(
                    t.shape@,
                    t.strides@,
                    target_shape@,
                    l,
                ),
        decreases ndims_out - k,
    {
        if k < diff {
            strides.push(0);
        } else if t.shape[k - diff] == target_shape[k] {
            strides.push(t.strides[k - diff]);
        } else {
            strides.push(0);
        }
        k = k + 1;
    }
    proof {
        lemma_expand_max_offset(t.shape@, t.strides@, target_shape@, strides@);
    }
    Ok(Tensor { device: t.device, shape: target_shape, strides, handle: t.handle, kind: t.kind })
}

/// Force the tensor into row-major contiguous layout.  Already contiguous,
/// it is returned untouched; otherwise the logical element sequence is
/// gathered into a fresh buffer and the old reference given back.  This is
/// the one view operation that may copy.
pub fn into_contiguous(t: Tensor, store: &mut BufferStore) -> (r: Tensor)
    requires
        old(store).wf(),
        t.wf(*old(store)),
    ensures
        final(store).wf(),
        r.wf(*final(store)),
        r.shape@ == t.shape@,
        r.device == t.device,
        r.kind == t.kind,
        is_contiguous(r.shape@, r.strides@),
        final(store).bufs@.len() >= old(store).bufs@.len(),
        forall|i: int| 0 <= i < old(store).bufs@.len() ==> final(store).buf(i) == old(store).buf(i),
        forall|j: int| 0 <= j < prod(t.shape@) ==> r.elem(*final(store), j) == t.elem(
            *old(store),
            j,
        ),
        is_contiguous(t.shape@, t.strides@) ==> r == t && *final(store) == *old(store),
        !is_contiguous(t.shape@, t.strides@) ==> r.handle == old(store).bufs@.len()
            && final(store).bufs@.len() == old(store).bufs@.len() + 1,
{
    proof {
        lemma_prod_positive(t.shape@);
    }
    if is_contiguous_layout(&t.shape, &t.strides) {
        return t;
    }
    let n = num_elements(&t.shape);
    let strides2 = new_contiguous_strides(&t.shape);
    let mut out: Vec<u32> = Vec::new();
    let mut j: usize = 0;
    while j < n
        invariant
            j <= n,
            n as int == prod(t.shape@),
            store.wf(),
            t.wf(*store),
            *store == *old(store),
            out@.len() == j,
            forall|l: int| 0 <= l < j ==> #[trigger] out@[l] == t.elem(*store, l),
        decreases n - j,
    {
        let blen = store.bufs[t.handle].len();
        proof {
            assert(max_offset(t.shape@, t.strides@) < blen <= usize::MAX);
            lemma_offset_in_range(t.shape@, t.strides@, j as int);
        }
        let off = compute_offset(&t.shape, &t.strides, j);
        let lane = store.bufs[t.handle][off];
        out.push(lane);
        j = j + 1;
    }
    store.release(t.handle);
    let h = store.create(out);
    let r = Tensor { device: t.device, shape: t.shape, strides: strides2, handle: h, kind: t.kind };
    proof {
        lemma_max_offset_contig(r.shape@, r.strides@);
        assert(store.buf(h as int).len() == prod(r.shape@));
        assert forall|l: int| 0 <= l < prod(t.shape@) implies r.elem(*store, l) == t.elem(
            *old(store),
            l,
        ) by {
            lemma_offset_contig_id(r.shape@, r.strides@, l);
        }
    }
    r
}

/// Reinterpret the tensor under a new shape with the same element count:
/// the data is first materialised contiguously (copying only if the
/// current layout is not already row-major), then rebound to the new shape
/// with row-major strides.  The logical element sequence is unchanged.
pub fn reshape(t: Tensor, shape: Vec<usize>, store: &mut BufferStore) -> (r: Tensor)
    requires
        old(store).wf(),
        t.wf(*old(store)),
        dims_positive(shape@),
        prod(shape@) == prod(t.shape@),
    ensures
        final(store).wf(),
        r.wf(*final(store)),
        r.shape@ == shape@,
        r.device == t.device,
        r.kind == t.kind,
        is_contiguous(r.shape@, r.strides@),
        forall|i: int| 0 <= i < old(store).bufs@.len() ==> final(store).buf(i) == old(store).buf(i),
        forall|j: int| 0 <= j < prod(shape@) ==> r.elem(*final(store), j) == t.elem(*old(store), j),
        is_contiguous(t.shape@, t.strides@) ==> r.handle == t.handle && *final(store) == *old(
            store,
        ),
        !is_contiguous(t.shape@, t.strides@) ==> r.handle == old(store).bufs@.len()
            && final(store).bufs@.len() == old(store).bufs@.len() + 1,
{
    let c = into_contiguous(t, store);
    let strides = new_contiguous_strides(&shape);
    let r = Tensor { device: c.device, shape, strides, handle: c.handle, kind: c.kind };
    proof {
        lemma_max_offset_contig(r.shape@, r.strides@);
        lemma_max_offset_contig(c.shape@, c.strides@);
        lemma_prod_positive(r.shape@);
        assert forall|j: int| 0 <= j < prod(r.shape@) implies r.elem(*store, j) == t.elem(
            *old(store),
            j,
        ) by {
            lemma_offset_contig_id(r.shape@, r.strides@, j);
            lemma_offset_contig_id(c.shape@, c.strides@, j);
            assert(c.elem(*store, j) == t.elem(*old(store), j));
        }
    }
    r
}

/// Read the tensor back to the host: the logical element sequence in
/// row-major order of its shape (blocking read).
pub fn into_data_sync(t: Tensor, store: &mut BufferStore) -> (d: TensorData)
    requires
        old(store).wf(),
        t.wf(*old(store)),
    ensures
        final(store).wf(),
        d.shape@ == t.shape@,
        d.kind == t.kind,
        d.values@.len() == prod(t.shape@),
        forall|j: int| 0 <= j < prod(t.shape@) ==> d.values@[j] == t.elem(*old(store), j),
        forall|i: int| 0 <= i < old(store).bufs@.len() ==> final(store).buf(i) == old(store).buf(i),
{
    let c = into_contiguous(t, store);
    let n = num_elements(&c.shape);
    proof {
        lemma_max_offset_contig(c.shape@, c.strides@);
    }
    let mut values: Vec<u32> = Vec::new();
    let mut j: usize = 0;
    while j < n
        invariant
            j <= n,
            n as int == prod(c.shape@),
            store.wf(),
            c.wf(*store),
            is_contiguous(c.shape@, c.strides@),
            dims_positive(c.shape@),
            values@.len() == j,
            forall|l: int| 0 <= l < j ==> #[trigger] values@[l] == c.elem(*store, l),
        decreases n - j,
    {
        proof {
            lemma_offset_contig_id(c.shape@, c.strides@, j as int);
            lemma_max_offset_contig(c.shape@, c.strides@);
        }
        let lane = store.bufs[c.handle][j];
        proof {
            assert(lane == c.elem(*store, j as int));
        }
        values.push(lane);
        j = j + 1;
    }
    let d = TensorData { values, shape: c.shape, kind: c.kind };
    store.release(c.handle);
    d
}

/// Runtime check of the read-back calling conditions, for unverified
/// callers: true exactly when the store is well formed and the tensor is
/// well formed over it (matching strides, positive extents, element count
/// within launch arithmetic, live handle, addressable extent inside the
/// buffer).
pub fn check_tensor(t: &Tensor, store: &BufferStore) -> (r: bool)
    ensures
        r == (store.wf() && t.wf(*store)),
{
    if store.refs.len() != store.bufs.len() {
        return false;
    }
    let n = t.shape.len();
    if t.strides.len() != n {
        return false;
    }
    // every extent positive
    let mut i: usize = 0;
    while i < n
        invariant
            i <= n,
            n == t.shape@.len(),
            forall|k: int| 0 <= k < i ==> #[trigger] t.shape@[k] >= 1,
        decreases n - i,
    {
        if t.shape[i] == 0 {
            proof {
                assert(!dims_positive(t.shape@));
            }
            return false;
        }
        i = i + 1;
    }
    assert(dims_positive(t.shape@));
    // element count within the device's launch arithmetic
    let mut acc: u128 = 1;
    let mut i2: usize = 0;
    proof {
        assert(t.shape@.subrange(0, 0) =~= Seq::<usize>::empty());
    }
    while i2 < n
        invariant
            i2 <= n,
            n == t.shape@.len(),
            dims_positive(t.shape@),
            acc as int == prod(t.shape@.subrange(0, i2 as int)),
            acc <= u32::MAX,
        decreases n - i2,
    {
        proof {
            assert(t.shape@.subrange(0, i2 as int + 1).drop_last() =~= t.shape@.subrange(
                0,
                i2 as int,
            ));
            assert(prod(t.shape@.subrange(0, i2 as int + 1)) == prod(
                t.shape@.subrange(0, i2 as int),
            ) * t.shape@[i2 as int]);
            assert((acc as int) * (t.shape@[i2 as int] as int) < 0x1_0000_0000_0000_0000_0000_0000)
                by (nonlinear_arith)
                requires
                    acc <= 0xFFFF_FFFFu128,
                    (t.shape@[i2 as int] as int) < 0x1_0000_0000_0000_0000,
            ;
        }
        let next = acc * (t.shape[i2] as u128);
        if next > 0xFFFF_FFFF {
            proof {
                lemma_prod_prefix_le(t.shape@, i2 as int + 1);
            }
            return false;
        }
        acc = next;
        i2 = i2 + 1;
    }
    proof {
        assert(t.shape@.subrange(0, n as int) =~= t.shape@);
    }
    // the handle must be live
    if t.handle >= store.bufs.len() {
        return false;
    }
    if store.refs[t.handle] == 0 {
        return false;
    }
    // the addressable extent must stay inside the buffer
    let blen = store.bufs[t.handle].len();
    if blen == 0 {
        proof {
            lemma_max_offset_nonneg(t.shape@, t.strides@);
        }
        return false;
    }
    let mut acc2: u128 = 0;
    let mut i3: usize = n;
    proof {
        assert(t.shape@.subrange(0, n as int) =~= t.shape@);
        assert(t.strides@.subrange(0, n as int) =~= t.strides@);
    }
    while i3 > 0
        invariant
            i3 <= n,
            n == t.shape@.len(),
            n == t.strides@.len(),
            dims_positive(t.shape@),
            t.handle < store.bufs@.len(),
            blen == store.buf(t.handle as int).len(),
            acc2 as int + max_offset(
                t.shape@.subrange(0, i3 as int),
                t.strides@.subrange(0, i3 as int),
            ) == max_offset(t.shape@, t.strides@),
            (acc2 as int) < blen as int,
        decreases i3,
    {
        i3 = i3 - 1;
        let d = t.shape[i3];
        let s = t.strides[i3];
        proof {
            let pre_d = t.shape@.subrange(0, i3 as int + 1);
            let pre_s = t.strides@.subrange(0, i3 as int + 1);
            assert(pre_d.last() == t.shape@[i3 as int]);
            assert(pre_d.drop_last() =~= t.shape@.subrange(0, i3 as int));
            assert(pre_s.drop_last() =~= t.strides@.subrange(0, i3 as int));
            assert(dims_positive(t.shape@.subrange(0, i3 as int)));
            lemma_max_offset_nonneg(
                t.shape@.subrange(0, i3 as int),
                t.strides@.subrange(0, i3 as int),
            );
            assert(((d - 1) as int) * (s as int) < 0x1_0000_0000_0000_0000_0000_0000_0000_0000)
                by (nonlinear_arith)
                requires
                    d >= 1,
                    (d as int) < 0x1_0000_0000_0000_0000,
                    (s as int) < 0x1_0000_0000_0000_0000,
            ;
        }
        let term: u128 = ((d - 1) as u128) * (s as u128);
        if term >= blen as u128 {
            proof {
                assert(max_offset(t.shape@, t.strides@) >= blen as int);
            }
            return false;
        }
        let next2 = acc2 + term;
        if next2 >= blen as u128 {
            proof {
                assert(max_offset(t.shape@, t.strides@) >= blen as int);
            }
            return false;
        }
        acc2 = next2;
    }
    proof {
        assert(t.shape@.subrange(0, 0) =~= Seq::<usize>::empty());
        assert(t.strides@.subrange(0, 0) =~= Seq::<usize>::empty());
    }
    true
}

/// Convert raw lanes read back from a boolean tensor into `bool`s:
/// any nonzero lane is `true`.
pub fn bool_values(values: &Vec<u32>) -> (r: Vec<bool>)
    ensures
        r@.len() == values@.len(),
        forall|i: int| 0 <= i < values@.len() ==> #[trigger] r@[i] == (values@[i] != 0),
{
    let n = values.len();
    let mut r: Vec<bool> = Vec::new();
    let mut i: usize = 0;
    while i < n
        invariant
            i <= n,
            n == values@.len(),
            r@.len() == i,
            forall|k: int| 0 <= k < i ==> #[trigger] r@[k] == (values@[k] != 0),
        decreases n - i,
    {
        r.push(values[i] != 0);
        i = i + 1;
    }
    r
}

}
