//! Fused elementwise kernels: the registry of precompiled variants
//! (standard and in-place, scalar and vectorized), the aliasing-safety
//! check that decides when outputs may overwrite input buffers, and the
//! priority ranker that selects the best eligible variant for a call.
use vstd::prelude::*;

use crate::layout::{dims_positive, prod};
use crate::store::BufferStore;
use crate::tensor::{elem_size, elem_size_spec, ElemKind, Tensor};

verus! {

/// Declares that the in-place kernel variant realises the output at
/// `pos_output` by overwriting the buffer of the input at `pos_input`.
#[derive(Clone, Copy, PartialEq, Eq, Structural, Debug)]
pub struct InplaceMapping {
    pub pos_input: usize,
    pub pos_output: usize,
}

/// Eligibility and preference of a kernel variant for a concrete call:
/// higher available scores are preferred.
#[derive(Clone, Copy, PartialEq, Eq, Structural, Debug)]
pub enum Priority {
    Unavailable,
    Available(u8),
}

/// `Unavailable` ranks below every available score.
pub open spec fn priority_val(p: Priority) -> int {
    match p {
        Priority::Unavailable => -1,
        Priority::Available(s) => s as int,
    }
}

/// A compiled kernel's metadata: an identifier, its square workgroup tile
/// extents, and the element kind of each output binding.
pub struct KernelSource {
    pub id: u64,
    pub workgroup_size_x: u32,
    pub workgroup_size_y: u32,
    pub outputs: Vec<ElemKind>,
}

/// The 2-D launch grid for one kernel dispatch.
#[derive(Clone, Copy, PartialEq, Eq, Structural, Debug)]
pub struct WorkGroup {
    pub x: u32,
    pub y: u32,
    pub z: u32,
}

/// Which compiled source to launch, and on what grid.
#[derive(Clone, Copy, PartialEq, Eq, Structural, Debug)]
pub struct LaunchPlan {
    pub source_id: u64,
    pub workgroup: WorkGroup,
}

/// Allocation instruction for one output position: reuse the buffer of
/// input `input_index`, or allocate `size` fresh bytes.
#[derive(Clone, Copy, PartialEq, Eq, Structural, Debug)]
pub enum OutputInfo {
    Inplace { input_index: usize },
    Array { size: u64 },
}

/// A runnable kernel plus one allocation instruction per output.
pub struct SelectedKernel {
    pub kernel: LaunchPlan,
    pub info: Vec<OutputInfo>,
}

/// The runtime face of an input tensor during fusion: its buffer handle
/// and its strides.
pub struct FusionHandle {
    pub handle: usize,
    pub strides: Vec<usize>,
}

/// The logical description of a tensor during fusion planning: its shape,
/// without a concrete buffer.
pub struct TensorDesc {
    pub shape: Vec<usize>,
}

/// Errors of kernel selection.
#[derive(Clone, Copy, PartialEq, Eq, Structural, Debug)]
pub enum FusionError {
    /// No registered variant is eligible for the call; never happens while
    /// a scalar fallback is registered.
    NoEligibleKernel,
}

/// The runtime fusion face of a device tensor.
pub fn fusion_handle(t: &Tensor) -> (h: FusionHandle)
    ensures
        h.handle == t.handle,
        h.strides@ == t.strides@,
{
    FusionHandle { handle: t.handle, strides: crate::tensor::clone_usizes(&t.strides) }
}

/// Walking the strides from the last axis backward they never decrease:
/// the approximation of "overwriting element-by-element cannot corrupt
/// values not yet read" that gates in-place execution.
pub open spec fn strides_overwrite_safe(s: Seq<usize>) -> bool {
    forall|i: int| 0 <= i < s.len() - 1 ==> #[trigger] s[i] >= s[i + 1]
}

/// The input bound by `m` may be overwritten: its buffer grants exclusive
/// mutation and its strides pass the overwrite-safety walk.
pub open spec fn mapping_safe(m: InplaceMapping, handles: Seq<FusionHandle>, store: BufferStore) -> bool {
    &&& store.can_mut_spec(handles[m.pos_input as int].handle as int)
    &&& strides_overwrite_safe(handles[m.pos_input as int].strides@)
}

/// In-place execution is legal: there is at least one mapping, and every
/// mapping's input passes both sub-checks (all or nothing).
pub open spec fn inplace_ok(
    mappings: Seq<InplaceMapping>,
    handles: Seq<FusionHandle>,
    store: BufferStore,
) -> bool {
    &&& mappings.len() > 0
    &&& forall|k: int|
        0 <= k < mappings.len() ==> mapping_safe(#[trigger] mappings[k], handles, store)
}

/// Any mapping whose input fails the overwrite-safety stride walk vetoes
/// in-place execution for the whole call, whatever `can_mut` reports.
pub proof fn lemma_unsafe_strides_veto(
    mappings: Seq<InplaceMapping>,
    handles: Seq<FusionHandle>,
    store: BufferStore,
    k: int,
)
    requires
        0 <= k < mappings.len(),
        !strides_overwrite_safe(handles[mappings[k].pos_input as int].strides@),
    ensures
        !inplace_ok(mappings, handles, store),
{
    assert(!mapping_safe(mappings[k], handles, store));
}

fn strides_safe_walk(strides: &Vec<usize>) -> (r: bool)
    ensures
        r == strides_overwrite_safe(strides@),
{
    let n = strides.len();
    let mut current: usize = 0;
    let mut i: usize = n;
    while i > 0
        invariant
            i <= n,
            n == strides@.len(),
            i < n ==> current == strides@[i as int],
            i == n ==> current == 0,
            forall|l: int| i <= l < n - 1 ==> #[trigger] strides@[l] >= strides@[l + 1],
        decreases i,
    {
        i = i - 1;
        let s = strides[i];
        if current > s {
            proof {
                assert(strides@[i as int] < strides@[i + 1]);
            }
            return false;
        }
        current = s;
    }
    true
}

/// Whether in-place execution is legal for this call: every mapped input's
/// buffer must grant exclusive mutation and its strides must never
/// decrease when walked from the last axis backward; an empty mapping set
/// means there is nothing to alias.
pub fn inplace_available(
    mappings: &Vec<InplaceMapping>,
    handles_inputs: &Vec<FusionHandle>,
    store: &BufferStore,
) -> (r: bool)
    requires
        store.wf(),
        forall|k: int|
            0 <= k < mappings@.len() ==> (#[trigger] mappings@[k]).pos_input
                < handles_inputs@.len(),
        forall|k: int|
            0 <= k < handles_inputs@.len() ==> (#[trigger] handles_inputs@[k]).handle
                < store.bufs@.len(),
    ensures
        r == inplace_ok(mappings@, handles_inputs@, *store),
{
    let n = mappings.len();
    if n == 0 {
        return false;
    }
    let mut k: usize = 0;
    while k < n
        invariant
            k <= n,
            n == mappings@.len(),
            store.wf(),
            forall|l: int|
                0 <= l < mappings@.len() ==> (#[trigger] mappings@[l]).pos_input
                    < handles_inputs@.len(),
            forall|l: int|
                0 <= l < handles_inputs@.len() ==> (#[trigger] handles_inputs@[l]).handle
                    < store.bufs@.len(),
            forall|l: int| 0 <= l < k ==> mapping_safe(#[trigger] mappings@[l], handles_inputs@, *store),
        decreases n - k,
    {
        let mapping = mappings[k];
        let handle = &handles_inputs[mapping.pos_input];
        if !store.can_mut(handle.handle) {
            proof {
                assert(!mapping_safe(mappings@[k as int], handles_inputs@, *store));
            }
            return false;
        }
        if !strides_safe_walk(&handle.strides) {
            proof {
                assert(!mapping_safe(mappings@[k as int], handles_inputs@, *store));
            }
            return false;
        }
        k = k + 1;
    }
    true
}

/// The number of workgroups needed for `m` invocations tiled by a square
/// workgroup of side `ws`; at least one.
pub open spec fn workgroup_count(m: int, ws: int) -> int {
    if m == 0 {
        1
    } else {
        (m - 1) / (ws * ws) + 1
    }
}

/// The grid is sized from `m`: it launches at least `m` invocations when
/// tiled by a square workgroup of side `ws`, its first side is the least
/// whose square covers the needed workgroup count, and it carries no
/// spare full row — so both sides are pinned by `m` and `ws`.
pub open spec fn covers(wg: WorkGroup, ws: int, m: int) -> bool {
    let w = workgroup_count(m, ws);
    &&& wg.x >= 1
    &&& wg.y >= 1
    &&& wg.z == 1
    &&& (wg.x as int) * (wg.y as int) * (ws * ws) >= m
    &&& ((wg.x as int) - 1) * ((wg.x as int) - 1) < w
    &&& (wg.x as int) * ((wg.y as int) - 1) < w
}

fn isqrt_square_below(x: u64, w: u64) -> (r: bool)
    requires
        x <= 0x1_0000,
    ensures
        r == ((x as int) * (x as int) < w as int),
{
    proof {
        assert((x as int) * (x as int) <= 0x1_0000_0000) by (nonlinear_arith)
            requires
                x <= 0x1_0000,
        ;
    }
    x * x < w
}

fn isqrt_ceil(w: u64) -> (x: u64)
    requires
        1 <= w <= 0xFFFF_FFFF,
    ensures
        1 <= x <= 0x1_0000,
        (x as int) * (x as int) >= w,
        ((x as int) - 1) * ((x as int) - 1) < w,
{
    let mut x: u64 = 0;
    while isqrt_square_below(x, w)
        invariant
            x <= 0x1_0000,
            w <= 0xFFFF_FFFF,
            x > 0 ==> ((x as int) - 1) * ((x as int) - 1) < w,
        decreases 0x1_0001 - x,
    {
        proof {
            assert(x < 0x1_0000) by (nonlinear_arith)
                requires
                    (x as int) * (x as int) < w,
                    w <= 0xFFFF_FFFF,
                    x <= 0x1_0000,
            ;
        }
        x = x + 1;
    }
    proof {
        if x == 0 {
            assert((x as int) * (x as int) == 0);
            assert(false);
        }
    }
    x
}

/// A near-square 2-D launch grid covering `num_elems` invocations, tiled
/// by a square workgroup of side `workgroup_size`.
pub fn elemwise_workgroup(num_elems: usize, workgroup_size: u32) -> (wg: WorkGroup)
    requires
        1 <= workgroup_size <= 0xFFFF,
        num_elems <= u32::MAX,
    ensures
        covers(wg, workgroup_size as int, num_elems as int),
{
    let ws = workgroup_size as usize;
    proof {
        assert(1 <= (ws as int) * (ws as int) <= 0xFFFE_0001) by (nonlinear_arith)
            requires
                1 <= ws <= 0xFFFF,
        ;
    }
    let per = ws * ws;
    let w: usize = if num_elems == 0 {
        1
    } else {
        (num_elems - 1) / per + 1
    };
    proof {
        if num_elems > 0 {
            let m1 = num_elems as int - 1;
            let p = per as int;
            let q = m1 / p;
            vstd::arithmetic::div_mod::lemma_fundamental_div_mod(m1, p);
            assert(q <= m1 && (q + 1) * p >= num_elems as int) by (nonlinear_arith)
                requires
                    p >= 1,
                    m1 >= 0,
                    m1 == num_elems as int - 1,
                    m1 == p * q + m1 % p,
                    0 <= m1 % p < p,
            ;
            assert(w * per >= num_elems);
        }
        assert(1 <= w <= u32::MAX);
        assert(w * per >= num_elems);
    }
    let w64 = w as u64;
    let x64 = isqrt_ceil(w64);
    let y64 = (w64 + x64 - 1) / x64;
    proof {
        let a = w64 as int + x64 - 1;
        let xi = x64 as int;
        vstd::arithmetic::div_mod::lemma_fundamental_div_mod(a, xi);
        assert(xi * (y64 as int) >= w64 && y64 <= w64 && y64 >= 1 && xi * ((y64 as int) - 1)
            < w64) by (nonlinear_arith)
            requires
                xi >= 1,
                w64 >= 1,
                a == w64 as int + xi - 1,
                a == xi * (y64 as int) + a % xi,
                0 <= a % xi < xi,
        ;
    }
    let wg = WorkGroup { x: x64 as u32, y: y64 as u32, z: 1 };
    proof {
        assert(w as int == workgroup_count(num_elems as int, workgroup_size as int));
        assert((wg.x as int) * (wg.y as int) * ((workgroup_size as int) * (workgroup_size
            as int)) >= num_elems as int) by (nonlinear_arith)
            requires
                wg.x == x64,
                wg.y == y64,
                (x64 as int) * (x64 as int) >= w64,
                (x64 as int) * (y64 as int) >= w64,
                w64 == w,
                w * per >= num_elems,
                per as int == (workgroup_size as int) * (workgroup_size as int),
                per >= 1,
                w >= 1,
                x64 >= 1,
                y64 >= 1,
        ;
        assert(((wg.x as int) - 1) * ((wg.x as int) - 1) < w && (wg.x as int) * ((wg.y as int)
            - 1) < w) by (nonlinear_arith)
            requires
                wg.x == x64,
                wg.y == y64,
                w64 == w,
                ((x64 as int) - 1) * ((x64 as int) - 1) < w64,
                (x64 as int) * ((y64 as int) - 1) < w64,
        ;
    }
    wg
}

/// The input position realising output `k` in the in-place variant:
/// the latest registered mapping for `k` wins.
pub open spec fn last_input_for(mappings: Seq<InplaceMapping>, k: int) -> Option<usize>
    decreases mappings.len(),
{
    if mappings.len() == 0 {
        None
    } else if mappings.last().pos_output as int == k {
        Some(mappings.last().pos_input)
    } else {
        last_input_for(mappings.drop_last(), k)
    }
}

proof fn lemma_last_input_found(mappings: Seq<InplaceMapping>, k: int, i: int)
    requires
        0 <= i < mappings.len(),
        mappings[i].pos_output as int == k,
        forall|l: int| i < l < mappings.len() ==> (#[trigger] mappings[l]).pos_output as int != k,
    ensures
        last_input_for(mappings, k) == Some(mappings[i].pos_input),
    decreases mappings.len(),
{
    if i == mappings.len() - 1 {
    } else {
        lemma_last_input_found(mappings.drop_last(), k, i);
    }
}

proof fn lemma_last_input_none(mappings: Seq<InplaceMapping>, k: int)
    requires
        forall|l: int| 0 <= l < mappings.len() ==> (#[trigger] mappings[l]).pos_output as int != k,
    ensures
        last_input_for(mappings, k) is None,
    decreases mappings.len(),
{
    if mappings.len() > 0 {
        lemma_last_input_none(mappings.drop_last(), k);
    }
}

/// The registered pair of compiled kernels for one fused elementwise
/// operation: the standard source, the in-place source, the declared
/// aliasing mappings with their derived output-to-input reverse index, and
/// the vector width factor (one for the scalar family).
pub struct ElementWiseSource {
    pub source_normal: KernelSource,
    pub source_inplace: KernelSource,
    pub mappings: Vec<InplaceMapping>,
    pub inplace_output2input: Vec<Option<usize>>,
    pub factor: usize,
}

impl ElementWiseSource {
    /// Registration-time invariant: the vector factor fits a priority
    /// score, and the compiled grid tile is square and usable.
    pub open spec fn wf(self) -> bool {
        &&& 1 <= self.factor <= 255
        &&& self.source_normal.workgroup_size_x == self.source_normal.workgroup_size_y
        &&& 1 <= self.source_normal.workgroup_size_x <= 0xFFFF
    }

    /// Bounds a concrete call must satisfy (the shapes of all described
    /// tensors are ranked with positive extents, the mapped positions
    /// exist, and every output has a binding in the standard source).
    pub open spec fn call_ok(
        self,
        handles: Seq<FusionHandle>,
        inputs: Seq<TensorDesc>,
        outputs: Seq<TensorDesc>,
        store: BufferStore,
    ) -> bool {
        &&& forall|k: int|
            0 <= k < self.mappings@.len() ==> (#[trigger] self.mappings@[k]).pos_input
                < handles.len() && self.mappings@[k].pos_input < inputs.len()
        &&& forall|k: int|
            0 <= k < handles.len() ==> (#[trigger] handles[k]).handle < store.bufs@.len()
        &&& outputs.len() >= 1
        &&& self.inplace_output2input@.len() <= outputs.len()
        &&& outputs.len() <= self.source_normal.outputs@.len()
        &&& forall|k: int| 0 <= k < inputs.len() ==> desc_wf(#[trigger] inputs[k])
        &&& forall|k: int| 0 <= k < outputs.len() ==> desc_wf(#[trigger] outputs[k])
    }

    /// Bind the standard and in-place sources of one operation, deriving
    /// the output-to-input reverse index from the declared mappings
    /// (later mappings for the same output win).
    pub fn new(
        normal: KernelSource,
        inplace: KernelSource,
        mappings: Vec<InplaceMapping>,
        num_output: usize,
        factor: usize,
    ) -> (r: Self)
        requires
            forall|k: int|
                0 <= k < mappings@.len() ==> (#[trigger] mappings@[k]).pos_output < num_output,
        ensures
            r.source_normal == normal,
            r.source_inplace == inplace,
            r.mappings == mappings,
            r.factor == factor,
            r.inplace_output2input@.len() == num_output,
            forall|k: int|
                0 <= k < num_output ==> #[trigger] r.inplace_output2input@[k] == last_input_for(
                    mappings@,
                    k,
                ),
    {
        let mut inplace_output2input: Vec<Option<usize>> = Vec::new();
        let m = mappings.len();
        let mut k: usize = 0;
        while k < num_output
            invariant
                k <= num_output,
                m == mappings@.len(),
                inplace_output2input@.len() == k,
                forall|t: int|
                    0 <= t < k ==> #[trigger] inplace_output2input@[t] == last_input_for(
                        mappings@,
                        t,
                    ),
            decreases num_output - k,
        {
            // scan the mappings from the latest back for one driving output k
            let mut i: usize = m;
            let mut entry: Option<usize> = None;
            while i > 0 && entry.is_none()
                invariant
                    i <= m,
                    m == mappings@.len(),
                    entry is None ==> forall|l: int|
                        i <= l < m ==> (#[trigger] mappings@[l]).pos_output as int != k as int,
                    entry is Some ==> i < m && mappings@[i as int].pos_output as int == k as int
                        && entry == Some(mappings@[i as int].pos_input) && forall|l: int|
                        i < l < m ==> (#[trigger] mappings@[l]).pos_output as int != k as int,
                decreases i,
            {
                i = i - 1;
                if mappings[i].pos_output == k {
                    entry = Some(mappings[i].pos_input);
                }
            }
            proof {
                match entry {
                    Some(_) => {
                        lemma_last_input_found(mappings@, k as int, i as int);
                    },
                    None => {
                        lemma_last_input_none(mappings@, k as int);
                    },
                }
            }
            inplace_output2input.push(entry);
            k = k + 1;
        }
        ElementWiseSource { source_normal: normal, source_inplace: inplace, mappings, inplace_output2input, factor }
    }
}

/// Positive-extent ranked shape whose element count fits device launch
/// arithmetic.
pub open spec fn desc_wf(d: TensorDesc) -> bool {
    &&& d.shape@.len() >= 1
    &&& dims_positive(d.shape@)
    &&& prod(d.shape@) <= u32::MAX
}

/// The allocation instruction owed to output `k` when it has no declared
/// input alias: a fresh array sized by the output's element count and the
/// per-element byte size declared by the standard source (the in-place
/// source's binding layout is not reliable for non-aliased outputs).
pub open spec fn fresh_output_info(src: ElementWiseSource, outputs: Seq<TensorDesc>, k: int) -> OutputInfo {
    OutputInfo::Array {
        size: (prod(outputs[k].shape@) * elem_size_spec(src.source_normal.outputs@[k])) as u64,
    }
}

/// The allocation instructions of the in-place variant: aliased outputs
/// reuse their input's buffer, the rest are freshly allocated.
pub open spec fn infos_ok_inplace(
    src: ElementWiseSource,
    outputs: Seq<TensorDesc>,
    info: Seq<OutputInfo>,
) -> bool {
    &&& info.len() == src.inplace_output2input@.len()
    &&& forall|k: int|
        0 <= k < info.len() ==> #[trigger] info[k] == (match src.inplace_output2input@[k] {
            Some(i) => OutputInfo::Inplace { input_index: i },
            None => fresh_output_info(src, outputs, k),
        })
}

/// The allocation instructions of the standard variant: every output is
/// freshly allocated.
pub open spec fn infos_ok_normal(
    src: ElementWiseSource,
    outputs: Seq<TensorDesc>,
    info: Seq<OutputInfo>,
) -> bool {
    &&& info.len() == outputs.len()
    &&& forall|k: int| 0 <= k < info.len() ==> #[trigger] info[k] == fresh_output_info(src, outputs, k)
}

/// What `kernel` returns for this call: if in-place execution is legal the
/// in-place source is launched on a grid sized from the first mapping's
/// input and aliased outputs reuse their input buffers; otherwise the
/// standard source is launched on a grid sized from the first output and
/// every output is freshly allocated.
pub open spec fn selected_ok(
    src: ElementWiseSource,
    handles: Seq<FusionHandle>,
    inputs: Seq<TensorDesc>,
    outputs: Seq<TensorDesc>,
    store: BufferStore,
    r: SelectedKernel,
) -> bool {
    if inplace_ok(src.mappings@, handles, store) {
        &&& r.kernel.source_id == src.source_inplace.id
        &&& covers(
            r.kernel.workgroup,
            src.source_normal.workgroup_size_x as int,
            prod(inputs[src.mappings@[0].pos_input as int].shape@) / (src.factor as int),
        )
        &&& infos_ok_inplace(src, outputs, r.info@)
    } else {
        &&& r.kernel.source_id == src.source_normal.id
        &&& covers(
            r.kernel.workgroup,
            src.source_normal.workgroup_size_x as int,
            prod(outputs[0].shape@) / (src.factor as int),
        )
        &&& infos_ok_normal(src, outputs, r.info@)
    }
}

impl ElementWiseSource {
    /// Build the runnable kernel and allocation plan for a concrete call:
    /// decide in-place eligibility, size the launch grid from the
    /// reference tensor's element count over the vector factor, and emit
    /// one allocation instruction per output.
    pub fn kernel(
        &self,
        handles_inputs: &Vec<FusionHandle>,
        inputs: &Vec<TensorDesc>,
        outputs: &Vec<TensorDesc>,
        store: &BufferStore,
    ) -> (r: SelectedKernel)
        requires
            store.wf(),
            self.wf(),
            self.call_ok(handles_inputs@, inputs@, outputs@, *store),
        ensures
            selected_ok(*self, handles_inputs@, inputs@, outputs@, *store, r),
    {
        let workgroup_size = self.source_normal.workgroup_size_x;
        if inplace_available(&self.mappings, handles_inputs, store) {
            let reference_tensor = &inputs[self.mappings[0].pos_input];
            let num_elems = crate::tensor::num_elements(&reference_tensor.shape);
            let workgroup = elemwise_workgroup(num_elems / self.factor, workgroup_size);
            let mut info: Vec<OutputInfo> = Vec::new();
            let n_out = self.inplace_output2input.len();
            let mut k: usize = 0;
            while k < n_out
                invariant
                    k <= n_out,
                    n_out == self.inplace_output2input@.len(),
                    self.call_ok(handles_inputs@, inputs@, outputs@, *store),
                    info@.len() == k,
                    forall|l: int|
                        0 <= l < k ==> #[trigger] info@[l] == (match self.inplace_output2input@[l] {
                            Some(i) => OutputInfo::Inplace { input_index: i },
                            None => fresh_output_info(*self, outputs@, l),
                        }),
                decreases n_out - k,
            {
                match self.inplace_output2input[k] {
                    Some(input_index) => {
                        info.push(OutputInfo::Inplace { input_index });
                    },
                    None => {
                        info.push(fresh_output(self, outputs, k));
                    },
                }
                k = k + 1;
            }
            SelectedKernel {
                kernel: LaunchPlan { source_id: self.source_inplace.id, workgroup },
                info,
            }
        } else {
            let reference_tensor = &outputs[0];
            let num_elems = crate::tensor::num_elements(&reference_tensor.shape);
            let workgroup = elemwise_workgroup(num_elems / self.factor, workgroup_size);
            let mut info: Vec<OutputInfo> = Vec::new();
            let n_out = outputs.len();
            let mut k: usize = 0;
            while k < n_out
                invariant
                    k <= n_out,
                    n_out == outputs@.len(),
                    self.call_ok(handles_inputs@, inputs@, outputs@, *store),
                    info@.len() == k,
                    forall|l: int|
                        0 <= l < k ==> #[trigger] info@[l] == fresh_output_info(*self, outputs@, l),
                decreases n_out - k,
            {
                info.push(fresh_output(self, outputs, k));
                k = k + 1;
            }
            SelectedKernel {
                kernel: LaunchPlan { source_id: self.source_normal.id, workgroup },
                info,
            }
        }
    }
}

fn fresh_output(src: &ElementWiseSource, outputs: &Vec<TensorDesc>, k: usize) -> (r: OutputInfo)
    requires
        k < outputs@.len(),
        outputs@.len() <= src.source_normal.outputs@.len(),
        desc_wf(outputs@[k as int]),
    ensures
        r == fresh_output_info(*src, outputs@, k as int),
{
    let n = crate::tensor::num_elements(&outputs[k].shape);
    let es = elem_size(src.source_normal.outputs[k]);
    proof {
        assert((n as u64) * (es as u64) == prod(outputs@[k as int].shape@) * elem_size_spec(
            src.source_normal.outputs@[k as int],
        )) by (nonlinear_arith)
            requires
                n as int == prod(outputs@[k as int].shape@),
                es == elem_size_spec(src.source_normal.outputs@[k as int]),
                0 <= n <= u32::MAX,
                1 <= es <= 8,
        ;
    }
    OutputInfo::Array { size: (n as u64) * (es as u64) }
}

/// The vectorized variant can read input `h`/`desc` as whole vectors: the
/// last axis is unit-stride and its extent divides evenly by the factor.
pub open spec fn vec_input_ok(h: FusionHandle, desc: TensorDesc, factor: usize) -> bool {
    &&& h.strides@[h.strides@.len() - 1] == 1
    &&& desc.shape@[desc.shape@.len() - 1] as int % (factor as int) == 0
}

/// With no inputs at all, an output is vector-eligible when its last-axis
/// extent divides evenly by the factor.
pub open spec fn vec_output_ok(desc: TensorDesc, factor: usize) -> bool {
    desc.shape@[desc.shape@.len() - 1] as int % (factor as int) == 0
}

pub open spec fn all_inputs_vec_ok(
    handles: Seq<FusionHandle>,
    inputs: Seq<TensorDesc>,
    factor: usize,
) -> bool {
    forall|k: int| 0 <= k < handles.len() ==> #[trigger] vec_input_ok(handles[k], inputs[k], factor)
}

pub open spec fn all_outputs_vec_ok(outputs: Seq<TensorDesc>, factor: usize) -> bool {
    forall|k: int| 0 <= k < outputs.len() ==> #[trigger] vec_output_ok(outputs[k], factor)
}

/// Priority of a width-`factor` vectorized variant: available at score
/// `factor` when every input is vector-eligible (and, with no inputs, every
/// output), otherwise unavailable.
pub open spec fn vec_priority_spec(
    handles: Seq<FusionHandle>,
    inputs: Seq<TensorDesc>,
    outputs: Seq<TensorDesc>,
    factor: usize,
) -> Priority {
    if all_inputs_vec_ok(handles, inputs, factor) && (handles.len() > 0 || all_outputs_vec_ok(
        outputs,
        factor,
    )) {
        Priority::Available(factor as u8)
    } else {
        Priority::Unavailable
    }
}

/// Rank bounds a priority query must satisfy: one description per input
/// handle, each handle ranked as its description is.
pub open spec fn priority_call_ok(
    handles: Seq<FusionHandle>,
    inputs: Seq<TensorDesc>,
) -> bool {
    &&& handles.len() == inputs.len()
    &&& forall|k: int|
        0 <= k < handles.len() ==> 1 <= (#[trigger] handles[k]).strides@.len()
            && handles[k].strides@.len() == inputs[k].shape@.len()
}

/// The scalar (width one) family of one fused elementwise operation:
/// always eligible, the guaranteed fallback.
pub struct ScalarElementWise {
    pub source: ElementWiseSource,
}

/// A vectorized (width greater than one) family of one fused elementwise
/// operation: eligible only under the trailing-axis layout constraints.
pub struct VecElementWise {
    pub source: ElementWiseSource,
}

impl ScalarElementWise {
    pub fn new(
        normal: KernelSource,
        inplace: KernelSource,
        mappings: Vec<InplaceMapping>,
        num_output: usize,
    ) -> (r: Self)
        requires
            forall|k: int|
                0 <= k < mappings@.len() ==> (#[trigger] mappings@[k]).pos_output < num_output,
        ensures
            r.source.source_normal == normal,
            r.source.source_inplace == inplace,
            r.source.mappings == mappings,
            r.source.factor == 1,
            r.source.inplace_output2input@.len() == num_output,
            forall|k: int|
                0 <= k < num_output ==> #[trigger] r.source.inplace_output2input@[k]
                    == last_input_for(mappings@, k),
    {
        ScalarElementWise { source: ElementWiseSource::new(normal, inplace, mappings, num_output, 1) }
    }

    /// The scalar fallback is always eligible, at the lowest score.
    pub fn priority(
        &self,
        _handles_inputs: &Vec<FusionHandle>,
        _inputs: &Vec<TensorDesc>,
        _outputs: &Vec<TensorDesc>,
    ) -> (p: Priority)
        ensures
            p == Priority::Available(0u8),
    {
        Priority::Available(0)
    }

    pub fn kernel(
        &self,
        handles_inputs: &Vec<FusionHandle>,
        inputs: &Vec<TensorDesc>,
        outputs: &Vec<TensorDesc>,
        store: &BufferStore,
    ) -> (r: SelectedKernel)
        requires
            store.wf(),
            self.source.wf(),
            self.source.call_ok(handles_inputs@, inputs@, outputs@, *store),
        ensures
            selected_ok(self.source, handles_inputs@, inputs@, outputs@, *store, r),
    {
        self.source.kernel(handles_inputs, inputs, outputs, store)
    }
}

impl VecElementWise {
    pub fn new(
        normal: KernelSource,
        inplace: KernelSource,
        mappings: Vec<InplaceMapping>,
        num_output: usize,
        factor: usize,
    ) -> (r: Self)
        requires
            forall|k: int|
                0 <= k < mappings@.len() ==> (#[trigger] mappings@[k]).pos_output < num_output,
        ensures
            r.source.source_normal == normal,
            r.source.source_inplace == inplace,
            r.source.mappings == mappings,
            r.source.factor == factor,
            r.source.inplace_output2input@.len() == num_output,
            forall|k: int|
                0 <= k < num_output ==> #[trigger] r.source.inplace_output2input@[k]
                    == last_input_for(mappings@, k),
    {
        VecElementWise {
            source: ElementWiseSource::new(normal, inplace, mappings, num_output, factor),
        }
    }

    /// Eligibility of the vectorized family for a concrete call: every
    /// input must be unit-stride on its last axis with an extent divisible
    /// by the vector width; with no inputs, the outputs' extents decide.
    pub fn priority(
        &self,
        handles_inputs: &Vec<FusionHandle>,
        inputs: &Vec<TensorDesc>,
        outputs: &Vec<TensorDesc>,
    ) -> (p: Priority)
        requires
            self.source.wf(),
            priority_call_ok(handles_inputs@, inputs@),
            handles_inputs@.len() == 0 ==> forall|k: int|
                0 <= k < outputs@.len() ==> (#[trigger] outputs@[k]).shape@.len() >= 1,
        ensures
            p == vec_priority_spec(handles_inputs@, inputs@, outputs@, self.source.factor),
    {
        let n = handles_inputs.len();
        let mut k: usize = 0;
        while k < n
            invariant
                k <= n,
                n == handles_inputs@.len(),
                self.source.wf(),
                priority_call_ok(handles_inputs@, inputs@),
                forall|l: int|
                    0 <= l < k ==> #[trigger] vec_input_ok(
                        handles_inputs@[l],
                        inputs@[l],
                        self.source.factor,
                    ),
            decreases n - k,
        {
            let handle = &handles_inputs[k];
            let desc = &inputs[k];
            let rank = handle.strides.len();
            // vectors load N contiguous lanes: the last axis must be unit-stride
            if handle.strides[rank - 1] != 1 {
                proof {
                    assert(!vec_input_ok(handles_inputs@[k as int], inputs@[k as int], self.source.factor));
                }
                return Priority::Unavailable;
            }
            // and its extent must split into whole vectors
            if desc.shape[rank - 1] % self.source.factor != 0 {
                proof {
                    assert(!vec_input_ok(handles_inputs@[k as int], inputs@[k as int], self.source.factor));
                }
                return Priority::Unavailable;
            }
            k = k + 1;
        }
        if n == 0 {
            let m = outputs.len();
            let mut l: usize = 0;
            while l < m
                invariant
                    l <= m,
                    m == outputs@.len(),
                    handles_inputs@.len() == 0,
                    self.source.wf(),
                    forall|t: int| 0 <= t < m ==> (#[trigger] outputs@[t]).shape@.len() >= 1,
                    forall|t: int|
                        0 <= t < l ==> #[trigger] vec_output_ok(outputs@[t], self.source.factor),
                decreases m - l,
            {
                let desc = &outputs[l];
                let rank = desc.shape.len();
                if desc.shape[rank - 1] % self.source.factor != 0 {
                    proof {
                        assert(!vec_output_ok(outputs@[l as int], self.source.factor));
                    }
                    return Priority::Unavailable;
                }
                l = l + 1;
            }
        }
        Priority::Available(self.source.factor as u8)
    }

    pub fn kernel(
        &self,
        handles_inputs: &Vec<FusionHandle>,
        inputs: &Vec<TensorDesc>,
        outputs: &Vec<TensorDesc>,
        store: &BufferStore,
    ) -> (r: SelectedKernel)
        requires
            store.wf(),
            self.source.wf(),
            self.source.call_ok(handles_inputs@, inputs@, outputs@, *store),
        ensures
            selected_ok(self.source, handles_inputs@, inputs@, outputs@, *store, r),
    {
        self.source.kernel(handles_inputs, inputs, outputs, store)
    }
}

/// One registered kernel family: the scalar fallback or a vectorized
/// width, both answering the same priority and kernel queries.
pub enum ElemWiseKernel {
    Scalar(ScalarElementWise),
    Vectorized(VecElementWise),
}

impl ElemWiseKernel {
    pub open spec fn source_spec(self) -> ElementWiseSource {
        match self {
            ElemWiseKernel::Scalar(s) => s.source,
            ElemWiseKernel::Vectorized(v) => v.source,
        }
    }

    pub open spec fn priority_spec(
        self,
        handles: Seq<FusionHandle>,
        inputs: Seq<TensorDesc>,
        outputs: Seq<TensorDesc>,
    ) -> Priority {
        match self {
            ElemWiseKernel::Scalar(_) => Priority::Available(0u8),
            ElemWiseKernel::Vectorized(v) => vec_priority_spec(
                handles,
                inputs,
                outputs,
                v.source.factor,
            ),
        }
    }

    pub fn priority(
        &self,
        handles_inputs: &Vec<FusionHandle>,
        inputs: &Vec<TensorDesc>,
        outputs: &Vec<TensorDesc>,
    ) -> (p: Priority)
        requires
            self.source_spec().wf(),
            priority_call_ok(handles_inputs@, inputs@),
            forall|k: int| 0 <= k < outputs@.len() ==> (#[trigger] outputs@[k]).shape@.len() >= 1,
        ensures
            p == self.priority_spec(handles_inputs@, inputs@, outputs@),
    {
        match self {
            ElemWiseKernel::Scalar(s) => s.priority(handles_inputs, inputs, outputs),
            ElemWiseKernel::Vectorized(v) => v.priority(handles_inputs, inputs, outputs),
        }
    }

    pub fn kernel(
        &self,
        handles_inputs: &Vec<FusionHandle>,
        inputs: &Vec<TensorDesc>,
        outputs: &Vec<TensorDesc>,
        store: &BufferStore,
    ) -> (r: SelectedKernel)
        requires
            store.wf(),
            self.source_spec().wf(),
            self.source_spec().call_ok(handles_inputs@, inputs@, outputs@, *store),
        ensures
            selected_ok(self.source_spec(), handles_inputs@, inputs@, outputs@, *store, r),
    {
        match self {
            ElemWiseKernel::Scalar(s) => s.kernel(handles_inputs, inputs, outputs, store),
            ElemWiseKernel::Vectorized(v) => v.kernel(handles_inputs, inputs, outputs, store),
        }
    }
}

/// `i` is the winning variant: eligible, of maximal priority, and the
/// latest registered among equals.
pub open spec fn best_choice(
    variants: Seq<ElemWiseKernel>,
    handles: Seq<FusionHandle>,
    inputs: Seq<TensorDesc>,
    outputs: Seq<TensorDesc>,
    i: int,
) -> bool {
    &&& 0 <= i < variants.len()
    &&& priority_val(variants[i].priority_spec(handles, inputs, outputs)) >= 0
    &&& forall|l: int|
        0 <= l < variants.len() ==> priority_val(
            (#[trigger] variants[l]).priority_spec(handles, inputs, outputs),
        ) <= priority_val(variants[i].priority_spec(handles, inputs, outputs))
    &&& forall|l: int|
        i < l < variants.len() ==> priority_val(
            (#[trigger] variants[l]).priority_spec(handles, inputs, outputs),
        ) < priority_val(variants[i].priority_spec(handles, inputs, outputs))
}

/// Bounds every variant and the call must satisfy for selection.
pub open spec fn select_call_ok(
    variants: Seq<ElemWiseKernel>,
    handles: Seq<FusionHandle>,
    inputs: Seq<TensorDesc>,
    outputs: Seq<TensorDesc>,
    store: BufferStore,
) -> bool {
    &&& forall|i: int| 0 <= i < variants.len() ==> (#[trigger] variants[i]).source_spec().wf()
    &&& forall|i: int|
        0 <= i < variants.len() ==> (#[trigger] variants[i]).source_spec().call_ok(
            handles,
            inputs,
            outputs,
            store,
        )
    &&& priority_call_ok(handles, inputs)
}

/// Score every registered variant against the concrete call and run the
/// single best one: any available variant beats the scalar fallback's
/// score zero, higher vector widths beat lower, and the latest registered
/// wins ties.  With a scalar fallback registered, selection never fails.
pub fn select_kernel(
    variants: &Vec<ElemWiseKernel>,
    handles_inputs: &Vec<FusionHandle>,
    inputs: &Vec<TensorDesc>,
    outputs: &Vec<TensorDesc>,
    store: &BufferStore,
) -> (r: Result<SelectedKernel, FusionError>)
    requires
        store.wf(),
        select_call_ok(variants@, handles_inputs@, inputs@, outputs@, *store),
    ensures
        r is Ok <==> exists|i: int|
            0 <= i < variants@.len() && priority_val(
                (#[trigger] variants@[i]).priority_spec(handles_inputs@, inputs@, outputs@),
            ) >= 0,
        match r {
            Ok(sk) => exists|i: int|
                #[trigger] best_choice(variants@, handles_inputs@, inputs@, outputs@, i)
                    && selected_ok(
                    variants@[i].source_spec(),
                    handles_inputs@,
                    inputs@,
                    outputs@,
                    *store,
                    sk,
                ),
            Err(e) => e == FusionError::NoEligibleKernel,
        },
{
    let n = variants.len();
    let mut best: usize = 0;
    let mut best_val: i16 = -1;
    let mut found: bool = false;
    let mut k: usize = 0;
    while k < n
        invariant
            k <= n,
            n == variants@.len(),
            store.wf(),
            select_call_ok(variants@, handles_inputs@, inputs@, outputs@, *store),
            !found ==> forall|l: int|
                0 <= l < k ==> priority_val(
                    (#[trigger] variants@[l]).priority_spec(handles_inputs@, inputs@, outputs@),
                ) == -1,
            !found ==> best_val == -1i16,
            found ==> best < k && best_val as int == priority_val(
                variants@[best as int].priority_spec(handles_inputs@, inputs@, outputs@),
            ) && best_val >= 0,
            found ==> forall|l: int|
                0 <= l < k ==> priority_val(
                    (#[trigger] variants@[l]).priority_spec(handles_inputs@, inputs@, outputs@),
                ) <= best_val as int,
            found ==> forall|l: int|
                best < l < k ==> priority_val(
                    (#[trigger] variants@[l]).priority_spec(handles_inputs@, inputs@, outputs@),
                ) < best_val as int,
        decreases n - k,
    {
        let p = variants[k].priority(handles_inputs, inputs, outputs);
        let v: i16 = match p {
            Priority::Unavailable => -1,
            Priority::Available(s) => s as i16,
        };
        if v >= 0 && (!found || v >= best_val) {
            best = k;
            best_val = v;
            found = true;
        }
        k = k + 1;
    }
    if !found {
        return Err(FusionError::NoEligibleKernel);
    }
    let ghost bi = best as int;
    proof {
        assert(best_choice(variants@, handles_inputs@, inputs@, outputs@, bi));
    }
    let sk = variants[best].kernel(handles_inputs, inputs, outputs, store);
    Ok(sk)
}

/// With a scalar fallback and an eligible vectorized variant registered,
/// the vectorized variant wins: its score is its width, above the scalar's
/// zero.
pub proof fn lemma_vector_preferred(
    variants: Seq<ElemWiseKernel>,
    handles: Seq<FusionHandle>,
    inputs: Seq<TensorDesc>,
    outputs: Seq<TensorDesc>,
)
    requires
        variants.len() == 2,
        variants[0] is Scalar,
        variants[1] is Vectorized,
        variants[1].source_spec().wf(),
        variants[1].priority_spec(handles, inputs, outputs) is Available,
    ensures
        best_choice(variants, handles, inputs, outputs, 1),
{
    let f = variants[1].source_spec().factor;
    assert(variants[1].priority_spec(handles, inputs, outputs) == Priority::Available(f as u8));
    assert(priority_val(variants[1].priority_spec(handles, inputs, outputs)) == f as u8 as int);
    assert(priority_val(variants[0].priority_spec(handles, inputs, outputs)) == 0);
}

/// With the vectorized variant ineligible, selection falls back to the
/// scalar variant.
pub proof fn lemma_scalar_fallback(
    variants: Seq<ElemWiseKernel>,
    handles: Seq<FusionHandle>,
    inputs: Seq<TensorDesc>,
    outputs: Seq<TensorDesc>,
)
    requires
        variants.len() == 2,
        variants[0] is Scalar,
        variants[1] is Vectorized,
        variants[1].priority_spec(handles, inputs, outputs) is Unavailable,
    ensures
        best_choice(variants, handles, inputs, outputs, 0),
{
    assert(priority_val(variants[0].priority_spec(handles, inputs, outputs)) == 0);
    assert(priority_val(variants[1].priority_spec(handles, inputs, outputs)) == -1);
}

}