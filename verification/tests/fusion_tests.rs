use elemwise_fusion::fusion::{
    elemwise_workgroup, fusion_handle, inplace_available, select_kernel, ElemWiseKernel,
    ElementWiseSource, FusionHandle, InplaceMapping, KernelSource, OutputInfo, Priority,
    ScalarElementWise, SelectedKernel, TensorDesc, VecElementWise, FusionError,
};
use elemwise_fusion::store::BufferStore;
use elemwise_fusion::tensor::{clone_tensor, drop_tensor, from_data, ElemKind, TensorData};

fn source(id: u64, outputs: usize) -> KernelSource {
    KernelSource {
        id,
        workgroup_size_x: 16,
        workgroup_size_y: 16,
        outputs: vec![ElemKind::F32; outputs],
    }
}

fn fresh_input(shape: Vec<usize>, store: &mut BufferStore) -> FusionHandle {
    let n: usize = shape.iter().product();
    let data = TensorData { values: vec![1u32; n], shape, kind: ElemKind::F32 };
    let t = from_data(data, 0, store);
    fusion_handle(&t)
}

#[test]
fn inplace_needs_at_least_one_mapping() {
    let mut store = BufferStore::new();
    let h = fresh_input(vec![2, 4], &mut store);
    let mappings: Vec<InplaceMapping> = vec![];
    assert!(!inplace_available(&mappings, &vec![h], &store));
}

#[test]
fn inplace_accepts_compact_exclusive_input() {
    let mut store = BufferStore::new();
    let h = fresh_input(vec![2, 3, 4], &mut store);
    assert_eq!(h.strides, vec![12usize, 4, 1]);
    let mappings = vec![InplaceMapping { pos_input: 0, pos_output: 0 }];
    assert!(inplace_available(&mappings, &vec![h], &store));
}

#[test]
fn inplace_vetoes_nonmonotone_strides_regardless_of_can_mut() {
    let mut store = BufferStore::new();
    let fresh = fresh_input(vec![2, 2, 2], &mut store);
    // reversed walk reads 1, then 4, then 2: 4 > 2 going further back
    let handle = FusionHandle { handle: fresh.handle, strides: vec![2usize, 4, 1] };
    let mappings = vec![InplaceMapping { pos_input: 0, pos_output: 0 }];
    assert!(!inplace_available(&mappings, &vec![handle], &store));
}

#[test]
fn inplace_vetoes_shared_buffer() {
    let mut store = BufferStore::new();
    let data = TensorData {
        values: vec![0u32; 8],
        shape: vec![2usize, 4],
        kind: ElemKind::F32,
    };
    let t = from_data(data, 0, &mut store);
    let shared = clone_tensor(&t, &mut store);
    let h = fusion_handle(&t);
    let mappings = vec![InplaceMapping { pos_input: 0, pos_output: 0 }];
    let handles = vec![h];
    assert!(!inplace_available(&mappings, &handles, &store));
    // dropping the other reference restores exclusive mutation
    drop_tensor(shared, &mut store);
    assert!(inplace_available(&mappings, &handles, &store));
}

#[test]
fn registry_derives_output_to_input_index() {
    let src = ElementWiseSource::new(
        source(1, 2),
        source(2, 2),
        vec![InplaceMapping { pos_input: 3, pos_output: 1 }],
        2,
        1,
    );
    assert_eq!(src.inplace_output2input, vec![None, Some(3usize)]);
}

#[test]
fn registry_keeps_latest_mapping_per_output() {
    let src = ElementWiseSource::new(
        source(1, 2),
        source(2, 2),
        vec![
            InplaceMapping { pos_input: 0, pos_output: 1 },
            InplaceMapping { pos_input: 1, pos_output: 1 },
        ],
        2,
        1,
    );
    assert_eq!(src.inplace_output2input, vec![None, Some(1usize)]);
}

#[test]
fn vector_priority_on_divisible_last_axis() {
    let mut store = BufferStore::new();
    let h = fresh_input(vec![2, 3, 8], &mut store);
    assert_eq!(h.strides[2], 1);
    let inputs = vec![TensorDesc { shape: vec![2, 3, 8] }];
    let outputs = vec![TensorDesc { shape: vec![2, 3, 8] }];
    let vec4 = VecElementWise::new(source(1, 1), source(2, 1), vec![], 1, 4);
    assert_eq!(vec4.priority(&vec![h], &inputs, &outputs), Priority::Available(4));
}

#[test]
fn vector_priority_unavailable_on_indivisible_last_axis() {
    let mut store = BufferStore::new();
    let h = fresh_input(vec![2, 3, 8], &mut store);
    let inputs = vec![TensorDesc { shape: vec![2, 3, 8] }];
    let outputs = vec![TensorDesc { shape: vec![2, 3, 8] }];
    let vec3 = VecElementWise::new(source(1, 1), source(2, 1), vec![], 1, 3);
    assert_eq!(vec3.priority(&vec![h], &inputs, &outputs), Priority::Unavailable);
}

#[test]
fn vector_priority_unavailable_on_strided_last_axis() {
    let mut store = BufferStore::new();
    let fresh = fresh_input(vec![2, 3, 8], &mut store);
    let h = FusionHandle { handle: fresh.handle, strides: vec![1usize, 2, 6] };
    let inputs = vec![TensorDesc { shape: vec![2, 3, 8] }];
    let outputs = vec![TensorDesc { shape: vec![2, 3, 8] }];
    let vec4 = VecElementWise::new(source(1, 1), source(2, 1), vec![], 1, 4);
    assert_eq!(vec4.priority(&vec![h], &inputs, &outputs), Priority::Unavailable);
}

#[test]
fn scalar_priority_is_always_available() {
    let scalar = ScalarElementWise::new(source(1, 1), source(2, 1), vec![], 1);
    let handles: Vec<FusionHandle> = vec![];
    let inputs: Vec<TensorDesc> = vec![];
    let outputs = vec![TensorDesc { shape: vec![5] }];
    assert_eq!(scalar.priority(&handles, &inputs, &outputs), Priority::Available(0));
}

#[test]
fn selector_prefers_eligible_vector_variant() {
    let mut store = BufferStore::new();
    let h = fresh_input(vec![2, 3, 8], &mut store);
    let inputs = vec![TensorDesc { shape: vec![2, 3, 8] }];
    let outputs = vec![TensorDesc { shape: vec![2, 3, 8] }];
    let variants = vec![
        ElemWiseKernel::Scalar(ScalarElementWise::new(source(1, 1), source(2, 1), vec![], 1)),
        ElemWiseKernel::Vectorized(VecElementWise::new(source(3, 1), source(4, 1), vec![], 1, 4)),
    ];
    let sk: SelectedKernel =
        select_kernel(&variants, &vec![h], &inputs, &outputs, &store).ok().unwrap();
    // no mappings: never in place, so the winner launches its standard source
    assert_eq!(sk.kernel.source_id, 3);
}

#[test]
fn selector_falls_back_to_scalar() {
    let mut store = BufferStore::new();
    let h = fresh_input(vec![2, 3, 10], &mut store);
    let inputs = vec![TensorDesc { shape: vec![2, 3, 10] }];
    let outputs = vec![TensorDesc { shape: vec![2, 3, 10] }];
    let variants = vec![
        ElemWiseKernel::Scalar(ScalarElementWise::new(source(1, 1), source(2, 1), vec![], 1)),
        ElemWiseKernel::Vectorized(VecElementWise::new(source(3, 1), source(4, 1), vec![], 1, 4)),
    ];
    let sk = select_kernel(&variants, &vec![h], &inputs, &outputs, &store).ok().unwrap();
    assert_eq!(sk.kernel.source_id, 1);
}

#[test]
fn selector_fails_with_no_variants() {
    let store = BufferStore::new();
    let variants: Vec<ElemWiseKernel> = vec![];
    let handles: Vec<FusionHandle> = vec![];
    let inputs: Vec<TensorDesc> = vec![];
    let outputs = vec![TensorDesc { shape: vec![4] }];
    let r = select_kernel(&variants, &handles, &inputs, &outputs, &store);
    assert!(matches!(r, Err(FusionError::NoEligibleKernel)));
}

#[test]
fn kernel_reuses_input_buffer_when_aliasing_is_safe() {
    let mut store = BufferStore::new();
    let h = fresh_input(vec![2, 3, 8], &mut store);
    let inputs = vec![TensorDesc { shape: vec![2, 3, 8] }];
    let outputs = vec![TensorDesc { shape: vec![2, 3, 8] }];
    let src = ElementWiseSource::new(
        source(1, 1),
        source(2, 1),
        vec![InplaceMapping { pos_input: 0, pos_output: 0 }],
        1,
        1,
    );
    let sk = src.kernel(&vec![h], &inputs, &outputs, &store);
    assert_eq!(sk.kernel.source_id, 2);
    assert_eq!(sk.info, vec![OutputInfo::Inplace { input_index: 0 }]);
    // 48 elements tiled by 16x16 invocations: a single workgroup suffices
    assert_eq!(sk.kernel.workgroup.x, 1);
    assert_eq!(sk.kernel.workgroup.y, 1);
    assert_eq!(sk.kernel.workgroup.z, 1);
}

#[test]
fn kernel_allocates_fresh_outputs_when_aliasing_is_unsafe() {
    let mut store = BufferStore::new();
    let fresh = fresh_input(vec![2, 2], &mut store);
    // non-monotone reversed strides veto in-place use
    let h = FusionHandle { handle: fresh.handle, strides: vec![1usize, 2] };
    let inputs = vec![TensorDesc { shape: vec![2, 2] }];
    let outputs = vec![TensorDesc { shape: vec![2, 2] }];
    let src = ElementWiseSource::new(
        source(1, 1),
        source(2, 1),
        vec![InplaceMapping { pos_input: 0, pos_output: 0 }],
        1,
        1,
    );
    let sk = src.kernel(&vec![h], &inputs, &outputs, &store);
    assert_eq!(sk.kernel.source_id, 1);
    // four f32 elements: sixteen fresh bytes
    assert_eq!(sk.info, vec![OutputInfo::Array { size: 16 }]);
}

#[test]
fn workgroup_grid_covers_all_invocations() {
    let wg = elemwise_workgroup(1000, 16);
    assert_eq!((wg.x, wg.y, wg.z), (2, 2, 1));
    assert!((wg.x as u64) * (wg.y as u64) * 256 >= 1000);
    let one = elemwise_workgroup(1, 16);
    assert_eq!((one.x, one.y, one.z), (1, 1, 1));
}
