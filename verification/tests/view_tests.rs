use elemwise_fusion::layout::new_contiguous_strides;
use elemwise_fusion::store::BufferStore;
use elemwise_fusion::tensor::{
    bool_values, check_tensor, empty, expand, from_data, into_data_sync, invert_axes, permute,
    reshape, swap_dims, to_device, ElemKind, TensorData, ViewError,
};

fn tensor_2x3(store: &mut BufferStore) -> elemwise_fusion::tensor::Tensor {
    let data = TensorData {
        values: vec![0u32, 1, 2, 3, 4, 5],
        shape: vec![2usize, 3],
        kind: ElemKind::U32,
    };
    from_data(data, 0, store)
}

#[test]
fn contiguous_strides_are_row_major() {
    let strides = new_contiguous_strides(&vec![2usize, 3, 4]);
    assert_eq!(strides, vec![12usize, 4, 1]);
    let scalar: Vec<usize> = new_contiguous_strides(&vec![7usize]);
    assert_eq!(scalar, vec![1usize]);
}

#[test]
fn swap_dims_twice_is_identity() {
    let mut store = BufferStore::new();
    let t = tensor_2x3(&mut store);
    let shape0 = t.shape.clone();
    let strides0 = t.strides.clone();
    let s1 = swap_dims(t, 0, 1);
    assert_eq!(s1.shape, vec![3usize, 2]);
    assert_eq!(s1.strides, vec![1usize, 3]);
    let s2 = swap_dims(s1, 0, 1);
    assert_eq!(s2.shape, shape0);
    assert_eq!(s2.strides, strides0);
}

#[test]
fn permute_then_inverse_restores_view() {
    let mut store = BufferStore::new();
    let data = TensorData {
        values: (0u32..24).collect(),
        shape: vec![2usize, 3, 4],
        kind: ElemKind::U32,
    };
    let t = from_data(data, 0, &mut store);
    let shape0 = t.shape.clone();
    let strides0 = t.strides.clone();
    let axes = vec![2usize, 0, 1];
    let p = permute(t, &axes).unwrap();
    assert_eq!(p.shape, vec![4usize, 2, 3]);
    assert_eq!(p.strides, vec![1usize, 12, 4]);
    let inv = invert_axes(&axes);
    assert_eq!(inv, vec![1usize, 2, 0]);
    let back = permute(p, &inv).unwrap();
    assert_eq!(back.shape, shape0);
    assert_eq!(back.strides, strides0);
}

#[test]
fn permute_rejects_malformed_axes() {
    let mut store = BufferStore::new();
    let t = tensor_2x3(&mut store);
    assert!(matches!(permute(t, &vec![0usize, 0]), Err(ViewError::InvalidPermutation)));
    let t2 = tensor_2x3(&mut store);
    assert!(matches!(permute(t2, &vec![0usize, 2]), Err(ViewError::InvalidPermutation)));
    let t3 = tensor_2x3(&mut store);
    assert!(matches!(permute(t3, &vec![0usize]), Err(ViewError::InvalidPermutation)));
}

#[test]
fn expand_broadcasts_right_aligned() {
    let mut store = BufferStore::new();
    let data = TensorData {
        values: vec![10u32, 11, 12, 13],
        shape: vec![4usize, 1],
        kind: ElemKind::U32,
    };
    let t = from_data(data, 0, &mut store);
    let axis0_stride = t.strides[0];
    let b = expand(t, vec![3usize, 4, 5]).unwrap();
    assert_eq!(b.shape, vec![3usize, 4, 5]);
    assert_eq!(b.strides, vec![0usize, axis0_stride, 0]);
}

#[test]
fn expand_of_ones_gives_zero_strides() {
    let mut store = BufferStore::new();
    let data = TensorData { values: vec![9u32], shape: vec![1usize, 1], kind: ElemKind::U32 };
    let t = from_data(data, 0, &mut store);
    let b = expand(t, vec![2usize, 2]).unwrap();
    assert_eq!(b.shape, vec![2usize, 2]);
    assert_eq!(b.strides, vec![0usize, 0]);
}

#[test]
fn expand_rejects_mismatched_extent() {
    let mut store = BufferStore::new();
    let data = TensorData { values: vec![1u32, 2, 3], shape: vec![3usize], kind: ElemKind::U32 };
    let t = from_data(data, 0, &mut store);
    match expand(t, vec![4usize]) {
        Err(ViewError::ShapeMismatch { axis, dim, expected }) => {
            assert_eq!(axis, 0);
            assert_eq!(dim, 3);
            assert_eq!(expected, 4);
        },
        other => panic!("expected a shape mismatch, got {:?}", other.map(|t| t.shape)),
    }
}

#[test]
fn expand_rejects_higher_source_rank() {
    let mut store = BufferStore::new();
    let t = tensor_2x3(&mut store);
    match expand(t, vec![6usize]) {
        Err(ViewError::RankExceedsTarget { rank, target_rank }) => {
            assert_eq!(rank, 2);
            assert_eq!(target_rank, 1);
        },
        other => panic!("expected a rank error, got {:?}", other.map(|t| t.shape)),
    }
}

#[test]
fn reshape_of_permuted_tensor_preserves_logical_order() {
    // reading back a permuted view gives its logical row-major sequence
    let mut store = BufferStore::new();
    let t = tensor_2x3(&mut store);
    let p = permute(t, &vec![1usize, 0]).unwrap();
    let read_direct = into_data_sync(p, &mut store);
    assert_eq!(read_direct.values, vec![0u32, 3, 1, 4, 2, 5]);
    assert_eq!(read_direct.shape, vec![3usize, 2]);

    // reshaping the same permuted view first must not change that sequence
    let t2 = tensor_2x3(&mut store);
    let p2 = permute(t2, &vec![1usize, 0]).unwrap();
    let r = reshape(p2, vec![6usize], &mut store);
    assert_eq!(r.shape, vec![6usize]);
    assert_eq!(r.strides, vec![1usize]);
    let read_reshaped = into_data_sync(r, &mut store);
    assert_eq!(read_reshaped.values, vec![0u32, 3, 1, 4, 2, 5]);
}

#[test]
fn reshape_of_contiguous_tensor_keeps_buffer_order() {
    let mut store = BufferStore::new();
    let t = tensor_2x3(&mut store);
    let r = reshape(t, vec![3usize, 2], &mut store);
    assert_eq!(r.shape, vec![3usize, 2]);
    let d = into_data_sync(r, &mut store);
    assert_eq!(d.values, vec![0u32, 1, 2, 3, 4, 5]);
}

#[test]
fn read_back_returns_uploaded_data() {
    let mut store = BufferStore::new();
    let t = tensor_2x3(&mut store);
    let d = into_data_sync(t, &mut store);
    assert_eq!(d.values, vec![0u32, 1, 2, 3, 4, 5]);
    assert_eq!(d.shape, vec![2usize, 3]);
}

#[test]
fn to_device_is_identity_on_same_device() {
    let mut store = BufferStore::new();
    let t = tensor_2x3(&mut store);
    let h = t.handle;
    let moved = to_device(t, 0, &mut store);
    assert_eq!(moved.handle, h);
    assert_eq!(moved.device, 0);
}

#[test]
fn to_device_copies_across_devices() {
    let mut store = BufferStore::new();
    let t = tensor_2x3(&mut store);
    let h = t.handle;
    let moved = to_device(t, 1, &mut store);
    assert_ne!(moved.handle, h);
    assert_eq!(moved.device, 1);
    let d = into_data_sync(moved, &mut store);
    assert_eq!(d.values, vec![0u32, 1, 2, 3, 4, 5]);
}

#[test]
fn empty_tensor_reads_back_zeroed() {
    let mut store = BufferStore::new();
    let t = empty(vec![2usize, 2], ElemKind::F32, 0, &mut store);
    assert_eq!(t.strides, vec![2usize, 1]);
    let d = into_data_sync(t, &mut store);
    assert_eq!(d.values, vec![0u32, 0, 0, 0]);
}

fn sources(
    store: &mut BufferStore,
) -> (elemwise_fusion::tensor::Tensor, elemwise_fusion::tensor::Tensor) {
    let a = from_data(
        TensorData {
            values: vec![1u32, 2, 3, 4, 5, 6],
            shape: vec![2usize, 3],
            kind: ElemKind::U32,
        },
        0,
        store,
    );
    let b = from_data(
        TensorData {
            values: vec![7u32, 8, 9, 10, 11, 12],
            shape: vec![3usize, 2],
            kind: ElemKind::U32,
        },
        0,
        store,
    );
    (a, b)
}

#[test]
fn independently_built_chains_read_back_identically() {
    // two view chains sharing two source tensors, built step by step in
    // different interleavings, must read back bit-for-bit the same
    // one chain after the other
    let mut s1 = BufferStore::new();
    let (a1, b1) = sources(&mut s1);
    let a1p = permute(a1, &vec![1usize, 0]).unwrap();
    let a1r = reshape(a1p, vec![6usize], &mut s1);
    let first_seq = into_data_sync(a1r, &mut s1);
    let b1s = swap_dims(b1, 0, 1);
    let b1r = reshape(b1s, vec![2usize, 3], &mut s1);
    let second_seq = into_data_sync(b1r, &mut s1);

    // the same two chains with their steps interleaved
    let mut s2 = BufferStore::new();
    let (a2, b2) = sources(&mut s2);
    let a2p = permute(a2, &vec![1usize, 0]).unwrap();
    let b2s = swap_dims(b2, 0, 1);
    let b2r = reshape(b2s, vec![2usize, 3], &mut s2);
    let a2r = reshape(a2p, vec![6usize], &mut s2);
    let second_inter = into_data_sync(b2r, &mut s2);
    let first_inter = into_data_sync(a2r, &mut s2);

    assert_eq!(first_seq.values, first_inter.values);
    assert_eq!(second_seq.values, second_inter.values);
    assert_eq!(first_seq.values, vec![1u32, 4, 2, 5, 3, 6]);
    assert_eq!(second_seq.values, vec![7u32, 9, 11, 8, 10, 12]);
}

#[test]
fn check_tensor_accepts_well_formed_views() {
    let mut store = BufferStore::new();
    let t = tensor_2x3(&mut store);
    assert!(check_tensor(&t, &store));
    let p = permute(t, &vec![1usize, 0]).unwrap();
    assert!(check_tensor(&p, &store));
}

#[test]
fn check_tensor_rejects_malformed_views() {
    let mut store = BufferStore::new();
    let t = tensor_2x3(&mut store);
    let dangling = elemwise_fusion::tensor::Tensor {
        device: t.device,
        shape: t.shape.clone(),
        strides: t.strides.clone(),
        handle: t.handle + 1,
        kind: t.kind,
    };
    assert!(!check_tensor(&dangling, &store));
    let oversized = elemwise_fusion::tensor::Tensor {
        device: t.device,
        shape: vec![2usize, 4],
        strides: vec![4usize, 1],
        handle: t.handle,
        kind: t.kind,
    };
    assert!(!check_tensor(&oversized, &store));
    let zero_extent = elemwise_fusion::tensor::Tensor {
        device: t.device,
        shape: vec![2usize, 0],
        strides: vec![3usize, 1],
        handle: t.handle,
        kind: t.kind,
    };
    assert!(!check_tensor(&zero_extent, &store));
}

#[test]
fn bool_values_flag_nonzero_lanes() {
    let lanes = vec![0u32, 1, 2, 0];
    assert_eq!(bool_values(&lanes), vec![false, true, true, false]);
}
