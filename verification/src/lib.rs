//! A kernel-fusion and strided-view engine for device tensors: stride
//! algebra for zero-copy view transforms (swap, permute, broadcast-expand,
//! reshape), an aliasing-safety check deciding when a fused kernel may
//! overwrite one of its input buffers, and a priority ranker selecting the
//! best precompiled kernel variant for a concrete call.
pub mod layout;
pub mod store;
pub mod tensor;
pub mod fusion;
