//! Mixed-precision weight formats: choosing one per layer, and loading what was chosen.
//!
//! An allocator gives every linear layer a format under a target for the average bits per
//! parameter ([`assignment`]), either greedily by sensitivity ([`greedy`]) or by the knapsack
//! problem ([`knapsack`]). Layers that are served fused then share one format ([`promote`]). On
//! the loading side, module paths are mapped to stored variants ([`compressed_tensors`]), MXFP8
//! weights are expanded to BF16 ([`mxfp8`]), and attention weights are loaded variant by variant
//! ([`attention`]).

pub mod assignment;
pub mod attention;
pub mod bpp;
pub mod compressed_tensors;
pub mod disjoint;
pub mod format;
pub mod greedy;
pub mod knapsack;
pub mod mxfp8;
pub mod names;
pub mod promote;
pub mod ranking;
pub mod sensitivity;
pub mod text;
