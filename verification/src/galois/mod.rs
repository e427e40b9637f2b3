//! The field GF(2^16) with the polynomial 0x1100B, and sums over slices of its elements.

pub mod arm;
pub mod bulk;
pub mod element;
pub mod field;
pub mod ops;
pub mod order;
pub mod region;
pub mod scalar;
pub mod simd;
pub mod streaming;
pub mod sums;

pub use element::{gf_div, gf_mul, gf_pow, init_tables, GfTables};
pub use ops::{
    bytes_to_u16_simd, bytes_to_u16_simd_with_zero_flag, finish_shuffle2x,
    get_selected_simd_strategy, gf_mul_slice, gf_muladd, gf_muladd_column,
    gf_muladd_column_shuffle2x, gf_muladd_multi, gf_muladd_shuffle2x, list_simd_strategies,
    prepare_shuffle2x, supports_shuffle2x, u16_to_bytes_simd,
};
pub use region::{
    gf_muladd_block_regions, gf_muladd_block_regions_shuffle2x, gf_muladd_column_region,
    gf_muladd_region, gf_muladd_region_shuffle2x, region_size_bytes,
};
