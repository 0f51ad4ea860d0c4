pub mod k_mix;
pub mod merge;
pub mod mix;
pub mod padded_shuffle;
pub mod product;
pub mod randomized;
pub mod range_proof;
pub mod scalar_shuffle;
pub mod split;
pub mod two_shuffle;
pub mod value_shuffle;
