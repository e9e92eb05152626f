//! KV cache compression to 3 or 4 bits per value: the values of a rotated vector
//! are near to normally distributed, so each is replaced by the nearest level of
//! a codebook made for that distribution. Experimental: a backend without these
//! types falls back to f16.
pub mod codebook;
pub mod config;
pub mod ggml_ids;
pub mod types;
