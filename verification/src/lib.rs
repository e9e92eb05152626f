//! The decision-making core of a local inference engine: request admission,
//! model loading, prompt building, streaming output and GGUF inspection.
pub mod api;
pub mod audit;
pub mod banner;
pub mod chat_template;
pub mod fit;
pub mod gguf;
pub mod gguf_patch;
pub mod inference;
pub mod json;
pub mod lineedit;
pub mod text;
