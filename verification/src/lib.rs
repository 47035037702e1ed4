pub mod text;
pub mod version;
pub mod order;
pub mod data_ref;
pub mod ranges;
pub mod overlay;
pub mod clut;
pub mod chunk;
pub mod names;
pub mod clut_build;
pub mod overrides;
pub mod chain;
pub mod bytes;
pub mod fields;
pub mod lut;
pub mod codec;
pub mod download;
pub mod index;
pub mod clut_file;
pub mod file_data;
pub mod diff;
pub mod coverage;
pub mod liveness;
pub mod poll;
pub mod clut_index;
pub mod clut_lazy;
pub mod clut_rewrite;
pub mod zipatch;
pub mod plan;
pub mod discover;
pub mod ref_groups;
pub mod rewrite_laws;
pub mod lazy_laws;
pub mod batching;
