//! Verified media-editing domain: timing arithmetic, artifact and filter
//! graphs, output policies, container rules and the small text validators the
//! HTTP layer relies on.

pub mod arithmetic;
pub mod text;
pub mod fingerprint;
pub mod keyed;
pub mod json;
pub mod order;
pub mod artifact_graph;
pub mod filter_graph;
pub mod keyframes;
pub mod edit;
pub mod composition;
pub mod spatial;
pub mod overlay;
pub mod color_grade;
pub mod audio_mix;
pub mod output;
pub mod audio_output;
pub mod audio_pipeline;
pub mod still_container;
pub mod media_probe;
pub mod media_contract;
pub mod media_pipeline;
pub mod color_pipeline;
pub mod project_collaboration;
pub mod project_replica;
pub mod project_version;
pub mod timeline;
pub mod handlers;
