//! Verified core of an SSD-resident retrieval index and a layer-streaming
//! language-model runtime.

pub mod agent;
pub mod chunk;
pub mod constraint;
pub mod cuda;
pub mod json;
pub mod loader;
pub mod model;
pub mod ollama;
pub mod paths;
pub mod prefetch;
pub mod prune;
pub mod records;
pub mod retrieve;
pub mod sampler;
pub mod sampling;
pub mod scan;
pub mod search;
pub mod selection;
pub mod single;
pub mod slots;
pub mod store;
pub mod streamer;
pub mod symbols;
pub mod text;
pub mod tools;
pub mod transformer;
pub mod walk;

