pub mod cache;
pub mod decoding;
pub mod error;
pub mod generation;
pub mod helpers;
pub mod llama;
pub mod matcher;
pub mod pattern;
pub mod registry;
pub mod text;

pub use crate::decoding::{StopCondition, StopConditionFactory};
pub use crate::error::ServiceError;
pub use crate::generation::{Admission, LlamaGeneration, LlamaGenerationOptions, TextGenerationOptions};
pub use crate::llama::{LlamaService, StepOutput};
