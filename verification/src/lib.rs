//! Extraction of Material 3 colour declarations from generated theme source,
//! and their rendering as Compose colour schemes.

pub mod extract;
pub mod extractor;
pub mod optimize;
pub mod render;
pub mod text;

pub use crate::extract::{Boundary, ExtractError};
pub use crate::extractor::Material3BuilderExtractor;
pub use crate::optimize::OptimzeResult;
