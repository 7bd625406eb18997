//! The names that a caller of the comparisons needs.

pub use crate::images::{GrayImage, RgbImage, RgbaImage};
pub use crate::similarity::{Similarity, SimilarityImage, SimilarityPlane};
pub use crate::{Algorithm, CompareError};
