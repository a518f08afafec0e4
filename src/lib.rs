//! Minimap rendering for tile-based terrain maps, and a perceptual
//! fingerprint of the rendered image for near-duplicate detection.
pub mod lst;
pub mod palette;
pub mod phash;
pub mod render;
pub mod style;
