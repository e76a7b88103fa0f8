//! The classifier model: configuration, weights and their file format.

pub mod argmax;
pub mod centrality;
pub mod confusion;
pub mod file_layout;
pub mod forward_shape;
pub mod fusion;
pub mod inference;
pub mod layers;
pub mod pointnet;
pub mod softmax;
pub mod weights;
