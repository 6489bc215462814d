//! Shared error type, dense vectors and matrices over exact integer scalars,
//! graph algorithms, and the text helpers used when rendering plots.

pub mod error;
pub mod text;
pub mod validate;
pub mod graph;
pub mod scalar;
pub mod vector;
pub mod matrix;
pub mod plot;
mod union_find;

pub use error::MathError;
pub use graph::{EdgeId, Graph, MinimumSpanningTree, NodeId, ShortestPaths};
pub use matrix::{LUDecomposition, Matrix, QRDecomposition};
pub use plot::{Color, PlotOutput};
pub use scalar::Scalar;
pub use vector::Vector;
