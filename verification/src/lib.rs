//! A two-dimensional spatial index: a region quadtree with point insertion,
//! deletion, exact search and circular range queries, together with a
//! reader/writer wrapper that serializes mutations and allows concurrent
//! reads of a shared tree.

pub mod circle;
pub mod config;
pub mod errors;
pub mod point;
pub mod quad;
pub mod rectangle;
pub mod shared;

pub use circle::Circle;
pub use config::Config;
pub use point::Point;
pub use quad::Quad;
pub use rectangle::Rectangle;
pub use shared::SharedQuad;
