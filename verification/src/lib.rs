pub mod distance;
pub mod graph;
pub mod history;
pub mod source;

pub use distance::DIST_SCALE;
