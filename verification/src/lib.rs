//! A verified domino-shuffling engine for growing Aztec-diamond tilings.
//!
//! The engine keeps a diamond-shaped board of cells, a map from tile id to
//! tile, an id allocator with a free list, and a scan cursor; one `step`
//! eliminates colliding tiles, extends the diamond, slides every tile one
//! cell along its orientation, and fills the empty 2x2 blocks with fresh
//! domino pairs.

pub mod bias;
pub mod engine;
pub mod errors;
pub mod lattice;
pub mod par;
pub mod render;
pub mod rng;
pub mod snapshot;
pub mod tile;

pub use bias::Bias;
pub use errors::BiasError;
pub use errors::ConfigError;
pub use errors::LoadError;
pub use engine::Diamond;
pub use lattice::Lattice;
pub use render::Color;
pub use render::Colors;
pub use render::TileRect;
pub use rng::RandomSource;
pub use snapshot::Snapshot;
pub use tile::Direction;
pub use tile::Tile;
