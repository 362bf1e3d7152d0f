//! A verified model of the liquid-sorting tube puzzle: tubes hold four
//! ordered layers of colored liquid, a pour moves the top same-colored
//! block from one tube onto a compatible one, and a breadth-first search
//! finds a sequence of pours that leaves every tube monochrome or empty.
pub mod color;
pub mod finite;
pub mod scan;
pub mod search;
pub mod state;
pub mod transfer;
pub mod tube;

pub use color::LiquidColor;
pub use color::ColorModel;
pub use search::TransferAction;
pub use search::TubeStateNode;
pub use search::neighbors;
pub use search::solve_bfs;
pub use state::TubeArray;
pub use state::TubeState;
pub use transfer::TubeTransferResult;
pub use transfer::transfer;
pub use tube::Tube;
