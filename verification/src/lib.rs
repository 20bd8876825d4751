//! Algebraic topology for virtual spaces: rooms are 0-cells, doors and warps
//! are 1-cells, and the library computes connectivity, homology, the
//! fundamental group and a finite unfolding of the universal cover.
use vstd::prelude::*;

pub mod continuity;
pub mod complex;
pub mod counting;
pub mod cover;
mod cells;
pub mod fundamental;
mod graph;
pub mod homology;
pub mod room;
mod unfold;
mod text;
pub mod warp;

pub use continuity::ContinuityClass;
pub use complex::RoomComplex;
pub use cover::Cover;
pub use fundamental::FundamentalGroup;
pub use homology::Homology;
pub use room::{Door, Room};
pub use warp::Warp;

verus! {

} // verus!
