//! Game-state analysis engine: colour and image analysis, match-3 and grid
//! planning, and interpretation of process memory.

use vstd::prelude::*;

pub mod board;
pub mod color;
pub mod combat;
pub mod detect;
pub mod exact;
pub mod frontier;
pub mod grid;
pub mod ieee;
pub mod image;
pub mod memory;
pub mod parallel;
pub mod path;
pub mod reader;
pub mod region;
pub mod scan;
pub mod text;
pub mod unity;

pub use board::{EliminateEngine, EliminateMove};
pub use color::{Hsv, Rgb};
pub use combat::{CombatAction, CombatDecision, CombatEngine};
pub use detect::{ImageEngine, PixelTest};
pub use grid::{Cell, GridPos};
pub use ieee::{F32Bits, F64Bits};
pub use image::{DetectedElement, ElementType, ImageData, Rect};
pub use memory::{MemoryEngine, MemoryRegion};
pub use path::{PathResult, PathfindingEngine};
pub use region::{find_regions, Region, ShapeRule, Window};
pub use scan::PatternMatch;
pub use unity::{GameData, GameDataStructures, GameSignature, GameValue};

verus! {

/// Library version.
pub const VERSION: &'static str = "1.0.0";

} // verus!
