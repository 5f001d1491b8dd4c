//! World constants. All distances, masses, radii and speeds are fixed-point
//! integers in milli-units (1000 = one world unit).

use vstd::prelude::*;

verus! {

/// Starting mass of a fresh player cell (10 world units).
pub const DEFAULT_MASS: u64 = 10_000;

/// Mass of every food cell (1 world unit).
pub const DEFAULT_FOOD_MASS: u64 = 1_000;

/// Base speed constant (5 world units per tick).
pub const INIT_CELL_SPEED: u64 = 5_000;

/// World side lengths (5000 world units).
pub const GAME_WIDTH: u64 = 5_000_000;
pub const GAME_HEIGHT: u64 = 5_000_000;

/// Food cells owed to the world when a player enters.
pub const NEW_PLAYER_FOOD: i64 = 10_000;

/// Food cells the replenishment phase tries to add per call.
pub const FOOD_LOOP_AMOUNT: i64 = 10_000;

/// Merge cooldown after a split, in milliseconds.
pub const MERGE_TIME_MS: u64 = 5_000;

/// Hard cap on the number of cells one player may hold.
pub const MAX_SPLIT_NUM: usize = 16;

/// Momentum granted to the new cell of a split (speed boost, 25 units).
pub const SPLIT_MOMENTUM: u64 = 25_000;

/// Momentum decays toward this floor (1 unit).
pub const MOMENTUM_FLOOR: u64 = 1_000;

/// Momentum decay step per movement tick (0.7 units).
pub const MOMENTUM_DECAY: u64 = 700;

/// Smallest visibility window of a player (550 units).
pub const MINIMUM_VISIBLE_RANGE: u64 = 550_000;

/// A player whose total mass exceeds this wins (100 units).
pub const WIN_THRESHOLD_MASS: u64 = 100_000;

/// Static server configuration echoed to clients.
pub const MAX_PLAYERS: i32 = 100;
pub const ENTRY_FEE: i32 = 100;

/// Upper bound of the fixed-point mass range; additions saturate here.
pub const MASS_LIMIT: u64 = 1_000_000_000_000;

/// Total mass of one player is bounded by a full hand of capped cells.
pub const PLAYER_MASS_LIMIT: u64 = 16_000_000_000_000;

/// Coordinates stay within this bound (border clamping keeps them there).
pub const POS_MAX: i64 = 300_000_000;

/// Hues are sampled from 0..=HUE_MAX (degrees on the color wheel).
pub const HUE_MAX: u64 = 359;

/// Ceiling on the food budget counter.
pub const FOOD_STACK_MAX: i64 = 1_000_000_000_000_000;

/// Bucket side used by the collision grids (500 world units).
pub const COLLISION_GRID_CELL: u64 = 500_000;

/// Bucket side used by the broadcast grids (250 world units).
pub const BROADCAST_GRID_CELL: u64 = 250_000;

} // verus!
