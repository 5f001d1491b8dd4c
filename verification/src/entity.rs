//! The world's entities: positions, player cells and food cells, with the
//! capability traits the spatial grid works over.

use vstd::prelude::*;
use vstd::bytes::{spec_u32_to_le_bytes, u32_to_le_bytes};
use crate::consts::{
    DEFAULT_FOOD_MASS, DEFAULT_MASS, GAME_HEIGHT, GAME_WIDTH, HUE_MAX, MASS_LIMIT, MERGE_TIME_MS,
    MOMENTUM_FLOOR, POS_MAX, SPLIT_MOMENTUM,
};
use crate::physics::{mass_to_radius, spec_mass_to_radius, RADIUS_MAX};

verus! {

/// A point of the world, in milli-units.
#[derive(Clone, Copy, Debug, PartialEq, Eq, Structural)]
pub struct Position {
    pub x: i64,
    pub y: i64,
}

pub open spec fn in_world(p: Position) -> bool {
    &&& 0 <= p.x <= POS_MAX
    &&& 0 <= p.y <= POS_MAX
}

/// Anything that sits at a point of the world.
pub trait PositionTrait: Sized {
    /// The entity's coordinates, at the specification level.
    spec fn sx(&self) -> int;

    spec fn sy(&self) -> int;

    fn position(&self) -> (p: Position)
        ensures
            p.x as int == self.sx(),
            p.y as int == self.sy(),
    ;
}

/// Anything with a fixed-size broadcast record.
pub trait ToBytes: Sized {
    /// The entity's encoded record, at the specification level.
    spec fn bytes_spec(&self) -> Seq<u8>;

    fn to_bytes(&self) -> (b: Vec<u8>)
        ensures
            b@ == self.bytes_spec(),
    ;
}

impl PositionTrait for Position {
    open spec fn sx(&self) -> int {
        self.x as int
    }

    open spec fn sy(&self) -> int {
        self.y as int
    }

    fn position(&self) -> (p: Position) {
        *self
    }
}

/// The hue byte of a broadcast record saturates at the byte range.
pub open spec fn hue_byte(h: u16) -> u8 {
    if h > 255 {
        255
    } else {
        h as u8
    }
}

/// One circular, mass-bearing cell of a player.
///
/// `radius` is always derived from `mass`; `update_mass` is the only mutator.
#[derive(Clone, Copy)]
pub struct PlayerCell {
    pub pos: Position,
    pub mass: u64,
    pub radius: u64,
    pub hue: u16,
    pub momentum: u64,
    /// Millisecond timestamp of the last split this cell took part in.
    pub last_split: Option<u64>,
}

impl PlayerCell {
    /// Well-formedness: the radius is exactly the derived one, the mass sits
    /// in the fixed-point range, and the cell is inside the world.
    pub open spec fn wf(&self) -> bool {
        &&& DEFAULT_MASS <= self.mass <= MASS_LIMIT
        &&& self.radius == spec_mass_to_radius(self.mass as nat)
        &&& in_world(self.pos)
        &&& MOMENTUM_FLOOR <= self.momentum <= SPLIT_MOMENTUM
        &&& self.hue <= HUE_MAX
    }

    pub fn new(pos: Position, hue: u16) -> (c: PlayerCell)
        requires
            in_world(pos),
            hue <= HUE_MAX,
        ensures
            c.wf(),
            c.pos == pos,
            c.mass == DEFAULT_MASS,
            c.hue == hue,
            c.momentum == MOMENTUM_FLOOR,
            c.last_split is None,
    {
        PlayerCell {
            pos,
            mass: DEFAULT_MASS,
            radius: mass_to_radius(DEFAULT_MASS),
            hue,
            momentum: MOMENTUM_FLOOR,
            last_split: None,
        }
    }

    /// The single mutator of `mass`: keeps `radius` derived from it.
    pub fn update_mass(&mut self, value: u64)
        requires
            DEFAULT_MASS <= value <= MASS_LIMIT,
        ensures
            *final(self) == (PlayerCell { mass: value, radius: final(self).radius, ..*old(self) }),
            final(self).radius == spec_mass_to_radius(value as nat),
    {
        self.mass = value;
        self.radius = mass_to_radius(value);
    }

    /// Splits the cell in two when it is heavy enough, conserving mass: the
    /// survivor keeps `mass - mass / 2`, the returned sibling gets `mass / 2`,
    /// both are stamped with the split time, and the sibling starts with the
    /// elevated split momentum.
    pub fn split(&mut self, now: u64) -> (r: Option<PlayerCell>)
        requires
            old(self).wf(),
        ensures
            old(self).mass < 2 * DEFAULT_MASS ==> r is None && *final(self) == *old(self),
            old(self).mass >= 2 * DEFAULT_MASS ==> {
                &&& r is Some
                &&& r->Some_0.mass + final(self).mass == old(self).mass
                &&& r->Some_0.mass == old(self).mass / 2
                &&& r->Some_0.pos == old(self).pos
                &&& r->Some_0.hue == old(self).hue
                &&& r->Some_0.momentum == SPLIT_MOMENTUM
                &&& r->Some_0.last_split == Some(now)
                &&& r->Some_0.wf()
                &&& final(self).last_split == Some(now)
                &&& final(self).pos == old(self).pos
                &&& final(self).hue == old(self).hue
                &&& final(self).momentum == old(self).momentum
                &&& final(self).wf()
            },
    {
        if self.mass < 2 * DEFAULT_MASS {
            return None;
        }
        let half: u64 = self.mass / 2;
        let keep: u64 = self.mass - half;
        self.update_mass(keep);
        self.last_split = Some(now);
        Some(PlayerCell {
            pos: self.pos,
            mass: half,
            radius: mass_to_radius(half),
            hue: self.hue,
            momentum: SPLIT_MOMENTUM,
            last_split: Some(now),
        })
    }

    /// A cell may merge once its split cooldown has elapsed (a clock that
    /// reads before the recorded split time counts as elapsed).
    pub open spec fn spec_can_merge(&self, now: u64) -> bool {
        match self.last_split {
            None => true,
            Some(t) => now < t || now - t > MERGE_TIME_MS,
        }
    }

    pub fn can_merge(&self, now: u64) -> (b: bool)
        ensures
            b == self.spec_can_merge(now),
    {
        match self.last_split {
            None => true,
            Some(t) => now < t || now - t > MERGE_TIME_MS,
        }
    }
}

impl PositionTrait for PlayerCell {
    open spec fn sx(&self) -> int {
        self.pos.x as int
    }

    open spec fn sy(&self) -> int {
        self.pos.y as int
    }

    fn position(&self) -> (p: Position) {
        self.pos
    }
}

impl ToBytes for PlayerCell {
    /// 13-byte record: x, y and radius in milli-units (32-bit little endian),
    /// then the hue byte.
    open spec fn bytes_spec(&self) -> Seq<u8> {
        spec_u32_to_le_bytes(self.pos.x as u32) + spec_u32_to_le_bytes(self.pos.y as u32)
            + spec_u32_to_le_bytes(self.radius as u32) + seq![hue_byte(self.hue)]
    }

    fn to_bytes(&self) -> (b: Vec<u8>) {
        let mut b = u32_to_le_bytes(#[verifier::truncate] (self.pos.x as u32));
        let mut ybytes = u32_to_le_bytes(#[verifier::truncate] (self.pos.y as u32));
        let mut rbytes = u32_to_le_bytes(#[verifier::truncate] (self.radius as u32));
        b.append(&mut ybytes);
        b.append(&mut rbytes);
        let hb: u8 = if self.hue > 255 {
            255
        } else {
            self.hue as u8
        };
        b.push(hb);
        proof {
            assert(b@ =~= self.bytes_spec());
        }
        b
    }
}

/// An unowned food cell; immutable once created.
#[derive(Clone, Copy)]
pub struct FoodCell {
    pub pos: Position,
    pub hue: u16,
    pub mass: u64,
    pub radius: u64,
}

impl FoodCell {
    pub open spec fn wf(&self) -> bool {
        &&& self.mass == DEFAULT_FOOD_MASS
        &&& self.radius == spec_mass_to_radius(self.mass as nat)
        &&& in_world(self.pos)
        &&& self.pos.x <= GAME_WIDTH && self.pos.y <= GAME_HEIGHT
        &&& self.hue <= HUE_MAX
    }

    pub fn new(pos: Position, hue: u16) -> (f: FoodCell)
        requires
            in_world(pos),
            pos.x <= GAME_WIDTH,
            pos.y <= GAME_HEIGHT,
            hue <= HUE_MAX,
        ensures
            f.wf(),
            f.pos == pos,
            f.hue == hue,
    {
        FoodCell {
            pos,
            hue,
            mass: DEFAULT_FOOD_MASS,
            radius: mass_to_radius(DEFAULT_FOOD_MASS),
        }
    }
}

impl PositionTrait for FoodCell {
    open spec fn sx(&self) -> int {
        self.pos.x as int
    }

    open spec fn sy(&self) -> int {
        self.pos.y as int
    }

    fn position(&self) -> (p: Position) {
        self.pos
    }
}

impl ToBytes for FoodCell {
    /// 9-byte record: x and y in milli-units (32-bit little endian), then the
    /// hue byte; the food radius is a world constant the receiver knows.
    open spec fn bytes_spec(&self) -> Seq<u8> {
        spec_u32_to_le_bytes(self.pos.x as u32) + spec_u32_to_le_bytes(self.pos.y as u32)
            + seq![hue_byte(self.hue)]
    }

    fn to_bytes(&self) -> (b: Vec<u8>) {
        let mut b = u32_to_le_bytes(#[verifier::truncate] (self.pos.x as u32));
        let mut ybytes = u32_to_le_bytes(#[verifier::truncate] (self.pos.y as u32));
        b.append(&mut ybytes);
        let hb: u8 = if self.hue > 255 {
            255
        } else {
            self.hue as u8
        };
        b.push(hb);
        proof {
            assert(b@ =~= self.bytes_spec());
        }
        b
    }
}

} // verus!
