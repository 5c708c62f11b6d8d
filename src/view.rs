//! The client's table geometry: fixed-point positions, drop targets and the
//! local view of each card.
//!
//! Coordinates are integers, `UNITS_PER_WORLD` steps to one world unit. The
//! table is the `x`/`z` plane; `y` is height above it.

use vstd::prelude::*;

use crate::card::CardState;

verus! {

/// Fixed-point steps in one world unit.
pub const UNITS_PER_WORLD: i64 = 100_000;

/// Bound on the coordinates of anchors and of the pointer.
pub const COORD_LIMIT: i64 = 1_099_511_627_776;

/// Bound on the coordinates of a card's position.
pub const POSITION_LIMIT: i64 = 4_398_046_511_104;

/// Bound on a half extent.
pub const EXTENT_LIMIT: i64 = 1_048_576;

/// A card's half width and half depth when it is made: 0.15625 by 0.25.
pub const CARD_HALF_WIDTH: i64 = 15_625;

pub const CARD_HALF_DEPTH: i64 = 25_000;

/// Zoom factor of a card at rest and of the focused card.
pub const REST_SCALE: u32 = 1;

pub const FOCUS_SCALE: u32 = 3;

/// Drop target ids of the two players' zones.
pub const MY_HAND: usize = 0;

pub const MY_DECK: usize = 1;

pub const MY_TRASH: usize = 2;

pub const OTHER_HAND: usize = 3;

pub const OTHER_DECK: usize = 4;

pub const OTHER_TRASH: usize = 5;

/// A point in table space.
#[derive(Clone, Copy, Debug, PartialEq, Eq, Structural)]
pub struct Point {
    pub x: i64,
    pub y: i64,
    pub z: i64,
}

/// Half extents on the table: `x` along the x axis, `y` along the z axis.
#[derive(Clone, Copy, Debug, PartialEq, Eq, Structural)]
pub struct Extent {
    pub x: i64,
    pub y: i64,
}

pub open spec fn point_in(p: Point, limit: int) -> bool {
    -limit <= p.x <= limit && -limit <= p.y <= limit && -limit <= p.z <= limit
}

pub open spec fn extent_ok(e: Extent) -> bool {
    0 <= e.x <= EXTENT_LIMIT && 0 <= e.y <= EXTENT_LIMIT
}

/// How the cards attached to a zone are placed.
#[derive(Clone, Copy, Debug, PartialEq, Eq, Structural)]
pub enum TargetType {
    Event,
    BoardV,
    BoardH,
    Trash,
    Hand,
    Stack,
}

/// A zone on the table that cards can be dropped on.
#[derive(Clone, Copy, Debug, PartialEq, Eq, Structural)]
pub struct DropTarget {
    pub id: usize,
    pub anchor: Point,
    pub size: Extent,
    pub target_type: TargetType,
    pub can_drop: bool,
}

impl DropTarget {
    pub open spec fn in_range(&self) -> bool {
        point_in(self.anchor, COORD_LIMIT as int) && extent_ok(self.size)
    }
}

/// The zones of the table: the opponent's hand and deck across the table,
/// the local deck and hand near the player. Only the local hand takes drops.
pub open spec fn table_layout() -> Seq<DropTarget> {
    seq![
        DropTarget {
            id: OTHER_HAND,
            anchor: Point { x: 0, y: 0, z: -150_000i64 },
            size: Extent { x: 1_000_000, y: 50_000 },
            target_type: TargetType::Hand,
            can_drop: false,
        },
        DropTarget {
            id: MY_DECK,
            anchor: Point { x: -200_000i64, y: 0, z: 150_000 },
            size: Extent { x: 100_000, y: 100_000 },
            target_type: TargetType::Stack,
            can_drop: false,
        },
        DropTarget {
            id: OTHER_DECK,
            anchor: Point { x: 200_000, y: 0, z: -150_000i64 },
            size: Extent { x: 100_000, y: 100_000 },
            target_type: TargetType::Stack,
            can_drop: false,
        },
        DropTarget {
            id: MY_HAND,
            anchor: Point { x: 0, y: 0, z: 150_000 },
            size: Extent { x: 1_000_000, y: 50_000 },
            target_type: TargetType::Hand,
            can_drop: true,
        },
    ]
}

/// The drop targets of the table, in registration order.
pub fn table_targets() -> (r: Vec<DropTarget>)
    ensures
        r@ == table_layout(),
        forall|i: int| 0 <= i < r@.len() ==> (#[trigger] r@[i]).in_range(),
{
    let mut r: Vec<DropTarget> = Vec::new();
    r.push(DropTarget {
        id: OTHER_HAND,
        anchor: Point { x: 0, y: 0, z: -150_000 },
        size: Extent { x: 1_000_000, y: 50_000 },
        target_type: TargetType::Hand,
        can_drop: false,
    });
    r.push(DropTarget {
        id: MY_DECK,
        anchor: Point { x: -200_000, y: 0, z: 150_000 },
        size: Extent { x: 100_000, y: 100_000 },
        target_type: TargetType::Stack,
        can_drop: false,
    });
    r.push(DropTarget {
        id: OTHER_DECK,
        anchor: Point { x: 200_000, y: 0, z: -150_000 },
        size: Extent { x: 100_000, y: 100_000 },
        target_type: TargetType::Stack,
        can_drop: false,
    });
    r.push(DropTarget {
        id: MY_HAND,
        anchor: Point { x: 0, y: 0, z: 150_000 },
        size: Extent { x: 1_000_000, y: 50_000 },
        target_type: TargetType::Hand,
        can_drop: true,
    });
    assert(r@ =~= table_layout());
    r
}

/// The client's view of one instance.
#[derive(Debug)]
pub struct CardView {
    pub card_state: CardState,
    pub position: Point,
    pub size: Extent,
    pub zoom_in: u32,
    pub is_grabbed: bool,
    pub attached_to_target: Option<usize>,
}

/// Whether `p` lies on the card at `pos` of half extents `size` (closed on
/// the low edges, open on the high ones).
pub open spec fn covers(pos: Point, size: Extent, p: Point) -> bool {
    &&& pos.x - size.x <= p.x < pos.x + size.x
    &&& pos.z - size.y <= p.z < pos.z + size.y
}

/// Whether the card rectangle at `pos`, `size` and the target rectangle at
/// `anchor`, `area` overlap, edges included.
pub open spec fn overlaps(pos: Point, size: Extent, anchor: Point, area: Extent) -> bool {
    &&& pos.x - size.x <= anchor.x + area.x
    &&& pos.x + size.x >= anchor.x - area.x
    &&& pos.z - size.y <= anchor.z + area.y
    &&& pos.z + size.y >= anchor.z - area.y
}

impl CardView {
    pub open spec fn in_range(&self) -> bool {
        point_in(self.position, POSITION_LIMIT as int) && extent_ok(self.size)
    }

    /// A field-for-field copy.
    pub fn duplicate(&self) -> (r: CardView)
        ensures
            r == *self,
    {
        CardView {
            card_state: self.card_state.duplicate(),
            position: self.position,
            size: self.size,
            zoom_in: self.zoom_in,
            is_grabbed: self.is_grabbed,
            attached_to_target: self.attached_to_target,
        }
    }

    pub fn zoom_in(&mut self, scale: u32)
        ensures
            *final(self) == (CardView { zoom_in: scale, ..*old(self) }),
    {
        self.zoom_in = scale;
    }

    /// A card at the origin, of the standard size, at rest and unattached.
    pub fn new(card_state: CardState) -> (r: CardView)
        ensures
            r.card_state == card_state,
            r.position == (Point { x: 0, y: 0, z: 0 }),
            r.size == (Extent { x: CARD_HALF_WIDTH, y: CARD_HALF_DEPTH }),
            r.zoom_in == REST_SCALE,
            !r.is_grabbed,
            r.attached_to_target is None,
            r.in_range(),
    {
        CardView {
            card_state,
            position: Point { x: 0, y: 0, z: 0 },
            size: Extent { x: CARD_HALF_WIDTH, y: CARD_HALF_DEPTH },
            zoom_in: REST_SCALE,
            is_grabbed: false,
            attached_to_target: None,
        }
    }

    /// Whether `point` lies on the card.
    pub fn intersects(&self, point: Point) -> (r: bool)
        ensures
            r == covers(self.position, self.size, point),
    {
        let px = self.position.x as i128;
        let pz = self.position.z as i128;
        let sx = self.size.x as i128;
        let sz = self.size.y as i128;
        let x = point.x as i128;
        let z = point.z as i128;
        x >= px - sx && x < px + sx && z < pz + sz && z >= pz - sz
    }

    /// Whether the card's rectangle overlaps the target's.
    pub fn intersects_area(&self, target: &DropTarget) -> (r: bool)
        ensures
            r == overlaps(self.position, self.size, target.anchor, target.size),
    {
        let px = self.position.x as i128;
        let pz = self.position.z as i128;
        let sx = self.size.x as i128;
        let sz = self.size.y as i128;
        let ax = target.anchor.x as i128;
        let az = target.anchor.z as i128;
        let tx = target.size.x as i128;
        let tz = target.size.y as i128;
        px - sx <= ax + tx && px + sx >= ax - tx && pz - sz <= az + tz && pz + sz >= az - tz
    }
}

} // verus!
