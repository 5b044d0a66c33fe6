//! Desk-slot geometry of the Office view: eight desks in a 4x2 grid and a
//! door tile where characters walk in.

use vstd::prelude::*;
use std::collections::HashMap;

verus! {

/// Logical room width, in pixels.
pub const ROOM_W: i32 = 240;
/// Logical room height, in pixels.
pub const ROOM_H: i32 = 160;
/// Tile size, in pixels.
pub const TILE: i32 = 16;
/// Horizontal position of the door tile.
pub const DOOR_X: i32 = 12;
/// Vertical position of the door tile.
pub const DOOR_Y: i32 = 26;

/// Direction a seated character faces.
#[derive(Debug, Clone, Copy, PartialEq, Eq, Structural)]
pub enum Facing {
    Left,
    Right,
}

/// One desk: where the character stands, and which way it faces.
#[derive(Debug, Clone, Copy, PartialEq, Eq, Structural)]
pub struct Desk {
    pub x: i32,
    pub y: i32,
    pub facing: Facing,
}

/// Desk `i` of the grid: column `i / 2`, top row for even `i`, bottom row
/// for odd `i`; columns 50 px apart from x = 30, rows at y = 60 and y = 120.
pub open spec fn desk_at(i: int) -> Desk {
    Desk {
        x: (30 + (i / 2) * 50) as i32,
        y: if i % 2 == 0 { 60 } else { 120 },
        facing: Facing::Right,
    }
}

/// The eight desks, in slot order.
pub fn desk_grid() -> (r: [Desk; 8])
    ensures
        forall|i: int| 0 <= i < 8 ==> #[trigger] r@[i] == desk_at(i),
{
    let mut desks = [Desk { x: 0, y: 0, facing: Facing::Right };8];
    let mut col: usize = 0;
    while col < 4
        invariant
            col <= 4,
            forall|i: int| 0 <= i < 2 * col ==> #[trigger] desks@[i] == desk_at(i),
        decreases 4 - col,
    {
        let x: i32 = 30 + (col as i32) * 50;
        desks[col * 2] = Desk { x, y: 60, facing: Facing::Right };
        desks[col * 2 + 1] = Desk { x, y: 120, facing: Facing::Right };
        col += 1;
    }
    desks
}

/// The desk indices held in `taken`. Calls `HashMap::values`.
#[verifier::external_body]
fn taken_desks(taken: &HashMap<String, usize>) -> (r: Vec<usize>)
    ensures
        forall|d: usize| r@.contains(d) <==> taken@.values().contains(d),
{
    taken.values().copied().collect()
}

/// First-fit desk choice: the smallest of the eight slots not held in
/// `taken`, or `None` when all eight are held.
pub fn assign_desk(taken: &HashMap<String, usize>, _session_id: &str) -> (r: Option<usize>)
    ensures
        r matches Some(i) ==> i < 8 && !taken@.values().contains(i)
            && forall|j: usize| j < i ==> taken@.values().contains(j),
        r is None ==> forall|j: usize| j < 8 ==> taken@.values().contains(j),
{
    let used = taken_desks(taken);
    let mut i: usize = 0;
    while i < 8
        invariant
            i <= 8,
            forall|j: usize| j < i ==> used@.contains(j),
            forall|d: usize| used@.contains(d) <==> taken@.values().contains(d),
        decreases 8 - i,
    {
        let mut k: usize = 0;
        let mut found = false;
        while k < used.len()
            invariant
                k <= used.len(),
                i < 8,
                forall|j: usize| j < i ==> used@.contains(j),
                forall|d: usize| used@.contains(d) <==> taken@.values().contains(d),
                found <==> exists|m: int| 0 <= m < k && used@[m] == i,
            decreases used.len() - k,
        {
            if used[k] == i {
                found = true;
            }
            k += 1;
        }
        if !found {
            assert(!used@.contains(i));
            assert(!taken@.values().contains(i));
            assert forall|j: usize| j < i implies taken@.values().contains(j) by {
                assert(used@.contains(j));
            }
            return Some(i);
        }
        i += 1;
    }
    assert forall|j: usize| j < 8 implies taken@.values().contains(j) by {
        assert(used@.contains(j));
    }
    None
}

/// Offset of a sub-agent's spot from its parent's desk: one tile beside the
/// desk plus 14 px per earlier sibling, to the right, or to the left when
/// the parent sits in the rightmost column.
pub fn child_offset_from_parent(parent_desk_idx: usize, child_index_in_parent: usize) -> (r: (
    i32,
    i32,
))
    requires
        16 + 14 * child_index_in_parent <= i32::MAX,
    ensures
        r.1 == 0,
        parent_desk_idx / 2 >= 3 ==> r.0 == -(16 + 14 * child_index_in_parent),
        parent_desk_idx / 2 < 3 ==> r.0 == 16 + 14 * child_index_in_parent,
{
    let c: i32 = child_index_in_parent as i32;
    assert(c == child_index_in_parent);
    let dx: i32 = 16 + c * 14;
    let row_col = parent_desk_idx / 2;
    if row_col >= 3 {
        (-dx, 0)
    } else {
        (dx, 0)
    }
}

} // verus!
