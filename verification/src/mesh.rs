//! Which corners make up the triangles and outlines that the scene draws.
//!
//! A hexagon is drawn as a fan around its centre: one triangle per side,
//! between the centre and the side's two corners. A polygon given by its
//! corners alone, such as the rectangle of a road segment, is drawn as a fan
//! around its first corner, or as a closed line through all its corners.

use crate::grid::SIDES;
use vstd::arithmetic::div_mod::lemma_fundamental_div_mod_converse;
use vstd::prelude::*;

verus! {

/// The corner that follows corner `corner` around a hexagon.
pub open spec fn corner_after(corner: int) -> int {
    (corner + 1) % 6
}

/// The two corners of side `side` of a hexagon, in drawing order: the side
/// runs from the corner with its own number to the corner after it.
pub fn side_corners(side: usize) -> (ends: (usize, usize))
    requires
        side < SIDES,
    ensures
        ends.0 == side,
        ends.1 == corner_after(side as int),
        ends.1 < SIDES,
{
    (side, (side + 1) % SIDES)
}

/// The number of triangles in the fan of a polygon with `corners` corners.
pub open spec fn fan_triangles(corners: int) -> int {
    if corners < 3 {
        0
    } else {
        corners - 2
    }
}

/// The corner indices of the fan of a polygon around its corner 0, three for
/// each triangle: triangle `t` joins the corners `0`, `t + 1` and `t + 2`.
pub open spec fn fan_indices_spec(corners: int) -> Seq<u32> {
    Seq::new(
        (3 * fan_triangles(corners)) as nat,
        |i: int|
            if i % 3 == 0 {
                0u32
            } else {
                (i / 3 + i % 3) as u32
            },
    )
}

/// The corner indices of a closed line through all corners of a polygon: each
/// corner in turn, and the first once more at the end.
pub open spec fn outline_indices_spec(corners: int) -> Seq<u32> {
    if corners <= 0 {
        Seq::empty()
    } else {
        Seq::new(
            (corners + 1) as nat,
            |i: int|
                if i == corners {
                    0u32
                } else {
                    i as u32
                },
        )
    }
}

/// The index list that draws a polygon with `corners` corners as triangles: a
/// fan around corner 0. A polygon needs three corners to have any triangle.
pub fn fan_indices(corners: u32) -> (indices: Vec<u32>)
    ensures
        indices@ == fan_indices_spec(corners as int),
{
    let mut indices: Vec<u32> = Vec::new();
    if corners < 3 {
        return indices;
    }
    let mut t: u32 = 0;
    while t < corners - 2
        invariant
            3 <= corners,
            t <= corners - 2,
            indices@.len() == 3 * t,
            forall|i: int|
                0 <= i < indices@.len() ==> indices@[i] == (if i % 3 == 0 {
                    0u32
                } else {
                    (i / 3 + i % 3) as u32
                }),
        decreases corners - 2 - t,
    {
        proof {
            lemma_fundamental_div_mod_converse(3 * t, 3, t as int, 0);
            lemma_fundamental_div_mod_converse(3 * t + 1, 3, t as int, 1);
            lemma_fundamental_div_mod_converse(3 * t + 2, 3, t as int, 2);
        }
        indices.push(0);
        indices.push(t + 1);
        indices.push(t + 2);
        t = t + 1;
    }
    indices
}

/// The index list that draws the outline of a polygon with `corners` corners
/// as one closed line.
pub fn outline_indices(corners: u32) -> (indices: Vec<u32>)
    ensures
        indices@ == outline_indices_spec(corners as int),
{
    let mut indices: Vec<u32> = Vec::new();
    if corners == 0 {
        return indices;
    }
    let mut i: u32 = 0;
    while i < corners
        invariant
            i <= corners,
            indices@.len() == i,
            forall|k: int| 0 <= k < i ==> indices@[k] == k as u32,
        decreases corners - i,
    {
        indices.push(i);
        i = i + 1;
    }
    indices.push(0);
    indices
}

/// What the fan holds: triangle `t` joins the corners `0`, `t + 1` and
/// `t + 2`, so every index names a corner of the polygon, neighbouring
/// triangles share an edge, and the last triangle ends at the last corner.
pub proof fn lemma_fan_triangles(corners: int, t: int)
    requires
        0 <= t < fan_triangles(corners),
        corners <= u32::MAX,
    ensures
        fan_indices_spec(corners).len() == 3 * fan_triangles(corners),
        fan_indices_spec(corners)[3 * t] == 0,
        fan_indices_spec(corners)[3 * t + 1] == t + 1,
        fan_indices_spec(corners)[3 * t + 2] == t + 2,
        t + 2 < corners,
        t + 1 < fan_triangles(corners) ==> fan_indices_spec(corners)[3 * (t + 1) + 1]
            == fan_indices_spec(corners)[3 * t + 2],
        t + 1 == fan_triangles(corners) ==> t + 2 == corners - 1,
{
    lemma_fundamental_div_mod_converse(3 * t, 3, t, 0);
    lemma_fundamental_div_mod_converse(3 * t + 1, 3, t, 1);
    lemma_fundamental_div_mod_converse(3 * t + 2, 3, t, 2);
    if t + 1 < fan_triangles(corners) {
        lemma_fundamental_div_mod_converse(3 * (t + 1) + 1, 3, t + 1, 1);
    }
}

/// The sides of a hexagon go once around it: each side starts at the corner
/// where the side before it ended, and the last side ends where the first
/// began.
pub proof fn lemma_sides_go_around(side: int)
    requires
        0 <= side < 6,
    ensures
        0 <= corner_after(side) < 6,
        side < 5 ==> corner_after(side) == side + 1,
        side == 5 ==> corner_after(side) == 0,
{
}

} // verus!
