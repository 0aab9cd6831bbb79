//! Which sides of which cells may carry a road.
//!
//! Two cells that are neighbours inside the grid share one edge, and that edge
//! is seen twice when every side of every cell is looked at: once from each
//! end. The edge gets one key, the same from both ends, and only the first
//! side that shows a key becomes a road candidate. The host samples its noise
//! field once per candidate and reports which of them passed; the roads are
//! the candidates that did.

use crate::grid::{
    grid_neighbor, in_grid, neighbor_of, opposite_side, side_offset, Cell, SIDES,
};
use std::collections::HashSet;
use vstd::prelude::*;

verus! {

/// A side of a cell across which a road may be laid.
#[derive(Clone, Copy, Debug, PartialEq, Eq, Structural)]
pub struct RoadCandidate {
    /// The cell from which the edge was first seen. The noise field is
    /// sampled at this cell's grid coordinates.
    pub cell: Cell,
    /// The side of `cell` that the edge lies on: the road segment runs from
    /// corner `side` to the corner after it.
    pub side: usize,
    /// The cell on the other side of the edge.
    pub neighbor: Cell,
}

/// The key of the edge between `(q, r)` and `(q2, r2)`: the two cells, the
/// one that comes first in walking order in front. Cells are compared by
/// column, and within a column by row.
pub open spec fn road_key_spec(q: int, r: int, q2: int, r2: int) -> (int, int, int, int) {
    if q < q2 || (q == q2 && r <= r2) {
        (q, r, q2, r2)
    } else {
        (q2, r2, q, r)
    }
}

/// Side `side` of cell `(q, r)` is a side of a cell of the grid and has a
/// cell of the grid behind it.
pub open spec fn leads_into_grid(width: int, height: int, q: int, r: int, side: int) -> bool {
    &&& 0 <= side < 6
    &&& in_grid(width, height, q, r)
    &&& in_grid(width, height, neighbor_of(q, r, side).0, neighbor_of(q, r, side).1)
}

/// The key of the edge on side `side` of cell `(q, r)`.
pub open spec fn side_key(q: int, r: int, side: int) -> (int, int, int, int) {
    road_key_spec(q, r, neighbor_of(q, r, side).0, neighbor_of(q, r, side).1)
}

/// Side `side` of `(q, r)` is a road candidate: it leads to a cell of the
/// grid, and `(q, r)` is the end of the edge that its key names first.
pub open spec fn is_candidate(width: int, height: int, q: int, r: int, side: int) -> bool {
    &&& leads_into_grid(width, height, q, r, side)
    &&& side_key(q, r, side) == (q, r, neighbor_of(q, r, side).0, neighbor_of(q, r, side).1)
}

/// The candidate that stands for side `side` of cell `(q, r)`.
pub open spec fn candidate(q: int, r: int, side: int) -> RoadCandidate {
    RoadCandidate {
        cell: Cell { q: q as i32, r: r as i32 },
        side: side as usize,
        neighbor: Cell {
            q: neighbor_of(q, r, side).0 as i32,
            r: neighbor_of(q, r, side).1 as i32,
        },
    }
}

/// The candidates among the sides `0 .. side` of cell `(q, r)`, by side.
pub open spec fn sides_before(width: int, height: int, q: int, r: int, side: int) -> Seq<
    RoadCandidate,
>
    decreases side,
{
    if side <= 0 {
        Seq::empty()
    } else if is_candidate(width, height, q, r, side - 1) {
        sides_before(width, height, q, r, side - 1).push(candidate(q, r, side - 1))
    } else {
        sides_before(width, height, q, r, side - 1)
    }
}

/// The candidates of the cells `(q, 0) .. (q, r)` of column `q`, cell by cell.
pub open spec fn rows_before(width: int, height: int, q: int, r: int) -> Seq<RoadCandidate>
    decreases r,
{
    if r <= 0 {
        Seq::empty()
    } else {
        rows_before(width, height, q, r - 1) + sides_before(width, height, q, r - 1, 6)
    }
}

/// The candidates of the columns `0 .. q`, column by column.
pub open spec fn columns_before(width: int, height: int, q: int) -> Seq<RoadCandidate>
    decreases q,
{
    if q <= 0 {
        Seq::empty()
    } else {
        columns_before(width, height, q - 1) + rows_before(width, height, q - 1, height)
    }
}

/// The road candidates of a grid, in walking order: column by column, row by
/// row, side by side.
pub open spec fn road_candidates_spec(width: int, height: int) -> Seq<RoadCandidate> {
    columns_before(width, height, width)
}

/// Where a candidate stands in the walk: its cell's column and row, and its
/// side.
pub open spec fn position(c: RoadCandidate) -> (int, int, int) {
    (c.cell.q as int, c.cell.r as int, c.side as int)
}

/// The key of the edge that a candidate lies on.
pub open spec fn candidate_key(c: RoadCandidate) -> (int, int, int, int) {
    road_key_spec(c.cell.q as int, c.cell.r as int, c.neighbor.q as int, c.neighbor.r as int)
}

/// Side `a` of a cell comes before side `b` of a cell in walking order. Each
/// is given as column, row and side.
pub open spec fn walked_before(a: (int, int, int), b: (int, int, int)) -> bool {
    a.0 < b.0 || (a.0 == b.0 && (a.1 < b.1 || (a.1 == b.1 && a.2 < b.2)))
}

/// A key whose four parts are coordinates of cells of some grid, written as
/// one number: four digits in base 2^32.
spec fn packed(key: (int, int, int, int)) -> int {
    ((key.0 * 0x1_0000_0000 + key.1) * 0x1_0000_0000 + key.2) * 0x1_0000_0000 + key.3
}

/// Keys made of coordinates of cells of a grid are told apart by the numbers
/// they are written as.
proof fn lemma_packed_injective(a: (int, int, int, int), b: (int, int, int, int))
    requires
        0 <= a.0 < 0x8000_0000 && 0 <= a.1 < 0x8000_0000,
        0 <= a.2 < 0x8000_0000 && 0 <= a.3 < 0x8000_0000,
        0 <= b.0 < 0x8000_0000 && 0 <= b.1 < 0x8000_0000,
        0 <= b.2 < 0x8000_0000 && 0 <= b.3 < 0x8000_0000,
        packed(a) == packed(b),
    ensures
        a == b,
{
    let a2 = (a.0 * 0x1_0000_0000 + a.1) * 0x1_0000_0000 + a.2;
    let b2 = (b.0 * 0x1_0000_0000 + b.1) * 0x1_0000_0000 + b.2;
    assert(a2 == b2 && a.3 == b.3);
    let a1 = a.0 * 0x1_0000_0000 + a.1;
    let b1 = b.0 * 0x1_0000_0000 + b.1;
    assert(a1 == b1 && a.2 == b.2);
}

/// Writes a key of non-negative parts as one number.
fn pack_key(key: (i32, i32, i32, i32)) -> (number: u128)
    requires
        0 <= key.0 && 0 <= key.1 && 0 <= key.2 && 0 <= key.3,
    ensures
        number == packed((key.0 as int, key.1 as int, key.2 as int, key.3 as int)),
{
    let high: u128 = key.0 as u128 * 0x1_0000_0000 + key.1 as u128;
    let mid: u128 = high * 0x1_0000_0000 + key.2 as u128;
    mid * 0x1_0000_0000 + key.3 as u128
}

/// The key of the edge between two cells. It does not depend on which of the
/// two cells is given first.
pub fn road_key(q: i32, r: i32, q2: i32, r2: i32) -> (key: (i32, i32, i32, i32))
    ensures
        (key.0 as int, key.1 as int, key.2 as int, key.3 as int) == road_key_spec(
            q as int,
            r as int,
            q2 as int,
            r2 as int,
        ),
        (key.0 as int, key.1 as int, key.2 as int, key.3 as int) == road_key_spec(
            q2 as int,
            r2 as int,
            q as int,
            r as int,
        ),
{
    if q < q2 || (q == q2 && r <= r2) {
        (q, r, q2, r2)
    } else {
        (q2, r2, q, r)
    }
}

/// The number under which the key of side `side` of cell `(q, r)` is kept.
spec fn side_number(q: int, r: int, side: int) -> int {
    packed(side_key(q, r, side))
}

/// The parts of the key of a side that leads into the grid are coordinates of
/// cells of the grid, and the key's number fits the set that keeps it.
proof fn lemma_side_number_fits(width: int, height: int, q: int, r: int, side: int)
    requires
        width <= i32::MAX,
        height <= i32::MAX,
        leads_into_grid(width, height, q, r, side),
    ensures
        ({
            let key = side_key(q, r, side);
            &&& 0 <= key.0 < 0x8000_0000 && 0 <= key.1 < 0x8000_0000
            &&& 0 <= key.2 < 0x8000_0000 && 0 <= key.3 < 0x8000_0000
        }),
        0 <= side_number(q, r, side) <= u128::MAX,
{
}

/// Every side that leads into the grid and was walked before `at` has left
/// the number of its key in `visited`.
spec fn keeps_all(visited: Set<u128>, width: int, height: int, at: (int, int, int)) -> bool {
    forall|q: int, r: int, side: int|
        leads_into_grid(width, height, q, r, side) && walked_before((q, r, side), at)
            ==> visited.contains((#[trigger] side_number(q, r, side)) as u128)
}

/// Every number in `visited` was left by the side that `origin` names for it:
/// a side that leads into the grid and was walked before `at`.
spec fn keeps_only(
    visited: Set<u128>,
    origin: Map<u128, (int, int, int)>,
    width: int,
    height: int,
    at: (int, int, int),
) -> bool {
    forall|number: u128| #[trigger]
        visited.contains(number) ==> {
            let from = origin[number];
            &&& leads_into_grid(width, height, from.0, from.1, from.2)
            &&& walked_before(from, at)
            &&& side_number(from.0, from.1, from.2) == number
        }
}

/// A side that leads into the grid finds the number of its key in `visited`
/// exactly if it is no candidate: if the edge was seen from its other end.
proof fn lemma_seen_iff_not_candidate(
    visited: Set<u128>,
    origin: Map<u128, (int, int, int)>,
    width: int,
    height: int,
    q: int,
    r: int,
    side: int,
)
    requires
        width <= i32::MAX,
        height <= i32::MAX,
        leads_into_grid(width, height, q, r, side),
        keeps_all(visited, width, height, (q, r, side)),
        keeps_only(visited, origin, width, height, (q, r, side)),
    ensures
        visited.contains(side_number(q, r, side) as u128) <==> !is_candidate(
            width,
            height,
            q,
            r,
            side,
        ),
{
    let n = neighbor_of(q, r, side);
    let back = opposite_side(side);
    lemma_side_number_fits(width, height, q, r, side);
    if is_candidate(width, height, q, r, side) {
        let number = side_number(q, r, side) as u128;
        if visited.contains(number) {
            let from = origin[number];
            lemma_side_number_fits(width, height, from.0, from.1, from.2);
            lemma_packed_injective(side_key(from.0, from.1, from.2), side_key(q, r, side));
            assert(false);
        }
    } else {
        assert(neighbor_of(n.0, n.1, back) == (q, r));
        assert(leads_into_grid(width, height, n.0, n.1, back));
        assert(walked_before((n.0, n.1, back), (q, r, side)));
        assert(side_number(n.0, n.1, back) == side_number(q, r, side));
    }
}

/// The road candidates of a grid of `width` columns and `height` rows, in
/// walking order. Every side of every cell is looked at; a side that leads to
/// a cell of the grid becomes a candidate unless the key of its edge has been
/// seen before. So every edge between two cells of the grid has its
/// candidate, and no edge has two.
pub fn road_candidates(width: i32, height: i32) -> (roads: Vec<RoadCandidate>)
    ensures
        roads@ == road_candidates_spec(width as int, height as int),
        forall|q: int, r: int, side: int| #[trigger]
            leads_into_grid(width as int, height as int, q, r, side) ==> exists|i: int|
                0 <= i < roads@.len() && candidate_key(#[trigger] roads@[i]) == side_key(q, r, side),
        forall|i: int, j: int|
            0 <= i < roads@.len() && 0 <= j < roads@.len() && candidate_key(#[trigger] roads@[i])
                == candidate_key(#[trigger] roads@[j]) ==> i == j,
{
    let mut roads: Vec<RoadCandidate> = Vec::new();
    let mut visited: HashSet<u128> = HashSet::new();
    let ghost mut origin: Map<u128, (int, int, int)> = Map::empty();
    let ghost w = width as int;
    let ghost h = height as int;
    let mut q: i32 = 0;
    while q < width
        invariant
            w == width && h == height,
            0 <= q,
            q <= width || q == 0,
            roads@ == columns_before(w, h, q as int),
            keeps_all(visited@, w, h, (q as int, 0, 0)),
            keeps_only(visited@, origin, w, h, (q as int, 0, 0)),
        decreases width - q,
    {
        let mut r: i32 = 0;
        while r < height
            invariant
                w == width && h == height,
                0 <= q < width,
                0 <= r,
                r <= height || r == 0,
                roads@ == columns_before(w, h, q as int) + rows_before(w, h, q as int, r as int),
                keeps_all(visited@, w, h, (q as int, r as int, 0)),
                keeps_only(visited@, origin, w, h, (q as int, r as int, 0)),
            decreases height - r,
        {
            let cell = Cell { q, r };
            let mut side: usize = 0;
            while side < SIDES
                invariant
                    w == width && h == height,
                    0 <= q < width,
                    0 <= r < height,
                    cell == (Cell { q, r }),
                    side <= SIDES,
                    roads@ == columns_before(w, h, q as int) + rows_before(w, h, q as int, r as int)
                        + sides_before(w, h, q as int, r as int, side as int),
                    keeps_all(visited@, w, h, (q as int, r as int, side as int)),
                    keeps_only(visited@, origin, w, h, (q as int, r as int, side as int)),
                decreases SIDES - side,
            {
                let ghost before = roads@;
                match grid_neighbor(width, height, cell, side) {
                    Some(neighbor) => {
                        let key = road_key(q, r, neighbor.q, neighbor.r);
                        proof {
                            lemma_side_number_fits(w, h, q as int, r as int, side as int);
                            lemma_seen_iff_not_candidate(
                                visited@,
                                origin,
                                w,
                                h,
                                q as int,
                                r as int,
                                side as int,
                            );
                        }
                        let number = pack_key(key);
                        if !visited.contains(&number) {
                            visited.insert(number);
                            roads.push(RoadCandidate { cell, side, neighbor });
                            proof {
                                origin = origin.insert(number, (q as int, r as int, side as int));
                                assert(roads@ == before.push(candidate(q as int, r as int, side as int)));
                            }
                        }
                    },
                    None => {},
                }
                proof {
                    assert(roads@ == columns_before(w, h, q as int) + rows_before(
                        w,
                        h,
                        q as int,
                        r as int,
                    ) + sides_before(w, h, q as int, r as int, side + 1));
                }
                side = side + 1;
            }
            proof {
                assert(roads@ == columns_before(w, h, q as int) + rows_before(
                    w,
                    h,
                    q as int,
                    r + 1,
                ));
            }
            r = r + 1;
        }
        q = q + 1;
    }
    proof {
        lemma_one_candidate_per_edge(w, h);
        assert forall|q: int, r: int, side: int| #[trigger]
            leads_into_grid(w, h, q, r, side) implies exists|i: int|
            0 <= i < roads@.len() && candidate_key(#[trigger] roads@[i]) == side_key(q, r, side) by {
            lemma_every_edge_has_a_candidate(w, h, q, r, side);
        }
    }
    roads
}

/// The key of an edge is the same from both of its ends.
pub proof fn lemma_road_key_symmetric(q: int, r: int, q2: int, r2: int)
    ensures
        road_key_spec(q, r, q2, r2) == road_key_spec(q2, r2, q, r),
{
}

/// Two pairs of cells have the same key exactly if they are the same two
/// cells, in either order: a key names one edge and no other.
pub proof fn lemma_road_key_names_one_edge(
    a: (int, int),
    a2: (int, int),
    b: (int, int),
    b2: (int, int),
)
    ensures
        road_key_spec(a.0, a.1, a2.0, a2.1) == road_key_spec(b.0, b.1, b2.0, b2.1) <==> (a == b
            && a2 == b2) || (a == b2 && a2 == b),
{
}

/// An edge inside the grid is a candidate from exactly one of its two ends.
pub proof fn lemma_candidate_from_one_end(width: int, height: int, q: int, r: int, side: int)
    requires
        leads_into_grid(width, height, q, r, side),
    ensures
        ({
            let n = neighbor_of(q, r, side);
            &&& leads_into_grid(width, height, n.0, n.1, opposite_side(side))
            &&& side_key(n.0, n.1, opposite_side(side)) == side_key(q, r, side)
            &&& is_candidate(width, height, q, r, side) != is_candidate(
                width,
                height,
                n.0,
                n.1,
                opposite_side(side),
            )
        }),
{
}

/// Two sides with the same key lie on the same edge: they are the same side,
/// or the two sides of the edge.
pub proof fn lemma_same_key_same_edge(q: int, r: int, side: int, q2: int, r2: int, side2: int)
    requires
        0 <= side < 6,
        0 <= side2 < 6,
        side_key(q, r, side) == side_key(q2, r2, side2),
    ensures
        (q2, r2, side2) == (q, r, side) || (q2, r2, side2) == (
            neighbor_of(q, r, side).0,
            neighbor_of(q, r, side).1,
            opposite_side(side),
        ),
{
}

/// A side that leads into the grid is a candidate exactly if it is the first
/// in walking order to show the key of its edge.
pub proof fn lemma_candidate_is_first_with_key(width: int, height: int, q: int, r: int, side: int)
    requires
        leads_into_grid(width, height, q, r, side),
    ensures
        is_candidate(width, height, q, r, side) <==> forall|q2: int, r2: int, side2: int|
            leads_into_grid(width, height, q2, r2, side2) && walked_before(
                (q2, r2, side2),
                (q, r, side),
            ) ==> #[trigger] side_key(q2, r2, side2) != side_key(q, r, side),
{
    let n = neighbor_of(q, r, side);
    let back = opposite_side(side);
    lemma_candidate_from_one_end(width, height, q, r, side);
    if is_candidate(width, height, q, r, side) {
        assert forall|q2: int, r2: int, side2: int|
            leads_into_grid(width, height, q2, r2, side2) && walked_before(
                (q2, r2, side2),
                (q, r, side),
            ) implies #[trigger] side_key(q2, r2, side2) != side_key(q, r, side) by {
            if side_key(q2, r2, side2) == side_key(q, r, side) {
                lemma_same_key_same_edge(q, r, side, q2, r2, side2);
            }
        }
    } else {
        assert(walked_before((n.0, n.1, back), (q, r, side)));
        assert(side_key(n.0, n.1, back) == side_key(q, r, side));
    }
}

/// `roads` holds the candidates of the stretch of the walk from `from` up to,
/// but not including, `to`: nothing else, none of them twice, and in walking
/// order.
spec fn holds_stretch(
    roads: Seq<RoadCandidate>,
    width: int,
    height: int,
    from: (int, int, int),
    to: (int, int, int),
) -> bool {
    &&& forall|i: int|
        0 <= i < roads.len() ==> {
            let p = position(#[trigger] roads[i]);
            &&& roads[i] == candidate(p.0, p.1, p.2)
            &&& is_candidate(width, height, p.0, p.1, p.2)
            &&& !walked_before(p, from)
            &&& walked_before(p, to)
        }
    &&& forall|i: int, j: int|
        0 <= i < j < roads.len() ==> walked_before(
            position(#[trigger] roads[i]),
            position(#[trigger] roads[j]),
        )
    &&& forall|q: int, r: int, side: int|
        is_candidate(width, height, q, r, side) && !walked_before((q, r, side), from)
            && walked_before((q, r, side), to) ==> roads.contains(#[trigger] candidate(q, r, side))
}

/// Two stretches that meet make one stretch.
proof fn lemma_stretches_join(
    first: Seq<RoadCandidate>,
    second: Seq<RoadCandidate>,
    width: int,
    height: int,
    from: (int, int, int),
    mid: (int, int, int),
    to: (int, int, int),
)
    requires
        holds_stretch(first, width, height, from, mid),
        holds_stretch(second, width, height, mid, to),
        !walked_before(mid, from),
        !walked_before(to, mid),
    ensures
        holds_stretch(first + second, width, height, from, to),
{
    let all = first + second;
    assert forall|i: int| 0 <= i < all.len() implies {
        let p = position(#[trigger] all[i]);
        &&& all[i] == candidate(p.0, p.1, p.2)
        &&& is_candidate(width, height, p.0, p.1, p.2)
        &&& !walked_before(p, from)
        &&& walked_before(p, to)
    } by {
        if i < first.len() {
            assert(all[i] == first[i]);
        } else {
            assert(all[i] == second[i - first.len()]);
        }
    }
    assert forall|i: int, j: int| 0 <= i < j < all.len() implies walked_before(
        position(#[trigger] all[i]),
        position(#[trigger] all[j]),
    ) by {
        if j < first.len() {
            assert(all[i] == first[i] && all[j] == first[j]);
        } else if i < first.len() {
            assert(all[i] == first[i] && all[j] == second[j - first.len()]);
        } else {
            assert(all[i] == second[i - first.len()] && all[j] == second[j - first.len()]);
        }
    }
    assert forall|q: int, r: int, side: int|
        is_candidate(width, height, q, r, side) && !walked_before((q, r, side), from)
            && walked_before((q, r, side), to) implies all.contains(
        #[trigger] candidate(q, r, side),
    ) by {
        let c = candidate(q, r, side);
        if walked_before((q, r, side), mid) {
            let i = choose|i: int| 0 <= i < first.len() && first[i] == c;
            assert(all[i] == c);
        } else {
            let i = choose|i: int| 0 <= i < second.len() && second[i] == c;
            assert(all[first.len() + i] == c);
        }
    }
}

/// The candidates among the first `side` sides of a cell are a stretch.
proof fn lemma_sides_stretch(width: int, height: int, q: int, r: int, side: int)
    requires
        width <= i32::MAX,
        height <= i32::MAX,
        0 <= side <= 6,
    ensures
        holds_stretch(
            sides_before(width, height, q, r, side),
            width,
            height,
            (q, r, 0),
            (q, r, side),
        ),
    decreases side,
{
    if side > 0 {
        lemma_sides_stretch(width, height, q, r, side - 1);
        let earlier = sides_before(width, height, q, r, side - 1);
        let last = if is_candidate(width, height, q, r, side - 1) {
            Seq::<RoadCandidate>::empty().push(candidate(q, r, side - 1))
        } else {
            Seq::<RoadCandidate>::empty()
        };
        assert(holds_stretch(last, width, height, (q, r, side - 1), (q, r, side))) by {
            if is_candidate(width, height, q, r, side - 1) {
                assert(last[0] == candidate(q, r, side - 1));
            }
        }
        lemma_stretches_join(
            earlier,
            last,
            width,
            height,
            (q, r, 0),
            (q, r, side - 1),
            (q, r, side),
        );
        assert(sides_before(width, height, q, r, side) =~= earlier + last);
    }
}

/// The candidates of the first `r` cells of a column are a stretch.
proof fn lemma_rows_stretch(width: int, height: int, q: int, r: int)
    requires
        width <= i32::MAX,
        height <= i32::MAX,
        0 <= r,
    ensures
        holds_stretch(rows_before(width, height, q, r), width, height, (q, 0, 0), (q, r, 0)),
    decreases r,
{
    if r > 0 {
        lemma_rows_stretch(width, height, q, r - 1);
        lemma_sides_stretch(width, height, q, r - 1, 6);
        let cell = sides_before(width, height, q, r - 1, 6);
        assert(holds_stretch(cell, width, height, (q, r - 1, 0), (q, r, 0)));
        lemma_stretches_join(
            rows_before(width, height, q, r - 1),
            cell,
            width,
            height,
            (q, 0, 0),
            (q, r - 1, 0),
            (q, r, 0),
        );
    }
}

/// The candidates of the first `q` columns are a stretch.
proof fn lemma_columns_stretch(width: int, height: int, q: int)
    requires
        width <= i32::MAX,
        height <= i32::MAX,
        0 <= q,
    ensures
        holds_stretch(columns_before(width, height, q), width, height, (0, 0, 0), (q, 0, 0)),
    decreases q,
{
    if q > 0 {
        lemma_columns_stretch(width, height, q - 1);
        let column = rows_before(width, height, q - 1, height);
        if height >= 0 {
            lemma_rows_stretch(width, height, q - 1, height);
        }
        assert(holds_stretch(column, width, height, (q - 1, 0, 0), (q, 0, 0)));
        lemma_stretches_join(
            columns_before(width, height, q - 1),
            column,
            width,
            height,
            (0, 0, 0),
            (q - 1, 0, 0),
            (q, 0, 0),
        );
    }
}

/// What the list of road candidates holds: every candidate side of the grid,
/// and nothing but candidate sides, each standing for its own cell, side and
/// neighbour; in walking order, so that none stands in the list twice.
pub proof fn lemma_road_candidates_exact(width: int, height: int)
    requires
        width <= i32::MAX,
        height <= i32::MAX,
    ensures
        forall|q: int, r: int, side: int|
            is_candidate(width, height, q, r, side) ==> road_candidates_spec(
                width,
                height,
            ).contains(#[trigger] candidate(q, r, side)),
        forall|i: int|
            0 <= i < road_candidates_spec(width, height).len() ==> {
                let c = #[trigger] road_candidates_spec(width, height)[i];
                &&& c == candidate(position(c).0, position(c).1, position(c).2)
                &&& is_candidate(width, height, position(c).0, position(c).1, position(c).2)
            },
        forall|i: int, j: int|
            0 <= i < j < road_candidates_spec(width, height).len() ==> walked_before(
                position(#[trigger] road_candidates_spec(width, height)[i]),
                position(#[trigger] road_candidates_spec(width, height)[j]),
            ),
        road_candidates_spec(width, height).no_duplicates(),
{
    let roads = road_candidates_spec(width, height);
    if width >= 0 {
        lemma_columns_stretch(width, height, width);
    }
    assert(holds_stretch(roads, width, height, (0, 0, 0), (width, 0, 0)));
    assert forall|i: int, j: int| 0 <= i < roads.len() && 0 <= j < roads.len() && i
        != j implies roads[i] != roads[j] by {
        if i < j {
            assert(walked_before(position(roads[i]), position(roads[j])));
        } else {
            assert(walked_before(position(roads[j]), position(roads[i])));
        }
    }
}

/// Every edge between two cells of the grid has a candidate in the list,
/// whichever of its two sides is asked for.
pub proof fn lemma_every_edge_has_a_candidate(width: int, height: int, q: int, r: int, side: int)
    requires
        width <= i32::MAX,
        height <= i32::MAX,
        leads_into_grid(width, height, q, r, side),
    ensures
        exists|i: int|
            0 <= i < road_candidates_spec(width, height).len() && candidate_key(
                #[trigger] road_candidates_spec(width, height)[i],
            ) == side_key(q, r, side),
{
    let roads = road_candidates_spec(width, height);
    lemma_road_candidates_exact(width, height);
    lemma_candidate_from_one_end(width, height, q, r, side);
    let n = neighbor_of(q, r, side);
    let c = if is_candidate(width, height, q, r, side) {
        candidate(q, r, side)
    } else {
        candidate(n.0, n.1, opposite_side(side))
    };
    assert(roads.contains(c));
    let at = choose|i: int| 0 <= i < roads.len() && roads[i] == c;
    assert(candidate_key(roads[at]) == side_key(q, r, side));
}

/// No two candidates in the list lie on the same edge. With the law before,
/// each adjacency inside the grid is considered exactly once.
pub proof fn lemma_one_candidate_per_edge(width: int, height: int)
    requires
        width <= i32::MAX,
        height <= i32::MAX,
    ensures
        forall|i: int, j: int|
            0 <= i < road_candidates_spec(width, height).len() && 0 <= j < road_candidates_spec(
                width,
                height,
            ).len() && candidate_key(#[trigger] road_candidates_spec(width, height)[i])
                == candidate_key(#[trigger] road_candidates_spec(width, height)[j]) ==> i == j,
{
    let roads = road_candidates_spec(width, height);
    lemma_road_candidates_exact(width, height);
    assert forall|i: int, j: int|
        0 <= i < roads.len() && 0 <= j < roads.len() && candidate_key(#[trigger] roads[i])
            == candidate_key(#[trigger] roads[j]) implies i == j by {
        let a = position(roads[i]);
        let b = position(roads[j]);
        lemma_same_key_same_edge(a.0, a.1, a.2, b.0, b.1, b.2);
        lemma_candidate_from_one_end(width, height, a.0, a.1, a.2);
        if i < j {
            assert(walked_before(a, b));
        } else if j < i {
            assert(walked_before(b, a));
        }
    }
}

/// Whether the host's verdict on candidate number `i` is that a road is laid.
/// A candidate without a verdict gets no road.
pub open spec fn gate_open(verdicts: Seq<bool>, i: int) -> bool {
    0 <= i < verdicts.len() && verdicts[i]
}

/// The candidates whose gate is open, in the order of the candidates.
pub open spec fn gated(candidates: Seq<RoadCandidate>, verdicts: Seq<bool>) -> Seq<RoadCandidate>
    decreases candidates.len(),
{
    if candidates.len() == 0 {
        Seq::empty()
    } else if gate_open(verdicts, candidates.len() - 1) {
        gated(candidates.drop_last(), verdicts).push(candidates.last())
    } else {
        gated(candidates.drop_last(), verdicts)
    }
}

/// The roads to lay: those of `candidates` on which the host's verdict is
/// `true`. `verdicts[i]` is the verdict on `candidates[i]`: whether the noise
/// sampled for it exceeded the threshold.
pub fn select_roads(candidates: &Vec<RoadCandidate>, verdicts: &Vec<bool>) -> (roads: Vec<
    RoadCandidate,
>)
    ensures
        roads@ == gated(candidates@, verdicts@),
{
    let mut roads: Vec<RoadCandidate> = Vec::new();
    let mut i: usize = 0;
    while i < candidates.len()
        invariant
            i <= candidates.len(),
            roads@ == gated(candidates@.take(i as int), verdicts@),
        decreases candidates.len() - i,
    {
        proof {
            assert(candidates@.take(i + 1).drop_last() =~= candidates@.take(i as int));
        }
        if i < verdicts.len() && verdicts[i] {
            roads.push(candidates[i]);
        }
        i = i + 1;
    }
    proof {
        assert(candidates@.take(i as int) =~= candidates@);
    }
    roads
}

/// What the selection holds: every road is a candidate with an open gate,
/// every such candidate is a road, and the roads keep the candidates' order.
/// `from[k]` is the index among the candidates of road number `k`.
pub proof fn lemma_gated_exact(candidates: Seq<RoadCandidate>, verdicts: Seq<bool>) -> (from: Seq<
    int,
>)
    ensures
        from.len() == gated(candidates, verdicts).len(),
        forall|k: int|
            0 <= k < from.len() ==> {
                &&& 0 <= #[trigger] from[k] < candidates.len()
                &&& gate_open(verdicts, from[k])
                &&& gated(candidates, verdicts)[k] == candidates[from[k]]
            },
        forall|k: int, l: int| 0 <= k < l < from.len() ==> from[k] < from[l],
        forall|i: int|
            0 <= i < candidates.len() && gate_open(verdicts, i) ==> from.contains(i),
    decreases candidates.len(),
{
    if candidates.len() == 0 {
        Seq::empty()
    } else {
        let last = candidates.len() - 1;
        let earlier = lemma_gated_exact(candidates.drop_last(), verdicts);
        let from = if gate_open(verdicts, last) {
            earlier.push(last)
        } else {
            earlier
        };
        assert forall|i: int|
            0 <= i < candidates.len() && gate_open(verdicts, i) implies from.contains(i) by {
            if i < last {
                let k = choose|k: int| 0 <= k < earlier.len() && earlier[k] == i;
                assert(from[k] == i);
            } else {
                assert(from[earlier.len() as int] == i);
            }
        }
        from
    }
}

/// The selection depends on the verdicts on the candidates and on nothing
/// else: the same verdicts select the same roads.
pub proof fn lemma_gated_by_verdicts_alone(
    candidates: Seq<RoadCandidate>,
    verdicts: Seq<bool>,
    others: Seq<bool>,
)
    requires
        forall|i: int|
            0 <= i < candidates.len() ==> gate_open(verdicts, i) == gate_open(others, i),
    ensures
        gated(candidates, verdicts) == gated(candidates, others),
    decreases candidates.len(),
{
    if candidates.len() > 0 {
        lemma_gated_by_verdicts_alone(candidates.drop_last(), verdicts, others);
    }
}

/// With every gate open all candidates become roads, and with every gate
/// closed none does.
pub proof fn lemma_gated_all_or_none(candidates: Seq<RoadCandidate>, verdicts: Seq<bool>)
    ensures
        (forall|i: int| 0 <= i < candidates.len() ==> gate_open(verdicts, i)) ==> gated(
            candidates,
            verdicts,
        ) == candidates,
        (forall|i: int| 0 <= i < candidates.len() ==> !gate_open(verdicts, i)) ==> gated(
            candidates,
            verdicts,
        ).len() == 0,
    decreases candidates.len(),
{
    if candidates.len() > 0 {
        lemma_gated_all_or_none(candidates.drop_last(), verdicts);
        if forall|i: int| 0 <= i < candidates.len() ==> gate_open(verdicts, i) {
            assert(gated(candidates, verdicts) =~= candidates);
        }
    } else {
        assert(gated(candidates, verdicts) =~= candidates);
    }
}

} // verus!
