//! The scene: the tiles and the roads that are present.
//!
//! The scene is never mended. Whenever a parameter that drives it changes, it
//! is generated anew as a whole, and what it held before is dropped.

use crate::grid::{
    grid_cells, grid_cells_spec, in_grid, lemma_grid_cells_exact, lemma_grid_cells_index, Cell,
};
use crate::roads::{
    candidate_key, gated, is_candidate, lemma_gated_exact, lemma_one_candidate_per_edge,
    lemma_road_candidates_exact, position, road_candidates, road_candidates_spec, select_roads,
    RoadCandidate,
};
use vstd::prelude::*;

verus! {

/// The tiles and roads that are present, as lists of what to draw.
pub struct Scene {
    tiles: Vec<Cell>,
    roads: Vec<RoadCandidate>,
}

/// What a scene holds.
#[verifier::ext_equal]
pub struct SceneView {
    /// The cells that have a tile, in walking order.
    pub tiles: Seq<Cell>,
    /// The sides that carry a road, in walking order.
    pub roads: Seq<RoadCandidate>,
}

impl View for Scene {
    type V = SceneView;

    closed spec fn view(&self) -> SceneView {
        SceneView { tiles: self.tiles@, roads: self.roads@ }
    }
}

/// One generation of the scene: a tile on every cell of the grid, and a road
/// on every road candidate that the host's verdicts let pass.
pub open spec fn generation(width: int, height: int, verdicts: Seq<bool>) -> SceneView {
    SceneView {
        tiles: grid_cells_spec(width, height),
        roads: gated(road_candidates_spec(width, height), verdicts),
    }
}

impl Scene {
    /// A scene with nothing in it.
    pub fn new() -> (scene: Scene)
        ensures
            scene@.tiles == Seq::<Cell>::empty(),
            scene@.roads == Seq::<RoadCandidate>::empty(),
    {
        Scene { tiles: Vec::new(), roads: Vec::new() }
    }

    /// Drops everything that is present and generates the scene anew for a
    /// grid of `width` columns and `height` rows. `verdicts[i]` is the host's
    /// verdict on road candidate number `i` of that grid.
    pub fn regenerate(&mut self, width: i32, height: i32, verdicts: &Vec<bool>)
        ensures
            final(self)@ == generation(width as int, height as int, verdicts@),
            final(self)@.tiles.no_duplicates(),
            final(self)@.roads.no_duplicates(),
    {
        self.tiles = grid_cells(width, height);
        let candidates = road_candidates(width, height);
        self.roads = select_roads(&candidates, verdicts);
        proof {
            lemma_generation_exact(width as int, height as int, verdicts@);
        }
    }

    /// The tiles that are present.
    pub fn tiles(&self) -> (tiles: &Vec<Cell>)
        ensures
            tiles@ == self@.tiles,
    {
        &self.tiles
    }

    /// The roads that are present.
    pub fn roads(&self) -> (roads: &Vec<RoadCandidate>)
        ensures
            roads@ == self@.roads,
    {
        &self.roads
    }
}

/// A generation holds exactly one generation's worth: every cell of the grid
/// has one tile and no tile lies elsewhere, every road lies on a road
/// candidate of the grid, no road is there twice, and no two roads lie on the
/// same edge.
pub proof fn lemma_generation_exact(width: int, height: int, verdicts: Seq<bool>)
    requires
        width <= i32::MAX,
        height <= i32::MAX,
    ensures
        generation(width, height, verdicts).tiles.no_duplicates(),
        generation(width, height, verdicts).roads.no_duplicates(),
        forall|q: int, r: int|
            in_grid(width, height, q, r) ==> generation(width, height, verdicts).tiles.contains(
                Cell { q: q as i32, r: r as i32 },
            ),
        forall|i: int|
            0 <= i < generation(width, height, verdicts).tiles.len() ==> {
                let tile = #[trigger] generation(width, height, verdicts).tiles[i];
                in_grid(width, height, tile.q as int, tile.r as int)
            },
        forall|k: int|
            0 <= k < generation(width, height, verdicts).roads.len() ==> {
                let road = #[trigger] generation(width, height, verdicts).roads[k];
                is_candidate(width, height, position(road).0, position(road).1, position(road).2)
            },
        forall|k: int, l: int|
            0 <= k < generation(width, height, verdicts).roads.len() && 0 <= l < generation(
                width,
                height,
                verdicts,
            ).roads.len() && candidate_key(#[trigger] generation(width, height, verdicts).roads[k])
                == candidate_key(#[trigger] generation(width, height, verdicts).roads[l]) ==> k
                == l,
{
    let tiles = grid_cells_spec(width, height);
    let candidates = road_candidates_spec(width, height);
    let roads = gated(candidates, verdicts);
    lemma_grid_cells_exact(width, height);
    assert forall|q: int, r: int| in_grid(width, height, q, r) implies tiles.contains(
        Cell { q: q as i32, r: r as i32 },
    ) by {
        lemma_grid_cells_index(width, height, q, r);
    }
    lemma_road_candidates_exact(width, height);
    lemma_one_candidate_per_edge(width, height);
    let from = lemma_gated_exact(candidates, verdicts);
    assert forall|k: int| 0 <= k < roads.len() implies {
        let road = #[trigger] roads[k];
        is_candidate(width, height, position(road).0, position(road).1, position(road).2)
    } by {
        assert(roads[k] == candidates[from[k]]);
    }
    assert forall|k: int, l: int| 0 <= k < roads.len() && 0 <= l < roads.len() && k
        != l implies roads[k] != roads[l] by {
        assert(roads[k] == candidates[from[k]] && roads[l] == candidates[from[l]]);
        if k < l {
            assert(from[k] < from[l]);
        } else {
            assert(from[l] < from[k]);
        }
    }
    assert forall|k: int, l: int|
        0 <= k < roads.len() && 0 <= l < roads.len() && candidate_key(#[trigger] roads[k])
            == candidate_key(#[trigger] roads[l]) implies k == l by {
        assert(roads[k] == candidates[from[k]] && roads[l] == candidates[from[l]]);
        assert(from[k] == from[l]);
        if k < l {
            assert(from[k] < from[l]);
        } else if l < k {
            assert(from[l] < from[k]);
        }
    }
}

} // verus!
