use hex_roads::grid::{grid_neighbor, neighbor_offset, Cell, GRID_HEIGHT, GRID_WIDTH, SIDES};
use hex_roads::roads::{road_candidates, road_key, select_roads, RoadCandidate};
use noise::{NoiseFn, Perlin};
use std::collections::HashSet;

fn candidate(q: i32, r: i32, side: usize, nq: i32, nr: i32) -> RoadCandidate {
    RoadCandidate { cell: Cell { q, r }, side, neighbor: Cell { q: nq, r: nr } }
}

fn key_of(c: &RoadCandidate) -> (i32, i32, i32, i32) {
    road_key(c.cell.q, c.cell.r, c.neighbor.q, c.neighbor.r)
}

fn verdicts(seed: u32, density: f32, candidates: &[RoadCandidate]) -> Vec<bool> {
    let perlin = Perlin::new(seed);
    candidates
        .iter()
        .map(|c| {
            let value = perlin.get([c.cell.q as f64 * 0.1, c.cell.r as f64 * 0.1]);
            value > 1.0 - density as f64
        })
        .collect()
}

#[test]
fn key_puts_the_earlier_cell_first() {
    assert_eq!(road_key(0, 0, 1, 0), (0, 0, 1, 0));
    assert_eq!(road_key(1, 0, 0, 0), (0, 0, 1, 0));
    assert_eq!(road_key(3, 4, 3, 5), (3, 4, 3, 5));
    assert_eq!(road_key(3, 5, 3, 4), (3, 4, 3, 5));
}

#[test]
fn key_of_a_slanted_edge_is_the_same_from_both_ends() {
    assert_eq!(road_key(0, 1, 1, 0), (0, 1, 1, 0));
    assert_eq!(road_key(1, 0, 0, 1), (0, 1, 1, 0));
    assert_eq!(road_key(7, 3, 6, 4), (6, 4, 7, 3));
    assert_eq!(road_key(6, 4, 7, 3), (6, 4, 7, 3));
}

#[test]
fn key_is_symmetric_for_every_pair_of_neighbours() {
    for q in -2..3 {
        for r in -2..3 {
            for side in 0..SIDES {
                let (dq, dr) = neighbor_offset(side);
                let (q2, r2) = (q + dq, r + dr);
                assert_eq!(road_key(q, r, q2, r2), road_key(q2, r2, q, r));
            }
        }
    }
}

#[test]
fn key_is_symmetric_at_the_ends_of_the_number_range() {
    let ends = [i32::MIN, -1, 0, 1, i32::MAX];
    for q in ends {
        for r in ends {
            for q2 in ends {
                for r2 in ends {
                    assert_eq!(road_key(q, r, q2, r2), road_key(q2, r2, q, r));
                }
            }
        }
    }
}

#[test]
fn key_of_a_cell_with_itself() {
    assert_eq!(road_key(2, 2, 2, 2), (2, 2, 2, 2));
}

#[test]
fn single_cell_has_no_candidates() {
    assert!(road_candidates(1, 1).is_empty());
}

#[test]
fn empty_grids_have_no_candidates() {
    assert!(road_candidates(0, 0).is_empty());
    assert!(road_candidates(0, 5).is_empty());
    assert!(road_candidates(5, 0).is_empty());
    assert!(road_candidates(-1, 5).is_empty());
    assert!(road_candidates(5, -1).is_empty());
}

#[test]
fn two_cells_in_a_row_share_one_candidate() {
    assert_eq!(road_candidates(2, 1), vec![candidate(0, 0, 0, 1, 0)]);
}

#[test]
fn two_cells_in_a_column_share_one_candidate() {
    assert_eq!(road_candidates(1, 2), vec![candidate(0, 0, 5, 0, 1)]);
}

#[test]
fn candidates_of_a_two_by_two_grid_in_walking_order() {
    assert_eq!(
        road_candidates(2, 2),
        vec![
            candidate(0, 0, 0, 1, 0),
            candidate(0, 0, 5, 0, 1),
            candidate(0, 1, 0, 1, 1),
            candidate(0, 1, 1, 1, 0),
            candidate(1, 0, 5, 1, 1),
        ]
    );
}

#[test]
fn slanted_edge_is_listed_once() {
    let roads = road_candidates(2, 2);
    let slanted = roads.iter().filter(|c| key_of(c) == (0, 1, 1, 0)).count();
    assert_eq!(slanted, 1);
}

#[test]
fn the_scene_grid_has_one_candidate_per_edge() {
    let roads = road_candidates(GRID_WIDTH, GRID_HEIGHT);
    assert_eq!(roads.len(), 14 * 15 + 15 * 14 + 14 * 14);
    let keys: HashSet<(i32, i32, i32, i32)> = roads.iter().map(key_of).collect();
    assert_eq!(keys.len(), roads.len());
}

#[test]
fn every_edge_of_the_grid_has_its_candidate() {
    let (width, height) = (5, 4);
    let roads = road_candidates(width, height);
    let keys: HashSet<(i32, i32, i32, i32)> = roads.iter().map(key_of).collect();
    for q in 0..width {
        for r in 0..height {
            for side in 0..SIDES {
                if let Some(n) = grid_neighbor(width, height, Cell { q, r }, side) {
                    assert!(keys.contains(&road_key(q, r, n.q, n.r)));
                }
            }
        }
    }
}

#[test]
fn every_candidate_joins_a_cell_to_its_neighbour_across_the_side() {
    let (width, height) = (6, 7);
    for c in road_candidates(width, height) {
        assert!(c.side < SIDES);
        assert_eq!(grid_neighbor(width, height, c.cell, c.side), Some(c.neighbor));
        assert_eq!(key_of(&c), (c.cell.q, c.cell.r, c.neighbor.q, c.neighbor.r));
    }
}

#[test]
fn candidates_come_in_walking_order() {
    let roads = road_candidates(6, 7);
    for pair in roads.windows(2) {
        let a = (pair[0].cell.q, pair[0].cell.r, pair[0].side);
        let b = (pair[1].cell.q, pair[1].cell.r, pair[1].side);
        assert!(a < b);
    }
}

#[test]
fn candidate_is_the_first_side_that_shows_its_key() {
    let (width, height) = (4, 4);
    let roads = road_candidates(width, height);
    let mut seen: HashSet<(i32, i32, i32, i32)> = HashSet::new();
    let mut firsts: Vec<RoadCandidate> = Vec::new();
    for q in 0..width {
        for r in 0..height {
            for side in 0..SIDES {
                if let Some(n) = grid_neighbor(width, height, Cell { q, r }, side) {
                    if seen.insert(road_key(q, r, n.q, n.r)) {
                        firsts.push(candidate(q, r, side, n.q, n.r));
                    }
                }
            }
        }
    }
    assert_eq!(roads, firsts);
}

#[test]
fn roads_are_the_candidates_with_an_open_gate() {
    let candidates = road_candidates(2, 2);
    let roads = select_roads(&candidates, &vec![true, false, false, true, true]);
    assert_eq!(
        roads,
        vec![candidate(0, 0, 0, 1, 0), candidate(0, 1, 1, 1, 0), candidate(1, 0, 5, 1, 1)]
    );
}

#[test]
fn all_gates_open_or_all_closed() {
    let candidates = road_candidates(3, 3);
    let open = vec![true; candidates.len()];
    let closed = vec![false; candidates.len()];
    assert_eq!(select_roads(&candidates, &open), candidates);
    assert!(select_roads(&candidates, &closed).is_empty());
}

#[test]
fn candidate_without_a_verdict_gets_no_road() {
    let candidates = road_candidates(2, 2);
    let roads = select_roads(&candidates, &vec![true, true]);
    assert_eq!(roads, vec![candidate(0, 0, 0, 1, 0), candidate(0, 0, 5, 0, 1)]);
    assert!(select_roads(&candidates, &Vec::new()).is_empty());
}

#[test]
fn verdicts_beyond_the_candidates_are_ignored() {
    let candidates = road_candidates(2, 1);
    let roads = select_roads(&candidates, &vec![true, true, true]);
    assert_eq!(roads, candidates);
    assert!(select_roads(&Vec::new(), &vec![true, true]).is_empty());
}

#[test]
fn same_seed_and_density_give_the_same_roads() {
    let candidates = road_candidates(GRID_WIDTH, GRID_HEIGHT);
    let first = select_roads(&candidates, &verdicts(42, 0.7, &candidates));
    let again_candidates = road_candidates(GRID_WIDTH, GRID_HEIGHT);
    let again = select_roads(&again_candidates, &verdicts(42, 0.7, &again_candidates));
    assert_eq!(candidates, again_candidates);
    assert_eq!(first, again);
}

#[test]
fn density_zero_lays_no_road() {
    let candidates = road_candidates(GRID_WIDTH, GRID_HEIGHT);
    let roads = select_roads(&candidates, &verdicts(42, 0.0, &candidates));
    assert!(roads.is_empty());
}

#[test]
fn higher_density_keeps_every_road_of_a_lower_one() {
    let candidates = road_candidates(GRID_WIDTH, GRID_HEIGHT);
    let sparse = select_roads(&candidates, &verdicts(42, 0.7, &candidates));
    let dense = select_roads(&candidates, &verdicts(42, 1.0, &candidates));
    assert!(sparse.len() <= dense.len());
    for road in &sparse {
        assert!(dense.contains(road));
    }
}

#[test]
fn roads_share_the_verdict_of_the_cell_they_were_seen_from() {
    let candidates = road_candidates(GRID_WIDTH, GRID_HEIGHT);
    let gates = verdicts(42, 1.0, &candidates);
    for (i, a) in candidates.iter().enumerate() {
        for (j, b) in candidates.iter().enumerate() {
            if a.cell == b.cell {
                assert_eq!(gates[i], gates[j]);
            }
        }
    }
}

#[test]
fn the_scene_seed_and_density_lay_a_known_set_of_roads() {
    let candidates = road_candidates(GRID_WIDTH, GRID_HEIGHT);
    let roads = select_roads(&candidates, &verdicts(42, 0.7, &candidates));
    assert_eq!(roads.len(), 263);
    assert_eq!(roads[0], candidate(0, 2, 0, 1, 2));
    assert_eq!(roads[1], candidate(0, 2, 1, 1, 1));
    assert_eq!(roads[2], candidate(0, 2, 5, 0, 3));
    assert_eq!(roads[3], candidate(0, 3, 0, 1, 3));
}

#[test]
fn density_two_lays_a_road_on_every_candidate() {
    let candidates = road_candidates(GRID_WIDTH, GRID_HEIGHT);
    let roads = select_roads(&candidates, &verdicts(42, 2.0, &candidates));
    assert_eq!(roads, candidates);
}
