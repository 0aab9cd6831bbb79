use hex_roads::grid::{grid_cells, Cell, GRID_HEIGHT, GRID_WIDTH};
use hex_roads::roads::{road_candidates, road_key, select_roads, RoadCandidate};
use hex_roads::scene::Scene;
use std::collections::HashSet;

fn every_third(count: usize) -> Vec<bool> {
    (0..count).map(|i| i % 3 == 0).collect()
}

#[test]
fn new_scene_is_empty() {
    let scene = Scene::new();
    assert!(scene.tiles().is_empty());
    assert!(scene.roads().is_empty());
}

#[test]
fn regenerated_scene_holds_one_tile_per_cell() {
    let mut scene = Scene::new();
    scene.regenerate(GRID_WIDTH, GRID_HEIGHT, &Vec::new());
    assert_eq!(scene.tiles().len(), 225);
    assert_eq!(*scene.tiles(), grid_cells(GRID_WIDTH, GRID_HEIGHT));
    let distinct: HashSet<(i32, i32)> = scene.tiles().iter().map(|c| (c.q, c.r)).collect();
    assert_eq!(distinct.len(), 225);
    assert!(scene.roads().is_empty());
}

#[test]
fn regenerated_scene_holds_the_roads_that_passed() {
    let candidates = road_candidates(3, 2);
    let gates = every_third(candidates.len());
    let mut scene = Scene::new();
    scene.regenerate(3, 2, &gates);
    assert_eq!(*scene.roads(), select_roads(&candidates, &gates));
    assert_eq!(scene.roads().len(), (candidates.len() + 2) / 3);
}

#[test]
fn regeneration_leaves_nothing_of_the_scene_before() {
    let mut scene = Scene::new();
    let all = vec![true; road_candidates(GRID_WIDTH, GRID_HEIGHT).len()];
    scene.regenerate(GRID_WIDTH, GRID_HEIGHT, &all);
    assert_eq!(scene.tiles().len(), 225);
    assert_eq!(scene.roads().len(), 616);

    scene.regenerate(2, 2, &vec![false, true, false, false, false]);
    assert_eq!(
        *scene.tiles(),
        vec![
            Cell { q: 0, r: 0 },
            Cell { q: 0, r: 1 },
            Cell { q: 1, r: 0 },
            Cell { q: 1, r: 1 },
        ]
    );
    assert_eq!(
        *scene.roads(),
        vec![RoadCandidate {
            cell: Cell { q: 0, r: 0 },
            side: 5,
            neighbor: Cell { q: 0, r: 1 },
        }]
    );
}

#[test]
fn regenerating_twice_with_the_same_input_gives_the_same_scene() {
    let gates = every_third(616);
    let mut scene = Scene::new();
    scene.regenerate(GRID_WIDTH, GRID_HEIGHT, &gates);
    let tiles = scene.tiles().clone();
    let roads = scene.roads().clone();
    scene.regenerate(GRID_WIDTH, GRID_HEIGHT, &gates);
    assert_eq!(*scene.tiles(), tiles);
    assert_eq!(*scene.roads(), roads);
}

#[test]
fn no_two_roads_of_a_scene_lie_on_the_same_edge() {
    let mut scene = Scene::new();
    scene.regenerate(GRID_WIDTH, GRID_HEIGHT, &vec![true; 616]);
    let keys: HashSet<(i32, i32, i32, i32)> = scene
        .roads()
        .iter()
        .map(|c| road_key(c.cell.q, c.cell.r, c.neighbor.q, c.neighbor.r))
        .collect();
    assert_eq!(keys.len(), 616);
}

#[test]
fn regenerating_to_an_empty_grid_empties_the_scene() {
    let mut scene = Scene::new();
    scene.regenerate(4, 4, &vec![true; 64]);
    assert!(!scene.tiles().is_empty());
    assert!(!scene.roads().is_empty());
    scene.regenerate(0, 4, &vec![true; 64]);
    assert!(scene.tiles().is_empty());
    assert!(scene.roads().is_empty());
}
