use maze_gen::disjoint_set::DisjointSet;
use maze_gen::maze::Maze;
use maze_gen::maze::probe_wall;
use maze_gen::rng::CycleSource;
use maze_gen::rng::MinSource;
use maze_gen::rng::RandomSource;

struct LcgSource {
    state: u64,
}

impl RandomSource for LcgSource {
    fn next(&mut self, min: usize, max: usize) -> usize {
        self.state = self
            .state
            .wrapping_mul(6364136223846793005)
            .wrapping_add(1442695040888963407);
        let r = (self.state >> 33) as usize;
        min + r % (max - min)
    }
}

/// Roots of every cell, computed independently from the raw parent array.
fn roots_of(debug: &[isize]) -> Vec<usize> {
    let n = debug.len();
    let mut roots = Vec::new();
    for i in 0..n {
        let mut cur = i;
        let mut steps = 0;
        while debug[cur] >= 0 {
            cur = debug[cur] as usize;
            steps += 1;
            assert!(steps <= n, "parent chase did not terminate within {} steps", n);
        }
        roots.push(cur);
    }
    roots
}

#[test]
fn can_construct_maze() {
    let _maze = Maze::new(20, 20, LcgSource { state: 7 });
}

#[test]
fn generation_yields_single_component() {
    let maze = Maze::new(4, 4, LcgSource { state: 99 });
    let debug = maze.debug();
    let root_count = debug.iter().filter(|e| **e == -1).count();
    assert_eq!(root_count, 1);
}

#[test]
fn parent_chains_terminate_without_cycles() {
    let maze = Maze::new(6, 5, LcgSource { state: 3 });
    let debug = maze.debug();
    // roots_of asserts that every chase ends at a root within n steps
    let _ = roots_of(&debug);
}

#[test]
fn edge_count_is_cells_minus_one() {
    let w = 7;
    let h = 4;
    let maze = Maze::new(w, h, LcgSource { state: 11 });
    let debug = maze.debug();
    let edges = debug.iter().filter(|e| **e >= 0).count();
    assert_eq!(edges, w * h - 1);
}

#[test]
fn has_no_wall_iff_adjacent_and_same_root() {
    let w = 5;
    let h = 4;
    let maze = Maze::new(w, h, LcgSource { state: 21 });
    let debug = maze.debug();
    let roots = roots_of(&debug);
    for a in 0..w * h {
        for b in 0..w * h {
            let same_row = a / w == b / w;
            let adjacent = (same_row && (a + 1 == b || b + 1 == a)) || a + w == b || b + w == a;
            let expected = adjacent && roots[a] == roots[b];
            assert_eq!(maze.has_no_wall(a, b), expected);
        }
    }
}

#[test]
fn boundary_produces_no_wraparound_edges() {
    let w = 5;
    let h = 5;
    let maze = Maze::new(w, h, LcgSource { state: 5 });
    let debug = maze.debug();
    for i in 0..w * h {
        if debug[i] >= 0 {
            let p = debug[i] as usize;
            assert!(p < w * h);
            let same_row = i / w == p / w;
            let is_adjacent =
                (same_row && (i + 1 == p || p + 1 == i)) || i + w == p || p + w == i;
            assert!(is_adjacent, "edge ({}, {}) is not grid-adjacent", i, p);
            if i % w == 0 {
                assert!(p + 1 != i, "column-0 cell {} has an edge to {}", i, p);
            }
            if i < w {
                // a row-0 cell has no up neighbor at all
                assert!(p + w != i);
            }
        }
    }
}

#[test]
fn min_source_still_terminates_and_connects() {
    for (w, h) in [(2, 2), (3, 3), (4, 2)] {
        let maze = Maze::new(w, h, MinSource {});
        let debug = maze.debug();
        let root_count = debug.iter().filter(|e| **e == -1).count();
        assert_eq!(root_count, 1);
    }
}

#[test]
fn probe_examines_three_directions_and_skips_the_fourth() {
    // 3x3 grid of singletons: every in-bounds direction around the center
    // cell 4 is a removable wall, so the probe returns the start direction's
    // neighbor (order: 0 left, 1 right, 2 up, 3 down).
    let ds = DisjointSet::new(9);
    assert_eq!(probe_wall(&ds, 3, 3, 4, 0), Some((4, 3)));
    assert_eq!(probe_wall(&ds, 3, 3, 4, 1), Some((4, 5)));
    assert_eq!(probe_wall(&ds, 3, 3, 4, 2), Some((4, 1)));
    // connect the center to its left, right and up neighbors: only the
    // down wall (direction 3) stays removable
    let mut ds = DisjointSet::new(9);
    ds.union(4, 3);
    ds.union(4, 5);
    ds.union(4, 1);
    // start 0 probes left, right, up and never examines down: the probe
    // fails even though the down wall is removable — the skipped direction
    // under start s is (s + 3) % 4
    assert_eq!(probe_wall(&ds, 3, 3, 4, 0), None);
    // starts 1 and 2 do reach the down direction (skipping left resp. right)
    assert_eq!(probe_wall(&ds, 3, 3, 4, 1), Some((4, 7)));
    assert_eq!(probe_wall(&ds, 3, 3, 4, 2), Some((4, 7)));
    // round-robin order from the start: start 2 probes up before down
    let mut ds = DisjointSet::new(9);
    ds.union(4, 3);
    ds.union(4, 5);
    assert_eq!(probe_wall(&ds, 3, 3, 4, 2), Some((4, 1)));
    // boundary cells never pair outside the grid: cell 0 has no left or up
    let ds = DisjointSet::new(9);
    assert_eq!(probe_wall(&ds, 3, 3, 0, 0), Some((0, 1)));
    assert_eq!(probe_wall(&ds, 3, 3, 0, 2), Some((0, 3)));
}

#[test]
fn three_by_three_cycling_source_builds_a_tree() {
    let maze = Maze::new(
        3,
        3,
        CycleSource::new(vec![0, 2, 1, 3, 2, 0, 1, 2, 3, 1, 0, 2]),
    );
    let debug = maze.debug();
    assert_eq!(debug.len(), 9);
    // exactly 8 edges and one root: a spanning tree over 9 cells
    let edges: Vec<(usize, usize)> = (0..9)
        .filter(|i| debug[*i] >= 0)
        .map(|i| (i, debug[i] as usize))
        .collect();
    assert_eq!(edges.len(), 8);
    let _ = roots_of(&debug);
    // cell 4 (the center) is reachable from cell 0 along the produced edges
    let mut reached = [false; 9];
    reached[0] = true;
    for _ in 0..9 {
        for (a, b) in &edges {
            if reached[*a] || reached[*b] {
                reached[*a] = true;
                reached[*b] = true;
            }
        }
    }
    assert!(reached[4]);
}
