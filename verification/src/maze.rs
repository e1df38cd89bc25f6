use vstd::prelude::*;

use crate::disjoint_set::DisjointSet;
use crate::disjoint_set::count_roots;
use crate::disjoint_set::forest_ok;
use crate::disjoint_set::lemma_count_pos_has_root;
use crate::disjoint_set::lemma_count_roots_at_least_one;
use crate::disjoint_set::lemma_count_roots_update;
use crate::disjoint_set::lemma_root_in_bounds;
use crate::disjoint_set::root_in;
use crate::disjoint_set::sentinel_of;
use crate::draw_api::DrawApi;
use crate::grid::adjacent;
use crate::grid::cells_adjacent;
use crate::grid::lemma_right_in_range;
use crate::grid::lemma_step_toward;
use crate::grid::manhattan;
use crate::rng::RandomSource;
use crate::screen_buffer::ScreenBuffer;
use crate::screen_buffer::wall_px;

verus! {

/// Whenever two cells lie in different components, some pair of grid-adjacent
/// cells crosses the border of the first cell's component.  Follows the grid
/// walk from `c1` toward `c2`: the first step that leaves the component is
/// such a pair.
proof fn lemma_crossing_exists(
    s: Seq<Option<usize>>,
    d: Seq<nat>,
    w: int,
    h: int,
    c1: int,
    c2: int,
)
    requires
        forest_ok(s, d),
        s.len() == w * h,
        w >= 1,
        h >= 1,
        0 <= c1 < s.len(),
        0 <= c2 < s.len(),
        root_in(s, d, c1) != root_in(s, d, c2),
    ensures
        exists|x: int, y: int|
            {
                &&& 0 <= x < s.len()
                &&& 0 <= y < s.len()
                &&& #[trigger] adjacent(x, y, w)
                &&& root_in(s, d, x) == root_in(s, d, c1)
                &&& root_in(s, d, y) != root_in(s, d, c1)
            },
    decreases manhattan(c1, c2, w),
{
    let n = lemma_step_toward(c1, c2, w, h);
    if root_in(s, d, n) != root_in(s, d, c1) {
        assert(adjacent(c1, n, w));
    } else {
        lemma_crossing_exists(s, d, w, h, n, c2);
    }
}

/// Carving one edge `(b, a)` into a forest whose edges all join adjacent
/// cells keeps that property, provided the new pair is adjacent too.
proof fn lemma_edges_adjacent_after_update(
    s: Seq<Option<usize>>,
    s2: Seq<Option<usize>>,
    a: usize,
    b: usize,
    w: int,
)
    requires
        forall|i: int|
            #![trigger s[i]]
            0 <= i < s.len() && s[i] is Some ==> adjacent(i, s[i]->0 as int, w),
        s2 == s.update(b as int, Some(a)),
        b < s.len(),
        adjacent(b as int, a as int, w),
    ensures
        forall|i: int|
            #![trigger s2[i]]
            0 <= i < s2.len() && s2[i] is Some ==> adjacent(i, s2[i]->0 as int, w),
{
    assert forall|i: int|
        0 <= i < s2.len() && s2[i] is Some implies adjacent(i, s2[i]->0 as int, w) by {
        if i != b {
            assert(s2[i] == s[i]);
        }
    }
}

/// The neighbor of cell `el` on side `dir`: left, right, up, down for
/// directions 0, 1, 2, 3.
pub open spec fn dir_neighbor(el: int, dir: int, w: int) -> int {
    if dir == 0 {
        el - 1
    } else if dir == 1 {
        el + 1
    } else if dir == 2 {
        el - w
    } else {
        el + w
    }
}

/// Direction `dir` holds a removable wall for cell `el`: the neighbor on
/// that side exists inside the `w` by `h` grid (no wraparound across a row
/// boundary) and lies in a different component of the forest.
pub open spec fn dir_candidate(ds: DisjointSet, el: int, dir: int, w: int, h: int) -> bool {
    &&& if dir == 0 {
        el % w != 0
    } else if dir == 1 {
        (el + 1) % w != 0
    } else if dir == 2 {
        el >= w
    } else {
        el + w < w * h
    }
    &&& ds.root_of(el) != ds.root_of(dir_neighbor(el, dir, w))
}

/// The position of direction `d` in the round-robin probe order that
/// starts at `wall_start`: positions 0, 1, 2 are probed in that order,
/// position 3 is the skipped direction.
pub open spec fn probe_index(d: int, wall_start: int) -> int {
    (d + 4 - wall_start) % 4
}

/// Probe three of the four directions around `el` in round-robin order from
/// `wall_start`, and return the pair `(el, neighbor)` for the first
/// direction whose wall is removable.  The fourth direction — probe
/// position 3, i.e. `(wall_start + 3) % 4` — is never examined: the carving
/// algorithm's deliberate 3-of-4 asymmetry.  Since the start is drawn from
/// `[0, 3)`, the up direction (2) is probed on every call while down (3) is
/// never the start.
pub fn probe_wall(ds: &DisjointSet, w: usize, h: usize, el: usize, wall_start: usize) -> (r:
    Option<(usize, usize)>)
    requires
        ds.well_formed(),
        ds@.len() == w * h,
        w >= 1,
        h >= 1,
        el < w * h,
        wall_start <= 2,
    ensures
        r is None <==> (forall|d: int|
            #![trigger dir_candidate(*ds, el as int, d, w as int, h as int)]
            0 <= d < 4 && probe_index(d, wall_start as int) < 3 ==> !dir_candidate(
                *ds,
                el as int,
                d,
                w as int,
                h as int,
            )),
        r matches Some(pair) ==> (exists|d: int|
            {
                &&& 0 <= d < 4
                &&& probe_index(d, wall_start as int) < 3
                &&& #[trigger] dir_candidate(*ds, el as int, d, w as int, h as int)
                &&& forall|d2: int|
                    #![trigger dir_candidate(*ds, el as int, d2, w as int, h as int)]
                    0 <= d2 < 4 && probe_index(d2, wall_start as int) < probe_index(
                        d,
                        wall_start as int,
                    ) ==> !dir_candidate(*ds, el as int, d2, w as int, h as int)
                &&& pair.0 == el
                &&& pair.1 as int == dir_neighbor(el as int, d, w as int)
            }),
        r matches Some(pair) ==> ({
            &&& pair.0 == el
            &&& pair.1 < ds@.len()
            &&& adjacent(el as int, pair.1 as int, w as int)
            &&& ds.root_of(el as int) != ds.root_of(pair.1 as int)
        }),
{
    let size = w * h;
    let mut i: usize = 0;
    while i < 3
        invariant
            ds.well_formed(),
            ds@.len() == w * h,
            size == w * h,
            w >= 1,
            h >= 1,
            el < size,
            wall_start <= 2,
            i <= 3,
            forall|d2: int|
                #![trigger dir_candidate(*ds, el as int, d2, w as int, h as int)]
                0 <= d2 < 4 && probe_index(d2, wall_start as int) < i ==> !dir_candidate(
                    *ds,
                    el as int,
                    d2,
                    w as int,
                    h as int,
                ),
        decreases 3 - i,
    {
        let dir = (wall_start + i) % 4;
        proof {
            assert(probe_index(dir as int, wall_start as int) == i as int);
        }
        if dir == 0 {
            if el % w != 0 {
                proof {
                    vstd::arithmetic::div_mod::lemma_small_mod(0nat, w as nat);
                }
                let ra = ds.find(el);
                let rb = ds.find(el - 1);
                if ra != rb {
                    proof {
                        assert(dir_candidate(*ds, el as int, dir as int, w as int, h as int));
                    }
                    return Some((el, el - 1));
                }
            }
        } else if dir == 1 {
            if (el + 1) % w != 0 {
                proof {
                    lemma_right_in_range(el as int, w as int, h as int);
                }
                let ra = ds.find(el);
                let rb = ds.find(el + 1);
                if ra != rb {
                    proof {
                        assert(dir_candidate(*ds, el as int, dir as int, w as int, h as int));
                    }
                    return Some((el, el + 1));
                }
            }
        } else if dir == 2 {
            if el >= w {
                let ra = ds.find(el);
                let rb = ds.find(el - w);
                if ra != rb {
                    proof {
                        assert(dir_candidate(*ds, el as int, dir as int, w as int, h as int));
                    }
                    return Some((el, el - w));
                }
            }
        } else {
            proof {
                assert(w <= w * h) by (nonlinear_arith)
                    requires
                        h >= 1,
                        w >= 0,
                ;
            }
            if el + w < size {
                let ra = ds.find(el);
                let rb = ds.find(el + w);
                if ra != rb {
                    proof {
                        assert(dir_candidate(*ds, el as int, dir as int, w as int, h as int));
                    }
                    return Some((el, el + w));
                }
            }
        }
        proof {
            assert(!dir_candidate(*ds, el as int, dir as int, w as int, h as int));
            assert forall|d2: int|
                0 <= d2 < 4 && probe_index(d2, wall_start as int) < i + 1
                implies !dir_candidate(*ds, el as int, d2, w as int, h as int) by {
                if probe_index(d2, wall_start as int) == i as int {
                    assert(d2 == dir as int);
                }
            }
        }
        i = i + 1;
    }
    None
}

/// A perfect maze over a `w` by `h` grid of cells, addressed row-major.
///
/// The maze owns a union-find forest sized to the grid; after generation the
/// parent link of every non-root cell is one carved edge of the spanning
/// tree, so the edge list is exactly the set of (cell, parent) pairs.
pub struct Maze<R: RandomSource> {
    ds: DisjointSet,
    w: usize,
    h: usize,
    temp_connected_els: Vec<bool>,
    rng: R,
}

impl<R: RandomSource> Maze<R> {
    /// The union-find forest whose parent links are the carved edges.
    pub closed spec fn forest(self) -> DisjointSet {
        self.ds
    }

    pub closed spec fn width(self) -> usize {
        self.w
    }

    pub closed spec fn height(self) -> usize {
        self.h
    }

    pub closed spec fn touched(self) -> Seq<bool> {
        self.temp_connected_els@
    }

    /// The grid shape is sound and every carved edge joins two grid-adjacent
    /// cells: no edge ever crosses a row boundary or leaves the grid.
    pub open spec fn well_formed(self) -> bool {
        &&& self.forest().well_formed()
        &&& self.forest()@.len() == self.width() * self.height()
        &&& self.width() >= 2
        &&& self.height() >= 2
        &&& forall|i: int|
            #![trigger self.forest()@[i]]
            0 <= i < self.forest()@.len() && self.forest()@[i] is Some ==> adjacent(
                i,
                self.forest()@[i]->0 as int,
                self.width() as int,
            )
    }

    /// Exactly one connected component remains.
    pub open spec fn fully_connected(self) -> bool {
        count_roots(self.forest()@) == 1
    }

    /// Build the disjoint-set sized to the grid and carve a random spanning
    /// tree over it, in phases:
    ///
    /// 1. random sampling: for `size / 4` draws, probe a random cell for a
    ///    removable wall and carve it, recording the touched cells;
    /// 2. leftover reconciliation: probe every never-touched cell once, in
    ///    random draw order;
    /// 3. root draining: repeatedly probe the second remaining root, giving
    ///    up after a bounded number of failed probes (best effort);
    /// 4. completion: random probing within a retry budget, then a
    ///    deterministic sweep that joins each remaining component to another
    ///    across a crossing wall, so generation terminates with a single
    ///    connected component whatever the random source answers.
    pub fn new(w: usize, h: usize, rng: R) -> (r: Maze<R>)
        requires
            w >= 2,
            h >= 2,
            w * h <= isize::MAX,
        ensures
            r.well_formed(),
            r.width() == w,
            r.height() == h,
            r.fully_connected(),
            crate::disjoint_set::count_links(r.forest()@) == w * h - 1,
    {
        let size = w * h;
        proof {
            assert(size >= 4) by (nonlinear_arith)
                requires
                    size == w * h,
                    w >= 2,
                    h >= 2,
            ;
        }
        let ds = DisjointSet::new(size);
        let mut touched: Vec<bool> = Vec::new();
        let mut t: usize = 0;
        while t < size
            invariant
                t <= size,
                touched@.len() == t,
            decreases size - t,
        {
            touched.push(false);
            t = t + 1;
        }
        let mut maze = Maze { ds, w, h, temp_connected_els: touched, rng };

        // phase 1: random sampling over a quarter of the grid
        let quarter = size / 4;
        let mut k: usize = 0;
        while k < quarter
            invariant
                maze.well_formed(),
                maze.w == w,
                maze.h == h,
                maze.temp_connected_els@.len() == size,
                size == w * h,
            decreases quarter - k,
        {
            let found = maze.find_wall_pair_and_el();
            match found {
                Some((a, b)) => {
                    let ghost prev = maze.ds@;
                    maze.ds.union(a, b);
                    proof {
                        lemma_edges_adjacent_after_update(prev, maze.ds@, a, b, w as int);
                    }
                    maze.temp_connected_els[a] = true;
                    maze.temp_connected_els[b] = true;
                },
                None => {},
            }
            k = k + 1;
        }

        // phase 2: reconcile the cells never touched by the sampling phase
        let mut leftovers: Vec<usize> = Vec::new();
        let mut c: usize = 0;
        while c < size
            invariant
                maze.well_formed(),
                maze.w == w,
                maze.h == h,
                maze.temp_connected_els@.len() == size,
                size == w * h,
                c <= size,
                forall|j: int| 0 <= j < leftovers@.len() ==> leftovers@[j] < size,
            decreases size - c,
        {
            if !maze.temp_connected_els[c] {
                leftovers.push(c);
            }
            c = c + 1;
        }
        while leftovers.len() > 0
            invariant
                maze.well_formed(),
                maze.w == w,
                maze.h == h,
                maze.temp_connected_els@.len() == size,
                size == w * h,
                forall|j: int| 0 <= j < leftovers@.len() ==> leftovers@[j] < size,
            decreases leftovers@.len(),
        {
            let found = maze.find_wall_pair_from_leftovers(&mut leftovers);
            match found {
                Some((a, b)) => {
                    let ghost prev = maze.ds@;
                    maze.ds.union(a, b);
                    proof {
                        lemma_edges_adjacent_after_update(prev, maze.ds@, a, b, w as int);
                    }
                },
                None => {},
            }
        }

        // phase 3: drain remaining roots, best effort within a failure budget
        let mut failures: usize = 0;
        let mut steps: usize = 0;
        while steps < size
            invariant_except_break
                failures <= 10,
            invariant
                maze.well_formed(),
                maze.w == w,
                maze.h == h,
                maze.temp_connected_els@.len() == size,
                size == w * h,
            ensures
                maze.well_formed(),
                maze.w == w,
                maze.h == h,
                maze.temp_connected_els@.len() == size,
            decreases size - steps,
        {
            let nxt = maze.ds.next_root_idx();
            match nxt {
                None => {
                    break ;
                },
                Some(idx) => {
                    let found = maze.find_wall_pair(idx);
                    match found {
                        Some((a, b)) => {
                            let ghost prev = maze.ds@;
                            maze.ds.union(a, b);
                            proof {
                                lemma_edges_adjacent_after_update(prev, maze.ds@, a, b, w as int);
                            }
                        },
                        None => {
                            failures = failures + 1;
                            if failures >= 10 {
                                break ;
                            }
                        },
                    }
                },
            }
            steps = steps + 1;
        }

        // phase 4a: random completion within a retry budget
        let mut tries: usize = 0;
        while tries < size
            invariant
                maze.well_formed(),
                maze.w == w,
                maze.h == h,
                maze.temp_connected_els@.len() == size,
                size == w * h,
                size >= 4,
            ensures
                maze.well_formed(),
                maze.w == w,
                maze.h == h,
                maze.temp_connected_els@.len() == size,
            decreases size - tries,
        {
            if maze.ds.is_single_set() {
                break ;
            }
            let found = maze.find_wall_pair_and_el();
            match found {
                Some((a, b)) => {
                    let ghost prev = maze.ds@;
                    maze.ds.union(a, b);
                    proof {
                        lemma_edges_adjacent_after_update(prev, maze.ds@, a, b, w as int);
                    }
                },
                None => {},
            }
            tries = tries + 1;
        }

        // phase 4b: deterministic completion; joins one component to another
        // on every pass, so the number of roots falls until one remains
        loop
            invariant
                maze.well_formed(),
                maze.w == w,
                maze.h == h,
                maze.temp_connected_els@.len() == size,
                size == w * h,
                size >= 4,
            ensures
                maze.well_formed(),
                maze.w == w,
                maze.h == h,
                count_roots(maze.ds@) == 1,
            decreases count_roots(maze.ds@),
        {
            let nxt = maze.ds.next_root_idx();
            match nxt {
                None => {
                    proof {
                        lemma_root_in_bounds(maze.ds@, maze.ds.depths(), 0);
                        lemma_count_roots_at_least_one(
                            maze.ds@,
                            crate::disjoint_set::root_in(maze.ds@, maze.ds.depths(), 0),
                        );
                    }
                    break ;
                },
                Some(sr) => {
                    proof {
                        let stk = maze.ds@.take(sr as int);
                        lemma_count_pos_has_root(stk);
                        let j = choose|i: int| 0 <= i < stk.len() && stk[i] is None;
                        assert(maze.forest()@[j] is None);
                        assert(maze.forest().root_of(j) == j);
                        assert(maze.forest().root_of(j) != sr as int);
                    }
                    let ghost pre_maze = maze;
                    let pair = maze.find_crossing(sr);
                    let a = pair.0;
                    let b = pair.1;
                    maze.ds.reroot(b);
                    proof {
                        assert forall|i: int|
                            0 <= i < maze.ds@.len() && maze.ds@[i] is Some implies adjacent(
                            i,
                            maze.ds@[i]->0 as int,
                            w as int,
                        ) by {
                            assert(pre_maze.well_formed());
                            assert(crate::disjoint_set::entry_ok(maze.ds@, maze.ds.depths(), i));
                            let p = maze.ds@[i]->0 as int;
                            assert(0 <= p < maze.ds@.len());
                            if maze.ds@[i] == pre_maze.forest()@[i] {
                                assert(adjacent(i, p, w as int));
                            } else {
                                assert(pre_maze.forest()@[p] == Some(i as usize));
                                assert(adjacent(p, i, w as int));
                            }
                        }
                        assert(maze.ds@[b as int] is None);
                        assert(maze.ds.root_of(b as int) == b as int);
                        lemma_root_in_bounds(pre_maze.forest()@, pre_maze.forest().depths(), a as int);
                        assert(pre_maze.forest().root_of(b as int) == sr as int);
                        assert(pre_maze.forest().root_of(a as int) != sr as int);
                        assert(maze.ds.root_of(a as int) == pre_maze.forest().root_of(a as int));
                        if pre_maze.forest().root_of(a as int) == b as int {
                            assert(pre_maze.forest().root_of(b as int) == b as int);
                            assert(false);
                        }
                    }
                    let ghost prev = maze.ds@;
                    maze.ds.union(a, b);
                    proof {
                        lemma_edges_adjacent_after_update(prev, maze.ds@, a, b, w as int);
                        lemma_count_roots_update(prev, b as int, Some(a));
                    }
                },
            }
        }
        proof {
            maze.ds.lemma_single_set_edge_count();
        }
        maze
    }

    fn size(&self) -> (r: usize)
        requires
            self.well_formed(),
        ensures
            r == self.width() * self.height(),
    {
        self.w * self.h
    }

    /// Probe for a removable wall next to cell `el`: draw a random starting
    /// direction from `[0, 3)` and delegate to `probe_wall`.  Because the
    /// start is below 3, the up direction is probed on every call, whatever
    /// the source answers: a `None` therefore guarantees that `el` has no
    /// removable wall above it.  Which other directions were probed depends
    /// on the drawn start.
    fn find_wall_pair(&mut self, el: usize) -> (r: Option<(usize, usize)>)
        requires
            old(self).well_formed(),
            el < old(self).width() * old(self).height(),
        ensures
            final(self).forest() == old(self).forest(),
            final(self).width() == old(self).width(),
            final(self).height() == old(self).height(),
            final(self).touched() == old(self).touched(),
            r matches Some(pair) ==> ({
                &&& pair.0 == el
                &&& pair.1 < old(self).forest()@.len()
                &&& adjacent(el as int, pair.1 as int, old(self).width() as int)
                &&& old(self).forest().root_of(el as int) != old(self).forest().root_of(
                    pair.1 as int,
                )
            }),
            r is None ==> !dir_candidate(
                old(self).forest(),
                el as int,
                2,
                old(self).width() as int,
                old(self).height() as int,
            ),
    {
        let wall_start = self.rng.next(0, 3);
        let r = probe_wall(&self.ds, self.w, self.h, el, wall_start);
        proof {
            if r is None {
                assert(probe_index(2, wall_start as int) < 3);
                assert(!dir_candidate(self.ds, el as int, 2, self.w as int, self.h as int));
            }
        }
        r
    }

    /// Pick random cells and probe each for a removable wall, within a
    /// retry budget of one attempt per grid cell.  A `None` means every
    /// drawn cell failed its own probe; since the drawn cells and start
    /// directions are the source's to pick, that outcome promises nothing
    /// about the forest, and callers treat it as "retry later or finish
    /// deterministically".
    fn find_wall_pair_and_el(&mut self) -> (r: Option<(usize, usize)>)
        requires
            old(self).well_formed(),
        ensures
            final(self).forest() == old(self).forest(),
            final(self).width() == old(self).width(),
            final(self).height() == old(self).height(),
            final(self).touched() == old(self).touched(),
            r matches Some(pair) ==> ({
                &&& pair.0 < old(self).forest()@.len()
                &&& pair.1 < old(self).forest()@.len()
                &&& adjacent(pair.0 as int, pair.1 as int, old(self).width() as int)
                &&& old(self).forest().root_of(pair.0 as int) != old(self).forest().root_of(
                    pair.1 as int,
                )
            }),
    {
        let size = self.w * self.h;
        proof {
            assert(2 * 2 <= self.w * self.h) by (nonlinear_arith)
                requires
                    self.w >= 2,
                    self.h >= 2,
            ;
        }
        let mut attempts: usize = 0;
        while attempts < size
            invariant
                self.ds == old(self).ds,
                self.w == old(self).w,
                self.h == old(self).h,
                self.temp_connected_els@ == old(self).temp_connected_els@,
                old(self).well_formed(),
                size == self.w * self.h,
                size >= 4,
            decreases size - attempts,
        {
            let el = self.rng.next(0, size);
            let res = self.find_wall_pair(el);
            match res {
                Some(pair) => {
                    return Some(pair);
                },
                None => {},
            }
            attempts = attempts + 1;
        }
        None
    }

    /// Draw a random cell out of the leftover pool and probe it for a
    /// removable wall.  Exactly the cell at the drawn index leaves the pool,
    /// the others keeping their order, whether or not a wall was found; on a
    /// find the pair starts at that cell, and on a failure the drawn cell
    /// had no removable wall above it.  A leftover whose probed neighbors
    /// are already connected to it is simply dropped, since the completion
    /// phase guarantees connectivity regardless.
    fn find_wall_pair_from_leftovers(&mut self, leftovers: &mut Vec<usize>) -> (r: Option<
        (usize, usize),
    >)
        requires
            old(self).well_formed(),
            old(leftovers)@.len() > 0,
            forall|j: int|
                0 <= j < old(leftovers)@.len() ==> old(leftovers)@[j] < old(
                    self,
                ).forest()@.len(),
        ensures
            final(self).forest() == old(self).forest(),
            final(self).width() == old(self).width(),
            final(self).height() == old(self).height(),
            final(self).touched() == old(self).touched(),
            final(leftovers)@.len() == old(leftovers)@.len() - 1,
            forall|j: int|
                0 <= j < final(leftovers)@.len() ==> final(leftovers)@[j] < old(
                    self,
                ).forest()@.len(),
            exists|j: int|
                {
                    &&& 0 <= j < old(leftovers)@.len()
                    &&& final(leftovers)@ == #[trigger] old(leftovers)@.remove(j)
                    &&& (r matches Some(pair) ==> pair.0 == old(leftovers)@[j])
                    &&& (r is None ==> !dir_candidate(
                        old(self).forest(),
                        old(leftovers)@[j] as int,
                        2,
                        old(self).width() as int,
                        old(self).height() as int,
                    ))
                },
            r matches Some(pair) ==> ({
                &&& pair.0 < old(self).forest()@.len()
                &&& pair.1 < old(self).forest()@.len()
                &&& adjacent(pair.0 as int, pair.1 as int, old(self).width() as int)
                &&& old(self).forest().root_of(pair.0 as int) != old(self).forest().root_of(
                    pair.1 as int,
                )
            }),
    {
        let el_idx = self.rng.next(0, leftovers.len());
        let el = leftovers.remove(el_idx);
        proof {
            assert(leftovers@ == old(leftovers)@.remove(el_idx as int));
            assert forall|j: int|
                0 <= j < leftovers@.len() implies leftovers@[j] < old(self).forest()@.len() by {
                if j < el_idx {
                    assert(leftovers@[j] == old(leftovers)@[j]);
                } else {
                    assert(leftovers@[j] == old(leftovers)@[j + 1]);
                }
            }
        }
        self.find_wall_pair(el)
    }

    /// True iff `a` and `b` are grid-adjacent and lie in the same connected
    /// component, i.e. a step between them crosses no wall.  Uses the
    /// ultimate-root comparison, so any two cells joined by a carved path
    /// compare equal, not only directly linked ones.
    pub fn has_no_wall(&self, a: usize, b: usize) -> (r: bool)
        requires
            self.well_formed(),
            a < self.width() * self.height(),
            b < self.width() * self.height(),
        ensures
            r <==> (adjacent(a as int, b as int, self.width() as int) && self.forest().root_of(
                a as int,
            ) == self.forest().root_of(b as int)),
    {
        if cells_adjacent(a, b, self.w) {
            let ra = self.ds.find(a);
            let rb = self.ds.find(b);
            ra == rb
        } else {
            false
        }
    }

    /// Scan for a crossing wall: a cell of `second_root`'s component that
    /// has a grid neighbor in another component.  Such a pair always exists
    /// while more than one component remains, because the grid itself is
    /// connected; the scan therefore cannot fail.
    fn find_crossing(&self, second_root: usize) -> (r: (usize, usize))
        requires
            self.well_formed(),
            second_root < self.forest()@.len(),
            self.forest()@[second_root as int] is None,
            exists|c: int|
                0 <= c < self.forest()@.len() && #[trigger] self.forest().root_of(c)
                    != second_root as int,
        ensures
            r.0 < self.forest()@.len(),
            r.1 < self.forest()@.len(),
            adjacent(r.0 as int, r.1 as int, self.width() as int),
            self.forest().root_of(r.1 as int) == second_root as int,
            self.forest().root_of(r.0 as int) != second_root as int,
    {
        let w = self.w;
        let size = self.w * self.h;
        let sr = second_root as isize;
        let mut i: usize = 0;
        while i < size
            invariant
                self.well_formed(),
                w == self.w,
                size == self.w * self.h,
                second_root < size,
                sr == second_root as isize,
                i <= size,
                forall|c: int, nb: int|
                    0 <= c < i && 0 <= nb < size && #[trigger] adjacent(c, nb, w as int)
                        && self.forest().root_of(c) == second_root as int ==> self.forest().root_of(
                        nb,
                    ) == second_root as int,
            decreases size - i,
        {
            let rt = self.ds.find(i);
            if rt == sr {
                if i % w != 0 {
                    proof {
                        vstd::arithmetic::div_mod::lemma_small_mod(0nat, w as nat);
                    }
                    let q = self.ds.find(i - 1);
                    if q != rt {
                        return (i - 1, i);
                    }
                }
                if (i + 1) % w != 0 {
                    proof {
                        lemma_right_in_range(i as int, w as int, self.h as int);
                    }
                    let q = self.ds.find(i + 1);
                    if q != rt {
                        return (i + 1, i);
                    }
                }
                if i >= w {
                    let q = self.ds.find(i - w);
                    if q != rt {
                        return (i - w, i);
                    }
                }
                proof {
                    assert(self.w <= self.w * self.h) by (nonlinear_arith)
                        requires
                            self.h >= 1,
                            self.w >= 0,
                    ;
                }
                if i + w < size {
                    let q = self.ds.find(i + w);
                    if q != rt {
                        return (i + w, i);
                    }
                }
            }
            proof {
                assert forall|nb: int|
                    0 <= nb < size && adjacent(i as int, nb, w as int) && self.forest().root_of(
                        i as int,
                    ) == second_root as int implies self.forest().root_of(nb) == second_root
                    as int by {
                    vstd::arithmetic::div_mod::lemma_small_mod(0nat, w as nat);
                }
            }
            i = i + 1;
        }
        proof {
            let c_out = choose|c: int|
                0 <= c < self.forest()@.len() && #[trigger] self.forest().root_of(c)
                    != second_root as int;
            lemma_crossing_exists(
                self.forest()@,
                self.forest().depths(),
                w as int,
                self.h as int,
                second_root as int,
                c_out,
            );
            assert(false);
        }
        (0, 0)
    }

    /// Pixel `(x, y)` lies on the wall of some carved edge of this maze: a
    /// non-root cell and its direct parent, drawn at block size `bs`.
    pub open spec fn carved_wall_px(self, bs: int, qx: int, qy: int) -> bool {
        exists|i: int|
            0 <= i < self.forest()@.len() && self.forest()@[i] is Some && #[trigger] wall_px(
                bs,
                self.width() as int,
                i,
                self.forest()@[i]->0 as int,
                qx,
                qy,
            )
    }

    /// Like `carved_wall_px`, restricted to the carved edges of the cells
    /// below `k`: the walls opened after the enumeration has handled the
    /// first `k` cells.
    pub open spec fn carved_wall_px_upto(self, bs: int, k: int, qx: int, qy: int) -> bool {
        exists|i: int|
            0 <= i < k && self.forest()@[i] is Some && #[trigger] wall_px(
                bs,
                self.width() as int,
                i,
                self.forest()@[i]->0 as int,
                qx,
                qy,
            )
    }

    /// Enumerate every non-root cell with its direct parent — the carved
    /// edges of the spanning tree — and open the wall between each pair in
    /// the buffer, in ascending cell order.  Exactly the wall pixels of the
    /// carved edges turn white; every other pixel keeps its color.
    pub fn feed_whitespace<D: DrawApi>(&self, buf: &mut ScreenBuffer<D>)
        requires
            self.well_formed(),
            old(buf).well_formed(),
            old(buf).columns() == self.width(),
            old(buf).rows() == self.height(),
        ensures
            final(buf).well_formed(),
            final(buf).block_size() == old(buf).block_size(),
            final(buf).columns() == old(buf).columns(),
            final(buf).rows() == old(buf).rows(),
            forall|qx: int, qy: int|
                0 <= qx < old(buf).pixel_w() && 0 <= qy < old(buf).pixel_h()
                    ==> #[trigger] final(buf).pixels()[qx][qy] == (if self.carved_wall_px(
                    old(buf).block_size() as int,
                    qx,
                    qy,
                ) {
                    crate::screen_buffer::Color::White
                } else {
                    old(buf).pixels()[qx][qy]
                }),
    {
        let ghost bs = old(buf).block_size() as int;
        let size = self.w * self.h;
        let mut i: usize = 0;
        while i < size
            invariant
                self.well_formed(),
                buf.well_formed(),
                buf.block_size() == old(buf).block_size(),
                buf.columns() == old(buf).columns(),
                buf.rows() == old(buf).rows(),
                buf.columns() == self.width(),
                buf.rows() == self.height(),
                bs == old(buf).block_size() as int,
                size == self.w * self.h,
                i <= size,
                forall|qx: int, qy: int|
                    0 <= qx < old(buf).pixel_w() && 0 <= qy < old(buf).pixel_h()
                        ==> #[trigger] buf.pixels()[qx][qy] == (if self.carved_wall_px_upto(
                        bs,
                        i as int,
                        qx,
                        qy,
                    ) {
                        crate::screen_buffer::Color::White
                    } else {
                        old(buf).pixels()[qx][qy]
                    }),
            decreases size - i,
        {
            let parent = self.ds.get_parent(i);
            match parent {
                Some(p) => {
                    proof {
                        assert(crate::disjoint_set::entry_ok(
                            self.forest()@,
                            self.forest().depths(),
                            i as int,
                        ));
                    }
                    let ghost mid = *buf;
                    buf.remove_wall(i, p);
                    proof {
                        assert forall|qx: int, qy: int|
                            0 <= qx < old(buf).pixel_w() && 0 <= qy < old(buf).pixel_h()
                            implies #[trigger] buf.pixels()[qx][qy] == (if self.carved_wall_px_upto(
                            bs,
                            i + 1,
                            qx,
                            qy,
                        ) {
                            crate::screen_buffer::Color::White
                        } else {
                            old(buf).pixels()[qx][qy]
                        }) by {
                            if wall_px(bs, self.width() as int, i as int, p as int, qx, qy) {
                                assert(self.carved_wall_px_upto(bs, i + 1, qx, qy));
                            } else if self.carved_wall_px_upto(bs, i as int, qx, qy) {
                                assert(self.carved_wall_px_upto(bs, i + 1, qx, qy));
                            } else if self.carved_wall_px_upto(bs, i + 1, qx, qy) {
                                let j = choose|j: int|
                                    0 <= j < i + 1 && self.forest()@[j] is Some && #[trigger] wall_px(
                                        bs,
                                        self.width() as int,
                                        j,
                                        self.forest()@[j]->0 as int,
                                        qx,
                                        qy,
                                    );
                                assert(j == i as int);
                                assert(false);
                            }
                        }
                    }
                },
                None => {
                    proof {
                        assert forall|qx: int, qy: int|
                            0 <= qx < old(buf).pixel_w() && 0 <= qy < old(buf).pixel_h()
                            implies #[trigger] buf.pixels()[qx][qy] == (if self.carved_wall_px_upto(
                            bs,
                            i + 1,
                            qx,
                            qy,
                        ) {
                            crate::screen_buffer::Color::White
                        } else {
                            old(buf).pixels()[qx][qy]
                        }) by {
                            if self.carved_wall_px_upto(bs, i + 1, qx, qy)
                                && !self.carved_wall_px_upto(bs, i as int, qx, qy) {
                                let j = choose|j: int|
                                    0 <= j < i + 1 && self.forest()@[j] is Some && #[trigger] wall_px(
                                        bs,
                                        self.width() as int,
                                        j,
                                        self.forest()@[j]->0 as int,
                                        qx,
                                        qy,
                                    );
                                assert(j == i as int);
                                assert(false);
                            }
                        }
                    }
                },
            }
            i = i + 1;
        }
        proof {
            assert forall|qx: int, qy: int|
                0 <= qx < old(buf).pixel_w() && 0 <= qy < old(buf).pixel_h()
                implies #[trigger] buf.pixels()[qx][qy] == (if self.carved_wall_px(bs, qx, qy) {
                crate::screen_buffer::Color::White
            } else {
                old(buf).pixels()[qx][qy]
            }) by {
                assert(self.carved_wall_px(bs, qx, qy) == self.carved_wall_px_upto(
                    bs,
                    size as int,
                    qx,
                    qy,
                ));
            }
        }
    }

    /// Boundary correctness: a cell in column 0 never carries an edge to
    /// `cell - 1`, and a cell in row 0 never carries an edge to `cell - w`.
    /// Both follow from the maze invariant that every carved edge joins two
    /// grid-adjacent cells without wraparound.
    pub proof fn lemma_boundary_edges(self)
        requires
            self.well_formed(),
        ensures
            forall|i: int|
                #![trigger self.forest()@[i]]
                0 <= i < self.forest()@.len() && i % (self.width() as int) == 0 && self.forest()@[i]
                    is Some ==> self.forest()@[i]->0 as int != i - 1,
            forall|i: int|
                #![trigger self.forest()@[i]]
                0 <= i < self.width() && self.forest()@[i] is Some ==> self.forest()@[i]->0 as int
                    != i - self.width(),
    {
        let w = self.width() as int;
        assert forall|i: int|
            0 <= i < self.forest()@.len() && i % w == 0 && self.forest()@[i]
                is Some implies self.forest()@[i]->0 as int != i - 1 by {
            let p = self.forest()@[i]->0 as int;
            assert(adjacent(i, p, w));
            if p == i - 1 {
                assert(false);
            }
        }
    }

    /// The raw parent array of the forest under the sentinel encoding
    /// (roots as -1).
    pub fn debug(&self) -> (r: Vec<isize>)
        requires
            self.well_formed(),
        ensures
            r@.len() == self.forest()@.len(),
            forall|i: int| 0 <= i < r@.len() ==> r@[i] == sentinel_of(self.forest()@[i]),
    {
        self.ds.debug()
    }
}

} // verus!
