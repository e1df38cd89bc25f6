use vstd::prelude::*;

verus! {

/// Entry `x` of the parent array is sound: a parent pointer stays inside the
/// array and strictly decreases the ghost depth measure.
pub open spec fn entry_ok(s: Seq<Option<usize>>, d: Seq<nat>, x: int) -> bool {
    match s[x] {
        Some(p) => p < s.len() && d[p as int] < d[x],
        None => true,
    }
}

/// The parent array together with the ghost depth measure forms a forest:
/// every parent chain strictly descends in depth, so no chain can cycle.
pub open spec fn forest_ok(s: Seq<Option<usize>>, d: Seq<nat>) -> bool {
    &&& d.len() == s.len()
    &&& forall|x: int| 0 <= x < s.len() ==> entry_ok(s, d, x)
}

/// The root reached by following parent pointers upward from `x`.
pub open spec fn root_in(s: Seq<Option<usize>>, d: Seq<nat>, x: int) -> int
    decreases d[x]
        when forest_ok(s, d) && 0 <= x < s.len()
        via root_in_decreases
{
    match s[x] {
        Some(p) => root_in(s, d, p as int),
        None => x,
    }
}

#[via_fn]
proof fn root_in_decreases(s: Seq<Option<usize>>, d: Seq<nat>, x: int) {
    assert(entry_ok(s, d, x));
}

/// `y` lies on the parent chain that starts at `x` (`x` itself included).
pub open spec fn on_path(s: Seq<Option<usize>>, d: Seq<nat>, x: int, y: int) -> bool
    decreases d[x]
        when forest_ok(s, d) && 0 <= x < s.len()
        via on_path_decreases
{
    x == y || (match s[x] {
        Some(p) => on_path(s, d, p as int, y),
        None => false,
    })
}

#[via_fn]
proof fn on_path_decreases(s: Seq<Option<usize>>, d: Seq<nat>, x: int, y: int) {
    assert(entry_ok(s, d, x));
}

/// How many entries of the parent array are set roots.
pub open spec fn count_roots(s: Seq<Option<usize>>) -> nat
    decreases s.len(),
{
    if s.len() == 0 {
        0
    } else {
        count_roots(s.drop_last()) + if s.last() is None {
            1nat
        } else {
            0nat
        }
    }
}

/// How many entries of the parent array carry a parent link.  Each such
/// entry is one edge of the forest.
pub open spec fn count_links(s: Seq<Option<usize>>) -> nat
    decreases s.len(),
{
    if s.len() == 0 {
        0
    } else {
        count_links(s.drop_last()) + if s.last() is Some {
            1nat
        } else {
            0nat
        }
    }
}

/// Following parent pointers from `x` hits a root after at most `fuel` steps.
pub open spec fn reaches_root_within(s: Seq<Option<usize>>, x: int, fuel: nat) -> bool
    decreases fuel,
{
    &&& 0 <= x < s.len()
    &&& match s[x] {
        None => true,
        Some(p) => fuel > 0 && reaches_root_within(s, p as int, (fuel - 1) as nat),
    }
}

/// The number of parent links between `x` and the root of its set.
spec fn chain_len(s: Seq<Option<usize>>, d: Seq<nat>, x: int) -> nat
    decreases d[x]
        when forest_ok(s, d) && 0 <= x < s.len()
        via chain_len_decreases
{
    match s[x] {
        Some(p) => chain_len(s, d, p as int) + 1,
        None => 0,
    }
}

#[via_fn]
proof fn chain_len_decreases(s: Seq<Option<usize>>, d: Seq<nat>, x: int) {
    assert(entry_ok(s, d, x));
}

/// The set of cells that the parent chain starting at `x` passes through.
spec fn path_cells(s: Seq<Option<usize>>, d: Seq<nat>, x: int) -> Set<int>
    decreases d[x]
        when forest_ok(s, d) && 0 <= x < s.len()
        via path_cells_decreases
{
    match s[x] {
        Some(p) => path_cells(s, d, p as int).insert(x),
        None => Set::empty().insert(x),
    }
}

#[via_fn]
proof fn path_cells_decreases(s: Seq<Option<usize>>, d: Seq<nat>, x: int) {
    assert(entry_ok(s, d, x));
}

/// The sentinel encoding used by `debug`: a root prints as -1, any other
/// entry prints as its parent index.
pub open spec fn sentinel_of(e: Option<usize>) -> isize {
    match e {
        Some(p) => p as isize,
        None => -1isize,
    }
}

proof fn lemma_on_path_same_root(s: Seq<Option<usize>>, d: Seq<nat>, x: int, y: int)
    requires
        forest_ok(s, d),
        0 <= x < s.len(),
        on_path(s, d, x, y),
    ensures
        0 <= y < s.len(),
        root_in(s, d, x) == root_in(s, d, y),
    decreases d[x],
{
    if x == y {
    } else {
        match s[x] {
            Some(p) => {
                assert(entry_ok(s, d, x));
                lemma_on_path_same_root(s, d, p as int, y);
            },
            None => {
                assert(false);
            },
        }
    }
}

pub proof fn lemma_root_in_bounds(s: Seq<Option<usize>>, d: Seq<nat>, x: int)
    requires
        forest_ok(s, d),
        0 <= x < s.len(),
    ensures
        0 <= root_in(s, d, x) < s.len(),
        s[root_in(s, d, x)] is None,
        on_path(s, d, x, root_in(s, d, x)),
    decreases d[x],
{
    match s[x] {
        Some(p) => {
            assert(entry_ok(s, d, x));
            lemma_root_in_bounds(s, d, p as int);
        },
        None => {},
    }
}

/// Attaching `b` under `a` keeps the structure a forest whenever `a` and `b`
/// lie in different sets: the ghost depths of `b`'s subtree are lifted above
/// the depth of `a`.
proof fn lemma_union_forest(s: Seq<Option<usize>>, d: Seq<nat>, a: int, b: int) -> (d2: Seq<
    nat,
>)
    requires
        forest_ok(s, d),
        s.len() <= usize::MAX,
        0 <= a < s.len(),
        0 <= b < s.len(),
        root_in(s, d, a) != root_in(s, d, b),
    ensures
        d2.len() == d.len(),
        forest_ok(s.update(b, Some(a as usize)), d2),
{
    let s2 = s.update(b, Some(a as usize));
    let d2 = Seq::new(
        d.len(),
        |y: int|
            if on_path(s, d, y, b) {
                (d[y] + d[a] + 1) as nat
            } else {
                d[y]
            },
    );
    if on_path(s, d, a, b) {
        lemma_on_path_same_root(s, d, a, b);
    }
    assert forall|x: int| 0 <= x < s2.len() implies entry_ok(s2, d2, x) by {
        assert(entry_ok(s, d, x));
        if x == b {
            assert(on_path(s, d, b, b));
        } else {
            match s[x] {
                Some(p) => {
                    assert(on_path(s, d, x, b) == on_path(s, d, p as int, b));
                },
                None => {},
            }
        }
    }
    d2
}

proof fn lemma_on_path_depth_le(s: Seq<Option<usize>>, d: Seq<nat>, x: int, y: int)
    requires
        forest_ok(s, d),
        0 <= x < s.len(),
        on_path(s, d, x, y),
    ensures
        0 <= y < s.len(),
        d[y] <= d[x],
    decreases d[x],
{
    if x == y {
    } else {
        match s[x] {
            Some(p) => {
                assert(entry_ok(s, d, x));
                lemma_on_path_depth_le(s, d, p as int, y);
            },
            None => {
                assert(false);
            },
        }
    }
}

/// If every cell on the parent chain of `y` keeps its entry, the root that
/// the chain reaches is also kept.
proof fn lemma_root_unchanged(
    s1: Seq<Option<usize>>,
    d1: Seq<nat>,
    s2: Seq<Option<usize>>,
    d2: Seq<nat>,
    y: int,
)
    requires
        forest_ok(s1, d1),
        forest_ok(s2, d2),
        s1.len() == s2.len(),
        0 <= y < s1.len(),
        forall|c: int| on_path(s1, d1, y, c) ==> s2[c] == s1[c],
    ensures
        root_in(s2, d2, y) == root_in(s1, d1, y),
    decreases d1[y],
{
    assert(on_path(s1, d1, y, y));
    match s1[y] {
        None => {},
        Some(p) => {
            assert(entry_ok(s1, d1, y));
            assert forall|c: int| on_path(s1, d1, p as int, c) implies s2[c] == s1[c] by {
                assert(on_path(s1, d1, y, c));
            }
            lemma_root_unchanged(s1, d1, s2, d2, p as int);
        },
    }
}

/// Reversing one edge at a root keeps the structure a forest: with `p` a
/// root and `x` its direct child, `x` becomes the root and `p` its child.
/// The ghost depths of everything outside `x`'s subtree are lifted above it.
proof fn lemma_flip_forest(s: Seq<Option<usize>>, d: Seq<nat>, x: int, p: int) -> (d2: Seq<nat>)
    requires
        forest_ok(s, d),
        s.len() <= usize::MAX,
        0 <= x < s.len(),
        0 <= p < s.len(),
        s[x] == Some(p as usize),
        s[p] is None,
    ensures
        d2.len() == d.len(),
        forest_ok(s.update(x, None).update(p, Some(x as usize)), d2),
{
    let s2 = s.update(x, None).update(p, Some(x as usize));
    let d2 = Seq::new(
        d.len(),
        |y: int|
            if on_path(s, d, y, x) {
                d[y]
            } else {
                (d[y] + d[x] + 1) as nat
            },
    );
    assert(entry_ok(s, d, x));
    assert(on_path(s, d, x, x));
    assert(!on_path(s, d, p, x));
    assert forall|y: int| 0 <= y < s2.len() implies entry_ok(s2, d2, y) by {
        assert(entry_ok(s, d, y));
        if y == p {
        } else if y == x {
        } else {
            match s[y] {
                Some(q) => {
                    assert(on_path(s, d, y, x) == on_path(s, d, q as int, x));
                },
                None => {},
            }
        }
    }
    d2
}

proof fn lemma_count_roots_take_succ(s: Seq<Option<usize>>, i: int)
    requires
        0 <= i < s.len(),
    ensures
        count_roots(s.take(i + 1)) == count_roots(s.take(i)) + (if s[i] is None {
            1nat
        } else {
            0nat
        }),
{
    assert(s.take(i + 1).drop_last() =~= s.take(i));
    assert(s.take(i + 1).last() == s[i]);
}

proof fn lemma_count_roots_prefix_le(s: Seq<Option<usize>>, i: int)
    requires
        0 <= i <= s.len(),
    ensures
        count_roots(s.take(i)) <= count_roots(s),
    decreases s.len() - i,
{
    if i == s.len() {
        assert(s.take(i) =~= s);
    } else {
        lemma_count_roots_take_succ(s, i);
        lemma_count_roots_prefix_le(s, i + 1);
    }
}

pub proof fn lemma_count_roots_at_least_one(s: Seq<Option<usize>>, i: int)
    requires
        0 <= i < s.len(),
        s[i] is None,
    ensures
        count_roots(s) >= 1,
    decreases s.len(),
{
    if i < s.len() - 1 {
        assert(s.drop_last()[i] == s[i]);
        lemma_count_roots_at_least_one(s.drop_last(), i);
    }
}

pub proof fn lemma_count_roots_update(s: Seq<Option<usize>>, i: int, v: Option<usize>)
    requires
        0 <= i < s.len(),
    ensures
        count_roots(s.update(i, v)) + (if s[i] is None {
            1nat
        } else {
            0nat
        }) == count_roots(s) + (if v is None {
            1nat
        } else {
            0nat
        }),
    decreases s.len(),
{
    let s2 = s.update(i, v);
    if i == s.len() - 1 {
        assert(s2.drop_last() =~= s.drop_last());
    } else {
        assert(s2.drop_last() =~= s.drop_last().update(i, v));
        assert(s.drop_last()[i] == s[i]);
        lemma_count_roots_update(s.drop_last(), i, v);
    }
}

pub proof fn lemma_count_pos_has_root(s: Seq<Option<usize>>)
    requires
        count_roots(s) >= 1,
    ensures
        exists|i: int| 0 <= i < s.len() && s[i] is None,
    decreases s.len(),
{
    if s.last() is None {
        assert(0 <= s.len() - 1 < s.len() && s[s.len() - 1] is None);
    } else {
        lemma_count_pos_has_root(s.drop_last());
        let j = choose|i: int| 0 <= i < s.drop_last().len() && s.drop_last()[i] is None;
        assert(0 <= j < s.len() && s[j] is None);
    }
}

proof fn lemma_path_cells_props(s: Seq<Option<usize>>, d: Seq<nat>, x: int)
    requires
        forest_ok(s, d),
        0 <= x < s.len(),
    ensures
        path_cells(s, d, x).finite(),
        path_cells(s, d, x).contains(x),
        forall|y: int| path_cells(s, d, x).contains(y) ==> 0 <= y < s.len() && d[y] <= d[x],
        path_cells(s, d, x).len() == chain_len(s, d, x) + 1,
    decreases d[x],
{
    assert(entry_ok(s, d, x));
    match s[x] {
        None => {},
        Some(p) => {
            lemma_path_cells_props(s, d, p as int);
            assert(!path_cells(s, d, p as int).contains(x));
        },
    }
}

proof fn lemma_chain_len_bound(s: Seq<Option<usize>>, d: Seq<nat>, x: int)
    requires
        forest_ok(s, d),
        0 <= x < s.len(),
    ensures
        chain_len(s, d, x) < s.len(),
{
    lemma_path_cells_props(s, d, x);
    let range = vstd::set_lib::set_int_range(0, s.len() as int);
    assert(path_cells(s, d, x).subset_of(range));
    vstd::set_lib::lemma_int_range(0, s.len() as int);
    vstd::set_lib::lemma_len_subset(path_cells(s, d, x), range);
}

proof fn lemma_reaches_within(s: Seq<Option<usize>>, d: Seq<nat>, x: int, fuel: nat)
    requires
        forest_ok(s, d),
        0 <= x < s.len(),
        chain_len(s, d, x) <= fuel,
    ensures
        reaches_root_within(s, x, fuel),
    decreases d[x],
{
    assert(entry_ok(s, d, x));
    match s[x] {
        Some(p) => lemma_reaches_within(s, d, p as int, (fuel - 1) as nat),
        None => {},
    }
}

proof fn lemma_links_plus_roots(s: Seq<Option<usize>>)
    ensures
        count_links(s) + count_roots(s) == s.len(),
    decreases s.len(),
{
    if s.len() > 0 {
        lemma_links_plus_roots(s.drop_last());
    }
}

/// A disjoint-set (union-find) forest over the cells `0 .. size`.
///
/// Each entry is either a set root (`None`) or the index of its direct
/// parent.  A ghost depth measure witnesses that parent chains never cycle.
pub struct DisjointSet {
    s: Vec<Option<usize>>,
    depth: Ghost<Seq<nat>>,
}

impl View for DisjointSet {
    type V = Seq<Option<usize>>;

    closed spec fn view(&self) -> Seq<Option<usize>> {
        self.s@
    }
}

impl DisjointSet {
    /// The ghost depth measure backing the forest invariant.
    pub closed spec fn depths(self) -> Seq<nat> {
        self.depth@
    }

    pub open spec fn well_formed(self) -> bool {
        &&& forest_ok(self@, self.depths())
        &&& self@.len() <= isize::MAX
    }

    /// The root of the set that cell `x` belongs to.
    pub open spec fn root_of(self, x: int) -> int {
        root_in(self@, self.depths(), x)
    }

    /// All `size` cells start out as singleton roots.
    pub fn new(size: usize) -> (r: DisjointSet)
        requires
            size <= isize::MAX,
        ensures
            r.well_formed(),
            r@.len() == size,
            forall|i: int| 0 <= i < size ==> r@[i] is None,
    {
        let mut v: Vec<Option<usize>> = Vec::new();
        let mut i: usize = 0;
        while i < size
            invariant
                i <= size,
                v@.len() == i,
                forall|j: int| 0 <= j < i ==> v@[j] is None,
            decreases size - i,
        {
            v.push(None);
            i = i + 1;
        }
        DisjointSet { s: v, depth: Ghost(Seq::new(size as nat, |i: int| 0nat)) }
    }

    /// The raw parent array under the sentinel encoding (roots as -1).
    pub fn debug(&self) -> (r: Vec<isize>)
        requires
            self.well_formed(),
        ensures
            r@.len() == self@.len(),
            forall|i: int| 0 <= i < self@.len() ==> r@[i] == sentinel_of(self@[i]),
    {
        let mut v: Vec<isize> = Vec::new();
        let mut i: usize = 0;
        while i < self.s.len()
            invariant
                self.well_formed(),
                i <= self@.len(),
                v@.len() == i,
                forall|j: int| 0 <= j < i ==> v@[j] == sentinel_of(self@[j]),
            decreases self@.len() - i,
        {
            let e = self.s[i];
            match e {
                Some(p) => {
                    assert(entry_ok(self@, self.depths(), i as int));
                    v.push(p as isize);
                },
                None => v.push(-1),
            }
            i = i + 1;
        }
        v
    }

    /// `None` when `x` is a set root, otherwise its direct parent pointer.
    pub fn get_parent(&self, x: usize) -> (r: Option<usize>)
        requires
            x < self@.len(),
        ensures
            r == self@[x as int],
    {
        self.s[x]
    }

    /// Chase parent pointers from `x` up to the root of its set.
    pub fn find(&self, x: usize) -> (r: isize)
        requires
            self.well_formed(),
            x < self@.len(),
        ensures
            0 <= r < self@.len(),
            r as int == self.root_of(x as int),
            self@[r as int] is None,
        decreases self.depths()[x as int],
    {
        proof {
            assert(entry_ok(self@, self.depths(), x as int));
        }
        let e = self.s[x];
        match e {
            None => x as isize,
            Some(p) => self.find(p),
        }
    }

    /// Scan for the second root in index order: `Some(i)` where `i` is the
    /// second root encountered, or `None` when at most one root remains.
    /// "Exactly one root" is the normal termination signal of maze
    /// generation, never a fault.
    pub fn next_root_idx(&self) -> (r: Option<usize>)
        ensures
            r is Some ==> {
                &&& r->0 < self@.len()
                &&& self@[r->0 as int] is None
                &&& count_roots(self@.take(r->0 as int)) == 1
                &&& count_roots(self@) >= 2
            },
            r is None ==> count_roots(self@) <= 1,
    {
        let mut count: usize = 0;
        let mut idx: usize = 0;
        while idx < self.s.len()
            invariant
                idx <= self@.len(),
                count == count_roots(self@.take(idx as int)),
                count <= 1,
            decreases self@.len() - idx,
        {
            let e = self.s[idx];
            proof {
                lemma_count_roots_take_succ(self@, idx as int);
            }
            if e.is_none() {
                if count == 1 {
                    proof {
                        lemma_count_roots_prefix_le(self@, idx as int + 1);
                    }
                    return Some(idx);
                }
                count = count + 1;
            }
            idx = idx + 1;
        }
        proof {
            assert(self@.take(self@.len() as int) =~= self@);
        }
        None
    }

    /// True iff exactly one set root remains, i.e. the forest has been merged
    /// into a single connected set.
    pub fn is_single_set(&self) -> (r: bool)
        requires
            self.well_formed(),
            self@.len() > 0,
        ensures
            r <==> count_roots(self@) == 1,
    {
        proof {
            lemma_root_in_bounds(self@, self.depths(), 0);
            lemma_count_roots_at_least_one(self@, root_in(self@, self.depths(), 0));
        }
        match self.next_root_idx() {
            Some(_) => false,
            None => true,
        }
    }

    /// Every parent chain terminates at a root within `size` steps: the
    /// forest has no cycles, and each cell has at most one direct parent.
    pub proof fn lemma_parent_chains_terminate(self)
        requires
            self.well_formed(),
        ensures
            forall|x: int|
                0 <= x < self@.len() ==> reaches_root_within(self@, x, self@.len()),
    {
        assert forall|x: int|
            0 <= x < self@.len() implies reaches_root_within(self@, x, self@.len()) by {
            lemma_chain_len_bound(self@, self.depths(), x);
            lemma_reaches_within(self@, self.depths(), x, self@.len());
        }
    }

    /// When exactly one root remains, the forest is a spanning tree: the
    /// number of (cell, parent) edges is exactly `size - 1`.
    pub proof fn lemma_single_set_edge_count(self)
        requires
            self.well_formed(),
            count_roots(self@) == 1,
        ensures
            count_links(self@) == self@.len() - 1,
    {
        lemma_links_plus_roots(self@);
    }

    /// Attach the set of `root_two` under `root_one`.  The two cells must lie
    /// in different sets; `root_two` itself need not be a root, in which case
    /// its old parent link is replaced by the new one.
    pub fn union(&mut self, root_one: usize, root_two: usize)
        requires
            old(self).well_formed(),
            root_one < old(self)@.len(),
            root_two < old(self)@.len(),
            old(self).root_of(root_one as int) != old(self).root_of(root_two as int),
        ensures
            final(self).well_formed(),
            final(self)@ == old(self)@.update(root_two as int, Some(root_one)),
    {
        let ghost s0 = self.s@;
        let ghost d0 = self.depth@;
        let ghost d2 = lemma_union_forest(s0, d0, root_one as int, root_two as int);
        self.s[root_two] = Some(root_one);
        proof {
            self.depth@ = d2;
            assert(self.s@ =~= s0.update(root_two as int, Some(root_one)));
        }
    }

    /// Reverse the parent chain above `x`, making `x` the root of its set.
    /// The unordered (cell, parent) edges are unchanged: every edge of the
    /// result is an edge of the old forest, possibly flipped.  Cells outside
    /// `x`'s chain keep their entries, other sets keep their roots, and the
    /// number of roots is unchanged.
    pub fn reroot(&mut self, x: usize)
        requires
            old(self).well_formed(),
            x < old(self)@.len(),
        ensures
            final(self).well_formed(),
            final(self)@.len() == old(self)@.len(),
            final(self)@[x as int] is None,
            forall|y: int|
                #![trigger final(self)@[y]]
                0 <= y < old(self)@.len() && final(self)@[y] is Some ==> (final(self)@[y] == old(
                    self,
                )@[y] || old(self)@[final(self)@[y]->0 as int] == Some(y as usize)),
            forall|y: int|
                #![trigger final(self)@[y]]
                0 <= y < old(self)@.len() && !on_path(
                    old(self)@,
                    old(self).depths(),
                    x as int,
                    y,
                ) ==> final(self)@[y] == old(self)@[y],
            count_roots(final(self)@) == count_roots(old(self)@),
            forall|y: int|
                #![trigger final(self).root_of(y)]
                0 <= y < old(self)@.len() && old(self).root_of(y) != old(self).root_of(x as int)
                    ==> final(self).root_of(y) == old(self).root_of(y),
        decreases old(self).depths()[x as int],
    {
        let ghost pre = *self;
        let ghost s0 = self.s@;
        let ghost d0 = self.depth@;
        let e = self.s[x];
        match e {
            None => {
                proof {
                    assert(on_path(s0, d0, x as int, x as int));
                }
            },
            Some(p) => {
                proof {
                    assert(entry_ok(s0, d0, x as int));
                    if on_path(s0, d0, p as int, x as int) {
                        lemma_on_path_depth_le(s0, d0, p as int, x as int);
                        assert(false);
                    }
                }
                self.reroot(p);
                let ghost mid = *self;
                let ghost s1 = self.s@;
                let ghost d1 = self.depth@;
                proof {
                    assert(s1[x as int] == s0[x as int]);
                    assert(s1[x as int] == Some(p));
                }
                self.s[x] = None;
                self.s[p] = Some(x);
                proof {
                    let d2 = lemma_flip_forest(s1, d1, x as int, p as int);
                    self.depth@ = d2;
                    let s2 = self.s@;
                    assert(s2 =~= s1.update(x as int, None).update(p as int, Some(x)));
                    lemma_count_roots_update(s1, x as int, None);
                    lemma_count_roots_update(s1.update(x as int, None), p as int, Some(x));
                    assert(root_in(s0, d0, x as int) == root_in(s0, d0, p as int));
                    assert(root_in(s1, d1, p as int) == p as int);
                    assert(root_in(s1, d1, x as int) == p as int);
                    assert forall|y: int|
                        0 <= y < s0.len() && !on_path(s0, d0, x as int, y) implies s2[y] == s0[y] by {
                        assert(on_path(s0, d0, p as int, p as int));
                        assert(on_path(s0, d0, x as int, p as int));
                        assert(s1[y] == s0[y]);
                    }
                    assert forall|y: int|
                        0 <= y < s0.len() && s2[y] is Some implies (s2[y] == s0[y] || s0[s2[y]->0
                            as int] == Some(y as usize)) by {
                        if y == p as int {
                            assert(s2[y]->0 == x);
                        } else if y != x as int {
                            assert(s2[y] == s1[y]);
                        }
                    }
                    assert forall|y: int|
                        0 <= y < s0.len() && root_in(s0, d0, y) != root_in(s0, d0, x as int)
                        implies root_in(s2, d2, y) == root_in(s0, d0, y) by {
                        assert(pre.root_of(p as int) == pre.root_of(x as int));
                        assert(mid.root_of(y) == pre.root_of(y));
                        assert(root_in(s1, d1, y) == root_in(s0, d0, y));
                        lemma_root_in_bounds(s0, d0, y);
                        assert forall|c: int| on_path(s1, d1, y, c) implies s2[c] == s1[c] by {
                            lemma_on_path_same_root(s1, d1, y, c);
                            if c == x as int || c == p as int {
                                assert(root_in(s1, d1, c) == p as int);
                                assert(root_in(s0, d0, y) == p as int);
                                assert(s0[p as int] is None);
                                assert(root_in(s0, d0, p as int) == p as int);
                                assert(false);
                            }
                        }
                        lemma_root_unchanged(s1, d1, s2, d2, y);
                    }
                }
            },
        }
    }
}

} // verus!
