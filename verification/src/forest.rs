//! The forest grid and the fire simulation on it.
//!
//! A `Forest` stores its cells in one flat vector in row-major order:
//! the cell at `(row, col)` lives at index `row * cols + col`. The grid
//! also keeps a running count of burned trees and the frontier: the
//! coordinates that caught fire during the most recent propagation step.

use vstd::prelude::*;
use vstd::multiset::Multiset;
use crate::tree::TreeState;

verus! {

/// Number of entries of `s` equal to `t`.
pub open spec fn count_state(s: Seq<TreeState>, t: TreeState) -> nat
    decreases s.len(),
{
    if s.len() == 0 {
        0
    } else {
        count_state(s.drop_last(), t) + if s.last() == t {
            1nat
        } else {
            0nat
        }
    }
}

/// A count never exceeds the length of the sequence.
pub proof fn lemma_count_le_len(s: Seq<TreeState>, t: TreeState)
    ensures
        count_state(s, t) <= s.len(),
    decreases s.len(),
{
    if s.len() > 0 {
        lemma_count_le_len(s.drop_last(), t);
    }
}

/// Overwriting one entry moves the counts by at most one, according to
/// the states written and overwritten.
pub proof fn lemma_count_update(s: Seq<TreeState>, i: int, x: TreeState, t: TreeState)
    requires
        0 <= i < s.len(),
    ensures
        count_state(s.update(i, x), t) + (if s[i] == t {
            1int
        } else {
            0int
        }) == count_state(s, t) + (if x == t {
            1int
        } else {
            0int
        }),
    decreases s.len(),
{
    let su = s.update(i, x);
    if i == s.len() - 1 {
        assert(su.drop_last() =~= s.drop_last());
        assert(su.last() == x);
    } else {
        assert(su.drop_last() =~= s.drop_last().update(i, x));
        assert(su.last() == s.last());
        lemma_count_update(s.drop_last(), i, x, t);
    }
}

/// A state that no entry holds has count zero.
pub proof fn lemma_count_zero(s: Seq<TreeState>, t: TreeState)
    requires
        forall|j: int| 0 <= j < s.len() ==> s[j] != t,
    ensures
        count_state(s, t) == 0,
    decreases s.len(),
{
    if s.len() > 0 {
        lemma_count_zero(s.drop_last(), t);
    }
}

/// An entry holding `t` forces a positive count.
pub proof fn lemma_count_pos(s: Seq<TreeState>, i: int, t: TreeState)
    requires
        0 <= i < s.len(),
        s[i] == t,
    ensures
        count_state(s, t) >= 1,
    decreases s.len(),
{
    if i < s.len() - 1 {
        lemma_count_pos(s.drop_last(), i, t);
    }
}

/// The count only depends on the multiset of entries, so it is invariant
/// under any permutation of the sequence.
pub proof fn lemma_count_state_multiset(s: Seq<TreeState>, t: TreeState)
    ensures
        count_state(s, t) == s.to_multiset().count(t),
    decreases s.len(),
{
    broadcast use vstd::seq_lib::group_to_multiset_ensures;

    if s.len() == 0 {
        assert(s.to_multiset() =~= Multiset::<TreeState>::empty());
    } else {
        lemma_count_state_multiset(s.drop_last(), t);
        assert(s =~= s.drop_last().push(s.last()));
        assert(s.to_multiset() =~= s.drop_last().to_multiset().insert(s.last()));
    }
}

/// Extending a prefix by one entry extends its count by that entry.
pub proof fn lemma_count_take_step(s: Seq<TreeState>, i: int, t: TreeState)
    requires
        0 <= i < s.len(),
    ensures
        count_state(s.take(i + 1), t) == count_state(s.take(i), t) + if s[i] == t {
            1nat
        } else {
            0nat
        },
{
    assert(s.take(i + 1).drop_last() =~= s.take(i));
    assert(s.take(i + 1).last() == s[i]);
}

/// Every cell is in exactly one state, so the three counts exhaust the grid.
pub proof fn lemma_count_partition(s: Seq<TreeState>)
    ensures
        count_state(s, TreeState::Empty) + count_state(s, TreeState::Burned) + count_state(
            s,
            TreeState::Alive,
        ) == s.len(),
    decreases s.len(),
{
    if s.len() > 0 {
        lemma_count_partition(s.drop_last());
    }
}

/// When the first `k` entries hold `t` and the rest do not, the count is `k`.
pub proof fn lemma_count_split_k(s: Seq<TreeState>, k: int, t: TreeState)
    requires
        0 <= k <= s.len(),
        forall|j: int| 0 <= j < k ==> s[j] == t,
        forall|j: int| k <= j < s.len() ==> s[j] != t,
    ensures
        count_state(s, t) == k,
    decreases s.len(),
{
    if s.len() > 0 {
        if k == s.len() {
            lemma_count_split_k(s.drop_last(), k - 1, t);
        } else {
            lemma_count_split_k(s.drop_last(), k, t);
        }
    }
}

/// When every burned entry of `b` was burned or alive in `a`, the burn
/// count of `b` is bounded by what `a` had burned plus what it had alive.
pub proof fn lemma_count_burn_bound(a: Seq<TreeState>, b: Seq<TreeState>)
    requires
        a.len() == b.len(),
        forall|j: int| #![trigger b[j]]
            0 <= j < b.len() && b[j] == TreeState::Burned ==> a[j] == TreeState::Burned || a[j]
                == TreeState::Alive,
    ensures
        count_state(b, TreeState::Burned) <= count_state(a, TreeState::Burned) + count_state(
            a,
            TreeState::Alive,
        ),
    decreases a.len(),
{
    if a.len() > 0 {
        lemma_count_burn_bound(a.drop_last(), b.drop_last());
    }
}

/// The number of trees the seeder aims for: `percent` per cent of the
/// `total` cells, rounded up.
pub open spec fn alive_target(percent: int, total: int) -> int {
    (percent * total + 99) / 100
}

/// The target never exceeds the grid, is positive as soon as the density
/// is, and hits the two ends of the density range exactly.
pub proof fn lemma_alive_target_bounds(percent: int, total: int)
    requires
        0 <= percent <= 100,
        0 <= total,
    ensures
        0 <= alive_target(percent, total) <= total,
        percent >= 1 && total >= 1 ==> alive_target(percent, total) >= 1,
        percent == 0 ==> alive_target(percent, total) == 0,
        percent == 100 ==> alive_target(percent, total) == total,
{
    let x = percent * total;
    assert(0 <= percent * total && percent * total <= 100 * total) by (nonlinear_arith)
        requires
            0 <= percent <= 100,
            0 <= total,
    ;
    vstd::arithmetic::div_mod::lemma_div_pos_is_pos(x + 99, 100);
    vstd::arithmetic::div_mod::lemma_div_is_ordered(x + 99, 100 * total + 99, 100);
    vstd::arithmetic::div_mod::lemma_div_multiples_vanish_fancy(total, 99, 100);
    if percent >= 1 && total >= 1 {
        assert(percent * total >= 1) by (nonlinear_arith)
            requires
                percent >= 1,
                total >= 1,
        ;
        vstd::arithmetic::div_mod::lemma_div_is_ordered(100, x + 99, 100);
        vstd::arithmetic::div_mod::lemma_div_multiples_vanish_fancy(1, 0, 100);
    }
    if percent == 100 {
        assert(x == 100 * total);
    }
}

/// Two grid coordinates are adjacent when they differ by one step up,
/// down, left or right. Diagonal neighbors are not adjacent.
pub open spec fn adjacent(a: (usize, usize), b: (usize, usize)) -> bool {
    ||| a.0 == b.0 && a.1 + 1 == b.1
    ||| a.0 == b.0 && b.1 + 1 == a.1
    ||| a.1 == b.1 && a.0 + 1 == b.0
    ||| a.1 == b.1 && b.0 + 1 == a.0
}

/// Whether `p` is adjacent to one of the first `n` coordinates of `f`.
pub open spec fn adjacent_to_prefix(f: Seq<(usize, usize)>, n: int, p: (usize, usize)) -> bool {
    exists|k: int| 0 <= k < n && n <= f.len() && adjacent(#[trigger] f[k], p)
}

/// Whether `p` is adjacent to some coordinate of `f`.
pub open spec fn adjacent_to_seq(f: Seq<(usize, usize)>, p: (usize, usize)) -> bool {
    adjacent_to_prefix(f, f.len() as int, p)
}

/// A chain of living trees along which the fire at `g`'s frontier can
/// travel: the first tree borders the frontier, and each tree borders
/// the next.
pub open spec fn fire_path(g: Forest, path: Seq<(usize, usize)>) -> bool {
    &&& path.len() >= 1
    &&& adjacent_to_seq(g.frontier(), path[0])
    &&& forall|i: int|
        0 <= i < path.len() ==> g.in_bounds_at(#[trigger] path[i]) && g.cell(path[i])
            == TreeState::Alive
    &&& forall|i: int| 0 <= i < path.len() - 1 ==> adjacent(#[trigger] path[i], path[i + 1])
}

/// Whether the fire can reach the living tree at `p`: some chain of
/// adjacent living trees joins the frontier to `p`.
pub open spec fn fire_reaches(g: Forest, p: (usize, usize)) -> bool {
    exists|path: Seq<(usize, usize)>| #[trigger] fire_path(g, path) && path.last() == p
}

/// A living tree right beside the frontier is reachable.
pub proof fn lemma_fire_reaches_base(g: Forest, p: (usize, usize))
    requires
        g.in_bounds_at(p),
        g.cell(p) == TreeState::Alive,
        adjacent_to_seq(g.frontier(), p),
    ensures
        fire_reaches(g, p),
{
    let path = seq![p];
    assert(fire_path(g, path) && path.last() == p);
}

/// A living tree beside a reachable one is reachable.
pub proof fn lemma_fire_reaches_step(g: Forest, q: (usize, usize), p: (usize, usize))
    requires
        fire_reaches(g, q),
        adjacent(q, p),
        g.in_bounds_at(p),
        g.cell(p) == TreeState::Alive,
    ensures
        fire_reaches(g, p),
{
    let path = choose|path: Seq<(usize, usize)>| #[trigger] fire_path(g, path) && path.last()
        == q;
    let longer = path.push(p);
    assert(longer[path.len() as int - 1] == q && longer[path.len() as int] == p);
    assert(fire_path(g, longer) && longer.last() == p);
}

/// A row-major index stays inside the grid.
pub proof fn lemma_grid_index_bounds(r: int, c: int, rows: int, cols: int)
    requires
        0 <= r < rows,
        0 <= c < cols,
    ensures
        0 <= r * cols + c < rows * cols,
{
    assert(r * cols + c < rows * cols) by (nonlinear_arith)
        requires
            0 <= r < rows,
            0 <= c < cols,
    ;
}

/// Distinct in-bounds coordinates have distinct row-major indices.
pub proof fn lemma_grid_index_injective(r1: int, c1: int, r2: int, c2: int, cols: int)
    requires
        0 <= r1,
        0 <= r2,
        0 <= c1 < cols,
        0 <= c2 < cols,
        r1 * cols + c1 == r2 * cols + c2,
    ensures
        r1 == r2 && c1 == c2,
{
    assert(r1 == r2 && c1 == c2) by (nonlinear_arith)
        requires
            0 <= r1,
            0 <= r2,
            0 <= c1 < cols,
            0 <= c2 < cols,
            r1 * cols + c1 == r2 * cols + c2,
    ;
}

/// Every index of the cell vector is the row-major index of one
/// in-bounds coordinate.
pub proof fn lemma_index_to_coordinate(g: Forest, j: int)
    requires
        g.wf(),
        0 <= j < g.data@.len(),
    ensures
        exists|p: (usize, usize)|
            g.in_bounds_at(p) && g.index_of(p) == j && #[trigger] g.cell(p) == g.data@[j],
{
    let cols = g.cols();
    let r = j / cols;
    let c = j % cols;
    vstd::arithmetic::div_mod::lemma_fundamental_div_mod(j, cols);
    vstd::arithmetic::div_mod::lemma_mod_division_less_than_divisor(j, cols);
    assert(g.rows() * cols == cols * g.rows()) by (nonlinear_arith);
    vstd::arithmetic::div_mod::lemma_multiply_divide_lt(j, cols, g.rows());
    vstd::arithmetic::mul::lemma_mul_is_commutative(r, cols);
    let p = (r as usize, c as usize);
    assert(g.in_bounds_at(p) && g.index_of(p) == j && g.cell(p) == g.data@[j]);
}

/// Transfers the per-coordinate burning facts of one propagation pass
/// to the burn counts of the whole grid.
pub proof fn lemma_burned_count_bound(pre: Forest, post: Forest)
    requires
        pre.wf(),
        post.wf(),
        post.size == pre.size,
        post.data@.len() == pre.data@.len(),
        forall|p: (usize, usize)| #![auto]
            pre.in_bounds_at(p) && post.cell(p) == TreeState::Burned ==> pre.cell(p)
                == TreeState::Burned || pre.cell(p) == TreeState::Alive,
    ensures
        count_state(post.data@, TreeState::Burned) <= count_state(pre.data@, TreeState::Burned)
            + count_state(pre.data@, TreeState::Alive),
{
    assert forall|j: int|
        0 <= j < post.data@.len() && #[trigger] post.data@[j] == TreeState::Burned
            implies pre.data@[j] == TreeState::Burned || pre.data@[j] == TreeState::Alive by {
        lemma_index_to_coordinate(pre, j);
        let p = choose|p: (usize, usize)|
            pre.in_bounds_at(p) && pre.index_of(p) == j && #[trigger] pre.cell(p) == pre.data@[j];
        assert(post.index_of(p) == j);
        assert(post.cell(p) == post.data@[j]);
    }
    lemma_count_burn_bound(pre.data@, post.data@);
}

/// On a grid where the fire has finished (no living tree borders a
/// burned one) and no cell is empty, one burned cell forces every cell
/// burned: the grid graph is connected, so a surviving tree would
/// border the burned region along any path joining the two.
pub proof fn lemma_full_grid_burns(g: Forest, p: (usize, usize), q: (usize, usize))
    requires
        g.wf(),
        forall|a: (usize, usize), b: (usize, usize)|
            g.in_bounds_at(a) && g.in_bounds_at(b) && #[trigger] adjacent(a, b) && g.cell(a)
                == TreeState::Burned ==> g.cell(b) != TreeState::Alive,
        forall|a: (usize, usize)| g.in_bounds_at(a) ==> #[trigger] g.cell(a) != TreeState::Empty,
        g.in_bounds_at(p),
        g.cell(p) == TreeState::Burned,
        g.in_bounds_at(q),
    ensures
        g.cell(q) == TreeState::Burned,
    decreases (if p.0 <= q.0 {
        q.0 - p.0
    } else {
        p.0 - q.0
    }) + (if p.1 <= q.1 {
        q.1 - p.1
    } else {
        p.1 - q.1
    }),
{
    if p == q {
    } else {
        let step = if p.0 < q.0 {
            ((p.0 + 1) as usize, p.1)
        } else if p.0 > q.0 {
            ((p.0 - 1) as usize, p.1)
        } else if p.1 < q.1 {
            (p.0, (p.1 + 1) as usize)
        } else {
            (p.0, (p.1 - 1) as usize)
        };
        assert(adjacent(p, step));
        assert(g.in_bounds_at(step));
        assert(g.cell(step) != TreeState::Alive && g.cell(step) != TreeState::Empty);
        lemma_full_grid_burns(g, step, q);
    }
}

/// The forest: a rectangular grid of cells in row-major order, with the
/// burned count and the coordinates burned by the most recent step.
pub struct Forest {
    /// `(rows, cols)`, both positive, fixed at construction.
    pub size: (usize, usize),
    /// The frontier: coordinates that caught fire in the most recent step.
    pub trees_last_burned_positions: Vec<(usize, usize)>,
    /// The cells, `rows * cols` of them, row-major.
    pub data: Vec<TreeState>,
    /// How many cells have ever caught fire.
    pub burned: usize,
    /// How many cells the seeder marked alive.
    pub alive: usize,
}

impl Forest {
    pub open spec fn rows(self) -> int {
        self.size.0 as int
    }

    pub open spec fn cols(self) -> int {
        self.size.1 as int
    }

    pub open spec fn total(self) -> int {
        self.rows() * self.cols()
    }

    /// The frontier as a sequence of coordinates.
    pub open spec fn frontier(self) -> Seq<(usize, usize)> {
        self.trees_last_burned_positions@
    }

    pub open spec fn in_bounds_at(self, p: (usize, usize)) -> bool {
        p.0 < self.size.0 && p.1 < self.size.1
    }

    /// The row-major index of coordinate `p`.
    pub open spec fn index_of(self, p: (usize, usize)) -> int {
        p.0 * self.cols() + p.1
    }

    /// The state of the cell at coordinate `p`.
    pub open spec fn cell(self, p: (usize, usize)) -> TreeState {
        self.data@[self.index_of(p)]
    }

    /// Every frontier coordinate is in bounds and burned, and no
    /// coordinate appears twice.
    pub open spec fn frontier_wf(self) -> bool {
        &&& forall|k: int|
            0 <= k < self.frontier().len() ==> self.in_bounds_at(#[trigger] self.frontier()[k])
                && self.cell(self.frontier()[k]) == TreeState::Burned
        &&& forall|k1: int, k2: int|
            0 <= k1 < k2 < self.frontier().len() ==> self.frontier()[k1] != self.frontier()[k2]
    }

    /// The grid invariant: positive dimensions, a cell vector of exactly
    /// `rows * cols` entries, a burned count that equals the number of
    /// burned cells, and a well-formed frontier.
    pub open spec fn wf(self) -> bool {
        &&& self.rows() >= 1
        &&& self.cols() >= 1
        &&& self.total() <= usize::MAX
        &&& self.data@.len() == self.total()
        &&& self.burned == count_state(self.data@, TreeState::Burned)
        &&& self.frontier_wf()
    }

    /// A grid as the seeder expects it: no burned cell yet, no frontier.
    pub open spec fn unburned(self) -> bool {
        &&& self.burned == 0
        &&& self.frontier().len() == 0
    }

    /// Every burned cell outside the frontier has already handed its
    /// fire on: no living tree stands next to it. Ignition on a grid
    /// with no prior burn establishes this, and every propagation step
    /// keeps it; with an empty frontier it means the fire is finished.
    pub open spec fn settled(self) -> bool {
        forall|p: (usize, usize), q: (usize, usize)|
            self.in_bounds_at(p) && self.in_bounds_at(q) && #[trigger] adjacent(p, q) && self.cell(
                p,
            ) == TreeState::Burned && self.cell(q) == TreeState::Alive ==> self.frontier().contains(
                p,
            )
    }

    /// Allocates a `rows` by `cols` grid with every cell empty, a zero
    /// burned count and an empty frontier.
    pub fn new(rows: usize, cols: usize) -> (f: Forest)
        requires
            rows >= 1,
            cols >= 1,
            rows * cols <= usize::MAX,
        ensures
            f.wf(),
            f.unburned(),
            f.size == (rows, cols),
            f.alive == 0,
            f.data@.len() == rows * cols,
            forall|j: int| 0 <= j < f.data@.len() ==> f.data@[j] == TreeState::Empty,
    {
        let total = rows * cols;
        let mut data: Vec<TreeState> = Vec::new();
        let mut j: usize = 0;
        while j < total
            invariant
                j <= total,
                data@.len() == j,
                forall|q: int| 0 <= q < j ==> data@[q] == TreeState::Empty,
            decreases total - j,
        {
            data.push(TreeState::Empty);
            j += 1;
        }
        proof {
            lemma_count_zero(data@, TreeState::Burned);
        }
        Forest {
            size: (rows, cols),
            trees_last_burned_positions: Vec::new(),
            data,
            burned: 0,
            alive: 0,
        }
    }

    /// The row-major index of `(row, col)` in the cell vector.
    pub fn get_index(&self, row: usize, col: usize) -> (i: usize)
        requires
            self.wf(),
            row < self.size.0,
            col < self.size.1,
        ensures
            i == self.index_of((row, col)),
            i < self.data@.len(),
    {
        proof {
            lemma_grid_index_bounds(row as int, col as int, self.rows(), self.cols());
        }
        row * self.size.1 + col
    }

    /// Bounds-checked read of the cell at `(row, col)`.
    pub fn get(&self, row: usize, col: usize) -> (t: TreeState)
        requires
            self.wf(),
            row < self.size.0,
            col < self.size.1,
        ensures
            t == self.cell((row, col)),
    {
        let i = self.get_index(row, col);
        self.data[i]
    }

    /// Bounds-checked write of the cell at `(row, col)`, keeping the
    /// burned count in step. Writing is for building a grid before
    /// ignition, so the frontier must still be empty.
    pub fn set(&mut self, row: usize, col: usize, state: TreeState)
        requires
            old(self).wf(),
            old(self).frontier().len() == 0,
            row < old(self).size.0,
            col < old(self).size.1,
        ensures
            final(self).wf(),
            final(self).size == old(self).size,
            final(self).alive == old(self).alive,
            final(self).frontier() == old(self).frontier(),
            final(self).data@ == old(self).data@.update(
                old(self).index_of((row, col)),
                state,
            ),
    {
        let i = self.get_index(row, col);
        let was = self.data[i];
        proof {
            lemma_count_update(self.data@, i as int, state, TreeState::Burned);
            lemma_count_le_len(self.data@.update(i as int, state), TreeState::Burned);
            if was == TreeState::Burned {
                lemma_count_pos(self.data@, i as int, TreeState::Burned);
            }
        }
        self.data[i] = state;
        if was == TreeState::Burned && state != TreeState::Burned {
            self.burned = self.burned - 1;
        }
        if was != TreeState::Burned && state == TreeState::Burned {
            self.burned = self.burned + 1;
        }
    }

    /// Exact-count seeding: marks the first `alive_target` cells of the
    /// row-major order alive, then shuffles the whole cell vector so the
    /// trees land in uniformly random positions. The grid ends with
    /// exactly the target number of living trees, whatever the generator
    /// returns.
    pub fn create_alive_trees(&mut self, percent: usize, rng: &mut rand::rngs::StdRng)
        requires
            old(self).wf(),
            old(self).unburned(),
            percent <= 100,
            forall|j: int| 0 <= j < old(self).data@.len() ==> old(self).data@[j] == TreeState::Empty,
            100 * old(self).total() + 99 <= usize::MAX,
        ensures
            final(self).wf(),
            final(self).unburned(),
            final(self).size == old(self).size,
            final(self).alive == alive_target(percent as int, old(self).total()),
            count_state(final(self).data@, TreeState::Alive) == alive_target(
                percent as int,
                old(self).total(),
            ),
            count_state(final(self).data@, TreeState::Empty) == old(self).total() - alive_target(
                percent as int,
                old(self).total(),
            ),
    {
        let total = self.size.0 * self.size.1;
        proof {
            assert((percent as int) * (total as int) <= 100 * (total as int)) by (nonlinear_arith)
                requires
                    percent as int <= 100,
                    total as int >= 0,
            ;
        }
        let target = (percent * total + 99) / 100;
        proof {
            lemma_alive_target_bounds(percent as int, self.total());
        }
        let ghost orig = *self;
        let mut i: usize = 0;
        while i < target
            invariant
                self.size == orig.size,
                self.burned == orig.burned,
                self.alive == orig.alive,
                self.trees_last_burned_positions == orig.trees_last_burned_positions,
                self.data@.len() == orig.data@.len(),
                target == alive_target(percent as int, orig.total()),
                target <= self.data@.len(),
                i <= target,
                forall|j: int| 0 <= j < i ==> self.data@[j] == TreeState::Alive,
                forall|j: int| i <= j < self.data@.len() ==> self.data@[j] == TreeState::Empty,
            decreases target - i,
        {
            self.data[i] = TreeState::Alive;
            i += 1;
        }
        self.alive = target;
        let ghost pre = self.data@;
        proof {
            lemma_count_split_k(pre, target as int, TreeState::Alive);
            lemma_count_zero(pre, TreeState::Burned);
            lemma_count_partition(pre);
        }
        crate::rng::shuffle_trees(rng, &mut self.data);
        proof {
            lemma_count_state_multiset(pre, TreeState::Alive);
            lemma_count_state_multiset(self.data@, TreeState::Alive);
            lemma_count_state_multiset(pre, TreeState::Burned);
            lemma_count_state_multiset(self.data@, TreeState::Burned);
            lemma_count_state_multiset(pre, TreeState::Empty);
            lemma_count_state_multiset(self.data@, TreeState::Empty);
        }
    }

    /// Independent-probability seeding: walks the cells in row-major
    /// order and, at each cell, draws a sample below the number of cells
    /// left; the cell becomes alive when the sample falls below the
    /// quota still owed. This is sampling without replacement: a full
    /// walk always plants exactly the target number of trees, in place,
    /// with no shuffle pass.
    pub fn create_alive_trees_sampled(&mut self, percent: usize, rng: &mut rand::rngs::StdRng)
        requires
            old(self).wf(),
            old(self).unburned(),
            percent <= 100,
            forall|j: int| 0 <= j < old(self).data@.len() ==> old(self).data@[j] == TreeState::Empty,
            100 * old(self).total() + 99 <= usize::MAX,
        ensures
            final(self).wf(),
            final(self).unburned(),
            final(self).size == old(self).size,
            final(self).alive == alive_target(percent as int, old(self).total()),
            count_state(final(self).data@, TreeState::Alive) == alive_target(
                percent as int,
                old(self).total(),
            ),
            count_state(final(self).data@, TreeState::Empty) == old(self).total() - alive_target(
                percent as int,
                old(self).total(),
            ),
    {
        let total = self.size.0 * self.size.1;
        proof {
            assert((percent as int) * (total as int) <= 100 * (total as int)) by (nonlinear_arith)
                requires
                    percent as int <= 100,
                    total as int >= 0,
            ;
        }
        let target = (percent * total + 99) / 100;
        proof {
            lemma_alive_target_bounds(percent as int, self.total());
        }
        let ghost orig = *self;
        let mut quota: usize = target;
        let mut i: usize = 0;
        while i < total
            invariant
                self.size == orig.size,
                self.burned == orig.burned,
                self.alive == orig.alive,
                self.trees_last_burned_positions == orig.trees_last_burned_positions,
                self.data@.len() == orig.data@.len(),
                self.data@.len() == total,
                target == alive_target(percent as int, orig.total()),
                target <= total,
                i <= total,
                quota <= total - i,
                count_state(self.data@.take(i as int), TreeState::Alive) + quota == target,
                forall|j: int|
                    0 <= j < i ==> self.data@[j] == TreeState::Alive || self.data@[j]
                        == TreeState::Empty,
                forall|j: int| i <= j < self.data@.len() ==> self.data@[j] == TreeState::Empty,
            decreases total - i,
        {
            let remaining = total - i;
            let r = crate::rng::random_below(rng, remaining);
            let ghost before = self.data@;
            if r < quota {
                self.data[i] = TreeState::Alive;
                quota = quota - 1;
                proof {
                    assert(self.data@.take(i as int) =~= before.take(i as int));
                }
            }
            proof {
                lemma_count_take_step(self.data@, i as int, TreeState::Alive);
            }
            i += 1;
        }
        self.alive = target;
        proof {
            assert(self.data@.take(total as int) =~= self.data@);
            lemma_count_zero(self.data@, TreeState::Burned);
            lemma_count_partition(self.data@);
        }
    }

    /// The number of living trees currently on the grid.
    pub fn count_alive(&self) -> (n: usize)
        requires
            self.wf(),
        ensures
            n == count_state(self.data@, TreeState::Alive),
    {
        let len = self.data.len();
        let mut n: usize = 0;
        let mut i: usize = 0;
        while i < len
            invariant
                len == self.data@.len(),
                i <= len,
                n == count_state(self.data@.take(i as int), TreeState::Alive),
                n <= i,
            decreases len - i,
        {
            proof {
                lemma_count_take_step(self.data@, i as int, TreeState::Alive);
            }
            if self.data[i] == TreeState::Alive {
                n = n + 1;
            }
            i = i + 1;
        }
        proof {
            assert(self.data@.take(len as int) =~= self.data@);
        }
        n
    }

    /// The index of the cell holding the `k`-th living tree, counting
    /// through the row-major order.
    fn find_kth_alive(&self, k: usize) -> (j: usize)
        requires
            self.wf(),
            k < count_state(self.data@, TreeState::Alive),
        ensures
            j < self.data@.len(),
            self.data@[j as int] == TreeState::Alive,
            count_state(self.data@.take(j as int), TreeState::Alive) == k,
    {
        let len = self.data.len();
        let mut j: usize = 0;
        let mut seen: usize = 0;
        while j < len
            invariant
                len == self.data@.len(),
                j <= len,
                seen == count_state(self.data@.take(j as int), TreeState::Alive),
                seen <= k,
                k < count_state(self.data@, TreeState::Alive),
            decreases len - j,
        {
            proof {
                lemma_count_take_step(self.data@, j as int, TreeState::Alive);
            }
            if self.data[j] == TreeState::Alive {
                if seen == k {
                    return j;
                }
                seen = seen + 1;
            }
            j = j + 1;
        }
        proof {
            assert(self.data@.take(len as int) =~= self.data@);
            assert(false);
        }
        0
    }

    /// Turns the living tree at `(row, col)` into a burning one, counts
    /// it, and makes it the whole frontier. Reports `NotAlive` and
    /// leaves the grid untouched when the cell holds no living tree.
    pub fn ignite_at(&mut self, row: usize, col: usize) -> (r: Result<(), IgniteError>)
        requires
            old(self).wf(),
            row < old(self).size.0,
            col < old(self).size.1,
        ensures
            final(self).wf(),
            final(self).size == old(self).size,
            final(self).alive == old(self).alive,
            r is Ok <==> old(self).cell((row, col)) == TreeState::Alive,
            r is Err ==> *final(self) == *old(self) && r == Err::<(), IgniteError>(IgniteError::NotAlive),
            r is Ok ==> final(self).data@ == old(self).data@.update(
                old(self).index_of((row, col)),
                TreeState::Burned,
            ) && final(self).burned == old(self).burned + 1 && final(self).frontier() == seq![
                (row, col),
            ],
            r is Ok && old(self).burned == 0 ==> final(self).settled(),
    {
        let i = self.get_index(row, col);
        if self.data[i] == TreeState::Alive {
            proof {
                lemma_count_update(self.data@, i as int, TreeState::Burned, TreeState::Burned);
                lemma_count_le_len(
                    self.data@.update(i as int, TreeState::Burned),
                    TreeState::Burned,
                );
            }
            self.data[i] = TreeState::Burned;
            self.burned = self.burned + 1;
            let mut front: Vec<(usize, usize)> = Vec::new();
            front.push((row, col));
            self.trees_last_burned_positions = front;
            proof {
                if old(self).burned == 0 {
                    assert forall|p: (usize, usize), q: (usize, usize)|
                        self.in_bounds_at(p) && self.in_bounds_at(q) && adjacent(p, q)
                            && self.cell(p) == TreeState::Burned && self.cell(q)
                            == TreeState::Alive implies self.frontier().contains(p) by {
                        if p == (row, col) {
                            assert(self.frontier()[0] == p);
                        } else {
                            lemma_grid_index_bounds(
                                p.0 as int,
                                p.1 as int,
                                self.rows(),
                                self.cols(),
                            );
                            if old(self).index_of(p) == i as int {
                                lemma_grid_index_injective(
                                    p.0 as int,
                                    p.1 as int,
                                    row as int,
                                    col as int,
                                    self.cols(),
                                );
                            }
                            assert(old(self).cell(p) == TreeState::Burned);
                            lemma_count_pos(
                                old(self).data@,
                                old(self).index_of(p),
                                TreeState::Burned,
                            );
                            assert(false);
                        }
                    }
                }
            }
            Ok(())
        } else {
            Err(IgniteError::NotAlive)
        }
    }

    /// Picks one living tree uniformly at random, ignites it, and makes
    /// it the whole frontier. Reports `EmptyForest`, leaving the grid
    /// untouched, when no living tree exists: sampling on such a grid
    /// would never terminate.
    pub fn fire_random_tree(&mut self, rng: &mut rand::rngs::StdRng) -> (r: Result<
        (),
        IgniteError,
    >)
        requires
            old(self).wf(),
        ensures
            final(self).wf(),
            final(self).size == old(self).size,
            final(self).alive == old(self).alive,
            r is Ok <==> count_state(old(self).data@, TreeState::Alive) >= 1,
            r is Err ==> *final(self) == *old(self) && r == Err::<(), IgniteError>(IgniteError::EmptyForest),
            r is Ok ==> exists|p: (usize, usize)|
                old(self).in_bounds_at(p) && old(self).cell(p) == TreeState::Alive
                    && final(self).data@ == old(self).data@.update(
                    old(self).index_of(p),
                    TreeState::Burned,
                ) && final(self).frontier() == seq![p] && final(self).burned == old(self).burned
                    + 1,
            r is Ok && old(self).burned == 0 ==> final(self).settled(),
    {
        let n = self.count_alive();
        if n == 0 {
            return Err(IgniteError::EmptyForest);
        }
        let k = crate::rng::random_below(rng, n);
        let j = self.find_kth_alive(k);
        let cols = self.size.1;
        let row = j / cols;
        let col = j % cols;
        proof {
            vstd::arithmetic::div_mod::lemma_fundamental_div_mod(j as int, cols as int);
            vstd::arithmetic::div_mod::lemma_mod_division_less_than_divisor(j as int, cols as int);
            assert(self.rows() * self.cols() == self.cols() * self.rows()) by (nonlinear_arith);
            vstd::arithmetic::div_mod::lemma_multiply_divide_lt(j as int, cols as int, self.rows());
            vstd::arithmetic::mul::lemma_mul_is_commutative(row as int, cols as int);
            assert(self.index_of((row, col)) == j as int);
        }
        let ghost pre = *self;
        let res = self.ignite_at(row, col);
        proof {
            assert(pre.in_bounds_at((row, col)) && pre.cell((row, col)) == TreeState::Alive);
        }
        res
    }

    /// Burns the living tree at `(nr, nc)`, if there is one, during a
    /// propagation step: the cell joins `next`, the frontier being built
    /// for the following step. `orig` is the grid as the step found it.
    fn burn_neighbor(
        &mut self,
        nr: usize,
        nc: usize,
        next: &mut Vec<(usize, usize)>,
        Ghost(orig): Ghost<Forest>,
    )
        requires
            old(self).wf(),
            orig.wf(),
            old(self).size == orig.size,
            old(self).alive == orig.alive,
            old(self).trees_last_burned_positions == orig.trees_last_burned_positions,
            old(self).data@.len() == orig.data@.len(),
            nr < old(self).size.0,
            nc < old(self).size.1,
            old(self).burned == orig.burned + old(next)@.len(),
            forall|p: (usize, usize)| #![auto]
                orig.in_bounds_at(p) && old(self).cell(p) != orig.cell(p) ==> orig.cell(p)
                    == TreeState::Alive && old(self).cell(p) == TreeState::Burned,
            forall|q: (usize, usize)| #![auto]
                old(next)@.contains(q) ==> orig.in_bounds_at(q) && orig.cell(q) == TreeState::Alive
                    && old(self).cell(q) == TreeState::Burned,
            forall|p: (usize, usize)| #![auto]
                orig.in_bounds_at(p) ==> (old(self).cell(p) != orig.cell(p) <==> old(next)@.contains(p)),
            forall|k1: int, k2: int|
                0 <= k1 < k2 < old(next)@.len() ==> old(next)@[k1] != old(next)@[k2],
        ensures
            final(self).wf(),
            final(self).size == orig.size,
            final(self).alive == orig.alive,
            final(self).trees_last_burned_positions == orig.trees_last_burned_positions,
            final(self).data@.len() == orig.data@.len(),
            final(self).burned == orig.burned + final(next)@.len(),
            final(self).cell((nr, nc)) != TreeState::Alive,
            old(self).cell((nr, nc)) != TreeState::Alive ==> *final(self) == *old(self) && *final(next) == *old(next),
            forall|p: (usize, usize)| #![auto]
                orig.in_bounds_at(p) && p != (nr, nc) ==> final(self).cell(p) == old(self).cell(p),
            forall|p: (usize, usize)| #![auto]
                orig.in_bounds_at(p) && final(self).cell(p) != orig.cell(p) ==> orig.cell(p)
                    == TreeState::Alive && final(self).cell(p) == TreeState::Burned,
            forall|q: (usize, usize)| #![auto]
                final(next)@.contains(q) ==> orig.in_bounds_at(q) && orig.cell(q)
                    == TreeState::Alive && final(self).cell(q) == TreeState::Burned,
            forall|p: (usize, usize)| #![auto]
                orig.in_bounds_at(p) ==> (final(self).cell(p) != orig.cell(p) <==> final(next)@.contains(p)),
            forall|k1: int, k2: int|
                0 <= k1 < k2 < final(next)@.len() ==> final(next)@[k1] != final(next)@[k2],
            final(next)@ == old(next)@ || final(next)@ == old(next)@.push((nr, nc)),
            forall|p: (usize, usize)| #![auto]
                orig.in_bounds_at(p) && old(self).cell(p) == TreeState::Burned ==> final(self).cell(p) == TreeState::Burned,
            orig.cell((nr, nc)) == TreeState::Alive ==> final(self).cell((nr, nc))
                == TreeState::Burned,
    {
        let idx = self.get_index(nr, nc);
        if self.data[idx] == TreeState::Alive {
            let ghost before = *self;
            let ghost before_next = next@;
            proof {
                assert(before == *old(self));
                assert(before_next == old(next)@);
                assert(before.cell((nr, nc)) == TreeState::Alive);
                assert(orig.in_bounds_at((nr, nc)));
                assert(old(self).cell((nr, nc)) == before.cell((nr, nc)));
                if before_next.contains((nr, nc)) {
                    assert(old(next)@.contains((nr, nc)));
                    assert(before.cell((nr, nc)) == TreeState::Burned);
                }
                assert(!before_next.contains((nr, nc)));
                lemma_count_update(self.data@, idx as int, TreeState::Burned, TreeState::Burned);
                lemma_count_le_len(
                    self.data@.update(idx as int, TreeState::Burned),
                    TreeState::Burned,
                );
            }
            self.data[idx] = TreeState::Burned;
            self.burned = self.burned + 1;
            next.push((nr, nc));
            proof {
                assert forall|p: (usize, usize)|
                    orig.in_bounds_at(p) && p != (nr, nc) implies self.cell(p) == before.cell(
                    p,
                ) by {
                    lemma_grid_index_bounds(p.0 as int, p.1 as int, orig.rows(), orig.cols());
                    if orig.index_of(p) == idx as int {
                        lemma_grid_index_injective(
                            p.0 as int,
                            p.1 as int,
                            nr as int,
                            nc as int,
                            orig.cols(),
                        );
                    }
                }
                assert(self.cell((nr, nc)) == TreeState::Burned);
                assert(next@ == before_next.push((nr, nc)));
                assert forall|q: (usize, usize)| #[trigger] next@.contains(q) implies
                    orig.in_bounds_at(q) && orig.cell(q) == TreeState::Alive && self.cell(q)
                    == TreeState::Burned by {
                    vstd::seq_lib::lemma_seq_contains_after_push(before_next, (nr, nc), q);
                }
                assert forall|p: (usize, usize)| orig.in_bounds_at(p) implies (self.cell(p)
                    != orig.cell(p) <==> next@.contains(p)) by {
                    vstd::seq_lib::lemma_seq_contains_after_push(before_next, (nr, nc), p);
                }
                assert forall|k1: int, k2: int|
                    0 <= k1 < k2 < next@.len() implies next@[k1] != next@[k2] by {
                    if k2 == next@.len() - 1 && next@[k1] == (nr, nc) {
                        assert(before_next[k1] == (nr, nc));
                        assert(before_next.contains((nr, nc)));
                    }
                }
            }
        }
    }

    /// One discrete step of fire spread. Every living tree orthogonally
    /// adjacent to the current frontier catches fire and is counted, and
    /// exactly the cells that just caught fire form the new frontier.
    /// Cells the frontier does not touch keep their state: the fire
    /// neither wraps around an edge nor jumps more than one ring.
    pub fn spread_fire(&mut self)
        requires
            old(self).wf(),
        ensures
            final(self).wf(),
            final(self).size == old(self).size,
            final(self).alive == old(self).alive,
            forall|p: (usize, usize)| #![auto]
                old(self).in_bounds_at(p) ==> final(self).cell(p) == (if old(self).cell(p)
                    == TreeState::Alive && adjacent_to_seq(old(self).frontier(), p) {
                    TreeState::Burned
                } else {
                    old(self).cell(p)
                }),
            forall|p: (usize, usize)| #![auto]
                final(self).frontier().contains(p) <==> (old(self).in_bounds_at(p) && old(self).cell(p) == TreeState::Alive && adjacent_to_seq(old(self).frontier(), p)),
            final(self).burned == old(self).burned + final(self).frontier().len(),
            old(self).settled() ==> final(self).settled(),
    {
        let ghost orig = *self;
        let ghost f = orig.frontier();
        let rows = self.size.0;
        let cols = self.size.1;
        let mut next_positions: Vec<(usize, usize)> = Vec::new();
        let frontier_len = self.trees_last_burned_positions.len();
        let mut i: usize = 0;
        while i < frontier_len
            invariant
                self.wf(),
                orig.wf(),
                rows == orig.size.0,
                cols == orig.size.1,
                self.size == orig.size,
                self.alive == orig.alive,
                self.trees_last_burned_positions == orig.trees_last_burned_positions,
                f == orig.frontier(),
                frontier_len == f.len(),
                i <= frontier_len,
                self.data@.len() == orig.data@.len(),
                self.burned == orig.burned + next_positions@.len(),
                forall|p: (usize, usize)| #![auto]
                    orig.in_bounds_at(p) && self.cell(p) != orig.cell(p) ==> orig.cell(p)
                        == TreeState::Alive && self.cell(p) == TreeState::Burned
                        && adjacent_to_prefix(f, i as int, p),
                forall|p: (usize, usize)| #![auto]
                    orig.in_bounds_at(p) && orig.cell(p) == TreeState::Alive && adjacent_to_prefix(
                        f,
                        i as int,
                        p,
                    ) ==> self.cell(p) == TreeState::Burned,
                forall|q: (usize, usize)| #![auto]
                    next_positions@.contains(q) ==> orig.in_bounds_at(q) && orig.cell(q)
                        == TreeState::Alive && self.cell(q) == TreeState::Burned,
                forall|p: (usize, usize)| #![auto]
                    orig.in_bounds_at(p) ==> (self.cell(p) != orig.cell(p)
                        <==> next_positions@.contains(p)),
                forall|k1: int, k2: int|
                    0 <= k1 < k2 < next_positions@.len() ==> next_positions@[k1]
                        != next_positions@[k2],
            decreases frontier_len - i,
        {
            let pos = self.trees_last_burned_positions[i];
            let row = pos.0;
            let col = pos.1;
            let ghost s0 = *self;
            proof {
                assert(f[i as int] == pos);
                assert(orig.in_bounds_at(pos));
            }
            if row > 0 {
                self.burn_neighbor(row - 1, col, &mut next_positions, Ghost(orig));
            }
            let ghost s1 = *self;
            if row + 1 < rows {
                self.burn_neighbor(row + 1, col, &mut next_positions, Ghost(orig));
            }
            let ghost s2 = *self;
            if col > 0 {
                self.burn_neighbor(row, col - 1, &mut next_positions, Ghost(orig));
            }
            let ghost s3 = *self;
            if col + 1 < cols {
                self.burn_neighbor(row, col + 1, &mut next_positions, Ghost(orig));
            }
            proof {
                assert forall|p2: (usize, usize)|
                    orig.in_bounds_at(p2) && self.cell(p2) != orig.cell(p2)
                        implies adjacent_to_prefix(f, i as int + 1, p2) by {
                    if s0.cell(p2) != orig.cell(p2) {
                        let k = choose|k: int|
                            0 <= k < i as int && i as int <= f.len() && adjacent(f[k], p2);
                        assert(0 <= k < i as int + 1 && adjacent(f[k], p2));
                    } else {
                        assert(adjacent(f[i as int], p2)) by {
                            if row > 0 && p2 == ((row - 1) as usize, col) {
                                assert(adjacent(pos, p2));
                            } else if row + 1 < rows && p2 == ((row + 1) as usize, col) {
                                assert(adjacent(pos, p2));
                            } else if col > 0 && p2 == (row, (col - 1) as usize) {
                                assert(adjacent(pos, p2));
                            } else if col + 1 < cols && p2 == (row, (col + 1) as usize) {
                                assert(adjacent(pos, p2));
                            } else {
                                assert(s1.cell(p2) == s0.cell(p2));
                                assert(s2.cell(p2) == s1.cell(p2));
                                assert(s3.cell(p2) == s2.cell(p2));
                                assert(self.cell(p2) == s3.cell(p2));
                                assert(false);
                            }
                        }
                    }
                }
                assert forall|p2: (usize, usize)|
                    orig.in_bounds_at(p2) && orig.cell(p2) == TreeState::Alive
                        && adjacent_to_prefix(f, i as int + 1, p2) implies self.cell(p2)
                        == TreeState::Burned by {
                    let k = choose|k: int|
                        0 <= k < i as int + 1 && i as int + 1 <= f.len() && adjacent(f[k], p2);
                    if k < i as int {
                        assert(adjacent_to_prefix(f, i as int, p2));
                        assert(s0.cell(p2) == TreeState::Burned);
                        assert(s1.cell(p2) == TreeState::Burned);
                        assert(s2.cell(p2) == TreeState::Burned);
                        assert(s3.cell(p2) == TreeState::Burned);
                        assert(self.cell(p2) == TreeState::Burned);
                    } else {
                        assert(adjacent(pos, p2));
                        if p2.1 == col + 1 {
                            assert(self.cell(p2) == TreeState::Burned);
                        } else if p2.1 + 1 == col as int {
                            assert(s3.cell(p2) == TreeState::Burned);
                            assert(self.cell(p2) == TreeState::Burned);
                        } else if p2.0 == row + 1 {
                            assert(s2.cell(p2) == TreeState::Burned);
                            assert(s3.cell(p2) == TreeState::Burned);
                            assert(self.cell(p2) == TreeState::Burned);
                        } else {
                            assert(p2.0 + 1 == row as int);
                            assert(s1.cell(p2) == TreeState::Burned);
                            assert(s2.cell(p2) == TreeState::Burned);
                            assert(s3.cell(p2) == TreeState::Burned);
                            assert(self.cell(p2) == TreeState::Burned);
                        }
                    }
                }
            }
            i = i + 1;
        }
        let ghost np = next_positions@;
        proof {
            assert forall|k: int| 0 <= k < np.len() implies orig.in_bounds_at(#[trigger] np[k])
                && self.cell(np[k]) == TreeState::Burned by {
                let q = np[k];
                assert(next_positions@[k] == q);
                assert(next_positions@.contains(q));
                assert(orig.in_bounds_at(q) && orig.cell(q) == TreeState::Alive && self.cell(q)
                    == TreeState::Burned);
            }
        }
        let ghost before_swap = *self;
        self.trees_last_burned_positions = next_positions;
        proof {
            assert(self.data@ == before_swap.data@);
            assert(self.size == before_swap.size);
            assert(self.frontier() == np);
            assert(forall|p2: (usize, usize)| #![auto] self.cell(p2) == before_swap.cell(p2));
            assert(i as int == f.len());
            assert forall|p2: (usize, usize)| #![auto]
                orig.in_bounds_at(p2) implies self.cell(p2) == (if orig.cell(p2)
                    == TreeState::Alive && adjacent_to_seq(f, p2) {
                    TreeState::Burned
                } else {
                    orig.cell(p2)
                }) by {
                if orig.cell(p2) == TreeState::Alive && adjacent_to_seq(f, p2) {
                    assert(adjacent_to_prefix(f, i as int, p2));
                    assert(before_swap.cell(p2) == TreeState::Burned);
                } else {
                    if before_swap.cell(p2) != orig.cell(p2) {
                        assert(adjacent_to_prefix(f, i as int, p2));
                        assert(adjacent_to_seq(f, p2));
                        assert(false);
                    }
                }
            }
            assert forall|p2: (usize, usize)| #![auto]
                self.frontier().contains(p2) <==> (orig.in_bounds_at(p2) && orig.cell(p2)
                    == TreeState::Alive && adjacent_to_seq(f, p2)) by {
                if np.contains(p2) {
                    assert(before_swap.cell(p2) != orig.cell(p2));
                    assert(adjacent_to_prefix(f, i as int, p2));
                }
                if orig.in_bounds_at(p2) && orig.cell(p2) == TreeState::Alive && adjacent_to_seq(
                    f,
                    p2,
                ) {
                    assert(adjacent_to_prefix(f, i as int, p2));
                    assert(before_swap.cell(p2) == TreeState::Burned);
                    assert(before_swap.cell(p2) != orig.cell(p2));
                    assert(np.contains(p2));
                }
            }
            assert forall|k: int| 0 <= k < np.len() implies self.in_bounds_at(
                #[trigger] np[k],
            ) && self.cell(np[k]) == TreeState::Burned by {
                assert(orig.in_bounds_at(np[k]) && before_swap.cell(np[k]) == TreeState::Burned);
            }
            if orig.settled() {
                assert forall|p: (usize, usize), q: (usize, usize)|
                    self.in_bounds_at(p) && self.in_bounds_at(q) && adjacent(p, q) && self.cell(p)
                        == TreeState::Burned && self.cell(q) == TreeState::Alive
                        implies self.frontier().contains(p) by {
                    assert(self.cell(q) == before_swap.cell(q));
                    assert(orig.cell(q) == TreeState::Alive && !adjacent_to_seq(f, q));
                    if !(orig.cell(p) == TreeState::Alive && adjacent_to_seq(f, p)) {
                        assert(before_swap.cell(p) == orig.cell(p));
                        assert(orig.cell(p) == TreeState::Burned);
                        if f.contains(p) {
                            let k = choose|k: int| 0 <= k < f.len() && f[k] == p;
                            assert(adjacent(f[k], q));
                            assert(adjacent_to_seq(f, q));
                        }
                        assert(false);
                    }
                }
            }
        }
    }
}

impl Forest {
    /// Drives the fire to exhaustion: repeats `spread_fire` until the
    /// frontier is empty, and reports how many steps that took. The
    /// fire always dies out, after at most one step more than the
    /// number of living trees it found, because every step that leaves
    /// a frontier behind has burned at least one more tree.
    pub fn propagate(&mut self) -> (steps: usize)
        requires
            old(self).wf(),
            old(self).total() < usize::MAX,
        ensures
            final(self).wf(),
            final(self).size == old(self).size,
            final(self).alive == old(self).alive,
            final(self).frontier().len() == 0,
            final(self).burned >= old(self).burned,
            final(self).burned <= old(self).burned + count_state(
                old(self).data@,
                TreeState::Alive,
            ),
            steps <= count_state(old(self).data@, TreeState::Alive) + 1,
            forall|p: (usize, usize)| #![auto]
                old(self).in_bounds_at(p) && old(self).cell(p) == TreeState::Burned ==> final(self).cell(p) == TreeState::Burned,
            forall|p: (usize, usize)| #![auto]
                old(self).in_bounds_at(p) && old(self).cell(p) == TreeState::Empty ==> final(self).cell(p) == TreeState::Empty,
            forall|p: (usize, usize)| #![auto]
                old(self).in_bounds_at(p) && final(self).cell(p) == TreeState::Alive ==> old(self).cell(p) == TreeState::Alive,
            forall|p: (usize, usize)| #![auto]
                old(self).in_bounds_at(p) && final(self).cell(p) == TreeState::Burned ==> old(self).cell(p) == TreeState::Burned || old(self).cell(p) == TreeState::Alive,
            forall|p: (usize, usize)| #![auto]
                old(self).in_bounds_at(p) && old(self).cell(p) == TreeState::Alive ==> final(self).cell(p) == TreeState::Alive || final(self).cell(p) == TreeState::Burned,
            forall|p: (usize, usize)| #![auto]
                old(self).in_bounds_at(p) && final(self).cell(p) != old(self).cell(p) ==> old(self).cell(p) == TreeState::Alive && final(self).cell(p) == TreeState::Burned
                    && fire_reaches(*old(self), p),
            old(self).settled() ==> final(self).settled(),
            old(self).settled() ==> forall|p: (usize, usize), q: (usize, usize)|
                final(self).in_bounds_at(p) && final(self).in_bounds_at(q) && #[trigger] adjacent(
                    p,
                    q,
                ) && final(self).cell(p) == TreeState::Burned ==> final(self).cell(q)
                    != TreeState::Alive,
    {
        let ghost entry = *self;
        let mut steps: usize = 0;
        while self.trees_last_burned_positions.len() > 0
            invariant
                self.wf(),
                entry.wf(),
                self.size == entry.size,
                self.alive == entry.alive,
                self.data@.len() == entry.data@.len(),
                self.data@.len() < usize::MAX,
                self.burned >= entry.burned,
                steps + entry.burned <= self.burned + 1,
                self.trees_last_burned_positions@.len() > 0 ==> steps + entry.burned
                    <= self.burned,
                forall|p: (usize, usize)| #![auto]
                    entry.in_bounds_at(p) && entry.cell(p) == TreeState::Burned ==> self.cell(p)
                        == TreeState::Burned,
                forall|p: (usize, usize)| #![auto]
                    entry.in_bounds_at(p) && entry.cell(p) == TreeState::Empty ==> self.cell(p)
                        == TreeState::Empty,
                forall|p: (usize, usize)| #![auto]
                    entry.in_bounds_at(p) && self.cell(p) == TreeState::Alive ==> entry.cell(p)
                        == TreeState::Alive,
                forall|p: (usize, usize)| #![auto]
                    entry.in_bounds_at(p) && self.cell(p) == TreeState::Burned ==> entry.cell(p)
                        == TreeState::Burned || entry.cell(p) == TreeState::Alive,
                forall|p: (usize, usize)| #![auto]
                    entry.in_bounds_at(p) && entry.cell(p) == TreeState::Alive ==> self.cell(p)
                        == TreeState::Alive || self.cell(p) == TreeState::Burned,
                forall|p: (usize, usize)| #![auto]
                    entry.in_bounds_at(p) && self.cell(p) != entry.cell(p) ==> entry.cell(p)
                        == TreeState::Alive && self.cell(p) == TreeState::Burned && fire_reaches(
                        entry,
                        p,
                    ),
                forall|k: int|
                    0 <= k < self.frontier().len() ==> entry.frontier().contains(
                        #[trigger] self.frontier()[k],
                    ) || fire_reaches(entry, self.frontier()[k]),
                entry.settled() ==> self.settled(),
            decreases self.data@.len() - self.burned, self.trees_last_burned_positions@.len(),
        {
            proof {
                lemma_count_le_len(self.data@, TreeState::Burned);
            }
            let ghost before = *self;
            self.spread_fire();
            steps = steps + 1;
            proof {
                lemma_count_le_len(self.data@, TreeState::Burned);
                assert forall|p: (usize, usize)|
                    entry.in_bounds_at(p) && self.cell(p) != entry.cell(p) implies entry.cell(p)
                    == TreeState::Alive && self.cell(p) == TreeState::Burned && fire_reaches(
                    entry,
                    p,
                ) by {
                    if before.cell(p) == entry.cell(p) {
                        // the cell changed in this very step, so it was a
                        // living tree beside the step's frontier
                        assert(before.cell(p) == TreeState::Alive);
                        assert(adjacent_to_seq(before.frontier(), p));
                        let k = choose|k: int|
                            0 <= k < before.frontier().len() && before.frontier().len() as int
                                <= before.frontier().len() && adjacent(
                                #[trigger] before.frontier()[k],
                                p,
                            );
                        let c = before.frontier()[k];
                        assert(entry.cell(p) == TreeState::Alive);
                        if entry.frontier().contains(c) {
                            let kc = choose|kc: int|
                                0 <= kc < entry.frontier().len() && entry.frontier()[kc] == c;
                            assert(adjacent(#[trigger] entry.frontier()[kc], p));
                            assert(adjacent_to_prefix(
                                entry.frontier(),
                                entry.frontier().len() as int,
                                p,
                            ));
                            lemma_fire_reaches_base(entry, p);
                        } else {
                            assert(fire_reaches(entry, c));
                            lemma_fire_reaches_step(entry, c, p);
                        }
                        assert(fire_reaches(entry, p));
                    }
                }
                assert forall|k: int| 0 <= k < self.frontier().len() implies entry.frontier(
                ).contains(#[trigger] self.frontier()[k]) || fire_reaches(
                    entry,
                    self.frontier()[k],
                ) by {
                    let p = self.frontier()[k];
                    assert(self.frontier().contains(p));
                    assert(before.cell(p) == TreeState::Alive && self.cell(p)
                        == TreeState::Burned);
                }
            }
        }
        proof {
            lemma_burned_count_bound(entry, *self);
        }
        steps
    }
}

/// Why an ignition request did not set anything on fire.
#[derive(Clone, Copy, Debug, PartialEq, Eq, Structural)]
pub enum IgniteError {
    /// The addressed cell holds no living tree.
    NotAlive,
    /// The grid holds no living tree anywhere.
    EmptyForest,
}

} // verus!
