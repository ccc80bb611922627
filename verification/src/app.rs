//! The interactive session state: which screen is shown and the forest
//! being simulated, with the operations an event loop invokes between
//! redraws. Rendering itself happens outside the library, against the
//! read-only snapshot this module hands out.

use vstd::prelude::*;
use crate::forest::{Forest, IgniteError, adjacent_to_seq, alive_target, count_state};
use crate::tree::{Tree, TreeState};

verus! {

/// Which screen the interactive session is showing.
#[derive(Clone, Copy, Debug, PartialEq, Eq, Structural)]
pub enum CurrentScreen {
    Main,
    Exiting,
}

/// One interactive session: the screen being shown, the forest being
/// simulated, its dimensions, and the seeding density in percent.
pub struct App {
    pub current_screen: CurrentScreen,
    pub forest: Forest,
    pub size: (usize, usize),
    pub percent: usize,
}

impl App {
    /// The session invariant: a well-formed forest of the recorded
    /// size, a density within range, and room for the percentage
    /// arithmetic.
    pub open spec fn wf(self) -> bool {
        &&& self.forest.wf()
        &&& self.forest.size == self.size
        &&& self.percent <= 100
        &&& 100 * self.forest.total() + 99 <= usize::MAX
    }

    /// A fresh session on an all-empty `rows` by `cols` forest,
    /// showing the main screen, set to seed at `percent`.
    pub fn new(percent: usize, rows: usize, cols: usize) -> (app: App)
        requires
            percent <= 100,
            rows >= 1,
            cols >= 1,
            100 * (rows * cols) + 99 <= usize::MAX,
        ensures
            app.wf(),
            app.current_screen == CurrentScreen::Main,
            app.size == (rows, cols),
            app.percent == percent,
            app.forest.unburned(),
            app.forest.alive == 0,
            forall|j: int|
                0 <= j < app.forest.data@.len() ==> app.forest.data@[j] == TreeState::Empty,
    {
        proof {
            assert(0 <= (rows as int) * (cols as int)) by (nonlinear_arith)
                requires
                    rows >= 1,
                    cols >= 1,
            ;
        }
        App {
            current_screen: CurrentScreen::Main,
            forest: Forest::new(rows, cols),
            size: (rows, cols),
            percent,
        }
    }

    /// Seeds the session's forest at its density with the exact-count
    /// strategy. The forest must still be fresh.
    pub fn create_forest(&mut self, rng: &mut rand::rngs::StdRng)
        requires
            old(self).wf(),
            old(self).forest.unburned(),
            forall|j: int|
                0 <= j < old(self).forest.data@.len() ==> old(self).forest.data@[j]
                    == TreeState::Empty,
        ensures
            final(self).wf(),
            final(self).current_screen == old(self).current_screen,
            final(self).size == old(self).size,
            final(self).percent == old(self).percent,
            final(self).forest.unburned(),
            count_state(final(self).forest.data@, TreeState::Alive) == alive_target(
                old(self).percent as int,
                old(self).forest.total(),
            ),
    {
        let percent = self.percent;
        self.forest.create_alive_trees(percent, rng);
    }

    /// Ignites one living tree of the session's forest, chosen
    /// uniformly at random; reports the error instead when no living
    /// tree exists.
    pub fn fire_random_tree(&mut self, rng: &mut rand::rngs::StdRng) -> (r: Result<
        (),
        IgniteError,
    >)
        requires
            old(self).wf(),
        ensures
            final(self).wf(),
            final(self).current_screen == old(self).current_screen,
            final(self).size == old(self).size,
            final(self).percent == old(self).percent,
            r is Ok <==> count_state(old(self).forest.data@, TreeState::Alive) >= 1,
            r is Err ==> final(self).forest == old(self).forest,
            r is Ok ==> exists|p: (usize, usize)|
                old(self).forest.in_bounds_at(p) && old(self).forest.cell(p) == TreeState::Alive
                    && final(self).forest.data@ == old(self).forest.data@.update(
                    old(self).forest.index_of(p),
                    TreeState::Burned,
                ) && final(self).forest.frontier() == seq![p],
            r is Ok ==> final(self).forest.burned == old(self).forest.burned + 1 && final(self).forest.frontier().len() == 1,
    {
        let ghost pre = self.forest;
        let r = self.forest.fire_random_tree(rng);
        proof {
            if r is Ok {
                let p = choose|p: (usize, usize)|
                    pre.in_bounds_at(p) && pre.cell(p) == TreeState::Alive && self.forest.data@
                        == pre.data@.update(pre.index_of(p), TreeState::Burned)
                        && self.forest.frontier() == seq![p] && self.forest.burned == pre.burned
                        + 1;
                assert(self.forest.frontier().len() == 1);
            }
        }
        r
    }

    /// One step of fire spread across the session's forest: every
    /// living tree orthogonally adjacent to the frontier catches fire,
    /// and exactly those cells form the new frontier.
    pub fn spread_fire(&mut self)
        requires
            old(self).wf(),
        ensures
            final(self).wf(),
            final(self).current_screen == old(self).current_screen,
            final(self).size == old(self).size,
            final(self).percent == old(self).percent,
            forall|p: (usize, usize)| #![auto]
                old(self).forest.in_bounds_at(p) ==> final(self).forest.cell(p) == (if old(
                    self,
                ).forest.cell(p) == TreeState::Alive && adjacent_to_seq(
                    old(self).forest.frontier(),
                    p,
                ) {
                    TreeState::Burned
                } else {
                    old(self).forest.cell(p)
                }),
            forall|p: (usize, usize)| #![auto]
                final(self).forest.frontier().contains(p) <==> (old(self).forest.in_bounds_at(p)
                    && old(self).forest.cell(p) == TreeState::Alive && adjacent_to_seq(
                    old(self).forest.frontier(),
                    p,
                )),
            final(self).forest.burned == old(self).forest.burned + final(self).forest.frontier().len(),
            final(self).forest.burned >= old(self).forest.burned,
            old(self).forest.settled() ==> final(self).forest.settled(),
    {
        self.forest.spread_fire();
    }

    /// A read-only snapshot of the forest as rows of trees, as a
    /// renderer consumes it.
    pub fn snapshot(&self) -> (rows: Vec<Vec<Tree>>)
        requires
            self.wf(),
        ensures
            rows@.len() == self.size.0,
            forall|r: int| 0 <= r < rows@.len() ==> #[trigger] rows@[r]@.len() == self.size.1,
            forall|r: int, c: int| #![auto]
                0 <= r < rows@.len() && 0 <= c < rows@[r]@.len() ==> rows@[r]@[c].state
                    == self.forest.cell((r as usize, c as usize)),
    {
        let mut out: Vec<Vec<Tree>> = Vec::new();
        let mut r: usize = 0;
        while r < self.size.0
            invariant
                self.wf(),
                r <= self.size.0,
                out@.len() == r,
                forall|r2: int| 0 <= r2 < r ==> #[trigger] out@[r2]@.len() == self.size.1,
                forall|r2: int, c2: int| #![auto]
                    0 <= r2 < r && 0 <= c2 < out@[r2]@.len() ==> out@[r2]@[c2].state
                        == self.forest.cell((r2 as usize, c2 as usize)),
            decreases self.size.0 - r,
        {
            let mut line: Vec<Tree> = Vec::new();
            let mut c: usize = 0;
            while c < self.size.1
                invariant
                    self.wf(),
                    r < self.size.0,
                    c <= self.size.1,
                    line@.len() == c,
                    forall|c2: int| #![auto]
                        0 <= c2 < c ==> line@[c2].state == self.forest.cell(
                            (r as usize, c2 as usize),
                        ),
                decreases self.size.1 - c,
            {
                line.push(Tree { state: self.forest.get(r, c) });
                c = c + 1;
            }
            out.push(line);
            r = r + 1;
        }
        out
    }
}

} // verus!
