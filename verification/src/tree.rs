use vstd::prelude::*;

verus! {

/// The state of one cell of the forest grid.
///
/// A cell either holds no tree, a living tree, or a tree that has caught
/// fire. Burning and burned trees are a single terminal state: once a tree
/// has caught fire it never changes again.
#[derive(Clone, Copy, Debug, PartialEq, Eq, Structural)]
pub enum TreeState {
    Empty,
    Burned,
    Alive,
}

/// One cell of a read-only snapshot of the forest, as handed to a renderer.
#[derive(Clone, Copy, Debug)]
pub struct Tree {
    pub state: TreeState,
}

} // verus!
