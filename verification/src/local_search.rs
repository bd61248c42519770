use vstd::prelude::*;

verus! {

/// The local searches that improve a tour over a graph of type `Graph`:
/// each returns a tour that costs no more than the one it is called on.
pub trait LocalSearch<Graph>: Sized {
    /// Exchanges the node at `start` with others while that lowers the cost.
    fn swap(&self, graph: &Graph, start: usize) -> Self;

    /// Reverses a stretch of the tour where that lowers the cost.
    fn two_opt(&self, graph: &Graph) -> Self;

    /// Moves the node at `start` to other places while that lowers the cost.
    fn shift(&self, graph: &Graph, start: usize) -> Self;

    /// Moves stretches of up to three nodes while that lowers the cost.
    fn or_opt(&self, graph: &Graph) -> Self;
}

} // verus!
