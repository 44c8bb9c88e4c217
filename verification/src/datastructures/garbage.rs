use crate::datastructures::graph::mutable_graph::MutableGraph;
use vstd::prelude::*;

verus! {

/// Holds the graphs that a search is done with, so that they are dropped together when
/// the holder is cleared.
pub struct Garbage {
    pub trash: Vec<MutableGraph>,
}

impl Garbage {
    pub fn new() -> (r: Garbage)
        ensures
            r.trash@.len() == 0,
    {
        Garbage { trash: Vec::new() }
    }

    pub fn default() -> (r: Garbage)
        ensures
            r.trash@.len() == 0,
    {
        Garbage { trash: Vec::with_capacity(0) }
    }

    pub fn add(&mut self, graph: MutableGraph)
        ensures
            final(self).trash@ == old(self).trash@.push(graph),
    {
        self.trash.push(graph);
    }

    pub fn clear(&mut self)
        ensures
            final(self).trash@.len() == 0,
    {
        self.trash.clear();
    }

    pub fn len(&self) -> (r: usize)
        ensures
            r == self.trash@.len(),
    {
        self.trash.len()
    }
}

} // verus!
