use vstd::prelude::*;
use vstd::std_specs::cmp::PartialEqSpecImpl;

verus! {

/// A node: its id, and where it is drawn. No algorithm reads the coordinates.
#[derive(Debug, Clone, Copy)]
pub struct Node {
    pub id: usize,
    pub x: i64,
    pub y: i64,
}

impl Node {
    pub fn new(id: usize, x: i64, y: i64) -> (r: Node)
        ensures
            r == (Node { id, x, y }),
    {
        Node { id, x, y }
    }

    /// The node `id` at the origin.
    pub fn default(id: usize) -> (r: Node)
        ensures
            r == (Node { id, x: 0, y: 0 }),
    {
        Node { id, x: 0, y: 0 }
    }

    pub fn id(&self) -> (r: usize)
        ensures
            r == self.id,
    {
        self.id
    }

    pub fn x(&self) -> (r: i64)
        ensures
            r == self.x,
    {
        self.x
    }

    pub fn y(&self) -> (r: i64)
        ensures
            r == self.y,
    {
        self.y
    }
}

/// Two nodes are the same node when they have the same id.
impl PartialEq for Node {
    fn eq(&self, other: &Self) -> (r: bool) {
        self.id == other.id
    }
}

impl PartialEqSpecImpl for Node {
    open spec fn obeys_eq_spec() -> bool {
        true
    }

    open spec fn eq_spec(&self, other: &Self) -> bool {
        self.id == other.id
    }
}

impl Eq for Node {

}

} // verus!
