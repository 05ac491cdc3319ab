//! Plain records of the graph data the visualization feeds on: named
//! concepts and the relations between them.

use vstd::prelude::*;

verus! {

/// A named graph node, as delivered by the data source.
pub struct Concept {
    pub id: usize,
    pub name: String,
}

/// A directed edge between two concepts, by their ids.
pub struct Relation {
    pub id: usize,
    pub a: usize,
    pub b: usize,
}

impl Relation {
    /// Whether the relation touches the given concept.
    pub fn involves(&self, concept: usize) -> (r: bool)
        ensures
            r == (self.a == concept || self.b == concept),
    {
        self.a == concept || self.b == concept
    }
}

} // verus!
