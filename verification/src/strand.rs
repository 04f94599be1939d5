//! A strand: the nodes and edges that one source file yields.
use std::path::PathBuf;
use vstd::prelude::*;

use crate::graph::{Edge, Node};

verus! {

#[verifier::external_type_specification]
#[verifier::external_body]
pub struct ExPathBuf(PathBuf);

/// The lineage found in one source: nodes and edges, with the path they
/// came from.
#[derive(Debug)]
pub struct Strand {
    pub source_path: PathBuf,
    pub nodes: Vec<Node>,
    pub edges: Vec<Edge>,
}

impl Strand {
    /// An empty strand for `source_path`.
    pub fn new(source_path: PathBuf) -> (r: Self)
        ensures
            r.source_path == source_path,
            r.nodes@ == Seq::<Node>::empty(),
            r.edges@ == Seq::<Edge>::empty(),
    {
        Strand { source_path, nodes: Vec::new(), edges: Vec::new() }
    }
}

} // verus!
