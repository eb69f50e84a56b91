use vstd::prelude::*;

pub mod extra;
pub mod tree_node_config;
pub mod tree_node_trait;
pub mod tree;
pub mod tree_node;
pub mod parser;
pub mod tree_builder;

verus! {

/// Sum of two sizes.
pub fn add(left: usize, right: usize) -> (r: usize)
    requires
        left + right <= usize::MAX,
    ensures
        r == left + right,
{
    left + right
}

} // verus!
