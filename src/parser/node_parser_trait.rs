use vstd::prelude::*;
use crate::tree::Tree;
use crate::tree_node::TreeNode;

verus! {

/// A strategy that turns one flat record into one assembled node.
pub trait NodeParserTrait<T> {
    /// What a call of `parse` on `from` makes of `before`.
    spec fn parses(&self, from: TreeNode<T>, before: Tree<T>, after: Tree<T>) -> bool;

    /// Fills `to` from `from`; touches no other node.
    fn parse(&self, from: TreeNode<T>, to: &mut Tree<T>)
        ensures
            self.parses(from, *old(to), *final(to)),
    ;
}

} // verus!
