use vstd::prelude::*;
use crate::extra::extra_map;
use crate::parser::node_parser_trait::NodeParserTrait;
use crate::tree::Tree;
use crate::tree_node::TreeNode;

verus! {

/// The verbatim converter: copies the four canonical fields and merges the extra
/// attributes.
pub struct DefaultNodeParser;

/// `after` is `before` with the canonical fields of `from` and its extra
/// attributes merged in.
pub open spec fn copies_fields<T>(from: TreeNode<T>, before: Tree<T>, after: Tree<T>) -> bool {
    &&& after.id@ == from.id@
    &&& after.parent_id@ == from.parent_id@
    &&& after.name@ == from.name@
    &&& after.weight == from.weight
    &&& after.extra_view() == extra_map(before.extra@ + from.extra@)
    &&& after.node_config == before.node_config
    &&& after.parent == before.parent
    &&& after.children == before.children
}

impl<T> NodeParserTrait<T> for DefaultNodeParser {
    open spec fn parses(&self, from: TreeNode<T>, before: Tree<T>, after: Tree<T>) -> bool {
        copies_fields(from, before, after)
    }

    fn parse(&self, from: TreeNode<T>, to: &mut Tree<T>) {
        let TreeNode { id, name, parent_id, weight, extra, children: _ } = from;
        to.id = id;
        to.parent_id = parent_id;
        to.name = name;
        to.weight = weight;
        to.set_extra(extra);
    }
}

/// Converting a record with the default converter and reading the four fields
/// back gives the record's own values.
pub proof fn lemma_default_round_trip<T>(
    p: DefaultNodeParser,
    from: TreeNode<T>,
    before: Tree<T>,
    after: Tree<T>,
)
    requires
        p.parses(from, before, after),
    ensures
        after.id@ == from.id@,
        after.name@ == from.name@,
        after.parent_id@ == from.parent_id@,
        after.weight == from.weight,
{
}

} // verus!
