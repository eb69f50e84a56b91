use vstd::prelude::*;
use crate::extra::{extra_map, put_entry};
use crate::parser::default_node_parser::DefaultNodeParser;
use crate::parser::node_parser_trait::NodeParserTrait;
use crate::tree::Tree;
use crate::tree_builder::{
    assembled, collect_forest, converted_from, distinct, forest_size, fresh_node, insert_all,
    insert_node, into_slots, lemma_count_all, pool_ids, pool_order, slots_exact, slots_match, stable, faithful, forest_ids, ids_multiset, lemma_slot_ids_all, placed_above, unique_ids,
};
use crate::tree_node_config::default_config_view;
use crate::tree_node_trait::TreeNodeTrait;

verus! {

/// A flat input record. `children` holds ids of records noted as its children;
/// it owns no other record.
pub struct TreeNode<T> {
    pub id: String,
    pub name: String,
    pub parent_id: String,
    pub weight: u32,
    pub extra: Vec<(String, T)>,
    pub children: Vec<String>,
}

impl<T> TreeNode<T> {
    pub open spec fn children_view(&self) -> Seq<Seq<char>> {
        self.children@.map_values(|c: String| c@)
    }

    pub open spec fn extra_view(&self) -> Map<Seq<char>, T> {
        extra_map(self.extra@)
    }

    pub fn new(id: String, name: String, parent_id: String, weight: u32) -> (r: TreeNode<T>)
        ensures
            r.id == id,
            r.name == name,
            r.parent_id == parent_id,
            r.weight == weight,
            r.extra@.len() == 0,
            r.children@.len() == 0,
    {
        TreeNode { id, name, parent_id, weight, extra: Vec::new(), children: Vec::new() }
    }

    pub fn put_extra(&mut self, key: String, value: T)
        ensures
            final(self).extra_view() == old(self).extra_view().insert(key@, value),
            final(self).id == old(self).id,
            final(self).name == old(self).name,
            final(self).parent_id == old(self).parent_id,
            final(self).weight == old(self).weight,
            final(self).children == old(self).children,
    {
        put_entry(&mut self.extra, key, value);
    }

    /// Notes `child_id` as a child of this record.
    pub fn add_child(&mut self, child_id: String)
        ensures
            final(self).children_view() == old(self).children_view().push(child_id@),
            final(self).id == old(self).id,
            final(self).name == old(self).name,
            final(self).parent_id == old(self).parent_id,
            final(self).weight == old(self).weight,
            final(self).extra == old(self).extra,
    {
        self.children.push(child_id);
        assert(final(self).children_view() =~= old(self).children_view().push(child_id@));
    }

    /// Assembles a batch of records into a forest: each record becomes a node
    /// (a later record with an id replaces an earlier one), every node is linked
    /// under the node its parent id names, and the top level holds what could not
    /// be linked. Child lists are in ascending weight, equal weights in the order
    /// the ids first came; a cycle of parent ids is cut, so no node is its own
    /// descendant and every node stands exactly once.
    pub fn build_from_list(list: Vec<TreeNode<T>>) -> (r: Vec<Tree<T>>)
        ensures
            exists|conv: Seq<Tree<T>>|
                #![trigger pool_ids(conv)]
                {
                    let pool = insert_all(Seq::empty(), conv);
                    let d = (list@.len() + 1) as nat;
                    &&& conv.len() == list@.len()
                    &&& forall|i: int|
                        0 <= i < conv.len() ==> converted_from(
                            &DefaultNodeParser,
                            list@[i],
                            default_config_view(),
                            #[trigger] conv[i],
                        )
                    &&& pool_ids(conv) == pool_ids(pool)
                    &&& unique_ids(pool)
                    &&& forest_size(r@, d) == pool.len()
                    &&& forest_ids(r@, d) == ids_multiset(pool_order(pool))
                    &&& forall|k: int| 0 <= k < r@.len() ==> assembled(#[trigger] r@[k], d, pool_ids(pool))
                    &&& forall|k: int| 0 <= k < r@.len() ==> stable(#[trigger] r@[k], d, pool_order(pool))
                    &&& forall|k: int| 0 <= k < r@.len() ==> faithful(#[trigger] r@[k], d, pool)
                    &&& list@.len() > 0 ==> forall|j: int, k: int|
                        0 <= j < k < r@.len() ==> !placed_above(#[trigger] r@[j], d, (#[trigger] r@[k]).parent_id@)
                },
    {
        let ghost records = list@;
        let n = list.len();
        let mut rest = list;
        let mut pool: Vec<Tree<T>> = Vec::new();
        let ghost mut conv: Seq<Tree<T>> = Seq::empty();
        while rest.len() > 0
            invariant
                n == records.len(),
                conv.len() + rest@.len() == n,
                rest@ == records.subrange(conv.len() as int, n as int),
                forall|i: int|
                    0 <= i < conv.len() ==> converted_from(
                        &DefaultNodeParser,
                        records[i],
                        default_config_view(),
                        #[trigger] conv[i],
                    ),
                pool@ == insert_all(Seq::empty(), conv),
                unique_ids(pool@),
                pool_ids(pool@) == pool_ids(conv),
            decreases rest.len(),
        {
            let ghost k = conv.len() as int;
            let item = rest.remove(0);
            assert(item == records[k]);
            assert(rest@ =~= records.subrange(k + 1, n as int));
            let mut tree: Tree<T> = Tree::new(None);
            let ghost f = tree;
            DefaultNodeParser.parse(item, &mut tree);
            assert(fresh_node(f, default_config_view()));
            let ghost t = tree;
            let ghost pool_before = pool@;
            let ghost conv_before = conv;
            proof {
                conv = conv.push(t);
                assert(conv.drop_last() =~= conv_before);
                assert(converted_from(&DefaultNodeParser, records[k], default_config_view(), conv[k]));
            }
            insert_node(&mut pool, tree);
            proof {
                assert(pool_ids(conv) =~= pool_ids(conv_before).insert(t.id@)) by {
                    assert forall|s: Seq<char>| pool_ids(conv).contains(s) implies pool_ids(conv_before).insert(t.id@).contains(s) by {
                        let j = choose|j: int| 0 <= j < conv.len() && conv[j].id@ == s;
                        if j < conv_before.len() {
                            assert(conv_before[j].id@ == s);
                        }
                    }
                    assert forall|s: Seq<char>| pool_ids(conv_before).insert(t.id@).contains(s) implies pool_ids(conv).contains(s) by {
                        if s == t.id@ {
                            assert(conv[k].id@ == s);
                        } else {
                            let j = choose|j: int| 0 <= j < conv_before.len() && conv_before[j].id@ == s;
                            assert(conv[j].id@ == s);
                        }
                    }
                }
            }
        }
        let ghost ids = pool_ids(pool@);
        let ghost order = pool_order(pool@);
        assert(distinct(order)) by {
            assert forall|i: int, j: int| 0 <= i < j < order.len() implies order[i] != order[j] by {
                assert(pool@[i].id@ != pool@[j].id@);
            }
        }
        let ghost orig = pool@;
        let mut slots = into_slots(pool);
        assert forall|j: int| 0 <= j < slots@.len() && (#[trigger] slots@[j]) is Some implies ids.contains(slots@[j].unwrap().id@) by {
            assert(orig[j].id@ == slots@[j].unwrap().id@);
        }
        assert(slots_match(slots@, order));
        let ghost src = orig;
        assert(slots_exact(slots@, src));
        proof {
            lemma_count_all(slots@);
            lemma_slot_ids_all(slots@, orig);
        }
        let forest = collect_forest(&mut slots, n, Ghost(ids), Ghost(order), Ghost(src));
        assert(pool_ids(conv) == pool_ids(insert_all(Seq::empty(), conv)));
        forest
    }
}

impl<T> TreeNodeTrait for TreeNode<T> {
    open spec fn spec_id(&self) -> Seq<char> {
        self.id@
    }

    open spec fn spec_parent_id(&self) -> Seq<char> {
        self.parent_id@
    }

    open spec fn spec_name(&self) -> Seq<char> {
        self.name@
    }

    open spec fn spec_weight(&self) -> u32 {
        self.weight
    }

    open spec fn same_rest(&self, other: &Self) -> bool {
        &&& self.extra == other.extra
        &&& self.children == other.children
    }

    fn set_id(&mut self, id: String) -> (r: &mut Self) {
        self.id = id;
        self
    }

    fn get_id(&self) -> (r: String) {
        self.id.clone()
    }

    fn set_parent_id(&mut self, parent_id: String) -> (r: &mut Self) {
        self.parent_id = parent_id;
        self
    }

    fn get_parent_id(&self) -> (r: String) {
        self.parent_id.clone()
    }

    fn set_name(&mut self, name: String) -> (r: &mut Self) {
        self.name = name;
        self
    }

    fn get_name(&self) -> (r: String) {
        self.name.clone()
    }

    fn set_weight(&mut self, weight: u32) -> (r: &mut Self) {
        self.weight = weight;
        self
    }

    fn get_weight(&self) -> (r: u32) {
        self.weight
    }
}

} // verus!
