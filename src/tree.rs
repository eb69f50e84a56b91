use vstd::prelude::*;
use crate::extra::{extra_map, put_entry};
use crate::tree_node_config::TreeNodeConfig;
use crate::tree_node_trait::TreeNodeTrait;

verus! {

/// An assembled node: the canonical fields, extra attributes, the configuration
/// it is presented under, and the children it owns.
pub struct Tree<T> {
    pub id: String,
    pub name: String,
    pub parent_id: String,
    pub weight: u32,
    pub extra: Vec<(String, T)>,
    pub node_config: TreeNodeConfig,
    /// Id of the node this one hangs under, once it is linked; never owning.
    pub parent: Option<String>,
    pub children: Vec<Tree<T>>,
}

impl<T> Tree<T> {
    pub open spec fn extra_view(&self) -> Map<Seq<char>, T> {
        extra_map(self.extra@)
    }

    /// An empty node under the given configuration, or the default one.
    pub fn new(config: Option<TreeNodeConfig>) -> (r: Self)
        ensures
            r.id@ == Seq::<char>::empty(),
            r.name@ == Seq::<char>::empty(),
            r.parent_id@ == Seq::<char>::empty(),
            r.weight == 0,
            r.extra@.len() == 0,
            r.parent.is_none(),
            r.children@.len() == 0,
            config.is_some() ==> r.node_config == config.unwrap(),
            config.is_none() ==> r.node_config@ == crate::tree_node_config::default_config_view(),
    {
        let node_config = match config {
            Some(c) => c,
            None => TreeNodeConfig::default(),
        };
        Tree {
            id: String::new(),
            name: String::new(),
            parent_id: String::new(),
            weight: 0,
            extra: Vec::new(),
            node_config,
            parent: None,
            children: Vec::new(),
        }
    }

    pub fn get_config(&self) -> (r: &TreeNodeConfig)
        ensures
            *r == self.node_config,
    {
        &self.node_config
    }

    /// Records every entry of `extra`, in order; later ones win.
    pub fn set_extra(&mut self, extra: Vec<(String, T)>) -> (r: &mut Self)
        ensures
            r.extra_view() == extra_map(old(self).extra@ + extra@),
            r.id == old(self).id,
            r.name == old(self).name,
            r.parent_id == old(self).parent_id,
            r.weight == old(self).weight,
            r.node_config == old(self).node_config,
            r.parent == old(self).parent,
            r.children == old(self).children,
            *final(self) == *final(r),
    {
        let mut extra = extra;
        let ghost given = extra@;
        let mut rest: Vec<(String, T)> = Vec::new();
        // Take the entries from the back, then record them from the front.
        while extra.len() > 0
            invariant
                given == extra@ + rest@.reverse(),
            decreases extra.len(),
        {
            let ghost before = rest@;
            let e = extra.pop().unwrap();
            rest.push(e);
            proof {
                assert(rest@.reverse() =~= seq![e] + before.reverse());
                assert(given =~= extra@ + rest@.reverse());
            }
        }
        assert(given =~= rest@.reverse());
        while rest.len() > 0
            invariant
                self.id == old(self).id,
                self.name == old(self).name,
                self.parent_id == old(self).parent_id,
                self.weight == old(self).weight,
                self.node_config == old(self).node_config,
                self.parent == old(self).parent,
                self.children == old(self).children,
                extra_map(self.extra@ + rest@.reverse()) == extra_map(old(self).extra@ + given),
            decreases rest.len(),
        {
            let ghost before = rest@;
            let ghost old_extra = self.extra@;
            let (k, v) = rest.pop().unwrap();
            proof {
                assert(before =~= rest@.push((k, v)));
                assert(before.reverse() =~= seq![(k, v)] + rest@.reverse());
                lemma_extra_map_push_front(self.extra@, k, v, rest@.reverse());
            }
            put_entry(&mut self.extra, k, v);
            assert(self.extra@ + rest@.reverse() =~= old_extra + before.reverse());
        }
        assert(self.extra@ + rest@.reverse() =~= self.extra@);
        self
    }

    pub fn put_extra(&mut self, key: String, value: T) -> (r: &mut Self)
        ensures
            r.extra_view() == old(self).extra_view().insert(key@, value),
            r.id == old(self).id,
            r.name == old(self).name,
            r.parent_id == old(self).parent_id,
            r.weight == old(self).weight,
            r.node_config == old(self).node_config,
            r.parent == old(self).parent,
            r.children == old(self).children,
            *final(self) == *final(r),
    {
        put_entry(&mut self.extra, key, value);
        self
    }

    pub fn add_child(&mut self, child: Tree<T>) -> (r: &mut Self)
        ensures
            r.children@ == old(self).children@.push(child),
            r.id == old(self).id,
            r.name == old(self).name,
            r.parent_id == old(self).parent_id,
            r.weight == old(self).weight,
            r.extra == old(self).extra,
            r.node_config == old(self).node_config,
            r.parent == old(self).parent,
            *final(self) == *final(r),
    {
        self.children.push(child);
        self
    }

    pub fn set_children(&mut self, children: Vec<Tree<T>>) -> (r: &mut Self)
        ensures
            r.children == children,
            r.id == old(self).id,
            r.name == old(self).name,
            r.parent_id == old(self).parent_id,
            r.weight == old(self).weight,
            r.extra == old(self).extra,
            r.node_config == old(self).node_config,
            r.parent == old(self).parent,
            *final(self) == *final(r),
    {
        self.children = children;
        self
    }
}

/// Recording `(k, v)` and then `rest` gives the map of recording `k, v` as part of
/// one list.
proof fn lemma_extra_map_push_front<T>(
    a: Seq<(String, T)>,
    k: String,
    v: T,
    rest: Seq<(String, T)>,
)
    ensures
        extra_map(a.push((k, v)) + rest) == extra_map(a + (seq![(k, v)] + rest)),
{
    assert(a.push((k, v)) + rest =~= a + (seq![(k, v)] + rest));
}

impl<T> TreeNodeTrait for Tree<T> {
    open spec fn spec_id(&self) -> Seq<char> {
        self.id@
    }

    open spec fn spec_parent_id(&self) -> Seq<char> {
        self.parent_id@
    }

    open spec fn spec_name(&self) -> Seq<char> {
        self.name@
    }

    open spec fn spec_weight(&self) -> u32 {
        self.weight
    }

    open spec fn same_rest(&self, other: &Self) -> bool {
        &&& self.extra == other.extra
        &&& self.node_config == other.node_config
        &&& self.parent == other.parent
        &&& self.children == other.children
    }

    fn set_id(&mut self, id: String) -> (r: &mut Self) {
        self.id = id;
        self
    }

    fn get_id(&self) -> (r: String) {
        self.id.clone()
    }

    fn set_parent_id(&mut self, parent_id: String) -> (r: &mut Self) {
        self.parent_id = parent_id;
        self
    }

    fn get_parent_id(&self) -> (r: String) {
        self.parent_id.clone()
    }

    fn set_name(&mut self, name: String) -> (r: &mut Self) {
        self.name = name;
        self
    }

    fn get_name(&self) -> (r: String) {
        self.name.clone()
    }

    fn set_weight(&mut self, weight: u32) -> (r: &mut Self) {
        self.weight = weight;
        self
    }

    fn get_weight(&self) -> (r: u32) {
        self.weight
    }
}

} // verus!
