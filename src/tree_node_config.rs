use vstd::prelude::*;

verus! {

pub const DEFAULT_DEEP: u32 = 0;

/// Field names under which a tree is presented, and the depth bound of assembly
/// (0 means unbounded).
#[derive(Debug, Clone)]
pub struct TreeNodeConfig {
    pub id_key: String,
    pub name_key: String,
    pub parent_id_key: String,
    pub weight_key: String,
    pub children_key: String,
    pub deep: u32,
    pub extra_key: String,
}

/// The mathematical content of a configuration.
pub struct ConfigView {
    pub id_key: Seq<char>,
    pub name_key: Seq<char>,
    pub parent_id_key: Seq<char>,
    pub weight_key: Seq<char>,
    pub children_key: Seq<char>,
    pub deep: u32,
    pub extra_key: Seq<char>,
}

impl View for TreeNodeConfig {
    type V = ConfigView;

    open spec fn view(&self) -> ConfigView {
        ConfigView {
            id_key: self.id_key@,
            name_key: self.name_key@,
            parent_id_key: self.parent_id_key@,
            weight_key: self.weight_key@,
            children_key: self.children_key@,
            deep: self.deep,
            extra_key: self.extra_key@,
        }
    }
}

/// The configuration that every tree gets unless told otherwise.
pub open spec fn default_config_view() -> ConfigView {
    ConfigView {
        id_key: "id"@,
        name_key: "name"@,
        parent_id_key: "parent_id"@,
        weight_key: "weight"@,
        children_key: "children"@,
        deep: 0,
        extra_key: "extra"@,
    }
}

impl Default for TreeNodeConfig {
    fn default() -> (r: Self)
        ensures
            r@ == default_config_view(),
    {
        TreeNodeConfig {
            id_key: "id".to_string(),
            name_key: "name".to_string(),
            parent_id_key: "parent_id".to_string(),
            weight_key: "weight".to_string(),
            children_key: "children".to_string(),
            deep: DEFAULT_DEEP,
            extra_key: "extra".to_string(),
        }
    }
}

impl TreeNodeConfig {
    /// A copy with the same key names and depth bound.
    pub fn duplicate(&self) -> (r: Self)
        ensures
            r@ == self@,
    {
        TreeNodeConfig {
            id_key: self.id_key.clone(),
            name_key: self.name_key.clone(),
            parent_id_key: self.parent_id_key.clone(),
            weight_key: self.weight_key.clone(),
            children_key: self.children_key.clone(),
            deep: self.deep,
            extra_key: self.extra_key.clone(),
        }
    }

    pub fn get_id_key(&self) -> (r: String)
        ensures
            r@ == self.id_key@,
    {
        self.id_key.clone()
    }

    pub fn get_name_key(&self) -> (r: String)
        ensures
            r@ == self.name_key@,
    {
        self.name_key.clone()
    }

    pub fn get_parent_id_key(&self) -> (r: String)
        ensures
            r@ == self.parent_id_key@,
    {
        self.parent_id_key.clone()
    }

    pub fn get_weight_key(&self) -> (r: String)
        ensures
            r@ == self.weight_key@,
    {
        self.weight_key.clone()
    }

    pub fn get_children_key(&self) -> (r: String)
        ensures
            r@ == self.children_key@,
    {
        self.children_key.clone()
    }

    pub fn get_deep(&self) -> (r: u32)
        ensures
            r == self.deep,
    {
        self.deep
    }

    pub fn get_extra_key(&self) -> (r: String)
        ensures
            r@ == self.extra_key@,
    {
        self.extra_key.clone()
    }

    pub fn set_deep(&mut self, deep: u32) -> (r: &mut Self)
        ensures
            r@ == (ConfigView { deep, ..old(self)@ }),
            final(self)@ == final(r)@,
    {
        self.deep = deep;
        self
    }

    pub fn set_id_key(&mut self, id_key: String) -> (r: &mut Self)
        ensures
            r@ == (ConfigView { id_key: id_key@, ..old(self)@ }),
            final(self)@ == final(r)@,
    {
        self.id_key = id_key;
        self
    }

    pub fn set_name_key(&mut self, name_key: String) -> (r: &mut Self)
        ensures
            r@ == (ConfigView { name_key: name_key@, ..old(self)@ }),
            final(self)@ == final(r)@,
    {
        self.name_key = name_key;
        self
    }

    pub fn set_parent_id_key(&mut self, parent_id_key: String) -> (r: &mut Self)
        ensures
            r@ == (ConfigView { parent_id_key: parent_id_key@, ..old(self)@ }),
            final(self)@ == final(r)@,
    {
        self.parent_id_key = parent_id_key;
        self
    }

    pub fn set_weight_key(&mut self, weight_key: String) -> (r: &mut Self)
        ensures
            r@ == (ConfigView { weight_key: weight_key@, ..old(self)@ }),
            final(self)@ == final(r)@,
    {
        self.weight_key = weight_key;
        self
    }

    pub fn set_children_key(&mut self, children_key: String) -> (r: &mut Self)
        ensures
            r@ == (ConfigView { children_key: children_key@, ..old(self)@ }),
            final(self)@ == final(r)@,
    {
        self.children_key = children_key;
        self
    }

    pub fn set_extra_key(&mut self, extra_key: String) -> (r: &mut Self)
        ensures
            r@ == (ConfigView { extra_key: extra_key@, ..old(self)@ }),
            final(self)@ == final(r)@,
    {
        self.extra_key = extra_key;
        self
    }
}

/// A configuration made by `default` reports the default key names and no depth
/// bound.
pub proof fn lemma_default_config(c: TreeNodeConfig)
    requires
        c@ == default_config_view(),
    ensures
        c.id_key@ == "id"@,
        c.name_key@ == "name"@,
        c.parent_id_key@ == "parent_id"@,
        c.weight_key@ == "weight"@,
        c.children_key@ == "children"@,
        c.extra_key@ == "extra"@,
        c.deep == 0,
{
}

} // verus!
