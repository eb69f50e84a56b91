use vstd::prelude::*;
use std::cmp::Ordering;

verus! {

/// The four canonical fields shared by flat records and assembled trees.
pub trait TreeNodeTrait: Sized {
    spec fn spec_id(&self) -> Seq<char>;

    spec fn spec_parent_id(&self) -> Seq<char>;

    spec fn spec_name(&self) -> Seq<char>;

    spec fn spec_weight(&self) -> u32;

    /// `self` and `other` agree on every field besides the four canonical ones.
    spec fn same_rest(&self, other: &Self) -> bool;

    fn set_id(&mut self, id: String) -> (r: &mut Self)
        ensures
            r.spec_id() == id@,
            r.spec_parent_id() == old(self).spec_parent_id(),
            r.spec_name() == old(self).spec_name(),
            r.spec_weight() == old(self).spec_weight(),
            r.same_rest(&*old(self)),
            *final(self) == *final(r),
    ;

    fn get_id(&self) -> (r: String)
        ensures
            r@ == self.spec_id(),
    ;

    fn set_parent_id(&mut self, parent_id: String) -> (r: &mut Self)
        ensures
            r.spec_id() == old(self).spec_id(),
            r.spec_parent_id() == parent_id@,
            r.spec_name() == old(self).spec_name(),
            r.spec_weight() == old(self).spec_weight(),
            r.same_rest(&*old(self)),
            *final(self) == *final(r),
    ;

    fn get_parent_id(&self) -> (r: String)
        ensures
            r@ == self.spec_parent_id(),
    ;

    fn set_name(&mut self, name: String) -> (r: &mut Self)
        ensures
            r.spec_id() == old(self).spec_id(),
            r.spec_parent_id() == old(self).spec_parent_id(),
            r.spec_name() == name@,
            r.spec_weight() == old(self).spec_weight(),
            r.same_rest(&*old(self)),
            *final(self) == *final(r),
    ;

    fn get_name(&self) -> (r: String)
        ensures
            r@ == self.spec_name(),
    ;

    fn set_weight(&mut self, weight: u32) -> (r: &mut Self)
        ensures
            r.spec_id() == old(self).spec_id(),
            r.spec_parent_id() == old(self).spec_parent_id(),
            r.spec_name() == old(self).spec_name(),
            r.spec_weight() == weight,
            r.same_rest(&*old(self)),
            *final(self) == *final(r),
    ;

    fn get_weight(&self) -> (r: u32)
        ensures
            r == self.spec_weight(),
    ;

    /// Orders two nodes by weight.
    fn cmp(&self, other: &Self) -> (r: Ordering)
        ensures
            (r == Ordering::Less) == (self.spec_weight() < other.spec_weight()),
            (r == Ordering::Equal) == (self.spec_weight() == other.spec_weight()),
            (r == Ordering::Greater) == (self.spec_weight() > other.spec_weight()),
    {
        let a = self.get_weight();
        let b = other.get_weight();
        if a < b {
            Ordering::Less
        } else if a == b {
            Ordering::Equal
        } else {
            Ordering::Greater
        }
    }
}

} // verus!
