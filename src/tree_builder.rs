use vstd::prelude::*;
use vstd::multiset::Multiset;
use crate::extra::extra_map;
use crate::parser::default_node_parser::DefaultNodeParser;
use crate::parser::node_parser_trait::NodeParserTrait;
use crate::tree::Tree;
use crate::tree_node::TreeNode;
use crate::tree_node_config::{ConfigView, TreeNodeConfig};

verus! {

/// Where a builder stands between batches.
#[derive(Debug, Clone, Copy, PartialEq, Eq)]
pub enum BuildState {
    Empty,
    Populated,
    Built,
}

/// The one way a builder call can be refused.
#[derive(Debug, Clone, Copy, PartialEq, Eq)]
pub enum TreeError {
    /// Records were offered, or a build asked for, after a build and before a reset.
    AlreadyBuilt,
}

/// `t` hangs under a node with id `pid`: its parent id names it and its
/// back-reference points to it.
pub open spec fn hangs_under<T>(t: Tree<T>, pid: Seq<char>) -> bool {
    &&& t.parent_id@ == pid
    &&& t.parent is Some
    &&& t.parent.unwrap()@ == pid
}

/// Children in ascending weight.
pub open spec fn sorted_by_weight<T>(s: Seq<Tree<T>>) -> bool {
    forall|a: int, b: int| 0 <= a < b < s.len() ==> s[a].weight <= s[b].weight
}

/// `t` is an assembled subtree at most `d` levels high whose node ids all lie in
/// `ids`: every child hangs under its parent, and every child list is in
/// ascending weight.
pub open spec fn assembled<T>(t: Tree<T>, d: nat, ids: Set<Seq<char>>) -> bool
    decreases d,
{
    &&& d >= 1
    &&& ids.contains(t.id@)
    &&& sorted_by_weight(t.children@)
    &&& forall|k: int|
        0 <= k < t.children@.len() ==> {
            &&& hangs_under(#[trigger] t.children@[k], t.id@)
            &&& assembled(t.children@[k], (d - 1) as nat, ids)
        }
}

/// `x` is the id of a node of `t` that lies above the last of `d` levels, so that
/// the nodes naming it as parent were looked for.
pub open spec fn placed_above<T>(t: Tree<T>, d: nat, x: Seq<char>) -> bool
    decreases d,
{
    &&& d >= 2
    &&& (t.id@ == x || exists|k: int|
        0 <= k < t.children@.len() && placed_above(#[trigger] t.children@[k], (d - 1) as nat, x))
}

/// `x` is the id of a node of `t` within `d` levels.
pub open spec fn occurs<T>(t: Tree<T>, d: nat, x: Seq<char>) -> bool
    decreases d,
{
    &&& d >= 1
    &&& (t.id@ == x || exists|k: int|
        0 <= k < t.children@.len() && occurs(#[trigger] t.children@[k], (d - 1) as nat, x))
}

/// Every node taken out of a slot between `before` and `after` occurs in `r`.
pub open spec fn taken_into<T>(
    before: Seq<Option<Tree<T>>>,
    after: Seq<Option<Tree<T>>>,
    r: Seq<Tree<T>>,
    d: nat,
) -> bool {
    forall|i: int|
        0 <= i < before.len() && (#[trigger] before[i]) is Some && after[i] is None ==> exists|k: int|
            0 <= k < r.len() && occurs(#[trigger] r[k], d, before[i].unwrap().id@)
}

/// No node left in a slot names as parent a node of `r` placed above `d` levels.
pub open spec fn none_left_under<T>(r: Seq<Tree<T>>, d: nat, slots: Seq<Option<Tree<T>>>) -> bool {
    forall|k: int, i: int|
        0 <= k < r.len() && 0 <= i < slots.len() && (#[trigger] slots[i]) is Some ==> !placed_above(
            #[trigger] r[k],
            d,
            slots[i].unwrap().parent_id@,
        )
}

/// The ids of the nodes in a pool.
pub open spec fn pool_ids<T>(pool: Seq<Tree<T>>) -> Set<Seq<char>> {
    Set::new(|s: Seq<char>| exists|i: int| 0 <= i < pool.len() && pool[i].id@ == s)
}

/// No two nodes of the pool share an id.
pub open spec fn unique_ids<T>(pool: Seq<Tree<T>>) -> bool {
    forall|i: int, j: int| 0 <= i < j < pool.len() ==> (#[trigger] pool[i]).id@ != (#[trigger] pool[j]).id@
}

/// Where the last node of `out` stands in `order`; -1 for none.
pub open spec fn last_pos<T>(out: Seq<Tree<T>>, order: Seq<Seq<char>>) -> int {
    if out.len() > 0 {
        pos_of(order, out.last().id@)
    } else {
        -1
    }
}

/// The pool holds a node whose id is the root's: that node is the root itself.
pub open spec fn has_root_record<T>(pool: Seq<Tree<T>>, root_id: Seq<char>) -> bool {
    exists|i: int| 0 <= i < pool.len() && pool[i].id@ == root_id
}

/// Where that node stands in the pool.
pub open spec fn root_record_pos<T>(pool: Seq<Tree<T>>, root_id: Seq<char>) -> int {
    choose|i: int| 0 <= i < pool.len() && pool[i].id@ == root_id
}

/// `a` and `b` agree on the id, the other canonical fields and the extras.
pub open spec fn same_data<T>(a: Tree<T>, b: Tree<T>) -> bool {
    &&& a.id == b.id
    &&& a.name == b.name
    &&& a.parent_id == b.parent_id
    &&& a.weight == b.weight
    &&& a.extra == b.extra
}

/// Every node of `t` within `d` levels carries the data of a node of `src`.
pub open spec fn faithful<T>(t: Tree<T>, d: nat, src: Seq<Tree<T>>) -> bool
    decreases d,
{
    &&& d >= 1
    &&& exists|i: int| 0 <= i < src.len() && same_data(t, #[trigger] src[i])
    &&& forall|k: int| 0 <= k < t.children@.len() ==> faithful(#[trigger] t.children@[k], (d - 1) as nat, src)
}

/// Each full slot holds, up to its links, the node of `src` at its place.
pub open spec fn slots_exact<T>(slots: Seq<Option<Tree<T>>>, src: Seq<Tree<T>>) -> bool {
    &&& slots.len() == src.len()
    &&& forall|i: int| 0 <= i < slots.len() && (#[trigger] slots[i]) is Some ==> same_data(slots[i].unwrap(), src[i])
}

/// Where `x` stands in `order`.
pub open spec fn pos_of(order: Seq<Seq<char>>, x: Seq<char>) -> int {
    choose|i: int| 0 <= i < order.len() && order[i] == x
}

/// No id comes twice in `order`.
pub open spec fn distinct(order: Seq<Seq<char>>) -> bool {
    forall|i: int, j: int| 0 <= i < j < order.len() ==> order[i] != order[j]
}

/// Among equal weights, nodes stand in the order their ids have in `order`.
pub open spec fn ties_in_order<T>(s: Seq<Tree<T>>, order: Seq<Seq<char>>) -> bool {
    forall|a: int, b: int|
        0 <= a < b < s.len() && s[a].weight == s[b].weight ==> pos_of(order, (#[trigger] s[a]).id@)
            < pos_of(order, (#[trigger] s[b]).id@)
}

/// Every child list of `t`, down to `d` levels, keeps `order` among equal weights.
pub open spec fn stable<T>(t: Tree<T>, d: nat, order: Seq<Seq<char>>) -> bool
    decreases d,
{
    &&& d >= 1
    &&& ties_in_order(t.children@, order)
    &&& forall|k: int| 0 <= k < t.children@.len() ==> stable(#[trigger] t.children@[k], (d - 1) as nat, order)
}

/// The ids of a pool, in pool order.
pub open spec fn pool_order<T>(pool: Seq<Tree<T>>) -> Seq<Seq<char>> {
    pool.map_values(|t: Tree<T>| t.id@)
}

/// Each full slot holds the node whose id stands at its place in `order`.
pub open spec fn slots_match<T>(slots: Seq<Option<Tree<T>>>, order: Seq<Seq<char>>) -> bool {
    &&& slots.len() == order.len()
    &&& forall|i: int| 0 <= i < slots.len() && (#[trigger] slots[i]) is Some ==> slots[i].unwrap().id@ == order[i]
}

proof fn lemma_pos_of(order: Seq<Seq<char>>, i: int)
    requires
        distinct(order),
        0 <= i < order.len(),
    ensures
        pos_of(order, order[i]) == i,
{
    let x = order[i];
    assert(0 <= i < order.len() && order[i] == x);
    let j = pos_of(order, x);
    if j != i {
        if j < i {
            assert(order[j] != order[i]);
        } else {
            assert(order[i] != order[j]);
        }
    }
}

/// Slots only empty out: what is still there is what was there.
pub open spec fn slots_shrunk<T>(before: Seq<Option<Tree<T>>>, after: Seq<Option<Tree<T>>>) -> bool {
    &&& after.len() == before.len()
    &&& forall|i: int| 0 <= i < after.len() && (#[trigger] after[i]) is Some ==> after[i] == before[i]
}

/// Every node still in a slot has its id in `ids`.
pub open spec fn slots_within<T>(slots: Seq<Option<Tree<T>>>, ids: Set<Seq<char>>) -> bool {
    forall|i: int| 0 <= i < slots.len() && (#[trigger] slots[i]) is Some ==> ids.contains(slots[i].unwrap().id@)
}

/// Number of nodes in `t`, counting at most `d` levels.
pub open spec fn tree_size<T>(t: Tree<T>, d: nat) -> nat
    decreases d, 0nat,
{
    if d == 0 {
        1
    } else {
        1 + forest_size(t.children@, (d - 1) as nat)
    }
}

/// Number of nodes in the trees of `s`, counting at most `d` levels in each.
pub open spec fn forest_size<T>(s: Seq<Tree<T>>, d: nat) -> nat
    decreases d, s.len() + 1,
{
    if s.len() == 0 {
        0
    } else {
        forest_size(s.drop_last(), d) + tree_size(s.last(), d)
    }
}

/// The ids of the nodes of `t`, counting at most `d` levels.
pub open spec fn tree_ids<T>(t: Tree<T>, d: nat) -> Multiset<Seq<char>>
    decreases d, 0nat,
{
    if d == 0 {
        Multiset::singleton(t.id@)
    } else {
        forest_ids(t.children@, (d - 1) as nat).insert(t.id@)
    }
}

/// The ids of the nodes of the trees of `s`, counting at most `d` levels in each.
pub open spec fn forest_ids<T>(s: Seq<Tree<T>>, d: nat) -> Multiset<Seq<char>>
    decreases d, s.len() + 1,
{
    if s.len() == 0 {
        Multiset::empty()
    } else {
        forest_ids(s.drop_last(), d).add(tree_ids(s.last(), d))
    }
}

/// The ids of `order`, each as often as it stands there.
pub open spec fn ids_multiset(order: Seq<Seq<char>>) -> Multiset<Seq<char>>
    decreases order.len(),
{
    if order.len() == 0 {
        Multiset::empty()
    } else {
        ids_multiset(order.drop_last()).insert(order.last())
    }
}

/// The ids of the nodes still in slots.
pub open spec fn slot_ids<T>(slots: Seq<Option<Tree<T>>>) -> Multiset<Seq<char>>
    decreases slots.len(),
{
    if slots.len() == 0 {
        Multiset::empty()
    } else if slots.last() is Some {
        slot_ids(slots.drop_last()).insert(slots.last().unwrap().id@)
    } else {
        slot_ids(slots.drop_last())
    }
}

/// Emptying one full slot takes its id out.
proof fn lemma_slot_ids_take<T>(slots: Seq<Option<Tree<T>>>, i: int)
    requires
        0 <= i < slots.len(),
        slots[i] is Some,
    ensures
        slot_ids(slots) == slot_ids(slots.update(i, None)).insert(slots[i].unwrap().id@),
    decreases slots.len(),
{
    let u = slots.update(i, None);
    if i < slots.len() - 1 {
        assert(u.drop_last() =~= slots.drop_last().update(i, None));
        lemma_slot_ids_take(slots.drop_last(), i);
        assert(slot_ids(slots) =~= slot_ids(u).insert(slots[i].unwrap().id@));
    } else {
        assert(u.drop_last() =~= slots.drop_last());
    }
}

/// Slots that are all empty hold no ids.
proof fn lemma_slot_ids_none<T>(slots: Seq<Option<Tree<T>>>)
    requires
        forall|i: int| 0 <= i < slots.len() ==> (#[trigger] slots[i]) is None,
    ensures
        slot_ids(slots) == Multiset::<Seq<char>>::empty(),
    decreases slots.len(),
{
    if slots.len() > 0 {
        lemma_slot_ids_none(slots.drop_last());
    }
}

/// Slots holding every node of a pool hold its ids.
pub(crate) proof fn lemma_slot_ids_all<T>(slots: Seq<Option<Tree<T>>>, pool: Seq<Tree<T>>)
    requires
        slots.len() == pool.len(),
        forall|j: int| 0 <= j < pool.len() ==> (#[trigger] slots[j]) == Some(pool[j]),
    ensures
        slot_ids(slots) == ids_multiset(pool_order(pool)),
    decreases slots.len(),
{
    if slots.len() > 0 {
        let sp = slots.drop_last();
        let pp = pool.drop_last();
        assert forall|j: int| 0 <= j < pp.len() implies (#[trigger] sp[j]) == Some(pp[j]) by {
            assert(slots[j] == Some(pool[j]));
        }
        lemma_slot_ids_all(sp, pp);
        assert(pool_order(pool).drop_last() =~= pool_order(pp));
        assert(slots.last() == Some(pool.last()));
    }
}

/// Number of slots that still hold a node.
pub open spec fn count_some<T>(slots: Seq<Option<Tree<T>>>) -> nat
    decreases slots.len(),
{
    if slots.len() == 0 {
        0
    } else {
        count_some(slots.drop_last()) + if slots.last() is Some { 1nat } else { 0nat }
    }
}

/// Emptying one full slot lowers the count by one.
proof fn lemma_count_take<T>(slots: Seq<Option<Tree<T>>>, i: int)
    requires
        0 <= i < slots.len(),
        slots[i] is Some,
    ensures
        count_some(slots) == count_some(slots.update(i, None)) + 1,
    decreases slots.len(),
{
    let u = slots.update(i, None);
    if i < slots.len() - 1 {
        assert(u.drop_last() =~= slots.drop_last().update(i, None));
        lemma_count_take(slots.drop_last(), i);
    } else {
        assert(u.drop_last() =~= slots.drop_last());
    }
}

/// A row of slots never counts more than its length, and counts nothing only
/// when every slot is empty.
proof fn lemma_count_bound<T>(slots: Seq<Option<Tree<T>>>)
    ensures
        count_some(slots) <= slots.len(),
        count_some(slots) == 0 ==> forall|i: int| 0 <= i < slots.len() ==> (#[trigger] slots[i]) is None,
    decreases slots.len(),
{
    if slots.len() > 0 {
        lemma_count_bound(slots.drop_last());
        assert forall|i: int| 0 <= i < slots.len() && count_some(slots) == 0 implies (#[trigger] slots[i]) is None by {
            if i < slots.len() - 1 {
                assert(slots.drop_last()[i] == slots[i]);
            }
        }
    }
}

/// A row of slots that are all empty counts nothing.
proof fn lemma_count_none<T>(slots: Seq<Option<Tree<T>>>)
    requires
        forall|i: int| 0 <= i < slots.len() ==> (#[trigger] slots[i]) is None,
    ensures
        count_some(slots) == 0,
    decreases slots.len(),
{
    if slots.len() > 0 {
        lemma_count_none(slots.drop_last());
    }
}

/// A row of slots that are all full counts its length.
pub(crate) proof fn lemma_count_all<T>(slots: Seq<Option<Tree<T>>>)
    requires
        forall|i: int| 0 <= i < slots.len() ==> (#[trigger] slots[i]) is Some,
    ensures
        count_some(slots) == slots.len(),
    decreases slots.len(),
{
    if slots.len() > 0 {
        lemma_count_all(slots.drop_last());
    }
}

/// Takes out of `slots`, lightest first and earliest among equals, every node that
/// names `pid` as parent, and gives each the subtree found the same way, at most
/// `fuel` levels deep.
fn take_children<T>(
    slots: &mut Vec<Option<Tree<T>>>,
    pid: &String,
    fuel: usize,
    Ghost(ids): Ghost<Set<Seq<char>>>,
    Ghost(order): Ghost<Seq<Seq<char>>>,
    Ghost(src): Ghost<Seq<Tree<T>>>,
) -> (r: Vec<Tree<T>>)
    requires
        slots_within(old(slots)@, ids),
        slots_match(old(slots)@, order),
        slots_exact(old(slots)@, src),
        distinct(order),
    ensures
        ties_in_order(r@, order),
        forall|k: int| 0 <= k < r@.len() ==> stable(#[trigger] r@[k], fuel as nat, order),
        slots_shrunk(old(slots)@, final(slots)@),
        count_some(old(slots)@) == count_some(final(slots)@) + forest_size(r@, fuel as nat),
        slot_ids(old(slots)@) == slot_ids(final(slots)@).add(forest_ids(r@, fuel as nat)),
        sorted_by_weight(r@),
        fuel == 0 ==> r@.len() == 0,
        fuel > 0 ==> forall|i: int|
            0 <= i < final(slots)@.len() && (#[trigger] final(slots)@[i]) is Some
                ==> final(slots)@[i].unwrap().parent_id@ != pid@,
        none_left_under(r@, fuel as nat, final(slots)@),
        taken_into(old(slots)@, final(slots)@, r@, fuel as nat),
        forall|k: int| 0 <= k < r@.len() ==> faithful(#[trigger] r@[k], fuel as nat, src),
        forall|k: int|
            0 <= k < r@.len() ==> {
                &&& hangs_under(#[trigger] r@[k], pid@)
                &&& assembled(r@[k], fuel as nat, ids)
            },
    decreases fuel,
{
    let mut out: Vec<Tree<T>> = Vec::new();
    if fuel == 0 {
        return out;
    }
    let n = slots.len();
    let mut last: u32 = 0;
    let mut round: usize = 0;
    proof {
        lemma_count_bound(slots@);
    }
    while round < n
        invariant
            fuel > 0,
            count_some(slots@) + round <= n,
            none_left_under(out@, fuel as nat, slots@),
            taken_into(old(slots)@, slots@, out@, fuel as nat),
            forall|k: int| 0 <= k < out@.len() ==> faithful(#[trigger] out@[k], fuel as nat, src),
            count_some(slots@) == 0 ==> forall|i: int| 0 <= i < n ==> (#[trigger] slots@[i]) is None,
            slots@.len() == n,
            slots_match(slots@, order),
            slots_exact(slots@, src),
            distinct(order),
            ties_in_order(out@, order),
            forall|k: int| 0 <= k < out@.len() ==> stable(#[trigger] out@[k], fuel as nat, order),
            forall|k: int|
                0 <= k < out@.len() && (#[trigger] out@[k]).weight == last ==> pos_of(order, out@[k].id@)
                    <= last_pos(out@, order),
            forall|i: int|
                0 <= i < n && (#[trigger] slots@[i]) is Some && slots@[i].unwrap().parent_id@ == pid@
                    && slots@[i].unwrap().weight == last ==> i > last_pos(out@, order),
            slots_shrunk(old(slots)@, slots@),
            count_some(old(slots)@) == count_some(slots@) + forest_size(out@, fuel as nat),
            slot_ids(old(slots)@) == slot_ids(slots@).add(forest_ids(out@, fuel as nat)),
            slots_within(slots@, ids),
            sorted_by_weight(out@),
            out@.len() > 0 ==> out@.last().weight == last,
            forall|i: int|
                0 <= i < n && (#[trigger] slots@[i]) is Some && slots@[i].unwrap().parent_id@ == pid@
                    ==> slots@[i].unwrap().weight >= last,
            forall|k: int|
                0 <= k < out@.len() ==> {
                    &&& hangs_under(#[trigger] out@[k], pid@)
                    &&& assembled(out@[k], fuel as nat, ids)
                },
        ensures
            forall|i: int|
                0 <= i < n && (#[trigger] slots@[i]) is Some ==> slots@[i].unwrap().parent_id@ != pid@,
        decreases n - round,
    {
        // The lightest node left under `pid`; the earliest one among equals.
        let mut best: Option<usize> = None;
        let mut best_w: u32 = 0;
        let mut i: usize = 0;
        while i < n
            invariant
                slots@.len() == n,
                0 <= i <= n,
                best is Some ==> {
                    &&& best.unwrap() < i
                    &&& slots@[best.unwrap() as int] is Some
                    &&& slots@[best.unwrap() as int].unwrap().parent_id@ == pid@
                    &&& slots@[best.unwrap() as int].unwrap().weight == best_w
                },
                forall|j: int|
                    0 <= j < i && (#[trigger] slots@[j]) is Some && slots@[j].unwrap().parent_id@ == pid@
                        ==> best is Some && (best_w < slots@[j].unwrap().weight || (best_w
                        == slots@[j].unwrap().weight && best.unwrap() <= j)),
            decreases n - i,
        {
            match &slots[i] {
                Some(t) => {
                    if t.parent_id == *pid {
                        if best.is_none() || t.weight < best_w {
                            best = Some(i);
                            best_w = t.weight;
                        }
                    }
                },
                None => {},
            }
            i += 1;
        }
        match best {
            None => {
                break;
            },
            Some(b) => {
                let ghost before = slots@;
                let ghost out_before = out@;
                let mut t = slots[b].take().unwrap();
                assert(slots@ == before.update(b as int, None));
                proof {
                    lemma_count_take(before, b as int);
                    lemma_slot_ids_take(before, b as int);
                    lemma_pos_of(order, b as int);
                }
                let ghost slots_mid = slots@;
                let sub = take_children(slots, &t.id, fuel - 1, Ghost(ids), Ghost(order), Ghost(src));
                proof {
                    assert forall|i: int|
                        0 <= i < n && (#[trigger] slots@[i]) is Some && slots@[i].unwrap().parent_id@ == pid@
                            && slots@[i].unwrap().weight == best_w implies i > b by {
                        assert(slots_mid[i] == slots@[i]);
                        assert(before[i] == slots@[i]);
                    }
                }
                assert(same_data(t, src[b as int]));
                t.children = sub;
                t.parent = Some(pid.clone());
                assert(same_data(t, src[b as int]));
                proof {
                    assert forall|k: int, i: int|
                        0 <= k < out@.len() && 0 <= i < slots@.len() && (#[trigger] slots@[i]) is Some
                            implies !placed_above(#[trigger] out@[k], fuel as nat, slots@[i].unwrap().parent_id@) by {
                        assert(slots_mid[i] == slots@[i]);
                        assert(before[i] == slots@[i]);
                    }
                    assert forall|i: int| 0 <= i < slots@.len() && (#[trigger] slots@[i]) is Some
                        implies !placed_above(t, fuel as nat, slots@[i].unwrap().parent_id@) by {
                        let x = slots@[i].unwrap().parent_id@;
                        if fuel >= 2 {
                            assert(t.id@ != x);
                            assert forall|k: int| 0 <= k < t.children@.len() implies !placed_above(
                                #[trigger] t.children@[k],
                                (fuel - 1) as nat,
                                x,
                            ) by {
                                assert(t.children@[k] == sub@[k]);
                            }
                        }
                    }
                }
                assert(assembled(t, fuel as nat, ids));
                last = best_w;
                let ghost sub_size = forest_size(t.children@, (fuel - 1) as nat);
                assert(tree_size(t, fuel as nat) == 1 + sub_size);
                let ghost tg2 = t;
                let ghost slots_end = slots@;
                out.push(t);
                assert(out@.drop_last() == out_before);
                assert forall|i: int|
                    0 <= i < old(slots)@.len() && (#[trigger] old(slots)@[i]) is Some && slots_end[i] is None
                        implies exists|k: int| 0 <= k < out@.len() && occurs(#[trigger] out@[k], fuel as nat, old(slots)@[i].unwrap().id@) by {
                    let x = old(slots)@[i].unwrap().id@;
                    if before[i] is None {
                        let k = choose|k: int| 0 <= k < out_before.len() && occurs(#[trigger] out_before[k], fuel as nat, x);
                        assert(out@[k] == out_before[k]);
                    } else {
                        assert(before[i] == old(slots)@[i]);
                        let last = out@.len() - 1;
                        assert(out@[last] == tg2);
                        if i == b {
                            assert(tg2.id@ == x);
                            assert(occurs(out@[last], fuel as nat, x));
                        } else {
                            assert(slots_mid[i] == before[i]);
                            let k = choose|k: int| 0 <= k < sub@.len() && occurs(#[trigger] sub@[k], (fuel - 1) as nat, x);
                            assert(tg2.children@[k] == sub@[k]);
                            assert(occurs(out@[last], fuel as nat, x));
                        }
                    }
                }
                assert forall|k: int, i: int|
                    0 <= k < out@.len() && 0 <= i < slots@.len() && (#[trigger] slots@[i]) is Some
                        implies !placed_above(#[trigger] out@[k], fuel as nat, slots@[i].unwrap().parent_id@) by {
                    if k < out_before.len() {
                        assert(out@[k] == out_before[k]);
                    } else {
                        assert(out@[k] == tg2);
                    }
                }
                assert(forest_size(out@, fuel as nat) == forest_size(out_before, fuel as nat) + 1 + sub_size);
                assert(tree_ids(tg2, fuel as nat) == forest_ids(sub@, (fuel - 1) as nat).insert(tg2.id@));
                assert(forest_ids(out@, fuel as nat) == forest_ids(out_before, fuel as nat).add(tree_ids(tg2, fuel as nat)));
                assert(slot_ids(old(slots)@) =~= slot_ids(slots@).add(forest_ids(out@, fuel as nat)));
            },
        }
        round += 1;
        proof {
            lemma_count_bound(slots@);
        }
    }
    out
}

/// The pool after putting `t` in: the node with `t`'s id is replaced in place, or
/// `t` goes at the end when there is none.
pub open spec fn insert_spec<T>(pool: Seq<Tree<T>>, t: Tree<T>) -> Seq<Tree<T>> {
    if exists|i: int| 0 <= i < pool.len() && pool[i].id@ == t.id@ {
        pool.update(choose|i: int| 0 <= i < pool.len() && pool[i].id@ == t.id@, t)
    } else {
        pool.push(t)
    }
}

/// The pool after putting in the nodes of `batch` in order: a later node with an
/// id replaces an earlier one.
pub open spec fn insert_all<T>(pool: Seq<Tree<T>>, batch: Seq<Tree<T>>) -> Seq<Tree<T>>
    decreases batch.len(),
{
    if batch.len() == 0 {
        pool
    } else {
        insert_spec(insert_all(pool, batch.drop_last()), batch.last())
    }
}

/// Puts `t` into the pool; a node already there under the same id is replaced
/// in place.
pub(crate) fn insert_node<T>(pool: &mut Vec<Tree<T>>, t: Tree<T>)
    ensures
        unique_ids(old(pool)@) ==> unique_ids(final(pool)@),
        unique_ids(old(pool)@) ==> final(pool)@ == insert_spec(old(pool)@, t),
        pool_ids(final(pool)@) == pool_ids(old(pool)@).insert(t.id@),
        final(pool)@.contains(t),
{
    let n = pool.len();
    let mut i: usize = 0;
    while i < n
        invariant
            pool@ == old(pool)@,
            n == pool@.len(),
            0 <= i <= n,
            forall|j: int| 0 <= j < i ==> (#[trigger] pool@[j]).id@ != t.id@,
        decreases n - i,
    {
        if pool[i].id == t.id {
            let ghost before = pool@;
            assert(before[i as int].id@ == t.id@);
            pool.set(i, t);
            proof {
                assert(pool@[i as int] == t);
                if unique_ids(before) {
                    let c = choose|c: int| 0 <= c < before.len() && before[c].id@ == t.id@;
                    assert(0 <= i < before.len() && before[i as int].id@ == t.id@);
                    if c != i {
                        if c < i {
                            assert(before[c].id@ != before[i as int].id@);
                        } else {
                            assert(before[i as int].id@ != before[c].id@);
                        }
                    }
                    assert(pool@ == before.update(i as int, t));
                }
                assert(pool_ids(pool@) =~= pool_ids(before).insert(t.id@)) by {
                    assert forall|s: Seq<char>| pool_ids(before).insert(t.id@).contains(s) implies pool_ids(pool@).contains(s) by {
                        if s != t.id@ {
                            let j = choose|j: int| 0 <= j < before.len() && before[j].id@ == s;
                            assert(pool@[j].id@ == s);
                        } else {
                            assert(pool@[i as int].id@ == s);
                        }
                    }
                    assert forall|s: Seq<char>| pool_ids(pool@).contains(s) implies pool_ids(before).insert(t.id@).contains(s) by {
                        let j = choose|j: int| 0 <= j < pool@.len() && pool@[j].id@ == s;
                        if j != i {
                            assert(before[j].id@ == s);
                        }
                    }
                }
            }
            return;
        }
        assert(pool@[i as int].id@ != t.id@);
        i += 1;
    }
    let ghost before = pool@;
    pool.push(t);
    proof {
        assert(pool@[n as int] == t);
        assert(pool_ids(pool@) =~= pool_ids(before).insert(t.id@)) by {
            assert forall|s: Seq<char>| pool_ids(before).insert(t.id@).contains(s) implies pool_ids(pool@).contains(s) by {
                if s != t.id@ {
                    let j = choose|j: int| 0 <= j < before.len() && before[j].id@ == s;
                    assert(pool@[j].id@ == s);
                }
            }
            assert forall|s: Seq<char>| pool_ids(pool@).contains(s) implies pool_ids(before).insert(t.id@).contains(s) by {
                let j = choose|j: int| 0 <= j < pool@.len() && pool@[j].id@ == s;
                if j < n {
                    assert(before[j].id@ == s);
                }
            }
        }
    }
}

/// `t` is a node as `Tree::new` makes it under a configuration with view `cfg`.
pub open spec fn fresh_node<T>(t: Tree<T>, cfg: ConfigView) -> bool {
    &&& t.id@.len() == 0
    &&& t.name@.len() == 0
    &&& t.parent_id@.len() == 0
    &&& t.weight == 0
    &&& t.extra@.len() == 0
    &&& t.parent is None
    &&& t.children@.len() == 0
    &&& t.node_config@ == cfg
}

/// `out` is what `p` makes of the record `rec` from a fresh node under `cfg`.
pub open spec fn converted_from<T, P: NodeParserTrait<T>>(
    p: &P,
    rec: TreeNode<T>,
    cfg: ConfigView,
    out: Tree<T>,
) -> bool {
    exists|f: Tree<T>| fresh_node(f, cfg) && p.parses(rec, f, out)
}

/// Assembles flat batches into one tree under a root of the caller's choosing.
pub struct TreeBuilder<T> {
    pub root: Tree<T>,
    /// The id-to-node lookup: every node not yet linked, one per id, in the
    /// order the ids first came.
    pub pool: Vec<Tree<T>>,
    /// Second-class roots left by the last build.
    pub orphans: Vec<Tree<T>>,
    /// Whether a build drops the orphans instead of keeping them.
    pub discard_orphans: bool,
    pub state: BuildState,
}

impl<T> TreeBuilder<T> {
    /// The lookup holds one node per id.
    pub open spec fn wf(&self) -> bool {
        unique_ids(self.pool@)
    }

    pub fn new(root_id: String, tree_config: TreeNodeConfig) -> (r: Self)
        ensures
            r.root.id == root_id,
            r.root.node_config == tree_config,
            r.root.name@.len() == 0,
            r.root.parent_id@.len() == 0,
            r.root.weight == 0,
            r.root.extra@.len() == 0,
            r.root.parent is None,
            r.root.children@.len() == 0,
            r.pool@.len() == 0,
            r.orphans@.len() == 0,
            !r.discard_orphans,
            r.state == BuildState::Empty,
    {
        let mut root = Tree::new(Some(tree_config));
        root.id = root_id;
        TreeBuilder {
            root,
            pool: Vec::new(),
            orphans: Vec::new(),
            discard_orphans: false,
            state: BuildState::Empty,
        }
    }

    pub fn of(root_id: String) -> (r: Self)
        ensures
            r.root.id == root_id,
            r.root.node_config@ == crate::tree_node_config::default_config_view(),
            r.root.name@.len() == 0,
            r.root.parent_id@.len() == 0,
            r.root.weight == 0,
            r.root.extra@.len() == 0,
            r.root.parent is None,
            r.root.children@.len() == 0,
            r.pool@.len() == 0,
            r.orphans@.len() == 0,
            !r.discard_orphans,
            r.state == BuildState::Empty,
    {
        TreeBuilder::new(root_id, TreeNodeConfig::default())
    }

    pub fn set_id(&mut self, id: String) -> (r: &mut Self)
        ensures
            r.root.id == id,
            r.root.parent_id == old(self).root.parent_id,
            r.root.name == old(self).root.name,
            r.root.weight == old(self).root.weight,
            r.root.extra == old(self).root.extra,
            r.root.node_config == old(self).root.node_config,
            r.root.parent == old(self).root.parent,
            r.root.children == old(self).root.children,
            r.pool == old(self).pool,
            r.orphans == old(self).orphans,
            r.discard_orphans == old(self).discard_orphans,
            r.state == old(self).state,
            *final(self) == *final(r),
    {
        self.root.id = id;
        self
    }

    pub fn set_parent_id(&mut self, parent_id: String) -> (r: &mut Self)
        ensures
            r.root.parent_id == parent_id,
            r.root.id == old(self).root.id,
            r.root.name == old(self).root.name,
            r.root.weight == old(self).root.weight,
            r.root.extra == old(self).root.extra,
            r.root.node_config == old(self).root.node_config,
            r.root.parent == old(self).root.parent,
            r.root.children == old(self).root.children,
            r.pool == old(self).pool,
            r.orphans == old(self).orphans,
            r.discard_orphans == old(self).discard_orphans,
            r.state == old(self).state,
            *final(self) == *final(r),
    {
        self.root.parent_id = parent_id;
        self
    }

    pub fn set_name(&mut self, name: String) -> (r: &mut Self)
        ensures
            r.root.name == name,
            r.root.id == old(self).root.id,
            r.root.parent_id == old(self).root.parent_id,
            r.root.weight == old(self).root.weight,
            r.root.extra == old(self).root.extra,
            r.root.node_config == old(self).root.node_config,
            r.root.parent == old(self).root.parent,
            r.root.children == old(self).root.children,
            r.pool == old(self).pool,
            r.orphans == old(self).orphans,
            r.discard_orphans == old(self).discard_orphans,
            r.state == old(self).state,
            *final(self) == *final(r),
    {
        self.root.name = name;
        self
    }

    pub fn set_weight(&mut self, weight: u32) -> (r: &mut Self)
        ensures
            r.root.weight == weight,
            r.root.id == old(self).root.id,
            r.root.parent_id == old(self).root.parent_id,
            r.root.name == old(self).root.name,
            r.root.extra == old(self).root.extra,
            r.root.node_config == old(self).root.node_config,
            r.root.parent == old(self).root.parent,
            r.root.children == old(self).root.children,
            r.pool == old(self).pool,
            r.orphans == old(self).orphans,
            r.discard_orphans == old(self).discard_orphans,
            r.state == old(self).state,
            *final(self) == *final(r),
    {
        self.root.weight = weight;
        self
    }

    pub fn put_extra(&mut self, key: String, value: T) -> (r: &mut Self)
        ensures
            r.root.extra_view() == old(self).root.extra_view().insert(key@, value),
            r.root.id == old(self).root.id,
            r.root.name == old(self).root.name,
            r.root.parent_id == old(self).root.parent_id,
            r.root.weight == old(self).root.weight,
            r.root.node_config == old(self).root.node_config,
            r.root.parent == old(self).root.parent,
            r.root.children == old(self).root.children,
            r.pool == old(self).pool,
            r.orphans == old(self).orphans,
            r.discard_orphans == old(self).discard_orphans,
            r.state == old(self).state,
            *final(self) == *final(r),
    {
        self.root.put_extra(key, value);
        self
    }

    /// Chooses whether the next build keeps its orphans (the default) or drops them.
    pub fn set_discard_orphans(&mut self, discard: bool) -> (r: &mut Self)
        ensures
            r.discard_orphans == discard,
            r.root == old(self).root,
            r.pool == old(self).pool,
            r.orphans == old(self).orphans,
            r.state == old(self).state,
            *final(self) == *final(r),
    {
        self.discard_orphans = discard;
        self
    }

    pub fn get_root(&self) -> (r: &Tree<T>)
        ensures
            *r == self.root,
    {
        &self.root
    }

    pub fn get_orphans(&self) -> (r: &Vec<Tree<T>>)
        ensures
            *r == self.orphans,
    {
        &self.orphans
    }

    /// Refuses when a build has happened since the last reset.
    pub fn check_build(&self) -> (r: Result<(), TreeError>)
        ensures
            r is Err <==> self.state == BuildState::Built,
    {
        match self.state {
            BuildState::Built => Err(TreeError::AlreadyBuilt),
            _ => Ok(()),
        }
    }

    /// Adds nodes to the lookup, keyed by their ids; a later node replaces an
    /// earlier one with the same id. An empty batch changes nothing.
    pub fn add_map(&mut self, map: Vec<Tree<T>>) -> (r: Result<(), TreeError>)
        ensures
            r is Err <==> (map@.len() > 0 && old(self).state == BuildState::Built),
            r is Err || map@.len() == 0 ==> *final(self) == *old(self),
            unique_ids(old(self).pool@) ==> unique_ids(final(self).pool@),
            r is Ok && map@.len() > 0 ==> {
                &&& final(self).state == BuildState::Populated
                &&& unique_ids(old(self).pool@) ==> final(self).pool@ == insert_all(old(self).pool@, map@)
                &&& pool_ids(final(self).pool@) == pool_ids(old(self).pool@) + pool_ids(map@)
                &&& final(self).root == old(self).root
                &&& final(self).orphans == old(self).orphans
                &&& final(self).discard_orphans == old(self).discard_orphans
            },
    {
        if map.len() == 0 {
            return Ok(());
        }
        if let Err(e) = self.check_build() {
            return Err(e);
        }
        let mut rest = map;
        let ghost all = rest@;
        let mut taken: Vec<Tree<T>> = Vec::new();
        // Take the batch apart from the back, then insert it from the front.
        while rest.len() > 0
            invariant
                all == rest@ + taken@.reverse(),
            decreases rest.len(),
        {
            let ghost before = taken@;
            let t = rest.pop().unwrap();
            taken.push(t);
            assert(taken@.reverse() =~= seq![t] + before.reverse());
            assert(all =~= rest@ + taken@.reverse());
        }
        assert(all =~= taken@.reverse());
        assert(all.subrange(0, 0) =~= Seq::<Tree<T>>::empty());
        assert(all.subrange(0, all.len() as int) =~= all);
        while taken.len() > 0
            invariant
                unique_ids(old(self).pool@) ==> unique_ids(self.pool@),
                self.root == old(self).root,
                self.orphans == old(self).orphans,
                self.discard_orphans == old(self).discard_orphans,
                pool_ids(self.pool@) + pool_ids(taken@.reverse()) == pool_ids(old(self).pool@) + pool_ids(all),
                taken@.len() <= all.len(),
                taken@.reverse() == all.subrange(all.len() - taken@.len(), all.len() as int),
                unique_ids(old(self).pool@) ==> self.pool@ == insert_all(
                    old(self).pool@,
                    all.subrange(0, all.len() - taken@.len()),
                ),
            decreases taken.len(),
        {
            let ghost before = taken@;
            let ghost pool_before = self.pool@;
            let t = taken.pop().unwrap();
            let ghost tid = t.id@;
            let ghost tg = t;
            insert_node(&mut self.pool, t);
            proof {
                assert(before =~= taken@.push(tg));
                assert(before.reverse() =~= seq![tg] + taken@.reverse());
                let k = all.len() - before.len();
                let tail = all.subrange(k, all.len() as int);
                assert(tail == seq![tg] + taken@.reverse());
                assert(tail[0] == tg);
                assert(all[k] == tail[0]);
                assert(all.subrange(k + 1, all.len() as int) =~= tail.subrange(1, tail.len() as int));
                assert(tail.subrange(1, tail.len() as int) =~= taken@.reverse());
                assert(all.subrange(0, k + 1).drop_last() =~= all.subrange(0, k));
                assert(all.subrange(0, k + 1).last() == tg);
                let rest_rev = taken@.reverse();
                assert(pool_ids(before.reverse()) =~= pool_ids(rest_rev).insert(tid)) by {
                    assert forall|s: Seq<char>| pool_ids(before.reverse()).contains(s) implies pool_ids(rest_rev).insert(tid).contains(s) by {
                        let j = choose|j: int| 0 <= j < before.reverse().len() && before.reverse()[j].id@ == s;
                        if j > 0 {
                            assert(rest_rev[j - 1].id@ == s);
                        }
                    }
                    assert forall|s: Seq<char>| pool_ids(rest_rev).contains(s) implies pool_ids(before.reverse()).contains(s) by {
                        let j = choose|j: int| 0 <= j < rest_rev.len() && rest_rev[j].id@ == s;
                        assert(before.reverse()[j + 1].id@ == s);
                    }
                    assert(before.reverse()[0].id@ == tid);
                }
                assert(pool_ids(self.pool@) + pool_ids(taken@.reverse()) =~= pool_ids(pool_before) + pool_ids(before.reverse()));
            }
        }
        assert(pool_ids(taken@.reverse()) =~= Set::empty());
        assert(all.subrange(0, all.len() as int) =~= all);
        assert(pool_ids(self.pool@) =~= pool_ids(old(self).pool@) + pool_ids(all));
        self.state = BuildState::Populated;
        Ok(())
    }

    /// Forgets the lookup, the root's children and the orphans, so that a new
    /// batch can come.
    pub fn reset(&mut self) -> (r: &mut Self)
        ensures
            r.pool@.len() == 0,
            r.orphans@.len() == 0,
            r.root.children@.len() == 0,
            r.root.id == old(self).root.id,
            r.root.name == old(self).root.name,
            r.root.parent_id == old(self).root.parent_id,
            r.root.weight == old(self).root.weight,
            r.root.node_config == old(self).root.node_config,
            r.root.extra == old(self).root.extra,
            r.root.parent == old(self).root.parent,
            r.discard_orphans == old(self).discard_orphans,
            r.state == BuildState::Empty,
            *final(self) == *final(r),
    {
        self.pool = Vec::new();
        self.orphans = Vec::new();
        self.root.children = Vec::new();
        self.state = BuildState::Empty;
        self
    }

    /// Converts each record with `node_parser` into a node under the root's
    /// configuration and adds the nodes as `add_map` does.
    pub fn add_node_list<P: NodeParserTrait<T>>(&mut self, node_list: Vec<TreeNode<T>>, node_parser: &P) -> (r: Result<(), TreeError>)
        ensures
            r is Err <==> (node_list@.len() > 0 && old(self).state == BuildState::Built),
            r is Err || node_list@.len() == 0 ==> *final(self) == *old(self),
            unique_ids(old(self).pool@) ==> unique_ids(final(self).pool@),
            r is Ok && node_list@.len() > 0 ==> exists|conv: Seq<Tree<T>>|
                #![trigger pool_ids(conv)]
                {
                    &&& conv.len() == node_list@.len()
                    &&& forall|i: int|
                        0 <= i < conv.len() ==> converted_from(
                            node_parser,
                            node_list@[i],
                            old(self).root.node_config@,
                            #[trigger] conv[i],
                        )
                    &&& unique_ids(old(self).pool@) ==> final(self).pool@ == insert_all(old(self).pool@, conv)
                    &&& pool_ids(final(self).pool@) == pool_ids(old(self).pool@) + pool_ids(conv)
                },
            r is Ok && node_list@.len() > 0 ==> {
                &&& final(self).state == BuildState::Populated
                &&& final(self).root == old(self).root
                &&& final(self).orphans == old(self).orphans
                &&& final(self).discard_orphans == old(self).discard_orphans
            },
    {
        if node_list.len() == 0 {
            return Ok(());
        }
        if let Err(e) = self.check_build() {
            return Err(e);
        }
        let ghost list = node_list@;
        let ghost cfg = self.root.node_config@;
        let n = node_list.len();
        let mut rest = node_list;
        let mut nodes: Vec<Tree<T>> = Vec::new();
        while rest.len() > 0
            invariant
                n == list.len(),
                nodes@.len() + rest@.len() == n,
                rest@ == list.subrange(nodes@.len() as int, n as int),
                cfg == self.root.node_config@,
                *self == *old(self),
                forall|i: int|
                    0 <= i < nodes@.len() ==> converted_from(node_parser, list[i], cfg, #[trigger] nodes@[i]),
            decreases rest.len(),
        {
            let ghost k = nodes@.len() as int;
            let item = rest.remove(0);
            assert(item == list[k]);
            assert(rest@ =~= list.subrange(k + 1, n as int));
            let mut tree = Tree::new(Some(self.root.node_config.duplicate()));
            let ghost f = tree;
            node_parser.parse(item, &mut tree);
            assert(fresh_node(f, cfg));
            nodes.push(tree);
            assert(converted_from(node_parser, list[k], cfg, nodes@[k]));
        }
        let ghost conv = nodes@;
        let r = self.add_map(nodes);
        assert(conv.len() == list.len());
        assert({
            &&& conv.len() == list.len()
            &&& forall|i: int|
                0 <= i < conv.len() ==> converted_from(node_parser, list[i], cfg, #[trigger] conv[i])
            &&& unique_ids(old(self).pool@) ==> self.pool@ == insert_all(old(self).pool@, conv)
            &&& pool_ids(self.pool@) == pool_ids(old(self).pool@) + pool_ids(conv)
        });
        r
    }

    /// Links every node of the lookup under its parent, starting from the root,
    /// and leaves the rest as orphans, each with the subtree found under it.
    /// Child lists come out in ascending weight, equal weights in lookup order;
    /// with a non-zero depth bound the root's subtree is at most that deep.
    pub fn build(&mut self) -> (r: Result<(), TreeError>)
        requires
            old(self).wf(),
        ensures
            r is Err <==> old(self).state == BuildState::Built,
            r is Err ==> *final(self) == *old(self),
            r is Ok ==> {
                let ids = pool_ids(old(self).pool@);
                let d = if old(self).root.node_config.deep == 0 {
                    old(self).pool@.len()
                } else {
                    old(self).root.node_config.deep as nat
                };
                &&& final(self).state == BuildState::Built
                &&& final(self).pool@.len() == 0
                &&& final(self).root.id == old(self).root.id
                &&& final(self).root.node_config == old(self).root.node_config
                &&& has_root_record(old(self).pool@, old(self).root.id@) ==> {
                    let rec = old(self).pool@[root_record_pos(old(self).pool@, old(self).root.id@)];
                    &&& final(self).root.name == rec.name
                    &&& final(self).root.parent_id == rec.parent_id
                    &&& final(self).root.weight == rec.weight
                    &&& final(self).root.extra_view() == extra_map(old(self).root.extra@ + rec.extra@)
                }
                &&& !has_root_record(old(self).pool@, old(self).root.id@) ==> {
                    &&& final(self).root.name == old(self).root.name
                    &&& final(self).root.parent_id == old(self).root.parent_id
                    &&& final(self).root.weight == old(self).root.weight
                    &&& final(self).root.extra == old(self).root.extra
                }
                &&& sorted_by_weight(final(self).root.children@)
                &&& forall|k: int|
                    0 <= k < final(self).root.children@.len() ==> {
                        &&& hangs_under(#[trigger] final(self).root.children@[k], old(self).root.id@)
                        &&& assembled(final(self).root.children@[k], d, ids)
                    }
                &&& ties_in_order(final(self).root.children@, pool_order(old(self).pool@))
                &&& forall|k: int|
                    0 <= k < final(self).root.children@.len() ==> stable(
                        #[trigger] final(self).root.children@[k],
                        d,
                        pool_order(old(self).pool@),
                    )
                &&& forall|k: int|
                    0 <= k < final(self).orphans@.len() ==> stable(
                        #[trigger] final(self).orphans@[k],
                        d + 1,
                        pool_order(old(self).pool@),
                    )
                &&& forall|k: int|
                    0 <= k < final(self).root.children@.len() ==> faithful(
                        #[trigger] final(self).root.children@[k],
                        d,
                        old(self).pool@,
                    )
                &&& forall|k: int|
                    0 <= k < final(self).orphans@.len() ==> faithful(
                        #[trigger] final(self).orphans@[k],
                        d + 1,
                        old(self).pool@,
                    )
                &&& d > 0 ==> forall|j: int, k: int|
                    0 <= j < k < final(self).orphans@.len() ==> !placed_above(
                        #[trigger] final(self).orphans@[j],
                        d + 1,
                        (#[trigger] final(self).orphans@[k]).parent_id@,
                    )
                &&& final(self).discard_orphans == old(self).discard_orphans
                &&& old(self).discard_orphans ==> final(self).orphans@.len() == 0
                &&& !old(self).discard_orphans ==> forest_size(final(self).root.children@, d)
                    + forest_size(final(self).orphans@, d + 1) + (if has_root_record(old(self).pool@, old(self).root.id@) { 1int } else { 0int })
                    == old(self).pool@.len()
                &&& !old(self).discard_orphans ==> forest_ids(final(self).root.children@, d).add(
                    forest_ids(final(self).orphans@, d + 1),
                ).add(
                    if has_root_record(old(self).pool@, old(self).root.id@) {
                        Multiset::singleton(old(self).root.id@)
                    } else {
                        Multiset::empty()
                    },
                ) == ids_multiset(pool_order(old(self).pool@))
                &&& forall|i: int|
                    0 <= i < old(self).pool@.len() && (#[trigger] old(self).pool@[i]).parent_id@
                        == old(self).root.id@ && old(self).pool@[i].id@ != old(self).root.id@
                        ==> exists|c: int|
                        0 <= c < final(self).root.children@.len() && occurs(
                            #[trigger] final(self).root.children@[c],
                            d,
                            old(self).pool@[i].id@,
                        )
                &&& forall|k: int|
                    0 <= k < final(self).orphans@.len() ==> (#[trigger] final(self).orphans@[k]).parent_id@
                        != old(self).root.id@
                &&& forall|k: int, c: int|
                    0 <= k < final(self).orphans@.len() && 0 <= c < final(self).root.children@.len()
                        ==> !placed_above(
                        #[trigger] final(self).root.children@[c],
                        d,
                        (#[trigger] final(self).orphans@[k]).parent_id@,
                    )
                &&& forall|k: int|
                    0 <= k < final(self).orphans@.len() ==> assembled(
                        #[trigger] final(self).orphans@[k],
                        d + 1,
                        ids,
                    )
            },
    {
        if let Err(e) = self.check_build() {
            return Err(e);
        }
        let ghost ids = pool_ids(self.pool@);
        let ghost order = pool_order(self.pool@);
        assert(distinct(order)) by {
            assert forall|i: int, j: int| 0 <= i < j < order.len() implies order[i] != order[j] by {
                assert(self.pool@[i].id@ != self.pool@[j].id@);
            }
        }
        let mut pool = Vec::new();
        std::mem::swap(&mut pool, &mut self.pool);
        let n = pool.len();
        let fuel: usize = if self.root.node_config.deep == 0 {
            n
        } else {
            self.root.node_config.deep as usize
        };
        let ghost orig = pool@;
        let mut slots = into_slots(pool);
        assert forall|j: int| 0 <= j < slots@.len() && (#[trigger] slots@[j]) is Some implies ids.contains(slots@[j].unwrap().id@) by {
            assert(orig[j].id@ == slots@[j].unwrap().id@);
        }
        proof {
            lemma_count_all(slots@);
            lemma_slot_ids_all(slots@, orig);
        }
        assert(slots_match(slots@, order));
        let ghost src = orig;
        assert(slots_exact(slots@, src));
        // A node with the root's own id is the root's record, not a child of it.
        let ghost has_root = has_root_record(orig, self.root.id@);
        let mut r: usize = 0;
        while r < n
            invariant
                0 <= r <= n,
                n == orig.len(),
                slots@.len() == n,
                count_some(slots@) == n,
                forall|j: int| 0 <= j < r ==> orig[j].id@ != self.root.id@,
                forall|j: int| 0 <= j < n ==> (#[trigger] slots@[j]) == Some(orig[j]),
                self.root.id == old(self).root.id,
                self.root.name == old(self).root.name,
                self.root.parent_id == old(self).root.parent_id,
                self.root.weight == old(self).root.weight,
                self.root.extra == old(self).root.extra,
                self.root.node_config == old(self).root.node_config,
            ensures
                r <= n,
                r < n ==> orig[r as int].id@ == self.root.id@,
                r == n ==> forall|j: int| 0 <= j < n ==> orig[j].id@ != self.root.id@,
            decreases n - r,
        {
            let found = match &slots[r] {
                Some(t) => t.id == self.root.id,
                None => false,
            };
            if found {
                break;
            }
            r += 1;
        }
        if r < n {
            let ghost before = slots@;
            let rec = slots[r].take().unwrap();
            proof {
                lemma_count_take(before, r as int);
                lemma_slot_ids_take(before, r as int);
                assert(orig[r as int].id@ == old(self).root.id@);
                assert(has_root);
                let p = root_record_pos(orig, old(self).root.id@);
                assert(orig[p].id@ == old(self).root.id@);
                if p != r {
                    if p < r {
                        assert(orig[p].id@ != orig[r as int].id@);
                    } else {
                        assert(orig[r as int].id@ != orig[p].id@);
                    }
                }
            }
            let Tree { id: _, name, parent_id, weight, extra, node_config: _, parent: _, children: _ } = rec;
            self.root.name = name;
            self.root.parent_id = parent_id;
            self.root.weight = weight;
            self.root.set_extra(extra);
        }
        let ghost root_taken: int = if has_root { 1int } else { 0int };
        assert(count_some(slots@) + root_taken == n);
        let ghost root_ids = if has_root {
            Multiset::singleton(self.root.id@)
        } else {
            Multiset::<Seq<char>>::empty()
        };
        assert(slot_ids(slots@).add(root_ids) =~= ids_multiset(order));
        let ghost pre = slots@;
        assert forall|i: int| 0 <= i < n && orig[i].id@ != self.root.id@ implies (#[trigger] pre[i]) == Some(orig[i]) by {
            if r < n {
                assert(orig[r as int].id@ == self.root.id@);
            }
        }
        let children = take_children(&mut slots, &self.root.id, fuel, Ghost(ids), Ghost(order), Ghost(src));
        assert forall|i: int|
            0 <= i < n && (#[trigger] orig[i]).parent_id@ == self.root.id@ && orig[i].id@ != self.root.id@
                implies exists|c: int| 0 <= c < children@.len() && occurs(#[trigger] children@[c], fuel as nat, orig[i].id@) by {
            assert(pre[i] == Some(orig[i]));
            assert(fuel > 0);
            if slots@[i] is Some {
                assert(slots@[i] == pre[i]);
            }
        }
        let ghost placed = forest_size(children@, fuel as nat) + root_taken;
        self.root.children = children;
        let ghost left = slots@;
        let orphans = collect_forest(&mut slots, fuel, Ghost(ids), Ghost(order), Ghost(src));
        assert forall|k: int| 0 <= k < orphans@.len() implies (#[trigger] orphans@[k]).parent_id@ != self.root.id@ by {
            let j = choose|j: int|
                0 <= j < left.len() && (#[trigger] left[j]) is Some && left[j].unwrap().parent_id == orphans@[k].parent_id;
            assert(fuel > 0);
        }
        assert forall|k: int, c: int| 0 <= k < orphans@.len() && 0 <= c < self.root.children@.len() implies !placed_above(
            #[trigger] self.root.children@[c],
            fuel as nat,
            (#[trigger] orphans@[k]).parent_id@,
        ) by {
            let j = choose|j: int|
                0 <= j < left.len() && (#[trigger] left[j]) is Some && left[j].unwrap().parent_id == orphans@[k].parent_id;
        }
        proof {
            lemma_count_none(slots@);
        }
        if self.discard_orphans {
            self.orphans = Vec::new();
        } else {
            self.orphans = orphans;
        }
        self.state = BuildState::Built;
        Ok(())
    }
}

/// Moves the nodes of a pool, in order, into slots that can be emptied one at a
/// time.
pub(crate) fn into_slots<T>(pool: Vec<Tree<T>>) -> (slots: Vec<Option<Tree<T>>>)
    ensures
        slots@.len() == pool@.len(),
        forall|j: int| 0 <= j < pool@.len() ==> (#[trigger] slots@[j]) == Some(pool@[j]),
{
    let mut pool = pool;
let ghost orig = pool@;
let n = pool.len();
    let mut rev: Vec<Tree<T>> = Vec::new();
    while pool.len() > 0
        invariant
            orig == pool@ + rev@.reverse(),
        decreases pool.len(),
    {
        let ghost before = rev@;
        let t = pool.pop().unwrap();
        rev.push(t);
        assert(rev@.reverse() =~= seq![t] + before.reverse());
        assert(orig =~= pool@ + rev@.reverse());
    }
    assert(orig =~= rev@.reverse());
    let mut slots: Vec<Option<Tree<T>>> = Vec::new();
    while rev.len() > 0
        invariant
            n == orig.len(),
            slots@.len() + rev@.len() == n,
            rev@.reverse() == orig.subrange(slots@.len() as int, n as int),
            forall|j: int| 0 <= j < slots@.len() ==> (#[trigger] slots@[j]) == Some(orig[j]),
        decreases rev.len(),
    {
        let ghost before = rev@;
        let t = rev.pop().unwrap();
        assert(before =~= rev@.push(t));
        assert(before.reverse() =~= seq![t] + rev@.reverse());
        let ghost s0 = slots@.len() as int;
        let ghost tail = orig.subrange(s0, n as int);
        assert(tail == seq![t] + rev@.reverse());
        assert(tail[0] == t);
        assert(orig[s0] == tail[0]);
        assert(orig.subrange(s0 + 1, n as int) =~= tail.subrange(1, tail.len() as int));
        assert(tail.subrange(1, tail.len() as int) =~= rev@.reverse());
        slots.push(Some(t));
    }
    slots
}

/// Empties every slot into a forest of second-class roots: first the nodes whose
/// parent is nowhere among the nodes left, then whatever a cycle of parent ids
/// kept apart, each with the subtree found under it.
pub(crate) fn collect_forest<T>(
    slots: &mut Vec<Option<Tree<T>>>,
    fuel: usize,
    Ghost(ids): Ghost<Set<Seq<char>>>,
    Ghost(order): Ghost<Seq<Seq<char>>>,
    Ghost(src): Ghost<Seq<Tree<T>>>,
) -> (r: Vec<Tree<T>>)
    requires
        slots_within(old(slots)@, ids),
        slots_match(old(slots)@, order),
        slots_exact(old(slots)@, src),
        distinct(order),
    ensures
        final(slots)@.len() == old(slots)@.len(),
        forall|j: int| 0 <= j < final(slots)@.len() ==> (#[trigger] final(slots)@[j]) is None,
        forest_size(r@, (fuel + 1) as nat) == count_some(old(slots)@),
        forest_ids(r@, (fuel + 1) as nat) == slot_ids(old(slots)@),
        forall|k: int| 0 <= k < r@.len() ==> stable(#[trigger] r@[k], (fuel + 1) as nat, order),
        forall|k: int| 0 <= k < r@.len() ==> assembled(#[trigger] r@[k], (fuel + 1) as nat, ids),
        forall|k: int| 0 <= k < r@.len() ==> faithful(#[trigger] r@[k], (fuel + 1) as nat, src),
        fuel > 0 ==> forall|j: int, k: int|
            0 <= j < k < r@.len() ==> !placed_above(#[trigger] r@[j], (fuel + 1) as nat, (#[trigger] r@[k]).parent_id@),
        forall|k: int|
            0 <= k < r@.len() ==> exists|j: int|
                0 <= j < old(slots)@.len() && (#[trigger] old(slots)@[j]) is Some
                    && old(slots)@[j].unwrap().parent_id == (#[trigger] r@[k]).parent_id,
{
    let n = slots.len();
    let mut orphans: Vec<Tree<T>> = Vec::new();
    // First the nodes whose parent is nowhere among the nodes left, then
    // whatever a cycle of parent ids kept apart.
    let mut pass: usize = 0;
    while pass < 2
        invariant
            pass <= 2,
            pass == 2 ==> forall|j: int| 0 <= j < n ==> (#[trigger] slots@[j]) is None,
            count_some(slots@) + forest_size(orphans@, (fuel + 1) as nat) == count_some(old(slots)@),
                slot_ids(slots@).add(forest_ids(orphans@, (fuel + 1) as nat)) == slot_ids(old(slots)@),
            slots@.len() == n,
            slots_within(slots@, ids),
            slots_match(slots@, order),
            slots_exact(slots@, src),
            distinct(order),
            forall|k: int| 0 <= k < orphans@.len() ==> stable(#[trigger] orphans@[k], (fuel + 1) as nat, order),
            forall|k: int| 0 <= k < orphans@.len() ==> assembled(#[trigger] orphans@[k], (fuel + 1) as nat, ids),
                forall|k: int| 0 <= k < orphans@.len() ==> faithful(#[trigger] orphans@[k], (fuel + 1) as nat, src),
                fuel > 0 ==> forall|j: int, k: int|
                    0 <= j < k < orphans@.len() ==> !placed_above(#[trigger] orphans@[j], (fuel + 1) as nat, (#[trigger] orphans@[k]).parent_id@),
                fuel > 0 ==> forall|k: int, m: int|
                    0 <= k < orphans@.len() && 0 <= m < slots@.len() && (#[trigger] slots@[m]) is Some ==> !placed_above(#[trigger] orphans@[k], (fuel + 1) as nat, slots@[m].unwrap().parent_id@),
            slots_shrunk(old(slots)@, slots@),
            forall|k: int|
                0 <= k < orphans@.len() ==> exists|j: int|
                    0 <= j < old(slots)@.len() && (#[trigger] old(slots)@[j]) is Some
                        && old(slots)@[j].unwrap().parent_id == (#[trigger] orphans@[k]).parent_id,
        decreases 2 - pass,
    {
        let mut i: usize = 0;
        while i < n
            invariant
                pass < 2,
                0 <= i <= n,
                pass == 1 ==> forall|j: int| 0 <= j < i ==> (#[trigger] slots@[j]) is None,
                count_some(slots@) + forest_size(orphans@, (fuel + 1) as nat) == count_some(old(slots)@),
                slot_ids(slots@).add(forest_ids(orphans@, (fuel + 1) as nat)) == slot_ids(old(slots)@),
                slots@.len() == n,
                slots_within(slots@, ids),
                slots_match(slots@, order),
                slots_exact(slots@, src),
                distinct(order),
                forall|k: int| 0 <= k < orphans@.len() ==> stable(#[trigger] orphans@[k], (fuel + 1) as nat, order),
                forall|k: int| 0 <= k < orphans@.len() ==> assembled(#[trigger] orphans@[k], (fuel + 1) as nat, ids),
                forall|k: int| 0 <= k < orphans@.len() ==> faithful(#[trigger] orphans@[k], (fuel + 1) as nat, src),
                fuel > 0 ==> forall|j: int, k: int|
                    0 <= j < k < orphans@.len() ==> !placed_above(#[trigger] orphans@[j], (fuel + 1) as nat, (#[trigger] orphans@[k]).parent_id@),
                fuel > 0 ==> forall|k: int, m: int|
                    0 <= k < orphans@.len() && 0 <= m < slots@.len() && (#[trigger] slots@[m]) is Some ==> !placed_above(#[trigger] orphans@[k], (fuel + 1) as nat, slots@[m].unwrap().parent_id@),
                slots_shrunk(old(slots)@, slots@),
                forall|k: int|
                    0 <= k < orphans@.len() ==> exists|j: int|
                        0 <= j < old(slots)@.len() && (#[trigger] old(slots)@[j]) is Some
                            && old(slots)@[j].unwrap().parent_id == (#[trigger] orphans@[k]).parent_id,
            decreases n - i,
        {
            // In the second pass every node left has its parent among the nodes
            // left, so climbing parents from `i` ends on a cycle, which is cut at
            // the node reached.
            let mut go = slots[i].is_some() && (pass == 1 || !parent_present(slots, i));
            while go
                invariant
                    i < n,
                    go ==> slots@[i as int] is Some,
                    !go && pass == 1 ==> slots@[i as int] is None,
                    pass < 2,
                    0 <= i <= n,
                    pass == 1 ==> forall|j: int| 0 <= j < i ==> (#[trigger] slots@[j]) is None,
                    count_some(slots@) + forest_size(orphans@, (fuel + 1) as nat) == count_some(old(slots)@),
                    slot_ids(slots@).add(forest_ids(orphans@, (fuel + 1) as nat)) == slot_ids(old(slots)@),
                    slots@.len() == n,
                    slots_within(slots@, ids),
                    slots_match(slots@, order),
                    slots_exact(slots@, src),
                    distinct(order),
                    forall|k: int| 0 <= k < orphans@.len() ==> stable(#[trigger] orphans@[k], (fuel + 1) as nat, order),
                    forall|k: int| 0 <= k < orphans@.len() ==> assembled(#[trigger] orphans@[k], (fuel + 1) as nat, ids),
                    forall|k: int| 0 <= k < orphans@.len() ==> faithful(#[trigger] orphans@[k], (fuel + 1) as nat, src),
                    fuel > 0 ==> forall|j: int, k: int|
                        0 <= j < k < orphans@.len() ==> !placed_above(#[trigger] orphans@[j], (fuel + 1) as nat, (#[trigger] orphans@[k]).parent_id@),
                    fuel > 0 ==> forall|k: int, m: int|
                        0 <= k < orphans@.len() && 0 <= m < slots@.len() && (#[trigger] slots@[m]) is Some ==> !placed_above(#[trigger] orphans@[k], (fuel + 1) as nat, slots@[m].unwrap().parent_id@),
                    slots_shrunk(old(slots)@, slots@),
                    forall|k: int|
                        0 <= k < orphans@.len() ==> exists|j: int|
                            0 <= j < old(slots)@.len() && (#[trigger] old(slots)@[j]) is Some
                                && old(slots)@[j].unwrap().parent_id == (#[trigger] orphans@[k]).parent_id,
                decreases count_some(slots@),
            {
                let c = if pass == 1 {
                    climb(slots, i)
                } else {
                    i
                };
                let ghost before = orphans@;
                let ghost cur = slots@;
                let t = take_orphan(slots, c, fuel, Ghost(ids), Ghost(order), Ghost(src));
                assert(tree_size(t, (fuel + 1) as nat) >= 1);
                let ghost tg = t;
                orphans.push(t);
                assert(orphans@.drop_last() == before);
                assert(orphans@[orphans@.len() - 1] == tg);
                assert(tg.parent_id == cur[c as int].unwrap().parent_id);
                assert forall|k: int, m: int|
                    fuel > 0 && 0 <= k < orphans@.len() && 0 <= m < slots@.len() && (#[trigger] slots@[m]) is Some
                        implies !placed_above(#[trigger] orphans@[k], (fuel + 1) as nat, slots@[m].unwrap().parent_id@) by {
                    if k < before.len() {
                        assert(orphans@[k] == before[k]);
                        assert(cur[m] == slots@[m]);
                    }
                }
                assert forall|j: int, k: int|
                    fuel > 0 && 0 <= j < k < orphans@.len()
                        implies !placed_above(#[trigger] orphans@[j], (fuel + 1) as nat, (#[trigger] orphans@[k]).parent_id@) by {
                    assert(orphans@[j] == before[j]);
                    if k < before.len() {
                        assert(orphans@[k] == before[k]);
                    }
                }
                go = pass == 1 && slots[i].is_some();
            }
            i += 1;
        }
        pass += 1;
    }
    proof {
        lemma_count_none(slots@);
        lemma_slot_ids_none(slots@);
        assert(forest_ids(orphans@, (fuel + 1) as nat) =~= slot_ids(old(slots)@));
    }
    orphans
}

/// The slot holding the node with id `x`, if one does.
fn slot_of<T>(slots: &Vec<Option<Tree<T>>>, x: &String) -> (r: Option<usize>)
    ensures
        r is Some ==> r.unwrap() < slots@.len() && slots@[r.unwrap() as int] is Some
            && slots@[r.unwrap() as int].unwrap().id@ == x@,
{
    let mut j: usize = 0;
    while j < slots.len()
        invariant
            0 <= j <= slots@.len(),
        decreases slots@.len() - j,
    {
        match &slots[j] {
            Some(t) => {
                if t.id == *x {
                    return Some(j);
                }
            },
            None => {},
        }
        j += 1;
    }
    None
}

/// Follows parent ids from the node at `i` among the nodes left, as many steps as
/// there are slots, and gives the slot reached.
fn climb<T>(slots: &Vec<Option<Tree<T>>>, i: usize) -> (c: usize)
    requires
        i < slots@.len(),
        slots@[i as int] is Some,
    ensures
        c < slots@.len(),
        slots@[c as int] is Some,
{
    let mut c = i;
    let mut step: usize = 0;
    while step < slots.len()
        invariant
            c < slots@.len(),
            slots@[c as int] is Some,
        decreases slots@.len() - step,
    {
        let next = match &slots[c] {
            Some(t) => slot_of(slots, &t.parent_id),
            None => None,
        };
        match next {
            Some(j) => {
                c = j;
            },
            None => {
                return c;
            },
        }
        step += 1;
    }
    c
}

/// Whether some other node still in a slot has the id that the node at `i`
/// names as parent.
fn parent_present<T>(slots: &Vec<Option<Tree<T>>>, i: usize) -> (r: bool)
    requires
        i < slots@.len(),
        slots@[i as int] is Some,
    ensures
        r <==> exists|j: int|
            0 <= j < slots@.len() && j != i && (#[trigger] slots@[j]) is Some
                && slots@[j].unwrap().id@ == slots@[i as int].unwrap().parent_id@,
{
    let pid = match &slots[i] {
        Some(t) => &t.parent_id,
        None => {
            return false;
        },
    };
    let mut j: usize = 0;
    while j < slots.len()
        invariant
            0 <= j <= slots@.len(),
            i < slots@.len(),
            slots@[i as int] is Some,
            pid@ == slots@[i as int].unwrap().parent_id@,
            forall|k: int|
                0 <= k < j && k != i && (#[trigger] slots@[k]) is Some ==> slots@[k].unwrap().id@ != pid@,
        decreases slots@.len() - j,
    {
        if j != i {
            match &slots[j] {
                Some(t) => {
                    if t.id == *pid {
                        return true;
                    }
                },
                None => {},
            }
        }
        j += 1;
    }
    false
}

/// Takes the node at `i` out as a second-class root, with the subtree found
/// under it.
fn take_orphan<T>(
    slots: &mut Vec<Option<Tree<T>>>,
    i: usize,
    fuel: usize,
    Ghost(ids): Ghost<Set<Seq<char>>>,
    Ghost(order): Ghost<Seq<Seq<char>>>,
    Ghost(src): Ghost<Seq<Tree<T>>>,
) -> (r: Tree<T>)
    requires
        i < old(slots)@.len(),
        old(slots)@[i as int] is Some,
        slots_within(old(slots)@, ids),
        slots_match(old(slots)@, order),
        slots_exact(old(slots)@, src),
        distinct(order),
    ensures
        stable(r, (fuel + 1) as nat, order),
        slots_shrunk(old(slots)@, final(slots)@),
        assembled(r, (fuel + 1) as nat, ids),
        count_some(old(slots)@) == count_some(final(slots)@) + tree_size(r, (fuel + 1) as nat),
        slot_ids(old(slots)@) == slot_ids(final(slots)@).add(tree_ids(r, (fuel + 1) as nat)),
        final(slots)@[i as int] is None,
        r.parent_id == old(slots)@[i as int].unwrap().parent_id,
        faithful(r, (fuel + 1) as nat, src),
        fuel > 0 ==> forall|j: int|
            0 <= j < final(slots)@.len() && (#[trigger] final(slots)@[j]) is Some ==> !placed_above(
                r,
                (fuel + 1) as nat,
                final(slots)@[j].unwrap().parent_id@,
            ),
        r.id == old(slots)@[i as int].unwrap().id,
{
    let ghost before = slots@;
    let mut t = slots[i].take().unwrap();
    assert(slots@ == before.update(i as int, None));
    proof {
        lemma_count_take(before, i as int);
        lemma_slot_ids_take(before, i as int);
    }
    assert(ids.contains(t.id@));
    let sub = take_children(slots, &t.id, fuel, Ghost(ids), Ghost(order), Ghost(src));
    assert(same_data(t, src[i as int]));
    t.children = sub;
    t.parent = None;
    assert(same_data(t, src[i as int]));
    assert(tree_ids(t, (fuel + 1) as nat) == forest_ids(t.children@, fuel as nat).insert(t.id@));
    assert(slot_ids(before) =~= slot_ids(slots@).add(tree_ids(t, (fuel + 1) as nat)));
    assert forall|j: int| fuel > 0 && 0 <= j < slots@.len() && (#[trigger] slots@[j]) is Some implies !placed_above(
        t,
        (fuel + 1) as nat,
        slots@[j].unwrap().parent_id@,
    ) by {
        let x = slots@[j].unwrap().parent_id@;
        assert(t.id@ != x);
        assert forall|k: int| 0 <= k < t.children@.len() implies !placed_above(
            #[trigger] t.children@[k],
            fuel as nat,
            x,
        ) by {
            assert(t.children@[k] == sub@[k]);
        }
    }
    t
}

/// After a reset, an add of `batch` and a build, every node of the root's subtree
/// and of the orphans has the id of a node of `batch`: nothing of an earlier batch
/// is left.
pub proof fn lemma_reset_then_build<T>(
    after_reset: TreeBuilder<T>,
    batch: Seq<Tree<T>>,
    added: TreeBuilder<T>,
    built: TreeBuilder<T>,
    d: nat,
)
    requires
        after_reset.pool@.len() == 0,
        pool_ids(added.pool@) == pool_ids(after_reset.pool@) + pool_ids(batch),
        forall|k: int|
            0 <= k < built.root.children@.len() ==> assembled(
                #[trigger] built.root.children@[k],
                d,
                pool_ids(added.pool@),
            ),
        forall|k: int|
            0 <= k < built.orphans@.len() ==> assembled(
                #[trigger] built.orphans@[k],
                d + 1,
                pool_ids(added.pool@),
            ),
    ensures
        forall|k: int|
            0 <= k < built.root.children@.len() ==> assembled(
                #[trigger] built.root.children@[k],
                d,
                pool_ids(batch),
            ),
        forall|k: int|
            0 <= k < built.orphans@.len() ==> assembled(#[trigger] built.orphans@[k], d + 1, pool_ids(batch)),
{
    assert(pool_ids(after_reset.pool@) =~= Set::empty());
    assert(pool_ids(added.pool@) =~= pool_ids(batch));
}

/// Every child in `t`, down to `d` levels, names as parent the id of a node in
/// `ids`.
pub open spec fn parents_in<T>(t: Tree<T>, d: nat, ids: Set<Seq<char>>) -> bool
    decreases d,
{
    &&& d >= 1
    &&& forall|k: int|
        0 <= k < t.children@.len() ==> {
            &&& ids.contains((#[trigger] t.children@[k]).parent_id@)
            &&& parents_in(t.children@[k], (d - 1) as nat, ids)
        }
}

/// In an assembled subtree a node is only ever linked under a node of the batch:
/// a node whose parent id names no node of the batch cannot be anyone's child.
pub proof fn lemma_links_resolve<T>(t: Tree<T>, d: nat, ids: Set<Seq<char>>)
    requires
        assembled(t, d, ids),
    ensures
        parents_in(t, d, ids),
    decreases d,
{
    assert forall|k: int| 0 <= k < t.children@.len() implies {
        &&& ids.contains((#[trigger] t.children@[k]).parent_id@)
        &&& parents_in(t.children@[k], (d - 1) as nat, ids)
    } by {
        lemma_links_resolve(t.children@[k], (d - 1) as nat, ids);
    }
}

/// The ids of a list of records.
pub open spec fn record_ids<T>(list: Seq<TreeNode<T>>) -> Set<Seq<char>> {
    Set::new(|s: Seq<char>| exists|i: int| 0 <= i < list.len() && list[i].id@ == s)
}

/// Records converted by the default converter keep their ids, so a batch adds
/// exactly the records' ids to the lookup.
pub proof fn lemma_default_batch_ids<T>(list: Seq<TreeNode<T>>, conv: Seq<Tree<T>>, cfg: ConfigView)
    requires
        conv.len() == list.len(),
        forall|i: int| 0 <= i < conv.len() ==> converted_from(&DefaultNodeParser, list[i], cfg, #[trigger] conv[i]),
    ensures
        pool_ids(conv) == record_ids(list),
{
    assert forall|i: int| 0 <= i < conv.len() implies (#[trigger] conv[i]).id@ == list[i].id@ by {
        assert(converted_from(&DefaultNodeParser, list[i], cfg, conv[i]));
    }
    assert forall|s: Seq<char>| pool_ids(conv).contains(s) implies record_ids(list).contains(s) by {
        let i = choose|i: int| 0 <= i < conv.len() && conv[i].id@ == s;
        assert(list[i].id@ == s);
    }
    assert forall|s: Seq<char>| record_ids(list).contains(s) implies pool_ids(conv).contains(s) by {
        let i = choose|i: int| 0 <= i < list.len() && list[i].id@ == s;
        assert(conv[i].id@ == s);
    }
    assert(pool_ids(conv) =~= record_ids(list));
}

} // verus!
