use vstd::prelude::*;

verus! {

/// The map that a list of extra attributes stands for: later entries overwrite
/// earlier ones with the same key.
pub open spec fn extra_map<T>(s: Seq<(String, T)>) -> Map<Seq<char>, T>
    decreases s.len(),
{
    if s.len() == 0 {
        Map::empty()
    } else {
        extra_map(s.drop_last()).insert(s.last().0@, s.last().1)
    }
}

/// Records `value` under `key`, overwriting an earlier value of that key.
pub fn put_entry<T>(extra: &mut Vec<(String, T)>, key: String, value: T)
    ensures
        final(extra)@ == old(extra)@.push((key, value)),
        extra_map(final(extra)@) == extra_map(old(extra)@).insert(key@, value),
{
    extra.push((key, value));
    assert(final(extra)@.drop_last() == old(extra)@);
}

/// The entry at `j` is the last one with its key.
pub open spec fn is_live<T>(s: Seq<(String, T)>, j: int) -> bool {
    &&& 0 <= j < s.len()
    &&& forall|k: int| j < k < s.len() ==> (#[trigger] s[k]).0@ != s[j].0@
}

/// A live entry gives its key's value in the map.
proof fn lemma_live_in_map<T>(s: Seq<(String, T)>, j: int)
    requires
        is_live(s, j),
    ensures
        extra_map(s).contains_key(s[j].0@),
        extra_map(s)[s[j].0@] == s[j].1,
    decreases s.len(),
{
    if j < s.len() - 1 {
        let p = s.drop_last();
        assert(s.last() == s[s.len() - 1]);
        assert(forall|k: int| j < k < p.len() ==> (#[trigger] p[k]) == s[k]);
        lemma_live_in_map(p, j);
    }
}

/// Every key of the map has a live entry.
proof fn lemma_map_key_live<T>(s: Seq<(String, T)>, key: Seq<char>)
    requires
        extra_map(s).contains_key(key),
    ensures
        exists|j: int| is_live(s, j) && s[j].0@ == key,
    decreases s.len(),
{
    if s.last().0@ == key {
        assert(is_live(s, s.len() - 1));
    } else {
        let p = s.drop_last();
        lemma_map_key_live(p, key);
        let j = choose|j: int| is_live(p, j) && p[j].0@ == key;
        assert(is_live(s, j)) by {
            assert forall|k: int| j < k < s.len() implies (#[trigger] s[k]).0@ != s[j].0@ by {
                if k < s.len() - 1 {
                    assert(p[k] == s[k]);
                }
            }
        }
    }
}

/// The positions of the entries that are the last with their key, in order:
/// one per key of the map, each holding that key's value.
pub fn live_entries<T>(extra: &Vec<(String, T)>) -> (r: Vec<usize>)
    ensures
        forall|a: int, b: int| 0 <= a < b < r@.len() ==> r@[a] < r@[b],
        forall|k: int|
            0 <= k < r@.len() ==> {
                &&& is_live(extra@, #[trigger] r@[k] as int)
                &&& extra_map(extra@).contains_key(extra@[r@[k] as int].0@)
                &&& extra_map(extra@)[extra@[r@[k] as int].0@] == extra@[r@[k] as int].1
            },
        forall|key: Seq<char>|
            #[trigger] extra_map(extra@).contains_key(key) ==> exists|k: int|
                0 <= k < r@.len() && extra@[r@[k] as int].0@ == key,
{
    let n = extra.len();
    let mut r: Vec<usize> = Vec::new();
    let mut j: usize = 0;
    while j < n
        invariant
            n == extra@.len(),
            0 <= j <= n,
            forall|a: int, b: int| 0 <= a < b < r@.len() ==> r@[a] < r@[b],
            forall|k: int| 0 <= k < r@.len() ==> r@[k] < j,
            forall|k: int| 0 <= k < r@.len() ==> is_live(extra@, #[trigger] r@[k] as int),
            forall|i: int| 0 <= i < j && is_live(extra@, i) ==> exists|k: int| 0 <= k < r@.len() && r@[k] == i,
        decreases n - j,
    {
        let mut live = true;
        let mut k: usize = j + 1;
        while k < n
            invariant
                n == extra@.len(),
                j < n,
                j + 1 <= k <= n,
                live == forall|m: int| j < m < k ==> (#[trigger] extra@[m]).0@ != extra@[j as int].0@,
            decreases n - k,
        {
            if extra[k].0 == extra[j].0 {
                live = false;
            }
            k += 1;
        }
        if live {
            let ghost before = r@;
            r.push(j);
            assert(r@[before.len() as int] == j);
            assert forall|i: int| 0 <= i < j + 1 && is_live(extra@, i) implies exists|k: int|
                0 <= k < r@.len() && r@[k] == i by {
                if i < j {
                    let k = choose|k: int| 0 <= k < before.len() && before[k] == i;
                    assert(r@[k] == i);
                }
            }
        }
        j += 1;
    }
    assert forall|k: int| 0 <= k < r@.len() implies {
        &&& extra_map(extra@).contains_key(extra@[#[trigger] r@[k] as int].0@)
        &&& extra_map(extra@)[extra@[r@[k] as int].0@] == extra@[r@[k] as int].1
    } by {
        lemma_live_in_map(extra@, r@[k] as int);
    }
    assert forall|key: Seq<char>| #[trigger] extra_map(extra@).contains_key(key) implies exists|k: int|
        0 <= k < r@.len() && extra@[r@[k] as int].0@ == key by {
        lemma_map_key_live(extra@, key);
        let i = choose|i: int| is_live(extra@, i) && extra@[i].0@ == key;
        let k = choose|k: int| 0 <= k < r@.len() && r@[k] == i;
        assert(extra@[r@[k] as int].0@ == key);
    }
    r
}

} // verus!
