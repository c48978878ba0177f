//! Reading a map keyed by node number in increasing key order.
use std::collections::BTreeMap;
use vstd::prelude::*;
use vstd::std_specs::btree::{increasing_seq, spec_btree_map_iter};
use vstd::std_specs::cmp::OrdSpec;
use vstd::std_specs::iter::IteratorSpec;

verus! {

broadcast use vstd::laws_cmp::group_laws_cmp;

/// Keys strictly increase along `s`.
pub open spec fn increasing_keys<V>(s: Seq<(u8, V)>) -> bool {
    forall|i: int, j: int| 0 <= i < j < s.len() ==> #[trigger] s[i].0 < #[trigger] s[j].0
}

/// `s` lists the entries of `m`, each once, in increasing key order.
pub open spec fn lists_entries<V>(s: Seq<(u8, V)>, m: Map<u8, V>) -> bool {
    &&& increasing_keys(s)
    &&& forall|i: int| 0 <= i < s.len() ==> #[trigger] m.contains_key(s[i].0) && m[s[i].0] == s[i].1
    &&& forall|k: u8| #[trigger] m.contains_key(k) ==> exists|i: int| 0 <= i < s.len() && s[i].0 == k
}

/// The entries of `m` in increasing key order.
pub fn entries<V: Copy>(m: &BTreeMap<u8, V>) -> (v: Vec<(u8, V)>)
    ensures
        lists_entries(v@, m@),
{
    let mut v: Vec<(u8, V)> = Vec::new();
    let ghost items = spec_btree_map_iter(m).remaining();
    for kv in it: m.iter()
        invariant
            it.seq() == items,
            increasing_seq(items.map_values(|kv: (&u8, &V)| *kv.0)),
            v@.len() == it.index(),
            forall|j: int| 0 <= j < it.index() ==> #[trigger] v@[j] == (*items[j].0, *items[j].1),
    {
        v.push((*kv.0, *kv.1));
    }
    proof {
        let keys = items.map_values(|kv: (&u8, &V)| *kv.0);
        assert forall|i: int, j: int| 0 <= i < j < v@.len() implies #[trigger] v@[i].0 < #[trigger] v@[j].0 by {
            assert(keys[i] == v@[i].0);
            assert(keys[j] == v@[j].0);
            assert(keys[i].cmp_spec(&keys[j]) is Less);
        }
        assert forall|i: int| 0 <= i < v@.len() implies #[trigger] m@.contains_key(v@[i].0) && m@[v@[i].0] == v@[i].1 by {
            assert(m@.contains_key(*items[i].0));
        }
        assert forall|k: u8| #[trigger] m@.contains_key(k) implies exists|i: int| 0 <= i < v@.len() && v@[i].0 == k by {
            assert(items.contains((&k, &m@[k])));
            let i = choose|i: int| 0 <= i < items.len() && items[i] == (&k, &m@[k]);
            assert(v@[i].0 == k);
        }
    }
    v
}

/// The keys of `m` in increasing order.
pub fn keys<V>(m: &BTreeMap<u8, V>) -> (v: Vec<u8>)
    ensures
        forall|i: int, j: int| 0 <= i < j < v@.len() ==> #[trigger] v@[i] < #[trigger] v@[j],
        forall|i: int| 0 <= i < v@.len() ==> #[trigger] m@.contains_key(v@[i]),
        forall|k: u8| #[trigger] m@.contains_key(k) ==> exists|i: int| 0 <= i < v@.len() && v@[i] == k,
{
    let mut v: Vec<u8> = Vec::new();
    let ghost items = spec_btree_map_iter(m).remaining();
    for kv in it: m.iter()
        invariant
            it.seq() == items,
            increasing_seq(items.map_values(|kv: (&u8, &V)| *kv.0)),
            v@.len() == it.index(),
            forall|j: int| 0 <= j < it.index() ==> #[trigger] v@[j] == *items[j].0,
    {
        v.push(*kv.0);
    }
    proof {
        let keys = items.map_values(|kv: (&u8, &V)| *kv.0);
        assert forall|i: int, j: int| 0 <= i < j < v@.len() implies #[trigger] v@[i] < #[trigger] v@[j] by {
            assert(keys[i] == v@[i]);
            assert(keys[j] == v@[j]);
            assert(keys[i].cmp_spec(&keys[j]) is Less);
        }
        assert forall|i: int| 0 <= i < v@.len() implies #[trigger] m@.contains_key(v@[i]) by {
            assert(m@.contains_key(*items[i].0));
        }
        assert forall|k: u8| #[trigger] m@.contains_key(k) implies exists|i: int| 0 <= i < v@.len() && v@[i] == k by {
            assert(items.contains((&k, &m@[k])));
            let i = choose|i: int| 0 <= i < items.len() && items[i] == (&k, &m@[k]);
            assert(v@[i] == k);
        }
    }
    v
}

} // verus!
