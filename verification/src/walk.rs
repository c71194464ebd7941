//! The walk of a map of the standard library in the order of its keys.

use std::collections::BTreeMap;
use vstd::prelude::*;
use vstd::std_specs::cmp::OrdSpec;

verus! {

/// Whether every id of `keys` is smaller than the ids that follow it.
pub open spec fn strictly_ascending(keys: Seq<u32>) -> bool {
    forall|i: int, j: int| 0 <= i < j < keys.len() ==> #[trigger] keys[i] < #[trigger] keys[j]
}

/// Whether `keys` lists the keys of `m` in ascending order, each once.
pub open spec fn lists<V>(keys: Seq<u32>, m: Map<u32, V>) -> bool {
    strictly_ascending(keys) && forall|k: u32| keys.contains(k) <==> m.contains_key(k)
}

/// The keys of `m` in ascending order.
pub open spec fn ascending_keys<V>(m: Map<u32, V>) -> Seq<u32> {
    choose|keys: Seq<u32>| lists(keys, m)
}

/// The value at place `i` of the walk of `m` in the order of its keys.
pub open spec fn value_at<V>(m: Map<u32, V>, i: int) -> V {
    m[ascending_keys(m)[i]]
}

/// A map has one ascending listing of its keys only.
pub proof fn lemma_one_listing<V>(a: Seq<u32>, b: Seq<u32>, m: Map<u32, V>)
    requires
        lists(a, m),
        lists(b, m),
    ensures
        a == b,
    decreases a.len(),
{
    if a.len() == 0 {
        if b.len() > 0 {
            assert(b.contains(b[0]));
            assert(a.contains(b[0]));
        }
        assert(a =~= b);
    } else {
        let x = a.last();
        assert(a.contains(x));
        assert(b.contains(x));
        let j = b.index_of(x);
        let y = b.last();
        assert(b.contains(y));
        assert(a.contains(y));
        let i = a.index_of(y);
        if i < a.len() - 1 {
            assert(a[i] < a[a.len() - 1]);
        }
        if j < b.len() - 1 {
            assert(b[j] < b[b.len() - 1]);
        }
        assert(x == y);
        let rest = m.remove(x);
        let a_init = a.drop_last();
        let b_init = b.drop_last();
        assert(lists(a_init, rest)) by {
            assert forall|p: int, q: int| 0 <= p < q < a_init.len() implies #[trigger] a_init[p]
                < #[trigger] a_init[q] by {
                assert(a[p] < a[q]);
            }
            assert forall|k: u32| a_init.contains(k) <==> rest.contains_key(k) by {
                if a_init.contains(k) {
                    let p = a_init.index_of(k);
                    assert(a[p] == k);
                    assert(a.contains(k));
                    assert(a[p] < a[a.len() - 1]);
                }
                if rest.contains_key(k) {
                    assert(a.contains(k));
                    let p = a.index_of(k);
                    assert(a_init[p] == k);
                }
            }
        }
        assert(lists(b_init, rest)) by {
            assert forall|p: int, q: int| 0 <= p < q < b_init.len() implies #[trigger] b_init[p]
                < #[trigger] b_init[q] by {
                assert(b[p] < b[q]);
            }
            assert forall|k: u32| b_init.contains(k) <==> rest.contains_key(k) by {
                if b_init.contains(k) {
                    let p = b_init.index_of(k);
                    assert(b[p] == k);
                    assert(b.contains(k));
                    assert(b[p] < b[b.len() - 1]);
                }
                if rest.contains_key(k) {
                    assert(b.contains(k));
                    let p = b.index_of(k);
                    assert(b_init[p] == k);
                }
            }
        }
        lemma_one_listing(a_init, b_init, rest);
        assert(a =~= a_init.push(x));
        assert(b =~= b_init.push(y));
    }
}

/// The entries of `m` in ascending order of their keys.
pub fn entries<'a, V>(m: &'a BTreeMap<u32, V>) -> (r: Vec<(u32, &'a V)>)
    ensures
        lists(ascending_keys(m@), m@),
        r@.len() == ascending_keys(m@).len(),
        forall|i: int|
            0 <= i < r@.len() ==> (#[trigger] r@[i]).0 == ascending_keys(m@)[i] && *r@[i].1
                == value_at(m@, i),
{
    broadcast use vstd::std_specs::btree::group_btree_axioms;
    broadcast use vstd::laws_cmp::group_laws_cmp;

    let mut out: Vec<(u32, &'a V)> = Vec::new();
    for kv in it: m.iter()
        invariant
            out@.len() == it.index(),
            vstd::std_specs::btree::increasing_seq(it.seq().map_values(|kv: (&u32, &V)| *kv.0)),
            forall|k: u32| #[trigger] m@.contains_key(k) ==> it.seq().contains((&k, &m@[k])),
            forall|i: int|
                0 <= i < out@.len() ==> out@[i].0 == *it.seq()[i].0 && out@[i].1 == it.seq()[i].1,
            forall|i: int, j: int| 0 <= i < j < out@.len() ==> out@[i].0 < out@[j].0,
            forall|i: int|
                0 <= i < out@.len() ==> m@.contains_key(out@[i].0) && m@[out@[i].0] == *out@[i].1,
    {
        proof {
            let keys = it.seq().map_values(|kv: (&u32, &V)| *kv.0);
            vstd::std_specs::btree::axiom_increasing_seq_meaning::<u32>(keys);
            assert forall|i: int| 0 <= i < out@.len() implies out@[i].0 < *kv.0 by {
                assert(keys[i] == out@[i].0);
                assert(keys[it.index()] == *kv.0);
                assert(keys[i].cmp_spec(&keys[it.index()]) is Less);
            }
        }
        out.push((*kv.0, kv.1));
    }
    proof {
        let keys = out@.map_values(|e: (u32, &V)| e.0);
        assert(strictly_ascending(keys));
        assert forall|k: u32| keys.contains(k) <==> m@.contains_key(k) by {
            if keys.contains(k) {
                let i = keys.index_of(k);
                assert(out@[i].0 == k);
            }
            if m@.contains_key(k) {
                let i = choose|i: int| 0 <= i < out@.len() && #[trigger] out@[i].0 == k;
                assert(keys[i] == k);
            }
        }
        assert(lists(keys, m@));
        lemma_one_listing(keys, ascending_keys(m@), m@);
    }
    out
}

} // verus!
