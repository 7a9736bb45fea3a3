//! Lists of integer identifiers: strictly ascending lists, and the list
//! of the keys of a map.
use std::collections::HashMap;

use vstd::prelude::*;
use vstd::std_specs::iter::IteratorSpec;

verus! {

broadcast use vstd::std_specs::hash::group_hash_axioms;

/// The keys of `m`, each once, in the order in which the map yields them.
pub fn key_list<V>(m: &HashMap<i64, V>) -> (keys: Vec<i64>)
    ensures
        keys@.no_duplicates(),
        keys@.to_set() == m@.dom(),
        keys@.len() == m@.dom().len(),
{
    let mut out: Vec<i64> = Vec::new();
    let iter = m.keys();
    let ghost key_seq = iter.remaining().unref();
    proof {
        assert(key_seq.no_duplicates()) by {
            assert forall|a: int, b: int| 0 <= a < b < key_seq.len() implies key_seq[a]
                != key_seq[b] by {
                assert(iter.remaining()[a] != iter.remaining()[b]);
            }
        }
        assert(out@ =~= key_seq.take(0));
    }
    for k in it: iter
        invariant
            key_seq == it.seq().unref(),
            out@ == key_seq.take(it.index()),
    {
        proof {
            assert(*k == key_seq[it.index() as int]);
        }
        out.push(*k);
        proof {
            assert(out@ =~= key_seq.take(it.index() + 1));
        }
    }
    proof {
        assert(key_seq.take(key_seq.len() as int) =~= key_seq);
    }
    out
}

/// `s` is in strictly ascending order (so it holds no value twice).
pub open spec fn strictly_sorted(s: Seq<i64>) -> bool {
    forall|i: int, j: int| 0 <= i < j < s.len() ==> s[i] < s[j]
}

/// Insert `x` into the strictly ascending list `v`, unless it is there already.
pub fn insert_sorted_unique(v: &mut Vec<i64>, x: i64)
    requires
        strictly_sorted(old(v)@),
    ensures
        strictly_sorted(final(v)@),
        final(v)@.to_set() == old(v)@.to_set().insert(x),
{
    let mut i: usize = 0;
    while i < v.len() && v[i] < x
        invariant
            i <= v.len(),
            strictly_sorted(v@),
            forall|k: int| 0 <= k < i ==> v@[k] < x,
        decreases v.len() - i,
    {
        i = i + 1;
    }
    if i < v.len() && v[i] == x {
        assert(v@.to_set() =~= v@.to_set().insert(x)) by {
            assert(v@.contains(x)) by {
                assert(v@[i as int] == x);
            }
        }
        return;
    }
    let ghost before = v@;
    v.insert(i, x);
    proof {
        assert forall|a: int, b: int| 0 <= a < b < v@.len() implies v@[a] < v@[b] by {
            if b < i {
            } else if b == i {
            } else if a < i {
                assert(v@[b] == before[b - 1]);
                assert(before[b - 1] > x) by {
                    assert(before[i as int] >= x);
                    if b - 1 > i {
                        assert(before[i as int] < before[b - 1]);
                    }
                }
            } else if a == i {
                assert(v@[b] == before[b - 1]);
                assert(before[i as int] >= x);
                assert(before[i as int] != x);
                if b - 1 > i {
                    assert(before[i as int] < before[b - 1]);
                }
            } else {
                assert(v@[a] == before[a - 1]);
                assert(v@[b] == before[b - 1]);
            }
        }
        assert forall|z: i64| v@.to_set().contains(z) <==> before.to_set().insert(x).contains(z) by {
            if v@.contains(z) {
                let k = choose|k: int| 0 <= k < v@.len() && v@[k] == z;
                if k < i {
                    assert(before[k] == z);
                } else if k > i {
                    assert(before[k - 1] == z);
                }
            }
            if before.contains(z) {
                let k = choose|k: int| 0 <= k < before.len() && before[k] == z;
                if k < i {
                    assert(v@[k] == z);
                } else {
                    assert(v@[k + 1] == z);
                }
            }
            if z == x {
                assert(v@[i as int] == x);
            }
        }
        assert(v@.to_set() =~= before.to_set().insert(x));
    }
}

} // verus!
