//! Sorting signal values and reducing them to their distinct values.

use vstd::prelude::*;
use crate::dist_transform::is_sorted;

verus! {

/// Strictly ascending: every value occurs once.
pub open spec fn is_strictly_sorted(v: Seq<i64>) -> bool {
    forall|i: int, j: int| 0 <= i < j < v.len() ==> v[i] < v[j]
}

/// Sorts `v` ascending with the standard library's `<[i64]>::sort_unstable`,
/// which the standard library documents as sorting the slice in place: the
/// result is ascending and is a permutation of the input.
#[verifier::external_body]
pub(crate) fn sort_ascending(v: &mut Vec<i64>)
    ensures
        final(v)@.to_multiset() == old(v)@.to_multiset(),
        is_sorted(final(v)@),
{
    v.sort_unstable();
}

/// The distinct values of `y`, ascending.
pub fn sorted_unique(y: &[i64]) -> (v: Vec<i64>)
    ensures
        is_strictly_sorted(v@),
        forall|t: i64| v@.contains(t) <==> y@.contains(t),
        v@.len() <= y@.len(),
{
    broadcast use vstd::seq_lib::group_to_multiset_ensures;

    let mut s = vstd::slice::slice_to_vec(y);
    sort_ascending(&mut s);
    proof {
        assert forall|t: i64| s@.contains(t) <==> y@.contains(t) by {
            assert(s@.contains(t) <==> s@.to_multiset().count(t) > 0);
            assert(y@.contains(t) <==> y@.to_multiset().count(t) > 0);
        }
        assert(s@.len() == s@.to_multiset().len());
        assert(y@.len() == y@.to_multiset().len());
    }
    let mut v: Vec<i64> = Vec::new();
    let mut i: usize = 0;
    while i < s.len()
        invariant
            0 <= i <= s@.len(),
            is_sorted(s@),
            is_strictly_sorted(v@),
            v@.len() <= i,
            i > 0 ==> v@.len() > 0 && v@[v@.len() - 1] == s@[i - 1],
            forall|t: i64| v@.contains(t) <==> exists|j: int| 0 <= j < i && s@[j] == t,
        decreases s@.len() - i,
    {
        let x = s[i];
        let ghost old_v = v@;
        if v.len() == 0 || v[v.len() - 1] != x {
            proof {
                if v@.len() > 0 {
                    assert(s@[i - 1] <= s@[i as int]);
                }
            }
            v.push(x);
            proof {
                assert forall|t: i64| v@.contains(t) <==> exists|j: int| 0 <= j < i + 1 && s@[j] == t by {
                    if v@.contains(t) {
                        let q = choose|q: int| 0 <= q < v@.len() && v@[q] == t;
                        if q == old_v.len() {
                            assert(s@[i as int] == t);
                        } else {
                            assert(old_v.contains(t));
                        }
                    }
                    if exists|j: int| 0 <= j < i + 1 && s@[j] == t {
                        let j = choose|j: int| 0 <= j < i + 1 && s@[j] == t;
                        if j == i {
                            assert(v@[old_v.len() as int] == t);
                        } else {
                            assert(old_v.contains(t));
                            let q = choose|q: int| 0 <= q < old_v.len() && old_v[q] == t;
                            assert(v@[q] == t);
                        }
                    }
                }
            }
        } else {
            proof {
                assert forall|t: i64| v@.contains(t) <==> exists|j: int| 0 <= j < i + 1 && s@[j] == t by {
                    if exists|j: int| 0 <= j < i + 1 && s@[j] == t {
                        let j = choose|j: int| 0 <= j < i + 1 && s@[j] == t;
                        if j == i {
                            assert(v@[v@.len() - 1] == t);
                        }
                    }
                }
            }
        }
        i += 1;
    }
    proof {
        assert forall|t: i64| v@.contains(t) <==> s@.contains(t) by {
            if s@.contains(t) {
                let j = choose|j: int| 0 <= j < s@.len() && s@[j] == t;
                assert(exists|j: int| 0 <= j < i && s@[j] == t);
            }
        }
    }
    v
}

} // verus!
