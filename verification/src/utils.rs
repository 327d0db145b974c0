//! Small general-purpose helpers.

use vstd::prelude::*;
use vstd::std_specs::cmp::PartialEqSpec;

verus! {

/// Some element of `s` equals `x` under `T`'s equality.
pub open spec fn contains_eq<T: PartialEq>(s: Seq<T>, x: T) -> bool {
    exists|k: int| 0 <= k < s.len() && s[k].eq_spec(&x)
}

/// The elements of `s1`, in order, whose equals do not occur in `s2`.
pub open spec fn seq_difference<T: PartialEq>(s1: Seq<T>, s2: Seq<T>) -> Seq<T>
    decreases s1.len(),
{
    if s1.len() == 0 {
        Seq::empty()
    } else if contains_eq(s2, s1[0]) {
        seq_difference(s1.drop_first(), s2)
    } else {
        seq![s1[0]] + seq_difference(s1.drop_first(), s2)
    }
}

fn contains_item<T: PartialEq + Copy>(v: &[T], item: T) -> (r: bool)
    ensures
        T::obeys_eq_spec() ==> (r <==> contains_eq(v@, item)),
{
    let mut k: usize = 0;
    while k < v.len()
        invariant
            k <= v@.len(),
            T::obeys_eq_spec() ==> !(exists|t: int| 0 <= t < k && v@[t].eq_spec(&item)),
        decreases v@.len() - k,
    {
        if v[k] == item {
            return true;
        }
        k += 1;
    }
    false
}

/// The elements of `v1`, in their original order, that do not occur in `v2`
/// by `==`. The postcondition describes the result whenever `T`'s equality
/// obeys its specification (which holds of every type whose `==` vstd
/// models).
pub fn substract_vec<T>(v1: &[T], v2: &[T]) -> (result: Vec<T>) where T: PartialEq + Copy
    ensures
        T::obeys_eq_spec() ==> result@ == seq_difference(v1@, v2@),
{
    let mut result: Vec<T> = Vec::new();
    let mut i: usize = 0;
    proof {
        assert(v1@.skip(0) =~= v1@);
    }
    while i < v1.len()
        invariant
            i <= v1@.len(),
            T::obeys_eq_spec() ==> seq_difference(v1@, v2@) == result@ + seq_difference(
                v1@.skip(i as int),
                v2@,
            ),
        decreases v1@.len() - i,
    {
        let item = v1[i];
        let found = contains_item(v2, item);
        proof {
            assert(v1@.skip(i as int).drop_first() =~= v1@.skip(i as int + 1));
            assert(v1@.skip(i as int)[0] == v1@[i as int]);
        }
        if !found {
            result.push(item);
        }
        proof {
            if T::obeys_eq_spec() {
                if !found {
                    assert(result@ =~= result@.drop_last() + seq![item]);
                    assert((result@.drop_last() + seq![item]) + seq_difference(
                        v1@.skip(i as int + 1),
                        v2@,
                    ) =~= result@.drop_last() + (seq![item] + seq_difference(
                        v1@.skip(i as int + 1),
                        v2@,
                    )));
                }
            }
        }
        i += 1;
    }
    proof {
        assert(v1@.skip(v1@.len() as int) =~= Seq::<T>::empty());
        if T::obeys_eq_spec() {
            assert(result@ + Seq::<T>::empty() =~= result@);
        }
    }
    result
}

} // verus!
