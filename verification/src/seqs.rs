//! Sequence and multiset helpers: the shared sorting routine behind every
//! merge step, and the lemmas that connect reordering with element-wise
//! mapping.

use vstd::prelude::*;

verus! {

use vstd::multiset::Multiset;
use vstd::seq_lib::group_to_multiset_ensures;

/// Mapping a function over two sequences with the same multiset gives two
/// sequences with the same multiset.
pub proof fn lemma_map_multiset<A, B>(s: Seq<A>, t: Seq<A>, f: spec_fn(A) -> B)
    requires
        s.to_multiset() == t.to_multiset(),
    ensures
        s.map_values(f).to_multiset() == t.map_values(f).to_multiset(),
    decreases s.len(),
{
    broadcast use group_to_multiset_ensures;

    if s.len() == 0 {
        assert(t.to_multiset().len() == 0);
        assert(t.len() == 0);
        assert(s.map_values(f) =~= t.map_values(f));
    } else {
        let a = s.last();
        assert(s.contains(a));
        assert(s.to_multiset().count(a) > 0);
        assert(t.to_multiset().count(a) > 0);
        assert(t.contains(a));
        let j = choose|j: int| 0 <= j < t.len() && t[j] == a;
        let s1 = s.drop_last();
        let t1 = t.remove(j);
        assert(s1.to_multiset() =~= s.to_multiset().remove(a)) by {
            assert(s.remove(s.len() - 1) =~= s1);
            assert(s.remove(s.len() - 1).to_multiset() =~= s.to_multiset().remove(a));
        }
        assert(t1.to_multiset() =~= t.to_multiset().remove(a));
        lemma_map_multiset(s1, t1, f);
        assert(s.map_values(f) =~= s1.map_values(f).push(f(a)));
        assert(t.map_values(f).remove(j) =~= t1.map_values(f));
        assert(t.map_values(f).remove(j).to_multiset() =~= t.map_values(f).to_multiset().remove(
            f(a),
        )) by {
            assert(t.map_values(f)[j] == f(a));
        }
        assert(t.map_values(f).contains(t.map_values(f)[j]));
        assert(t.map_values(f).to_multiset().count(f(a)) > 0);
        assert(s.map_values(f).to_multiset() =~= t.map_values(f).to_multiset());
    }
}

/// Sorts key/payload pairs by the key, ascending. The result is a
/// permutation of the input; ties may come out in any order.
pub fn sort_by_key<T>(v: Vec<(i64, T)>) -> (r: Vec<(i64, T)>)
    ensures
        r@.to_multiset() == v@.to_multiset(),
        r@.len() == v@.len(),
        forall|i: int, j: int| 0 <= i < j < r@.len() ==> r@[i].0 <= r@[j].0,
{
    broadcast use group_to_multiset_ensures;

    let mut rest = v;
    let mut out: Vec<(i64, T)> = Vec::new();
    proof {
        assert(out@.to_multiset().add(rest@.to_multiset()) =~= v@.to_multiset()) by {
            assert(out@.to_multiset().len() == 0);
        }
    }
    while rest.len() > 0
        invariant
            out@.to_multiset().add(rest@.to_multiset()) == v@.to_multiset(),
            out@.len() + rest@.len() == v@.len(),
            forall|i: int, j: int| 0 <= i < j < out@.len() ==> out@[i].0 <= out@[j].0,
            forall|i: int, j: int|
                0 <= i < out@.len() && 0 <= j < rest@.len() ==> out@[i].0 <= rest@[j].0,
        decreases rest@.len(),
    {
        let mut m: usize = 0;
        let mut k: usize = 1;
        while k < rest.len()
            invariant
                0 <= m < k <= rest@.len(),
                rest@.len() > 0,
                forall|t: int| 0 <= t < k ==> rest@[m as int].0 <= rest@[t].0,
            decreases rest@.len() - k,
        {
            if rest[k].0 < rest[m].0 {
                m = k;
            }
            k += 1;
        }
        let ghost prev = rest@;
        let ghost old_out = out@;
        let x = rest.remove(m);
        out.push(x);
        proof {
            broadcast use group_to_multiset_ensures;

            assert(prev.contains(x)) by {
                assert(prev[m as int] == x);
            }
            assert(rest@ == prev.remove(m as int));
            assert(prev.remove(m as int).to_multiset() =~= prev.to_multiset().remove(
                prev[m as int],
            ));
            assert(prev.to_multiset().count(x) > 0);
            assert(rest@.to_multiset() =~= prev.to_multiset().remove(x));
            assert(out@.to_multiset() =~= old_out.to_multiset().insert(x));
            assert(out@.to_multiset().add(rest@.to_multiset()) =~= old_out.to_multiset().add(
                prev.to_multiset(),
            ));
            assert(forall|j: int|
                0 <= j < rest@.len() ==> #[trigger] rest@[j].0 >= x.0) by {
                assert(forall|j: int|
                    0 <= j < rest@.len() ==> rest@[j] == prev[if j < m as int {
                        j
                    } else {
                        j + 1
                    }]);
            }
        }
    }
    proof {
        assert(rest@.to_multiset().len() == 0);
        assert(out@.to_multiset() =~= out@.to_multiset().add(rest@.to_multiset()));
    }
    out
}

} // verus!
