//! Strict orders and the sequences sorted by them.

use vstd::prelude::*;

verus! {

/// `lt` is a strict total order on the values of `s`: irreflexive,
/// transitive, and any two different values are comparable.
pub open spec fn strict_total_on<T>(lt: spec_fn(T, T) -> bool, s: Set<T>) -> bool {
    &&& forall|a: T| s.contains(a) ==> !lt(a, a)
    &&& forall|a: T, b: T, c: T|
        s.contains(a) && s.contains(b) && s.contains(c) && #[trigger] lt(a, b) && #[trigger] lt(
            b,
            c,
        ) ==> lt(a, c)
    &&& forall|a: T, b: T| s.contains(a) && s.contains(b) && a != b ==> lt(a, b) || lt(b, a)
}

/// Every element of `q` comes strictly before every later one.
pub open spec fn strictly_sorted<T>(q: Seq<T>, lt: spec_fn(T, T) -> bool) -> bool {
    forall|i: int, j: int| 0 <= i < j < q.len() ==> lt(#[trigger] q[i], #[trigger] q[j])
}

/// Two sequences strictly sorted by the same strict total order and holding
/// the same elements are equal: the sorted order of a set is unique.
pub proof fn lemma_sorted_unique<T>(a: Seq<T>, b: Seq<T>, lt: spec_fn(T, T) -> bool)
    requires
        strict_total_on(lt, a.to_set()),
        strictly_sorted(a, lt),
        strictly_sorted(b, lt),
        a.to_set() == b.to_set(),
    ensures
        a == b,
    decreases a.len(),
{
    if a.len() == 0 {
        if b.len() > 0 {
            assert(b.to_set().contains(b[0]));
        }
        assert(a =~= b);
    } else if b.len() == 0 {
        assert(a.to_set().contains(a[0]));
    } else {
        // Both first elements are the least element of the common set.
        assert(a.to_set().contains(b[0]));
        assert(b.to_set().contains(a[0]));
        if a[0] != b[0] {
            let i = choose|i: int| 0 <= i < a.len() && a[i] == b[0];
            let j = choose|j: int| 0 <= j < b.len() && b[j] == a[0];
            assert(i > 0);
            assert(j > 0);
            assert(lt(a[0], a[i]));
            assert(lt(b[0], b[j]));
            assert(a.to_set().contains(a[i]));
            assert(false);
        }
        let a1 = a.drop_first();
        let b1 = b.drop_first();
        assert forall|x: T| a1.to_set().contains(x) implies b1.to_set().contains(x) by {
            let i = choose|i: int| 0 <= i < a1.len() && a1[i] == x;
            assert(a[i + 1] == x);
            assert(lt(a[0], x));
            assert(a.to_set().contains(x));
            assert(b.to_set().contains(x));
            let j = choose|j: int| 0 <= j < b.len() && b[j] == x;
            if j == 0 {
                assert(x == a[0]);
                assert(a.to_set().contains(a[0]));
            }
            assert(b1[j - 1] == x);
        }
        assert forall|x: T| b1.to_set().contains(x) implies a1.to_set().contains(x) by {
            let j = choose|j: int| 0 <= j < b1.len() && b1[j] == x;
            assert(b[j + 1] == x);
            assert(lt(b[0], x));
            assert(b.to_set().contains(x));
            assert(a.to_set().contains(x));
            let i = choose|i: int| 0 <= i < a.len() && a[i] == x;
            if i == 0 {
                assert(x == b[0]);
                assert(b.to_set().contains(b[0]));
            }
            assert(a1[i - 1] == x);
        }
        assert(a1.to_set() =~= b1.to_set());
        assert forall|x: T| a1.to_set().contains(x) implies a.to_set().contains(x) by {
            let i = choose|i: int| 0 <= i < a1.len() && a1[i] == x;
            assert(a[i + 1] == x);
        }
        assert forall|i: int, j: int| 0 <= i < j < a1.len() implies lt(
            #[trigger] a1[i],
            #[trigger] a1[j],
        ) by {
            assert(a1[i] == a[i + 1]);
            assert(a1[j] == a[j + 1]);
        }
        assert forall|i: int, j: int| 0 <= i < j < b1.len() implies lt(
            #[trigger] b1[i],
            #[trigger] b1[j],
        ) by {
            assert(b1[i] == b[i + 1]);
            assert(b1[j] == b[j + 1]);
        }
        lemma_sorted_unique(a1, b1, lt);
        assert(a =~= b) by {
            assert forall|k: int| 0 <= k < a.len() implies a[k] == b[k] by {
                if k > 0 {
                    assert(a[k] == a1[k - 1]);
                    assert(b[k] == b1[k - 1]);
                }
            }
        }
    }
}

} // verus!
