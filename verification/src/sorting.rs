use vstd::prelude::*;

verus! {

/// Each element of `r` comes strictly before every later one.
pub open spec fn strictly_sorted<T>(r: Seq<T>, lt: spec_fn(T, T) -> bool) -> bool {
    forall|a: int, b: int| 0 <= a < b < r.len() ==> lt(#[trigger] r[a], #[trigger] r[b])
}

/// `lt` is irreflexive and asymmetric.
pub open spec fn strict_order<T>(lt: spec_fn(T, T) -> bool) -> bool {
    &&& forall|x: T| !(#[trigger] lt(x, x))
    &&& forall|x: T, y: T| #[trigger] lt(x, y) ==> !lt(y, x)
}

/// Two sequences sorted strictly by the same order, holding the same
/// elements, are equal.
pub proof fn lemma_sorted_unique<T>(r1: Seq<T>, r2: Seq<T>, lt: spec_fn(T, T) -> bool)
    requires
        strict_order(lt),
        strictly_sorted(r1, lt),
        strictly_sorted(r2, lt),
        forall|x: T| r1.contains(x) <==> r2.contains(x),
    ensures
        r1 == r2,
    decreases r1.len() + r2.len(),
{
    if r1.len() == 0 {
        if r2.len() > 0 {
            assert(r2.contains(r2[0]));
        }
        assert(r1 =~= r2);
    } else {
        assert(r1.contains(r1[0]));
        let k = choose|k: int| 0 <= k < r2.len() && r2[k] == r1[0];
        assert(r2.contains(r2[0]));
        let j = choose|j: int| 0 <= j < r1.len() && r1[j] == r2[0];
        if j > 0 && k > 0 {
            assert(lt(r1[0], r1[j]));
            assert(lt(r2[0], r2[k]));
        }
        assert(r1[0] == r2[0]);
        let h = r1[0];
        let t1 = r1.drop_first();
        let t2 = r2.drop_first();
        assert forall|x: T| t1.contains(x) <==> t2.contains(x) by {
            if t1.contains(x) {
                let i = choose|i: int| 0 <= i < t1.len() && t1[i] == x;
                assert(r1[i + 1] == x);
                assert(lt(r1[0], r1[i + 1]));
                assert(r1.contains(x));
                let q = choose|q: int| 0 <= q < r2.len() && r2[q] == x;
                assert(q != 0);
                assert(t2[q - 1] == x);
            }
            if t2.contains(x) {
                let i = choose|i: int| 0 <= i < t2.len() && t2[i] == x;
                assert(r2[i + 1] == x);
                assert(lt(r2[0], r2[i + 1]));
                assert(r2.contains(x));
                let q = choose|q: int| 0 <= q < r1.len() && r1[q] == x;
                assert(q != 0);
                assert(t1[q - 1] == x);
            }
        }
        assert(strictly_sorted(t1, lt)) by {
            assert forall|a: int, b: int| 0 <= a < b < t1.len() implies lt(#[trigger] t1[a], #[trigger] t1[b]) by {
                assert(t1[a] == r1[a + 1] && t1[b] == r1[b + 1]);
            }
        }
        assert(strictly_sorted(t2, lt)) by {
            assert forall|a: int, b: int| 0 <= a < b < t2.len() implies lt(#[trigger] t2[a], #[trigger] t2[b]) by {
                assert(t2[a] == r2[a + 1] && t2[b] == r2[b + 1]);
            }
        }
        lemma_sorted_unique(t1, t2, lt);
        assert(r1 =~= seq![h] + t1);
        assert(r2 =~= seq![h] + t2);
    }
}

} // verus!
