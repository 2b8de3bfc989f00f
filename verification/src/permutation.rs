//! Permutations of the positions `0..n`, and what rearranging a sequence
//! along one preserves.

use vstd::prelude::*;
use vstd::seq_lib::{to_multiset_build, to_multiset_contains, to_multiset_remove};
use vstd::set_lib::{lemma_int_range, set_int_range};

verus! {

/// `p` lists every position below `n` exactly once.
pub open spec fn is_permutation(p: Seq<int>, n: nat) -> bool {
    &&& p.len() == n
    &&& p.no_duplicates()
    &&& forall|x: int| 0 <= x < n <==> #[trigger] p.contains(x)
}

/// The positions `0, 1, .., n - 1` in their own order.
pub open spec fn identity(n: nat) -> Seq<int> {
    Seq::new(n, |i: int| i)
}

/// The sequence whose `i`-th item is the item of `s` at position `p[i]`.
pub open spec fn permute<T>(p: Seq<int>, s: Seq<T>) -> Seq<T> {
    Seq::new(p.len(), |i: int| s[p[i]])
}

/// The identity is a permutation, and permuting along it changes nothing.
pub proof fn lemma_identity_is_permutation<T>(s: Seq<T>)
    ensures
        is_permutation(identity(s.len()), s.len()),
        permute(identity(s.len()), s) == s,
{
    let p = identity(s.len());
    assert forall|x: int| 0 <= x < s.len() <==> #[trigger] p.contains(x) by {
        if 0 <= x < s.len() {
            assert(p[x] == x);
        }
    }
    assert(permute(p, s) =~= s);
}

/// A sequence without repeats that holds exactly the positions below `n`
/// has length `n`.
pub proof fn lemma_distinct_positions_len(p: Seq<int>, n: nat)
    requires
        p.no_duplicates(),
        forall|x: int| 0 <= x < n <==> #[trigger] p.contains(x),
    ensures
        p.len() == n,
{
    p.unique_seq_to_set();
    lemma_int_range(0, n as int);
    assert(p.to_set() =~= set_int_range(0, n as int));
}

/// Following one permutation and then another is again a permutation.
pub proof fn lemma_permutation_compose(p: Seq<int>, q: Seq<int>, n: nat)
    requires
        is_permutation(p, n),
        is_permutation(q, n),
    ensures
        is_permutation(permute(q, p), n),
{
    let r = permute(q, p);
    assert forall|i: int| 0 <= i < n implies 0 <= #[trigger] q[i] < n by {
        assert(q.contains(q[i]));
    }
    assert forall|i: int, j: int| 0 <= i < n && 0 <= j < n && i != j implies r[i] != r[j] by {
        assert(q[i] != q[j]);
    }
    assert forall|x: int| 0 <= x < n <==> #[trigger] r.contains(x) by {
        if 0 <= x < n {
            assert(p.contains(x));
            let a: int = choose|a: int| 0 <= a < n && p[a] == x;
            assert(q.contains(a));
            let b: int = choose|b: int| 0 <= b < n && q[b] == a;
            assert(r[b] == x);
        }
        if r.contains(x) {
            let b: int = choose|b: int| 0 <= b < n && r[b] == x;
            assert(p.contains(p[q[b]]));
        }
    }
}

/// Rearranging a sequence along a permutation of its positions keeps every
/// item, with its multiplicity.
pub proof fn lemma_permute_multiset<T>(p: Seq<int>, s: Seq<T>)
    requires
        is_permutation(p, s.len()),
    ensures
        permute(p, s).to_multiset() == s.to_multiset(),
    decreases s.len(),
{
    let out = permute(p, s);
    if s.len() == 0 {
        assert(out =~= s);
    } else {
        let top: int = s.len() - 1;
        assert(p.contains(top));
        let t: int = choose|t: int| 0 <= t < p.len() && p[t] == top;
        let q = p.remove(t);
        let rest = s.drop_last();
        assert forall|i: int| 0 <= i < p.len() implies 0 <= #[trigger] p[i] < s.len() by {
            assert(p.contains(p[i]));
        }
        assert(q.no_duplicates()) by {
            assert forall|i: int, j: int|
                0 <= i < q.len() && 0 <= j < q.len() && i != j implies q[i] != q[j] by {
                let a: int = if i < t { i } else { i + 1 };
                let b: int = if j < t { j } else { j + 1 };
                assert(q[i] == p[a] && q[j] == p[b]);
            }
        }
        assert forall|x: int| 0 <= x < rest.len() <==> #[trigger] q.contains(x) by {
            if 0 <= x < rest.len() {
                assert(p.contains(x));
                let a: int = choose|a: int| 0 <= a < p.len() && p[a] == x;
                let i: int = if a < t { a } else { a - 1 };
                assert(q[i] == x);
            }
            if q.contains(x) {
                let i: int = choose|i: int| 0 <= i < q.len() && q[i] == x;
                let a: int = if i < t { i } else { i + 1 };
                assert(q[i] == p[a]);
                assert(p[a] != p[t]);
            }
        }
        lemma_permute_multiset(q, rest);
        assert(out.remove(t) =~= permute(q, rest)) by {
            assert forall|i: int| 0 <= i < q.len() implies out.remove(t)[i] == permute(q, rest)[i] by {
                let a: int = if i < t { i } else { i + 1 };
                assert(q[i] == p[a]);
                assert(p[a] != p[t]);
            }
        }
        to_multiset_remove(out, t);
        assert(s =~= rest.push(s[top]));
        to_multiset_build(rest, s[top]);
        assert(out[t] == s[top]);
        to_multiset_contains(out, s[top]);
        assert(out.to_multiset() =~= out.to_multiset().remove(s[top]).insert(s[top]));
    }
}

} // verus!
