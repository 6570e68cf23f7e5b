//! Permutations of the city indices `0..n`: the shape of every tour, and
//! the inverse-permutation encoding used by the per-generation trace.

use vstd::prelude::*;
use vstd::relations::injective;
use vstd::set_lib::{lemma_int_range, lemma_len_subset, set_int_range};

verus! {

/// A tour is a permutation of the city indices `0..n`: as long as `n`,
/// every entry in range, and no entry repeated.
pub open spec fn is_permutation(s: Seq<usize>, n: nat) -> bool {
    &&& s.len() == n
    &&& forall|i: int| 0 <= i < s.len() ==> s[i] < n
    &&& s.no_duplicates()
}

/// Pigeonhole: `n` distinct values below `n` cover every value below `n`.
pub proof fn lemma_permutation_contains(s: Seq<usize>, n: nat, v: usize)
    requires
        is_permutation(s, n),
        v < n,
    ensures
        s.contains(v),
{
    broadcast use vstd::set::group_set_axioms;

    if !s.contains(v) {
        let f = |u: usize| u as int;
        assert(injective(f));
        let si = s.map_values(f);
        s.lemma_no_duplicates_injective(f);
        si.unique_seq_to_set();
        let holes = set_int_range(0, n as int).remove(v as int);
        lemma_int_range(0, n as int);
        assert forall|x: int| si.to_set().contains(x) implies holes.contains(x) by {
            let i = choose|i: int| 0 <= i < si.len() && si[i] == x;
            assert(s[i] < n && s[i] != v);
        }
        lemma_len_subset(si.to_set(), holes);
    }
}

/// Distinct entries below `n`: there are at most `n` of them.
pub proof fn lemma_distinct_bounded_len(s: Seq<usize>, n: nat)
    requires
        s.no_duplicates(),
        forall|i: int| 0 <= i < s.len() ==> s[i] < n,
    ensures
        s.len() <= n,
{
    broadcast use vstd::set::group_set_axioms;

    let f = |u: usize| u as int;
    assert(injective(f));
    let si = s.map_values(f);
    s.lemma_no_duplicates_injective(f);
    si.unique_seq_to_set();
    lemma_int_range(0, n as int);
    assert forall|x: int| si.to_set().contains(x) implies set_int_range(0, n as int).contains(
        x,
    ) by {
        let i = choose|i: int| 0 <= i < si.len() && si[i] == x;
        assert(s[i] < n);
    }
    lemma_len_subset(si.to_set(), set_int_range(0, n as int));
}

/// Distinct entries below `n` that miss some value below `n`: fewer
/// than `n` of them.
pub proof fn lemma_distinct_missing_len(s: Seq<usize>, n: nat, v: usize)
    requires
        s.no_duplicates(),
        forall|i: int| 0 <= i < s.len() ==> s[i] < n,
        v < n,
        !s.contains(v),
    ensures
        s.len() < n,
{
    broadcast use vstd::set::group_set_axioms;

    let f = |u: usize| u as int;
    assert(injective(f));
    let si = s.map_values(f);
    s.lemma_no_duplicates_injective(f);
    si.unique_seq_to_set();
    let holes = set_int_range(0, n as int).remove(v as int);
    lemma_int_range(0, n as int);
    assert forall|x: int| si.to_set().contains(x) implies holes.contains(x) by {
        let i = choose|i: int| 0 <= i < si.len() && si[i] == x;
        assert(s[i] < n && s[i] != v);
    }
    lemma_len_subset(si.to_set(), holes);
}

/// Distinct entries that cover every value below `n`: at least `n` of
/// them.
pub proof fn lemma_covering_len(s: Seq<usize>, n: nat)
    requires
        n <= usize::MAX,
        s.no_duplicates(),
        forall|v: usize| v < n ==> s.contains(v),
    ensures
        s.len() >= n,
{
    broadcast use vstd::set::group_set_axioms;
    broadcast use vstd::seq_lib::seq_to_set_is_finite;

    let f = |u: usize| u as int;
    assert(injective(f));
    let si = s.map_values(f);
    s.lemma_no_duplicates_injective(f);
    si.unique_seq_to_set();
    lemma_int_range(0, n as int);
    assert forall|x: int| set_int_range(0, n as int).contains(x) implies si.to_set().contains(
        x,
    ) by {
        assert(s.contains(x as usize));
        let i = choose|i: int| 0 <= i < s.len() && s[i] == x as usize;
        assert(si[i] == x);
        assert(si.contains(x));
    }
    lemma_len_subset(set_int_range(0, n as int), si.to_set());
}

/// Swapping two entries of a permutation leaves a permutation.
pub proof fn lemma_swap_is_permutation(s: Seq<usize>, n: nat, i: int, j: int)
    requires
        is_permutation(s, n),
        0 <= i < s.len(),
        0 <= j < s.len(),
    ensures
        is_permutation(s.update(i, s[j]).update(j, s[i]), n),
{
    let t = s.update(i, s[j]).update(j, s[i]);
    assert forall|a: int, b: int| 0 <= a < b < t.len() implies t[a] != t[b] by {
        assert(s[a] != s[b]);
    }
    assert(t.no_duplicates());
}

/// Two sequences with the same multiset of entries are permutations of
/// the same index range.
pub proof fn lemma_multiset_preserves_permutation(s1: Seq<usize>, s2: Seq<usize>, n: nat)
    requires
        is_permutation(s1, n),
        s1.to_multiset() == s2.to_multiset(),
    ensures
        is_permutation(s2, n),
{
    broadcast use vstd::seq_lib::group_to_multiset_ensures;

    s1.lemma_multiset_has_no_duplicates();
    s2.lemma_multiset_has_no_duplicates_conv();
    assert(s1.to_multiset().len() == s1.len());
    assert(s2.to_multiset().len() == s2.len());
    assert forall|i: int| 0 <= i < s2.len() implies s2[i] < n by {
        assert(s2.to_multiset().count(s2[i]) > 0);
        assert(s1.contains(s2[i]));
    }
}

/// Inserting an entry anywhere in a sequence adds exactly that entry to
/// its multiset.
pub proof fn lemma_insert_to_multiset<A>(s: Seq<A>, k: int, x: A)
    requires
        0 <= k <= s.len(),
    ensures
        s.insert(k, x).to_multiset() == s.to_multiset().insert(x),
{
    broadcast use vstd::seq_lib::group_to_multiset_ensures;
    broadcast use vstd::multiset::group_multiset_axioms;

    let t = s.insert(k, x);
    assert(t.remove(k) =~= s);
    assert(t[k] == x);
    assert(s.to_multiset() =~= t.to_multiset().remove(x));
    assert(t.contains(x));
    assert(t.to_multiset().count(x) > 0);
    assert forall|y: A| s.to_multiset().insert(x).count(y) == t.to_multiset().count(y) by {
        assert(s.to_multiset().count(y) == t.to_multiset().remove(x).count(y));
    }
    assert(s.to_multiset().insert(x) =~= t.to_multiset());
}

/// The inverse of a permutation: entry `c` gives the position at which
/// `c` appears. This is the position-indexed form that the trace records.
pub open spec fn inverse_perm(s: Seq<usize>) -> Seq<usize> {
    Seq::new(s.len(), |c: int| s.index_of(c as usize) as usize)
}

/// Computes the inverse of a permutation: `r[s[i]] == i` for every
/// position `i`. The result is itself a permutation.
pub fn invert_permutation(s: &Vec<usize>) -> (r: Vec<usize>)
    requires
        is_permutation(s@, s@.len()),
    ensures
        r@ == inverse_perm(s@),
        is_permutation(r@, s@.len()),
        forall|i: int| 0 <= i < s@.len() ==> r@[s@[i] as int] == i,
{
    let n = s.len();
    let mut r: Vec<usize> = Vec::new();
    let mut k: usize = 0;
    while k < n
        invariant
            r@.len() == k,
            k <= n,
            forall|j: int| 0 <= j < k ==> r@[j] == 0,
        decreases n - k,
    {
        r.push(0);
        k += 1;
    }
    let mut i: usize = 0;
    while i < n
        invariant
            n == s@.len(),
            is_permutation(s@, n as nat),
            r@.len() == n,
            i <= n,
            forall|j: int| 0 <= j < i ==> r@[s@[j] as int] == j,
        decreases n - i,
    {
        let c = s[i];
        r[c] = i;
        assert forall|j: int| 0 <= j < i + 1 implies r@[s@[j] as int] == j by {
            if j < i {
                assert(s@[j] != s@[i as int]);
            }
        }
        i += 1;
    }
    proof {
        assert forall|c: int| 0 <= c < n implies r@[c] == inverse_perm(s@)[c] && r@[c] < n by {
            lemma_permutation_contains(s@, n as nat, c as usize);
            let i0 = s@.index_of(c as usize);
            assert(0 <= i0 < n && s@[i0] == c as usize);
            assert(r@[s@[i0] as int] == i0);
        }
        assert(r@ =~= inverse_perm(s@));
        assert forall|i1: int, j1: int| 0 <= i1 < j1 < n implies r@[i1] != r@[j1] by {
            lemma_permutation_contains(s@, n as nat, i1 as usize);
            lemma_permutation_contains(s@, n as nat, j1 as usize);
            let a = s@.index_of(i1 as usize);
            let b = s@.index_of(j1 as usize);
            assert(r@[i1] == a && r@[j1] == b);
        }
        assert(r@.no_duplicates());
    }
    r
}

/// Inverting a permutation twice gives the original tour back: the
/// position-indexed trace row, read back and inverted, reconstructs the
/// tour it was written from.
pub proof fn lemma_inverse_round_trip(s: Seq<usize>)
    requires
        is_permutation(s, s.len()),
        s.len() <= usize::MAX,
    ensures
        is_permutation(inverse_perm(s), s.len()),
        inverse_perm(inverse_perm(s)) == s,
{
    let n = s.len();
    let p = inverse_perm(s);
    assert forall|c: int| 0 <= c < n implies #[trigger] p[c] < n && s[p[c] as int] == c as usize by {
        lemma_permutation_contains(s, n, c as usize);
        let i0 = s.index_of(c as usize);
        assert(0 <= i0 < n && s[i0] == c as usize);
    }
    assert forall|i: int, j: int| 0 <= i < j < n implies p[i] != p[j] by {
        assert(s[p[i] as int] == i as usize && s[p[j] as int] == j as usize);
    }
    assert(p.no_duplicates());
    assert(is_permutation(p, n));
    let q = inverse_perm(p);
    assert forall|i: int| 0 <= i < n implies q[i] == s[i] by {
        // p[s[i]] is the position of s[i] in s, which is i itself,
        // because s has no duplicates.
        let c = s[i];
        let i0 = s.index_of(c);
        assert(s[i] == s[i0]);
        assert(i0 == i);
        assert(p[c as int] == i as usize);
        // q[i] is the unique position of i in p, and p[c] == i.
        let j0 = p.index_of(i as usize);
        assert(p[j0] == i as usize);
        assert(s[p[j0] as int] == j0 as usize && s[p[c as int] as int] == c);
        assert(j0 == c as int);
    }
    assert(q =~= s);
}

} // verus!
