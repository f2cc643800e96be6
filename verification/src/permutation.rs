//! Rankings: sequences that hold every position below some bound exactly
//! once, and the rank of a position in one.
use vstd::prelude::*;
use vstd::set_lib::FiniteRange;

verus! {

/// `s` ranks the indices below `n`: it holds each of them exactly once.
pub open spec fn is_permutation(s: Seq<usize>, n: nat) -> bool {
    &&& s.len() == n
    &&& forall|k: int| 0 <= k < s.len() ==> (#[trigger] s[k]) < n
    &&& s.no_duplicates()
}

/// The identity ranking `0, 1, .., n - 1`.
pub open spec fn identity(n: nat) -> Seq<usize> {
    Seq::new(n, |k: int| k as usize)
}

/// The position at which `x` first stands in `s`, counted from 0, and
/// `usize::MAX` where `x` does not stand in `s` at all.
pub open spec fn rank(s: Seq<usize>, x: usize) -> int {
    match s.index_of_first(x) {
        Some(k) => k,
        None => usize::MAX as int,
    }
}

/// What `rank` is, spelled out: the first position of a value that occurs,
/// and `usize::MAX` for one that does not.
pub proof fn lemma_rank(s: Seq<usize>, x: usize)
    ensures
        s.contains(x) ==> 0 <= rank(s, x) < s.len() && s[rank(s, x)] == x,
        s.contains(x) ==> forall|k: int| 0 <= k < rank(s, x) ==> s[k] != x,
        !s.contains(x) ==> rank(s, x) == usize::MAX,
{
    s.index_of_first_ensures(x);
}

/// A position that holds `x` with no earlier occurrence is the rank of `x`.
pub proof fn lemma_rank_is(s: Seq<usize>, x: usize, k: int)
    requires
        0 <= k < s.len(),
        s[k] == x,
        forall|j: int| 0 <= j < k ==> s[j] != x,
    ensures
        rank(s, x) == k,
{
    lemma_rank(s, x);
    assert(s.contains(x));
}

/// In a ranking without repetitions every entry's rank is its position.
pub proof fn lemma_rank_at(s: Seq<usize>, k: int)
    requires
        s.no_duplicates(),
        0 <= k < s.len(),
    ensures
        rank(s, s[k]) == k,
{
    lemma_rank_is(s, s[k], k);
}

/// A sequence without repetitions whose entries are all below `n` has at most
/// `n` entries.
pub proof fn lemma_distinct_bounded_len(s: Seq<usize>, n: usize)
    requires
        s.no_duplicates(),
        forall|k: int| 0 <= k < s.len() ==> (#[trigger] s[k]) < n,
    ensures
        s.len() <= n,
{
    let below = Set::<usize>::range(0, n);
    usize::range_properties(0, n);
    s.unique_seq_to_set();
    assert(s.to_set().subset_of(below)) by {
        assert forall|x: usize| s.to_set().contains(x) implies below.contains(x) by {
            let k = choose|k: int| 0 <= k < s.len() && s[k] == x;
            assert(s[k] < n);
        }
    }
    vstd::set_lib::lemma_len_subset(s.to_set(), below);
}

/// A sequence of `n` distinct indices below `n` holds every index below `n`.
pub proof fn lemma_permutation_contains(s: Seq<usize>, n: usize, x: usize)
    requires
        is_permutation(s, n as nat),
        x < n,
    ensures
        s.contains(x),
        0 <= rank(s, x) < n,
        s[rank(s, x)] == x,
{
    let below = Set::<usize>::range(0, n);
    usize::range_properties(0, n);
    s.unique_seq_to_set();
    assert(s.to_set().subset_of(below)) by {
        assert forall|y: usize| s.to_set().contains(y) implies below.contains(y) by {
            let k = choose|k: int| 0 <= k < s.len() && s[k] == y;
            assert(s[k] < n);
        }
    }
    vstd::set_lib::lemma_len_subset(s.to_set(), below);
    vstd::set_lib::lemma_subset_equality(s.to_set(), below);
    assert(below.contains(x));
    assert(s.to_set().contains(x));
    lemma_rank(s, x);
}

/// Two indices below `n` with the same rank in a ranking of `0..n` are equal.
pub proof fn lemma_rank_injective(s: Seq<usize>, n: usize, x: usize, y: usize)
    requires
        is_permutation(s, n as nat),
        x < n,
        y < n,
        rank(s, x) == rank(s, y),
    ensures
        x == y,
{
    lemma_permutation_contains(s, n, x);
    lemma_permutation_contains(s, n, y);
}

/// A sequence without repetitions that holds every index below `n` has at
/// least `n` entries.
pub proof fn lemma_distinct_covering_len(s: Seq<usize>, n: usize)
    requires
        s.no_duplicates(),
        forall|x: usize| x < n ==> s.contains(x),
    ensures
        s.len() >= n,
{
    let below = Set::<usize>::range(0, n);
    usize::range_properties(0, n);
    s.unique_seq_to_set();
    assert(below.subset_of(s.to_set())) by {
        assert forall|x: usize| below.contains(x) implies s.to_set().contains(x) by {
            assert(s.contains(x));
        }
    }
    vstd::seq_lib::seq_to_set_is_finite(s);
    vstd::set_lib::lemma_len_subset(below, s.to_set());
}

/// Appending a value that does not occur yet keeps a sequence free of
/// repetitions.
pub proof fn lemma_push_distinct(s: Seq<usize>, x: usize)
    requires
        s.no_duplicates(),
        !s.contains(x),
    ensures
        s.push(x).no_duplicates(),
{
    let t = s.push(x);
    assert forall|a: int, b: int| 0 <= a < t.len() && 0 <= b < t.len() && a != b implies t[a]
        != t[b] by {
        if a == s.len() {
            assert(s[b] == t[b]);
        } else if b == s.len() {
            assert(s[a] == t[a]);
        }
    }
}

/// Whether `x` occurs in `v`.
pub fn contains(v: &Vec<usize>, x: usize) -> (b: bool)
    ensures
        b == v@.contains(x),
{
    let n: usize = v.len();
    let mut k: usize = 0;
    while k < n
        invariant
            k <= n,
            n == v@.len(),
            forall|t: int| 0 <= t < k ==> v@[t] != x,
        decreases n - k,
    {
        if v[k] == x {
            return true;
        }
        k += 1;
    }
    false
}

/// A rearrangement of a ranking of `0..n` is a ranking of `0..n`.
pub proof fn lemma_rearranged_is_permutation(a: Seq<usize>, b: Seq<usize>, n: nat)
    requires
        is_permutation(a, n),
        a.to_multiset() == b.to_multiset(),
    ensures
        is_permutation(b, n),
{
    a.to_multiset_ensures();
    b.to_multiset_ensures();
    a.lemma_multiset_has_no_duplicates();
    b.lemma_multiset_has_no_duplicates_conv();
    assert forall|k: int| 0 <= k < b.len() implies (#[trigger] b[k]) < n by {
        assert(b.contains(b[k]));
        assert(b.to_multiset().count(b[k]) > 0);
        assert(a.to_multiset().count(b[k]) > 0);
        assert(a.contains(b[k]));
        let t = choose|t: int| 0 <= t < a.len() && a[t] == b[k];
        assert(a[t] < n);
    }
}

/// The ranking `0, 1, .., n - 1`.
pub fn identity_ranking(n: usize) -> (v: Vec<usize>)
    ensures
        v@ == identity(n as nat),
{
    let mut v: Vec<usize> = Vec::new();
    let mut k: usize = 0;
    while k < n
        invariant
            k <= n,
            v@.len() == k,
            forall|t: int| 0 <= t < k ==> v@[t] == t,
        decreases n - k,
    {
        v.push(k);
        k += 1;
    }
    assert(v@ =~= identity(n as nat));
    v
}

/// The identity ranking is a ranking of `0..n`.
pub proof fn lemma_identity_is_permutation(n: usize)
    ensures
        is_permutation(identity(n as nat), n as nat),
{
}

/// Decides whether `v` ranks the indices below `n`, each exactly once.
pub fn check_permutation(v: &Vec<usize>, n: usize) -> (b: bool)
    ensures
        b == is_permutation(v@, n as nat),
{
    if v.len() != n {
        return false;
    }
    let mut seen: Vec<bool> = Vec::new();
    let mut c: usize = 0;
    while c < n
        invariant
            c <= n,
            seen@.len() == c,
            forall|x: int| 0 <= x < c ==> !(#[trigger] seen@[x]),
        decreases n - c,
    {
        seen.push(false);
        c += 1;
    }
    let mut k: usize = 0;
    while k < n
        invariant
            k <= n,
            v@.len() == n,
            seen@.len() == n,
            forall|j: int| 0 <= j < k ==> (#[trigger] v@[j]) < n,
            forall|a: int, b: int| 0 <= a < b < k ==> v@[a] != v@[b],
            forall|x: int| 0 <= x < n ==> (#[trigger] seen@[x] <==> exists|j: int|
                0 <= j < k && v@[j] == x),
        decreases n - k,
    {
        let x: usize = v[k];
        if x >= n {
            return false;
        }
        if seen[x] {
            proof {
                let j = choose|j: int| 0 <= j < k && v@[j] == x;
                assert(v@[j] == v@[k as int]);
            }
            return false;
        }
        proof {
            assert forall|a: int, b: int| 0 <= a < b < k + 1 implies v@[a] != v@[b] by {
                if b == k && v@[a] == v@[b] {
                    assert(seen@[x as int]);
                }
            }
        }
        let ghost before = seen@;
        seen[x] = true;
        proof {
            assert forall|y: int| 0 <= y < n implies (#[trigger] seen@[y] <==> exists|j: int|
                0 <= j < k + 1 && v@[j] == y) by {
                if y == x {
                    assert(v@[k as int] == y);
                } else {
                    assert(seen@[y] == before[y]);
                    if before[y] {
                        let j = choose|j: int| 0 <= j < k && v@[j] == y;
                        assert(0 <= j < k + 1 && v@[j] == y);
                    }
                    if exists|j: int| 0 <= j < k + 1 && v@[j] == y {
                        let j = choose|j: int| 0 <= j < k + 1 && v@[j] == y;
                        assert(j != k);
                        assert(0 <= j < k && v@[j] == y);
                    }
                }
            }
        }
        k += 1;
    }
    true
}

} // verus!
