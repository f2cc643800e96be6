//! What a pairing of two groups is, when it is stable, and when it is the
//! best stable pairing for the proposers.
use vstd::prelude::*;
use crate::element::{partner_rank, prefers};
use crate::permutation::{is_permutation, lemma_rank_injective, rank};

verus! {

/// Every member's ranking is a ranking of the `n` positions of the opposite
/// group.
pub open spec fn valid_preferences(p: Seq<Seq<usize>>, n: nat) -> bool {
    forall|i: int| 0 <= i < p.len() ==> is_permutation(#[trigger] p[i], n)
}

/// Every partner that a member names is a position below `m`.
pub open spec fn partners_within(pa: Seq<Option<usize>>, m: nat) -> bool {
    forall|i: int| 0 <= i < pa.len() && (#[trigger] pa[i]).is_some() ==> pa[i].unwrap() < m
}

/// Every partner that a member of the first side names is a position of the
/// second side, and the member there names it back.
pub open spec fn points_back(pa: Seq<Option<usize>>, pb: Seq<Option<usize>>) -> bool {
    forall|i: usize|
        i < pa.len() && (#[trigger] pa[i as int]).is_some() ==> pa[i as int].unwrap() < pb.len()
            && pb[pa[i as int].unwrap() as int] == Some(i)
}

/// The partners of two groups form a pairing: whoever names a partner is
/// named back by it.
pub open spec fn linked(pa: Seq<Option<usize>>, pb: Seq<Option<usize>>) -> bool {
    points_back(pa, pb) && points_back(pb, pa)
}

/// The partners `pa` after the member that `slot` names, if it names one, has
/// been parted from its partner.
pub open spec fn released(pa: Seq<Option<usize>>, slot: Option<usize>) -> Seq<Option<usize>> {
    match slot {
        Some(m) => pa.update(m as int, None),
        None => pa,
    }
}

/// The partners `pa` of the first side after its member `i` has been paired
/// with member `j` of the second side, whose partners were `pb`: the former
/// partner of `j` is single, and `i` names `j`.
pub open spec fn paired(
    pa: Seq<Option<usize>>,
    pb: Seq<Option<usize>>,
    i: usize,
    j: usize,
) -> Seq<Option<usize>> {
    released(pa, pb[j as int]).update(i as int, Some(j))
}

/// Parting a member from its partner, on both sides, leaves a pairing.
pub proof fn lemma_released_linked(pa: Seq<Option<usize>>, pb: Seq<Option<usize>>, i: usize)
    requires
        linked(pa, pb),
        i < pa.len(),
    ensures
        linked(pa.update(i as int, None), released(pb, pa[i as int])),
{
    let pa2 = pa.update(i as int, None);
    let pb2 = released(pb, pa[i as int]);
    assert forall|x: usize| x < pa2.len() && (#[trigger] pa2[x as int]).is_some() implies pa2[x as int].unwrap()
        < pb2.len() && pb2[pa2[x as int].unwrap() as int] == Some(x) by {
        assert(pa[x as int].is_some());
    }
    assert forall|y: usize| y < pb2.len() && (#[trigger] pb2[y as int]).is_some() implies pb2[y as int].unwrap()
        < pa2.len() && pa2[pb2[y as int].unwrap() as int] == Some(y) by {
        assert(pb[y as int].is_some());
    }
}

/// Pairing two members, after parting each from its former partner, leaves a
/// pairing.
pub proof fn lemma_paired_linked(
    pa: Seq<Option<usize>>,
    pb: Seq<Option<usize>>,
    i: usize,
    j: usize,
)
    requires
        linked(pa, pb),
        i < pa.len(),
        j < pb.len(),
    ensures
        linked(paired(pa, pb, i, j), paired(pb, pa, j, i)),
{
    let pa2 = paired(pa, pb, i, j);
    let pb2 = paired(pb, pa, j, i);
    assert forall|x: usize| x < pa2.len() && (#[trigger] pa2[x as int]).is_some() implies pa2[x as int].unwrap()
        < pb2.len() && pb2[pa2[x as int].unwrap() as int] == Some(x) by {
        if x != i {
            assert(pa[x as int].is_some());
        }
    }
    assert forall|y: usize| y < pb2.len() && (#[trigger] pb2[y as int]).is_some() implies pb2[y as int].unwrap()
        < pa2.len() && pa2[pb2[y as int].unwrap() as int] == Some(y) by {
        if y != j {
            assert(pb[y as int].is_some());
        }
    }
}

/// Every member has a partner.
pub open spec fn complete(pa: Seq<Option<usize>>) -> bool {
    forall|i: int| 0 <= i < pa.len() ==> (#[trigger] pa[i]).is_some()
}

/// No member has a partner.
pub open spec fn all_single(pa: Seq<Option<usize>>) -> bool {
    forall|i: int| 0 <= i < pa.len() ==> (#[trigger] pa[i]).is_none()
}

/// The pairs that the partners `pa` of the first side make, in the order of
/// the first side: for each member with a partner, its identity and that of
/// its partner. `va` and `vb` are the identities of the two sides.
pub open spec fn pair_list<T>(va: Seq<T>, vb: Seq<T>, pa: Seq<Option<usize>>) -> Seq<(T, T)>
    decreases pa.len(),
{
    if pa.len() == 0 {
        Seq::empty()
    } else {
        match pa.last() {
            Some(j) => pair_list(va, vb, pa.drop_last()).push((va[pa.len() - 1], vb[j as int])),
            None => pair_list(va, vb, pa.drop_last()),
        }
    }
}

/// Proposer `i` and acceptor `j` would each rather be with the other than
/// with the partner they have.
pub open spec fn blocking(
    p: Seq<Seq<usize>>,
    q: Seq<Seq<usize>>,
    pa: Seq<Option<usize>>,
    pb: Seq<Option<usize>>,
    i: usize,
    j: usize,
) -> bool {
    prefers(p[i as int], pa[i as int], j) && prefers(q[j as int], pb[j as int], i)
}

/// No proposer and acceptor would both rather be with each other.
pub open spec fn stable(
    p: Seq<Seq<usize>>,
    q: Seq<Seq<usize>>,
    pa: Seq<Option<usize>>,
    pb: Seq<Option<usize>>,
) -> bool {
    forall|i: usize, j: usize| i < pa.len() && j < pb.len() ==> !#[trigger] blocking(p, q, pa, pb, i, j)
}

/// In the assignment `m` of an acceptor to every proposer, proposer `i` and
/// the acceptor of proposer `k` would both rather be with each other.
pub open spec fn assignment_blocked(
    p: Seq<Seq<usize>>,
    q: Seq<Seq<usize>>,
    m: Seq<usize>,
    i: usize,
    k: usize,
) -> bool {
    rank(p[i as int], m[k as int]) < rank(p[i as int], m[i as int]) && rank(
        q[m[k as int] as int],
        i,
    ) < rank(q[m[k as int] as int], k)
}

/// `m` gives every proposer an acceptor of its own, and no proposer and
/// acceptor would both rather be with each other: a stable matching of the
/// two groups, whatever way it was found.
pub open spec fn stable_assignment(p: Seq<Seq<usize>>, q: Seq<Seq<usize>>, m: Seq<usize>) -> bool {
    &&& is_permutation(m, p.len())
    &&& forall|i: usize, k: usize|
        i < m.len() && k < m.len() ==> !#[trigger] assignment_blocked(p, q, m, i, k)
}

/// Every proposer ranks its partner at least as well as the acceptor that
/// `m` gives it.
pub open spec fn no_worse_than(p: Seq<Seq<usize>>, pa: Seq<Option<usize>>, m: Seq<usize>) -> bool {
    forall|i: int|
        0 <= i < pa.len() ==> partner_rank(p[i], #[trigger] pa[i]) <= rank(p[i], m[i])
}

/// Every proposer has the best partner that any stable matching gives it.
pub open spec fn proposer_optimal(
    p: Seq<Seq<usize>>,
    q: Seq<Seq<usize>>,
    pa: Seq<Option<usize>>,
) -> bool {
    forall|m: Seq<usize>| #[trigger] stable_assignment(p, q, m) ==> no_worse_than(p, pa, m)
}

/// The partners of a complete pairing, read as an assignment of an acceptor
/// to every proposer.
pub open spec fn assignment_of(pa: Seq<Option<usize>>) -> Seq<usize> {
    Seq::new(pa.len(), |i: int| pa[i].unwrap())
}

/// A complete pairing that is stable is a stable assignment.
pub proof fn lemma_stable_pairing_is_assignment(
    p: Seq<Seq<usize>>,
    q: Seq<Seq<usize>>,
    pa: Seq<Option<usize>>,
    pb: Seq<Option<usize>>,
)
    requires
        p.len() <= usize::MAX,
        pa.len() == p.len(),
        pb.len() == p.len(),
        linked(pa, pb),
        complete(pa),
        stable(p, q, pa, pb),
    ensures
        stable_assignment(p, q, assignment_of(pa)),
{
    let m = assignment_of(pa);
    assert forall|k: int| 0 <= k < m.len() implies (#[trigger] m[k]) < p.len() by {
        let x = k as usize;
        assert(pa[x as int].is_some());
    }
    assert forall|a: int, b: int| 0 <= a < m.len() && 0 <= b < m.len() && a != b implies m[a]
        != m[b] by {
        let x = a as usize;
        let y = b as usize;
        assert(pa[x as int].is_some() && pa[y as int].is_some());
    }
    assert forall|i: usize, k: usize| i < m.len() && k < m.len() implies !#[trigger] assignment_blocked(
        p,
        q,
        m,
        i,
        k,
    ) by {
        assert(pa[k as int].is_some() && pa[i as int].is_some());
        assert(!blocking(p, q, pa, pb, i, m[k as int]));
    }
}

/// Two complete stable pairings under the same rankings, each giving every
/// proposer the best partner that any stable matching gives it, are the same
/// pairing.
pub proof fn lemma_optimal_pairing_unique(
    p: Seq<Seq<usize>>,
    q: Seq<Seq<usize>>,
    pa1: Seq<Option<usize>>,
    pb1: Seq<Option<usize>>,
    pa2: Seq<Option<usize>>,
    pb2: Seq<Option<usize>>,
)
    requires
        p.len() <= usize::MAX,
        valid_preferences(p, p.len()),
        pa1.len() == p.len(),
        pb1.len() == p.len(),
        pa2.len() == p.len(),
        pb2.len() == p.len(),
        linked(pa1, pb1),
        linked(pa2, pb2),
        complete(pa1),
        complete(pa2),
        complete(pb1),
        complete(pb2),
        stable(p, q, pa1, pb1),
        stable(p, q, pa2, pb2),
        proposer_optimal(p, q, pa1),
        proposer_optimal(p, q, pa2),
    ensures
        pa1 == pa2,
        pb1 == pb2,
{
    let n = p.len() as usize;
    let m1 = assignment_of(pa1);
    let m2 = assignment_of(pa2);
    lemma_stable_pairing_is_assignment(p, q, pa1, pb1);
    lemma_stable_pairing_is_assignment(p, q, pa2, pb2);
    assert(no_worse_than(p, pa1, m2));
    assert(no_worse_than(p, pa2, m1));
    assert forall|i: int| 0 <= i < pa1.len() implies pa1[i] == pa2[i] by {
        let x = i as usize;
        assert(pa1[x as int].is_some() && pa2[x as int].is_some());
        assert(is_permutation(p[i], n as nat));
        lemma_rank_injective(p[i], n, pa1[i].unwrap(), pa2[i].unwrap());
    }
    assert(pa1 =~= pa2);
    assert forall|j: int| 0 <= j < pb1.len() implies pb1[j] == pb2[j] by {
        let y = j as usize;
        assert(pb1[y as int].is_some() && pb2[y as int].is_some());
        let x = pb1[j].unwrap();
        assert(pa1[x as int] == Some(y));
        assert(pa2[x as int].is_some());
    }
    assert(pb1 =~= pb2);
}

} // verus!
