//! What holds between the proposals of a matching run, and why each
//! proposal keeps it.
use vstd::prelude::*;
use crate::element::{partner_rank, prefers};
use crate::matching::{
    assignment_blocked, blocking, complete, lemma_paired_linked, linked, no_worse_than, paired,
    proposer_optimal, stable, stable_assignment, valid_preferences,
};
use crate::permutation::{
    is_permutation, lemma_distinct_bounded_len, lemma_permutation_contains, lemma_push_distinct,
    lemma_rank_at, lemma_rank_injective, rank,
};

verus! {

/// Acceptor `j` has a partner that it ranks strictly better than proposer
/// `i`: as things stand, `i` has nothing to hope for from `j`.
pub open spec fn rejects(q: Seq<Seq<usize>>, pb: Seq<Option<usize>>, j: usize, i: usize) -> bool {
    &&& j < pb.len()
    &&& pb[j as int].is_some()
    &&& rank(q[j as int], pb[j as int].unwrap()) < rank(q[j as int], i)
}

/// Every proposer with a partner has nothing to hope for from any acceptor
/// that it ranks above that partner.
pub open spec fn settled(
    p: Seq<Seq<usize>>,
    q: Seq<Seq<usize>>,
    pa: Seq<Option<usize>>,
    pb: Seq<Option<usize>>,
) -> bool {
    forall|i: usize, r: int|
        i < pa.len() && pa[i as int].is_some() && 0 <= r < rank(
            p[i as int],
            pa[i as int].unwrap(),
        ) ==> #[trigger] rejects(q, pb, p[i as int][r], i)
}

/// Every recorded proposal went to a position below `n`.
pub open spec fn history_in_range(h: Seq<Seq<usize>>, n: nat) -> bool {
    forall|i: int, k: int| 0 <= i < h.len() && 0 <= k < h[i].len() ==> (#[trigger] h[i][k]) < n
}

/// Nobody has recorded the same acceptor twice.
pub open spec fn history_distinct(h: Seq<Seq<usize>>) -> bool {
    forall|i: int| 0 <= i < h.len() ==> (#[trigger] h[i]).no_duplicates()
}

/// Every recorded proposal either holds, or went to an acceptor from which
/// the proposer has nothing to hope for.
pub open spec fn history_explained(
    q: Seq<Seq<usize>>,
    pb: Seq<Option<usize>>,
    h: Seq<Seq<usize>>,
) -> bool {
    forall|i: usize, k: int|
        i < h.len() && 0 <= k < h[i as int].len() ==> pb[(#[trigger] h[i as int][k]) as int]
            == Some(i) || rejects(q, pb, h[i as int][k], i)
}

/// The stable matching `m` gives no proposer an acceptor from which it has
/// nothing to hope for.
pub open spec fn respects(q: Seq<Seq<usize>>, pb: Seq<Option<usize>>, m: Seq<usize>) -> bool {
    forall|i: usize| i < m.len() ==> !#[trigger] rejects(q, pb, m[i as int], i)
}

/// What holds between any two proposals of a matching run.
pub open spec fn courting(
    p: Seq<Seq<usize>>,
    q: Seq<Seq<usize>>,
    pa: Seq<Option<usize>>,
    pb: Seq<Option<usize>>,
    h: Seq<Seq<usize>>,
) -> bool {
    &&& p.len() <= usize::MAX
    &&& q.len() == p.len()
    &&& pa.len() == p.len()
    &&& pb.len() == p.len()
    &&& h.len() == p.len()
    &&& valid_preferences(p, p.len())
    &&& valid_preferences(q, p.len())
    &&& linked(pa, pb)
    &&& history_in_range(h, p.len())
    &&& history_distinct(h)
    &&& settled(p, q, pa, pb)
    &&& complete(pa) || history_explained(q, pb, h)
    &&& forall|m: Seq<usize>| #[trigger] stable_assignment(p, q, m) ==> respects(q, pb, m)
}

/// The number of members without a partner.
pub open spec fn singles(pb: Seq<Option<usize>>) -> int
    decreases pb.len(),
{
    if pb.len() == 0 {
        0
    } else {
        singles(pb.drop_last()) + if pb.last().is_none() {
            1int
        } else {
            0int
        }
    }
}

/// The number of proposals that can still be recorded, where each member
/// can record `n`.
pub open spec fn unasked(h: Seq<Seq<usize>>, n: int) -> int
    decreases h.len(),
{
    if h.len() == 0 {
        0
    } else {
        unasked(h.drop_last(), n) + (n - h.last().len())
    }
}

pub proof fn lemma_singles_nonnegative(pb: Seq<Option<usize>>)
    ensures
        singles(pb) >= 0,
    decreases pb.len(),
{
    if pb.len() > 0 {
        lemma_singles_nonnegative(pb.drop_last());
    }
}

/// Giving one member a partner, or another partner, never raises the number
/// of singles, and lowers it by one where the member was single.
pub proof fn lemma_singles_update(pb: Seq<Option<usize>>, j: int, v: usize)
    requires
        0 <= j < pb.len(),
    ensures
        singles(pb.update(j, Some(v))) == singles(pb) - if pb[j].is_none() {
            1int
        } else {
            0int
        },
    decreases pb.len(),
{
    let pb2 = pb.update(j, Some(v));
    if j == pb.len() - 1 {
        assert(pb2.drop_last() =~= pb.drop_last());
    } else {
        assert(pb2.drop_last() =~= pb.drop_last().update(j, Some(v)));
        lemma_singles_update(pb.drop_last(), j, v);
    }
}

pub proof fn lemma_unasked_update(h: Seq<Seq<usize>>, n: int, i: int, s: Seq<usize>)
    requires
        0 <= i < h.len(),
    ensures
        unasked(h.update(i, s), n) == unasked(h, n) + h[i].len() - s.len(),
    decreases h.len(),
{
    let h2 = h.update(i, s);
    if i == h.len() - 1 {
        assert(h2.drop_last() =~= h.drop_last());
    } else {
        assert(h2.drop_last() =~= h.drop_last().update(i, s));
        lemma_unasked_update(h.drop_last(), n, i, s);
    }
}

pub proof fn lemma_unasked_nonnegative(h: Seq<Seq<usize>>, n: int)
    requires
        forall|i: int| 0 <= i < h.len() ==> (#[trigger] h[i]).len() <= n,
    ensures
        unasked(h, n) >= 0,
    decreases h.len(),
{
    if h.len() > 0 {
        assert forall|i: int| 0 <= i < h.drop_last().len() implies (#[trigger] h.drop_last()[i]).len()
            <= n by {
            assert(h.drop_last()[i] == h[i]);
        }
        lemma_unasked_nonnegative(h.drop_last(), n);
    }
}

/// Nobody can have recorded more proposals than there are acceptors.
pub proof fn lemma_history_bounded(h: Seq<Seq<usize>>, n: usize)
    requires
        history_in_range(h, n as nat),
        history_distinct(h),
    ensures
        forall|i: int| 0 <= i < h.len() ==> (#[trigger] h[i]).len() <= n,
        unasked(h, n as int) >= 0,
{
    assert forall|i: int| 0 <= i < h.len() implies (#[trigger] h[i]).len() <= n by {
        assert(h[i].no_duplicates());
        assert forall|k: int| 0 <= k < h[i].len() implies (#[trigger] h[i][k]) < n by {}
        lemma_distinct_bounded_len(h[i], n);
    }
    lemma_unasked_nonnegative(h, n as int);
}

/// Where two sides of equal size form a pairing and one side has no single,
/// the other has none either.
pub proof fn lemma_complete_other_side(pa: Seq<Option<usize>>, pb: Seq<Option<usize>>)
    requires
        linked(pa, pb),
        pa.len() == pb.len(),
        pa.len() <= usize::MAX,
        complete(pa),
    ensures
        complete(pb),
{
    let n = pa.len() as usize;
    let m = Seq::new(pa.len(), |i: int| pa[i].unwrap());
    assert forall|a: int, b: int| 0 <= a < m.len() && 0 <= b < m.len() && a != b implies m[a]
        != m[b] by {
        let x = a as usize;
        let y = b as usize;
        assert(pa[x as int].is_some() && pa[y as int].is_some());
    }
    assert forall|k: int| 0 <= k < m.len() implies (#[trigger] m[k]) < n by {
        let x = k as usize;
        assert(pa[x as int].is_some());
    }
    assert forall|j: int| 0 <= j < pb.len() implies (#[trigger] pb[j]).is_some() by {
        lemma_permutation_contains(m, n, j as usize);
        let k = rank(m, j as usize);
        let x = k as usize;
        assert(pa[x as int].is_some());
    }
}

/// A run starts out courting: nobody has a partner and nothing is recorded.
pub proof fn lemma_courting_at_start(
    p: Seq<Seq<usize>>,
    q: Seq<Seq<usize>>,
    pa: Seq<Option<usize>>,
    pb: Seq<Option<usize>>,
    h: Seq<Seq<usize>>,
)
    requires
        p.len() <= usize::MAX,
        q.len() == p.len(),
        valid_preferences(p, p.len()),
        valid_preferences(q, p.len()),
        pa == Seq::new(p.len(), |i: int| None::<usize>),
        pb == Seq::new(p.len(), |i: int| None::<usize>),
        h == Seq::new(p.len(), |i: int| Seq::<usize>::empty()),
    ensures
        courting(p, q, pa, pb, h),
        history_explained(q, pb, h),
{
}

/// Acceptor `j` takes proposer `i` in place of whom it had, if anyone, and
/// ranks `i` better: whoever had nothing to hope for from an acceptor before
/// has nothing to hope for from it after.
pub proof fn lemma_rejects_persist(
    q: Seq<Seq<usize>>,
    pb: Seq<Option<usize>>,
    i: usize,
    j: usize,
)
    requires
        j < pb.len(),
        pb[j as int].is_some() ==> rank(q[j as int], i) < rank(q[j as int], pb[j as int].unwrap()),
    ensures
        forall|y: usize, x: usize|
            rejects(q, pb, y, x) ==> #[trigger] rejects(q, pb.update(j as int, Some(i)), y, x),
{
}

/// The step that keeps the best of every stable matching within reach: when
/// acceptor `j` takes proposer `i`, who has nothing to hope for from anyone
/// it ranks above `j`, no stable matching gives any proposer an acceptor from
/// which it now has nothing to hope for.
pub proof fn lemma_accept_respects(
    p: Seq<Seq<usize>>,
    q: Seq<Seq<usize>>,
    pb: Seq<Option<usize>>,
    m: Seq<usize>,
    i: usize,
    r: int,
)
    requires
        p.len() <= usize::MAX,
        q.len() == p.len(),
        pb.len() == p.len(),
        valid_preferences(p, p.len()),
        valid_preferences(q, p.len()),
        stable_assignment(p, q, m),
        respects(q, pb, m),
        i < p.len(),
        0 <= r < p.len(),
        forall|t: int| 0 <= t < r ==> #[trigger] rejects(q, pb, p[i as int][t], i),
        pb[p[i as int][r] as int].is_some() ==> rank(q[p[i as int][r] as int], i) < rank(
            q[p[i as int][r] as int],
            pb[p[i as int][r] as int].unwrap(),
        ),
    ensures
        respects(q, pb.update(p[i as int][r] as int, Some(i)), m),
{
    let n = p.len() as usize;
    let j = p[i as int][r];
    let pb2 = pb.update(j as int, Some(i));
    assert(is_permutation(p[i as int], n as nat));
    assert(j < n);
    assert forall|x: usize| x < m.len() implies !#[trigger] rejects(q, pb2, m[x as int], x) by {
        if rejects(q, pb2, m[x as int], x) {
            if m[x as int] != j {
                assert(rejects(q, pb, m[x as int], x));
            } else {
                assert(x != i);
                assert(m[i as int] != m[x as int]);
                assert(m[i as int] < n);
                lemma_permutation_contains(p[i as int], n, m[i as int]);
                let r2 = rank(p[i as int], m[i as int]);
                if r2 < r {
                    assert(rejects(q, pb, p[i as int][r2], i));
                    assert(!rejects(q, pb, m[i as int], i));
                }
                lemma_rank_at(p[i as int], r);
                assert(assignment_blocked(p, q, m, i, x));
            }
        }
    }
}

/// A single proposer `i`, turned down by everyone it ranks above the
/// acceptor at rank `r` of its list, is taken by that acceptor: the run is
/// still courting afterwards. `h2` is the history after the step.
pub proof fn lemma_accept(
    p: Seq<Seq<usize>>,
    q: Seq<Seq<usize>>,
    pa: Seq<Option<usize>>,
    pb: Seq<Option<usize>>,
    h: Seq<Seq<usize>>,
    h2: Seq<Seq<usize>>,
    i: usize,
    r: int,
)
    requires
        courting(p, q, pa, pb, h),
        history_explained(q, pb, h),
        i < p.len(),
        pa[i as int].is_none(),
        0 <= r < p.len(),
        forall|t: int| 0 <= t < r ==> #[trigger] rejects(q, pb, p[i as int][t], i),
        pb[p[i as int][r] as int].is_some() ==> prefers(
            q[p[i as int][r] as int],
            pb[p[i as int][r] as int],
            i,
        ),
        h2 == h || (!h[i as int].contains(p[i as int][r]) && h2 == h.update(
            i as int,
            h[i as int].push(p[i as int][r]),
        )),
    ensures
        courting(
            p,
            q,
            paired(pa, pb, i, p[i as int][r]),
            paired(pb, pa, p[i as int][r], i),
            h2,
        ),
        history_explained(q, paired(pb, pa, p[i as int][r], i), h2),
        paired(pb, pa, p[i as int][r], i) == pb.update(p[i as int][r] as int, Some(i)),
{
    let n = p.len() as usize;
    let j = p[i as int][r];
    assert(is_permutation(p[i as int], n as nat));
    assert(j < n);
    let pa2 = paired(pa, pb, i, j);
    let pb2 = paired(pb, pa, j, i);
    assert(pb2 == pb.update(j as int, Some(i)));
    lemma_paired_linked(pa, pb, i, j);
    lemma_rejects_persist(q, pb, i, j);
    if h2 != h {
        lemma_recorded(h, n, i, j);
    }
    assert forall|x: usize, t: int|
        x < pa2.len() && pa2[x as int].is_some() && 0 <= t < rank(
            p[x as int],
            pa2[x as int].unwrap(),
        ) implies #[trigger] rejects(q, pb2, p[x as int][t], x) by {
        if x == i {
            lemma_rank_at(p[i as int], r);
            assert(rejects(q, pb, p[i as int][t], i));
        } else {
            assert(pa[x as int] == pa2[x as int]);
            assert(rejects(q, pb, p[x as int][t], x));
        }
    }
    assert forall|x: usize, k: int| x < h2.len() && 0 <= k < h2[x as int].len() implies pb2[(
    #[trigger] h2[x as int][k]) as int] == Some(x) || rejects(q, pb2, h2[x as int][k], x) by {
        if h2 != h && x == i && k == h[i as int].len() {
        } else {
            let e = h[x as int][k];
            assert(h2[x as int][k] == e);
            assert(pb[e as int] == Some(x) || rejects(q, pb, e, x));
            if pb[e as int] == Some(x) && e == j {
                assert(rejects(q, pb2, e, x));
            }
        }
    }
    assert forall|m: Seq<usize>| #[trigger] stable_assignment(p, q, m) implies respects(
        q,
        pb2,
        m,
    ) by {
        lemma_accept_respects(p, q, pb, m, i, r);
    }
}

/// A single proposer `i` records a proposal to acceptor `j`, who keeps the
/// partner it has: the run is still courting, and `i` has nothing to hope
/// for from `j`.
pub proof fn lemma_turned_down(
    p: Seq<Seq<usize>>,
    q: Seq<Seq<usize>>,
    pa: Seq<Option<usize>>,
    pb: Seq<Option<usize>>,
    h: Seq<Seq<usize>>,
    i: usize,
    j: usize,
)
    requires
        courting(p, q, pa, pb, h),
        history_explained(q, pb, h),
        i < p.len(),
        j < p.len(),
        pa[i as int].is_none(),
        pb[j as int].is_some(),
        !h[i as int].contains(j),
        !prefers(q[j as int], pb[j as int], i),
    ensures
        courting(p, q, pa, pb, h.update(i as int, h[i as int].push(j))),
        history_explained(q, pb, h.update(i as int, h[i as int].push(j))),
        rejects(q, pb, j, i),
{
    let n = p.len() as usize;
    let h2 = h.update(i as int, h[i as int].push(j));
    let holder = pb[j as int].unwrap();
    assert(pa[holder as int] == Some(j));
    assert(is_permutation(q[j as int], n as nat));
    if rank(q[j as int], holder) == rank(q[j as int], i) {
        lemma_rank_injective(q[j as int], n, holder, i);
    }
    assert(rejects(q, pb, j, i));
    lemma_recorded(h, n, i, j);
    assert forall|x: usize, k: int| x < h2.len() && 0 <= k < h2[x as int].len() implies pb[(
    #[trigger] h2[x as int][k]) as int] == Some(x) || rejects(q, pb, h2[x as int][k], x) by {
        if x == i && k == h[i as int].len() {
        } else {
            assert(h2[x as int][k] == h[x as int][k]);
        }
    }
}

/// Recording an acceptor that was not yet recorded keeps the history within
/// range and free of repetitions.
pub proof fn lemma_recorded(h: Seq<Seq<usize>>, n: usize, i: usize, j: usize)
    requires
        history_in_range(h, n as nat),
        history_distinct(h),
        i < h.len(),
        j < n,
        !h[i as int].contains(j),
    ensures
        history_in_range(h.update(i as int, h[i as int].push(j)), n as nat),
        history_distinct(h.update(i as int, h[i as int].push(j))),
{
    let h2 = h.update(i as int, h[i as int].push(j));
    assert forall|x: int, k: int| 0 <= x < h2.len() && 0 <= k < h2[x].len() implies (
    #[trigger] h2[x][k]) < n by {
        if x == i && k == h[i as int].len() {
        } else {
            assert(h2[x][k] == h[x][k]);
        }
    }
    assert forall|x: int| 0 <= x < h2.len() implies (#[trigger] h2[x]).no_duplicates() by {
        assert(h[x].no_duplicates());
        if x == i {
            lemma_push_distinct(h[x], j);
        }
    }
}

/// A single proposer has nothing to hope for from an acceptor that it has
/// recorded.
pub proof fn lemma_recorded_is_hopeless(
    q: Seq<Seq<usize>>,
    pa: Seq<Option<usize>>,
    pb: Seq<Option<usize>>,
    h: Seq<Seq<usize>>,
    i: usize,
    j: usize,
)
    requires
        linked(pa, pb),
        history_explained(q, pb, h),
        history_in_range(h, pb.len()),
        i < h.len(),
        h.len() == pa.len(),
        pa[i as int].is_none(),
        h[i as int].contains(j),
    ensures
        rejects(q, pb, j, i),
{
    let k = choose|k: int| 0 <= k < h[i as int].len() && h[i as int][k] == j;
    assert(h[i as int][k] < pb.len());
    assert(pb[h[i as int][k] as int] == Some(i) || rejects(q, pb, h[i as int][k], i));
    if pb[j as int] == Some(i) {
        assert(pb[j as int].is_some());
        assert(pa[i as int] == Some(j));
    }
}

/// Once every proposer has a partner, no proposal changes anything: every
/// acceptor has a partner, and no acceptor and proposer would both rather
/// be with each other.
pub proof fn lemma_nothing_left_to_gain(
    p: Seq<Seq<usize>>,
    q: Seq<Seq<usize>>,
    pa: Seq<Option<usize>>,
    pb: Seq<Option<usize>>,
    h: Seq<Seq<usize>>,
    i: usize,
    j: usize,
)
    requires
        courting(p, q, pa, pb, h),
        complete(pa),
        i < p.len(),
        j < p.len(),
    ensures
        pb[j as int].is_some(),
        !blocking(p, q, pa, pb, i, j),
{
    let n = p.len() as usize;
    lemma_complete_other_side(pa, pb);
    assert(pa[i as int].is_some());
    if prefers(p[i as int], pa[i as int], j) {
        assert(is_permutation(p[i as int], n as nat));
        lemma_permutation_contains(p[i as int], n, j);
        let r = rank(p[i as int], j);
        assert(rejects(q, pb, p[i as int][r], i));
    }
}

/// A run that leaves no proposer single has found the stable matching that
/// is best for every proposer.
pub proof fn lemma_courting_ends_well(
    p: Seq<Seq<usize>>,
    q: Seq<Seq<usize>>,
    pa: Seq<Option<usize>>,
    pb: Seq<Option<usize>>,
    h: Seq<Seq<usize>>,
)
    requires
        courting(p, q, pa, pb, h),
        complete(pa),
    ensures
        complete(pb),
        stable(p, q, pa, pb),
        proposer_optimal(p, q, pa),
{
    let n = p.len() as usize;
    lemma_complete_other_side(pa, pb);
    assert forall|i: usize, j: usize| i < pa.len() && j < pb.len() implies !#[trigger] blocking(
        p,
        q,
        pa,
        pb,
        i,
        j,
    ) by {
        lemma_nothing_left_to_gain(p, q, pa, pb, h, i, j);
    }
    assert forall|m: Seq<usize>| #[trigger] stable_assignment(p, q, m) implies no_worse_than(
        p,
        pa,
        m,
    ) by {
        assert(respects(q, pb, m));
        assert forall|x: int| 0 <= x < pa.len() implies partner_rank(
            p[x],
            #[trigger] pa[x],
        ) <= rank(p[x], m[x]) by {
            let i = x as usize;
            assert(pa[i as int].is_some());
            assert(is_permutation(p[i as int], n as nat));
            assert(m[i as int] < n);
            lemma_permutation_contains(p[i as int], n, m[i as int]);
            let r = rank(p[i as int], m[i as int]);
            if r < rank(p[i as int], pa[i as int].unwrap()) {
                assert(rejects(q, pb, p[i as int][r], i));
                assert(!rejects(q, pb, m[i as int], i));
            }
        }
    }
}

/// A single proposer cannot have been turned down by every acceptor: where
/// every acceptor has a partner, every proposer has one.
pub proof fn lemma_someone_is_free(
    p: Seq<Seq<usize>>,
    q: Seq<Seq<usize>>,
    pa: Seq<Option<usize>>,
    pb: Seq<Option<usize>>,
    h: Seq<Seq<usize>>,
    i: usize,
)
    requires
        courting(p, q, pa, pb, h),
        i < p.len(),
        forall|t: int| 0 <= t < p.len() ==> #[trigger] rejects(q, pb, p[i as int][t], i),
    ensures
        pa[i as int].is_some(),
{
    let n = p.len() as usize;
    assert(is_permutation(p[i as int], n as nat));
    assert forall|j: int| 0 <= j < pb.len() implies (#[trigger] pb[j]).is_some() by {
        lemma_permutation_contains(p[i as int], n, j as usize);
        let t = rank(p[i as int], j as usize);
        assert(rejects(q, pb, p[i as int][t], i));
    }
    lemma_complete_other_side(pb, pa);
}

} // verus!
