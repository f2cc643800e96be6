//! A group of participants: construction, the pairing primitives, and the
//! matching run.
use vstd::prelude::*;
use crate::courtship::{
    courting, history_explained, lemma_accept, lemma_courting_at_start, lemma_courting_ends_well,
    lemma_history_bounded, lemma_nothing_left_to_gain, lemma_recorded, lemma_recorded_is_hopeless,
    lemma_singles_nonnegative, lemma_singles_update, lemma_someone_is_free, lemma_turned_down,
    lemma_unasked_update, rejects, singles, unasked,
};
use crate::element::{prefers, Element};
use crate::error::ConfigError;
use crate::matching::{
    all_single, complete, lemma_paired_linked, lemma_released_linked, linked, pair_list, paired,
    partners_within, proposer_optimal, released, stable, valid_preferences,
};
use crate::permutation::{
    check_permutation, contains, identity, identity_ranking, is_permutation,
    lemma_distinct_covering_len, lemma_identity_is_permutation, lemma_permutation_contains,
    lemma_push_distinct, lemma_rank_at, lemma_rearranged_is_permutation, rank,
};
use crate::shuffle::shuffle;
use rand::rngs::ThreadRng;

verus! {

/// An ordered group of participants, with the acceptors that each of them
/// has approached in the present matching run.
pub struct Group<E> {
    elements: Vec<E>,
    proposal_map: Vec<Vec<usize>>,
}

impl<T> Group<Element<T>> {
    /// The members, in order.
    pub closed spec fn members(&self) -> Seq<Element<T>> {
        self.elements@
    }

    /// For each member, the positions of the opposite group that it has
    /// approached in the present run, in the order of the approaches.
    pub closed spec fn proposals(&self) -> Seq<Seq<usize>> {
        Seq::new(self.proposal_map@.len(), |i: int| self.proposal_map@[i]@)
    }

    /// The number of members.
    pub open spec fn spec_len(&self) -> nat {
        self.members().len()
    }

    /// Each member's partner.
    pub open spec fn partners(&self) -> Seq<Option<usize>> {
        Seq::new(self.members().len(), |i: int| self.members()[i].partner_index)
    }

    /// Each member's ranking of the opposite group.
    pub open spec fn preferences(&self) -> Seq<Seq<usize>> {
        Seq::new(self.members().len(), |i: int| self.members()[i].preferences@)
    }

    /// Each member's identity.
    pub open spec fn values(&self) -> Seq<T> {
        Seq::new(self.members().len(), |i: int| self.members()[i].value)
    }

    /// Every member knows its own position, has a proposal history, and has
    /// approached nobody twice.
    pub open spec fn wf(&self) -> bool {
        &&& self.proposals().len() == self.members().len()
        &&& forall|i: int|
            0 <= i < self.members().len() ==> (#[trigger] self.members()[i]).index == Some(
                i as usize,
            )
        &&& forall|i: int|
            0 <= i < self.proposals().len() ==> (#[trigger] self.proposals()[i]).no_duplicates()
    }

    /// The same members with the same rankings, whatever their partners and
    /// proposal histories.
    pub open spec fn same_setup(&self, other: &Self) -> bool {
        &&& self.members().len() == other.members().len()
        &&& forall|i: int|
            0 <= i < self.members().len() ==> (#[trigger] self.members()[i]).index
                == other.members()[i].index && self.members()[i].value == other.members()[i].value
                && self.members()[i].preferences == other.members()[i].preferences
    }

    /// The same members, partners and proposal histories, whatever the
    /// rankings.
    pub open spec fn same_standing(&self, other: &Self) -> bool {
        &&& self.members().len() == other.members().len()
        &&& self.proposals() == other.proposals()
        &&& forall|i: int|
            0 <= i < self.members().len() ==> (#[trigger] self.members()[i]).index
                == other.members()[i].index && self.members()[i].value == other.members()[i].value
                && self.members()[i].partner_index == other.members()[i].partner_index
    }

    /// Member `i` is single, or has not yet approached as many acceptors as
    /// the group has members.
    pub open spec fn unfulfilled(&self, i: int) -> bool {
        self.partners()[i].is_none() || self.proposals()[i].len() < self.spec_len()
    }

    /// A proposal of member `i` to member `j` of `other` is recorded where
    /// `j` has a partner and `i` has not recorded `j` before.
    pub open spec fn records(&self, i: usize, j: usize, other: &Self) -> bool {
        other.partners()[j as int].is_some() && !self.proposals()[i as int].contains(j)
    }

    /// A proposal of member `i` to member `j` of `other` ends in their
    /// pairing where `j` is single, or where the proposal is recorded and
    /// each of the two would rather be with the other.
    pub open spec fn wins(&self, i: usize, j: usize, other: &Self) -> bool {
        other.partners()[j as int].is_none() || (self.records(i, j, other) && prefers(
            other.preferences()[j as int],
            other.partners()[j as int],
            i,
        ) && prefers(self.preferences()[i as int], self.partners()[i as int], j))
    }

    /// The bookkeeping of a run with `self` proposing to `other` is in
    /// order.
    pub open spec fn courting_with(&self, other: &Self) -> bool {
        courting(
            self.preferences(),
            other.preferences(),
            self.partners(),
            other.partners(),
            self.proposals(),
        )
    }

    /// A bound on the proposals that a run can still make: it falls with
    /// every acceptor that finds a partner and with every proposal recorded.
    pub open spec fn work_left(&self, other: &Self) -> int {
        singles(other.partners()) + unasked(self.proposals(), self.spec_len() as int)
    }

    /// Groups with the same setup have the same size, identities and
    /// rankings.
    pub proof fn lemma_same_setup(&self, other: &Self)
        requires
            self.same_setup(other),
        ensures
            self.spec_len() == other.spec_len(),
            self.values() == other.values(),
            self.preferences() == other.preferences(),
            other.wf() && self.proposals() == other.proposals() ==> self.wf(),
    {
        assert(self.values() =~= other.values());
        assert(self.preferences() =~= other.preferences());
    }

    /// A group has no more members than a `usize` counts.
    pub proof fn lemma_len_fits(&self)
        ensures
            self.spec_len() <= usize::MAX,
    {
        assert(self.elements@.len() == self.elements.len());
    }

    /// Having the same setup carries over.
    pub proof fn lemma_same_setup_transitive(&self, mid: &Self, first: &Self)
        requires
            self.same_setup(mid),
            mid.same_setup(first),
        ensures
            self.same_setup(first),
    {
    }

    /// The outcome of a matching run between `self`, proposing, and `other`:
    /// everyone is paired, no proposer and acceptor would both rather be
    /// with each other, every proposer has the best partner that any such
    /// pairing gives it, every proposer has approached every acceptor
    /// exactly once, and no acceptor has approached anyone.
    pub open spec fn is_matched_with(&self, other: &Self) -> bool {
        &&& self.wf()
        &&& other.wf()
        &&& self.spec_len() == other.spec_len()
        &&& linked(self.partners(), other.partners())
        &&& complete(self.partners())
        &&& complete(other.partners())
        &&& stable(self.preferences(), other.preferences(), self.partners(), other.partners())
        &&& proposer_optimal(self.preferences(), other.preferences(), self.partners())
        &&& forall|i: int|
            0 <= i < self.spec_len() ==> is_permutation(
                #[trigger] self.proposals()[i],
                self.spec_len(),
            )
        &&& forall|j: int|
            0 <= j < other.spec_len() ==> (#[trigger] other.proposals()[j]) == Seq::<usize>::empty()
    }

    /// Takes the members in the given order, tells each its position and
    /// starts an empty proposal history for each.
    pub fn new(elements: Vec<Element<T>>) -> (g: Self)
        ensures
            g.wf(),
            g.spec_len() == elements@.len(),
            forall|i: int|
                0 <= i < elements@.len() ==> (#[trigger] g.members()[i]).value == elements@[i].value
                    && g.members()[i].partner_index == elements@[i].partner_index
                    && g.members()[i].preferences == elements@[i].preferences,
            forall|i: int|
                0 <= i < elements@.len() ==> (#[trigger] g.proposals()[i]) == Seq::<usize>::empty(),
    {
        let ghost given = elements@;
        let mut this: Group<Element<T>> = Group { elements, proposal_map: Vec::new() };
        let n: usize = this.elements.len();
        let mut i: usize = 0;
        while i < n
            invariant
                i <= n,
                n == given.len(),
                this.elements@.len() == n,
                this.proposal_map@.len() == i,
                forall|k: int| 0 <= k < i ==> (#[trigger] this.elements@[k]).index == Some(k as usize),
                forall|k: int|
                    0 <= k < n ==> (#[trigger] this.elements@[k]).value == given[k].value
                        && this.elements@[k].partner_index == given[k].partner_index
                        && this.elements@[k].preferences == given[k].preferences,
                forall|k: int| 0 <= k < i ==> (#[trigger] this.proposal_map@[k])@ == Seq::<usize>::empty(),
            decreases n - i,
        {
            this.elements[i].index = Some(i);
            this.proposal_map.push(Vec::new());
            i += 1;
        }
        this
    }

    /// The number of members.
    pub fn len(&self) -> (n: usize)
        ensures
            n == self.spec_len(),
    {
        self.elements.len()
    }

    /// The member at position `i`.
    pub fn get(&self, i: usize) -> (e: &Element<T>)
        requires
            i < self.spec_len(),
        ensures
            *e == self.members()[i as int],
    {
        &self.elements[i]
    }

    /// The positions that member `i` has approached in the present run.
    pub fn proposals_of(&self, i: usize) -> (h: &Vec<usize>)
        requires
            self.wf(),
            i < self.spec_len(),
        ensures
            h@ == self.proposals()[i as int],
    {
        &self.proposal_map[i]
    }

    /// Parts every member from its partner and forgets every proposal.
    pub fn reset(&mut self)
        requires
            old(self).wf(),
        ensures
            final(self).wf(),
            final(self).same_setup(old(self)),
            final(self).partners() == Seq::new(old(self).spec_len(), |i: int| None::<usize>),
            final(self).proposals() == Seq::new(old(self).spec_len(), |i: int| Seq::<usize>::empty()),
    {
        let n: usize = self.elements.len();
        let mut i: usize = 0;
        while i < n
            invariant
                i <= n,
                self.elements@.len() == n,
                old(self).elements@.len() == n,
                self.proposal_map@.len() == n,
                forall|k: int|
                    0 <= k < n ==> (#[trigger] self.elements@[k]).value == old(self).elements@[k].value
                        && self.elements@[k].index == old(self).elements@[k].index
                        && self.elements@[k].preferences == old(self).elements@[k].preferences,
                forall|k: int| 0 <= k < i ==> (#[trigger] self.elements@[k]).partner_index.is_none(),
                forall|k: int| 0 <= k < i ==> (#[trigger] self.proposal_map@[k])@ == Seq::<usize>::empty(),
            decreases n - i,
        {
            self.elements[i].partner_index = None;
            self.proposal_map[i].clear();
            i += 1;
        }
        proof {
            assert(self.partners() =~= Seq::new(old(self).spec_len(), |i: int| None::<usize>));
            assert(self.proposals() =~= Seq::new(
                old(self).spec_len(),
                |i: int| Seq::<usize>::empty(),
            ));
        }
    }

    /// The first single member; where every member has a partner, the first
    /// that has approached fewer acceptors than the group has members.
    pub fn get_first_unfulfilled(&self) -> (r: Option<usize>)
        requires
            self.wf(),
        ensures
            match r {
                Some(i) => {
                    &&& i < self.spec_len()
                    &&& self.unfulfilled(i as int)
                    &&& forall|k: int| 0 <= k < i ==> (#[trigger] self.partners()[k]).is_some()
                    &&& self.partners()[i as int].is_some() ==> complete(self.partners())
                        && forall|k: int|
                        0 <= k < i ==> (#[trigger] self.proposals()[k]).len() >= self.spec_len()
                },
                None => forall|k: int| 0 <= k < self.spec_len() ==> !self.unfulfilled(k),
            },
    {
        let n: usize = self.elements.len();
        let mut i: usize = 0;
        while i < n
            invariant
                i <= n,
                n == self.elements@.len(),
                forall|k: int| 0 <= k < i ==> (#[trigger] self.partners()[k]).is_some(),
            decreases n - i,
        {
            if !self.elements[i].has_partner() {
                return Some(i);
            }
            i += 1;
        }
        let mut i: usize = 0;
        while i < n
            invariant
                i <= n,
                n == self.elements@.len(),
                n == self.proposal_map@.len(),
                complete(self.partners()),
                forall|k: int| 0 <= k < i ==> (#[trigger] self.proposals()[k]).len() >= n,
            decreases n - i,
        {
            if self.proposal_map[i].len() < n {
                return Some(i);
            }
            i += 1;
        }
        None
    }

    /// The partner of member `i`, a member of `other`, if it has one.
    pub fn get_partner_of<'a>(&'a self, i: usize, other: &'a Self) -> (r: Option<&'a Element<T>>)
        requires
            i < self.spec_len(),
            self.partners()[i as int].is_some() ==> self.partners()[i as int].unwrap()
                < other.spec_len(),
        ensures
            r.is_some() == self.partners()[i as int].is_some(),
            r.is_some() ==> *r.unwrap() == other.members()[self.partners()[i as int].unwrap() as int],
    {
        match self.elements[i].partner_index {
            Some(k) => Some(&other.elements[k]),
            None => None,
        }
    }

    /// Gives each member the ranking at its position in `preferences`. A
    /// table that does not hold one ranking per member is refused, and
    /// nothing changes.
    pub fn set_preferences(&mut self, preferences: Vec<Vec<usize>>) -> (r: Result<(), ConfigError>)
        ensures
            preferences@.len() != old(self).spec_len() ==> r == Err::<(), ConfigError>(
                ConfigError::PreferenceCountMismatch,
            ) && *final(self) == *old(self),
            preferences@.len() == old(self).spec_len() ==> r.is_ok(),
            r.is_ok() ==> forall|i: int|
                0 <= i < preferences@.len() ==> (#[trigger] final(self).preferences()[i])
                    == preferences@[i]@,
            r.is_ok() ==> final(self).values() == old(self).values(),
            r.is_ok() ==> final(self).partners() == old(self).partners(),
            r.is_ok() ==> final(self).proposals() == old(self).proposals(),
            r.is_ok() ==> (old(self).wf() ==> final(self).wf()),
    {
        let n: usize = self.elements.len();
        if preferences.len() != n {
            return Err(ConfigError::PreferenceCountMismatch);
        }
        let ghost table = Seq::new(preferences@.len(), |i: int| preferences@[i]@);
        let mut rest = preferences;
        let mut i: usize = n;
        while i > 0
            invariant
                i <= n,
                n == self.elements@.len(),
                n == old(self).elements@.len(),
                n == table.len(),
                rest@.len() == i,
                self.proposal_map == old(self).proposal_map,
                forall|k: int| 0 <= k < i ==> (#[trigger] rest@[k])@ == table[k],
                forall|k: int| i <= k < n ==> (#[trigger] self.elements@[k]).preferences@ == table[k],
                forall|k: int|
                    0 <= k < n ==> (#[trigger] self.elements@[k]).index == old(self).elements@[k].index
                        && self.elements@[k].value == old(self).elements@[k].value
                        && self.elements@[k].partner_index == old(self).elements@[k].partner_index,
            decreases i,
        {
            i -= 1;
            let row: Vec<usize> = rest.pop().unwrap();
            self.elements[i].set_preferences(row);
        }
        proof {
            assert(self.preferences() =~= table);
            assert(self.values() =~= old(self).values());
            assert(self.partners() =~= old(self).partners());
        }
        Ok(())
    }

    /// Parts member `i` from its partner in `other`, if it has one.
    pub fn divorce(&mut self, i: usize, other: &mut Self)
        requires
            i < old(self).spec_len(),
            linked(old(self).partners(), old(other).partners()),
        ensures
            final(self).same_setup(old(self)),
            final(other).same_setup(old(other)),
            final(self).proposals() == old(self).proposals(),
            final(other).proposals() == old(other).proposals(),
            final(self).partners() == old(self).partners().update(i as int, None),
            final(other).partners() == released(old(other).partners(), old(self).partners()[i as int]),
            linked(final(self).partners(), final(other).partners()),
    {
        proof {
            lemma_released_linked(self.partners(), other.partners(), i);
        }
        match self.elements[i].partner_index {
            Some(k) => {
                assert(self.partners()[i as int] == Some(k));
                other.elements[k].partner_index = None;
                self.elements[i].partner_index = None;
                assert(other.partners() =~= released(old(other).partners(), Some(k)));
            },
            None => {
                assert(self.partners()[i as int].is_none());
            },
        }
        assert(self.partners() =~= old(self).partners().update(i as int, None));
    }

    /// Pairs member `i` with member `j` of `other`, after parting each from
    /// the partner it had. Whether the two should be paired is the caller's
    /// business.
    pub fn pair(&mut self, i: usize, j: usize, other: &mut Self)
        requires
            i < old(self).spec_len(),
            j < old(other).spec_len(),
            linked(old(self).partners(), old(other).partners()),
        ensures
            final(self).same_setup(old(self)),
            final(other).same_setup(old(other)),
            final(self).proposals() == old(self).proposals(),
            final(other).proposals() == old(other).proposals(),
            final(self).partners() == paired(old(self).partners(), old(other).partners(), i, j),
            final(other).partners() == paired(old(other).partners(), old(self).partners(), j, i),
            linked(final(self).partners(), final(other).partners()),
    {
        proof {
            lemma_paired_linked(self.partners(), other.partners(), i, j);
        }
        let ghost pa = self.partners();
        let ghost pb = other.partners();
        self.divorce(i, other);
        let ghost pb_mid = other.partners();
        other.divorce(j, self);
        let ghost pa_mid = self.partners();
        let ghost pb_late = other.partners();
        self.elements[i].partner_index = Some(j);
        other.elements[j].partner_index = Some(i);
        proof {
            assert(self.partners() =~= pa_mid.update(i as int, Some(j)));
            assert(other.partners() =~= pb_late.update(j as int, Some(i)));
            assert(pb_late =~= pb_mid.update(j as int, None));
            if pa[i as int] == Some(j) {
                assert(pb[j as int] == Some(i));
                assert(pb_mid[j as int].is_none());
            } else {
                assert(pb_mid[j as int] == pb[j as int]);
                if pb[j as int].is_some() {
                    assert(pa[pb[j as int].unwrap() as int] == Some(j));
                }
            }
            if pa[i as int].is_some() {
                assert(pb[pa[i as int].unwrap() as int] == Some(i));
            }
            assert(self.partners() =~= paired(pa, pb, i, j));
            assert(other.partners() =~= paired(pb, pa, j, i));
        }
    }

    /// Member `i` turns to member `j` of `other`. A single `j` is paired
    /// with `i` at once. Otherwise a first proposal to `j` is recorded, and
    /// the two are paired if each would rather be with the other; a repeated
    /// one changes nothing. Returns whether the two were paired.
    pub fn propose(&mut self, i: usize, j: usize, other: &mut Self) -> (accepted: bool)
        requires
            old(self).wf(),
            i < old(self).spec_len(),
            j < old(other).spec_len(),
            linked(old(self).partners(), old(other).partners()),
        ensures
            final(self).wf(),
            final(self).same_setup(old(self)),
            final(other).same_setup(old(other)),
            final(other).proposals() == old(other).proposals(),
            accepted == old(self).wins(i, j, old(other)),
            final(self).proposals() == if old(self).records(i, j, old(other)) {
                old(self).proposals().update(i as int, old(self).proposals()[i as int].push(j))
            } else {
                old(self).proposals()
            },
            final(self).partners() == if accepted {
                paired(old(self).partners(), old(other).partners(), i, j)
            } else {
                old(self).partners()
            },
            final(other).partners() == if accepted {
                paired(old(other).partners(), old(self).partners(), j, i)
            } else {
                old(other).partners()
            },
            linked(final(self).partners(), final(other).partners()),
    {
        if !other.elements[j].has_partner() {
            self.pair(i, j, other);
            return true;
        }
        if contains(&self.proposal_map[i], j) {
            return false;
        }
        proof {
            lemma_push_distinct(self.proposals()[i as int], j);
        }
        self.proposal_map[i].push(j);
        assert(self.proposals() =~= old(self).proposals().update(
            i as int,
            old(self).proposals()[i as int].push(j),
        ));
        assert(self.partners() =~= old(self).partners());
        if other.elements[j].prefers(i) && self.elements[i].prefers(j) {
            self.pair(i, j, other);
            return true;
        }
        false
    }

    /// Member `i`, single or with proposals left to make, goes down its
    /// ranking and proposes, until a proposal ends in a pairing or the
    /// ranking ends.
    fn court(&mut self, i: usize, other: &mut Self)
        requires
            old(self).wf(),
            old(other).wf(),
            old(self).courting_with(old(other)),
            i < old(self).spec_len(),
            old(self).unfulfilled(i as int),
            old(self).partners()[i as int].is_some() ==> complete(old(self).partners()),
        ensures
            final(self).wf(),
            final(other).wf(),
            final(self).same_setup(old(self)),
            final(other).same_setup(old(other)),
            final(other).proposals() == old(other).proposals(),
            final(self).courting_with(final(other)),
            final(self).work_left(final(other)) < old(self).work_left(old(other)),
    {
        let n: usize = self.elements.len();
        let ghost p = self.preferences();
        let ghost q = other.preferences();
        let ghost was_paired = self.partners()[i as int].is_some();
        let mut r: usize = 0;
        let mut done: bool = false;
        while r < n && !done
            invariant
                r <= n,
                i < n,
                n == p.len(),
                n == self.spec_len(),
                n == old(self).spec_len(),
                n == other.spec_len(),
                self.wf(),
                other.wf(),
                self.same_setup(old(self)),
                other.same_setup(old(other)),
                other.proposals() == old(other).proposals(),
                self.preferences() == p,
                other.preferences() == q,
                courting(p, q, self.partners(), other.partners(), self.proposals()),
                was_paired == old(self).partners()[i as int].is_some(),
                was_paired ==> old(self).proposals()[i as int].len() < n,
                singles(other.partners()) <= singles(old(other).partners()),
                self.proposals()[i as int].len() >= old(self).proposals()[i as int].len(),
                unasked(self.proposals(), n as int) + self.proposals()[i as int].len() == unasked(
                    old(self).proposals(),
                    n as int,
                ) + old(self).proposals()[i as int].len(),
                done ==> singles(other.partners()) < singles(old(other).partners())
                    || self.proposals()[i as int].len() > old(self).proposals()[i as int].len(),
                was_paired ==> !done && complete(self.partners()) && forall|t: int|
                    0 <= t < r ==> self.proposals()[i as int].contains(#[trigger] p[i as int][t]),
                !was_paired && !done ==> self.partners()[i as int].is_none() && history_explained(
                    q,
                    other.partners(),
                    self.proposals(),
                ) && forall|t: int|
                    0 <= t < r ==> #[trigger] rejects(q, other.partners(), p[i as int][t], i),
            decreases n - r,
        {
            let ghost pa = self.partners();
            let ghost pb = other.partners();
            let ghost h = self.proposals();
            let ghost before_self = *self;
            let ghost before_other = *other;
            assert(is_permutation(p[i as int], n as nat));
            let j: usize = self.elements[i].preferences[r];
            assert(j == p[i as int][r as int]);
            assert(j < n);
            done = self.propose(i, j, other);
            proof {
                self.lemma_same_setup(&before_self);
                other.lemma_same_setup(&before_other);
                let h2 = h.update(i as int, h[i as int].push(j));
                lemma_rank_at(p[i as int], r as int);
                if before_self.records(i, j, &before_other) {
                    lemma_unasked_update(h, n as int, i as int, h[i as int].push(j));
                }
                if was_paired {
                    lemma_nothing_left_to_gain(p, q, pa, pb, h, i, j);
                    assert(!done);
                    if before_self.records(i, j, &before_other) {
                        lemma_recorded(h, n, i, j);
                        assert(h2[i as int][h[i as int].len() as int] == j);
                        assert forall|t: int| 0 <= t < r implies h2[i as int].contains(
                            #[trigger] p[i as int][t],
                        ) by {
                            let k = choose|k: int|
                                0 <= k < h[i as int].len() && h[i as int][k] == p[i as int][t];
                            assert(h2[i as int][k] == p[i as int][t]);
                        }
                    }
                } else {
                    if pb[j as int].is_none() {
                        lemma_accept(p, q, pa, pb, h, h, i, r as int);
                        lemma_singles_update(pb, j as int, i);
                    } else if h[i as int].contains(j) {
                        lemma_recorded_is_hopeless(q, pa, pb, h, i, j);
                    } else if done {
                        lemma_accept(p, q, pa, pb, h, h2, i, r as int);
                        lemma_singles_update(pb, j as int, i);
                    } else {
                        lemma_turned_down(p, q, pa, pb, h, i, j);
                    }
                }
            }
            r += 1;
        }
        proof {
            self.lemma_same_setup(old(self));
            other.lemma_same_setup(old(other));
            if !done {
                if was_paired {
                    let now = self.proposals()[i as int];
                    assert(is_permutation(p[i as int], n as nat));
                    assert forall|x: usize| x < n implies now.contains(x) by {
                        lemma_permutation_contains(p[i as int], n, x);
                        let t = rank(p[i as int], x);
                        assert(now.contains(p[i as int][t]));
                    }
                    lemma_distinct_covering_len(now, n);
                } else {
                    lemma_someone_is_free(
                        p,
                        q,
                        self.partners(),
                        other.partners(),
                        self.proposals(),
                        i,
                    );
                }
            }
        }
    }

    /// Runs deferred acceptance with `self` proposing and `other` accepting.
    /// Groups of different size are refused, and nothing changes. Otherwise
    /// both groups are reset, and proposers propose down their rankings
    /// until each has a partner and has approached every acceptor. The
    /// result pairs everyone, no proposer and acceptor would both rather be
    /// with each other, and every proposer has the best partner that any
    /// such pairing gives it.
    pub fn gale_shapley(&mut self, other: &mut Self) -> (r: Result<(), ConfigError>)
        requires
            old(self).wf(),
            old(other).wf(),
            old(self).spec_len() == old(other).spec_len() ==> valid_preferences(
                old(self).preferences(),
                old(self).spec_len(),
            ) && valid_preferences(old(other).preferences(), old(self).spec_len()),
        ensures
            old(self).spec_len() != old(other).spec_len() ==> r == Err::<(), ConfigError>(
                ConfigError::GroupSizeMismatch,
            ) && *final(self) == *old(self) && *final(other) == *old(other),
            old(self).spec_len() == old(other).spec_len() ==> r.is_ok(),
            r.is_ok() ==> final(self).is_matched_with(final(other)),
            r.is_ok() ==> final(self).same_setup(old(self)) && final(other).same_setup(old(other)),
    {
        let n: usize = self.elements.len();
        if other.elements.len() != n {
            return Err(ConfigError::GroupSizeMismatch);
        }
        self.reset();
        other.reset();
        proof {
            self.lemma_same_setup(old(self));
            other.lemma_same_setup(old(other));
            lemma_courting_at_start(
                self.preferences(),
                other.preferences(),
                self.partners(),
                other.partners(),
                self.proposals(),
            );
        }
        loop
            invariant
                n == self.spec_len(),
                n == other.spec_len(),
                self.wf(),
                other.wf(),
                self.same_setup(old(self)),
                other.same_setup(old(other)),
                self.courting_with(other),
                other.proposals() == Seq::new(n as nat, |i: int| Seq::<usize>::empty()),
            ensures
                forall|k: int| 0 <= k < n ==> !self.unfulfilled(k),
            decreases self.work_left(other),
        {
            match self.get_first_unfulfilled() {
                None => {
                    break ;
                },
                Some(i) => {
                    let ghost before_self = *self;
                    let ghost before_other = *other;
                    self.court(i, other);
                    proof {
                        self.lemma_same_setup_transitive(&before_self, old(self));
                        other.lemma_same_setup_transitive(&before_other, old(other));
                        lemma_singles_nonnegative(other.partners());
                        lemma_history_bounded(self.proposals(), n);
                    }
                },
            }
        }
        proof {
            assert(complete(self.partners())) by {
                assert forall|k: int| 0 <= k < self.partners().len() implies (
                #[trigger] self.partners()[k]).is_some() by {
                    assert(!self.unfulfilled(k));
                }
            }
            lemma_courting_ends_well(
                self.preferences(),
                other.preferences(),
                self.partners(),
                other.partners(),
                self.proposals(),
            );
            lemma_history_bounded(self.proposals(), n);
            assert forall|k: int| 0 <= k < n implies is_permutation(
                #[trigger] self.proposals()[k],
                n as nat,
            ) by {
                assert(!self.unfulfilled(k));
            }
        }
        Ok(())
    }

    /// Whether every member's ranking is a ranking of the positions below
    /// `n`, each exactly once: what a matching run asks of both groups.
    pub fn has_valid_preferences(&self, n: usize) -> (b: bool)
        ensures
            b == valid_preferences(self.preferences(), n as nat),
    {
        let len: usize = self.elements.len();
        let mut i: usize = 0;
        while i < len
            invariant
                i <= len,
                len == self.elements@.len(),
                forall|k: int|
                    0 <= k < i ==> is_permutation(#[trigger] self.preferences()[k], n as nat),
            decreases len - i,
        {
            if !check_permutation(&self.elements[i].preferences, n) {
                assert(!is_permutation(self.preferences()[i as int], n as nat));
                return false;
            }
            i += 1;
        }
        true
    }

    /// Gives every member a ranking of the positions below `n`: the
    /// identity, shuffled where `randomize` is set.
    fn rank_all(&mut self, n: usize, randomize: bool, rng: &mut ThreadRng)
        ensures
            final(self).same_standing(old(self)),
            valid_preferences(final(self).preferences(), n as nat),
            !randomize ==> forall|i: int|
                0 <= i < final(self).spec_len() ==> (#[trigger] final(self).preferences()[i])
                    == identity(n as nat),
    {
        let len: usize = self.elements.len();
        let mut i: usize = 0;
        while i < len
            invariant
                i <= len,
                len == self.elements@.len(),
                len == old(self).elements@.len(),
                self.proposal_map == old(self).proposal_map,
                forall|k: int|
                    0 <= k < len ==> (#[trigger] self.elements@[k]).index == old(
                        self,
                    ).elements@[k].index && self.elements@[k].value == old(self).elements@[k].value
                        && self.elements@[k].partner_index == old(self).elements@[k].partner_index,
                forall|k: int|
                    0 <= k < i ==> is_permutation((#[trigger] self.elements@[k]).preferences@, n as nat),
                !randomize ==> forall|k: int|
                    0 <= k < i ==> (#[trigger] self.elements@[k]).preferences@ == identity(n as nat),
            decreases len - i,
        {
            let mut ranking: Vec<usize> = identity_ranking(n);
            proof {
                lemma_identity_is_permutation(n);
            }
            if randomize {
                let ghost plain = ranking@;
                shuffle(&mut ranking, rng);
                proof {
                    lemma_rearranged_is_permutation(plain, ranking@, n as nat);
                }
            }
            self.elements[i].set_preferences(ranking);
            i += 1;
        }
    }

    /// Gives every member of `self` a ranking of the positions of `other`,
    /// and every member of `other` a ranking of the positions of `self`: the
    /// identity ranking, or, where `randomize` is set, a shuffled one for
    /// each member.
    pub fn init_preferences(&mut self, other: &mut Self, randomize: bool)
        ensures
            final(self).same_standing(old(self)),
            final(other).same_standing(old(other)),
            valid_preferences(final(self).preferences(), old(other).spec_len()),
            valid_preferences(final(other).preferences(), old(self).spec_len()),
            !randomize ==> forall|i: int|
                0 <= i < old(self).spec_len() ==> (#[trigger] final(self).preferences()[i])
                    == identity(old(other).spec_len()),
            !randomize ==> forall|j: int|
                0 <= j < old(other).spec_len() ==> (#[trigger] final(other).preferences()[j])
                    == identity(old(self).spec_len()),
    {
        let mut rng: ThreadRng = rand::thread_rng();
        let n: usize = self.elements.len();
        let m: usize = other.elements.len();
        self.rank_all(m, randomize, &mut rng);
        other.rank_all(n, randomize, &mut rng);
    }

    /// The identities of the paired members of `self` and of their partners
    /// in `other`, in the order of `self`.
    pub fn pairs<'a>(&'a self, other: &'a Self) -> (r: Vec<(&'a T, &'a T)>)
        requires
            partners_within(self.partners(), other.spec_len()),
        ensures
            r@.len() == pair_list(self.values(), other.values(), self.partners()).len(),
            forall|k: int|
                0 <= k < r@.len() ==> (*(#[trigger] r@[k]).0, *r@[k].1) == pair_list(
                    self.values(),
                    other.values(),
                    self.partners(),
                )[k],
    {
        let n: usize = self.elements.len();
        let mut out: Vec<(&'a T, &'a T)> = Vec::new();
        let mut i: usize = 0;
        assert(self.partners().take(0) =~= Seq::<Option<usize>>::empty());
        while i < n
            invariant
                i <= n,
                n == self.elements@.len(),
                partners_within(self.partners(), other.spec_len()),
                out@.len() == pair_list(
                    self.values(),
                    other.values(),
                    self.partners().take(i as int),
                ).len(),
                forall|k: int|
                    0 <= k < out@.len() ==> (*(#[trigger] out@[k]).0, *out@[k].1) == pair_list(
                        self.values(),
                        other.values(),
                        self.partners().take(i as int),
                    )[k],
            decreases n - i,
        {
            proof {
                assert(self.partners().take(i + 1).drop_last() =~= self.partners().take(i as int));
                assert(self.partners().take(i + 1).last() == self.partners()[i as int]);
            }
            match self.elements[i].partner_index {
                Some(j) => {
                    assert(self.partners()[i as int] == Some(j));
                    out.push((&self.elements[i].value, &other.elements[j].value));
                },
                None => {},
            }
            i += 1;
        }
        assert(self.partners().take(n as int) =~= self.partners());
        out
    }
}

/// Two groups of `n` members each, named by their positions, every member
/// with a shuffled ranking of the other group.
pub fn generate_test_sets(n: usize) -> (r: (Group<Element<usize>>, Group<Element<usize>>))
    ensures
        r.0.wf(),
        r.1.wf(),
        r.0.spec_len() == n,
        r.1.spec_len() == n,
        forall|i: int| 0 <= i < n ==> (#[trigger] r.0.values()[i]) == i,
        forall|i: int| 0 <= i < n ==> (#[trigger] r.1.values()[i]) == i,
        all_single(r.0.partners()),
        all_single(r.1.partners()),
        forall|i: int| 0 <= i < n ==> (#[trigger] r.0.proposals()[i]) == Seq::<usize>::empty(),
        forall|i: int| 0 <= i < n ==> (#[trigger] r.1.proposals()[i]) == Seq::<usize>::empty(),
        valid_preferences(r.0.preferences(), n as nat),
        valid_preferences(r.1.preferences(), n as nat),
{
    let mut first: Vec<Element<usize>> = Vec::new();
    let mut second: Vec<Element<usize>> = Vec::new();
    let mut i: usize = 0;
    while i < n
        invariant
            i <= n,
            first@.len() == i,
            second@.len() == i,
            forall|k: int|
                0 <= k < i ==> (#[trigger] first@[k]).value == k && first@[k].partner_index.is_none(),
            forall|k: int|
                0 <= k < i ==> (#[trigger] second@[k]).value == k
                    && second@[k].partner_index.is_none(),
        decreases n - i,
    {
        first.push(Element::new(i));
        second.push(Element::new(i));
        i += 1;
    }
    let mut a: Group<Element<usize>> = Group::new(first);
    let mut b: Group<Element<usize>> = Group::new(second);
    let ghost a0 = a;
    let ghost b0 = b;
    a.init_preferences(&mut b, true);
    let ghost a1 = a;
    let ghost b1 = b;
    b.init_preferences(&mut a, true);
    proof {
        assert(a.wf());
        assert(b.wf());
    }
    (a, b)
}

} // verus!
