//! A participant, and what it means for it to prefer one candidate to its
//! partner.
use vstd::prelude::*;
use crate::permutation::{lemma_rank, lemma_rank_is, rank};

verus! {

/// The rank that a participant with ranking `s` gives its present partner.
/// Having no partner counts as the worst rank there is.
pub open spec fn partner_rank(s: Seq<usize>, partner: Option<usize>) -> int {
    match partner {
        Some(p) => rank(s, p),
        None => usize::MAX as int,
    }
}

/// A participant with ranking `s` and the given partner would rather be with
/// `candidate`: the candidate ranks strictly better than the partner.
pub open spec fn prefers(s: Seq<usize>, partner: Option<usize>, candidate: usize) -> bool {
    rank(s, candidate) < partner_rank(s, partner)
}

/// One participant of a matching: an identity, its position in its own group,
/// the position of its partner in the opposite group, and its ranking of the
/// opposite group's positions, most preferred first.
#[derive(Clone, Debug)]
pub struct Element<T> {
    pub index: Option<usize>,
    pub partner_index: Option<usize>,
    pub value: T,
    pub preferences: Vec<usize>,
}

impl<T> Element<T> {
    /// This participant would rather be with `candidate` than with its
    /// present partner.
    pub open spec fn prefers_spec(&self, candidate: usize) -> bool {
        prefers(self.preferences@, self.partner_index, candidate)
    }

    /// A participant with no position, no partner and no preferences yet.
    pub fn new(value: T) -> (e: Self)
        ensures
            e.index.is_none(),
            e.partner_index.is_none(),
            e.value == value,
            e.preferences@ == Seq::<usize>::empty(),
    {
        Element { index: None, partner_index: None, value, preferences: Vec::new() }
    }

    pub fn has_partner(&self) -> (b: bool)
        ensures
            b == self.partner_index.is_some(),
    {
        self.partner_index.is_some()
    }

    /// Replaces the ranking. Nothing is checked here: a matching run asks
    /// for a ranking of every position of the opposite group.
    pub fn set_preferences(&mut self, preferences: Vec<usize>)
        ensures
            final(self).preferences@ == preferences@,
            final(self).index == old(self).index,
            final(self).partner_index == old(self).partner_index,
            final(self).value == old(self).value,
    {
        self.preferences = preferences;
    }

    /// The rank of `e_index` in this participant's ranking, 0 for the most
    /// preferred; `usize::MAX` where the ranking does not hold `e_index`.
    pub fn get_preference_value(&self, e_index: usize) -> (r: usize)
        ensures
            r == rank(self.preferences@, e_index),
    {
        let n: usize = self.preferences.len();
        let mut i: usize = 0;
        while i < n
            invariant
                i <= n,
                n == self.preferences@.len(),
                forall|k: int| 0 <= k < i ==> self.preferences@[k] != e_index,
            decreases n - i,
        {
            if self.preferences[i] == e_index {
                proof {
                    lemma_rank_is(self.preferences@, e_index, i as int);
                }
                return i;
            }
            i += 1;
        }
        proof {
            lemma_rank(self.preferences@, e_index);
        }
        usize::MAX
    }

    /// Whether `e_index` ranks strictly better than the present partner. A
    /// participant without a partner prefers whoever its ranking holds.
    pub fn prefers(&self, e_index: usize) -> (b: bool)
        ensures
            b == self.prefers_spec(e_index),
    {
        let current: usize = match self.partner_index {
            Some(p) => self.get_preference_value(p),
            None => usize::MAX,
        };
        self.get_preference_value(e_index) < current
    }
}

} // verus!
