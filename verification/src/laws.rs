//! What follows from the contract of a matching run.
use vstd::prelude::*;
use crate::element::Element;
use crate::group::Group;
use crate::matching::{blocking, lemma_optimal_pairing_unique, valid_preferences};

verus! {

/// After a matching run no proposer and acceptor would both rather be with
/// each other than with the partners they have.
pub proof fn lemma_no_blocking_pair<T>(
    a: Group<Element<T>>,
    b: Group<Element<T>>,
    i: usize,
    j: usize,
)
    requires
        a.is_matched_with(&b),
        i < a.spec_len(),
        j < b.spec_len(),
    ensures
        !(a.members()[i as int].prefers_spec(j) && b.members()[j as int].prefers_spec(i)),
{
    assert(!blocking(a.preferences(), b.preferences(), a.partners(), b.partners(), i, j));
}

/// After a matching run the partner that a member names names it back, and
/// every member names one.
pub proof fn lemma_pairing_symmetric<T>(a: Group<Element<T>>, b: Group<Element<T>>, i: usize)
    requires
        a.is_matched_with(&b),
        i < a.spec_len(),
    ensures
        a.members()[i as int].partner_index.is_some(),
        a.members()[i as int].partner_index.unwrap() < b.spec_len(),
        b.members()[a.members()[i as int].partner_index.unwrap() as int].partner_index == Some(i),
        b.members()[i as int].partner_index.is_some(),
        b.members()[i as int].partner_index.unwrap() < a.spec_len(),
        a.members()[b.members()[i as int].partner_index.unwrap() as int].partner_index == Some(i),
{
    assert(a.partners()[i as int].is_some());
    assert(b.partners()[i as int].is_some());
}

/// The outcome of a matching run depends on the rankings alone: two outcomes
/// for groups with the same rankings pair the same members, whatever the
/// groups held before their runs.
pub proof fn lemma_outcome_determined<T>(
    a1: Group<Element<T>>,
    b1: Group<Element<T>>,
    a2: Group<Element<T>>,
    b2: Group<Element<T>>,
)
    requires
        a1.is_matched_with(&b1),
        a2.is_matched_with(&b2),
        a1.preferences() == a2.preferences(),
        b1.preferences() == b2.preferences(),
        valid_preferences(a1.preferences(), a1.spec_len()),
    ensures
        a1.partners() == a2.partners(),
        b1.partners() == b2.partners(),
{
    a1.lemma_len_fits();
    lemma_optimal_pairing_unique(
        a1.preferences(),
        b1.preferences(),
        a1.partners(),
        b1.partners(),
        a2.partners(),
        b2.partners(),
    );
}

/// Running a match a second time on the groups that a first run left gives
/// the pairing of the first run again. `a1` and `b1` are the groups after
/// the first run, `a2` and `b2` after the second.
pub proof fn lemma_rerun_repeats<T>(
    a1: Group<Element<T>>,
    b1: Group<Element<T>>,
    a2: Group<Element<T>>,
    b2: Group<Element<T>>,
)
    requires
        a1.is_matched_with(&b1),
        a2.is_matched_with(&b2),
        a2.same_setup(&a1),
        b2.same_setup(&b1),
        valid_preferences(a1.preferences(), a1.spec_len()),
    ensures
        a2.partners() == a1.partners(),
        b2.partners() == b1.partners(),
{
    a2.lemma_same_setup(&a1);
    b2.lemma_same_setup(&b1);
    lemma_outcome_determined(a1, b1, a2, b2);
}

/// Between two groups of one member each, a matching run pairs the two, and
/// the proposer has recorded exactly one proposal, to the one acceptor.
pub proof fn lemma_single_pair<T>(a: Group<Element<T>>, b: Group<Element<T>>)
    requires
        a.is_matched_with(&b),
        a.spec_len() == 1,
    ensures
        a.partners() == seq![Some(0usize)],
        b.partners() == seq![Some(0usize)],
        a.proposals() == seq![seq![0usize]],
{
    let z: usize = 0;
    assert(a.partners()[z as int].is_some());
    assert(b.partners()[z as int].is_some());
    assert(a.partners() =~= seq![Some(0usize)]);
    assert(b.partners() =~= seq![Some(0usize)]);
    assert(a.proposals()[0][0] < 1);
    assert(a.proposals()[0] =~= seq![0usize]);
    assert(a.proposals() =~= seq![seq![0usize]]);
}

} // verus!
