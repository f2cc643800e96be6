use stable_matching::group::{generate_test_sets, Group};
use stable_matching::{ConfigError, Element};

fn group_of(names: &[&'static str], table: Vec<Vec<usize>>) -> Group<Element<&'static str>> {
    let mut members = Vec::new();
    for name in names {
        members.push(Element::new(*name));
    }
    let mut g = Group::new(members);
    assert_eq!(g.set_preferences(table), Ok(()));
    g
}

fn partners<T>(g: &Group<Element<T>>) -> Vec<Option<usize>> {
    let mut out = Vec::new();
    for i in 0..g.len() {
        out.push(g.get(i).partner_index);
    }
    out
}

fn position(ranking: &Vec<usize>, x: usize) -> usize {
    let mut k = 0;
    while ranking[k] != x {
        k += 1;
    }
    k
}

fn blocking_pairs<T>(a: &Group<Element<T>>, b: &Group<Element<T>>) -> usize {
    let mut found = 0;
    for i in 0..a.len() {
        for j in 0..b.len() {
            let pi = a.get(i).partner_index.unwrap();
            let pj = b.get(j).partner_index.unwrap();
            if pi == j {
                continue;
            }
            let i_gains = position(&a.get(i).preferences, j) < position(&a.get(i).preferences, pi);
            let j_gains = position(&b.get(j).preferences, i) < position(&b.get(j).preferences, pj);
            if i_gains && j_gains {
                found += 1;
            }
        }
    }
    found
}

fn assert_perfect<T>(a: &Group<Element<T>>, b: &Group<Element<T>>) {
    let n = a.len();
    assert_eq!(b.len(), n);
    let mut taken = vec![false; n];
    for i in 0..n {
        let j = a.get(i).partner_index.unwrap();
        assert!(j < n);
        assert!(!taken[j]);
        taken[j] = true;
        assert_eq!(b.get(j).partner_index, Some(i));
    }
    for j in 0..n {
        let i = b.get(j).partner_index.unwrap();
        assert_eq!(a.get(i).partner_index, Some(j));
    }
}

fn assert_each_acceptor_asked_once<T>(a: &Group<Element<T>>) {
    let n = a.len();
    for i in 0..n {
        let mut asked = a.proposals_of(i).clone();
        assert_eq!(asked.len(), n);
        asked.sort();
        let all: Vec<usize> = (0..n).collect();
        assert_eq!(asked, all);
    }
}

fn four_by_four() -> (Group<Element<&'static str>>, Group<Element<&'static str>>) {
    let a = group_of(
        &["a", "b", "c", "d"],
        vec![vec![0, 1, 2, 3], vec![2, 3, 0, 1], vec![2, 1, 3, 0], vec![3, 1, 2, 0]],
    );
    let b = group_of(
        &["A", "B", "C", "D"],
        vec![vec![2, 3, 1, 0], vec![2, 0, 3, 1], vec![1, 2, 3, 0], vec![2, 1, 0, 3]],
    );
    (a, b)
}

fn five_by_five() -> (Group<Element<&'static str>>, Group<Element<&'static str>>) {
    let a = group_of(
        &["A", "B", "C", "D", "E"],
        vec![
            vec![3, 1, 2, 0, 4],
            vec![4, 2, 1, 0, 3],
            vec![1, 4, 0, 3, 2],
            vec![4, 1, 3, 2, 0],
            vec![3, 0, 1, 2, 4],
        ],
    );
    let b = group_of(
        &["L", "M", "N", "O", "P"],
        vec![
            vec![3, 1, 4, 2, 0],
            vec![1, 0, 3, 2, 4],
            vec![0, 2, 4, 3, 1],
            vec![3, 0, 2, 1, 4],
            vec![1, 4, 0, 2, 3],
        ],
    );
    (a, b)
}

#[test]
fn four_by_four_is_matched_stably() {
    let (mut a, mut b) = four_by_four();
    assert_eq!(a.gale_shapley(&mut b), Ok(()));
    assert_perfect(&a, &b);
    assert_eq!(blocking_pairs(&a, &b), 0);
    assert_eq!(partners(&a), vec![Some(0), Some(2), Some(1), Some(3)]);
    assert_eq!(partners(&b), vec![Some(0), Some(2), Some(1), Some(3)]);
    assert_eq!(a.pairs(&b).len(), 4);
}

#[test]
fn four_by_four_pairs_by_name() {
    let (mut a, mut b) = four_by_four();
    assert_eq!(a.gale_shapley(&mut b), Ok(()));
    let listed: Vec<(&str, &str)> = a.pairs(&b).into_iter().map(|(x, y)| (*x, *y)).collect();
    assert_eq!(listed, vec![("a", "A"), ("b", "C"), ("c", "B"), ("d", "D")]);
}

#[test]
fn five_by_five_is_matched_stably() {
    let (mut a, mut b) = five_by_five();
    assert_eq!(a.gale_shapley(&mut b), Ok(()));
    assert_perfect(&a, &b);
    assert_eq!(blocking_pairs(&a, &b), 0);
    assert_eq!(partners(&a), vec![Some(3), Some(4), Some(2), Some(1), Some(0)]);
    assert_eq!(partners(&b), vec![Some(4), Some(3), Some(2), Some(0), Some(1)]);
}

#[test]
fn five_by_five_the_other_way_round() {
    let (mut a, mut b) = five_by_five();
    assert_eq!(b.gale_shapley(&mut a), Ok(()));
    assert_perfect(&b, &a);
    assert_eq!(blocking_pairs(&b, &a), 0);
    assert_each_acceptor_asked_once(&b);
    for i in 0..5 {
        assert!(a.proposals_of(i).is_empty());
    }
}

#[test]
fn every_proposer_asks_every_acceptor_once() {
    let (mut a, mut b) = five_by_five();
    assert_eq!(a.gale_shapley(&mut b), Ok(()));
    assert_each_acceptor_asked_once(&a);
    for j in 0..5 {
        assert!(b.proposals_of(j).is_empty());
    }
}

#[test]
fn proposers_get_the_best_stable_partner() {
    // Two stable matchings exist: each side's first choices. The proposing
    // side gets its own.
    let mut a = group_of(&["a", "b"], vec![vec![0, 1], vec![1, 0]]);
    let mut b = group_of(&["A", "B"], vec![vec![1, 0], vec![0, 1]]);
    assert_eq!(a.gale_shapley(&mut b), Ok(()));
    assert_eq!(partners(&a), vec![Some(0), Some(1)]);
    assert_eq!(partners(&b), vec![Some(0), Some(1)]);
    assert_eq!(b.gale_shapley(&mut a), Ok(()));
    assert_eq!(partners(&b), vec![Some(1), Some(0)]);
    assert_eq!(partners(&a), vec![Some(1), Some(0)]);
}

#[test]
fn a_bumped_proposer_finds_another() {
    let mut a = group_of(&["a", "b"], vec![vec![0, 1], vec![0, 1]]);
    let mut b = group_of(&["A", "B"], vec![vec![1, 0], vec![1, 0]]);
    assert_eq!(a.gale_shapley(&mut b), Ok(()));
    assert_eq!(partners(&a), vec![Some(1), Some(0)]);
    assert_eq!(partners(&b), vec![Some(1), Some(0)]);
    assert_eq!(blocking_pairs(&a, &b), 0);
}

#[test]
fn second_run_repeats_the_first() {
    let (mut a, mut b) = five_by_five();
    assert_eq!(a.gale_shapley(&mut b), Ok(()));
    let first_a = partners(&a);
    let first_b = partners(&b);
    assert_eq!(a.gale_shapley(&mut b), Ok(()));
    assert_eq!(partners(&a), first_a);
    assert_eq!(partners(&b), first_b);
    assert_each_acceptor_asked_once(&a);
}

#[test]
fn run_does_not_depend_on_earlier_pairings() {
    let (mut a, mut b) = four_by_four();
    a.pair(0, 3, &mut b);
    a.pair(3, 0, &mut b);
    assert!(!a.propose(0, 0, &mut b));
    assert_eq!(a.gale_shapley(&mut b), Ok(()));
    let (mut c, mut d) = four_by_four();
    assert_eq!(c.gale_shapley(&mut d), Ok(()));
    assert_eq!(partners(&a), partners(&c));
    assert_eq!(partners(&b), partners(&d));
}

#[test]
fn run_clears_the_acceptors_history() {
    let (mut a, mut b) = four_by_four();
    assert_eq!(b.gale_shapley(&mut a), Ok(()));
    assert_eq!(a.gale_shapley(&mut b), Ok(()));
    for j in 0..4 {
        assert!(b.proposals_of(j).is_empty());
    }
    assert_each_acceptor_asked_once(&a);
}

#[test]
fn run_keeps_identities_and_rankings() {
    let (mut a, mut b) = four_by_four();
    assert_eq!(a.gale_shapley(&mut b), Ok(()));
    assert_eq!(a.get(1).value, "b");
    assert_eq!(a.get(1).index, Some(1));
    assert_eq!(a.get(1).preferences, vec![2, 3, 0, 1]);
    assert_eq!(b.get(3).value, "D");
    assert_eq!(b.get(3).preferences, vec![2, 1, 0, 3]);
}

#[test]
fn single_pair_is_matched_after_one_proposal() {
    let mut a = group_of(&["a"], vec![vec![0]]);
    let mut b = group_of(&["A"], vec![vec![0]]);
    assert_eq!(a.gale_shapley(&mut b), Ok(()));
    assert_eq!(partners(&a), vec![Some(0)]);
    assert_eq!(partners(&b), vec![Some(0)]);
    assert_eq!(a.proposals_of(0), &vec![0]);
    assert!(b.proposals_of(0).is_empty());
}

#[test]
fn empty_groups_match_trivially() {
    let mut a: Group<Element<u8>> = Group::new(Vec::new());
    let mut b: Group<Element<u8>> = Group::new(Vec::new());
    assert_eq!(a.gale_shapley(&mut b), Ok(()));
    assert_eq!(a.len(), 0);
    assert!(a.pairs(&b).is_empty());
}

#[test]
fn groups_of_different_size_are_refused() {
    let mut a = group_of(&["a", "b"], vec![vec![0], vec![0]]);
    let mut b = group_of(&["A"], vec![vec![0, 1]]);
    a.pair(1, 0, &mut b);
    assert_eq!(a.gale_shapley(&mut b), Err(ConfigError::GroupSizeMismatch));
    assert_eq!(partners(&a), vec![None, Some(0)]);
    assert_eq!(partners(&b), vec![Some(1)]);
    assert_eq!(b.gale_shapley(&mut a), Err(ConfigError::GroupSizeMismatch));
    assert_eq!(partners(&a), vec![None, Some(0)]);
}

#[test]
fn identical_rankings_match_in_order() {
    let mut a = group_of(&["a", "b", "c"], vec![vec![0, 1, 2], vec![0, 1, 2], vec![0, 1, 2]]);
    let mut b = group_of(&["A", "B", "C"], vec![vec![0, 1, 2], vec![0, 1, 2], vec![0, 1, 2]]);
    assert_eq!(a.gale_shapley(&mut b), Ok(()));
    assert_eq!(partners(&a), vec![Some(0), Some(1), Some(2)]);
    assert_eq!(blocking_pairs(&a, &b), 0);
}

#[test]
fn acceptors_pick_among_rivals() {
    let mut a = group_of(&["a", "b", "c"], vec![vec![0, 1, 2], vec![0, 1, 2], vec![0, 1, 2]]);
    let mut b = group_of(&["A", "B", "C"], vec![vec![2, 1, 0], vec![2, 1, 0], vec![2, 1, 0]]);
    assert_eq!(a.gale_shapley(&mut b), Ok(()));
    assert_eq!(partners(&a), vec![Some(2), Some(1), Some(0)]);
    assert_eq!(partners(&b), vec![Some(2), Some(1), Some(0)]);
    assert_eq!(blocking_pairs(&a, &b), 0);
    assert_each_acceptor_asked_once(&a);
}

#[test]
fn generated_sets_are_ready_to_match() {
    let (a, b) = generate_test_sets(7);
    assert_eq!(a.len(), 7);
    assert_eq!(b.len(), 7);
    assert!(a.has_valid_preferences(7));
    assert!(b.has_valid_preferences(7));
    for i in 0..7 {
        assert_eq!(a.get(i).value, i);
        assert_eq!(b.get(i).value, i);
        assert_eq!(a.get(i).index, Some(i));
        assert_eq!(a.get(i).partner_index, None);
        assert_eq!(b.get(i).partner_index, None);
        assert!(a.proposals_of(i).is_empty());
    }
}

#[test]
fn generated_sets_are_shuffled() {
    let (a, b) = generate_test_sets(24);
    let plain: Vec<usize> = (0..24).collect();
    let mut moved = 0;
    for i in 0..24 {
        if a.get(i).preferences != plain {
            moved += 1;
        }
        if b.get(i).preferences != plain {
            moved += 1;
        }
    }
    assert!(moved > 0);
}

#[test]
fn generated_sets_of_size_zero_are_empty() {
    let (a, b) = generate_test_sets(0);
    assert_eq!(a.len(), 0);
    assert_eq!(b.len(), 0);
}

#[test]
fn generated_sets_match_stably() {
    for n in [1usize, 2, 3, 5, 8, 13, 30] {
        let (mut a, mut b) = generate_test_sets(n);
        assert_eq!(a.gale_shapley(&mut b), Ok(()));
        assert_perfect(&a, &b);
        assert_eq!(blocking_pairs(&a, &b), 0);
        assert_each_acceptor_asked_once(&a);
        let first = partners(&a);
        assert_eq!(a.gale_shapley(&mut b), Ok(()));
        assert_eq!(partners(&a), first);
    }
}
