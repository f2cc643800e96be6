use stable_matching::permutation::{check_permutation, contains, identity_ranking};
use stable_matching::Element;

#[test]
fn new_element_is_blank() {
    let e = Element::new("x");
    assert_eq!(e.index, None);
    assert_eq!(e.partner_index, None);
    assert_eq!(e.value, "x");
    assert!(e.preferences.is_empty());
    assert!(!e.has_partner());
}

#[test]
fn has_partner_follows_partner_index() {
    let mut e = Element::new(7u32);
    e.partner_index = Some(0);
    assert!(e.has_partner());
    e.partner_index = None;
    assert!(!e.has_partner());
}

#[test]
fn set_preferences_replaces_the_ranking() {
    let mut e = Element::new('a');
    e.partner_index = Some(2);
    e.set_preferences(vec![2, 0, 1]);
    assert_eq!(e.preferences, vec![2, 0, 1]);
    e.set_preferences(vec![1, 0]);
    assert_eq!(e.preferences, vec![1, 0]);
    assert_eq!(e.partner_index, Some(2));
    assert_eq!(e.value, 'a');
    assert_eq!(e.index, None);
}

#[test]
fn preference_value_is_the_position() {
    let mut e = Element::new(0u8);
    e.set_preferences(vec![3, 1, 2, 0, 4]);
    assert_eq!(e.get_preference_value(3), 0);
    assert_eq!(e.get_preference_value(1), 1);
    assert_eq!(e.get_preference_value(2), 2);
    assert_eq!(e.get_preference_value(0), 3);
    assert_eq!(e.get_preference_value(4), 4);
}

#[test]
fn preference_value_of_a_stranger_is_max() {
    let mut e = Element::new(0u8);
    assert_eq!(e.get_preference_value(0), usize::MAX);
    e.set_preferences(vec![1, 0]);
    assert_eq!(e.get_preference_value(2), usize::MAX);
    assert_eq!(e.get_preference_value(usize::MAX), usize::MAX);
}

#[test]
fn preference_value_takes_the_first_occurrence() {
    let mut e = Element::new(0u8);
    e.set_preferences(vec![5, 4, 5, 4]);
    assert_eq!(e.get_preference_value(4), 1);
    assert_eq!(e.get_preference_value(5), 0);
}

#[test]
fn single_element_prefers_whoever_it_ranks() {
    let mut e = Element::new(0u8);
    e.set_preferences(vec![2, 0, 1]);
    assert!(e.prefers(0));
    assert!(e.prefers(1));
    assert!(e.prefers(2));
    assert!(!e.prefers(3));
}

#[test]
fn paired_element_prefers_only_better_ranked() {
    let mut e = Element::new(0u8);
    e.set_preferences(vec![2, 0, 1]);
    e.partner_index = Some(0);
    assert!(e.prefers(2));
    assert!(!e.prefers(0));
    assert!(!e.prefers(1));
    e.partner_index = Some(2);
    assert!(!e.prefers(0));
    assert!(!e.prefers(1));
    assert!(!e.prefers(2));
    e.partner_index = Some(1);
    assert!(e.prefers(0));
    assert!(e.prefers(2));
}

#[test]
fn element_with_unranked_partner_prefers_any_ranked() {
    let mut e = Element::new(0u8);
    e.set_preferences(vec![1, 0]);
    e.partner_index = Some(9);
    assert!(e.prefers(0));
    assert!(e.prefers(1));
    assert!(!e.prefers(9));
}

#[test]
fn clone_keeps_every_field() {
    let mut e = Element::new(String::from("n"));
    e.set_preferences(vec![1, 0]);
    e.partner_index = Some(1);
    e.index = Some(4);
    let c = e.clone();
    assert_eq!(c.index, Some(4));
    assert_eq!(c.partner_index, Some(1));
    assert_eq!(c.value, "n");
    assert_eq!(c.preferences, vec![1, 0]);
}

#[test]
fn check_permutation_accepts_rankings() {
    assert!(check_permutation(&vec![], 0));
    assert!(check_permutation(&vec![0], 1));
    assert!(check_permutation(&vec![2, 0, 1], 3));
    assert!(check_permutation(&vec![0, 1, 2, 3, 4], 5));
}

#[test]
fn check_permutation_refuses_wrong_length() {
    assert!(!check_permutation(&vec![0, 1], 3));
    assert!(!check_permutation(&vec![0, 1, 2], 2));
    assert!(!check_permutation(&vec![], 1));
}

#[test]
fn check_permutation_refuses_repeats_and_strangers() {
    assert!(!check_permutation(&vec![0, 0, 1], 3));
    assert!(!check_permutation(&vec![2, 1, 2], 3));
    assert!(!check_permutation(&vec![0, 1, 3], 3));
    assert!(!check_permutation(&vec![usize::MAX], 1));
}

#[test]
fn contains_finds_what_is_there() {
    let v = vec![4, 2, 9];
    assert!(contains(&v, 4));
    assert!(contains(&v, 9));
    assert!(!contains(&v, 0));
    assert!(!contains(&vec![], 0));
}

#[test]
fn identity_ranking_counts_up() {
    assert_eq!(identity_ranking(0), Vec::<usize>::new());
    assert_eq!(identity_ranking(1), vec![0]);
    assert_eq!(identity_ranking(5), vec![0, 1, 2, 3, 4]);
}
