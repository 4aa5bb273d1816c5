use lib::agari::{is_agari, is_anko, is_mentsu};
use lib::count::Count;

fn manzu_only(manzu: [u8; 9]) -> Count {
    let mut c = Count::empty();
    c.manzu = manzu;
    c
}

#[test]
fn empty_count_is_all_zero() {
    let c = Count::empty();
    assert_eq!(c.manzu, [0; 9]);
    assert_eq!(c.pinzu, [0; 9]);
    assert_eq!(c.souzu, [0; 9]);
    assert_eq!(c.zupai, [0; 7]);
}

#[test]
fn from_indices_counts_each_kind() {
    let c = Count::from_indices(&[0, 1, 2, 3, 36, 135, 88, 89]);
    assert_eq!(c.manzu, [4, 0, 0, 0, 0, 0, 0, 0, 0]);
    assert_eq!(c.pinzu, [1, 0, 0, 0, 0, 0, 0, 0, 0]);
    assert_eq!(c.souzu, [0, 0, 0, 0, 2, 0, 0, 0, 0]);
    assert_eq!(c.zupai, [0, 0, 0, 0, 0, 0, 1]);
}

#[test]
fn remove_head_takes_two() {
    let c = manzu_only([4, 0, 0, 0, 0, 0, 0, 0, 0]);
    match c.remove_head((0, 0)) {
        Ok(r) => assert_eq!(r.manzu, [2, 0, 0, 0, 0, 0, 0, 0, 0]),
        Err(_) => panic!("a pair is held"),
    }
}

#[test]
fn remove_head_refuses_a_single() {
    let mut c = Count::empty();
    c.pinzu[0] = 1;
    assert!(c.remove_head((1, 0)).is_err());
    assert!(c.remove_head((3, 2)).is_err());
}

#[test]
fn remove_head_on_no_suit_changes_nothing() {
    let c = manzu_only([1, 2, 3, 0, 0, 0, 0, 0, 0]);
    match c.remove_head((4, 0)) {
        Ok(r) => assert_eq!(r.manzu, [1, 2, 3, 0, 0, 0, 0, 0, 0]),
        Err(_) => panic!("nothing to remove"),
    }
}

#[test]
fn seven_pairs_counted() {
    let mut c = Count::empty();
    c.manzu = [2, 2, 0, 0, 0, 0, 0, 0, 0];
    c.pinzu = [0, 0, 2, 0, 0, 0, 0, 0, 0];
    c.zupai = [2, 2, 2, 2, 0, 0, 0];
    assert!(c.is_7toitsu());
    c.zupai = [2, 2, 2, 0, 0, 0, 0];
    assert!(!c.is_7toitsu());
    c.zupai = [2, 2, 2, 4, 0, 0, 0];
    assert!(!c.is_7toitsu());
}

#[test]
fn kokushi_needs_every_terminal_and_honour() {
    let mut c = Count::empty();
    c.manzu = [1, 0, 0, 0, 0, 0, 0, 0, 1];
    c.pinzu = [1, 0, 0, 0, 0, 0, 0, 0, 1];
    c.souzu = [1, 0, 0, 0, 0, 0, 0, 0, 1];
    c.zupai = [1, 1, 1, 1, 1, 1, 2];
    assert!(c.is_kokushi());
    c.zupai = [1, 1, 1, 1, 1, 0, 2];
    assert!(!c.is_kokushi());
    c.zupai = [1, 1, 1, 1, 1, 3, 2];
    assert!(!c.is_kokushi());
}

#[test]
fn find_head_lists_every_pair() {
    let mut c = Count::empty();
    c.manzu[0] = 2;
    c.pinzu[4] = 1;
    c.zupai[3] = 3;
    let v = c.find_head();
    assert_eq!(v.len(), 2);
    assert_eq!(v[0].0, (0, 0));
    assert_eq!(v[0].1.manzu[0], 0);
    assert_eq!(v[0].1.zupai[3], 3);
    assert_eq!(v[1].0, (3, 3));
    assert_eq!(v[1].1.manzu[0], 2);
    assert_eq!(v[1].1.zupai[3], 1);
}

#[test]
fn find_head_of_no_pair_is_empty() {
    let c = manzu_only([1, 1, 1, 1, 1, 1, 1, 1, 1]);
    assert_eq!(c.find_head().len(), 0);
}

#[test]
fn count_is_agari_by_shape() {
    let c = manzu_only([4, 1, 1, 1, 1, 1, 1, 1, 3]);
    assert!(c.is_agari());
    let mut c = Count::empty();
    c.manzu = [1, 1, 1, 0, 0, 0, 0, 0, 0];
    c.zupai = [3, 0, 0, 0, 0, 2, 0];
    c.pinzu = [0, 0, 0, 1, 1, 1, 0, 0, 0];
    c.souzu = [0, 0, 0, 0, 0, 0, 1, 1, 1];
    assert!(c.is_agari());
    c.souzu = [0, 0, 0, 0, 0, 1, 0, 1, 1];
    assert!(!c.is_agari());
}

#[test]
fn is_mentsu_on_runs_and_triplets() {
    assert!(is_mentsu(&[0; 9]));
    assert!(is_mentsu(&[1, 1, 1, 0, 0, 0, 0, 0, 0]));
    assert!(is_mentsu(&[3, 1, 1, 1, 0, 0, 0, 0, 0]));
    assert!(is_mentsu(&[2, 2, 2, 0, 0, 0, 0, 0, 0]));
    assert!(is_mentsu(&[4, 1, 1, 0, 0, 0, 0, 0, 0]));
    assert!(is_mentsu(&[1, 1, 1, 1, 1, 1, 1, 1, 1]));
    assert!(is_mentsu(&[0, 0, 0, 0, 0, 0, 4, 1, 1, 9]));
}

#[test]
fn is_mentsu_refuses_leftovers() {
    assert!(!is_mentsu(&[1, 1, 0, 0, 0, 0, 0, 0, 0]));
    assert!(!is_mentsu(&[2, 0, 0, 0, 0, 0, 0, 0, 0]));
    assert!(!is_mentsu(&[1, 2, 1, 0, 0, 0, 0, 0, 0]));
    assert!(!is_mentsu(&[0, 0, 0, 0, 0, 0, 0, 1, 1]));
    assert!(!is_mentsu(&[3, 1, 1, 0, 0, 0, 0, 0, 0]));
}

#[test]
fn is_anko_needs_whole_triplets() {
    assert!(is_anko(&[3, 0, 6]));
    assert!(!is_anko(&[3, 1]));
    assert!(is_anko(&[]));
}

#[test]
fn agari_needs_head_and_melds() {
    let mut c = Count::empty();
    c.manzu = [1, 1, 1, 0, 0, 0, 0, 0, 0];
    c.pinzu = [0, 0, 0, 1, 1, 1, 0, 0, 0];
    c.souzu = [0, 0, 0, 0, 0, 0, 1, 1, 1];
    c.zupai = [3, 0, 0, 0, 0, 2, 0];
    assert!(is_agari(&c));
    c.manzu = [2, 2, 0, 2, 2, 0, 2, 2, 2];
    c.pinzu = [0; 9];
    c.souzu = [0; 9];
    c.zupai = [0; 7];
    assert!(!is_agari(&c));
    assert!(c.is_agari());
}
