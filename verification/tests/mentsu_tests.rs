use lib::count::Count;
use lib::mentsu::{decompose, Mentsu};
use lib::naki::Naki;

#[test]
fn mentsu_new_keeps_fields() {
    let m = Mentsu::new(2, [3, 4, 5]);
    assert_eq!(m.mode, 2);
    assert_eq!(m.num, [3, 4, 5]);
}

#[test]
fn mentsu_triplets() {
    assert!(Mentsu::new(1, [4, 4, 4]).is_anko());
    assert!(!Mentsu::new(0, [1, 2, 3]).is_anko());
}

#[test]
fn mentsu_terminals_and_honours() {
    assert!(Mentsu::new(3, [4, 4, 4]).is_yaochu());
    assert!(Mentsu::new(0, [0, 1, 2]).is_yaochu());
    assert!(Mentsu::new(1, [6, 7, 8]).is_yaochu());
    assert!(!Mentsu::new(2, [3, 4, 5]).is_yaochu());
    assert!(Mentsu::new(0, [0, 1, 2]).is_jun());
    assert!(!Mentsu::new(3, [0, 0, 0]).is_jun());
    assert!(!Mentsu::new(1, [2, 3, 4]).is_jun());
}

#[test]
fn mentsu_equality_by_fields() {
    assert!(Mentsu::new(0, [1, 2, 3]) == Mentsu::new(0, [1, 2, 3]));
    assert!(Mentsu::new(0, [1, 2, 3]) != Mentsu::new(1, [1, 2, 3]));
    assert!(Mentsu::new(0, [1, 2, 3]) != Mentsu::new(0, [1, 2, 4]));
}

#[test]
fn decompose_lists_runs_first_then_triplets() {
    let mut c = Count::empty();
    c.manzu = [3, 3, 3, 0, 0, 0, 0, 0, 0];
    c.zupai = [2, 0, 0, 0, 0, 0, 0];
    let v = decompose(&c);
    assert_eq!(v.len(), 2);
    assert_eq!(v[0].len(), 3);
    for m in v[0].iter() {
        assert!(*m == Mentsu::new(0, [0, 1, 2]));
    }
    assert_eq!(v[1].len(), 3);
    assert!(v[1][0] == Mentsu::new(0, [2, 2, 2]));
    assert!(v[1][1] == Mentsu::new(0, [1, 1, 1]));
    assert!(v[1][2] == Mentsu::new(0, [0, 0, 0]));
}

#[test]
fn decompose_joins_the_suits() {
    let mut c = Count::empty();
    c.manzu = [1, 1, 1, 1, 1, 1, 0, 0, 0];
    c.pinzu = [0, 0, 0, 0, 0, 0, 1, 1, 1];
    c.souzu = [0, 3, 0, 0, 0, 0, 0, 0, 0];
    let v = decompose(&c);
    assert_eq!(v.len(), 1);
    assert_eq!(v[0].len(), 4);
    assert!(v[0][0] == Mentsu::new(0, [3, 4, 5]));
    assert!(v[0][1] == Mentsu::new(0, [0, 1, 2]));
    assert!(v[0][2] == Mentsu::new(1, [6, 7, 8]));
    assert!(v[0][3] == Mentsu::new(2, [1, 1, 1]));
}

#[test]
fn decompose_of_leftovers_is_empty() {
    let mut c = Count::empty();
    c.manzu = [3, 1, 1, 0, 0, 0, 0, 0, 0];
    assert_eq!(decompose(&c).len(), 0);
}

#[test]
fn decompose_of_nothing_is_one_empty_split() {
    let v = decompose(&Count::empty());
    assert_eq!(v.len(), 1);
    assert_eq!(v[0].len(), 0);
}

#[test]
fn decompose_multiplies_the_choices() {
    let mut c = Count::empty();
    c.manzu = [3, 3, 3, 0, 0, 0, 0, 0, 0];
    c.souzu = [0, 0, 0, 0, 0, 0, 3, 3, 3];
    let v = decompose(&c);
    assert_eq!(v.len(), 4);
    assert!(v[0][0] == Mentsu::new(0, [0, 1, 2]));
    assert!(v[0][3] == Mentsu::new(2, [6, 7, 8]));
    assert!(v[1][0] == Mentsu::new(0, [0, 1, 2]));
    assert!(v[1][3] == Mentsu::new(2, [8, 8, 8]));
    assert!(v[2][0] == Mentsu::new(0, [2, 2, 2]));
    assert!(v[2][3] == Mentsu::new(2, [6, 7, 8]));
}

#[test]
fn naki_new_has_no_quads() {
    assert_eq!(Naki::new().kan.len(), 0);
}

#[test]
fn decompose_splits_use_every_tile() {
    let mut c = Count::empty();
    c.manzu = [1, 1, 4, 1, 1, 1, 0, 0, 0];
    c.pinzu = [0, 0, 0, 2, 2, 2, 0, 0, 0];
    c.souzu = [0, 0, 0, 0, 0, 0, 0, 0, 3];
    c.zupai = [0, 0, 0, 0, 3, 0, 0];
    let v = decompose(&c);
    assert!(v.len() > 0);
    for d in v.iter() {
        let mut used = [[0u8; 9]; 4];
        for m in d.iter() {
            for k in 0..3 {
                used[m.mode as usize][m.num[k]] += 1;
            }
        }
        assert_eq!(used[0], c.manzu);
        assert_eq!(used[1], c.pinzu);
        assert_eq!(used[2], c.souzu);
        assert_eq!(used[3], [0; 9]);
    }
}

#[test]
fn decompose_agrees_with_the_meld_test() {
    let suits: [[u8; 9]; 6] = [
        [0; 9],
        [3, 1, 1, 1, 0, 0, 0, 0, 0],
        [1, 1, 0, 0, 0, 0, 0, 0, 0],
        [2, 2, 2, 0, 0, 0, 0, 0, 0],
        [1, 2, 1, 0, 0, 0, 0, 0, 0],
        [0, 0, 0, 0, 0, 0, 4, 1, 1],
    ];
    for a in suits.iter() {
        for b in suits.iter() {
            let mut c = Count::empty();
            c.manzu = *a;
            c.pinzu = *b;
            c.souzu = [0, 1, 1, 1, 0, 0, 0, 0, 0];
            let melds = lib::agari::is_mentsu(&c.manzu)
                && lib::agari::is_mentsu(&c.pinzu)
                && lib::agari::is_mentsu(&c.souzu);
            assert_eq!(decompose(&c).len() > 0, melds);
        }
    }
}
