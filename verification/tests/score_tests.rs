use lib::score::{marume, Score};

#[test]
fn marume_rounds_up() {
    assert_eq!(marume(32, 10), 40);
    assert_eq!(marume(30, 10), 30);
    assert_eq!(marume(0, 10), 0);
    assert_eq!(marume(2001, 100), 2100);
    assert_eq!(marume(1920, 100), 2000);
}

#[test]
fn marume_keeps_twenty_five_fu() {
    assert_eq!(marume(25, 10), 25);
    assert_eq!(marume(25, 100), 100);
}

#[test]
fn score_thirty_fu_one_han_non_dealer() {
    let s = Score::new(30, 1, false);
    assert_eq!(s.parent, Some(500));
    assert_eq!(s.children, 300);
    assert_eq!(s.fu, 30);
    assert_eq!(s.han, 1);
}

#[test]
fn score_thirty_fu_four_han_dealer() {
    let s = Score::new(30, 4, true);
    assert_eq!(s.parent, None);
    assert_eq!(s.children, 3900);
}

#[test]
fn score_seven_pairs_fu_not_rounded() {
    let s = Score::new(25, 2, false);
    assert_eq!(s.parent, Some(800));
    assert_eq!(s.children, 400);
}

#[test]
fn score_fu_rounded_to_tens() {
    let s = Score::new(32, 1, false);
    assert_eq!(s.parent, Some(700));
    assert_eq!(s.children, 400);
    assert_eq!(s.fu, 32);
}

#[test]
fn score_mangan_cap() {
    let s = Score::new(40, 5, false);
    assert_eq!(s.parent, Some(4000));
    assert_eq!(s.children, 2000);
    let s = Score::new(70, 4, false);
    assert_eq!(s.children, 2000);
}

#[test]
fn score_limit_steps() {
    assert_eq!(Score::new(30, 6, false).children, 3000);
    assert_eq!(Score::new(30, 7, false).parent, Some(6000));
    assert_eq!(Score::new(30, 8, false).children, 4000);
    assert_eq!(Score::new(30, 11, false).children, 6000);
    assert_eq!(Score::new(30, 13, false).parent, Some(16000));
    assert_eq!(Score::new(30, 13, true).children, 16000);
}

#[test]
fn more_han_pays_more_on_examples() {
    for oya in [false, true] {
        for fu in [20usize, 25, 30, 40, 110] {
            let mut last = 0;
            for han in 0..15 {
                let c = Score::new(fu, han, oya).children;
                assert!(last <= c);
                last = c;
            }
        }
    }
}

#[test]
fn dealer_win_payment_on_examples() {
    for fu in [20usize, 25, 30, 50] {
        for han in 1..14 {
            let other = Score::new(fu, han, false);
            let dealer = Score::new(fu, han, true);
            assert_eq!(other.parent, Some(dealer.children));
            assert_eq!(dealer.parent, None);
        }
    }
}

#[test]
fn marume_at_the_top_of_the_range() {
    assert_eq!(marume(usize::MAX, 1), usize::MAX);
    assert_eq!(marume(usize::MAX - 9, 10), usize::MAX - 5);
}
