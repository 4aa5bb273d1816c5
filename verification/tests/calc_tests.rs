use lib::calc::Calc;
use lib::index::Name;
use lib::mentsu::Mentsu;
use lib::naki::Naki;

fn m(mode: u8, a: usize, b: usize, c: usize) -> Mentsu {
    Mentsu::new(mode, [a, b, c])
}

fn naki_of(kan: &[Name]) -> Naki {
    let mut n = Naki::new();
    for k in kan.iter() {
        n.kan.push(*k);
    }
    n
}

fn calc(stand: &[Mentsu], last: Option<Mentsu>, kan: &[Name], head: Name, tsumo: Name, han_base: usize, ba: usize, cha: usize) -> Calc {
    match Calc::new(stand, last, naki_of(kan), head, tsumo, han_base, ba, cha) {
        Ok(c) => c,
        Err(_) => panic!("four melds were given"),
    }
}

#[test]
fn calc_new_needs_four_melds() {
    let stand = [m(0, 0, 1, 2), m(1, 3, 4, 5), m(2, 6, 7, 8)];
    assert!(Calc::new(&stand, None, Naki::new(), (0, 0), (0, 0), 0, 0, 1).is_err());
    assert!(Calc::new(&stand, None, naki_of(&[(3, 4)]), (0, 0), (0, 0), 0, 0, 1).is_ok());
    let five = [m(0, 0, 1, 2), m(1, 3, 4, 5), m(2, 6, 7, 8), m(0, 0, 1, 2)];
    assert!(Calc::new(&five, None, naki_of(&[(3, 4)]), (0, 0), (0, 0), 0, 0, 1).is_err());
}

#[test]
fn fu_of_a_two_sided_wait_is_twenty() {
    let stand = [m(0, 0, 1, 2), m(0, 3, 4, 5), m(1, 6, 7, 8), m(2, 1, 2, 3)];
    let c = calc(&stand, Some(m(0, 3, 4, 5)), &[], (2, 4), (0, 3), 0, 0, 1);
    assert_eq!(c.fu(), 20);
}

#[test]
fn fu_of_closed_and_edge_waits() {
    let stand = [m(0, 0, 1, 2), m(0, 3, 4, 5), m(1, 6, 7, 8), m(2, 1, 2, 3)];
    assert_eq!(calc(&stand, Some(m(0, 0, 1, 2)), &[], (2, 4), (0, 1), 0, 0, 1).fu(), 22);
    assert_eq!(calc(&stand, Some(m(0, 0, 1, 2)), &[], (2, 4), (0, 2), 0, 0, 1).fu(), 22);
    assert_eq!(calc(&stand, Some(m(1, 6, 7, 8)), &[], (2, 4), (1, 6), 0, 0, 1).fu(), 22);
    assert_eq!(calc(&stand, None, &[], (2, 4), (2, 4), 0, 0, 1).fu(), 22);
}

#[test]
fn fu_of_head_triplets_and_edge() {
    let stand = [m(0, 0, 0, 0), m(1, 4, 4, 4), m(2, 6, 7, 8), m(3, 0, 0, 0)];
    let c = calc(&stand, Some(m(2, 6, 7, 8)), &[], (3, 4), (2, 6), 1, 0, 1);
    assert_eq!(c.fu(), 44);
    assert_eq!(c.han(), 4);
    let s = c.score();
    assert_eq!(s.fu, 46);
    assert_eq!(s.han, 4);
    assert_eq!(s.children, 2000);
    assert_eq!(s.parent, Some(4000));
}

#[test]
fn fu_of_wind_heads() {
    let stand = [m(0, 0, 1, 2), m(0, 3, 4, 5), m(1, 6, 7, 8), m(2, 1, 2, 3)];
    let last = Some(m(0, 3, 4, 5));
    assert_eq!(calc(&stand, last, &[], (3, 1), (0, 3), 0, 0, 1).fu(), 22);
    assert_eq!(calc(&stand, last, &[], (3, 0), (0, 3), 0, 0, 1).fu(), 22);
    assert_eq!(calc(&stand, last, &[], (3, 2), (0, 3), 0, 0, 1).fu(), 20);
}

#[test]
fn pinfu_self_draw_score() {
    let stand = [m(0, 1, 2, 3), m(1, 3, 4, 5), m(2, 6, 7, 8), m(0, 5, 6, 7)];
    let c = calc(&stand, Some(m(0, 1, 2, 3)), &[], (1, 0), (0, 1), 1, 0, 1);
    assert_eq!(c.fu(), 20);
    assert_eq!(c.han(), 1);
    let s = c.score();
    assert_eq!(s.fu, 20);
    assert_eq!(s.han, 2);
    assert_eq!(s.parent, Some(700));
    assert_eq!(s.children, 400);
    let d = calc(&stand, Some(m(0, 1, 2, 3)), &[], (1, 0), (0, 1), 1, 0, 0).score();
    assert_eq!(d.parent, None);
    assert_eq!(d.children, 700);
}

#[test]
fn han_one_pair_of_runs() {
    let stand = [m(0, 0, 1, 2), m(0, 0, 1, 2), m(1, 3, 4, 5), m(2, 6, 7, 8)];
    assert_eq!(calc(&stand, None, &[], (1, 0), (1, 0), 0, 0, 1).han(), 1);
    let three = [m(0, 0, 1, 2), m(0, 0, 1, 2), m(0, 0, 1, 2), m(1, 3, 4, 5)];
    assert_eq!(calc(&three, None, &[], (1, 0), (1, 0), 0, 0, 1).han(), 1);
}

#[test]
fn han_two_pairs_of_runs() {
    let stand = [m(0, 0, 1, 2), m(0, 0, 1, 2), m(1, 3, 4, 5), m(1, 3, 4, 5)];
    assert_eq!(calc(&stand, None, &[], (2, 0), (2, 0), 0, 0, 1).han(), 3);
}

#[test]
fn han_same_run_in_three_suits() {
    let stand = [m(0, 1, 2, 3), m(1, 1, 2, 3), m(2, 1, 2, 3), m(3, 0, 0, 0)];
    assert_eq!(calc(&stand, None, &[], (0, 8), (0, 8), 0, 0, 1).han(), 3);
}

#[test]
fn han_all_triplets_same_number() {
    let stand = [m(0, 1, 1, 1), m(1, 1, 1, 1), m(2, 1, 1, 1), m(3, 4, 4, 4)];
    let c = calc(&stand, None, &[], (3, 0), (3, 0), 0, 0, 1);
    assert_eq!(c.han(), 5);
    assert_eq!(c.fu(), 44);
}

#[test]
fn han_terminals_everywhere() {
    let stand = [m(0, 0, 1, 2), m(1, 6, 7, 8), m(2, 0, 0, 0), m(3, 1, 1, 1)];
    assert_eq!(calc(&stand, None, &[], (0, 8), (0, 8), 0, 0, 1).han(), 4);
}

#[test]
fn han_little_three_dragons() {
    let stand = [m(3, 4, 4, 4), m(3, 5, 5, 5), m(0, 0, 1, 2), m(1, 3, 4, 5)];
    assert_eq!(calc(&stand, None, &[], (3, 6), (3, 6), 0, 0, 1).han(), 4);
}

#[test]
fn han_one_suit() {
    let half = [m(0, 0, 1, 2), m(0, 3, 4, 5), m(0, 6, 7, 8), m(3, 0, 0, 0)];
    assert_eq!(calc(&half, None, &[], (0, 4), (0, 4), 0, 0, 1).han(), 4);
    let full = [m(0, 0, 1, 2), m(0, 3, 4, 5), m(0, 6, 7, 8), m(0, 0, 0, 0)];
    assert_eq!(calc(&full, None, &[], (0, 4), (0, 4), 0, 0, 1).han(), 6);
}

#[test]
fn han_and_fu_with_three_quads() {
    let stand = [m(0, 0, 1, 2)];
    let c = calc(&stand, None, &[(0, 0), (1, 4), (3, 4)], (2, 1), (2, 1), 0, 0, 1);
    assert_eq!(c.han(), 5);
    assert_eq!(c.fu(), 102);
}

#[test]
fn han_counts_the_base() {
    let stand = [m(0, 1, 2, 3), m(1, 3, 4, 5), m(2, 6, 7, 8), m(0, 5, 6, 7)];
    assert_eq!(calc(&stand, None, &[], (1, 0), (1, 0), 7, 0, 1).han(), 7);
}

#[test]
fn han_with_an_honour_run_after_the_three_suits() {
    let stand = [m(0, 0, 1, 2), m(1, 0, 1, 2), m(2, 0, 1, 2), m(3, 4, 5, 6)];
    let c = calc(&stand, None, &[], (0, 4), (0, 4), 0, 0, 1);
    assert_eq!(c.han(), 6);
    assert_eq!(c.fu(), 22);
    let s = c.score();
    assert_eq!(s.fu, 24);
    assert_eq!(s.han, 6);
    assert_eq!(s.children, 3000);
    assert_eq!(s.parent, Some(6000));
}

#[test]
fn han_does_not_depend_on_meld_order() {
    let a = [m(0, 0, 1, 2), m(0, 0, 1, 2), m(1, 3, 4, 5), m(1, 3, 4, 5)];
    let b = [m(1, 3, 4, 5), m(0, 0, 1, 2), m(1, 3, 4, 5), m(0, 0, 1, 2)];
    assert_eq!(calc(&a, None, &[], (2, 0), (2, 0), 0, 0, 1).han(), 3);
    assert_eq!(calc(&b, None, &[], (2, 0), (2, 0), 0, 0, 1).han(), 3);
    let c = [m(0, 1, 2, 3), m(1, 1, 2, 3), m(2, 1, 2, 3), m(3, 0, 0, 0)];
    let d = [m(3, 0, 0, 0), m(2, 1, 2, 3), m(0, 1, 2, 3), m(1, 1, 2, 3)];
    assert_eq!(calc(&c, None, &[], (0, 8), (0, 8), 0, 0, 1).han(), calc(&d, None, &[], (0, 8), (0, 8), 0, 0, 1).han());
}
