use lib::hand::Hand;

#[test]
fn from_string_gives_fresh_indices() {
    let h = Hand::from_string("m11112345678999");
    assert_eq!(h.stand, vec![0, 1, 2, 3, 4, 8, 12, 16, 20, 24, 28, 32, 33, 34]);
    assert_eq!(h.naki.kan.len(), 0);
}

#[test]
fn from_string_reads_each_suit() {
    let h = Hand::from_string("m1p1s1z17");
    assert_eq!(h.stand, vec![0, 36, 72, 108, 132]);
}

#[test]
fn from_string_skips_other_characters() {
    let h = Hand::from_string("x m 5 z");
    assert_eq!(h.stand, vec![16]);
    let h = Hand::from_string("");
    assert_eq!(h.stand.len(), 0);
}

#[test]
fn new_sorts_the_dealt_tiles() {
    let h = Hand::new(&[40, 3, 20, 1, 0, 100, 50, 8, 4, 12, 16, 24, 28]);
    assert_eq!(h.stand, vec![0, 1, 3, 4, 8, 12, 16, 20, 24, 28, 40, 50, 100]);
    assert_eq!(h.naki.kan.len(), 0);
}

#[test]
fn tsumo_inserts_in_order() {
    let mut h = Hand::new(&[40, 3, 20, 1, 0, 100, 50, 8, 4, 12, 16, 24, 28]);
    h.tsumo(9);
    assert_eq!(h.stand, vec![0, 1, 3, 4, 8, 9, 12, 16, 20, 24, 28, 40, 50, 100]);
}

#[test]
fn dahai_removes_at_position() {
    let mut h = Hand::from_string("m123");
    assert_eq!(h.dahai(1), 4);
    assert_eq!(h.stand, vec![0, 8]);
}

#[test]
fn tsumo_then_dahai_gives_the_hand_back() {
    let mut h = Hand::new(&[40, 3, 20, 1, 0, 100, 50, 8, 4, 12, 16, 24, 28]);
    let before = h.stand.clone();
    h.tsumo(77);
    let pos = h.stand.iter().position(|&x| x == 77).unwrap();
    assert_eq!(h.dahai(pos), 77);
    assert_eq!(h.stand, before);
}

#[test]
fn kan_of_four_tiles() {
    let mut h = Hand::from_string("m11112345678999");
    assert!(h.kan(0));
    assert_eq!(h.stand, vec![4, 8, 12, 16, 20, 24, 28, 32, 33, 34]);
    assert_eq!(h.naki.kan, vec![(0, 0)]);
}

#[test]
fn kan_refused_without_four() {
    let mut h = Hand::from_string("m11112345678999");
    assert!(!h.kan(4));
    assert!(!h.kan(12));
    assert_eq!(h.stand.len(), 14);
    assert_eq!(h.naki.kan.len(), 0);
}

#[test]
fn hand_is_agari() {
    assert!(Hand::from_string("m11112345678999").is_agari());
    assert!(Hand::from_string("m11p22s33z11223344").is_agari());
    assert!(Hand::from_string("m19p19s19z12345677").is_agari());
    assert!(!Hand::from_string("m1357p2468s1357z11").is_agari());
}

#[test]
fn hand_is_tenpai() {
    assert!(Hand::from_string("m1112345678999").is_tenpai());
    assert!(Hand::from_string("m123456p789s2345").is_tenpai());
    assert!(!Hand::from_string("m1357p2468s1357z1").is_tenpai());
}

#[test]
fn hand_count_full_and_draws() {
    let h = Hand::from_string("m1112345678999");
    let hc = h.to_count();
    assert!(!hc.is_full((0, 0)));
    assert_eq!(hc.virtual_tsumo().len(), 33);
    let h = Hand::from_string("m11112345678999");
    let hc = h.to_count();
    assert!(hc.is_full((0, 0)));
    assert!(!hc.is_full((0, 8)));
    assert_eq!(hc.virtual_tsumo().len(), 32);
}

#[test]
fn hand_count_quads_are_full() {
    let mut h = Hand::from_string("m11112345678999");
    assert!(h.kan(0));
    let hc = h.to_count();
    assert!(hc.is_full((0, 0)));
}

#[test]
fn hand_count_add_name() {
    let h = Hand::from_string("m1112345678999");
    let mut hc = h.to_count();
    assert!(!hc.is_agari());
    hc.add_name((0, 4));
    assert!(hc.is_agari());
}

#[test]
fn hand_count_tanyao() {
    assert!(Hand::from_string("m234567p234567s22").to_count().tanyao());
    assert!(!Hand::from_string("m123567p234567s22").to_count().tanyao());
    assert!(!Hand::from_string("m234567p234567z22").to_count().tanyao());
}

#[test]
fn yakuman_thirteen_orphans() {
    let hc = Hand::from_string("m19p19s19z12345677").to_count();
    assert_eq!(hc.yakuman(false, (3, 6)), 2);
    assert_eq!(hc.yakuman(false, (0, 0)), 1);
    assert_eq!(hc.yakuman(true, (3, 6)), 3);
}

#[test]
fn yakuman_nine_gates() {
    let hc = Hand::from_string("m11112345678999").to_count();
    assert_eq!(hc.yakuman(false, (0, 0)), 2);
    assert_eq!(hc.yakuman(false, (0, 4)), 1);
}

#[test]
fn yakuman_big_dragons_and_honours() {
    let hc = Hand::from_string("m11z555666777").to_count();
    assert_eq!(hc.yakuman(false, (0, 0)), 1);
    let hc = Hand::from_string("z11122233344455").to_count();
    assert_eq!(hc.yakuman(false, (3, 0)), 3);
}

#[test]
fn yakuman_all_green() {
    let hc = Hand::from_string("s22334466888z666").to_count();
    assert_eq!(hc.yakuman(false, (2, 1)), 1);
}

#[test]
fn yakuman_none_on_a_plain_hand() {
    let hc = Hand::from_string("m123456p789s23455").to_count();
    assert_eq!(hc.yakuman(false, (0, 0)), 0);
    assert_eq!(hc.yakuman(true, (0, 0)), 1);
}

#[test]
fn score_of_nine_gates() {
    let hand = Hand::from_string("m11112345678999");
    let score = hand
        .score(false, true, false, false, false, false, &[(2, 3), (1, 8)], (0, 0), 0, 1)
        .unwrap();
    assert_eq!(score.fu, 0);
    assert_eq!(score.han, 2);
    assert_eq!(score.children, 16000);
    assert_eq!(score.parent, Some(32000));
}

#[test]
fn score_of_yakuman_for_the_dealer() {
    let hand = Hand::from_string("m19p19s19z12345677");
    let score = hand.score(false, false, false, false, false, false, &[], (0, 0), 0, 0).unwrap();
    assert_eq!(score.han, 1);
    assert_eq!(score.children, 16000);
    assert_eq!(score.parent, None);
}

#[test]
fn score_of_no_winning_shape_is_none() {
    let hand = Hand::from_string("m1357p2468s1357z11");
    assert!(hand.score(false, false, false, false, false, false, &[], (0, 0), 0, 1).is_none());
}

#[test]
fn score_of_seven_pairs() {
    let hand = Hand::from_string("m11p22s33z11223344");
    let score = hand.score(false, false, false, false, false, false, &[], (0, 0), 0, 1).unwrap();
    assert_eq!(score.fu, 25);
    assert_eq!(score.han, 3);
    assert_eq!(score.children, 800);
    assert_eq!(score.parent, Some(1600));
}

#[test]
fn score_of_pinfu_with_red_fives() {
    let hand = Hand::from_string("m123456p789s23455");
    let score = hand.score(false, false, false, false, false, false, &[], (0, 0), 0, 1).unwrap();
    assert_eq!(score.fu, 20);
    assert_eq!(score.han, 4);
    assert_eq!(score.children, 1300);
    assert_eq!(score.parent, Some(2600));
}

#[test]
fn score_counts_dora_and_riichi() {
    let hand = Hand::from_string("m123456p789s23455");
    let score = hand
        .score(false, true, false, true, false, false, &[(2, 4), (0, 0)], (0, 0), 0, 1)
        .unwrap();
    assert_eq!(score.han, 9);
    assert_eq!(score.children, 4000);
    assert_eq!(score.parent, Some(8000));
}

#[test]
fn score_exactly_when_agari() {
    for text in ["m11112345678999", "m123456p789s23455", "m1357p2468s1357z11", "m11p22s33z11223344", "m12345678p11s1234"] {
        let hand = Hand::from_string(text);
        let scored = hand.score(false, false, false, false, false, false, &[], (0, 0), 0, 1).is_some();
        assert_eq!(scored, hand.is_agari());
    }
}

#[test]
fn tenhou_scores_as_yakuman() {
    let hand = Hand::from_string("m123456p789s23455");
    let score = hand.score(true, false, false, false, false, false, &[], (0, 0), 0, 1).unwrap();
    assert_eq!(score.fu, 0);
    assert_eq!(score.han, 1);
    assert_eq!(score.children, 8000);
    assert_eq!(score.parent, Some(16000));
}
