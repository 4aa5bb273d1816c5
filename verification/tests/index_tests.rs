use lib::index::{index2name, index2pai, name2pai, name_is_jun, name_is_yaochu, pai2name};

#[test]
fn index2pai_groups_four_copies() {
    assert_eq!(index2pai(0), 0);
    assert_eq!(index2pai(3), 0);
    assert_eq!(index2pai(17), 4);
    assert_eq!(index2pai(135), 33);
}

#[test]
fn pai2name_splits_suit_and_number() {
    assert_eq!(pai2name(0), (0, 0));
    assert_eq!(pai2name(9), (1, 0));
    assert_eq!(pai2name(26), (2, 8));
    assert_eq!(pai2name(27), (3, 0));
    assert_eq!(pai2name(33), (3, 6));
}

#[test]
fn index2name_goes_through_the_kind() {
    assert_eq!(index2name(16), (0, 4));
    assert_eq!(index2name(52), (1, 4));
    assert_eq!(index2name(88), (2, 4));
    assert_eq!(index2name(135), (3, 6));
}

#[test]
fn name2pai_is_the_kind_position() {
    assert_eq!(name2pai((0, 0)), 0);
    assert_eq!(name2pai((2, 3)), 21);
    assert_eq!(name2pai((3, 6)), 33);
}

#[test]
fn pai_name_round_trip_on_every_kind() {
    for pai in 0u8..34 {
        assert_eq!(name2pai(pai2name(pai)), pai);
    }
}

#[test]
fn name_pai_round_trip_on_every_name() {
    for suit in 0u8..4 {
        let top = if suit == 3 { 7 } else { 9 };
        for num in 0..top {
            assert_eq!(pai2name(name2pai((suit, num))), (suit, num));
        }
    }
}

#[test]
fn names_of_terminals_and_honours() {
    assert!(name_is_yaochu((0, 0)));
    assert!(name_is_yaochu((2, 8)));
    assert!(name_is_yaochu((3, 4)));
    assert!(!name_is_yaochu((1, 4)));
    assert!(name_is_jun((1, 8)));
    assert!(!name_is_jun((3, 0)));
    assert!(!name_is_jun((0, 5)));
}
