use vstd::prelude::*;

verus! {

/// A tile kind written as (suit, number): suit 0..=2 for the numbered suits
/// (manzu, pinzu, souzu) with number 0..=8, suit 3 for honours with number 0..=6.
pub type Name = (u8, usize);

/// A name that denotes a real tile kind.
pub open spec fn valid_name(name: Name) -> bool {
    ||| name.0 < 3 && name.1 < 9
    ||| name.0 == 3 && name.1 < 7
}

/// Position of a name among the 34 tile kinds.
pub open spec fn name_pai(name: Name) -> int {
    name.0 * 9 + name.1
}

/// Name of the tile kind at position `p` (0..34).
pub open spec fn pai_name(p: int) -> Name {
    ((p / 9) as u8, (p % 9) as usize)
}

/// Terminals (numbers 1 and 9) and honours, by position among the 34 kinds.
pub open spec fn yaochu_pai(p: int) -> bool {
    p >= 27 || p % 9 == 0 || p % 9 == 8
}

/// Terminal or honour name.
pub open spec fn yaochu_name(name: Name) -> bool {
    name.0 == 3 || name.1 == 0 || name.1 == 8
}

/// Whether a named kind (as a quad) is a terminal or an honour.
pub fn name_is_yaochu(name: Name) -> (r: bool)
    ensures
        r == yaochu_name(name),
{
    name.0 == 3 || name.1 == 0 || name.1 == 8
}

/// Whether a named kind is a terminal of a numbered suit.
pub fn name_is_jun(name: Name) -> (r: bool)
    ensures
        r == (yaochu_name(name) && name.0 != 3),
{
    name_is_yaochu(name) && name.0 != 3
}

/// Tile index 0..=135 to tile kind 0..=33: four copies of each kind.
pub fn index2pai(index: u8) -> (r: u8)
    ensures
        r == index / 4,
{
    index / 4
}

/// Tile kind to its (suit, number) name.
pub fn pai2name(pai: u8) -> (r: Name)
    ensures
        r == pai_name(pai as int),
{
    (pai / 9, (pai % 9) as usize)
}

/// Tile index straight to its name.
pub fn index2name(index: u8) -> (r: Name)
    ensures
        r == pai_name(index as int / 4),
{
    pai2name(index2pai(index))
}

/// Name back to the tile kind; the number is taken modulo 256 as a byte.
pub fn name2pai(name: Name) -> (r: u8)
    requires
        name.0 * 9 + (name.1 as u8) <= u8::MAX,
    ensures
        r == name.0 * 9 + (name.1 as u8),
{
    name.0 * 9 + name.1 as u8
}

/// A tile kind's name gives the kind back.
pub proof fn law_pai_name_round_trip(pai: u8)
    ensures
        name_pai(pai_name(pai as int)) == pai,
        pai_name(pai as int).0 * 9 + (pai_name(pai as int).1 as u8) == pai,
{
}

/// A real kind's position gives its name back.
pub proof fn law_name_pai_round_trip(name: Name)
    requires
        valid_name(name),
    ensures
        0 <= name_pai(name) < 34,
        pai_name(name_pai(name)) == name,
        name.0 * 9 + (name.1 as u8) == name_pai(name),
{
}

} // verus!
