pub mod agari;
pub mod calc;
pub mod count;
pub mod index;
pub mod mentsu;
pub mod naki;
pub mod score;
pub mod hand;
pub mod han_order;
