//! Scratch cards: parsing card lines, scoring shared numbers, and the
//! cascade in which winning cards grant copies of the cards after them.

pub mod card;
pub mod ledger;
pub mod parse;
pub mod score;

pub use card::ScratchCardGame;
pub use ledger::{generate_card_store, replicate_card_instance, CardLedger, InstanceOverflow};
pub use parse::{parse_line, ParseError};
pub use score::{establish_score_based_on_winning_selection, total_winning_score_of_multiple_scratch_cards};
