//! Flashcard quiz sessions: cards, a deck to walk through, and the
//! scheduling of questions with a retry queue for the cards that were missed.

pub mod ask;
pub mod card;
pub mod deck;
pub mod load;
pub mod random;
pub mod text;

use vstd::prelude::*;

verus! {

/// Tells whether a setting given as text is a number of at least 1, as the
/// limits of a session have to be. The text is read as a `u32` in decimal.
pub fn is_number_non_zero(string: String) -> (outcome: Result<(), String>)
    ensures
        match text::decimal_u32(string@) {
            Some(number) => if number == 0 {
                outcome matches Err(reason) && reason@ == "Need to be at lease 1"@
            } else {
                outcome is Ok
            },
            None => outcome matches Err(reason) && reason@ == "The value must be a natural number"@,
        },
{
    match text::parse_u32(string.as_str()) {
        Some(number) => {
            if number == 0 {
                Err("Need to be at lease 1".to_owned())
            } else {
                Ok(())
            }
        },
        None => Err("The value must be a natural number".to_owned()),
    }
}

} // verus!
