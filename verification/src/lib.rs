//! An exact expected-value solver for blackjack decisions. Every player
//! action - stand, hit, double, split - is valued as an exact arbitrary-
//! precision rational by exhausting the dealer's outcomes, and every public
//! operation carries a contract that pins the returned rational to a
//! mathematical specification of the game.

pub mod rational;
pub mod bigrat;
pub mod card;
pub mod hand;
pub mod deck;
pub mod rule;
pub mod cancel;
pub mod dealer;
pub mod round;
pub mod pre_round;
