//! Verified core of a Klondike solitaire game.
//!
//! The crate models the board (stock, waste, four foundations, seven
//! tableau piles), the deal of a shuffled 52-card deck, the
//! move-legality rules, the stock/waste draw-and-recycle cycle, and
//! the per-card layout and visibility rules. Rendering and input
//! handling are left to the embedding application; the library only
//! decides and records what the board looks like.

pub mod board;
pub mod card;
pub mod laws;
pub mod layout;
pub mod moves;
pub mod shuffle;
pub mod stock_waste;
