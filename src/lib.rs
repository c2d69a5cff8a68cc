//! A registry of uniquely identified kitties with single-owner semantics.
//!
//! Kitties are minted with an identifier drawn from a randomness beacon and
//! recorded against exactly one owner; ownership can later be transferred.
//! The entity store and the ownership index are updated together by the two
//! transitions of [`Pallet`], and every well-formed pallet keeps them in
//! agreement.

mod bounded;
mod codec;
mod pallet;
mod types;

pub use bounded::{bounded_items, MAX_KITTY};
pub use codec::{encode_u64, encoded_u64, le_bytes};
pub use pallet::{holdings_in, next_nonce, remove_id, Config, Pallet, PalletModel};
pub use types::{gender_of, ids_view, Error, Event, EventModel, Gender, Kitty, KittyModel};
