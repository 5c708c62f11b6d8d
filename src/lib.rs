//! Core of a two-player networked card game: the server's authoritative card
//! instances with viewer-filtered state, the per-connection action processor,
//! and the client's board interaction state machine and zone layout.
//!
//! Table positions are fixed-point integers (see `view`), so layout and drag
//! arithmetic is exact. A drop from the local deck onto the local hand does
//! not move the card: it yields a draw request, and the card moves when the
//! server's answer arrives (`Board::draw_card`), so a refused draw leaves the
//! board as it was.

pub mod board;
pub mod card;
pub mod catalog;
pub mod instances;
pub mod layout;
pub mod protocol;
pub mod server;
pub mod view;
