//! Codec between a sequence of board pages and its compact `v115@` text form.
//!
//! A [`Fumen`] is a document of [`Page`]s. [`Fumen::encode`] writes it as text
//! and [`Fumen::decode`] reads a text back; [`Fumen::try_encode`] and
//! [`Fumen::try_decode`] do so for every input. The text is a header and a stream
//! of symbols from a 64-symbol alphabet; each page is written as the change of
//! its field against what the page before it carries over, a number for its
//! piece and flags, and its comment.
//!
//! The module `format` states the text format over mathematical values, and
//! the functions of `encode` and `decode` are proved to compute what it
//! states. The modules `round_trip`, `comment_round_trip` and `laws` prove
//! what follows from it: that decoding undoes encoding, how pages are carried
//! over, and how runs of unchanged pages are written.

pub mod alphabet;
pub mod comment;
pub mod comment_round_trip;
pub mod decode;
pub mod encode;
pub mod format;
pub mod fumen;
pub mod laws;
pub mod page;
pub mod piece;
pub mod round_trip;

pub use alphabet::{from_base64, to_base64};
pub use comment::{js_escape, js_unescape};
pub use format::DecodeError;
pub use fumen::Fumen;
pub use page::{fumen_field_delta, Page};
pub use piece::{decode_cell_color, CellColor, Piece, PieceType, RotationState};
