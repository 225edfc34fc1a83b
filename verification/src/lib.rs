//! The core of a code editor: a text buffer with invertible edits,
//! multi-cursor selections, undo history, incremental tokenization, soft
//! line wrapping, inlays and cursor movement, for several views of one
//! document.
//!
//! The leaves come first: positions, text and the buffer; tokens and the
//! tokenizer; inlays; wrapping. A [`Document`] holds a buffer with its
//! tokens and inlays. A [`Session`] holds what one view keeps: selections,
//! history and rows. The [`Editor`] holds both and is where edits go in.
//!
//! Beside the core stand what a fold header reports, and the property
//! lists that an application bundle for a phone carries.

pub mod position;
pub mod text;
pub mod buffer;
pub mod remap;
pub mod selection;
pub mod history;
pub mod token;
pub mod tokenizer;
pub mod inlay;
pub mod wrap;
pub mod document;
pub mod layout;
pub mod moves;
pub mod session;
pub mod editor;
pub mod fold;
pub mod ios;

pub use crate::buffer::{Edit, EditError, TextBuffer};
pub use crate::document::Document;
pub use crate::editor::Editor;
pub use crate::history::History;
pub use crate::position::{Position, Range};
pub use crate::selection::{Selection, SelectionSet};
pub use crate::session::Session;
pub use crate::text::Text;
pub use crate::token::{Token, TokenKind};
pub use crate::tokenizer::Tokenizer;
