//! A terminal viewer's core for JSON documents and ASCII text: lines that
//! know how wide each character is on screen, a pretty-printer that turns a
//! JSON tree into lines of typed tokens, an index from JSON paths to screen
//! positions, a scrollable view with a sticky cursor column, and the
//! status-line editor with its command parser.

pub mod text;
pub mod line;
pub mod ascii_line;
pub mod json;
pub mod tokenize;
pub mod index;
pub mod view;
pub mod command;
pub mod status_line;
