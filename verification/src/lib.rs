//! A lightweight notation of plain text and named, nestable elements.
//!
//! An element is a word followed at once by an opening parenthesis, square
//! bracket or curly brace, and runs to the closer of the same kind. The
//! library reads such text into a forest of nodes, reports what it had to
//! repair, and writes a forest back as text.
//!
//! [`lexer`] cuts a text into tokens, [`parser`] builds the forest from
//! them, and [`writer`] writes a forest as text; [`laws`] states what holds
//! of the three together. [`html`] turns a forest into HTML.

pub mod blob;
pub mod debug;
pub mod delimiter;
pub mod diagnostic;
pub mod form;
pub mod html;
pub mod laws;
pub mod lexer;
pub mod loc;
pub mod node;
pub mod parser;
pub mod text;
pub mod writer;
