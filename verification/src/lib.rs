//! A parser for Debian's machine-readable `copyright` files.
//!
//! The crate is layered, each module resting on those named before it:
//!
//! - [`text`] scans runs of bytes and cuts string slices where they end;
//! - [`control_file`] reads what all Debian control files share: lines, field
//!   names, and field values of one line or folded over several;
//! - [`folded`] cleans a folded value of the indentation that folding gave it;
//! - [`stanza`] assembles a stanza from a table of the fields that its type
//!   knows, whatever their order, and [`field_order`] proves that the order
//!   does not matter;
//! - [`copyright_file`] gives the fields, the stanzas and the document of a
//!   `copyright` file their types.
//!
//! Every parser is a function of its input alone: it returns what it matched
//! and what is left, or an [`error::ParseError`] that names the rule that
//! failed and the byte at which it failed. The contracts state the result
//! over the UTF-8 bytes of the input.

pub mod control_file;
pub mod copyright_file;
pub mod error;
pub mod field_order;
pub mod folded;
pub mod stanza;
pub mod text;
