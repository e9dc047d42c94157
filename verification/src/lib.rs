//! A streaming reader of delimiter-separated rows.
//!
//! A [`reader::RowReader`] pulls characters from a [`source::CharSource`] in
//! chunks and hands out one [`row::Row`] at a time. What a reader returns is
//! stated over the character stream alone, by the functions of [`grammar`],
//! so the rows do not depend on how the stream was cut into chunks; [`laws`]
//! holds what follows from that. [`record`] turns rows into records under the
//! labels of a first row.

pub mod grammar;
pub mod laws;
pub mod reader;
pub mod record;
pub mod row;
pub mod source;
pub mod text;
