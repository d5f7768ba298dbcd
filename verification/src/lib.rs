//! An in-memory catalogue of books, bounded in size, with lookup by ISBN and
//! by title, a borrowed / returned flag per book, and two stable orderings.
//!
//! Every operation is stated over a mathematical model: a book is a
//! [`book::BookView`], a catalogue is the sequence of its books' views.

pub mod book;
pub mod laws;
pub mod library;
pub mod order;
pub mod text;

pub use crate::book::Book;
pub use crate::library::{Library, MAX_BOOKS};
