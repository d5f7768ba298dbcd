//! A book: three texts, a year, a price and a flag that says whether it can
//! be borrowed.

use vstd::prelude::*;

verus! {

/// The earliest year that `update_year` accepts.
pub const YEAR_MIN: i32 = 1800;

/// The latest year that `update_year` accepts.
pub const YEAR_MAX: i32 = 2024;

/// What a book is: its texts as sequences of characters, its year, its price
/// and its flag.
///
/// The price is a single-precision number held as its IEEE 754 bit pattern
/// (sign, eight bits of exponent, twenty-three of fraction): the library
/// stores and hands back exactly the bits it was given.
pub struct BookView {
    pub title: Seq<char>,
    pub author: Seq<char>,
    pub isbn: Seq<char>,
    pub year: int,
    pub price_bits: u32,
    pub available: bool,
}

/// The book that `Book::new` makes of its arguments: they are stored as
/// given, and the book can be borrowed.
pub open spec fn created(
    title: Seq<char>,
    author: Seq<char>,
    isbn: Seq<char>,
    year: int,
    price_bits: u32,
) -> BookView {
    BookView { title, author, isbn, year, price_bits, available: true }
}

/// A year that `update_year` accepts: both ends are included.
pub open spec fn year_in_range(year: int) -> bool {
    YEAR_MIN <= year <= YEAR_MAX
}

/// The bit pattern stands for a number below zero: the sign bit is set, the
/// rest is not all zero (that would be negative zero, which is not below
/// zero), and the pattern is not a NaN (an exponent of all ones with a
/// fraction other than zero, which compares with nothing).
pub open spec fn price_below_zero(price_bits: u32) -> bool {
    0x8000_0000u32 < price_bits <= 0xFF80_0000u32
}

/// A book of the catalogue.
#[derive(Debug, Clone)]
pub struct Book {
    title: String,
    author: String,
    isbn: String,
    year: i32,
    price_bits: u32,
    available: bool,
}

impl View for Book {
    type V = BookView;

    closed spec fn view(&self) -> BookView {
        BookView {
            title: self.title@,
            author: self.author@,
            isbn: self.isbn@,
            year: self.year as int,
            price_bits: self.price_bits,
            available: self.available,
        }
    }
}

impl Book {
    /// A new book that can be borrowed. Neither the year nor the price is
    /// held to the limits that `update_year` and `update_price` keep.
    pub fn new(title: &str, author: &str, isbn: &str, year: i32, price_bits: u32) -> (book: Book)
        ensures
            book@ == created(title@, author@, isbn@, year as int, price_bits),
    {
        Book {
            title: title.to_owned(),
            author: author.to_owned(),
            isbn: isbn.to_owned(),
            year,
            price_bits,
            available: true,
        }
    }

    /// Sets the price unless it is below zero; says whether it was set.
    pub fn update_price(&mut self, new_price_bits: u32) -> (updated: bool)
        ensures
            updated == !price_below_zero(new_price_bits),
            updated ==> final(self)@ == (BookView { price_bits: new_price_bits, ..old(self)@ }),
            !updated ==> final(self)@ == old(self)@,
    {
        if 0x8000_0000u32 < new_price_bits && new_price_bits <= 0xFF80_0000u32 {
            return false;
        }
        self.price_bits = new_price_bits;
        true
    }

    /// Sets the year if it lies between `YEAR_MIN` and `YEAR_MAX`; says
    /// whether it was set.
    pub fn update_year(&mut self, new_year: i32) -> (updated: bool)
        ensures
            updated == year_in_range(new_year as int),
            updated ==> final(self)@ == (BookView { year: new_year as int, ..old(self)@ }),
            !updated ==> final(self)@ == old(self)@,
    {
        if new_year < YEAR_MIN || new_year > YEAR_MAX {
            return false;
        }
        self.year = new_year;
        true
    }

    /// Whether the book can be borrowed.
    pub fn is_available(&self) -> (available: bool)
        ensures
            available == self@.available,
    {
        self.available
    }

    /// Sets the flag, whatever it was.
    pub fn set_availability(&mut self, available: bool)
        ensures
            final(self)@ == (BookView { available, ..old(self)@ }),
    {
        self.available = available;
    }

    /// The title.
    pub fn get_title(&self) -> (title: &str)
        ensures
            title@ == self@.title,
    {
        self.title.as_str()
    }

    /// The author.
    pub fn get_author(&self) -> (author: &str)
        ensures
            author@ == self@.author,
    {
        self.author.as_str()
    }

    /// The ISBN, by which the catalogue finds the book.
    pub fn get_isbn(&self) -> (isbn: &str)
        ensures
            isbn@ == self@.isbn,
    {
        self.isbn.as_str()
    }

    /// The year of publication.
    pub fn get_year(&self) -> (year: i32)
        ensures
            year as int == self@.year,
    {
        self.year
    }

    /// The price, as the bit pattern of a single-precision number.
    pub fn get_price_bits(&self) -> (price_bits: u32)
        ensures
            price_bits == self@.price_bits,
    {
        self.price_bits
    }
}

/// A book that was just made can be borrowed, whatever it was made of.
pub proof fn lemma_created_is_available(
    title: Seq<char>,
    author: Seq<char>,
    isbn: Seq<char>,
    year: int,
    price_bits: u32,
)
    ensures
        created(title, author, isbn, year, price_bits).available,
{
}

} // verus!
