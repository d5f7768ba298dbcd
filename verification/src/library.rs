//! The catalogue: books in the order in which they were added, at most
//! `MAX_BOOKS` of them.

use crate::book::{Book, BookView};
use crate::order::{
    is_sorted, lemma_stable_sort_contents, lemma_stable_sort_keeps_order,
    lemma_stable_sort_sorted, sorted_insert, stable_sort, with_key, BookKey,
};
use crate::text::{chars_contain, chars_of, chars_precede, same_chars, text_contains};
use vstd::prelude::*;

verus! {

/// The most books that a catalogue holds.
pub const MAX_BOOKS: usize = 1000;

/// The books whose ISBN is exactly `isbn`.
pub open spec fn isbn_is(isbn: Seq<char>) -> spec_fn(BookView) -> bool {
    |book: BookView| book.isbn == isbn
}

/// The books in whose title `part` stands.
pub open spec fn title_has(part: Seq<char>) -> spec_fn(BookView) -> bool {
    |book: BookView| text_contains(book.title, part)
}

/// The position of the first book that `wanted` holds of, or the number of
/// books where it holds of none.
pub open spec fn first_index(books: Seq<BookView>, wanted: spec_fn(BookView) -> bool) -> int
    decreases books.len(),
{
    if books.len() == 0 || wanted(books[0]) {
        0
    } else {
        1 + first_index(books.drop_first(), wanted)
    }
}

/// The first book that `wanted` holds of, if there is one.
pub open spec fn first_match(books: Seq<BookView>, wanted: spec_fn(BookView) -> bool) -> Option<
    BookView,
> {
    let at = first_index(books, wanted);
    if at < books.len() {
        Some(books[at])
    } else {
        None
    }
}

/// Whether a catalogue of these books takes one more.
pub open spec fn add_accepts(books: Seq<BookView>) -> bool {
    books.len() < MAX_BOOKS
}

/// The books after `add_book`: the new one stands at the end, unless the
/// catalogue was full.
pub open spec fn after_add(books: Seq<BookView>, book: BookView) -> Seq<BookView> {
    if add_accepts(books) {
        books.push(book)
    } else {
        books
    }
}

/// Whether some book has this ISBN.
pub open spec fn holds_isbn(books: Seq<BookView>, isbn: Seq<char>) -> bool {
    first_index(books, isbn_is(isbn)) < books.len()
}

/// The books after `remove_book`: the first one with this ISBN is gone, the
/// others keep their order.
pub open spec fn after_remove(books: Seq<BookView>, isbn: Seq<char>) -> Seq<BookView> {
    if holds_isbn(books, isbn) {
        books.remove(first_index(books, isbn_is(isbn)))
    } else {
        books
    }
}

/// Whether the first book with this ISBN exists and has its flag at `flag`.
pub open spec fn first_is(books: Seq<BookView>, isbn: Seq<char>, flag: bool) -> bool {
    holds_isbn(books, isbn) && books[first_index(books, isbn_is(isbn))].available == flag
}

/// The books after the flag of the first one with this ISBN went from
/// `!flag` to `flag`; unchanged where there is no such book or its flag
/// was at `flag` already.
pub open spec fn after_set_first(books: Seq<BookView>, isbn: Seq<char>, flag: bool) -> Seq<
    BookView,
> {
    if first_is(books, isbn, !flag) {
        let at = first_index(books, isbn_is(isbn));
        books.update(at, BookView { available: flag, ..books[at] })
    } else {
        books
    }
}

/// `first_index` is the one position before which `wanted` holds of no book
/// and at which it holds, or the number of books.
pub proof fn lemma_first_index(books: Seq<BookView>, wanted: spec_fn(BookView) -> bool, at: int)
    requires
        0 <= at <= books.len(),
        forall|j: int| 0 <= j < at ==> !wanted(#[trigger] books[j]),
        at < books.len() ==> wanted(books[at]),
    ensures
        first_index(books, wanted) == at,
    decreases books.len(),
{
    if at > 0 {
        let rest = books.drop_first();
        assert forall|j: int| 0 <= j < at - 1 implies !wanted(#[trigger] rest[j]) by {
            assert(rest[j] == books[j + 1]);
        }
        lemma_first_index(rest, wanted, at - 1);
    }
}

/// `wanted` holds of no book before `first_index`, and of the book there if
/// that is the position of one.
pub proof fn lemma_first_index_is_first(books: Seq<BookView>, wanted: spec_fn(BookView) -> bool)
    ensures
        0 <= first_index(books, wanted) <= books.len(),
        forall|j: int| 0 <= j < first_index(books, wanted) ==> !wanted(#[trigger] books[j]),
        first_index(books, wanted) < books.len() ==> wanted(books[first_index(books, wanted)]),
    decreases books.len(),
{
    if books.len() > 0 && !wanted(books[0]) {
        let rest = books.drop_first();
        lemma_first_index_is_first(rest, wanted);
        assert forall|j: int| 0 <= j < first_index(books, wanted) implies !wanted(
            #[trigger] books[j],
        ) by {
            if j > 0 {
                assert(books[j] == rest[j - 1]);
            }
        }
    }
}

/// What each of the books is.
spec fn views(books: Seq<Book>) -> Seq<BookView> {
    books.map_values(|book: Book| book@)
}

/// A catalogue of books.
pub struct Library {
    books: Vec<Book>,
}

impl View for Library {
    type V = Seq<BookView>;

    closed spec fn view(&self) -> Seq<BookView> {
        views(self.books@)
    }
}

/// The position of the first book with this ISBN, or the number of books.
fn position_of_isbn(books: &Vec<Book>, isbn: &str) -> (at: usize)
    ensures
        at == first_index(views(books@), isbn_is(isbn@)),
        at <= books.len(),
{
    let wanted = chars_of(isbn);
    let mut i: usize = 0;
    while i < books.len()
        invariant
            wanted@ == isbn@,
            i <= books.len(),
            forall|j: int| 0 <= j < i ==> !isbn_is(isbn@)(#[trigger] views(books@)[j]),
        decreases books.len() - i,
    {
        if same_chars(&chars_of(books[i].get_isbn()), &wanted) {
            proof {
                lemma_first_index(views(books@), isbn_is(isbn@), i as int);
            }
            return i;
        }
        i += 1;
    }
    proof {
        lemma_first_index(views(books@), isbn_is(isbn@), i as int);
    }
    i
}

/// The position of the first book in whose title `part` stands, or the
/// number of books.
fn position_of_title(books: &Vec<Book>, part: &str) -> (at: usize)
    ensures
        at == first_index(views(books@), title_has(part@)),
        at <= books.len(),
{
    let wanted = chars_of(part);
    let mut i: usize = 0;
    while i < books.len()
        invariant
            wanted@ == part@,
            i <= books.len(),
            forall|j: int| 0 <= j < i ==> !title_has(part@)(#[trigger] views(books@)[j]),
        decreases books.len() - i,
    {
        if chars_contain(&chars_of(books[i].get_title()), &wanted) {
            proof {
                lemma_first_index(views(books@), title_has(part@), i as int);
            }
            return i;
        }
        i += 1;
    }
    proof {
        lemma_first_index(views(books@), title_has(part@), i as int);
    }
    i
}

/// Puts the books in ascending order of key; books of equal key keep their
/// order.
fn sort_in_place(books: &mut Vec<Book>, key: BookKey)
    ensures
        views(final(books)@) == stable_sort(views(old(books)@), key),
        final(books)@.len() == old(books)@.len(),
{
    let n: usize = books.len();
    let mut i: usize = 0;
    assert(views(books@).take(0) == stable_sort(views(old(books)@).take(0), key));
    while i < n
        invariant
            i <= n,
            n == books.len(),
            n == old(books)@.len(),
            views(books@).take(i as int) == stable_sort(views(old(books)@).take(i as int), key),
            views(books@).skip(i as int) == views(old(books)@).skip(i as int),
        decreases n - i,
    {
        let ghost before = views(books@);
        let ghost done = before.take(i as int);
        let book = books.remove(i);
        assert(book@ == before.skip(i as int)[0]);
        let book_key = chars_of(key.text_of(&book));
        let mut j: usize = i;
        assert(done.take(j as int) == done && done.skip(j as int) == Seq::<BookView>::empty());
        while j > 0 && !chars_precede(&chars_of(key.text_of(&books[j - 1])), &book_key)
            invariant
                book_key@ == key.of(book@),
                j <= i,
                i < n,
                books.len() == n - 1,
                before.len() == n,
                views(books@) == before.remove(i as int),
                done == before.take(i as int),
                sorted_insert(done, book@, key) == sorted_insert(done.take(j as int), book@, key)
                    + done.skip(j as int),
            decreases j,
        {
            let ghost head = done.take(j as int);
            assert(head.last() == views(books@)[j - 1]);
            assert(head.drop_last() == done.take(j - 1));
            assert(done.skip(j - 1) == seq![head.last()] + done.skip(j as int));
            j -= 1;
        }
        proof {
            let head = done.take(j as int);
            if j > 0 {
                assert(head.last() == views(books@)[j - 1]);
            }
            assert(sorted_insert(head, book@, key) == head.push(book@));
        }
        books.insert(j, book);
        proof {
            let now = views(books@);
            let whole = views(old(books)@);
            assert(now == before.remove(i as int).insert(j as int, book@));
            assert(now.take(i + 1) == sorted_insert(done, book@, key));
            assert(whole.take(i + 1).drop_last() == whole.take(i as int));
            assert(whole.take(i + 1).last() == book@);
            assert(now.skip(i + 1) == whole.skip(i + 1)) by {
                assert(now.skip(i + 1) == before.skip(i as int).skip(1));
                assert(whole.skip(i + 1) == whole.skip(i as int).skip(1));
            }
        }
        i += 1;
    }
    assert(views(books@).take(n as int) == views(books@));
    assert(views(old(books)@).take(n as int) == views(old(books)@));
}

impl Library {
    /// What holds of every catalogue that this library made: it holds at
    /// most `MAX_BOOKS` books.
    pub open spec fn wf(&self) -> bool {
        self@.len() <= MAX_BOOKS
    }

    /// An empty catalogue.
    pub fn new() -> (library: Library)
        ensures
            library@ == Seq::<BookView>::empty(),
            library.wf(),
    {
        Library { books: Vec::with_capacity(MAX_BOOKS) }
    }

    /// Puts the book at the end, unless the catalogue is full; says whether
    /// it was put there.
    pub fn add_book(&mut self, book: Book) -> (added: bool)
        requires
            old(self).wf(),
        ensures
            added == add_accepts(old(self)@),
            final(self)@ == after_add(old(self)@, book@),
            final(self).wf(),
    {
        if self.books.len() >= MAX_BOOKS {
            return false;
        }
        self.books.push(book);
        true
    }

    /// Takes out the first book with this ISBN; says whether there was one.
    pub fn remove_book(&mut self, isbn: &str) -> (removed: bool)
        requires
            old(self).wf(),
        ensures
            removed == holds_isbn(old(self)@, isbn@),
            final(self)@ == after_remove(old(self)@, isbn@),
            final(self).wf(),
    {
        let at = position_of_isbn(&self.books, isbn);
        if at < self.books.len() {
            self.books.remove(at);
            true
        } else {
            false
        }
    }

    /// The first book with this ISBN.
    pub fn find_book_by_isbn(&self, isbn: &str) -> (found: Option<&Book>)
        ensures
            found is Some == holds_isbn(self@, isbn@),
            match found {
                Some(book) => Some(book@),
                None => None,
            } == first_match(self@, isbn_is(isbn@)),
    {
        let at = position_of_isbn(&self.books, isbn);
        if at < self.books.len() {
            Some(&self.books[at])
        } else {
            None
        }
    }

    /// The first book in whose title `title` stands.
    pub fn find_book_by_title(&self, title: &str) -> (found: Option<&Book>)
        ensures
            match found {
                Some(book) => Some(book@),
                None => None,
            } == first_match(self@, title_has(title@)),
    {
        let at = position_of_title(&self.books, title);
        if at < self.books.len() {
            Some(&self.books[at])
        } else {
            None
        }
    }

    /// The book at a position, counted from zero.
    pub fn book_at(&self, index: usize) -> (found: Option<&Book>)
        ensures
            found is Some == (index < self@.len()),
            found is Some ==> found->0@ == self@[index as int],
    {
        if index < self.books.len() {
            Some(&self.books[index])
        } else {
            None
        }
    }

    /// Marks the first book with this ISBN as borrowed, if it was not; says
    /// whether it did.
    pub fn borrow_book(&mut self, isbn: &str) -> (borrowed: bool)
        requires
            old(self).wf(),
        ensures
            borrowed == first_is(old(self)@, isbn@, true),
            final(self)@ == after_set_first(old(self)@, isbn@, false),
            final(self).wf(),
    {
        self.set_first(isbn, false)
    }

    /// Marks the first book with this ISBN as returned, if it was borrowed;
    /// says whether it did.
    pub fn return_book(&mut self, isbn: &str) -> (returned: bool)
        requires
            old(self).wf(),
        ensures
            returned == first_is(old(self)@, isbn@, false),
            final(self)@ == after_set_first(old(self)@, isbn@, true),
            final(self).wf(),
    {
        self.set_first(isbn, true)
    }

    fn set_first(&mut self, isbn: &str, flag: bool) -> (changed: bool)
        requires
            old(self).wf(),
        ensures
            changed == first_is(old(self)@, isbn@, !flag),
            final(self)@ == after_set_first(old(self)@, isbn@, flag),
            final(self).wf(),
    {
        let at = position_of_isbn(&self.books, isbn);
        if at < self.books.len() && self.books[at].is_available() != flag {
            self.books[at].set_availability(flag);
            true
        } else {
            false
        }
    }

    /// Puts the books in ascending order of title, by code point; books
    /// with the same title keep their order.
    pub fn sort_books_by_title(&mut self)
        requires
            old(self).wf(),
        ensures
            final(self)@ == stable_sort(old(self)@, BookKey::Title),
            is_sorted(final(self)@, BookKey::Title),
            final(self)@.to_multiset() == old(self)@.to_multiset(),
            forall|k: Seq<char>| #[trigger]
                with_key(final(self)@, BookKey::Title, k) == with_key(
                    old(self)@,
                    BookKey::Title,
                    k,
                ),
            final(self).wf(),
    {
        proof {
            assert forall|k: Seq<char>| #[trigger]
                with_key(stable_sort(self@, BookKey::Title), BookKey::Title, k) == with_key(
                    self@,
                    BookKey::Title,
                    k,
                ) by {
                lemma_stable_sort_keeps_order(self@, BookKey::Title, k);
            }
            lemma_stable_sort_sorted(self@, BookKey::Title);
            lemma_stable_sort_contents(self@, BookKey::Title);
        }
        sort_in_place(&mut self.books, BookKey::Title);
    }

    /// Puts the books in ascending order of author, by code point; books
    /// with the same author keep their order.
    pub fn sort_books_by_author(&mut self)
        requires
            old(self).wf(),
        ensures
            final(self)@ == stable_sort(old(self)@, BookKey::Author),
            is_sorted(final(self)@, BookKey::Author),
            final(self)@.to_multiset() == old(self)@.to_multiset(),
            forall|k: Seq<char>| #[trigger]
                with_key(final(self)@, BookKey::Author, k) == with_key(
                    old(self)@,
                    BookKey::Author,
                    k,
                ),
            final(self).wf(),
    {
        proof {
            assert forall|k: Seq<char>| #[trigger]
                with_key(stable_sort(self@, BookKey::Author), BookKey::Author, k) == with_key(
                    self@,
                    BookKey::Author,
                    k,
                ) by {
                lemma_stable_sort_keeps_order(self@, BookKey::Author, k);
            }
            lemma_stable_sort_sorted(self@, BookKey::Author);
            lemma_stable_sort_contents(self@, BookKey::Author);
        }
        sort_in_place(&mut self.books, BookKey::Author);
    }

    /// The number of books.
    pub fn get_book_count(&self) -> (count: usize)
        ensures
            count == self@.len(),
    {
        self.books.len()
    }
}

} // verus!
