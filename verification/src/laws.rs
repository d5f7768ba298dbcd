//! What holds of the catalogue's operations taken together.

use crate::book::BookView;
use crate::library::{
    add_accepts, after_add, after_remove, after_set_first, first_index, first_is, first_match,
    holds_isbn, isbn_is, lemma_first_index, lemma_first_index_is_first, MAX_BOOKS,
};
use vstd::prelude::*;

verus! {

/// The books after each book of `more` was offered to `add_book` in turn.
pub open spec fn after_adds(books: Seq<BookView>, more: Seq<BookView>) -> Seq<BookView>
    decreases more.len(),
{
    if more.len() == 0 {
        books
    } else {
        after_add(after_adds(books, more.drop_last()), more.last())
    }
}

/// A catalogue takes a book exactly while it holds fewer than `MAX_BOOKS`;
/// a book that is taken makes it one longer, one that is not leaves it as
/// it was, and it never holds more than `MAX_BOOKS`.
pub proof fn lemma_add_within_capacity(books: Seq<BookView>, book: BookView)
    requires
        books.len() <= MAX_BOOKS,
    ensures
        add_accepts(books) == (books.len() < MAX_BOOKS),
        add_accepts(books) ==> after_add(books, book).len() == books.len() + 1,
        !add_accepts(books) ==> after_add(books, book) == books && books.len() == MAX_BOOKS,
        after_add(books, book).len() <= MAX_BOOKS,
{
}

/// Books offered one after the other are all taken while there is room: the
/// catalogue then holds what it held, followed by as many of them as fitted,
/// in their order, and the others are refused.
pub proof fn lemma_adds_fill_to_capacity(books: Seq<BookView>, more: Seq<BookView>)
    requires
        books.len() <= MAX_BOOKS,
    ensures
        books.len() + more.len() <= MAX_BOOKS ==> after_adds(books, more) == books + more,
        books.len() + more.len() >= MAX_BOOKS ==> after_adds(books, more) == books + more.take(
            MAX_BOOKS - books.len(),
        ),
        after_adds(books, more).len() <= MAX_BOOKS,
    decreases more.len(),
{
    if more.len() > 0 {
        let front = more.drop_last();
        lemma_adds_fill_to_capacity(books, front);
        let room = MAX_BOOKS - books.len();
        if books.len() + more.len() <= MAX_BOOKS {
            assert((books + front).push(more.last()) == books + more);
        } else {
            assert(front.take(room) == more.take(room));
            if books.len() + front.len() <= MAX_BOOKS {
                assert(front.take(room) == front);
            }
        }
    } else {
        assert(books + more == books);
        assert(more.take(0) == more);
    }
}

/// Taking out an ISBN that no book has finds nothing and leaves the books,
/// and so their number, as they were.
pub proof fn lemma_remove_absent(books: Seq<BookView>, isbn: Seq<char>)
    requires
        forall|i: int| 0 <= i < books.len() ==> (#[trigger] books[i]).isbn != isbn,
    ensures
        !holds_isbn(books, isbn),
        after_remove(books, isbn) == books,
{
    lemma_first_index(books, isbn_is(isbn), books.len() as int);
}

/// Taking out always either finds a book and leaves one fewer, or finds none
/// and leaves as many.
pub proof fn lemma_remove_count(books: Seq<BookView>, isbn: Seq<char>)
    ensures
        holds_isbn(books, isbn) ==> after_remove(books, isbn).len() == books.len() - 1,
        !holds_isbn(books, isbn) ==> after_remove(books, isbn).len() == books.len(),
{
    lemma_first_index_is_first(books, isbn_is(isbn));
}

/// In a catalogue with room, adding a book and then taking out its ISBN
/// finds a book and brings the number of books back to what it was. Where
/// no book had that ISBN before, the books are as they were.
pub proof fn lemma_add_then_remove(books: Seq<BookView>, book: BookView)
    requires
        books.len() < MAX_BOOKS,
    ensures
        add_accepts(books),
        holds_isbn(after_add(books, book), book.isbn),
        after_remove(after_add(books, book), book.isbn).len() == books.len(),
        !holds_isbn(books, book.isbn) ==> after_remove(after_add(books, book), book.isbn) == books,
{
    let grown = books.push(book);
    let wanted = isbn_is(book.isbn);
    lemma_first_index_is_first(grown, wanted);
    assert(wanted(grown[books.len() as int]));
    if !holds_isbn(books, book.isbn) {
        lemma_first_index_is_first(books, wanted);
        assert forall|j: int| 0 <= j < books.len() implies !wanted(#[trigger] grown[j]) by {
            assert(grown[j] == books[j]);
        }
        lemma_first_index(grown, wanted, books.len() as int);
        assert(grown.remove(books.len() as int) == books);
    }
}

/// A book added to a catalogue with room is found by its ISBN, unless a
/// book with that ISBN stood there already: then that one is still found.
pub proof fn lemma_find_after_add(books: Seq<BookView>, book: BookView, isbn: Seq<char>)
    requires
        books.len() < MAX_BOOKS,
    ensures
        holds_isbn(books, isbn) ==> first_match(after_add(books, book), isbn_is(isbn))
            == first_match(books, isbn_is(isbn)),
        !holds_isbn(books, isbn) && book.isbn == isbn ==> first_match(
            after_add(books, book),
            isbn_is(isbn),
        ) == Some(book),
        !holds_isbn(books, isbn) && book.isbn != isbn ==> first_match(
            after_add(books, book),
            isbn_is(isbn),
        ) is None,
{
    let grown = books.push(book);
    let wanted = isbn_is(isbn);
    lemma_first_index_is_first(books, wanted);
    let at = first_index(books, wanted);
    assert forall|j: int| 0 <= j < at implies !wanted(#[trigger] grown[j]) by {
        assert(grown[j] == books[j]);
    }
    if at < books.len() {
        assert(grown[at] == books[at]);
        lemma_first_index(grown, wanted, at);
    } else if book.isbn == isbn {
        assert(wanted(grown[at]));
        lemma_first_index(grown, wanted, at);
    } else {
        assert(!wanted(grown[at]));
        lemma_first_index(grown, wanted, at + 1);
    }
}

/// Where one book only has the ISBN, none has it after that one was taken
/// out; where several have it, the second of them is then the first.
pub proof fn lemma_find_after_remove(books: Seq<BookView>, isbn: Seq<char>, next: int)
    requires
        holds_isbn(books, isbn),
        first_index(books, isbn_is(isbn)) < next <= books.len(),
        forall|j: int|
            first_index(books, isbn_is(isbn)) < j < next ==> (#[trigger] books[j]).isbn != isbn,
        next < books.len() ==> books[next].isbn == isbn,
    ensures
        first_index(after_remove(books, isbn), isbn_is(isbn)) == next - 1,
        holds_isbn(after_remove(books, isbn), isbn) == (next < books.len()),
        next < books.len() ==> first_match(after_remove(books, isbn), isbn_is(isbn)) == Some(
            books[next],
        ),
{
    let wanted = isbn_is(isbn);
    lemma_first_index_is_first(books, wanted);
    let at = first_index(books, wanted);
    let rest = books.remove(at);
    assert forall|j: int| 0 <= j < next - 1 implies !wanted(#[trigger] rest[j]) by {
        if j < at {
            assert(rest[j] == books[j]);
        } else {
            assert(rest[j] == books[j + 1]);
        }
    }
    if next < books.len() {
        assert(rest[next - 1] == books[next]);
    }
    lemma_first_index(rest, wanted, next - 1);
}

/// Setting the flag of the first book with an ISBN leaves that book the
/// first with that ISBN.
pub proof fn lemma_set_first_keeps_position(books: Seq<BookView>, isbn: Seq<char>, flag: bool)
    ensures
        after_set_first(books, isbn, flag).len() == books.len(),
        first_index(after_set_first(books, isbn, flag), isbn_is(isbn)) == first_index(
            books,
            isbn_is(isbn),
        ),
        holds_isbn(after_set_first(books, isbn, flag), isbn) == holds_isbn(books, isbn),
{
    let wanted = isbn_is(isbn);
    let after = after_set_first(books, isbn, flag);
    let at = first_index(books, wanted);
    lemma_first_index_is_first(books, wanted);
    if first_is(books, isbn, !flag) {
        assert forall|j: int| 0 <= j < at implies !wanted(#[trigger] after[j]) by {
            assert(after[j] == books[j]);
        }
        assert(wanted(after[at]));
        lemma_first_index(after, wanted, at);
    }
}

/// Of a book that can be borrowed: borrowing it succeeds; borrowing it
/// again fails and changes nothing; returning it then succeeds and leaves
/// the books as they were at first.
pub proof fn lemma_borrow_twice_then_return(books: Seq<BookView>, isbn: Seq<char>)
    requires
        first_is(books, isbn, true),
    ensures
        !first_is(after_set_first(books, isbn, false), isbn, true),
        after_set_first(after_set_first(books, isbn, false), isbn, false) == after_set_first(
            books,
            isbn,
            false,
        ),
        first_is(after_set_first(books, isbn, false), isbn, false),
        after_set_first(after_set_first(books, isbn, false), isbn, true) == books,
{
    lemma_set_first_keeps_position(books, isbn, false);
    lemma_first_index_is_first(books, isbn_is(isbn));
    let at = first_index(books, isbn_is(isbn));
    let lent = after_set_first(books, isbn, false);
    assert(!lent[at].available);
    assert(after_set_first(lent, isbn, true) =~= books);
}

/// Of a book that is borrowed: returning it succeeds, returning it again
/// fails and changes nothing, and borrowing it then succeeds.
pub proof fn lemma_return_twice_then_borrow(books: Seq<BookView>, isbn: Seq<char>)
    requires
        first_is(books, isbn, false),
    ensures
        !first_is(after_set_first(books, isbn, true), isbn, false),
        after_set_first(after_set_first(books, isbn, true), isbn, true) == after_set_first(
            books,
            isbn,
            true,
        ),
        first_is(after_set_first(books, isbn, true), isbn, true),
        after_set_first(after_set_first(books, isbn, true), isbn, false) == books,
{
    lemma_set_first_keeps_position(books, isbn, true);
    lemma_first_index_is_first(books, isbn_is(isbn));
    let at = first_index(books, isbn_is(isbn));
    let back = after_set_first(books, isbn, true);
    assert(back[at].available);
    assert(after_set_first(back, isbn, false) =~= books);
}

/// Where no book has the ISBN, neither borrowing nor returning succeeds or
/// changes anything.
pub proof fn lemma_set_first_absent(books: Seq<BookView>, isbn: Seq<char>, flag: bool)
    requires
        !holds_isbn(books, isbn),
    ensures
        !first_is(books, isbn, !flag),
        after_set_first(books, isbn, flag) == books,
{
}

} // verus!
