//! The two orders in which a catalogue can be put, and what it means to
//! sort by one of them without disturbing books whose keys are equal.

use crate::book::{Book, BookView};
use crate::text::{
    lemma_text_le_antisymmetric, lemma_text_le_reflexive, lemma_text_le_total,
    lemma_text_le_transitive, text_le,
};
use vstd::prelude::*;

verus! {

/// The text by which books are ordered.
#[derive(Debug, Clone, Copy)]
pub enum BookKey {
    Title,
    Author,
}

impl BookKey {
    /// The key of a book.
    pub open spec fn of(self, book: BookView) -> Seq<char> {
        match self {
            BookKey::Title => book.title,
            BookKey::Author => book.author,
        }
    }

    /// The key of a book, as text.
    pub fn text_of<'a>(&self, book: &'a Book) -> (key: &'a str)
        ensures
            key@ == self.of(book@),
    {
        match self {
            BookKey::Title => book.get_title(),
            BookKey::Author => book.get_author(),
        }
    }
}

/// Each book's key comes before, or equals, the key of every later book.
pub open spec fn is_sorted(books: Seq<BookView>, key: BookKey) -> bool {
    forall|i: int, j: int|
        0 <= i < j < books.len() ==> text_le(
            key.of(#[trigger] books[i]),
            key.of(#[trigger] books[j]),
        )
}

/// `books` with `book` put behind the last book whose key comes before its
/// own or equals it.
pub open spec fn sorted_insert(books: Seq<BookView>, book: BookView, key: BookKey) -> Seq<BookView>
    decreases books.len(),
{
    if books.len() == 0 {
        seq![book]
    } else if text_le(key.of(books.last()), key.of(book)) {
        books.push(book)
    } else {
        sorted_insert(books.drop_last(), book, key).push(books.last())
    }
}

/// `books` in ascending order of key, books of equal key in the order that
/// they had: each book in turn is put behind those that may stand before it.
pub open spec fn stable_sort(books: Seq<BookView>, key: BookKey) -> Seq<BookView>
    decreases books.len(),
{
    if books.len() == 0 {
        books
    } else {
        sorted_insert(stable_sort(books.drop_last(), key), books.last(), key)
    }
}

/// The books whose key is `k`.
pub open spec fn key_is(key: BookKey, k: Seq<char>) -> spec_fn(BookView) -> bool {
    |book: BookView| key.of(book) == k
}

/// The books of `books` whose key is `k`, in their order.
pub open spec fn with_key(books: Seq<BookView>, key: BookKey, k: Seq<char>) -> Seq<BookView> {
    books.filter(key_is(key, k))
}

/// Putting a book into a sequence adds that book and nothing else.
pub proof fn lemma_sorted_insert_contents(books: Seq<BookView>, book: BookView, key: BookKey)
    ensures
        sorted_insert(books, book, key).len() == books.len() + 1,
        sorted_insert(books, book, key).to_multiset() == books.to_multiset().insert(book),
    decreases books.len(),
{
    broadcast use vstd::seq_lib::group_to_multiset_ensures;

    if books.len() > 0 && !text_le(key.of(books.last()), key.of(book)) {
        let front = books.drop_last();
        lemma_sorted_insert_contents(front, book, key);
        assert(books == front.push(books.last()));
    }
}

/// A bound that holds of every key in a sequence and of the new book's key
/// holds of every key after the book was put in.
proof fn lemma_sorted_insert_below(
    books: Seq<BookView>,
    book: BookView,
    key: BookKey,
    top: Seq<char>,
)
    requires
        forall|i: int| 0 <= i < books.len() ==> text_le(key.of(#[trigger] books[i]), top),
        text_le(key.of(book), top),
    ensures
        forall|i: int|
            0 <= i < sorted_insert(books, book, key).len() ==> text_le(
                key.of(#[trigger] sorted_insert(books, book, key)[i]),
                top,
            ),
    decreases books.len(),
{
    let out = sorted_insert(books, book, key);
    if books.len() > 0 && !text_le(key.of(books.last()), key.of(book)) {
        let front = books.drop_last();
        lemma_sorted_insert_below(front, book, key, top);
        let mid = sorted_insert(front, book, key);
        assert forall|i: int| 0 <= i < out.len() implies text_le(
            key.of(#[trigger] out[i]),
            top,
        ) by {
            if i < mid.len() {
                assert(out[i] == mid[i]);
            } else {
                assert(out[i] == books.last());
            }
        }
    } else {
        assert forall|i: int| 0 <= i < out.len() implies text_le(
            key.of(#[trigger] out[i]),
            top,
        ) by {
            if i < books.len() {
                assert(out[i] == books[i]);
            } else {
                assert(out[i] == book);
            }
        }
    }
}

/// Putting a book into a sorted sequence leaves it sorted.
pub proof fn lemma_sorted_insert_sorted(books: Seq<BookView>, book: BookView, key: BookKey)
    requires
        is_sorted(books, key),
    ensures
        is_sorted(sorted_insert(books, book, key), key),
    decreases books.len(),
{
    let out = sorted_insert(books, book, key);
    if books.len() == 0 {
    } else if text_le(key.of(books.last()), key.of(book)) {
        assert forall|i: int, j: int| 0 <= i < j < out.len() implies text_le(
            key.of(#[trigger] out[i]),
            key.of(#[trigger] out[j]),
        ) by {
            if j == books.len() && i < books.len() - 1 {
                lemma_text_le_transitive(key.of(books[i]), key.of(books.last()), key.of(book));
            }
        }
    } else {
        let front = books.drop_last();
        lemma_drop_last_sorted(books, key);
        lemma_sorted_insert_sorted(front, book, key);
        lemma_text_le_total(key.of(books.last()), key.of(book));
        lemma_sorted_insert_below(front, book, key, key.of(books.last()));
        lemma_sorted_insert_contents(front, book, key);
    }
}

/// Putting a book into a sequence leaves the books of each key in their
/// order, the new book behind those of its own key.
pub proof fn lemma_sorted_insert_keeps_order(
    books: Seq<BookView>,
    book: BookView,
    key: BookKey,
    k: Seq<char>,
)
    ensures
        with_key(sorted_insert(books, book, key), key, k) == if key.of(book) == k {
            with_key(books, key, k).push(book)
        } else {
            with_key(books, key, k)
        },
    decreases books.len(),
{
    let same = key_is(key, k);
    if books.len() == 0 {
        assert(seq![book] == books.push(book));
        books.lemma_filter_push(book, same);
    } else if text_le(key.of(books.last()), key.of(book)) {
        books.lemma_filter_push(book, same);
    } else {
        let front = books.drop_last();
        let last = books.last();
        lemma_sorted_insert_keeps_order(front, book, key, k);
        lemma_text_le_reflexive(key.of(book));
        assert(books == front.push(last));
        sorted_insert(front, book, key).lemma_filter_push(last, same);
        front.lemma_filter_push(last, same);
    }
}

/// A book whose key is not below any key of a sorted sequence is put at its
/// end.
pub proof fn lemma_sorted_insert_at_end(books: Seq<BookView>, book: BookView, key: BookKey)
    requires
        forall|i: int| 0 <= i < books.len() ==> text_le(key.of(#[trigger] books[i]), key.of(book)),
    ensures
        sorted_insert(books, book, key) == books.push(book),
{
    if books.len() > 0 {
        assert(text_le(key.of(books[books.len() - 1]), key.of(book)));
    }
}

/// Sorting keeps every book, as often as it occurred, and adds none.
pub proof fn lemma_stable_sort_contents(books: Seq<BookView>, key: BookKey)
    ensures
        stable_sort(books, key).len() == books.len(),
        stable_sort(books, key).to_multiset() == books.to_multiset(),
    decreases books.len(),
{
    broadcast use vstd::seq_lib::group_to_multiset_ensures;

    if books.len() > 0 {
        let front = books.drop_last();
        lemma_stable_sort_contents(front, key);
        lemma_sorted_insert_contents(stable_sort(front, key), books.last(), key);
        assert(books == front.push(books.last()));
    }
}

/// What sorting gives is sorted.
pub proof fn lemma_stable_sort_sorted(books: Seq<BookView>, key: BookKey)
    ensures
        is_sorted(stable_sort(books, key), key),
    decreases books.len(),
{
    if books.len() > 0 {
        lemma_stable_sort_sorted(books.drop_last(), key);
        lemma_sorted_insert_sorted(stable_sort(books.drop_last(), key), books.last(), key);
    }
}

/// Sorting is stable: the books of each key stand in the order that they
/// had.
pub proof fn lemma_stable_sort_keeps_order(books: Seq<BookView>, key: BookKey, k: Seq<char>)
    ensures
        with_key(stable_sort(books, key), key, k) == with_key(books, key, k),
    decreases books.len(),
{
    if books.len() > 0 {
        let front = books.drop_last();
        lemma_stable_sort_keeps_order(front, key, k);
        lemma_sorted_insert_keeps_order(stable_sort(front, key), books.last(), key, k);
        assert(books == front.push(books.last()));
        front.lemma_filter_push(books.last(), key_is(key, k));
    }
}

/// Sorting a sorted sequence changes nothing.
pub proof fn lemma_stable_sort_of_sorted(books: Seq<BookView>, key: BookKey)
    requires
        is_sorted(books, key),
    ensures
        stable_sort(books, key) == books,
    decreases books.len(),
{
    if books.len() > 0 {
        let front = books.drop_last();
        lemma_drop_last_sorted(books, key);
        lemma_stable_sort_of_sorted(front, key);
        lemma_sorted_insert_at_end(front, books.last(), key);
    }
}

/// Sorting twice gives what sorting once gives.
pub proof fn lemma_stable_sort_idempotent(books: Seq<BookView>, key: BookKey)
    ensures
        stable_sort(stable_sort(books, key), key) == stable_sort(books, key),
{
    lemma_stable_sort_sorted(books, key);
    lemma_stable_sort_of_sorted(stable_sort(books, key), key);
}

/// The key of a sorted sequence's last book is not below the key of any of
/// its books.
proof fn lemma_last_key_is_greatest(books: Seq<BookView>, key: BookKey, book: BookView)
    requires
        is_sorted(books, key),
        books.contains(book),
    ensures
        text_le(key.of(book), key.of(books.last())),
{
    let j = choose|j: int| 0 <= j < books.len() && books[j] == book;
    if j == books.len() - 1 {
        lemma_text_le_reflexive(key.of(book));
    }
}

/// A sequence without its last book is sorted if the whole was.
proof fn lemma_drop_last_sorted(books: Seq<BookView>, key: BookKey)
    requires
        is_sorted(books, key),
        books.len() > 0,
    ensures
        is_sorted(books.drop_last(), key),
{
    let front = books.drop_last();
    assert forall|i: int, j: int| 0 <= i < j < front.len() implies text_le(
        key.of(#[trigger] front[i]),
        key.of(#[trigger] front[j]),
    ) by {
        assert(front[i] == books[i] && front[j] == books[j]);
    }
}

/// The books of the last book's key end with that book; and the books of
/// any key among all are those among all but the last, followed by the last
/// where it has that key.
proof fn lemma_with_key_last(books: Seq<BookView>, key: BookKey, k: Seq<char>)
    requires
        books.len() > 0,
    ensures
        with_key(books, key, k) == if key.of(books.last()) == k {
            with_key(books.drop_last(), key, k).push(books.last())
        } else {
            with_key(books.drop_last(), key, k)
        },
{
    assert(books == books.drop_last().push(books.last()));
    books.drop_last().lemma_filter_push(books.last(), key_is(key, k));
}

/// Two sorted sequences that hold, for each key, the same books of that key
/// in the same order are one and the same sequence.
pub proof fn lemma_sorted_and_stable_is_unique(a: Seq<BookView>, b: Seq<BookView>, key: BookKey)
    requires
        is_sorted(a, key),
        is_sorted(b, key),
        forall|k: Seq<char>| #[trigger] with_key(a, key, k) == with_key(b, key, k),
    ensures
        a == b,
    decreases a.len(),
{
    if a.len() == 0 || b.len() == 0 {
        if a.len() > 0 {
            lemma_with_key_last(a, key, key.of(a.last()));
            assert(with_key(a, key, key.of(a.last())) == with_key(b, key, key.of(a.last())));
        }
        if b.len() > 0 {
            lemma_with_key_last(b, key, key.of(b.last()));
            assert(with_key(a, key, key.of(b.last())) == with_key(b, key, key.of(b.last())));
        }
        assert(a =~= b);
    } else {
        let x = a.last();
        let y = b.last();
        let kx = key.of(x);
        let ky = key.of(y);
        lemma_with_key_last(a, key, kx);
        lemma_with_key_last(b, key, ky);
        assert(with_key(a, key, kx) == with_key(b, key, kx));
        assert(with_key(a, key, ky) == with_key(b, key, ky));
        assert(with_key(b, key, kx).contains(x)) by {
            assert(with_key(a, key, kx).last() == x);
        }
        assert(with_key(a, key, ky).contains(y)) by {
            assert(with_key(b, key, ky).last() == y);
        }
        b.lemma_filter_contains_rev(key_is(key, kx), x);
        a.lemma_filter_contains_rev(key_is(key, ky), y);
        lemma_last_key_is_greatest(b, key, x);
        lemma_last_key_is_greatest(a, key, y);
        lemma_text_le_antisymmetric(kx, ky);
        assert(with_key(a, key, kx).last() == with_key(b, key, kx).last());
        assert(x == y);
        let fa = a.drop_last();
        let fb = b.drop_last();
        lemma_drop_last_sorted(a, key);
        lemma_drop_last_sorted(b, key);
        assert forall|k: Seq<char>| #[trigger] with_key(fa, key, k) == with_key(fb, key, k) by {
            lemma_with_key_last(a, key, k);
            lemma_with_key_last(b, key, k);
            assert(with_key(a, key, k) == with_key(b, key, k));
            if kx == k {
                assert(with_key(fa, key, k) == with_key(a, key, k).drop_last());
                assert(with_key(fb, key, k) == with_key(b, key, k).drop_last());
            }
        }
        lemma_sorted_and_stable_is_unique(fa, fb, key);
        assert(a == fa.push(x));
        assert(b == fb.push(y));
    }
}

/// Sorting gives the one sorted sequence in which the books of each key
/// stand as they stood.
pub proof fn lemma_stable_sort_characterised(
    books: Seq<BookView>,
    sorted: Seq<BookView>,
    key: BookKey,
)
    requires
        is_sorted(sorted, key),
        forall|k: Seq<char>| #[trigger] with_key(sorted, key, k) == with_key(books, key, k),
    ensures
        sorted == stable_sort(books, key),
{
    lemma_stable_sort_sorted(books, key);
    assert forall|k: Seq<char>| #[trigger]
        with_key(sorted, key, k) == with_key(stable_sort(books, key), key, k) by {
        lemma_stable_sort_keeps_order(books, key, k);
    }
    lemma_sorted_and_stable_is_unique(sorted, stable_sort(books, key), key);
}

} // verus!
