use book_catalog::book::Book;
use book_catalog::library::{Library, MAX_BOOKS};

fn book(title: &str, author: &str, isbn: &str) -> Book {
    Book::new(title, author, isbn, 2000, 10.0f32.to_bits())
}

fn isbns(library: &Library) -> Vec<String> {
    let mut out = Vec::new();
    let mut i = 0;
    while let Some(b) = library.book_at(i) {
        out.push(b.get_isbn().to_string());
        i += 1;
    }
    out
}

#[test]
fn new_library_is_empty() {
    let library = Library::new();
    assert_eq!(library.get_book_count(), 0);
    assert!(library.book_at(0).is_none());
    assert!(library.find_book_by_isbn("1").is_none());
    assert!(library.find_book_by_title("").is_none());
}

#[test]
fn add_until_full_then_refuse() {
    let mut library = Library::new();
    assert_eq!(MAX_BOOKS, 1000);
    for i in 0..MAX_BOOKS {
        assert!(library.add_book(book("t", "a", &format!("{}", i))));
        assert_eq!(library.get_book_count(), i + 1);
    }
    assert!(!library.add_book(book("t", "a", "extra")));
    assert_eq!(library.get_book_count(), MAX_BOOKS);
    assert!(library.find_book_by_isbn("extra").is_none());
    assert_eq!(library.book_at(MAX_BOOKS - 1).unwrap().get_isbn(), "999");
    assert!(library.remove_book("0"));
    assert!(library.add_book(book("t", "a", "extra")));
    assert_eq!(library.book_at(MAX_BOOKS - 1).unwrap().get_isbn(), "extra");
}

#[test]
fn add_keeps_insertion_order() {
    let mut library = Library::new();
    assert!(library.add_book(book("x", "a", "3")));
    assert!(library.add_book(book("y", "b", "1")));
    assert!(library.add_book(book("z", "c", "2")));
    assert_eq!(isbns(&library), vec!["3", "1", "2"]);
}

#[test]
fn remove_absent_changes_nothing() {
    let mut library = Library::new();
    library.add_book(book("x", "a", "1"));
    library.add_book(book("y", "b", "2"));
    assert!(!library.remove_book("3"));
    assert!(!library.remove_book(""));
    assert!(!library.remove_book("11"));
    assert_eq!(library.get_book_count(), 2);
    assert_eq!(isbns(&library), vec!["1", "2"]);
}

#[test]
fn add_then_remove_restores_count() {
    let mut library = Library::new();
    library.add_book(book("x", "a", "1"));
    let before = library.get_book_count();
    assert!(library.add_book(book("y", "b", "2")));
    assert!(library.remove_book("2"));
    assert_eq!(library.get_book_count(), before);
    assert_eq!(isbns(&library), vec!["1"]);
}

#[test]
fn remove_takes_the_first_of_equal_isbns() {
    let mut library = Library::new();
    library.add_book(book("first", "a", "7"));
    library.add_book(book("other", "b", "8"));
    library.add_book(book("second", "c", "7"));
    assert_eq!(library.find_book_by_isbn("7").unwrap().get_title(), "first");
    assert!(library.remove_book("7"));
    assert_eq!(library.get_book_count(), 2);
    assert_eq!(library.book_at(0).unwrap().get_title(), "other");
    assert_eq!(library.book_at(1).unwrap().get_title(), "second");
    assert_eq!(library.find_book_by_isbn("7").unwrap().get_title(), "second");
}

#[test]
fn borrow_twice_then_return() {
    let mut library = Library::new();
    library.add_book(book("x", "a", "1"));
    assert!(library.borrow_book("1"));
    assert!(!library.find_book_by_isbn("1").unwrap().is_available());
    assert!(!library.borrow_book("1"));
    assert!(!library.find_book_by_isbn("1").unwrap().is_available());
    assert!(library.return_book("1"));
    assert!(library.find_book_by_isbn("1").unwrap().is_available());
    assert!(!library.return_book("1"));
    assert!(library.find_book_by_isbn("1").unwrap().is_available());
    assert_eq!(library.get_book_count(), 1);
}

#[test]
fn borrow_and_return_of_absent_isbn_fail() {
    let mut library = Library::new();
    assert!(!library.borrow_book("1"));
    assert!(!library.return_book("1"));
    library.add_book(book("x", "a", "1"));
    assert!(!library.borrow_book("2"));
    assert!(!library.return_book("2"));
    assert!(library.book_at(0).unwrap().is_available());
}

#[test]
fn borrow_reaches_only_the_first_of_equal_isbns() {
    let mut library = Library::new();
    library.add_book(book("first", "a", "7"));
    library.add_book(book("second", "c", "7"));
    assert!(library.borrow_book("7"));
    assert!(!library.borrow_book("7"));
    assert!(!library.book_at(0).unwrap().is_available());
    assert!(library.book_at(1).unwrap().is_available());
}

#[test]
fn find_by_title_gives_the_first_that_contains() {
    let mut library = Library::new();
    library.add_book(book("C程序设计", "谭浩强", "A"));
    library.add_book(book("深入理解计算机系统", "Randal E. Bryant", "B"));
    library.add_book(book("计算机网络", "谢希仁", "C"));
    assert_eq!(library.find_book_by_title("计算机").unwrap().get_isbn(), "B");
    assert_eq!(library.find_book_by_title("网络").unwrap().get_isbn(), "C");
    assert_eq!(library.find_book_by_title("").unwrap().get_isbn(), "A");
    assert_eq!(library.find_book_by_title("C").unwrap().get_isbn(), "A");
    assert!(library.find_book_by_title("c").is_none());
    assert!(library.find_book_by_title("算法").is_none());
}

#[test]
fn sort_by_title_orders_by_code_point_and_is_idempotent() {
    let mut library = Library::new();
    library.add_book(book("C程序设计", "谭浩强", "A"));
    library.add_book(book("算法导论", "Thomas H. Cormen", "B"));
    library.add_book(book("深入理解计算机系统", "Randal E. Bryant", "C"));
    library.sort_books_by_title();
    assert_eq!(isbns(&library), vec!["A", "C", "B"]);
    assert_eq!(library.book_at(0).unwrap().get_title(), "C程序设计");
    assert_eq!(library.book_at(1).unwrap().get_title(), "深入理解计算机系统");
    assert_eq!(library.book_at(2).unwrap().get_title(), "算法导论");
    library.sort_books_by_title();
    assert_eq!(isbns(&library), vec!["A", "C", "B"]);
    assert_eq!(library.get_book_count(), 3);
}

#[test]
fn sort_by_author_orders_by_code_point() {
    let mut library = Library::new();
    library.add_book(book("C程序设计", "谭浩强", "A"));
    library.add_book(book("算法导论", "Thomas H. Cormen", "B"));
    library.add_book(book("深入理解计算机系统", "Randal E. Bryant", "C"));
    library.sort_books_by_author();
    assert_eq!(isbns(&library), vec!["C", "B", "A"]);
    library.sort_books_by_author();
    assert_eq!(isbns(&library), vec!["C", "B", "A"]);
}

#[test]
fn sort_is_stable() {
    let mut library = Library::new();
    library.add_book(book("b", "y", "1"));
    library.add_book(book("a", "z", "2"));
    library.add_book(book("b", "x", "3"));
    library.add_book(book("a", "x", "4"));
    library.add_book(book("b", "x", "5"));
    library.sort_books_by_title();
    assert_eq!(isbns(&library), vec!["2", "4", "1", "3", "5"]);
    library.sort_books_by_author();
    assert_eq!(isbns(&library), vec!["4", "3", "5", "1", "2"]);
}

#[test]
fn sort_agrees_with_a_stable_sort_of_the_keys() {
    let titles = ["m", "c", "x", "c", "a", "", "mm", "m", "b", "算", "C", "a"];
    let mut library = Library::new();
    let mut expected: Vec<(String, String)> = Vec::new();
    for (i, t) in titles.iter().enumerate() {
        library.add_book(book(t, "a", &format!("{}", i)));
        expected.push((t.to_string(), format!("{}", i)));
    }
    expected.sort_by(|a, b| a.0.cmp(&b.0));
    library.sort_books_by_title();
    let got: Vec<(String, String)> = (0..titles.len())
        .map(|i| {
            let b = library.book_at(i).unwrap();
            (b.get_title().to_string(), b.get_isbn().to_string())
        })
        .collect();
    assert_eq!(got, expected);
}

#[test]
fn sort_of_empty_and_single() {
    let mut library = Library::new();
    library.sort_books_by_title();
    assert_eq!(library.get_book_count(), 0);
    library.add_book(book("x", "a", "1"));
    library.sort_books_by_author();
    assert_eq!(isbns(&library), vec!["1"]);
}

#[test]
fn three_books_scenario() {
    let mut library = Library::new();
    assert!(library.add_book(book("one", "a", "111")));
    assert!(library.add_book(book("two", "b", "222")));
    assert!(library.add_book(book("three", "c", "333")));
    let found = library.find_book_by_isbn("222").unwrap();
    assert_eq!(found.get_title(), "two");
    assert_eq!(found.get_author(), "b");
    assert!(library.remove_book("222"));
    assert_eq!(library.get_book_count(), 2);
    assert!(library.find_book_by_isbn("222").is_none());
    assert_eq!(isbns(&library), vec!["111", "333"]);
}

#[test]
fn book_at_counts_from_zero() {
    let mut library = Library::new();
    library.add_book(book("x", "a", "1"));
    library.add_book(book("y", "b", "2"));
    assert_eq!(library.book_at(0).unwrap().get_isbn(), "1");
    assert_eq!(library.book_at(1).unwrap().get_isbn(), "2");
    assert!(library.book_at(2).is_none());
}
