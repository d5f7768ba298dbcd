use book_catalog::book::{Book, YEAR_MAX, YEAR_MIN};

fn sample() -> Book {
    Book::new("算法导论", "Thomas H. Cormen", "9787111187776", 2006, 89.00f32.to_bits())
}

#[test]
fn new_book_is_available() {
    let book = sample();
    assert!(book.is_available());
}

#[test]
fn new_book_keeps_what_it_was_given() {
    let book = sample();
    assert_eq!(book.get_title(), "算法导论");
    assert_eq!(book.get_author(), "Thomas H. Cormen");
    assert_eq!(book.get_isbn(), "9787111187776");
    assert_eq!(book.get_year(), 2006);
    assert_eq!(f32::from_bits(book.get_price_bits()), 89.00f32);
}

#[test]
fn new_book_takes_any_year_and_price() {
    let book = Book::new("t", "a", "i", -5, (-3.5f32).to_bits());
    assert_eq!(book.get_year(), -5);
    assert_eq!(f32::from_bits(book.get_price_bits()), -3.5f32);
    assert!(book.is_available());
}

#[test]
fn update_price_refuses_below_zero() {
    let mut book = sample();
    assert!(!book.update_price((-1.0f32).to_bits()));
    assert_eq!(f32::from_bits(book.get_price_bits()), 89.00f32);
    assert_eq!(book.get_price_bits(), 89.00f32.to_bits());
}

#[test]
fn update_price_takes_zero() {
    let mut book = sample();
    assert!(book.update_price(0.0f32.to_bits()));
    assert_eq!(book.get_price_bits(), 0.0f32.to_bits());
}

#[test]
fn update_price_takes_a_positive_price() {
    let mut book = sample();
    assert!(book.update_price(12.5f32.to_bits()));
    assert_eq!(f32::from_bits(book.get_price_bits()), 12.5f32);
    assert_eq!(book.get_title(), "算法导论");
    assert_eq!(book.get_year(), 2006);
    assert!(book.is_available());
}

#[test]
fn update_price_agrees_with_comparison_to_zero() {
    let values: Vec<f32> = vec![
        0.0,
        -0.0,
        1.0,
        -1.0,
        f32::MIN_POSITIVE,
        -f32::MIN_POSITIVE,
        f32::from_bits(1),
        f32::from_bits(0x8000_0001),
        f32::MAX,
        f32::MIN,
        f32::INFINITY,
        f32::NEG_INFINITY,
        f32::NAN,
        f32::from_bits(0xFFC0_0000),
        f32::from_bits(0xFF80_0001),
        f32::from_bits(0xFFFF_FFFF),
        f32::from_bits(0x7F80_0001),
        39.80,
        -39.80,
    ];
    for value in values {
        let mut book = sample();
        let before = book.get_price_bits();
        let updated = book.update_price(value.to_bits());
        assert_eq!(updated, !(value < 0.0), "price {:?}", value);
        if updated {
            assert_eq!(book.get_price_bits(), value.to_bits());
        } else {
            assert_eq!(book.get_price_bits(), before);
        }
    }
}

#[test]
fn update_year_bounds_are_inclusive() {
    let mut book = sample();
    assert!(!book.update_year(1799));
    assert_eq!(book.get_year(), 2006);
    assert!(!book.update_year(2025));
    assert_eq!(book.get_year(), 2006);
    assert!(book.update_year(1800));
    assert_eq!(book.get_year(), 1800);
    assert!(book.update_year(2024));
    assert_eq!(book.get_year(), 2024);
}

#[test]
fn update_year_refuses_far_values() {
    let mut book = sample();
    assert!(!book.update_year(i32::MIN));
    assert!(!book.update_year(i32::MAX));
    assert!(!book.update_year(0));
    assert_eq!(book.get_year(), 2006);
    assert_eq!(YEAR_MIN, 1800);
    assert_eq!(YEAR_MAX, 2024);
}

#[test]
fn set_availability_sets_the_flag() {
    let mut book = sample();
    book.set_availability(false);
    assert!(!book.is_available());
    book.set_availability(false);
    assert!(!book.is_available());
    book.set_availability(true);
    assert!(book.is_available());
    assert_eq!(book.get_isbn(), "9787111187776");
}
