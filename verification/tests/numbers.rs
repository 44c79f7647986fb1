use playground::leap::is_leap_year;
use playground::nth_prime::{is_prime, nth_prime};
use playground::phone_number::number;
use playground::raindrops::raindrops;
use playground::text::decimal_string;

#[test]
fn test_is_leap_year() {
    assert_eq!(is_leap_year(1997), false);
    assert_eq!(is_leap_year(1996), true);
    assert_eq!(is_leap_year(1900), false);
    assert_eq!(is_leap_year(2000), true);
}

#[test]
fn test_is_prime() {
    assert_eq!(is_prime(0), false);
    assert_eq!(is_prime(1), false);
    assert_eq!(is_prime(2), true);
    assert_eq!(is_prime(3), true);
    assert_eq!(is_prime(4), false);
    assert_eq!(is_prime(5), true);
    assert_eq!(is_prime(6), false);
    assert_eq!(is_prime(7), true);
    assert_eq!(is_prime(8), false);
    assert_eq!(is_prime(9), false);
    assert_eq!(is_prime(10), false);
    assert_eq!(is_prime(11), true);
    assert_eq!(is_prime(12), false);
    assert_eq!(is_prime(13), true);
}

#[test]
fn test_nth_prime() {
    assert_eq!(nth_prime(1), 2);
    assert_eq!(nth_prime(2), 3);
    assert_eq!(nth_prime(3), 5);
    assert_eq!(nth_prime(4), 7);
    assert_eq!(nth_prime(5), 11);
    assert_eq!(nth_prime(6), 13);
}

#[test]
fn test_raindrops() {
    assert_eq!(raindrops(1), "1");
    assert_eq!(raindrops(2), "2");
    assert_eq!(raindrops(3), "Pling");
    assert_eq!(raindrops(4), "4");
    assert_eq!(raindrops(5), "Plang");
    assert_eq!(raindrops(6), "Pling");
    assert_eq!(raindrops(7), "Plong");
    assert_eq!(raindrops(8), "8");
    assert_eq!(raindrops(9), "Pling");
    assert_eq!(raindrops(10), "Plang");
    assert_eq!(raindrops(11), "11");
    assert_eq!(raindrops(12), "Pling");
    assert_eq!(raindrops(13), "13");
    assert_eq!(raindrops(14), "Plong");
    assert_eq!(raindrops(15), "PlingPlang");
    assert_eq!(raindrops(16), "16");
    assert_eq!(raindrops(17), "17");
    assert_eq!(raindrops(18), "Pling");
    assert_eq!(raindrops(19), "19");
    assert_eq!(raindrops(20), "Plang");
    assert_eq!(raindrops(21), "PlingPlong");
    assert_eq!(raindrops(5 * 7), "PlangPlong");
    assert_eq!(raindrops(3 * 5 * 7), "PlingPlangPlong");
}

#[test]
fn raindrops_of_zero_and_of_large_numbers() {
    assert_eq!(raindrops(0), "PlingPlangPlong");
    assert_eq!(raindrops(u64::MAX), "PlingPlang");
    assert_eq!(raindrops(u64::MAX - 1), "Plong");
    assert_eq!(raindrops(u64::MAX - 2), "18446744073709551613");
}

#[test]
fn decimal_notation() {
    assert_eq!(decimal_string(0), "0");
    assert_eq!(decimal_string(9), "9");
    assert_eq!(decimal_string(10), "10");
    assert_eq!(decimal_string(1234567890), "1234567890");
    assert_eq!(decimal_string(u64::MAX), "18446744073709551615");
}

#[test]
fn larger_primes() {
    assert_eq!(is_prime(7919), true);
    assert_eq!(is_prime(7917), false);
    assert_eq!(is_prime(25), false);
    assert_eq!(nth_prime(100), 541);
}

#[test]
fn phone_numbers_are_cleaned() {
    assert_eq!(number("(223) 456-7890"), Some("2234567890".to_string()));
    assert_eq!(number("223.456.7890"), Some("2234567890".to_string()));
    assert_eq!(number("+1 (223) 456-7890"), Some("2234567890".to_string()));
    assert_eq!(number("12234567890"), Some("2234567890".to_string()));
}

#[test]
fn phone_numbers_are_refused() {
    assert_eq!(number(""), None);
    assert_eq!(number("123456789"), None);
    assert_eq!(number("22234567890"), None);
    assert_eq!(number("321234567890"), None);
    assert_eq!(number("(023) 456-7890"), None);
    assert_eq!(number("(123) 456-7890"), None);
    assert_eq!(number("(223) 056-7890"), None);
    assert_eq!(number("(223) 156-7890"), None);
    assert_eq!(number("1 (223) 156-7890"), None);
    assert_eq!(number("1123456789"), None);
}
