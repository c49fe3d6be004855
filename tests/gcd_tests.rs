use rect_packing::gcd::gcd;

#[test]
fn test_gcd() {
    // Simple greatest common divisor.
    assert_eq!(gcd(3, 5), 1);
    assert_eq!(gcd(14, 15), 1);

    // More complex greatest common divisor.
    assert_eq!(gcd(2 * 3 * 5 * 11 * 17, 3 * 7 * 11 * 13 * 19), 3 * 11);
}

#[test]
fn test_multiple_gcd() {
    // List of numbers.
    let numbers: [u64; 4] = [3, 9, 21, 81];
    // Compute divisor one after the other.
    // Method 1: Using for-loop.
    let mut divisor = numbers[0];
    for no in &numbers[1..] {
        divisor = gcd(divisor, *no);
    }
    assert_eq!(divisor, 3);

    // Method 2: Using iterator & fold.
    let divisor: u64 = numbers.iter().fold(numbers[0], |acc, &x| gcd(acc, x));
    assert_eq!(divisor, 3);
}

#[test]
fn gcd_of_equal_and_dividing_values() {
    assert_eq!(gcd(12, 12), 12);
    assert_eq!(gcd(4, 12), 4);
    assert_eq!(gcd(12, 4), 4);
    assert_eq!(gcd(1, 1_000_000_007), 1);
}
