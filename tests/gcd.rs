use iron_gcd::{compute_gcd, gcd, parse_numbers};

#[test]
fn test_parse_numbers() {
    let args: Vec<String> = vec![String::from("dog"), String::from("1")];

    assert_eq!(parse_numbers(&args), Err(String::from("error parsing \"dog\"")));

    assert_eq!(parse_numbers(&args[1..]), Ok(vec![1]));
}

#[test]
fn test_compute_gcd() {
    let data: Vec<u64> = vec![4, 2, 6, 8];

    assert_eq!(compute_gcd(&data[..0]), None);

    assert_eq!(compute_gcd(&data[..1]), Some(4));

    assert_eq!(compute_gcd(data.as_slice()), Some(2));
}

#[test]
fn test_gcd() {
    assert_eq!(gcd(2 * 5 * 11 * 17, 3 * 7 * 13 * 19), 1);

    assert_eq!(gcd(2 * 3 * 5 * 11 * 17, 3 * 7 * 11 * 13 * 19), 3 * 11);
}

#[test]
fn main_test_parse_numbers() {
    let args: Vec<String> = vec![String::from("dog"), String::from("1")];

    assert_eq!(parse_numbers(&args), Err(String::from("error parsing \"dog\"")));

    assert_eq!(parse_numbers(&args[1..]), Ok(vec![1]));
}

#[test]
fn main_test_compute_gcd() {
    let data: Vec<u64> = vec![4, 2, 6, 8];

    assert_eq!(compute_gcd(&data[..0]), None);

    assert_eq!(compute_gcd(&data[..1]), Some(4));

    assert_eq!(compute_gcd(data.as_slice()), Some(2));
}

#[test]
fn main_test_gcd() {
    assert_eq!(gcd(2 * 5 * 11 * 17, 3 * 7 * 13 * 19), 1);

    assert_eq!(gcd(2 * 3 * 5 * 11 * 17, 3 * 7 * 11 * 13 * 19), 3 * 11);
}
