use iron_gcd::{compute_gcd, gcd, parse_number, parse_numbers, render_list, render_number};

fn strings(items: &[&str]) -> Vec<String> {
    items.iter().map(|s| s.to_string()).collect()
}

#[test]
fn gcd_is_commutative() {
    assert_eq!(gcd(12, 18), gcd(18, 12));
    assert_eq!(gcd(2310, 1001), 77);
    assert_eq!(gcd(1001, 2310), 77);
}

#[test]
fn gcd_of_number_with_itself() {
    assert_eq!(gcd(42, 42), 42);
    assert_eq!(gcd(u64::MAX, u64::MAX), u64::MAX);
}

#[test]
fn gcd_divides_both() {
    let g = gcd(84, 126);
    assert_eq!(g, 42);
    assert_eq!(84 % g, 0);
    assert_eq!(126 % g, 0);
}

#[test]
fn gcd_groups_either_way() {
    assert_eq!(gcd(gcd(12, 18), 27), gcd(12, gcd(18, 27)));
    assert_eq!(gcd(gcd(12, 18), 27), 3);
}

#[test]
fn gcd_of_largest_values() {
    assert_eq!(gcd(u64::MAX, 1), 1);
    assert_eq!(gcd(u64::MAX, 5), 5);
    assert_eq!(gcd(1 << 63, 1 << 40), 1 << 40);
}

#[test]
fn list_gcd_ignores_order() {
    assert_eq!(compute_gcd(&[12, 18, 30]), Some(6));
    assert_eq!(compute_gcd(&[30, 12, 18]), Some(6));
    assert_eq!(compute_gcd(&[18, 30, 12]), Some(6));
}

#[test]
fn list_gcd_of_empty_list_is_absent() {
    assert_eq!(compute_gcd(&[]), None);
}

#[test]
fn list_gcd_of_single_element() {
    assert_eq!(compute_gcd(&[7]), Some(7));
    assert_eq!(compute_gcd(&[u64::MAX]), Some(u64::MAX));
}

#[test]
fn list_gcd_with_one_is_one() {
    assert_eq!(compute_gcd(&[12, 1, 18]), Some(1));
}

#[test]
fn list_gcd_of_even_numbers() {
    assert_eq!(compute_gcd(&[2, 4, 6, 8]), Some(2));
}

#[test]
fn rendered_numbers_read_back() {
    let numbers: Vec<u64> = vec![1, 9, 10, 77, 2310, u64::MAX];
    let texts: Vec<String> = numbers.iter().map(|&n| render_number(n)).collect();
    assert_eq!(texts[5], "18446744073709551615");
    assert_eq!(parse_numbers(&texts), Ok(numbers));
}

#[test]
fn render_number_digits() {
    assert_eq!(render_number(0), "0");
    assert_eq!(render_number(7), "7");
    assert_eq!(render_number(1001), "1001");
}

#[test]
fn render_list_brackets_and_commas() {
    assert_eq!(render_list(&[]), "[]");
    assert_eq!(render_list(&[7]), "[7]");
    assert_eq!(render_list(&[2, 4, 6, 8]), "[2, 4, 6, 8]");
}

#[test]
fn parser_rejects_non_decimal_tokens() {
    for tok in ["dog", "+5", "-5", " 5", "5 ", "1_000", "0x10", "٣"] {
        assert_eq!(parse_number(tok), Err(format!("error parsing \"{}\"", tok)));
    }
}

#[test]
fn parser_rejects_empty_token() {
    assert_eq!(parse_number(""), Err(String::from("error parsing \"\"")));
}

#[test]
fn parser_reads_leading_zeros() {
    assert_eq!(parse_number("007"), Ok(7));
}

#[test]
fn parser_range_limits() {
    assert_eq!(parse_number("18446744073709551615"), Ok(u64::MAX));
    assert_eq!(
        parse_number("18446744073709551616"),
        Err(String::from("error parsing \"18446744073709551616\""))
    );
    assert_eq!(
        parse_number("99999999999999999999"),
        Err(String::from("error parsing \"99999999999999999999\""))
    );
}

#[test]
fn parser_reports_first_bad_token() {
    assert_eq!(
        parse_numbers(&strings(&["4", "cat", "dog"])),
        Err(String::from("error parsing \"cat\""))
    );
    assert_eq!(parse_numbers(&strings(&[])), Ok(vec![]));
}

#[test]
fn zero_token_reads_as_zero() {
    assert_eq!(parse_number("0"), Ok(0));
    assert_eq!(parse_numbers(&strings(&["0", "4"])), Ok(vec![0, 4]));
}
