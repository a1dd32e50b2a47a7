use iron_gcd::{cli_reply, form_numbers, form_reply, parse_numbers, STATUS_BAD_REQUEST, STATUS_OK};

fn strings(items: &[&str]) -> Vec<String> {
    items.iter().map(|s| s.to_string()).collect()
}

fn cli(args: &[&str]) -> Result<String, String> {
    cli_reply(parse_numbers(&strings(args)))
}

fn post(values: &[&str]) -> (u16, String) {
    let reply = form_reply(form_numbers(Ok(Some(strings(values)))));
    (reply.status, reply.body)
}

#[test]
fn cli_several_numbers() {
    assert_eq!(
        cli(&["2", "4", "6", "8"]),
        Ok(String::from("The greatest common divisor of [2, 4, 6, 8] is 2"))
    );
}

#[test]
fn cli_one_number() {
    assert_eq!(cli(&["7"]), Ok(String::from("The greatest common divisor of [7] is 7")));
}

#[test]
fn cli_bad_token() {
    assert_eq!(cli(&["dog", "1"]), Err(String::from("error parsing \"dog\"")));
}

#[test]
fn cli_no_arguments() {
    assert_eq!(cli(&[]), Err(String::from("Usage: gcd NUMBER ...")));
}

#[test]
fn form_two_numbers() {
    assert_eq!(
        post(&["2310", "1001"]),
        (STATUS_OK, String::from("The greatest common divisor of the numbers [2310, 1001] is 77\n"))
    );
}

#[test]
fn form_many_numbers() {
    assert_eq!(
        post(&["12", "", "18", "30"]),
        (STATUS_OK, String::from("The greatest common divisor of the numbers [12, 18, 30] is 6\n"))
    );
}

#[test]
fn form_empty_values() {
    assert_eq!(
        post(&["", ""]),
        (STATUS_BAD_REQUEST, String::from("Error: Could not compute GCD for empty list"))
    );
}

#[test]
fn form_bad_token() {
    assert_eq!(
        post(&["dog", "1"]),
        (STATUS_BAD_REQUEST, String::from("Error: error parsing \"dog\""))
    );
}

#[test]
fn form_without_n_field() {
    let reply = form_reply(form_numbers(Ok(None)));
    assert_eq!(reply.status, STATUS_BAD_REQUEST);
    assert_eq!(reply.body, "Error: form data has no 'n' parameter\n");
}

#[test]
fn form_decode_failure() {
    let reply = form_reply(form_numbers(Err(String::from("EmptyQuery"))));
    assert_eq!(reply.status, STATUS_BAD_REQUEST);
    assert_eq!(reply.body, "Error: Error parsing form data: EmptyQuery\n");
}
