use cypher_gen::{decrypt_cypher, to_cypher};

#[test]
fn to_cypher_generates_cypher() {
    let input = "Hello world";
    let pangram = "abcdefghijklmnopqrstuvwxyz";
    let separator = ".";

    let expected_output = "8.5.12.12.15.23.15.18.12.4";

    let output = to_cypher(input, pangram, separator, 1);

    assert_eq!(output, Ok(String::from(expected_output)));
}

#[test]
fn to_cypher_generates_cypher_from_custom_pangram() {
    let input = "Hello world";
    let pangram = "Sphinx of black quartz judge my vow";
    let separator = ".";

    let expected_output = "3.22.10.10.7.26.7.16.10.20";

    let output = to_cypher(input, pangram, separator, 1);

    assert_eq!(output, Ok(String::from(expected_output)));
}

#[test]
fn to_cypher_outputs_custom_separator_text() {
    let input = "Hello world";
    let pangram = "abcdefghijklmnopqrstuvwxyz";
    let separator = ", ";

    let expected_output = "8, 5, 12, 12, 15, 23, 15, 18, 12, 4";

    let output = to_cypher(input, pangram, separator, 1);

    assert_eq!(output, Ok(String::from(expected_output)));
}

#[test]
fn to_cypher_handles_uppercase_pangram() {
    let input = "Hello world";
    let pangram = "ABCDEFGHIJKLMNOPQRSTUVWXYZ";
    let separator = ", ";

    let expected_output = "8, 5, 12, 12, 15, 23, 15, 18, 12, 4";

    let output = to_cypher(input, pangram, separator, 1);

    assert_eq!(output, Ok(String::from(expected_output)));
}

#[test]
fn decrypt_cypher_to_text() {
    let input_numbers = vec![8, 5, 12, 12, 15, 23, 15, 18, 12, 4];
    let pangram = "abcdefghijklmnopqrstuvwxyz";

    let expected_output = "helloworld";

    let output = decrypt_cypher(input_numbers, pangram, 1);

    assert_eq!(output, Ok(String::from(expected_output)));
}

#[test]
fn decrypt_cypher_given_pangram_with_spaces_ignores_whitespace() {
    let input_numbers = vec![3, 22, 10, 10, 7, 26, 7, 16, 10, 20];
    let pangram = "Sphinx of black quartz judge my vow";

    let expected_output = "helloworld";

    let output = decrypt_cypher(input_numbers, pangram, 1);

    assert_eq!(output, Ok(String::from(expected_output)));
}

#[test]
fn decrypt_cypher_given_pangram_with_uppercase_assumes_lowercase() {
    let input_numbers = vec![8, 5, 12, 12, 15, 23, 15, 18, 12, 4];
    let pangram = "ABCDEFGHIJKLMNOPQRSTUVWXYZ";

    let expected_output = "helloworld";

    let output = decrypt_cypher(input_numbers, pangram, 1);

    assert_eq!(output, Ok(String::from(expected_output)));
}

#[test]
fn to_cypher_given_non_default_start_number_generates_cypher_with_that_number() {
    let input = "abcxyz";
    let pangram = "abcdefghijklmnopqrstuvwxyz";
    let separator = ".";
    let start_number = 4;

    let expected_output = "4.5.6.1.2.3";

    let output = to_cypher(input, pangram, separator, start_number);

    assert_eq!(output, Ok(String::from(expected_output)));
}

#[test]
fn decrypt_cypher_given_non_default_start_number_decypts_cypher_with_that_number_as_offset() {
    let input_numbers = vec![14, 12, 15, 3, 9, 1, 21];
    let pangram = "Sphinx of black quartz judge my vow";
    let start_number = 4;

    let expected_output = "abcwxyz";

    let output = decrypt_cypher(input_numbers, pangram, start_number);

    assert_eq!(output, Ok(String::from(expected_output)));
}
