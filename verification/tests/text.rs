use cypher_gen::text::letters_in;
use cypher_gen::{
    decrypt_cypher, decrypt_text, to_cypher, CipherError, DEFAULT_KEY, DEFAULT_SEPARATOR,
    DEFAULT_START_NUMBER,
};

#[test]
fn defaults_number_the_latin_letters_from_one() {
    assert_eq!(DEFAULT_KEY, "abcdefghijklmnopqrstuvwxyz");
    assert_eq!(DEFAULT_SEPARATOR, ".");
    assert_eq!(DEFAULT_START_NUMBER, 1);
    assert_eq!(
        to_cypher("Hello world", DEFAULT_KEY, DEFAULT_SEPARATOR, DEFAULT_START_NUMBER),
        Ok(String::from("8.5.12.12.15.23.15.18.12.4"))
    );
    assert_eq!(
        to_cypher(DEFAULT_KEY, DEFAULT_KEY, DEFAULT_SEPARATOR, DEFAULT_START_NUMBER),
        Ok(String::from(
            "1.2.3.4.5.6.7.8.9.10.11.12.13.14.15.16.17.18.19.20.21.22.23.24.25.26"
        ))
    );
}

#[test]
fn letters_in_lowers_the_case_and_drops_what_is_no_letter() {
    assert_eq!(letters_in("Hello, World! 123"), "helloworld".chars().collect::<Vec<char>>());
    assert_eq!(letters_in("a1b"), vec!['a', 'b']);
    assert_eq!(letters_in("ÄÖ ü"), vec!['ä', 'ö', 'ü']);
    assert_eq!(letters_in("12 34"), Vec::<char>::new());
    assert_eq!(letters_in(""), Vec::<char>::new());
}

#[test]
fn to_cypher_drops_what_is_no_letter() {
    assert_eq!(to_cypher("a1b", DEFAULT_KEY, ".", 1), Ok(String::from("1.2")));
    assert_eq!(to_cypher("a1b", DEFAULT_KEY, ".", 1), to_cypher("ab", DEFAULT_KEY, ".", 1));
    assert_eq!(
        to_cypher("a, b; c! 42", DEFAULT_KEY, ".", 1),
        to_cypher("abc", DEFAULT_KEY, ".", 1)
    );
}

#[test]
fn to_cypher_of_a_text_without_letters_is_empty() {
    assert_eq!(to_cypher("", DEFAULT_KEY, ".", 1), Ok(String::new()));
    assert_eq!(to_cypher("123 !?", DEFAULT_KEY, ".", 1), Ok(String::new()));
}

#[test]
fn to_cypher_of_one_letter_has_no_separator() {
    assert_eq!(to_cypher("z", DEFAULT_KEY, ", ", 1), Ok(String::from("26")));
}

#[test]
fn to_cypher_changes_only_the_joiner_with_the_separator() {
    let dotted = to_cypher("Hello world", DEFAULT_KEY, ".", 1).unwrap();
    let spaced = to_cypher("Hello world", DEFAULT_KEY, ", ", 1).unwrap();
    assert_eq!(dotted.replace(".", ", "), spaced);
    let dotted: Vec<&str> = dotted.split(".").collect();
    let spaced: Vec<&str> = spaced.split(", ").collect();
    assert_eq!(dotted, spaced);
}

#[test]
fn to_cypher_ignores_the_case_of_the_key_and_of_the_text() {
    let key = "Sphinx of black quartz judge my vow";
    let lower = to_cypher("Hello world", &key.to_lowercase(), ".", 1);
    assert_eq!(to_cypher("Hello world", &key.to_uppercase(), ".", 1), lower);
    assert_eq!(to_cypher("HELLO WORLD", key, ".", 1), lower);
    assert_eq!(to_cypher("hello world", key, ".", 1), lower);
}

#[test]
fn to_cypher_uses_a_key_with_spaces_and_repeated_letters() {
    assert_eq!(to_cypher("hello", "h e l l o", "-", 1), Ok(String::from("1-2-3-3-4")));
    assert_eq!(to_cypher("hello", "oo ll ee hh", "-", 1), Ok(String::from("4-3-2-2-1")));
}

#[test]
fn to_cypher_numbers_by_characters_of_the_key() {
    assert_eq!(to_cypher("cä", "äbc", ".", 1), Ok(String::from("3.1")));
    assert_eq!(to_cypher("Üä", "äöü", ".", 1), Ok(String::from("3.1")));
}

#[test]
fn to_cypher_wraps_with_the_size_of_the_alphabet() {
    assert_eq!(to_cypher("abc", "abc", ".", 1), Ok(String::from("1.2.3")));
    assert_eq!(to_cypher("abc", "abc", ".", 2), Ok(String::from("2.3.1")));
    assert_eq!(to_cypher("abc", "abc", ".", 3), Ok(String::from("3.1.2")));
    assert_eq!(to_cypher("abc", "abc", ".", 4), Ok(String::from("1.2.3")));
    assert_eq!(to_cypher("abc", "abc", ".", 0), Ok(String::from("3.1.2")));
    assert_eq!(to_cypher("abc", "abc", ".", -1), Ok(String::from("2.3.1")));
    assert_eq!(to_cypher("abc", "abc", ".", -40), Ok(String::from("2.3.1")));
}

#[test]
fn to_cypher_refuses_a_key_without_usable_characters() {
    assert_eq!(to_cypher("abc", "", ".", 1), Err(CipherError::EmptyAlphabet));
    assert_eq!(to_cypher("abc", " \t\n", ".", 1), Err(CipherError::EmptyAlphabet));
    assert_eq!(to_cypher("", "", ".", 1), Err(CipherError::EmptyAlphabet));
}

#[test]
fn to_cypher_refuses_a_letter_that_the_key_lacks() {
    assert_eq!(to_cypher("abd", "abc", ".", 1), Err(CipherError::UnmappedCharacter));
    assert_eq!(to_cypher("hello", "helo wrd", ".", 1), Ok(String::from("1.2.3.3.4")));
    assert_eq!(to_cypher("hellos", "helo wrd", ".", 1), Err(CipherError::UnmappedCharacter));
    assert_eq!(to_cypher("é", DEFAULT_KEY, ".", 1), Err(CipherError::UnmappedCharacter));
}

#[test]
fn decrypt_cypher_finds_the_first_letter_of_the_alphabet() {
    assert_eq!(decrypt_cypher(vec![1], DEFAULT_KEY, 1), Ok(String::from("a")));
    assert_eq!(decrypt_cypher(vec![1, 2, 26], DEFAULT_KEY, 1), Ok(String::from("abz")));
    assert_eq!(decrypt_cypher(vec![4], "Sphinx of black quartz judge my vow", 4), Ok(String::from("s")));
}

#[test]
fn decrypt_cypher_wraps_codes_from_beyond_the_alphabet() {
    assert_eq!(decrypt_cypher(vec![27, 0, -25, 53], DEFAULT_KEY, 1), Ok(String::from("azaa")));
}

#[test]
fn decrypt_cypher_of_no_codes_is_empty() {
    assert_eq!(decrypt_cypher(vec![], DEFAULT_KEY, 1), Ok(String::new()));
}

#[test]
fn decrypt_cypher_refuses_a_key_without_usable_characters() {
    assert_eq!(decrypt_cypher(vec![1], "", 1), Err(CipherError::EmptyAlphabet));
    assert_eq!(decrypt_cypher(vec![], "  ", 1), Err(CipherError::EmptyAlphabet));
}

#[test]
fn decrypt_cypher_gives_back_the_letters_for_every_start_number() {
    let keys = [DEFAULT_KEY, "Sphinx of black quartz judge my vow", "ZYXWVUTSRQPONMLKJIHGFEDCBA"];
    let starts = [isize::MIN, -1000, -53, -27, -26, -1, 0, 1, 4, 13, 26, 27, 30, 1000, isize::MAX];
    let text = "The quick brown fox jumps over the lazy dog, 3 times!";
    let letters = "thequickbrownfoxjumpsoverthelazydogtimes";
    for key in keys {
        for start in starts {
            let cypher = to_cypher(text, key, ".", start).unwrap();
            let codes: Vec<i32> = cypher.split(".").map(|code| code.parse().unwrap()).collect();
            assert!(codes.iter().all(|code| 1 <= *code && *code <= 26));
            assert_eq!(decrypt_cypher(codes, key, start), Ok(String::from(letters)));
        }
    }
}

#[test]
fn decrypt_text_reads_the_codes_between_separators() {
    assert_eq!(
        decrypt_text("8.5.12.12.15.23.15.18.12.4", DEFAULT_KEY, ".", 1),
        Ok(String::from("helloworld"))
    );
    assert_eq!(
        decrypt_text("8, 5, 12, 12, 15", DEFAULT_KEY, ", ", 1),
        Ok(String::from("hello"))
    );
    assert_eq!(
        decrypt_text("14.12.15.3.9.1.21", "Sphinx of black quartz judge my vow", ".", 4),
        Ok(String::from("abcwxyz"))
    );
}

#[test]
fn decrypt_text_refuses_what_is_no_number() {
    assert_eq!(decrypt_text("8.five.12", DEFAULT_KEY, ".", 1), Err(CipherError::MalformedCode));
    assert_eq!(decrypt_text("", DEFAULT_KEY, ".", 1), Err(CipherError::MalformedCode));
    assert_eq!(decrypt_text("8.5.", DEFAULT_KEY, ".", 1), Err(CipherError::MalformedCode));
    assert_eq!(decrypt_text("8.5", DEFAULT_KEY, "", 1), Err(CipherError::MalformedCode));
}

#[test]
fn decrypt_text_refuses_a_malformed_text_before_an_empty_key() {
    assert_eq!(decrypt_text("x", "", ".", 1), Err(CipherError::MalformedCode));
    assert_eq!(decrypt_text("1", "", ".", 1), Err(CipherError::EmptyAlphabet));
}

#[test]
fn decrypt_text_gives_back_the_letters_of_what_to_cypher_took() {
    let keys = [DEFAULT_KEY, "Sphinx of black quartz judge my vow"];
    let separators = [".", ", ", " ", "-", "\n", "::", "x"];
    let starts = [-100, -1, 0, 1, 4, 26, 27, 100];
    for key in keys {
        for separator in separators {
            for start in starts {
                let cypher = to_cypher("Hello, World!", key, separator, start).unwrap();
                assert_eq!(
                    decrypt_text(&cypher, key, separator, start),
                    Ok(String::from("helloworld"))
                );
            }
        }
    }
}
