use cypher_gen::numeral::{digit, parse_numeral, push_numeral};

fn numeral(n: i32) -> String {
    let mut text: Vec<char> = Vec::new();
    push_numeral(&mut text, n);
    text.into_iter().collect()
}

fn parse(text: &str) -> Option<i32> {
    let chars: Vec<char> = text.chars().collect();
    parse_numeral(&chars)
}

#[test]
fn digit_writes_zero_to_nine() {
    let digits: String = (0..=9).map(digit).collect();
    assert_eq!(digits, "0123456789");
}

#[test]
fn push_numeral_writes_exact_numerals() {
    assert_eq!(numeral(0), "0");
    assert_eq!(numeral(7), "7");
    assert_eq!(numeral(10), "10");
    assert_eq!(numeral(26), "26");
    assert_eq!(numeral(100), "100");
    assert_eq!(numeral(12345), "12345");
    assert_eq!(numeral(-1), "-1");
    assert_eq!(numeral(-120), "-120");
    assert_eq!(numeral(i32::MAX), "2147483647");
    assert_eq!(numeral(i32::MIN), "-2147483648");
}

#[test]
fn push_numeral_appends_to_what_is_there() {
    let mut text = vec!['x', '='];
    push_numeral(&mut text, 42);
    push_numeral(&mut text, -3);
    assert_eq!(text, vec!['x', '=', '4', '2', '-', '3']);
}

#[test]
fn push_numeral_writes_as_the_standard_library_does() {
    let mut n: i64 = i32::MIN as i64;
    while n <= i32::MAX as i64 {
        assert_eq!(numeral(n as i32), (n as i32).to_string());
        n += 7_654_321;
    }
    for n in -1000..=1000 {
        assert_eq!(numeral(n), n.to_string());
    }
}

#[test]
fn parse_numeral_reads_exact_values() {
    assert_eq!(parse("0"), Some(0));
    assert_eq!(parse("8"), Some(8));
    assert_eq!(parse("26"), Some(26));
    assert_eq!(parse("007"), Some(7));
    assert_eq!(parse("+5"), Some(5));
    assert_eq!(parse("-5"), Some(-5));
    assert_eq!(parse("-0"), Some(0));
    assert_eq!(parse("2147483647"), Some(i32::MAX));
    assert_eq!(parse("-2147483648"), Some(i32::MIN));
    assert_eq!(parse("0000000000000000000012"), Some(12));
}

#[test]
fn parse_numeral_refuses_what_is_no_numeral() {
    assert_eq!(parse(""), None);
    assert_eq!(parse("-"), None);
    assert_eq!(parse("+"), None);
    assert_eq!(parse("+-1"), None);
    assert_eq!(parse("--1"), None);
    assert_eq!(parse("1-"), None);
    assert_eq!(parse(" 1"), None);
    assert_eq!(parse("1 "), None);
    assert_eq!(parse("1.5"), None);
    assert_eq!(parse("1_000"), None);
    assert_eq!(parse("x"), None);
    assert_eq!(parse("12a"), None);
    assert_eq!(parse("１"), None);
    assert_eq!(parse("٣"), None);
}

#[test]
fn parse_numeral_refuses_what_is_beyond_a_code() {
    assert_eq!(parse("2147483648"), None);
    assert_eq!(parse("-2147483649"), None);
    assert_eq!(parse("+2147483648"), None);
    assert_eq!(parse("21474836470"), None);
    assert_eq!(parse("99999999999999999999999999"), None);
    assert_eq!(parse("-99999999999999999999999999"), None);
}

#[test]
fn parse_numeral_reads_as_the_standard_library_does() {
    let symbols = ['0', '1', '9', '-', '+', ' ', 'a'];
    let mut texts: Vec<String> = vec![String::new()];
    let mut start = 0;
    for _ in 0..4 {
        let end = texts.len();
        for i in start..end {
            for symbol in symbols {
                let mut longer = texts[i].clone();
                longer.push(symbol);
                texts.push(longer);
            }
        }
        start = end;
    }
    assert_eq!(texts.len(), 1 + 7 + 49 + 343 + 2401);
    for text in texts {
        assert_eq!(parse(&text), text.parse::<i32>().ok(), "{:?}", text);
    }
}

#[test]
fn parse_numeral_reads_back_what_push_numeral_wrote() {
    for n in [0, 1, -1, 9, 10, -10, 99, 100, 12345, -54321, i32::MAX, i32::MIN] {
        assert_eq!(parse(&numeral(n)), Some(n));
    }
}
