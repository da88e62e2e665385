use cubesnake::report::{write_decimal, write_signed};
use cubesnake::text::{chars_of, is_word, parse_number, piece, split_lines, split_words};

fn chars(text: &str) -> Vec<char> {
    text.chars().collect()
}

fn strings(list: Vec<Vec<char>>) -> Vec<String> {
    list.into_iter().map(|w| w.into_iter().collect()).collect()
}

#[test]
fn characters_of_a_text() {
    assert_eq!(chars_of("a\u{e4}\u{1f40d}\n"), vec!['a', '\u{e4}', '\u{1f40d}', '\n']);
    assert!(chars_of("").is_empty());
}

#[test]
fn piece_of_a_text() {
    let text = chars("snake");
    assert_eq!(piece(&text, 1, 4), chars("nak"));
    assert_eq!(piece(&text, 0, 5), text);
    assert!(piece(&text, 5, 5).is_empty());
}

#[test]
fn lines_of_a_text() {
    assert!(split_lines(&chars("")).is_empty());
    assert_eq!(strings(split_lines(&chars("\n"))), vec![""]);
    assert_eq!(strings(split_lines(&chars("a"))), vec!["a"]);
    assert_eq!(strings(split_lines(&chars("a\n"))), vec!["a"]);
    assert_eq!(strings(split_lines(&chars("a\nb"))), vec!["a", "b"]);
    assert_eq!(strings(split_lines(&chars("a\n\nb\n"))), vec!["a", "", "b"]);
    assert_eq!(strings(split_lines(&chars("a\n\n"))), vec!["a", ""]);
    assert_eq!(strings(split_lines(&chars("a b\r\nc"))), vec!["a b\r", "c"]);
}

#[test]
fn lines_as_std_splits_them() {
    for text in ["", "\n", "x", "x\n", "\nx", "x\n\ny", "x\ny\n\n\n", "\n\n"] {
        let expected: Vec<String> = text.lines().map(|l| l.to_string()).collect();
        assert_eq!(strings(split_lines(&chars(text))), expected);
    }
}

#[test]
fn words_of_a_line() {
    assert!(split_words(&chars("")).is_empty());
    assert!(split_words(&chars("  \t ")).is_empty());
    assert_eq!(strings(split_words(&chars("area"))), vec!["area"]);
    assert_eq!(
        strings(split_words(&chars("  area cube\t3  "))),
        vec!["area", "cube", "3"]
    );
    assert_eq!(
        strings(split_words(&chars("a\u{a0}b\u{2003}c\rd\u{b}e"))),
        vec!["a", "b", "c", "d", "e"]
    );
    // a zero width space is no white space
    assert_eq!(strings(split_words(&chars("a\u{200b}b"))), vec!["a\u{200b}b"]);
}

#[test]
fn words_as_std_splits_them() {
    for line in ["", " ", "x", " x", "x ", "a  b", "\ta\u{3000}b c\r"] {
        let expected: Vec<String> = line.split_whitespace().map(|w| w.to_string()).collect();
        assert_eq!(strings(split_words(&chars(line))), expected);
    }
}

#[test]
fn words_are_compared_letter_by_letter() {
    assert!(is_word(&chars("area"), "area"));
    assert!(!is_word(&chars("area"), "are"));
    assert!(!is_word(&chars("are"), "area"));
    assert!(!is_word(&chars("arEa"), "area"));
    assert!(is_word(&chars(""), ""));
    assert!(is_word(&chars("\u{e4}"), "\u{e4}"));
}

#[test]
fn numbers_that_words_spell() {
    let lo = i8::MIN as i32;
    let hi = i8::MAX as i32;
    assert_eq!(Some(0), parse_number(&chars("0"), lo, hi));
    assert_eq!(Some(0), parse_number(&chars("-0"), lo, hi));
    assert_eq!(Some(7), parse_number(&chars("+7"), lo, hi));
    assert_eq!(Some(7), parse_number(&chars("0007"), lo, hi));
    assert_eq!(Some(127), parse_number(&chars("127"), lo, hi));
    assert_eq!(Some(-128), parse_number(&chars("-128"), lo, hi));
    assert_eq!(None, parse_number(&chars("128"), lo, hi));
    assert_eq!(None, parse_number(&chars("-129"), lo, hi));
    assert_eq!(None, parse_number(&chars(""), lo, hi));
    assert_eq!(None, parse_number(&chars("-"), lo, hi));
    assert_eq!(None, parse_number(&chars("+"), lo, hi));
    assert_eq!(None, parse_number(&chars("+-1"), lo, hi));
    assert_eq!(None, parse_number(&chars("1-"), lo, hi));
    assert_eq!(None, parse_number(&chars("12a"), lo, hi));
    assert_eq!(None, parse_number(&chars("a12"), lo, hi));
    assert_eq!(None, parse_number(&chars("1 2"), lo, hi));
    assert_eq!(None, parse_number(&chars("\u{661}"), lo, hi));
    assert_eq!(None, parse_number(&chars("99999999999999999999"), lo, hi));
    assert_eq!(
        Some(i32::MAX),
        parse_number(&chars("2147483647"), i32::MIN, i32::MAX)
    );
    assert_eq!(
        Some(i32::MIN),
        parse_number(&chars("-2147483648"), i32::MIN, i32::MAX)
    );
    assert_eq!(None, parse_number(&chars("2147483648"), i32::MIN, i32::MAX));
    assert_eq!(None, parse_number(&chars("-2147483649"), i32::MIN, i32::MAX));
    assert_eq!(
        Some(5),
        parse_number(&chars("000000000000000000000000000005"), i32::MIN, i32::MAX)
    );
}

#[test]
fn numbers_as_std_reads_them() {
    for word in [
        "0", "-0", "+0", "5", "-5", "+5", "127", "128", "-128", "-129", "", "-", "+", "++1", "1+",
        "0x10", "1e2", "007", "-007", " 1", "1 ",
    ] {
        let expected = word.parse::<i8>().ok().map(|n| n as i32);
        assert_eq!(
            expected,
            parse_number(&chars(word), i8::MIN as i32, i8::MAX as i32)
        );
        let expected = word.parse::<i32>().ok();
        assert_eq!(expected, parse_number(&chars(word), i32::MIN, i32::MAX));
    }
}

#[test]
fn numbers_in_decimal_digits() {
    for n in [0u128, 1, 9, 10, 11, 99, 100, 101, 10000000, u64::MAX as u128, u128::MAX] {
        let mut text = String::from("n=");
        write_decimal(&mut text, n);
        assert_eq!(format!("n={}", n), text);
    }
    for n in [0i8, 1, -1, 9, -9, 10, -10, 99, 100, 127, -127, -128] {
        let mut text = String::new();
        write_signed(&mut text, n);
        assert_eq!(format!("{}", n), text);
    }
}
