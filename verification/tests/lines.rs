use minigrep::lines::lines;
use minigrep::substring::contains;

#[test]
fn empty_text_has_no_lines() {
    assert_eq!(lines(""), Vec::<&str>::new());
}

#[test]
fn text_without_terminator_is_one_line() {
    assert_eq!(lines("one"), vec!["one"]);
}

#[test]
fn terminator_at_the_end_opens_no_line() {
    assert_eq!(lines("one\n"), vec!["one"]);
    assert_eq!(lines("one\ntwo\n"), vec!["one", "two"]);
    assert_eq!(lines("one\ntwo"), vec!["one", "two"]);
    assert_eq!(lines("one\r\ntwo\r\n"), vec!["one", "two"]);
}

#[test]
fn empty_lines_are_lines() {
    assert_eq!(lines("\n"), vec![""]);
    assert_eq!(lines("\n\n"), vec!["", ""]);
    assert_eq!(lines("a\n\nb"), vec!["a", "", "b"]);
    assert_eq!(lines("\r\n\r\n"), vec!["", ""]);
}

#[test]
fn carriage_return_goes_only_before_a_line_feed() {
    assert_eq!(lines("a\rb\n"), vec!["a\rb"]);
    assert_eq!(lines("a\r"), vec!["a\r"]);
    assert_eq!(lines("a\r\nb\r"), vec!["a", "b\r"]);
    assert_eq!(lines("a\r\r\n"), vec!["a\r"]);
    assert_eq!(lines("\r"), vec!["\r"]);
    assert_eq!(lines("\n\r"), vec!["", "\r"]);
}

#[test]
fn lines_beyond_ascii() {
    assert_eq!(lines("Grüße\r\nזה\n雨\n🌧"), vec!["Grüße", "זה", "雨", "🌧"]);
    assert_eq!(lines("é\r\n"), vec!["é"]);
}

#[test]
fn lines_are_those_of_the_standard_library() {
    let texts = [
        "",
        "\n",
        "\r",
        "\r\n",
        "\n\r",
        "\r\r\n\n",
        "a",
        "a\n",
        "a\r\n",
        "a\nb",
        "a\r\nb\r",
        "a\rb\nc",
        "one\n\n\ntwo\r\n\r\nthree",
        "Grüße\r\nזה\n雨\n🌧\n",
        " \n \r\n\t",
    ];
    for text in texts {
        let expected: Vec<&str> = text.lines().collect();
        assert_eq!(lines(text), expected);
    }
}

#[test]
fn contains_finds_a_text_wherever_it_stands() {
    assert!(contains("safe, fast, productive.", "duct"));
    assert!(contains("safe, fast, productive.", "safe"));
    assert!(contains("safe, fast, productive.", "."));
    assert!(contains("safe, fast, productive.", "safe, fast, productive."));
    assert!(!contains("safe, fast, productive.", "Duct"));
    assert!(!contains("safe, fast, productive.", "safe, fast, productive.."));
    assert!(!contains("abab", "aba "));
    assert!(contains("aaab", "aab"));
}

#[test]
fn contains_finds_the_empty_text_everywhere() {
    assert!(contains("", ""));
    assert!(contains("abc", ""));
    assert!(!contains("", "a"));
}

#[test]
fn contains_is_that_of_the_standard_library() {
    let texts = ["", "a", "ab", "ba", "aab", "abab", "é", "éa", "aé", "雨が降る", "が", "🌧 🌧", "ß"];
    for haystack in texts {
        for needle in texts {
            assert_eq!(contains(haystack, needle), haystack.contains(needle));
        }
    }
}
