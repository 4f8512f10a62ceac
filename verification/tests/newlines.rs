use buffer::newlines::count_newlines;

fn trivial_count(s: &str) -> usize {
    let mut count = 0;
    for c in s.chars() {
        if c == '\n' {
            count += 1;
        }
    }
    count
}

#[test]
fn count_empty() {
    assert_eq!(count_newlines(""), 0);
}

#[test]
fn count_all_newlines() {
    assert_eq!(count_newlines("\n\n\n\n\n"), 5);
}

#[test]
fn count_no_newlines() {
    assert_eq!(count_newlines("abcdefg hijk"), 0);
}

#[test]
fn count_mixed() {
    assert_eq!(count_newlines("\nab\nc\ndefg\n"), 4);
    assert_eq!(count_newlines("a\n"), 1);
    assert_eq!(count_newlines("\na"), 1);
}

#[test]
fn count_ignores_bytes_adjacent_to_newlines() {
    // A vertical tab right after a newline sits in the neighbouring byte
    // lane of the same word; it must not be miscounted.
    assert_eq!(count_newlines("\n\u{000B}"), 1);
    assert_eq!(count_newlines("\u{000B}\n\u{000B}\u{000B}\n\u{000B}aa"), 2);
    assert_eq!(count_newlines("\t\u{000B}\t\u{000B}"), 0);
}

#[test]
fn count_long_and_multibyte_text() {
    let mut text = String::new();
    let mut expected = 0;
    for i in 0..100 {
        text.push_str("line with some text in it");
        if i % 3 != 0 {
            text.push('\n');
            expected += 1;
        }
        text.push('\u{00E9}');
        text.push('\u{4E16}');
        text.push('\u{1F600}');
    }
    assert_eq!(count_newlines(&text), expected);
}

#[test]
fn count_matches_trivial_scan() {
    let samples = [
        "",
        "\n",
        "a",
        "aa\na\nbbb\nccc",
        "hello\nworld\nhi\n",
        "\n\nx\n\n",
        "no newline at all",
    ];
    for s in samples {
        assert_eq!(count_newlines(s), trivial_count(s));
    }
}
