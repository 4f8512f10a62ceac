use buffer::rcstring::Bound;
use buffer::rope::Rope;

fn rope_text(r: &Rope) -> String {
    let mut out = String::new();
    let mut it = r.char_iter();
    while let Some(c) = it.next() {
        out.push(c);
    }
    out
}

#[test]
fn test_concat() {
    let r1 = Rope::concat(
        &Rope::new("aaa".to_string()),
        &Rope::concat(&Rope::new("bbb".to_string()), &Rope::new("ccc".to_string())),
    );

    let mut it = r1.char_iter();
    for e in "aaabbbccc".chars() {
        assert_eq!(it.next(), Some(e));
    }
}

#[test]
fn rope_test_len() {
    let r1 = Rope::concat(
        &Rope::new("aaa".to_string()),
        &Rope::concat(&Rope::new("bbb".to_string()), &Rope::new("ccc".to_string())),
    );

    assert_eq!(r1.len(), 9);
    assert_eq!(Rope::new("".to_string()).len(), 0);
}

#[test]
fn rope_test_lenlines() {
    let r1 = Rope::concat(
        &Rope::new("aaa\n".to_string()),
        &Rope::concat(&Rope::new("b\nb\nb".to_string()), &Rope::new("ccc\n".to_string())),
    );

    assert_eq!(r1.lenlines(), 4);
    assert_eq!(Rope::new("".to_string()).lenlines(), 0);
    assert_eq!(Rope::new("\n".to_string()).lenlines(), 1);
}

#[test]
fn test_char_substr() {
    let r1 = Rope::concat(
        &Rope::new("aaa".to_string()),
        &Rope::concat(&Rope::new("bbb".to_string()), &Rope::new("ccc".to_string())),
    );

    let mut it = r1.char_substr(1, 4).char_iter();
    for e in "aabb".chars() {
        assert_eq!(it.next(), Some(e));
    }
    let mut it = r1.char_substr(0, r1.len()).char_iter();
    for e in "aaabbbccc".chars() {
        assert_eq!(it.next(), Some(e));
    }
    let mut it = r1.char_substr(4, 0).char_iter();
    assert_eq!(it.next(), None);
    let mut it = r1.char_substr(3, 6).char_iter();
    for e in "bbbccc".chars() {
        assert_eq!(it.next(), Some(e));
    }
}

#[test]
fn test_char_slice() {
    let r1 = Rope::concat(
        &Rope::new("aaa".to_string()),
        &Rope::concat(&Rope::new("bbb".to_string()), &Rope::new("ccc".to_string())),
    );

    let mut it = r1.char_slice(Bound::Included(1), Bound::Excluded(5)).char_iter();
    for e in "aabb".chars() {
        assert_eq!(it.next(), Some(e));
    }
    let mut it = r1.char_slice(Bound::Unbounded, Bound::Unbounded).char_iter();
    for e in "aaabbbccc".chars() {
        assert_eq!(it.next(), Some(e));
    }
    let mut it = r1.char_slice(Bound::Included(4), Bound::Excluded(4)).char_iter();
    assert_eq!(it.next(), None);
    let mut it = r1.char_slice(Bound::Included(3), Bound::Excluded(9)).char_iter();
    for e in "bbbccc".chars() {
        assert_eq!(it.next(), Some(e));
    }
}

#[test]
fn test_line_start() {
    let r0 = Rope::new("\nhel".to_string());
    assert_eq!(r0.line_start(0), 0);
    assert_eq!(r0.line_start(1), 1);
    let r1 = Rope::new("hello\nworld\nhi\n".to_string());
    assert_eq!(r1.line_start(0), 0);
    assert_eq!(r1.line_start(1), 6);
    assert_eq!(r1.line_start(2), 12);
    let r2 = Rope::concat(&Rope::new("hello\n".to_string()), &Rope::new("world\n".to_string()));
    assert_eq!(r2.line_start(0), 0);
    assert_eq!(r2.line_start(1), 6);

    let r3 = Rope::concat(&Rope::new("hello".to_string()), &Rope::new("\nworld\n".to_string()));
    assert_eq!(r3.line_start(0), 0);
    assert_eq!(r3.line_start(1), 6);
}

#[test]
fn test_line_substr() {
    let r1 = Rope::concat(
        &Rope::new("aa\na".to_string()),
        &Rope::concat(&Rope::new("\nbbb\n".to_string()), &Rope::new("ccc".to_string())),
    );

    let mut it = r1.line_substr(0, 4).char_iter();
    for e in "aa\na\nbbb\nccc".chars() {
        assert_eq!(it.next(), Some(e));
    }
    let mut it = r1.line_substr(1, 2).char_iter();
    for e in "a\nbbb\n".chars() {
        assert_eq!(it.next(), Some(e));
    }
    let mut it = r1.line_substr(2, 1).char_iter();
    for e in "bbb\n".chars() {
        assert_eq!(it.next(), Some(e));
    }
}

#[test]
fn test_line_slice() {
    let r1 = Rope::concat(
        &Rope::new("aa\na".to_string()),
        &Rope::concat(&Rope::new("\nbbb\n".to_string()), &Rope::new("ccc".to_string())),
    );

    let mut it = r1.line_slice(Bound::Unbounded, Bound::Unbounded).char_iter();
    for e in "aa\na\nbbb\nccc".chars() {
        assert_eq!(it.next(), Some(e));
    }
    let mut it = r1.line_slice(Bound::Included(1), Bound::Excluded(3)).char_iter();
    for e in "a\nbbb\n".chars() {
        assert_eq!(it.next(), Some(e));
    }
    let mut it = r1.line_slice(Bound::Included(2), Bound::Excluded(3)).char_iter();
    for e in "bbb\n".chars() {
        assert_eq!(it.next(), Some(e));
    }
}

#[test]
fn rope_content_equality() {
    let balanced = Rope::concat(
        &Rope::concat(&Rope::new("aa\n".to_string()), &Rope::new("bb".to_string())),
        &Rope::new("\ncc".to_string()),
    );
    let skewed = Rope::concat(
        &Rope::new("aa\n".to_string()),
        &Rope::concat(&Rope::new("bb".to_string()), &Rope::new("\ncc".to_string())),
    );
    let flat = Rope::new("aa\nbb\ncc".to_string());
    assert!(balanced == skewed);
    assert!(balanced == flat);
    assert!(balanced != Rope::new("aa\nbb\ncd".to_string()));
    assert!(balanced != Rope::new("aa\nbb\nc".to_string()));
    assert!(balanced.eq_str("aa\nbb\ncc"));
    assert!(!balanced.eq_str("aa\nbb\ncd"));
    assert!(!balanced.eq_str("aa\nbb\nc"));
}

#[test]
fn str_iter_runs() {
    let r1 = Rope::concat(
        &Rope::new("aaa".to_string()),
        &Rope::concat(&Rope::new("bbb".to_string()), &Rope::new("ccc".to_string())),
    );
    let mut it = r1.str_iter();
    assert_eq!(it.next(), Some("aaa".to_string()));
    assert_eq!(it.next(), Some("bbb".to_string()));
    assert_eq!(it.next(), Some("ccc".to_string()));
    assert_eq!(it.next(), None);
}

#[test]
fn line_iter_stops_before_last_line() {
    let r = Rope::concat(
        &Rope::new("aa\na".to_string()),
        &Rope::concat(&Rope::new("\nbbb\n".to_string()), &Rope::new("ccc".to_string())),
    );
    let mut it = r.line_iter();
    let first = it.next().expect("first line");
    assert_eq!(rope_text(&first), "aa\n");
    let second = it.next().expect("second line");
    assert_eq!(rope_text(&second), "a\n");
    let third = it.next().expect("third line");
    assert_eq!(rope_text(&third), "bbb\n");
    // The remainder after "ccc" is empty, so the final line is not yielded.
    assert!(it.next().is_none());
}

#[test]
fn line_iter_drops_final_line_even_with_trailing_newline() {
    let r = Rope::new("aa\nbb\n".to_string());
    let mut it = r.line_iter();
    let first = it.next().expect("first line");
    assert_eq!(rope_text(&first), "aa\n");
    assert!(it.next().is_none());
}
