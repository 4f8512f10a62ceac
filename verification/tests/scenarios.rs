use buffer::Buffer;
use buffer::rcstring::Bound;
use buffer::rope::Rope;

fn rope_text(r: &Rope) -> String {
    let mut out = String::new();
    let mut it = r.char_iter();
    while let Some(c) = it.next() {
        out.push(c);
    }
    out
}

#[test]
fn length_and_line_count_additivity() {
    let a = Rope::new("aa\na".to_string());
    let b = Rope::new("\nbbb\n".to_string());
    let joined = Rope::concat(&a, &b);
    assert_eq!(joined.len(), a.len() + b.len());
    assert_eq!(joined.lenlines(), a.lenlines() + b.lenlines());
}

#[test]
fn slice_iterate_round_trip() {
    let r = Rope::concat(
        &Rope::new("aa\na".to_string()),
        &Rope::concat(&Rope::new("\nbbb\n".to_string()), &Rope::new("ccc".to_string())),
    );
    let whole = rope_text(&r);
    for start in 0..whole.chars().count() {
        let n = 3.min(whole.chars().count() - start);
        let expected: String = whole.chars().skip(start).take(n).collect();
        assert_eq!(rope_text(&r.char_substr(start, n)), expected);
    }
}

#[test]
fn concat_associativity_of_content() {
    let a = Rope::new("aa\n".to_string());
    let b = Rope::new("bb".to_string());
    let c = Rope::new("\ncc".to_string());
    let left_nested = Rope::concat(&Rope::concat(&a, &b), &c);
    let right_nested = Rope::concat(&a, &Rope::concat(&b, &c));
    assert_eq!(rope_text(&left_nested), rope_text(&right_nested));
    assert_eq!(left_nested.len(), right_nested.len());
    assert_eq!(left_nested.lenlines(), right_nested.lenlines());
}

#[test]
fn clamping_never_panics() {
    let r = Rope::concat(&Rope::new("aaa".to_string()), &Rope::new("bbb".to_string()));
    assert_eq!(r.char_substr(r.len(), 17).len(), 0);
    assert_eq!(r.char_substr(r.len(), usize::MAX).len(), 0);
    assert_eq!(r.char_substr(0, usize::MAX).len(), r.len());
    assert_eq!(r.char_substr(1000, 1000).len(), 0);
    assert_eq!(rope_text(&r.char_substr(0, usize::MAX)), "aaabbb");
}

#[test]
fn line_addressing_consistency() {
    let r = Rope::new("hello\nworld\nhi\n".to_string());
    assert_eq!(r.line_start(0), 0);
    assert_eq!(r.line_start(1), 6);
    assert_eq!(r.line_start(2), 12);
    let empty = Rope::new("".to_string());
    assert_eq!(empty.line_start(0), 0);
}

#[test]
fn end_to_end_scenario() {
    let r = Rope::concat(
        &Rope::new("aa\na".to_string()),
        &Rope::concat(&Rope::new("\nbbb\n".to_string()), &Rope::new("ccc".to_string())),
    );
    assert_eq!(r.len(), 12);
    assert_eq!(r.lenlines(), 3);
    assert_eq!(rope_text(&r.line_slice(Bound::Included(1), Bound::Included(3))), "a\nbbb\n");
    assert_eq!(rope_text(&r.line_slice(Bound::Included(2), Bound::Excluded(3))), "bbb\n");
}

#[test]
fn buffer_tracks_file_and_snapshot() {
    let mut b = Buffer::new(None);
    assert!(b.reload_target().is_none());
    b.load_text("notes.txt".to_string(), "hello\nworld\n".to_string());
    assert_eq!(b.reload_target(), Some("notes.txt".to_string()));

    let named = Buffer::new(Some("draft.txt".to_string()));
    assert_eq!(named.reload_target(), Some("draft.txt".to_string()));
}
