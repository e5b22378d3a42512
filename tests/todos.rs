use padify::todos::{extract_unchecked_todos, split_lines};

fn chars(s: &str) -> Vec<char> {
    s.chars().collect()
}

#[test]
fn lines_split_like_str_lines() {
    for text in ["", "a", "a\n", "a\r\nb", "\n", "a\n\nb\n", "x\r", "one\ntwo\r\n"] {
        let expected: Vec<Vec<char>> = text.lines().map(chars).collect();
        assert_eq!(split_lines(&chars(text)), expected, "text {:?}", text);
    }
}

#[test]
fn unchecked_items_with_continuations() {
    let doc = "# Plan\n- [ ] first task\n  more detail\n\n- [x] done\n* [ ] second\n+ [  ] third\n-[ ] not an item\n";
    assert_eq!(
        extract_unchecked_todos(doc),
        vec![
            "- [ ] first task\n  more detail\n".to_string(),
            "* [ ] second".to_string(),
            "+ [  ] third".to_string(),
        ]
    );
}

#[test]
fn nested_items_join_their_parent() {
    let doc = "  - [ ] parent\n    - [ ] child\n  - [ ] sibling";
    assert_eq!(
        extract_unchecked_todos(doc),
        vec![
            "  - [ ] parent\n    - [ ] child".to_string(),
            "  - [ ] sibling".to_string(),
        ]
    );
}

#[test]
fn no_items() {
    assert!(extract_unchecked_todos("").is_empty());
    assert!(extract_unchecked_todos("- [x] done\ntext").is_empty());
}
