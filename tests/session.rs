use padify::session::{
    accept_split, build_prompt, build_shell_command, contains_item_token, normalize_harness_cmd,
    replace_item_token, shell_escape, SessionError,
};

fn words(ws: &[&str]) -> Vec<String> {
    ws.iter().map(|s| s.to_string()).collect()
}

#[test]
fn item_token_detection() {
    assert!(contains_item_token(&words(&["agent", "-p", "{item}"])));
    assert!(contains_item_token(&words(&["run", "--prompt={item}!"])));
    assert!(!contains_item_token(&words(&["agent", "{ item}"])));
    assert!(!contains_item_token(&words(&[])));
}

#[test]
fn item_token_replacement() {
    assert_eq!(replace_item_token("{item}", "fix bug"), "fix bug");
    assert_eq!(replace_item_token("a{item}b{item}", "X"), "aXbX");
    assert_eq!(replace_item_token("{{item}}", "Y"), "{Y}");
    assert_eq!(replace_item_token("plain", "Z"), "plain");
}

#[test]
fn shell_quoting() {
    assert_eq!(shell_escape(""), "''");
    assert_eq!(shell_escape("plain-word_1"), "plain-word_1");
    assert_eq!(shell_escape("two words"), "'two words'");
    assert_eq!(shell_escape("it's"), "'it'\"'\"'s'");
    assert_eq!(shell_escape("$HOME"), "'$HOME'");
}

#[test]
fn shell_command_building() {
    let cmd = words(&["agent", "-p", "{item}"]);
    assert_eq!(build_shell_command(&cmd, "do it"), Ok("agent -p 'do it'".to_string()));
    assert_eq!(
        build_shell_command(&words(&["agent"]), "x"),
        Err(SessionError::MissingItemToken)
    );
}

#[test]
fn prompt_building() {
    assert_eq!(build_prompt("- [ ] task  \n", None, None), "- [ ] task");
    assert_eq!(
        build_prompt("task", Some("Context: \n"), Some("\n  Be brief")),
        "Context:\n\ntask\n\nBe brief"
    );
    assert_eq!(build_prompt("task", Some("   "), Some("")), "task");
    assert_eq!(build_prompt("task\u{3000}", None, Some("\u{a0}end")), "task\n\nend");
}

#[test]
fn harness_command_normalization() {
    assert_eq!(normalize_harness_cmd(&words(&[])), Err(SessionError::EmptyCommand));
    assert_eq!(
        normalize_harness_cmd(&words(&["agent -p {item}"])),
        Ok(words(&["agent", "-p", "{item}"]))
    );
    assert_eq!(
        normalize_harness_cmd(&words(&[" agent \"a b\" "])),
        Ok(words(&["agent", "a b"]))
    );
    assert_eq!(
        normalize_harness_cmd(&words(&["agent 'unclosed"])),
        Err(SessionError::UnparsableCommand)
    );
    assert_eq!(
        normalize_harness_cmd(&words(&["  # only a comment"])),
        Err(SessionError::EmptyCommand)
    );
    assert_eq!(normalize_harness_cmd(&words(&["  agent  "])), Ok(words(&["  agent  "])));
    assert_eq!(normalize_harness_cmd(&words(&["a", "b c"])), Ok(words(&["a", "b c"])));
    assert_eq!(accept_split(None), Err(SessionError::UnparsableCommand));
    assert_eq!(accept_split(Some(vec![])), Err(SessionError::EmptyCommand));
    assert_eq!(accept_split(Some(words(&["x"]))), Ok(words(&["x"])));
}
