use padify::launch::{
    is_confirmation, needs_new_window, next_window_index, plan_session, preview_line,
    window_number,
};

#[test]
fn next_index_after_largest() {
    assert_eq!(next_window_index("1\n2\n7\n3\n"), 8);
    assert_eq!(next_window_index(" 4 \r\nfoo\n+9\n"), 10);
    assert_eq!(next_window_index(""), 1);
    assert_eq!(next_window_index("x\n-1\n"), 1);
    assert_eq!(next_window_index("4294967295\n"), u32::MAX);
    assert_eq!(next_window_index("4294967296\n5"), 6);
    assert_eq!(next_window_index("0"), 1);
}

#[test]
fn confirmation_answers() {
    for yes in ["", "\n", "y", "Y\n", " yes ", "YeS"] {
        assert!(is_confirmation(yes), "{:?}", yes);
    }
    for no in ["n", "no", "yess", "ye", "y y"] {
        assert!(!is_confirmation(no), "{:?}", no);
    }
}

#[test]
fn session_plans() {
    let fresh = plan_session(false, false);
    assert!(fresh.create_session && !fresh.kill_existing && !fresh.reuse_existing);
    let replaced = plan_session(true, true);
    assert!(replaced.create_session && replaced.kill_existing && !replaced.reuse_existing);
    let reused = plan_session(true, false);
    assert!(!reused.create_session && !reused.kill_existing && reused.reuse_existing);
    assert!(!needs_new_window(fresh, 0));
    assert!(needs_new_window(fresh, 1));
    assert!(needs_new_window(reused, 0));
    assert_eq!(window_number(1, 2), Some(3));
    assert_eq!(window_number(u32::MAX, 1), None);
    assert_eq!(window_number(u32::MAX - 1, 1), Some(u32::MAX));
}

#[test]
fn prompt_previews() {
    assert_eq!(preview_line("first  \nsecond"), "first \u{2026}");
    assert_eq!(preview_line("only\n   \nthird"), "only");
    assert_eq!(preview_line(""), "<empty>");
    assert_eq!(preview_line("   \nnext"), " \u{2026}");
    assert_eq!(preview_line("\n"), "<empty>");
}
