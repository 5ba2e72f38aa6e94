use shellkit::{parse_command_with_quotes, parse_with_redirection, split_on};

fn words(v: &[&str]) -> Vec<String> {
    v.iter().map(|s| s.to_string()).collect()
}

#[test]
fn plain_words_split_at_blanks() {
    assert_eq!(parse_command_with_quotes("echo hello world"), words(&["echo", "hello", "world"]));
}

#[test]
fn runs_of_blanks_separate_like_one() {
    assert_eq!(
        parse_command_with_quotes("complete   -C    /path/to/completer    mycommand"),
        words(&["complete", "-C", "/path/to/completer", "mycommand"])
    );
    assert_eq!(parse_command_with_quotes("  a \t b  "), words(&["a", "b"]));
}

#[test]
fn tab_separates_like_space() {
    assert_eq!(parse_command_with_quotes("a\tb"), parse_command_with_quotes("a b"));
}

#[test]
fn single_quotes_keep_everything() {
    assert_eq!(
        parse_command_with_quotes("echo 'hello   world' 'a\\b' 'x\"y'"),
        words(&["echo", "hello   world", "a\\b", "x\"y"])
    );
}

#[test]
fn adjacent_quoted_parts_join() {
    assert_eq!(parse_command_with_quotes("echo 'ab''cd' x\"y\"z"), words(&["echo", "abcd", "xyz"]));
}

#[test]
fn double_quotes_and_escapes() {
    assert_eq!(
        parse_command_with_quotes("echo \"a \\\" b\" \"c\\\\d\" \"e\\$f\" \"g\\`h\" \"i\\nj\""),
        words(&["echo", "a \" b", "c\\d", "e$f", "g`h", "i\\nj"])
    );
}

#[test]
fn escaped_newline_in_double_quotes_is_dropped() {
    assert_eq!(parse_command_with_quotes("\"a\\\nb\""), words(&["ab"]));
}

#[test]
fn backslash_outside_quotes_keeps_next_char() {
    assert_eq!(parse_command_with_quotes("echo a\\ b \\'c\\'"), words(&["echo", "a b", "'c'"]));
}

#[test]
fn trailing_backslash_outside_quotes_is_dropped() {
    assert_eq!(parse_command_with_quotes("ab\\"), words(&["ab"]));
}

#[test]
fn trailing_backslash_in_open_double_quote_stays() {
    assert_eq!(parse_command_with_quotes("\"ab\\"), words(&["ab\\"]));
}

#[test]
fn empty_quotes_give_no_word() {
    assert_eq!(parse_command_with_quotes("'' \"\" x"), words(&["x"]));
    assert!(parse_command_with_quotes("").is_empty());
    assert!(parse_command_with_quotes("   ").is_empty());
}

#[test]
fn redirect_stdout_truncate_and_append() {
    let (parts, r) = parse_with_redirection("echo hi > out.txt");
    assert_eq!(parts, words(&["echo", "hi"]));
    assert_eq!(r.stdout_target, Some(("out.txt".to_string(), false)));
    assert_eq!(r.stderr_target, None);

    let (parts, r) = parse_with_redirection("echo hi 1>> log");
    assert_eq!(parts, words(&["echo", "hi"]));
    assert_eq!(r.stdout_target, Some(("log".to_string(), true)));

    let (_, r) = parse_with_redirection("echo hi >> log");
    assert_eq!(r.stdout_target, Some(("log".to_string(), true)));

    let (_, r) = parse_with_redirection("echo hi 1> log");
    assert_eq!(r.stdout_target, Some(("log".to_string(), false)));
}

#[test]
fn redirect_stderr() {
    let (parts, r) = parse_with_redirection("ls nope 2> err.txt");
    assert_eq!(parts, words(&["ls", "nope"]));
    assert_eq!(r.stderr_target, Some(("err.txt".to_string(), false)));
    assert_eq!(r.stdout_target, None);
    let (_, r) = parse_with_redirection("ls nope 2>> err.txt");
    assert_eq!(r.stderr_target, Some(("err.txt".to_string(), true)));
}

#[test]
fn last_redirection_of_a_stream_wins() {
    let (parts, r) = parse_with_redirection("echo a > x > y 2> e");
    assert_eq!(parts, words(&["echo", "a"]));
    assert_eq!(r.stdout_target, Some(("y".to_string(), false)));
    assert_eq!(r.stderr_target, Some(("e".to_string(), false)));
}

#[test]
fn operator_without_target_is_a_word() {
    let (parts, r) = parse_with_redirection("echo a >");
    assert_eq!(parts, words(&["echo", "a", ">"]));
    assert_eq!(r.stdout_target, None);
}

#[test]
fn quoted_target_name() {
    let (_, r) = parse_with_redirection("echo a > 'my file'");
    assert_eq!(r.stdout_target, Some(("my file".to_string(), false)));
}

#[test]
fn no_operator_leaves_words() {
    let (parts, r) = parse_with_redirection("cat a b");
    assert_eq!(parts, parse_command_with_quotes("cat a b"));
    assert!(r.stdout_target.is_none() && r.stderr_target.is_none());
}

#[test]
fn split_keeps_empty_pieces() {
    assert_eq!(split_on("/bin::/usr/bin", ':'), words(&["/bin", "", "/usr/bin"]));
    assert_eq!(split_on("", ':'), words(&[""]));
    assert_eq!(split_on("a:", ':'), words(&["a", ""]));
}

#[test]
fn split_then_join_gives_back() {
    let s = "x:y::z:";
    assert_eq!(split_on(s, ':').join(":"), s);
}
