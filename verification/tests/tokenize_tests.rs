use shell::tokenize::tokenize;

fn toks(s: &str) -> Vec<String> {
    tokenize(s)
}

#[test]
fn splits_on_whitespace() {
    assert_eq!(toks("echo hello   world"), vec!["echo", "hello", "world"]);
}

#[test]
fn empty_and_blank_lines_give_no_arguments() {
    assert!(toks("").is_empty());
    assert!(toks("   \t ").is_empty());
}

#[test]
fn single_quotes_keep_spaces() {
    assert_eq!(toks("echo 'hello   world'"), vec!["echo", "hello   world"]);
}

#[test]
fn adjacent_segments_concatenate() {
    assert_eq!(toks("echo a'b'\"c\"d"), vec!["echo", "abcd"]);
}

#[test]
fn empty_quotes_contribute_nothing() {
    assert_eq!(toks("echo '' \"\" x''y"), vec!["echo", "xy"]);
}

#[test]
fn other_quote_is_literal_inside_quotes() {
    assert_eq!(toks("echo \"it's\" 'say \"hi\"'"), vec!["echo", "it's", "say \"hi\""]);
}

#[test]
fn double_quote_escapes() {
    assert_eq!(toks(r#"echo "a\"b" "c\\d" "e\nf""#), vec!["echo", "a\"b", "c\\d", "e\\nf"]);
}

#[test]
fn backslash_outside_quotes() {
    assert_eq!(toks(r"echo a\ b \'x\' c\\d"), vec!["echo", "a b", "'x'", "c\\d"]);
}

#[test]
fn trailing_backslash_is_dropped() {
    assert_eq!(toks("abc\\"), vec!["abc"]);
}

#[test]
fn single_quotes_keep_backslashes() {
    assert_eq!(toks(r"'a\b'"), vec![r"a\b"]);
}

#[test]
fn unicode_whitespace_separates() {
    assert_eq!(toks("a\u{00a0}b\u{3000}c"), vec!["a", "b", "c"]);
}

#[test]
fn space_splits_arguments() {
    let mut joined = toks("cat  -n");
    joined.extend(toks("'my file' x\\ y"));
    assert_eq!(toks("cat  -n 'my file' x\\ y"), joined);
}
