use flyo::text::tokenize;

fn toks(line: &str) -> Vec<String> {
    let chars: Vec<char> = line.chars().collect();
    tokenize(&chars).into_iter().map(|t| t.into_iter().collect()).collect()
}

#[test]
fn tokens_are_non_empty_and_quote_free() {
    assert_eq!(toks(r#"Webd.Root "D:\my share""#), vec!["Webd.Root", r"D:\my share"]);
    assert_eq!(toks("  a \t b  c "), vec!["a", "b", "c"]);
    assert_eq!(toks(r#"x "" y"#), vec!["x", "y"]);
    let line = "Webd.User rlu  alice secret";
    assert_eq!(toks(line), line.split_whitespace().collect::<Vec<_>>());
}

#[test]
fn unquoted_lines_split_like_split_whitespace() {
    for line in ["", "   ", "a", " a  b\tc\u{a0}d ", "Webd.Listen 8080", "x\u{2003}y\n"] {
        assert_eq!(toks(line), line.split_whitespace().collect::<Vec<_>>(), "{line:?}");
    }
}
