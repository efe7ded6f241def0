use tabela::split_line::split_line;

fn collect(line: &str, separator: char, remove_quotes: bool) -> Vec<String> {
    let mut split = split_line(line, separator, remove_quotes);
    split.collect_fields()
}

fn test(line: &str, remove_quotes: bool, expected: &[&str]) {
    let split = collect(line, ',', remove_quotes);
    let expected: Vec<String> = expected.iter().map(|s| s.to_string()).collect();
    assert_eq!(split, expected);
}

#[test]
fn line_split_trivial() {
    test("Ciao, Hello,Hola", false, &["Ciao", " Hello", "Hola"]);
}

#[test]
fn line_split_quoted() {
    test(
        "Ciao,\" Hello\",Hola",
        false,
        &["Ciao", "\" Hello\"", "Hola"],
    );
}

#[test]
fn line_split_quoted_remove() {
    test("Ciao,\" Hello\",Hola", true, &["Ciao", " Hello", "Hola"]);
}

#[test]
fn line_split_quoted_truncated() {
    test("Ciao,\" Hello,Hola", false, &["Ciao", "\" Hello,Hola"]);
}

#[test]
fn line_split_quoted_separator() {
    test(
        "Ciao,\" He,llo\",Hola",
        false,
        &["Ciao", "\" He,llo\"", "Hola"],
    );
}

#[test]
fn line_split_quoted_separator_remove() {
    test("Ciao,\" He,llo\",Hola", true, &["Ciao", " He,llo", "Hola"]);
}

#[test]
fn line_split_quoted_quotes() {
    test(
        "Ciao,\" He\"\"llo\",Hola",
        false,
        &["Ciao", "\" He\"llo\"", "Hola"],
    );
}

#[test]
fn line_split_quoted_quotes_remove() {
    test(
        "Ciao,\" He\"\"llo\",Hola",
        true,
        &["Ciao", " He\"llo", "Hola"],
    );
}

#[test]
fn line_split_quoted_last_quotes() {
    test(
        "Ciao,\" He\"\"llo\",\"Hola\"",
        false,
        &["Ciao", "\" He\"llo\"", "\"Hola\""],
    );
}

#[test]
fn line_split_quoted_last_quotes_remove() {
    test(
        "Ciao,\" He\"\"llo\",\"Hola\"",
        true,
        &["Ciao", " He\"llo", "Hola"],
    );
}

#[test]
fn line_split_mixed_quotes() {
    test(
        "Ciao,' He\"\"llo',Hola",
        false,
        &["Ciao", "' He\"\"llo'", "Hola"],
    );
}

#[test]
fn line_split_mixed_quotes_remove() {
    test(
        "Ciao,' He\"\"llo',Hola",
        true,
        &["Ciao", " He\"\"llo", "Hola"],
    );
}

#[test]
fn line_split_quoted_invalid() {
    test(
        "Ciao,\" He\"llo\",Hola",
        false,
        &["Ciao", "\" He\"llo\"", "Hola"],
    );
}

#[test]
fn line_split_quoted_invalid_remove() {
    test(
        "Ciao,\" He\"llo\",Hola",
        true,
        &["Ciao", " He\"llo", "Hola"],
    );
}

#[test]
fn line_split_matches_naive_split_without_quotes() {
    let line = "one,two,,four";
    let naive: Vec<String> = line.split(',').map(|s| s.to_string()).collect();
    assert_eq!(collect(line, ',', false), naive);
    assert_eq!(collect(line, ',', true), naive);
}

#[test]
fn line_split_empty_field_between_separators() {
    test("a1,,a3", true, &["a1", "", "a3"]);
}

#[test]
fn line_split_leading_separator() {
    test(",x", false, &["", "x"]);
}

#[test]
fn line_split_quote_doubling_round_trip() {
    test("\"a\"\"b\"", true, &["a\"b"]);
}

#[test]
fn line_split_adjacency_rule() {
    test("\" He\"llo\",Hola", true, &[" He\"llo", "Hola"]);
}

#[test]
fn line_split_unterminated_quote() {
    test("\"abc,def", true, &["abc,def"]);
    test("\"abc,def", false, &["\"abc,def"]);
}

#[test]
fn line_split_tab_separator() {
    let split = collect("a\tb\tc", '\t', true);
    let expected: Vec<String> = vec!["a".to_string(), "b".to_string(), "c".to_string()];
    assert_eq!(split, expected);
}

#[test]
fn line_split_restartable_one_field_at_a_time() {
    let mut split = split_line("x,\"y\",z", ',', true);
    assert_eq!(split.next().unwrap(), "x");
    assert_eq!(split.next().unwrap(), "y");
    assert_eq!(split.next().unwrap(), "z");
    assert!(split.next().is_none());
    assert!(split.next().is_none());
}
