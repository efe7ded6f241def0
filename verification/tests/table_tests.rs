use tabela::table::Table;

fn compare(table: Table, titles: &[&str], expected: &[&[&str]]) {
    if let Some(tit) = table.titles() {
        let titles: Vec<String> = titles.iter().map(|s| s.to_string()).collect();
        assert_eq!(*tit, titles);
    }

    let mut exp_idx = 0;
    for row in table.rows().iter() {
        let want: Vec<String> = expected[exp_idx].iter().map(|s| s.to_string()).collect();
        assert_eq!(*row, want);
        exp_idx += 1;
    }

    assert_eq!(exp_idx, expected.len());
}

#[test]
fn table_happy_case() {
    let t = Table::with_text_and_separator("t1,t2,t3\na1,a2,a3\nb1,b2,b3", ',', true, true);

    compare(
        t,
        &["t1", "t2", "t3"],
        &[&["a1", "a2", "a3"], &["b1", "b2", "b3"]],
    );
}

#[test]
fn table_happy_case_no_titles() {
    let t = Table::with_text_and_separator("t1,t2,t3\na1,a2,a3\nb1,b2,b3", ',', false, true);

    compare(
        t,
        &[],
        &[
            &["t1", "t2", "t3"],
            &["a1", "a2", "a3"],
            &["b1", "b2", "b3"],
        ],
    );
}

#[test]
fn table_empty_field() {
    let t = Table::with_text_and_separator("t1,t2,t3\na1,,a3\nb1,b2,b3", ',', false, true);

    compare(
        t,
        &[],
        &[&["t1", "t2", "t3"], &["a1", "", "a3"], &["b1", "b2", "b3"]],
    );
}

#[test]
fn table_no_titles_when_requested_but_text_empty() {
    let t = Table::with_text_and_separator("", ',', true, true);
    assert!(t.titles().is_none());
    assert_eq!(t.rows().len(), 0);
}

#[test]
fn table_empty_lines_make_neither_header_nor_row() {
    let t = Table::with_text_and_separator("\n\na,b\n\nc\n", ',', true, true);
    let tit = t.titles().expect("first non-empty line is the header");
    let head: Vec<String> = vec!["a".to_string(), "b".to_string()];
    assert_eq!(*tit, head);
    let rows = t.rows();
    assert_eq!(rows.len(), 1);
    let row: Vec<String> = vec!["c".to_string()];
    assert_eq!(rows[0], row);
}

#[test]
fn table_empty_lines_without_header() {
    let t = Table::with_text_and_separator("\n\na,b\n\nc\n", ',', false, true);
    assert!(t.titles().is_none());
    assert_eq!(t.rows().len(), 2);
}

#[test]
fn table_rows_keep_differing_widths() {
    let t = Table::with_text_and_separator("t1,t2\na1\nb1,b2,b3", ',', true, true);
    let tit = t.titles().expect("header expected");
    assert_eq!(tit.len(), 2);
    let rows = t.rows();
    assert_eq!(rows[0].len(), 1);
    assert_eq!(rows[1].len(), 3);
}

#[test]
fn table_unterminated_quote_swallows_separator() {
    let t = Table::with_text_and_separator("Ciao,\" Hello,Hola", ',', false, false);
    assert!(t.titles().is_none());
    let rows = t.rows();
    assert_eq!(rows.len(), 1);
    let row: Vec<String> = vec!["Ciao".to_string(), "\" Hello,Hola".to_string()];
    assert_eq!(rows[0], row);
}
