use tabela::formatter::Formatter;
use tabela::html_formatter::HtmlFormatter;
use tabela::markdown_formatter::MarkdownFormatter;
use tabela::options::format_text;
use tabela::options::parse_format_option;
use tabela::options::parse_separator_option;
use tabela::options::render;
use tabela::options::OutputFormat;
use tabela::table::Table;

#[test]
fn html_escapes() {
    assert_eq!(HtmlFormatter::escape("\"<>&\'"), "&quot;&lt;&gt;&amp;&#39;")
}

#[test]
fn html_unnecessary_escapes() {
    let s = HtmlFormatter::escape("dfsfdsdf\u{f9}\u{f9}**\u{f9}\u{f9}\u{a7}");
    assert_eq!(s, "dfsfdsdf\u{f9}\u{f9}**\u{f9}\u{f9}\u{a7}");
}

#[test]
fn html_escape_each_character() {
    assert_eq!(HtmlFormatter::escape("&"), "&amp;");
    assert_eq!(HtmlFormatter::escape("\""), "&quot;");
    assert_eq!(HtmlFormatter::escape("<"), "&lt;");
    assert_eq!(HtmlFormatter::escape(">"), "&gt;");
    assert_eq!(HtmlFormatter::escape("'"), "&#39;");
    assert_eq!(HtmlFormatter::escape("a<b&c"), "a&lt;b&amp;c");
}

#[test]
fn html_table_end_to_end() {
    let t = Table::with_text_and_separator("t1,t2\n a1 ,<x>", ',', true, true);
    let out = HtmlFormatter.format(t);
    assert_eq!(
        out,
        "<table>\n\t<tr>\n\t\t<th>t1</th>\n\t\t<th>t2</th>\n\t</tr>\n\t<tr>\n\t\t<td>a1</td>\n\t\t<td>&lt;x&gt;</td>\n\t</tr>\n</table>\n"
    );
}

#[test]
fn html_table_without_header() {
    let t = Table::with_text_and_separator("a,b", ',', false, true);
    let out = HtmlFormatter.format(t);
    assert_eq!(
        out,
        "<table>\n\t<tr>\n\t\t<td>a</td>\n\t\t<td>b</td>\n\t</tr>\n</table>\n"
    );
}

#[test]
fn markdown_dash_segment_lengths() {
    let t = Table::with_text_and_separator("t1,t22\na1,a", ',', true, true);
    let out = MarkdownFormatter.format(t);
    let lines: Vec<&str> = out.lines().collect();
    assert_eq!(lines.len(), 3);
    let segments: Vec<&str> = lines[1].split('|').collect();
    assert_eq!(segments.len(), 2);
    assert_eq!(segments[0].len(), 2 + 2);
    assert_eq!(segments[1].len(), 3 + 2);
    assert!(segments.iter().all(|s| s.chars().all(|c| c == '-')));
}

#[test]
fn markdown_table_end_to_end() {
    let t = Table::with_text_and_separator("t1,t22\na1,a", ',', true, true);
    let out = MarkdownFormatter.format(t);
    assert_eq!(out, " t1 | t22 \n----|-----\n a1 | a   \n");
}

#[test]
fn markdown_without_header() {
    let t = Table::with_text_and_separator("aa,b", ',', false, true);
    let out = MarkdownFormatter.format(t);
    assert_eq!(out, " aa | b \n");
}

#[test]
fn markdown_widths_use_character_count_not_bytes() {
    // Two-byte characters: the column is as wide as the character count.
    let t = Table::with_text_and_separator("\u{e9}\u{e9}\u{e9},b\nx,y", ',', true, true);
    let out = MarkdownFormatter.format(t);
    assert_eq!(out, " \u{e9}\u{e9}\u{e9} | b \n-----|---\n x   | y \n");
}

#[test]
fn markdown_long_row_extends_width_table() {
    // The second row introduces a third column; the header row is padded,
    // every field prints in full with at least one trailing space.
    let t = Table::with_text_and_separator("t1\na1,b1,c1", ',', true, true);
    let out = MarkdownFormatter.format(t);
    assert_eq!(out, " t1 |    |    \n----|----|----\n a1 | b1 | c1 \n");
}

#[test]
fn markdown_cells_are_trimmed_before_measuring() {
    let t = Table::with_text_and_separator("  a  ,b\nc,  d  ", ',', false, true);
    let out = MarkdownFormatter.format(t);
    assert_eq!(out, " a | b \n c | d \n");
}

#[test]
fn separator_options_map_to_characters() {
    assert_eq!(parse_separator_option(0), '\t');
    assert_eq!(parse_separator_option(1), ',');
    assert_eq!(parse_separator_option(2), ';');
    assert_eq!(parse_separator_option(3), '\t');
    assert_eq!(parse_separator_option(99), '\t');
}

#[test]
fn format_options_map_to_formats() {
    assert_eq!(parse_format_option(0), OutputFormat::Markdown);
    assert_eq!(parse_format_option(1), OutputFormat::Html);
    assert_eq!(parse_format_option(2), OutputFormat::Markdown);
}

#[test]
fn render_dispatches_on_format() {
    let t = Table::with_text_and_separator("a;b", ';', false, true);
    assert_eq!(render(t, OutputFormat::Markdown), " a | b \n");
    let t = Table::with_text_and_separator("a;b", ';', false, true);
    assert_eq!(
        render(t, OutputFormat::Html),
        "<table>\n\t<tr>\n\t\t<td>a</td>\n\t\t<td>b</td>\n\t</tr>\n</table>\n"
    );
}

#[test]
fn format_text_runs_whole_pipeline() {
    let out = format_text(
        "t1,t2,t3\na1,a2,a3\nb1,b2,b3",
        ',',
        true,
        true,
        OutputFormat::Markdown,
    );
    assert_eq!(
        out,
        " t1 | t2 | t3 \n----|----|----\n a1 | a2 | a3 \n b1 | b2 | b3 \n"
    );
}
