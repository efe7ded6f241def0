//! The caller-facing selection logic: mapping a separator or output-format
//! choice (an index into the offered options) to the separator character or
//! renderer, falling back to the documented default — tab and Markdown —
//! when the index is out of range.

use vstd::prelude::*;

use crate::formatter::Formatter;
use crate::html_formatter::html_render;
use crate::html_formatter::HtmlFormatter;
use crate::markdown_formatter::md_render;
use crate::markdown_formatter::MarkdownFormatter;
use crate::table::spec_table_head;
use crate::table::spec_table_rows;
use crate::table::Table;

verus! {

/// The two output formats a table can be rendered to.
#[derive(Clone, Copy, PartialEq, Eq, Structural, Debug)]
pub enum OutputFormat {
    Markdown,
    Html,
}

/// The separator character offered at option index `i`: tab, comma or
/// semicolon, with tab the default for an out-of-range index.
pub open spec fn spec_separator_option(i: int) -> char {
    if i == 1 {
        ','
    } else if i == 2 {
        ';'
    } else {
        '\t'
    }
}

/// The output format offered at option index `i`: Markdown or HTML, with
/// Markdown the default for an out-of-range index.
pub open spec fn spec_format_option(i: int) -> OutputFormat {
    if i == 1 {
        OutputFormat::Html
    } else {
        OutputFormat::Markdown
    }
}

/// Maps a separator choice to its character; an invalid choice falls back
/// to the default separator, tab.
pub fn parse_separator_option(separator_option: usize) -> (c: char)
    ensures
        c == spec_separator_option(separator_option as int),
{
    if separator_option == 1 {
        ','
    } else if separator_option == 2 {
        ';'
    } else {
        '\t'
    }
}

/// Maps a format choice to its output format; an invalid choice falls back
/// to the default format, Markdown.
pub fn parse_format_option(format_option: usize) -> (f: OutputFormat)
    ensures
        f == spec_format_option(format_option as int),
{
    if format_option == 1 {
        OutputFormat::Html
    } else {
        OutputFormat::Markdown
    }
}

/// Renders `table` in the chosen output format.
pub fn render(table: Table, output_format: OutputFormat) -> (r: String)
    ensures
        output_format is Markdown ==> r@ == md_render(table.head_view(), table.rows_view()),
        output_format is Html ==> r@ == html_render(table.head_view(), table.rows_view()),
{
    match output_format {
        OutputFormat::Markdown => MarkdownFormatter.format(table),
        OutputFormat::Html => HtmlFormatter.format(table),
    }
}

/// The whole pipeline: builds the table of `text` and renders it in the
/// chosen output format.
pub fn format_text(
    text: &str,
    separator: char,
    has_head: bool,
    remove_quotes: bool,
    output_format: OutputFormat,
) -> (r: String)
    ensures
        output_format is Markdown ==> r@ == md_render(
            spec_table_head(text@, separator, has_head, remove_quotes),
            spec_table_rows(text@, separator, has_head, remove_quotes),
        ),
        output_format is Html ==> r@ == html_render(
            spec_table_head(text@, separator, has_head, remove_quotes),
            spec_table_rows(text@, separator, has_head, remove_quotes),
        ),
{
    let table = Table::with_text_and_separator(text, separator, has_head, remove_quotes);
    render(table, output_format)
}

} // verus!
