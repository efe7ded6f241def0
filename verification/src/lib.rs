//! Turns delimiter-separated text (CSV/TSV-like) into an in-memory table and
//! renders that table as Markdown or HTML.

pub mod formatter;
pub mod html_formatter;
pub mod markdown_formatter;
pub mod options;
pub mod split_line;
pub mod table;
pub mod text;
