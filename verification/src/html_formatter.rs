//! The HTML renderer: one `<table>` element, a `<th>` row for the header
//! when present, a `<td>` row per data row, every cell trimmed and
//! HTML-escaped.

use vstd::prelude::*;

use crate::formatter::Formatter;
use crate::table::Table;
use crate::text::trim_spec;
use crate::text::trim_str;
use crate::text::push_char;

verus! {

/// The five characters that HTML escaping replaces.
pub open spec fn needs_escape(c: char) -> bool {
    c == '&' || c == '"' || c == '<' || c == '>' || c == '\''
}

/// The replacement text for one character: its character entity for the
/// five escaped characters, the character itself for every other.
pub open spec fn spec_escape_char(c: char) -> Seq<char> {
    if c == '&' {
        "&amp;"@
    } else if c == '"' {
        "&quot;"@
    } else if c == '<' {
        "&lt;"@
    } else if c == '>' {
        "&gt;"@
    } else if c == '\'' {
        "&#39;"@
    } else {
        seq![c]
    }
}

/// `s` with every escaped character replaced by its character entity.
pub open spec fn spec_escape(s: Seq<char>) -> Seq<char>
    decreases s.len(),
{
    if s.len() == 0 {
        Seq::empty()
    } else {
        spec_escape(s.drop_last()) + spec_escape_char(s.last())
    }
}

proof fn lemma_escape_len(s: Seq<char>)
    ensures
        spec_escape(s).len() >= s.len(),
        (exists|i: int| 0 <= i < s.len() && needs_escape(s[i])) ==> spec_escape(s).len()
            > s.len(),
    decreases s.len(),
{
    if s.len() > 0 {
        lemma_escape_len(s.drop_last());
        reveal_strlit("&amp;");
        reveal_strlit("&quot;");
        reveal_strlit("&lt;");
        reveal_strlit("&gt;");
        reveal_strlit("&#39;");
        if exists|i: int| 0 <= i < s.len() && needs_escape(s[i]) {
            let i = choose|i: int| 0 <= i < s.len() && needs_escape(s[i]);
            if i < s.len() - 1 {
                assert(s.drop_last()[i] == s[i]);
            }
        }
    }
}

/// Escaping changes nothing on a string that holds none of the five escaped
/// characters.
pub proof fn lemma_escape_unchanged(s: Seq<char>)
    requires
        forall|i: int| 0 <= i < s.len() ==> !needs_escape(s[i]),
    ensures
        spec_escape(s) == s,
    decreases s.len(),
{
    if s.len() > 0 {
        assert(forall|i: int|
            0 <= i < s.drop_last().len() ==> s.drop_last()[i] == s[i]);
        lemma_escape_unchanged(s.drop_last());
        assert(!needs_escape(s.last()));
        assert(spec_escape_char(s.last()) == seq![s.last()]);
        assert(spec_escape(s.drop_last()) + seq![s.last()] =~= s);
    }
}

/// Escaping changes every string that holds one of the five escaped
/// characters.
pub proof fn lemma_escape_changes(s: Seq<char>)
    requires
        exists|i: int| 0 <= i < s.len() && needs_escape(s[i]),
    ensures
        spec_escape(s) != s,
{
    lemma_escape_len(s);
}

/// One rendered cell: the trimmed, escaped field between an opening and a
/// closing tag.
pub open spec fn html_cell(cell: Seq<char>, tag: Seq<char>) -> Seq<char> {
    "\t\t<"@ + tag + ">"@ + spec_escape(trim_spec(cell)) + "</"@ + tag + ">\n"@
}

/// The rendered cells of one row, in order.
pub open spec fn html_cells(row: Seq<Seq<char>>, tag: Seq<char>) -> Seq<char>
    decreases row.len(),
{
    if row.len() == 0 {
        Seq::empty()
    } else {
        html_cells(row.drop_last(), tag) + html_cell(row.last(), tag)
    }
}

/// One rendered row: its cells between `<tr>` markers.
pub open spec fn html_row(row: Seq<Seq<char>>, tag: Seq<char>) -> Seq<char> {
    "\t<tr>\n"@ + html_cells(row, tag) + "\t</tr>\n"@
}

/// The rendered data rows, in order.
pub open spec fn html_rows_cat(rows: Seq<Seq<Seq<char>>>) -> Seq<char>
    decreases rows.len(),
{
    if rows.len() == 0 {
        Seq::empty()
    } else {
        html_rows_cat(rows.drop_last()) + html_row(rows.last(), "td"@)
    }
}

/// The whole rendered table: a header row of `<th>` cells when a header is
/// present, then one row of `<td>` cells per data row.
pub open spec fn html_render(head: Seq<Seq<char>>, rows: Seq<Seq<Seq<char>>>) -> Seq<char> {
    "<table>\n"@ + (if head.len() > 0 {
        html_row(head, "th"@)
    } else {
        Seq::empty()
    }) + html_rows_cat(rows) + "</table>\n"@
}

/// Renders a table as one HTML `<table>` element.
pub struct HtmlFormatter;

impl HtmlFormatter {
    /// HTML-escapes `s`: `&`, `"`, `<`, `>` and `'` become character
    /// entities; a string containing none of them is returned unchanged.
    pub fn escape(s: &str) -> (r: String)
        ensures
            r@ == spec_escape(s@),
    {
        let n = s.unicode_len();
        let mut needs_escaping = false;
        let mut i: usize = 0;
        while i < n
            invariant
                i <= n,
                n == s@.len(),
                needs_escaping == exists|j: int| 0 <= j < i && needs_escape(s@[j]),
            decreases n - i,
        {
            let c = s.get_char(i);
            if c == '"' || c == '\'' || c == '&' || c == '<' || c == '>' {
                needs_escaping = true;
            }
            i = i + 1;
        }
        if needs_escaping {
            let mut res = String::new();
            let mut i: usize = 0;
            proof {
                assert(res@ =~= spec_escape(s@.take(0)));
            }
            while i < n
                invariant
                    i <= n,
                    n == s@.len(),
                    res@ == spec_escape(s@.take(i as int)),
                decreases n - i,
            {
                let ghost res0 = res@;
                let c = s.get_char(i);
                if c == '&' {
                    res.append("&amp;");
                } else if c == '"' {
                    res.append("&quot;");
                } else if c == '<' {
                    res.append("&lt;");
                } else if c == '>' {
                    res.append("&gt;");
                } else if c == '\'' {
                    res.append("&#39;");
                } else {
                    push_char(&mut res, c);
                }
                proof {
                    assert(s@.take(i + 1).drop_last() =~= s@.take(i as int));
                    assert(s@.take(i + 1).last() == s@[i as int]);
                    assert(res@ =~= spec_escape(s@.take(i + 1)));
                }
                i = i + 1;
            }
            proof {
                assert(s@.take(n as int) =~= s@);
            }
            res
        } else {
            proof {
                lemma_escape_unchanged(s@);
            }
            s.to_owned()
        }
    }

    /// Appends one rendered row to `result`: each cell trimmed, escaped and
    /// wrapped in `tag` elements, between `<tr>` markers.
    pub fn format_row(result: &mut String, row: &Vec<String>, tag: &str)
        ensures
            final(result)@ == old(result)@ + html_row(row.deep_view(), tag@),
    {
        let ghost base = old(result)@ + "\t<tr>\n"@;
        result.append("\t<tr>\n");
        let n = row.len();
        let mut i: usize = 0;
        proof {
            assert(row.deep_view().take(0) =~= Seq::<Seq<char>>::empty());
        }
        while i < n
            invariant
                i <= n,
                n == row.len(),
                base == old(result)@ + "\t<tr>\n"@,
                result@ == base + html_cells(row.deep_view().take(i as int), tag@),
            decreases n - i,
        {
            let ghost res0 = result@;
            let cell = trim_str(row[i].as_str());
            let text = Self::escape(cell);
            result.append("\t\t<");
            result.append(tag);
            result.append(">");
            result.append(text.as_str());
            result.append("</");
            result.append(tag);
            result.append(">\n");
            proof {
                assert(row.deep_view().take(i + 1).drop_last() =~= row.deep_view().take(
                    i as int,
                ));
                assert(row.deep_view().take(i + 1).last() == row.deep_view()[i as int]);
                assert(row.deep_view()[i as int] == row@[i as int]@);
                assert(result@ =~= res0 + html_cell(row.deep_view()[i as int], tag@));
                assert(res0 + html_cell(row.deep_view()[i as int], tag@) =~= base + html_cells(
                    row.deep_view().take(i + 1),
                    tag@,
                ));
            }
            i = i + 1;
        }
        proof {
            assert(row.deep_view().take(n as int) =~= row.deep_view());
        }
        result.append("\t</tr>\n");
        proof {
            assert(base + html_cells(row.deep_view(), tag@) + "\t</tr>\n"@ =~= old(result)@
                + html_row(row.deep_view(), tag@));
        }
    }
}

impl Formatter for HtmlFormatter {
    open spec fn spec_format(&self, head: Seq<Seq<char>>, rows: Seq<Seq<Seq<char>>>) -> Seq<
        char,
    > {
        html_render(head, rows)
    }

    fn format(&self, table: Table) -> (r: String) {
        let mut result = String::new();
        result.append("<table>\n");
        let ghost hv = table.head_view();
        match table.titles() {
            Some(head) => {
                Self::format_row(&mut result, head, "th");
            },
            None => {},
        }
        let ghost base = result@;
        let rs = table.rows();
        let n = rs.len();
        let mut i: usize = 0;
        proof {
            assert(table.rows_view().take(0) =~= Seq::<Seq<Seq<char>>>::empty());
        }
        while i < n
            invariant
                i <= n,
                n == rs.len(),
                rs.deep_view() == table.rows_view(),
                result@ == base + html_rows_cat(table.rows_view().take(i as int)),
            decreases n - i,
        {
            let ghost res0 = result@;
            Self::format_row(&mut result, &rs[i], "td");
            proof {
                assert(rs.deep_view()[i as int] == rs@[i as int].deep_view());
                assert(table.rows_view().take(i + 1).drop_last() =~= table.rows_view().take(
                    i as int,
                ));
                assert(table.rows_view().take(i + 1).last() == table.rows_view()[i as int]);
                assert(result@ =~= base + html_rows_cat(table.rows_view().take(i + 1)));
            }
            i = i + 1;
        }
        proof {
            assert(table.rows_view().take(n as int) =~= table.rows_view());
        }
        result.append("</table>\n");
        proof {
            assert(result@ =~= html_render(table.head_view(), table.rows_view()));
        }
        result
    }
}

} // verus!
