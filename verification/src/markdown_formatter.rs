//! The Markdown renderer: a pipe table whose column widths are the largest
//! trimmed field, measured in characters, of each column across the header
//! and every data row. A header is followed by a dash separator line; a
//! field wider than its column still prints in full.

use vstd::prelude::*;

use crate::formatter::Formatter;
use crate::table::Table;
use crate::text::push_char;
use crate::text::trim_spec;
use crate::text::trim_str;

verus! {

/// The rendered width of a field: its character count after trimming.
pub open spec fn cell_width(cell: Seq<char>) -> nat {
    trim_spec(cell).len()
}

/// `a - b`, saturating at zero.
pub open spec fn sat_sub(a: nat, b: nat) -> nat {
    if a >= b {
        (a - b) as nat
    } else {
        0
    }
}

/// Column widths `w` widened by one row: existing entries grow to the row's
/// field widths, and fields beyond the end of `w` add new entries.
pub open spec fn merge_widths(w: Seq<nat>, row: Seq<Seq<char>>) -> Seq<nat> {
    Seq::new(
        if w.len() >= row.len() {
            w.len()
        } else {
            row.len()
        },
        |i: int|
            if i < w.len() && i < row.len() {
                if w[i] >= cell_width(row[i]) {
                    w[i]
                } else {
                    cell_width(row[i])
                }
            } else if i < w.len() {
                w[i]
            } else {
                cell_width(row[i])
            },
    )
}

/// The widths `init` merged with every row of `rows`, in order.
pub open spec fn widths_after(init: Seq<nat>, rows: Seq<Seq<Seq<char>>>) -> Seq<nat>
    decreases rows.len(),
{
    if rows.len() == 0 {
        init
    } else {
        merge_widths(widths_after(init, rows.drop_last()), rows.last())
    }
}

/// The column widths of a whole table: the width of each column is the
/// largest trimmed field of the header and of every data row at that index.
pub open spec fn table_widths(head: Seq<Seq<char>>, rows: Seq<Seq<Seq<char>>>) -> Seq<nat> {
    widths_after(merge_widths(Seq::empty(), head), rows)
}

/// The executable width vector, seen as the mathematical one.
pub open spec fn widths_view(w: Seq<usize>) -> Seq<nat> {
    w.map_values(|u: usize| u as nat)
}

/// `n` space characters.
pub open spec fn spaces(n: nat) -> Seq<char> {
    Seq::new(n, |i: int| ' ')
}

/// `n` dash characters.
pub open spec fn dashes(n: nat) -> Seq<char> {
    Seq::new(n, |i: int| '-')
}

/// One rendered cell of a row: a `|` between columns, a leading space, the
/// trimmed field when the row reaches this column, and padding to one more
/// than the column width. A field wider than the column is printed in full
/// and still followed by one space.
pub open spec fn md_cell_at(widths: Seq<nat>, row: Seq<Seq<char>>, i: int) -> Seq<char> {
    (if i > 0 {
        seq!['|', ' ']
    } else {
        seq![' ']
    }) + (if i < row.len() {
        trim_spec(row[i]) + spaces(sat_sub(widths[i], cell_width(row[i])) + 1)
    } else {
        spaces((widths[i] + 1) as nat)
    })
}

/// The first `k` rendered cells of a row.
pub open spec fn md_cells(widths: Seq<nat>, row: Seq<Seq<char>>, k: int) -> Seq<char>
    decreases k,
{
    if k <= 0 {
        Seq::empty()
    } else {
        md_cells(widths, row, k - 1) + md_cell_at(widths, row, k - 1)
    }
}

/// One rendered row: one cell per column of the width table.
pub open spec fn md_row(widths: Seq<nat>, row: Seq<Seq<char>>) -> Seq<char> {
    md_cells(widths, row, widths.len() as int) + seq!['\n']
}

/// The first `k` segments of the dash separator line: `width + 2` dashes per
/// column, `|` between columns.
pub open spec fn md_dash_cells(widths: Seq<nat>, k: int) -> Seq<char>
    decreases k,
{
    if k <= 0 {
        Seq::empty()
    } else {
        md_dash_cells(widths, k - 1) + (if k - 1 > 0 {
            seq!['|']
        } else {
            Seq::empty()
        }) + dashes((widths[k - 1] + 2) as nat)
    }
}

/// The dash separator line emitted after a header row.
pub open spec fn md_dash_row(widths: Seq<nat>) -> Seq<char> {
    md_dash_cells(widths, widths.len() as int) + seq!['\n']
}

/// The rendered data rows, in order.
pub open spec fn md_rows_cat(widths: Seq<nat>, rows: Seq<Seq<Seq<char>>>) -> Seq<char>
    decreases rows.len(),
{
    if rows.len() == 0 {
        Seq::empty()
    } else {
        md_rows_cat(widths, rows.drop_last()) + md_row(widths, rows.last())
    }
}

/// The whole rendered table: the header row and its dash line when a header
/// is present, then one line per data row, all on the shared column widths.
pub open spec fn md_render(head: Seq<Seq<char>>, rows: Seq<Seq<Seq<char>>>) -> Seq<char> {
    let w = table_widths(head, rows);
    (if head.len() > 0 {
        md_row(w, head) + md_dash_row(w)
    } else {
        Seq::empty()
    }) + md_rows_cat(w, rows)
}

proof fn lemma_widths_after_max(init: Seq<nat>, rows: Seq<Seq<Seq<char>>>)
    ensures
        init.len() <= widths_after(init, rows).len(),
        forall|r: int|
            0 <= r < rows.len() ==> (#[trigger] rows[r]).len() <= widths_after(
                init,
                rows,
            ).len(),
        forall|i: int|
            0 <= i < init.len() ==> #[trigger] init[i] <= widths_after(init, rows)[i],
        forall|r: int, i: int|
            0 <= r < rows.len() && 0 <= i < rows[r].len() ==> #[trigger] cell_width(rows[r][i])
                <= widths_after(init, rows)[i],
    decreases rows.len(),
{
    if rows.len() > 0 {
        let prev = rows.drop_last();
        let last = rows.last();
        let w0 = widths_after(init, prev);
        let w = widths_after(init, rows);
        lemma_widths_after_max(init, prev);
        assert(w == merge_widths(w0, last));
        assert(forall|r: int| 0 <= r < prev.len() ==> #[trigger] prev[r] == rows[r]);
        assert forall|r: int| 0 <= r < rows.len() implies (#[trigger] rows[r]).len()
            <= w.len() by {
            if r < rows.len() - 1 {
                assert(prev[r].len() <= w0.len());
            }
        }
        assert forall|r: int, i: int|
            0 <= r < rows.len() && 0 <= i < rows[r].len() implies #[trigger] cell_width(
            rows[r][i],
        ) <= w[i] by {
            if r < rows.len() - 1 {
                assert(cell_width(prev[r][i]) <= w0[i]);
            }
        }
    }
}

proof fn lemma_widths_after_attained(init: Seq<nat>, rows: Seq<Seq<Seq<char>>>, i: int)
    requires
        0 <= i < widths_after(init, rows).len(),
    ensures
        (i < init.len() && widths_after(init, rows)[i] == init[i]) || (exists|r: int|
            0 <= r < rows.len() && i < rows[r].len() && widths_after(init, rows)[i] == cell_width(
                rows[r][i],
            )),
    decreases rows.len(),
{
    if rows.len() > 0 {
        let prev = rows.drop_last();
        let last = rows.last();
        let w0 = widths_after(init, prev);
        let w = widths_after(init, rows);
        assert(w == merge_widths(w0, last));
        if i < w0.len() && i < last.len() && w[i] == cell_width(last[i]) {
            assert(0 <= rows.len() - 1 < rows.len() && i < rows[rows.len() - 1].len() && w[i]
                == cell_width(rows[rows.len() - 1][i]));
        } else if i < w0.len() {
            assert(w[i] == w0[i]);
            lemma_widths_after_attained(init, prev, i);
            if !(i < init.len() && w0[i] == init[i]) {
                let r = choose|r: int|
                    0 <= r < prev.len() && i < prev[r].len() && widths_after(init, prev)[i]
                        == cell_width(prev[r][i]);
                assert(prev[r] == rows[r]);
                assert(0 <= r < rows.len() && i < rows[r].len() && w[i] == cell_width(
                    rows[r][i],
                ));
            }
        } else {
            assert(w[i] == cell_width(last[i]));
            assert(0 <= rows.len() - 1 < rows.len() && i < rows[rows.len() - 1].len() && w[i]
                == cell_width(rows[rows.len() - 1][i]));
        }
    }
}

/// The Markdown column widths are exactly the column maxima: every trimmed
/// field fits in its column's width, and every width is the character count
/// of some trimmed field of that column (in the header or a data row).
pub proof fn lemma_widths_are_column_max(head: Seq<Seq<char>>, rows: Seq<Seq<Seq<char>>>)
    ensures
        head.len() <= table_widths(head, rows).len(),
        forall|r: int|
            0 <= r < rows.len() ==> rows[r].len() <= table_widths(head, rows).len(),
        forall|i: int|
            0 <= i < head.len() ==> #[trigger] cell_width(head[i]) <= table_widths(
                head,
                rows,
            )[i],
        forall|r: int, i: int|
            0 <= r < rows.len() && 0 <= i < rows[r].len() ==> #[trigger] cell_width(rows[r][i])
                <= table_widths(head, rows)[i],
        forall|i: int|
            #![trigger table_widths(head, rows)[i]]
            0 <= i < table_widths(head, rows).len() ==> (i < head.len() && table_widths(
                head,
                rows,
            )[i] == cell_width(head[i])) || (exists|r: int|
                0 <= r < rows.len() && i < rows[r].len() && table_widths(head, rows)[i]
                    == cell_width(rows[r][i])),
{
    let init = merge_widths(Seq::empty(), head);
    let w = widths_after(init, rows);
    assert(init.len() == head.len());
    assert(forall|i: int| 0 <= i < head.len() ==> #[trigger] init[i] == cell_width(head[i]));
    lemma_widths_after_max(init, rows);
    assert(table_widths(head, rows) == w);
    assert forall|i: int| 0 <= i < head.len() implies #[trigger] cell_width(head[i])
        <= table_widths(head, rows)[i] by {
        assert(init[i] <= widths_after(init, rows)[i]);
    }
    assert forall|i: int|
        #![trigger table_widths(head, rows)[i]]
        0 <= i < table_widths(head, rows).len() implies (i < head.len() && table_widths(
        head,
        rows,
    )[i] == cell_width(head[i])) || (exists|r: int|
        0 <= r < rows.len() && i < rows[r].len() && table_widths(head, rows)[i] == cell_width(
            rows[r][i],
        )) by {
        lemma_widths_after_attained(init, rows, i);
    }
}

/// A row's field is always rendered in full — even one wider than its
/// column's recorded width — and is always followed by at least one space.
pub proof fn lemma_cell_renders_fully(widths: Seq<nat>, row: Seq<Seq<char>>, i: int)
    requires
        0 <= i < widths.len(),
        i < row.len(),
    ensures
        sat_sub(widths[i], cell_width(row[i])) + 1 >= 1,
        md_cell_at(widths, row, i) == (if i > 0 {
            seq!['|', ' ']
        } else {
            seq![' ']
        }) + trim_spec(row[i]) + spaces(sat_sub(widths[i], cell_width(row[i])) + 1),
{
    assert(md_cell_at(widths, row, i) =~= (if i > 0 {
        seq!['|', ' ']
    } else {
        seq![' ']
    }) + trim_spec(row[i]) + spaces(sat_sub(widths[i], cell_width(row[i])) + 1));
}

/// Renders a table as a GitHub-flavoured-Markdown pipe table.
pub struct MarkdownFormatter;

impl MarkdownFormatter {
    /// Widens `widths` by one row: each field's trimmed character count
    /// grows the entry of its column, adding entries for columns not seen
    /// before.
    pub fn precalc_widths(widths: &mut Vec<usize>, row: &Vec<String>)
        ensures
            widths_view(final(widths)@) == merge_widths(
                widths_view(old(widths)@),
                row.deep_view(),
            ),
    {
        let n = row.len();
        let mut idx: usize = 0;
        proof {
            assert(widths_view(widths@) =~= merge_widths(
                widths_view(old(widths)@),
                row.deep_view().take(0),
            ));
        }
        while idx < n
            invariant
                idx <= n,
                n == row.len(),
                widths_view(widths@) == merge_widths(
                    widths_view(old(widths)@),
                    row.deep_view().take(idx as int),
                ),
            decreases n - idx,
        {
            proof {
                assert(widths.len() == widths_view(widths@).len());
                assert(row.deep_view().take(idx + 1).drop_last() =~= row.deep_view().take(
                    idx as int,
                ));
                assert(row.deep_view()[idx as int] == row@[idx as int]@);
            }
            let cell = trim_str(row[idx].as_str());
            let cell_len = cell.unicode_len();
            if idx == widths.len() {
                widths.push(cell_len);
                proof {
                    let wv = widths_view(widths@);
                    let m = merge_widths(
                        widths_view(old(widths)@),
                        row.deep_view().take(idx + 1),
                    );
                    assert(cell_len as nat == cell_width(row.deep_view()[idx as int]));
                    assert(wv.len() == m.len());
                    assert forall|j: int| 0 <= j < wv.len() implies wv[j] == m[j] by {
                        if j < idx {
                            assert(wv[j] == merge_widths(
                                widths_view(old(widths)@),
                                row.deep_view().take(idx as int),
                            )[j]);
                        }
                    }
                    assert(wv =~= m);
                }
            } else {
                let ghost wpre = widths@;
                let w = widths[idx];
                if cell_len > w {
                    widths[idx] = cell_len;
                }
                proof {
                    let wv = widths_view(widths@);
                    let m = merge_widths(
                        widths_view(old(widths)@),
                        row.deep_view().take(idx + 1),
                    );
                    assert(cell_len as nat == cell_width(row.deep_view()[idx as int]));
                    assert(idx < wpre.len());
                    assert(wv.len() == m.len());
                    assert forall|j: int| 0 <= j < wv.len() implies wv[j] == m[j] by {
                        assert(widths_view(wpre)[j] == merge_widths(
                            widths_view(old(widths)@),
                            row.deep_view().take(idx as int),
                        )[j]);
                    }
                    assert(wv =~= m);
                }
            }
            idx = idx + 1;
        }
        proof {
            assert(row.deep_view().take(n as int) =~= row.deep_view());
        }
    }

    /// Appends one rendered row to `result`: one cell per column of
    /// `widths`, separated by `|`, each field trimmed and padded to its
    /// column width plus one trailing space, then a line break.
    pub fn add_cells(result: &mut String, widths: &Vec<usize>, row: &Vec<String>)
        ensures
            final(result)@ == old(result)@ + md_row(widths_view(widths@), row.deep_view()),
    {
        let n = widths.len();
        let mut index: usize = 0;
        proof {
            assert(result@ + md_cells(widths_view(widths@), row.deep_view(), 0) =~= result@);
        }
        while index < n
            invariant
                index <= n,
                n == widths.len(),
                result@ == old(result)@ + md_cells(
                    widths_view(widths@),
                    row.deep_view(),
                    index as int,
                ),
            decreases n - index,
        {
            let ghost res0 = result@;
            if index != 0 {
                push_char(result, '|');
            }
            push_char(result, ' ');
            let mut width = widths[index];
            if index < row.len() {
                let s = trim_str(row[index].as_str());
                result.append(s);
                let cnt = s.unicode_len();
                proof {
                    assert(s@ == trim_spec(row.deep_view()[index as int]));
                }
                width = if width >= cnt {
                    width - cnt
                } else {
                    0
                };
            }
            let ghost mid = result@;
            let mut j: usize = 0;
            proof {
                assert(mid + spaces(0) =~= mid);
            }
            while j < width
                invariant
                    j <= width,
                    result@ == mid + spaces(j as nat),
                decreases width - j,
            {
                push_char(result, ' ');
                proof {
                    assert((mid + spaces(j as nat)) + seq![' '] =~= mid + spaces((j + 1) as nat));
                }
                j = j + 1;
            }
            push_char(result, ' ');
            proof {
                assert((mid + spaces(width as nat)) + seq![' '] =~= mid + spaces(
                    (width + 1) as nat,
                ));
                assert(result@ =~= res0 + md_cell_at(
                    widths_view(widths@),
                    row.deep_view(),
                    index as int,
                ));
            }
            index = index + 1;
        }
        push_char(result, '\n');
        proof {
            assert(result@ =~= old(result)@ + md_row(widths_view(widths@), row.deep_view()));
        }
    }

    /// Appends the dash separator line to `result`: `width + 2` dashes per
    /// column, separated by `|`, then a line break.
    pub fn add_dashes(result: &mut String, widths: &Vec<usize>)
        ensures
            final(result)@ == old(result)@ + md_dash_row(widths_view(widths@)),
    {
        let n = widths.len();
        let mut index: usize = 0;
        while index < n
            invariant
                index <= n,
                n == widths.len(),
                result@ == old(result)@ + md_dash_cells(widths_view(widths@), index as int),
            decreases n - index,
        {
            let ghost res0 = result@;
            if index != 0 {
                push_char(result, '|');
            }
            let width = widths[index];
            let ghost mid = result@;
            let mut j: usize = 0;
            proof {
                assert(mid + dashes(0) =~= mid);
            }
            while j < width
                invariant
                    j <= width,
                    result@ == mid + dashes(j as nat),
                decreases width - j,
            {
                push_char(result, '-');
                proof {
                    assert((mid + dashes(j as nat)) + seq!['-'] =~= mid + dashes((j + 1) as nat));
                }
                j = j + 1;
            }
            push_char(result, '-');
            push_char(result, '-');
            proof {
                assert(((mid + dashes(width as nat)) + seq!['-']) + seq!['-'] =~= mid + dashes(
                    (width + 2) as nat,
                ));
                assert(result@ =~= res0 + (if index > 0 {
                    seq!['|']
                } else {
                    Seq::<char>::empty()
                }) + dashes((widths_view(widths@)[index as int] + 2) as nat));
                assert(result@ =~= old(result)@ + md_dash_cells(
                    widths_view(widths@),
                    index + 1,
                ));
            }
            index = index + 1;
        }
        push_char(result, '\n');
        proof {
            assert(result@ =~= old(result)@ + md_dash_row(widths_view(widths@)));
        }
    }
}

impl Formatter for MarkdownFormatter {
    open spec fn spec_format(&self, head: Seq<Seq<char>>, rows: Seq<Seq<Seq<char>>>) -> Seq<
        char,
    > {
        md_render(head, rows)
    }

    fn format(&self, table: Table) -> (r: String) {
        let ghost hv = table.head_view();
        let ghost rv = table.rows_view();
        let ghost init = merge_widths(Seq::empty(), hv);
        let mut widths: Vec<usize> = Vec::new();
        match table.titles() {
            Some(head) => {
                Self::precalc_widths(&mut widths, head);
            },
            None => {},
        }
        proof {
            if hv.len() == 0 {
                assert(widths_view(widths@) =~= merge_widths(Seq::empty(), hv));
            }
        }
        let rs = table.rows();
        let n = rs.len();
        let mut i: usize = 0;
        proof {
            assert(rv.take(0) =~= Seq::<Seq<Seq<char>>>::empty());
        }
        while i < n
            invariant
                i <= n,
                n == rs.len(),
                rs.deep_view() == rv,
                widths_view(widths@) == widths_after(init, rv.take(i as int)),
            decreases n - i,
        {
            Self::precalc_widths(&mut widths, &rs[i]);
            proof {
                assert(rs.deep_view()[i as int] == rs@[i as int].deep_view());
                assert(rv.take(i + 1).drop_last() =~= rv.take(i as int));
                assert(rv.take(i + 1).last() == rv[i as int]);
            }
            i = i + 1;
        }
        proof {
            assert(rv.take(n as int) =~= rv);
            assert(widths_view(widths@) == table_widths(hv, rv));
        }
        let mut result = String::new();
        match table.titles() {
            Some(head) => {
                Self::add_cells(&mut result, &widths, head);
                Self::add_dashes(&mut result, &widths);
            },
            None => {},
        }
        let ghost base = result@;
        let mut i: usize = 0;
        while i < n
            invariant
                i <= n,
                n == rs.len(),
                rs.deep_view() == rv,
                result@ == base + md_rows_cat(widths_view(widths@), rv.take(i as int)),
            decreases n - i,
        {
            Self::add_cells(&mut result, &widths, &rs[i]);
            proof {
                assert(rs.deep_view()[i as int] == rs@[i as int].deep_view());
                assert(rv.take(i + 1).drop_last() =~= rv.take(i as int));
                assert(rv.take(i + 1).last() == rv[i as int]);
                assert(result@ =~= base + md_rows_cat(widths_view(widths@), rv.take(i + 1)));
            }
            i = i + 1;
        }
        proof {
            assert(rv.take(n as int) =~= rv);
            assert(result@ =~= md_render(hv, rv));
        }
        result
    }
}

} // verus!
