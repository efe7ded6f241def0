//! The table builder: splits a text into lines, tokenizes each non-empty
//! line, and collects the result as an optional header row plus data rows.
//!
//! Empty lines are skipped entirely: they produce neither header nor row.
//! When a header is requested, the first non-empty line becomes the header
//! and every other non-empty line a data row; rows are not required to have
//! the same number of fields as the header.

use vstd::prelude::*;

use crate::split_line::split_line;
use crate::split_line::split_on;
use crate::split_line::split_on_from;
use crate::split_line::lemma_tokenize_nonempty;
use crate::split_line::plain_end;
use crate::split_line::tokenize;

verus! {

/// The non-empty entries of `lines`, in order.
pub open spec fn keep_nonempty(lines: Seq<Seq<char>>) -> Seq<Seq<char>>
    decreases lines.len(),
{
    if lines.len() == 0 {
        Seq::empty()
    } else if lines.last().len() > 0 {
        keep_nonempty(lines.drop_last()).push(lines.last())
    } else {
        keep_nonempty(lines.drop_last())
    }
}

/// The non-empty lines of `text`, split on the line-break character.
pub open spec fn nonempty_lines(text: Seq<char>) -> Seq<Seq<char>> {
    keep_nonempty(split_on(text, '\n'))
}

/// The header of the table built from `lines`: the fields of the first
/// non-empty line when a header is requested, empty otherwise.
pub open spec fn head_of_lines(lines: Seq<Seq<char>>, sep: char, has_head: bool, strip: bool) -> Seq<
    Seq<char>,
> {
    let ne = keep_nonempty(lines);
    if has_head && ne.len() > 0 {
        tokenize(ne.first(), sep, strip, 0)
    } else {
        Seq::empty()
    }
}

/// The data rows of the table built from `lines`: the fields of every
/// non-empty line, minus the one consumed as header.
pub open spec fn rows_of_lines(lines: Seq<Seq<char>>, sep: char, has_head: bool, strip: bool) -> Seq<
    Seq<Seq<char>>,
> {
    let ne = keep_nonempty(lines);
    let data = if has_head && ne.len() > 0 {
        ne.drop_first()
    } else {
        ne
    };
    data.map_values(|l: Seq<char>| tokenize(l, sep, strip, 0))
}

proof fn lemma_keep_nonempty_ignores_empty(lines: Seq<Seq<char>>, k: int)
    requires
        0 <= k <= lines.len(),
    ensures
        keep_nonempty(lines.insert(k, Seq::empty())) == keep_nonempty(lines),
    decreases lines.len(),
{
    let grown = lines.insert(k, Seq::empty());
    if k == lines.len() {
        assert(grown.last() =~= Seq::<char>::empty());
        assert(grown.drop_last() =~= lines);
    } else {
        assert(grown.last() == lines.last());
        assert(grown.drop_last() =~= lines.drop_last().insert(k, Seq::empty()));
        lemma_keep_nonempty_ignores_empty(lines.drop_last(), k);
        if lines.last().len() > 0 {
            assert(keep_nonempty(grown) =~= keep_nonempty(lines));
        }
    }
}

/// An empty line produces neither header nor row: inserting one anywhere in
/// the line list leaves both the header and the data rows unchanged.
pub proof fn lemma_empty_line_adds_nothing(
    lines: Seq<Seq<char>>,
    k: int,
    sep: char,
    has_head: bool,
    strip: bool,
)
    requires
        0 <= k <= lines.len(),
    ensures
        head_of_lines(lines.insert(k, Seq::empty()), sep, has_head, strip) == head_of_lines(
            lines,
            sep,
            has_head,
            strip,
        ),
        rows_of_lines(lines.insert(k, Seq::empty()), sep, has_head, strip) == rows_of_lines(
            lines,
            sep,
            has_head,
            strip,
        ),
{
    lemma_keep_nonempty_ignores_empty(lines, k);
}

/// The header of the table built from `text`.
pub open spec fn spec_table_head(text: Seq<char>, sep: char, has_head: bool, strip: bool) -> Seq<
    Seq<char>,
> {
    head_of_lines(split_on(text, '\n'), sep, has_head, strip)
}

/// The data rows of the table built from `text`.
pub open spec fn spec_table_rows(text: Seq<char>, sep: char, has_head: bool, strip: bool) -> Seq<
    Seq<Seq<char>>,
> {
    rows_of_lines(split_on(text, '\n'), sep, has_head, strip)
}

/// Splits `text` into segments on `sep`, with no quoting rules: every
/// occurrence of `sep` ends a segment.
pub fn naive_split(text: &str, sep: char) -> (r: Vec<String>)
    ensures
        r.deep_view() == split_on(text@, sep),
{
    let len = text.unicode_len();
    let mut out: Vec<String> = Vec::new();
    let mut pos: usize = 0;
    proof {
        assert(out.deep_view() + split_on_from(text@, sep, 0) =~= split_on(text@, sep));
    }
    loop
        invariant
            pos <= len,
            len == text@.len(),
            out.deep_view() + split_on_from(text@, sep, pos as int) == split_on(text@, sep),
        decreases len - pos,
    {
        let ghost out0 = out.deep_view();
        let mut i = pos;
        while i < len && text.get_char(i) != sep
            invariant
                pos <= i <= len,
                len == text@.len(),
                plain_end(text@, sep, i as int) == plain_end(text@, sep, pos as int),
            decreases len - i,
        {
            i = i + 1;
        }
        proof {
            assert(i as int == plain_end(text@, sep, pos as int));
        }
        let seg = text.substring_char(pos, i);
        out.push(seg.to_owned());
        proof {
            assert(out.deep_view() =~= out0.push(seg@));
            assert(out0.push(seg@) =~= out0 + seq![seg@]);
        }
        if i < len {
            proof {
                assert((out0 + seq![seg@]) + split_on_from(text@, sep, i + 1) =~= out0 + (seq![
                    seg@,
                ] + split_on_from(text@, sep, i + 1)));
            }
            pos = i + 1;
        } else {
            proof {
                assert(seg@ == text@.subrange(pos as int, text@.len() as int));
                assert(split_on_from(text@, sep, pos as int) =~= seq![seg@]);
                assert((out0 + seq![seg@]) =~= out.deep_view());
            }
            return out;
        }
    }
}

/// A parsed table: an optional header row plus data rows, each a sequence of
/// fields in source order.
pub struct Table {
    head: Vec<String>,
    rows: Vec<Vec<String>>,
}

impl Table {
    /// The header fields; empty when the table has no header.
    pub closed spec fn head_view(&self) -> Seq<Seq<char>> {
        self.head.deep_view()
    }

    /// The data rows, each a sequence of fields.
    pub closed spec fn rows_view(&self) -> Seq<Seq<Seq<char>>> {
        self.rows.deep_view()
    }

    /// Builds the table of `text`: each non-empty line (split on the
    /// line-break character) is tokenized on `separator`; when `has_head` is
    /// set the first non-empty line becomes the header, every other
    /// non-empty line a data row.
    pub fn with_text_and_separator(
        text: &str,
        separator: char,
        has_head: bool,
        remove_quotes: bool,
    ) -> (t: Table)
        ensures
            t.head_view() == spec_table_head(text@, separator, has_head, remove_quotes),
            t.rows_view() == spec_table_rows(text@, separator, has_head, remove_quotes),
    {
        let lines = naive_split(text, '\n');
        let ghost lsv = lines.deep_view();
        let mut head: Vec<String> = Vec::new();
        let mut rows: Vec<Vec<String>> = Vec::new();
        let n = lines.len();
        let mut idx: usize = 0;
        proof {
            assert(lsv.take(0) =~= Seq::<Seq<char>>::empty());
        }
        while idx < n
            invariant
                idx <= n,
                n == lines.len(),
                lsv == lines.deep_view(),
                lsv == split_on(text@, '\n'),
                head.deep_view() == head_of_lines(
                    lsv.take(idx as int),
                    separator,
                    has_head,
                    remove_quotes,
                ),
                rows.deep_view() == rows_of_lines(
                    lsv.take(idx as int),
                    separator,
                    has_head,
                    remove_quotes,
                ),
                head.len() == 0 <==> keep_nonempty(lsv.take(idx as int)).len() == 0 || !has_head,
            decreases n - idx,
        {
            let ghost prefix = lsv.take(idx as int);
            let ghost ne0 = keep_nonempty(prefix);
            let line = &lines[idx];
            proof {
                assert(line@ == lsv[idx as int]);
                assert(lsv.take(idx + 1).drop_last() =~= prefix);
                assert(lsv.take(idx + 1).last() == lsv[idx as int]);
            }
            if !line.as_str().is_empty() {
                proof {
                    assert(keep_nonempty(lsv.take(idx + 1)) =~= ne0.push(lsv[idx as int]));
                    lemma_tokenize_nonempty(line@, separator, remove_quotes);
                }
                let mut cells = split_line(line.as_str(), separator, remove_quotes);
                let fields = cells.collect_fields();
                if has_head && head.is_empty() {
                    head = fields;
                    proof {
                        assert(ne0.push(lsv[idx as int]).first() == lsv[idx as int]);
                        assert(ne0.push(lsv[idx as int]).drop_first() =~= Seq::<
                            Seq<char>,
                        >::empty());
                        assert(rows.deep_view() =~= rows_of_lines(
                            lsv.take(idx + 1),
                            separator,
                            has_head,
                            remove_quotes,
                        ));
                    }
                } else {
                    let ghost rows0 = rows.deep_view();
                    let ghost fv = fields.deep_view();
                    rows.push(fields);
                    proof {
                        assert(rows.deep_view() =~= rows0.push(fv));
                        let ne1 = ne0.push(lsv[idx as int]);
                        if has_head {
                            assert(ne0.len() > 0);
                            assert(ne1.first() == ne0.first());
                            assert(ne1.drop_first() =~= ne0.drop_first().push(lsv[idx as int]));
                            assert(ne0.drop_first().push(lsv[idx as int]).map_values(
                                |l: Seq<char>| tokenize(l, separator, remove_quotes, 0),
                            ) =~= ne0.drop_first().map_values(
                                |l: Seq<char>| tokenize(l, separator, remove_quotes, 0),
                            ).push(tokenize(lsv[idx as int], separator, remove_quotes, 0)));
                            assert(head.deep_view() =~= head_of_lines(
                                lsv.take(idx + 1),
                                separator,
                                has_head,
                                remove_quotes,
                            ));
                        } else {
                            assert(ne1.map_values(
                                |l: Seq<char>| tokenize(l, separator, remove_quotes, 0),
                            ) =~= ne0.map_values(
                                |l: Seq<char>| tokenize(l, separator, remove_quotes, 0),
                            ).push(tokenize(lsv[idx as int], separator, remove_quotes, 0)));
                        }
                    }
                }
            } else {
                proof {
                    assert(keep_nonempty(lsv.take(idx + 1)) =~= ne0);
                }
            }
            idx = idx + 1;
        }
        proof {
            assert(lsv.take(n as int) =~= lsv);
        }
        Table { head, rows }
    }

    /// The header row, or `None` when the table has no header.
    pub fn titles(&self) -> (r: Option<&Vec<String>>)
        ensures
            match r {
                Some(h) => self.head_view().len() > 0 && h.deep_view() == self.head_view(),
                None => self.head_view().len() == 0,
            },
    {
        if self.head.is_empty() {
            None
        } else {
            proof {
                assert(self.head.deep_view().len() == self.head@.len());
            }
            Some(&self.head)
        }
    }

    /// The data rows.
    pub fn rows(&self) -> (r: &Vec<Vec<String>>)
        ensures
            r.deep_view() == self.rows_view(),
    {
        &self.rows
    }
}

} // verus!
