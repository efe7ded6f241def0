//! The renderer interface: a formatter turns a parsed [`Table`] into one
//! output string, and promises exactly which string through its spec.

use vstd::prelude::*;

use crate::table::Table;

verus! {

/// A renderer of parsed tables. Each implementation fixes, through
/// [`Formatter::spec_format`], the exact output text for every table.
pub trait Formatter {
    /// The output text for a table with header `head` and data rows `rows`.
    spec fn spec_format(&self, head: Seq<Seq<char>>, rows: Seq<Seq<Seq<char>>>) -> Seq<char>;

    /// Renders `table` to its output string.
    fn format(&self, table: Table) -> (r: String)
        ensures
            r@ == self.spec_format(table.head_view(), table.rows_view()),
    ;
}

} // verus!
