//! The field tokenizer: splits one line of text into fields on a separator
//! character, honouring an optional quoting convention.
//!
//! A field that starts with a quote character (`'` or `"`) is scanned in
//! quoted mode: the separator only ends the field when it immediately follows
//! an unmatched occurrence of the opening quote (the "candidate closer").
//! Two adjacent quote characters inside a quoted field stand for one literal
//! quote; when any such pair is seen the field text is post-processed to
//! collapse the pairs. An unterminated quote is tolerated: the field then
//! runs to the end of the line.

use vstd::prelude::*;

use crate::text::push_char;

verus! {

/// The two recognized quote characters.
pub open spec fn spec_is_quote(c: char) -> bool {
    c == '\'' || c == '"'
}

/// Index of the first occurrence of `sep` in `line` at or after `i`, or
/// `line.len()` if there is none.
pub open spec fn plain_end(line: Seq<char>, sep: char, i: int) -> int
    decreases line.len() - i,
{
    if i >= line.len() {
        line.len() as int
    } else if line[i] == sep {
        i
    } else {
        plain_end(line, sep, i + 1)
    }
}

pub proof fn lemma_plain_end_bounds(line: Seq<char>, sep: char, i: int)
    requires
        0 <= i <= line.len(),
    ensures
        i <= plain_end(line, sep, i) <= line.len(),
        plain_end(line, sep, i) < line.len() ==> line[plain_end(line, sep, i)] == sep,
        forall|j: int| i <= j < plain_end(line, sep, i) ==> line[j] != sep,
    decreases line.len() - i,
{
    if i < line.len() && line[i] != sep {
        lemma_plain_end_bounds(line, sep, i + 1);
    }
}

/// Outcome of scanning the inside of a quoted field.
pub struct QuotedScan {
    /// Index of the separator that terminates the field, or `None` when the
    /// line ended first.
    pub end: Option<int>,
    /// The pending candidate closer (an unmatched quote) when the scan
    /// stopped.
    pub last_quote: Option<int>,
    /// Whether a doubled quote was seen.
    pub escaped: bool,
}

/// The scan of a quoted field's content, one character at a time, from index
/// `i`. A quote matching the opening quote `q` becomes the candidate closer
/// when none is pending, and completes a doubled-quote escape when one is;
/// the separator terminates the field only when a candidate closer is
/// pending; any other character demotes a pending candidate to content.
pub open spec fn scan_quoted(
    line: Seq<char>,
    sep: char,
    q: char,
    i: int,
    last_quote: Option<int>,
    escaped: bool,
) -> QuotedScan
    decreases line.len() - i,
{
    if i >= line.len() {
        QuotedScan { end: None, last_quote, escaped }
    } else if line[i] == q {
        if last_quote is Some {
            scan_quoted(line, sep, q, i + 1, None, true)
        } else {
            scan_quoted(line, sep, q, i + 1, Some(i), escaped)
        }
    } else if line[i] == sep {
        if last_quote is Some {
            QuotedScan { end: Some(i), last_quote, escaped }
        } else {
            scan_quoted(line, sep, q, i + 1, None, escaped)
        }
    } else {
        scan_quoted(line, sep, q, i + 1, None, escaped)
    }
}

pub proof fn lemma_scan_quoted_bounds(
    line: Seq<char>,
    sep: char,
    q: char,
    i: int,
    last_quote: Option<int>,
    escaped: bool,
    lo: int,
)
    requires
        0 <= lo <= i,
        last_quote is Some ==> lo <= last_quote.unwrap() < i && last_quote.unwrap()
            < line.len(),
    ensures
        scan_quoted(line, sep, q, i, last_quote, escaped).end is Some ==> {
            let r = scan_quoted(line, sep, q, i, last_quote, escaped);
            &&& i <= r.end.unwrap() < line.len()
            &&& r.last_quote is Some
            &&& r.last_quote.unwrap() < r.end.unwrap()
        },
        scan_quoted(line, sep, q, i, last_quote, escaped).last_quote is Some ==> lo
            <= scan_quoted(line, sep, q, i, last_quote, escaped).last_quote.unwrap()
            < line.len(),
    decreases line.len() - i,
{
    if i >= line.len() {
    } else if line[i] == q {
        if last_quote is Some {
            lemma_scan_quoted_bounds(line, sep, q, i + 1, None, true, lo);
        } else {
            lemma_scan_quoted_bounds(line, sep, q, i + 1, Some(i), escaped, lo);
        }
    } else if line[i] == sep {
        if last_quote is Some {
        } else {
            lemma_scan_quoted_bounds(line, sep, q, i + 1, None, escaped, lo);
        }
    } else {
        lemma_scan_quoted_bounds(line, sep, q, i + 1, None, escaped, lo);
    }
}

/// `s` with every doubled occurrence of `q` collapsed to a single one,
/// scanning from index `i`. `escaping` records that the previous character
/// was a quote that has already been emitted.
pub open spec fn unescape_from(s: Seq<char>, q: char, i: int, escaping: bool) -> Seq<char>
    decreases s.len() - i,
{
    if i >= s.len() {
        Seq::empty()
    } else if s[i] == q {
        if escaping {
            unescape_from(s, q, i + 1, false)
        } else {
            seq![q] + unescape_from(s, q, i + 1, true)
        }
    } else {
        seq![s[i]] + unescape_from(s, q, i + 1, false)
    }
}

/// `s` with every run of two consecutive `q` characters collapsed to one.
pub open spec fn collapse_quotes(s: Seq<char>, q: char) -> Seq<char> {
    unescape_from(s, q, 0, false)
}

/// The next field of `line` starting at character index `pos`, together with
/// the index at which the following field starts. A field whose first
/// character is a quote is read in quoted mode; any other field runs to the
/// next separator (or the end of the line).
pub open spec fn next_field(line: Seq<char>, sep: char, strip: bool, pos: int) -> (Seq<
    char,
>, int)
    recommends
        0 <= pos < line.len(),
{
    let c = line[pos];
    if spec_is_quote(c) {
        let start = if strip {
            pos + 1
        } else {
            pos
        };
        let sc = scan_quoted(line, sep, c, pos + 1, None, false);
        let raw = if sc.end is Some {
            if strip {
                line.subrange(start, sc.last_quote.unwrap())
            } else {
                line.subrange(start, sc.end.unwrap())
            }
        } else {
            if strip && sc.last_quote is Some {
                line.subrange(start, sc.last_quote.unwrap())
            } else {
                line.subrange(start, line.len() as int)
            }
        };
        let fld = if sc.escaped {
            collapse_quotes(raw, c)
        } else {
            raw
        };
        let nxt = if sc.end is Some {
            sc.end.unwrap() + 1
        } else {
            line.len() as int
        };
        (fld, nxt)
    } else {
        let e = plain_end(line, sep, pos);
        (line.subrange(pos, e), if e < line.len() {
            e + 1
        } else {
            e
        })
    }
}

pub proof fn lemma_next_field_advances(line: Seq<char>, sep: char, strip: bool, pos: int)
    requires
        0 <= pos < line.len(),
    ensures
        pos < next_field(line, sep, strip, pos).1 <= line.len(),
{
    if spec_is_quote(line[pos]) {
        lemma_scan_quoted_bounds(line, sep, line[pos], pos + 1, None, false, pos + 1);
    } else {
        lemma_plain_end_bounds(line, sep, pos);
    }
}

/// The whole sequence of fields of `line` from character index `pos` on.
pub open spec fn tokenize(line: Seq<char>, sep: char, strip: bool, pos: int) -> Seq<Seq<char>>
    decreases line.len() - pos,
    via tokenize_decreases
{
    if pos < 0 || pos >= line.len() {
        Seq::empty()
    } else {
        let st = next_field(line, sep, strip, pos);
        seq![st.0] + tokenize(line, sep, strip, st.1)
    }
}

#[via_fn]
proof fn tokenize_decreases(line: Seq<char>, sep: char, strip: bool, pos: int) {
    if 0 <= pos && pos < line.len() {
        lemma_next_field_advances(line, sep, strip, pos);
    }
}

pub proof fn lemma_tokenize_nonempty(line: Seq<char>, sep: char, strip: bool)
    requires
        line.len() > 0,
    ensures
        tokenize(line, sep, strip, 0).len() >= 1,
{
}

/// The naive split of `text` on `sep` from index `pos`: every separator ends
/// a segment, with no quoting rules.
pub open spec fn split_on_from(text: Seq<char>, sep: char, pos: int) -> Seq<Seq<char>>
    decreases text.len() - pos,
    via split_on_from_decreases
{
    if pos < 0 || pos > text.len() {
        Seq::empty()
    } else {
        let e = plain_end(text, sep, pos);
        if e >= text.len() {
            seq![text.subrange(pos, text.len() as int)]
        } else {
            seq![text.subrange(pos, e)] + split_on_from(text, sep, e + 1)
        }
    }
}

#[via_fn]
proof fn split_on_from_decreases(text: Seq<char>, sep: char, pos: int) {
    if 0 <= pos && pos <= text.len() {
        lemma_plain_end_bounds(text, sep, pos);
    }
}

/// The naive split of `text` on `sep`, as `str::split` performs it.
pub open spec fn split_on(text: Seq<char>, sep: char) -> Seq<Seq<char>> {
    split_on_from(text, sep, 0)
}

proof fn lemma_unquoted_tokenize_from(line: Seq<char>, sep: char, strip: bool, pos: int)
    requires
        0 <= pos < line.len(),
        line[line.len() - 1] != sep,
        forall|i: int| 0 <= i < line.len() ==> !spec_is_quote(line[i]),
    ensures
        tokenize(line, sep, strip, pos) == split_on_from(line, sep, pos),
    decreases line.len() - pos,
{
    lemma_plain_end_bounds(line, sep, pos);
    let e = plain_end(line, sep, pos);
    if e >= line.len() {
        assert(tokenize(line, sep, strip, line.len() as int) =~= Seq::<Seq<char>>::empty());
        assert(tokenize(line, sep, strip, pos) =~= seq![
            line.subrange(pos, line.len() as int),
        ]);
    } else {
        assert(e + 1 < line.len()) by {
            if e + 1 == line.len() {
                assert(line[line.len() - 1] == sep);
            }
        }
        lemma_unquoted_tokenize_from(line, sep, strip, e + 1);
    }
}

/// On a line that holds no quote character, is not empty and does not end in
/// the separator, tokenizing is the naive split on the separator.
pub proof fn lemma_unquoted_line_splits_naively(line: Seq<char>, sep: char, strip: bool)
    requires
        line.len() > 0,
        line[line.len() - 1] != sep,
        forall|i: int| 0 <= i < line.len() ==> !spec_is_quote(line[i]),
    ensures
        tokenize(line, sep, strip, 0) == split_on(line, sep),
{
    lemma_unquoted_tokenize_from(line, sep, strip, 0);
}

/// The candidate-closer index as the executable scan tracks it.
spec fn quote_index_view(o: Option<usize>) -> Option<int> {
    match o {
        Some(u) => Some(u as int),
        None => None,
    }
}

/// A restartable tokenizer over one line: each call to [`SplitLine::next`]
/// yields the next field, until the line is exhausted.
pub struct SplitLine<'a> {
    line: &'a str,
    separator: char,
    remove_quotes: bool,
    pos: usize,
}

impl<'a> SplitLine<'a> {
    /// The line being tokenized.
    pub closed spec fn line_view(&self) -> Seq<char> {
        self.line@
    }

    /// The separator character.
    pub closed spec fn sep(&self) -> char {
        self.separator
    }

    /// Whether surrounding quotes are stripped and doubled quotes collapsed.
    pub closed spec fn strip(&self) -> bool {
        self.remove_quotes
    }

    /// Index of the first character not yet consumed.
    pub closed spec fn position(&self) -> int {
        self.pos as int
    }

    pub open spec fn wf(&self) -> bool {
        self.position() <= self.line_view().len()
    }

    /// The fields not yet returned.
    pub open spec fn remaining(&self) -> Seq<Seq<char>> {
        tokenize(self.line_view(), self.sep(), self.strip(), self.position())
    }

    pub fn new(line: &'a str, separator: char, remove_quotes: bool) -> (r: Self)
        ensures
            r.wf(),
            r.line_view() == line@,
            r.sep() == separator,
            r.strip() == remove_quotes,
            r.position() == 0,
    {
        SplitLine { line, separator, remove_quotes, pos: 0 }
    }

    /// Whether `chr` is one of the two recognized quote characters.
    pub fn is_quote(chr: char) -> (r: bool)
        ensures
            r == spec_is_quote(chr),
    {
        chr == '\'' || chr == '"'
    }

    /// The text of a quoted field: unchanged when no doubled quote was seen
    /// during the scan, otherwise with each doubled quote collapsed to one.
    pub fn unescape_quoted_str(has_escaped_quotes: bool, quote: char, s: &str) -> (r: String)
        ensures
            has_escaped_quotes ==> r@ == collapse_quotes(s@, quote),
            !has_escaped_quotes ==> r@ == s@,
    {
        if !has_escaped_quotes {
            s.to_owned()
        } else {
            let n = s.unicode_len();
            let mut outp = String::new();
            let mut escaping = false;
            let mut i: usize = 0;
            proof {
                assert(outp@ + unescape_from(s@, quote, 0, false) =~= collapse_quotes(
                    s@,
                    quote,
                ));
            }
            while i < n
                invariant
                    i <= n,
                    n == s@.len(),
                    outp@ + unescape_from(s@, quote, i as int, escaping) == collapse_quotes(
                        s@,
                        quote,
                    ),
                decreases n - i,
            {
                let ghost outp0 = outp@;
                let c = s.get_char(i);
                if c == quote {
                    if escaping {
                        escaping = false;
                    } else {
                        escaping = true;
                        push_char(&mut outp, c);
                        proof {
                            assert((outp0 + seq![c]) + unescape_from(s@, quote, i + 1, true)
                                =~= outp0 + (seq![c] + unescape_from(s@, quote, i + 1, true)));
                        }
                    }
                } else {
                    escaping = false;
                    push_char(&mut outp, c);
                    proof {
                        assert((outp0 + seq![c]) + unescape_from(s@, quote, i + 1, false) =~= outp0
                            + (seq![c] + unescape_from(s@, quote, i + 1, false)));
                    }
                }
                i = i + 1;
            }
            proof {
                assert(outp@ + unescape_from(s@, quote, n as int, escaping) =~= outp@);
            }
            outp
        }
    }

    /// Yields the next field of the line, or `None` when it is exhausted.
    pub fn next(&mut self) -> (r: Option<String>)
        requires
            old(self).wf(),
        ensures
            final(self).wf(),
            final(self).line_view() == old(self).line_view(),
            final(self).sep() == old(self).sep(),
            final(self).strip() == old(self).strip(),
            old(self).remaining().len() == 0 ==> r is None && final(self).position() == old(
                self,
            ).position(),
            old(self).remaining().len() > 0 ==> r is Some && r.unwrap()@ == old(
                self,
            ).remaining().first() && final(self).remaining() == old(self).remaining().drop_first(),
    {
        let line_len = self.line.unicode_len();
        if self.pos >= line_len {
            return None;
        }
        let ghost line0 = self.line@;
        let ghost sep0 = self.separator;
        let ghost strip0 = self.remove_quotes;
        let ghost pos0: int = self.pos as int;
        let opening = self.line.get_char(self.pos);
        if Self::is_quote(opening) {
            let start = if self.remove_quotes {
                self.pos + 1
            } else {
                self.pos
            };
            let mut i = self.pos + 1;
            let mut last_quote: Option<usize> = None;
            let mut has_escaped_quotes = false;
            while i < line_len
                invariant
                    self.line@ == line0,
                    self.separator == sep0,
                    self.remove_quotes == strip0,
                    self.pos as int == pos0,
                    line0 == old(self).line_view(),
                    sep0 == old(self).sep(),
                    strip0 == old(self).strip(),
                    pos0 == old(self).position(),
                    line_len == line0.len(),
                    0 <= pos0 < line0.len(),
                    line0[pos0] == opening,
                    spec_is_quote(opening),
                    start as int == if strip0 {
                        pos0 + 1
                    } else {
                        pos0
                    },
                    pos0 + 1 <= i as int <= line_len,
                    match last_quote {
                        Some(l) => pos0 + 1 <= l < i,
                        None => true,
                    },
                    scan_quoted(
                        line0,
                        sep0,
                        opening,
                        i as int,
                        quote_index_view(last_quote),
                        has_escaped_quotes,
                    ) == scan_quoted(line0, sep0, opening, pos0 + 1, None, false),
                decreases line_len - i,
            {
                let chr = self.line.get_char(i);
                if chr == opening {
                    if last_quote.is_none() {
                        last_quote = Some(i);
                    } else {
                        last_quote = None;
                        has_escaped_quotes = true;
                    }
                } else if chr == self.separator {
                    if let Some(lqi) = last_quote {
                        let end = if self.remove_quotes {
                            lqi
                        } else {
                            i
                        };
                        let raw = self.line.substring_char(start, end);
                        let field = Self::unescape_quoted_str(has_escaped_quotes, opening, raw);
                        proof {
                            assert(scan_quoted(line0, sep0, opening, pos0 + 1, None, false)
                                == (QuotedScan {
                                end: Some(i as int),
                                last_quote: Some(lqi as int),
                                escaped: has_escaped_quotes,
                            }));
                            assert(field@ == next_field(line0, sep0, strip0, pos0).0);
                            assert(seq![field@] + tokenize(line0, sep0, strip0, i + 1)
                                =~= tokenize(line0, sep0, strip0, pos0));
                            assert((seq![field@] + tokenize(line0, sep0, strip0, i + 1))
                                .drop_first() =~= tokenize(line0, sep0, strip0, i + 1));
                        }
                        self.pos = i + 1;
                        return Some(field);
                    }
                } else {
                    last_quote = None;
                }
                i = i + 1;
            }
            let end = if self.remove_quotes {
                match last_quote {
                    Some(lqi) => lqi,
                    None => line_len,
                }
            } else {
                line_len
            };
            let raw = self.line.substring_char(start, end);
            let field = Self::unescape_quoted_str(has_escaped_quotes, opening, raw);
            proof {
                assert(scan_quoted(line0, sep0, opening, pos0 + 1, None, false) == (QuotedScan {
                    end: None,
                    last_quote: quote_index_view(last_quote),
                    escaped: has_escaped_quotes,
                }));
                assert(field@ == next_field(line0, sep0, strip0, pos0).0);
                assert(seq![field@] + tokenize(line0, sep0, strip0, line0.len() as int)
                    =~= tokenize(line0, sep0, strip0, pos0));
                assert((seq![field@] + tokenize(line0, sep0, strip0, line0.len() as int))
                    .drop_first() =~= tokenize(line0, sep0, strip0, line0.len() as int));
            }
            self.pos = line_len;
            Some(field)
        } else {
            let mut i = self.pos;
            while i < line_len && self.line.get_char(i) != self.separator
                invariant
                    self.line@ == line0,
                    self.separator == sep0,
                    self.pos as int == pos0,
                    line_len == line0.len(),
                    0 <= pos0 <= i as int <= line_len,
                    plain_end(line0, sep0, i as int) == plain_end(line0, sep0, pos0),
                decreases line_len - i,
            {
                i = i + 1;
            }
            proof {
                assert(i as int == plain_end(line0, sep0, pos0));
            }
            let field = self.line.substring_char(self.pos, i);
            let nxt = if i < line_len {
                i + 1
            } else {
                i
            };
            proof {
                assert(field@ == next_field(line0, sep0, strip0, pos0).0);
                assert(seq![field@] + tokenize(line0, sep0, strip0, nxt as int) =~= tokenize(
                    line0,
                    sep0,
                    strip0,
                    pos0,
                ));
                assert((seq![field@] + tokenize(line0, sep0, strip0, nxt as int)).drop_first()
                    =~= tokenize(line0, sep0, strip0, nxt as int));
            }
            self.pos = nxt;
            Some(field.to_owned())
        }
    }

    /// Collects every remaining field into a vector, exhausting the line.
    pub fn collect_fields(&mut self) -> (r: Vec<String>)
        requires
            old(self).wf(),
        ensures
            final(self).wf(),
            final(self).line_view() == old(self).line_view(),
            final(self).sep() == old(self).sep(),
            final(self).strip() == old(self).strip(),
            r.deep_view() == old(self).remaining(),
            final(self).remaining() == Seq::<Seq<char>>::empty(),
    {
        let mut out: Vec<String> = Vec::new();
        let n = self.line.unicode_len();
        proof {
            assert(out.deep_view() + self.remaining() =~= old(self).remaining());
        }
        while self.pos < n
            invariant
                self.wf(),
                n == self.line@.len(),
                self.line_view() == old(self).line_view(),
                self.sep() == old(self).sep(),
                self.strip() == old(self).strip(),
                out.deep_view() + self.remaining() == old(self).remaining(),
            decreases self.remaining().len(),
        {
            let ghost rem0 = self.remaining();
            let ghost out0 = out.deep_view();
            proof {
                assert(rem0.len() > 0);
            }
            let f = self.next();
            match f {
                Some(s) => {
                    let ghost sv = s@;
                    out.push(s);
                    proof {
                        assert(out.deep_view() =~= out0.push(sv));
                        assert(out0.push(sv) =~= out0 + seq![sv]);
                        assert(seq![sv] + rem0.drop_first() =~= rem0);
                        assert((out0 + seq![sv]) + rem0.drop_first() =~= out0 + (seq![sv]
                            + rem0.drop_first()));
                    }
                },
                None => {},
            }
        }
        proof {
            assert(out.deep_view() + self.remaining() =~= out.deep_view());
        }
        out
    }
}

/// Starts tokenizing `line` on `separator`; `remove_quotes` selects whether
/// surrounding quotes are stripped and doubled quotes collapsed.
pub fn split_line<'a>(line: &'a str, separator: char, remove_quotes: bool) -> (r: SplitLine<'a>)
    ensures
        r.wf(),
        r.line_view() == line@,
        r.sep() == separator,
        r.strip() == remove_quotes,
        r.remaining() == tokenize(line@, separator, remove_quotes, 0),
{
    SplitLine::new(line, separator, remove_quotes)
}

} // verus!
