//! A fixed-column text table: headers, rows, and column-aligned output.
//!
//! Column widths grow to the widest cell (its byte length, as the width
//! is accumulated); when a row is printed, each cell is padded with
//! spaces to its column's width and followed by two blank columns.  The
//! rendered table shows the header row, a dashed rule, the data rows,
//! another rule, and the header row again.

use vstd::prelude::*;
use vstd::string::StrSliceExecFns;
use vstd::string::StringExecFns;

verus! {

/// How a column's cells are padded.
#[derive(Clone, Copy, Debug, PartialEq, Eq, Structural)]
pub enum Alignment {
    Left,
    Center,
    Right,
}

/// A table with `N` columns.
pub struct Table<const N: usize> {
    pub headers: [String; N],
    pub rows: Vec<[String; N]>,
    pub widths: [usize; N],
    pub alignments: [Alignment; N],
}

/// `n` spaces (none when `n` is negative).
pub open spec fn spaces(n: int) -> Seq<char> {
    Seq::new(
        if n >= 0 {
            n as nat
        } else {
            0
        },
        |i: int| ' ',
    )
}

/// `n` dashes (none when `n` is negative).
pub open spec fn dashes(n: int) -> Seq<char> {
    Seq::new(
        if n >= 0 {
            n as nat
        } else {
            0
        },
        |i: int| '-',
    )
}

/// The byte length of a string: what column widths accumulate.
pub open spec fn byte_width(s: String) -> int {
    (vstd::utf8::encode_utf8(s@).len() as usize) as int
}

/// One cell padded with spaces to `width` characters (cells already wider
/// are left as they are).
pub open spec fn cell_text(s: String, width: int, a: Alignment) -> Seq<char> {
    let pad = if width >= s@.len() {
        width - s@.len()
    } else {
        0
    };
    match a {
        Alignment::Left => s@ + spaces(pad),
        Alignment::Center => spaces(pad / 2) + s@ + spaces(pad - pad / 2),
        Alignment::Right => spaces(pad) + s@,
    }
}

/// The first `upto` cells of a row, each padded and followed by two
/// spaces.
pub open spec fn row_text(
    cells: Seq<String>,
    widths: Seq<usize>,
    aligns: Seq<Alignment>,
    upto: int,
) -> Seq<char>
    decreases upto,
{
    if upto <= 0 {
        Seq::<char>::empty()
    } else {
        row_text(cells, widths, aligns, upto - 1) + cell_text(
            cells[upto - 1],
            widths[upto - 1] as int,
            aligns[upto - 1],
        ) + "  "@
    }
}

/// The dashed rule under the first `upto` columns.
pub open spec fn sep_text(widths: Seq<usize>, upto: int) -> Seq<char>
    decreases upto,
{
    if upto <= 0 {
        Seq::<char>::empty()
    } else {
        sep_text(widths, upto - 1) + dashes(widths[upto - 1] as int) + "  "@
    }
}

/// The first `upto` data rows, each ending in a newline.
pub open spec fn body_text<const N: usize>(
    rows: Seq<[String; N]>,
    widths: Seq<usize>,
    aligns: Seq<Alignment>,
    upto: int,
) -> Seq<char>
    decreases upto,
{
    if upto <= 0 {
        Seq::<char>::empty()
    } else {
        body_text(rows, widths, aligns, upto - 1) + row_text(
            rows[upto - 1]@,
            widths,
            aligns,
            N as int,
        ) + "\n"@
    }
}

/// Append `n` spaces.
fn push_spaces(s: &mut String, n: usize)
    ensures
        final (s)@ == old(s)@ + spaces(n as int),
    decreases n,
{
    let mut i: usize = 0;
    while i < n
        invariant
            i <= n,
            s@ == old(s)@ + spaces(i as int),
        decreases n - i,
    {
        s.append(" ");
        proof {
            reveal_strlit(" ");
            assert(s@ =~= old(s)@ + spaces(i as int + 1));
        }
        i = i + 1;
    }
    proof {
        assert(old(s)@ + spaces(0) =~= old(s)@);
    }
}

/// Append `n` dashes.
fn push_dashes(s: &mut String, n: usize)
    ensures
        final (s)@ == old(s)@ + dashes(n as int),
    decreases n,
{
    let mut i: usize = 0;
    while i < n
        invariant
            i <= n,
            s@ == old(s)@ + dashes(i as int),
        decreases n - i,
    {
        s.append("-");
        proof {
            reveal_strlit("-");
            assert(s@ =~= old(s)@ + dashes(i as int + 1));
        }
        i = i + 1;
    }
    proof {
        assert(old(s)@ + dashes(0) =~= old(s)@);
    }
}

/// Append one padded cell.
fn push_cell(s: &mut String, cell: &String, width: usize, a: Alignment)
    ensures
        final (s)@ == old(s)@ + cell_text(*cell, width as int, a),
{
    let clen = cell.as_str().unicode_len();
    let pad = if width >= clen {
        width - clen
    } else {
        0
    };
    match a {
        Alignment::Left => {
            s.append(cell.as_str());
            push_spaces(s, pad);
        },
        Alignment::Center => {
            push_spaces(s, pad / 2);
            s.append(cell.as_str());
            push_spaces(s, pad - pad / 2);
        },
        Alignment::Right => {
            push_spaces(s, pad);
            s.append(cell.as_str());
        },
    }
    proof {
        assert(s@ =~= old(s)@ + cell_text(*cell, width as int, a));
    }
}

impl<const N: usize> Table<N> {
    /// A table with the given headers, no rows yet, every column as wide
    /// as its header and aligned left.
    pub fn new(headers: [String; N]) -> (t: Table<N>)
        ensures
            t.headers@ == headers@,
            t.rows@.len() == 0,
            forall|i: int| 0 <= i < N ==> (#[trigger] t.widths@[i]) as int == byte_width(
                headers@[i],
            ),
            forall|i: int| 0 <= i < N ==> #[trigger] t.alignments@[i] == Alignment::Left,
    {
        let mut widths: [usize; N] = [0; N];
        let mut i: usize = 0;
        while i < N
            invariant
                i <= N,
                forall|j: int| 0 <= j < i ==> (#[trigger] widths@[j]) as int == byte_width(
                    headers@[j],
                ),
        decreases N - i,
        {
            widths[i] = headers[i].as_str().len();
            i = i + 1;
        }
        Table { headers, rows: Vec::new(), widths, alignments: [Alignment::Left; N] }
    }

    /// Set the columns' alignments.
    pub fn align(&mut self, alignments: [Alignment; N])
        ensures
            *final (self) == (Table { alignments, ..*old(self) }),
    {
        self.alignments = alignments;
    }

    /// Append a row, widening each column to hold its cell.
    pub fn row(&mut self, row: [String; N])
        ensures
            final (self).headers == old(self).headers,
            final (self).alignments == old(self).alignments,
            final (self).rows@ == old(self).rows@.push(row),
            forall|i: int|
                0 <= i < N ==> (#[trigger] final (self).widths@[i]) as int == vstd::math::max(
                    old(self).widths@[i] as int,
                    byte_width(row@[i]),
                ),
    {
        let mut i: usize = 0;
        while i < N
            invariant
                i <= N,
                self.headers == old(self).headers,
                self.alignments == old(self).alignments,
                self.rows == old(self).rows,
                forall|j: int|
                    i <= j < N ==> (#[trigger] self.widths@[j]) == old(self).widths@[j],
                forall|j: int|
                    0 <= j < i ==> (#[trigger] self.widths@[j]) as int == vstd::math::max(
                        old(self).widths@[j] as int,
                        byte_width(row@[j]),
                    ),
            decreases N - i,
        {
            let cell_len = row[i].as_str().len();
            if cell_len > self.widths[i] {
                self.widths[i] = cell_len;
            }
            i = i + 1;
        }
        self.rows.push(row);
    }

    /// One row as printed: padded cells, two spaces after each, a newline.
    pub fn fmt_row(&self, row: &[String; N]) -> (r: String)
        ensures
            r@ == row_text(row@, self.widths@, self.alignments@, N as int) + "\n"@,
    {
        let mut out = String::new();
        let mut i: usize = 0;
        proof {
            assert(out@ =~= row_text(row@, self.widths@, self.alignments@, 0));
        }
        while i < N
            invariant
                i <= N,
                out@ == row_text(row@, self.widths@, self.alignments@, i as int),
            decreases N - i,
        {
            push_cell(&mut out, &row[i], self.widths[i], self.alignments[i]);
            out.append("  ");
            proof {
                assert(out@ =~= row_text(row@, self.widths@, self.alignments@, i as int + 1));
            }
            i = i + 1;
        }
        out.append("\n");
        out
    }

    /// The dashed rule as printed.
    fn push_sep(&self, out: &mut String)
        ensures
            final (out)@ == old(out)@ + sep_text(self.widths@, N as int) + "\n"@,
    {
        let mut i: usize = 0;
        proof {
            assert(old(out)@ + sep_text(self.widths@, 0) =~= old(out)@);
        }
        while i < N
            invariant
                i <= N,
                out@ == old(out)@ + sep_text(self.widths@, i as int),
            decreases N - i,
        {
            push_dashes(out, self.widths[i]);
            out.append("  ");
            proof {
                assert(out@ =~= old(out)@ + sep_text(self.widths@, i as int + 1));
            }
            i = i + 1;
        }
        out.append("\n");
    }

    /// The whole table as printed: the header row, a rule, the data rows,
    /// a rule, and the header row again.
    pub open spec fn display_text(self) -> Seq<char> {
        row_text(self.headers@, self.widths@, self.alignments@, N as int) + "\n"@ + sep_text(
            self.widths@,
            N as int,
        ) + "\n"@ + body_text(self.rows@, self.widths@, self.alignments@, self.rows@.len() as int)
            + sep_text(self.widths@, N as int) + "\n"@ + row_text(
            self.headers@,
            self.widths@,
            self.alignments@,
            N as int,
        ) + "\n"@
    }

    /// Render the table.
    pub fn render(&self) -> (r: String)
        ensures
            r@ == self.display_text(),
    {
        let mut out = self.fmt_row(&self.headers);
        self.push_sep(&mut out);
        let mut k: usize = 0;
        proof {
            assert(out@ =~= row_text(self.headers@, self.widths@, self.alignments@, N as int)
                + "\n"@ + sep_text(self.widths@, N as int) + "\n"@ + body_text(
                self.rows@,
                self.widths@,
                self.alignments@,
                0,
            ));
        }
        while k < self.rows.len()
            invariant
                k <= self.rows@.len(),
                out@ == row_text(self.headers@, self.widths@, self.alignments@, N as int) + "\n"@
                    + sep_text(self.widths@, N as int) + "\n"@ + body_text(
                    self.rows@,
                    self.widths@,
                    self.alignments@,
                    k as int,
                ),
            decreases self.rows@.len() - k,
        {
            let line = self.fmt_row(&self.rows[k]);
            out.append(line.as_str());
            proof {
                assert(out@ =~= row_text(self.headers@, self.widths@, self.alignments@, N as int)
                    + "\n"@ + sep_text(self.widths@, N as int) + "\n"@ + body_text(
                    self.rows@,
                    self.widths@,
                    self.alignments@,
                    k as int + 1,
                ));
            }
            k = k + 1;
        }
        self.push_sep(&mut out);
        let tail = self.fmt_row(&self.headers);
        out.append(tail.as_str());
        proof {
            assert(out@ =~= self.display_text());
        }
        out
    }
}

} // verus!
