//! A table of texts, written with its columns aligned.

use vstd::prelude::*;
use crate::text::{byte_len, push_text, utf8_len};

verus! {

/// Construct a table which can be pretty printed.
///
/// Each cell is followed by spaces up to the width of its column and by
/// ` | `; under the headers stands a line of dashes.
pub struct Table<const COLUMNS: usize> {
    headers: [String; COLUMNS],
    data: Vec<[String; COLUMNS]>,
}

/// The texts of a row.
pub open spec fn row_texts(row: Seq<String>) -> Seq<Seq<char>> {
    row.map_values(|s: String| s@)
}

/// The greater of two lengths.
pub open spec fn longer(a: nat, b: nat) -> nat {
    if a >= b {
        a
    } else {
        b
    }
}

/// The width in bytes of column `c` among the first `k` rows: that of its
/// longest cell, the header included.
pub open spec fn column_width(headers: Seq<Seq<char>>, rows: Seq<Seq<Seq<char>>>, c: int, k: nat) -> nat
    decreases k,
{
    if k == 0 {
        utf8_len(headers[c])
    } else {
        longer(column_width(headers, rows, c, (k - 1) as nat), utf8_len(rows[k - 1][c]))
    }
}

/// `n` times the character `c`.
pub open spec fn repeated(c: char, n: nat) -> Seq<char> {
    Seq::new(n, |i: int| c)
}

/// How many spaces fill a cell up to the width `w`.
pub open spec fn padding(v: Seq<char>, w: nat) -> nat {
    if w >= utf8_len(v) {
        (w - utf8_len(v)) as nat
    } else {
        0
    }
}

/// A cell in a column of width `w`.
pub open spec fn cell_text(v: Seq<char>, w: nat) -> Seq<char> {
    v + repeated(' ', padding(v, w)) + seq![' ', '|', ' ']
}

/// The first `c` cells of a row.
pub open spec fn row_text(row: Seq<Seq<char>>, widths: Seq<nat>, c: nat) -> Seq<char>
    decreases c,
{
    if c == 0 {
        Seq::empty()
    } else {
        row_text(row, widths, (c - 1) as nat) + cell_text(row[c - 1], widths[c - 1])
    }
}

/// The dashes under the first `c` columns.
pub open spec fn rule_text(widths: Seq<nat>, c: nat) -> Seq<char>
    decreases c,
{
    if c == 0 {
        Seq::empty()
    } else {
        rule_text(widths, (c - 1) as nat) + repeated('-', widths[c - 1] + 3)
    }
}

/// The first `k` rows, each with its line feed.
pub open spec fn rows_text(rows: Seq<Seq<Seq<char>>>, widths: Seq<nat>, k: nat) -> Seq<char>
    decreases k,
{
    if k == 0 {
        Seq::empty()
    } else {
        rows_text(rows, widths, (k - 1) as nat) + row_text(
            rows[k - 1],
            widths,
            rows[k - 1].len(),
        ) + seq!['\n']
    }
}

/// The widths of the columns.
pub open spec fn widths_of(headers: Seq<Seq<char>>, rows: Seq<Seq<Seq<char>>>) -> Seq<nat> {
    Seq::new(headers.len(), |c: int| column_width(headers, rows, c, rows.len()))
}

/// The table as a text.
pub open spec fn table_text(headers: Seq<Seq<char>>, rows: Seq<Seq<Seq<char>>>) -> Seq<char> {
    let widths = widths_of(headers, rows);
    row_text(headers, widths, headers.len()) + seq!['\n'] + rule_text(widths, headers.len()) + seq![
        '\n',
    ] + rows_text(rows, widths, rows.len())
}

/// Appends `n` times the character `c`.
fn push_repeated(out: &mut String, c: char, n: usize)
    ensures
        final(out)@ == old(out)@ + repeated(c, n as nat),
{
    let mut i: usize = 0;
    while i < n
        invariant
            i <= n,
            out@ == old(out)@ + repeated(c, i as nat),
        decreases n - i,
    {
        out.push(c);
        i = i + 1;
        assert(out@ =~= old(out)@ + repeated(c, i as nat));
    }
}

impl<const COLUMNS: usize> Table<COLUMNS> {
    /// The texts of the headers.
    pub closed spec fn header_texts(&self) -> Seq<Seq<char>> {
        row_texts(self.headers@)
    }

    /// The texts of the rows.
    pub closed spec fn data_texts(&self) -> Seq<Seq<Seq<char>>> {
        self.data@.map_values(|row: [String; COLUMNS]| row_texts(row@))
    }

    /// A table with the given headers and rows.
    pub fn new(headers: [String; COLUMNS], data: Vec<[String; COLUMNS]>) -> (r: Self)
        ensures
            r.header_texts() == row_texts(headers@),
            r.data_texts() == data@.map_values(|row: [String; COLUMNS]| row_texts(row@)),
    {
        Self { headers, data }
    }

    /// Appends the cells of a row, each in the width of its column.
    fn push_row(out: &mut String, row: &[String; COLUMNS], maxs: &Vec<usize>, Ghost(widths): Ghost<Seq<nat>>)
        requires
            maxs@.len() == COLUMNS,
            widths.len() == COLUMNS,
            forall|c: int| 0 <= c < COLUMNS ==> #[trigger] maxs@[c] == widths[c],
        ensures
            final(out)@ == old(out)@ + row_text(row_texts(row@), widths, COLUMNS as nat),
    {
        let ghost texts = row_texts(row@);
        let mut c: usize = 0;
        while c < COLUMNS
            invariant
                c <= COLUMNS,
                maxs@.len() == COLUMNS,
                widths.len() == COLUMNS,
                texts == row_texts(row@),
                forall|c: int| 0 <= c < COLUMNS ==> #[trigger] maxs@[c] == widths[c],
                out@ == old(out)@ + row_text(texts, widths, c as nat),
            decreases COLUMNS - c,
        {
            let v = &row[c];
            let max = maxs[c];
            let len = byte_len(v.as_str());
            let diff = if max >= len {
                max - len
            } else {
                0
            };
            push_text(out, v.as_str());
            if diff > 0 {
                push_repeated(out, ' ', diff);
            }
            out.push(' ');
            out.push('|');
            out.push(' ');
            proof {
                assert(texts[c as int] == row@[c as int]@);
                assert(repeated(' ', 0) =~= Seq::<char>::empty());
                assert(out@ =~= old(out)@ + (row_text(texts, widths, c as nat) + cell_text(
                    texts[c as int],
                    widths[c as int],
                )));
            }
            c = c + 1;
        }
    }

    /// The table as a text.
    pub fn to_text(&self) -> (r: String)
        ensures
            r@ == table_text(self.header_texts(), self.data_texts()),
    {
        let ghost headers = self.header_texts();
        let ghost rows = self.data_texts();
        let n = self.data.len();
        let mut maxs: Vec<usize> = Vec::new();
        let mut c: usize = 0;
        while c < COLUMNS
            invariant
                c <= COLUMNS,
                maxs@.len() == c,
                n == self.data@.len(),
                headers == self.header_texts(),
                rows == self.data_texts(),
                forall|i: int| 0 <= i < c ==> #[trigger] maxs@[i] == column_width(headers, rows, i, n as nat),
            decreases COLUMNS - c,
        {
            let mut max = byte_len(self.headers[c].as_str());
            assert(headers[c as int] == self.headers@[c as int]@);
            let mut k: usize = 0;
            while k < n
                invariant
                    k <= n,
                    c < COLUMNS,
                    n == self.data@.len(),
                    headers == self.header_texts(),
                    rows == self.data_texts(),
                    max == column_width(headers, rows, c as int, k as nat),
                decreases n - k,
            {
                let len = byte_len(self.data[k][c].as_str());
                assert(rows[k as int][c as int] == self.data@[k as int]@[c as int]@);
                if len > max {
                    max = len;
                }
                k = k + 1;
            }
            maxs.push(max);
            c = c + 1;
        }
        let ghost widths = widths_of(headers, rows);
        assert(headers.len() == COLUMNS);
        assert forall|i: int| 0 <= i < COLUMNS implies #[trigger] maxs@[i] == widths[i] by {}

        let mut out = String::new();
        Self::push_row(&mut out, &self.headers, &maxs, Ghost(widths));
        out.push('\n');
        let ghost head = out@;
        let mut c: usize = 0;
        while c < COLUMNS
            invariant
                c <= COLUMNS,
                maxs@.len() == COLUMNS,
                widths.len() == COLUMNS,
                forall|i: int| 0 <= i < COLUMNS ==> #[trigger] maxs@[i] == widths[i],
                out@ == head + rule_text(widths, c as nat),
            decreases COLUMNS - c,
        {
            push_repeated(&mut out, '-', maxs[c]);
            out.push('-');
            out.push('-');
            out.push('-');
            proof {
                let w = widths[c as int];
                assert(repeated('-', w) + seq!['-', '-', '-'] =~= repeated('-', w + 3));
                assert(out@ =~= head + (rule_text(widths, c as nat) + repeated('-', w + 3)));
            }
            c = c + 1;
        }
        out.push('\n');
        let ghost top = out@;

        let mut k: usize = 0;
        while k < n
            invariant
                k <= n,
                n == self.data@.len(),
                rows == self.data_texts(),
                maxs@.len() == COLUMNS,
                widths.len() == COLUMNS,
                forall|i: int| 0 <= i < COLUMNS ==> #[trigger] maxs@[i] == widths[i],
                out@ == top + rows_text(rows, widths, k as nat),
            decreases n - k,
        {
            let ghost before = out@;
            Self::push_row(&mut out, &self.data[k], &maxs, Ghost(widths));
            out.push('\n');
            proof {
                assert(rows[k as int] == row_texts(self.data@[k as int]@));
                assert(rows[k as int].len() == COLUMNS);
                assert(out@ =~= top + (rows_text(rows, widths, k as nat) + row_text(
                    rows[k as int],
                    widths,
                    COLUMNS as nat,
                ) + seq!['\n']));
            }
            k = k + 1;
        }
        assert(out@ =~= table_text(headers, rows));
        out
    }
}

} // verus!
