//! Laying out a table of cells as lines of text, each column as wide as
//! its widest cell (in bytes), each cell padded with its own fill character.

use crate::stream::Entry;
use crate::text::push_char;
use std::sync::Arc;
use vstd::prelude::*;
use vstd::utf8::encode_utf8;

verus! {

pub type Cell = (Seq<char>, char);

pub open spec fn byte_len(s: Seq<char>) -> nat {
    encode_utf8(s).len()
}

pub open spec fn rows_view(rows: Seq<Vec<(String, char)>>) -> Seq<Seq<Cell>> {
    rows.map_values(|row: Vec<(String, char)>| row@.map_values(|c: (String, char)| (c.0@, c.1)))
}

/// The widest cell of column `n`, in bytes; 0 when no row reaches it.
pub open spec fn col_width(rows: Seq<Seq<Cell>>, n: int) -> nat
    decreases rows.len(),
{
    if rows.len() == 0 {
        0
    } else {
        let w = col_width(rows.drop_last(), n);
        let last = rows.last();
        if 0 <= n < last.len() && byte_len(last[n].0) > w {
            byte_len(last[n].0)
        } else {
            w
        }
    }
}

/// The length of the longest row.
pub open spec fn ncols(rows: Seq<Seq<Cell>>) -> nat
    decreases rows.len(),
{
    if rows.len() == 0 {
        0
    } else if rows.last().len() > ncols(rows.drop_last()) {
        rows.last().len()
    } else {
        ncols(rows.drop_last())
    }
}

/// A cell's text followed by its fill character up to width `w`.
pub open spec fn cell_text(cell: Cell, w: nat) -> Seq<char> {
    cell.0 + Seq::new((w - byte_len(cell.0)) as nat, |_i: int| cell.1)
}

/// The line for a row: its cells, each padded to its column's width.
pub open spec fn row_text(row: Seq<Cell>, rows: Seq<Seq<Cell>>) -> Seq<char>
    decreases row.len(),
{
    if row.len() == 0 {
        Seq::empty()
    } else {
        row_text(row.drop_last(), rows) + cell_text(row.last(), col_width(rows, row.len() - 1))
    }
}

proof fn lemma_col_width_past(rows: Seq<Seq<Cell>>, n: int)
    requires
        n >= ncols(rows),
    ensures
        col_width(rows, n) == 0,
    decreases rows.len(),
{
    if rows.len() > 0 {
        lemma_col_width_past(rows.drop_last(), n);
    }
}

proof fn lemma_col_width_bounds(rows: Seq<Seq<Cell>>, i: int, n: int)
    requires
        0 <= i < rows.len(),
        0 <= n < rows[i].len(),
    ensures
        byte_len(rows[i][n].0) <= col_width(rows, n),
    decreases rows.len(),
{
    if i < rows.len() - 1 {
        lemma_col_width_bounds(rows.drop_last(), i, n);
        assert(rows.drop_last()[i] == rows[i]);
    }
}

/// `k` copies of `c`.
fn fill(k: usize, c: char) -> (s: String)
    ensures
        s@ == Seq::new(k as nat, |_i: int| c),
{
    let mut s = String::new();
    let mut i: usize = 0;
    while i < k
        invariant
            i <= k,
            s@ == Seq::new(i as nat, |_i: int| c),
        decreases k - i,
    {
        push_char(&mut s, c);
        assert(s@ =~= Seq::new((i + 1) as nat, |_i: int| c));
        i = i + 1;
    }
    s
}

/// The lines of the table, one per row.
pub fn dump_table(rows: &Vec<Vec<(String, char)>>) -> (lines: Vec<String>)
    ensures
        lines@.len() == rows@.len(),
        forall|i: int| 0 <= i < rows@.len() ==> (#[trigger] lines@[i])@ == row_text(rows_view(rows@)[i], rows_view(rows@)),
{
    let ghost rv = rows_view(rows@);
    let mut widths: Vec<usize> = Vec::new();
    let mut i: usize = 0;
    assert(rv.take(0) =~= Seq::<Seq<Cell>>::empty());
    while i < rows.len()
        invariant
            rv == rows_view(rows@),
            i <= rows@.len(),
            widths@.len() == ncols(rv.take(i as int)),
            forall|n: int| 0 <= n < widths@.len() ==> #[trigger] widths@[n] == col_width(rv.take(i as int), n),
        decreases rows@.len() - i,
    {
        let row = &rows[i];
        let ghost prev = rv.take(i as int);
        let ghost next = rv.take(i + 1);
        assert(next.drop_last() =~= prev);
        assert(next.last() == rv[i as int]);
        assert(rv[i as int] == row@.map_values(|c: (String, char)| (c.0@, c.1)));
        let mut j: usize = 0;
        while j < row.len()
            invariant
                rv == rows_view(rows@),
                i < rows@.len(),
                row == &rows@[i as int],
                prev == rv.take(i as int),
                rv[i as int] == row@.map_values(|c: (String, char)| (c.0@, c.1)),
                j <= row@.len(),
                widths@.len() == (if ncols(prev) > j { ncols(prev) } else { j as nat }),
                forall|n: int| 0 <= n < widths@.len() ==> #[trigger] widths@[n] == (
                    if n < j && byte_len(rv[i as int][n].0) > col_width(prev, n) {
                        byte_len(rv[i as int][n].0)
                    } else {
                        col_width(prev, n)
                    }),
            decreases row@.len() - j,
        {
            let len = row[j].0.as_str().as_bytes().len();
            assert(len == byte_len(rv[i as int][j as int].0));
            if j >= widths.len() {
                proof {
                    lemma_col_width_past(prev, j as int);
                }
                widths.push(0);
            }
            if widths[j] < len {
                widths[j] = len;
            }
            j = j + 1;
        }
        proof {
            assert forall|n: int| 0 <= n < widths@.len() implies #[trigger] widths@[n] == col_width(next, n) by {
                if n >= ncols(prev) {
                    lemma_col_width_past(prev, n);
                }
            }
        }
        i = i + 1;
    }
    assert(rv.take(i as int) =~= rv);
    let mut lines: Vec<String> = Vec::new();
    let mut i: usize = 0;
    while i < rows.len()
        invariant
            rv == rows_view(rows@),
            i <= rows@.len(),
            widths@.len() == ncols(rv),
            forall|n: int| 0 <= n < widths@.len() ==> #[trigger] widths@[n] == col_width(rv, n),
            lines@.len() == i,
            forall|k: int| 0 <= k < i ==> (#[trigger] lines@[k])@ == row_text(rv[k], rv),
        decreases rows@.len() - i,
    {
        let row = &rows[i];
        let ghost rvi = rv[i as int];
        assert(rvi == row@.map_values(|c: (String, char)| (c.0@, c.1)));
        let mut line = String::new();
        let mut j: usize = 0;
        assert(rvi.take(0) =~= Seq::<Cell>::empty());
        while j < row.len()
            invariant
                rv == rows_view(rows@),
                i < rows@.len(),
                row == &rows@[i as int],
                rvi == rv[i as int],
                rvi == row@.map_values(|c: (String, char)| (c.0@, c.1)),
                widths@.len() == ncols(rv),
                forall|n: int| 0 <= n < widths@.len() ==> #[trigger] widths@[n] == col_width(rv, n),
                j <= row@.len(),
                line@ == row_text(rvi.take(j as int), rv),
            decreases row@.len() - j,
        {
            proof {
                lemma_col_width_bounds(rv, i as int, j as int);
                lemma_ncols_bounds(rv, i as int);
            }
            let s = row[j].0.as_str();
            let len = s.as_bytes().len();
            assert(len == byte_len(rvi[j as int].0));
            let w = widths[j];
            line.append(s);
            let pad = fill(w - len, row[j].1);
            line.append(pad.as_str());
            assert(rvi.take(j + 1).drop_last() =~= rvi.take(j as int));
            assert(rvi.take(j + 1).last() == rvi[j as int]);
            assert(line@ =~= row_text(rvi.take(j + 1), rv));
            j = j + 1;
        }
        assert(rvi.take(j as int) =~= rvi);
        lines.push(line);
        i = i + 1;
    }
    lines
}

/// `std::sync::Arc::<str>::from` on a `&str`: a shared string with the
/// same text.
#[verifier::external_body]
fn arc_str(s: &str) -> (r: Arc<str>)
    ensures
        r@ == s@,
{
    Arc::from(s)
}

/// A writer in the state `f`, handed the line `l`, may answer `b`.
pub open spec fn line_answered<W: FnMut(Entry) -> bool>(f: W, l: Seq<char>, b: bool) -> bool {
    exists|x: Arc<str>| x@ == l && #[trigger] call_ensures(f, (Entry::Line(x),), b)
}

/// The writer was handed `lines` in order, one call each, up to the first
/// line it refused: call `j` found it in the state `ws[j]`, answered
/// `rs[j]` and left it in the state `ws[j + 1]`; `r` says whether it took
/// them all.
pub open spec fn wrote_lines<W: FnMut(Entry) -> bool>(lines: Seq<Seq<char>>, rs: Seq<bool>, ws: Seq<W>, r: bool) -> bool {
    &&& rs.len() <= lines.len()
    &&& ws.len() == rs.len() + 1
    &&& forall|j: int| 0 <= j < rs.len() ==> line_answered::<W>(ws[j], lines[j], #[trigger] rs[j])
    &&& forall|j: int| 0 <= j < rs.len() - 1 ==> #[trigger] rs[j]
    &&& rs.len() < lines.len() ==> rs.len() > 0 && !rs.last()
    &&& r == (rs.len() == lines.len() && (rs.len() == 0 || rs.last()))
}

/// The lines of the table of `rows`.
pub open spec fn table_lines(rows: Seq<Seq<Cell>>) -> Seq<Seq<char>> {
    Seq::new(rows.len(), |i: int| row_text(rows[i], rows))
}

/// Hands the table's lines to `w` in order, stopping at the first it
/// refuses; says whether it took them all.
pub fn write_table<W: FnMut(Entry) -> bool>(rows: &Vec<Vec<(String, char)>>, w: &mut W) -> (r: bool)
    requires
        forall|f: W, e: Entry| call_requires(f, (e,)),
    ensures
        exists|rs: Seq<bool>, ws: Seq<W>|
            #[trigger] wrote_lines::<W>(table_lines(rows_view(rows@)), rs, ws, r) && ws[0] == *old(w) && ws[rs.len() as int]
                == *final(w),
{
    let lines = dump_table(rows);
    let ghost want = table_lines(rows_view(rows@));
    let ghost mut rs: Seq<bool> = Seq::empty();
    let ghost mut ws: Seq<W> = seq![*w];
    let mut i: usize = 0;
    while i < lines.len()
        invariant
            want == table_lines(rows_view(rows@)),
            lines@.len() == want.len(),
            forall|k: int| 0 <= k < lines@.len() ==> (#[trigger] lines@[k])@ == want[k],
            forall|f: W, e: Entry| call_requires(f, (e,)),
            i <= lines@.len(),
            rs.len() == i,
            ws.len() == i + 1,
            ws[0] == *old(w),
            ws[i as int] == *w,
            forall|j: int| 0 <= j < rs.len() ==> line_answered::<W>(ws[j], want[j], #[trigger] rs[j]),
            forall|j: int| 0 <= j < rs.len() ==> #[trigger] rs[j],
        decreases lines@.len() - i,
    {
        let x = arc_str(lines[i].as_str());
        let ghost gx = x;
        let ghost w0 = *w;
        let b = w(Entry::Line(x));
        proof {
            assert(line_answered::<W>(w0, want[i as int], b));
            rs = rs.push(b);
            ws = ws.push(*w);
            assert(ws[i as int] == w0);
        }
        if !b {
            assert(wrote_lines::<W>(want, rs, ws, false));
            return false;
        }
        i = i + 1;
    }
    assert(wrote_lines::<W>(want, rs, ws, true));
    true
}

proof fn lemma_ncols_bounds(rows: Seq<Seq<Cell>>, i: int)
    requires
        0 <= i < rows.len(),
    ensures
        rows[i].len() <= ncols(rows),
    decreases rows.len(),
{
    if i < rows.len() - 1 {
        lemma_ncols_bounds(rows.drop_last(), i);
        assert(rows.drop_last()[i] == rows[i]);
    }
}

} // verus!
