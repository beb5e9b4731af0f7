use vstd::prelude::*;

use crate::columns::{ColumnInfo, FormattedOutput};

verus! {

/// `n` spaces.
pub open spec fn spaces(n: int) -> Seq<char>
    decreases n,
{
    if n <= 0 {
        Seq::empty()
    } else {
        spaces(n - 1).push(' ')
    }
}

/// `n` horizontal bars.
pub open spec fn dashes(n: int) -> Seq<char>
    decreases n,
{
    if n <= 0 {
        Seq::empty()
    } else {
        dashes(n - 1).push('─')
    }
}

/// A cell padded with spaces up to the column width; a longer cell stands
/// unchanged.
pub open spec fn padded(s: Seq<char>, w: int) -> Seq<char> {
    s + spaces(w - s.len())
}

/// The cell separator.
pub open spec fn cell_gap() -> Seq<char> {
    seq![' ', '│', ' ']
}

/// The separator-line joint.
pub open spec fn dash_gap() -> Seq<char> {
    seq!['─', '┼', '─']
}

/// The header line over the first `k` columns: each name padded to its
/// column's width, joined by the cell separator.
pub open spec fn header_spec(cols: Seq<ColumnInfo>, k: int) -> Seq<char>
    decreases k,
{
    if k <= 0 {
        Seq::empty()
    } else if k == 1 {
        padded(cols[0].name@, cols[0].max_width as int)
    } else {
        header_spec(cols, k - 1) + cell_gap() + padded(cols[k - 1].name@, cols[k - 1].max_width as int)
    }
}

/// The separator line under the header: each column's width in bars, joined
/// by the separator joint.
pub open spec fn separator_spec(cols: Seq<ColumnInfo>, k: int) -> Seq<char>
    decreases k,
{
    if k <= 0 {
        Seq::empty()
    } else if k == 1 {
        dashes(cols[0].max_width as int)
    } else {
        separator_spec(cols, k - 1) + dash_gap() + dashes(cols[k - 1].max_width as int)
    }
}

/// One row's line: each of the first `k` cells padded to its column's width,
/// joined by the cell separator.
pub open spec fn row_line_spec(cols: Seq<ColumnInfo>, cells: Seq<Seq<char>>, k: int) -> Seq<char>
    decreases k,
{
    if k <= 0 {
        Seq::empty()
    } else if k == 1 {
        padded(cells[0], cols[0].max_width as int)
    } else {
        row_line_spec(cols, cells, k - 1) + cell_gap() + padded(
            cells[k - 1],
            cols[k - 1].max_width as int,
        )
    }
}

fn pad_cell(s: &str, w: usize) -> (r: String)
    ensures
        r@ == padded(s@, w as int),
{
    let mut r = s.to_owned();
    let n = s.unicode_len();
    let mut have = n;
    proof {
        assert(r@ =~= s@ + spaces(0));
    }
    while have < w
        invariant
            have >= n,
            have == n || have <= w,
            r@ == s@ + spaces(have - n),
            r@.len() == have,
        decreases w - have,
    {
        proof {
            reveal_strlit(" ");
        }
        r.append(" ");
        proof {
            assert(r@ =~= s@ + spaces(have + 1 - n));
        }
        have = have + 1;
    }
    proof {
        assert(r@ =~= padded(s@, w as int));
    }
    r
}

fn dash_cell(w: usize) -> (r: String)
    ensures
        r@ == dashes(w as int),
{
    let mut r = String::new();
    let mut have: usize = 0;
    proof {
        assert(r@ =~= dashes(0));
    }
    while have < w
        invariant
            have <= w,
            r@ == dashes(have as int),
        decreases w - have,
    {
        proof {
            reveal_strlit("─");
        }
        r.append("─");
        proof {
            assert(r@ =~= dashes(have + 1));
        }
        have = have + 1;
    }
    r
}

fn append_cell_gap(s: &mut String)
    ensures
        final(s)@ == old(s)@ + cell_gap(),
{
    proof {
        reveal_strlit(" │ ");
    }
    s.append(" │ ");
    proof {
        assert(final(s)@ =~= old(s)@ + cell_gap());
    }
}

fn append_dash_gap(s: &mut String)
    ensures
        final(s)@ == old(s)@ + dash_gap(),
{
    proof {
        reveal_strlit("─┼─");
    }
    s.append("─┼─");
    proof {
        assert(final(s)@ =~= old(s)@ + dash_gap());
    }
}

/// Renders the discovered schema and its rows as column-aligned text: the
/// header line, a separator line of bars sized to each column, then one line
/// per row with every cell padded to its column's width. Absent values
/// render as blank space.
pub fn render_table(output: &FormattedOutput) -> (r: Vec<String>)
    requires
        forall|i: int|
            0 <= i < output.rows@.len() ==> (#[trigger] output.rows@[i])@.len()
                == output.columns@.len(),
    ensures
        r@.len() == 2 + output.rows@.len(),
        r@[0]@ == header_spec(output.columns@, output.columns@.len() as int),
        r@[1]@ == separator_spec(output.columns@, output.columns@.len() as int),
        forall|i: int|
            0 <= i < output.rows@.len() ==> (#[trigger] r@[i + 2])@ == row_line_spec(
                output.columns@,
                output.rows@[i]@.map_values(|c: String| c@),
                output.columns@.len() as int,
            ),
{
    let ncols = output.columns.len();
    let mut header = String::new();
    let mut sep = String::new();
    let mut j: usize = 0;
    while j < ncols
        invariant
            ncols == output.columns@.len(),
            j <= ncols,
            header@ == header_spec(output.columns@, j as int),
            sep@ == separator_spec(output.columns@, j as int),
        decreases ncols - j,
    {
        let col = &output.columns[j];
        if j > 0 {
            append_cell_gap(&mut header);
            append_dash_gap(&mut sep);
        }
        let padded_name = pad_cell(col.name.as_str(), col.max_width);
        header.append(padded_name.as_str());
        let bars = dash_cell(col.max_width);
        sep.append(bars.as_str());
        proof {
            if j == 0 {
                assert(header@ =~= header_spec(output.columns@, 1));
                assert(sep@ =~= separator_spec(output.columns@, 1));
            }
        }
        j = j + 1;
    }
    let mut lines: Vec<String> = Vec::new();
    lines.push(header);
    lines.push(sep);
    let nrows = output.rows.len();
    let mut i: usize = 0;
    while i < nrows
        invariant
            ncols == output.columns@.len(),
            nrows == output.rows@.len(),
            forall|k: int|
                0 <= k < output.rows@.len() ==> (#[trigger] output.rows@[k])@.len()
                    == output.columns@.len(),
            i <= nrows,
            lines@.len() == 2 + i,
            lines@[0]@ == header_spec(output.columns@, ncols as int),
            lines@[1]@ == separator_spec(output.columns@, ncols as int),
            forall|k: int|
                0 <= k < i ==> (#[trigger] lines@[k + 2])@ == row_line_spec(
                    output.columns@,
                    output.rows@[k]@.map_values(|c: String| c@),
                    ncols as int,
                ),
        decreases nrows - i,
    {
        let row = &output.rows[i];
        let ghost cells = output.rows@[i as int]@.map_values(|c: String| c@);
        let mut line = String::new();
        let mut j2: usize = 0;
        while j2 < ncols
            invariant
                ncols == output.columns@.len(),
                i < nrows,
                nrows == output.rows@.len(),
                row == &output.rows@[i as int],
                row@.len() == ncols,
                cells == output.rows@[i as int]@.map_values(|c: String| c@),
                cells.len() == ncols,
                j2 <= ncols,
                line@ == row_line_spec(output.columns@, cells, j2 as int),
            decreases ncols - j2,
        {
            if j2 > 0 {
                append_cell_gap(&mut line);
            }
            let padded_cell = pad_cell(row[j2].as_str(), output.columns[j2].max_width);
            line.append(padded_cell.as_str());
            proof {
                assert(cells[j2 as int] == row@[j2 as int]@);
                if j2 == 0 {
                    assert(line@ =~= row_line_spec(output.columns@, cells, 1));
                }
            }
            j2 = j2 + 1;
        }
        lines.push(line);
        i = i + 1;
    }
    lines
}

} // verus!
