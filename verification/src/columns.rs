use vstd::prelude::*;

use crate::flatten::{
    flatten_json_to_columns, leaves, lemma_row_lookup_inserted, lemma_row_lookup_member,
    lemma_row_lookup_other, merge_rows, row_insert, row_lookup, row_of_leaves, FlatRow,
};
use crate::json::{parse_json, parsed_json};
use crate::text::{
    find_char, find_char_from, lemma_find_char, lemma_lex_lt_total, lemma_lex_lt_trans, lex_lt,
    str_compare, trim, trimmed,
};

verus! {

/// The name of the fixed first column.
pub open spec fn ts_key() -> Seq<char> {
    seq!['t', 'i', 'm', 'e', 's', 't', 'a', 'm', 'p']
}

/// The name of the fixed second column.
pub open spec fn group_key() -> Seq<char> {
    seq!['l', 'o', 'g', '_', 'g', 'r', 'o', 'u', 'p']
}

pub open spec fn lines_view(logs: Seq<String>) -> Seq<Seq<char>> {
    logs.map_values(|s: String| s@)
}

/// The flattened structured body of a line: empty when the body does not
/// parse as structured data — the opaque-text fallback.
pub open spec fn body_row_of(line: Seq<char>) -> Seq<(Seq<char>, Seq<char>)> {
    match parsed_json(parse_log_line_spec(line).2) {
        Some(v) => row_of_leaves(leaves(v, Seq::empty())),
        None => Seq::empty(),
    }
}

/// The whole row of a line: every structured body entry, then the bracketed
/// timestamp and stream under the two fixed names — inserted last, so the
/// extracted values stand in every row whatever the body holds.
pub open spec fn full_row_of(line: Seq<char>) -> Seq<(Seq<char>, Seq<char>)> {
    let parts = parse_log_line_spec(line);
    row_insert(
        row_insert(
            merge_rows(Seq::<(Seq<char>, Seq<char>)>::empty(), body_row_of(line)),
            ts_key(),
            parts.0,
        ),
        group_key(),
        parts.1,
    )
}

pub open spec fn imax(a: int, b: int) -> int {
    if a >= b {
        a
    } else {
        b
    }
}

/// In how many of the rows the path occurs.
pub open spec fn rows_frequency(rows: Seq<Seq<(Seq<char>, Seq<char>)>>, name: Seq<char>) -> int
    decreases rows.len(),
{
    if rows.len() == 0 {
        0
    } else {
        rows_frequency(rows.drop_last(), name) + if row_lookup(rows.last(), name) is Some {
            1int
        } else {
            0int
        }
    }
}

/// The widest value under the path across the rows, each value's width
/// capped at 100 before comparison.
pub open spec fn rows_width(rows: Seq<Seq<(Seq<char>, Seq<char>)>>, name: Seq<char>) -> int
    decreases rows.len(),
{
    if rows.len() == 0 {
        0
    } else {
        imax(
            rows_width(rows.drop_last(), name),
            match row_lookup(rows.last(), name) {
                Some(v) => if v.len() <= 100 {
                    v.len() as int
                } else {
                    100
                },
                None => 0,
            },
        )
    }
}

/// In how many of the lines the path occurs in the structured body.
pub open spec fn column_frequency(lines: Seq<Seq<char>>, name: Seq<char>) -> int {
    rows_frequency(lines.map_values(|l: Seq<char>| body_row_of(l)), name)
}

/// The widest structured body value under the path across the lines.
pub open spec fn column_width(lines: Seq<Seq<char>>, name: Seq<char>) -> int {
    rows_width(lines.map_values(|l: Seq<char>| body_row_of(l)), name)
}

/// The widest bracketed timestamp across the lines.
pub open spec fn ts_width(lines: Seq<Seq<char>>) -> int
    decreases lines.len(),
{
    if lines.len() == 0 {
        0
    } else {
        imax(ts_width(lines.drop_last()), parse_log_line_spec(lines.last()).0.len() as int)
    }
}

/// The widest bracketed stream name across the lines.
pub open spec fn group_width(lines: Seq<Seq<char>>) -> int
    decreases lines.len(),
{
    if lines.len() == 0 {
        0
    } else {
        imax(group_width(lines.drop_last()), parse_log_line_spec(lines.last()).1.len() as int)
    }
}

/// One column of the discovered schema.
pub struct ColumnInfo {
    pub name: String,
    /// In how many rows the column occurs.
    pub frequency: usize,
    /// The width the column renders at.
    pub max_width: usize,
}

/// The discovered schema and every row materialized against it.
pub struct FormattedOutput {
    pub columns: Vec<ColumnInfo>,
    pub rows: Vec<Vec<String>>,
}

/// The column order among non-fixed columns: higher frequency first, equal
/// frequencies by ascending name.
pub open spec fn col_before(af: int, an: Seq<char>, bf: int, bn: Seq<char>) -> bool {
    af > bf || (af == bf && lex_lt(an, bn))
}

/// The column order is total: of two columns with different names one comes
/// strictly first, and never both.
pub proof fn lemma_col_order_total(af: int, an: Seq<char>, bf: int, bn: Seq<char>)
    requires
        an != bn,
    ensures
        col_before(af, an, bf, bn) || col_before(bf, bn, af, an),
        !(col_before(af, an, bf, bn) && col_before(bf, bn, af, an)),
{
    lemma_lex_lt_total(an, bn);
    lemma_lex_lt_total(bn, an);
}

pub proof fn lemma_col_order_trans(
    af: int,
    an: Seq<char>,
    bf: int,
    bn: Seq<char>,
    cf: int,
    cn: Seq<char>,
)
    requires
        col_before(af, an, bf, bn),
        col_before(bf, bn, cf, cn),
    ensures
        col_before(af, an, cf, cn),
{
    if af == bf && bf == cf {
        lemma_lex_lt_trans(an, bn, cn);
    }
}

spec fn rows_views(rs: Seq<FlatRow>) -> Seq<Seq<(Seq<char>, Seq<char>)>> {
    rs.map_values(|r: FlatRow| r@)
}

/// Every row's frequency count lies between zero and the row count.
proof fn lemma_frequency_bounds(rows: Seq<Seq<(Seq<char>, Seq<char>)>>, name: Seq<char>)
    ensures
        0 <= rows_frequency(rows, name) <= rows.len(),
    decreases rows.len(),
{
    if rows.len() > 0 {
        lemma_frequency_bounds(rows.drop_last(), name);
    }
}

/// A path that occurs in some row is counted at least once.
proof fn lemma_frequency_positive(rows: Seq<Seq<(Seq<char>, Seq<char>)>>, name: Seq<char>, k: int)
    requires
        0 <= k < rows.len(),
        row_lookup(rows[k], name) is Some,
    ensures
        rows_frequency(rows, name) >= 1,
    decreases rows.len(),
{
    lemma_frequency_bounds(rows.drop_last(), name);
    if k < rows.len() - 1 {
        assert(rows.drop_last()[k] == rows[k]);
        lemma_frequency_positive(rows.drop_last(), name, k);
    }
}

fn count_frequency(rows: &Vec<FlatRow>, name: &str) -> (n: usize)
    ensures
        n == rows_frequency(rows_views(rows@), name@),
{
    let ghost rv = rows_views(rows@);
    proof {
        assert(rv.take(0) =~= Seq::<Seq<(Seq<char>, Seq<char>)>>::empty());
    }
    let mut n: usize = 0;
    let mut i: usize = 0;
    while i < rows.len()
        invariant
            rv == rows_views(rows@),
            rv.len() == rows@.len(),
            i <= rows@.len(),
            n <= i,
            n == rows_frequency(rv.take(i as int), name@),
        decreases rows@.len() - i,
    {
        proof {
            assert(rv.take(i + 1).drop_last() =~= rv.take(i as int));
            assert(rv.take(i + 1).last() == rv[i as int]);
            assert(rv[i as int] == rows@[i as int]@);
            lemma_frequency_bounds(rv.take(i as int), name@);
        }
        if rows[i].get(name).is_some() {
            n = n + 1;
        }
        i = i + 1;
    }
    proof {
        assert(rv.take(rows@.len() as int) =~= rv);
    }
    n
}

fn max_body_width(rows: &Vec<FlatRow>, name: &str) -> (w: usize)
    ensures
        w == rows_width(rows_views(rows@), name@),
{
    let ghost rv = rows_views(rows@);
    proof {
        assert(rv.take(0) =~= Seq::<Seq<(Seq<char>, Seq<char>)>>::empty());
    }
    let mut w: usize = 0;
    let mut i: usize = 0;
    while i < rows.len()
        invariant
            rv == rows_views(rows@),
            rv.len() == rows@.len(),
            i <= rows@.len(),
            w == rows_width(rv.take(i as int), name@),
        decreases rows@.len() - i,
    {
        proof {
            assert(rv.take(i + 1).drop_last() =~= rv.take(i as int));
            assert(rv.take(i + 1).last() == rv[i as int]);
            assert(rv[i as int] == rows@[i as int]@);
        }
        match rows[i].get(name) {
            Some(v) => {
                let vw = v.as_str().unicode_len();
                let cw = if vw <= 100 {
                    vw
                } else {
                    100
                };
                if cw > w {
                    w = cw;
                }
            },
            None => {},
        }
        i = i + 1;
    }
    proof {
        assert(rv.take(rows@.len() as int) =~= rv);
    }
    w
}

fn col_less(a: &ColumnInfo, b: &ColumnInfo) -> (r: bool)
    ensures
        r == col_before(a.frequency as int, a.name@, b.frequency as int, b.name@),
{
    if a.frequency > b.frequency {
        true
    } else if a.frequency == b.frequency {
        let cmp = str_compare(a.name.as_str(), b.name.as_str());
        proof {
            crate::text::lemma_lex_lt_irrefl(a.name@);
            lemma_lex_lt_total(a.name@, b.name@);
            lemma_lex_lt_total(b.name@, a.name@);
        }
        cmp == -1
    } else {
        false
    }
}

/// A column's name and statistics, the identity the sort preserves.
pub open spec fn col_view(c: ColumnInfo) -> (Seq<char>, int, int) {
    (c.name@, c.frequency as int, c.max_width as int)
}

/// The column stands, with the same name and statistics, somewhere in `s`.
pub open spec fn col_present(c: ColumnInfo, s: Seq<ColumnInfo>) -> bool {
    exists|t: int| 0 <= t < s.len() && col_view(c) == col_view(#[trigger] s[t])
}

/// Sorts columns into the column order; names must be pairwise distinct, and
/// the result holds exactly the given columns.
#[verifier::rlimit(60)]
fn sort_columns(cols: Vec<ColumnInfo>) -> (r: Vec<ColumnInfo>)
    requires
        forall|t1: int, t2: int|
            0 <= t1 < t2 < cols@.len() ==> (#[trigger] cols@[t1].name@) != (
            #[trigger] cols@[t2].name@),
    ensures
        r@.len() == cols@.len(),
        forall|t1: int, t2: int|
            0 <= t1 < t2 < r@.len() ==> col_before(
                #[trigger] r@[t1].frequency as int,
                r@[t1].name@,
                #[trigger] r@[t2].frequency as int,
                r@[t2].name@,
            ),
        forall|t: int| 0 <= t < r@.len() ==> #[trigger] col_present(r@[t], cols@),
        forall|u: int| 0 <= u < cols@.len() ==> #[trigger] col_present(cols@[u], r@),
{
    let n = cols.len();
    let mut out: Vec<ColumnInfo> = Vec::new();
    let mut i: usize = 0;
    while i < n
        invariant
            n == cols@.len(),
            i <= n,
            out@.len() == i,
            forall|t1: int, t2: int|
                0 <= t1 < t2 < cols@.len() ==> (#[trigger] cols@[t1].name@) != (
                #[trigger] cols@[t2].name@),
            forall|t1: int, t2: int|
                0 <= t1 < t2 < out@.len() ==> col_before(
                    #[trigger] out@[t1].frequency as int,
                    out@[t1].name@,
                    #[trigger] out@[t2].frequency as int,
                    out@[t2].name@,
                ),
            forall|t: int|
                0 <= t < out@.len() ==> #[trigger] col_present(out@[t], cols@.take(i as int)),
            forall|u: int| 0 <= u < i ==> #[trigger] col_present(cols@[u], out@),
        decreases n - i,
    {
        let c = clone_column(&cols[i]);
        let m = out.len();
        let mut idx: usize = 0;
        loop
            invariant
                n == cols@.len(),
                i < n,
                m == out@.len(),
                idx <= m,
                col_view(c) == col_view(cols@[i as int]),
                forall|t: int|
                    0 <= t < idx ==> col_before(
                        #[trigger] out@[t].frequency as int,
                        out@[t].name@,
                        c.frequency as int,
                        c.name@,
                    ),
            ensures
                idx <= m,
                forall|t: int|
                    0 <= t < idx ==> col_before(
                        #[trigger] out@[t].frequency as int,
                        out@[t].name@,
                        c.frequency as int,
                        c.name@,
                    ),
                idx < m ==> !col_before(
                    out@[idx as int].frequency as int,
                    out@[idx as int].name@,
                    c.frequency as int,
                    c.name@,
                ),
            decreases m - idx,
        {
            if idx == m {
                break ;
            }
            if !col_less(&out[idx], &c) {
                break ;
            }
            idx = idx + 1;
        }
        let ghost old_out = out@;
        out.insert(idx, c);
        proof {
            lemma_sorted_insert(old_out, c, cols@, i as int, idx as int, out@);
        }
        i = i + 1;
    }
    proof {
        assert(cols@.take(n as int) =~= cols@);
        assert forall|t: int| 0 <= t < out@.len() implies #[trigger] col_present(out@[t], cols@) by {
            assert(col_present(out@[t], cols@.take(n as int)));
        }
    }
    out
}

/// The four sortedness/content facts that one insertion step of the column
/// sort preserves.
#[verifier::rlimit(60)]
proof fn lemma_sorted_insert(
    old_out: Seq<ColumnInfo>,
    c: ColumnInfo,
    cols: Seq<ColumnInfo>,
    i: int,
    idx: int,
    s: Seq<ColumnInfo>,
)
    requires
        0 <= i < cols.len(),
        0 <= idx <= old_out.len(),
        s == old_out.insert(idx, c),
        col_view(c) == col_view(cols[i]),
        forall|t1: int, t2: int|
            0 <= t1 < t2 < cols.len() ==> (#[trigger] cols[t1].name@) != (
            #[trigger] cols[t2].name@),
        forall|t1: int, t2: int|
            0 <= t1 < t2 < old_out.len() ==> col_before(
                #[trigger] old_out[t1].frequency as int,
                old_out[t1].name@,
                #[trigger] old_out[t2].frequency as int,
                old_out[t2].name@,
            ),
        forall|t: int|
            0 <= t < idx ==> col_before(
                #[trigger] old_out[t].frequency as int,
                old_out[t].name@,
                c.frequency as int,
                c.name@,
            ),
        idx < old_out.len() ==> !col_before(
            old_out[idx].frequency as int,
            old_out[idx].name@,
            c.frequency as int,
            c.name@,
        ),
        forall|t: int|
            0 <= t < old_out.len() ==> #[trigger] col_present(old_out[t], cols.take(i)),
        forall|u: int| 0 <= u < i ==> #[trigger] col_present(cols[u], old_out),
    ensures
        s.len() == old_out.len() + 1,
        forall|t1: int, t2: int|
            0 <= t1 < t2 < s.len() ==> col_before(
                #[trigger] s[t1].frequency as int,
                s[t1].name@,
                #[trigger] s[t2].frequency as int,
                s[t2].name@,
            ),
        forall|t: int| 0 <= t < s.len() ==> #[trigger] col_present(s[t], cols.take(i + 1)),
        forall|u: int| 0 <= u < i + 1 ==> #[trigger] col_present(cols[u], s),
{
    assert forall|t: int| 0 <= t < old_out.len() implies (#[trigger] old_out[t].name@)
        != c.name@ by {
        assert(col_present(old_out[t], cols.take(i)));
        let u = choose|u: int|
            0 <= u < cols.take(i).len() && col_view(old_out[t]) == col_view(
                #[trigger] cols.take(i)[u],
            );
        assert(cols.take(i)[u] == cols[u]);
        assert(cols[u].name@ != cols[i].name@);
    }
    assert forall|t1: int, t2: int| 0 <= t1 < t2 < s.len() implies col_before(
        #[trigger] s[t1].frequency as int,
        s[t1].name@,
        #[trigger] s[t2].frequency as int,
        s[t2].name@,
    ) by {
        if t1 == idx && t2 > idx {
            assert(s[t2] == old_out[t2 - 1]);
            lemma_col_order_total(
                c.frequency as int,
                c.name@,
                old_out[idx].frequency as int,
                old_out[idx].name@,
            );
            if t2 - 1 > idx {
                lemma_col_order_trans(
                    c.frequency as int,
                    c.name@,
                    old_out[idx].frequency as int,
                    old_out[idx].name@,
                    old_out[t2 - 1].frequency as int,
                    old_out[t2 - 1].name@,
                );
            }
        } else if t1 < idx && t2 == idx {
            assert(s[t1] == old_out[t1]);
        } else if t1 < idx && t2 > idx {
            assert(s[t1] == old_out[t1] && s[t2] == old_out[t2 - 1]);
            if t2 - 1 == idx {
                lemma_col_order_total(
                    c.frequency as int,
                    c.name@,
                    old_out[idx].frequency as int,
                    old_out[idx].name@,
                );
                lemma_col_order_trans(
                    old_out[t1].frequency as int,
                    old_out[t1].name@,
                    c.frequency as int,
                    c.name@,
                    old_out[idx].frequency as int,
                    old_out[idx].name@,
                );
            }
        } else if t1 > idx {
            assert(s[t1] == old_out[t1 - 1] && s[t2] == old_out[t2 - 1]);
        } else {
            assert(s[t1] == old_out[t1] && s[t2] == old_out[t2]);
        }
    }
    let pre = cols.take(i);
    let post = cols.take(i + 1);
    assert forall|t: int| 0 <= t < s.len() implies #[trigger] col_present(s[t], post) by {
        if t < idx {
            assert(col_present(old_out[t], pre));
            let u = choose|u: int|
                0 <= u < pre.len() && col_view(old_out[t]) == col_view(#[trigger] pre[u]);
            assert(pre[u] == cols[u]);
            assert(col_view(s[t]) == col_view(post[u]));
        } else if t == idx {
            assert(col_view(s[t]) == col_view(post[i]));
        } else {
            assert(col_present(old_out[t - 1], pre));
            let u = choose|u: int|
                0 <= u < pre.len() && col_view(old_out[t - 1]) == col_view(#[trigger] pre[u]);
            assert(pre[u] == cols[u]);
            assert(col_view(s[t]) == col_view(post[u]));
        }
    }
    assert forall|u: int| 0 <= u < i + 1 implies #[trigger] col_present(cols[u], s) by {
        if u < i {
            assert(col_present(cols[u], old_out));
            let t = choose|t: int|
                0 <= t < old_out.len() && col_view(cols[u]) == col_view(#[trigger] old_out[t]);
            if t < idx {
                assert(col_view(cols[u]) == col_view(s[t]));
            } else {
                assert(col_view(cols[u]) == col_view(s[t + 1]));
            }
        } else {
            assert(col_view(cols[u]) == col_view(s[idx]));
        }
    }
}

fn clone_column(c: &ColumnInfo) -> (r: ColumnInfo)
    ensures
        col_view(r) == col_view(*c),
        r.name@ == c.name@,
        r.frequency == c.frequency,
        r.max_width == c.max_width,
{
    ColumnInfo { name: c.name.clone(), frequency: c.frequency, max_width: c.max_width }
}

/// The path occurs in one of the first `k` rows.
pub open spec fn in_any_row(rows: Seq<Seq<(Seq<char>, Seq<char>)>>, k: int, nm: Seq<char>) -> bool {
    exists|e: int| 0 <= e < k && row_lookup(#[trigger] rows[e], nm) is Some
}

spec fn key_in_prefix(row: Seq<(Seq<char>, Seq<char>)>, k: int, nm: Seq<char>) -> bool {
    exists|e: int| 0 <= e < k && (#[trigger] row[e]).0 == nm
}

/// Builds one flattened body row and one whole row per line, and the widest
/// bracketed timestamp and stream widths.
fn build_rows(logs: &Vec<String>) -> (r: (Vec<FlatRow>, Vec<FlatRow>, usize, usize))
    ensures
        ({
            let lines = lines_view(logs@);
            &&& r.0@.len() == lines.len()
            &&& r.1@.len() == lines.len()
            &&& forall|k: int|
                0 <= k < lines.len() ==> (#[trigger] r.0@[k]).wf() && r.0@[k]@ == body_row_of(
                    lines[k],
                )
            &&& forall|k: int|
                0 <= k < lines.len() ==> (#[trigger] r.1@[k]).wf() && r.1@[k]@ == full_row_of(
                    lines[k],
                )
            &&& r.2 == ts_width(lines)
            &&& r.3 == group_width(lines)
        }),
{
    let ghost lines = lines_view(logs@);
    let n = logs.len();
    let mut body_rows: Vec<FlatRow> = Vec::new();
    let mut full_rows: Vec<FlatRow> = Vec::new();
    let mut tsw: usize = 0;
    let mut gw: usize = 0;
    let mut i: usize = 0;
    proof {
        assert(lines.take(0) =~= Seq::<Seq<char>>::empty());
    }
    while i < n
        invariant
            lines == lines_view(logs@),
            n == logs@.len(),
            lines.len() == n,
            i <= n,
            body_rows@.len() == i,
            full_rows@.len() == i,
            forall|k: int|
                0 <= k < i ==> (#[trigger] body_rows@[k]).wf() && body_rows@[k]@ == body_row_of(
                    lines[k],
                ),
            forall|k: int|
                0 <= k < i ==> (#[trigger] full_rows@[k]).wf() && full_rows@[k]@ == full_row_of(
                    lines[k],
                ),
            tsw == ts_width(lines.take(i as int)),
            gw == group_width(lines.take(i as int)),
        decreases n - i,
    {
        proof {
            assert(lines[i as int] == logs@[i as int]@);
            assert(lines.take(i + 1).drop_last() =~= lines.take(i as int));
            assert(lines.take(i + 1).last() == lines[i as int]);
        }
        let (ts, lg, body) = parse_log_line(logs[i].as_str());
        let tl = ts.as_str().unicode_len();
        if tl > tsw {
            tsw = tl;
        }
        let gl = lg.as_str().unicode_len();
        if gl > gw {
            gw = gl;
        }
        proof {
            reveal_strlit("");
            assert(""@ =~= Seq::<char>::empty());
        }
        let body_row = match parse_json(body.as_str()) {
            Some(v) => flatten_json_to_columns(&v, ""),
            None => FlatRow::new(),
        };
        proof {
            assert(body_row@ == body_row_of(lines[i as int]));
        }
        let mut full = FlatRow::new();
        proof {
            reveal_strlit("timestamp");
            reveal_strlit("log_group");
            assert("timestamp"@ =~= ts_key());
            assert("log_group"@ =~= group_key());
        }
        full.merge_from(&body_row);
        full.insert(String::from_str("timestamp"), ts);
        full.insert(String::from_str("log_group"), lg);
        proof {
            assert(full@ == full_row_of(lines[i as int]));
        }
        body_rows.push(body_row);
        full_rows.push(full);
        i = i + 1;
    }
    proof {
        assert(lines.take(n as int) =~= lines);
    }
    (body_rows, full_rows, tsw, gw)
}

/// Collects every path that occurs in any body row, as a sorted set of
/// names.
fn collect_names(body_rows: &Vec<FlatRow>) -> (names: FlatRow)
    requires
        forall|k: int| 0 <= k < body_rows@.len() ==> (#[trigger] body_rows@[k]).wf(),
    ensures
        names.wf(),
        forall|nm: Seq<char>|
            (#[trigger] row_lookup(names@, nm)) is Some <==> in_any_row(
                rows_views(body_rows@),
                body_rows@.len() as int,
                nm,
            ),
{
    let ghost rv = rows_views(body_rows@);
    let mut names = FlatRow::new();
    let n = body_rows.len();
    let mut i: usize = 0;
    while i < n
        invariant
            rv == rows_views(body_rows@),
            n == body_rows@.len(),
            rv.len() == n,
            i <= n,
            names.wf(),
            forall|nm: Seq<char>|
                (#[trigger] row_lookup(names@, nm)) is Some <==> in_any_row(rv, i as int, nm),
        decreases n - i,
    {
        let row = &body_rows[i];
        let m = row.len();
        let mut j: usize = 0;
        while j < m
            invariant
                rv == rows_views(body_rows@),
                n == body_rows@.len(),
                rv.len() == n,
                i < n,
                m == row@.len(),
                j <= m,
                row@ == rv[i as int],
                names.wf(),
                forall|nm: Seq<char>|
                    (#[trigger] row_lookup(names@, nm)) is Some <==> in_any_row(rv, i as int, nm)
                        || key_in_prefix(row@, j as int, nm),
            decreases m - j,
        {
            let key = row.key_at(j).clone();
            let ghost names_before = names@;
            names.insert(key.clone(), String::new());
            proof {
                lemma_row_lookup_inserted(names_before, key@, Seq::<char>::empty());
                assert forall|nm: Seq<char>|
                    (#[trigger] row_lookup(names@, nm)) is Some <==> in_any_row(rv, i as int, nm)
                        || key_in_prefix(row@, j + 1, nm) by {
                    if nm == key@ {
                        assert(row@[j as int].0 == nm);
                        assert(key_in_prefix(row@, j + 1, nm));
                    } else {
                        lemma_row_lookup_other(names_before, key@, Seq::<char>::empty(), nm);
                        if key_in_prefix(row@, j + 1, nm) {
                            let e = choose|e: int|
                                0 <= e < j + 1 && (#[trigger] row@[e]).0 == nm;
                            assert(e < j);
                            assert(key_in_prefix(row@, j as int, nm));
                        }
                        if key_in_prefix(row@, j as int, nm) {
                            let e = choose|e: int| 0 <= e < j && (#[trigger] row@[e]).0 == nm;
                            assert(0 <= e < j + 1 && row@[e].0 == nm);
                        }
                    }
                }
            }
            j = j + 1;
        }
        proof {
            assert forall|nm: Seq<char>|
                (#[trigger] row_lookup(names@, nm)) is Some <==> in_any_row(
                    rv,
                    i + 1,
                    nm,
                ) by {
                lemma_row_lookup_member(row@, nm);
                if row_lookup(names@, nm) is Some {
                    if key_in_prefix(row@, m as int, nm) {
                        let e = choose|e: int| 0 <= e < m && (#[trigger] row@[e]).0 == nm;
                        assert(row_lookup(rv[i as int], nm) is Some);
                        assert(in_any_row(rv, i + 1, nm));
                    } else {
                        let e = choose|e: int|
                            0 <= e < i && row_lookup(#[trigger] rv[e], nm) is Some;
                        assert(in_any_row(rv, i + 1, nm));
                    }
                }
                if in_any_row(rv, i + 1, nm) {
                    let e = choose|e: int|
                        0 <= e < i + 1 && row_lookup(#[trigger] rv[e], nm) is Some;
                    if e < i {
                        assert(in_any_row(rv, i as int, nm));
                    } else {
                        assert(row_lookup(row@, nm) is Some);
                        let e2 = choose|e2: int|
                            0 <= e2 < row@.len() && (#[trigger] row@[e2]).0 == nm;
                        assert(key_in_prefix(row@, m as int, nm));
                    }
                }
            }
        }
        i = i + 1;
    }
    names
}

/// A log line split into its bracketed timestamp, its bracketed stream name,
/// and the rest: `[ts] [stream] body` comes apart into the three pieces; a
/// line without the leading brackets keeps everything in the last piece.
pub open spec fn parse_log_line_spec(line: Seq<char>) -> (Seq<char>, Seq<char>, Seq<char>) {
    let close = find_char_from(line, ']', 0);
    if line.len() == 0 || line[0] != '[' || close is None {
        (Seq::<char>::empty(), Seq::<char>::empty(), line)
    } else {
        let ts = line.subrange(1, close->0);
        let rest = trimmed(line.skip(close->0 + 1));
        let close2 = find_char_from(rest, ']', 0);
        if rest.len() == 0 || rest[0] != '[' || close2 is None {
            (ts, Seq::<char>::empty(), rest)
        } else {
            (ts, rest.subrange(1, close2->0), trimmed(rest.skip(close2->0 + 1)))
        }
    }
}

/// Splits a rendered log line into timestamp, stream name and body.
pub fn parse_log_line(line: &str) -> (r: (String, String, String))
    ensures
        (r.0@, r.1@, r.2@) == parse_log_line_spec(line@),
{
    proof {
        lemma_find_char(line@, ']', 0);
    }
    let n = line.unicode_len();
    if n == 0 || line.get_char(0) != '[' {
        return (String::new(), String::new(), line.to_owned());
    }
    let close = match find_char(line, ']') {
        Some(c) => c,
        None => {
            return (String::new(), String::new(), line.to_owned());
        },
    };
    proof {
        assert(line@[0] != ']');
        assert(close >= 1);
    }
    let ts = line.substring_char(1, close).to_owned();
    let rest = trim(line.substring_char(close + 1, n));
    proof {
        assert(line@.subrange(close + 1, n as int) =~= line@.skip(close + 1));
        lemma_find_char(rest@, ']', 0);
    }
    let rn = rest.unicode_len();
    if rn == 0 || rest.get_char(0) != '[' {
        return (ts, String::new(), rest.to_owned());
    }
    let close2 = match find_char(rest, ']') {
        Some(c) => c,
        None => {
            return (ts, String::new(), rest.to_owned());
        },
    };
    proof {
        assert(rest@[0] != ']');
        assert(close2 >= 1);
    }
    let group = rest.substring_char(1, close2).to_owned();
    let body = trim(rest.substring_char(close2 + 1, rn)).to_owned();
    proof {
        assert(rest@.subrange(close2 + 1, rn as int) =~= rest@.skip(close2 + 1));
    }
    (ts, group, body)
}

/// A value cut for display: one of length at most `max` stands unchanged; a
/// longer one is cut to `max` with its last three characters replaced by an
/// ellipsis marker.
pub open spec fn truncated(s: Seq<char>, max: int) -> Seq<char> {
    if s.len() <= max {
        s
    } else {
        s.take(max - 3) + seq!['.', '.', '.']
    }
}

/// Cuts a value for display.
pub fn truncate_string(s: &str, max_len: usize) -> (r: String)
    requires
        max_len >= 3,
    ensures
        r@ == truncated(s@, max_len as int),
{
    let n = s.unicode_len();
    if n <= max_len {
        s.to_owned()
    } else {
        let mut r = s.substring_char(0, max_len - 3).to_owned();
        proof {
            reveal_strlit("...");
        }
        r.append("...");
        proof {
            assert(r@ =~= truncated(s@, max_len as int));
        }
        r
    }
}

/// Some column in `cols` carries the name.
pub open spec fn name_listed(nm: Seq<char>, cols: Seq<ColumnInfo>) -> bool {
    exists|t: int| 0 <= t < cols.len() && (#[trigger] cols[t]).name@ == nm
}

/// Builds the statistics column for every discovered name but the two fixed
/// ones: its frequency and its width, the width no narrower than the name.
fn build_other_columns(names: &FlatRow, body_rows: &Vec<FlatRow>) -> (others: Vec<ColumnInfo>)
    requires
        names.wf(),
    ensures
        forall|t: int|
            0 <= t < others@.len() ==> {
                let c = #[trigger] others@[t];
                &&& c.name@ != ts_key()
                &&& c.name@ != group_key()
                &&& row_lookup(names@, c.name@) is Some
                &&& c.frequency == rows_frequency(rows_views(body_rows@), c.name@)
                &&& c.max_width == imax(
                    rows_width(rows_views(body_rows@), c.name@),
                    c.name@.len() as int,
                )
            },
        forall|t1: int, t2: int|
            0 <= t1 < t2 < others@.len() ==> (#[trigger] others@[t1].name@) != (
            #[trigger] others@[t2].name@),
        forall|nm: Seq<char>|
            (#[trigger] row_lookup(names@, nm)) is Some && nm != ts_key() && nm != group_key()
                ==> name_listed(nm, others@),
{
    let mut others: Vec<ColumnInfo> = Vec::new();
    let m = names.len();
    let mut j: usize = 0;
    proof {
        reveal_strlit("timestamp");
        reveal_strlit("log_group");
        assert("timestamp"@ =~= ts_key());
        assert("log_group"@ =~= group_key());
    }
    while j < m
        invariant
            names.wf(),
            m == names@.len(),
            j <= m,
            forall|t: int|
                0 <= t < others@.len() ==> {
                    let c = #[trigger] others@[t];
                    &&& c.name@ != ts_key()
                    &&& c.name@ != group_key()
                    &&& row_lookup(names@, c.name@) is Some
                    &&& c.frequency == rows_frequency(rows_views(body_rows@), c.name@)
                    &&& c.max_width == imax(
                        rows_width(rows_views(body_rows@), c.name@),
                        c.name@.len() as int,
                    )
                },
            forall|t: int|
                0 <= t < others@.len() ==> exists|e: int|
                    0 <= e < j && (#[trigger] others@[t].name@) == names@[e].0,
            forall|t1: int, t2: int|
                0 <= t1 < t2 < others@.len() ==> lex_lt(
                    #[trigger] others@[t1].name@,
                    #[trigger] others@[t2].name@,
                ),
            forall|nm: Seq<char>|
                key_in_prefix(names@, j as int, nm) && nm != ts_key() && nm != group_key()
                    ==> name_listed(nm, others@),
        decreases m - j,
    {
        proof {
            reveal_strlit("timestamp");
            reveal_strlit("log_group");
            assert("timestamp"@ =~= ts_key());
            assert("log_group"@ =~= group_key());
        }
        let nm = names.key_at(j).clone();
        let cts = str_compare(nm.as_str(), "timestamp");
        let cgr = str_compare(nm.as_str(), "log_group");
        proof {
            lemma_lex_lt_total(nm@, ts_key());
            lemma_lex_lt_total(ts_key(), nm@);
            lemma_lex_lt_total(nm@, group_key());
            lemma_lex_lt_total(group_key(), nm@);
            assert(names@[j as int].0 == nm@);
        }
        let ghost old_others = others@;
        if cts != 0 && cgr != 0 {
            let freq = count_frequency(body_rows, nm.as_str());
            let bw = max_body_width(body_rows, nm.as_str());
            let nl = nm.as_str().unicode_len();
            let w = if bw >= nl {
                bw
            } else {
                nl
            };
            proof {
                lemma_row_lookup_member(names@, nm@);
                assert forall|t: int| 0 <= t < old_others.len() implies lex_lt(
                    #[trigger] old_others[t].name@,
                    nm@,
                ) by {
                    let e = choose|e: int|
                        0 <= e < j && (#[trigger] old_others[t].name@) == names@[e].0;
                    assert(lex_lt(names@[e].0, names@[j as int].0));
                }
            }
            others.push(ColumnInfo { name: nm, frequency: freq, max_width: w });
            proof {
                assert forall|nm2: Seq<char>|
                    key_in_prefix(names@, j + 1, nm2) && nm2 != ts_key() && nm2
                        != group_key() implies name_listed(nm2, others@) by {
                    let e = choose|e: int| 0 <= e < j + 1 && (#[trigger] names@[e]).0 == nm2;
                    if e < j {
                        assert(key_in_prefix(names@, j as int, nm2));
                        assert(name_listed(nm2, old_others));
                        let t = choose|t: int|
                            0 <= t < old_others.len() && (#[trigger] old_others[t]).name@ == nm2;
                        assert(others@[t].name@ == nm2);
                    } else {
                        assert(names@[j as int].0 == nm2);
                        assert(others@[others@.len() - 1].name@ == nm2);
                    }
                }
            }
        } else {
            proof {
                assert(nm@ == ts_key() || nm@ == group_key());
                assert forall|nm2: Seq<char>|
                    key_in_prefix(names@, j + 1, nm2) && nm2 != ts_key() && nm2
                        != group_key() implies name_listed(nm2, others@) by {
                    let e = choose|e: int| 0 <= e < j + 1 && (#[trigger] names@[e]).0 == nm2;
                    if e < j {
                        assert(key_in_prefix(names@, j as int, nm2));
                    } else {
                        assert(names@[j as int].0 == nm2);
                    }
                }
            }
        }
        j = j + 1;
    }
    proof {
        assert forall|nm: Seq<char>|
            (#[trigger] row_lookup(names@, nm)) is Some && nm != ts_key() && nm
                != group_key() implies name_listed(nm, others@) by {
            lemma_row_lookup_member(names@, nm);
            if row_lookup(names@, nm) is Some {
                let e = choose|e: int| 0 <= e < names@.len() && (#[trigger] names@[e]).0 == nm;
                assert(key_in_prefix(names@, m as int, nm));
            }
        }
        assert forall|t1: int, t2: int| 0 <= t1 < t2 < others@.len() implies (
        #[trigger] others@[t1].name@) != (#[trigger] others@[t2].name@) by {
            lemma_lex_lt_total(others@[t1].name@, others@[t2].name@);
        }
    }
    others
}

/// A stored value, or the empty text where the row has none.
pub open spec fn lookup_or_empty(row: Seq<(Seq<char>, Seq<char>)>, name: Seq<char>) -> Seq<char> {
    match row_lookup(row, name) {
        Some(v) => v,
        None => Seq::empty(),
    }
}

/// Materializes every row against the column schema: each cell is the row's
/// value under the column's name, empty when absent, cut at 100 characters.
fn materialize_rows(full_rows: &Vec<FlatRow>, columns: &Vec<ColumnInfo>) -> (rows: Vec<Vec<String>>)
    ensures
        rows@.len() == full_rows@.len(),
        forall|i: int| 0 <= i < rows@.len() ==> (#[trigger] rows@[i])@.len() == columns@.len(),
        forall|i: int, j: int|
            0 <= i < rows@.len() && 0 <= j < columns@.len() ==> (#[trigger] rows@[i]@[j])@
                == truncated(lookup_or_empty(full_rows@[i]@, columns@[j].name@), 100),
{
    let n = full_rows.len();
    let mut rows: Vec<Vec<String>> = Vec::new();
    let mut i: usize = 0;
    while i < n
        invariant
            n == full_rows@.len(),
            i <= n,
            rows@.len() == i,
            forall|k: int| 0 <= k < i ==> (#[trigger] rows@[k])@.len() == columns@.len(),
            forall|k: int, j: int|
                0 <= k < i && 0 <= j < columns@.len() ==> (#[trigger] rows@[k]@[j])@ == truncated(
                    lookup_or_empty(full_rows@[k]@, columns@[j].name@),
                    100,
                ),
        decreases n - i,
    {
        let m = columns.len();
        let mut vals: Vec<String> = Vec::new();
        let mut j: usize = 0;
        while j < m
            invariant
                n == full_rows@.len(),
                i < n,
                m == columns@.len(),
                j <= m,
                vals@.len() == j,
                forall|e: int|
                    0 <= e < j ==> (#[trigger] vals@[e])@ == truncated(
                        lookup_or_empty(full_rows@[i as int]@, columns@[e].name@),
                        100,
                    ),
            decreases m - j,
        {
            let cell = match full_rows[i].get(columns[j].name.as_str()) {
                Some(v) => truncate_string(v.as_str(), 100),
                None => {
                    let e = String::new();
                    proof {
                        assert(e@ =~= truncated(
                            lookup_or_empty(full_rows@[i as int]@, columns@[j as int].name@),
                            100,
                        ));
                    }
                    e
                },
            };
            vals.push(cell);
            j = j + 1;
        }
        rows.push(vals);
        i = i + 1;
    }
    rows
}

/// Aggregates rendered log lines into a deterministic tabular schema and its
/// rows. The first two columns are always `timestamp` and `log_group`, their
/// frequency the line count and their width at least nine; every other
/// column discovered in the structured bodies follows, exactly one per
/// discovered path, carrying its occurrence count and capped width, ordered
/// by descending frequency and then ascending name; and every cell is the
/// line's value under its column, empty when absent, cut at 100 characters.
#[verifier::rlimit(60)]
pub fn analyze_json_logs(logs: &Vec<String>) -> (out: FormattedOutput)
    ensures
        ({
            let lines = lines_view(logs@);
            let cols = out.columns@;
            &&& cols.len() >= 2
            &&& cols[0].name@ == ts_key()
            &&& cols[0].frequency == logs@.len()
            &&& cols[0].max_width == imax(
                imax(ts_width(lines), column_width(lines, ts_key())),
                9,
            )
            &&& cols[1].name@ == group_key()
            &&& cols[1].frequency == logs@.len()
            &&& cols[1].max_width == imax(
                imax(group_width(lines), column_width(lines, group_key())),
                9,
            )
            &&& forall|j: int|
                2 <= j < cols.len() ==> {
                    let c = #[trigger] cols[j];
                    &&& c.name@ != ts_key()
                    &&& c.name@ != group_key()
                    &&& c.frequency == column_frequency(lines, c.name@)
                    &&& c.frequency >= 1
                    &&& c.max_width == imax(column_width(lines, c.name@), c.name@.len() as int)
                }
            &&& forall|j1: int, j2: int|
                2 <= j1 < j2 < cols.len() ==> col_before(
                    #[trigger] cols[j1].frequency as int,
                    cols[j1].name@,
                    #[trigger] cols[j2].frequency as int,
                    cols[j2].name@,
                )
            &&& forall|j1: int, j2: int|
                2 <= j1 < j2 < cols.len() ==> (#[trigger] cols[j1].name@) != (
                #[trigger] cols[j2].name@)
            &&& forall|i: int, nm: Seq<char>|
                0 <= i < lines.len() && (#[trigger] row_lookup(body_row_of(lines[i]), nm)) is Some
                    && nm != ts_key() && nm != group_key() ==> name_listed(nm, cols.skip(2))
            &&& out.rows@.len() == logs@.len()
            &&& forall|i: int|
                0 <= i < out.rows@.len() ==> (#[trigger] out.rows@[i])@.len() == cols.len()
            &&& forall|i: int, j: int|
                0 <= i < out.rows@.len() && 0 <= j < cols.len() ==> (#[trigger] out.rows@[i]@[j])@
                    == truncated(lookup_or_empty(full_row_of(lines[i]), cols[j].name@), 100)
            &&& forall|i: int|
                0 <= i < out.rows@.len() ==> (#[trigger] out.rows@[i])@[0]@ == truncated(
                    parse_log_line_spec(lines[i]).0,
                    100,
                ) && out.rows@[i]@[1]@ == truncated(parse_log_line_spec(lines[i]).1, 100)
        }),
{
    let ghost lines = lines_view(logs@);
    let (body_rows, full_rows, tsw, gw) = build_rows(logs);
    proof {
        assert(rows_views(body_rows@) =~= lines.map_values(|l: Seq<char>| body_row_of(l)));
    }
    let names = collect_names(&body_rows);
    let others = build_other_columns(&names, &body_rows);
    let mut sorted = sort_columns(others);
    let ghost others_v = others@;
    let ghost sorted_v = sorted@;
    proof {
        reveal_strlit("timestamp");
        reveal_strlit("log_group");
        assert("timestamp"@ =~= ts_key());
        assert("log_group"@ =~= group_key());
    }
    let bw_ts = max_body_width(&body_rows, "timestamp");
    let bw_gr = max_body_width(&body_rows, "log_group");
    let tsw1 = if tsw >= bw_ts {
        tsw
    } else {
        bw_ts
    };
    let tsw2 = if tsw1 >= 9 {
        tsw1
    } else {
        9
    };
    let gw1 = if gw >= bw_gr {
        gw
    } else {
        bw_gr
    };
    let gw2 = if gw1 >= 9 {
        gw1
    } else {
        9
    };
    let mut columns: Vec<ColumnInfo> = Vec::new();
    columns.push(
        ColumnInfo { name: String::from_str("timestamp"), frequency: logs.len(), max_width: tsw2 },
    );
    columns.push(
        ColumnInfo { name: String::from_str("log_group"), frequency: logs.len(), max_width: gw2 },
    );
    columns.append(&mut sorted);
    proof {
        assert(columns@.len() == 2 + sorted_v.len());
        assert(columns@.skip(2) =~= sorted_v);
        assert forall|j: int| 2 <= j < columns@.len() implies {
            let c = #[trigger] columns@[j];
            &&& c.name@ != ts_key()
            &&& c.name@ != group_key()
            &&& c.frequency == column_frequency(lines, c.name@)
            &&& c.frequency >= 1
            &&& c.max_width == imax(column_width(lines, c.name@), c.name@.len() as int)
        } by {
            assert(columns@[j] == sorted_v[j - 2]);
            assert(col_present(sorted_v[j - 2], others_v));
            let u = choose|u: int|
                0 <= u < others_v.len() && col_view(sorted_v[j - 2]) == col_view(
                    #[trigger] others_v[u],
                );
            assert(others_v[u].name@ != ts_key());
            if others_v[u].frequency >= 1 {
            } else {
                lemma_row_lookup_member(names@, others_v[u].name@);
                let e = choose|e: int|
                    0 <= e < body_rows@.len() && row_lookup(
                        #[trigger] rows_views(body_rows@)[e],
                        others_v[u].name@,
                    ) is Some;
                lemma_frequency_positive(rows_views(body_rows@), others_v[u].name@, e);
            }
        }
        assert forall|j1: int, j2: int|
            2 <= j1 < j2 < columns@.len() implies (#[trigger] columns@[j1].name@) != (
        #[trigger] columns@[j2].name@) by {
            if columns@[j1].name@ == columns@[j2].name@ {
                assert(col_present(sorted_v[j1 - 2], others_v));
                assert(col_present(sorted_v[j2 - 2], others_v));
                let u1 = choose|u: int|
                    0 <= u < others_v.len() && col_view(sorted_v[j1 - 2]) == col_view(
                        #[trigger] others_v[u],
                    );
                let u2 = choose|u: int|
                    0 <= u < others_v.len() && col_view(sorted_v[j2 - 2]) == col_view(
                        #[trigger] others_v[u],
                    );
                // Only one discovered column carries the name, so the two
                // entries agree on every statistic and the strict order
                // between them is impossible.
                assert(u1 == u2);
                assert(columns@[j1].frequency == columns@[j2].frequency);
                assert(col_before(
                    columns@[j1].frequency as int,
                    columns@[j1].name@,
                    columns@[j2].frequency as int,
                    columns@[j2].name@,
                ));
                crate::text::lemma_lex_lt_irrefl(columns@[j1].name@);
                assert(false);
            }
        }
        assert forall|i: int, nm: Seq<char>|
            0 <= i < lines.len() && (#[trigger] row_lookup(body_row_of(lines[i]), nm)) is Some
                && nm != ts_key() && nm != group_key() implies name_listed(
            nm,
            columns@.skip(2),
        ) by {
            assert(rows_views(body_rows@)[i] == body_row_of(lines[i]));
            assert(in_any_row(rows_views(body_rows@), body_rows@.len() as int, nm));
            assert(row_lookup(names@, nm) is Some);
            assert(name_listed(nm, others_v));
            let t = choose|t: int| 0 <= t < others_v.len() && (#[trigger] others_v[t]).name@ == nm;
            assert(col_present(others_v[t], sorted_v));
            let t2 = choose|t2: int|
                0 <= t2 < sorted_v.len() && col_view(others_v[t]) == col_view(
                    #[trigger] sorted_v[t2],
                );
            assert(columns@.skip(2)[t2].name@ == nm);
        }
    }
    let rows = materialize_rows(&full_rows, &columns);
    proof {
        assert forall|i: int, j: int|
            0 <= i < rows@.len() && 0 <= j < columns@.len() implies (#[trigger] rows@[i]@[j])@
            == truncated(lookup_or_empty(full_row_of(lines[i]), columns@[j].name@), 100) by {
            assert(full_rows@[i]@ == full_row_of(lines[i]));
        }
        // The fixed names differ, so the last two insertions do not disturb
        // each other, and each fixed cell carries its extracted value.
        assert(ts_key() != group_key()) by {
            assert(ts_key()[0] == 't' && group_key()[0] == 'l');
        }
        assert forall|i: int| 0 <= i < rows@.len() implies (#[trigger] rows@[i])@[0]@ == truncated(
            parse_log_line_spec(lines[i]).0,
            100,
        ) && rows@[i]@[1]@ == truncated(parse_log_line_spec(lines[i]).1, 100) by {
            let parts = parse_log_line_spec(lines[i]);
            let base = merge_rows(Seq::<(Seq<char>, Seq<char>)>::empty(), body_row_of(lines[i]));
            let with_ts = row_insert(base, ts_key(), parts.0);
            lemma_row_lookup_inserted(base, ts_key(), parts.0);
            lemma_row_lookup_other(with_ts, group_key(), parts.1, ts_key());
            lemma_row_lookup_inserted(with_ts, group_key(), parts.1);
            assert(row_lookup(full_row_of(lines[i]), ts_key()) == Some(parts.0));
            assert(row_lookup(full_row_of(lines[i]), group_key()) == Some(parts.1));
        }
    }
    FormattedOutput { columns, rows }
}

} // verus!
