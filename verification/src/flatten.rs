use vstd::prelude::*;

use crate::json::{scalar_string, render_scalar, JsonValue};
use crate::text::{
    dec_str, lex_lt, lemma_lex_lt_irrefl, lemma_lex_lt_total, lemma_lex_lt_trans, str_compare,
    usize_to_string,
};

verus! {

/// View of string pairs as character-sequence pairs.
pub open spec fn entries_view(s: Seq<(String, String)>) -> Seq<(Seq<char>, Seq<char>)> {
    s.map_values(|p: (String, String)| (p.0@, p.1@))
}

/// The value under a path in a flattened row.
pub open spec fn row_lookup(s: Seq<(Seq<char>, Seq<char>)>, path: Seq<char>) -> Option<Seq<char>>
    decreases s.len(),
{
    if s.len() == 0 {
        None
    } else if s[0].0 == path {
        Some(s[0].1)
    } else {
        row_lookup(s.drop_first(), path)
    }
}

/// Insertion into a path-sorted row: an equal path is overwritten, a new
/// path takes its place in path order.
pub open spec fn row_insert(
    s: Seq<(Seq<char>, Seq<char>)>,
    path: Seq<char>,
    value: Seq<char>,
) -> Seq<(Seq<char>, Seq<char>)>
    decreases s.len(),
{
    if s.len() == 0 {
        seq![(path, value)]
    } else if s[0].0 == path {
        seq![(path, value)] + s.drop_first()
    } else if lex_lt(path, s[0].0) {
        seq![(path, value)] + s
    } else {
        seq![s[0]] + row_insert(s.drop_first(), path, value)
    }
}

/// Paths strictly ascending, hence unique.
pub open spec fn row_sorted(s: Seq<(Seq<char>, Seq<char>)>) -> bool {
    forall|i: int, j: int| 0 <= i < j < s.len() ==> lex_lt(s[i].0, s[j].0)
}

/// Where `row_insert` puts a path when the entries before `idx` lie below it
/// and the entry at `idx`, if any, does not.
pub proof fn lemma_row_insert_at(
    s: Seq<(Seq<char>, Seq<char>)>,
    path: Seq<char>,
    value: Seq<char>,
    idx: int,
)
    requires
        0 <= idx <= s.len(),
        forall|j: int| 0 <= j < idx ==> lex_lt(#[trigger] s[j].0, path),
    ensures
        idx < s.len() && s[idx].0 == path ==> row_insert(s, path, value) == s.update(
            idx,
            (path, value),
        ),
        idx == s.len() || lex_lt(path, s[idx].0) ==> row_insert(s, path, value) == s.take(idx)
            + seq![(path, value)] + s.skip(idx),
    decreases idx,
{
    lemma_lex_lt_irrefl(path);
    if idx == 0 {
        if s.len() == 0 {
            assert(row_insert(s, path, value) =~= s.take(0) + seq![(path, value)] + s.skip(0));
        } else if s[0].0 == path {
            assert(row_insert(s, path, value) =~= s.update(0, (path, value)));
        } else if lex_lt(path, s[0].0) {
            assert(row_insert(s, path, value) =~= s.take(0) + seq![(path, value)] + s.skip(0));
        }
    } else {
        assert(lex_lt(s[0].0, path));
        lemma_lex_lt_total(s[0].0, path);
        let rest = s.drop_first();
        assert forall|j: int| 0 <= j < idx - 1 implies lex_lt(#[trigger] rest[j].0, path) by {
            assert(rest[j] == s[j + 1]);
        }
        lemma_row_insert_at(rest, path, value, idx - 1);
        assert(row_insert(s, path, value) == seq![s[0]] + row_insert(rest, path, value));
        if idx < s.len() && s[idx].0 == path {
            assert(rest[idx - 1] == s[idx]);
            assert(row_insert(s, path, value) =~= s.update(idx, (path, value)));
        }
        if idx == s.len() || lex_lt(path, s[idx].0) {
            if idx < s.len() {
                assert(rest[idx - 1] == s[idx]);
            }
            assert(row_insert(s, path, value) =~= s.take(idx) + seq![(path, value)] + s.skip(idx));
        }
    }
}

/// Looking a path up after inserting it finds the inserted value.
pub proof fn lemma_row_lookup_inserted(
    s: Seq<(Seq<char>, Seq<char>)>,
    path: Seq<char>,
    value: Seq<char>,
)
    ensures
        row_lookup(row_insert(s, path, value), path) == Some(value),
    decreases s.len(),
{
    lemma_lex_lt_total(path, if s.len() == 0 {
        path
    } else {
        s[0].0
    });
    if s.len() == 0 {
        assert(row_insert(s, path, value)[0] == (path, value));
    } else if s[0].0 == path {
        assert(row_insert(s, path, value)[0] == (path, value));
    } else if lex_lt(path, s[0].0) {
        assert(row_insert(s, path, value)[0] == (path, value));
    } else {
        lemma_row_lookup_inserted(s.drop_first(), path, value);
        let r = row_insert(s, path, value);
        assert(r[0] == s[0]);
        assert(r.drop_first() =~= row_insert(s.drop_first(), path, value));
    }
}

/// Inserting one path leaves every other path's value alone.
pub proof fn lemma_row_lookup_other(
    s: Seq<(Seq<char>, Seq<char>)>,
    path: Seq<char>,
    value: Seq<char>,
    other: Seq<char>,
)
    requires
        other != path,
    ensures
        row_lookup(row_insert(s, path, value), other) == row_lookup(s, other),
    decreases s.len(),
{
    reveal_with_fuel(row_lookup, 2);
    if s.len() == 0 {
        let r = row_insert(s, path, value);
        assert(r[0] == (path, value));
        assert(r.drop_first() =~= Seq::<(Seq<char>, Seq<char>)>::empty());
    } else if s[0].0 == path {
        let r = row_insert(s, path, value);
        assert(r[0] == (path, value));
        assert(r.drop_first() =~= s.drop_first());
    } else if lex_lt(path, s[0].0) {
        let r = row_insert(s, path, value);
        assert(r[0] == (path, value));
        assert(r.drop_first() =~= s);
    } else {
        lemma_row_lookup_other(s.drop_first(), path, value, other);
        let r = row_insert(s, path, value);
        assert(r[0] == s[0]);
        assert(r.drop_first() =~= row_insert(s.drop_first(), path, value));
    }
}

/// One flattened log record: an ordered mapping from dotted/indexed path to
/// rendered scalar value, kept sorted by path so that identical input always
/// yields the identical row.
pub struct FlatRow {
    entries: Vec<(String, String)>,
}

impl View for FlatRow {
    type V = Seq<(Seq<char>, Seq<char>)>;

    closed spec fn view(&self) -> Seq<(Seq<char>, Seq<char>)> {
        entries_view(self.entries@)
    }
}

impl FlatRow {
    pub open spec fn wf(&self) -> bool {
        row_sorted(self@)
    }

    pub fn new() -> (r: FlatRow)
        ensures
            r.wf(),
            r@ == Seq::<(Seq<char>, Seq<char>)>::empty(),
    {
        let r = FlatRow { entries: Vec::new() };
        proof {
            assert(r@ =~= Seq::<(Seq<char>, Seq<char>)>::empty());
        }
        r
    }

    pub fn len(&self) -> (n: usize)
        ensures
            n == self@.len(),
    {
        self.entries.len()
    }

    pub fn key_at(&self, i: usize) -> (r: &String)
        requires
            i < self@.len(),
        ensures
            r@ == self@[i as int].0,
    {
        &self.entries[i].0
    }

    pub fn val_at(&self, i: usize) -> (r: &String)
        requires
            i < self@.len(),
        ensures
            r@ == self@[i as int].1,
    {
        &self.entries[i].1
    }

    /// Inserts a path/value pair, overwriting the value of an equal path.
    pub fn insert(&mut self, path: String, value: String)
        requires
            old(self).wf(),
        ensures
            final(self).wf(),
            final(self)@ == row_insert(old(self)@, path@, value@),
    {
        let ghost s = self@;
        let n = self.entries.len();
        let mut idx: usize = 0;
        let mut found_equal = false;
        loop
            invariant_except_break
                !found_equal,
            invariant
                self@ == s,
                n == self.entries@.len(),
                n == s.len(),
                idx <= n,
                forall|j: int| 0 <= j < idx ==> lex_lt(#[trigger] s[j].0, path@),
            ensures
                self@ == s,
                n == self.entries@.len(),
                idx <= n,
                forall|j: int| 0 <= j < idx ==> lex_lt(#[trigger] s[j].0, path@),
                found_equal ==> idx < n && s[idx as int].0 == path@,
                !found_equal ==> idx == n || lex_lt(path@, s[idx as int].0),
            decreases n - idx,
        {
            if idx == n {
                break ;
            }
            let c = str_compare(self.entries[idx].0.as_str(), path.as_str());
            proof {
                assert(s[idx as int].0 == self.entries@[idx as int].0@);
                lemma_lex_lt_total(self.entries@[idx as int].0@, path@);
            }
            if c == 0 {
                found_equal = true;
                break ;
            }
            if c == 1 {
                break ;
            }
            idx = idx + 1;
        }
        proof {
            lemma_row_insert_at(s, path@, value@, idx as int);
        }
        if found_equal {
            self.entries.remove(idx);
            self.entries.insert(idx, (path, value));
            proof {
                assert(self@ =~= s.update(idx as int, (path@, value@)));
                assert(self@ == row_insert(s, path@, value@));
                lemma_row_insert_sorted(s, path@, value@, idx as int);
            }
        } else {
            self.entries.insert(idx, (path, value));
            proof {
                assert(self@ =~= s.take(idx as int) + seq![(path@, value@)] + s.skip(idx as int));
                assert(self@ == row_insert(s, path@, value@));
                lemma_row_insert_sorted(s, path@, value@, idx as int);
            }
        }
    }

    /// The value stored under a path, if any.
    pub fn get(&self, path: &str) -> (r: Option<&String>)
        ensures
            match r {
                Some(v) => row_lookup(self@, path@) == Some(v@),
                None => row_lookup(self@, path@) is None,
            },
    {
        let n = self.entries.len();
        let mut i: usize = 0;
        proof {
            assert(self@.skip(0) =~= self@);
        }
        loop
            invariant
                n == self.entries@.len(),
                n == self@.len(),
                i <= n,
                row_lookup(self@, path@) == row_lookup(self@.skip(i as int), path@),
            ensures
                i <= n,
                row_lookup(self@, path@) == row_lookup(self@.skip(i as int), path@),
                i < n ==> self@[i as int].0 == path@,
                i == n ==> row_lookup(self@, path@) is None,
            decreases n - i,
        {
            if i == n {
                proof {
                    assert(self@.skip(i as int).len() == 0);
                }
                break ;
            }
            let c = str_compare(self.entries[i].0.as_str(), path);
            proof {
                assert(self@.skip(i as int)[0] == self@[i as int]);
                assert(self@[i as int].0 == self.entries@[i as int].0@);
            }
            if c == 0 {
                break ;
            }
            proof {
                lemma_lex_lt_total(self.entries@[i as int].0@, path@);
                lemma_lex_lt_total(path@, self.entries@[i as int].0@);
                assert(self@.skip(i as int).drop_first() =~= self@.skip(i + 1));
            }
            i = i + 1;
        }
        if i < n {
            proof {
                assert(self@.skip(i as int)[0] == self@[i as int]);
            }
            Some(&self.entries[i].1)
        } else {
            None
        }
    }
}

/// Every entry of `add` folded into `base`, in order.
pub open spec fn merge_rows(
    base: Seq<(Seq<char>, Seq<char>)>,
    add: Seq<(Seq<char>, Seq<char>)>,
) -> Seq<(Seq<char>, Seq<char>)>
    decreases add.len(),
{
    if add.len() == 0 {
        base
    } else {
        row_insert(merge_rows(base, add.drop_last()), add.last().0, add.last().1)
    }
}

/// A path is stored in a row exactly when some entry carries it.
pub proof fn lemma_row_lookup_member(s: Seq<(Seq<char>, Seq<char>)>, name: Seq<char>)
    ensures
        row_lookup(s, name) is Some <==> exists|e: int| 0 <= e < s.len() && (#[trigger] s[e].0)
            == name,
    decreases s.len(),
{
    if s.len() > 0 && s[0].0 != name {
        lemma_row_lookup_member(s.drop_first(), name);
        if row_lookup(s, name) is Some {
            let e = choose|e: int|
                0 <= e < s.drop_first().len() && (#[trigger] s.drop_first()[e].0) == name;
            assert(s[e + 1].0 == name);
        }
        if exists|e: int| 0 <= e < s.len() && (#[trigger] s[e].0) == name {
            let e = choose|e: int| 0 <= e < s.len() && (#[trigger] s[e].0) == name;
            assert(s.drop_first()[e - 1].0 == name);
        }
    }
}

impl FlatRow {
    /// Folds every entry of `other` into this row, in entry order.
    pub fn merge_from(&mut self, other: &FlatRow)
        requires
            old(self).wf(),
        ensures
            final(self).wf(),
            final(self)@ == merge_rows(old(self)@, other@),
    {
        let n = other.len();
        let mut i: usize = 0;
        proof {
            assert(other@.take(0) =~= Seq::<(Seq<char>, Seq<char>)>::empty());
        }
        while i < n
            invariant
                n == other@.len(),
                i <= n,
                self.wf(),
                self@ == merge_rows(old(self)@, other@.take(i as int)),
            decreases n - i,
        {
            proof {
                assert(other@.take(i + 1).drop_last() =~= other@.take(i as int));
                assert(other@.take(i + 1).last() == other@[i as int]);
            }
            let key = other.key_at(i).clone();
            let val = other.val_at(i).clone();
            self.insert(key, val);
            i = i + 1;
        }
        proof {
            assert(other@.take(n as int) =~= other@);
        }
    }
}

/// The path of an object field under a prefix: `key` under the empty prefix,
/// `prefix.key` otherwise.
pub open spec fn join_path(prefix: Seq<char>, key: Seq<char>) -> Seq<char> {
    if prefix.len() == 0 {
        key
    } else {
        prefix + seq!['.'] + key
    }
}

/// The path of an array element under a prefix: `prefix[i]`.
pub open spec fn index_path(prefix: Seq<char>, i: int) -> Seq<char> {
    prefix + seq!['['] + dec_str(i as nat) + seq![']']
}

/// Every leaf scalar of a structured value as a (path, rendered value) pair,
/// in the order flattening visits them: object fields in the order they are
/// held, array elements by ascending index, a bare scalar under the prefix
/// itself.
pub open spec fn leaves(v: JsonValue, prefix: Seq<char>) -> Seq<(Seq<char>, Seq<char>)>
    decreases v, 0int, 0int,
{
    match v {
        JsonValue::Obj(entries) => obj_leaves(entries@, prefix, 0),
        JsonValue::Arr(elems) => arr_leaves(elems@, prefix, 0),
        _ => seq![(prefix, scalar_string(v))],
    }
}

pub open spec fn obj_leaves(
    entries: Seq<(String, JsonValue)>,
    prefix: Seq<char>,
    i: int,
) -> Seq<(Seq<char>, Seq<char>)>
    decreases entries, entries.len() - i, 1int,
{
    if i < 0 || i >= entries.len() {
        Seq::empty()
    } else {
        leaves(entries[i].1, join_path(prefix, entries[i].0@)) + obj_leaves(entries, prefix, i + 1)
    }
}

pub open spec fn arr_leaves(elems: Seq<JsonValue>, prefix: Seq<char>, i: int) -> Seq<
    (Seq<char>, Seq<char>),
>
    decreases elems, elems.len() - i, 1int,
{
    if i < 0 || i >= elems.len() {
        Seq::empty()
    } else {
        leaves(elems[i], index_path(prefix, i)) + arr_leaves(elems, prefix, i + 1)
    }
}

/// The row the leaves fold into, first leaf inserted first.
pub open spec fn row_of_leaves(l: Seq<(Seq<char>, Seq<char>)>) -> Seq<(Seq<char>, Seq<char>)>
    decreases l.len(),
{
    if l.len() == 0 {
        Seq::empty()
    } else {
        row_insert(row_of_leaves(l.drop_last()), l.last().0, l.last().1)
    }
}

/// The flattened form of a structured value: every leaf under its path,
/// sorted by path, later visits of a colliding path overwriting earlier ones.
pub open spec fn flatten_spec(v: JsonValue, prefix: Seq<char>) -> Seq<(Seq<char>, Seq<char>)> {
    row_of_leaves(leaves(v, prefix))
}

fn join_path_exec(prefix: &str, key: &str) -> (r: String)
    ensures
        r@ == join_path(prefix@, key@),
{
    if prefix.unicode_len() == 0 {
        key.to_owned()
    } else {
        let mut r = prefix.to_owned();
        proof {
            reveal_strlit(".");
        }
        r.append(".");
        r.append(key);
        proof {
            assert(r@ =~= prefix@ + seq!['.'] + key@);
        }
        r
    }
}

fn index_path_exec(prefix: &str, i: usize) -> (r: String)
    ensures
        r@ == index_path(prefix@, i as int),
{
    let mut r = prefix.to_owned();
    proof {
        reveal_strlit("[");
        reveal_strlit("]");
    }
    r.append("[");
    let digits = usize_to_string(i);
    r.append(digits.as_str());
    r.append("]");
    proof {
        assert(r@ =~= prefix@ + seq!['['] + dec_str(i as nat) + seq![']']);
    }
    r
}

/// Collects the leaves of `v` under `prefix` onto the end of `out`, in visit
/// order.
fn collect_leaves(v: &JsonValue, prefix: &str, out: &mut Vec<(String, String)>)
    ensures
        entries_view(final(out)@) == entries_view(old(out)@) + leaves(*v, prefix@),
    decreases *v,
{
    match v {
        JsonValue::Obj(entries) => {
            let n = entries.len();
            let mut i: usize = 0;
            while i < n
                invariant
                    n == entries@.len(),
                    i <= n,
                    v is Obj && v->Obj_0 == *entries,
                    entries_view(out@) + obj_leaves(entries@, prefix@, i as int) == entries_view(
                        old(out)@,
                    ) + leaves(*v, prefix@),
                decreases n - i,
            {
                proof {
                    assert(decreases_to!(*v => *entries));
                    assert(decreases_to!(*entries => entries@));
                    assert(decreases_to!(entries@ => entries@[i as int]));
                    assert(decreases_to!(entries@[i as int] => entries@[i as int].1));
                }
                let path = join_path_exec(prefix, entries[i].0.as_str());
                let ghost before = out@;
                collect_leaves(&entries[i].1, path.as_str(), out);
                proof {
                    assert(entries_view(out@) =~= entries_view(before) + leaves(
                        entries@[i as int].1,
                        join_path(prefix@, entries@[i as int].0@),
                    ));
                    assert(entries_view(before) + obj_leaves(entries@, prefix@, i as int)
                        =~= entries_view(out@) + obj_leaves(entries@, prefix@, i + 1));
                }
                i = i + 1;
            }
            proof {
                assert(obj_leaves(entries@, prefix@, n as int).len() == 0);
                assert(entries_view(out@) =~= entries_view(out@) + obj_leaves(
                    entries@,
                    prefix@,
                    n as int,
                ));
            }
        },
        JsonValue::Arr(elems) => {
            let n = elems.len();
            let mut i: usize = 0;
            while i < n
                invariant
                    n == elems@.len(),
                    i <= n,
                    v is Arr && v->Arr_0 == *elems,
                    entries_view(out@) + arr_leaves(elems@, prefix@, i as int) == entries_view(
                        old(out)@,
                    ) + leaves(*v, prefix@),
                decreases n - i,
            {
                proof {
                    assert(decreases_to!(*v => *elems));
                    assert(decreases_to!(*elems => elems@));
                    assert(decreases_to!(elems@ => elems@[i as int]));
                }
                let path = index_path_exec(prefix, i);
                let ghost before = out@;
                collect_leaves(&elems[i], path.as_str(), out);
                proof {
                    assert(entries_view(out@) =~= entries_view(before) + leaves(
                        elems@[i as int],
                        index_path(prefix@, i as int),
                    ));
                    assert(entries_view(before) + arr_leaves(elems@, prefix@, i as int)
                        =~= entries_view(out@) + arr_leaves(elems@, prefix@, i + 1));
                }
                i = i + 1;
            }
            proof {
                assert(arr_leaves(elems@, prefix@, n as int).len() == 0);
                assert(entries_view(out@) =~= entries_view(out@) + arr_leaves(
                    elems@,
                    prefix@,
                    n as int,
                ));
            }
        },
        _ => {
            let rendered = render_scalar(v);
            out.push((prefix.to_owned(), rendered));
            proof {
                assert(entries_view(out@) =~= entries_view(old(out)@) + leaves(*v, prefix@));
            }
        },
    }
}

/// Flattens a structured value into an ordered path-to-value row: object
/// field `k` under prefix `p` lies at `p.k` (bare `k` when `p` is empty),
/// array element `i` at `p[i]`, null renders empty, scalars render bare, and
/// the whole row is sorted by path.
pub fn flatten_json_to_columns(value: &JsonValue, prefix: &str) -> (r: FlatRow)
    ensures
        r.wf(),
        r@ == flatten_spec(*value, prefix@),
{
    let mut pairs: Vec<(String, String)> = Vec::new();
    collect_leaves(value, prefix, &mut pairs);
    proof {
        assert(entries_view(pairs@) =~= leaves(*value, prefix@));
    }
    let mut row = FlatRow::new();
    let n = pairs.len();
    let mut i: usize = 0;
    proof {
        assert(entries_view(pairs@).take(0) =~= Seq::<(Seq<char>, Seq<char>)>::empty());
    }
    while i < n
        invariant
            n == pairs@.len(),
            i <= n,
            entries_view(pairs@) == leaves(*value, prefix@),
            row.wf(),
            row@ == row_of_leaves(entries_view(pairs@).take(i as int)),
        decreases n - i,
    {
        proof {
            assert(entries_view(pairs@).take(i + 1).drop_last() =~= entries_view(pairs@).take(
                i as int,
            ));
            assert(entries_view(pairs@).take(i + 1).last() == entries_view(pairs@)[i as int]);
        }
        row.insert(pairs[i].0.clone(), pairs[i].1.clone());
        i = i + 1;
    }
    proof {
        assert(entries_view(pairs@).take(n as int) =~= entries_view(pairs@));
    }
    row
}

/// Flattening is deterministic: the same structured value flattened under
/// the same prefix always yields the identical ordered path-to-value row.
pub proof fn lemma_flatten_deterministic(
    v: JsonValue,
    prefix: Seq<char>,
    r1: Seq<(Seq<char>, Seq<char>)>,
    r2: Seq<(Seq<char>, Seq<char>)>,
)
    requires
        r1 == flatten_spec(v, prefix),
        r2 == flatten_spec(v, prefix),
    ensures
        r1 == r2,
{
}

proof fn lemma_row_of_leaves_unique(l: Seq<(Seq<char>, Seq<char>)>, j: int)
    requires
        0 <= j < l.len(),
        forall|k: int| 0 <= k < l.len() && k != j ==> (#[trigger] l[k].0) != l[j].0,
    ensures
        row_lookup(row_of_leaves(l), l[j].0) == Some(l[j].1),
    decreases l.len(),
{
    if j == l.len() - 1 {
        lemma_row_lookup_inserted(row_of_leaves(l.drop_last()), l.last().0, l.last().1);
    } else {
        assert(l.drop_last()[j] == l[j]);
        assert forall|k: int|
            0 <= k < l.drop_last().len() && k != j implies (#[trigger] l.drop_last()[k].0)
            != l.drop_last()[j].0 by {
            assert(l.drop_last()[k] == l[k]);
        }
        lemma_row_of_leaves_unique(l.drop_last(), j);
        assert(l.last().0 != l[j].0);
        lemma_row_lookup_other(row_of_leaves(l.drop_last()), l.last().0, l.last().1, l[j].0);
    }
}

/// Flattening is path-lossless: a leaf scalar whose path no other leaf
/// shares appears in the flattened row under exactly that path, carrying its
/// rendered value.
pub proof fn lemma_flatten_lossless(v: JsonValue, prefix: Seq<char>, j: int)
    requires
        0 <= j < leaves(v, prefix).len(),
        forall|k: int|
            0 <= k < leaves(v, prefix).len() && k != j ==> (#[trigger] leaves(v, prefix)[k].0)
                != leaves(v, prefix)[j].0,
    ensures
        row_lookup(flatten_spec(v, prefix), leaves(v, prefix)[j].0) == Some(
            leaves(v, prefix)[j].1,
        ),
{
    lemma_row_of_leaves_unique(leaves(v, prefix), j);
}

/// A sorted row stays sorted across insertion at the right place.
proof fn lemma_row_insert_sorted(
    s: Seq<(Seq<char>, Seq<char>)>,
    path: Seq<char>,
    value: Seq<char>,
    idx: int,
)
    requires
        row_sorted(s),
        0 <= idx <= s.len(),
        forall|j: int| 0 <= j < idx ==> lex_lt(#[trigger] s[j].0, path),
        idx < s.len() ==> s[idx].0 == path || lex_lt(path, s[idx].0),
    ensures
        row_sorted(row_insert(s, path, value)),
{
    lemma_row_insert_at(s, path, value, idx);
    if idx < s.len() && s[idx].0 == path {
        let r = s.update(idx, (path, value));
        assert forall|i: int, j: int| 0 <= i < j < r.len() implies lex_lt(r[i].0, r[j].0) by {
            if i != idx && j != idx {
                assert(r[i] == s[i] && r[j] == s[j]);
            } else if i == idx {
                assert(r[j] == s[j] && lex_lt(s[idx].0, s[j].0));
            } else {
                assert(r[i] == s[i] && lex_lt(s[i].0, s[idx].0));
            }
        }
    } else {
        let r = s.take(idx) + seq![(path, value)] + s.skip(idx);
        assert forall|i: int, j: int| 0 <= i < j < r.len() implies lex_lt(r[i].0, r[j].0) by {
            if j < idx {
                assert(r[i] == s[i] && r[j] == s[j]);
            } else if j == idx {
                assert(r[i] == s[i]);
            } else {
                // j > idx: r[j] is s[j - 1]
                assert(r[j] == s[j - 1]);
                if i < idx {
                    assert(r[i] == s[i]);
                    if idx == j - 1 {
                        if idx < s.len() {
                            lemma_lex_lt_trans(s[i].0, path, s[idx].0);
                        }
                        assert(lex_lt(r[i].0, r[j].0));
                    } else {
                        assert(lex_lt(s[i].0, s[j - 1].0));
                    }
                } else if i == idx {
                    // r[i] is the new entry
                    if idx < s.len() {
                        if j - 1 == idx {
                            assert(lex_lt(path, s[idx].0));
                        } else {
                            lemma_lex_lt_trans(path, s[idx].0, s[j - 1].0);
                        }
                    }
                } else {
                    assert(r[i] == s[i - 1]);
                    assert(lex_lt(s[i - 1].0, s[j - 1].0));
                }
            }
        }
    }
}

} // verus!
