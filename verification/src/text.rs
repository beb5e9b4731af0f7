use vstd::prelude::*;

verus! {

/// Lexicographic order on character sequences by code point, the order the
/// standard library gives strings.
pub open spec fn lex_lt(a: Seq<char>, b: Seq<char>) -> bool
    decreases a.len(),
{
    if b.len() == 0 {
        false
    } else if a.len() == 0 {
        true
    } else if (a[0] as int) < (b[0] as int) {
        true
    } else if (a[0] as int) > (b[0] as int) {
        false
    } else {
        lex_lt(a.drop_first(), b.drop_first())
    }
}

pub proof fn lemma_lex_lt_irrefl(a: Seq<char>)
    ensures
        !lex_lt(a, a),
    decreases a.len(),
{
    if a.len() > 0 {
        lemma_lex_lt_irrefl(a.drop_first());
    }
}

pub proof fn lemma_lex_lt_trans(a: Seq<char>, b: Seq<char>, c: Seq<char>)
    requires
        lex_lt(a, b),
        lex_lt(b, c),
    ensures
        lex_lt(a, c),
    decreases a.len(),
{
    if a.len() > 0 && b.len() > 0 && c.len() > 0 && a[0] == b[0] && b[0] == c[0] {
        lemma_lex_lt_trans(a.drop_first(), b.drop_first(), c.drop_first());
    }
}

/// Exactly one of `a < b`, `a == b`, `b < a` holds.
pub proof fn lemma_lex_lt_total(a: Seq<char>, b: Seq<char>)
    ensures
        lex_lt(a, b) || lex_lt(b, a) || a == b,
        lex_lt(a, b) ==> a != b && !lex_lt(b, a),
    decreases a.len(),
{
    lemma_lex_lt_irrefl(a);
    lemma_lex_lt_irrefl(b);
    if a.len() > 0 && b.len() > 0 && a[0] == b[0] {
        lemma_lex_lt_total(a.drop_first(), b.drop_first());
        if a.drop_first() == b.drop_first() {
            assert(a =~= seq![a[0]] + a.drop_first());
            assert(b =~= seq![b[0]] + b.drop_first());
        }
        if lex_lt(a, b) && lex_lt(b, a) {
            assert(false);
        }
    }
}

/// Three-way string comparison in the order of `lex_lt`: negative for less,
/// zero for equal, positive for greater.
pub fn str_compare(a: &str, b: &str) -> (r: i8)
    ensures
        r == -1 ==> lex_lt(a@, b@),
        r == 0 ==> a@ == b@,
        r == 1 ==> lex_lt(b@, a@),
        r == -1 || r == 0 || r == 1,
{
    let an = a.unicode_len();
    let bn = b.unicode_len();
    proof {
        assert(a@.skip(0) =~= a@);
        assert(b@.skip(0) =~= b@);
    }
    let mut i: usize = 0;
    loop
        invariant
            i <= an,
            i <= bn,
            an == a@.len(),
            bn == b@.len(),
            lex_lt(a@, b@) == lex_lt(a@.skip(i as int), b@.skip(i as int)),
            lex_lt(b@, a@) == lex_lt(b@.skip(i as int), a@.skip(i as int)),
            (a@ == b@) <==> (a@.skip(i as int) == b@.skip(i as int) && an == bn),
        decreases an - i,
    {
        if i == an && i == bn {
            proof {
                assert(a@.skip(i as int) =~= b@.skip(i as int));
            }
            return 0;
        }
        if i == an {
            proof {
                assert(a@.skip(i as int).len() == 0 && b@.skip(i as int).len() > 0);
            }
            return -1;
        }
        if i == bn {
            proof {
                assert(b@.skip(i as int).len() == 0 && a@.skip(i as int).len() > 0);
            }
            return 1;
        }
        let ca = a.get_char(i);
        let cb = b.get_char(i);
        proof {
            assert(a@.skip(i as int)[0] == a@[i as int]);
            assert(b@.skip(i as int)[0] == b@[i as int]);
        }
        if (ca as u32) < (cb as u32) {
            return -1;
        }
        if (ca as u32) > (cb as u32) {
            return 1;
        }
        proof {
            assert(ca as int == cb as int && ca as u32 == ca as int && cb as u32 == cb as int);
            assert(ca == cb) by {
                assert(ca as int == cb as int);
            }
            assert(a@.skip(i as int).drop_first() =~= a@.skip(i + 1));
            assert(b@.skip(i as int).drop_first() =~= b@.skip(i + 1));
            if a@.skip(i + 1) == b@.skip(i + 1) {
                assert forall|k: int| 0 <= k < a@.skip(i as int).len() implies a@.skip(i as int)[k]
                    == b@.skip(i as int)[k] by {
                    assert(a@.skip(i as int)[k] == a@[i + k]);
                    assert(b@.skip(i as int)[k] == b@[i + k]);
                    if k > 0 {
                        assert(a@.skip(i + 1)[k - 1] == a@[i + k]);
                        assert(b@.skip(i + 1)[k - 1] == b@[i + k]);
                    }
                }
                assert(a@.skip(i as int) =~= b@.skip(i as int));
            }
        }
        i = i + 1;
    }
}

/// The first position of `c` in `s` at or after `i`.
pub open spec fn find_char_from(s: Seq<char>, c: char, i: int) -> Option<int>
    decreases s.len() - i,
{
    if i < 0 || i >= s.len() {
        None
    } else if s[i] == c {
        Some(i)
    } else {
        find_char_from(s, c, i + 1)
    }
}

/// The first position of `c` in `s`, if any.
pub fn find_char(s: &str, c: char) -> (r: Option<usize>)
    ensures
        r matches Some(i) ==> find_char_from(s@, c, 0) == Some(i as int),
        r is None ==> find_char_from(s@, c, 0) is None,
{
    let n = s.unicode_len();
    let mut i: usize = 0;
    loop
        invariant
            n == s@.len(),
            i <= n,
            find_char_from(s@, c, 0) == find_char_from(s@, c, i as int),
        ensures
            i <= n,
            i < n ==> find_char_from(s@, c, 0) == Some(i as int),
            i == n ==> find_char_from(s@, c, 0) is None,
        decreases n - i,
    {
        if i == n {
            break ;
        }
        if s.get_char(i) == c {
            break ;
        }
        i = i + 1;
    }
    if i < n {
        Some(i)
    } else {
        None
    }
}

pub proof fn lemma_find_char(s: Seq<char>, c: char, from: int)
    requires
        0 <= from,
    ensures
        find_char_from(s, c, from) matches Some(i) ==> from <= i < s.len() && s[i] == c && (forall|
            j: int,
        | from <= j < i ==> s[j] != c),
        find_char_from(s, c, from) is None ==> forall|j: int| from <= j < s.len() ==> s[j] != c,
    decreases s.len() - from,
{
    if from < s.len() && s[from] != c {
        lemma_find_char(s, c, from + 1);
    }
}

/// The white space that trimming strips.
pub open spec fn is_ws(c: char) -> bool {
    c == ' ' || c == '\t' || c == '\n' || c == '\r'
}

/// How many leading white-space characters `s` has.
pub open spec fn ltrim_count(s: Seq<char>) -> int
    decreases s.len(),
{
    if s.len() == 0 || !is_ws(s[0]) {
        0
    } else {
        1 + ltrim_count(s.drop_first())
    }
}

/// How many trailing white-space characters `s` has.
pub open spec fn rtrim_count(s: Seq<char>) -> int
    decreases s.len(),
{
    if s.len() == 0 || !is_ws(s.last()) {
        0
    } else {
        1 + rtrim_count(s.drop_last())
    }
}

/// `s` without leading and trailing white space.
pub open spec fn trimmed(s: Seq<char>) -> Seq<char> {
    if ltrim_count(s) == s.len() {
        Seq::empty()
    } else {
        s.subrange(ltrim_count(s), s.len() - rtrim_count(s))
    }
}

pub proof fn lemma_ltrim_bounds(s: Seq<char>)
    ensures
        0 <= ltrim_count(s) <= s.len(),
        forall|j: int| 0 <= j < ltrim_count(s) ==> is_ws(#[trigger] s[j]),
        ltrim_count(s) < s.len() ==> !is_ws(s[ltrim_count(s)]),
    decreases s.len(),
{
    if s.len() > 0 && is_ws(s[0]) {
        lemma_ltrim_bounds(s.drop_first());
        assert forall|j: int| 0 <= j < ltrim_count(s) implies is_ws(#[trigger] s[j]) by {
            if j > 0 {
                assert(s.drop_first()[j - 1] == s[j]);
            }
        }
        if ltrim_count(s) < s.len() {
            assert(s.drop_first()[ltrim_count(s) - 1] == s[ltrim_count(s)]);
        }
    }
}

pub proof fn lemma_rtrim_bounds(s: Seq<char>)
    ensures
        0 <= rtrim_count(s) <= s.len(),
        forall|j: int| s.len() - rtrim_count(s) <= j < s.len() ==> is_ws(#[trigger] s[j]),
        rtrim_count(s) < s.len() ==> !is_ws(s[s.len() - rtrim_count(s) - 1]),
    decreases s.len(),
{
    if s.len() > 0 && is_ws(s.last()) {
        lemma_rtrim_bounds(s.drop_last());
        assert forall|j: int| s.len() - rtrim_count(s) <= j < s.len() implies is_ws(
            #[trigger] s[j],
        ) by {
            if j < s.len() - 1 {
                assert(s.drop_last()[j] == s[j]);
            }
        }
        if rtrim_count(s) < s.len() {
            assert(s.drop_last()[s.len() - rtrim_count(s) - 1] == s[s.len() - rtrim_count(s)
                - 1]);
        }
    }
}

fn is_ws_exec(c: char) -> (r: bool)
    ensures
        r == is_ws(c),
{
    c == ' ' || c == '\t' || c == '\n' || c == '\r'
}

/// `s` without leading and trailing white space (space, tab, line and
/// carriage returns).
pub fn trim(s: &str) -> (r: &str)
    ensures
        r@ == trimmed(s@),
{
    proof {
        lemma_ltrim_bounds(s@);
        lemma_rtrim_bounds(s@);
    }
    let n = s.unicode_len();
    let mut a: usize = 0;
    loop
        invariant
            n == s@.len(),
            a <= n,
            forall|j: int| 0 <= j < a ==> is_ws(#[trigger] s@[j]),
        ensures
            a <= n,
            forall|j: int| 0 <= j < a ==> is_ws(#[trigger] s@[j]),
            a < n ==> !is_ws(s@[a as int]),
        decreases n - a,
    {
        if a == n {
            break ;
        }
        if !is_ws_exec(s.get_char(a)) {
            break ;
        }
        a = a + 1;
    }
    proof {
        if a < ltrim_count(s@) {
            assert(!is_ws(s@[a as int]));
            assert(false);
        }
        if a > ltrim_count(s@) {
            assert(is_ws(s@[ltrim_count(s@)]));
            assert(false);
        }
        assert(a == ltrim_count(s@));
    }
    if a == n {
        let r = s.substring_char(0, 0);
        proof {
            assert(r@ =~= trimmed(s@));
        }
        return r;
    }
    let mut b: usize = n;
    loop
        invariant
            n == s@.len(),
            a < n,
            a <= b <= n,
            forall|j: int| b <= j < n ==> is_ws(#[trigger] s@[j]),
            a == ltrim_count(s@),
            !is_ws(s@[a as int]),
        ensures
            a <= b <= n,
            forall|j: int| b <= j < n ==> is_ws(#[trigger] s@[j]),
            b > a,
            !is_ws(s@[b - 1]),
        decreases b,
    {
        if b == a {
            proof {
                assert(is_ws(s@[a as int]));
            }
            break ;
        }
        if !is_ws_exec(s.get_char(b - 1)) {
            break ;
        }
        b = b - 1;
    }
    proof {
        let rt = rtrim_count(s@);
        assert(rt < s@.len()) by {
            if rt == s@.len() {
                assert(is_ws(s@[a as int]));
            }
        }
        if b < s@.len() - rt {
            assert(is_ws(s@[s@.len() - rt - 1]));
            assert(false);
        }
        if b > s@.len() - rt {
            assert(is_ws(s@[b - 1]));
            assert(false);
        }
        assert(b == s@.len() - rt);
    }
    let r = s.substring_char(a, b);
    proof {
        assert(r@ =~= trimmed(s@));
    }
    r
}

/// The decimal digit characters, lowest first.
pub open spec fn digit_char(d: int) -> char {
    if d == 0 {
        '0'
    } else if d == 1 {
        '1'
    } else if d == 2 {
        '2'
    } else if d == 3 {
        '3'
    } else if d == 4 {
        '4'
    } else if d == 5 {
        '5'
    } else if d == 6 {
        '6'
    } else if d == 7 {
        '7'
    } else if d == 8 {
        '8'
    } else {
        '9'
    }
}

/// The decimal rendering of a natural number, no leading zeroes.
pub open spec fn dec_str(n: nat) -> Seq<char>
    decreases n,
{
    if n < 10 {
        seq![digit_char(n as int)]
    } else {
        dec_str(n / 10).push(digit_char((n % 10) as int))
    }
}

/// Appends one decimal digit character.
fn append_digit(s: &mut String, d: usize)
    requires
        d < 10,
    ensures
        final(s)@ == old(s)@.push(digit_char(d as int)),
{
    let digits = "0123456789";
    proof {
        reveal_strlit("0123456789");
    }
    let piece = digits.substring_char(d, d + 1);
    proof {
        assert(piece@ =~= seq![digit_char(d as int)]);
    }
    s.append(piece);
    proof {
        assert(old(s)@ + seq![digit_char(d as int)] =~= old(s)@.push(digit_char(d as int)));
    }
}

/// The decimal rendering of `n`.
pub fn usize_to_string(n: usize) -> (r: String)
    ensures
        r@ == dec_str(n as nat),
{
    let mut rev: Vec<usize> = Vec::new();
    let mut m = n;
    proof {
        assert(dec_str(n as nat) =~= dec_str(n as nat) + digits_of(rev@));
    }
    loop
        invariant
            forall|j: int| 0 <= j < rev@.len() ==> #[trigger] rev@[j] < 10,
            dec_str(n as nat) == dec_str(m as nat) + digits_of(rev@),
        ensures
            m < 10,
            dec_str(n as nat) == dec_str(m as nat) + digits_of(rev@),
            forall|j: int| 0 <= j < rev@.len() ==> #[trigger] rev@[j] < 10,
        decreases m,
    {
        proof {
            if m >= 10 {
                let ext = seq![(m % 10) as usize] + rev@;
                assert(ext.drop_first() =~= rev@);
                assert(digits_of(ext) =~= seq![digit_char((m % 10) as int)] + digits_of(rev@));
                assert(ext =~= rev@.insert(0, (m % 10) as usize));
                assert(dec_str(m as nat) =~= dec_str((m as nat) / 10) + seq![
                    digit_char((m % 10) as int),
                ]);
                assert(dec_str((m as nat) / 10) + digits_of(ext) =~= dec_str(m as nat)
                    + digits_of(rev@));
            }
        }
        if m < 10 {
            break ;
        }
        rev.insert(0, m % 10);
        m = m / 10;
    }
    let mut out = String::new();
    append_digit(&mut out, m);
    proof {
        assert(out@ =~= dec_str(m as nat));
    }
    let mut i: usize = 0;
    while i < rev.len()
        invariant
            i <= rev@.len(),
            forall|j: int| 0 <= j < rev@.len() ==> #[trigger] rev@[j] < 10,
            out@ == dec_str(m as nat) + digits_of(rev@.take(i as int)),
            dec_str(n as nat) == dec_str(m as nat) + digits_of(rev@),
            m < 10,
        decreases rev@.len() - i,
    {
        proof {
            lemma_digits_of_snoc(rev@.take(i + 1));
            assert(rev@.take(i + 1).drop_last() =~= rev@.take(i as int));
        }
        append_digit(&mut out, rev[i]);
        i = i + 1;
    }
    proof {
        assert(rev@.take(rev@.len() as int) =~= rev@);
    }
    out
}

/// The digit characters named by a sequence of digit values.
pub open spec fn digits_of(ds: Seq<usize>) -> Seq<char>
    decreases ds.len(),
{
    if ds.len() == 0 {
        Seq::empty()
    } else {
        seq![digit_char(ds[0] as int)] + digits_of(ds.drop_first())
    }
}

proof fn lemma_digits_of_snoc(ds: Seq<usize>)
    requires
        ds.len() > 0,
    ensures
        digits_of(ds) == digits_of(ds.drop_last()).push(digit_char(ds.last() as int)),
    decreases ds.len(),
{
    reveal_with_fuel(digits_of, 2);
    if ds.len() == 1 {
        assert(ds.drop_last().len() == 0);
        assert(digits_of(ds.drop_first()).len() == 0);
        assert(digits_of(ds) =~= digits_of(ds.drop_last()).push(digit_char(ds.last() as int)));
    } else {
        lemma_digits_of_snoc(ds.drop_first());
        assert(ds.drop_first().drop_last() =~= ds.drop_last().drop_first());
        assert(digits_of(ds) =~= digits_of(ds.drop_last()).push(digit_char(ds.last() as int)));
    }
}

} // verus!
