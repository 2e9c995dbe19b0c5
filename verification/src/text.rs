//! Character classes, lexicographic order on character sequences, and the
//! small string utilities (trim, prefix test, searching, line and token
//! splitting, decimal numerals) that the parser and the snapshot codec build
//! on.
use vstd::prelude::*;

verus! {

/// ASCII whitespace: the characters `char::is_ascii_whitespace` accepts.
pub open spec fn is_ws(c: char) -> bool {
    c == ' ' || c == '\t' || c == '\n' || c == '\r' || c == '\x0c'
}

/// Decimal digit.
pub open spec fn is_digit(c: char) -> bool {
    '0' <= c && c <= '9'
}

/// Numeric value of a decimal digit.
pub open spec fn digit_val(c: char) -> nat {
    (c as nat - '0' as nat) as nat
}

pub fn is_ws_exec(c: char) -> (r: bool)
    ensures
        r == is_ws(c),
{
    c == ' ' || c == '\t' || c == '\n' || c == '\r' || c == '\x0c'
}

/// The views of a sequence of strings.
pub open spec fn views_of(s: Seq<String>) -> Seq<Seq<char>> {
    Seq::new(s.len(), |i: int| s[i]@)
}

/// Strict lexicographic order on character sequences, by code point; a proper
/// prefix precedes the longer sequence. This is the order in which `str`
/// comparison sorts, since UTF-8 byte order agrees with code-point order.
pub open spec fn lex_lt(a: Seq<char>, b: Seq<char>) -> bool
    decreases a.len(),
{
    if b.len() == 0 {
        false
    } else if a.len() == 0 {
        true
    } else if a[0] < b[0] {
        true
    } else if a[0] == b[0] {
        lex_lt(a.skip(1), b.skip(1))
    } else {
        false
    }
}

/// `lex_lt` is a strict total order: any two sequences are related one way,
/// the other way, or equal, and those three cases exclude each other.
pub proof fn lemma_lex_total(a: Seq<char>, b: Seq<char>)
    ensures
        lex_lt(a, b) || lex_lt(b, a) || a == b,
        lex_lt(a, b) ==> !lex_lt(b, a) && a != b,
        lex_lt(b, a) ==> !lex_lt(a, b) && a != b,
    decreases a.len(),
{
    if a.len() == 0 && b.len() == 0 {
        assert(a =~= b);
    } else if a.len() > 0 && b.len() > 0 {
        if a[0] == b[0] {
            lemma_lex_total(a.skip(1), b.skip(1));
            if a.skip(1) == b.skip(1) {
                assert(a =~= b) by {
                    assert forall|i: int| 0 <= i < a.len() implies a[i] == b[i] by {
                        if i > 0 {
                            assert(a[i] == a.skip(1)[i - 1]);
                            assert(b[i] == b.skip(1)[i - 1]);
                        }
                    }
                }
            }
            if a == b {
                assert(a.skip(1) =~= b.skip(1));
            }
        } else {
            assert(a != b) by {
                if a == b {
                    assert(a[0] == b[0]);
                }
            }
        }
    }
}

/// `lex_lt` is transitive.
pub proof fn lemma_lex_trans(a: Seq<char>, b: Seq<char>, c: Seq<char>)
    requires
        lex_lt(a, b),
        lex_lt(b, c),
    ensures
        lex_lt(a, c),
    decreases a.len(),
{
    if a.len() == 0 {
    } else {
        if a[0] == b[0] && b[0] == c[0] {
            lemma_lex_trans(a.skip(1), b.skip(1), c.skip(1));
        }
    }
}

/// A first difference at position `i` (or `a` running out first) decides the
/// lexicographic order.
pub proof fn lemma_lex_lt_at(a: Seq<char>, b: Seq<char>, i: int)
    requires
        0 <= i <= a.len(),
        i <= b.len(),
        forall|j: int| 0 <= j < i ==> a[j] == b[j],
        (i < a.len() && i < b.len() && a[i] < b[i]) || (i == a.len() && i < b.len()),
    ensures
        lex_lt(a, b),
    decreases i,
{
    if i == 0 {
    } else {
        lemma_lex_lt_at(a.skip(1), b.skip(1), i - 1);
    }
}

/// Strictly ascending lexicographic order; implies the entries are distinct.
pub open spec fn sorted_names(s: Seq<Seq<char>>) -> bool {
    forall|i: int, j: int| 0 <= i < j < s.len() ==> lex_lt(s[i], s[j])
}

/// Two strictly sorted name lists with the same members are the same list.
pub proof fn lemma_sorted_names_unique(a: Seq<Seq<char>>, b: Seq<Seq<char>>)
    requires
        sorted_names(a),
        sorted_names(b),
        forall|y: Seq<char>| a.contains(y) <==> b.contains(y),
    ensures
        a == b,
    decreases a.len(),
{
    if a.len() == 0 {
        if b.len() > 0 {
            assert(b.contains(b[0]));
        }
        assert(a =~= b);
    } else {
        assert(a.contains(a[0]));
        assert(b.contains(a[0]));
        assert(b.contains(b[0]));
        assert(a.contains(b[0]));
        let ia = choose|k: int| 0 <= k < b.len() && b[k] == a[0];
        let ib = choose|k: int| 0 <= k < a.len() && a[k] == b[0];
        lemma_lex_total(a[0], b[0]);
        if lex_lt(a[0], b[0]) {
            // a[0] sits in b at ia, so b[0] is at most a[0]: contradiction.
            assert(0 < ia);
            assert(lex_lt(b[0], b[ia]));
            lemma_lex_trans(b[0], a[0], b[0]);
            assert(false);
        } else if lex_lt(b[0], a[0]) {
            assert(0 < ib);
            assert(lex_lt(a[0], a[ib]));
            lemma_lex_trans(a[0], b[0], a[0]);
            assert(false);
        }
        assert(a[0] == b[0]);
        let at = a.skip(1);
        let bt = b.skip(1);
        assert(forall|y: Seq<char>| at.contains(y) <==> bt.contains(y)) by {
            assert forall|y: Seq<char>| at.contains(y) implies bt.contains(y) by {
                let k = choose|k: int| 0 <= k < at.len() && at[k] == y;
                assert(a[k + 1] == y);
                assert(a.contains(y));
                let m = choose|m: int| 0 <= m < b.len() && b[m] == y;
                assert(lex_lt(a[0], a[k + 1]));
                if m == 0 {
                    lemma_lex_total(a[0], y);
                    assert(false);
                }
                assert(bt[m - 1] == y);
            }
            assert forall|y: Seq<char>| bt.contains(y) implies at.contains(y) by {
                let k = choose|k: int| 0 <= k < bt.len() && bt[k] == y;
                assert(b[k + 1] == y);
                assert(b.contains(y));
                let m = choose|m: int| 0 <= m < a.len() && a[m] == y;
                assert(lex_lt(b[0], b[k + 1]));
                if m == 0 {
                    lemma_lex_total(b[0], y);
                    assert(false);
                }
                assert(at[m - 1] == y);
            }
        }
        lemma_sorted_names_unique(at, bt);
        assert(a =~= b) by {
            assert forall|i: int| 0 <= i < a.len() implies a[i] == b[i] by {
                if i > 0 {
                    assert(a[i] == at[i - 1]);
                    assert(b[i] == bt[i - 1]);
                }
            }
        }
    }
}

/// Three-way comparison of two strings in lexicographic order:
/// -1, 0 or 1 as `a` is below, equal to, or above `b`.
pub fn str_cmp(a: &str, b: &str) -> (r: i8)
    ensures
        r == -1 || r == 0 || r == 1,
        (r == -1) <==> lex_lt(a@, b@),
        (r == 1) <==> lex_lt(b@, a@),
        (r == 0) <==> a@ == b@,
{
    let alen = a.unicode_len();
    let blen = b.unicode_len();
    let mut i: usize = 0;
    let mut r: i8 = 0;
    loop
        invariant
            0 <= i <= alen,
            i <= blen,
            r == 0,
            forall|j: int| 0 <= j < i ==> a@[j] == b@[j],
        decreases alen - i,
    {
        if i >= alen || i >= blen {
            break;
        }
        let ca = a.get_char(i);
        let cb = b.get_char(i);
        if ca < cb {
            proof {
                lemma_lex_lt_at(a@, b@, i as int);
                lemma_lex_total(a@, b@);
            }
            return -1;
        }
        if cb < ca {
            proof {
                lemma_lex_lt_at(b@, a@, i as int);
                lemma_lex_total(a@, b@);
            }
            return 1;
        }
        i = i + 1;
    }
    if i < blen {
        proof {
            lemma_lex_lt_at(a@, b@, i as int);
            lemma_lex_total(a@, b@);
        }
        -1
    } else if i < alen {
        proof {
            lemma_lex_lt_at(b@, a@, i as int);
            lemma_lex_total(a@, b@);
        }
        1
    } else {
        proof {
            assert(a@ =~= b@);
            lemma_lex_total(a@, b@);
        }
        0
    }
}

/// Inserts `x` into a strictly sorted list of names, keeping it sorted and
/// duplicate-free; a name already present is left alone.
pub fn insert_sorted(v: &mut Vec<String>, x: String)
    requires
        sorted_names(views_of(old(v)@)),
    ensures
        sorted_names(views_of(final(v)@)),
        forall|y: Seq<char>|
            views_of(final(v)@).contains(y) <==> (views_of(old(v)@).contains(y) || y == x@),
        old(v)@.len() <= final(v)@.len() <= old(v)@.len() + 1,
{
    let mut k: usize = 0;
    loop
        invariant
            k <= v.len(),
            *v == *old(v),
            forall|j: int| 0 <= j < k ==> lex_lt(v@[j]@, x@),
        decreases v.len() - k,
    {
        if k == v.len() {
            break;
        }
        let c = str_cmp(v[k].as_str(), x.as_str());
        if c == 0 {
            proof {
                assert(views_of(v@)[k as int] == x@);
                assert(views_of(v@).contains(x@));
            }
            return;
        }
        if c == 1 {
            break;
        }
        k = k + 1;
    }
    proof {
        if (k as int) < v@.len() {
            assert forall|j: int| k <= j < v@.len() implies lex_lt(x@, v@[j]@) by {
                if k < j {
                    assert(views_of(v@)[k as int] == v@[k as int]@);
                    assert(views_of(v@)[j] == v@[j]@);
                    assert(lex_lt(views_of(v@)[k as int], views_of(v@)[j]));
                    lemma_lex_trans(x@, v@[k as int]@, v@[j]@);
                }
            }
        }
    }
    let ghost oldv = v@;
    v.insert(k, x);
    proof {
        let nv = views_of(v@);
        let ov = views_of(oldv);
        assert forall|i: int, j: int| 0 <= i < j < nv.len() implies lex_lt(nv[i], nv[j]) by {
            let gi = if i < k { ov[i] } else if i == k { x@ } else { ov[i - 1] };
            let gj = if j < k { ov[j] } else if j == k { x@ } else { ov[j - 1] };
            assert(nv[i] == gi);
            assert(nv[j] == gj);
        }
        assert forall|y: Seq<char>| nv.contains(y) implies (ov.contains(y) || y == x@) by {
            let m = choose|m: int| 0 <= m < nv.len() && nv[m] == y;
            if m < k {
                assert(ov[m] == y);
            } else if m > k {
                assert(ov[m - 1] == y);
            }
        }
        assert forall|y: Seq<char>| ov.contains(y) implies nv.contains(y) by {
            let m = choose|m: int| 0 <= m < ov.len() && ov[m] == y;
            if m < k {
                assert(nv[m] == y);
            } else {
                assert(nv[m + 1] == y);
            }
        }
        assert(nv[k as int] == x@);
        assert(nv.contains(x@));
    }
}

/// Binary search for a name in a strictly sorted list: returns its index, or
/// `None` when no entry has that text.
pub fn find_name(v: &Vec<String>, x: &str) -> (r: Option<usize>)
    requires
        sorted_names(views_of(v@)),
    ensures
        match r {
            Some(i) => i < v@.len() && v@[i as int]@ == x@,
            None => forall|j: int| 0 <= j < v@.len() ==> v@[j]@ != x@,
        },
{
    let mut lo: usize = 0;
    let mut hi: usize = v.len();
    loop
        invariant
            lo <= hi <= v.len(),
            forall|j: int| 0 <= j < lo ==> lex_lt(v@[j]@, x@),
            forall|j: int| hi <= j < v@.len() ==> lex_lt(x@, v@[j]@),
        decreases hi - lo,
    {
        if lo >= hi {
            break;
        }
        let mid = lo + (hi - lo) / 2;
        let c = str_cmp(v[mid].as_str(), x);
        if c == 0 {
            return Some(mid);
        } else if c == -1 {
            proof {
                assert forall|j: int| 0 <= j < mid + 1 implies lex_lt(v@[j]@, x@) by {
                    if j < mid {
                        assert(views_of(v@)[j] == v@[j]@);
                        assert(views_of(v@)[mid as int] == v@[mid as int]@);
                        assert(lex_lt(views_of(v@)[j], views_of(v@)[mid as int]));
                        lemma_lex_trans(v@[j]@, v@[mid as int]@, x@);
                    }
                }
            }
            lo = mid + 1;
        } else {
            proof {
                assert forall|j: int| mid <= j < v@.len() implies lex_lt(x@, v@[j]@) by {
                    if mid < j {
                        assert(views_of(v@)[j] == v@[j]@);
                        assert(views_of(v@)[mid as int] == v@[mid as int]@);
                        assert(lex_lt(views_of(v@)[mid as int], views_of(v@)[j]));
                        lemma_lex_trans(x@, v@[mid as int]@, v@[j]@);
                    }
                }
            }
            hi = mid;
        }
    }
    proof {
        assert forall|j: int| 0 <= j < v@.len() implies v@[j]@ != x@ by {
            lemma_lex_total(v@[j]@, x@);
        }
    }
    None
}

} // verus!

verus! {

/// Index of the first occurrence of `c` in `s`, or `s.len()` when absent.
pub open spec fn idx_of(s: Seq<char>, c: char) -> nat
    decreases s.len(),
{
    if s.len() == 0 {
        0
    } else if s[0] == c {
        0
    } else {
        1 + idx_of(s.skip(1), c)
    }
}

pub proof fn lemma_idx_of(s: Seq<char>, c: char)
    ensures
        idx_of(s, c) <= s.len(),
        forall|j: int| 0 <= j < idx_of(s, c) ==> s[j] != c,
        idx_of(s, c) < s.len() ==> s[idx_of(s, c) as int] == c,
    decreases s.len(),
{
    if s.len() > 0 && s[0] != c {
        lemma_idx_of(s.skip(1), c);
        let k = idx_of(s.skip(1), c);
        assert forall|j: int| 0 <= j < 1 + k implies s[j] != c by {
            if j > 0 {
                assert(s.skip(1)[j - 1] == s[j]);
            }
        }
        if k < s.skip(1).len() {
            assert(s.skip(1)[k as int] == s[k as int + 1]);
        }
    }
}

/// Index of the first whitespace character in `s`, or `s.len()` when absent.
pub open spec fn ws_idx(s: Seq<char>) -> nat
    decreases s.len(),
{
    if s.len() == 0 {
        0
    } else if is_ws(s[0]) {
        0
    } else {
        1 + ws_idx(s.skip(1))
    }
}

pub proof fn lemma_ws_idx(s: Seq<char>)
    ensures
        ws_idx(s) <= s.len(),
        forall|j: int| 0 <= j < ws_idx(s) ==> !is_ws(s[j]),
        ws_idx(s) < s.len() ==> is_ws(s[ws_idx(s) as int]),
    decreases s.len(),
{
    if s.len() > 0 && !is_ws(s[0]) {
        lemma_ws_idx(s.skip(1));
        let k = ws_idx(s.skip(1));
        assert forall|j: int| 0 <= j < 1 + k implies !is_ws(s[j]) by {
            if j > 0 {
                assert(s.skip(1)[j - 1] == s[j]);
            }
        }
        if k < s.skip(1).len() {
            assert(s.skip(1)[k as int] == s[k as int + 1]);
        }
    }
}

/// Index of the first `=>` marker in `s`, or `s.len()` when absent.
pub open spec fn arrow_idx(s: Seq<char>) -> nat
    decreases s.len(),
{
    if s.len() < 2 {
        s.len()
    } else if s[0] == '=' && s[1] == '>' {
        0
    } else {
        1 + arrow_idx(s.skip(1))
    }
}

/// Whether `s` contains the rename marker `=>`.
pub open spec fn has_arrow(s: Seq<char>) -> bool {
    arrow_idx(s) + 2 <= s.len()
}

pub proof fn lemma_arrow_idx(s: Seq<char>)
    ensures
        arrow_idx(s) <= s.len(),
        arrow_idx(s) + 2 <= s.len() ==> s[arrow_idx(s) as int] == '='
            && s[arrow_idx(s) as int + 1] == '>',
        forall|j: int|
            0 <= j < arrow_idx(s) && j + 2 <= s.len() ==> !(#[trigger] s[j] == '=' && s[j + 1]
                == '>'),
        arrow_idx(s) + 2 > s.len() ==> arrow_idx(s) == s.len(),
    decreases s.len(),
{
    if s.len() >= 2 && !(s[0] == '=' && s[1] == '>') {
        lemma_arrow_idx(s.skip(1));
        let k = arrow_idx(s.skip(1));
        if k + 2 <= s.skip(1).len() {
            assert(s.skip(1)[k as int] == s[k as int + 1]);
            assert(s.skip(1)[k as int + 1] == s[k as int + 2]);
        }
        assert forall|j: int|
            0 <= j < 1 + k && j + 2 <= s.len() implies !(#[trigger] s[j] == '=' && s[j + 1]
                == '>') by {
            if j > 0 {
                assert(s.skip(1)[j - 1] == s[j]);
                assert(s.skip(1)[j] == s[j + 1]);
            }
        }
    }
}

/// `s` with leading whitespace removed.
pub open spec fn trim_front(s: Seq<char>) -> Seq<char>
    decreases s.len(),
{
    if s.len() > 0 && is_ws(s[0]) {
        trim_front(s.skip(1))
    } else {
        s
    }
}

/// `s` with trailing whitespace removed.
pub open spec fn trim_back(s: Seq<char>) -> Seq<char>
    decreases s.len(),
{
    if s.len() > 0 && is_ws(s[s.len() - 1]) {
        trim_back(s.drop_last())
    } else {
        s
    }
}

/// `s` with whitespace removed from both ends.
pub open spec fn trim_of(s: Seq<char>) -> Seq<char> {
    trim_back(trim_front(s))
}

/// Removes leading and trailing whitespace, as `str::trim` does for
/// ASCII-whitespace-delimited text.
pub fn trim_exec<'a>(s: &'a str) -> (r: &'a str)
    ensures
        r@ == trim_of(s@),
{
    let n = s.unicode_len();
    proof {
        assert(s@.skip(0) =~= s@);
    }
    let mut a: usize = 0;
    loop
        invariant
            a <= n,
            n == s@.len(),
            trim_front(s@) == trim_front(s@.skip(a as int)),
        decreases n - a,
    {
        if a >= n || !is_ws_exec(s.get_char(a)) {
            break;
        }
        proof {
            assert(s@.skip(a as int)[0] == s@[a as int]);
            assert(s@.skip(a as int).skip(1) =~= s@.skip(a + 1));
        }
        a = a + 1;
    }
    let ghost t = s@.skip(a as int);
    proof {
        assert(trim_front(s@) == t);
        assert(s@.skip(a as int).take(n - a) =~= t);
    }
    let mut b: usize = n;
    loop
        invariant
            a <= b <= n,
            n == s@.len(),
            trim_back(t) == trim_back(s@.skip(a as int).take(b - a)),
        decreases b,
    {
        if b <= a || !is_ws_exec(s.get_char(b - 1)) {
            break;
        }
        proof {
            let u = s@.skip(a as int).take(b - a);
            assert(u[u.len() - 1] == s@[b - 1]);
            assert(u.drop_last() =~= s@.skip(a as int).take(b - 1 - a));
        }
        b = b - 1;
    }
    let r = s.substring_char(a, b);
    proof {
        let u = s@.skip(a as int).take(b - a);
        if b > a {
            assert(u[u.len() - 1] == s@[b - 1]);
        }
        assert(trim_back(u) == u);
        assert(r@ =~= u);
    }
    r
}

/// First index of `c`, or the length of `s` when `c` does not occur.
pub fn find_char_or_len(s: &str, c: char) -> (k: usize)
    ensures
        k == idx_of(s@, c),
{
    let n = s.unicode_len();
    let mut i: usize = 0;
    loop
        invariant
            i <= n,
            n == s@.len(),
            forall|j: int| 0 <= j < i ==> s@[j] != c,
        decreases n - i,
    {
        if i >= n {
            break;
        }
        if s.get_char(i) == c {
            proof {
                lemma_idx_of(s@, c);
            }
            return i;
        }
        i = i + 1;
    }
    proof {
        lemma_idx_of(s@, c);
    }
    n
}

/// First index of a whitespace character, or the length of `s`.
pub fn find_ws_or_len(s: &str) -> (k: usize)
    ensures
        k == ws_idx(s@),
{
    let n = s.unicode_len();
    let mut i: usize = 0;
    loop
        invariant
            i <= n,
            n == s@.len(),
            forall|j: int| 0 <= j < i ==> !is_ws(s@[j]),
        decreases n - i,
    {
        if i >= n {
            break;
        }
        if is_ws_exec(s.get_char(i)) {
            proof {
                lemma_ws_idx(s@);
            }
            return i;
        }
        i = i + 1;
    }
    proof {
        lemma_ws_idx(s@);
    }
    n
}

/// First index of the `=>` marker, or the length of `s` when absent.
pub fn find_arrow_or_len(s: &str) -> (k: usize)
    ensures
        k == arrow_idx(s@),
{
    let n = s.unicode_len();
    if n < 2 {
        return n;
    }
    let mut i: usize = 0;
    loop
        invariant
            i + 2 <= n + 1,
            n == s@.len(),
            n >= 2,
            forall|j: int|
                0 <= j < i && j + 2 <= n ==> !(#[trigger] s@[j] == '=' && s@[j + 1] == '>'),
        decreases n - i,
    {
        if i > n - 2 {
            break;
        }
        if s.get_char(i) == '=' && s.get_char(i + 1) == '>' {
            proof {
                lemma_arrow_idx(s@);
                let k = arrow_idx(s@);
                if k < i {
                    assert(!(s@[k as int] == '=' && s@[k as int + 1] == '>'));
                }
            }
            return i;
        }
        i = i + 1;
    }
    proof {
        lemma_arrow_idx(s@);
    }
    n
}

/// Whether `p` is a prefix of `s`.
pub fn has_prefix(s: &str, p: &str) -> (r: bool)
    ensures
        r == p@.is_prefix_of(s@),
{
    let n = s.unicode_len();
    let m = p.unicode_len();
    if m > n {
        proof {
            assert(!p@.is_prefix_of(s@));
        }
        return false;
    }
    let mut i: usize = 0;
    loop
        invariant
            i <= m <= n,
            n == s@.len(),
            m == p@.len(),
            forall|j: int| 0 <= j < i ==> s@[j] == p@[j],
        decreases m - i,
    {
        if i >= m {
            break;
        }
        if s.get_char(i) != p.get_char(i) {
            proof {
                assert(p@[i as int] != s@.subrange(0, m as int)[i as int]);
            }
            return false;
        }
        i = i + 1;
    }
    proof {
        assert(p@ =~= s@.subrange(0, m as int));
    }
    true
}

} // verus!

verus! {

/// Drops a single trailing carriage return, as `str::lines` does for lines
/// that ended in `\r\n`.
pub open spec fn strip_cr(s: Seq<char>) -> Seq<char> {
    if s.len() > 0 && s[s.len() - 1] == '\r' {
        s.drop_last()
    } else {
        s
    }
}

/// The lines of `s`: segments between `\n` separators, each with a trailing
/// `\r` removed, and no empty segment after a final `\n` — the semantics of
/// `str::lines`.
pub open spec fn lines_of(s: Seq<char>) -> Seq<Seq<char>>
    decreases s.len(),
{
    if s.len() == 0 {
        Seq::empty()
    } else {
        let k = idx_of(s, '\n');
        if k >= s.len() {
            seq![s]
        } else {
            seq![strip_cr(s.take(k as int))] + lines_of(s.skip(k as int + 1))
        }
    }
}

/// No line of a text contains a newline character.
pub proof fn lemma_lines_no_newline(s: Seq<char>)
    ensures
        forall|i: int, j: int|
            0 <= i < lines_of(s).len() && 0 <= j < lines_of(s)[i].len()
                ==> #[trigger] lines_of(s)[i][j] != '\n',
    decreases s.len(),
{
    if s.len() > 0 {
        let k = idx_of(s, '\n');
        lemma_idx_of(s, '\n');
        if k >= s.len() {
        } else {
            lemma_lines_no_newline(s.skip(k as int + 1));
            assert forall|i: int, j: int|
                0 <= i < lines_of(s).len() && 0 <= j < lines_of(s)[i].len()
                implies #[trigger] lines_of(s)[i][j] != '\n' by {
                if i == 0 {
                    assert(lines_of(s)[0] == strip_cr(s.take(k as int)));
                    assert(strip_cr(s.take(k as int))[j] == s[j]);
                } else {
                    assert(lines_of(s)[i] == lines_of(s.skip(k as int + 1))[i - 1]);
                }
            }
        }
    }
}

/// Splits a text into its lines.
pub fn split_lines(s: &str) -> (r: Vec<String>)
    ensures
        views_of(r@) == lines_of(s@),
    decreases s@.len(),
{
    let n = s.unicode_len();
    if n == 0 {
        let r: Vec<String> = Vec::new();
        proof {
            assert(views_of(r@) =~= lines_of(s@));
        }
        return r;
    }
    let k = find_char_or_len(s, '\n');
    proof {
        lemma_idx_of(s@, '\n');
    }
    if k >= n {
        let mut r: Vec<String> = Vec::new();
        r.push(s.to_owned());
        proof {
            assert(views_of(r@) =~= lines_of(s@));
        }
        r
    } else {
        let hend = if k > 0 && s.get_char(k - 1) == '\r' {
            k - 1
        } else {
            k
        };
        let head = s.substring_char(0, hend);
        let tail = s.substring_char(k + 1, n);
        let mut rest = split_lines(tail);
        let ghost oldrest = rest@;
        rest.insert(0, head.to_owned());
        proof {
            assert(tail@ =~= s@.skip(k as int + 1));
            if k > 0 && s@[k - 1] == '\r' {
                assert(s@.take(k as int).drop_last() =~= s@.take(k as int - 1));
                assert(head@ =~= strip_cr(s@.take(k as int)));
            } else {
                assert(head@ =~= strip_cr(s@.take(k as int)));
            }
            let lv = lines_of(s@);
            assert(views_of(rest@) =~= lv) by {
                assert(views_of(oldrest) == lines_of(tail@));
                assert forall|i: int| 0 <= i < rest@.len() implies views_of(rest@)[i] == lv[i] by {
                    if i == 0 {
                        assert(rest@[0]@ == head@);
                    } else {
                        assert(rest@[i] == oldrest[i - 1]);
                        assert(views_of(oldrest)[i - 1] == oldrest[i - 1]@);
                        assert(lv[i] == lines_of(s@.skip(k as int + 1))[i - 1]);
                    }
                }
            }
        }
        rest
    }
}

/// The whitespace-separated tokens of `s`, in order, each one a maximal
/// non-whitespace run.
pub open spec fn tokens_of(s: Seq<char>) -> Seq<Seq<char>>
    decreases s.len(),
{
    if s.len() == 0 {
        Seq::empty()
    } else if is_ws(s[0]) {
        tokens_of(s.skip(1))
    } else {
        let k = ws_idx(s);
        if k >= s.len() {
            seq![s]
        } else {
            seq![s.take(k as int)] + tokens_of(s.skip(k as int))
        }
    }
}

/// Splits a string into its whitespace-separated tokens.
pub fn split_ws(s: &str) -> (r: Vec<String>)
    ensures
        views_of(r@) == tokens_of(s@),
    decreases s@.len(),
{
    let n = s.unicode_len();
    if n == 0 {
        let r: Vec<String> = Vec::new();
        proof {
            assert(views_of(r@) =~= tokens_of(s@));
        }
        return r;
    }
    if is_ws_exec(s.get_char(0)) {
        let tail = s.substring_char(1, n);
        let r = split_ws(tail);
        proof {
            assert(tail@ =~= s@.skip(1));
        }
        return r;
    }
    let k = find_ws_or_len(s);
    proof {
        lemma_ws_idx(s@);
    }
    if k >= n {
        let mut r: Vec<String> = Vec::new();
        r.push(s.to_owned());
        proof {
            assert(views_of(r@) =~= tokens_of(s@));
        }
        r
    } else {
        let head = s.substring_char(0, k);
        let tail = s.substring_char(k, n);
        let mut rest = split_ws(tail);
        let ghost oldrest = rest@;
        rest.insert(0, head.to_owned());
        proof {
            assert(tail@ =~= s@.skip(k as int));
            assert(head@ =~= s@.take(k as int));
            let tv = tokens_of(s@);
            assert(views_of(rest@) =~= tv) by {
                assert(views_of(oldrest) == tokens_of(tail@));
                assert forall|i: int| 0 <= i < rest@.len() implies views_of(rest@)[i] == tv[i] by {
                    if i == 0 {
                        assert(rest@[0]@ == head@);
                    } else {
                        assert(rest@[i] == oldrest[i - 1]);
                        assert(views_of(oldrest)[i - 1] == oldrest[i - 1]@);
                        assert(tv[i] == tokens_of(s@.skip(k as int))[i - 1]);
                    }
                }
            }
        }
        rest
    }
}

} // verus!

verus! {

/// The character for a single decimal digit.
pub open spec fn digit_char(d: nat) -> char {
    if d == 0 {
        '0'
    } else if d == 1 {
        '1'
    } else if d == 2 {
        '2'
    } else if d == 3 {
        '3'
    } else if d == 4 {
        '4'
    } else if d == 5 {
        '5'
    } else if d == 6 {
        '6'
    } else if d == 7 {
        '7'
    } else if d == 8 {
        '8'
    } else {
        '9'
    }
}

/// The decimal numeral for `n`, without sign or padding.
pub open spec fn dec_rep(n: nat) -> Seq<char>
    decreases n,
{
    if n < 10 {
        seq![digit_char(n)]
    } else {
        dec_rep(n / 10).push(digit_char(n % 10))
    }
}

/// Value of a digit string, most significant digit first.
pub open spec fn digits_val(s: Seq<char>) -> nat
    decreases s.len(),
{
    if s.len() == 0 {
        0
    } else {
        digits_val(s.drop_last()) * 10 + digit_val(s.last())
    }
}

pub open spec fn all_digits(s: Seq<char>) -> bool {
    forall|i: int| 0 <= i < s.len() ==> is_digit(s[i])
}

/// What `str::parse::<u32>` accepts: an optional leading `+`, then one or
/// more decimal digits whose value fits in 32 bits.
pub open spec fn parse_u32_spec(s: Seq<char>) -> Option<u32> {
    let t = if s.len() > 0 && s[0] == '+' {
        s.skip(1)
    } else {
        s
    };
    if t.len() > 0 && all_digits(t) && digits_val(t) <= u32::MAX as nat {
        Some(digits_val(t) as u32)
    } else {
        None
    }
}

pub proof fn lemma_digits_val_take_step(t: Seq<char>, k: int)
    requires
        0 <= k < t.len(),
    ensures
        digits_val(t.take(k + 1)) == digits_val(t.take(k)) * 10 + digit_val(t[k]),
{
    assert(t.take(k + 1).drop_last() =~= t.take(k));
    assert(t.take(k + 1).last() == t[k]);
}

pub proof fn lemma_digits_val_prefix_le(t: Seq<char>, k: int)
    requires
        0 <= k <= t.len(),
    ensures
        digits_val(t.take(k)) <= digits_val(t),
    decreases t.len() - k,
{
    if k == t.len() {
        assert(t.take(k) =~= t);
    } else {
        lemma_digits_val_take_step(t, k);
        lemma_digits_val_prefix_le(t, k + 1);
    }
}

pub fn is_digit_exec(c: char) -> (r: bool)
    ensures
        r == is_digit(c),
{
    '0' <= c && c <= '9'
}

fn digit_to_u32(c: char) -> (d: u32)
    requires
        is_digit(c),
    ensures
        d == digit_val(c),
        d <= 9,
{
    (c as u32) - 48
}

/// Parses a `u32` from decimal text, exactly as `str::parse::<u32>` would.
pub fn parse_u32_str(s: &str) -> (r: Option<u32>)
    ensures
        r == parse_u32_spec(s@),
{
    let n = s.unicode_len();
    let mut i: usize = 0;
    if n > 0 && s.get_char(0) == '+' {
        i = 1;
    }
    let ghost t = if s@.len() > 0 && s@[0] == '+' {
        s@.skip(1)
    } else {
        s@
    };
    let start = i;
    proof {
        assert(t == s@.skip(start as int));
    }
    if i >= n {
        return None;
    }
    let mut acc: u32 = 0;
    loop
        invariant
            start <= i <= n,
            n == s@.len(),
            start <= 1,
            n > start,
            t == s@.skip(start as int),
            t.len() == n - start,
            acc == digits_val(t.take(i - start)),
            forall|j: int| 0 <= j < i - start ==> is_digit(t[j]),
        decreases n - i,
    {
        if i >= n {
            break;
        }
        let c = s.get_char(i);
        proof {
            assert(t[i - start] == s@[i as int]);
        }
        if !is_digit_exec(c) {
            proof {
                assert(!all_digits(t));
            }
            return None;
        }
        let d = digit_to_u32(c);
        if acc > (u32::MAX - d) / 10 {
            proof {
                assert(acc * 10 + d > u32::MAX) by (nonlinear_arith)
                    requires
                        acc > (u32::MAX - d) / 10,
                        d <= 9,
                        acc >= 0,
                ;
                lemma_digits_val_take_step(t, i - start);
                assert(digits_val(t.take(i - start + 1)) > u32::MAX);
                lemma_digits_val_prefix_le(t, i - start + 1);
                assert(digits_val(t) > u32::MAX);
            }
            return None;
        }
        proof {
            assert(acc * 10 + d <= u32::MAX) by (nonlinear_arith)
                requires
                    acc <= (u32::MAX - d) / 10,
                    d <= 9,
                    acc >= 0,
            ;
            lemma_digits_val_take_step(t, i - start);
        }
        acc = acc * 10 + d;
        i = i + 1;
    }
    proof {
        assert(t.take(n - start) =~= t);
    }
    Some(acc)
}

/// Every decimal numeral is a nonempty string of digits.
pub proof fn lemma_dec_rep_digits(n: nat)
    ensures
        all_digits(dec_rep(n)),
        dec_rep(n).len() >= 1,
    decreases n,
{
    if n < 10 {
        assert(is_digit(digit_char(n)));
        assert(forall|i: int|
            0 <= i < dec_rep(n).len() ==> dec_rep(n)[i] == digit_char(n));
    } else {
        lemma_dec_rep_digits(n / 10);
        assert(is_digit(digit_char(n % 10)));
        assert forall|i: int| 0 <= i < dec_rep(n).len() implies is_digit(dec_rep(n)[i]) by {
            if i < dec_rep(n / 10).len() {
                assert(dec_rep(n)[i] == dec_rep(n / 10)[i]);
            }
        }
    }
}

/// Formatting then evaluating a numeral gives back the number.
pub proof fn lemma_dec_rep_val(n: nat)
    ensures
        digits_val(dec_rep(n)) == n,
    decreases n,
{
    if n < 10 {
        let s = seq![digit_char(n)];
        assert(dec_rep(n) == s);
        assert(s.drop_last() =~= Seq::<char>::empty());
        assert(s.last() == digit_char(n));
        assert(digits_val(s) == digits_val(s.drop_last()) * 10 + digit_val(s.last()));
        assert(digits_val(Seq::<char>::empty()) == 0);
        assert(digit_val(digit_char(n)) == n);
    } else {
        lemma_dec_rep_val(n / 10);
        let s = dec_rep(n / 10);
        let c = digit_char(n % 10);
        assert(dec_rep(n) == s.push(c));
        assert(s.push(c).drop_last() =~= s);
        assert(s.push(c).last() == c);
        assert(digits_val(s.push(c)) == digits_val(s.push(c).drop_last()) * 10 + digit_val(
            s.push(c).last(),
        ));
        assert(digit_val(c) == n % 10);
        assert(n / 10 * 10 + n % 10 == n);
    }
}

fn digit_str(d: u32) -> (r: &'static str)
    requires
        d < 10,
    ensures
        r@ == seq![digit_char(d as nat)],
{
    let r = if d == 0 {
        proof {
            reveal_strlit("0");
        }
        "0"
    } else if d == 1 {
        proof {
            reveal_strlit("1");
        }
        "1"
    } else if d == 2 {
        proof {
            reveal_strlit("2");
        }
        "2"
    } else if d == 3 {
        proof {
            reveal_strlit("3");
        }
        "3"
    } else if d == 4 {
        proof {
            reveal_strlit("4");
        }
        "4"
    } else if d == 5 {
        proof {
            reveal_strlit("5");
        }
        "5"
    } else if d == 6 {
        proof {
            reveal_strlit("6");
        }
        "6"
    } else if d == 7 {
        proof {
            reveal_strlit("7");
        }
        "7"
    } else if d == 8 {
        proof {
            reveal_strlit("8");
        }
        "8"
    } else {
        proof {
            reveal_strlit("9");
        }
        "9"
    };
    proof {
        assert(r@ =~= seq![digit_char(d as nat)]);
    }
    r
}

/// Formats a `u32` in decimal, as `format!("{}", n)` would.
pub fn fmt_u32(n: u32) -> (r: String)
    ensures
        r@ == dec_rep(n as nat),
    decreases n,
{
    if n < 10 {
        let r = digit_str(n).to_owned();
        r
    } else {
        let mut s = fmt_u32(n / 10);
        s.append(digit_str(n % 10));
        proof {
            assert(s@ =~= dec_rep((n / 10) as nat).push(digit_char((n % 10) as nat)));
        }
        s
    }
}

} // verus!

verus! {

/// In a strictly sorted name list, equal entries sit at equal positions.
pub proof fn lemma_sorted_distinct(names: Seq<Seq<char>>, i: int, j: int)
    requires
        sorted_names(names),
        0 <= i < names.len(),
        0 <= j < names.len(),
        names[i] == names[j],
    ensures
        i == j,
{
    if i < j {
        assert(lex_lt(names[i], names[j]));
        lemma_lex_total(names[i], names[j]);
    } else if j < i {
        assert(lex_lt(names[j], names[i]));
        lemma_lex_total(names[j], names[i]);
    }
}

} // verus!

verus! {

/// A nonempty whitespace-free word followed by a whitespace-started tail is
/// one token, then the tail's tokens.
pub proof fn lemma_tokens_word(w: Seq<char>, rest: Seq<char>)
    requires
        w.len() > 0,
        forall|i: int| 0 <= i < w.len() ==> !is_ws(w[i]),
        rest.len() == 0 || is_ws(rest[0]),
    ensures
        tokens_of(w + rest) == seq![w] + tokens_of(rest),
{
    let s = w + rest;
    assert(s[0] == w[0]);
    lemma_ws_idx(s);
    let k = ws_idx(s);
    assert(k == w.len()) by {
        if k < w.len() {
            assert(s[k as int] == w[k as int]);
        }
        if k > w.len() {
            assert(rest.len() > 0);
            assert(s[w.len() as int] == rest[0]);
        }
        if k == s.len() && rest.len() > 0 {
            assert(s[w.len() as int] == rest[0]);
        }
    }
    if k >= s.len() {
        assert(rest.len() == 0);
        assert(s =~= w);
        assert(tokens_of(s) == seq![s]);
        assert(seq![w] + tokens_of(rest) =~= seq![s]);
    } else {
        assert(s.take(k as int) =~= w);
        assert(s.skip(k as int) =~= rest);
        assert(tokens_of(s) == seq![s.take(k as int)] + tokens_of(s.skip(k as int)));
        assert(tokens_of(s) =~= seq![w] + tokens_of(rest));
    }
}

/// A leading space adds no token.
pub proof fn lemma_tokens_space(rest: Seq<char>)
    ensures
        tokens_of(seq![' '] + rest) == tokens_of(rest),
{
    let s = seq![' '] + rest;
    assert(s[0] == ' ');
    assert(s.skip(1) =~= rest);
}

/// Parsing a formatted numeral gives the number back.
pub proof fn lemma_parse_dec(n: nat)
    requires
        n <= u32::MAX as nat,
    ensures
        parse_u32_spec(dec_rep(n)) == Some(n as u32),
{
    lemma_dec_rep_digits(n);
    lemma_dec_rep_val(n);
    let s = dec_rep(n);
    assert(is_digit(s[0]));
    assert(s[0] != '+');
    assert(digits_val(s) == n);
}

/// Numerals hold no whitespace and no newline.
pub proof fn lemma_dec_rep_plain(n: nat)
    ensures
        forall|i: int| 0 <= i < dec_rep(n).len() ==> !is_ws(#[trigger] dec_rep(n)[i]),
        forall|i: int| 0 <= i < dec_rep(n).len() ==> #[trigger] dec_rep(n)[i] != '\n',
        forall|i: int| 0 <= i < dec_rep(n).len() ==> #[trigger] dec_rep(n)[i] != '\r',
{
    lemma_dec_rep_digits(n);
    assert forall|i: int| 0 <= i < dec_rep(n).len() implies !is_ws(#[trigger] dec_rep(n)[i])
        && dec_rep(n)[i] != '\n' && dec_rep(n)[i] != '\r' by {
        assert(is_digit(dec_rep(n)[i]));
    }
}

} // verus!
