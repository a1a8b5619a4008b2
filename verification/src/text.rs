//! Character-level utilities over `&str` / `String`, with their
//! specification-level counterparts on `Seq<char>`.

use vstd::prelude::*;

verus! {

/// A sequence starts with the given prefix.
pub open spec fn has_prefix(s: Seq<char>, p: Seq<char>) -> bool {
    p.len() <= s.len() && s.subrange(0, p.len() as int) == p
}

/// `n` occurs in `h` as a contiguous subsequence.
pub open spec fn contains_seq(h: Seq<char>, n: Seq<char>) -> bool {
    exists|i: int| 0 <= i <= h.len() - n.len() && #[trigger] h.subrange(i, i + n.len()) == n
}

/// Index of the first occurrence of `sep` in `s`, or -1 if absent.
pub open spec fn spec_find(s: Seq<char>, sep: char) -> int
    decreases s.len(),
{
    if s.len() == 0 {
        -1
    } else if s[0] == sep {
        0
    } else {
        let r = spec_find(s.subrange(1, s.len() as int), sep);
        if r < 0 {
            -1
        } else {
            r + 1
        }
    }
}

/// When no character is `sep`, `spec_find` reports -1.
pub proof fn lemma_spec_find_none(s: Seq<char>, sep: char)
    requires
        forall|j: int| 0 <= j < s.len() ==> s[j] != sep,
    ensures
        spec_find(s, sep) == -1,
    decreases s.len(),
{
    if s.len() > 0 {
        let t = s.subrange(1, s.len() as int);
        assert(forall|j: int| 0 <= j < t.len() ==> t[j] == s[j + 1]);
        lemma_spec_find_none(t, sep);
    }
}

/// The first occurrence of `sep` in `s` is at `i`.
pub proof fn lemma_spec_find_at(s: Seq<char>, sep: char, i: int)
    requires
        0 <= i < s.len(),
        s[i] == sep,
        forall|j: int| 0 <= j < i ==> s[j] != sep,
    ensures
        spec_find(s, sep) == i,
    decreases s.len(),
{
    if i == 0 {
    } else {
        let t = s.subrange(1, s.len() as int);
        assert(forall|j: int| 0 <= j < t.len() ==> t[j] == s[j + 1]);
        lemma_spec_find_at(t, sep, i - 1);
    }
}

/// Position of the first occurrence of `sep` in `s`, if any.
pub fn find_char(s: &str, sep: char) -> (r: Option<usize>)
    ensures
        r matches Some(i) ==> i == spec_find(s@, sep) && 0 <= i < s@.len(),
        r is None ==> spec_find(s@, sep) == -1,
{
    let n = s.unicode_len();
    let mut i: usize = 0;
    while i < n
        invariant
            i <= n,
            n == s@.len(),
            forall|j: int| 0 <= j < i ==> s@[j] != sep,
        decreases n - i,
    {
        if s.get_char(i) == sep {
            proof {
                lemma_spec_find_at(s@, sep, i as int);
            }
            return Some(i);
        }
        i = i + 1;
    }
    proof {
        lemma_spec_find_none(s@, sep);
    }
    None
}

/// The pieces of `s` between occurrences of `sep`; always at least one piece.
pub open spec fn spec_split(s: Seq<char>, sep: char) -> Seq<Seq<char>>
    decreases s.len(),
{
    let i = spec_find(s, sep);
    if 0 <= i < s.len() {
        seq![s.subrange(0, i)] + spec_split(s.subrange(i + 1, s.len() as int), sep)
    } else {
        seq![s]
    }
}

/// The views of the strings in `v`.
pub open spec fn views_of(v: Seq<String>) -> Seq<Seq<char>> {
    v.map_values(|t: String| t@)
}

/// Split `s` at every occurrence of `sep`.
pub fn split_str(s: &str, sep: char) -> (r: Vec<String>)
    ensures
        views_of(r@) == spec_split(s@, sep),
    decreases s@.len(),
{
    let n = s.unicode_len();
    match find_char(s, sep) {
        None => {
            let mut r: Vec<String> = Vec::new();
            r.push(s.to_owned());
            proof {
                assert(views_of(r@) =~= spec_split(s@, sep));
            }
            r
        },
        Some(i) => {
            let head = s.substring_char(0, i).to_owned();
            let rest = s.substring_char(i + 1, n);
            let mut r = split_str(rest, sep);
            r.insert(0, head);
            proof {
                assert(views_of(r@) =~= seq![head@] + views_of(r@.subrange(1, r@.len() as int)));
                assert(views_of(r@) =~= spec_split(s@, sep));
            }
            r
        },
    }
}

/// A piece without the separator splits to itself alone.
pub proof fn lemma_split_no_sep(x: Seq<char>, sep: char)
    requires
        forall|j: int| 0 <= j < x.len() ==> x[j] != sep,
    ensures
        spec_split(x, sep) == seq![x],
{
    lemma_spec_find_none(x, sep);
}

/// Prepending one separated piece to a text prepends one piece to its split.
pub proof fn lemma_split_cons(x: Seq<char>, rest: Seq<char>, sep: char)
    requires
        forall|j: int| 0 <= j < x.len() ==> x[j] != sep,
    ensures
        spec_split(x + seq![sep] + rest, sep) == seq![x] + spec_split(rest, sep),
{
    let s = x + seq![sep] + rest;
    assert(s[x.len() as int] == sep);
    assert(forall|j: int| 0 <= j < x.len() ==> s[j] == x[j]);
    lemma_spec_find_at(s, sep, x.len() as int);
    assert(s.subrange(0, x.len() as int) =~= x);
    assert(s.subrange(x.len() as int + 1, s.len() as int) =~= rest);
}

/// Whether the two strings hold the same characters.
pub fn str_eq(a: &str, b: &str) -> (r: bool)
    ensures
        r == (a@ == b@),
{
    let n = a.unicode_len();
    if n != b.unicode_len() {
        return false;
    }
    let mut i: usize = 0;
    while i < n
        invariant
            i <= n,
            n == a@.len() == b@.len(),
            forall|j: int| 0 <= j < i ==> a@[j] == b@[j],
        decreases n - i,
    {
        if a.get_char(i) != b.get_char(i) {
            return false;
        }
        i = i + 1;
    }
    proof {
        assert(a@ =~= b@);
    }
    true
}

/// Whether `s` starts with the prefix `p`.
pub fn starts_with(s: &str, p: &str) -> (r: bool)
    ensures
        r == has_prefix(s@, p@),
{
    let n = p.unicode_len();
    if n > s.unicode_len() {
        assert(!has_prefix(s@, p@));
        return false;
    }
    let mut i: usize = 0;
    while i < n
        invariant
            i <= n,
            n == p@.len(),
            n <= s@.len(),
            forall|j: int| 0 <= j < i ==> s@[j] == p@[j],
        decreases n - i,
    {
        if s.get_char(i) != p.get_char(i) {
            assert(s@.subrange(0, n as int)[i as int] != p@[i as int]);
            return false;
        }
        i = i + 1;
    }
    assert(s@.subrange(0, n as int) =~= p@);
    true
}

/// The remainder of `s` after the prefix `p`, when `s` starts with `p`.
pub fn strip_prefix<'a>(s: &'a str, p: &str) -> (r: Option<&'a str>)
    ensures
        has_prefix(s@, p@) ==> (r matches Some(t) && t@ == s@.subrange(
            p@.len() as int,
            s@.len() as int,
        )),
        !has_prefix(s@, p@) ==> r is None,
{
    if starts_with(s, p) {
        Some(s.substring_char(p.unicode_len(), s.unicode_len()))
    } else {
        None
    }
}

/// Index of the first element satisfying `p`, or -1 if there is none.
pub open spec fn first_where<T>(s: Seq<T>, p: spec_fn(T) -> bool) -> int
    decreases s.len(),
{
    if s.len() == 0 {
        -1
    } else if p(s[0]) {
        0
    } else {
        let r = first_where(s.subrange(1, s.len() as int), p);
        if r < 0 {
            -1
        } else {
            r + 1
        }
    }
}

/// `first_where` returns the least index whose element satisfies `p`,
/// or -1 when no element does.
pub proof fn lemma_first_where<T>(s: Seq<T>, p: spec_fn(T) -> bool)
    ensures
        first_where(s, p) == -1 ==> forall|j: int| 0 <= j < s.len() ==> !p(#[trigger] s[j]),
        first_where(s, p) != -1 ==> {
            let i = first_where(s, p);
            &&& 0 <= i < s.len()
            &&& p(s[i])
            &&& forall|j: int| 0 <= j < i ==> !p(#[trigger] s[j])
        },
    decreases s.len(),
{
    if s.len() > 0 && !p(s[0]) {
        let t = s.subrange(1, s.len() as int);
        lemma_first_where(t, p);
        assert(forall|j: int| 1 <= j < s.len() ==> s[j] == t[j - 1]);
    }
}

/// No element satisfies `p`, so `first_where` reports -1.
pub proof fn lemma_first_where_none<T>(s: Seq<T>, p: spec_fn(T) -> bool)
    requires
        forall|j: int| 0 <= j < s.len() ==> !p(#[trigger] s[j]),
    ensures
        first_where(s, p) == -1,
    decreases s.len(),
{
    if s.len() > 0 {
        let t = s.subrange(1, s.len() as int);
        assert(forall|j: int| 0 <= j < t.len() ==> t[j] == s[j + 1]);
        lemma_first_where_none(t, p);
    }
}

/// The first element satisfying `p` stands at `i`.
pub proof fn lemma_first_where_at<T>(s: Seq<T>, p: spec_fn(T) -> bool, i: int)
    requires
        0 <= i < s.len(),
        p(s[i]),
        forall|j: int| 0 <= j < i ==> !p(#[trigger] s[j]),
    ensures
        first_where(s, p) == i,
    decreases s.len(),
{
    if i > 0 {
        let t = s.subrange(1, s.len() as int);
        assert(forall|j: int| 0 <= j < t.len() ==> t[j] == s[j + 1]);
        lemma_first_where_at(t, p, i - 1);
    }
}

/// Whether `n` occurs in `h` starting at position `i`.
fn matches_at(h: &str, n: &str, i: usize) -> (r: bool)
    requires
        i + n@.len() <= h@.len(),
    ensures
        r == (h@.subrange(i as int, i + n@.len()) == n@),
{
    let hn = h.unicode_len();
    let nn = n.unicode_len();
    let mut j: usize = 0;
    while j < nn
        invariant
            hn == h@.len(),
            i + nn <= hn,
            nn == n@.len(),
            j <= nn,
            forall|t: int| 0 <= t < j ==> h@[i + t] == n@[t],
        decreases nn - j,
    {
        if h.get_char(i + j) != n.get_char(j) {
            proof {
                assert(h@.subrange(i as int, i + n@.len())[j as int] != n@[j as int]);
            }
            return false;
        }
        j = j + 1;
    }
    proof {
        assert(h@.subrange(i as int, i + n@.len()) =~= n@);
    }
    true
}

/// Whether `n` occurs in `h` as a contiguous substring.
pub fn contains_str(h: &str, n: &str) -> (r: bool)
    ensures
        r == contains_seq(h@, n@),
{
    let hn = h.unicode_len();
    let nn = n.unicode_len();
    if nn > hn {
        return false;
    }
    let mut i: usize = 0;
    loop
        invariant
            nn <= hn,
            hn == h@.len(),
            nn == n@.len(),
            i <= hn - nn,
            forall|k: int| 0 <= k < i ==> #[trigger] h@.subrange(k, k + n@.len()) != n@,
        decreases hn - nn - i,
    {
        if matches_at(h, n, i) {
            return true;
        }
        if i == hn - nn {
            proof {
                assert(forall|k: int|
                    0 <= k <= h@.len() - n@.len() ==> #[trigger] h@.subrange(k, k + n@.len())
                        != n@);
            }
            return false;
        }
        i = i + 1;
    }
}

/// ASCII whitespace, as it occurs in the tool output this crate parses.
pub open spec fn is_space(c: char) -> bool {
    c == ' ' || c == '\t' || c == '\n' || c == '\r'
}

/// `s` without leading whitespace.
pub open spec fn trim_front(s: Seq<char>) -> Seq<char>
    decreases s.len(),
{
    if s.len() > 0 && is_space(s[0]) {
        trim_front(s.subrange(1, s.len() as int))
    } else {
        s
    }
}

/// `s` without trailing whitespace.
pub open spec fn trim_back(s: Seq<char>) -> Seq<char>
    decreases s.len(),
{
    if s.len() > 0 && is_space(s.last()) {
        trim_back(s.drop_last())
    } else {
        s
    }
}

/// `s` without leading and trailing whitespace.
pub open spec fn spec_trim(s: Seq<char>) -> Seq<char> {
    trim_back(trim_front(s))
}

/// When everything before `a` is whitespace and `s[a]` is not,
/// trimming the front of `s` keeps exactly the part from `a` on.
proof fn lemma_trim_front_at(s: Seq<char>, a: int)
    requires
        0 <= a <= s.len(),
        forall|j: int| 0 <= j < a ==> is_space(#[trigger] s[j]),
        a < s.len() ==> !is_space(s[a]),
    ensures
        trim_front(s) == s.subrange(a, s.len() as int),
    decreases a,
{
    if a == 0 {
        assert(s.subrange(0, s.len() as int) =~= s);
    } else {
        let t = s.subrange(1, s.len() as int);
        assert(forall|j: int| 0 <= j < t.len() ==> t[j] == s[j + 1]);
        lemma_trim_front_at(t, a - 1);
        assert(t.subrange(a - 1, t.len() as int) =~= s.subrange(a, s.len() as int));
    }
}

/// When everything from `b` on is whitespace and `s[b-1]` is not,
/// trimming the back of `s` keeps exactly the part before `b`.
proof fn lemma_trim_back_at(s: Seq<char>, b: int)
    requires
        0 <= b <= s.len(),
        forall|j: int| b <= j < s.len() ==> is_space(#[trigger] s[j]),
        b > 0 ==> !is_space(s[b - 1]),
    ensures
        trim_back(s) == s.subrange(0, b),
    decreases s.len() - b,
{
    if b == s.len() {
        assert(s.subrange(0, s.len() as int) =~= s);
    } else {
        let t = s.drop_last();
        assert(forall|j: int| 0 <= j < t.len() ==> t[j] == s[j]);
        lemma_trim_back_at(t, b);
    }
}

/// Whether `c` is ASCII whitespace.
fn is_space_char(c: char) -> (r: bool)
    ensures
        r == is_space(c),
{
    c == ' ' || c == '\t' || c == '\n' || c == '\r'
}

/// `s` with leading and trailing ASCII whitespace removed.
pub fn trim(s: &str) -> (r: &str)
    ensures
        r@ == spec_trim(s@),
{
    let n = s.unicode_len();
    let mut a: usize = 0;
    while a < n && is_space_char(s.get_char(a))
        invariant
            a <= n,
            n == s@.len(),
            forall|j: int| 0 <= j < a ==> is_space(#[trigger] s@[j]),
        decreases n - a,
    {
        a = a + 1;
    }
    proof {
        lemma_trim_front_at(s@, a as int);
    }
    if a == n {
        proof {
            assert(trim_front(s@) =~= Seq::<char>::empty());
            assert(trim_back(Seq::<char>::empty()) =~= Seq::<char>::empty());
        }
        let r = s.substring_char(n, n);
        proof {
            assert(r@ =~= Seq::<char>::empty());
        }
        return r;
    }
    let mut b: usize = n;
    while b > a && is_space_char(s.get_char(b - 1))
        invariant
            a <= b <= n,
            n == s@.len(),
            a < n,
            !is_space(s@[a as int]),
            forall|j: int| b <= j < n ==> is_space(#[trigger] s@[j]),
        decreases b,
    {
        b = b - 1;
    }
    let r = s.substring_char(a, b);
    proof {
        let f = s@.subrange(a as int, s@.len() as int);
        assert(forall|j: int| 0 <= j < f.len() ==> f[j] == s@[a + j]);
        assert(b > a);
        lemma_trim_back_at(f, b - a as int);
        assert(f.subrange(0, b - a as int) =~= s@.subrange(a as int, b as int));
    }
    r
}

/// Index of the last occurrence of `sep` in `s`, or -1 if absent.
pub open spec fn spec_rfind(s: Seq<char>, sep: char) -> int
    decreases s.len(),
{
    if s.len() == 0 {
        -1
    } else if s.last() == sep {
        s.len() - 1
    } else {
        spec_rfind(s.drop_last(), sep)
    }
}

/// The final `sep`-delimited segment of `s`: everything after the last
/// occurrence of `sep`, or all of `s` when `sep` does not occur.
pub open spec fn spec_last_segment(s: Seq<char>, sep: char) -> Seq<char> {
    s.subrange(spec_rfind(s, sep) + 1, s.len() as int)
}

/// Position after the last occurrence of `sep` (0 when `sep` is absent).
pub fn rfind_end(s: &str, sep: char) -> (r: usize)
    ensures
        r == spec_rfind(s@, sep) + 1,
        r <= s@.len(),
{
    let n = s.unicode_len();
    let mut b: usize = n;
    proof {
        assert(s@.subrange(0, s@.len() as int) =~= s@);
    }
    while b > 0 && s.get_char(b - 1) != sep
        invariant
            b <= n,
            n == s@.len(),
            spec_rfind(s@, sep) == spec_rfind(s@.subrange(0, b as int), sep),
            forall|j: int| b <= j < n ==> s@[j] != sep,
        decreases b,
    {
        proof {
            assert(s@.subrange(0, b as int).drop_last() =~= s@.subrange(0, b - 1));
        }
        b = b - 1;
    }
    proof {
        if b > 0 {
            assert(s@.subrange(0, b as int).last() == s@[b - 1]);
        }
    }
    b
}

/// The final `sep`-delimited segment of `s`.
pub fn last_segment<'a>(s: &'a str, sep: char) -> (r: &'a str)
    ensures
        r@ == spec_last_segment(s@, sep),
{
    let b = rfind_end(s, sep);
    s.substring_char(b, s.unicode_len())
}

/// A sequence ends with the given suffix.
pub open spec fn has_suffix(s: Seq<char>, p: Seq<char>) -> bool {
    p.len() <= s.len() && s.subrange(s.len() - p.len(), s.len() as int) == p
}

/// Whether `s` ends with the suffix `p`.
pub fn ends_with(s: &str, p: &str) -> (r: bool)
    ensures
        r == has_suffix(s@, p@),
{
    let n = p.unicode_len();
    let sn = s.unicode_len();
    if n > sn {
        return false;
    }
    let mut i: usize = 0;
    while i < n
        invariant
            i <= n,
            n == p@.len(),
            sn == s@.len(),
            n <= sn,
            forall|j: int| 0 <= j < i ==> s@[sn - n + j] == p@[j],
        decreases n - i,
    {
        if s.get_char(sn - n + i) != p.get_char(i) {
            proof {
                assert(s@.subrange(s@.len() - p@.len(), s@.len() as int)[i as int] != p@[i as int]);
            }
            return false;
        }
        i = i + 1;
    }
    proof {
        assert(s@.subrange(s@.len() - p@.len(), s@.len() as int) =~= p@);
    }
    true
}

/// `s` without the suffix `p` when it ends with `p`, `s` itself otherwise.
pub open spec fn spec_strip_suffix(s: Seq<char>, p: Seq<char>) -> Seq<char> {
    if has_suffix(s, p) {
        s.subrange(0, s.len() - p.len())
    } else {
        s
    }
}

/// Remove the suffix `p` from `s` if it is there.
pub fn strip_suffix_or_keep<'a>(s: &'a str, p: &str) -> (r: &'a str)
    ensures
        r@ == spec_strip_suffix(s@, p@),
{
    if ends_with(s, p) {
        s.substring_char(0, s.unicode_len() - p.unicode_len())
    } else {
        s
    }
}

/// `s` without one trailing carriage return, if it has one.
pub open spec fn strip_cr(s: Seq<char>) -> Seq<char> {
    if s.len() > 0 && s.last() == '\r' {
        s.drop_last()
    } else {
        s
    }
}

/// The lines of `s`: pieces split at `'\n'`, each terminated piece without a
/// trailing `'\r'`, and without a final empty piece.
pub open spec fn spec_lines(s: Seq<char>) -> Seq<Seq<char>> {
    let p = spec_split(s, '\n');
    let q = p.subrange(0, p.len() - 1).map_values(|t: Seq<char>| strip_cr(t));
    if p.last().len() == 0 {
        q
    } else {
        q.push(p.last())
    }
}

/// Splitting always yields at least one piece.
pub proof fn lemma_spec_split_len(s: Seq<char>, sep: char)
    ensures
        spec_split(s, sep).len() >= 1,
{
}

/// The lines of `s`, as `str::lines` yields them.
pub fn lines_of(s: &str) -> (r: Vec<String>)
    ensures
        views_of(r@) == spec_lines(s@),
{
    let mut parts = split_str(s, '\n');
    proof {
        lemma_spec_split_len(s@, '\n');
    }
    let last = match parts.pop() {
        Some(t) => t,
        None => {
            proof {
                assert(false);
            }
            String::new()
        },
    };
    let ghost p = spec_split(s@, '\n');
    let k = parts.len();
    let mut out: Vec<String> = Vec::new();
    let mut i: usize = 0;
    while i < k
        invariant
            i <= k,
            k == p.len() - 1,
            parts@.len() == k,
            views_of(parts@) == p.subrange(0, p.len() - 1),
            views_of(out@) =~= p.subrange(0, i as int).map_values(|t: Seq<char>| strip_cr(t)),
        decreases k - i,
    {
        let piece = &parts[i];
        let pn = piece.as_str().unicode_len();
        proof {
            assert(views_of(parts@)[i as int] == piece@);
            assert(p.subrange(0, p.len() - 1)[i as int] == p[i as int]);
        }
        assert(piece@ == p[i as int]);
        if pn > 0 && piece.as_str().get_char(pn - 1) == '\r' {
            out.push(piece.as_str().substring_char(0, pn - 1).to_owned());
        } else {
            out.push(piece.clone());
        }
        proof {
            assert(p.subrange(0, i + 1).map_values(|t: Seq<char>| strip_cr(t)) =~= p.subrange(
                0,
                i as int,
            ).map_values(|t: Seq<char>| strip_cr(t)).push(strip_cr(p[i as int])));
        }
        i = i + 1;
    }
    proof {
        assert(p.subrange(0, k as int) =~= p.subrange(0, p.len() - 1));
    }
    if last.as_str().unicode_len() > 0 {
        out.push(last);
    }
    proof {
        assert(views_of(out@) =~= spec_lines(s@));
    }
    out
}

/// No line feed or carriage return occurs in `s`, so `s` can stand as one
/// line of a line-oriented text.
pub open spec fn no_break(s: Seq<char>) -> bool {
    forall|i: int| 0 <= i < s.len() ==> (#[trigger] s[i]) != '\n' && s[i] != '\r'
}

/// Prepending one terminated line to a text prepends one line to its lines.
pub proof fn lemma_lines_cons(x: Seq<char>, rest: Seq<char>)
    requires
        no_break(x),
    ensures
        spec_lines(x + seq!['\n'] + rest) == seq![x] + spec_lines(rest),
{
    let s = x + seq!['\n'] + rest;
    assert(s[x.len() as int] == '\n');
    assert(forall|j: int| 0 <= j < x.len() ==> s[j] == x[j]);
    lemma_spec_find_at(s, '\n', x.len() as int);
    let p = spec_split(s, '\n');
    let q = spec_split(rest, '\n');
    assert(s.subrange(0, x.len() as int) =~= x);
    assert(s.subrange(x.len() as int + 1, s.len() as int) =~= rest);
    assert(p == seq![x] + q);
    lemma_spec_split_len(rest, '\n');
    assert(p.len() == 1 + q.len());
    assert(p.last() == q.last());
    let pm = p.subrange(0, p.len() - 1).map_values(|t: Seq<char>| strip_cr(t));
    let qm = q.subrange(0, q.len() - 1).map_values(|t: Seq<char>| strip_cr(t));
    assert(strip_cr(x) == x);
    assert(p.subrange(0, p.len() - 1) =~= seq![x] + q.subrange(0, q.len() - 1));
    assert(pm =~= seq![x] + qm);
    if q.last().len() == 0 {
        assert(spec_lines(s) =~= seq![x] + spec_lines(rest));
    } else {
        assert(pm.push(p.last()) =~= seq![x] + qm.push(q.last()));
        assert(spec_lines(s) =~= seq![x] + spec_lines(rest));
    }
}

/// The empty text has no lines.
pub proof fn lemma_lines_empty()
    ensures
        spec_lines(Seq::<char>::empty()) == Seq::<Seq<char>>::empty(),
{
    let e = Seq::<char>::empty();
    let p = spec_split(e, '\n');
    assert(spec_find(e, '\n') == -1);
    assert(p == seq![e]);
    assert(p.last().len() == 0);
    assert(p.subrange(0, 0).map_values(|t: Seq<char>| strip_cr(t)) =~= Seq::<Seq<char>>::empty());
}

/// Text with one `'\n'`-terminated line per element.
pub open spec fn lines_text(ls: Seq<Seq<char>>) -> Seq<char>
    decreases ls.len(),
{
    if ls.len() == 0 {
        Seq::empty()
    } else {
        ls[0] + seq!['\n'] + lines_text(ls.drop_first())
    }
}

/// Splitting a text of terminated lines gives those lines back.
pub proof fn lemma_lines_of_lines_text(ls: Seq<Seq<char>>)
    requires
        forall|i: int| 0 <= i < ls.len() ==> no_break(#[trigger] ls[i]),
    ensures
        spec_lines(lines_text(ls)) == ls,
    decreases ls.len(),
{
    if ls.len() == 0 {
        lemma_lines_empty();
    } else {
        assert(forall|i: int|
            0 <= i < ls.drop_first().len() ==> no_break(#[trigger] ls.drop_first()[i]));
        lemma_lines_of_lines_text(ls.drop_first());
        lemma_lines_cons(ls[0], lines_text(ls.drop_first()));
        assert(seq![ls[0]] + ls.drop_first() =~= ls);
    }
}

/// Lowercase form of a string, as `str::to_lowercase` computes it.
pub uninterp spec fn lower_of(s: Seq<char>) -> Seq<char>;

/// Relies on str::to_lowercase: the lowercase equivalent of the string,
/// a function of the characters alone.
#[verifier::external_body]
pub(crate) fn lowercase(s: &str) -> (r: String)
    ensures
        r@ == lower_of(s@),
{
    s.to_lowercase()
}

} // verus!
