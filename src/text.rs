//! Character-level text primitives shared by the declaration scanner and the
//! import/export extractor. Text is handled as `Vec<char>`; each operation is
//! specified over `Seq<char>`.
use vstd::prelude::*;

verus! {

/// The characters that `char::is_whitespace` accepts (Unicode `White_Space`).
pub open spec fn is_white(c: char) -> bool {
    c == ' ' || ('\t' <= c && c <= '\r') || c == '\u{85}' || c == '\u{A0}' || c == '\u{1680}'
        || ('\u{2000}' <= c && c <= '\u{200A}') || c == '\u{2028}' || c == '\u{2029}'
        || c == '\u{202F}' || c == '\u{205F}' || c == '\u{3000}'
}

/// `s` with every leading character that satisfies `p` removed.
pub open spec fn strip_front(s: Seq<char>, p: spec_fn(char) -> bool) -> Seq<char>
    decreases s.len(),
{
    if s.len() > 0 && p(s[0]) {
        strip_front(s.subrange(1, s.len() as int), p)
    } else {
        s
    }
}

/// `s` with every trailing character that satisfies `p` removed.
pub open spec fn strip_back(s: Seq<char>, p: spec_fn(char) -> bool) -> Seq<char>
    decreases s.len(),
{
    if s.len() > 0 && p(s[s.len() - 1]) {
        strip_back(s.drop_last(), p)
    } else {
        s
    }
}

pub open spec fn white() -> spec_fn(char) -> bool {
    |c: char| is_white(c)
}

pub open spec fn equal_to(c: char) -> spec_fn(char) -> bool {
    |x: char| x == c
}

/// The module specifier written at the start of `rest`.
pub fn module_specifier(rest: &Vec<char>) -> (r: Vec<char>)
    ensures
        r@ == module_spec(rest@),
{
    let n = rest.len();
    let mut i: usize = 0;
    while i < n && !(rest[i] == '\'' || rest[i] == '"')
        invariant
            n == rest@.len(),
            i <= n,
            first_quote(rest@, 0) == first_quote(rest@, i as int),
        decreases n - i,
    {
        i = i + 1;
    }
    if i < n {
        let q = rest[i];
        let mut j: usize = i + 1;
        while j < n && rest[j] != q
            invariant
                n == rest@.len(),
                i < j <= n,
                q == rest@[i as int],
                first_quote(rest@, 0) == i,
                char_from(rest@, q, i + 1) == char_from(rest@, q, j as int),
            decreases n - j,
        {
            j = j + 1;
        }
        if j < n {
            return slice_of(rest, i + 1, j);
        }
    }
    trim_matches(&trim_matches(&trim_matches(&trim_ws(rest), '\''), '"'), ';')
}

/// `str::trim`.
pub open spec fn trim(s: Seq<char>) -> Seq<char> {
    strip_back(strip_front(s, white()), white())
}

/// `str::trim_matches` with a single character.
pub open spec fn trim_char(s: Seq<char>, c: char) -> Seq<char> {
    strip_back(strip_front(s, equal_to(c)), equal_to(c))
}

pub open spec fn starts_with(s: Seq<char>, p: Seq<char>) -> bool {
    p.len() <= s.len() && s.subrange(0, p.len() as int) == p
}

pub open spec fn ends_with(s: Seq<char>, p: Seq<char>) -> bool {
    p.len() <= s.len() && s.subrange(s.len() - p.len(), s.len() as int) == p
}

pub open spec fn matches_at(s: Seq<char>, p: Seq<char>, i: int) -> bool {
    0 <= i && i + p.len() <= s.len() && s.subrange(i, i + p.len()) == p
}

/// The first position at or after `i` where `p` occurs in `s`, or -1.
pub open spec fn find_from(s: Seq<char>, p: Seq<char>, i: int) -> int
    decreases s.len() + 1 - i,
{
    if i < 0 || i + p.len() > s.len() {
        -1
    } else if matches_at(s, p, i) {
        i
    } else {
        find_from(s, p, i + 1)
    }
}

/// The first position of `p` in `s`, or -1 (`str::find`).
pub open spec fn find(s: Seq<char>, p: Seq<char>) -> int {
    find_from(s, p, 0)
}

pub open spec fn contains(s: Seq<char>, p: Seq<char>) -> bool {
    find(s, p) >= 0
}

/// What comes before the first `p` in `s`, or all of `s` (`s.split(p).next()`).
pub open spec fn before(s: Seq<char>, p: Seq<char>) -> Seq<char> {
    if find(s, p) >= 0 {
        s.subrange(0, find(s, p))
    } else {
        s
    }
}

/// What comes after the first `p` in `s`, when `p` occurs.
pub open spec fn after(s: Seq<char>, p: Seq<char>) -> Seq<char> {
    s.subrange(find(s, p) + p.len(), s.len() as int)
}

/// The whitespace-separated tokens of `s[start..]`, where the token being
/// read began at `start` and `i` is the next character to look at.
pub open spec fn tokens_acc(s: Seq<char>, start: int, i: int) -> Seq<Seq<char>>
    decreases s.len() - i,
{
    if i < 0 || start < 0 || start > i {
        Seq::empty()
    } else if i >= s.len() {
        if start < s.len() {
            seq![s.subrange(start, s.len() as int)]
        } else {
            Seq::empty()
        }
    } else if is_white(s[i]) {
        let rest = tokens_acc(s, i + 1, i + 1);
        if start < i {
            seq![s.subrange(start, i)] + rest
        } else {
            rest
        }
    } else {
        tokens_acc(s, start, i + 1)
    }
}

/// `str::split_whitespace`.
pub open spec fn tokens(s: Seq<char>) -> Seq<Seq<char>> {
    tokens_acc(s, 0, 0)
}

/// The lines of `s[start..]`, where the line being read began at `start` and
/// `i` is the next character to look at. A line keeps a carriage return that
/// ends it; every reader trims lines before looking at them.
pub open spec fn lines_acc(s: Seq<char>, start: int, i: int) -> Seq<Seq<char>>
    decreases s.len() - i,
{
    if i < 0 || start < 0 || start > i {
        Seq::empty()
    } else if i >= s.len() {
        if start < s.len() {
            seq![s.subrange(start, s.len() as int)]
        } else {
            Seq::empty()
        }
    } else if s[i] == '\n' {
        seq![s.subrange(start, i)] + lines_acc(s, i + 1, i + 1)
    } else {
        lines_acc(s, start, i + 1)
    }
}

/// `str::lines`, up to carriage returns.
pub open spec fn lines(s: Seq<char>) -> Seq<Seq<char>> {
    lines_acc(s, 0, 0)
}

/// `s` with every non-overlapping occurrence of `p` removed, left to right
/// (`str::replace(p, "")`).
pub open spec fn remove_all(s: Seq<char>, p: Seq<char>) -> Seq<char>
    decreases s.len(),
{
    if s.len() == 0 {
        s
    } else if p.len() > 0 && starts_with(s, p) {
        remove_all(s.subrange(p.len() as int, s.len() as int), p)
    } else {
        seq![s[0]] + remove_all(s.subrange(1, s.len() as int), p)
    }
}

proof fn lemma_lines_acc_len(s: Seq<char>, start: int, i: int)
    requires
        0 <= start <= i <= s.len(),
    ensures
        lines_acc(s, start, i).len() <= s.len() - start,
    decreases s.len() - i,
{
    if i < s.len() {
        if s[i] == '\n' {
            lemma_lines_acc_len(s, i + 1, i + 1);
        } else {
            lemma_lines_acc_len(s, start, i + 1);
        }
    }
}

/// A text has no more lines than characters.
pub proof fn lemma_lines_len(s: Seq<char>)
    ensures
        lines(s).len() <= s.len(),
{
    lemma_lines_acc_len(s, 0, 0);
}

pub open spec fn strs(v: Seq<String>) -> Seq<Seq<char>> {
    v.map_values(|x: String| x@)
}

/// The first position at or after `i` holding a quote (`'` or `"`), or -1.
pub open spec fn first_quote(s: Seq<char>, i: int) -> int
    decreases s.len() - i,
{
    if i < 0 || i >= s.len() {
        -1
    } else if s[i] == '\'' || s[i] == '"' {
        i
    } else {
        first_quote(s, i + 1)
    }
}

/// The first position at or after `i` holding `c`, or -1.
pub open spec fn char_from(s: Seq<char>, c: char, i: int) -> int
    decreases s.len() - i,
{
    if i < 0 || i >= s.len() {
        -1
    } else if s[i] == c {
        i
    } else {
        char_from(s, c, i + 1)
    }
}

/// The text inside the first pair of matching quotes of `s`, if any.
pub open spec fn quoted(s: Seq<char>) -> Option<Seq<char>> {
    let i = first_quote(s, 0);
    if i < 0 {
        None
    } else {
        let j = char_from(s, s[i], i + 1);
        if j < 0 {
            None
        } else {
            Some(s.subrange(i + 1, j))
        }
    }
}

/// The module specifier written at the start of `rest`: the text inside its
/// first pair of matching quotes; without such a pair, `rest` trimmed of
/// whitespace, quotes and semicolons at its ends.
pub open spec fn module_spec(rest: Seq<char>) -> Seq<char> {
    match quoted(rest) {
        Some(m) => m,
        None => trim_char(trim_char(trim_char(trim(rest), '\''), '"'), ';'),
    }
}

pub open spec fn views(v: Seq<Vec<char>>) -> Seq<Seq<char>> {
    v.map_values(|x: Vec<char>| x@)
}

pub fn is_white_char(c: char) -> (r: bool)
    ensures
        r == is_white(c),
{
    c == ' ' || ('\t' <= c && c <= '\r') || c == '\u{85}' || c == '\u{A0}' || c == '\u{1680}'
        || ('\u{2000}' <= c && c <= '\u{200A}') || c == '\u{2028}' || c == '\u{2029}'
        || c == '\u{202F}' || c == '\u{205F}' || c == '\u{3000}'
}

/// The characters of `s`.
pub fn chars_of(s: &str) -> (r: Vec<char>)
    ensures
        r@ == s@,
{
    let n = s.unicode_len();
    let mut r: Vec<char> = Vec::new();
    let mut i: usize = 0;
    while i < n
        invariant
            n == s@.len(),
            i <= n,
            r@ == s@.subrange(0, i as int),
        decreases n - i,
    {
        r.push(s.get_char(i));
        i = i + 1;
        assert(r@ =~= s@.subrange(0, i as int));
    }
    assert(r@ =~= s@);
    r
}

/// Relies on `String: FromIterator<char>`: collecting characters into a string
/// keeps them in order.
#[verifier::external_body]
pub(crate) fn string_of(v: &Vec<char>) -> (r: String)
    ensures
        r@ == v@,
{
    v.iter().collect()
}

/// `v[lo..hi]` as a new vector.
pub fn slice_of(v: &Vec<char>, lo: usize, hi: usize) -> (r: Vec<char>)
    requires
        lo <= hi <= v@.len(),
    ensures
        r@ == v@.subrange(lo as int, hi as int),
{
    let mut r: Vec<char> = Vec::new();
    let mut i: usize = lo;
    while i < hi
        invariant
            lo <= i <= hi <= v@.len(),
            r@ == v@.subrange(lo as int, i as int),
        decreases hi - i,
    {
        r.push(v[i]);
        i = i + 1;
        assert(r@ =~= v@.subrange(lo as int, i as int));
    }
    r
}

proof fn lemma_strip_front_step(s: Seq<char>, p: spec_fn(char) -> bool, i: int)
    requires
        0 <= i < s.len(),
        p(s[i]),
    ensures
        strip_front(s.subrange(i, s.len() as int), p) == strip_front(
            s.subrange(i + 1, s.len() as int),
            p,
        ),
{
    let t = s.subrange(i, s.len() as int);
    assert(t.subrange(1, t.len() as int) =~= s.subrange(i + 1, s.len() as int));
}

proof fn lemma_strip_back_step(s: Seq<char>, p: spec_fn(char) -> bool, j: int)
    requires
        0 < j <= s.len(),
        p(s[j - 1]),
    ensures
        strip_back(s.subrange(0, j), p) == strip_back(s.subrange(0, j - 1), p),
{
    assert(s.subrange(0, j).drop_last() =~= s.subrange(0, j - 1));
}

/// `str::trim`.
pub fn trim_ws(v: &Vec<char>) -> (r: Vec<char>)
    ensures
        r@ == trim(v@),
{
    let ghost p = white();
    let n = v.len();
    let mut i: usize = 0;
    assert(v@.subrange(0, n as int) =~= v@);
    while i < n && is_white_char(v[i])
        invariant
            i <= n == v@.len(),
            p == white(),
            strip_front(v@, p) == strip_front(v@.subrange(i as int, n as int), p),
        decreases n - i,
    {
        proof {
            lemma_strip_front_step(v@, p, i as int);
        }
        i = i + 1;
    }
    let ghost t = v@.subrange(i as int, n as int);
    assert(strip_front(v@, p) == t) by {
        if i < n {
            assert(t[0] == v@[i as int]);
        }
    }
    let mut j: usize = n;
    assert(t.subrange(0, (j - i) as int) =~= t);
    while j > i && is_white_char(v[j - 1])
        invariant
            i <= j <= n == v@.len(),
            p == white(),
            t == v@.subrange(i as int, n as int),
            strip_back(t, p) == strip_back(t.subrange(0, (j - i) as int), p),
        decreases j,
    {
        proof {
            lemma_strip_back_step(t, p, (j - i) as int);
        }
        j = j - 1;
    }
    let r = slice_of(v, i, j);
    assert(r@ =~= t.subrange(0, (j - i) as int));
    r
}

/// `str::trim_matches(c)`.
pub fn trim_matches(v: &Vec<char>, c: char) -> (r: Vec<char>)
    ensures
        r@ == trim_char(v@, c),
{
    let ghost p = equal_to(c);
    let n = v.len();
    let mut i: usize = 0;
    assert(v@.subrange(0, n as int) =~= v@);
    while i < n && v[i] == c
        invariant
            i <= n == v@.len(),
            p == equal_to(c),
            strip_front(v@, p) == strip_front(v@.subrange(i as int, n as int), p),
        decreases n - i,
    {
        proof {
            lemma_strip_front_step(v@, p, i as int);
        }
        i = i + 1;
    }
    let ghost t = v@.subrange(i as int, n as int);
    assert(strip_front(v@, p) == t) by {
        if i < n {
            assert(t[0] == v@[i as int]);
        }
    }
    let mut j: usize = n;
    assert(t.subrange(0, (j - i) as int) =~= t);
    while j > i && v[j - 1] == c
        invariant
            i <= j <= n == v@.len(),
            p == equal_to(c),
            t == v@.subrange(i as int, n as int),
            strip_back(t, p) == strip_back(t.subrange(0, (j - i) as int), p),
        decreases j,
    {
        proof {
            lemma_strip_back_step(t, p, (j - i) as int);
        }
        j = j - 1;
    }
    let r = slice_of(v, i, j);
    assert(r@ =~= t.subrange(0, (j - i) as int));
    r
}

/// Whether `p` occurs in `v` at position `i`.
pub fn matches_here(v: &Vec<char>, p: &Vec<char>, i: usize) -> (r: bool)
    ensures
        r == matches_at(v@, p@, i as int),
{
    if i > v.len() || p.len() > v.len() - i {
        return false;
    }
    let n = v.len();
    let mut k: usize = 0;
    while k < p.len()
        invariant
            n == v@.len(),
            i + p@.len() <= v@.len(),
            k <= p@.len(),
            v@.subrange(i as int, i + k) == p@.subrange(0, k as int),
        decreases p@.len() - k,
    {
        if v[i + k] != p[k] {
            assert(v@.subrange(i as int, i + p@.len())[k as int] != p@[k as int]);
            return false;
        }
        k = k + 1;
        assert(v@.subrange(i as int, i + k) =~= p@.subrange(0, k as int));
    }
    assert(p@.subrange(0, k as int) =~= p@);
    true
}

/// `str::find`.
pub fn find_in(v: &Vec<char>, p: &Vec<char>) -> (r: Option<usize>)
    ensures
        r is Some <==> find(v@, p@) >= 0,
        r matches Some(k) ==> k == find(v@, p@) && k + p@.len() <= v@.len(),
{
    let n = v.len();
    if p.len() > n {
        return None;
    }
    let last = n - p.len();
    let mut i: usize = 0;
    while i < last
        invariant
            n == v@.len(),
            last + p@.len() == n,
            i <= last,
            find(v@, p@) == find_from(v@, p@, i as int),
        decreases last - i,
    {
        if matches_here(v, p, i) {
            return Some(i);
        }
        i = i + 1;
    }
    if matches_here(v, p, last) {
        Some(last)
    } else {
        assert(find_from(v@, p@, last + 1) == -1);
        None
    }
}

pub fn starts_with_seq(v: &Vec<char>, p: &Vec<char>) -> (r: bool)
    ensures
        r == starts_with(v@, p@),
{
    let r = matches_here(v, p, 0);
    assert(r == starts_with(v@, p@)) by {
        if p@.len() <= v@.len() {
            assert(v@.subrange(0, p@.len() as int) == v@.subrange(0, 0 + p@.len() as int));
        }
    }
    r
}

pub fn ends_with_seq(v: &Vec<char>, p: &Vec<char>) -> (r: bool)
    ensures
        r == ends_with(v@, p@),
{
    if p.len() > v.len() {
        return false;
    }
    matches_here(v, p, v.len() - p.len())
}

pub fn same_chars(a: &Vec<char>, b: &Vec<char>) -> (r: bool)
    ensures
        r == (a@ == b@),
{
    if a.len() != b.len() {
        return false;
    }
    let r = starts_with_seq(a, b);
    assert(r == (a@ == b@)) by {
        assert(a@.subrange(0, b@.len() as int) =~= a@);
    }
    r
}

/// `s.split(p).next()`.
pub fn before_seq(v: &Vec<char>, p: &Vec<char>) -> (r: Vec<char>)
    ensures
        r@ == before(v@, p@),
{
    match find_in(v, p) {
        Some(k) => slice_of(v, 0, k),
        None => {
            let r = slice_of(v, 0, v.len());
            assert(r@ =~= v@);
            r
        },
    }
}

/// `str::split_whitespace`.
pub fn split_ws(v: &Vec<char>) -> (r: Vec<Vec<char>>)
    ensures
        views(r@) == tokens(v@),
{
    let n = v.len();
    let mut r: Vec<Vec<char>> = Vec::new();
    let mut start: usize = 0;
    let mut i: usize = 0;
    while i < n
        invariant
            n == v@.len(),
            start <= i <= n,
            tokens(v@) == views(r@) + tokens_acc(v@, start as int, i as int),
        decreases n - i,
    {
        if is_white_char(v[i]) {
            if start < i {
                let t = slice_of(v, start, i);
                let ghost before_push = r@;
                r.push(t);
                assert(views(r@) =~= views(before_push) + seq![t@]);
            }
            i = i + 1;
            start = i;
        } else {
            i = i + 1;
        }
        assert(tokens(v@) =~= views(r@) + tokens_acc(v@, start as int, i as int));
    }
    if start < n {
        let t = slice_of(v, start, n);
        let ghost before_push = r@;
        r.push(t);
        assert(views(r@) =~= views(before_push) + seq![t@]);
    }
    assert(views(r@) =~= tokens(v@));
    r
}

/// `str::lines`, up to carriage returns.
pub fn split_lines(v: &Vec<char>) -> (r: Vec<Vec<char>>)
    ensures
        views(r@) == lines(v@),
{
    let n = v.len();
    let mut r: Vec<Vec<char>> = Vec::new();
    let mut start: usize = 0;
    let mut i: usize = 0;
    while i < n
        invariant
            n == v@.len(),
            start <= i <= n,
            lines(v@) == views(r@) + lines_acc(v@, start as int, i as int),
        decreases n - i,
    {
        if v[i] == '\n' {
            let t = slice_of(v, start, i);
            let ghost before_push = r@;
            r.push(t);
            assert(views(r@) =~= views(before_push) + seq![t@]);
            i = i + 1;
            start = i;
        } else {
            i = i + 1;
        }
        assert(lines(v@) =~= views(r@) + lines_acc(v@, start as int, i as int));
    }
    if start < n {
        let t = slice_of(v, start, n);
        let ghost before_push = r@;
        r.push(t);
        assert(views(r@) =~= views(before_push) + seq![t@]);
    }
    assert(views(r@) =~= lines(v@));
    r
}

/// `str::replace(p, "")`.
pub fn remove_all_of(v: &Vec<char>, p: &Vec<char>) -> (r: Vec<char>)
    ensures
        r@ == remove_all(v@, p@),
{
    let n = v.len();
    let mut r: Vec<char> = Vec::new();
    let mut i: usize = 0;
    assert(v@.subrange(0, n as int) =~= v@);
    while i < n
        invariant
            n == v@.len(),
            i <= n,
            remove_all(v@, p@) == r@ + remove_all(v@.subrange(i as int, n as int), p@),
        decreases n - i,
    {
        let ghost rest = v@.subrange(i as int, n as int);
        if p.len() > 0 && matches_here(v, p, i) {
            assert(rest.subrange(0, p@.len() as int) =~= v@.subrange(i as int, i + p@.len()));
            assert(rest.subrange(p@.len() as int, rest.len() as int) =~= v@.subrange(
                i + p@.len(),
                n as int,
            ));
            i = i + p.len();
        } else {
            assert(!(p@.len() > 0 && starts_with(rest, p@))) by {
                if p@.len() > 0 && starts_with(rest, p@) {
                    assert(rest.subrange(0, p@.len() as int) =~= v@.subrange(
                        i as int,
                        i + p@.len(),
                    ));
                }
            }
            assert(rest.subrange(1, rest.len() as int) =~= v@.subrange(i + 1, n as int));
            r.push(v[i]);
            i = i + 1;
        }
        assert(remove_all(v@, p@) =~= r@ + remove_all(v@.subrange(i as int, n as int), p@));
    }
    assert(v@.subrange(n as int, n as int) =~= Seq::<char>::empty());
    assert(r@ + Seq::<char>::empty() =~= r@);
    r
}

} // verus!
