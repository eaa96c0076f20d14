//! Character-sequence helpers shared by the parsers, with their models.
//!
//! Text is modelled as `Seq<char>`; the executable helpers work on `Vec<char>`
//! and `String`, and each states the sequence it produces.

use vstd::prelude::*;

verus! {

/// `String::push` appends one character.
pub assume_specification[ String::push ](s: &mut String, ch: char)
    ensures
        final(s)@ == old(s)@.push(ch),
;

// ---------------------------------------------------------------------------
// Models
// ---------------------------------------------------------------------------

/// The Unicode `White_Space` characters (what `char::is_whitespace` accepts).
pub open spec fn is_space(c: char) -> bool {
    ||| ('\u{9}' <= c && c <= '\u{d}')
    ||| c == ' '
    ||| c == '\u{85}'
    ||| c == '\u{a0}'
    ||| c == '\u{1680}'
    ||| ('\u{2000}' <= c && c <= '\u{200a}')
    ||| c == '\u{2028}'
    ||| c == '\u{2029}'
    ||| c == '\u{202f}'
    ||| c == '\u{205f}'
    ||| c == '\u{3000}'
}

/// `s` without its leading whitespace.
pub open spec fn trim_start(s: Seq<char>) -> Seq<char>
    decreases s.len(),
{
    if s.len() > 0 && is_space(s[0]) {
        trim_start(s.drop_first())
    } else {
        s
    }
}

/// `s` without its trailing whitespace.
pub open spec fn trim_end(s: Seq<char>) -> Seq<char>
    decreases s.len(),
{
    if s.len() > 0 && is_space(s.last()) {
        trim_end(s.drop_last())
    } else {
        s
    }
}

/// `s` without leading and trailing whitespace.
pub open spec fn trim(s: Seq<char>) -> Seq<char> {
    trim_end(trim_start(s))
}

/// `s` without any trailing copies of `c`.
pub open spec fn trim_end_char(s: Seq<char>, c: char) -> Seq<char>
    decreases s.len(),
{
    if s.len() > 0 && s.last() == c {
        trim_end_char(s.drop_last(), c)
    } else {
        s
    }
}

/// `s` without any leading copies of `c`.
pub open spec fn trim_start_char(s: Seq<char>, c: char) -> Seq<char>
    decreases s.len(),
{
    if s.len() > 0 && s[0] == c {
        trim_start_char(s.drop_first(), c)
    } else {
        s
    }
}

/// `p` is a prefix of `s`.
pub open spec fn starts_with(s: Seq<char>, p: Seq<char>) -> bool {
    p.len() <= s.len() && s.take(p.len() as int) == p
}

/// `p` is a suffix of `s`.
pub open spec fn ends_with(s: Seq<char>, p: Seq<char>) -> bool {
    p.len() <= s.len() && s.skip(s.len() - p.len()) == p
}

/// `p` occurs in `s` starting at index `i`.
pub open spec fn occurs_at(s: Seq<char>, p: Seq<char>, i: int) -> bool {
    0 <= i && i + p.len() <= s.len() && s.subrange(i, i + p.len()) == p
}

/// The first index `>= i` at which `p` occurs in `s`.
pub open spec fn find_from(s: Seq<char>, p: Seq<char>, i: int) -> Option<int>
    decreases s.len() - i,
{
    if i < 0 || i + p.len() > s.len() {
        None
    } else if occurs_at(s, p, i) {
        Some(i)
    } else if i >= s.len() {
        None
    } else {
        find_from(s, p, i + 1)
    }
}

/// The first index at which `p` occurs in `s` (what `str::find` returns).
pub open spec fn find(s: Seq<char>, p: Seq<char>) -> Option<int> {
    find_from(s, p, 0)
}

/// `p` occurs somewhere in `s`.
pub open spec fn contains_seq(s: Seq<char>, p: Seq<char>) -> bool {
    exists|i: int| occurs_at(s, p, i)
}

/// The first index `>= i` holding `c`, or `s.len()` when there is none.
pub open spec fn char_index_from(s: Seq<char>, c: char, i: int) -> int
    decreases s.len() - i,
{
    if i < 0 || i >= s.len() {
        s.len() as int
    } else if s[i] == c {
        i
    } else {
        char_index_from(s, c, i + 1)
    }
}

/// A line as `str::lines` yields it: a `\r` just before the `\n` is dropped.
pub open spec fn strip_cr(l: Seq<char>) -> Seq<char> {
    if l.len() > 0 && l.last() == '\r' {
        l.drop_last()
    } else {
        l
    }
}

/// The lines of `s`, as `str::lines` splits them.
pub open spec fn lines(s: Seq<char>) -> Seq<Seq<char>>
    decreases s.len(),
{
    if s.len() == 0 {
        Seq::empty()
    } else {
        let k = char_index_from(s, '\n', 0);
        if k >= s.len() {
            seq![s]
        } else {
            proof {
                lemma_char_index_from(s, '\n', 0);
            }
            seq![strip_cr(s.take(k))] + lines(s.skip(k + 1))
        }
    }
}

/// The pieces of `s` between occurrences of `c` (what `str::split(c)` yields).
pub open spec fn split_char(s: Seq<char>, c: char) -> Seq<Seq<char>>
    decreases s.len(),
{
    let k = char_index_from(s, c, 0);
    if k >= s.len() {
        seq![s]
    } else {
        proof {
            lemma_char_index_from(s, c, 0);
        }
        seq![s.take(k)] + split_char(s.skip(k + 1), c)
    }
}

/// The whitespace-separated words of `s` (what `str::split_whitespace` yields).
pub open spec fn words(s: Seq<char>) -> Seq<Seq<char>>
    decreases s.len(),
{
    let t = trim_start(s);
    if t.len() == 0 {
        Seq::empty()
    } else {
        let k = word_end(t, 0);
        proof {
            lemma_trim_start_len(s);
            lemma_word_end(t, 0);
        }
        seq![t.take(k)] + words(t.skip(k))
    }
}

/// The end of the run of non-whitespace characters starting at `i`.
pub open spec fn word_end(s: Seq<char>, i: int) -> int
    decreases s.len() - i,
{
    if i < 0 || i >= s.len() {
        s.len() as int
    } else if is_space(s[i]) {
        i
    } else {
        word_end(s, i + 1)
    }
}

/// `parts` joined with `sep` between consecutive elements.
pub open spec fn join(parts: Seq<Seq<char>>, sep: Seq<char>) -> Seq<char>
    decreases parts.len(),
{
    if parts.len() == 0 {
        Seq::empty()
    } else if parts.len() == 1 {
        parts[0]
    } else {
        join(parts.drop_last(), sep) + sep + parts.last()
    }
}

/// ASCII lowercase of one character (others unchanged).
pub open spec fn ascii_lower(c: char) -> char {
    if 'A' <= c && c <= 'Z' {
        ((c as u32) + 32) as char
    } else {
        c
    }
}

/// ASCII lowercase of a sequence.
pub open spec fn lower(s: Seq<char>) -> Seq<char> {
    s.map_values(|c: char| ascii_lower(c))
}

// ---------------------------------------------------------------------------
// Lemmas
// ---------------------------------------------------------------------------

pub proof fn lemma_char_index_from(s: Seq<char>, c: char, i: int)
    requires
        0 <= i,
    ensures
        i <= char_index_from(s, c, i) <= s.len() || (i > s.len() && char_index_from(s, c, i) == s.len()),
        char_index_from(s, c, i) < s.len() ==> s[char_index_from(s, c, i)] == c,
        forall|j: int| i <= j < char_index_from(s, c, i) ==> s[j] != c,
    decreases s.len() - i,
{
    if i < s.len() && s[i] != c {
        lemma_char_index_from(s, c, i + 1);
    }
}

pub proof fn lemma_word_end(s: Seq<char>, i: int)
    requires
        0 <= i <= s.len(),
    ensures
        i <= word_end(s, i) <= s.len(),
        word_end(s, i) < s.len() ==> is_space(s[word_end(s, i)]),
        forall|j: int| i <= j < word_end(s, i) ==> !is_space(s[j]),
    decreases s.len() - i,
{
    if i < s.len() && !is_space(s[i]) {
        lemma_word_end(s, i + 1);
    }
}

pub proof fn lemma_trim_start_len(s: Seq<char>)
    ensures
        trim_start(s).len() <= s.len(),
        trim_start(s) == s.skip(s.len() - trim_start(s).len()),
        trim_start(s).len() > 0 ==> !is_space(trim_start(s)[0]),
        forall|j: int| 0 <= j < s.len() - trim_start(s).len() ==> is_space(#[trigger] s[j]),
    decreases s.len(),
{
    if s.len() > 0 && is_space(s[0]) {
        lemma_trim_start_len(s.drop_first());
        assert(s.drop_first().skip(s.drop_first().len() - trim_start(s).len())
            =~= s.skip(s.len() - trim_start(s).len()));
        assert forall|j: int| 0 <= j < s.len() - trim_start(s).len() implies is_space(#[trigger] s[j]) by {
            if j > 0 {
                assert(s[j] == s.drop_first()[j - 1]);
            }
        }
    } else {
        assert(s.skip(0) =~= s);
    }
}

pub proof fn lemma_trim_end_len(s: Seq<char>)
    ensures
        trim_end(s).len() <= s.len(),
        trim_end(s) == s.take(trim_end(s).len() as int),
        trim_end(s).len() > 0 ==> !is_space(trim_end(s).last()),
        forall|j: int| trim_end(s).len() <= j < s.len() ==> is_space(#[trigger] s[j]),
    decreases s.len(),
{
    if s.len() > 0 && is_space(s.last()) {
        lemma_trim_end_len(s.drop_last());
        assert(s.drop_last().take(trim_end(s).len() as int) =~= s.take(trim_end(s).len() as int));
        assert forall|j: int| trim_end(s).len() <= j < s.len() implies is_space(#[trigger] s[j]) by {
            if j < s.len() - 1 {
                assert(s[j] == s.drop_last()[j]);
            }
        }
    } else {
        assert(s.take(s.len() as int) =~= s);
    }
}

/// A sequence that starts and ends with non-whitespace is its own trim.
pub proof fn lemma_trim_fixed(s: Seq<char>)
    requires
        s.len() > 0 ==> !is_space(s[0]) && !is_space(s.last()),
    ensures
        trim(s) == s,
        trim_start(s) == s,
        trim_end(s) == s,
{
}

/// The characters of a trimmed sequence are those of `s` between its blanks.
pub proof fn lemma_trim_is_subrange(s: Seq<char>)
    ensures
        exists|a: int, b: int| 0 <= a <= b <= s.len() && trim(s) == s.subrange(a, b),
{
    lemma_trim_start_len(s);
    let t = trim_start(s);
    lemma_trim_end_len(t);
    let a = s.len() - t.len();
    let b = a + trim_end(t).len();
    assert(trim(s) =~= s.subrange(a, b));
}

pub proof fn lemma_find_from(s: Seq<char>, p: Seq<char>, i: int)
    requires
        0 <= i,
    ensures
        match find_from(s, p, i) {
            Some(k) => i <= k && occurs_at(s, p, k) && forall|j: int|
                i <= j < k ==> !occurs_at(s, p, j),
            None => forall|j: int| i <= j ==> !occurs_at(s, p, j),
        },
    decreases s.len() - i,
{
    if i + p.len() > s.len() {
    } else if occurs_at(s, p, i) {
    } else if i >= s.len() {
    } else {
        lemma_find_from(s, p, i + 1);
    }
}

/// `find` is the least occurrence.
pub proof fn lemma_find(s: Seq<char>, p: Seq<char>)
    ensures
        match find(s, p) {
            Some(k) => occurs_at(s, p, k) && forall|j: int| 0 <= j < k ==> !occurs_at(s, p, j),
            None => forall|j: int| !occurs_at(s, p, j),
        },
        find(s, p) is Some <==> contains_seq(s, p),
{
    lemma_find_from(s, p, 0);
}

/// A least occurrence is what `find` returns.
pub proof fn lemma_find_unique(s: Seq<char>, p: Seq<char>, k: int)
    requires
        occurs_at(s, p, k),
        forall|j: int| 0 <= j < k ==> !occurs_at(s, p, j),
    ensures
        find(s, p) == Some(k),
{
    lemma_find(s, p);
    if let Some(k2) = find(s, p) {
        if k2 < k {
        } else if k < k2 {
        }
    }
}


/// The views of a sequence of character vectors.
pub open spec fn views(vs: Seq<Vec<char>>) -> Seq<Seq<char>> {
    vs.map_values(|v: Vec<char>| v@)
}

/// The views of a sequence of strings.
pub open spec fn str_views(vs: Seq<String>) -> Seq<Seq<char>> {
    vs.map_values(|v: String| v@)
}

/// `c` does not occur in `s`.
pub open spec fn no_char(s: Seq<char>, c: char) -> bool {
    forall|i: int| 0 <= i < s.len() ==> s[i] != c
}

pub proof fn lemma_char_index_skip(s: Seq<char>, c: char, i: int)
    requires
        0 <= i <= s.len(),
    ensures
        char_index_from(s.skip(i), c, 0) == char_index_from(s, c, i) - i,
{
    lemma_char_index_from(s, c, i);
    lemma_char_index_from(s.skip(i), c, 0);
    let a = char_index_from(s, c, i);
    let b = char_index_from(s.skip(i), c, 0);
    if b + i < a {
        assert(s.skip(i)[b] == s[b + i]);
    } else if b + i > a {
        assert(s.skip(i)[a - i] == s[a]);
    }
}

/// Splitting a line off the front of `x + "\n" + y`.
pub proof fn lemma_lines_cons(x: Seq<char>, y: Seq<char>)
    requires
        no_char(x, '\n'),
    ensures
        lines(x + seq!['\n'] + y) == seq![strip_cr(x)] + lines(y),
{
    let s = x + seq!['\n'] + y;
    lemma_char_index_from(s, '\n', 0);
    let k = char_index_from(s, '\n', 0);
    if k < x.len() {
        assert(s[k] == x[k]);
    }
    if k > x.len() {
        assert(s[x.len() as int] == '\n');
    }
    assert(k == x.len());
    assert(s.take(k) =~= x);
    assert(s.skip(k + 1) =~= y);
}


/// `find_from` is `find` on the remainder, shifted.
pub proof fn lemma_find_from_skip(s: Seq<char>, p: Seq<char>, i: int)
    requires
        0 <= i <= s.len(),
    ensures
        match find_from(s, p, i) {
            Some(k) => find(s.skip(i), p) == Some(k - i),
            None => find(s.skip(i), p) is None,
        },
{
    lemma_find_from(s, p, i);
    lemma_find(s.skip(i), p);
    assert forall|j: int| #![trigger occurs_at(s.skip(i), p, j)] 0 <= j ==> (occurs_at(s.skip(i), p, j) <==> occurs_at(s, p, j + i)) by {
        if 0 <= j && j + p.len() <= s.len() - i {
            assert(s.skip(i).subrange(j, j + p.len()) =~= s.subrange(j + i, j + i + p.len()));
        }
    }
    match find_from(s, p, i) {
        Some(k) => {
            assert(occurs_at(s.skip(i), p, k - i));
            assert forall|j: int| 0 <= j < k - i implies !occurs_at(s.skip(i), p, j) by {
                assert(!occurs_at(s, p, j + i));
            }
            lemma_find_unique(s.skip(i), p, k - i);
        },
        None => {
            if let Some(k2) = find(s.skip(i), p) {
                assert(occurs_at(s, p, k2 + i));
            }
        },
    }
}


/// Lexicographic order on character sequences (the order of `String`).
pub open spec fn lex_lt(a: Seq<char>, b: Seq<char>) -> bool
    decreases a.len(),
{
    if a.len() == 0 {
        b.len() > 0
    } else if b.len() == 0 {
        false
    } else if a[0] < b[0] {
        true
    } else if a[0] == b[0] {
        lex_lt(a.drop_first(), b.drop_first())
    } else {
        false
    }
}

/// `x` inserted into the ascending, duplicate-free `s` (unchanged if present).
pub open spec fn insert_sorted(s: Seq<Seq<char>>, x: Seq<char>) -> Seq<Seq<char>>
    decreases s.len(),
{
    if s.len() == 0 {
        seq![x]
    } else if s[0] == x {
        s
    } else if lex_lt(x, s[0]) {
        seq![x] + s
    } else {
        seq![s[0]] + insert_sorted(s.drop_first(), x)
    }
}

/// The distinct elements of `s` in ascending order (what `sort` then `dedup`
/// leave).
pub open spec fn sort_dedup(s: Seq<Seq<char>>) -> Seq<Seq<char>>
    decreases s.len(),
{
    if s.len() == 0 {
        Seq::empty()
    } else {
        insert_sorted(sort_dedup(s.drop_last()), s.last())
    }
}

pub proof fn lemma_insert_sorted_contains(s: Seq<Seq<char>>, x: Seq<char>, y: Seq<char>)
    ensures
        insert_sorted(s, x).contains(y) <==> (s.contains(y) || y == x),
    decreases s.len(),
{
    if s.len() == 0 {
        assert(seq![x][0] == x);
    } else if s[0] == x {
    } else if lex_lt(x, s[0]) {
        assert((seq![x] + s)[0] == x);
        if s.contains(y) {
            let i = choose|i: int| 0 <= i < s.len() && s[i] == y;
            assert((seq![x] + s)[i + 1] == y);
        }
        if (seq![x] + s).contains(y) {
            let i = choose|i: int| 0 <= i < (seq![x] + s).len() && (seq![x] + s)[i] == y;
            if i > 0 {
                assert(s[i - 1] == y);
            }
        }
    } else {
        let r = insert_sorted(s.drop_first(), x);
        lemma_insert_sorted_contains(s.drop_first(), x, y);
        let t = seq![s[0]] + r;
        assert(t[0] == s[0]);
        if s.contains(y) {
            let i = choose|i: int| 0 <= i < s.len() && s[i] == y;
            if i > 0 {
                assert(s.drop_first()[i - 1] == y);
                let j = choose|j: int| 0 <= j < r.len() && r[j] == y;
                assert(t[j + 1] == y);
            }
        }
        if y == x {
            let j = choose|j: int| 0 <= j < r.len() && r[j] == y;
            assert(t[j + 1] == y);
        }
        if t.contains(y) {
            let i = choose|i: int| 0 <= i < t.len() && t[i] == y;
            if i > 0 {
                assert(r[i - 1] == y);
                if s.drop_first().contains(y) {
                    let k = choose|k: int| 0 <= k < s.drop_first().len() && s.drop_first()[k] == y;
                    assert(s[k + 1] == y);
                }
            }
        }
    }
}

/// `sort_dedup` keeps exactly the elements of its input.
pub proof fn lemma_sort_dedup_contains(s: Seq<Seq<char>>, y: Seq<char>)
    ensures
        sort_dedup(s).contains(y) <==> s.contains(y),
    decreases s.len(),
{
    if s.len() > 0 {
        lemma_sort_dedup_contains(s.drop_last(), y);
        lemma_insert_sorted_contains(sort_dedup(s.drop_last()), s.last(), y);
        if s.drop_last().contains(y) {
            let i = choose|i: int| 0 <= i < s.drop_last().len() && s.drop_last()[i] == y;
            assert(s[i] == y);
        }
        if y == s.last() {
            assert(s[s.len() - 1] == y);
        }
        if s.contains(y) {
            let i = choose|i: int| 0 <= i < s.len() && s[i] == y;
            if i < s.len() - 1 {
                assert(s.drop_last()[i] == y);
            }
        }
    }
}

// ---------------------------------------------------------------------------
// Executable helpers
// ---------------------------------------------------------------------------

/// The characters of `s`, in order.
pub fn chars_of(s: &str) -> (res: Vec<char>)
    ensures
        res@ == s@,
{
    let mut out: Vec<char> = Vec::new();
    for c in it: s.chars()
        invariant
            out@ == it.seq().take(it.index()),
    {
        out.push(c);
    }
    out
}

/// A `String` holding exactly `cs`.
pub fn string_of(cs: &[char]) -> (res: String)
    ensures
        res@ == cs@,
{
    let mut out = String::new();
    let mut i: usize = 0;
    while i < cs.len()
        invariant
            i <= cs@.len(),
            out@ == cs@.take(i as int),
        decreases cs@.len() - i,
    {
        out.push(cs[i]);
        i += 1;
        assert(cs@.take(i as int) == cs@.take(i - 1).push(cs@[i - 1]));
    }
    assert(cs@.take(cs@.len() as int) == cs@);
    out
}

/// `char::is_whitespace`, over the Unicode `White_Space` set.
pub fn is_space_char(c: char) -> (b: bool)
    ensures
        b == is_space(c),
{
    ('\u{9}' <= c && c <= '\u{d}') || c == ' ' || c == '\u{85}' || c == '\u{a0}' || c
        == '\u{1680}' || ('\u{2000}' <= c && c <= '\u{200a}') || c == '\u{2028}' || c
        == '\u{2029}' || c == '\u{202f}' || c == '\u{205f}' || c == '\u{3000}'
}

/// ASCII lowercase of one character.
pub fn ascii_lower_char(c: char) -> (r: char)
    ensures
        r == ascii_lower(c),
{
    if 'A' <= c && c <= 'Z' {
        let u = (c as u8) + 32;
        (u as char)
    } else {
        c
    }
}

/// A copy of `s[lo..hi]`.
pub fn slice_of(s: &[char], lo: usize, hi: usize) -> (res: Vec<char>)
    requires
        lo <= hi <= s@.len(),
    ensures
        res@ == s@.subrange(lo as int, hi as int),
{
    let mut out: Vec<char> = Vec::new();
    let mut i = lo;
    while i < hi
        invariant
            lo <= i <= hi <= s@.len(),
            out@ == s@.subrange(lo as int, i as int),
        decreases hi - i,
    {
        out.push(s[i]);
        i += 1;
        assert(s@.subrange(lo as int, i as int) == s@.subrange(lo as int, i - 1).push(s@[i - 1]));
    }
    out
}

/// Append all of `t` to `out`.
pub fn push_all(out: &mut Vec<char>, t: &[char])
    ensures
        final(out)@ == old(out)@ + t@,
{
    let mut i: usize = 0;
    while i < t.len()
        invariant
            i <= t@.len(),
            out@ == old(out)@ + t@.take(i as int),
        decreases t@.len() - i,
    {
        out.push(t[i]);
        i += 1;
        assert(t@.take(i as int) == t@.take(i - 1).push(t@[i - 1]));
    }
    assert(t@.take(t@.len() as int) == t@);
}

/// Append the characters of `t` to `out`.
pub fn push_str(out: &mut Vec<char>, t: &str)
    ensures
        final(out)@ == old(out)@ + t@,
{
    let cs = chars_of(t);
    push_all(out, &cs);
}

/// Whether `p` occurs in `s` at index `i`.
pub fn matches_at(s: &[char], p: &[char], i: usize) -> (b: bool)
    ensures
        b == occurs_at(s@, p@, i as int),
{
    if i > s.len() || p.len() > s.len() - i {
        return false;
    }
    let mut j: usize = 0;
    while j < p.len()
        invariant
            i + p@.len() <= s@.len(),
            s@.len() <= usize::MAX,
            j <= p@.len(),
            forall|k: int| 0 <= k < j ==> s@[i + k] == p@[k],
        decreases p@.len() - j,
    {
        assert(i + j < s@.len());
        if s[i + j] != p[j] {
            assert(s@.subrange(i as int, i + p@.len())[j as int] != p@[j as int]);
            return false;
        }
        j += 1;
    }
    assert(s@.subrange(i as int, i + p@.len()) =~= p@);
    true
}

/// The first index `>= from` where `p` occurs in `s`.
pub fn find_from_exec(s: &[char], p: &[char], from: usize) -> (r: Option<usize>)
    ensures
        r matches Some(k) ==> find_from(s@, p@, from as int) == Some(k as int),
        r is None ==> find_from(s@, p@, from as int) is None,
{
    proof {
        lemma_find_from(s@, p@, from as int);
    }
    if from > s.len() || p.len() > s.len() - from {
        return None;
    }
    let mut i = from;
    while i <= s.len() - p.len()
        invariant
            from <= i,
            p@.len() <= s@.len(),
            i <= s@.len(),
            forall|j: int| from <= j < i ==> !occurs_at(s@, p@, j),
        decreases s@.len() - i,
    {
        if matches_at(s, p, i) {
            proof {
                lemma_find_from(s@, p@, from as int);
                if let Some(k) = find_from(s@, p@, from as int) {
                    assert(k == i as int);
                }
            }
            return Some(i);
        }
        proof {
            if i == s@.len() {
                assert(s@.subrange(i as int, i as int) =~= p@);
            }
        }
        i += 1;
    }
    proof {
        lemma_find_from(s@, p@, from as int);
    }
    None
}

/// The index of the first `c` at or after `from`, or `s.len()`.
pub fn char_index_exec(s: &[char], c: char, from: usize) -> (k: usize)
    requires
        from <= s@.len(),
    ensures
        k as int == char_index_from(s@, c, from as int),
{
    proof {
        lemma_char_index_from(s@, c, from as int);
    }
    let mut i = from;
    while i < s.len()
        invariant
            from <= i <= s@.len(),
            char_index_from(s@, c, i as int) == char_index_from(s@, c, from as int),
        decreases s@.len() - i,
    {
        if s[i] == c {
            return i;
        }
        i += 1;
    }
    i
}

/// Bounds `(a, b)` with `trim(s[lo..hi]) == s[a..b]`.
pub fn trim_bounds(s: &[char], lo: usize, hi: usize) -> (r: (usize, usize))
    requires
        lo <= hi <= s@.len(),
    ensures
        lo <= r.0 <= r.1 <= hi,
        trim(s@.subrange(lo as int, hi as int)) == s@.subrange(r.0 as int, r.1 as int),
        trim_start(s@.subrange(lo as int, hi as int)) == s@.subrange(r.0 as int, hi as int),
{
    let mut a = lo;
    while a < hi && is_space_char(s[a])
        invariant
            lo <= a <= hi <= s@.len(),
            trim_start(s@.subrange(lo as int, hi as int)) == trim_start(s@.subrange(a as int, hi as int)),
        decreases hi - a,
    {
        assert(s@.subrange(a as int, hi as int).drop_first() =~= s@.subrange(a + 1, hi as int));
        a += 1;
    }
    let mut b = hi;
    while b > a && is_space_char(s[b - 1])
        invariant
            lo <= a <= b <= hi <= s@.len(),
            trim_end(s@.subrange(a as int, hi as int)) == trim_end(s@.subrange(a as int, b as int)),
        decreases b - a,
    {
        assert(s@.subrange(a as int, b as int).drop_last() =~= s@.subrange(a as int, b - 1));
        b -= 1;
    }
    (a, b)
}

/// Bound `e` with `trim_end(s[lo..hi]) == s[lo..e]`.
pub fn trim_end_bound(s: &[char], lo: usize, hi: usize) -> (e: usize)
    requires
        lo <= hi <= s@.len(),
    ensures
        lo <= e <= hi,
        trim_end(s@.subrange(lo as int, hi as int)) == s@.subrange(lo as int, e as int),
{
    let mut e = hi;
    while e > lo && is_space_char(s[e - 1])
        invariant
            lo <= e <= hi <= s@.len(),
            trim_end(s@.subrange(lo as int, hi as int)) == trim_end(s@.subrange(lo as int, e as int)),
        decreases e - lo,
    {
        assert(s@.subrange(lo as int, e as int).drop_last() =~= s@.subrange(lo as int, e - 1));
        e -= 1;
    }
    e
}

/// Whether `p` is a prefix of `s`.
pub fn starts_with_exec(s: &[char], p: &[char]) -> (b: bool)
    ensures
        b == starts_with(s@, p@),
{
    let r = matches_at(s, p, 0);
    proof {
        if p@.len() <= s@.len() {
            assert(s@.subrange(0, p@.len() as int) == s@.take(p@.len() as int));
        }
    }
    r
}

/// ASCII-lowercased copy of `s`.
pub fn lower_exec(s: &[char]) -> (r: Vec<char>)
    ensures
        r@ == lower(s@),
{
    let mut out: Vec<char> = Vec::new();
    let mut i: usize = 0;
    while i < s.len()
        invariant
            i <= s@.len(),
            out@ == lower(s@.take(i as int)),
        decreases s@.len() - i,
    {
        let c = ascii_lower_char(s[i]);
        out.push(c);
        i += 1;
        assert(lower(s@.take(i as int)) =~= lower(s@.take(i - 1)).push(ascii_lower(s@[i - 1])));
    }
    assert(s@.take(s@.len() as int) =~= s@);
    out
}

/// Whether two character sequences are equal.
pub fn seq_eq(a: &[char], b: &[char]) -> (r: bool)
    ensures
        r == (a@ == b@),
{
    if a.len() != b.len() {
        return false;
    }
    let r = matches_at(a, b, 0);
    proof {
        assert(a@.subrange(0, b@.len() as int) =~= a@);
    }
    r
}

/// The lines of `s`, as `str::lines` yields them.
pub fn lines_exec(s: &[char]) -> (res: Vec<Vec<char>>)
    ensures
        views(res@) == lines(s@),
{
    let mut out: Vec<Vec<char>> = Vec::new();
    let mut pos: usize = 0;
    proof {
        assert(s@.skip(0) =~= s@);
        assert(views(out@) + lines(s@) =~= lines(s@));
    }
    while pos < s.len()
        invariant
            pos <= s@.len(),
            lines(s@) == views(out@) + lines(s@.skip(pos as int)),
        decreases s@.len() - pos,
    {
        let ghost rest = s@.skip(pos as int);
        let k = char_index_exec(s, '\n', pos);
        proof {
            lemma_char_index_skip(s@, '\n', pos as int);
            lemma_char_index_from(s@, '\n', pos as int);
        }
        if k >= s.len() {
            let line = slice_of(s, pos, s.len());
            proof {
                assert(rest =~= s@.subrange(pos as int, s@.len() as int));
                assert(lines(rest) == seq![rest]);
                assert(s@.skip(s@.len() as int) =~= Seq::<char>::empty());
                assert(views(out@.push(line)) =~= views(out@) + seq![line@]);
            }
            out.push(line);
            pos = s.len();
        } else {
            let e = if k > pos && s[k - 1] == '\r' { k - 1 } else { k };
            let line = slice_of(s, pos, e);
            proof {
                assert(rest.take(k - pos) =~= s@.subrange(pos as int, k as int));
                assert(strip_cr(rest.take(k - pos)) =~= s@.subrange(pos as int, e as int));
                assert(rest.skip(k - pos + 1) =~= s@.skip(k + 1));
                assert(views(out@.push(line)) =~= views(out@) + seq![line@]);
            }
            out.push(line);
            pos = k + 1;
        }
    }
    proof {
        assert(s@.skip(pos as int) =~= Seq::<char>::empty());
        assert(views(out@) + Seq::<Seq<char>>::empty() =~= views(out@));
    }
    out
}

/// Bound `e` with `trim_start_char(s[lo..hi], c) == s[e..hi]`.
pub fn trim_start_char_bound(s: &[char], lo: usize, hi: usize, c: char) -> (e: usize)
    requires
        lo <= hi <= s@.len(),
    ensures
        lo <= e <= hi,
        trim_start_char(s@.subrange(lo as int, hi as int), c) == s@.subrange(e as int, hi as int),
{
    let mut e = lo;
    while e < hi && s[e] == c
        invariant
            lo <= e <= hi <= s@.len(),
            trim_start_char(s@.subrange(lo as int, hi as int), c) == trim_start_char(s@.subrange(e as int, hi as int), c),
        decreases hi - e,
    {
        assert(s@.subrange(e as int, hi as int).drop_first() =~= s@.subrange(e + 1, hi as int));
        e += 1;
    }
    e
}

/// Bound `e` with `trim_end_char(s[lo..hi], c) == s[lo..e]`.
pub fn trim_end_char_bound(s: &[char], lo: usize, hi: usize, c: char) -> (e: usize)
    requires
        lo <= hi <= s@.len(),
    ensures
        lo <= e <= hi,
        trim_end_char(s@.subrange(lo as int, hi as int), c) == s@.subrange(lo as int, e as int),
{
    let mut e = hi;
    while e > lo && s[e - 1] == c
        invariant
            lo <= e <= hi <= s@.len(),
            trim_end_char(s@.subrange(lo as int, hi as int), c) == trim_end_char(s@.subrange(lo as int, e as int), c),
        decreases e - lo,
    {
        assert(s@.subrange(lo as int, e as int).drop_last() =~= s@.subrange(lo as int, e - 1));
        e -= 1;
    }
    e
}

/// Whether `a` sorts before `b`.
pub fn lex_lt_exec(a: &[char], b: &[char]) -> (r: bool)
    ensures
        r == lex_lt(a@, b@),
{
    let mut i: usize = 0;
    assert(a@.skip(0) =~= a@);
    assert(b@.skip(0) =~= b@);
    while i < a.len() && i < b.len() && a[i] == b[i]
        invariant
            i <= a@.len(),
            i <= b@.len(),
            lex_lt(a@, b@) == lex_lt(a@.skip(i as int), b@.skip(i as int)),
        decreases a@.len() - i,
    {
        assert(a@.skip(i as int).drop_first() =~= a@.skip(i + 1));
        assert(b@.skip(i as int).drop_first() =~= b@.skip(i + 1));
        i += 1;
    }
    if i == a.len() {
        i < b.len()
    } else if i == b.len() {
        false
    } else {
        a[i] < b[i]
    }
}

/// `x` inserted into the ascending, duplicate-free `v`.
pub fn insert_sorted_exec(v: &mut Vec<String>, x: String)
    ensures
        str_views(final(v)@) == insert_sorted(str_views(old(v)@), x@),
{
    let xc = chars_of(x.as_str());
    let mut i: usize = 0;
    let ghost s = str_views(v@);
    assert(s.skip(0) =~= s);
    assert(s.take(0) + insert_sorted(s, x@) =~= insert_sorted(s, x@));
    while i < v.len()
        invariant
            i <= v@.len(),
            v@ == old(v)@,
            s == str_views(v@),
            xc@ == x@,
            insert_sorted(s, x@) == s.take(i as int) + insert_sorted(s.skip(i as int), x@),
        decreases v@.len() - i,
    {
        let yc = chars_of(v[i].as_str());
        assert(s.skip(i as int)[0] == yc@);
        assert(s.skip(i as int).drop_first() =~= s.skip(i + 1));
        if seq_eq(&yc, &xc) {
            assert(insert_sorted(s.skip(i as int), x@) == s.skip(i as int));
            assert(s.take(i as int) + s.skip(i as int) =~= s);
            return;
        }
        if lex_lt_exec(&xc, &yc) {
            v.insert(i, x);
            proof {
                assert(str_views(v@) =~= s.take(i as int) + (seq![xc@] + s.skip(i as int)));
            }
            return;
        }
        proof {
            assert(s.take(i + 1) =~= s.take(i as int) + seq![s[i as int]]);
            assert(s.take(i as int) + (seq![s[i as int]] + insert_sorted(s.skip(i + 1), x@))
                =~= s.take(i + 1) + insert_sorted(s.skip(i + 1), x@));
        }
        i += 1;
    }
    proof {
        assert(s.skip(i as int) =~= Seq::<Seq<char>>::empty());
        assert(s.take(i as int) =~= s);
    }
    v.push(x);
    proof {
        assert(str_views(v@) =~= s + seq![x@]);
    }
}


/// `parts` joined with `sep` between consecutive elements.
pub fn join_exec(parts: &Vec<String>, sep: &str) -> (r: String)
    ensures
        r@ == join(str_views(parts@), sep@),
{
    let mut out: Vec<char> = Vec::new();
    let mut i: usize = 0;
    proof {
        assert(str_views(parts@).take(0) =~= Seq::<Seq<char>>::empty());
    }
    while i < parts.len()
        invariant
            i <= parts@.len(),
            out@ == join(str_views(parts@).take(i as int), sep@),
        decreases parts@.len() - i,
    {
        let ghost t = str_views(parts@).take(i + 1);
        proof {
            assert(t.drop_last() =~= str_views(parts@).take(i as int));
            assert(t.last() == parts@[i as int]@);
        }
        if i > 0 {
            push_str(&mut out, sep);
        } else {
            assert(out@ =~= Seq::<char>::empty());
        }
        push_str(&mut out, parts[i].as_str());
        proof {
            if i == 0 {
                assert(t.len() == 1);
                assert(t[0] == parts@[0]@);
                assert(out@ =~= t[0]);
            }
        }
        i += 1;
    }
    proof {
        assert(str_views(parts@).take(parts@.len() as int) =~= str_views(parts@));
    }
    string_of(&out)
}

/// `s` without the elements equal to `x`, in order.
pub open spec fn without<T>(s: Seq<T>, x: T) -> Seq<T>
    decreases s.len(),
{
    if s.len() == 0 {
        Seq::empty()
    } else if s.last() == x {
        without(s.drop_last(), x)
    } else {
        without(s.drop_last(), x).push(s.last())
    }
}

/// What `without` keeps, and when it keeps everything.
pub proof fn lemma_without<T>(s: Seq<T>, x: T, p: T)
    ensures
        without(s, x).contains(p) <==> (s.contains(p) && p != x),
        without(s, x).len() <= s.len(),
        without(s, x).len() == s.len() <==> !s.contains(x),
    decreases s.len(),
{
    if s.len() > 0 {
        let w = without(s.drop_last(), x);
        lemma_without(s.drop_last(), x, p);
        if s.drop_last().contains(p) {
            let i = choose|i: int| 0 <= i < s.drop_last().len() && s.drop_last()[i] == p;
            assert(s[i] == p);
        }
        if s.contains(p) {
            let i = choose|i: int| 0 <= i < s.len() && s[i] == p;
            if i < s.len() - 1 {
                assert(s.drop_last()[i] == p);
            }
        }
        if s.drop_last().contains(x) {
            let i = choose|i: int| 0 <= i < s.drop_last().len() && s.drop_last()[i] == x;
            assert(s[i] == x);
        }
        if s.contains(x) {
            let i = choose|i: int| 0 <= i < s.len() && s[i] == x;
            if i < s.len() - 1 {
                assert(s.drop_last()[i] == x);
            }
        }
        if s.last() != x {
            if w.push(s.last()).contains(p) {
                let i = choose|i: int| 0 <= i < w.push(s.last()).len() && w.push(s.last())[i] == p;
                if i < w.len() {
                    assert(w[i] == p);
                }
            }
            if w.contains(p) {
                let i = choose|i: int| 0 <= i < w.len() && w[i] == p;
                assert(w.push(s.last())[i] == p);
            }
            if p == s.last() {
                assert(w.push(s.last())[w.len() as int] == p);
            }
            assert(s[s.len() - 1] == s.last());
        } else {
            assert(s[s.len() - 1] == x);
        }
    }
}


/// Removing an absent element changes nothing.
pub proof fn lemma_without_noop<T>(s: Seq<T>, x: T)
    requires
        !s.contains(x),
    ensures
        without(s, x) == s,
    decreases s.len(),
{
    if s.len() > 0 {
        assert(s.drop_last().contains(x) ==> s.contains(x)) by {
            if s.drop_last().contains(x) {
                let i = choose|i: int| 0 <= i < s.drop_last().len() && s.drop_last()[i] == x;
                assert(s[i] == x);
            }
        }
        lemma_without_noop(s.drop_last(), x);
        assert(s[s.len() - 1] == s.last());
        assert(s.drop_last().push(s.last()) =~= s);
    }
}

/// A copy of a list of strings.
pub fn copy_strings(v: &Vec<String>) -> (r: Vec<String>)
    ensures
        str_views(r@) == str_views(v@),
{
    let mut out: Vec<String> = Vec::new();
    let mut i: usize = 0;
    while i < v.len()
        invariant
            i <= v@.len(),
            str_views(out@) == str_views(v@).take(i as int),
        decreases v@.len() - i,
    {
        let ghost before = str_views(out@);
        out.push(v[i].clone());
        proof {
            assert(str_views(out@) =~= before.push(v@[i as int]@));
            assert(str_views(v@).take(i + 1) =~= str_views(v@).take(i as int).push(v@[i as int]@));
        }
        i += 1;
    }
    proof {
        assert(str_views(v@).take(v@.len() as int) =~= str_views(v@));
    }
    out
}


/// What `str::to_lowercase` gives for `s` (full Unicode lowercasing).
pub uninterp spec fn unicode_lowercase(s: Seq<char>) -> Seq<char>;

/// `str::to_lowercase`: the Unicode lowercase of `s`. On ASCII text it maps
/// `A`-`Z` to `a`-`z` and keeps every other character, as std documents.
#[verifier::external_body]
pub(crate) fn to_lowercase(s: &str) -> (r: String)
    ensures
        r@ == unicode_lowercase(s@),
        (forall|i: int| 0 <= i < s@.len() ==> (#[trigger] s@[i] as u32) < 128) ==> r@ == lower(s@),
{
    s.to_lowercase()
}


/// The UTF-8 encoding of a character sequence (what `str::as_bytes` gives).
pub open spec fn utf8_of(s: Seq<char>) -> Seq<u8> {
    vstd::utf8::encode_utf8(s)
}

/// The pieces of `s` between occurrences of `c`.
pub fn split_char_exec(s: &Vec<char>, c: char) -> (r: Vec<Vec<char>>)
    ensures
        views(r@) == split_char(s@, c),
{
    let mut out: Vec<Vec<char>> = Vec::new();
    let mut pos: usize = 0;
    let n = s.len();
    proof {
        assert(s@.skip(0) =~= s@);
        assert(views(out@) + split_char(s@, c) =~= split_char(s@, c));
    }
    loop
        invariant
            n == s@.len(),
            pos <= n,
            split_char(s@, c) == views(out@) + split_char(s@.skip(pos as int), c),
        decreases n - pos,
    {
        let k = char_index_exec(s, c, pos);
        proof {
            lemma_char_index_skip(s@, c, pos as int);
            lemma_char_index_from(s@, c, pos as int);
        }
        let piece = slice_of(s, pos, k);
        let ghost rest = s@.skip(pos as int);
        if k >= n {
            proof {
                assert(piece@ =~= rest);
                assert(split_char(rest, c) == seq![rest]);
                assert(views(out@.push(piece)) =~= views(out@) + seq![piece@]);
            }
            out.push(piece);
            return out;
        }
        proof {
            assert(rest.take(k - pos) =~= piece@);
            assert(rest.skip(k - pos + 1) =~= s@.skip(k + 1));
            assert(views(out@.push(piece)) =~= views(out@) + seq![piece@]);
        }
        out.push(piece);
        pos = k + 1;
    }
}


/// The decimal digit for a value below 10.
pub open spec fn digit_char(d: nat) -> char {
    ((48 + d) as u8) as char
}

/// The decimal digits of a natural number.
pub open spec fn decimal(n: nat) -> Seq<char>
    decreases n,
{
    if n < 10 {
        seq![digit_char(n)]
    } else {
        decimal(n / 10).push(digit_char(n % 10))
    }
}

/// The decimal form of an integer, with a leading `-` when negative.
pub open spec fn int_str(n: int) -> Seq<char> {
    if n < 0 {
        seq!['-'] + decimal((-n) as nat)
    } else {
        decimal(n as nat)
    }
}

fn decimal_exec(n: u64) -> (r: Vec<char>)
    ensures
        r@ == decimal(n as nat),
    decreases n,
{
    let d: u8 = (n % 10) as u8;
    let c: char = (48u8 + d) as char;
    if n < 10 {
        let mut v: Vec<char> = Vec::new();
        v.push(c);
        assert(v@ =~= seq![digit_char(n as nat)]);
        v
    } else {
        let mut v = decimal_exec(n / 10);
        v.push(c);
        v
    }
}

/// The decimal form of an `i64` (what `to_string` prints).
pub fn i64_to_string(n: i64) -> (r: String)
    ensures
        r@ == int_str(n as int),
{
    if n < 0 {
        let m: u64 = if n == i64::MIN { 9223372036854775808u64 } else { (-n) as u64 };
        let mut v: Vec<char> = Vec::new();
        v.push('-');
        let d = decimal_exec(m);
        push_all(&mut v, &d);
        string_of(&v)
    } else {
        let d = decimal_exec(n as u64);
        string_of(&d)
    }
}

/// The decimal form of a `usize`.
pub fn usize_to_string(n: usize) -> (r: String)
    ensures
        r@ == decimal(n as nat),
{
    let d = decimal_exec(n as u64);
    string_of(&d)
}

/// The distinct strings of `v`, in ascending order.
pub fn sorted_distinct(v: &Vec<String>) -> (r: Vec<String>)
    ensures
        str_views(r@) == sort_dedup(str_views(v@)),
{
    let mut out: Vec<String> = Vec::new();
    let mut i: usize = 0;
    proof {
        assert(str_views(v@).take(0) =~= Seq::<Seq<char>>::empty());
        assert(str_views(out@) =~= Seq::<Seq<char>>::empty());
    }
    while i < v.len()
        invariant
            i <= v@.len(),
            str_views(out@) == sort_dedup(str_views(v@).take(i as int)),
        decreases v@.len() - i,
    {
        let s = v[i].clone();
        insert_sorted_exec(&mut out, s);
        proof {
            let t = str_views(v@).take(i + 1);
            assert(t.drop_last() =~= str_views(v@).take(i as int));
            assert(t.last() == v@[i as int]@);
        }
        i += 1;
    }
    proof {
        assert(str_views(v@).take(v@.len() as int) =~= str_views(v@));
    }
    out
}


/// Every non-overlapping occurrence of `p` in `s`, scanning left to right,
/// replaced by `t` (what `str::replace` does for a non-empty pattern).
pub open spec fn replace(s: Seq<char>, p: Seq<char>, t: Seq<char>) -> Seq<char>
    decreases s.len(),
{
    if s.len() == 0 {
        s
    } else if p.len() > 0 && starts_with(s, p) {
        t + replace(s.skip(p.len() as int), p, t)
    } else {
        seq![s[0]] + replace(s.skip(1), p, t)
    }
}

/// `t` before every character of `s` and after the last one (what
/// `str::replace` does for an empty pattern).
pub open spec fn interleave(s: Seq<char>, t: Seq<char>) -> Seq<char>
    decreases s.len(),
{
    if s.len() == 0 {
        t
    } else {
        t + seq![s[0]] + interleave(s.skip(1), t)
    }
}

/// What `str::replace` gives: every non-overlapping occurrence of a non-empty
/// pattern replaced, or `t` put around every character for an empty one.
pub open spec fn str_replace(s: Seq<char>, p: Seq<char>, t: Seq<char>) -> Seq<char> {
    if p.len() == 0 {
        interleave(s, t)
    } else {
        replace(s, p, t)
    }
}

/// `s` with every occurrence of `p` replaced by `t`.
pub fn replace_exec(s: &str, p: &str, t: &str) -> (r: String)
    ensures
        r@ == str_replace(s@, p@, t@),
{
    let ps = chars_of(p);
    if ps.len() == 0 {
        return interleave_exec(s, t);
    }
    let cs = chars_of(s);
    let ts = chars_of(t);
    let mut out: Vec<char> = Vec::new();
    let mut i: usize = 0;
    proof {
        assert(cs@.skip(0) =~= cs@);
        assert(out@ + replace(cs@, ps@, ts@) =~= replace(cs@, ps@, ts@));
    }
    while i < cs.len()
        invariant
            i <= cs@.len(),
            cs@ == s@,
            ps@ == p@,
            ts@ == t@,
            p@.len() > 0,
            out@ + replace(cs@.skip(i as int), ps@, ts@) == replace(s@, p@, t@),
        decreases cs@.len() - i,
    {
        let ghost rest = cs@.skip(i as int);
        if matches_at(&cs, &ps, i) {
            proof {
                assert(rest.take(ps@.len() as int) =~= cs@.subrange(i as int, i + ps@.len()));
                assert(rest.skip(ps@.len() as int) =~= cs@.skip(i + ps@.len()));
                assert(out@ + ts@ + replace(cs@.skip(i + ps@.len()), ps@, ts@)
                    =~= out@ + (ts@ + replace(rest.skip(ps@.len() as int), ps@, ts@)));
            }
            push_all(&mut out, &ts);
            i = i + ps.len();
        } else {
            proof {
                if starts_with(rest, ps@) {
                    assert(rest.take(ps@.len() as int) =~= cs@.subrange(i as int, i + ps@.len()));
                }
                assert(rest.skip(1) =~= cs@.skip(i + 1));
                assert(out@.push(cs@[i as int]) + replace(cs@.skip(i + 1), ps@, ts@)
                    =~= out@ + (seq![rest[0]] + replace(rest.skip(1), ps@, ts@)));
            }
            out.push(cs[i]);
            i += 1;
        }
    }
    proof {
        assert(cs@.skip(i as int) =~= Seq::<char>::empty());
        assert(out@ + Seq::<char>::empty() =~= out@);
    }
    string_of(&out)
}


fn interleave_exec(s: &str, t: &str) -> (r: String)
    ensures
        r@ == interleave(s@, t@),
{
    let cs = chars_of(s);
    let ts = chars_of(t);
    let mut out: Vec<char> = Vec::new();
    let mut i: usize = 0;
    proof {
        assert(cs@.skip(0) =~= cs@);
        assert(out@ + interleave(cs@, ts@) =~= interleave(cs@, ts@));
    }
    while i < cs.len()
        invariant
            i <= cs@.len(),
            cs@ == s@,
            ts@ == t@,
            out@ + interleave(cs@.skip(i as int), ts@) == interleave(s@, t@),
        decreases cs@.len() - i,
    {
        let ghost rest = cs@.skip(i as int);
        proof {
            assert(rest[0] == cs@[i as int]);
            assert(rest.skip(1) =~= cs@.skip(i + 1));
        }
        let ghost before = out@;
        push_all(&mut out, &ts);
        out.push(cs[i]);
        proof {
            assert(out@ =~= before + ts@ + seq![rest[0]]);
            assert(out@ + interleave(cs@.skip(i + 1), ts@)
                =~= before + (ts@ + seq![rest[0]] + interleave(rest.skip(1), ts@)));
        }
        i += 1;
    }
    proof {
        assert(cs@.skip(i as int) =~= Seq::<char>::empty());
    }
    push_all(&mut out, &ts);
    string_of(&out)
}


/// No sequence sorts before itself.
pub proof fn lemma_lex_irrefl(a: Seq<char>)
    ensures
        !lex_lt(a, a),
    decreases a.len(),
{
    if a.len() > 0 {
        lemma_lex_irrefl(a.drop_first());
    }
}

/// The order is transitive.
pub proof fn lemma_lex_trans(a: Seq<char>, b: Seq<char>, c: Seq<char>)
    requires
        lex_lt(a, b),
        lex_lt(b, c),
    ensures
        lex_lt(a, c),
    decreases a.len(),
{
    if a.len() > 0 && b.len() > 0 && c.len() > 0 && a[0] == b[0] && b[0] == c[0] {
        lemma_lex_trans(a.drop_first(), b.drop_first(), c.drop_first());
    }
}

/// Two different sequences are ordered one way or the other.
pub proof fn lemma_lex_total(a: Seq<char>, b: Seq<char>)
    requires
        a != b,
    ensures
        lex_lt(a, b) || lex_lt(b, a),
    decreases a.len(),
{
    if a.len() > 0 && b.len() > 0 && a[0] == b[0] {
        if a.drop_first() == b.drop_first() {
            assert(a =~= seq![a[0]] + a.drop_first());
            assert(b =~= seq![b[0]] + b.drop_first());
        }
        lemma_lex_total(a.drop_first(), b.drop_first());
    } else if a.len() == 0 && b.len() == 0 {
        assert(a =~= b);
    }
}

/// A decimal digit is one character, distinct for distinct digits.
proof fn lemma_digit_char(a: nat, b: nat)
    requires
        a < 10,
        b < 10,
        digit_char(a) == digit_char(b),
    ensures
        a == b,
{
    assert((((48 + a) as u8) as char) as int == 48 + a);
    assert((((48 + b) as u8) as char) as int == 48 + b);
}

/// The decimal form has at least one digit, and one exactly below ten.
proof fn lemma_decimal_len(n: nat)
    ensures
        decimal(n).len() >= 1,
        decimal(n).len() == 1 <==> n < 10,
    decreases n,
{
    if n >= 10 {
        lemma_decimal_len(n / 10);
    }
}

/// Different numbers have different decimal forms.
pub proof fn lemma_decimal_injective(a: nat, b: nat)
    requires
        decimal(a) == decimal(b),
    ensures
        a == b,
    decreases a,
{
    lemma_decimal_len(a);
    lemma_decimal_len(b);
    if a < 10 {
        assert(decimal(a)[0] == digit_char(a));
        assert(decimal(b)[0] == digit_char(b));
        lemma_digit_char(a, b);
    } else {
        assert(decimal(a).drop_last() =~= decimal(a / 10));
        assert(decimal(b).drop_last() =~= decimal(b / 10));
        lemma_decimal_injective(a / 10, b / 10);
        assert(decimal(a).last() == digit_char(a % 10));
        assert(decimal(b).last() == digit_char(b % 10));
        lemma_digit_char(a % 10, b % 10);
    }
}


/// A line written last, after text that is empty or ends a line, is one of
/// the lines.
pub proof fn lemma_lines_tail(q: Seq<char>, x: Seq<char>)
    requires
        q.len() == 0 || q.last() == '\n',
        no_char(x, '\n'),
        !(x.len() > 0 && x.last() == '\r'),
    ensures
        lines(q + x + seq!['\n']).contains(x),
    decreases q.len(),
{
    let s = q + x + seq!['\n'];
    if q.len() == 0 {
        assert(s =~= x + seq!['\n'] + Seq::<char>::empty());
        lemma_lines_cons(x, Seq::<char>::empty());
        assert(lines(s)[0] == x);
    } else {
        lemma_char_index_from(q, '\n', 0);
        lemma_char_index_from(s, '\n', 0);
        let k = char_index_from(q, '\n', 0);
        assert(k < q.len()) by {
            if k >= q.len() {
                assert(q[q.len() - 1] == '\n');
            }
        }
        let ks = char_index_from(s, '\n', 0);
        if ks < k {
            assert(s[ks] == q[ks]);
        }
        if ks > k {
            assert(s[k] == q[k]);
        }
        assert(ks == k);
        let q2 = q.skip(k + 1);
        assert(s.skip(k + 1) =~= q2 + x + seq!['\n']);
        if q2.len() > 0 {
            assert(q2.last() == q.last());
        }
        lemma_lines_tail(q2, x);
        assert(lines(s) == seq![strip_cr(s.take(k))] + lines(s.skip(k + 1)));
        let j = choose|j: int| 0 <= j < lines(q2 + x + seq!['\n']).len() && lines(q2 + x + seq!['\n'])[j] == x;
        assert(lines(s)[j + 1] == x);
    }
}


/// The first `c` in `a + b` from `i`, when `a` holds none from `i` on, is in `b`.
pub proof fn lemma_char_index_concat(a: Seq<char>, b: Seq<char>, c: char, i: int)
    requires
        0 <= i <= a.len(),
        forall|j: int| i <= j < a.len() ==> a[j] != c,
    ensures
        char_index_from(a + b, c, i) == a.len() + char_index_from(b, c, 0),
    decreases a.len() - i,
{
    if i < a.len() {
        lemma_char_index_concat(a, b, c, i + 1);
    } else {
        lemma_char_index_shift(a, b, c, 0);
    }
}

/// Searching `a + b` from inside `b` is searching `b`, shifted.
pub proof fn lemma_char_index_shift(a: Seq<char>, b: Seq<char>, c: char, j: int)
    requires
        0 <= j <= b.len(),
    ensures
        char_index_from(a + b, c, a.len() + j) == a.len() + char_index_from(b, c, j),
    decreases b.len() - j,
{
    if j < b.len() {
        assert((a + b)[a.len() + j] == b[j]);
        lemma_char_index_shift(a, b, c, j + 1);
    }
}


/// A character found inside `a` is found at the same place in `a + b`.
pub proof fn lemma_char_index_prefix(a: Seq<char>, b: Seq<char>, c: char, i: int)
    requires
        0 <= i,
        char_index_from(a, c, i) < a.len(),
    ensures
        char_index_from(a + b, c, i) == char_index_from(a, c, i),
    decreases a.len() - i,
{
    if i < a.len() && a[i] != c {
        assert((a + b)[i] == a[i]);
        lemma_char_index_prefix(a, b, c, i + 1);
    } else if i < a.len() {
        assert((a + b)[i] == a[i]);
    }
}

/// Text that ends at a line break splits into its own lines, then the rest's.
pub proof fn lemma_lines_append(a: Seq<char>, b: Seq<char>)
    requires
        a.len() == 0 || a.last() == '\n',
    ensures
        lines(a + b) == lines(a) + lines(b),
    decreases a.len(),
{
    if a.len() == 0 {
        assert(a + b =~= b);
        assert(lines(a) + lines(b) =~= lines(b));
    } else {
        lemma_char_index_from(a, '\n', 0);
        let k = char_index_from(a, '\n', 0);
        if k >= a.len() {
            assert(a[a.len() - 1] == '\n');
            assert(false);
        }
        lemma_char_index_prefix(a, b, '\n', 0);
        let s = a + b;
        assert(s.take(k) =~= a.take(k));
        assert(s.skip(k + 1) =~= a.skip(k + 1) + b);
        let r = a.skip(k + 1);
        if r.len() > 0 {
            assert(r.last() == a.last());
        }
        lemma_lines_append(r, b);
        assert(lines(s) =~= seq![strip_cr(a.take(k))] + (lines(r) + lines(b)));
        assert(lines(a) =~= seq![strip_cr(a.take(k))] + lines(r));
        assert(lines(a) + lines(b) =~= seq![strip_cr(a.take(k))] + (lines(r) + lines(b)));
    }
}

/// Ending unterminated text with a line break only drops a `\r` closing its
/// last line.
pub proof fn lemma_lines_newline(c: Seq<char>)
    requires
        c.len() > 0,
        c.last() != '\n',
    ensures
        lines(c).len() > 0,
        lines(c + seq!['\n']) == lines(c).drop_last().push(strip_cr(lines(c).last())),
    decreases c.len(),
{
    lemma_char_index_from(c, '\n', 0);
    let k = char_index_from(c, '\n', 0);
    let s = c + seq!['\n'];
    if k >= c.len() {
        lemma_char_index_concat(c, seq!['\n'], '\n', 0);
        assert(char_index_from(seq!['\n'], '\n', 0) == 0);
        assert(s.take(c.len() as int) =~= c);
        assert(s.skip(c.len() as int + 1) =~= Seq::<char>::empty());
        assert(char_index_from(s, '\n', 0) == c.len());
        assert(lines(s.skip(c.len() as int + 1)) =~= Seq::<Seq<char>>::empty());
        assert(lines(s) =~= seq![strip_cr(c)]);
    } else {
        lemma_char_index_prefix(c, seq!['\n'], '\n', 0);
        let r = c.skip(k + 1);
        if k == c.len() - 1 {
            assert(c[k] == c.last());
            assert(false);
        }
        assert(r.last() == c.last());
        assert(s.take(k) =~= c.take(k));
        assert(s.skip(k + 1) =~= r + seq!['\n']);
        lemma_lines_newline(r);
        let h = strip_cr(c.take(k));
        assert(lines(c) =~= seq![h] + lines(r));
        assert(lines(s) =~= seq![h] + lines(r + seq!['\n']));
        assert(lines(c).last() == lines(r).last());
        assert(lines(c).drop_last() =~= seq![h] + lines(r).drop_last());
        assert(lines(s) =~= lines(c).drop_last().push(strip_cr(lines(c).last())));
    }
}

/// Dropping a trailing blank does not change the trimmed text.
pub proof fn lemma_trim_drop_space(s: Seq<char>)
    requires
        s.len() > 0,
        is_space(s.last()),
    ensures
        trim(s.drop_last()) == trim(s),
    decreases s.len(),
{
    if is_space(s[0]) {
        if s.len() == 1 {
            assert(s.drop_first() =~= Seq::<char>::empty());
            assert(s.drop_last() =~= Seq::<char>::empty());
        } else {
            let t = s.drop_first();
            assert(t.last() == s.last());
            lemma_trim_drop_space(t);
            assert(s.drop_last()[0] == s[0]);
            assert(s.drop_last().drop_first() =~= t.drop_last());
        }
    } else {
        if s.len() == 1 {
            assert(s[0] == s.last());
        }
        assert(s.drop_last()[0] == s[0]);
    }
}

/// Text is blank exactly when trimming its end leaves nothing.
pub proof fn lemma_blank_trim(s: Seq<char>)
    ensures
        (trim(s).len() == 0) == (trim_end(s).len() == 0),
{
    lemma_trim_start_len(s);
    let t = trim_start(s);
    lemma_trim_end_len(t);
    lemma_trim_end_len(s);
    let n = s.len() - t.len();
    if trim_end(t).len() == 0 && trim_end(s).len() > 0 {
        let m = trim_end(s).len() - 1;
        assert(trim_end(s).last() == s[m]);
        if m >= n {
            assert(t[m - n] == s[m]);
        }
    }
    if trim_end(s).len() == 0 && trim_end(t).len() > 0 {
        let m = trim_end(t).len() - 1;
        assert(trim_end(t).last() == t[m]);
        assert(t[m] == s[m + n]);
    }
}


/// Trimming leading copies of `c` leaves a suffix.
pub proof fn lemma_trim_start_char_suffix(s: Seq<char>, c: char)
    ensures
        trim_start_char(s, c).len() <= s.len(),
        trim_start_char(s, c) == s.skip(s.len() - trim_start_char(s, c).len()),
    decreases s.len(),
{
    if s.len() > 0 && s[0] == c {
        lemma_trim_start_char_suffix(s.drop_first(), c);
        let r = trim_start_char(s, c);
        assert(s.drop_first().skip(s.drop_first().len() - r.len()) =~= s.skip(s.len() - r.len()));
    } else {
        assert(s.skip(0) =~= s);
    }
}


/// Encoding a concatenation encodes each part in turn.
pub proof fn lemma_utf8_concat(a: Seq<char>, b: Seq<char>)
    ensures
        utf8_of(a + b) == utf8_of(a) + utf8_of(b),
    decreases a.len(),
{
    if a.len() == 0 {
        assert(a + b =~= b);
        assert(utf8_of(a) =~= Seq::<u8>::empty());
        assert(utf8_of(a) + utf8_of(b) =~= utf8_of(b));
    } else {
        lemma_utf8_concat(a.drop_first(), b);
        assert((a + b).drop_first() =~= a.drop_first() + b);
        assert((a + b)[0] == a[0]);
    }
}

/// The number of UTF-8 bytes of the first `k` characters of `s`.
pub open spec fn byte_offset(s: Seq<char>, k: int) -> int {
    utf8_of(s.take(k)).len() as int
}

/// One more character adds its encoding's length; offsets grow with `k` up to
/// the length of the whole encoding.
pub proof fn lemma_byte_offset_step(s: Seq<char>, k: int)
    requires
        0 <= k < s.len(),
    ensures
        byte_offset(s, k + 1) == byte_offset(s, k) + vstd::utf8::encode_scalar(s[k] as u32).len(),
        byte_offset(s, k + 1) <= utf8_of(s).len(),
{
    assert(s.take(k + 1) =~= s.take(k) + seq![s[k]]);
    lemma_utf8_concat(s.take(k), seq![s[k]]);
    let one = seq![s[k]];
    assert(one.drop_first() =~= Seq::<char>::empty());
    assert(vstd::utf8::encode_utf8(one.drop_first()) == vstd::utf8::encode_utf8(Seq::<char>::empty()));
    assert(vstd::utf8::encode_utf8(Seq::<char>::empty()) =~= Seq::<u8>::empty());
    assert(one[0] == s[k]);
    assert(utf8_of(one) =~= vstd::utf8::encode_scalar(s[k] as u32) + Seq::<u8>::empty());
    assert(s =~= s.take(k + 1) + s.skip(k + 1));
    lemma_utf8_concat(s.take(k + 1), s.skip(k + 1));
}

/// The UTF-8 length of one character.
pub fn utf8_len(c: char) -> (n: usize)
    ensures
        n == vstd::utf8::encode_scalar(c as u32).len(),
        1 <= n <= 4,
{
    proof {
        vstd::utf8::char_is_scalar(c);
    }
    let u = c as u32;
    if u < 0x80 {
        1
    } else if u < 0x800 {
        2
    } else if u < 0x10000 {
        3
    } else {
        4
    }
}

} // verus!
