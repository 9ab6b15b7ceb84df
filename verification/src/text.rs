//! Character-level text operations with their specifications: searching for a
//! pattern, replacing, trimming trailing whitespace, and moving between `&str`,
//! `String` and `Vec<char>`.
//!
//! Positions are counted in `char`s. Every pattern searched for in this crate is
//! a whole, valid string, so a match found on characters is a match found on the
//! UTF-8 bytes and the other way round.
use vstd::prelude::*;

verus! {

/// `pat` occurs in `s` starting at position `i`.
pub open spec fn matches_at(s: Seq<char>, pat: Seq<char>, i: int) -> bool {
    &&& 0 <= i
    &&& i + pat.len() <= s.len()
    &&& s.subrange(i, i + pat.len()) == pat
}

/// The first position at or after `from` where `pat` occurs in `s` (as `str::find`
/// applied to the part of `s` that starts at `from`).
pub open spec fn find_from(s: Seq<char>, pat: Seq<char>, from: int) -> Option<int>
    decreases s.len() + 1 - from,
{
    if from < 0 || from + pat.len() > s.len() {
        None
    } else if matches_at(s, pat, from) {
        Some(from)
    } else {
        find_from(s, pat, from + 1)
    }
}

/// `s` contains `pat` somewhere.
pub open spec fn contains(s: Seq<char>, pat: Seq<char>) -> bool {
    find_from(s, pat, 0) is Some
}

/// The last position at or before `k` where `pat` occurs in `s`.
pub open spec fn rfind_upto(s: Seq<char>, pat: Seq<char>, k: int) -> Option<int>
    decreases k + 1,
{
    if k < 0 {
        None
    } else if matches_at(s, pat, k) {
        Some(k)
    } else {
        rfind_upto(s, pat, k - 1)
    }
}

/// The last position where `pat` occurs in `s` (as `str::rfind`).
pub open spec fn rfind(s: Seq<char>, pat: Seq<char>) -> Option<int> {
    rfind_upto(s, pat, s.len() - pat.len())
}

/// `str::replace`: every non-overlapping occurrence of `from`, taken left to right,
/// replaced by `to`.
pub open spec fn replace_all(s: Seq<char>, from: Seq<char>, to: Seq<char>) -> Seq<char>
    decreases s.len(),
{
    if from.len() == 0 {
        s
    } else {
        match find_from(s, from, 0) {
            None => s,
            Some(i) => {
                proof {
                    lemma_find_from(s, from, 0);
                }
                s.subrange(0, i) + to + replace_all(
                s.subrange(i + from.len(), s.len() as int),
                    from,
                    to,
                )
            },
        }
    }
}

/// Replacing in two strings laid end to end is replacing in each, when no
/// occurrence straddles the place where they meet.
pub proof fn lemma_replace_all_concat(x: Seq<char>, y: Seq<char>, k: Seq<char>, v: Seq<char>)
    requires
        k.len() > 0,
        forall|i: int| 0 <= i < x.len() && i + k.len() > x.len() ==> !#[trigger] matches_at(x + y, k, i),
    ensures
        replace_all(x + y, k, v) == replace_all(x, k, v) + replace_all(y, k, v),
    decreases x.len(),
{
    let s = x + y;
    let n = k.len() as int;
    lemma_find_from(x, k, 0);
    lemma_find_from(y, k, 0);
    lemma_find_from(s, k, 0);
    match find_from(x, k, 0) {
        Some(i) => {
            assert forall|j: int| 0 <= j < i implies !#[trigger] matches_at(s, k, j) by {
                if j + n <= x.len() {
                    lemma_matches_in_prefix(x, y, k, j);
                }
            }
            lemma_matches_in_prefix(x, y, k, i);
            lemma_find_from_is(s, k, 0, i);
            let x2 = x.subrange(i + n, x.len() as int);
            assert(s.subrange(i + n, s.len() as int) =~= x2 + y);
            assert forall|j: int| 0 <= j < x2.len() && j + n > x2.len() implies !#[trigger] matches_at(
                x2 + y,
                k,
                j,
            ) by {
                let pre = x.subrange(0, i + n);
                assert(s =~= pre + (x2 + y));
                lemma_matches_in_suffix(pre, x2 + y, k, j);
                assert(!matches_at(s, k, i + n + j));
            }
            lemma_replace_all_concat(x2, y, k, v);
            assert(s.subrange(0, i) =~= x.subrange(0, i));
            assert(replace_all(s, k, v) =~= replace_all(x, k, v) + replace_all(y, k, v));
        },
        None => {
            assert forall|j: int| 0 <= j < x.len() implies !#[trigger] matches_at(s, k, j) by {
                if j + n <= x.len() {
                    lemma_matches_in_prefix(x, y, k, j);
                }
            }
            assert forall|j: int| 0 <= j implies #[trigger] matches_at(s, k, x.len() + j) == matches_at(y, k, j) by {
                lemma_matches_in_suffix(x, y, k, j);
            }
            match find_from(y, k, 0) {
                Some(j) => {
                    assert(matches_at(s, k, x.len() + j));
                    assert forall|m: int| 0 <= m < x.len() + j implies !#[trigger] matches_at(s, k, m) by {
                        if m >= x.len() {
                            assert(matches_at(s, k, x.len() + (m - x.len())) == matches_at(y, k, m - x.len()));
                        }
                    }
                    lemma_find_from_is(s, k, 0, x.len() + j);
                    assert(s.subrange(0, x.len() + j) =~= x + y.subrange(0, j));
                    assert(s.subrange(x.len() + j + n, s.len() as int) =~= y.subrange(j + n, y.len() as int));
                    assert(replace_all(s, k, v) =~= x + replace_all(y, k, v));
                },
                None => {
                    assert forall|m: int| 0 <= m implies !#[trigger] matches_at(s, k, m) by {
                        if m >= x.len() {
                            assert(matches_at(s, k, x.len() + (m - x.len())) == matches_at(y, k, m - x.len()));
                        }
                    }
                    lemma_find_from_none(s, k, 0);
                },
            }
        },
    }
}

/// A string with no occurrence of `k` is left as it is.
pub proof fn lemma_replace_all_absent(s: Seq<char>, k: Seq<char>, v: Seq<char>)
    requires
        forall|i: int| 0 <= i ==> !#[trigger] matches_at(s, k, i),
    ensures
        replace_all(s, k, v) == s,
{
    lemma_find_from_none(s, k, 0);
}

/// The characters that have the Unicode `White_Space` property, which is what
/// `char::is_whitespace` tests.
pub open spec fn is_white_space(c: char) -> bool {
    ||| '\u{9}' <= c <= '\u{d}'
    ||| c == ' '
    ||| c == '\u{85}'
    ||| c == '\u{a0}'
    ||| c == '\u{1680}'
    ||| '\u{2000}' <= c <= '\u{200a}'
    ||| c == '\u{2028}'
    ||| c == '\u{2029}'
    ||| c == '\u{202f}'
    ||| c == '\u{205f}'
    ||| c == '\u{3000}'
}

/// `str::trim_end`: `s` without its trailing white space.
pub open spec fn trim_end(s: Seq<char>) -> Seq<char>
    decreases s.len(),
{
    if s.len() > 0 && is_white_space(s.last()) {
        trim_end(s.drop_last())
    } else {
        s
    }
}

/// `str::trim_start`: `s` without its leading white space.
pub open spec fn trim_start(s: Seq<char>) -> Seq<char>
    decreases s.len(),
{
    if s.len() > 0 && is_white_space(s[0]) {
        trim_start(s.drop_first())
    } else {
        s
    }
}

/// `str::trim`: white space removed at both ends.
pub open spec fn trim(s: Seq<char>) -> Seq<char> {
    trim_start(trim_end(s))
}

/// No character of `s` is `c`.
pub open spec fn lacks_char(s: Seq<char>, c: char) -> bool {
    forall|i: int| 0 <= i < s.len() ==> s[i] != c
}

// ---------------------------------------------------------------------------
// Lemmas on searching
// ---------------------------------------------------------------------------

/// What `find_from` returns: the first match at or after `from`, or none at all.
pub proof fn lemma_find_from(s: Seq<char>, pat: Seq<char>, from: int)
    requires
        0 <= from,
    ensures
        match find_from(s, pat, from) {
            Some(i) => from <= i && matches_at(s, pat, i) && forall|j: int|
                from <= j < i ==> !#[trigger] matches_at(s, pat, j),
            None => forall|j: int| from <= j ==> !#[trigger] matches_at(s, pat, j),
        },
    decreases s.len() + 1 - from,
{
    if from + pat.len() > s.len() {
    } else if matches_at(s, pat, from) {
    } else {
        lemma_find_from(s, pat, from + 1);
    }
}

/// A match at `j` (at or after `from`) makes `find_from` find one no later than `j`.
pub proof fn lemma_find_from_some(s: Seq<char>, pat: Seq<char>, from: int, j: int)
    requires
        0 <= from <= j,
        matches_at(s, pat, j),
    ensures
        find_from(s, pat, from) matches Some(i) && from <= i <= j,
{
    lemma_find_from(s, pat, from);
}

/// Characterises `find_from` by the first match.
pub proof fn lemma_find_from_is(s: Seq<char>, pat: Seq<char>, from: int, i: int)
    requires
        0 <= from <= i,
        matches_at(s, pat, i),
        forall|j: int| from <= j < i ==> !#[trigger] matches_at(s, pat, j),
    ensures
        find_from(s, pat, from) == Some(i),
{
    lemma_find_from(s, pat, from);
}

/// Characterises an absent match.
pub proof fn lemma_find_from_none(s: Seq<char>, pat: Seq<char>, from: int)
    requires
        0 <= from,
        forall|j: int| from <= j ==> !#[trigger] matches_at(s, pat, j),
    ensures
        find_from(s, pat, from) is None,
{
    lemma_find_from(s, pat, from);
}

/// What `rfind_upto` returns: the last match at or before `k`.
pub proof fn lemma_rfind_upto(s: Seq<char>, pat: Seq<char>, k: int)
    ensures
        match rfind_upto(s, pat, k) {
            Some(i) => 0 <= i <= k && matches_at(s, pat, i) && forall|j: int|
                i < j <= k ==> !#[trigger] matches_at(s, pat, j),
            None => forall|j: int| j <= k ==> !#[trigger] matches_at(s, pat, j),
        },
    decreases k + 1,
{
    if k >= 0 && !matches_at(s, pat, k) {
        lemma_rfind_upto(s, pat, k - 1);
    }
}

/// What `rfind` returns: the last match in the whole of `s`.
pub proof fn lemma_rfind(s: Seq<char>, pat: Seq<char>)
    ensures
        match rfind(s, pat) {
            Some(i) => matches_at(s, pat, i) && forall|j: int|
                i < j ==> !#[trigger] matches_at(s, pat, j),
            None => forall|j: int| !#[trigger] matches_at(s, pat, j),
        },
{
    lemma_rfind_upto(s, pat, s.len() - pat.len());
}

/// A match inside `a` is a match inside `a + b`, and the other way round for a
/// match that ends within `a`.
pub proof fn lemma_matches_in_prefix(a: Seq<char>, b: Seq<char>, pat: Seq<char>, i: int)
    requires
        0 <= i,
        i + pat.len() <= a.len(),
    ensures
        matches_at(a + b, pat, i) == matches_at(a, pat, i),
{
    assert((a + b).subrange(i, i + pat.len()) =~= a.subrange(i, i + pat.len()));
}

/// A match inside `b` shifted by the length of `a`.
pub proof fn lemma_matches_in_suffix(a: Seq<char>, b: Seq<char>, pat: Seq<char>, i: int)
    requires
        0 <= i,
    ensures
        matches_at(a + b, pat, a.len() + i) == matches_at(b, pat, i),
{
    if i + pat.len() <= b.len() {
        assert((a + b).subrange(a.len() + i, a.len() + i + pat.len()) =~= b.subrange(
            i,
            i + pat.len(),
        ));
    }
}

/// The characters of a match.
pub proof fn lemma_match_char(s: Seq<char>, pat: Seq<char>, i: int, k: int)
    requires
        matches_at(s, pat, i),
        0 <= k < pat.len(),
    ensures
        s[i + k] == pat[k],
{
    assert(s.subrange(i, i + pat.len())[k] == s[i + k]);
}

/// A string without `pat` has no match in any of its prefixes.
pub proof fn lemma_contains_prefix(s: Seq<char>, n: int, pat: Seq<char>)
    requires
        0 <= n <= s.len(),
        !contains(s, pat),
    ensures
        !contains(s.subrange(0, n), pat),
{
    lemma_find_from(s, pat, 0);
    lemma_find_from(s.subrange(0, n), pat, 0);
    if contains(s.subrange(0, n), pat) {
        let i = find_from(s.subrange(0, n), pat, 0)->0;
        assert(s =~= s.subrange(0, n) + s.subrange(n, s.len() as int));
        lemma_matches_in_prefix(s.subrange(0, n), s.subrange(n, s.len() as int), pat, i);
    }
}

/// Searching in a suffix is searching in the whole, shifted.
pub proof fn lemma_find_from_suffix(s: Seq<char>, pat: Seq<char>, p: int, from: int)
    requires
        0 <= p <= s.len(),
        0 <= from,
    ensures
        find_from(s.subrange(p, s.len() as int), pat, from) == match find_from(
            s,
            pat,
            p + from,
        ) {
            Some(i) => Some(i - p),
            None => None::<int>,
        },
    decreases s.len() + 1 - p - from,
{
    let t = s.subrange(p, s.len() as int);
    if from + pat.len() <= t.len() {
        assert(t.subrange(from, from + pat.len()) =~= s.subrange(p + from, p + from + pat.len()));
        if !matches_at(t, pat, from) {
            lemma_find_from_suffix(s, pat, p, from + 1);
        }
    }
}

// ---------------------------------------------------------------------------
// Lemmas on trimming and replacing
// ---------------------------------------------------------------------------

/// `trim_end` keeps a prefix of its argument and drops only white space.
pub proof fn lemma_trim_end(s: Seq<char>)
    ensures
        trim_end(s).len() <= s.len(),
        trim_end(s) == s.subrange(0, trim_end(s).len() as int),
        forall|i: int| trim_end(s).len() <= i < s.len() ==> is_white_space(#[trigger] s[i]),
        trim_end(s).len() > 0 ==> !is_white_space(trim_end(s).last()),
    decreases s.len(),
{
    if s.len() > 0 && is_white_space(s.last()) {
        lemma_trim_end(s.drop_last());
        assert(trim_end(s) == trim_end(s.drop_last()));
        assert forall|i: int| trim_end(s).len() <= i < s.len() implies is_white_space(
            #[trigger] s[i],
        ) by {
            if i < s.len() - 1 {
                assert(s[i] == s.drop_last()[i]);
            }
        }
        assert(s.drop_last().subrange(0, trim_end(s).len() as int) =~= s.subrange(
            0,
            trim_end(s).len() as int,
        ));
    } else {
        assert(s.subrange(0, s.len() as int) =~= s);
    }
}

/// White space appended to a string is trimmed away again.
pub proof fn lemma_trim_end_append_space(s: Seq<char>, w: Seq<char>)
    requires
        forall|i: int| 0 <= i < w.len() ==> is_white_space(#[trigger] w[i]),
    ensures
        trim_end(s + w) == trim_end(s),
    decreases w.len(),
{
    if w.len() == 0 {
        assert(s + w =~= s);
    } else {
        assert((s + w).drop_last() =~= s + w.drop_last());
        lemma_trim_end_append_space(s, w.drop_last());
    }
}

/// A string that ends in something other than white space is its own `trim_end`.
pub proof fn lemma_trim_end_fixed(s: Seq<char>)
    requires
        s.len() == 0 || !is_white_space(s.last()),
    ensures
        trim_end(s) == s,
{
}

/// `trim_end` of `trim_end` changes nothing.
pub proof fn lemma_trim_end_idempotent(s: Seq<char>)
    ensures
        trim_end(trim_end(s)) == trim_end(s),
{
    lemma_trim_end(s);
    lemma_trim_end_fixed(trim_end(s));
}

/// Replacing keeps a character absent when neither the string nor the replacement
/// holds it.
pub proof fn lemma_replace_all_lacks(s: Seq<char>, from: Seq<char>, to: Seq<char>, c: char)
    requires
        lacks_char(s, c),
        lacks_char(to, c),
    ensures
        lacks_char(replace_all(s, from, to), c),
    decreases s.len(),
{
    if from.len() != 0 {
        if let Some(i) = find_from(s, from, 0) {
            lemma_find_from(s, from, 0);
            let rest = s.subrange(i + from.len(), s.len() as int);
            lemma_replace_all_lacks(rest, from, to, c);
            let r = replace_all(s, from, to);
            assert(r == s.subrange(0, i) + to + replace_all(rest, from, to));
            assert forall|k: int| 0 <= k < r.len() implies r[k] != c by {
                if k < i {
                    assert(r[k] == s[k]);
                } else if k < i + to.len() {
                    assert(r[k] == to[k - i]);
                } else {
                    assert(r[k] == replace_all(rest, from, to)[k - i - to.len()]);
                }
            }
        }
    }
}

// ---------------------------------------------------------------------------
// Executable operations
// ---------------------------------------------------------------------------

/// The characters of `s`, in order.
pub fn chars_of(s: &str) -> (v: Vec<char>)
    ensures
        v@ == s@,
{
    let mut v: Vec<char> = Vec::new();
    for c in it: s.chars()
        invariant
            it.seq() == s@,
            v@ == s@.take(it.index() as int),
    {
        v.push(c);
        assert(s@.take(it.index() + 1) =~= v@);
    }
    assert(v@ =~= s@);
    v
}

/// The `String` made of the characters in `v` (`String::from_iter`).
#[verifier::external_body]
pub(crate) fn string_of(v: &Vec<char>) -> (s: String)
    ensures
        s@ == v@,
{
    String::from_iter(v.iter())
}

/// Whether `pat` occurs in `s` at position `i`.
pub fn matches_at_exec(s: &Vec<char>, pat: &Vec<char>, i: usize) -> (r: bool)
    ensures
        r == matches_at(s@, pat@, i as int),
{
    if i > s.len() || pat.len() > s.len() - i {
        return false;
    }
    let mut k: usize = 0;
    while k < pat.len()
        invariant
            i + pat.len() <= s.len(),
            k <= pat@.len(),
            forall|j: int| 0 <= j < k ==> s@[i + j] == pat@[j],
        decreases pat@.len() - k,
    {
        if s[i + k] != pat[k] {
            assert(s@.subrange(i as int, i + pat@.len())[k as int] != pat@[k as int]);
            return false;
        }
        k = k + 1;
    }
    assert(s@.subrange(i as int, i + pat@.len()) =~= pat@);
    true
}

/// `find_from` computed: the first match of `pat` at or after `from`.
pub fn find_exec(s: &Vec<char>, pat: &Vec<char>, from: usize) -> (r: Option<usize>)
    ensures
        match r {
            Some(i) => find_from(s@, pat@, from as int) == Some(i as int),
            None => find_from(s@, pat@, from as int) is None,
        },
{
    let mut i = from;
    while i <= s.len() && pat.len() <= s.len() - i
        invariant
            from <= i,
            find_from(s@, pat@, from as int) == find_from(s@, pat@, i as int),
        decreases s@.len() + 1 - i,
    {
        if matches_at_exec(s, pat, i) {
            return Some(i);
        }
        if i == s.len() {
            assert(find_from(s@, pat@, i + 1) is None);
            return None;
        }
        i = i + 1;
    }
    None
}

/// `rfind` computed: the last match of `pat` in `s`.
pub fn rfind_exec(s: &Vec<char>, pat: &Vec<char>) -> (r: Option<usize>)
    ensures
        match r {
            Some(i) => rfind(s@, pat@) == Some(i as int),
            None => rfind(s@, pat@) is None,
        },
{
    if pat.len() > s.len() {
        return None;
    }
    let mut k = s.len() - pat.len();
    loop
        invariant
            k + pat@.len() <= s@.len(),
            rfind(s@, pat@) == rfind_upto(s@, pat@, k as int),
        decreases k,
    {
        if matches_at_exec(s, pat, k) {
            return Some(k);
        }
        if k == 0 {
            assert(rfind_upto(s@, pat@, -1) is None);
            return None;
        }
        k = k - 1;
    }
}

/// Whether `pat` occurs anywhere in `s`.
pub fn contains_exec(s: &Vec<char>, pat: &Vec<char>) -> (r: bool)
    ensures
        r == contains(s@, pat@),
{
    find_exec(s, pat, 0).is_some()
}

/// The characters `s[lo..hi]`.
pub fn slice_chars(s: &Vec<char>, lo: usize, hi: usize) -> (r: Vec<char>)
    requires
        lo <= hi <= s@.len(),
    ensures
        r@ == s@.subrange(lo as int, hi as int),
{
    let mut r: Vec<char> = Vec::new();
    let mut i = lo;
    while i < hi
        invariant
            lo <= i <= hi <= s@.len(),
            r@ == s@.subrange(lo as int, i as int),
        decreases hi - i,
    {
        r.push(s[i]);
        i = i + 1;
        assert(r@ =~= s@.subrange(lo as int, i as int));
    }
    r
}

/// Appends the characters `t[lo..hi]` to `out`.
pub fn push_chars(out: &mut Vec<char>, t: &Vec<char>, lo: usize, hi: usize)
    requires
        lo <= hi <= t@.len(),
    ensures
        final(out)@ == old(out)@ + t@.subrange(lo as int, hi as int),
{
    let mut i = lo;
    while i < hi
        invariant
            lo <= i <= hi <= t@.len(),
            out@ == old(out)@ + t@.subrange(lo as int, i as int),
        decreases hi - i,
    {
        out.push(t[i]);
        i = i + 1;
        assert(out@ =~= old(out)@ + t@.subrange(lo as int, i as int));
    }
}

/// Appends all of `t` to `out`.
pub fn push_all(out: &mut Vec<char>, t: &Vec<char>)
    ensures
        final(out)@ == old(out)@ + t@,
{
    push_chars(out, t, 0, t.len());
    assert(t@.subrange(0, t@.len() as int) =~= t@);
}

/// `str::replace` on characters.
pub fn replace_all_exec(s: &Vec<char>, from: &Vec<char>, to: &Vec<char>) -> (r: Vec<char>)
    requires
        from@.len() > 0,
    ensures
        r@ == replace_all(s@, from@, to@),
{
    let n = s.len();
    let mut out: Vec<char> = Vec::new();
    let mut pos: usize = 0;
    assert(s@.subrange(0, s@.len() as int) =~= s@);
    loop
        invariant
            from@.len() > 0,
            n == s@.len(),
            pos <= s@.len(),
            replace_all(s@, from@, to@) == out@ + replace_all(
                s@.subrange(pos as int, s@.len() as int),
                from@,
                to@,
            ),
        decreases s@.len() - pos,
    {
        let ghost rest = s@.subrange(pos as int, s@.len() as int);
        proof {
            lemma_find_from_suffix(s@, from@, pos as int, 0);
        }
        match find_exec(s, from, pos) {
            None => {
                push_chars(&mut out, s, pos, s.len());
                return out;
            },
            Some(i) => {
                proof {
                    lemma_find_from(s@, from@, pos as int);
                    assert(i + from@.len() <= s@.len());
                    let j = i - pos;
                    assert(rest.subrange(0, j) =~= s@.subrange(pos as int, i as int));
                    assert(rest.subrange(j + from@.len(), rest.len() as int) =~= s@.subrange(
                        i + from@.len(),
                        s@.len() as int,
                    ));
                }
                push_chars(&mut out, s, pos, i);
                push_all(&mut out, to);
                pos = i + from.len();
            },
        }
    }
}

/// `str::trim_end` on characters: the length of the kept prefix.
pub fn trim_end_len(s: &Vec<char>) -> (n: usize)
    ensures
        n == trim_end(s@).len(),
{
    let mut n = s.len();
    proof {
        assert(s@.subrange(0, n as int) =~= s@);
    }
    while n > 0 && is_white_space_exec(s[n - 1])
        invariant
            n <= s@.len(),
            trim_end(s@) == trim_end(s@.subrange(0, n as int)),
        decreases n,
    {
        assert(s@.subrange(0, n as int).drop_last() =~= s@.subrange(0, n - 1));
        n = n - 1;
    }
    proof {
        lemma_trim_end_fixed(s@.subrange(0, n as int));
    }
    n
}

/// `str::trim_start` on characters: the number of leading white-space characters.
pub fn trim_start_len(s: &Vec<char>, lo: usize, hi: usize) -> (n: usize)
    requires
        lo <= hi <= s@.len(),
    ensures
        lo <= n <= hi,
        trim_start(s@.subrange(lo as int, hi as int)) == s@.subrange(n as int, hi as int),
{
    let mut n = lo;
    while n < hi && is_white_space_exec(s[n])
        invariant
            lo <= n <= hi <= s@.len(),
            trim_start(s@.subrange(lo as int, hi as int)) == trim_start(
                s@.subrange(n as int, hi as int),
            ),
        decreases hi - n,
    {
        assert(s@.subrange(n as int, hi as int).drop_first() =~= s@.subrange(n + 1, hi as int));
        n = n + 1;
    }
    n
}

/// `char::is_whitespace`.
pub fn is_white_space_exec(c: char) -> (r: bool)
    ensures
        r == is_white_space(c),
{
    ('\u{9}' <= c && c <= '\u{d}') || c == ' ' || c == '\u{85}' || c == '\u{a0}' || c
        == '\u{1680}' || ('\u{2000}' <= c && c <= '\u{200a}') || c == '\u{2028}' || c
        == '\u{2029}' || c == '\u{202f}' || c == '\u{205f}' || c == '\u{3000}'
}

} // verus!
