//! Character-level scanning primitives shared by the parsers.

use vstd::prelude::*;

verus! {

/// Index of the first occurrence of `c` in `s` at or after `from`, or `s.len()`
/// when there is none.
pub open spec fn find_char(s: Seq<char>, c: char, from: int) -> int
    decreases s.len() - from,
{
    if from < 0 || from >= s.len() {
        s.len() as int
    } else if s[from] == c {
        from
    } else {
        find_char(s, c, from + 1)
    }
}

/// A leading quoted argument: `s` starts with a space and a quote, and the text
/// runs up to the next quote. Yields the text and what follows the closing quote.
pub open spec fn quoted(s: Seq<char>) -> Option<(Seq<char>, Seq<char>)> {
    if s.len() >= 2 && s[0] == ' ' && s[1] == '"' {
        let end = find_char(s, '"', 2);
        if end < s.len() {
            Some((s.subrange(2, end), s.subrange(end + 1, s.len() as int)))
        } else {
            None
        }
    } else {
        None
    }
}

/// A quoted argument that must also be the last thing in `s`.
pub open spec fn quoted_last(s: Seq<char>) -> Option<Seq<char>> {
    match quoted(s) {
        Some((t, rest)) => if rest.len() == 0 {
            Some(t)
        } else {
            None
        },
        None => None,
    }
}

/// `needle` occurs somewhere in `hay` as a contiguous run.
pub open spec fn contains_seq(hay: Seq<char>, needle: Seq<char>) -> bool {
    exists|i: int|
        0 <= i <= hay.len() - needle.len() && #[trigger] hay.subrange(i, i + needle.len())
            == needle
}

/// `s` begins with `prefix`.
pub open spec fn starts_with(s: Seq<char>, prefix: Seq<char>) -> bool {
    prefix.len() <= s.len() && s.subrange(0, prefix.len() as int) == prefix
}

pub proof fn lemma_find_char_first(s: Seq<char>, c: char, from: int, e: int)
    requires
        0 <= from <= e <= s.len(),
        forall|k: int| from <= k < e ==> s[k] != c,
        e == s.len() || s[e] == c,
    ensures
        find_char(s, c, from) == e,
    decreases e - from,
{
    if from < e {
        lemma_find_char_first(s, c, from + 1, e);
    }
}

pub proof fn lemma_find_char_ge(s: Seq<char>, c: char, from: int)
    requires
        0 <= from <= s.len(),
    ensures
        from <= find_char(s, c, from) <= s.len(),
        find_char(s, c, from) < s.len() ==> s[find_char(s, c, from)] == c,
    decreases s.len() - from,
{
    if from < s.len() && s[from] != c {
        lemma_find_char_ge(s, c, from + 1);
    }
}

pub proof fn lemma_find_char_skip(s: Seq<char>, c: char, from: int, k: int)
    requires
        0 <= from <= k <= s.len(),
        forall|j: int| from <= j < k ==> s[j] != c,
    ensures
        find_char(s, c, from) == find_char(s, c, k),
    decreases k - from,
{
    if from < k {
        lemma_find_char_skip(s, c, from + 1, k);
    }
}

/// The characters of `s`, in order.
pub fn chars_of(s: &str) -> (r: Vec<char>)
    ensures
        r@ == s@,
{
    let n = s.unicode_len();
    let mut v: Vec<char> = Vec::new();
    let mut i: usize = 0;
    while i < n
        invariant
            n == s@.len(),
            i <= n,
            v@ == s@.subrange(0, i as int),
        decreases n - i,
    {
        v.push(s.get_char(i));
        i += 1;
    }
    assert(v@ =~= s@);
    v
}

/// Relies on `String::push`: appends one character to the end of the string.
#[verifier::external_body]
fn push_char(s: &mut String, c: char)
    ensures
        final(s)@ == old(s)@.push(c),
{
    s.push(c);
}

/// The text `s[from..to]` as an owned string.
pub fn substring(s: &Vec<char>, from: usize, to: usize) -> (r: String)
    requires
        from <= to <= s@.len(),
    ensures
        r@ == s@.subrange(from as int, to as int),
{
    let mut out = String::new();
    let mut i: usize = from;
    while i < to
        invariant
            from <= i <= to <= s@.len(),
            out@ == s@.subrange(from as int, i as int),
        decreases to - i,
    {
        push_char(&mut out, s[i]);
        i += 1;
        assert(out@ =~= s@.subrange(from as int, i as int));
    }
    out
}

/// Locates a leading quoted argument in `s[from..]`: the suffix must start
/// with a space and a quote. Returns the index of the closing quote.
pub fn get_quotation_string(s: &Vec<char>, from: usize) -> (r: Option<usize>)
    requires
        from <= s@.len(),
    ensures
        ({
            let t = s@.subrange(from as int, s@.len() as int);
            &&& s@.len() <= usize::MAX
            &&& match r {
                Some(e) => from + 2 <= e < s@.len() && quoted(t) == Some(
                    (
                        s@.subrange(from + 2, e as int),
                        s@.subrange(e + 1, s@.len() as int),
                    ),
                ),
                None => quoted(t).is_none(),
            }
        }),
{
    let ghost t = s@.subrange(from as int, s@.len() as int);
    let n = s.len();
    if n - from < 2 || s[from] != ' ' || s[from + 1] != '"' {
        return None;
    }
    let mut i: usize = from + 2;
    while i < n && s[i] != '"'
        invariant
            from + 2 <= i <= n == s@.len(),
            t == s@.subrange(from as int, n as int),
            forall|k: int| 2 <= k < i - from ==> t[k] != '"',
        decreases n - i,
    {
        i += 1;
    }
    proof {
        lemma_find_char_first(t, '"', 2, i - from);
    }
    if i == n {
        None
    } else {
        assert(t.subrange(2, i - from) =~= s@.subrange(from + 2, i as int));
        assert(t.subrange(i - from + 1, t.len() as int) =~= s@.subrange(i + 1, n as int));
        Some(i)
    }
}

/// Like [`get_quotation_string`], and the closing quote must also be the last
/// character of `s`. Returns the quoted text.
pub fn get_quotation_string_and_verify_is_last(s: &Vec<char>, from: usize) -> (r: Option<String>)
    requires
        from <= s@.len(),
    ensures
        ({
            let t = s@.subrange(from as int, s@.len() as int);
            match r {
                Some(v) => quoted_last(t) == Some(v@),
                None => quoted_last(t).is_none(),
            }
        }),
{
    match get_quotation_string(s, from) {
        Some(e) => {
            if e != s.len() - 1 {
                None
            } else {
                Some(substring(s, from + 2, e))
            }
        },
        None => None,
    }
}

/// Whether `s[from..]` begins with `prefix`.
pub fn starts_with_at(s: &Vec<char>, from: usize, prefix: &str) -> (r: bool)
    requires
        from <= s@.len(),
    ensures
        r == starts_with(s@.subrange(from as int, s@.len() as int), prefix@),
        s@.len() <= usize::MAX,
{
    let ghost t = s@.subrange(from as int, s@.len() as int);
    let len = s.len();
    let n = prefix.unicode_len();
    if n > len - from {
        return false;
    }
    let mut i: usize = 0;
    while i < n
        invariant
            from <= s@.len() == len,
            n == prefix@.len(),
            n <= s@.len() - from,
            t.len() == s@.len() - from,
            t == s@.subrange(from as int, s@.len() as int),
            i <= n,
            forall|k: int| 0 <= k < i ==> t[k] == prefix@[k],
        decreases n - i,
    {
        if s[from + i] != prefix.get_char(i) {
            assert(t.subrange(0, n as int)[i as int] != prefix@[i as int]);
            return false;
        }
        i += 1;
    }
    assert(t.subrange(0, n as int) =~= prefix@);
    true
}

/// Whether `needle` occurs in `hay` as a contiguous run.
pub fn contains_chars(hay: &Vec<char>, needle: &Vec<char>) -> (r: bool)
    ensures
        r == contains_seq(hay@, needle@),
{
    let n = hay.len();
    let m = needle.len();
    if m > n {
        return false;
    }
    let mut i: usize = 0;
    while i <= n - m
        invariant
            n == hay@.len(),
            m == needle@.len(),
            m <= n,
            i <= n - m + 1,
            forall|j: int| 0 <= j < i ==> #[trigger] hay@.subrange(j, j + m) != needle@,
        decreases n - m + 1 - i,
    {
        let mut k: usize = 0;
        while k < m && hay[i + k] == needle[k]
            invariant
                n == hay@.len(),
                m == needle@.len(),
                i + m <= n,
                k <= m,
                forall|q: int| 0 <= q < k ==> hay@[i + q] == needle@[q],
            decreases m - k,
        {
            k += 1;
        }
        if k == m {
            assert(hay@.subrange(i as int, i + m) =~= needle@);
            return true;
        }
        assert(hay@.subrange(i as int, i + m)[k as int] != needle@[k as int]);
        i += 1;
    }
    false
}

/// Whether `c` is alphabetic or numeric in Unicode's sense.
pub uninterp spec fn alphanumeric(c: char) -> bool;

/// Relies on `char::is_alphanumeric`: whether `c` is alphabetic or numeric.
#[verifier::external_body]
pub(crate) fn is_alphanumeric(c: char) -> (r: bool)
    ensures
        r == alphanumeric(c),
{
    c.is_alphanumeric()
}

/// End of the run of alphanumeric characters that starts at `i`.
pub open spec fn alnum_end(s: Seq<char>, i: int) -> int
    decreases s.len() - i,
{
    if i < 0 || i >= s.len() || !alphanumeric(s[i]) {
        i
    } else {
        alnum_end(s, i + 1)
    }
}

pub proof fn lemma_alnum_end(s: Seq<char>, i: int, e: int)
    requires
        0 <= i <= e <= s.len(),
        forall|k: int| i <= k < e ==> alphanumeric(s[k]),
        e == s.len() || !alphanumeric(s[e]),
    ensures
        alnum_end(s, i) == e,
    decreases e - i,
{
    if i < e {
        lemma_alnum_end(s, i + 1, e);
    }
}

pub proof fn lemma_alnum_end_ge(s: Seq<char>, i: int)
    requires
        0 <= i <= s.len(),
    ensures
        i <= alnum_end(s, i) <= s.len(),
    decreases s.len() - i,
{
    if i < s.len() && alphanumeric(s[i]) {
        lemma_alnum_end_ge(s, i + 1);
    }
}

/// Whether `a` holds exactly the text `b`.
pub fn equals_str(a: &String, b: &str) -> (r: bool)
    ensures
        r == (a@ == b@),
{
    let s = a.as_str();
    let n = s.unicode_len();
    if n != b.unicode_len() {
        return false;
    }
    let mut i: usize = 0;
    while i < n
        invariant
            n == s@.len() == b@.len(),
            s@ == a@,
            i <= n,
            forall|k: int| 0 <= k < i ==> s@[k] == b@[k],
        decreases n - i,
    {
        if s.get_char(i) != b.get_char(i) {
            return false;
        }
        i += 1;
    }
    assert(s@ =~= b@);
    true
}

/// Whether `c` occurs in `s`.
pub fn has_char(s: &Vec<char>, c: char) -> (r: bool)
    ensures
        r == s@.contains(c),
{
    let mut i: usize = 0;
    while i < s.len()
        invariant
            i <= s@.len(),
            forall|k: int| 0 <= k < i ==> s@[k] != c,
        decreases s@.len() - i,
    {
        if s[i] == c {
            return true;
        }
        i += 1;
    }
    false
}

} // verus!
