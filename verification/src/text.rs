//! Character and sequence primitives shared by the scanner and the
//! detectors: digit and whitespace classification, substring search,
//! trimming, whitespace normalization and lexicographic comparison,
//! each exec function proved against a spec-level definition.

use vstd::prelude::*;
use vstd::string::StrSliceExecFns;
use vstd::string::StringExecFns;

verus! {

/// An ASCII decimal digit.
pub open spec fn is_digit(c: char) -> bool {
    48 <= c as u32 <= 57
}

/// Numeric value of an ASCII decimal digit.
pub open spec fn digit_val(c: char) -> int {
    c as u32 - 48
}

/// A whitespace character, following the Unicode `White_Space` property
/// (the set recognized by `char::is_whitespace`).
pub open spec fn is_space(c: char) -> bool {
    let u = c as u32;
    (9 <= u <= 13) || u == 32 || u == 133 || u == 160 || u == 5760 || (8192 <= u <= 8202) || u
        == 8232 || u == 8233 || u == 8239 || u == 8287 || u == 12288
}

pub(crate) fn is_digit_ch(c: char) -> (r: bool)
    ensures
        r == is_digit(c),
{
    let u = c as u32;
    48 <= u && u <= 57
}

pub(crate) fn digit_val_ch(c: char) -> (r: u32)
    requires
        is_digit(c),
    ensures
        r == digit_val(c),
{
    c as u32 - 48
}

pub(crate) fn is_space_ch(c: char) -> (r: bool)
    ensures
        r == is_space(c),
{
    let u = c as u32;
    (9 <= u && u <= 13) || u == 32 || u == 133 || u == 160 || u == 5760 || (8192 <= u && u <= 8202)
        || u == 8232 || u == 8233 || u == 8239 || u == 8287 || u == 12288
}

/// The characters of a string, in order.
pub(crate) fn chars_of(s: &str) -> (r: Vec<char>)
    ensures
        r@ == s@,
{
    let n = s.unicode_len();
    let mut r: Vec<char> = Vec::new();
    let mut i: usize = 0;
    while i < n
        invariant
            i <= n,
            r@ == s@.subrange(0, i as int),
        decreases n - i,
    {
        r.push(s.get_char(i));
        i = i + 1;
        assert(r@ =~= s@.subrange(0, i as int));
    }
    assert(s@.subrange(0, n as int) =~= s@);
    r
}

/// Relies on `String::push`: appends one character to the string.
#[verifier::external_body]
fn push_char(s: &mut String, c: char)
    ensures
        final (s)@ == old(s)@.push(c),
{
    s.push(c);
}

/// A string holding exactly the given characters.
pub(crate) fn string_of(v: &Vec<char>) -> (r: String)
    ensures
        r@ == v@,
{
    let mut r = String::new();
    let mut i: usize = 0;
    while i < v.len()
        invariant
            i <= v.len(),
            r@ == v@.subrange(0, i as int),
        decreases v.len() - i,
    {
        push_char(&mut r, v[i]);
        i = i + 1;
        assert(r@ =~= v@.subrange(0, i as int));
    }
    assert(v@.subrange(0, v.len() as int) =~= v@);
    r
}

/// Index of the first occurrence of `c` at or after `i`, or `s.len()`.
pub open spec fn find_from(s: Seq<char>, i: int, c: char) -> int
    decreases s.len() - i,
{
    if 0 <= i < s.len() {
        if s[i] == c {
            i
        } else {
            find_from(s, i + 1, c)
        }
    } else {
        s.len() as int
    }
}

pub(crate) proof fn lemma_find_from(s: Seq<char>, i: int, c: char)
    requires
        0 <= i <= s.len(),
    ensures
        i <= find_from(s, i, c) <= s.len(),
        find_from(s, i, c) < s.len() ==> s[find_from(s, i, c)] == c,
        forall|j: int| i <= j < find_from(s, i, c) ==> s[j] != c,
    decreases s.len() - i,
{
    if i < s.len() && s[i] != c {
        lemma_find_from(s, i + 1, c);
    }
}

/// First occurrence of `c` at or after `from`, or the length of `v`.
pub(crate) fn find_char(v: &Vec<char>, from: usize, c: char) -> (r: usize)
    requires
        from <= v@.len(),
    ensures
        r == find_from(v@, from as int, c),
        from <= r <= v@.len(),
    decreases v@.len() - from,
{
    if from < v.len() {
        if v[from] == c {
            from
        } else {
            find_char(v, from + 1, c)
        }
    } else {
        v.len()
    }
}

/// The pattern `pat` occurs in `s` starting at index `i`.
pub open spec fn sub_at(s: Seq<char>, pat: Seq<char>, i: int) -> bool {
    0 <= i && i + pat.len() <= s.len() && s.subrange(i, i + pat.len()) == pat
}

/// Index of the first occurrence of `pat` at or after `i`, if any.
pub open spec fn find_sub_from(s: Seq<char>, pat: Seq<char>, i: int) -> Option<int>
    decreases s.len() + 1 - i,
{
    if 0 <= i && i + pat.len() <= s.len() {
        if sub_at(s, pat, i) {
            Some(i)
        } else {
            find_sub_from(s, pat, i + 1)
        }
    } else {
        None
    }
}

/// `pat` occurs somewhere in `s`.
pub open spec fn contains_sub(s: Seq<char>, pat: Seq<char>) -> bool {
    find_sub_from(s, pat, 0) is Some
}

pub(crate) proof fn lemma_find_sub_from(s: Seq<char>, pat: Seq<char>, i: int)
    requires
        0 <= i,
    ensures
        match find_sub_from(s, pat, i) {
            Some(k) => i <= k && sub_at(s, pat, k) && forall|j: int|
                i <= j < k ==> !sub_at(s, pat, j),
            None => forall|j: int| i <= j ==> !sub_at(s, pat, j),
        },
    decreases s.len() + 1 - i,
{
    if i + pat.len() <= s.len() && !sub_at(s, pat, i) {
        lemma_find_sub_from(s, pat, i + 1);
    }
}

/// Whether `pat` occurs at `i`, decided by character comparison.
pub(crate) fn check_sub_at(v: &Vec<char>, pat: &Vec<char>, i: usize) -> (r: bool)
    requires
        i + pat@.len() <= v@.len(),
    ensures
        r == sub_at(v@, pat@, i as int),
{
    let mut j: usize = 0;
    while j < pat.len()
        invariant
            j <= pat@.len(),
            i + pat@.len() <= v@.len(),
            forall|k: int| 0 <= k < j ==> v@[i + k] == pat@[k],
        decreases pat@.len() - j,
    {
        let vlen = v.len();
        assert(i + j < vlen);
        if v[i + j] != pat[j] {
            assert(v@.subrange(i as int, i + pat@.len())[j as int] != pat@[j as int]);
            return false;
        }
        j = j + 1;
    }
    assert(v@.subrange(i as int, i + pat@.len()) =~= pat@);
    true
}

/// First occurrence of `pat` at or after `from`, if any.
pub(crate) fn find_sub(v: &Vec<char>, pat: &Vec<char>, from: usize) -> (r: Option<usize>)
    requires
        from <= v@.len(),
    ensures
        match r {
            Some(k) => find_sub_from(v@, pat@, from as int) == Some(k as int),
            None => find_sub_from(v@, pat@, from as int) is None,
        },
{
    let mut i: usize = from;
    loop
        invariant
            from <= i <= v@.len(),
            find_sub_from(v@, pat@, from as int) == find_sub_from(v@, pat@, i as int),
        decreases v@.len() - i,
    {
        if pat.len() > v.len() - i {
            return None;
        }
        if check_sub_at(v, pat, i) {
            return Some(i);
        }
        assert(pat@.len() > 0) by {
            if pat@.len() == 0 {
                assert(v@.subrange(i as int, i as int) =~= pat@);
            }
        }
        i = i + 1;
    }
}

/// Index of the last occurrence of `c` in `s`, if any.
pub open spec fn rfind(s: Seq<char>, c: char) -> Option<int>
    decreases s.len(),
{
    if s.len() == 0 {
        None
    } else if s[s.len() - 1] == c {
        Some(s.len() - 1)
    } else {
        rfind(s.drop_last(), c)
    }
}

pub(crate) proof fn lemma_rfind(s: Seq<char>, c: char)
    ensures
        match rfind(s, c) {
            Some(k) => 0 <= k < s.len() && s[k] == c && forall|j: int|
                k < j < s.len() ==> s[j] != c,
            None => forall|j: int| 0 <= j < s.len() ==> s[j] != c,
        },
    decreases s.len(),
{
    if s.len() > 0 && s[s.len() - 1] != c {
        lemma_rfind(s.drop_last(), c);
        assert(forall|j: int| 0 <= j < s.len() - 1 ==> s.drop_last()[j] == s[j]);
    }
}

/// Last occurrence of `c`, if any, found by a backward scan.
pub(crate) fn rfind_char(v: &Vec<char>, c: char) -> (r: Option<usize>)
    ensures
        match r {
            Some(k) => rfind(v@, c) == Some(k as int),
            None => rfind(v@, c) is None,
        },
{
    let mut i: usize = v.len();
    assert(v@.subrange(0, v@.len() as int) =~= v@);
    loop
        invariant
            i <= v@.len(),
            rfind(v@, c) == rfind(v@.subrange(0, i as int), c),
        decreases i,
    {
        if i == 0 {
            assert(v@.subrange(0, 0) =~= Seq::<char>::empty());
            return None;
        }
        i = i - 1;
        if v[i] == c {
            assert(v@.subrange(0, i + 1)[i as int] == c);
            return Some(i);
        }
        assert(v@.subrange(0, i + 1).drop_last() =~= v@.subrange(0, i as int));
        assert(v@.subrange(0, i + 1)[i as int] != c);
    }
}

/// `s` begins with `p`.
pub open spec fn starts_with(s: Seq<char>, p: Seq<char>) -> bool {
    sub_at(s, p, 0)
}

/// Index of the first non-whitespace character at or after `i`, or `s.len()`.
pub open spec fn skip_spaces(s: Seq<char>, i: int) -> int
    decreases s.len() - i,
{
    if 0 <= i < s.len() {
        if is_space(s[i]) {
            skip_spaces(s, i + 1)
        } else {
            i
        }
    } else {
        s.len() as int
    }
}

pub(crate) proof fn lemma_skip_spaces(s: Seq<char>, i: int)
    requires
        0 <= i <= s.len(),
    ensures
        i <= skip_spaces(s, i) <= s.len(),
        skip_spaces(s, i) < s.len() ==> !is_space(s[skip_spaces(s, i)]),
        forall|j: int| i <= j < skip_spaces(s, i) ==> is_space(s[j]),
    decreases s.len() - i,
{
    if i < s.len() && is_space(s[i]) {
        lemma_skip_spaces(s, i + 1);
    }
}

pub(crate) fn skip_spaces_ch(v: &Vec<char>, from: usize) -> (r: usize)
    requires
        from <= v@.len(),
    ensures
        r == skip_spaces(v@, from as int),
        from <= r <= v@.len(),
    decreases v@.len() - from,
{
    if from < v.len() && is_space_ch(v[from]) {
        skip_spaces_ch(v, from + 1)
    } else if from < v.len() {
        from
    } else {
        v.len()
    }
}

/// End index of `s` once trailing whitespace before `j` is dropped.
pub open spec fn trim_end_idx(s: Seq<char>, j: int) -> int
    decreases j,
{
    if 0 < j <= s.len() && is_space(s[j - 1]) {
        trim_end_idx(s, j - 1)
    } else {
        j
    }
}

pub(crate) proof fn lemma_trim_end_idx(s: Seq<char>, j: int)
    requires
        0 <= j <= s.len(),
    ensures
        0 <= trim_end_idx(s, j) <= j,
        trim_end_idx(s, j) > 0 ==> !is_space(s[trim_end_idx(s, j) - 1]),
        forall|k: int| trim_end_idx(s, j) <= k < j ==> is_space(s[k]),
    decreases j,
{
    if 0 < j && is_space(s[j - 1]) {
        lemma_trim_end_idx(s, j - 1);
    }
}

pub(crate) fn trim_end_idx_ch(v: &Vec<char>, j: usize) -> (r: usize)
    requires
        j <= v@.len(),
    ensures
        r == trim_end_idx(v@, j as int),
        r <= j,
    decreases j,
{
    if 0 < j && is_space_ch(v[j - 1]) {
        trim_end_idx_ch(v, j - 1)
    } else {
        j
    }
}

/// `s` with leading and trailing whitespace removed.
pub open spec fn trim_seq(s: Seq<char>) -> Seq<char> {
    let a = skip_spaces(s, 0);
    let b = trim_end_idx(s, s.len() as int);
    if a < b {
        s.subrange(a, b)
    } else {
        Seq::empty()
    }
}

/// Copy of `v[from..to]`.
pub(crate) fn subrange_vec(v: &Vec<char>, from: usize, to: usize) -> (r: Vec<char>)
    requires
        from <= to <= v@.len(),
    ensures
        r@ == v@.subrange(from as int, to as int),
{
    let mut r: Vec<char> = Vec::new();
    let mut i: usize = from;
    while i < to
        invariant
            from <= i <= to,
            r@ == v@.subrange(from as int, i as int),
        decreases to - i,
    {
        r.push(v[i]);
        i = i + 1;
        assert(r@ =~= v@.subrange(from as int, i as int));
    }
    r
}

/// The trimmed copy of `v`.
pub(crate) fn trim_vec(v: &Vec<char>) -> (r: Vec<char>)
    ensures
        r@ == trim_seq(v@),
{
    let a = skip_spaces_ch(v, 0);
    let b = trim_end_idx_ch(v, v.len());
    if a < b {
        subrange_vec(v, a, b)
    } else {
        Vec::new()
    }
}

/// Whitespace normalization: words joined by single spaces, no leading or
/// trailing whitespace.  `out` is the text already emitted and `pend`
/// records that a space is owed before the next word.
pub open spec fn norm_ws_from(s: Seq<char>, i: int, out: Seq<char>, pend: bool) -> Seq<char>
    decreases s.len() - i,
{
    if 0 <= i < s.len() {
        if is_space(s[i]) {
            norm_ws_from(s, i + 1, out, out.len() > 0)
        } else {
            norm_ws_from(
                s,
                i + 1,
                if pend {
                    out.push(' ').push(s[i])
                } else {
                    out.push(s[i])
                },
                false,
            )
        }
    } else {
        out
    }
}

/// All whitespace runs collapsed to single spaces, ends trimmed.
pub open spec fn norm_ws(s: Seq<char>) -> Seq<char> {
    norm_ws_from(s, 0, Seq::empty(), false)
}

/// Collapse whitespace runs to single spaces and trim both ends.
pub(crate) fn normalize_ws(v: &Vec<char>) -> (r: Vec<char>)
    ensures
        r@ == norm_ws(v@),
{
    let mut out: Vec<char> = Vec::new();
    let mut pend = false;
    let mut i: usize = 0;
    while i < v.len()
        invariant
            i <= v@.len(),
            norm_ws(v@) == norm_ws_from(v@, i as int, out@, pend),
        decreases v@.len() - i,
    {
        let c = v[i];
        if is_space_ch(c) {
            pend = out.len() > 0;
        } else {
            if pend {
                out.push(' ');
            }
            out.push(c);
            pend = false;
        }
        i = i + 1;
    }
    out
}

/// Lexicographic order on character sequences by code point, the order of
/// Rust's byte-wise string comparison on UTF-8 text.
pub open spec fn seq_le(a: Seq<char>, b: Seq<char>) -> bool
    decreases a.len(),
{
    if a.len() == 0 {
        true
    } else if b.len() == 0 {
        false
    } else if (a[0] as u32) < (b[0] as u32) {
        true
    } else if (a[0] as u32) > (b[0] as u32) {
        false
    } else {
        seq_le(a.drop_first(), b.drop_first())
    }
}

pub(crate) proof fn lemma_seq_le_total(a: Seq<char>, b: Seq<char>)
    ensures
        seq_le(a, b) || seq_le(b, a),
    decreases a.len(),
{
    if a.len() > 0 && b.len() > 0 && (a[0] as u32) == (b[0] as u32) {
        lemma_seq_le_total(a.drop_first(), b.drop_first());
    }
}

pub(crate) proof fn lemma_seq_le_trans(a: Seq<char>, b: Seq<char>, c: Seq<char>)
    requires
        seq_le(a, b),
        seq_le(b, c),
    ensures
        seq_le(a, c),
    decreases a.len(),
{
    if a.len() > 0 && b.len() > 0 && c.len() > 0 && (a[0] as u32) == (b[0] as u32) && (b[0] as u32)
        == (c[0] as u32) {
        lemma_seq_le_trans(a.drop_first(), b.drop_first(), c.drop_first());
    }
}

/// Decide `seq_le` on character vectors.
pub(crate) fn le_chars(a: &Vec<char>, b: &Vec<char>) -> (r: bool)
    ensures
        r == seq_le(a@, b@),
{
    let mut i: usize = 0;
    assert(a@.skip(0) =~= a@);
    assert(b@.skip(0) =~= b@);
    loop
        invariant
            i <= a@.len(),
            i <= b@.len(),
            seq_le(a@, b@) == seq_le(a@.skip(i as int), b@.skip(i as int)),
        decreases a@.len() - i,
    {
        if i == a.len() {
            assert(a@.skip(i as int).len() == 0);
            return true;
        }
        if i == b.len() {
            assert(b@.skip(i as int).len() == 0);
            assert(a@.skip(i as int).len() > 0);
            return false;
        }
        let ca = a[i] as u32;
        let cb = b[i] as u32;
        assert(a@.skip(i as int)[0] == a@[i as int]);
        assert(b@.skip(i as int)[0] == b@[i as int]);
        if ca < cb {
            return true;
        }
        if ca > cb {
            return false;
        }
        assert(a@.skip(i as int).drop_first() =~= a@.skip(i + 1));
        assert(b@.skip(i as int).drop_first() =~= b@.skip(i + 1));
        i = i + 1;
    }
}

/// Truncation commutes with the whitespace scan: the scan of a prefix
/// stops where the full scan stops, capped at the cut.
pub(crate) proof fn lemma_skip_spaces_take(s: Seq<char>, m: int, i: int)
    requires
        0 <= i,
        0 <= m <= s.len(),
    ensures
        skip_spaces(s.take(m), i) == if skip_spaces(s, i) <= m {
            skip_spaces(s, i)
        } else {
            m
        },
    decreases m - i,
{
    if i < m {
        assert(s.take(m)[i] == s[i]);
        if is_space(s[i]) {
            lemma_skip_spaces_take(s, m, i + 1);
        }
    } else {
        if i <= s.len() {
            lemma_skip_spaces(s, i);
        }
    }
}

/// Truncation after the inspected point leaves the trailing-whitespace
/// boundary unchanged.
pub(crate) proof fn lemma_trim_end_take(s: Seq<char>, m: int, j: int)
    requires
        0 <= j <= m <= s.len(),
    ensures
        trim_end_idx(s.take(m), j) == trim_end_idx(s, j),
    decreases j,
{
    if 0 < j && is_space(s[j - 1]) {
        lemma_trim_end_take(s, m, j - 1);
    }
}

/// What `str::to_lowercase` returns: a function of the characters alone.
pub uninterp spec fn lower_of(s: Seq<char>) -> Seq<char>;

/// Relies on `str::to_lowercase`: the result depends on the characters alone.
#[verifier::external_body]
pub(crate) fn lowercase(s: &str) -> (r: String)
    ensures
        r@ == lower_of(s@),
{
    s.to_lowercase()
}

} // verus!
