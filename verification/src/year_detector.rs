//! Year detection: find the first four-digit sequence valued in
//! [1900, 2099] inside a title, remove it together with a single
//! adjacent pair of brackets or parentheses, and tidy the remainder.

use vstd::prelude::*;
use crate::text::{
    chars_of, digit_val, digit_val_ch, is_digit, is_digit_ch, is_space, norm_ws, norm_ws_from,
    normalize_ws, string_of, subrange_vec,
};

verus! {

/// A four-digit year in [1900, 2099] begins at index `i` of `s`: the first
/// two digits read `19` or `20` and two more digits follow.
pub open spec fn year_at(s: Seq<char>, i: int) -> bool {
    &&& 0 <= i
    &&& i + 4 <= s.len()
    &&& ((s[i] == '1' && s[i + 1] == '9') || (s[i] == '2' && s[i + 1] == '0'))
    &&& is_digit(s[i + 2])
    &&& is_digit(s[i + 3])
}

/// Index of the first year occurrence at or after `i`, if any.
pub open spec fn first_year_from(s: Seq<char>, i: int) -> Option<int>
    decreases s.len() + 1 - i,
{
    if 0 <= i && i + 4 <= s.len() {
        if year_at(s, i) {
            Some(i)
        } else {
            first_year_from(s, i + 1)
        }
    } else {
        None
    }
}

/// Index of the leftmost year occurrence in `s`, if any.
pub open spec fn first_year(s: Seq<char>) -> Option<int> {
    first_year_from(s, 0)
}

pub(crate) proof fn lemma_first_year_from(s: Seq<char>, i: int)
    requires
        0 <= i,
    ensures
        match first_year_from(s, i) {
            Some(k) => i <= k && year_at(s, k) && forall|j: int| i <= j < k ==> !year_at(s, j),
            None => forall|j: int| i <= j ==> !year_at(s, j),
        },
    decreases s.len() + 1 - i,
{
    if i + 4 <= s.len() && !year_at(s, i) {
        lemma_first_year_from(s, i + 1);
    }
}

/// Value of the four-digit number at `i`.
pub open spec fn year_value(s: Seq<char>, i: int) -> int {
    1000 * digit_val(s[i]) + 100 * digit_val(s[i + 1]) + 10 * digit_val(s[i + 2]) + digit_val(
        s[i + 3],
    )
}

/// Start of the span to remove: one step left when a `(` or `[`
/// immediately precedes the year.
pub open spec fn clean_start(s: Seq<char>, i: int) -> int {
    if i > 0 && (s[i - 1] == '(' || s[i - 1] == '[') {
        i - 1
    } else {
        i
    }
}

/// End of the span to remove: one step right when a `)` or `]`
/// immediately follows the year.
pub open spec fn clean_end(s: Seq<char>, i: int) -> int {
    if i + 4 < s.len() && (s[i + 4] == ')' || s[i + 4] == ']') {
        i + 5
    } else {
        i + 4
    }
}

/// The title with the span around the year at `i` removed and
/// whitespace normalized.
pub open spec fn cleaned_of(s: Seq<char>, i: int) -> Seq<char> {
    norm_ws(s.subrange(0, clean_start(s, i)) + s.subrange(clean_end(s, i), s.len() as int))
}

/// What year detection yields on `s`: the value of the leftmost year
/// and the cleaned title, or nothing when no year occurs.
pub open spec fn year_detect(s: Seq<char>) -> Option<(int, Seq<char>)> {
    match first_year(s) {
        Some(i) => Some((year_value(s, i), cleaned_of(s, i))),
        None => None,
    }
}

/// Result of year detection.
#[derive(Debug, Clone, PartialEq)]
pub struct YearInfo {
    pub year: u32,
    pub cleaned_title: String,
}

/// Index of the leftmost year occurrence, by a left-to-right scan.
fn find_year(v: &Vec<char>) -> (r: Option<usize>)
    ensures
        match r {
            Some(k) => first_year(v@) == Some(k as int),
            None => first_year(v@) is None,
        },
{
    let mut i: usize = 0;
    loop
        invariant
            0 <= i <= v@.len(),
            first_year(v@) == first_year_from(v@, i as int),
        decreases v@.len() - i,
    {
        if v.len() - i < 4 {
            return None;
        }
        let two_first = (v[i] == '1' && v[i + 1] == '9') || (v[i] == '2' && v[i + 1] == '0');
        if two_first && is_digit_ch(v[i + 2]) && is_digit_ch(v[i + 3]) {
            return Some(i);
        }
        i = i + 1;
    }
}

/// Detect and extract a year from a title.
///
/// Scans for the first four-digit sequence whose value lies in
/// [1900, 2099]; later year-like substrings are left untouched.  The
/// year is removed from the title together with a single immediately
/// adjacent `(`/`[` before it and `)`/`]` after it, whitespace runs are
/// collapsed to single spaces and the ends are trimmed.
pub fn detect_year(title: &str) -> (r: Option<YearInfo>)
    ensures
        match r {
            Some(info) => year_detect(title@) == Some(
                (info.year as int, info.cleaned_title@),
            ) && 1900 <= info.year <= 2099,
            None => year_detect(title@) is None,
        },
{
    let v = chars_of(title);
    match find_year(&v) {
        None => None,
        Some(i) => {
            assert(year_at(v@, i as int)) by {
                lemma_first_year_from(v@, 0);
            }
            let n = v.len();
            assert(i + 4 <= n);
            let d0 = digit_val_ch(v[i]);
            let d1 = digit_val_ch(v[i + 1]);
            let d2 = digit_val_ch(v[i + 2]);
            let d3 = digit_val_ch(v[i + 3]);
            let year: u32 = 1000 * d0 + 100 * d1 + 10 * d2 + d3;
            let cs = if i > 0 && (v[i - 1] == '(' || v[i - 1] == '[') {
                i - 1
            } else {
                i
            };
            let ce = if i + 4 < v.len() && (v[i + 4] == ')' || v[i + 4] == ']') {
                i + 5
            } else {
                i + 4
            };
            let mut joined = subrange_vec(&v, 0, cs);
            let mut tail = subrange_vec(&v, ce, v.len());
            joined.append(&mut tail);
            assert(joined@ == v@.subrange(0, clean_start(v@, i as int)) + v@.subrange(
                clean_end(v@, i as int),
                v@.len() as int,
            ));
            let cleaned = normalize_ws(&joined);
            Some(YearInfo { year, cleaned_title: string_of(&cleaned) })
        },
    }
}

/// No four-digit year sequence occurs anywhere in `t`.
pub open spec fn no_year(t: Seq<char>) -> bool {
    forall|j: int| !year_at(t, j)
}

/// The last `k` characters of `out` are the last `k` characters read
/// from `s`, and whitespace stands just before them in `out` (or they
/// are all of `out`).
spec fn tail_mirror_at(s: Seq<char>, i: int, out: Seq<char>, k: int) -> bool {
    &&& 0 <= k <= i
    &&& k <= out.len()
    &&& out.subrange(out.len() - k, out.len() as int) == s.subrange(i - k, i)
    &&& (k == out.len() || is_space(out[out.len() - k - 1]))
}

spec fn tail_mirrors(s: Seq<char>, i: int, out: Seq<char>) -> bool {
    exists|k: int| tail_mirror_at(s, i, out, k)
}

/// Whitespace normalization cannot create a year occurrence: runs of
/// non-whitespace in the output are contiguous substrings of the
/// input, and a year occurrence is made of digits alone.
proof fn lemma_norm_keeps_no_year(s: Seq<char>, i: int, out: Seq<char>, pend: bool)
    requires
        0 <= i <= s.len(),
        no_year(s),
        no_year(out),
        !pend ==> tail_mirrors(s, i, out),
    ensures
        no_year(norm_ws_from(s, i, out, pend)),
    decreases s.len() - i,
{
    if i < s.len() {
        let c = s[i];
        if is_space(c) {
            if !(out.len() > 0) {
                assert(Seq::<char>::empty().subrange(0, 0) =~= s.subrange(i + 1, i + 1));
                assert(out.subrange(0, 0) =~= s.subrange(i + 1, i + 1));
                assert(tail_mirror_at(s, i + 1, out, 0));
            }
            lemma_norm_keeps_no_year(s, i + 1, out, out.len() > 0);
        } else {
            if pend {
                let out2 = out.push(' ').push(c);
                let ol = out.len() as int;
                assert forall|p: int| !year_at(out2, p) by {
                    if year_at(out2, p) {
                        if p + 4 <= ol {
                            assert(out2[p] == out[p]);
                            assert(out2[p + 1] == out[p + 1]);
                            assert(out2[p + 2] == out[p + 2]);
                            assert(out2[p + 3] == out[p + 3]);
                            assert(year_at(out, p));
                        } else {
                            // the inserted space falls inside the
                            // four-character window and is no digit
                            assert(p <= ol - 2);
                            assert(out2[ol] == ' ');
                            assert(is_digit(out2[ol]) || out2[ol] == '1' || out2[ol] == '2'
                                || out2[ol] == '9' || out2[ol] == '0');
                        }
                    }
                }
                assert(out2.subrange(out2.len() - 1, out2.len() as int) =~= s.subrange(i, i + 1));
                assert(is_space(out2[out2.len() - 2]));
                assert(tail_mirror_at(s, i + 1, out2, 1));
                lemma_norm_keeps_no_year(s, i + 1, out2, false);
            } else {
                let k = choose|k: int| tail_mirror_at(s, i, out, k);
                assert(tail_mirror_at(s, i, out, k));
                let out2 = out.push(c);
                let ol = out.len() as int;
                assert forall|p: int| !year_at(out2, p) by {
                    if year_at(out2, p) {
                        if p + 4 <= ol {
                            assert(out2[p] == out[p]);
                            assert(out2[p + 1] == out[p + 1]);
                            assert(out2[p + 2] == out[p + 2]);
                            assert(out2[p + 3] == out[p + 3]);
                            assert(year_at(out, p));
                        } else {
                            assert(p == ol - 3);
                            if k >= 3 {
                                let os = out.subrange(ol - k, ol);
                                assert(os == s.subrange(i - k, i));
                                assert(out[ol - 3] == os[k - 3]);
                                assert(out[ol - 2] == os[k - 2]);
                                assert(out[ol - 1] == os[k - 1]);
                                assert(os[k - 3] == s[i - 3]);
                                assert(os[k - 2] == s[i - 2]);
                                assert(os[k - 1] == s[i - 1]);
                                assert(out2[p + 3] == c);
                                assert(year_at(s, i - 3));
                            } else {
                                // the whitespace bound sits inside the
                                // window and is no digit
                                assert(k < out.len()) by {
                                    if k == out.len() {
                                        assert(out.len() < 3);
                                        assert(p < 0);
                                    }
                                }
                                let b = ol - k - 1;
                                assert(is_space(out[b]));
                                assert(p <= b < ol);
                                assert(out2[b] == out[b]);
                                let bc = out[b];
                                assert(is_digit(bc) || bc == '1' || bc == '2' || bc == '9' || bc
                                    == '0');
                            }
                        }
                    }
                }
                assert(out2.subrange(out2.len() - (k + 1), out2.len() as int) == s.subrange(
                    i - k,
                    i + 1,
                )) by {
                    let os = out.subrange(ol - k, ol);
                    assert(os == s.subrange(i - k, i));
                    assert(out2.subrange(out2.len() - (k + 1), out2.len() as int) =~= os.push(c));
                    assert(os.push(c) =~= s.subrange(i - k, i + 1));
                }
                assert(tail_mirror_at(s, i + 1, out2, k + 1));
                lemma_norm_keeps_no_year(s, i + 1, out2, false);
            }
        }
    }
}

/// Year round trip: on a title whose only year occurrence is wrapped
/// in parentheses or brackets, detection returns that year, the
/// cleaned title excludes the year and its delimiters, and detection
/// on the cleaned title yields nothing.  The remainder around the
/// wrapped year must itself be free of year occurrences: removing the
/// wrapped span may otherwise bring digits together into a new one.
pub proof fn lemma_year_round_trip(title: Seq<char>, i: int)
    requires
        year_at(title, i),
        forall|j: int| year_at(title, j) ==> j == i,
        0 < i,
        title[i - 1] == '(' || title[i - 1] == '[',
        i + 4 < title.len(),
        title[i + 4] == ')' || title[i + 4] == ']',
        no_year(title.subrange(0, i - 1) + title.subrange(i + 5, title.len() as int)),
    ensures
        year_detect(title) == Some((year_value(title, i), cleaned_of(title, i))),
        first_year(cleaned_of(title, i)) is None,
{
    lemma_first_year_from(title, 0);
    match first_year_from(title, 0) {
        Some(kk) => {
            assert(year_at(title, kk));
            assert(kk == i);
        },
        None => {
            assert(!year_at(title, i));
        },
    }
    assert(first_year(title) == Some(i));
    assert(clean_start(title, i) == i - 1);
    assert(clean_end(title, i) == i + 5);
    let rem = title.subrange(0, i - 1) + title.subrange(i + 5, title.len() as int);
    assert(cleaned_of(title, i) == norm_ws(rem));
    assert(Seq::<char>::empty().subrange(0, 0) =~= rem.subrange(0, 0));
    assert(tail_mirror_at(rem, 0, Seq::empty(), 0));
    lemma_norm_keeps_no_year(rem, 0, Seq::empty(), false);
    lemma_first_year_from(cleaned_of(title, i), 0);
    match first_year_from(cleaned_of(title, i), 0) {
        Some(kk) => {
            assert(year_at(cleaned_of(title, i), kk));
            assert(!year_at(norm_ws_from(rem, 0, Seq::empty(), false), kk));
        },
        None => {},
    }
}

} // verus!
