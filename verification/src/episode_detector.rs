//! Episode detection: find season/episode markers in a title and split
//! off the series name.  Two cooperating strategies: a forward
//! character scan, and a fixed ordered list of pattern matchers tried
//! only when the scan fails.

use vstd::prelude::*;
use crate::text::{
    chars_of, digit_val, digit_val_ch, is_digit, is_digit_ch, is_space, lemma_skip_spaces,
    lemma_skip_spaces_take, lemma_trim_end_idx, lemma_trim_end_take, skip_spaces, skip_spaces_ch,
    string_of, subrange_vec, trim_end_idx, trim_end_idx_ch, trim_seq, trim_vec,
};

verus! {

/// Episode information: the series name and the detected season and
/// episode numbers.
#[derive(Debug, Clone, PartialEq)]
pub struct Episode {
    pub series_name: String,
    pub season: u32,
    pub episode: u32,
}

/// Two-digit-else-one-digit lookahead: the value of the one or two
/// decimal digits beginning at `j`, if a digit stands there.
pub open spec fn digits2_at(s: Seq<char>, j: int) -> Option<int> {
    if 0 <= j < s.len() && is_digit(s[j]) {
        if j + 1 < s.len() && is_digit(s[j + 1]) {
            Some(10 * digit_val(s[j]) + digit_val(s[j + 1]))
        } else {
            Some(digit_val(s[j]))
        }
    } else {
        None
    }
}

/// Width of the digit group read by `digits2_at` at `j`.
pub open spec fn digits2_len(s: Seq<char>, j: int) -> int {
    if j + 1 < s.len() && is_digit(s[j + 1]) {
        2
    } else {
        1
    }
}

pub(crate) fn digits2_ch(v: &Vec<char>, j: usize) -> (r: Option<u32>)
    ensures
        match r {
            Some(x) => digits2_at(v@, j as int) == Some(x as int) && x <= 99,
            None => digits2_at(v@, j as int) is None,
        },
{
    if j < v.len() && is_digit_ch(v[j]) {
        if j + 1 < v.len() && is_digit_ch(v[j + 1]) {
            Some(10 * digit_val_ch(v[j]) + digit_val_ch(v[j + 1]))
        } else {
            Some(digit_val_ch(v[j]))
        }
    } else {
        None
    }
}

/// The forward scan, from index `i` with the season found so far.
/// A season marker is `S`/`s` followed by one or two digits; once a
/// season is recorded (together with the series-name boundary, the end
/// of the text before the marker with trailing whitespace dropped), the
/// scan continues for `E`/`e` followed by digits and stops at the first
/// such episode marker.
pub open spec fn manual_from(s: Seq<char>, i: int, st: Option<(int, int)>) -> Option<
    (int, int, int),
>
    decreases s.len() - i,
{
    if !(0 <= i < s.len()) {
        None
    } else {
        let c = s[i];
        match st {
            None => {
                if (c == 'S' || c == 's') && digits2_at(s, i + 1) is Some {
                    manual_from(
                        s,
                        i + 1,
                        match digits2_at(s, i + 1) {
                            Some(sv) => Some((sv, trim_end_idx(s, i))),
                            None => None,
                        },
                    )
                } else {
                    manual_from(s, i + 1, None)
                }
            },
            Some((sv, ne)) => {
                if (c == 'E' || c == 'e') && digits2_at(s, i + 1) is Some {
                    match digits2_at(s, i + 1) {
                        Some(ev) => Some((sv, ev, ne)),
                        None => None,
                    }
                } else {
                    manual_from(s, i + 1, st)
                }
            },
        }
    }
}

/// Series name for the forward scan: the text before the season marker,
/// trimmed; the full title when that boundary is at position zero.
pub open spec fn manual_name(s: Seq<char>, ne: int) -> Seq<char> {
    if ne > 0 {
        trim_seq(s.subrange(0, ne))
    } else {
        s
    }
}

/// What the forward scan yields on `s`.
pub open spec fn manual_detect(s: Seq<char>) -> Option<(Seq<char>, int, int)> {
    match manual_from(s, 0, None) {
        Some((sv, ev, ne)) => Some((manual_name(s, ne), sv, ev)),
        None => None,
    }
}

/// Forward-scan strategy: scan for `S`/`s` with a one- or two-digit
/// season, then for `E`/`e` with a one- or two-digit episode; the first
/// complete pair wins.
pub fn detect_episode_manual(title: &str) -> (r: Option<Episode>)
    ensures
        match r {
            Some(ep) => manual_detect(title@) == Some(
                (ep.series_name@, ep.season as int, ep.episode as int),
            ),
            None => manual_detect(title@) is None,
        },
{
    let v = chars_of(title);
    let mut i: usize = 0;
    let mut season: Option<u32> = None;
    let mut name_end: usize = 0;
    loop
        invariant
            i <= v@.len(),
            match season {
                Some(sv) => name_end <= v@.len() && manual_from(v@, 0, None) == manual_from(
                    v@,
                    i as int,
                    Some((sv as int, name_end as int)),
                ),
                None => manual_from(v@, 0, None) == manual_from(v@, i as int, None),
            },
        decreases v@.len() - i,
    {
        if i >= v.len() {
            return None;
        }
        let c = v[i];
        match season {
            None => {
                if c == 'S' || c == 's' {
                    match digits2_ch(&v, i + 1) {
                        Some(sv) => {
                            let ne = trim_end_idx_ch(&v, i);
                            season = Some(sv);
                            name_end = ne;
                        },
                        None => {},
                    }
                }
            },
            Some(sv) => {
                if c == 'E' || c == 'e' {
                    match digits2_ch(&v, i + 1) {
                        Some(ev) => {
                            let name_vec = if name_end > 0 {
                                let head = subrange_vec(&v, 0, name_end);
                                trim_vec(&head)
                            } else {
                                let whole = subrange_vec(&v, 0, v.len());
                                assert(whole@ =~= v@);
                                whole
                            };
                            return Some(
                                Episode {
                                    series_name: string_of(&name_vec),
                                    season: sv,
                                    episode: ev,
                                },
                            );
                        },
                        None => {},
                    }
                }
            },
        }
        i = i + 1;
    }
}

/// Case-insensitive match of a character against a lowercase ASCII
/// letter.
pub open spec fn eq_ci(c: char, l: char) -> bool {
    c == l || c as u32 == l as u32 - 32
}

pub(crate) fn eq_ci_ch(c: char, l: char) -> (r: bool)
    requires
        97 <= l as u32 <= 122,
    ensures
        r == eq_ci(c, l),
{
    c == l || c as u32 == l as u32 - 32
}

/// First fallback pattern: `S`/`s`, optional spaces, one or two digits,
/// optional spaces, `E`/`e`, optional spaces, one or two digits,
/// beginning at `i`.
pub open spec fn p1_at(s: Seq<char>, i: int) -> Option<(int, int)> {
    if !(0 <= i < s.len() && eq_ci(s[i], 's')) {
        None
    } else {
        let a = skip_spaces(s, i + 1);
        match digits2_at(s, a) {
            None => None,
            Some(sv) => {
                let b = skip_spaces(s, a + digits2_len(s, a));
                if b < s.len() && eq_ci(s[b], 'e') {
                    match digits2_at(s, skip_spaces(s, b + 1)) {
                        Some(ev) => Some((sv, ev)),
                        None => None,
                    }
                } else {
                    None
                }
            },
        }
    }
}

/// Second fallback pattern: one or two digits, `x`/`X`, one or two
/// digits, beginning at `i`.
pub open spec fn p2_at(s: Seq<char>, i: int) -> Option<(int, int)> {
    match digits2_at(s, i) {
        None => None,
        Some(sv) => {
            let k = i + digits2_len(s, i);
            if k < s.len() && eq_ci(s[k], 'x') {
                match digits2_at(s, k + 1) {
                    Some(ev) => Some((sv, ev)),
                    None => None,
                }
            } else {
                None
            }
        },
    }
}

/// The word `season`, case-insensitively, at `i`.
pub open spec fn season_word_at(s: Seq<char>, i: int) -> bool {
    &&& 0 <= i
    &&& i + 6 <= s.len()
    &&& eq_ci(s[i], 's')
    &&& eq_ci(s[i + 1], 'e')
    &&& eq_ci(s[i + 2], 'a')
    &&& eq_ci(s[i + 3], 's')
    &&& eq_ci(s[i + 4], 'o')
    &&& eq_ci(s[i + 5], 'n')
}

/// The word `episode`, case-insensitively, at `i`.
pub open spec fn episode_word_at(s: Seq<char>, i: int) -> bool {
    &&& 0 <= i
    &&& i + 7 <= s.len()
    &&& eq_ci(s[i], 'e')
    &&& eq_ci(s[i + 1], 'p')
    &&& eq_ci(s[i + 2], 'i')
    &&& eq_ci(s[i + 3], 's')
    &&& eq_ci(s[i + 4], 'o')
    &&& eq_ci(s[i + 5], 'd')
    &&& eq_ci(s[i + 6], 'e')
}

/// Third fallback pattern: `season`, digits, `episode`, digits, with
/// optional spaces, case-insensitively, beginning at `i`.
pub open spec fn p3_at(s: Seq<char>, i: int) -> Option<(int, int)> {
    if !season_word_at(s, i) {
        None
    } else {
        let a = skip_spaces(s, i + 6);
        match digits2_at(s, a) {
            None => None,
            Some(sv) => {
                let b = skip_spaces(s, a + digits2_len(s, a));
                if episode_word_at(s, b) {
                    match digits2_at(s, skip_spaces(s, b + 7)) {
                        Some(ev) => Some((sv, ev)),
                        None => None,
                    }
                } else {
                    None
                }
            },
        }
    }
}

/// Tail of the fourth pattern from `j`: an optional period, optional
/// spaces, then one or two digits.
pub open spec fn p4_tail(s: Seq<char>, j: int) -> Option<int> {
    let j2 = if 0 <= j < s.len() && s[j] == '.' {
        j + 1
    } else {
        j
    };
    digits2_at(s, skip_spaces(s, j2))
}

/// Fourth fallback pattern: `ep` or `episode`, an optional period,
/// optional spaces, then one or two digits, case-insensitively,
/// beginning at `i`; the longer spelling is preferred.
pub open spec fn p4_at(s: Seq<char>, i: int) -> Option<int> {
    if !(0 <= i && i + 2 <= s.len() && eq_ci(s[i], 'e') && eq_ci(s[i + 1], 'p')) {
        None
    } else {
        let long = i + 7 <= s.len() && eq_ci(s[i + 2], 'i') && eq_ci(s[i + 3], 's') && eq_ci(
            s[i + 4],
            'o',
        ) && eq_ci(s[i + 5], 'd') && eq_ci(s[i + 6], 'e');
        if long && p4_tail(s, i + 7) is Some {
            p4_tail(s, i + 7)
        } else {
            p4_tail(s, i + 2)
        }
    }
}

pub(crate) fn p1_check(v: &Vec<char>, i: usize) -> (r: Option<(u32, u32)>)
    requires
        i < v@.len(),
    ensures
        match r {
            Some((sv, ev)) => p1_at(v@, i as int) == Some((sv as int, ev as int)),
            None => p1_at(v@, i as int) is None,
        },
{
    let n = v.len();
    if !eq_ci_ch(v[i], 's') {
        return None;
    }
    let a = skip_spaces_ch(v, i + 1);
    match digits2_ch(v, a) {
        None => None,
        Some(sv) => {
            let k: usize = if n - a > 1 && is_digit_ch(v[a + 1]) {
                2
            } else {
                1
            };
            assert(k == digits2_len(v@, a as int));
            let b = skip_spaces_ch(v, a + k);
            if b < n && eq_ci_ch(v[b], 'e') {
                match digits2_ch(v, skip_spaces_ch(v, b + 1)) {
                    Some(ev) => Some((sv, ev)),
                    None => None,
                }
            } else {
                None
            }
        },
    }
}

pub(crate) fn p2_check(v: &Vec<char>, i: usize) -> (r: Option<(u32, u32)>)
    requires
        i < v@.len(),
    ensures
        match r {
            Some((sv, ev)) => p2_at(v@, i as int) == Some((sv as int, ev as int)),
            None => p2_at(v@, i as int) is None,
        },
{
    let n = v.len();
    match digits2_ch(v, i) {
        None => None,
        Some(sv) => {
            let k: usize = if n - i > 1 && is_digit_ch(v[i + 1]) {
                2
            } else {
                1
            };
            assert(k == digits2_len(v@, i as int));
            if n - i > k && eq_ci_ch(v[i + k], 'x') {
                match digits2_ch(v, i + k + 1) {
                    Some(ev) => Some((sv, ev)),
                    None => None,
                }
            } else {
                None
            }
        },
    }
}

pub(crate) fn p3_check(v: &Vec<char>, i: usize) -> (r: Option<(u32, u32)>)
    requires
        i < v@.len(),
    ensures
        match r {
            Some((sv, ev)) => p3_at(v@, i as int) == Some((sv as int, ev as int)),
            None => p3_at(v@, i as int) is None,
        },
{
    let n = v.len();
    if !(n - i >= 6 && eq_ci_ch(v[i], 's') && eq_ci_ch(v[i + 1], 'e') && eq_ci_ch(v[i + 2], 'a')
        && eq_ci_ch(v[i + 3], 's') && eq_ci_ch(v[i + 4], 'o') && eq_ci_ch(v[i + 5], 'n')) {
        return None;
    }
    let a = skip_spaces_ch(v, i + 6);
    match digits2_ch(v, a) {
        None => None,
        Some(sv) => {
            let k: usize = if n - a > 1 && is_digit_ch(v[a + 1]) {
                2
            } else {
                1
            };
            assert(k == digits2_len(v@, a as int));
            let b = skip_spaces_ch(v, a + k);
            if n - b >= 7 && eq_ci_ch(v[b], 'e') && eq_ci_ch(v[b + 1], 'p') && eq_ci_ch(
                v[b + 2],
                'i',
            ) && eq_ci_ch(v[b + 3], 's') && eq_ci_ch(v[b + 4], 'o') && eq_ci_ch(v[b + 5], 'd')
                && eq_ci_ch(v[b + 6], 'e') {
                match digits2_ch(v, skip_spaces_ch(v, b + 7)) {
                    Some(ev) => Some((sv, ev)),
                    None => None,
                }
            } else {
                None
            }
        },
    }
}

fn p4_tail_ch(v: &Vec<char>, j: usize) -> (r: Option<u32>)
    requires
        j <= v@.len(),
    ensures
        match r {
            Some(ev) => p4_tail(v@, j as int) == Some(ev as int),
            None => p4_tail(v@, j as int) is None,
        },
{
    let j2: usize = if j < v.len() && v[j] == '.' {
        j + 1
    } else {
        j
    };
    digits2_ch(v, skip_spaces_ch(v, j2))
}

pub(crate) fn p4_check(v: &Vec<char>, i: usize) -> (r: Option<u32>)
    requires
        i < v@.len(),
    ensures
        match r {
            Some(ev) => p4_at(v@, i as int) == Some(ev as int),
            None => p4_at(v@, i as int) is None,
        },
{
    let n = v.len();
    if !(n - i >= 2 && eq_ci_ch(v[i], 'e') && eq_ci_ch(v[i + 1], 'p')) {
        return None;
    }
    let long = n - i >= 7 && eq_ci_ch(v[i + 2], 'i') && eq_ci_ch(v[i + 3], 's') && eq_ci_ch(
        v[i + 4],
        'o',
    ) && eq_ci_ch(v[i + 5], 'd') && eq_ci_ch(v[i + 6], 'e');
    if long {
        match p4_tail_ch(v, i + 7) {
            Some(ev) => {
                return Some(ev);
            },
            None => {},
        }
    }
    p4_tail_ch(v, i + 2)
}

/// Index of the leftmost match of the first pattern at or after `i`.
pub open spec fn first_p1_from(s: Seq<char>, i: int) -> Option<int>
    decreases s.len() - i,
{
    if 0 <= i < s.len() {
        if p1_at(s, i) is Some {
            Some(i)
        } else {
            first_p1_from(s, i + 1)
        }
    } else {
        None
    }
}

/// Index of the leftmost match of the second pattern at or after `i`.
pub open spec fn first_p2_from(s: Seq<char>, i: int) -> Option<int>
    decreases s.len() - i,
{
    if 0 <= i < s.len() {
        if p2_at(s, i) is Some {
            Some(i)
        } else {
            first_p2_from(s, i + 1)
        }
    } else {
        None
    }
}

/// Index of the leftmost match of the third pattern at or after `i`.
pub open spec fn first_p3_from(s: Seq<char>, i: int) -> Option<int>
    decreases s.len() - i,
{
    if 0 <= i < s.len() {
        if p3_at(s, i) is Some {
            Some(i)
        } else {
            first_p3_from(s, i + 1)
        }
    } else {
        None
    }
}

/// Index of the leftmost match of the fourth pattern at or after `i`.
pub open spec fn first_p4_from(s: Seq<char>, i: int) -> Option<int>
    decreases s.len() - i,
{
    if 0 <= i < s.len() {
        if p4_at(s, i) is Some {
            Some(i)
        } else {
            first_p4_from(s, i + 1)
        }
    } else {
        None
    }
}

/// Series name for the fallback patterns: the text before the match,
/// trimmed; the full title when that text trims to nothing.
pub open spec fn fallback_name(s: Seq<char>, i: int) -> Seq<char> {
    if trim_seq(s.subrange(0, i)).len() > 0 {
        trim_seq(s.subrange(0, i))
    } else {
        s
    }
}

/// What the ordered pattern list yields on `s`: the first pattern with
/// a match wins, and within a pattern the leftmost match wins.  The
/// fourth pattern carries no season and records season one.
pub open spec fn regex_detect(s: Seq<char>) -> Option<(Seq<char>, int, int)> {
    match first_p1_from(s, 0) {
        Some(i) => match p1_at(s, i) {
            Some((sv, ev)) => Some((fallback_name(s, i), sv, ev)),
            None => None,
        },
        None => match first_p2_from(s, 0) {
            Some(i) => match p2_at(s, i) {
                Some((sv, ev)) => Some((fallback_name(s, i), sv, ev)),
                None => None,
            },
            None => match first_p3_from(s, 0) {
                Some(i) => match p3_at(s, i) {
                    Some((sv, ev)) => Some((fallback_name(s, i), sv, ev)),
                    None => None,
                },
                None => match first_p4_from(s, 0) {
                    Some(i) => match p4_at(s, i) {
                        Some(ev) => Some((fallback_name(s, i), 1, ev)),
                        None => None,
                    },
                    None => None,
                },
            },
        },
    }
}

/// The series name and numbers for a match of pattern `p` at `i`.
fn fallback_result(v: &Vec<char>, i: usize, sv: u32, ev: u32) -> (r: Episode)
    requires
        i <= v@.len(),
    ensures
        r.series_name@ == fallback_name(v@, i as int),
        r.season == sv,
        r.episode == ev,
{
    let pre = subrange_vec(v, 0, i);
    let t = trim_vec(&pre);
    let name_vec = if t.len() > 0 {
        t
    } else {
        let whole = subrange_vec(v, 0, v.len());
        assert(whole@ =~= v@);
        whole
    };
    Episode { series_name: string_of(&name_vec), season: sv, episode: ev }
}

/// Pattern-list strategy: the fixed, ordered fallback patterns.
pub fn detect_episode_regex(title: &str) -> (r: Option<Episode>)
    ensures
        match r {
            Some(ep) => regex_detect(title@) == Some(
                (ep.series_name@, ep.season as int, ep.episode as int),
            ),
            None => regex_detect(title@) is None,
        },
{
    let v = chars_of(title);
    let n = v.len();
    let mut i: usize = 0;
    while i < n
        invariant
            i <= n,
            first_p1_from(v@, 0) == first_p1_from(v@, i as int),
        decreases n - i,
    {
        match p1_check(&v, i) {
            Some((sv, ev)) => {
                return Some(fallback_result(&v, i, sv, ev));
            },
            None => {},
        }
        i = i + 1;
    }
    let mut i: usize = 0;
    while i < n
        invariant
            i <= n,
            first_p1_from(v@, 0) is None,
            first_p2_from(v@, 0) == first_p2_from(v@, i as int),
        decreases n - i,
    {
        match p2_check(&v, i) {
            Some((sv, ev)) => {
                return Some(fallback_result(&v, i, sv, ev));
            },
            None => {},
        }
        i = i + 1;
    }
    let mut i: usize = 0;
    while i < n
        invariant
            i <= n,
            first_p1_from(v@, 0) is None,
            first_p2_from(v@, 0) is None,
            first_p3_from(v@, 0) == first_p3_from(v@, i as int),
        decreases n - i,
    {
        match p3_check(&v, i) {
            Some((sv, ev)) => {
                return Some(fallback_result(&v, i, sv, ev));
            },
            None => {},
        }
        i = i + 1;
    }
    let mut i: usize = 0;
    while i < n
        invariant
            i <= n,
            first_p1_from(v@, 0) is None,
            first_p2_from(v@, 0) is None,
            first_p3_from(v@, 0) is None,
            first_p4_from(v@, 0) == first_p4_from(v@, i as int),
        decreases n - i,
    {
        match p4_check(&v, i) {
            Some(ev) => {
                return Some(fallback_result(&v, i, 1, ev));
            },
            None => {},
        }
        i = i + 1;
    }
    None
}

/// What episode detection yields on `s`: the forward scan when it
/// succeeds, else the ordered pattern list.
pub open spec fn episode_detect(s: Seq<char>) -> Option<(Seq<char>, int, int)> {
    match manual_detect(s) {
        Some(x) => Some(x),
        None => regex_detect(s),
    }
}

/// Detect episode information in a title: the forward scan first, the
/// pattern list as fallback.
pub fn detect_episode(title: &str) -> (r: Option<Episode>)
    ensures
        match r {
            Some(ep) => episode_detect(title@) == Some(
                (ep.series_name@, ep.season as int, ep.episode as int),
            ),
            None => episode_detect(title@) is None,
        },
{
    match detect_episode_manual(title) {
        Some(ep) => Some(ep),
        None => detect_episode_regex(title),
    }
}

/// No `S`/`s` in the leading text is followed by a digit or by
/// whitespace, so neither strategy can begin a match there.
pub open spec fn plain_prefix(title: Seq<char>, plen: int) -> bool {
    forall|l: int|
        0 <= l < plen && eq_ci(#[trigger] title[l], 's') ==> !is_digit(title[l + 1]) && !is_space(
            title[l + 1],
        )
}

/// A season/episode marker fills the title from `plen` on: `S`/`s`,
/// one or two digits, `E`/`e`, one or two digits, to the end.
pub open spec fn marker_at(title: Seq<char>, plen: int, slen: int, elen: int) -> bool {
    &&& 0 <= plen
    &&& 1 <= slen <= 2
    &&& 1 <= elen <= 2
    &&& title.len() == plen + 2 + slen + elen
    &&& (title[plen] == 'S' || title[plen] == 's')
    &&& (forall|l: int| plen + 1 <= l < plen + 1 + slen ==> is_digit(#[trigger] title[l]))
    &&& (title[plen + 1 + slen] == 'E' || title[plen + 1 + slen] == 'e')
    &&& (forall|l: int| plen + 2 + slen <= l < title.len() ==> is_digit(#[trigger] title[l]))
}

proof fn lemma_manual_skip_plain(title: Seq<char>, plen: int, i: int)
    requires
        plain_prefix(title, plen),
        0 <= i <= plen,
        plen < title.len(),
    ensures
        manual_from(title, i, None) == manual_from(title, plen, None),
    decreases plen - i,
{
    if i < plen {
        if title[i] == 'S' || title[i] == 's' {
            assert(eq_ci(title[i], 's'));
            assert(!is_digit(title[i + 1]));
            assert(digits2_at(title, i + 1) is None);
        }
        lemma_manual_skip_plain(title, plen, i + 1);
    }
}

proof fn lemma_p1_skip_plain(title: Seq<char>, plen: int, i: int)
    requires
        plain_prefix(title, plen),
        0 <= i <= plen,
        plen < title.len(),
    ensures
        first_p1_from(title, i) == first_p1_from(title, plen),
    decreases plen - i,
{
    if i < plen {
        if eq_ci(title[i], 's') {
            assert(!is_space(title[i + 1]));
            assert(skip_spaces(title, i + 1) == i + 1);
            assert(!is_digit(title[i + 1]));
            assert(digits2_at(title, i + 1) is None);
            assert(p1_at(title, i) is None);
        } else {
            assert(p1_at(title, i) is None);
        }
        lemma_p1_skip_plain(title, plen, i + 1);
    }
}

/// Strategy agreement: on a title that ends in a single plain
/// season/episode marker, with no earlier `S`/`s` followed by a digit
/// or whitespace, the forward scan and the first fallback pattern
/// yield the same series name, season and episode, so the two
/// strategies cannot diverge on such titles.
pub proof fn lemma_strategies_agree(title: Seq<char>, plen: int, slen: int, elen: int)
    requires
        marker_at(title, plen, slen, elen),
        plain_prefix(title, plen),
    ensures
        manual_detect(title) is Some,
        regex_detect(title) == manual_detect(title),
{
    let epos = plen + 1 + slen;
    let sv = match digits2_at(title, plen + 1) {
        Some(v) => v,
        None => 0,
    };
    let ev = match digits2_at(title, epos + 1) {
        Some(v) => v,
        None => 0,
    };
    let ne = trim_end_idx(title, plen);

    // The digit groups are read whole: a following letter or the end
    // of the title bounds each one.
    assert(is_digit(title[plen + 1]));
    assert(digits2_at(title, plen + 1) is Some);
    assert(digits2_len(title, plen + 1) == slen) by {
        if slen == 1 {
            assert(title[plen + 2] == 'E' || title[plen + 2] == 'e');
            assert(!is_digit(title[plen + 2]));
        } else {
            assert(is_digit(title[plen + 2]));
        }
    }
    assert(is_digit(title[epos + 1]));
    assert(digits2_at(title, epos + 1) is Some);

    // The forward scan records the season at the marker and stops at
    // the episode.
    lemma_manual_skip_plain(title, plen, 0);
    assert(manual_from(title, plen, None) == manual_from(title, plen + 1, Some((sv, ne))));
    let st = Some((sv, ne));
    assert(manual_from(title, plen + 1, st) == Some((sv, ev, ne))) by {
        if slen == 2 {
            assert(is_digit(title[plen + 1]));
            assert(!(title[plen + 1] == 'E' || title[plen + 1] == 'e'));
            assert(manual_from(title, plen + 1, st) == manual_from(title, plen + 2, st));
            assert(is_digit(title[plen + 2]));
            assert(!(title[plen + 2] == 'E' || title[plen + 2] == 'e'));
            assert(manual_from(title, plen + 2, st) == manual_from(title, epos, st));
        } else {
            assert(is_digit(title[plen + 1]));
            assert(!(title[plen + 1] == 'E' || title[plen + 1] == 'e'));
            assert(manual_from(title, plen + 1, st) == manual_from(title, epos, st));
        }
        assert(manual_from(title, epos, st) == Some((sv, ev, ne)));
    }
    assert(manual_detect(title) == Some((manual_name(title, ne), sv, ev)));

    // The first fallback pattern matches exactly at the marker.
    assert(!is_space(title[plen + 1]));
    assert(skip_spaces(title, plen + 1) == plen + 1);
    assert(!is_space(title[epos]));
    assert(skip_spaces(title, plen + 1 + slen) == epos);
    assert(!is_space(title[epos + 1]));
    assert(skip_spaces(title, epos + 1) == epos + 1);
    assert(p1_at(title, plen) == Some((sv, ev)));
    lemma_p1_skip_plain(title, plen, 0);
    assert(first_p1_from(title, plen) == Some(plen));
    assert(first_p1_from(title, 0) == Some(plen));
    assert(regex_detect(title) == Some((fallback_name(title, plen), sv, ev)));

    // The two series names agree: both trim the text before the
    // marker, and both fall back to the whole title when that text is
    // all whitespace.
    lemma_trim_end_idx(title, plen);
    let u = title.take(plen);
    lemma_trim_end_take(title, plen, plen);
    assert(trim_end_idx(u, plen) == ne);
    if ne == 0 {
        assert(trim_seq(u).len() == 0) by {
            let a = skip_spaces(title, 0);
            lemma_skip_spaces(title, 0);
            assert(a == plen) by {
                if a < plen {
                    assert(is_space(title[a]));
                }
                if a > plen {
                    assert(is_space(title[plen]));
                }
            }
            lemma_skip_spaces_take(title, plen, 0);
            assert(skip_spaces(u, 0) == plen);
        }
        assert(fallback_name(title, plen) == title);
        assert(manual_name(title, ne) == title);
    } else {
        let w = title.take(ne);
        assert(!is_space(title[ne - 1]));
        let a = skip_spaces(title, 0);
        lemma_skip_spaces(title, 0);
        assert(a <= ne - 1) by {
            if a > ne - 1 {
                assert(is_space(title[ne - 1]));
            }
        }
        lemma_skip_spaces_take(title, plen, 0);
        lemma_skip_spaces_take(title, ne, 0);
        assert(skip_spaces(u, 0) == a);
        assert(skip_spaces(w, 0) == a);
        lemma_trim_end_take(title, ne, ne);
        assert(trim_end_idx(title, ne) == ne);
        assert(trim_end_idx(w, ne) == ne);
        assert(trim_seq(u) == u.subrange(a, ne));
        assert(trim_seq(w) == w.subrange(a, ne));
        assert(u.subrange(a, ne) =~= w.subrange(a, ne));
        assert(trim_seq(u).len() > 0);
        assert(fallback_name(title, plen) == trim_seq(u));
        assert(manual_name(title, ne) == trim_seq(w));
    }
}

} // verus!
