//! The playlist reader: line scanning with cursor advancement, header
//! validation, pairing of metadata and URL lines with comment and blank
//! noise skipped, and per-entry attribute extraction.

use vstd::prelude::*;
use crate::text::{
    check_sub_at, chars_of, find_char, find_from, find_sub, find_sub_from, lemma_find_from,
    lemma_find_sub_from, lemma_rfind, rfind, rfind_char, starts_with, string_of, sub_at,
    subrange_vec, trim_seq, trim_vec,
};
use crate::categorizer::{categorize_item, categorize_spec, Category};
use crate::M3UItem;

verus! {

/// The fields of one parsed entry, as mathematical values: title, URL,
/// group, optional logo and classification.
pub type ItemData = (Seq<char>, Seq<char>, Seq<char>, Option<Seq<char>>, Category);

/// A parse failure.  All other malformations are tolerated by dropping
/// the offending entry.
#[derive(Debug, Clone, Copy, PartialEq, Eq)]
pub enum ParseError {
    /// The input yields no line at all.
    EmptyInput,
    /// The first line does not begin with the required header token.
    MissingHeader,
}

impl ParseError {
    /// A human-readable description of the failure.
    pub fn message(&self) -> (r: String)
        ensures
            *self is EmptyInput ==> r@ == "Empty file"@,
            *self is MissingHeader ==> r@ == "Invalid M3U file: missing #EXTM3U header"@,
    {
        match self {
            ParseError::EmptyInput => "Empty file".to_owned(),
            ParseError::MissingHeader => "Invalid M3U file: missing #EXTM3U header".to_owned(),
        }
    }
}

/// `line` with every trailing carriage return removed.
pub open spec fn strip_cr(line: Seq<char>) -> Seq<char>
    decreases line.len(),
{
    if line.len() > 0 && line.last() == '\r' {
        strip_cr(line.drop_last())
    } else {
        line
    }
}

/// The next logical line from `pos`: the text up to the next newline
/// (or the end), trailing carriage returns removed, together with the
/// cursor position after the line.
pub open spec fn next_line(s: Seq<char>, pos: int) -> Option<(Seq<char>, int)> {
    if 0 <= pos < s.len() {
        let e = find_from(s, pos, '\n');
        Some(
            (
                strip_cr(s.subrange(pos, e)),
                if e < s.len() {
                    e + 1
                } else {
                    e
                },
            ),
        )
    } else {
        None
    }
}

pub(crate) proof fn lemma_next_line(s: Seq<char>, pos: int)
    requires
        0 <= pos,
    ensures
        match next_line(s, pos) {
            Some((l, p2)) => pos < p2 <= s.len(),
            None => true,
        },
{
    if pos < s.len() {
        lemma_find_from(s, pos, '\n');
    }
}

/// The next metadata line at or after `pos`: lines whose trimmed text
/// does not begin with the metadata token are skipped.
pub open spec fn find_meta(s: Seq<char>, pos: int) -> Option<(Seq<char>, int)>
    decreases s.len() - pos,
    when 0 <= pos
    via find_meta_dec
{
    match next_line(s, pos) {
        None => None,
        Some((line, p2)) => {
            if starts_with(trim_seq(line), "#EXTINF"@) {
                Some((line, p2))
            } else {
                find_meta(s, p2)
            }
        },
    }
}

#[via_fn]
proof fn find_meta_dec(s: Seq<char>, pos: int) {
    lemma_next_line(s, pos);
}

/// The next URL line at or after `pos`: the first line whose trimmed
/// text is non-empty and does not begin with `#`.
pub open spec fn find_url(s: Seq<char>, pos: int) -> Option<(Seq<char>, int)>
    decreases s.len() - pos,
    when 0 <= pos
    via find_url_dec
{
    match next_line(s, pos) {
        None => None,
        Some((line, p2)) => {
            let t = trim_seq(line);
            if t.len() > 0 && t[0] != '#' {
                Some((line, p2))
            } else {
                find_url(s, p2)
            }
        },
    }
}

#[via_fn]
proof fn find_url_dec(s: Seq<char>, pos: int) {
    lemma_next_line(s, pos);
}

/// The next raw entry at or after `pos`: a metadata line and its URL
/// line.  An entry whose URL line never comes is discarded.
pub open spec fn read_entry_s(s: Seq<char>, pos: int) -> Option<(Seq<char>, Seq<char>, int)> {
    match find_meta(s, pos) {
        None => None,
        Some((m, p1)) => match find_url(s, p1) {
            None => None,
            Some((u, p2)) => Some((m, u, p2)),
        },
    }
}

pub(crate) proof fn lemma_find_meta(s: Seq<char>, pos: int)
    requires
        0 <= pos,
    ensures
        match find_meta(s, pos) {
            Some((m, p2)) => pos < p2 <= s.len(),
            None => true,
        },
    decreases s.len() - pos,
{
    lemma_next_line(s, pos);
    match next_line(s, pos) {
        None => {},
        Some((line, p2)) => {
            if !starts_with(trim_seq(line), "#EXTINF"@) {
                lemma_find_meta(s, p2);
            }
        },
    }
}

pub(crate) proof fn lemma_find_url(s: Seq<char>, pos: int)
    requires
        0 <= pos,
    ensures
        match find_url(s, pos) {
            Some((u, p2)) => pos < p2 <= s.len(),
            None => true,
        },
    decreases s.len() - pos,
{
    lemma_next_line(s, pos);
    match next_line(s, pos) {
        None => {},
        Some((line, p2)) => {
            let t = trim_seq(line);
            if !(t.len() > 0 && t[0] != '#') {
                lemma_find_url(s, p2);
            }
        },
    }
}

pub(crate) proof fn lemma_read_entry_s(s: Seq<char>, pos: int)
    requires
        0 <= pos,
    ensures
        match read_entry_s(s, pos) {
            Some((m, u, p2)) => pos < p2 <= s.len(),
            None => true,
        },
{
    lemma_find_meta(s, pos);
    match find_meta(s, pos) {
        None => {},
        Some((m, p1)) => {
            lemma_find_url(s, p1);
        },
    }
}

/// The value of the first occurrence of `key` in `attrs`: the text from
/// just after the key up to the next double quote, or nothing when the
/// key is absent or the closing quote never comes.
pub open spec fn attr_value(attrs: Seq<char>, key: Seq<char>) -> Option<Seq<char>> {
    match find_sub_from(attrs, key, 0) {
        None => None,
        Some(p) => {
            let rest = attrs.subrange(p + key.len(), attrs.len() as int);
            let q = find_from(rest, 0, '"');
            if q < rest.len() {
                Some(rest.subrange(0, q))
            } else {
                None
            }
        },
    }
}

/// What one raw entry yields: the title is the trimmed text after the
/// last comma of the metadata line (an entry without a comma is
/// dropped), the group and logo come from the first occurrence of their
/// quoted attributes, and the classification and stored title come from
/// categorization of the extracted title against the trimmed URL.
pub open spec fn parse_entry_s(meta: Seq<char>, url_raw: Seq<char>) -> Option<ItemData> {
    let url = trim_seq(url_raw);
    match rfind(meta, ',') {
        None => None,
        Some(cp) => {
            let title = trim_seq(meta.subrange(cp + 1, meta.len() as int));
            let attrs = meta.subrange(0, cp);
            let logo = attr_value(attrs, "tvg-logo=\""@);
            let group = match attr_value(attrs, "group-title=\""@) {
                Some(g) => g,
                None => Seq::empty(),
            };
            let cat = categorize_spec(title, url);
            Some((cat.1, url, group, logo, cat.0))
        },
    }
}

/// All entries from `pos` on, in order, entries without a comma
/// dropped.
pub open spec fn entries_from(s: Seq<char>, pos: int) -> Seq<ItemData>
    decreases s.len() - pos,
    when 0 <= pos
    via entries_from_dec
{
    match read_entry_s(s, pos) {
        None => Seq::empty(),
        Some((m, u, p2)) => match parse_entry_s(m, u) {
            None => entries_from(s, p2),
            Some(t) => seq![t] + entries_from(s, p2),
        },
    }
}

#[via_fn]
proof fn entries_from_dec(s: Seq<char>, pos: int) {
    lemma_read_entry_s(s, pos);
}

/// What parsing yields on a whole document: a failure when there is no
/// line at all or the first line lacks the header token, else the
/// entries after the header line.
pub open spec fn parse_doc(s: Seq<char>) -> Result<Seq<ItemData>, ParseError> {
    match next_line(s, 0) {
        None => Err(ParseError::EmptyInput),
        Some((line, p)) => {
            if starts_with(trim_seq(line), "#EXTM3U"@) {
                Ok(entries_from(s, p))
            } else {
                Err(ParseError::MissingHeader)
            }
        },
    }
}

/// An executable item carries exactly the fields of an entry datum.
pub open spec fn item_matches(item: M3UItem, t: ItemData) -> bool {
    &&& item.title@ == t.0
    &&& item.url@ == t.1
    &&& item.group@ == t.2
    &&& (match item.logo {
        Some(l) => t.3 == Some(l@),
        None => t.3 is None,
    })
    &&& item.category == t.4
}

/// Read one logical line, advancing the cursor past it.
fn read_line(v: &Vec<char>, pos: &mut usize) -> (r: Option<Vec<char>>)
    requires
        *old(pos) <= v@.len(),
    ensures
        match r {
            Some(line) => next_line(v@, *old(pos) as int) == Some((line@, *final (pos) as int))
                && *old(pos) < *final (pos) <= v@.len(),
            None => next_line(v@, *old(pos) as int) is None && *final (pos) == *old(pos),
        },
{
    let n = v.len();
    if *pos >= n {
        return None;
    }
    let start = *pos;
    let e = find_char(v, start, '\n');
    proof {
        lemma_find_from(v@, start as int, '\n');
    }
    let raw = subrange_vec(v, start, e);
    let mut end: usize = raw.len();
    assert(raw@.subrange(0, end as int) =~= raw@);
    while end > 0 && raw[end - 1] == '\r'
        invariant
            end <= raw@.len(),
            strip_cr(raw@) == strip_cr(raw@.subrange(0, end as int)),
        decreases end,
    {
        assert(raw@.subrange(0, end as int).drop_last() =~= raw@.subrange(0, end - 1));
        assert(raw@.subrange(0, end as int).last() == raw@[end - 1]);
        end = end - 1;
    }
    let line = subrange_vec(&raw, 0, end);
    proof {
        if end > 0 {
            assert(raw@.subrange(0, end as int).last() == raw@[end - 1]);
        }
    }
    *pos = if e < n {
        e + 1
    } else {
        e
    };
    Some(line)
}

/// Scan forward to the next metadata line.
fn find_meta_line(v: &Vec<char>, pos: &mut usize) -> (r: Option<Vec<char>>)
    requires
        *old(pos) <= v@.len(),
    ensures
        match r {
            Some(m) => find_meta(v@, *old(pos) as int) == Some((m@, *final (pos) as int)) && *old(
                pos,
            ) < *final (pos) <= v@.len(),
            None => find_meta(v@, *old(pos) as int) is None && *old(pos) <= *final (pos)
                <= v@.len(),
        },
{
    let hdr = chars_of("#EXTINF");
    loop
        invariant
            *old(pos) <= *pos <= v@.len(),
            find_meta(v@, *old(pos) as int) == find_meta(v@, *pos as int),
        decreases v@.len() - *pos,
    {
        match read_line(v, pos) {
            None => {
                return None;
            },
            Some(line) => {
                let t = trim_vec(&line);
                if t.len() >= hdr.len() && check_sub_at(&t, &hdr, 0) {
                    return Some(line);
                }
            },
        }
    }
}

/// Scan forward to the next non-blank, non-comment line.
fn find_url_line(v: &Vec<char>, pos: &mut usize) -> (r: Option<Vec<char>>)
    requires
        *old(pos) <= v@.len(),
    ensures
        match r {
            Some(u) => find_url(v@, *old(pos) as int) == Some((u@, *final (pos) as int)) && *old(
                pos,
            ) < *final (pos) <= v@.len(),
            None => find_url(v@, *old(pos) as int) is None && *old(pos) <= *final (pos)
                <= v@.len(),
        },
{
    loop
        invariant
            *old(pos) <= *pos <= v@.len(),
            find_url(v@, *old(pos) as int) == find_url(v@, *pos as int),
        decreases v@.len() - *pos,
    {
        match read_line(v, pos) {
            None => {
                return None;
            },
            Some(line) => {
                let t = trim_vec(&line);
                if t.len() > 0 && t[0] != '#' {
                    return Some(line);
                }
            },
        }
    }
}

/// Read the next entry: a metadata line paired with its URL line.
fn read_entry(v: &Vec<char>, pos: &mut usize) -> (r: Option<(Vec<char>, Vec<char>)>)
    requires
        *old(pos) <= v@.len(),
    ensures
        match r {
            Some((m, u)) => read_entry_s(v@, *old(pos) as int) == Some(
                (m@, u@, *final (pos) as int),
            ) && *old(pos) < *final (pos) <= v@.len(),
            None => read_entry_s(v@, *old(pos) as int) is None && *old(pos) <= *final (pos)
                <= v@.len(),
        },
{
    match find_meta_line(v, pos) {
        None => None,
        Some(m) => {
            match find_url_line(v, pos) {
                None => None,
                Some(u) => Some((m, u)),
            }
        },
    }
}

/// Extract the first value of the quoted attribute `key` from `attrs`.
fn attr_value_exec(attrs: &Vec<char>, key: &Vec<char>) -> (r: Option<Vec<char>>)
    ensures
        match r {
            Some(val) => attr_value(attrs@, key@) == Some(val@),
            None => attr_value(attrs@, key@) is None,
        },
{
    match find_sub(attrs, key, 0) {
        None => None,
        Some(p) => {
            proof {
                lemma_find_sub_from(attrs@, key@, 0);
            }
            let n = attrs.len();
            assert(p + key@.len() <= n);
            let rest = subrange_vec(attrs, p + key.len(), n);
            let q = find_char(&rest, 0, '"');
            if q < rest.len() {
                Some(subrange_vec(&rest, 0, q))
            } else {
                None
            }
        },
    }
}

/// Parse a single raw entry into an item, or drop it.
fn parse_entry(meta: &Vec<char>, url_raw: &Vec<char>) -> (r: Option<M3UItem>)
    ensures
        match r {
            Some(item) => parse_entry_s(meta@, url_raw@) is Some && item_matches(
                item,
                parse_entry_s(meta@, url_raw@).unwrap(),
            ),
            None => parse_entry_s(meta@, url_raw@) is None,
        },
{
    let url_t = trim_vec(url_raw);
    match rfind_char(meta, ',') {
        None => None,
        Some(cp) => {
            proof {
                lemma_rfind(meta@, ',');
            }
            let n = meta.len();
            assert(cp < n);
            let after = subrange_vec(meta, cp + 1, n);
            let title_v = trim_vec(&after);
            let attrs = subrange_vec(meta, 0, cp);
            let logo_key = chars_of("tvg-logo=\"");
            let group_key = chars_of("group-title=\"");
            let logo: Option<String> = match attr_value_exec(&attrs, &logo_key) {
                Some(val) => Some(string_of(&val)),
                None => None,
            };
            let group: String = match attr_value_exec(&attrs, &group_key) {
                Some(val) => string_of(&val),
                None => String::new(),
            };
            let title = string_of(&title_v);
            let url = string_of(&url_t);
            let ci = categorize_item(title.as_str(), url.as_str());
            Some(
                M3UItem {
                    title: ci.cleaned_title,
                    url,
                    group,
                    logo,
                    category: ci.category,
                },
            )
        },
    }
}

/// Read the first line and test it for the header token.
fn read_header(v: &Vec<char>, pos: &mut usize) -> (r: Result<bool, ParseError>)
    requires
        *old(pos) <= v@.len(),
    ensures
        match r {
            Ok(b) => next_line(v@, *old(pos) as int) is Some && b == starts_with(
                trim_seq(next_line(v@, *old(pos) as int).unwrap().0),
                "#EXTM3U"@,
            ) && *final (pos) == next_line(v@, *old(pos) as int).unwrap().1 && *old(pos) < *final (
                pos
            ) && *final (pos) <= v@.len(),
            Err(e) => next_line(v@, *old(pos) as int) is None && e == ParseError::EmptyInput
                && *final (pos) == *old(pos),
        },
{
    match read_line(v, pos) {
        None => Err(ParseError::EmptyInput),
        Some(line) => {
            let t = trim_vec(&line);
            let tok = chars_of("#EXTM3U");
            Ok(t.len() >= tok.len() && check_sub_at(&t, &tok, 0))
        },
    }
}

/// Streaming reader over one playlist document.
pub struct M3UParser<'a> {
    pub content: &'a str,
}

impl<'a> M3UParser<'a> {
    /// A reader over the given document text.
    pub fn new(content: &'a str) -> (r: Self)
        ensures
            r.content@ == content@,
    {
        M3UParser { content }
    }

    /// Parse the document into items.
    ///
    /// Fails exactly when the document yields no line at all or its
    /// first line does not begin with the header token; every other
    /// malformation drops the offending entry and parsing continues.
    pub fn parse(&self) -> (r: Result<Vec<M3UItem>, ParseError>)
        ensures
            match r {
                Ok(items) => {
                    &&& parse_doc(self.content@) is Ok
                    &&& items@.len() == parse_doc(self.content@).unwrap().len()
                    &&& forall|i: int|
                        0 <= i < items@.len() ==> item_matches(
                            #[trigger] items@[i],
                            parse_doc(self.content@).unwrap()[i],
                        )
                },
                Err(e) => parse_doc(self.content@) == Err::<Seq<ItemData>, ParseError>(e),
            },
    {
        let v = chars_of(self.content);
        let mut pos: usize = 0;
        match read_header(&v, &mut pos) {
            Err(e) => {
                return Err(e);
            },
            Ok(false) => {
                return Err(ParseError::MissingHeader);
            },
            Ok(true) => {},
        }
        let ghost hp: int = pos as int;
        let mut items: Vec<M3UItem> = Vec::new();
        let mut acc: Ghost<Seq<ItemData>> = Ghost(Seq::empty());
        let mut done = false;
        while !done
            invariant
                pos <= v@.len(),
                items@.len() == acc@.len(),
                forall|i: int|
                    0 <= i < acc@.len() ==> item_matches(#[trigger] items@[i], acc@[i]),
                !done ==> entries_from(v@, hp) == acc@ + entries_from(v@, pos as int),
                done ==> entries_from(v@, hp) == acc@,
            decreases v@.len() - pos + (if done {
                0int
            } else {
                1int
            }),
        {
            let ghost pre: int = pos as int;
            match read_entry(&v, &mut pos) {
                None => {
                    proof {
                        assert(entries_from(v@, pre) =~= Seq::<ItemData>::empty());
                        assert(acc@ + Seq::<ItemData>::empty() =~= acc@);
                    }
                    done = true;
                },
                Some((m, u)) => {
                    match parse_entry(&m, &u) {
                        None => {
                            proof {
                                assert(entries_from(v@, pre) == entries_from(v@, pos as int));
                            }
                        },
                        Some(item) => {
                            items.push(item);
                            let ghost t0 = parse_entry_s(m@, u@).unwrap();
                            proof {
                                assert(entries_from(v@, pre) == seq![t0] + entries_from(
                                    v@,
                                    pos as int,
                                ));
                                assert(acc@ + entries_from(v@, pre) =~= (acc@ + seq![t0])
                                    + entries_from(v@, pos as int));
                            }
                            acc = Ghost(acc@ + seq![t0]);
                        },
                    }
                },
            }
        }
        Ok(items)
    }
}

} // verus!
