//! Classification of one entry: URL inspection for live streams, then
//! year extraction, then episode detection, in that order.

use vstd::prelude::*;
use vstd::string::StringExecFns;
use crate::text::{chars_of, find_char, find_from, rfind, rfind_char, lemma_rfind, subrange_vec};
use crate::year_detector::{detect_year, year_detect};
use crate::episode_detector::{detect_episode, episode_detect};

verus! {

/// Content classification.  Season and episode numbers exist exactly on
/// `Series`; a year, when present, lies in [1900, 2099]; a `LiveStream`
/// carries no metadata at all.
#[derive(Debug, Clone, Copy, PartialEq, Eq)]
pub enum Category {
    /// Live stream (no file extension in the URL).
    LiveStream,
    /// Movie or standalone content.
    Movie { year: Option<u32> },
    /// TV series episode.
    Series { year: Option<u32>, season: u32, episode: u32 },
}

impl Category {
    /// A year, when carried, lies in the accepted calendar range.
    pub open spec fn wf(self) -> bool {
        match self {
            Category::LiveStream => true,
            Category::Movie { year } => match year {
                Some(y) => 1900 <= y <= 2099,
                None => true,
            },
            Category::Series { year, season, episode } => match year {
                Some(y) => 1900 <= y <= 2099,
                None => true,
            },
        }
    }
}

/// Result of categorization: the classification and the title to store.
#[derive(Debug, Clone, PartialEq)]
pub struct CategorizedItem {
    pub category: Category,
    pub cleaned_title: String,
}

impl CategorizedItem {
    /// The year carried by the classification, if any.
    pub fn year(&self) -> (r: Option<u32>)
        ensures
            r == spec_year(self.category),
    {
        match self.category {
            Category::LiveStream => None,
            Category::Movie { year } => year,
            Category::Series { year, season, episode } => year,
        }
    }

    /// The season number, present exactly when the item is a series.
    pub fn season(&self) -> (r: Option<u32>)
        ensures
            r == spec_season(self.category),
    {
        match self.category {
            Category::Series { year, season, episode } => Some(season),
            _ => None,
        }
    }

    /// The episode number, present exactly when the item is a series.
    pub fn episode(&self) -> (r: Option<u32>)
        ensures
            r == spec_episode(self.category),
    {
        match self.category {
            Category::Series { year, season, episode } => Some(episode),
            _ => None,
        }
    }
}

/// The year carried by a classification.
pub open spec fn spec_year(c: Category) -> Option<u32> {
    match c {
        Category::LiveStream => None,
        Category::Movie { year } => year,
        Category::Series { year, season, episode } => year,
    }
}

/// The season carried by a classification.
pub open spec fn spec_season(c: Category) -> Option<u32> {
    match c {
        Category::Series { year, season, episode } => Some(season),
        _ => None,
    }
}

/// The episode carried by a classification.
pub open spec fn spec_episode(c: Category) -> Option<u32> {
    match c {
        Category::Series { year, season, episode } => Some(episode),
        _ => None,
    }
}

/// A URL names a live stream when the text after its last `/`, with
/// anything from the first `?` on removed, contains no `.`; a URL with
/// no `/` at all is not a live stream.
pub open spec fn is_live(url: Seq<char>) -> bool {
    match rfind(url, '/') {
        None => false,
        Some(k) => {
            let filename = url.subrange(k + 1, url.len() as int);
            let fq = filename.subrange(0, find_from(filename, 0, '?'));
            find_from(fq, 0, '.') == fq.len()
        },
    }
}

/// What categorization yields on a title and URL: the classification
/// and the title to store.  A live-stream URL short-circuits with the
/// title unmodified; otherwise the year is extracted first and episode
/// detection runs on the year-cleaned title.
pub open spec fn categorize_spec(title: Seq<char>, url: Seq<char>) -> (Category, Seq<char>) {
    if is_live(url) {
        (Category::LiveStream, title)
    } else {
        let wt = match year_detect(title) {
            Some((y, cleaned)) => cleaned,
            None => title,
        };
        let year = match year_detect(title) {
            Some((y, cleaned)) => Some(y as u32),
            None => None,
        };
        match episode_detect(wt) {
            Some((name, sv, ev)) => (
                Category::Series { year, season: sv as u32, episode: ev as u32 },
                name,
            ),
            None => (Category::Movie { year }, wt),
        }
    }
}

/// Detect whether a URL names a live stream (no file extension).
pub fn is_live_stream(url: &str) -> (r: bool)
    ensures
        r == is_live(url@),
{
    let v = chars_of(url);
    match rfind_char(&v, '/') {
        None => false,
        Some(k) => {
            proof {
                lemma_rfind(v@, '/');
            }
            let n = v.len();
            assert(k < n);
            let filename = subrange_vec(&v, k + 1, n);
            let q = find_char(&filename, 0, '?');
            let fq = subrange_vec(&filename, 0, q);
            let d = find_char(&fq, 0, '.');
            d == fq.len()
        },
    }
}

/// Categorize an item from its title and URL, extracting all metadata.
///
/// A URL without a file extension is a live stream and the title is
/// stored unmodified.  Otherwise a year is split off the title when
/// present, then episode markers are sought in the remaining text: a
/// match makes the item a series under the detected series name, and
/// anything else is a movie under the (possibly year-cleaned) title.
pub fn categorize_item(title: &str, url: &str) -> (r: CategorizedItem)
    ensures
        r.category == categorize_spec(title@, url@).0,
        r.cleaned_title@ == categorize_spec(title@, url@).1,
        r.category.wf(),
{
    if is_live_stream(url) {
        return CategorizedItem {
            category: Category::LiveStream,
            cleaned_title: String::from_str(title),
        };
    }
    let mut year: Option<u32> = None;
    let working: String = match detect_year(title) {
        Some(info) => {
            year = Some(info.year);
            info.cleaned_title
        },
        None => String::from_str(title),
    };
    match detect_episode(working.as_str()) {
        Some(ep) => CategorizedItem {
            category: Category::Series { year, season: ep.season, episode: ep.episode },
            cleaned_title: ep.series_name,
        },
        None => CategorizedItem { category: Category::Movie { year }, cleaned_title: working },
    }
}

} // verus!
