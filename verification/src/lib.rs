//! A verified parser for extended-M3U playlist documents.
//!
//! The crate turns a playlist document into a sequence of catalog entries,
//! each carrying a title, a stream URL, a display group, an optional logo and
//! a derived classification (live stream, movie, or series episode with
//! season/episode/year metadata), and groups the entries into a navigable
//! tree of named categories with filtered and sorted read views.
#![verifier::loop_isolation(false)]

pub mod categorizer;
pub mod category_tree;
pub mod episode_detector;
pub mod parser;
pub mod text;
pub mod year_detector;

pub use categorizer::{categorize_item, is_live_stream, Category, CategorizedItem};
pub use category_tree::{CategoryNode, CategoryTree, UserItemPrefs};
pub use episode_detector::{detect_episode, detect_episode_manual, detect_episode_regex, Episode};
pub use parser::{M3UParser, ParseError};
pub use text::lower_of;
pub use year_detector::{detect_year, YearInfo};

use vstd::prelude::*;

verus! {

/// One parsed catalog entry: the cleaned title, the stream URL (opaque,
/// used only for extension sniffing), the raw display group (empty is a
/// valid raw value), an optional logo URL and the derived
/// classification.
#[derive(Debug, Clone, PartialEq)]
pub struct M3UItem {
    pub title: String,
    pub url: String,
    pub group: String,
    pub logo: Option<String>,
    pub category: Category,
}

impl M3UItem {
    /// The stored title.
    pub fn title(&self) -> (r: String)
        ensures
            r == self.title,
    {
        self.title.clone()
    }

    /// The stream URL.
    pub fn url(&self) -> (r: String)
        ensures
            r == self.url,
    {
        self.url.clone()
    }

    /// The raw group label.
    pub fn group(&self) -> (r: String)
        ensures
            r == self.group,
    {
        self.group.clone()
    }

    /// The logo URL, if one was given.
    pub fn logo(&self) -> (r: Option<String>)
        ensures
            match r {
                Some(l) => self.logo == Some(l),
                None => self.logo is None,
            },
    {
        match &self.logo {
            Some(l) => Some(l.clone()),
            None => None,
        }
    }

    /// The year carried by the classification, if any.
    pub fn year(&self) -> (r: Option<u32>)
        ensures
            r == categorizer::spec_year(self.category),
    {
        match self.category {
            Category::LiveStream => None,
            Category::Movie { year } => year,
            Category::Series { year, season, episode } => year,
        }
    }

    /// The season number, present exactly when the item is a series.
    pub fn season(&self) -> (r: Option<u32>)
        ensures
            r == categorizer::spec_season(self.category),
    {
        match self.category {
            Category::Series { year, season, episode } => Some(season),
            _ => None,
        }
    }

    /// The episode number, present exactly when the item is a series.
    pub fn episode(&self) -> (r: Option<u32>)
        ensures
            r == categorizer::spec_episode(self.category),
    {
        match self.category {
            Category::Series { year, season, episode } => Some(episode),
            _ => None,
        }
    }
}

/// Parse a playlist document into categorized items.
pub fn parse_m3u(content: &str) -> (r: Result<Vec<M3UItem>, ParseError>)
    ensures
        match r {
            Ok(items) => {
                &&& parser::parse_doc(content@) is Ok
                &&& items@.len() == parser::parse_doc(content@).unwrap().len()
                &&& forall|i: int|
                    0 <= i < items@.len() ==> parser::item_matches(
                        #[trigger] items@[i],
                        parser::parse_doc(content@).unwrap()[i],
                    )
            },
            Err(e) => parser::parse_doc(content@) == Err::<Seq<parser::ItemData>, ParseError>(e),
        },
{
    let p = M3UParser::new(content);
    p.parse()
}

} // verus!
