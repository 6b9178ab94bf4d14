//! A parsed feed: its title and its entries in document order.

use vstd::prelude::*;

verus! {

/// An entry's key when it has no link. Every linkless entry of a feed gets this
/// same key, so once one of them is seen, later linkless entries count as seen too.
pub const NO_LINK: &'static str = "No link";

/// The report title of an entry without a title.
pub const NO_TITLE: &'static str = "No title";

/// The report description of an entry without a description.
pub const NO_DESCRIPTION: &'static str = "No description";

pub open spec fn no_link_key() -> Seq<char> {
    seq!['N', 'o', ' ', 'l', 'i', 'n', 'k']
}

pub open spec fn no_title_text() -> Seq<char> {
    seq!['N', 'o', ' ', 't', 'i', 't', 'l', 'e']
}

pub open spec fn no_description_text() -> Seq<char> {
    seq!['N', 'o', ' ', 'd', 'e', 's', 'c', 'r', 'i', 'p', 't', 'i', 'o', 'n']
}

pub open spec fn opt_view(o: Option<String>) -> Option<Seq<char>> {
    match o {
        Some(s) => Some(s@),
        None => None,
    }
}

/// The text of `o`, or `d` when it is absent.
pub open spec fn text_or(o: Option<Seq<char>>, d: Seq<char>) -> Seq<char> {
    match o {
        Some(s) => s,
        None => d,
    }
}

/// What the logic reads of one entry.
pub struct EntryModel {
    pub title: Option<Seq<char>>,
    pub link: Option<Seq<char>>,
    pub description: Option<Seq<char>>,
    pub enclosure: Option<Seq<char>>,
}

/// What the logic reads of one feed.
pub struct FeedModel {
    pub title: Seq<char>,
    pub entries: Seq<EntryModel>,
}

/// The key that decides whether an entry is new: its link, or the shared
/// linkless key.
pub open spec fn entry_key(e: EntryModel) -> Seq<char> {
    text_or(e.link, no_link_key())
}

/// One entry of a feed.
#[derive(Debug)]
pub struct FeedEntry {
    pub title: Option<String>,
    pub link: Option<String>,
    pub description: Option<String>,
    /// The URL of the media file attached to the entry.
    pub enclosure: Option<String>,
}

impl View for FeedEntry {
    type V = EntryModel;

    open spec fn view(&self) -> EntryModel {
        EntryModel {
            title: opt_view(self.title),
            link: opt_view(self.link),
            description: opt_view(self.description),
            enclosure: opt_view(self.enclosure),
        }
    }
}

pub open spec fn entries_model(es: Seq<FeedEntry>) -> Seq<EntryModel> {
    es.map_values(|e: FeedEntry| e@)
}

/// A parsed feed.
#[derive(Debug)]
pub struct Feed {
    pub title: String,
    pub entries: Vec<FeedEntry>,
}

impl View for Feed {
    type V = FeedModel;

    open spec fn view(&self) -> FeedModel {
        FeedModel { title: self.title@, entries: entries_model(self.entries@) }
    }
}

/// Why a feed could not be taken in.
#[derive(Debug, PartialEq, Eq, Structural)]
pub enum FeedError {
    /// The fetched document is not a feed that can be read.
    Parse,
}

/// The text of `o`, or `d` when it is absent.
pub fn text_or_default(o: &Option<String>, d: &str) -> (r: String)
    ensures
        r@ == text_or(opt_view(*o), d@),
{
    match o {
        Some(s) => s.clone(),
        None => d.to_owned(),
    }
}

impl FeedEntry {
    /// The entry's key: its link, or [`NO_LINK`] when it has none.
    pub fn key(&self) -> (r: String)
        ensures
            r@ == entry_key(self@),
    {
        proof {
            reveal_strlit("No link");
        }
        text_or_default(&self.link, NO_LINK)
    }
}

/// What `rss::Channel::read_from` makes of the document `xml`, when it reads it.
pub uninterp spec fn rss_channel(xml: Seq<u8>) -> Option<FeedModel>;

#[verifier::external_type_specification]
#[verifier::external_body]
pub struct ExRssError(rss::Error);

/// Relies on `rss::Channel::read_from`, which parses an RSS document from bytes
/// and depends on those bytes alone; the channel's title and, for each item, its
/// title, link, description and enclosure URL are copied out.
#[verifier::external_body]
fn read_channel(xml: &[u8]) -> (r: Result<Feed, rss::Error>)
    ensures
        match r {
            Ok(f) => rss_channel(xml@) == Some(f@),
            Err(_) => rss_channel(xml@) is None,
        },
{
    let c = rss::Channel::read_from(xml)?;
    let entries = c.items().iter().map(|i| FeedEntry {
        title: i.title().map(String::from),
        link: i.link().map(String::from),
        description: i.description().map(String::from),
        enclosure: i.enclosure().map(|e| e.url().to_string()),
    }).collect();
    Ok(Feed { title: c.title().to_string(), entries })
}

/// Parses an RSS document.
pub fn parse_feed(xml: &[u8]) -> (r: Result<Feed, FeedError>)
    ensures
        match r {
            Ok(f) => rss_channel(xml@) == Some(f@),
            Err(e) => rss_channel(xml@) is None && e == FeedError::Parse,
        },
{
    match read_channel(xml) {
        Ok(f) => Ok(f),
        Err(_) => Err(FeedError::Parse),
    }
}

} // verus!
