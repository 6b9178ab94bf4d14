//! Deciding which entries of a fetched feed are new, and recording them as seen.

use vstd::prelude::*;
use crate::feed::{
    entries_model, entry_key, no_description_text, no_title_text, parse_feed, rss_channel,
    text_or, opt_view, EntryModel, FeedEntry, FeedError, NO_DESCRIPTION, NO_TITLE,
    text_or_default,
};
use crate::store::{seen_of, SeenItems};

verus! {

/// The keys of the entries `es`.
pub open spec fn keys_of(es: Seq<EntryModel>) -> Set<Seq<char>> {
    Set::new(|k: Seq<char>| exists|i: int| 0 <= i < es.len() && entry_key(es[i]) == k)
}

/// The entries of `es` that are new, in order, when the keys `seen` are already
/// known: an entry is new when its key is neither in `seen` nor the key of an
/// earlier entry of `es`.
pub open spec fn fresh(seen: Set<Seq<char>>, es: Seq<EntryModel>) -> Seq<EntryModel>
    decreases es.len(),
{
    if es.len() == 0 {
        Seq::empty()
    } else {
        let prev = es.drop_last();
        if seen.union(keys_of(prev)).contains(entry_key(es.last())) {
            fresh(seen, prev)
        } else {
            fresh(seen, prev).push(es.last())
        }
    }
}

/// The store `m` after the entries `es` of feed `u` have been processed: the
/// feed is known, and every entry's key is recorded for it.
pub open spec fn after_feed(
    m: Map<Seq<char>, Set<Seq<char>>>,
    u: Seq<char>,
    es: Seq<EntryModel>,
) -> Map<Seq<char>, Set<Seq<char>>> {
    m.insert(u, seen_of(m, u).union(keys_of(es)))
}

/// What is reported of a new entry.
pub struct ReportModel {
    pub title: Seq<char>,
    pub link: Seq<char>,
    pub description: Seq<char>,
    pub enclosure: Option<Seq<char>>,
}

pub open spec fn report_of(e: EntryModel) -> ReportModel {
    ReportModel {
        title: text_or(e.title, no_title_text()),
        link: entry_key(e),
        description: text_or(e.description, no_description_text()),
        enclosure: e.enclosure,
    }
}

/// The report of one new entry: its title, link and description, with fixed
/// texts in place of absent ones, and the enclosure to download, if any.
#[derive(Debug)]
pub struct NewItem {
    pub title: String,
    pub link: String,
    pub description: String,
    pub enclosure: Option<String>,
}

impl View for NewItem {
    type V = ReportModel;

    open spec fn view(&self) -> ReportModel {
        ReportModel {
            title: self.title@,
            link: self.link@,
            description: self.description@,
            enclosure: opt_view(self.enclosure),
        }
    }
}

/// The reports of the entries `es`, in order.
pub open spec fn reports_of(es: Seq<EntryModel>) -> Seq<ReportModel> {
    es.map_values(|e: EntryModel| report_of(e))
}

pub open spec fn reports_model(rs: Seq<NewItem>) -> Seq<ReportModel> {
    rs.map_values(|r: NewItem| r@)
}

/// The reports of the entries `es` that are new for feed `u` in the store `m`.
pub open spec fn new_reports(
    m: Map<Seq<char>, Set<Seq<char>>>,
    u: Seq<char>,
    es: Seq<EntryModel>,
) -> Seq<ReportModel> {
    reports_of(fresh(seen_of(m, u), es))
}

proof fn lemma_keys_of_push(es: Seq<EntryModel>, i: int)
    requires
        0 <= i < es.len(),
    ensures
        keys_of(es.take(i + 1)) == keys_of(es.take(i)).insert(entry_key(es[i])),
        es.take(i + 1).drop_last() == es.take(i),
        es.take(i + 1).last() == es[i],
{
    let a = es.take(i + 1);
    let b = es.take(i);
    assert(a.drop_last() =~= b);
    assert forall|k: Seq<char>| #[trigger] keys_of(a).contains(k) == keys_of(b).insert(entry_key(es[i])).contains(k) by {
        if keys_of(a).contains(k) {
            let j = choose|j: int| 0 <= j < a.len() && entry_key(a[j]) == k;
            if j < i {
                assert(b[j] == a[j]);
            }
        }
        if keys_of(b).contains(k) {
            let j = choose|j: int| 0 <= j < b.len() && entry_key(b[j]) == k;
            assert(a[j] == b[j]);
        }
        if k == entry_key(es[i]) {
            assert(a[i] == es[i]);
        }
    }
    assert(keys_of(a) =~= keys_of(b).insert(entry_key(es[i])));
}

fn report(e: &FeedEntry) -> (r: NewItem)
    ensures
        r@ == report_of(e@),
{
    proof {
        reveal_strlit("No title");
        reveal_strlit("No description");
        assert(NO_TITLE@ == no_title_text());
        assert(NO_DESCRIPTION@ == no_description_text());
    }
    let enclosure = match &e.enclosure {
        Some(s) => Some(s.clone()),
        None => None,
    };
    assert(opt_view(enclosure) == e@.enclosure);
    NewItem {
        title: text_or_default(&e.title, NO_TITLE),
        link: e.key(),
        description: text_or_default(&e.description, NO_DESCRIPTION),
        enclosure,
    }
}

/// Processes the entries of feed `url`, in order: reports each new one, and
/// records the key of every entry as seen for the feed. The result does not
/// depend on whether any enclosure is later downloaded.
pub fn plan_feed(store: &mut SeenItems, url: &str, entries: &Vec<FeedEntry>) -> (r: Vec<NewItem>)
    requires
        old(store).wf(),
    ensures
        final(store).wf(),
        final(store)@ == after_feed(old(store)@, url@, entries_model(entries@)),
        reports_model(r@) == new_reports(old(store)@, url@, entries_model(entries@)),
{
    let ghost m0 = store@;
    let ghost s0 = seen_of(m0, url@);
    let ghost es = entries_model(entries@);
    store.add_feed(url);
    proof {
        assert(keys_of(es.take(0)) =~= Set::empty());
        assert(s0.union(keys_of(es.take(0))) =~= s0);
        assert(fresh(s0, es.take(0)) =~= Seq::<EntryModel>::empty());
    }
    let mut out: Vec<NewItem> = Vec::new();
    let mut i: usize = 0;
    while i < entries.len()
        invariant
            i <= entries@.len(),
            es == entries_model(entries@),
            s0 == seen_of(m0, url@),
            store.wf(),
            store@ == after_feed(m0, url@, es.take(i as int)),
            reports_model(out@) == reports_of(fresh(s0, es.take(i as int))),
        decreases entries@.len() - i,
    {
        let e = &entries[i];
        let key = e.key();
        proof {
            lemma_keys_of_push(es, i as int);
            assert(es[i as int] == e@);
            assert(seen_of(store@, url@) == s0.union(keys_of(es.take(i as int))));
        }
        if !store.contains(url, key.as_str()) {
            let ghost before = out@;
            let item = report(e);
            out.push(item);
            store.mark_seen(url, key.as_str());
            proof {
                assert(reports_model(out@) =~= reports_model(before).push(report_of(e@)));
                assert(reports_of(fresh(s0, es.take(i + 1))) =~= reports_of(fresh(s0, es.take(i as int))).push(report_of(e@)));
                assert(s0.union(keys_of(es.take(i + 1))) =~= s0.union(keys_of(es.take(i as int))).insert(key@));
            }
        } else {
            proof {
                assert(s0.union(keys_of(es.take(i + 1))) =~= s0.union(keys_of(es.take(i as int))));
            }
        }
        i = i + 1;
    }
    proof {
        assert(es.take(entries@.len() as int) =~= es);
    }
    out
}

/// What one feed's document yields: the feed's title and the reports of its
/// new entries.
#[derive(Debug)]
pub struct FeedReport {
    pub title: String,
    pub items: Vec<NewItem>,
}

/// Parses the document `xml` fetched from feed `url` and processes its entries
/// as [`plan_feed`] does. When the document cannot be read the store is left
/// unchanged.
pub fn process_feed(store: &mut SeenItems, url: &str, xml: &[u8]) -> (r: Result<FeedReport, FeedError>)
    requires
        old(store).wf(),
    ensures
        final(store).wf(),
        match r {
            Ok(rep) => rss_channel(xml@) is Some && {
                let f = rss_channel(xml@)->Some_0;
                &&& rep.title@ == f.title
                &&& reports_model(rep.items@) == new_reports(old(store)@, url@, f.entries)
                &&& final(store)@ == after_feed(old(store)@, url@, f.entries)
            },
            Err(e) => rss_channel(xml@) is None && e == FeedError::Parse && final(store)@ == old(store)@,
        },
{
    match parse_feed(xml) {
        Ok(feed) => {
            let items = plan_feed(store, url, &feed.entries);
            Ok(FeedReport { title: feed.title, items })
        },
        Err(e) => Err(e),
    }
}

} // verus!
