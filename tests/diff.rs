use feed_watch::diff::{plan_feed, process_feed};
use feed_watch::feed::{FeedEntry, FeedError};
use feed_watch::store::SeenItems;

fn entry(link: Option<&str>, enclosure: Option<&str>) -> FeedEntry {
    FeedEntry {
        title: Some(format!("title of {:?}", link)),
        link: link.map(String::from),
        description: None,
        enclosure: enclosure.map(String::from),
    }
}

fn links(items: &[feed_watch::diff::NewItem]) -> Vec<String> {
    items.iter().map(|i| i.link.clone()).collect()
}

#[test]
fn linkless_entries_share_one_key() {
    let url = "http://feed.example/rss";
    let mut s = SeenItems::new();
    let first = vec![entry(Some("http://x/a"), None), entry(None, None)];
    let r1 = plan_feed(&mut s, url, &first);
    assert_eq!(links(&r1), vec!["http://x/a".to_string(), "No link".to_string()]);
    assert!(s.contains(url, "http://x/a"));
    assert!(s.contains(url, "No link"));

    let mut second = vec![entry(Some("http://x/a"), None), entry(None, None)];
    second.push(FeedEntry {
        title: Some("C".to_string()),
        link: None,
        description: Some("another".to_string()),
        enclosure: None,
    });
    let r2 = plan_feed(&mut s, url, &second);
    assert!(r2.is_empty());
}

#[test]
fn second_run_reports_nothing() {
    let mut s = SeenItems::new();
    let es = vec![entry(Some("a"), None), entry(Some("b"), Some("http://m/b.mp3"))];
    assert_eq!(plan_feed(&mut s, "u", &es).len(), 2);
    assert!(plan_feed(&mut s, "u", &es).is_empty());
}

#[test]
fn entry_reported_once_over_runs() {
    let mut s = SeenItems::new();
    let runs = vec![
        vec![entry(Some("a"), None)],
        vec![entry(Some("b"), None), entry(Some("a"), None)],
        vec![entry(Some("a"), None), entry(Some("c"), None)],
    ];
    let mut count = 0;
    for es in &runs {
        count += links(&plan_feed(&mut s, "u", es)).iter().filter(|l| *l == "a").count();
    }
    assert_eq!(count, 1);
}

#[test]
fn first_run_reports_every_entry() {
    let mut s = SeenItems::new();
    let es = vec![entry(Some("a"), None), entry(Some("b"), None), entry(Some("c"), None)];
    let r = plan_feed(&mut s, "u", &es);
    assert_eq!(links(&r), vec!["a".to_string(), "b".to_string(), "c".to_string()]);
    assert_eq!(s.to_records().len(), 1);
}

#[test]
fn both_entries_with_enclosures_are_reported_and_seen() {
    let mut s = SeenItems::new();
    let es = vec![
        entry(Some("a"), Some("http://unreachable.invalid/a.mp3")),
        entry(Some("b"), Some("http://m/b.mp3")),
    ];
    let r = plan_feed(&mut s, "u", &es);
    assert_eq!(r.len(), 2);
    assert_eq!(r[0].enclosure.as_deref(), Some("http://unreachable.invalid/a.mp3"));
    assert_eq!(r[1].enclosure.as_deref(), Some("http://m/b.mp3"));
    assert!(s.contains("u", "a"));
    assert!(s.contains("u", "b"));
}

#[test]
fn report_fills_in_absent_texts() {
    let mut s = SeenItems::new();
    let es = vec![FeedEntry { title: None, link: None, description: None, enclosure: None }];
    let r = plan_feed(&mut s, "u", &es);
    assert_eq!(r[0].title, "No title");
    assert_eq!(r[0].link, "No link");
    assert_eq!(r[0].description, "No description");
    assert_eq!(r[0].enclosure, None);
}

#[test]
fn repeated_link_within_one_fetch_is_reported_once() {
    let mut s = SeenItems::new();
    let es = vec![entry(Some("a"), None), entry(Some("a"), None)];
    assert_eq!(plan_feed(&mut s, "u", &es).len(), 1);
}

#[test]
fn feeds_are_kept_apart() {
    let mut s = SeenItems::new();
    let es = vec![entry(Some("a"), None)];
    assert_eq!(plan_feed(&mut s, "u1", &es).len(), 1);
    assert_eq!(plan_feed(&mut s, "u2", &es).len(), 1);
}

const XML: &str = r#"<?xml version="1.0"?>
<rss version="2.0"><channel><title>Casts</title><link>http://c</link><description>d</description>
<item><title>One</title><link>http://c/1</link><description>first</description>
<enclosure url="http://c/media/one.mp3" length="1" type="audio/mpeg"/></item>
<item><title>Two</title></item>
</channel></rss>"#;

#[test]
fn process_feed_reads_and_plans() {
    let mut s = SeenItems::new();
    let rep = process_feed(&mut s, "http://c/rss", XML.as_bytes()).unwrap();
    assert_eq!(rep.title, "Casts");
    assert_eq!(rep.items.len(), 2);
    assert_eq!(rep.items[0].title, "One");
    assert_eq!(rep.items[0].link, "http://c/1");
    assert_eq!(rep.items[0].description, "first");
    assert_eq!(rep.items[0].enclosure.as_deref(), Some("http://c/media/one.mp3"));
    assert_eq!(rep.items[1].link, "No link");
    let again = process_feed(&mut s, "http://c/rss", XML.as_bytes()).unwrap();
    assert!(again.items.is_empty());
}

#[test]
fn process_feed_rejects_non_feed() {
    let mut s = SeenItems::new();
    s.mark_seen("u", "k");
    let r = process_feed(&mut s, "u", b"<html></html>");
    assert_eq!(r.unwrap_err(), FeedError::Parse);
    assert_eq!(s.to_records(), vec![("u".to_string(), vec!["k".to_string()])]);
}
