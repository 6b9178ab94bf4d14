use feed_watch::download::download_file_name;
use feed_watch::feed::parse_feed;
use feed_watch::url_list::parse_feed_urls;

#[test]
fn url_list_lines() {
    let urls = parse_feed_urls(b"http://a/rss\nhttp://b/rss\r\nhttp://c/rss");
    assert_eq!(urls, vec!["http://a/rss", "http://b/rss", "http://c/rss"]);
}

#[test]
fn url_list_empty() {
    assert!(parse_feed_urls(b"").is_empty());
}

#[test]
fn url_list_skips_undecodable_line() {
    let urls = parse_feed_urls(b"http://a\n\xff\xfe\nhttp://b\n");
    assert_eq!(urls, vec!["http://a", "http://b"]);
}

#[test]
fn url_list_keeps_blank_lines() {
    assert_eq!(parse_feed_urls(b"x\n\n"), vec!["x", ""]);
    assert_eq!(parse_feed_urls(b"x\r"), vec!["x\r"]);
}

#[test]
fn file_name_is_last_path_segment() {
    assert_eq!(download_file_name("http://h/m/ep1.mp3"), "ep1.mp3");
    assert_eq!(download_file_name("plain"), "plain");
    assert_eq!(download_file_name("http://h/dir/"), "dir");
}

#[test]
fn file_name_drops_query_and_fragment() {
    assert_eq!(download_file_name("http://h/a?q"), "a");
    assert_eq!(download_file_name("https://h/m/ep2.mp3?x=1/2#t"), "ep2.mp3");
    assert_eq!(download_file_name("http://h/m/ep3.ogg#part/2"), "ep3.ogg");
}

#[test]
fn file_name_default_without_path_segment() {
    assert_eq!(download_file_name("http://h"), "downloaded_file");
    assert_eq!(download_file_name("http://h/"), "downloaded_file");
    assert_eq!(download_file_name("http://h?q=/x"), "downloaded_file");
    assert_eq!(download_file_name(""), "downloaded_file");
}

#[test]
fn parse_feed_reads_channel() {
    let xml = b"<rss><channel><title>T</title><item><link>http://l</link></item></channel></rss>";
    let f = parse_feed(xml).unwrap();
    assert_eq!(f.title, "T");
    assert_eq!(f.entries.len(), 1);
    assert_eq!(f.entries[0].link.as_deref(), Some("http://l"));
    assert_eq!(f.entries[0].title, None);
}

#[test]
fn parse_feed_rejects_garbage() {
    assert!(parse_feed(b"not xml at all").is_err());
}
