use rustorrent::rss::{
    encode_rss_state, feed_from_nodes, glob_match, glob_match_single, is_magnet_link, is_torrent_content_type,
    is_torrent_url, legacy_scoped_seen_key, match_rules, parse_feed, parse_rss_state, remember_seen,
    seen_key, FeedItem, RssFeed, RssRule, RssState, XmlNode, MAX_RSS_FEEDS, MAX_RSS_RULES, MAX_SEEN_GUIDS,
};

#[test]
fn parse_rss_feed() {
    let xml = br#"<?xml version="1.0"?>
<rss version="2.0">
  <channel>
    <title>Test Feed</title>
    <item>
      <title>Ubuntu ISO</title>
      <link>http://example.com/ubuntu.torrent</link>
      <guid>guid-001</guid>
    </item>
    <item>
      <title>Debian ISO</title>
      <enclosure url="http://example.com/debian.torrent" type="application/x-bittorrent"/>
      <guid>guid-002</guid>
    </item>
  </channel>
</rss>"#;
    let (title, items) = parse_feed(xml).unwrap();
    assert_eq!(title, "Test Feed");
    assert_eq!(items.len(), 2);
    assert_eq!(items[0].title, "Ubuntu ISO");
    assert!(items[0].is_torrent);
    assert_eq!(items[1].link, "http://example.com/debian.torrent");
    assert!(items[1].is_torrent);
}

#[test]
fn parse_atom_feed() {
    let xml = br#"<?xml version="1.0"?>
<feed xmlns="http://www.w3.org/2005/Atom">
  <title>Atom Feed</title>
  <entry>
    <title>Item One</title>
    <id>urn:uuid:001</id>
    <link href="http://example.com/1.torrent"/>
  </entry>
</feed>"#;
    let (title, items) = parse_feed(xml).unwrap();
    assert_eq!(title, "Atom Feed");
    assert_eq!(items.len(), 1);
    assert_eq!(items[0].title, "Item One");
    assert!(items[0].is_torrent);
    assert_eq!(items[0].guid, "urn:uuid:001");
}

#[test]
fn atom_prefers_torrent_enclosure_over_alternate_link() {
    let xml = br#"<feed xmlns="http://www.w3.org/2005/Atom">
  <title>Releases</title>
  <entry>
    <title>Release</title>
    <link rel="alternate" href="https://example.com/release"/>
    <link rel="enclosure" type="application/x-bittorrent" href="https://cdn.example.com/download?id=1"/>
  </entry>
</feed>"#;
    let (_, items) = parse_feed(xml).unwrap();
    assert_eq!(items[0].link, "https://cdn.example.com/download?id=1");
    assert!(items[0].is_torrent);
}

#[test]
fn rss_recognizes_magnets_and_torrent_urls_with_queries() {
    let xml = br#"<rss><channel><title>Feed</title>
  <item><title>Magnet</title><link>magnet:?xt=urn:btih:abc</link></item>
  <item><title>File</title><link>https://example.com/file.TORRENT?token=1</link></item>
</channel></rss>"#;
    let (_, items) = parse_feed(xml).unwrap();
    assert_eq!(items.len(), 2);
    assert!(items.iter().all(|item| item.is_torrent));
}

#[test]
fn parses_namespaced_atom_and_rdf_feeds() {
    let atom = br#"<atom:feed xmlns:atom="urn:atom"><atom:title>Atom</atom:title><atom:entry><atom:title>One</atom:title><atom:link href="magnet:?xt=urn:btih:abc"/></atom:entry></atom:feed>"#;
    let (title, items) = parse_feed(atom).unwrap();
    assert_eq!(title, "Atom");
    assert_eq!(items.len(), 1);

    let rdf = br#"<rdf:RDF xmlns:rdf="urn:rdf"><channel><title>RDF</title></channel><item><title>One</title><link>https://example.com/one.torrent</link></item></rdf:RDF>"#;
    let (title, items) = parse_feed(rdf).unwrap();
    assert_eq!(title, "RDF");
    assert_eq!(items.len(), 1);
}

#[test]
fn feeds_refuse_bad_documents() {
    assert_eq!(parse_feed(b"<rss><item/></rss>").unwrap_err(), "missing <channel>");
    assert_eq!(parse_feed(b"<html></html>").unwrap_err(), "unknown feed root tag: html");
    assert_eq!(parse_feed(b"<rss>").unwrap_err(), "invalid xml");
    assert_eq!(parse_feed(&[0xff, 0xfe]).unwrap_err(), "invalid xml");
}

#[test]
fn items_without_links_are_dropped_and_guids_default_to_links() {
    let xml = br#"<rss><channel><title> T </title>
  <item><title>No link</title></item>
  <item><title>Page</title><link> https://example.com/page </link></item>
  <item><title>Magnet</title><link>https://example.com/x</link><magnetURI>magnet:?xt=urn:btih:1</magnetURI></item>
</channel></rss>"#;
    let (title, items) = parse_feed(xml).unwrap();
    assert_eq!(title, "T");
    assert_eq!(items.len(), 2);
    assert_eq!(items[0].link, "https://example.com/page");
    assert_eq!(items[0].guid, "https://example.com/page");
    assert!(!items[0].is_torrent);
    assert_eq!(items[1].link, "magnet:?xt=urn:btih:1");
    assert!(items[1].is_torrent);
}

#[test]
fn glob_match_patterns() {
    assert!(glob_match("*ubuntu*", "Ubuntu 24.04 LTS"));
    assert!(glob_match("debian*", "debian-12.iso"));
    assert!(!glob_match("debian*", "Ubuntu 24.04"));
    assert!(glob_match("ubuntu|debian", "My Debian ISO"));
    assert!(glob_match("*", "anything"));
    assert!(glob_match("", "anything"));
}

#[test]
fn glob_single_anchors_first_and_last_parts() {
    assert!(glob_match_single(b"a*c", b"abc"));
    assert!(!glob_match_single(b"a*c", b"abcd"));
    assert!(!glob_match_single(b"b*", b"abc"));
    assert!(glob_match_single(b"*b*", b"abc"));
    assert!(glob_match_single(b"bc", b"abc"));
    assert!(!glob_match("| |", "anything"));
}

#[test]
fn links_are_classified() {
    assert!(is_magnet_link("  MAGNET:?xt=urn:btih:abc"));
    assert!(!is_magnet_link("magnet:x"));
    assert!(is_torrent_url("https://example.com/a.torrent#frag"));
    assert!(!is_torrent_url("https://example.com/a.torrent.html"));
    assert!(is_torrent_content_type(" Application/X-BitTorrent "));
    assert!(!is_torrent_content_type("text/html"));
}

fn item(title: &str, link: &str, is_torrent: bool, guid: &str) -> FeedItem {
    FeedItem {
        title: title.to_string(),
        link: link.to_string(),
        is_torrent,
        guid: guid.to_string(),
    }
}

#[test]
fn match_rules_filters_seen_and_non_torrent() {
    let items = vec![
        item("Ubuntu ISO", "http://example.com/ubuntu.torrent", true, "guid-1"),
        item("Debian ISO", "http://example.com/debian.torrent", true, "guid-2"),
        item("News article", "http://example.com/news", false, "guid-3"),
    ];
    let rules = vec![RssRule {
        name: "linux".to_string(),
        feed_url: String::new(),
        pattern: "*".to_string(),
    }];
    let seen = vec!["guid-1".to_string()];
    let matches = match_rules(&items, &rules, &seen, "http://feed");
    assert_eq!(matches.len(), 1);
    assert_eq!(matches[0].0.title, "Debian ISO");
}

#[test]
fn seen_guids_are_scoped_to_the_feed() {
    let item = item("Release", "magnet:?xt=urn:btih:abc", true, "shared-guid");
    let rule = RssRule {
        name: "all".to_string(),
        feed_url: String::new(),
        pattern: "*".to_string(),
    };
    let seen = vec![seen_key("https://feed-a.example/rss", &item.guid)];
    assert!(match_rules(
        std::slice::from_ref(&item),
        std::slice::from_ref(&rule),
        &seen,
        "https://feed-a.example/rss"
    )
    .is_empty());
    assert_eq!(
        match_rules(
            std::slice::from_ref(&item),
            std::slice::from_ref(&rule),
            &seen,
            "https://feed-b.example/rss"
        )
        .len(),
        1
    );
}

#[test]
fn failed_downloads_remain_eligible_until_success_is_recorded() {
    let item = item("Release", "https://example.com/release.torrent", true, "release-1");
    let rule = RssRule {
        name: "all".to_string(),
        feed_url: String::new(),
        pattern: "*".to_string(),
    };
    let feed_url = "https://example.com/feed";
    let mut seen = Vec::new();

    assert_eq!(
        match_rules(std::slice::from_ref(&item), std::slice::from_ref(&rule), &seen, feed_url).len(),
        1
    );
    assert_eq!(
        match_rules(std::slice::from_ref(&item), std::slice::from_ref(&rule), &seen, feed_url).len(),
        1
    );
    remember_seen(&mut seen, seen_key(feed_url, &item.guid));
    assert!(
        match_rules(std::slice::from_ref(&item), std::slice::from_ref(&rule), &seen, feed_url).is_empty()
    );
}

#[test]
fn rules_for_other_feeds_and_legacy_keys_are_respected() {
    let it = item("Release", "https://example.com/r.torrent", true, "g");
    let rules = vec![
        RssRule { name: "other".to_string(), feed_url: "https://other".to_string(), pattern: "*".to_string() },
        RssRule { name: "mine".to_string(), feed_url: "https://mine".to_string(), pattern: "rel*".to_string() },
    ];
    let matches = match_rules(std::slice::from_ref(&it), &rules, &[], "https://mine");
    assert_eq!(matches.len(), 1);
    assert_eq!(matches[0].1.name, "mine");
    let legacy = legacy_scoped_seen_key("https://mine", "g");
    assert_eq!(legacy, "v2:12:https://mine:g");
    assert!(match_rules(std::slice::from_ref(&it), &rules, &[legacy], "https://mine").is_empty());
}

#[test]
fn seen_keys_are_hex_digests() {
    let key = seen_key("https://feed", "guid");
    assert!(key.starts_with("v3:"));
    assert_eq!(key.len(), 3 + 64);
    assert!(key[3..].bytes().all(|b| b.is_ascii_hexdigit() && !b.is_ascii_uppercase()));
    assert_ne!(key, seen_key("https://feed2", "guid"));
    assert_ne!(seen_key("ab", "c"), seen_key("a", "bc"));
}

#[test]
fn remember_seen_deduplicates_and_caps() {
    let mut seen = vec!["a".to_string()];
    remember_seen(&mut seen, "a".to_string());
    assert_eq!(seen, vec!["a".to_string()]);
    remember_seen(&mut seen, "b".to_string());
    assert_eq!(seen, vec!["a".to_string(), "b".to_string()]);
    let mut many: Vec<String> = (0..MAX_SEEN_GUIDS).map(|i| i.to_string()).collect();
    remember_seen(&mut many, "new".to_string());
    assert_eq!(many.len(), MAX_SEEN_GUIDS);
    assert_eq!(many[0], "1");
    assert_eq!(many[MAX_SEEN_GUIDS - 1], "new");
}

#[test]
fn rss_state_encode_parse_roundtrip() {
    let mut state = RssState::new();
    state.feeds.push(RssFeed {
        url: "http://example.com/rss".to_string(),
        title: "Test".to_string(),
        items: Vec::new(),
        last_poll: 12345,
        poll_interval_secs: 900,
    });
    state.rules.push(RssRule {
        name: "linux".to_string(),
        feed_url: String::new(),
        pattern: "*ubuntu*".to_string(),
    });
    state.seen_guids.push("guid-001".to_string());
    let bytes = encode_rss_state(&state).unwrap();
    let loaded = parse_rss_state(&bytes).unwrap();
    assert_eq!(loaded.feeds.len(), 1);
    assert_eq!(loaded.feeds[0].url, "http://example.com/rss");
    assert_eq!(loaded.feeds[0].title, "Test");
    assert_eq!(loaded.feeds[0].last_poll, 12345);
    assert_eq!(loaded.feeds[0].poll_interval_secs, 900);
    assert_eq!(loaded.rules.len(), 1);
    assert_eq!(loaded.rules[0].pattern, "*ubuntu*");
    assert_eq!(loaded.seen_guids, vec!["guid-001".to_string()]);
}

#[test]
fn rss_state_encode_parse_at_collection_limits() {
    let mut state = RssState::new();
    for index in 0..MAX_RSS_FEEDS {
        state.feeds.push(RssFeed {
            url: format!("https://example.com/{index}"),
            title: "feed".to_string(),
            items: Vec::new(),
            last_poll: 0,
            poll_interval_secs: 900,
        });
    }
    for index in 0..MAX_RSS_RULES {
        state.rules.push(RssRule {
            name: format!("rule-{index}"),
            feed_url: String::new(),
            pattern: "*".to_string(),
        });
    }
    let bytes = encode_rss_state(&state).unwrap();
    let loaded = parse_rss_state(&bytes).unwrap();
    assert_eq!(loaded.feeds.len(), MAX_RSS_FEEDS);
    assert_eq!(loaded.rules.len(), MAX_RSS_RULES);
    assert_eq!(loaded.feeds[17].url, "https://example.com/17");
    assert_eq!(loaded.rules[MAX_RSS_RULES - 1].name, format!("rule-{}", MAX_RSS_RULES - 1));
    state.feeds.push(RssFeed {
        url: "https://example.com/extra".to_string(),
        title: String::new(),
        items: Vec::new(),
        last_poll: 0,
        poll_interval_secs: 900,
    });
    assert_eq!(encode_rss_state(&state).err().unwrap(), "rss save: too many feeds or rules");
}

#[test]
fn rss_state_parse_rules() {
    assert_eq!(parse_rss_state(b"i1e").err().unwrap(), "rss state not a dict");
    assert_eq!(parse_rss_state(b"x").err().unwrap(), "rss parse: invalid prefix byte: 0x78");
    let data = b"d5:feedsld3:url0:ed13:poll_intervali0e3:url1:xee4:seenl1:a1:b1:a0:ee";
    let state = parse_rss_state(data).unwrap();
    assert_eq!(state.feeds.len(), 1);
    assert_eq!(state.feeds[0].poll_interval_secs, 1);
    assert_eq!(state.seen_guids, vec!["b".to_string(), "a".to_string()]);
    let mut big = RssState::new();
    big.rules.push(RssRule { name: "n".to_string(), feed_url: String::new(), pattern: "p".repeat(513) });
    assert_eq!(encode_rss_state(&big).err().unwrap(), "rss save: feed or rule text is too large");
}

fn node(parent: Option<usize>, element: bool, name: &str, text: &str) -> XmlNode {
    XmlNode { parent, element, name: name.to_string(), text: text.to_string(), attrs: Vec::new() }
}

#[test]
fn feed_from_nodes_reads_rss_and_refuses_unknown_roots() {
    let nodes = vec![
        node(None, false, "", ""),
        node(Some(0), true, "rss", ""),
        node(Some(1), true, "channel", ""),
        node(Some(2), true, "title", "My feed"),
        node(Some(2), true, "item", ""),
        node(Some(4), true, "title", "Ubuntu"),
        node(Some(4), true, "link", "https://example.com/ubuntu.torrent"),
        node(Some(4), true, "guid", "g1"),
    ];
    let (title, items) = feed_from_nodes(&nodes).unwrap();
    assert_eq!(title, "My feed");
    assert_eq!(items.len(), 1);
    assert_eq!(items[0].title, "Ubuntu");
    assert_eq!(items[0].link, "https://example.com/ubuntu.torrent");
    assert!(items[0].is_torrent);
    assert_eq!(items[0].guid, "g1");

    let no_channel = vec![node(None, false, "", ""), node(Some(0), true, "rss", "")];
    assert_eq!(feed_from_nodes(&no_channel).unwrap_err(), "missing <channel>");
    let other = vec![node(None, false, "", ""), node(Some(0), true, "html", "")];
    assert_eq!(feed_from_nodes(&other).unwrap_err(), "unknown feed root tag: html");
    assert_eq!(feed_from_nodes(&[node(None, false, "", "")]).unwrap_err(), "invalid xml");
}
