use rustorrent::catalog::{clean_wiki_text, external_links, parse_unofficial_catalog};
use rustorrent::search::{
    append_catalog_entries_json, catalog_json, check_plugin_bytes, check_plugin_url, escape_json,
    apply_capabilities, filename_from_url, is_supported_result_link, merge_results, normalize_category, normalize_query, parse_i64, parse_search_results,
    plugin_known_issue, plugin_module_from_filename, plugin_name_by_site_url, push_decimal_i64,
    resolve_selected_engines, sanitize_module_name, status_json, summarize_search_warning, SearchCatalogEntry,
    SearchPlugin, SearchResult, SearchState,
};

fn plugin(module: &str, site: &str, healthy: bool) -> SearchPlugin {
    SearchPlugin {
        module: module.to_string(),
        display_name: module.to_uppercase(),
        site_url: site.to_string(),
        version: "1.0".to_string(),
        categories: vec!["movies".to_string()],
        healthy,
        broken_reason: String::new(),
    }
}

fn entry(module: &str, private_site: bool) -> SearchCatalogEntry {
    SearchCatalogEntry {
        module: module.to_string(),
        name: module.to_string(),
        author: "Author".to_string(),
        version: "1.0".to_string(),
        updated: "today".to_string(),
        download_url: format!("https://example.com/{module}.py"),
        comment: String::new(),
        private_site,
    }
}

fn empty_state() -> SearchState {
    SearchState {
        plugins: Vec::new(),
        results: Vec::new(),
        catalog: Vec::new(),
        busy: false,
        generation: 0,
        next_result_id: 0,
        python_available: false,
        plugin_error: String::new(),
        last_error: String::new(),
        last_query: String::new(),
        last_category: String::new(),
        last_started_at: 0,
        last_finished_at: 0,
        catalog_error: String::new(),
        catalog_fetched_at: 0,
    }
}

#[test]
fn plugin_module_from_filename_accepts_python_identifiers() {
    assert_eq!(plugin_module_from_filename("piratebay.py"), Some("piratebay".to_string()));
    assert_eq!(plugin_module_from_filename("_custom123.py"), Some("_custom123".to_string()));
}

#[test]
fn plugin_module_from_filename_rejects_invalid_names() {
    assert_eq!(plugin_module_from_filename("1bad.py"), None);
    assert_eq!(plugin_module_from_filename("bad-name.py"), None);
    assert_eq!(plugin_module_from_filename("bad.txt"), None);
}

#[test]
fn parse_search_results_maps_site_urls_back_to_plugins() {
    let plugins = vec![SearchPlugin {
        module: "piratebay".to_string(),
        display_name: "The Pirate Bay".to_string(),
        site_url: "https://thepiratebay.org".to_string(),
        version: "1.0".to_string(),
        categories: vec!["movies".to_string()],
        healthy: true,
        broken_reason: String::new(),
    }];
    let output = b"magnet:?xt=urn:btih:abc|Ubuntu ISO|1024|12|1|https://thepiratebay.org|https://thepiratebay.org/desc|1700000000\n";
    let results = parse_search_results(output, &plugins);
    assert_eq!(results.len(), 1);
    assert_eq!(results[0].plugin, "piratebay");
    assert_eq!(results[0].seeds, 12);
}

#[test]
fn summarize_search_warning_hides_tracebacks() {
    let message = "Connection error: <none> Traceback (most recent call last): ...";
    let summary = summarize_search_warning(message);
    assert!(!summary.contains("Traceback"));
    assert!(summary.contains("plugins failed"));
}

#[test]
fn plugin_known_issue_marks_magnetdl_broken() {
    assert!(plugin_known_issue("magnetdl").is_some());
    assert!(plugin_known_issue("piratebay").is_none());
}

#[test]
fn catalog_json_omits_private_site_entries() {
    let entries = vec![
        SearchCatalogEntry {
            module: "publicmod".to_string(),
            name: "Public".to_string(),
            author: "Author".to_string(),
            version: "1.0".to_string(),
            updated: "today".to_string(),
            download_url: "https://example.com/public.py".to_string(),
            comment: String::new(),
            private_site: false,
        },
        SearchCatalogEntry {
            module: "privatemod".to_string(),
            name: "Private".to_string(),
            author: "Author".to_string(),
            version: "1.0".to_string(),
            updated: "today".to_string(),
            download_url: "https://example.com/private.py".to_string(),
            comment: String::new(),
            private_site: true,
        },
    ];
    let mut json = String::new();
    append_catalog_entries_json(&mut json, &entries, &[]);
    assert!(json.contains("\"module\":\"publicmod\""));
    assert!(!json.contains("\"module\":\"privatemod\""));
}

#[test]
fn install_plugin_from_url_rejects_http() {
    let result = check_plugin_url("http://example.com/plugin.py");
    assert!(result.is_err());
    assert!(result.unwrap_err().contains("https://"));
}

#[test]
fn install_plugin_from_url_rejects_non_url() {
    let result = check_plugin_url("ftp://example.com/plugin.py");
    assert!(result.is_err());
}

#[test]
fn plugin_url_yields_trimmed_url_filename_and_module() {
    let (url, file, module) = check_plugin_url("  https://example.com/a/b/tpb.py?x=1#frag ").unwrap();
    assert_eq!(url, "https://example.com/a/b/tpb.py?x=1#frag");
    assert_eq!(file, "tpb.py");
    assert_eq!(module, "tpb");
    assert!(check_plugin_url("https://example.com/bad-name.py").is_err());
    assert_eq!(filename_from_url("https://example.com/").unwrap_err(), "plugin url is missing a filename");
}

#[test]
fn plugin_bytes_are_checked_before_install() {
    assert_eq!(check_plugin_bytes("good.py", b"print(1)\n"), Ok("good".to_string()));
    assert_eq!(check_plugin_bytes("good.py", b""), Err("plugin file is empty".to_string()));
    assert_eq!(check_plugin_bytes("__init__.py", b"x"), Err("plugin filename is reserved".to_string()));
    assert_eq!(check_plugin_bytes("good.py", b"a\0b"), Err("plugin source contains a NUL byte".to_string()));
    assert_eq!(check_plugin_bytes("good.py", &[0xff]), Err("plugin source must be valid UTF-8".to_string()));
    assert_eq!(sanitize_module_name(" tpb "), Ok("tpb".to_string()));
    assert!(sanitize_module_name("__init__").is_err());
}

#[test]
fn categories_and_engines_are_resolved() {
    assert_eq!(normalize_category("  ALL "), Ok("all".to_string()));
    assert_eq!(normalize_category("Movies"), Ok("movies".to_string()));
    assert!(normalize_category("nonsense").is_err());
    let plugins = vec![plugin("a", "https://a.example", true), plugin("b", "https://b.example", false)];
    assert_eq!(resolve_selected_engines(&plugins, &[]), Ok(vec!["a".to_string()]));
    assert!(resolve_selected_engines(&plugins, &["zzz".to_string()]).is_err());
    assert_eq!(plugin_name_by_site_url("https://a.example/", &plugins), Some("a".to_string()));
    assert_eq!(plugin_name_by_site_url("https://c.example", &plugins), None);
}

#[test]
fn result_numbers_and_links() {
    assert_eq!(parse_i64(" 42 "), 42);
    assert_eq!(parse_i64("-7"), -7);
    assert_eq!(parse_i64("x"), -1);
    assert!(is_supported_result_link("magnet:?xt=urn:btih:abc"));
    assert!(is_supported_result_link("https://example.com/t.torrent"));
    assert!(!is_supported_result_link("ftp://example.com/t.torrent"));
}

#[test]
fn json_text_is_escaped() {
    assert_eq!(escape_json("a\"b\\c\n\r\t"), "a\\\"b\\\\c\\n\\r\\t");
    assert_eq!(escape_json("\u{1}\u{7f}\u{85}é"), "\\u0001\\u007f\\u0085é");
    assert_eq!(escape_json(""), "");
}

#[test]
fn signed_decimals_are_written() {
    let mut s = String::new();
    push_decimal_i64(&mut s, i64::MIN);
    assert_eq!(s, i64::MIN.to_string());
    let mut t = String::new();
    push_decimal_i64(&mut t, 1700000000);
    assert_eq!(t, "1700000000");
}

#[test]
fn status_json_lists_plugins_and_results() {
    assert!(status_json(None).contains("\"plugin_error\":\"search not initialized\""));
    let mut state = empty_state();
    state.plugins.push(plugin("tpb", "https://tpb.example", true));
    state.results.push(SearchResult {
        result_id: 3,
        plugin: "tpb".to_string(),
        site_url: "https://tpb.example".to_string(),
        link: "magnet:?xt=1".to_string(),
        name: "Say \"hi\"".to_string(),
        size_bytes: -1,
        seeds: 12,
        leech: 0,
        desc_link: String::new(),
        pub_date: 0,
    });
    state.last_query = "ubuntu".to_string();
    let json = status_json(Some(&state));
    assert!(json.starts_with("{\"busy\":false,\"python_available\":false,\"plugin_error\":\"\""));
    assert!(json.contains("\"query\":\"ubuntu\""));
    assert!(json.contains(
        "\"plugins\":[{\"module\":\"tpb\",\"display_name\":\"TPB\",\"site_url\":\"https://tpb.example\",\"version\":\"1.0\",\"healthy\":true,\"broken_reason\":\"\",\"categories\":[\"movies\"]}]"
    ));
    assert!(json.contains(
        "{\"index\":3,\"plugin\":\"tpb\",\"site_url\":\"https://tpb.example\",\"link\":\"magnet:?xt=1\",\"name\":\"Say \\\"hi\\\"\",\"size\":-1,\"seeds\":12,\"leech\":0,\"desc_link\":\"\",\"pub_date\":0}"
    ));
    assert!(json.ends_with("}]}"));
}

#[test]
fn catalog_json_reports_installed_plugins() {
    assert_eq!(catalog_json(None, "u"), "{\"entries\":[],\"error\":\"search not initialized\"}");
    let mut state = empty_state();
    state.catalog = vec![entry("tpb", false), entry("hidden", true), entry("other", false)];
    state.plugins = vec![plugin("tpb", "https://tpb.example", true)];
    state.catalog_fetched_at = 99;
    let json = catalog_json(Some(&state), "https://catalog.example");
    assert!(json.starts_with("{\"error\":\"\",\"source_url\":\"https://catalog.example\",\"fetched_at\":99,\"entries\":[{"));
    assert!(json.contains("\"installed\":true,\"installed_version\":\"1.0\",\"installed_name\":\"TPB\",\"installed_healthy\":true}"));
    assert!(json.contains("},{\"module\":\"other\""));
    assert!(json.contains("\"installed\":false,\"installed_version\":\"\",\"installed_name\":\"\",\"installed_healthy\":false}"));
    assert!(!json.contains("hidden"));
}

#[test]
fn parse_unofficial_catalog_extracts_download_link() {
    let wiki = r#"
= Plugins for Public Sites =
{|class="sortable"
|-
| [[https://www.google.com/s2/favicons?domain=bitsearch.to#.png]] [https://bitsearch.to/ Bit Search]
| [https://github.com/BurningMop/qBittorrent-Search-Plugins BurningMop]
| 1.1
| 13/Apr/2024
| [https://raw.githubusercontent.com/BurningMop/qBittorrent-Search-Plugins/refs/heads/main/bitsearch.py [[https://raw.githubusercontent.com/Pireo/hello-world/master/Download.gif]] ]
| ✔ qbt 4.6.x / python 3.9.x
|}
"#;
    let entries = parse_unofficial_catalog(wiki);
    assert_eq!(entries.len(), 1);
    assert_eq!(entries[0].name, "Bit Search");
    assert_eq!(entries[0].module, "bitsearch");
    assert!(entries[0].download_url.ends_with("bitsearch.py"));
}

fn chars(s: &str) -> Vec<char> {
    s.chars().collect()
}

fn text(v: Vec<char>) -> String {
    v.into_iter().collect()
}

#[test]
fn catalog_rows_after_the_private_heading_are_private() {
    let wiki = "{|\n|-\n| [https://a.example A]\n| Me\n| 2.0\n| today\n| [https://x.example/alpha.py get]\n| note\n| more\n= Plugins for Private Sites =\n|-\n| B\n| You\n| 3\n| then\n| [https://x.example/beta.PY dl]\n| c\n|}\n";
    let entries = parse_unofficial_catalog(wiki);
    assert_eq!(entries.len(), 2);
    assert_eq!(entries[0].module, "alpha");
    assert_eq!(entries[0].name, "A");
    assert_eq!(entries[0].author, "Me");
    assert_eq!(entries[0].version, "2.0");
    assert_eq!(entries[0].updated, "today");
    assert_eq!(entries[0].comment, "note");
    assert!(!entries[0].private_site);
    assert_eq!(entries[1].module, "plugin");
    assert_eq!(entries[1].name, "B");
    assert!(entries[1].private_site);
    assert_eq!(entries[1].comment, "");
}

#[test]
fn wiki_text_is_cleaned_as_bytes() {
    assert_eq!(text(clean_wiki_text(&chars("a<br />b<br>c '''bold''' ''it'' x&nbsp;y"))), "a / b / c bold it x y");
    assert_eq!(text(clean_wiki_text(&chars("[[Page|Label]] and [https://e.example Site] &#124; end"))), "Label and Site | end");
    assert_eq!(text(clean_wiki_text(&chars("  many   spaces\there "))), "many spaces here");
    assert_eq!(text(clean_wiki_text(&chars("é"))), "\u{c3}\u{83}\u{c2}\u{a9}");
}

#[test]
fn links_split_url_and_label() {
    let links = external_links(&chars("x [https://a.example A label ] [solo] [ ] [[no]]"));
    let got: Vec<(String, String)> = links.into_iter().map(|(u, l)| (text(u), text(l))).collect();
    assert_eq!(
        got,
        vec![
            ("https://a.example".to_string(), "A label".to_string()),
            ("solo".to_string(), String::new()),
            ("no".to_string(), String::new()),
        ]
    );
}

fn hit(name: &str, seeds: i64, site_url: &str, plugin: &str) -> SearchResult {
    SearchResult {
        result_id: 0,
        plugin: plugin.to_string(),
        site_url: site_url.to_string(),
        link: format!("magnet:?xt={name}"),
        name: name.to_string(),
        size_bytes: 1,
        seeds,
        leech: 0,
        desc_link: String::new(),
        pub_date: 0,
    }
}

#[test]
fn query_is_trimmed_and_bounded() {
    assert_eq!(normalize_query("  ubuntu iso \n"), Ok("ubuntu iso".to_string()));
    assert_eq!(normalize_query("   "), Err("search query is empty".to_string()));
    assert_eq!(normalize_query(""), Err("search query is empty".to_string()));
    let long = "x".repeat(1025);
    assert_eq!(normalize_query(&long), Err("search query is too long (maximum 1024 bytes)".to_string()));
    let edge = "é".repeat(512);
    assert_eq!(normalize_query(&edge), Ok(edge.clone()));
    assert_eq!(normalize_query(&format!(" {edge}x ")).unwrap_err(), "search query is too long (maximum 1024 bytes)");
}

#[test]
fn merged_results_are_numbered_and_ordered_by_seeds_then_name() {
    let plugins = vec![plugin("demo", "https://demo.example/", true)];
    let (listing, next) = merge_results(
        Vec::new(),
        vec![hit("b", 5, "https://demo.example", ""), hit("a", 5, "https://other.example", ""), hit("c", 9, "x", "own")],
        7,
        &plugins,
    );
    assert_eq!(next, 10);
    let names: Vec<&str> = listing.iter().map(|r| r.name.as_str()).collect();
    assert_eq!(names, vec!["c", "a", "b"]);
    let ids: Vec<u64> = listing.iter().map(|r| r.result_id).collect();
    assert_eq!(ids, vec![9, 8, 7]);
    assert_eq!(listing[2].plugin, "demo");
    assert_eq!(listing[1].plugin, "");
    assert_eq!(listing[0].plugin, "own");

    let (listing, next) = merge_results(listing, vec![hit("a", 5, "x", "p"), hit("z", 100, "x", "p")], u64::MAX - 1, &plugins);
    assert_eq!(next, u64::MAX);
    let order: Vec<(&str, u64)> = listing.iter().map(|r| (r.name.as_str(), r.result_id)).collect();
    assert_eq!(order, vec![("z", u64::MAX), ("c", 9), ("a", 8), ("a", u64::MAX - 1), ("b", 7)]);
}

#[test]
fn plugin_version_is_read_from_the_first_lines() {
    assert_eq!(rustorrent::search::plugin_version(b"#VERSION: 1.2\nimport x\n"), Some("1.2".to_string()));
    assert_eq!(rustorrent::search::plugin_version(b"# coding\n  # VERSION:  3.4 \r\n"), Some("3.4".to_string()));
    assert_eq!(rustorrent::search::plugin_version(b"a\nb\nc\nd\ne\nf\ng\nh\n# VERSION: 9\n"), None);
    assert_eq!(rustorrent::search::plugin_version(b"a\nb\nc\nd\ne\nf\ng\n# VERSION: 8\n"), Some("8".to_string()));
    assert_eq!(rustorrent::search::plugin_version(b"no version here"), None);
    assert_eq!(rustorrent::search::plugin_version(&[0xff, 0xfe]), None);
}

#[test]
fn capabilities_update_the_plugins_they_name() {
    let mut plugins = vec![plugin("demo", "", false), plugin("magnetdl", "", true), plugin("other", "x", true)];
    let xml = "<capabilities><demo><name> Demo Site </name><url>https://demo.example</url>\
               <categories>movies  tv\tmusic</categories></demo>\
               <magnetdl><name></name><url>u</url></magnetdl><unknown><name>z</name></unknown></capabilities>";
    assert!(apply_capabilities(xml, &mut plugins));
    assert_eq!(plugins[0].display_name, "Demo Site");
    assert_eq!(plugins[0].site_url, "https://demo.example");
    assert_eq!(plugins[0].categories, vec!["movies".to_string(), "tv".to_string(), "music".to_string()]);
    assert!(plugins[0].healthy);
    assert_eq!(plugins[1].display_name, "magnetdl");
    assert!(!plugins[1].healthy);
    assert_eq!(plugins[1].broken_reason, "Category searches return 404 on the current public site.");
    assert_eq!(plugins[2].site_url, "x");
    assert!(!apply_capabilities("<other/>", &mut plugins));
    assert!(!apply_capabilities("not xml <", &mut plugins));
    assert_eq!(plugins[0].display_name, "Demo Site");
}
