use site_mapper::batch::{build_index, needs_flush, BATCH_SIZE};
use site_mapper::ingest::{extract_urls, get_parameters_from_url, ingest_line, parse_candidate, process_url, UrlParts};
use site_mapper::node::{merge_node, NodeValue};
use site_mapper::node_map::NodeMap;
use site_mapper::query::{collect_subtree, delete_node, enumerate_endpoints, export_endpoints, get_children, get_node_value};
use site_mapper::text::{extract_candidates, get_extension, get_extension_from_url};

fn lines(v: &[&str]) -> Vec<String> {
    v.iter().map(|s| s.to_string()).collect()
}

fn children(map: &NodeMap, key: &str) -> Vec<String> {
    let mut c = map.get(key).map(|n| n.children.clone()).unwrap_or_default();
    c.sort();
    c
}

fn snapshot(map: &NodeMap) -> Vec<(String, bool, Vec<String>, Option<String>)> {
    let mut out = Vec::new();
    for k in map.keys() {
        let v = map.get(&k).unwrap();
        let mut c = v.children.clone();
        c.sort();
        out.push((k.clone(), v.is_endpoint, c, v.scheme.clone()));
    }
    out.sort();
    out
}

fn path(v: &[&str]) -> Vec<String> {
    v.iter().map(|s| s.to_string()).collect()
}

#[test]
fn example_scenario_two_lines_one_endpoint() {
    let input = lines(&[
        "<a href=\"https://example.com/api/v1/users?id=2\">",
        "//example.com/api/v1/users?id=2",
    ]);
    let (store, count) = build_index(&input);
    assert_eq!(count, 2);
    assert_eq!(children(&store, "__ROOT__"), vec!["example.com".to_string()]);
    let leaf = store.get("example.com/api/v1/users?id=2").unwrap();
    assert!(leaf.is_endpoint);
    assert_eq!(leaf.scheme.as_deref(), Some("https"));
    assert_eq!(children(&store, "example.com/api/v1"), vec!["users?id=2".to_string()]);
    let all = enumerate_endpoints(&store, "__ROOT__");
    assert_eq!(all, vec!["https://example.com/api/v1/users?id=2".to_string()]);
}

#[test]
fn example_scenario_delete_api_subtree() {
    let input = lines(&["https://example.com/api/v1/users?id=2", "https://example.com/home"]);
    let (mut store, _) = build_index(&input);
    let removed = delete_node(&mut store, &path(&["example.com", "api"]));
    assert_eq!(removed, 1);
    assert!(store.get("example.com/api").is_none());
    assert!(store.get("example.com/api/v1").is_none());
    assert!(store.get("example.com/api/v1/users?id=2").is_none());
    assert_eq!(children(&store, "example.com"), vec!["home".to_string()]);
    assert_eq!(children(&store, "__ROOT__"), vec!["example.com".to_string()]);
}

#[test]
fn ingesting_same_url_twice_is_idempotent() {
    let mut once = NodeMap::new();
    let mut c1: usize = 0;
    ingest_line("https://a.com/x/y?q=1#f", &mut c1, &mut once);
    let mut twice = NodeMap::new();
    let mut c2: usize = 0;
    ingest_line("https://a.com/x/y?q=1#f", &mut c2, &mut twice);
    ingest_line("https://a.com/x/y?q=1#f", &mut c2, &mut twice);
    assert_eq!(snapshot(&once), snapshot(&twice));
    assert_eq!(c1, 1);
    assert_eq!(c2, 2);
}

#[test]
fn parent_child_links_hold_after_ingest_and_delete() {
    let input = lines(&["http://a.com/p/q", "http://a.com/p/r?x=1", "https://b.org/", "http://a.com/s"]);
    let (mut store, _) = build_index(&input);
    delete_node(&mut store, &path(&["a.com", "p"]));
    for (k, _, _, _) in snapshot(&store) {
        if k == "__ROOT__" {
            continue;
        }
        match k.rsplit_once('/') {
            Some((parent, seg)) => assert!(children(&store, parent).contains(&seg.to_string())),
            None => assert!(children(&store, "__ROOT__").contains(&k)),
        }
    }
    assert_eq!(children(&store, "a.com"), vec!["s".to_string()]);
}

#[test]
fn https_is_sticky_across_http_observations() {
    let input = lines(&["http://a.com/x", "https://a.com/x", "http://a.com/x"]);
    let (store, count) = build_index(&input);
    assert_eq!(count, 3);
    assert_eq!(store.get("a.com/x").unwrap().scheme.as_deref(), Some("https"));
    assert_eq!(store.get("a.com").unwrap().scheme.as_deref(), Some("https"));
}

#[test]
fn http_then_http_keeps_http() {
    let input = lines(&["http://a.com/x"]);
    let (store, _) = build_index(&input);
    assert_eq!(store.get("a.com/x").unwrap().scheme.as_deref(), Some("http"));
}

#[test]
fn deletion_removes_whole_subtree_and_counts_endpoints() {
    let input = lines(&["http://h.com/a", "http://h.com/a/b", "http://h.com/a/b/c", "http://h.com/a/d#z", "http://h.com/e"]);
    let (mut store, _) = build_index(&input);
    let before = collect_subtree(&store, "h.com/a");
    assert_eq!(before.len(), 4);
    let removed = delete_node(&mut store, &path(&["h.com", "a"]));
    assert_eq!(removed, 4);
    for k in before {
        assert!(store.get(&k).is_none());
    }
    assert_eq!(children(&store, "h.com"), vec!["e".to_string()]);
    assert!(store.get("h.com/e").is_some());
}

#[test]
fn deleting_a_host_unlinks_it_from_the_root() {
    let input = lines(&["http://h.com/a", "http://g.com/"]);
    let (mut store, _) = build_index(&input);
    let removed = delete_node(&mut store, &path(&["h.com"]));
    assert_eq!(removed, 1);
    assert_eq!(children(&store, "__ROOT__"), vec!["g.com".to_string()]);
    assert!(store.get("h.com").is_none());
}

#[test]
fn deleting_an_absent_path_removes_nothing() {
    let input = lines(&["http://h.com/a"]);
    let (mut store, _) = build_index(&input);
    let before = snapshot(&store);
    assert_eq!(delete_node(&mut store, &path(&["h.com", "zzz"])), 0);
    assert_eq!(snapshot(&store), before);
}

#[test]
fn export_then_reingest_gives_same_endpoints() {
    let input = lines(&[
        "see <http://z.com/b/c?x=1> and \"https://a.org/p#top\"",
        "//cdn.net/lib.js",
        "http://z.com/",
    ]);
    let (store, _) = build_index(&input);
    let exported = export_endpoints(&store);
    let mut sorted = exported.clone();
    sorted.sort();
    assert_eq!(exported, sorted);
    let (again, _) = build_index(&exported);
    assert_eq!(export_endpoints(&again), exported);
    assert_eq!(
        exported,
        vec![
            "http://z.com".to_string(),
            "http://z.com/b/c?x=1".to_string(),
            "https://a.org/p#top".to_string(),
            "https://cdn.net/lib.js".to_string(),
        ]
    );
}

#[test]
fn no_parseable_urls_gives_only_empty_root() {
    let input = lines(&["nothing here", "", "<just> \"words\"", "a b c"]);
    let (store, count) = build_index(&input);
    assert_eq!(count, 0);
    assert_eq!(snapshot(&store), vec![("__ROOT__".to_string(), false, vec![], None)]);
}

#[test]
fn empty_source_gives_only_empty_root() {
    let (store, count) = build_index(&Vec::new());
    assert_eq!(count, 0);
    assert_eq!(store.len(), 1);
    assert!(store.get("__ROOT__").unwrap().children.is_empty());
}

#[test]
fn candidates_are_split_trimmed_and_escaped() {
    let c = extract_candidates("  <a b> \"\tx y \" <>");
    assert_eq!(c, vec!["a%20b".to_string(), "x%20y".to_string()]);
    assert!(extract_candidates("").is_empty());
    assert!(extract_candidates("<<>>\"\"").is_empty());
}

#[test]
fn protocol_relative_candidate_gets_https() {
    let u = parse_candidate("//example.com/a").unwrap();
    assert_eq!(u.scheme, "https");
    assert_eq!(u.host.as_deref(), Some("example.com"));
    assert_eq!(u.segments, vec!["a".to_string()]);
    assert!(parse_candidate("not a url").is_none());
    assert!(parse_candidate("/relative/path").is_none());
}

#[test]
fn parsed_url_parts_are_read_from_the_url() {
    let u = parse_candidate("HTTP://Example.COM/a//b?k=v#frag").unwrap();
    assert_eq!(u.scheme, "http");
    assert_eq!(u.host.as_deref(), Some("example.com"));
    assert_eq!(u.segments, vec!["a".to_string(), "".to_string(), "b".to_string()]);
    assert_eq!(u.query.as_deref(), Some("k=v"));
    assert_eq!(u.fragment.as_deref(), Some("frag"));
}

#[test]
fn empty_segments_are_dropped() {
    let (store, _) = build_index(&lines(&["http://a.com/x//y"]));
    assert_eq!(children(&store, "a.com"), vec!["x".to_string()]);
    assert_eq!(children(&store, "a.com/x"), vec!["y".to_string()]);
    assert!(store.get("a.com/x/y").unwrap().is_endpoint);
}

#[test]
fn query_without_path_hangs_under_host() {
    let (store, _) = build_index(&lines(&["http://a.com?x=1#f"]));
    assert_eq!(children(&store, "a.com"), vec!["?x=1#f".to_string()]);
    assert!(store.get("a.com/?x=1#f").unwrap().is_endpoint);
    assert!(!store.get("a.com").unwrap().is_endpoint);
}

#[test]
fn bare_host_is_its_own_endpoint() {
    let (store, _) = build_index(&lines(&["https://a.com/"]));
    let host = store.get("a.com").unwrap();
    assert!(host.is_endpoint);
    assert!(host.children.is_empty());
}

#[test]
fn url_without_host_is_dropped() {
    let urls = extract_urls("mailto:someone@example.com");
    assert_eq!(urls.len(), 1);
    assert!(urls[0].host.is_none());
    let (store, count) = build_index(&lines(&["mailto:someone@example.com"]));
    assert_eq!(count, 0);
    assert_eq!(store.len(), 1);
}

#[test]
fn endpoints_differing_by_query_are_distinct() {
    let (store, _) = build_index(&lines(&["http://a.com/p?x=1", "http://a.com/p?x=2"]));
    assert_eq!(children(&store, "a.com"), vec!["p?x=1".to_string(), "p?x=2".to_string()]);
    assert_eq!(enumerate_endpoints(&store, "a.com").len(), 2);
}

#[test]
fn process_url_builds_chain() {
    let mut cache = NodeMap::new();
    let mut count: usize = 0;
    let url = UrlParts {
        scheme: "http".to_string(),
        host: Some("h.io".to_string()),
        segments: vec!["a".to_string(), "".to_string(), "b".to_string()],
        query: Some("q".to_string()),
        fragment: None,
    };
    process_url(&url, &mut count, &mut cache);
    assert_eq!(count, 1);
    assert_eq!(children(&cache, "__ROOT__"), vec!["h.io".to_string()]);
    assert_eq!(children(&cache, "h.io"), vec!["a".to_string()]);
    assert_eq!(children(&cache, "h.io/a"), vec!["b?q".to_string()]);
    assert!(cache.get("h.io/a/b?q").unwrap().is_endpoint);
    assert_eq!(cache.len(), 4);
}

#[test]
fn process_url_saturates_count() {
    let mut cache = NodeMap::new();
    let mut count: usize = usize::MAX;
    let url = UrlParts { scheme: "http".to_string(), host: Some("h".to_string()), segments: vec![], query: None, fragment: None };
    process_url(&url, &mut count, &mut cache);
    assert_eq!(count, usize::MAX);
}

#[test]
fn merge_keeps_persisted_https_and_unions() {
    let old = NodeValue { is_endpoint: true, children: vec!["a".to_string()], scheme: Some("https".to_string()) };
    let new = NodeValue { is_endpoint: false, children: vec!["b".to_string(), "a".to_string()], scheme: Some("http".to_string()) };
    let m = merge_node(&old, &new);
    let mut c = m.children.clone();
    c.sort();
    assert_eq!(c, vec!["a".to_string(), "b".to_string()]);
    assert!(m.is_endpoint);
    assert_eq!(m.scheme.as_deref(), Some("https"));
}

#[test]
fn merge_takes_batch_scheme_over_http() {
    let old = NodeValue { is_endpoint: false, children: vec![], scheme: Some("http".to_string()) };
    let new = NodeValue { is_endpoint: true, children: vec![], scheme: Some("https".to_string()) };
    let m = merge_node(&old, &new);
    assert_eq!(m.scheme.as_deref(), Some("https"));
    assert!(m.is_endpoint);
    let none = NodeValue { is_endpoint: false, children: vec![], scheme: None };
    assert_eq!(merge_node(&old, &none).scheme.as_deref(), Some("http"));
}

#[test]
fn flush_threshold() {
    let mut cache = NodeMap::new();
    assert!(!needs_flush(&cache));
    for i in 0..BATCH_SIZE {
        cache.insert(&format!("k{}", i), NodeValue::new());
    }
    assert!(needs_flush(&cache));
    assert_eq!(BATCH_SIZE, 10000);
}

#[test]
fn large_input_crosses_batches() {
    let input: Vec<String> = (0..10400).map(|i| format!("http://h{}.com/p", i % 5200)).collect();
    let (store, count) = build_index(&input);
    assert_eq!(count, 10400);
    assert_eq!(store.len(), 1 + 5200 * 2);
    assert_eq!(enumerate_endpoints(&store, "__ROOT__").len(), 5200);
}

#[test]
fn extension_after_last_dot() {
    assert_eq!(get_extension("archive.tar.gz"), Some("gz"));
    assert_eq!(get_extension("noext"), None);
    assert_eq!(get_extension("trailing."), Some(""));
    assert_eq!(get_extension(".hidden"), Some("hidden"));
}

#[test]
fn whitespace_trim_uses_unicode_white_space() {
    let c = extract_candidates("\u{00A0}http://a.com/x\u{2003}");
    assert_eq!(c, vec!["http://a.com/x".to_string()]);
}

#[test]
fn extension_from_url_last_part() {
    assert_eq!(get_extension_from_url("https://a.com/static/app.min.js?v=3"), Some("js"));
    assert_eq!(get_extension_from_url("https://a.com/img/logo.png#top"), Some("png"));
    assert_eq!(get_extension_from_url("https://a.com/dir.d/page"), None);
    assert_eq!(get_extension_from_url("file.tar.gz"), Some("gz"));
    assert_eq!(get_extension_from_url("https://a.com/x.php?a=1#b"), Some("php"));
    assert_eq!(get_extension_from_url(""), None);
}

#[test]
fn parameters_are_the_query() {
    assert_eq!(get_parameters_from_url("https://a.com/p?x=1&y=2#f"), "x=1&y=2");
    assert_eq!(get_parameters_from_url("https://a.com/p"), "");
    assert_eq!(get_parameters_from_url("not a url?x=1"), "");
}

#[test]
fn node_lookup_and_children() {
    let (store, _) = build_index(&lines(&["http://a.com/x", "http://a.com/y/z"]));
    let mut c = get_children(&store, "a.com");
    c.sort();
    assert_eq!(c, vec!["x".to_string(), "y".to_string()]);
    assert!(get_children(&store, "missing").is_empty());
    let v = get_node_value(&store, "a.com/y/z").unwrap();
    assert!(v.is_endpoint);
    assert_eq!(v.scheme.as_deref(), Some("http"));
    assert!(get_node_value(&store, "a.com/q").is_none());
}

#[test]
fn many_keys_in_one_map() {
    let mut map = NodeMap::new();
    for i in 0..20000 {
        map.insert(&format!("host{}.example/path/{}", i, i % 7), NodeValue::new());
    }
    assert_eq!(map.len(), 20000);
    assert!(map.get("host19999.example/path/0").is_some());
    assert!(map.get("host20000.example/path/0").is_none());
}

#[test]
fn deleting_absent_key_leaves_parent_listing() {
    let mut store = NodeMap::new();
    let mut root = NodeValue::new();
    root.add_child("a.com");
    store.insert("__ROOT__", root);
    let mut host = NodeValue::new();
    host.add_child("x");
    store.insert("a.com", host);
    let before = snapshot(&store);
    assert_eq!(delete_node(&mut store, &path(&["a.com", "x"])), 0);
    assert_eq!(snapshot(&store), before);
    assert_eq!(children(&store, "a.com"), vec!["x".to_string()]);
}

#[test]
fn export_leaves_out_root_record() {
    let mut store = NodeMap::new();
    let mut root = NodeValue::new();
    root.is_endpoint = true;
    root.add_child("a.com");
    store.insert("__ROOT__", root);
    let mut host = NodeValue::new();
    host.is_endpoint = true;
    host.scheme = Some("http".to_string());
    store.insert("a.com", host);
    assert_eq!(export_endpoints(&store), vec!["http://a.com".to_string()]);
    assert_eq!(
        enumerate_endpoints(&store, "__ROOT__"),
        vec!["__ROOT__".to_string(), "http://a.com".to_string()]
    );
}

#[test]
fn listing_from_root_includes_root_endpoint() {
    let (store, count) = build_index(&lines(&["foo://__ROOT__"]));
    assert_eq!(count, 1);
    assert!(store.get("__ROOT__").unwrap().is_endpoint);
    assert_eq!(enumerate_endpoints(&store, "__ROOT__"), vec!["foo://__ROOT__".to_string()]);
    assert!(export_endpoints(&store).is_empty());
}

#[test]
fn export_keeps_equal_lines_of_distinct_keys() {
    let mut store = NodeMap::new();
    let mut root = NodeValue::new();
    root.add_child("a.com");
    root.add_child("http://a.com");
    store.insert("__ROOT__", root);
    let mut host = NodeValue::new();
    host.is_endpoint = true;
    host.scheme = Some("http".to_string());
    store.insert("a.com", host);
    let mut bare = NodeValue::new();
    bare.is_endpoint = true;
    store.insert("http://a.com", bare);
    assert_eq!(enumerate_endpoints(&store, "__ROOT__"), vec!["http://a.com".to_string(), "http://a.com".to_string()]);
}

#[test]
fn hostless_urls_only_give_empty_root() {
    let (store, count) = build_index(&lines(&["mailto:x@y.z", "data:text/plain,hi"]));
    assert_eq!(count, 0);
    assert_eq!(snapshot(&store), vec![("__ROOT__".to_string(), false, vec![], None)]);
}

#[test]
fn repeated_line_anywhere_gives_same_store() {
    let f1 = lines(&["http://a.com/x", "https://b.com/y?q", "http://a.com/z"]);
    let f2 = lines(&["http://a.com/x", "http://a.com/z", "https://b.com/y?q", "http://a.com/z"]);
    let (s1, n1) = build_index(&f1);
    let (s2, n2) = build_index(&f2);
    assert_eq!(snapshot(&s1), snapshot(&s2));
    assert_eq!(n2, n1 + 1);
}
