use locale_sync::text::{join_key_exec, split_key_exec};
use locale_sync::translate::{
    bearer_header, translate_flat, unique_texts, FetchOutcome, LanguageCache,
};
use locale_sync::tree::{build, flatten, Node};
use locale_sync::write::needs_write;

fn s(x: &str) -> String {
    x.to_string()
}

fn obj(members: Vec<(&str, Node)>) -> Node {
    Node::Object(members.into_iter().map(|(k, v)| (s(k), v)).collect())
}

fn text(x: &str) -> Node {
    Node::Text(s(x))
}

fn pairs(v: &[(&str, &str)]) -> Vec<(String, String)> {
    v.iter().map(|(k, t)| (s(k), s(t))).collect()
}

fn hello_doc() -> Node {
    obj(vec![
        ("a", obj(vec![("b", text("Hello")), ("c", text("Hello"))])),
        ("d", text("World")),
    ])
}

#[test]
fn flatten_joins_keys_with_dots() {
    let doc = obj(vec![
        ("menu", obj(vec![("file", obj(vec![("open", text("Open"))])), ("quit", text("Quit"))])),
        ("title", text("App")),
    ]);
    assert_eq!(
        flatten(&doc),
        pairs(&[("menu.file.open", "Open"), ("menu.quit", "Quit"), ("title", "App")])
    );
}

#[test]
fn flatten_drops_non_string_leaves() {
    let doc = obj(vec![
        ("count", Node::Other),
        ("nested", obj(vec![("flag", Node::Other), ("label", text("Label"))])),
        ("list", Node::Other),
    ]);
    assert_eq!(flatten(&doc), pairs(&[("nested.label", "Label")]));
    assert_eq!(flatten(&Node::Other), pairs(&[]));
}

#[test]
fn flatten_of_empty_object_is_empty() {
    assert_eq!(flatten(&obj(vec![])), pairs(&[]));
}

#[test]
fn build_then_flatten_gives_back_the_mapping() {
    let flat = pairs(&[("a.b", "x"), ("a.c.d", "y"), ("e", "z")]);
    let tree = build(&flat).unwrap();
    assert_eq!(flatten(&tree), flat);
}

#[test]
fn flatten_then_build_gives_back_the_tree() {
    let doc = hello_doc();
    let rebuilt = build(&flatten(&doc)).unwrap();
    match &rebuilt {
        Node::Object(ms) => {
            assert_eq!(ms.len(), 2);
            assert_eq!(ms[0].0, "a");
            assert_eq!(ms[1].0, "d");
        }
        _ => panic!("root is not an object"),
    }
    assert_eq!(flatten(&rebuilt), flatten(&doc));
}

#[test]
fn build_reports_leaf_then_descendant_conflict() {
    let flat = pairs(&[("a", "x"), ("a.b", "y")]);
    match build(&flat) {
        Err(e) => assert_eq!(e.key, "a.b"),
        Ok(_) => panic!("conflict not reported"),
    }
}

#[test]
fn build_reports_descendant_then_leaf_conflict() {
    let flat = pairs(&[("a.b", "y"), ("a", "x")]);
    match build(&flat) {
        Err(e) => assert_eq!(e.key, "a"),
        Ok(_) => panic!("conflict not reported"),
    }
}

#[test]
fn build_replaces_a_repeated_key() {
    let flat = pairs(&[("a", "x"), ("a", "y")]);
    let tree = build(&flat).unwrap();
    assert_eq!(flatten(&tree), pairs(&[("a", "y")]));
}

#[test]
fn repeated_text_is_fetched_once() {
    let flat = flatten(&hello_doc());
    let texts = unique_texts(&flat);
    assert_eq!(texts, vec![s("Hello"), s("World")]);

    let mut cache = LanguageCache::new();
    let mut calls = 0;
    for t in &texts {
        calls += 1;
        let reply = if t == "Hello" { s("Hallo") } else { s("Welt") };
        let outcome = FetchOutcome::from_reply(t, Ok(Some(reply)));
        cache.insert(t.clone(), outcome.into_text());
    }
    assert_eq!(calls, 2);

    let out = build(&translate_flat(&flat, &cache)).unwrap();
    assert_eq!(
        flatten(&out),
        pairs(&[("a.b", "Hallo"), ("a.c", "Hallo"), ("d", "Welt")])
    );
}

#[test]
fn unique_texts_compares_exactly() {
    let flat = pairs(&[("a", "Hi"), ("b", "hi"), ("c", "Hi "), ("d", "Hi")]);
    assert_eq!(unique_texts(&flat), vec![s("Hi"), s("hi"), s("Hi ")]);
    assert_eq!(unique_texts(&pairs(&[])), Vec::<String>::new());
}

#[test]
fn failing_backend_leaves_every_text_unchanged() {
    let flat = flatten(&hello_doc());
    let mut cache = LanguageCache::new();
    for t in unique_texts(&flat) {
        let outcome = FetchOutcome::from_reply(&t, Err(s("connection refused")));
        cache.insert(t.clone(), outcome.into_text());
    }
    let translated = translate_flat(&flat, &cache);
    assert_eq!(translated, flat);
    assert_eq!(flatten(&build(&translated).unwrap()), flatten(&hello_doc()));
}

#[test]
fn missing_cache_entry_falls_back_to_source() {
    let flat = pairs(&[("a", "Hello"), ("b", "World")]);
    let mut cache = LanguageCache::new();
    cache.insert(s("Hello"), s("Hallo"));
    assert_eq!(
        translate_flat(&flat, &cache),
        pairs(&[("a", "Hallo"), ("b", "World")])
    );
}

#[test]
fn cache_keeps_the_first_translation() {
    let mut cache = LanguageCache::new();
    cache.insert(s("Hello"), s("Hallo"));
    cache.insert(s("Hello"), s("Servus"));
    assert_eq!(cache.get(&s("Hello")), Some(s("Hallo")));
    assert_eq!(cache.get(&s("World")), None);
}

#[test]
fn outcome_of_each_reply() {
    match FetchOutcome::from_reply(&s("Hello"), Ok(Some(s("Hallo")))) {
        FetchOutcome::Translated(t) => assert_eq!(t, "Hallo"),
        _ => panic!("expected a translation"),
    }
    match FetchOutcome::from_reply(&s("Hello"), Ok(None)) {
        FetchOutcome::Fallback { text, .. } => assert_eq!(text, "Hello"),
        _ => panic!("expected a fallback"),
    }
    match FetchOutcome::from_reply(&s("Hello"), Err(s("timeout"))) {
        FetchOutcome::Fallback { text, reason } => {
            assert_eq!(text, "Hello");
            assert_eq!(reason, "timeout");
        }
        _ => panic!("expected a fallback"),
    }
    assert_eq!(FetchOutcome::from_reply(&s("Hello"), Ok(None)).into_text(), "Hello");
    assert_eq!(
        FetchOutcome::from_reply(&s("Hello"), Ok(Some(s("")))).into_text(),
        ""
    );
}

#[test]
fn write_only_when_content_changes() {
    assert!(needs_write(&None, &s("{}")));
    assert!(needs_write(&Some(s("{ }")), &s("{}")));
    assert!(!needs_write(&Some(s("{}")), &s("{}")));
}

#[test]
fn second_run_writes_nothing() {
    let candidate = s("{\n  \"a\": \"Hallo\"\n}");
    let mut stored: Option<String> = None;
    let mut writes = 0;
    for _ in 0..2 {
        if needs_write(&stored, &candidate) {
            stored = Some(candidate.clone());
            writes += 1;
        }
    }
    assert_eq!(writes, 1);
}

#[test]
fn bearer_header_only_for_a_token() {
    assert_eq!(bearer_header(&s("")), None);
    assert_eq!(bearer_header(&s("abc")), Some(s("Bearer abc")));
}

#[test]
fn keys_join_and_split() {
    assert_eq!(join_key_exec(&s(""), &s("a")), "a");
    assert_eq!(join_key_exec(&s("a.b"), &s("c")), "a.b.c");
    assert_eq!(split_key_exec(&s("a.b.c")), vec![s("a"), s("b"), s("c")]);
    assert_eq!(split_key_exec(&s("")), vec![s("")]);
    assert_eq!(split_key_exec(&s("a..b")), vec![s("a"), s(""), s("b")]);
}

#[test]
fn non_string_leaves_are_absent_from_translated_output() {
    let doc = obj(vec![
        ("count", Node::Other),
        ("greeting", text("Hello")),
        ("list", Node::Other),
    ]);
    let flat = flatten(&doc);
    let mut cache = LanguageCache::new();
    cache.insert(s("Hello"), s("Hallo"));
    let out = build(&translate_flat(&flat, &cache)).unwrap();
    match &out {
        Node::Object(ms) => {
            assert_eq!(ms.len(), 1);
            assert_eq!(ms[0].0, "greeting");
        }
        _ => panic!("root is not an object"),
    }
    assert_eq!(flatten(&out), pairs(&[("greeting", "Hallo")]));
}

#[test]
fn rebuilt_entries_come_back_grouped_by_object() {
    let flat = pairs(&[("a.x", "1"), ("b", "2"), ("a.y", "3")]);
    let tree = build(&flat).unwrap();
    assert_eq!(flatten(&tree), pairs(&[("a.x", "1"), ("a.y", "3"), ("b", "2")]));
}

#[test]
fn empty_inner_segments_survive_the_round_trip() {
    let flat = pairs(&[("a..b", "x"), ("c.", "y"), ("", "z")]);
    let tree = build(&flat).unwrap();
    assert_eq!(flatten(&tree), flat);
}
