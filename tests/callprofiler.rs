use callprofiler::call_node::{build_call_tree, CallNode, RawEvent};
use callprofiler::process_events;
use callprofiler::record::{parse_event, parse_events, FieldError, FieldValue};
use callprofiler::reporter::generate_html;
use callprofiler::text::{format_duration, html_escape, short_path};

fn ev(kind: &str, name: &str, ts: u64, external: bool) -> RawEvent {
    RawEvent {
        event: kind.to_string(),
        func_name: name.to_string(),
        module: "mod".to_string(),
        filename: format!("/src/{}.py", name),
        lineno: 10,
        timestamp_ns: ts,
        is_external: external,
        library_name: if external { "lib".to_string() } else { String::new() },
    }
}

fn node(name: &str, dur: u64, external: bool, children: Vec<CallNode>) -> CallNode {
    CallNode {
        func_name: name.to_string(),
        module_name: String::new(),
        file_path: String::new(),
        line_number: 0,
        start_time_ns: 0,
        end_time_ns: dur,
        duration_ns: dur,
        is_external: external,
        library_name: String::new(),
        children,
    }
}

fn count(n: &CallNode) -> usize {
    1 + n.children.iter().map(count).sum::<usize>()
}

#[test]
fn duration_boundaries() {
    assert_eq!(format_duration(0), "0ns");
    assert_eq!(format_duration(999), "999ns");
    assert_eq!(format_duration(1000), "1.00\u{b5}s");
    assert_eq!(format_duration(999_999), "1000.00\u{b5}s");
    assert_eq!(format_duration(1_000_000), "1.00ms");
    assert_eq!(format_duration(999_999_999), "1000.00ms");
    assert_eq!(format_duration(1_000_000_000), "1.000s");
}

#[test]
fn duration_values() {
    assert_eq!(format_duration(1234), "1.23\u{b5}s");
    assert_eq!(format_duration(1236), "1.24\u{b5}s");
    assert_eq!(format_duration(12_345_678), "12.35ms");
    assert_eq!(format_duration(1_500_000_000), "1.500s");
    assert_eq!(format_duration(61_234_567_890), "61.235s");
    assert_eq!(format_duration(u64::MAX), "18446744073.710s");
}

#[test]
fn escape_reserved_characters() {
    assert_eq!(
        html_escape("<script>&\"</script>"),
        "&lt;script&gt;&amp;&quot;&lt;/script&gt;"
    );
    assert_eq!(html_escape("plain_name"), "plain_name");
    assert_eq!(html_escape(""), "");
    assert_eq!(html_escape("a<b>c"), "a&lt;b&gt;c");
}

#[test]
fn short_path_forms() {
    assert_eq!(short_path("/usr/lib/app/main.py"), "main.py");
    assert_eq!(short_path("C:\\work\\app\\mod.py"), "mod.py");
    assert_eq!(short_path("a/b\\c.py"), "c.py");
    assert_eq!(short_path("plain.py"), "plain.py");
    assert_eq!(short_path("dir/"), "");
    assert_eq!(short_path(""), "");
}

#[test]
fn balanced_trace_counts_every_pair() {
    let events = vec![
        ev("call", "root", 100, false),
        ev("call", "a", 110, false),
        ev("call", "b", 120, false),
        ev("return", "b", 130, false),
        ev("return", "a", 140, false),
        ev("c_call", "c", 150, false),
        ev("c_return", "c", 160, false),
        ev("return", "root", 200, false),
    ];
    let root = build_call_tree(events, "api", 100, 300);
    assert_eq!(count(&root), 4);
    assert_eq!(root.func_name, "root");
    assert_eq!(root.duration_ns, 100);
    assert_eq!(root.start_time_ns, 0);
    assert_eq!(root.end_time_ns, 100);
    assert_eq!(root.children.len(), 2);
    assert_eq!(root.children[0].func_name, "a");
    assert_eq!(root.children[0].children[0].func_name, "b");
    assert_eq!(root.children[0].children[0].start_time_ns, 20);
    assert_eq!(root.children[0].children[0].end_time_ns, 30);
    assert_eq!(root.children[1].func_name, "c");
    assert_eq!(root.children[1].duration_ns, 10);
}

#[test]
fn truncated_call_closes_at_window_end() {
    let events = vec![
        ev("call", "root", 1_000, false),
        ev("call", "open", 1_500, false),
    ];
    let root = build_call_tree(events, "api", 1_000, 5_000);
    assert_eq!(root.children.len(), 1);
    let open = &root.children[0];
    assert_eq!(open.func_name, "open");
    assert_eq!(open.end_time_ns, 4_000);
    assert_eq!(open.duration_ns, 3_500);
    assert_eq!(root.end_time_ns, 4_000);
    assert_eq!(root.duration_ns, 4_000);
}

#[test]
fn external_call_discards_children() {
    let events = vec![
        ev("call", "root", 0, false),
        ev("call", "a", 10, true),
        ev("call", "b", 20, false),
        ev("return", "b", 30, false),
        ev("return", "a", 40, true),
        ev("return", "root", 50, false),
    ];
    let root = build_call_tree(events, "api", 0, 100);
    assert_eq!(root.children.len(), 1);
    let a = &root.children[0];
    assert_eq!(a.func_name, "a");
    assert!(a.children.is_empty());
    assert_eq!(a.duration_ns, 30);
    assert_eq!(count(&root), 2);
}

#[test]
fn external_root_discards_children() {
    let events = vec![
        ev("call", "A", 10, true),
        ev("call", "B", 20, false),
        ev("return", "B", 30, false),
        ev("return", "A", 40, true),
    ];
    let root = build_call_tree(events, "api", 0, 100);
    assert_eq!(root.func_name, "A");
    assert!(root.is_external);
    assert_eq!(root.duration_ns, 30);
    assert!(root.children.is_empty());
}

#[test]
fn external_root_truncated_discards_children() {
    let events = vec![ev("call", "A", 10, true), ev("call", "B", 20, false)];
    let root = build_call_tree(events, "api", 0, 100);
    assert_eq!(root.func_name, "A");
    assert_eq!(root.duration_ns, 90);
    assert!(root.children.is_empty());
}

#[test]
fn empty_stream_gives_fallback_root() {
    let root = build_call_tree(Vec::new(), "my_api", 1_000, 4_000);
    assert_eq!(root.func_name, "my_api");
    assert_eq!(root.duration_ns, 3_000);
    assert_eq!(root.start_time_ns, 0);
    assert_eq!(root.end_time_ns, 3_000);
    assert!(root.children.is_empty());
    assert!(!root.is_external);
    assert_eq!(root.line_number, 0);
    let reversed = build_call_tree(Vec::new(), "my_api", 4_000, 1_000);
    assert_eq!(reversed.duration_ns, 0);
}

#[test]
fn spurious_return_and_unknown_kind_are_ignored() {
    let events = vec![
        ev("return", "x", 5, false),
        ev("line", "x", 6, false),
        ev("call", "root", 10, false),
        ev("exception", "root", 12, false),
        ev("return", "root", 20, false),
    ];
    let root = build_call_tree(events, "api", 0, 100);
    assert_eq!(root.func_name, "root");
    assert_eq!(root.duration_ns, 10);
    assert!(root.children.is_empty());
}

#[test]
fn saturating_duration_on_backwards_clock() {
    let events = vec![
        ev("call", "root", 100, false),
        ev("call", "a", 90, false),
        ev("return", "a", 50, false),
        ev("return", "root", 200, false),
    ];
    let root = build_call_tree(events, "api", 60, 300);
    assert_eq!(root.children[0].duration_ns, 0);
    assert_eq!(root.children[0].start_time_ns, 30);
    assert_eq!(root.children[0].end_time_ns, 0);
}

#[test]
fn slowest_first_seen_wins() {
    let root = node(
        "root",
        100,
        false,
        vec![
            node("a", 50, true, vec![]),
            node("b", 70, false, vec![]),
            node("c", 70, false, vec![]),
        ],
    );
    assert_eq!(root.find_slowest_id(), Some(2));
    let only_external = node("root", 100, false, vec![node("x", 500, true, vec![])]);
    assert_eq!(only_external.find_slowest_id(), None);
    assert_eq!(node("root", 100, false, vec![]).find_slowest_id(), None);
    let zero = node("root", 100, false, vec![node("z", 0, false, vec![])]);
    assert_eq!(zero.find_slowest_id(), Some(1));
    let zeros = node(
        "root",
        100,
        false,
        vec![node("z1", 0, false, vec![]), node("z2", 0, false, vec![])],
    );
    assert_eq!(zeros.find_slowest_id(), Some(1));
}

#[test]
fn slowest_in_nested_subtree() {
    let root = node(
        "root",
        100,
        false,
        vec![
            node("a", 20, false, vec![node("deep", 90, false, vec![])]),
            node("b", 90, false, vec![]),
        ],
    );
    assert_eq!(root.find_slowest_id(), Some(2));
}

#[test]
fn normalize_times_relative_to_base() {
    let mut root = node("root", 100, false, vec![node("a", 10, false, vec![])]);
    root.start_time_ns = 1_000;
    root.end_time_ns = 1_100;
    root.children[0].start_time_ns = 1_010;
    root.children[0].end_time_ns = 5;
    root.normalize_times(1_000);
    assert_eq!(root.start_time_ns, 0);
    assert_eq!(root.end_time_ns, 100);
    assert_eq!(root.children[0].start_time_ns, 10);
    assert_eq!(root.children[0].end_time_ns, 0);
    assert_eq!(root.duration_ns, 100);
}

#[test]
fn report_counts_functions() {
    let root = node(
        "root",
        100,
        false,
        vec![
            node("a", 10, false, vec![node("a1", 1, false, vec![]), node("a2", 1, false, vec![])]),
            node("b", 10, false, vec![node("b1", 1, false, vec![node("b11", 1, false, vec![])])]),
            node("c", 10, false, vec![]),
        ],
    );
    let html = generate_html(&root, "api");
    assert!(html.contains(
        "<span class=\"label\">Functions:</span><span class=\"value\">7</span>"
    ));
}

#[test]
fn report_escapes_names() {
    let root = node("root", 100, false, vec![node("<script>&\"</script>", 50, false, vec![])]);
    let html = generate_html(&root, "a<b");
    assert!(html.contains("&lt;script&gt;&amp;&quot;&lt;/script&gt;"));
    assert!(!html.contains("<script>&"));
    assert!(html.contains("<title>callprofiler: a&lt;b</title>"));
    assert!(html.contains("<h1>Call Profile: a&lt;b</h1>"));
}

#[test]
fn report_marks_slowest_and_external() {
    let mut lib = node("ext", 500, true, vec![]);
    lib.library_name = "numpy".to_string();
    let mut slow = node("slow", 70, false, vec![]);
    slow.file_path = "/x/y/slow.py".to_string();
    slow.line_number = 42;
    let root = node("root", 1_000, false, vec![lib, slow]);
    let html = generate_html(&root, "api");
    assert!(html.contains("<div class=\"node external\">"));
    assert!(html.contains("<span class=\"lib-badge\">numpy</span>"));
    assert!(html.contains("<div class=\"node slowest\"><span class=\"func-name\">slow</span>"));
    assert!(html.contains("<span class=\"location\">slow.py:42</span>"));
    assert!(html.contains("<span class=\"slowest-name\">slow (70ns)</span>"));
    assert!(html.contains("Total Duration:</span><span class=\"value\">1.00\u{b5}s</span>"));
    assert!(html.contains("<span class=\"toggle\" onclick=\"toggle(this)\">\u{25BC}</span>"));
    assert!(html.contains("[start: 0ns | end: 70ns]"));
    assert!(html.starts_with("<!DOCTYPE html>"));
    assert!(html.ends_with("</html>"));
}

#[test]
fn report_without_slowest_has_no_slowest_line() {
    let root = node("root", 100, false, vec![]);
    let html = generate_html(&root, "api");
    assert!(!html.contains("Slowest Function"));
    assert!(html.contains("<span class=\"label\">Functions:</span><span class=\"value\">0</span>"));
    assert!(!html.contains("class=\"toggle\""));
}

fn record(skip: &str) -> Vec<(String, FieldValue)> {
    let all = vec![
        ("event", FieldValue::Text("call".to_string())),
        ("func_name", FieldValue::Text("f".to_string())),
        ("module", FieldValue::Text("m".to_string())),
        ("filename", FieldValue::Text("/a/f.py".to_string())),
        ("lineno", FieldValue::Int(7)),
        ("timestamp_ns", FieldValue::Int(1_000)),
        ("is_external", FieldValue::Bool(false)),
        ("library_name", FieldValue::Text(String::new())),
    ];
    all.into_iter()
        .filter(|(k, _)| *k != skip)
        .map(|(k, v)| (k.to_string(), v))
        .collect()
}

#[test]
fn parse_complete_record() {
    let ev = parse_event(&record("")).ok().unwrap();
    assert_eq!(ev.event, "call");
    assert_eq!(ev.func_name, "f");
    assert_eq!(ev.module, "m");
    assert_eq!(ev.filename, "/a/f.py");
    assert_eq!(ev.lineno, 7);
    assert_eq!(ev.timestamp_ns, 1_000);
    assert!(!ev.is_external);
    assert_eq!(ev.library_name, "");
}

#[test]
fn parse_missing_field() {
    match parse_event(&record("lineno")) {
        Err(FieldError::Missing(f)) => assert_eq!(f, "lineno"),
        _ => panic!("expected a missing field"),
    }
}

#[test]
fn parse_wrong_type() {
    let mut rec = record("");
    rec[5].1 = FieldValue::Text("soon".to_string());
    match parse_event(&rec) {
        Err(FieldError::Invalid(f)) => assert_eq!(f, "timestamp_ns"),
        _ => panic!("expected an invalid field"),
    }
    let mut big = record("");
    big[4].1 = FieldValue::Int(5_000_000_000);
    let err = parse_event(&big).err().unwrap();
    assert_eq!(err.field(), "lineno");
    assert!(matches!(err, FieldError::Invalid(_)));
    let mut flag = record("");
    flag[6].1 = FieldValue::Int(1);
    assert!(matches!(parse_event(&flag), Err(FieldError::Invalid(_))));
}

#[test]
fn parse_flag_as_integer() {
    let mut rec = record("");
    rec[4].1 = FieldValue::Bool(true);
    assert_eq!(parse_event(&rec).ok().unwrap().lineno, 1);
}

#[test]
fn parse_events_stops_at_first_bad_record() {
    let recs = vec![record(""), record("module"), record("event")];
    match parse_events(&recs) {
        Err(FieldError::Missing(f)) => assert_eq!(f, "module"),
        _ => panic!("expected the second record to fail"),
    }
    let ok = parse_events(&vec![record(""), record("")]).ok().unwrap();
    assert_eq!(ok.len(), 2);
}

#[test]
fn process_events_end_to_end() {
    let mut ret = record("");
    ret[0].1 = FieldValue::Text("return".to_string());
    ret[5].1 = FieldValue::Int(3_000);
    let html = process_events(&vec![record(""), ret], "api", 1_000, 9_000).ok().unwrap();
    assert!(html.contains("<span class=\"func-name\">f</span>"));
    assert!(html.contains("Total Duration:</span><span class=\"value\">2.00\u{b5}s</span>"));
    let bad = process_events(&vec![record("filename")], "api", 0, 1);
    assert!(matches!(bad, Err(FieldError::Missing(ref f)) if f == "filename"));
}
