use asmo::resolve::{is_wildcard, list_endpoints, query, resolve_path, Answer};
use asmo::tree::{Member, Node};

fn text(s: &str) -> Node {
    Node::Text(s.to_string())
}

fn num(s: &str) -> Node {
    Node::Number(s.to_string())
}

fn object(fields: Vec<(&str, Node)>) -> Node {
    Node::Object(
        fields
            .into_iter()
            .map(|(k, v)| Member { key: k.to_string(), value: v })
            .collect(),
    )
}

fn render(n: &Node) -> String {
    match n {
        Node::Null => "null".to_string(),
        Node::Bool(b) => b.to_string(),
        Node::Number(s) => s.clone(),
        Node::Text(s) => format!("\"{}\"", s),
        Node::Array(items) => {
            let parts: Vec<String> = items.iter().map(render).collect();
            format!("[{}]", parts.join(","))
        }
        Node::Object(fields) => {
            let parts: Vec<String> =
                fields.iter().map(|m| format!("\"{}\":{}", m.key, render(&m.value))).collect();
            format!("{{{}}}", parts.join(","))
        }
    }
}

fn snapshot() -> Node {
    object(vec![
        ("battery_level", num("100")),
        ("cpu_temp", num("34.4")),
        (
            "cores",
            Node::Array(vec![
                object(vec![("name", text("cpu0")), ("usage", num("10")), ("cur_freq", num("1800"))]),
                object(vec![("name", text("cpu1")), ("usage", num("20")), ("cur_freq", num("2400"))]),
            ]),
        ),
    ])
}

fn found(path: &str) -> String {
    match query(&snapshot(), path) {
        Answer::Found(n) => render(&n),
        Answer::NotFound { path } => panic!("not found: {}", path),
    }
}

#[test]
fn stats_is_whole_snapshot() {
    assert_eq!(found("/stats"), render(&snapshot()));
}

#[test]
fn single_field_is_wrapped() {
    assert_eq!(found("/battery_level"), "{\"battery_level\":100}");
    assert_eq!(found("/cpu_temp"), "{\"cpu_temp\":34.4}");
}

#[test]
fn wildcard_gives_one_tagged_result_per_core() {
    let expected = "[{\"name\":\"cpu0\",\"usage\":10},{\"name\":\"cpu1\",\"usage\":20}]";
    assert_eq!(found("/cores/*/usage"), expected);
    assert_eq!(found("/cores/all/usage"), expected);
}

#[test]
fn wildcard_with_several_fields() {
    assert_eq!(
        found("/cores/all/usage,cur_freq"),
        "[{\"name\":\"cpu0\",\"usage\":10,\"cur_freq\":1800},{\"name\":\"cpu1\",\"usage\":20,\"cur_freq\":2400}]"
    );
}

#[test]
fn wildcard_as_last_segment_lists_elements() {
    assert_eq!(found("/cores/*"), render(&Node::Array(match snapshot() {
        Node::Object(fs) => match fs.into_iter().nth(2).unwrap().value {
            Node::Array(items) => items,
            _ => panic!(),
        },
        _ => panic!(),
    })));
}

#[test]
fn core_by_name_and_its_fields() {
    assert_eq!(found("/cores/cpu1"), "{\"name\":\"cpu1\",\"usage\":20,\"cur_freq\":2400}");
    assert_eq!(found("/cores/cpu1/usage"), "{\"usage\":20}");
    assert_eq!(found("/cores/cpu0/usage,cur_freq"), "{\"usage\":10,\"cur_freq\":1800}");
    assert_eq!(found("/cores/cpu0,cpu1"), "{\"cpu0\":{\"name\":\"cpu0\",\"usage\":10,\"cur_freq\":1800},\"cpu1\":{\"name\":\"cpu1\",\"usage\":20,\"cur_freq\":2400}}");
}

#[test]
fn comma_list_keeps_fields_that_exist() {
    assert_eq!(found("/battery_level,missing"), "{\"battery_level\":100}");
    assert_eq!(found("/battery_level, cpu_temp ,,battery_level"), "{\"battery_level\":100,\"cpu_temp\":34.4}");
    assert!(matches!(query(&snapshot(), "/missing,other"), Answer::NotFound { .. }));
}

#[test]
fn unknown_path_echoes_request() {
    match query(&snapshot(), "/nonexistent") {
        Answer::NotFound { path } => assert_eq!(path, "/nonexistent"),
        Answer::Found(n) => panic!("unexpected {}", render(&n)),
    }
}

#[test]
fn mismatched_shapes_are_not_found() {
    let tree = snapshot();
    assert!(resolve_path(&tree, "/battery_level/x").is_none());
    assert!(resolve_path(&tree, "/*/usage").is_none());
    assert!(resolve_path(&tree, "/cores/cpu9").is_none());
    assert!(resolve_path(&tree, "/cores/*/missing").is_none());
    assert_eq!(render(&resolve_path(&tree, "").unwrap()), render(&tree));
    assert_eq!(render(&resolve_path(&tree, "//").unwrap()), render(&tree));
}

#[test]
fn index_lists_every_path() {
    let tree = snapshot();
    let listed = list_endpoints(&tree);
    assert_eq!(
        listed,
        vec![
            "/stats",
            "/battery_level",
            "/cpu_temp",
            "/cores",
            "/cores/cpu0",
            "/cores/cpu0/name",
            "/cores/cpu0/usage",
            "/cores/cpu0/cur_freq",
            "/cores/cpu1",
            "/cores/cpu1/name",
            "/cores/cpu1/usage",
            "/cores/cpu1/cur_freq",
        ]
    );
    for p in &listed {
        assert!(matches!(query(&tree, p), Answer::Found(_)), "{} did not resolve", p);
    }
}

#[test]
fn element_name_field_resolves() {
    match query(&snapshot(), "/cores/cpu0/name") {
        Answer::Found(n) => assert_eq!(render(&n), "{\"name\":\"cpu0\"}"),
        Answer::NotFound { .. } => panic!(),
    }
}

#[test]
fn duplicate_names_list_fields_of_first() {
    let tree = object(vec![(
        "cores",
        Node::Array(vec![
            object(vec![("name", text("cpu0")), ("usage", num("1"))]),
            object(vec![("name", text("cpu0")), ("extra", num("2"))]),
        ]),
    )]);
    let listed = list_endpoints(&tree);
    assert_eq!(
        listed,
        vec![
            "/stats",
            "/cores",
            "/cores/cpu0",
            "/cores/cpu0/name",
            "/cores/cpu0/usage",
            "/cores/cpu0",
            "/cores/cpu0/name",
            "/cores/cpu0/usage",
        ]
    );
    for p in &listed {
        assert!(matches!(query(&tree, p), Answer::Found(_)), "{} did not resolve", p);
    }
}

#[test]
fn nested_objects_are_listed() {
    let tree = object(vec![("display", object(vec![("brightness", num("0.5"))])), ("flag", Node::Bool(true)), ("none", Node::Null)]);
    let listed = list_endpoints(&tree);
    assert_eq!(listed, vec!["/stats", "/display", "/display/brightness", "/flag", "/none"]);
    match query(&tree, "/display/brightness") {
        Answer::Found(n) => assert_eq!(render(&n), "{\"brightness\":0.5}"),
        Answer::NotFound { .. } => panic!(),
    }
}

#[test]
fn wildcard_tokens() {
    assert!(is_wildcard("*"));
    assert!(is_wildcard("all"));
    assert!(!is_wildcard("cores"));
    assert!(!is_wildcard("al"));
}

#[test]
fn clone_keeps_tree() {
    let tree = snapshot();
    assert_eq!(render(&tree.clone()), render(&tree));
}
