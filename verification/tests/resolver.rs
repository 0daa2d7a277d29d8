//! Tests of variable discovery, graph building, evaluation order, and the
//! full resolving pipeline.

use jinga::extract::variables;
use jinga::graph::VarNodes;
use jinga::render;
use jinga::{JsonVal, ResolveError};

fn s(text: &str) -> JsonVal {
    JsonVal::Str(text.to_string())
}

fn obj(entries: Vec<(&str, JsonVal)>) -> JsonVal {
    JsonVal::Obj(
        entries
            .into_iter()
            .map(|(k, v)| (k.to_string(), v))
            .collect(),
    )
}

fn sorted(mut v: Vec<String>) -> Vec<String> {
    v.sort();
    v.dedup();
    v
}

fn ensure_variables(value: &JsonVal, expected: &[&str]) {
    let (vars, invalid) = variables(value);
    assert!(invalid.is_empty(), "unexpected invalid templates: {invalid:?}");
    let actual = sorted(vars);
    let expected = sorted(expected.iter().map(|x| x.to_string()).collect());
    assert_eq!(actual, expected);
}

#[test]
fn test_variables() {
    ensure_variables(&s("{{ a | replace('b', 'e') }}"), &["a"]);
    ensure_variables(&s("{{ a | replace(b, 'e') }}"), &["a", "b"]);
    ensure_variables(&s("{{ a | replace(b, e) }}"), &["a", "b", "e"]);

    let value = obj(vec![
        ("a", s("bcd")),
        ("v", s("{{ a | replace('b', 'e') }}")),
        (
            "colors",
            JsonVal::Arr(vec![s("red"), s("green"), s("{{ blue | string }}")]),
        ),
    ]);
    ensure_variables(&value, &["a", "blue"]);
}

#[test]
fn test_global() {
    let value = obj(vec![
        ("a", s("bcd")),
        ("v", s("{{ a | replace('b', 'e') }}")),
        ("colors", JsonVal::Arr(vec![s("red"), s("green"), s("blue")])),
    ]);
    let var_nodes = VarNodes::new();
    let graph = var_nodes.graph(&value).expect("graph should build");

    assert!(graph.has_global("a"));
    assert!(!graph.has_global("b"));
    assert!(graph.has_global("v"));
    assert!(graph.has_global("colors"));

    assert_eq!(graph.global("a"), Some(&s("bcd")));
    assert_eq!(graph.global("b"), None);
    assert_eq!(graph.global("v"), Some(&s("{{ a | replace('b', 'e') }}")));
    assert_eq!(
        graph.global("colors"),
        Some(&JsonVal::Arr(vec![s("red"), s("green"), s("blue")]))
    );

    let dep_graph = graph.topo_order().expect("acyclic");
    assert_eq!(dep_graph, vec!["a".to_string(), "v".to_string()]);
}

#[test]
fn evaluation_order_places_dependencies_first() {
    let value = obj(vec![
        ("c", s("{{ b }}")),
        ("b", s("{{ a }}")),
        ("a", s("x")),
    ]);
    let graph = VarNodes::new().graph(&value).expect("graph should build");
    let order = graph.topo_order().expect("acyclic");
    let pos = |name: &str| order.iter().position(|n| n == name).unwrap();
    assert!(pos("a") < pos("b"));
    assert!(pos("b") < pos("c"));
}

#[test]
fn render_resolves_references_in_dependency_order() {
    let mut value = obj(vec![
        ("v", s("{{ a | replace('b', 'e') }}")),
        ("w", s("[{{ v }}]")),
        ("a", s("bcd")),
    ]);
    render(&mut value).expect("render should succeed");
    let expected = obj(vec![("v", s("ecd")), ("w", s("[ecd]")), ("a", s("bcd"))]);
    assert_eq!(value, expected);
}

#[test]
fn render_touches_nested_leaves() {
    let mut value = obj(vec![
        ("a", s("x")),
        (
            "nest",
            obj(vec![(
                "inner",
                JsonVal::Arr(vec![s("{{ a }}"), JsonVal::Bool(true), JsonVal::Num("7".to_string())]),
            )]),
        ),
    ]);
    render(&mut value).expect("render should succeed");
    let expected = obj(vec![
        ("a", s("x")),
        (
            "nest",
            obj(vec![(
                "inner",
                JsonVal::Arr(vec![s("x"), JsonVal::Bool(true), JsonVal::Num("7".to_string())]),
            )]),
        ),
    ]);
    assert_eq!(value, expected);
}

#[test]
fn render_is_idempotent_without_markers() {
    let mut value = obj(vec![
        ("a", s("bcd")),
        ("n", JsonVal::Num("1.5".to_string())),
        ("l", JsonVal::Arr(vec![s("plain"), JsonVal::Null])),
    ]);
    let before = obj(vec![
        ("a", s("bcd")),
        ("n", JsonVal::Num("1.5".to_string())),
        ("l", JsonVal::Arr(vec![s("plain"), JsonVal::Null])),
    ]);
    render(&mut value).expect("render should succeed");
    assert_eq!(value, before);
}

#[test]
fn rendered_document_renders_unchanged_again() {
    let mut value = obj(vec![("a", s("bcd")), ("v", s("{{ a }}"))]);
    render(&mut value).expect("first render");
    let once = obj(vec![("a", s("bcd")), ("v", s("bcd"))]);
    assert_eq!(value, once);
    render(&mut value).expect("second render");
    assert_eq!(value, once);
}

#[test]
fn undefined_variable_is_an_error_not_empty_text() {
    let mut value = obj(vec![("x", s("{{ ghost }}"))]);
    match render(&mut value) {
        Err(ResolveError::RenderErrors(msgs)) => {
            assert_eq!(msgs.len(), 1);
            assert!(!msgs[0].is_empty());
        },
        other => panic!("expected render errors, got {other:?}"),
    }
    // the failing leaf is left as it was, never replaced by empty text
    assert_eq!(value, obj(vec![("x", s("{{ ghost }}"))]));
}

#[test]
fn invalid_templates_aggregate_before_rendering() {
    let mut value = obj(vec![
        ("a", s("{{ broken")),
        ("b", obj(vec![("deep", s("{{ also broken"))])),
        ("c", s("fine")),
    ]);
    match render(&mut value) {
        Err(ResolveError::InvalidTemplates(ts)) => {
            assert_eq!(
                ts,
                vec!["{{ broken".to_string(), "{{ also broken".to_string()]
            );
        },
        other => panic!("expected invalid templates, got {other:?}"),
    }
}

#[test]
fn cycle_is_fatal() {
    let mut value = obj(vec![("a", s("{{ b }}")), ("b", s("{{ a }}"))]);
    match render(&mut value) {
        Err(ResolveError::CycleError) => {},
        other => panic!("expected a cycle error, got {other:?}"),
    }
    // nothing was rendered
    assert_eq!(value, obj(vec![("a", s("{{ b }}")), ("b", s("{{ a }}"))]));
}

#[test]
fn independent_templates_render_the_same_in_either_order() {
    let mut one = obj(vec![
        ("p", s("{{ x }}")),
        ("q", s("{{ y }}")),
        ("x", s("1")),
        ("y", s("2")),
    ]);
    let mut two = obj(vec![
        ("q", s("{{ y }}")),
        ("p", s("{{ x }}")),
        ("y", s("2")),
        ("x", s("1")),
    ]);
    render(&mut one).expect("first layout");
    render(&mut two).expect("second layout");
    let get = |doc: &JsonVal, key: &str| -> JsonVal {
        match doc {
            JsonVal::Obj(entries) => entries
                .iter()
                .find(|(k, _)| k == key)
                .map(|(_, v)| v.deep_clone())
                .unwrap(),
            _ => panic!("not an object"),
        }
    };
    for key in ["p", "q", "x", "y"] {
        assert_eq!(get(&one, key), get(&two, key));
    }
}

#[test]
fn array_globals_pass_non_strings_through() {
    let mut value = obj(vec![
        ("a", s("x")),
        (
            "colors",
            JsonVal::Arr(vec![s("{{ a }}"), JsonVal::Num("7".to_string()), JsonVal::Bool(true)]),
        ),
        ("first", s("{{ colors[0] }}")),
        ("second", s("{{ colors[1] }}")),
        ("third", s("{{ colors[2] | string }}")),
    ]);
    render(&mut value).expect("render should succeed");
    match &value {
        JsonVal::Obj(entries) => {
            let get = |key: &str| -> &JsonVal {
                &entries.iter().find(|(k, _)| k == key).unwrap().1
            };
            assert_eq!(get("first"), &s("x"));
            assert_eq!(get("second"), &s("7"));
            assert_eq!(get("third"), &s("true"));
        },
        _ => panic!("not an object"),
    }
}

#[test]
fn templates_can_use_rendered_templates() {
    let mut value = obj(vec![
        ("base", s("10.0.0.0/8")),
        ("host", s("{{ base | nthhost(1) }}")),
        ("echo", s("{{ host }}")),
    ]);
    render(&mut value).expect("render should succeed");
    let expected = obj(vec![
        ("base", s("10.0.0.0/8")),
        ("host", s("10.0.0.1")),
        ("echo", s("10.0.0.1")),
    ]);
    assert_eq!(value, expected);
}

#[test]
fn non_object_documents_substitute_only() {
    let mut value = s("no markers here");
    render(&mut value).expect("plain strings pass through");
    assert_eq!(value, s("no markers here"));

    let mut bad = s("{{ nothing_bound }}");
    assert!(render(&mut bad).is_err());
}

#[test]
fn array_globals_keep_null_and_object_elements() {
    let mut value = obj(vec![
        (
            "colors",
            JsonVal::Arr(vec![
                s("red"),
                JsonVal::Null,
                obj(vec![("key", s("z"))]),
                JsonVal::Num("3".to_string()),
            ]),
        ),
        ("count", s("{{ colors | length }}")),
        ("inner", s("{{ colors[2].key }}")),
    ]);
    render(&mut value).expect("render should succeed");
    match &value {
        JsonVal::Obj(entries) => {
            let get = |key: &str| -> &JsonVal {
                &entries.iter().find(|(k, _)| k == key).unwrap().1
            };
            assert_eq!(get("count"), &s("4"));
            assert_eq!(get("inner"), &s("z"));
        },
        _ => panic!("not an object"),
    }
}

#[test]
fn empty_document_renders_unchanged() {
    let mut value = obj(vec![]);
    render(&mut value).expect("render should succeed");
    assert_eq!(value, obj(vec![]));
}
