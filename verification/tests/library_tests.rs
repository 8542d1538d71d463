use scope_engine::attributes::{
    evaluate_and_bind_attributes, resolve_variable, AttributeProcessor, BindProcessor,
    ConditionalProcessor, ProcessingResult, TextProcessor,
};
use scope_engine::compile::{ForLoopProcessor, IncludeProcessor};
use scope_engine::data::{
    api_scope, rows_to_json, SqlCell, ApiProvider, DataManager, DataProvider, DataRequest, FileProvider, SqliteProvider,
};
use scope_engine::expressions::{evaluate_complex_string, evaluate_expression, resolve_value};
use scope_engine::html::{HtmlNode, HtmlTag};
use scope_engine::json::{JsonNumber, JsonValue};

fn json_of(text: &str) -> Option<JsonValue> {
    FileProvider.parse_content(text)
}

fn scope(text: &str) -> Vec<JsonValue> {
    vec![json_of(text).expect("test scope is JSON")]
}

fn tag(name: &str, attrs: Vec<(&str, Option<&str>)>, children: Vec<HtmlNode>) -> HtmlTag {
    HtmlTag {
        name: name.to_string(),
        attributes: attrs.into_iter().map(|(k, v)| (k.to_string(), v.map(|x| x.to_string()))).collect(),
        children,
    }
}

fn override_text(r: ProcessingResult) -> String {
    match r {
        ProcessingResult::OverrideInner(s) => s,
        other => panic!("expected new content, got {:?}", other),
    }
}

#[test]
fn test_provider_prefix() {
    let provider = FileProvider;
    assert_eq!(provider.prefix(), "x-data-file");
}

#[test]
fn provider_prefixes() {
    assert_eq!(SqliteProvider.prefix(), "x-data-sqlite");
    assert_eq!(ApiProvider.prefix(), "x-data-api");
}

#[test]
fn file_request_drops_leading_dot_and_data_dir() {
    assert!(matches!(FileProvider.request("./data/inventory.json"), Some(DataRequest::File(f)) if f == "inventory.json"));
    assert!(matches!(FileProvider.request("data/x.json"), Some(DataRequest::File(f)) if f == "x.json"));
    assert!(matches!(FileProvider.request("data/./x"), Some(DataRequest::File(f)) if f == "./x"));
    assert!(matches!(FileProvider.request("plain.json"), Some(DataRequest::File(f)) if f == "plain.json"));
}

#[test]
fn sqlite_request_splits_at_the_first_bar() {
    let r = SqliteProvider.request("test_metrics.db | SELECT id, label, hex FROM system_nodes WHERE active = 1");
    assert!(matches!(r, Some(DataRequest::Sqlite { db, query })
        if db == "test_metrics.db" && query == "SELECT id, label, hex FROM system_nodes WHERE active = 1"));
    assert!(matches!(SqliteProvider.request("a|b|c"), Some(DataRequest::Sqlite { db, query }) if db == "a" && query == "b|c"));
    assert!(SqliteProvider.request("no separator").is_none());
}

#[test]
fn api_request_trims_the_url() {
    assert!(matches!(ApiProvider.request("  https://example.org/x.json \n"), Some(DataRequest::Api(u)) if u == "https://example.org/x.json"));
}

#[test]
fn manager_uses_the_first_registered_provider_with_a_value() {
    let manager = DataManager::new();
    let attrs: Vec<(String, Option<String>)> = vec![
        ("class".to_string(), Some("x".to_string())),
        ("x-data-api".to_string(), Some("https://example.org".to_string())),
        ("x-data-file".to_string(), None),
        ("x-data-sqlite".to_string(), Some("d.db|SELECT 1".to_string())),
        ("x-data-file".to_string(), Some("f.json".to_string())),
    ];
    assert!(matches!(manager.extract_scope(&attrs), Some(DataRequest::Sqlite { db, query }) if db == "d.db" && query == "SELECT 1"));
    let none: Vec<(String, Option<String>)> = vec![("id".to_string(), Some("a".to_string()))];
    assert!(manager.extract_scope(&none).is_none());
    let bad: Vec<(String, Option<String>)> = vec![
        ("x-data-sqlite".to_string(), Some("missing bar".to_string())),
        ("x-data-file".to_string(), Some("f.json".to_string())),
    ];
    assert!(manager.extract_scope(&bad).is_none());
}

#[test]
fn file_content_parses_as_json() {
    let v = FileProvider.parse_content(r#"[{"sku":"TEST-01","status":"Online"},{"sku":"TEST-02","status":"Offline"}]"#);
    match v {
        Some(JsonValue::Array(rows)) => {
            assert_eq!(rows.len(), 2);
            assert!(matches!(&rows[0], JsonValue::Object(es) if es[0].0 == "sku" && matches!(&es[0].1, JsonValue::String(s) if s == "TEST-01")));
            assert!(matches!(&rows[1], JsonValue::Object(es) if es[1].0 == "status" && matches!(&es[1].1, JsonValue::String(s) if s == "Offline")));
        },
        other => panic!("expected an array, got {:?}", other),
    }
    assert!(FileProvider.parse_content("{ broken key: unquoted value ").is_none());
}

#[test]
fn conditions_compare_and_test_truth() {
    let st = scope(r#"{"count": 5, "name": "Ann", "no": "false", "empty": "", "obj": {}, "item": {"id": 202}}"#);
    assert!(evaluate_expression("count === 5", &st));
    assert!(!evaluate_expression("count !== 5", &st));
    assert!(evaluate_expression("count != 4", &st));
    assert!(evaluate_expression("count >= 5", &st));
    assert!(evaluate_expression("count <= 5", &st));
    assert!(!evaluate_expression("count < 5", &st));
    assert!(evaluate_expression("item.id === 202", &st));
    assert!(evaluate_expression("name == 'Ann'", &st));
    assert!(evaluate_expression("name", &st));
    assert!(!evaluate_expression("no", &st));
    assert!(!evaluate_expression("empty", &st));
    assert!(evaluate_expression("obj", &st));
    assert!(!evaluate_expression("missing", &st));
    assert!(evaluate_expression("!missing", &st));
    assert!(evaluate_expression("!0", &st));
    assert!(!evaluate_expression("name < 3", &st));
    assert!(evaluate_expression("1.5 < 2", &st));
    assert!(evaluate_expression("-1 < 0", &st));
    assert!(evaluate_expression("2 == 2.0", &st) == false);
}

#[test]
fn values_resolve_by_kind() {
    let st = scope(r#"{"a": {"b": 3}, "c": 4}"#);
    assert!(matches!(resolve_value(" 'hi' ", &st), JsonValue::String(s) if s == "hi"));
    assert!(matches!(resolve_value("42", &st), JsonValue::Number(JsonNumber::PosInt(42))));
    assert!(matches!(resolve_value("-3", &st), JsonValue::Number(JsonNumber::NegInt(-3))));
    assert!(matches!(resolve_value("1.5", &st), JsonValue::Number(JsonNumber::Float(_))));
    assert!(matches!(resolve_value("1e400", &st), JsonValue::Null));
    assert!(matches!(resolve_value("true", &st), JsonValue::Bool(true)));
    assert!(matches!(resolve_value("false", &st), JsonValue::Bool(false)));
    assert!(matches!(resolve_value("null", &st), JsonValue::Null));
    assert!(matches!(resolve_value("a.b", &st), JsonValue::Number(JsonNumber::PosInt(3))));
    assert!(matches!(resolve_value("item.c", &st), JsonValue::Number(JsonNumber::PosInt(4))));
    assert!(matches!(resolve_value("other.c", &st), JsonValue::Null));
    assert!(matches!(resolve_value("nothing", &st), JsonValue::Null));
}

#[test]
fn inner_scope_answers_first() {
    let mut st = scope(r#"{"v": 1, "w": 2}"#);
    st.push(json_of(r#"{"v": 10}"#).unwrap());
    assert!(matches!(resolve_value("v", &st), JsonValue::Number(JsonNumber::PosInt(10))));
    assert!(matches!(resolve_value("w", &st), JsonValue::Number(JsonNumber::PosInt(2))));
    assert_eq!(resolve_variable("v", &st), "10");
    assert_eq!(resolve_variable("w", &st), "2");
}

#[test]
fn complex_strings_fill_templates() {
    let st = scope(r#"{"x": 1, "name": "Bo", "flag": true, "f": 2.50, "o": {"k": null}}"#);
    assert_eq!(evaluate_complex_string("`a ${x} b`", &st), "a 1 b");
    assert_eq!(evaluate_complex_string("`${name}-${flag}-${f}`", &st), "Bo-true-2.5");
    assert_eq!(evaluate_complex_string("`${o}|${missing}`", &st), "|");
    assert_eq!(evaluate_complex_string("`a ${x`", &st), "a a ${x");
    assert_eq!(evaluate_complex_string("``", &st), "");
    assert_eq!(evaluate_complex_string("name", &st), "Bo");
    assert_eq!(evaluate_complex_string("missing", &st), "undefined");
    assert_eq!(evaluate_complex_string("o", &st), r#"{"k":null}"#);
    assert_eq!(evaluate_complex_string("f", &st), "2.5");
}

#[test]
fn variables_are_formatted() {
    let st = scope(r#"{"n": -7, "b": false, "s": "txt", "arr": [1, "a"], "user": {"name": "Kim"}}"#);
    assert_eq!(resolve_variable("n", &st), "-7");
    assert_eq!(resolve_variable("b", &st), "false");
    assert_eq!(resolve_variable("s", &st), "txt");
    assert_eq!(resolve_variable("arr", &st), r#"[1,"a"]"#);
    assert_eq!(resolve_variable("user.name", &st), "Kim");
    assert_eq!(resolve_variable("user.age", &st), "undefined");
    assert_eq!(resolve_variable("a.b.c", &st), "undefined");
}

#[test]
fn attributes_are_bound_and_written() {
    let st = scope(r#"{"n": 1, "url": "/home"}"#);
    let t = tag(
        "a",
        vec![
            (":id", Some("`x-${n}`")),
            ("x-if", Some("n")),
            ("x-data", Some("{}")),
            ("title", Some("t")),
            ("hidden", None),
            ("x-bind:href", Some("url")),
            (":gone", None),
        ],
        vec![],
    );
    assert_eq!(evaluate_and_bind_attributes(&t, &st, &["x-if"]), " id='x-1' title='t' hidden href='/home'");
    assert_eq!(evaluate_and_bind_attributes(&t, &st, &[]), " id='x-1' x-if='n' title='t' hidden href='/home'");
}

#[test]
fn processors_decide() {
    let mut st = scope(r#"{"show": true, "hide": 0, "items": [1, 2], "who": "Lee"}"#);
    let t = tag("p", vec![], vec![]);
    assert_eq!(ConditionalProcessor.name(), "x-if");
    assert!(matches!(ConditionalProcessor.process(&t, "show", &mut st), ProcessingResult::Continue));
    assert!(matches!(ConditionalProcessor.process(&t, "hide", &mut st), ProcessingResult::SkipEntireTag));
    assert_eq!(TextProcessor.name(), "x-text");
    assert_eq!(override_text(TextProcessor.process(&t, "who", &mut st)), "Lee");
    assert_eq!(BindProcessor.name(), "x-bind");
    assert!(matches!(BindProcessor.process(&t, "anything", &mut st), ProcessingResult::Continue));
    assert_eq!(ForLoopProcessor.name(), "x-for");
    let li = HtmlNode::Tag(tag("li", vec![("x-text", Some("item"))], vec![]));
    let ul = tag("ul", vec![("x-for", Some("items"))], vec![li, HtmlNode::Text("!".to_string())]);
    assert_eq!(override_text(ForLoopProcessor.process(&ul, " items ", &mut st)), "<li>1</li>!<li>2</li>!");
    assert_eq!(st.len(), 1);
}

#[test]
fn include_compiles_the_partial_or_reports_the_path() {
    let mut st = scope(r#"{"v": "in"}"#);
    assert_eq!(IncludeProcessor.name(), "x-include");
    let ok = IncludeProcessor.include_outcome(Some("<b x-text=\"v\"></b>"), "\"public/p.html\"", &mut st).unwrap();
    assert_eq!(override_text(ok), "<b>in</b>");
    let missing = IncludeProcessor.include_outcome(None, "\"public/p.html\"", &mut st).unwrap();
    assert_eq!(
        override_text(missing),
        "<span style='color:red; font-weight:bold;'>[Include Error: \"public/p.html\" missing]</span>"
    );
    assert_eq!(st.len(), 1);
}

#[test]
fn values_equal_themselves_and_comparison_is_symmetric() {
    let st = scope(r#"{"o": {"a": [1, 2.5, "x"]}, "p": {"a": [1, 2.5, "y"]}, "n": 3}"#);
    assert!(evaluate_expression("o == o", &st));
    assert!(evaluate_expression("o === o", &st));
    assert!(!evaluate_expression("o == p", &st));
    assert_eq!(evaluate_expression("o == p", &st), evaluate_expression("p == o", &st));
    assert_eq!(evaluate_expression("n == 3", &st), evaluate_expression("3 == n", &st));
    assert!(evaluate_expression("o != p", &st));
}

#[test]
fn complex_string_with_item_fields() {
    let mut st = scope(r#"{"theme": "dark"}"#);
    st.push(json_of(r##"{"item": {"hex": "#22c55e"}}"##).unwrap());
    assert_eq!(
        evaluate_complex_string("`color: ${item.hex}; font-size: 14px;`", &st),
        "color: #22c55e; font-size: 14px;"
    );
    assert_eq!(evaluate_complex_string("  `${ theme }`  ", &st), "dark");
}

#[test]
fn comparisons_negate_each_other() {
    let st = scope(r#"{"n": 3, "s": "x"}"#);
    for (a, b) in [("n == 3", "n != 3"), ("n === 4", "n !== 4"), ("n < 3", "n >= 3"), ("n > 2", "n <= 2"), ("s == 'x'", "s != 'x'")] {
        assert_eq!(evaluate_expression(a, &st), !evaluate_expression(b, &st), "{} / {}", a, b);
    }
    assert!(!(evaluate_expression("n < 4", &st) && evaluate_expression("4 < n", &st)));
    assert!(!evaluate_expression("s < 1", &st) && !evaluate_expression("s >= 1", &st));
}

#[test]
fn float_tokens_follow_the_float_grammar() {
    let st = scope(r#"{"e5": "name", "x": true, "infinite": 1}"#);
    assert!(matches!(resolve_value(".5", &st), JsonValue::Number(JsonNumber::Float(_))));
    assert!(matches!(resolve_value("5.", &st), JsonValue::Number(JsonNumber::Float(_))));
    assert!(matches!(resolve_value("1E3", &st), JsonValue::Number(JsonNumber::Float(_))));
    assert!(matches!(resolve_value("nan", &st), JsonValue::Null));
    assert!(matches!(resolve_value("-Infinity", &st), JsonValue::Null));
    assert!(matches!(resolve_value("inf", &st), JsonValue::Null));
    assert!(matches!(resolve_value("e5", &st), JsonValue::String(s) if s == "name"));
    assert!(matches!(resolve_value("x", &st), JsonValue::Bool(true)));
    assert!(matches!(resolve_value("infinite", &st), JsonValue::Number(JsonNumber::PosInt(1))));
}

#[test]
fn integer_comparisons_follow_integer_order() {
    let st = scope(r#"{"big": 9007199254740992, "neg": -9007199254740992}"#);
    assert!(evaluate_expression("3 < 5", &st));
    assert!(evaluate_expression("-5 < -3", &st));
    assert!(evaluate_expression("-1 < 0", &st));
    assert!(evaluate_expression("big > 9007199254740991", &st));
    assert!(evaluate_expression("neg < -9007199254740991", &st));
    assert!(!evaluate_expression("0", &st));
    assert!(evaluate_expression("neg", &st));
}

#[test]
fn unicode_whitespace_is_trimmed() {
    let st = scope(r#"{"v": 7}"#);
    assert!(matches!(resolve_value("\u{3000}v\u{85}\u{2009}", &st), JsonValue::Number(JsonNumber::PosInt(7))));
    assert!(matches!(resolve_value("\u{200b}v", &st), JsonValue::Null));
}

#[test]
fn api_scope_parses_successful_bodies() {
    assert!(matches!(api_scope(200, r#"{"a": 1}"#), Some(JsonValue::Object(es)) if es.len() == 1 && es[0].0 == "a"));
    assert!(matches!(api_scope(299, "[true]"), Some(JsonValue::Array(a)) if a.len() == 1));
    assert!(api_scope(404, r#"{"a": 1}"#).is_none());
    assert!(api_scope(199, "1").is_none());
    assert!(api_scope(300, "1").is_none());
    assert!(api_scope(200, "{ not json").is_none());
}

#[test]
fn rows_become_key_ordered_objects() {
    let columns = vec!["label".to_string(), "id".to_string(), "hex".to_string(), "id".to_string()];
    let rows = vec![
        vec![
            SqlCell::Text(Some("SQLite Alpha Node".to_string())),
            SqlCell::Integer(501),
            SqlCell::Text(None),
            SqlCell::Integer(-7),
        ],
        vec![SqlCell::Null, SqlCell::Real(None), SqlCell::Blob("b".to_string()), SqlCell::Null],
    ];
    match rows_to_json(&columns, &rows) {
        JsonValue::Array(objs) => {
            assert_eq!(objs.len(), 2);
            match &objs[0] {
                JsonValue::Object(es) => {
                    let keys: Vec<&str> = es.iter().map(|(k, _)| k.as_str()).collect();
                    assert_eq!(keys, vec!["hex", "id", "label"]);
                    assert!(matches!(&es[0].1, JsonValue::String(s) if s.is_empty()));
                    assert!(matches!(&es[1].1, JsonValue::Number(JsonNumber::NegInt(-7))));
                    assert!(matches!(&es[2].1, JsonValue::String(s) if s == "SQLite Alpha Node"));
                },
                other => panic!("expected an object, got {:?}", other),
            }
            match &objs[1] {
                JsonValue::Object(es) => {
                    assert!(matches!(&es[0].1, JsonValue::String(s) if s == "b"));
                    assert!(matches!(&es[1].1, JsonValue::Null));
                    assert!(matches!(&es[2].1, JsonValue::Null));
                },
                other => panic!("expected an object, got {:?}", other),
            }
        },
        other => panic!("expected an array, got {:?}", other),
    }
    let real = match json_of("2.5") {
        Some(JsonValue::Number(n)) => n,
        other => panic!("expected a number, got {:?}", other),
    };
    let one = rows_to_json(&vec!["x".to_string()], &vec![vec![SqlCell::Real(Some(real))]]);
    assert!(matches!(one, JsonValue::Array(a) if matches!(&a[0], JsonValue::Object(es) if matches!(&es[0].1, JsonValue::Number(JsonNumber::Float(_))))));
}

#[test]
fn loop_scope_keys_follow_map_order() {
    let st = scope(r#"{"xs": ["a"]}"#);
    let li = HtmlNode::Tag(tag("li", vec![("x-text", Some("z")), (":title", Some("a"))], vec![]));
    let ul = tag("ul", vec![], vec![li]);
    let mut st2 = st;
    assert_eq!(override_text(ForLoopProcessor.process(&ul, "(z, a) in xs", &mut st2)), "<li title='0'>a</li>");
}

#[test]
fn null_is_written_as_json() {
    let st = scope(r#"{"n": null, "t": true}"#);
    assert_eq!(resolve_variable("n", &st), "null");
    assert_eq!(resolve_variable("t", &st), "true");
    assert_eq!(evaluate_complex_string("[n]", &st), "undefined");
}
