use scope_engine::compile::{compile_dom_tree, compile_html, try_compile_dom_tree, try_compile_html, CompileError};
use scope_engine::data::FileProvider;
use scope_engine::json::{JsonNumber, JsonValue};

fn obj(entries: Vec<(&str, JsonValue)>) -> JsonValue {
    JsonValue::Object(entries.into_iter().map(|(k, v)| (k.to_string(), v)).collect())
}

fn s(text: &str) -> JsonValue {
    JsonValue::String(text.to_string())
}

#[test]
fn test_complex_attribute_template_literal_binding() {
    let template = r#"<div x-data="{ 'id': 707, 'color': '#ef4444' }"><button :id="`btn-${id}`" :style="`color: ${color};`"></button></div>"#;
    assert_eq!(compile_html(template).unwrap(), "<div><button id='btn-707' style='color: #ef4444;'></button></div>");
}

#[test]
fn test_loop_iteration_legacy_fallback() {
    let template = r#"<div x-data="{ 'items': [{'name':'A'}, {'name':'B'}] }"><ul x-for="items"><li x-text="item.name">Tmp</li></ul></div>"#;
    assert_eq!(compile_html(template).unwrap(), "<div><ul><li>A</li><li>B</li></ul></div>");
}

#[test]
fn test_loop_iteration_standard_alpine_syntax() {
    let template = r#"<div x-data="{ 'items': [{'name':'X'}, {'name':'Y'}] }"><ul x-for="element in items"><li x-text="element.name"></li></ul></div>"#;
    assert_eq!(compile_html(template).unwrap(), "<div><ul><li>X</li><li>Y</li></ul></div>");
}

#[test]
fn test_loop_iteration_with_index_access() {
    let template = r#"<div x-data="{ 'items': ['Red', 'Blue'] }"><ul x-for="(color, idx) in items"><li :id="`item-${idx}`" x-text="color"></li></ul></div>"#;
    assert_eq!(compile_html(template).unwrap(), "<div><ul><li id='item-0'>Red</li><li id='item-1'>Blue</li></ul></div>");
}

#[test]
fn test_loop_iteration_over_numeric_range() {
    let template = r#"<div x-data="{}"><ul><template x-for="num in 3"><li x-text="num"></li></template></ul></div>"#;
    assert_eq!(compile_html(template).unwrap(), "<div><ul><template><li>1</li><li>2</li><li>3</li></template></ul></div>");
}

#[test]
fn test_variable_interpolation_and_scoping() {
    let template = r#"<div x-data="{ 'user': 'Alex' }"><span x-text="user">Loading</span></div>"#;
    assert_eq!(compile_html(template).unwrap(), "<div><span>Alex</span></div>");
}

#[test]
fn false_condition_drops_the_whole_tag() {
    let template = r#"<div x-data="{ 'on': false }"><p x-if="on" x-for="n in 2">gone</p><b>kept</b></div>"#;
    assert_eq!(compile_html(template).unwrap(), "<div><b>kept</b></div>");
}

#[test]
fn true_condition_keeps_the_tag() {
    let template = r#"<div x-data="{ 'count': 5 }"><p x-if="count > 3">many</p></div>"#;
    assert_eq!(compile_html(template).unwrap(), "<div><p>many</p></div>");
}

#[test]
fn negated_condition() {
    let template = r#"<div x-data="{ 'list': [] }"><p x-if="!list">empty</p></div>"#;
    assert_eq!(compile_html(template).unwrap(), "<div><p>empty</p></div>");
}

#[test]
fn siblings_do_not_see_each_others_scope() {
    let template = r#"<i x-data="{ 'a': 'one' }"><b x-text="a"></b></i><u><b x-text="a"></b></u>"#;
    assert_eq!(compile_html(template).unwrap(), "<i><b>one</b></i><u><b>undefined</b></u>");
}

#[test]
fn inner_scope_shadows_outer_scope() {
    let template = r#"<div x-data="{ 'v': 'outer' }"><p x-data="{ 'v': 'inner' }"><b x-text="v"></b></p><b x-text="v"></b></div>"#;
    assert_eq!(compile_html(template).unwrap(), "<div><p><b>inner</b></p><b>outer</b></div>");
}

#[test]
fn plain_attributes_are_written_back_and_void_tags_close() {
    let template = r#"<p class="c" title="t"><br>x</p>"#;
    assert_eq!(compile_html(template).unwrap(), "<p title='t' class='c'><br></br>x</p>");
}

#[test]
fn valueless_attribute_is_written_bare() {
    assert_eq!(compile_html("<input disabled>").unwrap(), "<input disabled></input>");
}

#[test]
fn comments_are_dropped_and_text_kept() {
    assert_eq!(compile_html("a<!-- note -->b").unwrap(), "ab");
}

#[test]
fn malformed_x_data_pushes_no_scope() {
    let template = r#"<div x-data="{ broken"><b x-text="x"></b></div>"#;
    assert_eq!(compile_html(template).unwrap(), "<div><b>undefined</b></div>");
}

#[test]
fn x_text_of_an_object_is_json() {
    let template = r#"<div x-data="{ 'o': {'k': [1, true]} }"><b x-text="o"></b></div>"#;
    assert_eq!(compile_html(template).unwrap(), r#"<div><b>{"k":[1,true]}</b></div>"#);
}

#[test]
fn loop_over_non_array_renders_nothing() {
    let template = r#"<div x-data="{ 'n': 'text' }"><ul x-for="x in n"><li>i</li></ul></div>"#;
    assert_eq!(compile_html(template).unwrap(), "<div><ul></ul></div>");
}

#[test]
fn loop_over_zero_or_negative_range_renders_nothing() {
    assert_eq!(compile_html(r#"<ul x-for="i in 0"><li>i</li></ul>"#).unwrap(), "<ul></ul>");
    assert_eq!(compile_html(r#"<ul x-for="i in -2"><li>i</li></ul>"#).unwrap(), "<ul></ul>");
}

#[test]
fn index_variable_with_the_item_name_wins() {
    let template = r#"<div x-data="{ 'xs': ['a', 'b'] }"><ul x-for="(v, v) in xs"><li x-text="v"></li></ul></div>"#;
    assert_eq!(compile_html(template).unwrap(), "<div><ul><li>0</li><li>1</li></ul></div>");
}

#[test]
fn compile_dom_tree_restores_the_scope_stack() {
    let mut stack = vec![obj(vec![("name", s("Zed"))])];
    let out = compile_dom_tree(r#"<p x-data="{ 'q': 1 }"><b x-text="name"></b></p>"#, &mut stack).unwrap();
    assert_eq!(out, "<p><b>Zed</b></p>");
    assert_eq!(stack.len(), 1);
    assert!(matches!(&stack[0], JsonValue::Object(es) if es.len() == 1 && es[0].0 == "name"));
}

#[test]
fn compile_dom_tree_reads_outer_scopes() {
    let xs = JsonValue::Array(vec![JsonValue::Number(JsonNumber::PosInt(4)), JsonValue::Number(JsonNumber::NegInt(-5))]);
    let mut stack = vec![obj(vec![("xs", xs)])];
    let out = compile_dom_tree(r#"<ol x-for="k in xs"><li x-text="k"></li></ol>"#, &mut stack).unwrap();
    assert_eq!(out, "<ol><li>4</li><li>-5</li></ol>");
    let out = compile_dom_tree(r#"<ol x-for="k in n"><li x-text="k"></li></ol>"#, &mut stack).unwrap();
    assert_eq!(out, "<ol></ol>");
}

#[test]
fn try_compile_compiles_quote_free_templates() {
    assert_eq!(try_compile_html(r#"<p x-if="1 == 1">yes</p>"#), Ok("<p>yes</p>".to_string()));
}

#[test]
fn try_compile_reports_a_lone_quote() {
    assert_eq!(try_compile_html(r#"<p x-if="'">x</p>"#), Err(CompileError::Panics));
    assert_eq!(try_compile_html("<p :a=\"`\">x</p>"), Err(CompileError::Panics));
}

#[test]
fn try_compile_agrees_with_compile_html_on_quoted_templates() {
    let template = r#"<div x-data="{ 'user': 'Alex' }"><span x-text="user">Loading</span></div>"#;
    assert_eq!(try_compile_html(template), Ok(compile_html(template).unwrap()));
}

#[test]
fn parsed_scope_can_be_used_as_stack() {
    let scope = FileProvider.parse_content(r#"{"items": [1, 2]}"#).unwrap();
    let mut stack = vec![scope];
    let out = compile_dom_tree(r#"<i x-for="items"><b x-text="item"></b></i>"#, &mut stack).unwrap();
    assert_eq!(out, "<i><b>1</b><b>2</b></i>");
}

#[test]
fn true_condition_compiles_as_if_absent() {
    let with = r#"<div x-data="{ 'k': 2 }"><p x-if="k" class="c" :title="k">a</p></div>"#;
    let without = r#"<div x-data="{ 'k': 2 }"><p class="c" :title="k">a</p></div>"#;
    assert_eq!(compile_html(with).unwrap(), compile_html(without).unwrap());
    assert_eq!(compile_html(without).unwrap(), "<div><p title='2' class='c'>a</p></div>");
}

#[test]
fn siblings_compile_apart() {
    let a = r#"<i x-data="{ 'v': 1 }"><b x-text="v"></b></i>"#;
    let b = r#"<u><b x-text="v"></b></u>"#;
    assert_eq!(compile_html(&format!("{}{}", a, b)).unwrap(), format!("{}{}", compile_html(a).unwrap(), compile_html(b).unwrap()));
}

#[test]
fn try_compile_dom_tree_keeps_the_stack() {
    let mut stack = vec![obj(vec![("w", s("hey"))])];
    assert_eq!(try_compile_dom_tree("<b x-text=\"w\"></b>", &mut stack), Ok("<b>hey</b>".to_string()));
    assert_eq!(try_compile_dom_tree("<b x-if=\"'\"></b>", &mut stack), Err(CompileError::Panics));
    assert_eq!(stack.len(), 1);
}

#[test]
fn a_cut_character_in_a_doctype_compiles() {
    assert_eq!(try_compile_html("<!DOCTYPE é><p>x</p>"), Ok("\u{FFFD}><p>x</p>".to_string()));
}

#[test]
fn two_attributes_keep_their_order() {
    assert_eq!(compile_html(r#"<a href="h" title="t" class="c" id="i">x</a>"#).unwrap(), "<a href='h' title='t' id='i' class='c'>x</a>");
}
