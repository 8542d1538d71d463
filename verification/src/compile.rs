//! Compiling a template: each tag's `x-data` scope, its processors
//! (`x-if`, `x-for`, `x-text`), its attributes and its content, rendered
//! against the scope stack.
use vstd::prelude::*;
use vstd::string::StringSliceAdditionalSpecFns;
use crate::attributes::{
    variable_lookup, bind_prefix, AttributeProcessor, Outcome, ProcessingResult, x_include_text, attr_piece, attr_get, attr_get_exec, bind_attributes, bind_attributes_exec, opt_prepend, opt_text,
    processor_names, resolve_variable_chars, resolve_variable_spec, x_data_text, x_for_text,
    x_if_text, x_text_text,
};
use crate::expressions::{
    lookup,    eval_expr, evaluate_chars, expr_faults, expr_faults_exec, item_text, resolve_chars,
    resolve_value_spec, token_faults, token_faults_exec,
    lemma_complex_string_faults_quote, lemma_expr_faults_quote, lemma_token_faults_quote,
};
use crate::html::{
    attrs_model, is_markup_char, lemma_outcome_free, node_values_free_of,
    parse_html, parse_outcome, tl_refuses, values_free_of, AttrModel, HtmlNode, HtmlTag,
};
use crate::json::{json_get, entries_get, key_lt, key_lt_exec, keys_sorted, lemma_key_lt_total, int_num, json_parse, models, parse_json, Json, JsonNumber, JsonValue, NumModel};
use crate::text::{
    chars_eq, chars_of, copy_range, find, find_chars, first_is, last_is, lemma_find_bounds, starts_with,
    lemma_split_nonempty, parse_i64, parse_i64_chars, push_all, replace_char, replace_char_exec,
    split, split_chars, string_of, trim, trim_chars, lemma_subrange_within, lemma_trim_within, lemma_split_once,
};

verus! {

/// The text `" in "`.
pub open spec fn in_text() -> Seq<char> {
    seq![' ', 'i', 'n', ' ']
}

/// The iterator part and the source part of an `x-for` value: around the
/// first ` in `, trimmed; without one, the iterator is `item`.
pub open spec fn loop_header(a: Seq<char>) -> (Seq<char>, Seq<char>) {
    match find(a, in_text()) {
        Some(i) => (trim(a.take(i)), trim(a.skip(i + 4))),
        None => (item_text(), a),
    }
}

/// The item variable and the optional index variable of an iterator part:
/// `(item, index)` names both, anything else names the item alone.
pub open spec fn loop_vars(iter: Seq<char>) -> (Seq<char>, Option<Seq<char>>) {
    if first_is(iter, '(') && last_is(iter, ')') {
        let parts = split(iter.subrange(1, iter.len() - 1), ',');
        if parts.len() >= 2 {
            (trim(parts[0]), Some(trim(parts[1])))
        } else {
            (trim(parts[0]), None)
        }
    } else {
        (iter, None)
    }
}

/// The numbers `1..=max`.
pub open spec fn range_items(max: i64) -> Seq<Json> {
    Seq::new(
        if max >= 1 { max as nat } else { 0 },
        |k: int| Json::Number(int_num((k + 1) as i64)),
    )
}

/// What an `x-for` iterates over: `1..=n` for an integer source, the
/// elements of an array value, nothing for any other value; `None` when
/// resolving the source panics.
pub open spec fn loop_items(source: Seq<char>, scopes: Seq<Json>) -> Option<Seq<Json>> {
    match parse_i64(source) {
        Some(max) => Some(range_items(max)),
        None => if token_faults(source) {
            None
        } else {
            match resolve_value_spec(source, scopes) {
                Json::Array(a) => Some(a),
                _ => Some(Seq::empty()),
            }
        },
    }
}

/// The scope of the `k`-th iteration: the item under its variable and, when
/// asked for, the position under the index variable (which wins when both
/// names are the same), keys in order.
pub open spec fn loop_scope(item_var: Seq<char>, item: Json, index_var: Option<Seq<char>>, k: int) -> Json {
    match index_var {
        Some(n) => if n == item_var {
            Json::Object(seq![(n, Json::Number(NumModel::PosInt(k as u64)))])
        } else if key_lt(item_var, n) {
            Json::Object(seq![(item_var, item), (n, Json::Number(NumModel::PosInt(k as u64)))])
        } else {
            Json::Object(seq![(n, Json::Number(NumModel::PosInt(k as u64))), (item_var, item)])
        },
        None => Json::Object(seq![(item_var, item)]),
    }
}

/// The scopes once `x-data` is applied: its value, quotes `'` made `"`, is
/// parsed as JSON and pushed when it parses.
pub open spec fn with_x_data(attrs: Seq<(Seq<char>, Option<Seq<char>>)>, scopes: Seq<Json>) -> Seq<Json> {
    match attr_get(attrs, x_data_text()) {
        Some(Some(v)) => match json_parse(replace_char(v, '\'', '"')) {
            Some(j) => scopes.push(j),
            None => scopes,
        },
        _ => scopes,
    }
}

/// `<name attrs>inner</name>`.
pub open spec fn element_text(name: Seq<char>, attrs: Seq<char>, inner: Seq<char>) -> Seq<char> {
    seq!['<'] + name + attrs + seq!['>'] + inner + seq!['<', '/'] + name + seq!['>']
}

/// The output of a sequence of nodes; `None` when compiling them panics.
pub open spec fn render_nodes(ns: Seq<HtmlNode>, scopes: Seq<Json>) -> Option<Seq<char>>
    decreases ns, 0nat, 0nat,
{
    if ns.len() == 0 {
        Some(Seq::empty())
    } else {
        match render_node(ns[0], scopes) {
            Some(a) => opt_prepend(a, render_nodes(ns.drop_first(), scopes)),
            None => None,
        }
    }
}

/// The output of one node: text as it is, comments dropped, and a tag
/// compiled: `x-data` pushes its scope; a false `x-if` drops the tag; `x-for`
/// or else `x-text` gives the content, else the children are compiled; the
/// attributes are written with their bindings.
pub open spec fn render_node(n: HtmlNode, scopes: Seq<Json>) -> Option<Seq<char>>
    decreases n, 0nat, 0nat,
{
    match n {
        HtmlNode::Text(s) => Some(s@),
        HtmlNode::Comment(_) => Some(Seq::empty()),
        HtmlNode::Tag(t) => {
            let attrs = attrs_model(t.attributes@);
            let s2 = with_x_data(attrs, scopes);
            let cond = attr_get(attrs, x_if_text());
            if cond matches Some(Some(c)) && expr_faults(c) {
                None
            } else if cond matches Some(Some(c)) && !eval_expr(c, s2) {
                Some(Seq::empty())
            } else {
                let inner = match attr_get(attrs, x_for_text()) {
                    Some(Some(f)) => {
                        let (iter, source) = loop_header(trim(f));
                        let (iv, xv) = loop_vars(iter);
                        match loop_items(source, s2) {
                            Some(items) => render_loop(t.children@, iv, xv, items, 0, s2),
                            None => None,
                        }
                    },
                    _ => match attr_get(attrs, x_text_text()) {
                        Some(Some(x)) => Some(resolve_variable_spec(x, s2)),
                        _ => render_nodes(t.children@, s2),
                    },
                };
                match (bind_attributes(attrs, s2, processor_names()), inner) {
                    (Some(a), Some(i)) => Some(element_text(t.name@, a, i)),
                    _ => None,
                }
            }
        },
    }
}

/// The output of the iterations from the `k`-th on: the children compiled
/// with each iteration's scope pushed.
pub open spec fn render_loop(
    children: Seq<HtmlNode>,
    item_var: Seq<char>,
    index_var: Option<Seq<char>>,
    items: Seq<Json>,
    k: int,
    scopes: Seq<Json>,
) -> Option<Seq<char>>
    decreases children, 1nat, items.len() - k,
{
    if k < 0 || k >= items.len() {
        Some(Seq::empty())
    } else {
        match render_nodes(children, scopes.push(loop_scope(item_var, items[k], index_var, k))) {
            Some(a) => opt_prepend(a, render_loop(children, item_var, index_var, items, k + 1, scopes)),
            None => None,
        }
    }
}


/// The output of an `x-for` with value `f`; `None` when it panics.
pub open spec fn for_output(children: Seq<HtmlNode>, f: Seq<char>, scopes: Seq<Json>) -> Option<Seq<char>> {
    let (iter, source) = loop_header(trim(f));
    let (iv, xv) = loop_vars(iter);
    match loop_items(source, scopes) {
        Some(items) => render_loop(children, iv, xv, items, 0, scopes),
        None => None,
    }
}

// ---------------------------------------------------------------------------
// When compiling cannot panic

/// Whether no attribute value holds `c`.
pub open spec fn attrs_values_free(attrs: Seq<AttrModel>, c: char) -> bool {
    forall|j: int| 0 <= j < attrs.len() ==> match #[trigger] attrs[j].1 {
        Some(v) => !v.contains(c),
        None => true,
    }
}

proof fn lemma_attr_get_free(attrs: Seq<AttrModel>, key: Seq<char>, c: char)
    requires
        attrs_values_free(attrs, c),
    ensures
        attr_get(attrs, key) matches Some(Some(v)) ==> !v.contains(c),
    decreases attrs.len(),
{
    if attrs.len() > 0 && attrs[0].0 != key {
        assert(attrs_values_free(attrs.drop_first(), c)) by {
            assert forall|j: int| 0 <= j < attrs.drop_first().len() implies match #[trigger] attrs.drop_first()[j].1 {
                Some(v) => !v.contains(c),
                None => true,
            } by {
                assert(attrs.drop_first()[j] == attrs[j + 1]);
            }
        }
        lemma_attr_get_free(attrs.drop_first(), key, c);
    }
}

proof fn lemma_tag_attrs_free(t: HtmlTag, c: char)
    requires
        node_values_free_of(HtmlNode::Tag(t), c),
    ensures
        attrs_values_free(attrs_model(t.attributes@), c),
{
    let am = attrs_model(t.attributes@);
    assert forall|j: int| 0 <= j < am.len() implies match #[trigger] am[j].1 {
        Some(v) => !v.contains(c),
        None => true,
    } by {
        assert(match t.attributes@[j].1 {
            Some(v) => !v@.contains(c),
            None => true,
        });
    }
}

proof fn lemma_bind_safe(attrs: Seq<AttrModel>, scopes: Seq<Json>, names: Seq<Seq<char>>)
    requires
        attrs_values_free(attrs, '\''),
        attrs_values_free(attrs, '`'),
    ensures
        bind_attributes(attrs, scopes, names) is Some,
    decreases attrs.len(),
{
    if attrs.len() > 0 {
        if let Some(v) = attrs[0].1 {
            lemma_complex_string_faults_quote(v);
        }
        assert(attr_piece(attrs[0], scopes, names) is Some);
        let rest = attrs.drop_first();
        assert forall|j: int| 0 <= j < rest.len() implies rest[j] == attrs[j + 1] by {}
        assert(attrs_values_free(rest, '\'')) by {
            assert forall|j: int| 0 <= j < rest.len() implies match #[trigger] rest[j].1 {
                Some(v) => !v.contains('\''),
                None => true,
            } by {
                assert(rest[j] == attrs[j + 1]);
            }
        }
        assert(attrs_values_free(rest, '`')) by {
            assert forall|j: int| 0 <= j < rest.len() implies match #[trigger] rest[j].1 {
                Some(v) => !v.contains('`'),
                None => true,
            } by {
                assert(rest[j] == attrs[j + 1]);
            }
        }
        lemma_bind_safe(rest, scopes, names);
    }
}

proof fn lemma_loop_source_free(f: Seq<char>, scopes: Seq<Json>)
    requires
        !f.contains('\''),
    ensures
        loop_items(loop_header(trim(f)).1, scopes) is Some,
{
    let a = trim(f);
    lemma_trim_within(f, '\'');
    let source = loop_header(a).1;
    lemma_find_bounds(a, in_text());
    if let Some(i) = find(a, in_text()) {
        let tail = a.skip(i + 4);
        lemma_trim_within(tail, '\'');
        assert(tail =~= a.subrange(i + 4, a.len() as int));
        if tail.contains('\'') {
            lemma_subrange_within(a, i + 4, a.len() as int, '\'');
        }
    }
    lemma_token_faults_quote(source);
}

proof fn lemma_nodes_safe(ns: Seq<HtmlNode>, scopes: Seq<Json>)
    requires
        values_free_of(ns, '\''),
        values_free_of(ns, '`'),
    ensures
        render_nodes(ns, scopes) is Some,
    decreases ns, 0nat, 0nat,
{
    if ns.len() > 0 {
        assert(node_values_free_of(ns[0], '\''));
        assert(node_values_free_of(ns[0], '`'));
        lemma_node_safe(ns[0], scopes);
        let rest = ns.drop_first();
        assert forall|i: int| 0 <= i < rest.len() implies node_values_free_of(#[trigger] rest[i], '\'')
            && node_values_free_of(rest[i], '`') by {
            assert(rest[i] == ns[i + 1]);
            assert(node_values_free_of(ns[i + 1], '\''));
            assert(node_values_free_of(ns[i + 1], '`'));
        }
        lemma_nodes_safe(rest, scopes);
    }
}

proof fn lemma_node_safe(n: HtmlNode, scopes: Seq<Json>)
    requires
        node_values_free_of(n, '\''),
        node_values_free_of(n, '`'),
    ensures
        render_node(n, scopes) is Some,
    decreases n, 0nat, 0nat,
{
    if let HtmlNode::Tag(t) = n {
        let attrs = attrs_model(t.attributes@);
        lemma_tag_attrs_free(t, '\'');
        lemma_tag_attrs_free(t, '`');
        let s2 = with_x_data(attrs, scopes);
        lemma_attr_get_free(attrs, x_if_text(), '\'');
        if let Some(Some(c)) = attr_get(attrs, x_if_text()) {
            lemma_expr_faults_quote(c);
        }
        assert(decreases_to!(n => t));
        assert(decreases_to!(t => t.children));
        assert(decreases_to!(t.children => t.children@));
        lemma_attr_get_free(attrs, x_for_text(), '\'');
        match attr_get(attrs, x_for_text()) {
            Some(Some(f)) => {
                lemma_loop_source_free(f, s2);
                let (iter, source) = loop_header(trim(f));
                let (iv, xv) = loop_vars(iter);
                let items = loop_items(source, s2)->0;
                lemma_loop_safe(t.children@, iv, xv, items, 0, s2);
            },
            _ => {
                lemma_nodes_safe(t.children@, s2);
            },
        }
        lemma_bind_safe(attrs, s2, processor_names());
    }
}

proof fn lemma_loop_safe(
    children: Seq<HtmlNode>,
    item_var: Seq<char>,
    index_var: Option<Seq<char>>,
    items: Seq<Json>,
    k: int,
    scopes: Seq<Json>,
)
    requires
        values_free_of(children, '\''),
        values_free_of(children, '`'),
    ensures
        render_loop(children, item_var, index_var, items, k, scopes) is Some,
    decreases children, 1nat, items.len() - k,
{
    if 0 <= k < items.len() {
        lemma_nodes_safe(children, scopes.push(loop_scope(item_var, items[k], index_var, k)));
        lemma_loop_safe(children, item_var, index_var, items, k + 1, scopes);
    }
}

/// A template whose text holds neither `'` nor a backtick compiles without
/// panicking, whatever the scopes and whichever outcome the parse gives.
pub proof fn lemma_compile_safe(html: Seq<char>, r: Seq<HtmlNode>, scopes: Seq<Json>)
    requires
        parse_outcome(html, r),
        !html.contains('\''),
        !html.contains('`'),
    ensures
        render_nodes(r, scopes) is Some,
{
    assert(!is_markup_char('\''));
    assert(!is_markup_char('`'));
    lemma_outcome_free(html, r, '\'');
    lemma_outcome_free(html, r, '`');
    lemma_nodes_safe(r, scopes);
}

proof fn lemma_models_push(s: Seq<JsonValue>, v: JsonValue)
    ensures
        models(s.push(v)) == models(s).push(v@),
{
    assert(models(s.push(v)) =~= models(s).push(v@));
}

fn in_chars() -> (r: Vec<char>)
    ensures
        r@ == in_text(),
{
    let r = vec![' ', 'i', 'n', ' '];
    assert(r@ =~= in_text());
    r
}

fn loop_header_exec(a: &[char]) -> (r: (Vec<char>, Vec<char>))
    ensures
        r.0@ == loop_header(a@).0,
        r.1@ == loop_header(a@).1,
{
    let pat = in_chars();
    match find_chars(a, pat.as_slice()) {
        Some(i) => {
            proof {
                lemma_find_bounds(a@, pat@);
            }
            let left = copy_range(a, 0, i);
            assert(i + 4 <= a.len());
            let right = copy_range(a, i + 4, a.len());
            assert(left@ =~= a@.take(i as int));
            assert(right@ =~= a@.skip(i + 4));
            (trim_chars(left.as_slice()), trim_chars(right.as_slice()))
        },
        None => {
            let item = vec!['i', 't', 'e', 'm'];
            assert(item@ =~= item_text());
            (item, copy_range(a, 0, a.len()))
        },
    }
}

fn loop_vars_exec(iter: &[char]) -> (r: (Vec<char>, Option<Vec<char>>))
    ensures
        r.0@ == loop_vars(iter@).0,
        opt_text(r.1) == loop_vars(iter@).1,
{
    let n = iter.len();
    if n > 0 && iter[0] == '(' && iter[n - 1] == ')' {
        if n == 1 {
            assert(false);
        }
        let inner = copy_range(iter, 1, n - 1);
        let parts = split_chars(inner.as_slice(), ',');
        proof {
            lemma_split_nonempty(inner@, ',');
        }
        let first = trim_chars(parts[0].as_slice());
        if parts.len() >= 2 {
            (first, Some(trim_chars(parts[1].as_slice())))
        } else {
            (first, None)
        }
    } else {
        (copy_range(iter, 0, n), None)
    }
}

fn loop_scope_exec(item_var: &[char], item: JsonValue, index_var: &Option<Vec<char>>, k: u64) -> (r: JsonValue)
    ensures
        r@ == loop_scope(item_var@, item@, opt_text(*index_var), k as int),
        keys_sorted(r@->Object_0),
{
    let ghost item_model = item@;
    let mut entries: Vec<(String, JsonValue)> = Vec::new();
    match index_var {
        Some(n) => {
            let index_entry = (string_of(n.as_slice()), JsonValue::Number(JsonNumber::PosInt(k)));
            if chars_eq(n.as_slice(), item_var) {
                entries.push(index_entry);
            } else if key_lt_exec(item_var, n.as_slice()) {
                entries.push((string_of(item_var), item));
                entries.push(index_entry);
            } else {
                entries.push(index_entry);
                entries.push((string_of(item_var), item));
            }
        },
        None => {
            entries.push((string_of(item_var), item));
        },
    }
    let r = JsonValue::Object(entries);
    assert(r@->Object_0.len() == entries@.len());
    assert(forall|i: int| 0 <= i < entries@.len() ==> #[trigger] r@->Object_0[i] == (entries@[i].0@, entries@[i].1@));
    assert(r@->Object_0 =~= loop_scope(item_var@, item_model, opt_text(*index_var), k as int)->Object_0);
    proof {
        if let Some(n) = opt_text(*index_var) {
            if n != item_var@ {
                lemma_key_lt_total(n, item_var@);
            }
        }
    }
    r
}

/// The items of an `x-for` source; `None` when resolving it panics.
fn loop_items_exec(source: &[char], scopes: &[JsonValue]) -> (r: Option<Vec<JsonValue>>)
    ensures
        match r {
            Some(items) => loop_items(source@, models(scopes@)) == Some(models(items@)),
            None => loop_items(source@, models(scopes@)) is None,
        },
{
    match parse_i64_chars(source) {
        Some(max) => {
            let mut items: Vec<JsonValue> = Vec::new();
            if max >= 1 {
                let mut k: i64 = 1;
                loop
                    invariant_except_break
                        1 <= k <= max,
                        items@.len() == k - 1,
                        forall|j: int| 0 <= j < items@.len() ==> (#[trigger] items@[j])@ == Json::Number(int_num((j + 1) as i64)),
                    ensures
                        items@.len() == max,
                        forall|j: int| 0 <= j < items@.len() ==> (#[trigger] items@[j])@ == Json::Number(int_num((j + 1) as i64)),
                    decreases max - k,
                {
                    items.push(JsonValue::Number(JsonNumber::from_i64(k)));
                    if k == max {
                        break;
                    }
                    k = k + 1;
                }
            }
            assert(models(items@) =~= range_items(max));
            Some(items)
        },
        None => {
            if token_faults_exec(source) {
                return None;
            }
            match resolve_chars(source, scopes) {
                JsonValue::Array(a) => {
                    assert(models(a@) =~= JsonValue::Array(a)@->Array_0);
                    Some(a)
                },
                other => {
                    assert(!(other@ is Array));
                    assert(models(Seq::<JsonValue>::empty()) =~= Seq::<Json>::empty());
                    Some(Vec::new())
                },
            }
        },
    }
}

/// Compiles the children once per item of an `x-for`.
fn render_for(children: &Vec<HtmlNode>, f: &[char], scopes: &mut Vec<JsonValue>) -> (r: Option<Vec<char>>)
    ensures
        final(scopes)@ == old(scopes)@,
        opt_text(r) == for_output(children@, f@, models(old(scopes)@)),
    decreases children@, 1nat, 0nat,
{
    let ft = trim_chars(f);
    let (iter, source) = loop_header_exec(ft.as_slice());
    let (iv, xv) = loop_vars_exec(iter.as_slice());
    let ghost ms = models(scopes@);
    let items = match loop_items_exec(source.as_slice(), scopes.as_slice()) {
        Some(items) => items,
        None => {
            return None;
        },
    };
    let ghost its = models(items@);
    let ghost orig = scopes@;
    let mut out: Vec<char> = Vec::new();
    let mut k: usize = 0;
    assert(out@ + Seq::<char>::empty() =~= out@);
    while k < items.len()
        invariant
            k <= items@.len(),
            scopes@ == orig,
            orig == old(scopes)@,
            for_output(children@, f@, ms) == render_loop(children@, iv@, opt_text(xv), its, 0, ms),
            its == models(items@),
            ms == models(scopes@),
            render_loop(children@, iv@, opt_text(xv), its, 0, ms) == opt_prepend(
                out@,
                render_loop(children@, iv@, opt_text(xv), its, k as int, ms),
            ),
        decreases items@.len() - k,
    {
        let item = items[k].copy();
        let scope = loop_scope_exec(iv.as_slice(), item, &xv, k as u64);
        let ghost before = scopes@;
        let ghost scope_model = scope@;
        scopes.push(scope);
        proof {
            lemma_models_push(before, scope);
        }
        let part = render_nodes_exec(children, scopes);
        let _ = scopes.pop();
        assert(scopes@ =~= before);
        match part {
            Some(p) => {
                let ghost prev = out@;
                push_all(&mut out, p.as_slice());
                proof {
                    let rest = render_loop(children@, iv@, opt_text(xv), its, k + 1, ms);
                    if rest is Some {
                        assert(prev + (p@ + rest->0) =~= out@ + rest->0);
                    }
                }
            },
            None => {
                return None;
            },
        }
        k = k + 1;
    }
    assert(out@ + Seq::<char>::empty() =~= out@);
    Some(out)
}

/// The names of the processors the compiler runs.
fn processor_name_chars() -> (r: Vec<Vec<char>>)
    ensures
        Seq::new(r@.len(), |i: int| r@[i]@) == processor_names(),
{
    let a = vec!['x', '-', 'i', 'f'];
    let b = vec!['x', '-', 'f', 'o', 'r'];
    let c = vec!['x', '-', 't', 'e', 'x', 't'];
    let r = vec![a, b, c];
    assert(Seq::new(r@.len(), |i: int| r@[i]@) =~= processor_names());
    r
}

fn name_chars(which: u8) -> (r: Vec<char>)
    requires
        which < 4,
    ensures
        which == 0 ==> r@ == x_data_text(),
        which == 1 ==> r@ == x_if_text(),
        which == 2 ==> r@ == x_for_text(),
        which == 3 ==> r@ == x_text_text(),
{
    let r = if which == 0 {
        vec!['x', '-', 'd', 'a', 't', 'a']
    } else if which == 1 {
        vec!['x', '-', 'i', 'f']
    } else if which == 2 {
        vec!['x', '-', 'f', 'o', 'r']
    } else {
        vec!['x', '-', 't', 'e', 'x', 't']
    };
    proof {
        if which == 0 {
            assert(r@ =~= x_data_text());
        } else if which == 1 {
            assert(r@ =~= x_if_text());
        } else if which == 2 {
            assert(r@ =~= x_for_text());
        } else {
            assert(r@ =~= x_text_text());
        }
    }
    r
}

proof fn lemma_children_smaller(n: HtmlNode)
    requires
        n is Tag,
    ensures
        decreases_to!(n => n->Tag_0.children@),
{
    assert(decreases_to!(n => n->Tag_0));
    assert(decreases_to!(n->Tag_0 => n->Tag_0.children));
    assert(decreases_to!(n->Tag_0.children => n->Tag_0.children@));
}

/// Compiles a sequence of nodes; `None` where compiling them panics.
fn render_nodes_exec(nodes: &Vec<HtmlNode>, scopes: &mut Vec<JsonValue>) -> (r: Option<Vec<char>>)
    ensures
        final(scopes)@ == old(scopes)@,
        opt_text(r) == render_nodes(nodes@, models(old(scopes)@)),
    decreases nodes@, 0nat, 0nat,
{
    let ghost ms = models(scopes@);
    let ghost orig = scopes@;
    let mut out: Vec<char> = Vec::new();
    let mut i: usize = 0;
    assert(nodes@.skip(0) =~= nodes@);
    assert(out@ + Seq::<char>::empty() =~= out@);
    while i < nodes.len()
        invariant
            i <= nodes@.len(),
            scopes@ == orig,
            orig == old(scopes)@,
            ms == models(orig),
            render_nodes(nodes@, ms) == opt_prepend(out@, render_nodes(nodes@.skip(i as int), ms)),
        decreases nodes@.len() - i,
    {
        assert(nodes@.skip(i as int).drop_first() =~= nodes@.skip(i + 1));
        assert(nodes@.skip(i as int)[0] == nodes@[i as int]);
        proof {
            assert(decreases_to!(nodes@ => nodes@[i as int]));
        }
        let part = render_node_exec(&nodes[i], scopes);
        match part {
            Some(p) => {
                let ghost prev = out@;
                push_all(&mut out, p.as_slice());
                proof {
                    let rest = render_nodes(nodes@.skip(i + 1), ms);
                    if rest is Some {
                        assert(prev + (p@ + rest->0) =~= out@ + rest->0);
                    }
                }
            },
            None => {
                return None;
            },
        }
        i = i + 1;
    }
    assert(nodes@.skip(i as int) =~= Seq::<HtmlNode>::empty());
    assert(out@ + Seq::<char>::empty() =~= out@);
    Some(out)
}

/// Compiles one node; `None` where compiling it panics.
fn render_node_exec(n: &HtmlNode, scopes: &mut Vec<JsonValue>) -> (r: Option<Vec<char>>)
    ensures
        final(scopes)@ == old(scopes)@,
        opt_text(r) == render_node(*n, models(old(scopes)@)),
    decreases *n, 0nat, 2nat,
{
    match n {
        HtmlNode::Text(s) => Some(chars_of(s.as_str())),
        HtmlNode::Comment(_) => Some(Vec::new()),
        HtmlNode::Tag(t) => render_tag_exec(n, t, scopes),
    }
}

fn render_tag_exec(n: &HtmlNode, t: &HtmlTag, scopes: &mut Vec<JsonValue>) -> (r: Option<Vec<char>>)
    requires
        *n == HtmlNode::Tag(*t),
    ensures
        final(scopes)@ == old(scopes)@,
        opt_text(r) == render_node(*n, models(old(scopes)@)),
    decreases *n, 0nat, 1nat,
{
    let ghost orig = scopes@;
    let ghost attrs = attrs_model(t.attributes@);
    // x-data
    let xd = name_chars(0);
    let mut pushed = false;
    match attr_get_exec(&t.attributes, xd.as_slice()) {
        Some(Some(v)) => {
            let normalized = replace_char_exec(v.as_slice(), '\'', '"');
            let text = string_of(normalized.as_slice());
            match parse_json(text.as_str()) {
                Some(j) => {
                    proof {
                        lemma_models_push(orig, j);
                    }
                    scopes.push(j);
                    pushed = true;
                },
                None => {},
            }
        },
        _ => {},
    }
    assert(models(scopes@) == with_x_data(attrs, models(orig)));
    assert(pushed ==> scopes@.drop_last() == orig);
    assert(!pushed ==> scopes@ == orig);
    let ghost s2 = scopes@;
    let r = render_tag_body(n, t, scopes);
    if pushed {
        let _ = scopes.pop();
    }
    r
}

fn render_tag_body(n: &HtmlNode, t: &HtmlTag, scopes: &mut Vec<JsonValue>) -> (r: Option<Vec<char>>)
    requires
        *n == HtmlNode::Tag(*t),
    ensures
        final(scopes)@ == old(scopes)@,
        ({
            let attrs = attrs_model(t.attributes@);
            let s2 = models(old(scopes)@);
            let cond = attr_get(attrs, x_if_text());
            opt_text(r) == if cond matches Some(Some(c)) && expr_faults(c) {
                None
            } else if cond matches Some(Some(c)) && !eval_expr(c, s2) {
                Some(Seq::empty())
            } else {
                let inner = match attr_get(attrs, x_for_text()) {
                    Some(Some(f)) => for_output(t.children@, f, s2),
                    _ => match attr_get(attrs, x_text_text()) {
                        Some(Some(x)) => Some(resolve_variable_spec(x, s2)),
                        _ => render_nodes(t.children@, s2),
                    },
                };
                match (bind_attributes(attrs, s2, processor_names()), inner) {
                    (Some(a), Some(i)) => Some(element_text(t.name@, a, i)),
                    _ => None,
                }
            }
        }),
    decreases *n, 0nat, 0nat,
{
    let ghost orig = scopes@;
    let xif = name_chars(1);
    match attr_get_exec(&t.attributes, xif.as_slice()) {
        Some(Some(c)) => {
            if expr_faults_exec(c.as_slice()) {
                return None;
            }
            if !evaluate_chars(c.as_slice(), scopes.as_slice()) {
                return Some(Vec::new());
            }
        },
        _ => {},
    }
    let xfor = name_chars(2);
    let xtext = name_chars(3);
    let inner: Option<Vec<char>> = match attr_get_exec(&t.attributes, xfor.as_slice()) {
        Some(Some(f)) => {
            proof {
                lemma_children_smaller(*n);
            }
            render_for(&t.children, f.as_slice(), scopes)
        },
        _ => match attr_get_exec(&t.attributes, xtext.as_slice()) {
            Some(Some(x)) => Some(resolve_variable_chars(x.as_slice(), scopes.as_slice())),
            _ => {
                proof {
                    lemma_children_smaller(*n);
                }
                render_nodes_exec(&t.children, scopes)
            },
        },
    };
    let names = processor_name_chars();
    let attrs_text = bind_attributes_exec(&t.attributes, scopes.as_slice(), &names);
    match (attrs_text, inner) {
        (Some(a), Some(i)) => {
            let name = chars_of(t.name.as_str());
            let mut out = vec!['<'];
            push_all(&mut out, name.as_slice());
            push_all(&mut out, a.as_slice());
            out.push('>');
            push_all(&mut out, i.as_slice());
            out.push('<');
            out.push('/');
            push_all(&mut out, name.as_slice());
            out.push('>');
            assert(out@ =~= element_text(t.name@, a@, i@));
            Some(out)
        },
        _ => None,
    }
}

// ---------------------------------------------------------------------------
// Entry points

/// Whether `c` occurs in `s`.
fn chars_contain(s: &[char], c: char) -> (r: bool)
    ensures
        r == s@.contains(c),
{
    let mut i: usize = 0;
    while i < s.len()
        invariant
            i <= s@.len(),
            forall|k: int| 0 <= k < i ==> s@[k] != c,
        decreases s@.len() - i,
    {
        if s[i] == c {
            assert(s@[i as int] == c);
            return true;
        }
        i = i + 1;
    }
    false
}

/// Why a template could not be compiled.
#[derive(Debug, PartialEq, Eq)]
pub enum CompileError {
    /// `tl` refused a text: the template, or the markup of some tag's
    /// content, is over `u32::MAX` bytes (`tl_refuses`).
    TooLarge,
    /// Compiling would panic: a token that is a lone `'`, or a binding that
    /// is a lone backtick.
    Panics,
}

/// Compiles a template against a stack of scopes. The output is the
/// rendering of what `tl` parses (`render_nodes`); which of the possible
/// parses that is depends on the order `tl` gives a tag's attributes. `None`
/// where `tl` refuses a text (over `u32::MAX` bytes, the template or the
/// markup of some tag's content). The stack is given back as it was.
/// Requires that no parse panics, as `resolve_value` and
/// `evaluate_complex_string` do on a lone `'` or backtick.
pub fn compile_dom_tree(html: &str, scope_stack: &mut Vec<JsonValue>) -> (out: Option<String>)
    requires
        forall|r: Seq<HtmlNode>|
            parse_outcome(html@, r) ==> #[trigger] render_nodes(r, models(old(scope_stack)@)) is Some,
    ensures
        final(scope_stack)@ == old(scope_stack)@,
        out matches Some(o) ==> exists|r: Seq<HtmlNode>|
            parse_outcome(html@, r) && #[trigger] render_nodes(r, models(old(scope_stack)@)) == Some(o@),
        out is None ==> tl_refuses(html@),
        html.spec_bytes().len() > u32::MAX ==> out is None,
{
    let nodes = match parse_html(html) {
        Some(n) => n,
        None => {
            return None;
        },
    };
    let ghost ms = models(scope_stack@);
    assert(render_nodes(nodes@, ms) is Some);
    match render_nodes_exec(&nodes, scope_stack) {
        Some(cs) => Some(string_of(cs.as_slice())),
        None => {
            assert(false);
            None
        },
    }
}

/// Compiles a template with an empty scope stack; `None` where `tl`
/// refuses a text.
pub fn compile_html(raw_html: &str) -> (out: Option<String>)
    requires
        forall|r: Seq<HtmlNode>| parse_outcome(raw_html@, r) ==> #[trigger] render_nodes(r, seq![]) is Some,
    ensures
        out matches Some(o) ==> exists|r: Seq<HtmlNode>|
            parse_outcome(raw_html@, r) && #[trigger] render_nodes(r, seq![]) == Some(o@),
        out is None ==> tl_refuses(raw_html@),
        raw_html.spec_bytes().len() > u32::MAX ==> out is None,
{
    let mut scope_stack: Vec<JsonValue> = Vec::new();
    assert(models(scope_stack@) =~= seq![]);
    compile_dom_tree(raw_html, &mut scope_stack)
}

/// Compiles a template with an empty scope stack, or says why it cannot:
/// `Panics` where compiling the parse would panic, `TooLarge` where `tl`
/// refuses a text. A text without `'` and without a backtick never panics.
pub fn try_compile_html(raw_html: &str) -> (out: Result<String, CompileError>)
    ensures
        match out {
            Ok(o) => exists|r: Seq<HtmlNode>|
                parse_outcome(raw_html@, r) && #[trigger] render_nodes(r, seq![]) == Some(o@),
            Err(CompileError::Panics) => exists|r: Seq<HtmlNode>|
                parse_outcome(raw_html@, r) && #[trigger] render_nodes(r, seq![]) is None,
            Err(CompileError::TooLarge) => true,
        },
        out == Err::<String, CompileError>(CompileError::TooLarge) ==> tl_refuses(raw_html@),
        raw_html.spec_bytes().len() > u32::MAX ==> out == Err::<String, CompileError>(CompileError::TooLarge),
        !raw_html@.contains('\'') && !raw_html@.contains('`') ==> out != Err::<String, CompileError>(
            CompileError::Panics,
        ),
{
    let cs = chars_of(raw_html);
    if !chars_contain(cs.as_slice(), '\'') && !chars_contain(cs.as_slice(), '`') {
        proof {
            assert forall|r: Seq<HtmlNode>| parse_outcome(raw_html@, r) implies #[trigger] render_nodes(
                r,
                seq![],
            ) is Some by {
                lemma_compile_safe(raw_html@, r, seq![]);
            }
        }
        return match compile_html(raw_html) {
            Some(o) => Ok(o),
            None => Err(CompileError::TooLarge),
        };
    }
    let nodes = match parse_html(raw_html) {
        Some(n) => n,
        None => {
            return Err(CompileError::TooLarge);
        },
    };
    let mut scope_stack: Vec<JsonValue> = Vec::new();
    assert(models(scope_stack@) =~= seq![]);
    match render_nodes_exec(&nodes, &mut scope_stack) {
        Some(o) => Ok(string_of(o.as_slice())),
        None => Err(CompileError::Panics),
    }
}

/// Compiles a template against a stack of scopes, or says why it cannot
/// (`Panics`, `TooLarge` as for `try_compile_html`). Whatever the input,
/// the stack is given back as it was. A text without `'` and without a
/// backtick never panics.
pub fn try_compile_dom_tree(html: &str, scope_stack: &mut Vec<JsonValue>) -> (out: Result<String, CompileError>)
    ensures
        final(scope_stack)@ == old(scope_stack)@,
        match out {
            Ok(o) => exists|r: Seq<HtmlNode>|
                parse_outcome(html@, r) && #[trigger] render_nodes(r, models(old(scope_stack)@)) == Some(o@),
            Err(CompileError::Panics) => exists|r: Seq<HtmlNode>|
                parse_outcome(html@, r) && #[trigger] render_nodes(r, models(old(scope_stack)@)) is None,
            Err(CompileError::TooLarge) => true,
        },
        out == Err::<String, CompileError>(CompileError::TooLarge) ==> tl_refuses(html@),
        html.spec_bytes().len() > u32::MAX ==> out == Err::<String, CompileError>(CompileError::TooLarge),
        !html@.contains('\'') && !html@.contains('`') ==> out != Err::<String, CompileError>(
            CompileError::Panics,
        ),
{
    let ghost ms = models(scope_stack@);
    let cs = chars_of(html);
    if !chars_contain(cs.as_slice(), '\'') && !chars_contain(cs.as_slice(), '`') {
        proof {
            assert forall|r: Seq<HtmlNode>| parse_outcome(html@, r) implies #[trigger] render_nodes(r, ms) is Some by {
                lemma_compile_safe(html@, r, ms);
            }
        }
        return match compile_dom_tree(html, scope_stack) {
            Some(o) => Ok(o),
            None => Err(CompileError::TooLarge),
        };
    }
    let nodes = match parse_html(html) {
        Some(n) => n,
        None => {
            return Err(CompileError::TooLarge);
        },
    };
    match render_nodes_exec(&nodes, scope_stack) {
        Some(o) => Ok(string_of(o.as_slice())),
        None => Err(CompileError::Panics),
    }
}

// ---------------------------------------------------------------------------
// The processors that compile content

/// `x-for`: the tag's content becomes its children compiled once per item,
/// with the item (and its position, when asked for) in a scope of its own.
pub struct ForLoopProcessor;

impl AttributeProcessor for ForLoopProcessor {
    open spec fn faults(&self, tag: HtmlTag, attr_value: Seq<char>, scopes: Seq<Json>) -> bool {
        for_output(tag.children@, attr_value, scopes) is None
    }

    open spec fn outcome(&self, tag: HtmlTag, attr_value: Seq<char>, scopes: Seq<Json>) -> Outcome {
        Outcome::OverrideInner(for_output(tag.children@, attr_value, scopes)->0)
    }

    open spec fn name_text(&self) -> Seq<char> {
        x_for_text()
    }

    fn name(&self) -> (r: &'static str) {
        proof {
            reveal_strlit("x-for");
        }
        "x-for"
    }

    fn process(&self, tag: &HtmlTag, attr_value: &str, scope_stack: &mut Vec<JsonValue>) -> (r: ProcessingResult) {
        let f = chars_of(attr_value);
        match render_for(&tag.children, f.as_slice(), scope_stack) {
            Some(cs) => ProcessingResult::OverrideInner(string_of(cs.as_slice())),
            None => {
                assert(false);
                ProcessingResult::Continue
            },
        }
    }
}

/// `x-include`: the tag's content becomes another template, read from a
/// file and compiled against the same scopes; when the file cannot be read,
/// an error message naming its path takes its place.
pub struct IncludeProcessor;

/// The message an `x-include` writes for a file it cannot read, given the
/// path as `{:?}` writes it.
pub open spec fn include_error_text(path_debug: Seq<char>) -> Seq<char> {
    "<span style='color:red; font-weight:bold;'>[Include Error: "@ + path_debug + " missing]</span>"@
}

impl IncludeProcessor {
    /// The attribute this processor handles.
    pub fn name(&self) -> (r: &'static str)
        ensures
            r@ == x_include_text(),
    {
        proof {
            reveal_strlit("x-include");
        }
        "x-include"
    }

    /// The decision for an `x-include`, given what reading the file gave:
    /// its text compiled with the scope stack, or the error message for the
    /// path (`path_debug` is the path as `{:?}` writes it). `None` where
    /// `tl` refuses the included text.
    pub fn include_outcome(&self, read: Option<&str>, path_debug: &str, scope_stack: &mut Vec<JsonValue>) -> (r: Option<ProcessingResult>)
        requires
            read matches Some(t) ==> forall|n: Seq<HtmlNode>|
                parse_outcome(t@, n) ==> #[trigger] render_nodes(n, models(old(scope_stack)@)) is Some,
        ensures
            final(scope_stack)@ == old(scope_stack)@,
            match read {
                Some(t) => {
                    &&& (r matches Some(x) ==> x matches ProcessingResult::OverrideInner(o) && exists|n: Seq<HtmlNode>|
                        parse_outcome(t@, n) && #[trigger] render_nodes(n, models(old(scope_stack)@)) == Some(o@))
                    &&& (r is None ==> tl_refuses(t@))
                    &&& (t.spec_bytes().len() > u32::MAX ==> r is None)
                },
                None => r matches Some(x) && x@ == Outcome::OverrideInner(include_error_text(path_debug@)),
            },
    {
        match read {
            Some(t) => match compile_dom_tree(t, scope_stack) {
                Some(o) => Some(ProcessingResult::OverrideInner(o)),
                None => None,
            },
            None => {
                let head = "<span style='color:red; font-weight:bold;'>[Include Error: ";
                let tail = " missing]</span>";
                let mut out = chars_of(head);
                let p = chars_of(path_debug);
                let e = chars_of(tail);
                push_all(&mut out, p.as_slice());
                push_all(&mut out, e.as_slice());
                Some(ProcessingResult::OverrideInner(string_of(out.as_slice())))
            },
        }
    }
}

// ---------------------------------------------------------------------------
// Laws of compiling

/// A tag whose `x-if` condition is false is dropped whole: nothing is
/// written for it, and neither its `x-for`, its `x-text`, its bindings nor
/// its children are evaluated, so none of them can make it panic.
pub proof fn lemma_false_condition_drops_tag(t: HtmlTag, scopes: Seq<Json>)
    requires
        attr_get(attrs_model(t.attributes@), x_if_text()) matches Some(Some(c)) && !expr_faults(c)
            && !eval_expr(c, with_x_data(attrs_model(t.attributes@), scopes)),
    ensures
        render_node(HtmlNode::Tag(t), scopes) == Some(Seq::<char>::empty()),
{
}

/// Sibling nodes are compiled one after the other against the same scopes:
/// the output of `a` followed by `b` is the output of `a` followed by the
/// output of `b`, and it panics exactly when one of them does.
pub proof fn lemma_siblings_compile_apart(a: Seq<HtmlNode>, b: Seq<HtmlNode>, scopes: Seq<Json>)
    ensures
        render_nodes(a + b, scopes) == match (render_nodes(a, scopes), render_nodes(b, scopes)) {
            (Some(x), Some(y)) => Some(x + y),
            _ => None,
        },
    decreases a.len(),
{
    if a.len() == 0 {
        assert(a + b =~= b);
        if let Some(y) = render_nodes(b, scopes) {
            assert(Seq::<char>::empty() + y =~= y);
        }
    } else {
        assert((a + b).drop_first() =~= a.drop_first() + b);
        assert((a + b)[0] == a[0]);
        lemma_siblings_compile_apart(a.drop_first(), b, scopes);
        if let (Some(x0), Some(xr), Some(y)) = (
            render_node(a[0], scopes),
            render_nodes(a.drop_first(), scopes),
            render_nodes(b, scopes),
        ) {
            assert(x0 + (xr + y) =~= (x0 + xr) + y);
        }
    }
}

/// The attributes without those named `key`.
pub open spec fn without_attr(a: Seq<AttrModel>, key: Seq<char>) -> Seq<AttrModel>
    decreases a.len(),
{
    if a.len() == 0 {
        a
    } else if a[0].0 == key {
        without_attr(a.drop_first(), key)
    } else {
        seq![a[0]] + without_attr(a.drop_first(), key)
    }
}

proof fn lemma_without_attr_get(a: Seq<AttrModel>, key: Seq<char>, other: Seq<char>)
    ensures
        attr_get(without_attr(a, key), other) == if other == key {
            None
        } else {
            attr_get(a, other)
        },
    decreases a.len(),
{
    if a.len() > 0 {
        lemma_without_attr_get(a.drop_first(), key, other);
        if a[0].0 != key {
            let w = seq![a[0]] + without_attr(a.drop_first(), key);
            assert(w[0] == a[0]);
            assert(w.drop_first() =~= without_attr(a.drop_first(), key));
        }
    }
}

proof fn lemma_without_attr_bind(a: Seq<AttrModel>, key: Seq<char>, scopes: Seq<Json>, names: Seq<Seq<char>>)
    requires
        names.contains(key),
        key != x_data_text(),
        !starts_with(key, bind_prefix()),
        !first_is(key, ':'),
    ensures
        bind_attributes(without_attr(a, key), scopes, names) == bind_attributes(a, scopes, names),
    decreases a.len(),
{
    if a.len() > 0 {
        lemma_without_attr_bind(a.drop_first(), key, scopes, names);
        let rest = bind_attributes(a.drop_first(), scopes, names);
        if a[0].0 == key {
            assert(attr_piece(a[0], scopes, names) == Some(Seq::<char>::empty()));
            if let Some(x) = rest {
                assert(Seq::<char>::empty() + x =~= x);
            }
        } else {
            let w = seq![a[0]] + without_attr(a.drop_first(), key);
            assert(w[0] == a[0]);
            assert(w.drop_first() =~= without_attr(a.drop_first(), key));
        }
    }
}

/// A tag whose `x-if` condition holds compiles exactly as the same tag
/// without its `x-if` attributes: the condition only decides whether the
/// tag is written.
pub proof fn lemma_true_condition_changes_nothing(t: HtmlTag, u: HtmlTag, scopes: Seq<Json>)
    requires
        u.name@ == t.name@,
        u.children@ == t.children@,
        attrs_model(u.attributes@) == without_attr(attrs_model(t.attributes@), x_if_text()),
        attr_get(attrs_model(t.attributes@), x_if_text()) matches Some(Some(c)) && !expr_faults(c)
            && eval_expr(c, with_x_data(attrs_model(t.attributes@), scopes)),
    ensures
        render_node(HtmlNode::Tag(t), scopes) == render_node(HtmlNode::Tag(u), scopes),
{
    let at = attrs_model(t.attributes@);
    let au = attrs_model(u.attributes@);
    lemma_without_attr_get(at, x_if_text(), x_data_text());
    lemma_without_attr_get(at, x_if_text(), x_if_text());
    lemma_without_attr_get(at, x_if_text(), x_for_text());
    lemma_without_attr_get(at, x_if_text(), x_text_text());
    let s2 = with_x_data(at, scopes);
    assert(processor_names()[0] == x_if_text());
    assert(processor_names().contains(x_if_text()));
    assert(x_if_text() != x_data_text()) by {
        assert(x_if_text().len() != x_data_text().len());
    }
    assert(!starts_with(x_if_text(), bind_prefix())) by {
        assert(x_if_text().len() < bind_prefix().len());
    }
    assert(!first_is(x_if_text(), ':')) by {
        assert(x_if_text()[0] == 'x');
    }
    lemma_without_attr_bind(at, x_if_text(), s2, processor_names());
}

/// A tag's `x-data`, where its text (quotes `'` made `"`) parses as JSON,
/// is pushed on the scopes for the tag, whatever other attributes it has.
pub proof fn lemma_x_data_pushed(attrs: Seq<AttrModel>, scopes: Seq<Json>, v: Seq<char>, j: Json)
    requires
        attr_get(attrs, x_data_text()) == Some(Some(v)),
        json_parse(replace_char(v, '\'', '"')) == Some(j),
    ensures
        with_x_data(attrs, scopes) == scopes.push(j),
{
}

/// A tag with `x-data` and `x-text` (and no `x-if` or `x-for`) shows the
/// value `x-text` finds in the scopes with its own `x-data` on top, and
/// writes its attributes against those scopes.
pub proof fn lemma_x_text_sees_own_x_data(t: HtmlTag, scopes: Seq<Json>, v: Seq<char>, j: Json, x: Seq<char>)
    requires
        attr_get(attrs_model(t.attributes@), x_data_text()) == Some(Some(v)),
        json_parse(replace_char(v, '\'', '"')) == Some(j),
        attr_get(attrs_model(t.attributes@), x_if_text()) is None,
        attr_get(attrs_model(t.attributes@), x_for_text()) is None,
        attr_get(attrs_model(t.attributes@), x_text_text()) == Some(Some(x)),
    ensures
        render_node(HtmlNode::Tag(t), scopes) == match bind_attributes(
            attrs_model(t.attributes@),
            scopes.push(j),
            processor_names(),
        ) {
            Some(a) => Some(
                seq!['<'] + t.name@ + a + seq!['>'] + resolve_variable_spec(x, scopes.push(j)) + seq!['<', '/']
                    + t.name@ + seq!['>'],
            ),
            None => None,
        },
{
}

/// Each iteration of an `x-for` compiles the tag's children against the
/// enclosing scopes with the iteration's scope pushed on top, so a name the
/// iteration scope does not hold resolves as it does outside the loop; the
/// iterations' outputs follow one another.
pub proof fn lemma_loop_iteration_scopes(
    children: Seq<HtmlNode>,
    item_var: Seq<char>,
    index_var: Option<Seq<char>>,
    items: Seq<Json>,
    k: int,
    scopes: Seq<Json>,
)
    requires
        0 <= k < items.len(),
    ensures
        render_loop(children, item_var, index_var, items, k, scopes) == match render_nodes(
            children,
            scopes.push(loop_scope(item_var, items[k], index_var, k)),
        ) {
            Some(a) => opt_prepend(a, render_loop(children, item_var, index_var, items, k + 1, scopes)),
            None => None,
        },
        render_loop(children, item_var, index_var, items, items.len() as int, scopes) == Some(
            Seq::<char>::empty(),
        ),
{
}

/// Inside an iteration, a name that the iteration's scope does not hold is
/// found in the enclosing scopes, for `x-text` and for expressions alike.
pub proof fn lemma_loop_sees_outer_names(
    scopes: Seq<Json>,
    item_var: Seq<char>,
    item: Json,
    index_var: Option<Seq<char>>,
    k: int,
    field: Seq<char>,
)
    requires
        field != item_var,
        index_var != Some(field),
    ensures
        lookup(scopes.push(loop_scope(item_var, item, index_var, k)), None, field) == lookup(scopes, None, field),
        variable_lookup(scopes.push(loop_scope(item_var, item, index_var, k)), None, field) == variable_lookup(
            scopes,
            None,
            field,
        ),
{
    let ls = loop_scope(item_var, item, index_var, k);
    let s = scopes.push(ls);
    assert(s.last() == ls);
    assert(s.drop_last() =~= scopes);
    let es = ls->Object_0;
    assert(entries_get(es, field) is None) by {
        reveal_with_fuel(entries_get, 3);
        if es.len() == 2 {
            assert(es.drop_first().drop_first() =~= Seq::<(Seq<char>, Json)>::empty());
        } else {
            assert(es.drop_first() =~= Seq::<(Seq<char>, Json)>::empty());
        }
    }
}

/// An `x-for` over an integer `n` iterates over `1, 2, ..., n` (nothing for
/// `n < 1`).
pub proof fn lemma_numeric_range(source: Seq<char>, scopes: Seq<Json>, n: i64)
    requires
        parse_i64(source) == Some(n),
    ensures
        loop_items(source, scopes) matches Some(items) && items.len() == (if n >= 1 { n as int } else { 0 })
            && forall|k: int| 0 <= k < items.len() ==> #[trigger] items[k] == Json::Number(int_num((k + 1) as i64)),
{
}

/// An iteration's scope holds the item under its variable and, when asked
/// for, the position under the index variable; where both names are the
/// same the position wins.
pub proof fn lemma_loop_scope_contents(item_var: Seq<char>, item: Json, index_var: Option<Seq<char>>, k: int)
    ensures
        index_var != Some(item_var) ==> json_get(loop_scope(item_var, item, index_var, k), item_var) == Some(item),
        index_var matches Some(n) ==> json_get(loop_scope(item_var, item, index_var, k), n) == Some(
            Json::Number(NumModel::PosInt(k as u64)),
        ),
{
    reveal_with_fuel(entries_get, 3);
    let es = loop_scope(item_var, item, index_var, k)->Object_0;
    if es.len() == 2 {
        assert(es.drop_first()[0] == es[1]);
    }
}

/// Text is written as it is and comments are dropped.
pub proof fn lemma_text_and_comments(s: String, scopes: Seq<Json>)
    ensures
        render_node(HtmlNode::Text(s), scopes) == Some(s@),
        render_node(HtmlNode::Comment(s), scopes) == Some(Seq::<char>::empty()),
{
}

/// A tag with an `x-for` (and no `x-if`) is written as
/// `<name attributes>content</name>`, its content its children compiled
/// once per item of the loop, each against the tag's scopes with the
/// iteration's scope on top.
pub proof fn lemma_x_for_tag(t: HtmlTag, scopes: Seq<Json>, f: Seq<char>)
    requires
        attr_get(attrs_model(t.attributes@), x_if_text()) is None,
        attr_get(attrs_model(t.attributes@), x_for_text()) == Some(Some(f)),
    ensures
        ({
            let s2 = with_x_data(attrs_model(t.attributes@), scopes);
            let (iter, source) = loop_header(trim(f));
            let (iv, xv) = loop_vars(iter);
            render_node(HtmlNode::Tag(t), scopes) == match (
                bind_attributes(attrs_model(t.attributes@), s2, processor_names()),
                loop_items(source, s2),
            ) {
                (Some(a), Some(items)) => match render_loop(t.children@, iv, xv, items, 0, s2) {
                    Some(inner) => Some(
                        seq!['<'] + t.name@ + a + seq!['>'] + inner + seq!['<', '/'] + t.name@ + seq!['>'],
                    ),
                    None => None,
                },
                _ => None,
            }
        }),
{
}

/// An `x-for` value holding ` in ` names the loop variables before its
/// first ` in ` and the source after it, both trimmed; without one, the
/// variable is `item` and the whole value is the source.
pub proof fn lemma_loop_header_cases(a: Seq<char>)
    ensures
        find(a, seq![' ', 'i', 'n', ' ']) matches Some(i) ==> loop_header(a) == (trim(a.take(i)), trim(a.skip(i + 4))),
        find(a, seq![' ', 'i', 'n', ' ']) is None ==> loop_header(a) == (seq!['i', 't', 'e', 'm'], a),
{
}

/// Loop variables `(v, k)` name the item `v` and the index `k`, each
/// trimmed; a name without parentheses names the item alone.
pub proof fn lemma_loop_vars_cases(v: Seq<char>, k: Seq<char>, name: Seq<char>)
    requires
        !v.contains(','),
        !k.contains(','),
    ensures
        loop_vars(seq!['('] + v + seq![','] + k + seq![')']) == (trim(v), Some(trim(k))),
        !first_is(name, '(') ==> loop_vars(name) == (name, None::<Seq<char>>),
{
    let it = seq!['('] + v + seq![','] + k + seq![')'];
    let inner = it.subrange(1, it.len() - 1);
    assert(inner =~= v + seq![','] + k);
    assert(inner.take(v.len() as int) =~= v);
    assert(inner.skip((v.len() + 1) as int) =~= k);
    lemma_split_once(inner, ',', v.len() as int);
}

/// A tag with `x-text` (and no `x-if` or `x-for`) shows the value `x-text`
/// finds in its scopes (its own `x-data` on top, where it has one); a tag
/// with none of the three has its children compiled as its content.
pub proof fn lemma_x_text_and_plain_tags(t: HtmlTag, scopes: Seq<Json>)
    requires
        attr_get(attrs_model(t.attributes@), x_if_text()) is None,
        attr_get(attrs_model(t.attributes@), x_for_text()) is None,
    ensures
        ({
            let attrs = attrs_model(t.attributes@);
            let s2 = with_x_data(attrs, scopes);
            let inner = match attr_get(attrs, x_text_text()) {
                Some(Some(x)) => Some(resolve_variable_spec(x, s2)),
                _ => render_nodes(t.children@, s2),
            };
            render_node(HtmlNode::Tag(t), scopes) == match (bind_attributes(attrs, s2, processor_names()), inner) {
                (Some(a), Some(i)) => Some(
                    seq!['<'] + t.name@ + a + seq!['>'] + i + seq!['<', '/'] + t.name@ + seq!['>'],
                ),
                _ => None,
            }
        }),
{
}

/// Without an `x-data` that parses, a tag's scopes are those around it.
pub proof fn lemma_no_x_data_keeps_scopes(attrs: Seq<AttrModel>, scopes: Seq<Json>)
    requires
        !(attr_get(attrs, x_data_text()) matches Some(Some(v)) && json_parse(replace_char(v, '\'', '"')) is Some),
    ensures
        with_x_data(attrs, scopes) == scopes,
{
}

/// An `x-for` source that is not an integer iterates over the elements of
/// the array it names, and over nothing when it names anything else.
pub proof fn lemma_loop_source_value(source: Seq<char>, scopes: Seq<Json>)
    requires
        parse_i64(source) is None,
        !token_faults(source),
    ensures
        loop_items(source, scopes) == Some(
            match resolve_value_spec(source, scopes) {
                Json::Array(a) => a,
                _ => Seq::<Json>::empty(),
            },
        ),
{
}

} // verus!
