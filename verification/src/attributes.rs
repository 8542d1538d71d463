//! The attribute processors (`x-if`, `x-for`, `x-text`, `x-bind`,
//! `x-include`), `x-text` lookups and the serialisation of a tag's
//! attributes with `:name` / `x-bind:name` bindings.
use vstd::prelude::*;
use crate::expressions::{
    evaluate_expression, complex_string, complex_string_chars, complex_string_faults, eval_expr, expr_faults, item_text, undefined_text,
};
use crate::html::{attrs_model, AttrModel, HtmlTag};
use crate::json::{
    bool_text, bool_text_exec, entries_get, json_get, json_text, json_to_text, models, num_text,
    Json, JsonValue,
};
use crate::text::{
    chars_eq, chars_of, copy_range, first_is, push_all, split, split_chars, starts_with,
    starts_with_chars, string_of, lemma_split_nonempty, lemma_split_without, lemma_split_once,
};

verus! {

/// What a processor decides for a tag.
#[derive(Debug)]
pub enum ProcessingResult {
    Continue,
    OverrideInner(String),
    SkipEntireTag,
}

/// Model of a processor's decision.
pub enum Outcome {
    Continue,
    OverrideInner(Seq<char>),
    SkipEntireTag,
}

impl View for ProcessingResult {
    type V = Outcome;

    open spec fn view(&self) -> Outcome {
        match self {
            ProcessingResult::Continue => Outcome::Continue,
            ProcessingResult::OverrideInner(s) => Outcome::OverrideInner(s@),
            ProcessingResult::SkipEntireTag => Outcome::SkipEntireTag,
        }
    }
}

/// A handler for one `x-` attribute.
pub trait AttributeProcessor {
    /// Whether processing this attribute value panics.
    spec fn faults(&self, tag: HtmlTag, attr_value: Seq<char>, scopes: Seq<Json>) -> bool;

    /// The decision for the tag.
    spec fn outcome(&self, tag: HtmlTag, attr_value: Seq<char>, scopes: Seq<Json>) -> Outcome;

    /// The name of the attribute this processor handles.
    spec fn name_text(&self) -> Seq<char>;

    /// The attribute this processor handles.
    fn name(&self) -> (r: &'static str)
        ensures
            r@ == self.name_text(),
    ;

    /// Processes the attribute of `tag` with value `attr_value`; the scope
    /// stack is given back as it was.
    fn process(&self, tag: &HtmlTag, attr_value: &str, scope_stack: &mut Vec<JsonValue>) -> (r: ProcessingResult)
        requires
            !self.faults(*tag, attr_value@, models(old(scope_stack)@)),
        ensures
            final(scope_stack)@ == old(scope_stack)@,
            r@ == self.outcome(*tag, attr_value@, models(old(scope_stack)@)),
    ;
}

/// `x-if`: the tag stays when its condition holds and is dropped otherwise.
pub struct ConditionalProcessor;

impl AttributeProcessor for ConditionalProcessor {
    open spec fn faults(&self, tag: HtmlTag, attr_value: Seq<char>, scopes: Seq<Json>) -> bool {
        expr_faults(attr_value)
    }

    open spec fn outcome(&self, tag: HtmlTag, attr_value: Seq<char>, scopes: Seq<Json>) -> Outcome {
        if eval_expr(attr_value, scopes) {
            Outcome::Continue
        } else {
            Outcome::SkipEntireTag
        }
    }

    open spec fn name_text(&self) -> Seq<char> {
        x_if_text()
    }

    fn name(&self) -> (r: &'static str) {
        proof {
            reveal_strlit("x-if");
        }
        "x-if"
    }

    fn process(&self, tag: &HtmlTag, attr_value: &str, scope_stack: &mut Vec<JsonValue>) -> (r: ProcessingResult) {
        if evaluate_expression(attr_value, scope_stack.as_slice()) {
            ProcessingResult::Continue
        } else {
            ProcessingResult::SkipEntireTag
        }
    }
}

/// `x-text`: the tag's content becomes the value the attribute names.
pub struct TextProcessor;

impl AttributeProcessor for TextProcessor {
    open spec fn faults(&self, tag: HtmlTag, attr_value: Seq<char>, scopes: Seq<Json>) -> bool {
        false
    }

    open spec fn outcome(&self, tag: HtmlTag, attr_value: Seq<char>, scopes: Seq<Json>) -> Outcome {
        Outcome::OverrideInner(resolve_variable_spec(attr_value, scopes))
    }

    open spec fn name_text(&self) -> Seq<char> {
        x_text_text()
    }

    fn name(&self) -> (r: &'static str) {
        proof {
            reveal_strlit("x-text");
        }
        "x-text"
    }

    fn process(&self, tag: &HtmlTag, attr_value: &str, scope_stack: &mut Vec<JsonValue>) -> (r: ProcessingResult) {
        ProcessingResult::OverrideInner(resolve_variable(attr_value, scope_stack.as_slice()))
    }
}

/// `x-bind`: bindings are written out with the tag's attributes, so the
/// processor lets the tag through.
pub struct BindProcessor;

impl AttributeProcessor for BindProcessor {
    open spec fn faults(&self, tag: HtmlTag, attr_value: Seq<char>, scopes: Seq<Json>) -> bool {
        false
    }

    open spec fn outcome(&self, tag: HtmlTag, attr_value: Seq<char>, scopes: Seq<Json>) -> Outcome {
        Outcome::Continue
    }

    open spec fn name_text(&self) -> Seq<char> {
        x_bind_text()
    }

    fn name(&self) -> (r: &'static str) {
        proof {
            reveal_strlit("x-bind");
        }
        "x-bind"
    }

    fn process(&self, tag: &HtmlTag, attr_value: &str, scope_stack: &mut Vec<JsonValue>) -> (r: ProcessingResult) {
        ProcessingResult::Continue
    }
}

// ---------------------------------------------------------------------------
// Attribute names

/// The text `x-data`.
pub open spec fn x_data_text() -> Seq<char> {
    seq!['x', '-', 'd', 'a', 't', 'a']
}

/// The text `x-if`.
pub open spec fn x_if_text() -> Seq<char> {
    seq!['x', '-', 'i', 'f']
}

/// The text `x-for`.
pub open spec fn x_for_text() -> Seq<char> {
    seq!['x', '-', 'f', 'o', 'r']
}

/// The text `x-text`.
pub open spec fn x_text_text() -> Seq<char> {
    seq!['x', '-', 't', 'e', 'x', 't']
}

/// The text `x-bind`.
pub open spec fn x_bind_text() -> Seq<char> {
    seq!['x', '-', 'b', 'i', 'n', 'd']
}

/// The text `x-include`.
pub open spec fn x_include_text() -> Seq<char> {
    seq!['x', '-', 'i', 'n', 'c', 'l', 'u', 'd', 'e']
}

/// The text `x-bind:`.
pub open spec fn bind_prefix() -> Seq<char> {
    seq!['x', '-', 'b', 'i', 'n', 'd', ':']
}

/// The names of the processors the compiler runs, in their order.
pub open spec fn processor_names() -> Seq<Seq<char>> {
    seq![x_if_text(), x_for_text(), x_text_text()]
}

/// `Attributes::get`: the value of the first attribute with `key`; `Some(None)`
/// for an attribute without a value.
pub open spec fn attr_get(attrs: Seq<AttrModel>, key: Seq<char>) -> Option<Option<Seq<char>>>
    decreases attrs.len(),
{
    if attrs.len() == 0 {
        None
    } else if attrs[0].0 == key {
        Some(attrs[0].1)
    } else {
        attr_get(attrs.drop_first(), key)
    }
}

/// `attr_get` on a tag.
pub fn attr_get_exec(attrs: &Vec<(String, Option<String>)>, key: &[char]) -> (r: Option<Option<Vec<char>>>)
    ensures
        match r {
            Some(Some(v)) => attr_get(attrs_model(attrs@), key@) == Some(Some(v@)),
            Some(None) => attr_get(attrs_model(attrs@), key@) == Some(None::<Seq<char>>),
            None => attr_get(attrs_model(attrs@), key@) is None,
        },
{
    let ghost am = attrs_model(attrs@);
    let mut i: usize = 0;
    assert(am.skip(0) =~= am);
    while i < attrs.len()
        invariant
            i <= attrs@.len(),
            am == attrs_model(attrs@),
            attr_get(am, key@) == attr_get(am.skip(i as int), key@),
        decreases attrs@.len() - i,
    {
        assert(am.skip(i as int).drop_first() =~= am.skip(i + 1));
        assert(am.skip(i as int)[0] == am[i as int]);
        let k = chars_of(attrs[i].0.as_str());
        if chars_eq(k.as_slice(), key) {
            return match &attrs[i].1 {
                Some(v) => Some(Some(chars_of(v.as_str()))),
                None => Some(None),
            };
        }
        i = i + 1;
    }
    None
}

// ---------------------------------------------------------------------------
// x-text lookups

/// How `x-text` writes a value: strings as they are, numbers and booleans as
/// printed, anything else as JSON.
pub open spec fn format_json(v: Json) -> Seq<char> {
    match v {
        Json::Str(s) => s,
        Json::Number(n) => num_text(n),
        Json::Bool(b) => bool_text(b),
        _ => json_text(v),
    }
}

/// What `x-text` finds in one scope: `ns.field` when `ns` names an object
/// holding `field`; else, for the namespace `item`, `field` of the scope.
pub open spec fn variable_scope_value(scope: Json, ns: Option<Seq<char>>, field: Seq<char>) -> Option<Json> {
    match ns {
        Some(n) => {
            let direct = match json_get(scope, n) {
                Some(Json::Object(es)) => entries_get(es, field),
                _ => None,
            };
            if direct is Some {
                direct
            } else if scope is Object && json_get(scope, field) is Some && n == item_text() {
                json_get(scope, field)
            } else {
                None
            }
        },
        None => json_get(scope, field),
    }
}

/// The first `x-text` value found, searching from the innermost scope.
pub open spec fn variable_lookup(scopes: Seq<Json>, ns: Option<Seq<char>>, field: Seq<char>) -> Option<Json>
    decreases scopes.len(),
{
    if scopes.len() == 0 {
        None
    } else {
        match variable_scope_value(scopes.last(), ns, field) {
            Some(v) => Some(v),
            None => variable_lookup(scopes.drop_last(), ns, field),
        }
    }
}

/// The namespace and field of an `x-text` value, split at `.` (untrimmed).
pub open spec fn variable_path(x: Seq<char>) -> (Option<Seq<char>>, Seq<char>) {
    let parts = split(x, '.');
    if parts.len() == 2 {
        (Some(parts[0]), parts[1])
    } else {
        (None, parts[0])
    }
}

/// The text `x-text` shows: the value found, written out, or `undefined`.
pub open spec fn resolve_variable_spec(x: Seq<char>, scopes: Seq<Json>) -> Seq<char> {
    match variable_lookup(scopes, variable_path(x).0, variable_path(x).1) {
        Some(v) => format_json(v),
        None => undefined_text(),
    }
}

/// Model of an optional text.
pub open spec fn opt_text(o: Option<Vec<char>>) -> Option<Seq<char>> {
    match o {
        Some(v) => Some(v@),
        None => None,
    }
}

fn format_json_value(v: &JsonValue) -> (r: Vec<char>)
    ensures
        r@ == format_json(v@),
{
    match v {
        JsonValue::String(s) => chars_of(s.as_str()),
        JsonValue::Number(n) => n.text(),
        JsonValue::Bool(b) => bool_text_exec(*b),
        _ => {
            let t = json_to_text(v);
            chars_of(t.as_str())
        },
    }
}

fn variable_scope_value_exec<'a>(scope: &'a JsonValue, ns: &Option<Vec<char>>, field: &[char]) -> (r: Option<&'a JsonValue>)
    ensures
        r matches Some(x) ==> variable_scope_value(scope@, opt_text(*ns), field@) == Some(x@),
        r is None ==> variable_scope_value(scope@, opt_text(*ns), field@) is None,
{
    match ns {
        Some(n) => {
            match scope.get(n.as_slice()) {
                Some(inner) => {
                    if inner.is_object() {
                        match inner.get(field) {
                            Some(v) => {
                                return Some(v);
                            },
                            None => {},
                        }
                    }
                },
                None => {},
            }
            let item = vec!['i', 't', 'e', 'm'];
            assert(item@ =~= item_text());
            if scope.is_object() && scope.get(field).is_some() && chars_eq(n.as_slice(), item.as_slice()) {
                scope.get(field)
            } else {
                None
            }
        },
        None => scope.get(field),
    }
}

/// `resolve_variable` on characters.
pub fn resolve_variable_chars(x: &[char], scopes: &[JsonValue]) -> (r: Vec<char>)
    ensures
        r@ == resolve_variable_spec(x@, models(scopes@)),
{
    let parts = split_chars(x, '.');
    proof {
        lemma_split_nonempty(x@, '.');
    }
    let ns: Option<Vec<char>>;
    let field: Vec<char>;
    if parts.len() == 2 {
        ns = Some(copy_range(parts[0].as_slice(), 0, parts[0].len()));
        field = copy_range(parts[1].as_slice(), 0, parts[1].len());
    } else {
        ns = None;
        field = copy_range(parts[0].as_slice(), 0, parts[0].len());
    }
    let ghost ms = models(scopes@);
    let ghost path = variable_path(x@);
    assert(opt_text(ns) == path.0 && field@ == path.1);
    let mut i: usize = scopes.len();
    assert(ms.take(i as int) =~= ms);
    while i > 0
        invariant
            i <= scopes@.len(),
            ms == models(scopes@),
            opt_text(ns) == variable_path(x@).0,
            field@ == variable_path(x@).1,
            variable_lookup(ms, opt_text(ns), field@) == variable_lookup(ms.take(i as int), opt_text(ns), field@),
        decreases i,
    {
        let ghost pre = ms.take(i as int);
        assert(pre.last() == scopes@[i - 1]@);
        assert(pre.drop_last() =~= ms.take(i - 1));
        match variable_scope_value_exec(&scopes[i - 1], &ns, field.as_slice()) {
            Some(v) => {
                return format_json_value(v);
            },
            None => {},
        }
        i = i - 1;
    }
    let r = vec!['u', 'n', 'd', 'e', 'f', 'i', 'n', 'e', 'd'];
    assert(r@ =~= undefined_text());
    r
}

/// The text `x-text="…"` shows: `name` or `namespace.name` looked up from the
/// innermost scope outwards, or `undefined`.
pub fn resolve_variable(x_text_value: &str, scope_stack: &[JsonValue]) -> (r: String)
    ensures
        r@ == resolve_variable_spec(x_text_value@, models(scope_stack@)),
{
    let x = chars_of(x_text_value);
    let r = resolve_variable_chars(x.as_slice(), scope_stack);
    string_of(r.as_slice())
}


// ---------------------------------------------------------------------------
// Attribute serialisation

/// `name='value'` preceded by a space.
pub open spec fn quoted_attr(name: Seq<char>, value: Seq<char>) -> Seq<char> {
    seq![' '] + name + seq!['=', '\''] + value + seq!['\'']
}

/// What one attribute contributes to a tag's attribute text: a binding
/// (`x-bind:name` or `:name`) writes `name` with the evaluated expression,
/// `x-data` and the processors' attributes write nothing, any other
/// attribute is written as it is. `None` when evaluating a binding panics.
pub open spec fn attr_piece(a: AttrModel, scopes: Seq<Json>, names: Seq<Seq<char>>) -> Option<Seq<char>> {
    let k = a.0;
    if starts_with(k, bind_prefix()) || first_is(k, ':') {
        let target = if starts_with(k, bind_prefix()) { k.skip(7) } else { k.skip(1) };
        match a.1 {
            Some(val) => if complex_string_faults(val) {
                None
            } else {
                Some(quoted_attr(target, complex_string(val, scopes)))
            },
            None => Some(Seq::empty()),
        }
    } else if k != x_data_text() && !names.contains(k) {
        match a.1 {
            Some(val) => Some(quoted_attr(k, val)),
            None => Some(seq![' '] + k),
        }
    } else {
        Some(Seq::empty())
    }
}

/// Prepends a text to an optional text.
pub open spec fn opt_prepend(p: Seq<char>, o: Option<Seq<char>>) -> Option<Seq<char>> {
    match o {
        Some(r) => Some(p + r),
        None => None,
    }
}

/// The attribute text of a tag: the pieces of its attributes in order;
/// `None` when a binding panics.
pub open spec fn bind_attributes(attrs: Seq<AttrModel>, scopes: Seq<Json>, names: Seq<Seq<char>>) -> Option<Seq<char>>
    decreases attrs.len(),
{
    if attrs.len() == 0 {
        Some(Seq::empty())
    } else {
        match attr_piece(attrs[0], scopes, names) {
            Some(p) => opt_prepend(p, bind_attributes(attrs.drop_first(), scopes, names)),
            None => None,
        }
    }
}

fn contains_name(names: &Vec<Vec<char>>, k: &[char]) -> (r: bool)
    ensures
        r == Seq::new(names@.len(), |i: int| names@[i]@).contains(k@),
{
    let ghost ns = Seq::new(names@.len(), |i: int| names@[i]@);
    let mut i: usize = 0;
    while i < names.len()
        invariant
            i <= names@.len(),
            ns == Seq::new(names@.len(), |i: int| names@[i]@),
            forall|j: int| 0 <= j < i ==> ns[j] != k@,
        decreases names@.len() - i,
    {
        if chars_eq(names[i].as_slice(), k) {
            assert(ns[i as int] == k@);
            return true;
        }
        i = i + 1;
    }
    false
}

fn quoted_attr_exec(out: &mut Vec<char>, name: &[char], value: &[char])
    ensures
        final(out)@ == old(out)@ + quoted_attr(name@, value@),
{
    out.push(' ');
    push_all(out, name);
    out.push('=');
    out.push('\'');
    push_all(out, value);
    out.push('\'');
    assert(final(out)@ =~= old(out)@ + quoted_attr(name@, value@));
}

/// The attribute text of a tag, on characters; `None` where a binding
/// would panic.
pub fn bind_attributes_exec(attrs: &Vec<(String, Option<String>)>, scopes: &[JsonValue], names: &Vec<Vec<char>>) -> (r: Option<Vec<char>>)
    ensures
        opt_text(r) == bind_attributes(
            attrs_model(attrs@),
            models(scopes@),
            Seq::new(names@.len(), |i: int| names@[i]@),
        ),
{
    let ghost am = attrs_model(attrs@);
    let ghost ms = models(scopes@);
    let ghost ns = Seq::new(names@.len(), |i: int| names@[i]@);
    let prefix = vec!['x', '-', 'b', 'i', 'n', 'd', ':'];
    let xd = vec!['x', '-', 'd', 'a', 't', 'a'];
    assert(prefix@ =~= bind_prefix());
    assert(xd@ =~= x_data_text());
    let mut out: Vec<char> = Vec::new();
    let mut i: usize = 0;
    assert(am.skip(0) =~= am);
    assert(out@ + Seq::<char>::empty() =~= out@);
    while i < attrs.len()
        invariant
            i <= attrs@.len(),
            am == attrs_model(attrs@),
            ms == models(scopes@),
            ns == Seq::new(names@.len(), |i: int| names@[i]@),
            prefix@ == bind_prefix(),
            xd@ == x_data_text(),
            bind_attributes(am, ms, ns) == opt_prepend(out@, bind_attributes(am.skip(i as int), ms, ns)),
        decreases attrs@.len() - i,
    {
        assert(am.skip(i as int).drop_first() =~= am.skip(i + 1));
        assert(am.skip(i as int)[0] == am[i as int]);
        let ghost before = out@;
        let k = chars_of(attrs[i].0.as_str());
        let is_prefixed = starts_with_chars(k.as_slice(), prefix.as_slice());
        if is_prefixed || (k.len() > 0 && k[0] == ':') {
            let target = if is_prefixed {
                copy_range(k.as_slice(), 7, k.len())
            } else {
                copy_range(k.as_slice(), 1, k.len())
            };
            assert(target@ =~= (if is_prefixed { k@.skip(7) } else { k@.skip(1) }));
            match &attrs[i].1 {
                Some(v) => {
                    let vc = chars_of(v.as_str());
                    match complex_string_chars(vc.as_slice(), scopes) {
                        Some(val) => {
                            quoted_attr_exec(&mut out, target.as_slice(), val.as_slice());
                        },
                        None => {
                            return None;
                        },
                    }
                },
                None => {},
            }
        } else if !chars_eq(k.as_slice(), xd.as_slice()) && !contains_name(names, k.as_slice()) {
            match &attrs[i].1 {
                Some(v) => {
                    let vc = chars_of(v.as_str());
                    quoted_attr_exec(&mut out, k.as_slice(), vc.as_slice());
                },
                None => {
                    out.push(' ');
                    push_all(&mut out, k.as_slice());
                },
            }
        }
        proof {
            let piece = attr_piece(am[i as int], ms, ns);
            assert(piece == Some(out@.subrange(before.len() as int, out@.len() as int)));
            assert(out@ =~= before + piece->0);
            let rest = bind_attributes(am.skip(i + 1), ms, ns);
            assert(opt_prepend(before, opt_prepend(piece->0, rest)) == opt_prepend(out@, rest)) by {
                if rest is Some {
                    assert(before + (piece->0 + rest->0) =~= out@ + rest->0);
                }
            }
        }
        i = i + 1;
    }
    assert(am.skip(i as int) =~= Seq::<AttrModel>::empty());
    assert(out@ + Seq::<char>::empty() =~= out@);
    Some(out)
}

/// The text of a names slice.
pub open spec fn names_model(names: Seq<&str>) -> Seq<Seq<char>> {
    Seq::new(names.len(), |i: int| names[i]@)
}

/// Writes a tag's attributes back out: `:name` and `x-bind:name` bindings
/// with their evaluated expressions, other attributes as they are, leaving
/// out `x-data` and the attributes named in `processors_names`.
pub fn evaluate_and_bind_attributes(tag: &HtmlTag, scope_stack: &[JsonValue], processors_names: &[&str]) -> (r: String)
    requires
        bind_attributes(attrs_model(tag.attributes@), models(scope_stack@), names_model(processors_names@)) is Some,
    ensures
        Some(r@) == bind_attributes(attrs_model(tag.attributes@), models(scope_stack@), names_model(processors_names@)),
{
    let mut names: Vec<Vec<char>> = Vec::new();
    let mut i: usize = 0;
    while i < processors_names.len()
        invariant
            i <= processors_names@.len(),
            names@.len() == i,
            forall|j: int| 0 <= j < i ==> (#[trigger] names@[j])@ == processors_names@[j]@,
        decreases processors_names@.len() - i,
    {
        names.push(chars_of(processors_names[i]));
        i = i + 1;
    }
    assert(Seq::new(names@.len(), |i: int| names@[i]@) =~= names_model(processors_names@));
    match bind_attributes_exec(&tag.attributes, scope_stack, &names) {
        Some(out) => string_of(out.as_slice()),
        None => {
            assert(false);
            String::new()
        },
    }
}

/// For `x-text` too, the innermost scope that holds a name answers for it;
/// where it does not hold it, the scopes below answer.
pub proof fn lemma_inner_variable_wins(scopes: Seq<Json>, inner: Json, ns: Option<Seq<char>>, field: Seq<char>)
    ensures
        variable_lookup(scopes.push(inner), ns, field) == match variable_scope_value(inner, ns, field) {
            Some(v) => Some(v),
            None => variable_lookup(scopes, ns, field),
        },
{
    assert(scopes.push(inner).last() == inner);
    assert(scopes.push(inner).drop_last() =~= scopes);
}

/// What `x-text` shows for a value it finds: a string as it is, a number of
/// any kind (float included) as `Display` writes it, a boolean as `true` or
/// `false`; and `undefined` only where it finds nothing.
pub proof fn lemma_x_text_shows_found_value(x: Seq<char>, scopes: Seq<Json>)
    ensures
        ({
            let found = variable_lookup(scopes, variable_path(x).0, variable_path(x).1);
            &&& (found matches Some(Json::Str(s)) ==> resolve_variable_spec(x, scopes) == s)
            &&& (found matches Some(Json::Number(n)) ==> resolve_variable_spec(x, scopes) == num_text(n))
            &&& (found matches Some(Json::Bool(b)) ==> resolve_variable_spec(x, scopes) == bool_text(b))
            &&& (found is None ==> resolve_variable_spec(x, scopes) == undefined_text())
        }),
{
}

/// `x-text` writes arrays, objects and `null` it finds as JSON.
pub proof fn lemma_x_text_shows_json(x: Seq<char>, scopes: Seq<Json>)
    ensures
        ({
            let found = variable_lookup(scopes, variable_path(x).0, variable_path(x).1);
            found is Some && (found->0 is Array || found->0 is Object || found->0 is Null) ==> resolve_variable_spec(
                x,
                scopes,
            ) == json_text(found->0)
        }),
{
}

/// `Attributes::get` gives the first attribute with the key: an attribute
/// put in front with the key answers, and one with another key is passed
/// over; what it gives is the value of one of the attributes.
pub proof fn lemma_attr_get_first(a: AttrModel, rest: Seq<AttrModel>, key: Seq<char>)
    ensures
        a.0 == key ==> attr_get(seq![a] + rest, key) == Some(a.1),
        a.0 != key ==> attr_get(seq![a] + rest, key) == attr_get(rest, key),
{
    assert((seq![a] + rest)[0] == a);
    assert((seq![a] + rest).drop_first() =~= rest);
}

/// The attribute text of a tag is the text of its attributes one after the
/// other: the text of `a` then `b` is that of `a` followed by that of `b`,
/// and it panics exactly when one of them does.
pub proof fn lemma_bind_concat(a: Seq<AttrModel>, b: Seq<AttrModel>, scopes: Seq<Json>, names: Seq<Seq<char>>)
    ensures
        bind_attributes(a + b, scopes, names) == match (bind_attributes(a, scopes, names), bind_attributes(b, scopes, names)) {
            (Some(x), Some(y)) => Some(x + y),
            _ => None,
        },
    decreases a.len(),
{
    if a.len() == 0 {
        assert(a + b =~= b);
        if let Some(y) = bind_attributes(b, scopes, names) {
            assert(Seq::<char>::empty() + y =~= y);
        }
    } else {
        assert((a + b).drop_first() =~= a.drop_first() + b);
        assert((a + b)[0] == a[0]);
        lemma_bind_concat(a.drop_first(), b, scopes, names);
        if let (Some(x0), Some(xr), Some(y)) = (
            attr_piece(a[0], scopes, names),
            bind_attributes(a.drop_first(), scopes, names),
            bind_attributes(b, scopes, names),
        ) {
            assert(x0 + (xr + y) =~= (x0 + xr) + y);
        }
    }
}

/// What one attribute writes: a plain attribute ` key='value'` (or ` key`
/// without a value); `x-data` and the processors' attributes nothing; a
/// binding `:name` or `x-bind:name` ` name='...'` with its expression
/// evaluated, or nothing without a value.
pub proof fn lemma_attribute_pieces(a: AttrModel, scopes: Seq<Json>, names: Seq<Seq<char>>)
    ensures
        !starts_with(a.0, bind_prefix()) && !first_is(a.0, ':') && a.0 != x_data_text() && !names.contains(a.0) ==> {
            &&& (a.1 matches Some(v) ==> attr_piece(a, scopes, names) == Some(
                seq![' '] + a.0 + seq!['=', '\''] + v + seq!['\''],
            ))
            &&& (a.1 is None ==> attr_piece(a, scopes, names) == Some(seq![' '] + a.0))
        },
        !starts_with(a.0, bind_prefix()) && !first_is(a.0, ':') && (a.0 == x_data_text() || names.contains(a.0))
            ==> attr_piece(a, scopes, names) == Some(Seq::<char>::empty()),
        first_is(a.0, ':') && !starts_with(a.0, bind_prefix()) ==> match a.1 {
            Some(v) => attr_piece(a, scopes, names) == if complex_string_faults(v) {
                None
            } else {
                Some(seq![' '] + a.0.skip(1) + seq!['=', '\''] + complex_string(v, scopes) + seq!['\''])
            },
            None => attr_piece(a, scopes, names) == Some(Seq::<char>::empty()),
        },
        starts_with(a.0, bind_prefix()) ==> match a.1 {
            Some(v) => attr_piece(a, scopes, names) == if complex_string_faults(v) {
                None
            } else {
                Some(seq![' '] + a.0.skip(7) + seq!['=', '\''] + complex_string(v, scopes) + seq!['\''])
            },
            None => attr_piece(a, scopes, names) == Some(Seq::<char>::empty()),
        },
{
}

/// For `x-text` too, a value without `.` names a field of the scopes, and
/// one with exactly one `.` a field (after it) of a namespace (before it).
pub proof fn lemma_variable_path_cases(x: Seq<char>, i: int)
    ensures
        !x.contains('.') ==> variable_path(x) == (None::<Seq<char>>, x),
        0 <= i < x.len() && x[i] == '.' && !x.take(i).contains('.') && !x.skip(i + 1).contains('.') ==> variable_path(x)
            == (Some(x.take(i)), x.skip(i + 1)),
{
    if !x.contains('.') {
        lemma_split_without(x, '.');
    }
    if 0 <= i < x.len() && x[i] == '.' && !x.take(i).contains('.') && !x.skip(i + 1).contains('.') {
        lemma_split_once(x, '.', i);
    }
}

} // verus!
