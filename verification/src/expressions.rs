//! Expression evaluation against a stack of JSON scopes: value tokens,
//! comparisons, truthiness and backtick template strings.
use vstd::prelude::*;
use crate::json::{
    bool_text, bool_text_exec, exact_int, f64_key_of, lemma_exact_order, false_text, float_special, float_syntax, float_token, int_num, json_eq, json_get, json_text,
    json_to_text, json_truthy, models, num_key, num_text, parse_float_token, true_text,
    entries_get, exponent_syntax, mantissa_syntax, unsigned, Json, JsonNumber, JsonValue, NumModel,
};
use crate::text::{
    chars_eq, chars_of, copy_range, find, find_chars, first_is, last_is, parse_i64,
    parse_i64_chars, push_all, split, split_chars, string_of, trim, trim_chars, lemma_split_nonempty,
    lemma_find_bounds, lemma_find_minimal, lemma_subrange_within,
    lemma_trim_within, lemma_split_without, lemma_split_once,
};

verus! {

/// The text `"item"`.
pub open spec fn item_text() -> Seq<char> {
    seq!['i', 't', 'e', 'm']
}

/// The text `"null"`.
pub open spec fn null_text() -> Seq<char> {
    seq!['n', 'u', 'l', 'l']
}

/// The text `"undefined"`.
pub open spec fn undefined_text() -> Seq<char> {
    seq!['u', 'n', 'd', 'e', 'f', 'i', 'n', 'e', 'd']
}

/// A dotted token split into an optional namespace and a field: two pieces
/// around a single `.` give both, anything else gives the first piece alone.
pub open spec fn token_path(t: Seq<char>) -> (Option<Seq<char>>, Seq<char>) {
    let parts = split(t, '.');
    if parts.len() == 2 {
        (Some(parts[0]), parts[1])
    } else {
        (None, parts[0])
    }
}

/// What `resolve_value` finds in one scope: `ns.field` when `ns` names an
/// object; else, for the namespace `item`, `field` of the scope itself.
pub open spec fn scope_value(scope: Json, ns: Option<Seq<char>>, field: Seq<char>) -> Option<Json> {
    match ns {
        Some(n) => match json_get(scope, n) {
            Some(Json::Object(es)) => entries_get(es, field),
            _ => if scope is Object && json_get(scope, field) is Some && n == item_text() {
                json_get(scope, field)
            } else {
                None
            },
        },
        None => json_get(scope, field),
    }
}

/// The first scope value found, searching from the innermost (last) scope.
pub open spec fn lookup(scopes: Seq<Json>, ns: Option<Seq<char>>, field: Seq<char>) -> Option<Json>
    decreases scopes.len(),
{
    if scopes.len() == 0 {
        None
    } else {
        match scope_value(scopes.last(), ns, field) {
            Some(v) => Some(v),
            None => lookup(scopes.drop_last(), ns, field),
        }
    }
}

/// Whether `resolve_value` panics on the token: a lone `'` slices past
/// itself.
pub open spec fn token_faults(token: Seq<char>) -> bool {
    trim(token) == seq!['\'']
}

/// The value a token stands for: a quoted string, an `i64`, an `f64`
/// (`null` for `inf`, `infinity`, `nan` and other values that are not
/// finite), `true`, `false`, `null`, or a scope lookup
/// (`null` when nothing is found).
pub open spec fn resolve_value_spec(token: Seq<char>, scopes: Seq<Json>) -> Json {
    let t = trim(token);
    if first_is(t, '\'') && last_is(t, '\'') {
        Json::Str(t.subrange(1, t.len() - 1))
    } else if parse_i64(t) is Some {
        Json::Number(int_num(parse_i64(t)->0))
    } else if float_special(t) {
        Json::Null
    } else if float_syntax(t) {
        match float_token(t)->0 {
            Some(n) => Json::Number(n),
            None => Json::Null,
        }
    } else if t == true_text() {
        Json::Bool(true)
    } else if t == false_text() {
        Json::Bool(false)
    } else if t == null_text() {
        Json::Null
    } else {
        let (ns, field) = token_path(t);
        match lookup(scopes, ns, field) {
            Some(v) => v,
            None => Json::Null,
        }
    }
}

/// Model of an optional namespace.
pub open spec fn opt_chars(o: Option<Vec<char>>) -> Option<Seq<char>> {
    match o {
        Some(v) => Some(v@),
        None => None,
    }
}

fn item_chars() -> (r: Vec<char>)
    ensures
        r@ == item_text(),
{
    let r = vec!['i', 't', 'e', 'm'];
    assert(r@ =~= item_text());
    r
}

fn scope_value_exec<'a>(scope: &'a JsonValue, ns: &Option<Vec<char>>, field: &[char]) -> (r: Option<&'a JsonValue>)
    ensures
        r matches Some(x) ==> scope_value(scope@, opt_chars(*ns), field@) == Some(x@),
        r is None ==> scope_value(scope@, opt_chars(*ns), field@) is None,
{
    match ns {
        Some(n) => {
            match scope.get(n.as_slice()) {
                Some(inner) => {
                    if inner.is_object() {
                        return inner.get(field);
                    }
                },
                None => {},
            }
            let item = item_chars();
            if scope.is_object() && scope.get(field).is_some() && chars_eq(n.as_slice(), item.as_slice()) {
                scope.get(field)
            } else {
                None
            }
        },
        None => scope.get(field),
    }
}

fn lookup_exec<'a>(scopes: &'a [JsonValue], ns: &Option<Vec<char>>, field: &[char]) -> (r: Option<&'a JsonValue>)
    ensures
        r matches Some(x) ==> lookup(models(scopes@), opt_chars(*ns), field@) == Some(x@),
        r is None ==> lookup(models(scopes@), opt_chars(*ns), field@) is None,
{
    let ghost ms = models(scopes@);
    let mut i: usize = scopes.len();
    assert(ms.take(i as int) =~= ms);
    while i > 0
        invariant
            i <= scopes@.len(),
            ms == models(scopes@),
            lookup(ms, opt_chars(*ns), field@) == lookup(ms.take(i as int), opt_chars(*ns), field@),
        decreases i,
    {
        let ghost pre = ms.take(i as int);
        assert(pre.last() == scopes@[i - 1]@);
        assert(pre.drop_last() =~= ms.take(i - 1));
        match scope_value_exec(&scopes[i - 1], ns, field) {
            Some(v) => {
                return Some(v);
            },
            None => {},
        }
        i = i - 1;
    }
    None
}

fn text_vec(cs: &[char]) -> (r: Vec<char>)
    ensures
        r@ == cs@,
{
    copy_range(cs, 0, cs.len())
}

/// The value a token stands for, on characters.
pub fn resolve_chars(token: &[char], scopes: &[JsonValue]) -> (r: JsonValue)
    requires
        !token_faults(token@),
    ensures
        r@ == resolve_value_spec(token@, models(scopes@)),
{
    let t = trim_chars(token);
    let n = t.len();
    if n > 0 && t[0] == '\'' && t[n - 1] == '\'' {
        if n == 1 {
            assert(t@ =~= seq!['\'']);
        }
        let inner = copy_range(t.as_slice(), 1, n - 1);
        return JsonValue::String(string_of(inner.as_slice()));
    }
    match parse_i64_chars(t.as_slice()) {
        Some(i) => {
            return JsonValue::Number(JsonNumber::from_i64(i));
        },
        None => {},
    }
    let ts = string_of(t.as_slice());
    match parse_float_token(ts.as_str()) {
        Some(Some(num)) => {
            return JsonValue::Number(num);
        },
        Some(None) => {
            return JsonValue::Null;
        },
        None => {},
    }
    let tr = vec!['t', 'r', 'u', 'e'];
    let fa = vec!['f', 'a', 'l', 's', 'e'];
    let nu = vec!['n', 'u', 'l', 'l'];
    assert(tr@ =~= true_text());
    assert(fa@ =~= false_text());
    assert(nu@ =~= null_text());
    if chars_eq(t.as_slice(), tr.as_slice()) {
        return JsonValue::Bool(true);
    }
    if chars_eq(t.as_slice(), fa.as_slice()) {
        return JsonValue::Bool(false);
    }
    if chars_eq(t.as_slice(), nu.as_slice()) {
        return JsonValue::Null;
    }
    let parts = split_chars(t.as_slice(), '.');
    proof {
        lemma_split_nonempty(t@, '.');
    }
    let ns: Option<Vec<char>>;
    let field: Vec<char>;
    if parts.len() == 2 {
        ns = Some(text_vec(parts[0].as_slice()));
        field = text_vec(parts[1].as_slice());
    } else {
        ns = None;
        field = text_vec(parts[0].as_slice());
    }
    match lookup_exec(scopes, &ns, field.as_slice()) {
        Some(v) => v.copy(),
        None => JsonValue::Null,
    }
}

/// Resolves a value token (a quoted string, a number, `true`, `false`,
/// `null`, or a `name` / `namespace.name` path into the scopes) against the
/// scope stack.
pub fn resolve_value(token: &str, scope_stack: &[JsonValue]) -> (r: JsonValue)
    requires
        !token_faults(token@),
    ensures
        r@ == resolve_value_spec(token@, models(scope_stack@)),
{
    let t = chars_of(token);
    resolve_chars(t.as_slice(), scope_stack)
}


// ---------------------------------------------------------------------------
// Conditions

/// The comparison operators, in the order they are looked for.
pub open spec fn operator(k: int) -> Seq<char> {
    if k == 0 {
        seq!['=', '=', '=']
    } else if k == 1 {
        seq!['!', '=', '=']
    } else if k == 2 {
        seq!['=', '=']
    } else if k == 3 {
        seq!['!', '=']
    } else if k == 4 {
        seq!['<', '=']
    } else if k == 5 {
        seq!['>', '=']
    } else if k == 6 {
        seq!['<']
    } else {
        seq!['>']
    }
}

/// The first operator, from the `k`-th on, that occurs in `e`, with the
/// position of its first occurrence.
pub open spec fn first_operator(e: Seq<char>, k: int) -> Option<(int, int)>
    decreases 8 - k,
{
    if k < 0 || k >= 8 {
        None
    } else {
        match find(e, operator(k)) {
            Some(p) => Some((k, p)),
            None => first_operator(e, k + 1),
        }
    }
}

/// The trimmed text left and right of the operator.
pub open spec fn operands(e: Seq<char>, k: int, p: int) -> (Seq<char>, Seq<char>) {
    (trim(e.take(p)), trim(e.skip(p + operator(k).len())))
}

/// `<=`, `>=`, `<`, `>` on positions in the `f64` order.
pub open spec fn compare_keys(k: int, a: int, b: int) -> bool {
    if k == 4 {
        a <= b
    } else if k == 5 {
        a >= b
    } else if k == 6 {
        a < b
    } else {
        a > b
    }
}

/// The outcome of the `k`-th operator: `===`/`==` compare values, `!==`/`!=`
/// negate that, and the orderings compare two numbers as `f64`: integers
/// that `f64` holds exactly by their value (anything else compares false).
pub open spec fn apply_operator(k: int, l: Json, r: Json) -> bool {
    if k == 0 || k == 2 {
        json_eq(l, r)
    } else if k == 1 || k == 3 {
        !json_eq(l, r)
    } else {
        match (l, r) {
            (Json::Number(a), Json::Number(b)) => if exact_int(a) is Some && exact_int(b) is Some {
                compare_keys(k, exact_int(a)->0, exact_int(b)->0)
            } else {
                compare_keys(k, num_key(a), num_key(b))
            },
            _ => false,
        }
    }
}

/// What `evaluate_expression` answers: `!x` negates the truthiness of `x`;
/// `a op b` applies the first operator found; anything else is the
/// truthiness of the value.
pub open spec fn eval_expr(expr: Seq<char>, scopes: Seq<Json>) -> bool {
    let e = trim(expr);
    if first_is(e, '!') {
        !json_truthy(resolve_value_spec(e.drop_first(), scopes))
    } else {
        match first_operator(e, 0) {
            Some((k, p)) => apply_operator(
                k,
                resolve_value_spec(operands(e, k, p).0, scopes),
                resolve_value_spec(operands(e, k, p).1, scopes),
            ),
            None => json_truthy(resolve_value_spec(e, scopes)),
        }
    }
}

/// Whether `evaluate_expression` panics on the expression: a token it
/// resolves is a lone `'`.
pub open spec fn expr_faults(expr: Seq<char>) -> bool {
    let e = trim(expr);
    if first_is(e, '!') {
        token_faults(e.drop_first())
    } else {
        match first_operator(e, 0) {
            Some((k, p)) => token_faults(operands(e, k, p).0) || token_faults(operands(e, k, p).1),
            None => token_faults(e),
        }
    }
}

fn operator_chars(k: usize) -> (r: Vec<char>)
    requires
        k < 8,
    ensures
        r@ == operator(k as int),
{
    let r = if k == 0 {
        vec!['=', '=', '=']
    } else if k == 1 {
        vec!['!', '=', '=']
    } else if k == 2 {
        vec!['=', '=']
    } else if k == 3 {
        vec!['!', '=']
    } else if k == 4 {
        vec!['<', '=']
    } else if k == 5 {
        vec!['>', '=']
    } else if k == 6 {
        vec!['<']
    } else {
        vec!['>']
    };
    assert(r@ =~= operator(k as int));
    r
}

fn first_operator_exec(e: &[char]) -> (r: Option<(usize, usize)>)
    ensures
        r matches Some((k, p)) ==> first_operator(e@, 0) == Some((k as int, p as int)) && k < 8
            && p + operator(k as int).len() <= e@.len(),
        r is None ==> first_operator(e@, 0) is None,
{
    let mut k: usize = 0;
    while k < 8
        invariant
            k <= 8,
            first_operator(e@, 0) == first_operator(e@, k as int),
        decreases 8 - k,
    {
        let op = operator_chars(k);
        match find_chars(e, op.as_slice()) {
            Some(p) => {
                proof {
                    lemma_find_bounds(e@, op@);
                }
                return Some((k, p));
            },
            None => {},
        }
        k = k + 1;
    }
    None
}

/// The parts of `e` around the `k`-th operator at `p`, trimmed.
fn operand_chars(e: &[char], k: usize, p: usize) -> (r: (Vec<char>, Vec<char>))
    requires
        k < 8,
        p + operator(k as int).len() <= e@.len(),
    ensures
        r.0@ == operands(e@, k as int, p as int).0,
        r.1@ == operands(e@, k as int, p as int).1,
{
    let op = operator_chars(k);
    let left = copy_range(e, 0, p);
    assert(p + op@.len() <= e.len());
    let right = copy_range(e, p + op.len(), e.len());
    assert(left@ =~= e@.take(p as int));
    assert(right@ =~= e@.skip(p + op@.len()));
    (trim_chars(left.as_slice()), trim_chars(right.as_slice()))
}

/// Whether the expression would make `evaluate_expression` panic.
pub fn expr_faults_exec(expr: &[char]) -> (r: bool)
    ensures
        r == expr_faults(expr@),
{
    let e = trim_chars(expr);
    if e.len() > 0 && e[0] == '!' {
        let rest = copy_range(e.as_slice(), 1, e.len());
        assert(rest@ =~= e@.drop_first());
        return token_faults_exec(rest.as_slice());
    }
    match first_operator_exec(e.as_slice()) {
        Some((k, p)) => {
            let (l, r) = operand_chars(e.as_slice(), k, p);
            token_faults_exec(l.as_slice()) || token_faults_exec(r.as_slice())
        },
        None => token_faults_exec(e.as_slice()),
    }
}

/// Whether resolving the token would panic.
pub fn token_faults_exec(token: &[char]) -> (r: bool)
    ensures
        r == token_faults(token@),
{
    let t = trim_chars(token);
    let q = vec!['\''];
    assert(q@ =~= seq!['\'']);
    chars_eq(t.as_slice(), q.as_slice())
}

fn evaluate_truthiness(expr: &[char], scopes: &[JsonValue]) -> (r: bool)
    requires
        !token_faults(expr@),
    ensures
        r == json_truthy(resolve_value_spec(expr@, models(scopes@))),
{
    resolve_chars(expr, scopes).truthy()
}

fn compare_numbers(k: usize, left: &JsonValue, right: &JsonValue) -> (r: bool)
    requires
        4 <= k < 8,
    ensures
        r == apply_operator(k as int, left@, right@),
{
    match (left, right) {
        (JsonValue::Number(a), JsonValue::Number(b)) => {
            let x = f64_key_of(a.f64_bits());
            let y = f64_key_of(b.f64_bits());
            proof {
                if exact_int(a@) is Some && exact_int(b@) is Some {
                    lemma_exact_order(a@, b@);
                }
            }
            if k == 4 {
                x <= y
            } else if k == 5 {
                x >= y
            } else if k == 6 {
                x < y
            } else {
                x > y
            }
        },
        _ => false,
    }
}

/// `evaluate_expression` on characters.
pub fn evaluate_chars(expr: &[char], scopes: &[JsonValue]) -> (r: bool)
    requires
        !expr_faults(expr@),
    ensures
        r == eval_expr(expr@, models(scopes@)),
{
    let e = trim_chars(expr);
    if e.len() > 0 && e[0] == '!' {
        let rest = copy_range(e.as_slice(), 1, e.len());
        assert(rest@ =~= e@.drop_first());
        return !evaluate_truthiness(rest.as_slice(), scopes);
    }
    match first_operator_exec(e.as_slice()) {
        Some((k, p)) => {
            let (l, r) = operand_chars(e.as_slice(), k, p);
            let lv = resolve_chars(l.as_slice(), scopes);
            let rv = resolve_chars(r.as_slice(), scopes);
            if k == 0 || k == 2 {
                lv.eq_value(&rv)
            } else if k == 1 || k == 3 {
                !lv.eq_value(&rv)
            } else {
                compare_numbers(k, &lv, &rv)
            }
        },
        None => evaluate_truthiness(e.as_slice(), scopes),
    }
}

/// Evaluates a condition such as `item.id === 202`, `count > 3`, `!done` or
/// `visible` against the scope stack.
pub fn evaluate_expression(expr: &str, scope_stack: &[JsonValue]) -> (r: bool)
    requires
        !expr_faults(expr@),
    ensures
        r == eval_expr(expr@, models(scope_stack@)),
{
    let e = chars_of(expr);
    evaluate_chars(e.as_slice(), scope_stack)
}


// ---------------------------------------------------------------------------
// Template strings

/// The text `"${"`.
pub open spec fn open_marker() -> Seq<char> {
    seq!['$', '{']
}

/// The text `"}"`.
pub open spec fn close_marker() -> Seq<char> {
    seq!['}']
}

/// How a resolved value is spliced into a template string: strings as they
/// are, numbers and booleans as printed, anything else as nothing.
pub open spec fn template_piece(v: Json) -> Seq<char> {
    match v {
        Json::Str(s) => s,
        Json::Number(n) => num_text(n),
        Json::Bool(b) => bool_text(b),
        _ => Seq::empty(),
    }
}

/// Where the markers of a template token lie.
pub proof fn lemma_marker_positions(rest: Seq<char>)
    ensures
        find(rest, open_marker()) matches Some(s) ==> {
            &&& 0 <= s
            &&& s + 2 <= rest.len()
            &&& (find(rest.skip(s), close_marker()) matches Some(e) ==> 2 <= e && s + e + 1 <= rest.len())
        },
{
    lemma_find_bounds(rest, open_marker());
    if let Some(s) = find(rest, open_marker()) {
        let t = rest.skip(s);
        lemma_find_bounds(t, close_marker());
        lemma_find_minimal(t, close_marker());
        assert(t.subrange(0, 2) == open_marker());
        assert(t[0] == '$' && t[1] == '{');
        if let Some(e) = find(t, close_marker()) {
            assert(t.subrange(e, e + 1)[0] == '}');
            assert(t[e] == '}');
        }
    }
}

/// The text a template body gives: each `${ token }` replaced by its value;
/// when a `${` has no closing `}`, the text before it is written and then
/// the rest from the start of that text again.
pub open spec fn render_template(rest: Seq<char>, scopes: Seq<Json>) -> Seq<char>
    decreases rest.len(),
{
    match find(rest, open_marker()) {
        None => rest,
        Some(s) => match find(rest.skip(s), close_marker()) {
            None => rest.take(s) + rest,
            Some(e) => {
                proof {
                    lemma_marker_positions(rest);
                }
                rest.take(s) + template_piece(
                    resolve_value_spec(trim(rest.subrange(s + 2, s + e)), scopes),
                ) + render_template(rest.skip(s + e + 1), scopes)
            },
        },
    }
}

/// Whether rendering a template body panics: a token inside `${ }` is a
/// lone `'`.
pub open spec fn template_faults(rest: Seq<char>) -> bool
    decreases rest.len(),
{
    match find(rest, open_marker()) {
        None => false,
        Some(s) => match find(rest.skip(s), close_marker()) {
            None => false,
            Some(e) => {
                proof {
                    lemma_marker_positions(rest);
                }
                token_faults(trim(rest.subrange(s + 2, s + e))) || template_faults(
                    rest.skip(s + e + 1),
                )
            },
        },
    }
}

/// How a resolved value is written outside a template: strings as they are,
/// numbers and booleans as printed, `null` as `undefined`, arrays and
/// objects as JSON.
pub open spec fn display_value(v: Json) -> Seq<char> {
    match v {
        Json::Str(s) => s,
        Json::Number(n) => num_text(n),
        Json::Bool(b) => bool_text(b),
        Json::Null => undefined_text(),
        _ => json_text(v),
    }
}

/// What `evaluate_complex_string` gives: a backtick template rendered, or
/// the value of a token written out.
pub open spec fn complex_string(expr: Seq<char>, scopes: Seq<Json>) -> Seq<char> {
    let e = trim(expr);
    if first_is(e, '`') && last_is(e, '`') {
        render_template(e.subrange(1, e.len() - 1), scopes)
    } else {
        display_value(resolve_value_spec(e, scopes))
    }
}

/// Whether `evaluate_complex_string` panics: a lone backtick, or a token
/// that is a lone `'`.
pub open spec fn complex_string_faults(expr: Seq<char>) -> bool {
    let e = trim(expr);
    if first_is(e, '`') && last_is(e, '`') {
        e.len() < 2 || template_faults(e.subrange(1, e.len() - 1))
    } else {
        token_faults(e)
    }
}


// ---------------------------------------------------------------------------
// Where panics come from

/// An operator found lies inside the expression.
proof fn lemma_first_operator_bounds(e: Seq<char>, k: int)
    ensures
        first_operator(e, k) matches Some((kk, p)) ==> 0 <= kk < 8 && 0 <= p && p + operator(kk).len()
            <= e.len(),
    decreases 8 - k,
{
    if !(k < 0 || k >= 8) {
        lemma_find_bounds(e, operator(k));
        if find(e, operator(k)) is None {
            lemma_first_operator_bounds(e, k + 1);
        }
    }
}

/// A token that panics holds a `'`.
pub proof fn lemma_token_faults_quote(t: Seq<char>)
    ensures
        token_faults(t) ==> t.contains('\''),
{
    if token_faults(t) {
        assert(trim(t)[0] == '\'');
        lemma_trim_within(t, '\'');
    }
}

/// A condition that panics holds a `'`.
pub proof fn lemma_expr_faults_quote(expr: Seq<char>)
    ensures
        expr_faults(expr) ==> expr.contains('\''),
{
    let e = trim(expr);
    lemma_trim_within(expr, '\'');
    if first_is(e, '!') {
        lemma_token_faults_quote(e.drop_first());
        if e.drop_first().contains('\'') {
            lemma_subrange_within(e, 1, e.len() as int, '\'');
        }
    } else {
        lemma_first_operator_bounds(e, 0);
        match first_operator(e, 0) {
            Some((k, p)) => {
                let q = p + operator(k).len();
                lemma_token_faults_quote(operands(e, k, p).0);
                lemma_token_faults_quote(operands(e, k, p).1);
                lemma_trim_within(e.take(p), '\'');
                lemma_trim_within(e.skip(q), '\'');
                assert(e.take(p) =~= e.subrange(0, p));
                assert(e.skip(q) =~= e.subrange(q, e.len() as int));
                if e.take(p).contains('\'') {
                    lemma_subrange_within(e, 0, p, '\'');
                }
                if e.skip(q).contains('\'') {
                    lemma_subrange_within(e, q, e.len() as int, '\'');
                }
            },
            None => {
                lemma_token_faults_quote(e);
            },
        }
    }
}

/// A template body that panics holds a `'`.
proof fn lemma_template_faults_quote(rest: Seq<char>)
    ensures
        template_faults(rest) ==> rest.contains('\''),
    decreases rest.len(),
{
    lemma_marker_positions(rest);
    if let Some(s) = find(rest, open_marker()) {
        if let Some(e) = find(rest.skip(s), close_marker()) {
            let tok = rest.subrange(s + 2, s + e);
            lemma_token_faults_quote(trim(tok));
            lemma_trim_within(tok, '\'');
            if tok.contains('\'') {
                lemma_subrange_within(rest, s + 2, s + e, '\'');
            }
            let tail = rest.skip(s + e + 1);
            lemma_template_faults_quote(tail);
            assert(tail =~= rest.subrange(s + e + 1, rest.len() as int));
            if tail.contains('\'') {
                lemma_subrange_within(rest, s + e + 1, rest.len() as int, '\'');
            }
        }
    }
}

/// A value whose evaluation panics holds a `'` or a backtick.
pub proof fn lemma_complex_string_faults_quote(expr: Seq<char>)
    ensures
        complex_string_faults(expr) ==> expr.contains('\'') || expr.contains('`'),
{
    let e = trim(expr);
    lemma_trim_within(expr, '\'');
    lemma_trim_within(expr, '`');
    if first_is(e, '`') && last_is(e, '`') {
        assert(e[0] == '`');
        if e.len() >= 2 {
            let body = e.subrange(1, e.len() - 1);
            lemma_template_faults_quote(body);
            if body.contains('\'') {
                lemma_subrange_within(e, 1, e.len() - 1, '\'');
            }
        }
    } else {
        lemma_token_faults_quote(e);
    }
}

fn template_piece_exec(v: &JsonValue) -> (r: Vec<char>)
    ensures
        r@ == template_piece(v@),
{
    match v {
        JsonValue::String(s) => chars_of(s.as_str()),
        JsonValue::Number(n) => n.text(),
        JsonValue::Bool(b) => bool_text_exec(*b),
        _ => Vec::new(),
    }
}

fn display_value_exec(v: &JsonValue) -> (r: Vec<char>)
    ensures
        r@ == display_value(v@),
{
    match v {
        JsonValue::String(s) => chars_of(s.as_str()),
        JsonValue::Number(n) => n.text(),
        JsonValue::Bool(b) => bool_text_exec(*b),
        JsonValue::Null => {
            let r = vec!['u', 'n', 'd', 'e', 'f', 'i', 'n', 'e', 'd'];
            assert(r@ =~= undefined_text());
            r
        },
        _ => {
            let t = json_to_text(v);
            chars_of(t.as_str())
        },
    }
}

/// The markers `${` and `}` as vectors.
fn markers() -> (r: (Vec<char>, Vec<char>))
    ensures
        r.0@ == open_marker(),
        r.1@ == close_marker(),
{
    let a = vec!['$', '{'];
    let b = vec!['}'];
    assert(a@ =~= open_marker());
    assert(b@ =~= close_marker());
    (a, b)
}

/// Renders a template body; `None` when a token would fault.
fn render_template_exec(content: &[char], scopes: &[JsonValue]) -> (r: Option<Vec<char>>)
    ensures
        r is None <==> template_faults(content@),
        r matches Some(out) ==> out@ == render_template(content@, models(scopes@)),
{
    let (om, cm) = markers();
    let ghost ms = models(scopes@);
    let mut out: Vec<char> = Vec::new();
    let mut pos: usize = 0;
    assert(content@.skip(0) =~= content@);
    loop
        invariant
            pos <= content@.len(),
            om@ == open_marker(),
            cm@ == close_marker(),
            ms == models(scopes@),
            render_template(content@, ms) == out@ + render_template(content@.skip(pos as int), ms),
            template_faults(content@) == template_faults(content@.skip(pos as int)),
        decreases content@.len() - pos,
    {
        let rest = copy_range(content, pos, content.len());
        assert(rest@ == content@.skip(pos as int));
        proof {
            lemma_marker_positions(rest@);
        }
        match find_chars(rest.as_slice(), om.as_slice()) {
            None => {
                push_all(&mut out, rest.as_slice());
                return Some(out);
            },
            Some(s) => {
                let tail = copy_range(rest.as_slice(), s, rest.len());
                assert(tail@ =~= rest@.skip(s as int));
                match find_chars(tail.as_slice(), cm.as_slice()) {
                    None => {
                        let head = copy_range(rest.as_slice(), 0, s);
                        assert(head@ =~= rest@.take(s as int));
                        push_all(&mut out, head.as_slice());
                        push_all(&mut out, rest.as_slice());
                        assert(out@ =~= render_template(content@, ms));
                        return Some(out);
                    },
                    Some(e) => {
                        let head = copy_range(rest.as_slice(), 0, s);
                        assert(head@ =~= rest@.take(s as int));
                        let raw_tok = copy_range(rest.as_slice(), s + 2, s + e);
                        let tok = trim_chars(raw_tok.as_slice());
                        if token_faults_exec(tok.as_slice()) {
                            return None;
                        }
                        let v = resolve_chars(tok.as_slice(), scopes);
                        let piece = template_piece_exec(&v);
                        push_all(&mut out, head.as_slice());
                        push_all(&mut out, piece.as_slice());
                        let ghost old_pos = pos;
                        pos = pos + s + e + 1;
                        assert(rest@.skip(s + e + 1) =~= content@.skip(pos as int));
                        assert(out@ + render_template(content@.skip(pos as int), ms) =~= render_template(
                            content@,
                            ms,
                        ));
                    },
                }
            },
        }
    }
}

/// `evaluate_complex_string` on characters; `None` where it would panic.
pub fn complex_string_chars(expr: &[char], scopes: &[JsonValue]) -> (r: Option<Vec<char>>)
    ensures
        r is None <==> complex_string_faults(expr@),
        r matches Some(out) ==> out@ == complex_string(expr@, models(scopes@)),
{
    let e = trim_chars(expr);
    let n = e.len();
    if n > 0 && e[0] == '`' && e[n - 1] == '`' {
        if n < 2 {
            return None;
        }
        let content = copy_range(e.as_slice(), 1, n - 1);
        return render_template_exec(content.as_slice(), scopes);
    }
    if token_faults_exec(e.as_slice()) {
        return None;
    }
    let v = resolve_chars(e.as_slice(), scopes);
    Some(display_value_exec(&v))
}

/// Evaluates an attribute expression to text: a backtick template such as
/// `` `color: ${item.hex};` `` with each `${ }` filled in, or a single token
/// written out (`undefined` for `null`).
pub fn evaluate_complex_string(expr: &str, scope_stack: &[JsonValue]) -> (r: String)
    requires
        !complex_string_faults(expr@),
    ensures
        r@ == complex_string(expr@, models(scope_stack@)),
{
    let e = chars_of(expr);
    match complex_string_chars(e.as_slice(), scope_stack) {
        Some(out) => string_of(out.as_slice()),
        None => String::new(),
    }
}

// ---------------------------------------------------------------------------
// Laws of lookups and comparisons

/// The innermost scope that holds a name answers for it; where it does not
/// hold it, the scopes below answer.
pub proof fn lemma_inner_scope_wins(scopes: Seq<Json>, inner: Json, ns: Option<Seq<char>>, field: Seq<char>)
    ensures
        lookup(scopes.push(inner), ns, field) == match scope_value(inner, ns, field) {
            Some(v) => Some(v),
            None => lookup(scopes, ns, field),
        },
{
    assert(scopes.push(inner).last() == inner);
    assert(scopes.push(inner).drop_last() =~= scopes);
}

/// Values compare equal to themselves (`==` in a condition).
pub proof fn lemma_json_eq_reflexive(a: Json)
    ensures
        json_eq(a, a),
    decreases a,
{
    match a {
        Json::Array(x) => {
            assert forall|i: int| 0 <= i < x.len() implies json_eq(x[i], #[trigger] x[i]) by {
                lemma_json_eq_reflexive(x[i]);
            }
        },
        Json::Object(x) => {
            assert forall|i: int| 0 <= i < x.len() implies x[i].0 == (#[trigger] x[i]).0 && json_eq(
                x[i].1,
                x[i].1,
            ) by {
                assert(decreases_to!(a => x));
                assert(decreases_to!(x => x[i]));
                assert(decreases_to!(x[i] => x[i].1));
                lemma_json_eq_reflexive(x[i].1);
            }
        },
        _ => {},
    }
}

/// Comparing values is symmetric: `a == b` exactly when `b == a`.
pub proof fn lemma_json_eq_symmetric(a: Json, b: Json)
    ensures
        json_eq(a, b) == json_eq(b, a),
    decreases a,
{
    match (a, b) {
        (Json::Array(x), Json::Array(y)) => {
            if x.len() == y.len() {
                assert forall|i: int| 0 <= i < x.len() implies json_eq(x[i], y[i]) == json_eq(y[i], x[i]) by {
                    lemma_json_eq_symmetric(x[i], y[i]);
                }
                assert(json_eq(a, b) == (forall|i: int| 0 <= i < x.len() ==> json_eq(x[i], #[trigger] y[i])));
                assert(json_eq(b, a) == (forall|i: int| 0 <= i < y.len() ==> json_eq(y[i], #[trigger] x[i])));
            }
        },
        (Json::Object(x), Json::Object(y)) => {
            if x.len() == y.len() {
                assert forall|i: int| 0 <= i < x.len() implies json_eq(x[i].1, y[i].1) == json_eq(
                    y[i].1,
                    x[i].1,
                ) by {
                    assert(decreases_to!(a => x));
                    assert(decreases_to!(x => x[i]));
                    assert(decreases_to!(x[i] => x[i].1));
                    lemma_json_eq_symmetric(x[i].1, y[i].1);
                }
                assert(json_eq(a, b) == (forall|i: int|
                    0 <= i < x.len() ==> x[i].0 == (#[trigger] y[i]).0 && json_eq(x[i].1, y[i].1)));
                assert(json_eq(b, a) == (forall|i: int|
                    0 <= i < y.len() ==> y[i].0 == (#[trigger] x[i]).0 && json_eq(y[i].1, x[i].1)));
            }
        },
        _ => {},
    }
}

/// `!=` and `!==` answer the opposite of `==` and `===` (which agree); on
/// two numbers `<` answers the opposite of `>=` and `>` the opposite of
/// `<=`; `<` never holds both ways; and on integers of magnitude up to 2^53
/// `<` is the order of the integers.
pub proof fn lemma_comparison_laws(l: Json, r: Json)
    ensures
        apply_operator(0, l, r) == apply_operator(2, l, r),
        apply_operator(1, l, r) == !apply_operator(0, l, r),
        apply_operator(3, l, r) == !apply_operator(2, l, r),
        (l is Number && r is Number) ==> apply_operator(6, l, r) == !apply_operator(5, l, r),
        (l is Number && r is Number) ==> apply_operator(7, l, r) == !apply_operator(4, l, r),
        apply_operator(6, l, r) ==> !apply_operator(6, r, l),
        (exact_int(l->Number_0) is Some && exact_int(r->Number_0) is Some && l is Number && r is Number)
            ==> apply_operator(6, l, r) == (exact_int(l->Number_0)->0 < exact_int(r->Number_0)->0),
{
}

/// A token outside a template is written as it would be inside one: a
/// string as it is, a number as `Display` writes it, a boolean as `true` or
/// `false`; `null` (nothing found) as `undefined`.
pub proof fn lemma_token_written_out(expr: Seq<char>, scopes: Seq<Json>)
    requires
        !(first_is(trim(expr), '`') && last_is(trim(expr), '`')),
    ensures
        ({
            let v = resolve_value_spec(trim(expr), scopes);
            &&& (v matches Json::Str(s) ==> complex_string(expr, scopes) == s)
            &&& (v matches Json::Number(n) ==> complex_string(expr, scopes) == num_text(n))
            &&& (v matches Json::Bool(b) ==> complex_string(expr, scopes) == bool_text(b))
            &&& (v is Null ==> complex_string(expr, scopes) == undefined_text())
            &&& (v is Str || v is Number || v is Bool ==> complex_string(expr, scopes) == template_piece(v))
        }),
{
}

/// On two numbers the orderings follow the order of their `f64` values,
/// floats included: `<`, `>`, `<=`, `>=` answer as the positions of the
/// values (`num_key`) compare, and for integers that `f64` holds exactly, as
/// the integers compare.
pub proof fn lemma_orderings_follow_values(a: NumModel, b: NumModel)
    ensures
        !(exact_int(a) is Some && exact_int(b) is Some) ==> {
            &&& apply_operator(6, Json::Number(a), Json::Number(b)) == (num_key(a) < num_key(b))
            &&& apply_operator(7, Json::Number(a), Json::Number(b)) == (num_key(a) > num_key(b))
            &&& apply_operator(4, Json::Number(a), Json::Number(b)) == (num_key(a) <= num_key(b))
            &&& apply_operator(5, Json::Number(a), Json::Number(b)) == (num_key(a) >= num_key(b))
        },
        exact_int(a) is Some && exact_int(b) is Some ==> {
            let (x, y) = (exact_int(a)->0, exact_int(b)->0);
            &&& apply_operator(6, Json::Number(a), Json::Number(b)) == (x < y)
            &&& apply_operator(7, Json::Number(a), Json::Number(b)) == (x > y)
            &&& apply_operator(4, Json::Number(a), Json::Number(b)) == (x <= y)
            &&& apply_operator(5, Json::Number(a), Json::Number(b)) == (x >= y)
        },
{
}

/// Tokens that are literals stand for themselves: `'text'` for the string
/// between the quotes, an `i64` for that integer, `true`, `false` and
/// `null` for those values.
pub proof fn lemma_literal_tokens(token: Seq<char>, scopes: Seq<Json>)
    ensures
        ({
            let t = trim(token);
            &&& (first_is(t, '\'') && last_is(t, '\'') ==> resolve_value_spec(token, scopes) == Json::Str(
                t.subrange(1, t.len() - 1),
            ))
            &&& (!(first_is(t, '\'') && last_is(t, '\'')) && parse_i64(t) is Some ==> resolve_value_spec(
                token,
                scopes,
            ) == Json::Number(int_num(parse_i64(t)->0)))
        }),
        trim(token) == seq!['t', 'r', 'u', 'e'] ==> resolve_value_spec(token, scopes) == Json::Bool(true),
        trim(token) == seq!['f', 'a', 'l', 's', 'e'] ==> resolve_value_spec(token, scopes) == Json::Bool(false),
        trim(token) == seq!['n', 'u', 'l', 'l'] ==> resolve_value_spec(token, scopes) == Json::Null,
{
    let t = trim(token);
    if t == seq!['t', 'r', 'u', 'e'] || t == seq!['f', 'a', 'l', 's', 'e'] || t == seq!['n', 'u', 'l', 'l'] {
        assert(!first_is(t, '\''));
        assert(parse_i64(t) is None) by {
            assert(!crate::text::is_digit(t[0]));
            assert(!crate::text::all_digits(t));
        }
        assert(!float_special(t)) by {
            assert(unsigned(t) == t);
        }
        assert(!float_syntax(t)) by {
            assert(unsigned(t) == t);
            assert(!crate::text::is_digit(t[0]) && t[0] != '.');
            assert(!mantissa_syntax(t)) by {
                assert(!crate::text::all_digits(t));
                if t.len() >= 2 && exists|i: int|
                    0 <= i < t.len() && t[i] == '.' && crate::text::all_digits(t.take(i)) && crate::text::all_digits(
                        #[trigger] t.skip(i + 1),
                    ) {
                    let i = choose|i: int|
                        0 <= i < t.len() && t[i] == '.' && crate::text::all_digits(t.take(i)) && crate::text::all_digits(
                            #[trigger] t.skip(i + 1),
                        );
                    if i > 0 {
                        assert(t.take(i)[0] == t[0]);
                    }
                }
            }
            if exists|i: int|
                0 <= i < t.len() && (t[i] == 'e' || t[i] == 'E') && mantissa_syntax(t.take(i)) && exponent_syntax(
                    #[trigger] t.skip(i + 1),
                ) {
                let i = choose|i: int|
                    0 <= i < t.len() && (t[i] == 'e' || t[i] == 'E') && mantissa_syntax(t.take(i))
                        && exponent_syntax(#[trigger] t.skip(i + 1));
                let m = t.take(i);
                if m.len() > 0 {
                    assert(m[0] == t[0]);
                    assert(!crate::text::all_digits(m));
                    if m.len() >= 2 && exists|j: int|
                        0 <= j < m.len() && m[j] == '.' && crate::text::all_digits(m.take(j))
                            && crate::text::all_digits(#[trigger] m.skip(j + 1)) {
                        let j = choose|j: int|
                            0 <= j < m.len() && m[j] == '.' && crate::text::all_digits(m.take(j))
                                && crate::text::all_digits(#[trigger] m.skip(j + 1));
                        if j > 0 {
                            assert(m.take(j)[0] == m[0]);
                        }
                    }
                }
            }
        }
    }
}

/// A template without `${` writes its body as it is (and so does the
/// backtick string made of it).
pub proof fn lemma_template_without_markers(body: Seq<char>, scopes: Seq<Json>)
    requires
        find(body, open_marker()) is None,
    ensures
        render_template(body, scopes) == body,
        trim(seq!['`'] + body + seq!['`']) == seq!['`'] + body + seq!['`'] ==> complex_string(
            seq!['`'] + body + seq!['`'],
            scopes,
        ) == body,
{
    let e = seq!['`'] + body + seq!['`'];
    if trim(e) == e {
        assert(e.subrange(1, e.len() - 1) =~= body);
    }
}

/// Values other than strings, numbers and booleans: outside a template
/// `null` is written `undefined` and arrays and objects as JSON; inside a
/// template all three are written as nothing.
pub proof fn lemma_other_values_written(v: Json)
    ensures
        v is Null ==> display_value(v) == undefined_text() && template_piece(v) == Seq::<char>::empty(),
        (v is Array || v is Object) ==> display_value(v) == json_text(v) && template_piece(v) == Seq::<char>::empty(),
{
}

/// Where a scope finds a name: a plain name in the scope itself; `ns.name`
/// in the object the scope holds under `ns` (nothing more when that object
/// lacks it), else, for the namespace `item`, the name in the scope itself.
pub proof fn lemma_scope_value_cases(scope: Json, ns: Option<Seq<char>>, field: Seq<char>)
    ensures
        ns is None ==> scope_value(scope, ns, field) == json_get(scope, field),
        ns is Some && json_get(scope, ns->0) is Some && json_get(scope, ns->0)->0 is Object ==> scope_value(
            scope,
            ns,
            field,
        ) == entries_get(json_get(scope, ns->0)->0->Object_0, field),
        ns is Some && !(json_get(scope, ns->0) is Some && json_get(scope, ns->0)->0 is Object) ==> scope_value(
            scope,
            ns,
            field,
        ) == if scope is Object && json_get(scope, field) is Some && ns->0 == seq!['i', 't', 'e', 'm'] {
            json_get(scope, field)
        } else {
            None
        },
{
}

/// A condition starting with `!` is the negation of the truth of the token
/// after it; one with an operator compares the two trimmed sides with the
/// first operator found (`===` and `==` by equality, `!==` and `!=` by its
/// negation); any other is the truth of its token.
pub proof fn lemma_condition_cases(expr: Seq<char>, scopes: Seq<Json>)
    ensures
        ({
            let e = trim(expr);
            let op = first_operator(e, 0);
            let k = (op->0).0;
            let p = (op->0).1;
            let l = resolve_value_spec(trim(e.take(p)), scopes);
            let r = resolve_value_spec(trim(e.skip(p + operator(k).len())), scopes);
            &&& (first_is(e, '!') ==> eval_expr(expr, scopes) == !json_truthy(
                resolve_value_spec(e.drop_first(), scopes),
            ))
            &&& (!first_is(e, '!') && op is None ==> eval_expr(expr, scopes) == json_truthy(
                resolve_value_spec(e, scopes),
            ))
            &&& (!first_is(e, '!') && op is Some && (k == 0 || k == 2) ==> eval_expr(expr, scopes) == json_eq(l, r))
            &&& (!first_is(e, '!') && op is Some && (k == 1 || k == 3) ==> eval_expr(expr, scopes) == !json_eq(l, r))
            &&& (!first_is(e, '!') && op is Some && 4 <= k < 8 ==> eval_expr(expr, scopes) == apply_operator(k, l, r))
        }),
{
}

/// Equality compares values of the same kind only: no coercion between a
/// number, a string, a boolean and `null`; strings and booleans are equal
/// exactly when they are the same.
pub proof fn lemma_equality_kinds(a: Json, b: Json)
    ensures
        a is Str && b is Str ==> json_eq(a, b) == (a->Str_0 == b->Str_0),
        a is Bool && b is Bool ==> json_eq(a, b) == (a->Bool_0 == b->Bool_0),
        a is Number && !(b is Number) ==> !json_eq(a, b),
        a is Str && !(b is Str) ==> !json_eq(a, b),
        a is Null ==> json_eq(a, b) == (b is Null),
{
}

/// A token names a field of the scopes by itself when it holds no `.`, and
/// a field of a namespace when it holds exactly one: the text before the
/// `.` names the namespace, the text after it the field.
pub proof fn lemma_token_path_cases(t: Seq<char>, i: int)
    ensures
        !t.contains('.') ==> token_path(t) == (None::<Seq<char>>, t),
        0 <= i < t.len() && t[i] == '.' && !t.take(i).contains('.') && !t.skip(i + 1).contains('.') ==> token_path(t)
            == (Some(t.take(i)), t.skip(i + 1)),
{
    if !t.contains('.') {
        lemma_split_without(t, '.');
    }
    if 0 <= i < t.len() && t[i] == '.' && !t.take(i).contains('.') && !t.skip(i + 1).contains('.') {
        lemma_split_once(t, '.', i);
    }
}

} // verus!
