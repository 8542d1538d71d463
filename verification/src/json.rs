//! JSON values as the engine holds them, their mathematical model, and the
//! calls into `serde_json` that parse and print them.
use vstd::prelude::*;
use crate::text::{all_digits, chars_eq, chars_of, first_is, i64_text, int_text, nat_text, u64_text};

verus! {

#[verifier::external_type_specification]
#[verifier::external_body]
pub struct ExSerdeNumber(serde_json::Number);

#[verifier::external_type_specification]
#[verifier::external_body]
pub struct ExSerdeValue(serde_json::Value);

/// A JSON number that is not an integer, as `serde_json` holds it: the bits
/// of its (finite) `f64` value and the text `serde_json` prints for it.
#[derive(Debug)]
pub struct FloatNumber {
    bits: u64,
    text: String,
    raw: serde_json::Number,
}

impl FloatNumber {
    /// The `f64` bits and the printed text.
    pub closed spec fn parts(&self) -> (u64, Seq<char>) {
        (self.bits, self.text@)
    }
}

/// A JSON number: `PosInt` for integers at or above zero, `NegInt` for
/// integers below zero, `Float` otherwise, the way `serde_json` tells them apart.
#[derive(Debug)]
pub enum JsonNumber {
    PosInt(u64),
    NegInt(i64),
    Float(FloatNumber),
}

/// A JSON value. Object entries are in the order `serde_json` gives them
/// (by key, see `json_wf`).
#[derive(Debug)]
pub enum JsonValue {
    Null,
    Bool(bool),
    Number(JsonNumber),
    String(String),
    Array(Vec<JsonValue>),
    Object(Vec<(String, JsonValue)>),
}

/// Model of a JSON number: a float is its `f64` bits and its printed text.
pub enum NumModel {
    PosInt(u64),
    NegInt(i64),
    Float(u64, Seq<char>),
}

/// Model of a JSON value.
#[verifier::ext_equal]
pub enum Json {
    Null,
    Bool(bool),
    Number(NumModel),
    Str(Seq<char>),
    Array(Seq<Json>),
    Object(Seq<(Seq<char>, Json)>),
}

impl View for JsonNumber {
    type V = NumModel;

    open spec fn view(&self) -> NumModel {
        match self {
            JsonNumber::PosInt(u) => NumModel::PosInt(*u),
            JsonNumber::NegInt(i) => NumModel::NegInt(*i),
            JsonNumber::Float(f) => NumModel::Float(f.parts().0, f.parts().1),
        }
    }
}

impl JsonValue {
    /// The model of this value.
    pub open spec fn model(&self) -> Json
        decreases self,
    {
        match self {
            JsonValue::Null => Json::Null,
            JsonValue::Bool(b) => Json::Bool(*b),
            JsonValue::Number(n) => Json::Number(n@),
            JsonValue::String(s) => Json::Str(s@),
            JsonValue::Array(a) => Json::Array(
                Seq::new(a@.len(), |i: int| if 0 <= i < a@.len() { a@[i].model() } else { Json::Null }),
            ),
            JsonValue::Object(o) => Json::Object(
                Seq::new(
                    o@.len(),
                    |i: int|
                        if 0 <= i < o@.len() {
                            (o@[i].0@, o@[i].1.model())
                        } else {
                            (Seq::empty(), Json::Null)
                        },
                ),
            ),
        }
    }
}

impl View for JsonValue {
    type V = Json;

    open spec fn view(&self) -> Json {
        self.model()
    }
}

/// Models of a sequence of values.
pub open spec fn models(s: Seq<JsonValue>) -> Seq<Json> {
    Seq::new(s.len(), |i: int| s[i]@)
}

// ---------------------------------------------------------------------------
// Numbers

/// The bits of `u as f64` (what `serde_json::Number::as_f64` gives for a
/// non-negative integer).
pub uninterp spec fn u64_f64_bits(u: u64) -> u64;

/// The bits of `i as f64` (what `serde_json::Number::as_f64` gives for a
/// negative integer).
pub uninterp spec fn i64_f64_bits(i: i64) -> u64;

/// The position of a finite `f64` in the order of `<` on `f64`: its
/// magnitude bits, negated when the sign bit is set (so both zeros are 0).
pub open spec fn f64_key(bits: u64) -> int {
    let mag = bits % 0x8000_0000_0000_0000;
    if bits >= 0x8000_0000_0000_0000 {
        0 - mag
    } else {
        mag as int
    }
}

/// The largest magnitude up to which every integer is an `f64` exactly
/// (2^53).
pub open spec fn exact_f64_limit() -> int {
    0x20_0000_0000_0000
}

/// Calls `serde_json::Number::as_f64` on a non-negative integer, and gives the
/// bits. Claims the result is `u64_f64_bits(u)`, that it is zero exactly
/// when `u` is, and that it has no sign bit; and, as an integer converts to
/// the closest `f64` (which for these values orders like its bits), that the
/// conversion keeps the order of integers, strictly up to 2^53, where it is
/// exact.
#[verifier::external_body]
pub(crate) fn u64_as_f64_bits(u: u64) -> (r: u64)
    ensures
        r == u64_f64_bits(u),
        r == 0 <==> u == 0,
        r < 0x8000_0000_0000_0000,
        forall|v: u64| u <= v ==> r <= #[trigger] u64_f64_bits(v) < 0x8000_0000_0000_0000,
        forall|v: u64| v <= u ==> #[trigger] u64_f64_bits(v) <= r,
        forall|v: u64| u < v <= exact_f64_limit() ==> r < #[trigger] u64_f64_bits(v),
        forall|v: u64| v < u <= exact_f64_limit() ==> #[trigger] u64_f64_bits(v) < r,
{
    serde_json::Number::from(u).as_f64().map_or(0, |x| x.to_bits())
}

/// Calls `serde_json::Number::as_f64` on a negative integer, and gives the
/// bits. Claims the result is `i64_f64_bits(i)`; for `i < 0`, that the sign
/// bit is set and the magnitude is not zero; and, as an integer converts to
/// the closest `f64`, that among negative integers the conversion keeps
/// their order (`f64_key`), strictly down to -2^53, where it is exact.
#[verifier::external_body]
pub(crate) fn i64_as_f64_bits(i: i64) -> (r: u64)
    ensures
        r == i64_f64_bits(i),
        i < 0 ==> r >= 0x8000_0000_0000_0000 && r != 0x8000_0000_0000_0000,
        forall|j: i64| i <= j < 0 ==> f64_key(r) <= f64_key(#[trigger] i64_f64_bits(j)),
        forall|j: i64| j <= i < 0 ==> f64_key(#[trigger] i64_f64_bits(j)) <= f64_key(r),
        forall|j: i64| -exact_f64_limit() <= i < j < 0 ==> f64_key(r) < f64_key(#[trigger] i64_f64_bits(j)),
        forall|j: i64| -exact_f64_limit() <= j < i < 0 ==> f64_key(#[trigger] i64_f64_bits(j)) < f64_key(r),
{
    serde_json::Number::from(i).as_f64().map_or(0, |x| x.to_bits())
}

/// The integer a number is, where `f64` holds it exactly (magnitude at most
/// 2^53).
pub open spec fn exact_int(n: NumModel) -> Option<int> {
    match n {
        NumModel::PosInt(u) => if u <= exact_f64_limit() {
            Some(u as int)
        } else {
            None
        },
        NumModel::NegInt(i) => if -exact_f64_limit() <= i < 0 {
            Some(i as int)
        } else {
            None
        },
        _ => None,
    }
}

/// The `f64` bits that `serde_json::Number::as_f64` gives for a number.
pub open spec fn num_f64_bits(n: NumModel) -> u64 {
    match n {
        NumModel::PosInt(u) => u64_f64_bits(u),
        NumModel::NegInt(i) => i64_f64_bits(i),
        NumModel::Float(b, _) => b,
    }
}

/// The position of a number's `f64` value in the `f64` order.
pub open spec fn num_key(n: NumModel) -> int {
    f64_key(num_f64_bits(n))
}

/// What the conversions to `f64` give to know of a number's bits `r`: no
/// sign bit for a non-negative integer, a sign bit and a non-zero magnitude
/// for a negative one, and the order of integers kept.
pub open spec fn order_facts(n: NumModel, r: u64) -> bool {
    match n {
        NumModel::PosInt(u) => {
            &&& r < 0x8000_0000_0000_0000
            &&& (r == 0 <==> u == 0)
            &&& forall|v: u64| u <= v ==> r <= #[trigger] u64_f64_bits(v) < 0x8000_0000_0000_0000
            &&& forall|v: u64| v <= u ==> #[trigger] u64_f64_bits(v) <= r
            &&& forall|v: u64| u < v <= exact_f64_limit() ==> r < #[trigger] u64_f64_bits(v)
            &&& forall|v: u64| v < u <= exact_f64_limit() ==> #[trigger] u64_f64_bits(v) < r
        },
        NumModel::NegInt(i) => i < 0 ==> {
            &&& r >= 0x8000_0000_0000_0000 && r != 0x8000_0000_0000_0000
            &&& forall|j: i64| i <= j < 0 ==> f64_key(r) <= f64_key(#[trigger] i64_f64_bits(j))
            &&& forall|j: i64| j <= i < 0 ==> f64_key(#[trigger] i64_f64_bits(j)) <= f64_key(r)
            &&& forall|j: i64| -exact_f64_limit() <= i < j < 0 ==> f64_key(r) < f64_key(#[trigger] i64_f64_bits(j))
            &&& forall|j: i64| -exact_f64_limit() <= j < i < 0 ==> f64_key(#[trigger] i64_f64_bits(j)) < f64_key(r)
        },
        NumModel::Float(_, _) => true,
    }
}

/// Where both numbers are integers that `f64` holds exactly, their `f64`
/// values compare as the integers do.
pub proof fn lemma_exact_order(a: NumModel, b: NumModel)
    requires
        order_facts(a, num_f64_bits(a)),
        order_facts(b, num_f64_bits(b)),
        exact_int(a) is Some,
        exact_int(b) is Some,
    ensures
        num_key(a) < num_key(b) <==> exact_int(a)->0 < exact_int(b)->0,
        num_key(a) == num_key(b) <==> exact_int(a)->0 == exact_int(b)->0,
{
    let ra = num_f64_bits(a);
    let rb = num_f64_bits(b);
    match (a, b) {
        (NumModel::PosInt(u), NumModel::PosInt(v)) => {
            assert(u <= v ==> ra <= u64_f64_bits(v));
            assert(v <= u ==> u64_f64_bits(v) <= ra);
            assert(u < v ==> ra < u64_f64_bits(v));
            assert(v < u ==> u64_f64_bits(v) < ra);
        },
        (NumModel::NegInt(i), NumModel::NegInt(j)) => {
            assert(i <= j ==> f64_key(ra) <= f64_key(i64_f64_bits(j)));
            assert(j <= i ==> f64_key(i64_f64_bits(j)) <= f64_key(ra));
            assert(i < j ==> f64_key(ra) < f64_key(i64_f64_bits(j)));
            assert(j < i ==> f64_key(i64_f64_bits(j)) < f64_key(ra));
        },
        _ => {},
    }
}

/// `==` on `serde_json::Number`: same kind and same value (floats compared
/// as `f64`).
pub open spec fn num_eq(a: NumModel, b: NumModel) -> bool {
    match (a, b) {
        (NumModel::PosInt(x), NumModel::PosInt(y)) => x == y,
        (NumModel::NegInt(x), NumModel::NegInt(y)) => x == y,
        (NumModel::Float(x, _), NumModel::Float(y, _)) => f64_key(x) == f64_key(y),
        _ => false,
    }
}

/// The text `Display` gives for a `serde_json::Number`.
pub open spec fn num_text(n: NumModel) -> Seq<char> {
    match n {
        NumModel::PosInt(u) => nat_text(u as nat),
        NumModel::NegInt(i) => int_text(i as int),
        NumModel::Float(_, t) => t,
    }
}

/// The model of `Value::from(i)` for an `i64`.
pub open spec fn int_num(i: i64) -> NumModel {
    if i >= 0 {
        NumModel::PosInt(i as u64)
    } else {
        NumModel::NegInt(i)
    }
}

/// `f64_key` computed.
pub fn f64_key_of(bits: u64) -> (r: i128)
    ensures
        r == f64_key(bits),
{
    let mag = bits % 0x8000_0000_0000_0000;
    if bits >= 0x8000_0000_0000_0000 {
        0 - (mag as i128)
    } else {
        mag as i128
    }
}

impl JsonNumber {
    /// `Value::from(i64)`.
    pub fn from_i64(i: i64) -> (r: JsonNumber)
        ensures
            r@ == int_num(i),
    {
        if i >= 0 {
            JsonNumber::PosInt(i as u64)
        } else {
            JsonNumber::NegInt(i)
        }
    }

    /// The bits of `as_f64()`.
    pub fn f64_bits(&self) -> (r: u64)
        ensures
            r == num_f64_bits(self@),
            order_facts(self@, r),
    {
        match self {
            JsonNumber::PosInt(u) => u64_as_f64_bits(*u),
            JsonNumber::NegInt(i) => i64_as_f64_bits(*i),
            JsonNumber::Float(f) => f.bits,
        }
    }

    /// The number's `Display` text.
    pub fn text(&self) -> (r: Vec<char>)
        ensures
            r@ == num_text(self@),
    {
        match self {
            JsonNumber::PosInt(u) => u64_text(*u),
            JsonNumber::NegInt(i) => i64_text(*i),
            JsonNumber::Float(f) => chars_of(f.text.as_str()),
        }
    }

    /// `==` on numbers.
    pub fn eq_number(&self, other: &JsonNumber) -> (r: bool)
        ensures
            r == num_eq(self@, other@),
    {
        match (self, other) {
            (JsonNumber::PosInt(x), JsonNumber::PosInt(y)) => *x == *y,
            (JsonNumber::NegInt(x), JsonNumber::NegInt(y)) => *x == *y,
            (JsonNumber::Float(x), JsonNumber::Float(y)) => f64_key_of(x.bits) == f64_key_of(y.bits),
            _ => false,
        }
    }

    /// A copy of the number.
    pub fn copy(&self) -> (r: JsonNumber)
        ensures
            r@ == self@,
    {
        match self {
            JsonNumber::PosInt(u) => JsonNumber::PosInt(*u),
            JsonNumber::NegInt(i) => JsonNumber::NegInt(*i),
            JsonNumber::Float(f) => JsonNumber::Float(
                FloatNumber { bits: f.bits, text: f.text.clone(), raw: clone_serde_number(&f.raw) },
            ),
        }
    }
}

/// Calls `Clone::clone` on a `serde_json::Number`; claims the copy is equal.
#[verifier::external_body]
fn clone_serde_number(n: &serde_json::Number) -> (r: serde_json::Number)
    ensures
        r == *n,
{
    n.clone()
}


// ---------------------------------------------------------------------------
// Values

/// The value of the first entry with `key`.
pub open spec fn entries_get(es: Seq<(Seq<char>, Json)>, key: Seq<char>) -> Option<Json>
    decreases es.len(),
{
    if es.len() == 0 {
        None
    } else if es[0].0 == key {
        Some(es[0].1)
    } else {
        entries_get(es.drop_first(), key)
    }
}

/// `Value::get` with a string key: the entry of an object, `None` for
/// anything that is not an object.
pub open spec fn json_get(v: Json, key: Seq<char>) -> Option<Json> {
    match v {
        Json::Object(es) => entries_get(es, key),
        _ => None,
    }
}

/// The order of `String` keys: by code point, a prefix first (the order of
/// their UTF-8 bytes).
pub open spec fn key_lt(a: Seq<char>, b: Seq<char>) -> bool
    decreases a.len(),
{
    if b.len() == 0 {
        false
    } else if a.len() == 0 {
        true
    } else if a[0] != b[0] {
        a[0] < b[0]
    } else {
        key_lt(a.drop_first(), b.drop_first())
    }
}

/// Whether entries are in strictly increasing key order, so that no key
/// occurs twice: how `serde_json::Map` holds an object.
pub open spec fn keys_sorted(es: Seq<(Seq<char>, Json)>) -> bool {
    forall|i: int, j: int| 0 <= i < j < es.len() ==> key_lt(#[trigger] es[i].0, #[trigger] es[j].0)
}

/// Whether every object in a value, at any depth, has its keys in order.
pub open spec fn json_wf(v: Json) -> bool
    decreases v,
{
    match v {
        Json::Array(a) => forall|i: int| 0 <= i < a.len() ==> json_wf(#[trigger] a[i]),
        Json::Object(es) => keys_sorted(es) && forall|i: int| 0 <= i < es.len() ==> json_wf(#[trigger] es[i].1),
        _ => true,
    }
}

/// `key_lt` on characters.
pub(crate) fn key_lt_exec(a: &[char], b: &[char]) -> (r: bool)
    ensures
        r == key_lt(a@, b@),
{
    let mut i: usize = 0;
    assert(a@.skip(0) =~= a@);
    assert(b@.skip(0) =~= b@);
    while i < a.len() && i < b.len()
        invariant
            i <= a@.len(),
            i <= b@.len(),
            key_lt(a@, b@) == key_lt(a@.skip(i as int), b@.skip(i as int)),
        decreases a@.len() - i,
    {
        assert(a@.skip(i as int)[0] == a@[i as int]);
        assert(b@.skip(i as int)[0] == b@[i as int]);
        if a[i] != b[i] {
            return a[i] < b[i];
        }
        assert(a@.skip(i as int).drop_first() =~= a@.skip(i + 1));
        assert(b@.skip(i as int).drop_first() =~= b@.skip(i + 1));
        i = i + 1;
    }
    i < b.len()
}

/// The key order is transitive.
pub proof fn lemma_key_lt_trans(a: Seq<char>, b: Seq<char>, c: Seq<char>)
    requires
        key_lt(a, b),
        key_lt(b, c),
    ensures
        key_lt(a, c),
    decreases a.len(),
{
    if a.len() > 0 && b.len() > 0 && c.len() > 0 && a[0] == b[0] && b[0] == c[0] {
        lemma_key_lt_trans(a.drop_first(), b.drop_first(), c.drop_first());
    }
}

/// Of two different keys, one comes first.
pub proof fn lemma_key_lt_total(a: Seq<char>, b: Seq<char>)
    requires
        a != b,
    ensures
        key_lt(a, b) || key_lt(b, a),
    decreases a.len(),
{
    if a.len() == 0 {
        assert(b.len() != 0) by {
            if b.len() == 0 {
                assert(a =~= b);
            }
        }
    } else if b.len() > 0 && a[0] == b[0] {
        if a.drop_first() == b.drop_first() {
            assert(a =~= seq![a[0]] + a.drop_first());
            assert(b =~= seq![b[0]] + b.drop_first());
        }
        lemma_key_lt_total(a.drop_first(), b.drop_first());
    }
}

/// `==` on `serde_json::Value`.
pub open spec fn json_eq(a: Json, b: Json) -> bool
    decreases a,
{
    match (a, b) {
        (Json::Null, Json::Null) => true,
        (Json::Bool(x), Json::Bool(y)) => x == y,
        (Json::Number(x), Json::Number(y)) => num_eq(x, y),
        (Json::Str(x), Json::Str(y)) => x == y,
        (Json::Array(x), Json::Array(y)) => x.len() == y.len() && forall|i: int|
            0 <= i < x.len() ==> json_eq(x[i], #[trigger] y[i]),
        (Json::Object(x), Json::Object(y)) => x.len() == y.len() && forall|i: int|
            0 <= i < x.len() ==> x[i].0 == (#[trigger] y[i]).0 && json_eq(x[i].1, y[i].1),
        _ => false,
    }
}

/// The text `"false"`.
pub open spec fn false_text() -> Seq<char> {
    seq!['f', 'a', 'l', 's', 'e']
}

/// The text `"true"`.
pub open spec fn true_text() -> Seq<char> {
    seq!['t', 'r', 'u', 'e']
}

/// `bool::to_string`.
pub open spec fn bool_text(b: bool) -> Seq<char> {
    if b {
        true_text()
    } else {
        false_text()
    }
}

/// Whether a value counts as true: a true boolean, a number whose `f64`
/// value is not zero, a string other than `""` and `"false"`, a non-empty
/// array, any object.
pub open spec fn json_truthy(v: Json) -> bool {
    match v {
        Json::Bool(b) => b,
        Json::Number(n) => match exact_int(n) {
            Some(x) => x != 0,
            None => num_key(n) != 0,
        },
        Json::Str(s) => s.len() != 0 && s != false_text(),
        Json::Array(a) => a.len() != 0,
        Json::Object(_) => true,
        Json::Null => false,
    }
}

/// The bool's text.
pub fn bool_text_exec(b: bool) -> (r: Vec<char>)
    ensures
        r@ == bool_text(b),
{
    let r = if b { vec!['t', 'r', 'u', 'e'] } else { vec!['f', 'a', 'l', 's', 'e'] };
    assert(r@ =~= bool_text(b));
    r
}

impl JsonValue {
    /// A copy of the value.
    #[verifier::loop_isolation(false)]
    pub fn copy(&self) -> (r: JsonValue)
        ensures
            r@ == self@,
        decreases self,
    {
        match self {
            JsonValue::Null => JsonValue::Null,
            JsonValue::Bool(b) => JsonValue::Bool(*b),
            JsonValue::Number(n) => JsonValue::Number(n.copy()),
            JsonValue::String(s) => JsonValue::String(s.clone()),
            JsonValue::Array(a) => {
                let mut out: Vec<JsonValue> = Vec::new();
                let mut i: usize = 0;
                while i < a.len()
                    invariant
                        i <= a@.len(),
                        out@.len() == i,
                        forall|k: int| 0 <= k < i ==> (#[trigger] out@[k])@ == a@[k]@,
                    decreases a@.len() - i,
                {
                    proof {
                        assert(decreases_to!(*self => a@[i as int])) by {
                            assert(decreases_to!(*self => self->Array_0));
                            assert(decreases_to!(*a => a@));
                            assert(decreases_to!(a@ => a@[i as int]));
                        }
                    }
                    let c = a[i].copy();
                    out.push(c);
                    i = i + 1;
                }
                let r = JsonValue::Array(out);
                assert(r@->Array_0 =~= self@->Array_0);
                r
            },
            JsonValue::Object(o) => {
                let mut out: Vec<(String, JsonValue)> = Vec::new();
                let mut i: usize = 0;
                while i < o.len()
                    invariant
                        i <= o@.len(),
                        out@.len() == i,
                        forall|k: int|
                            0 <= k < i ==> (#[trigger] out@[k]).0@ == o@[k].0@ && out@[k].1@ == o@[k].1@,
                    decreases o@.len() - i,
                {
                    proof {
                        assert(decreases_to!(*self => o@[i as int].1)) by {
                            assert(decreases_to!(*self => self->Object_0));
                            assert(decreases_to!(*o => o@));
                            assert(decreases_to!(o@ => o@[i as int]));
                            assert(decreases_to!(o@[i as int] => o@[i as int].1));
                        }
                    }
                    let c = o[i].1.copy();
                    out.push((o[i].0.clone(), c));
                    i = i + 1;
                }
                let r = JsonValue::Object(out);
                assert(r@->Object_0 =~= self@->Object_0);
                r
            },
        }
    }

    /// `Value::get` with a string key.
    pub fn get(&self, key: &[char]) -> (r: Option<&JsonValue>)
        ensures
            r matches Some(x) ==> json_get(self@, key@) == Some(x@),
            r is None ==> json_get(self@, key@) is None,
    {
        match self {
            JsonValue::Object(o) => {
                let ghost es = self@->Object_0;
                let mut i: usize = 0;
                assert(es.skip(0) =~= es);
                while i < o.len()
                    invariant
                        i <= o@.len(),
                        self@ == Json::Object(es),
                        es.len() == o@.len(),
                        forall|k: int| 0 <= k < o@.len() ==> #[trigger] es[k] == (o@[k].0@, o@[k].1@),
                        entries_get(es, key@) == entries_get(es.skip(i as int), key@),
                    decreases o@.len() - i,
                {
                    assert(es.skip(i as int).drop_first() =~= es.skip(i + 1));
                    assert(es.skip(i as int)[0] == es[i as int]);
                    let k = chars_of(o[i].0.as_str());
                    if chars_eq(k.as_slice(), key) {
                        assert(es[i as int] == (o@[i as int].0@, o@[i as int].1@));
                        assert(es.skip(i as int)[0].0 == key@);
                        assert(entries_get(es.skip(i as int), key@) == Some(es[i as int].1));
                        assert(json_get(self@, key@) == entries_get(es, key@));
                        return Some(&o[i].1);
                    }
                    i = i + 1;
                }
                None
            },
            _ => None,
        }
    }

    /// `Value::is_object`.
    pub fn is_object(&self) -> (r: bool)
        ensures
            r == (self@ is Object),
    {
        match self {
            JsonValue::Object(_) => true,
            _ => false,
        }
    }

    /// Whether the value counts as true.
    pub fn truthy(&self) -> (r: bool)
        ensures
            r == json_truthy(self@),
    {
        match self {
            JsonValue::Bool(b) => *b,
            JsonValue::Number(n) => f64_key_of(n.f64_bits()) != 0,
            JsonValue::String(s) => {
                let cs = chars_of(s.as_str());
                let f = vec!['f', 'a', 'l', 's', 'e'];
                assert(f@ =~= false_text());
                cs.len() != 0 && !chars_eq(cs.as_slice(), f.as_slice())
            },
            JsonValue::Array(a) => a.len() != 0,
            JsonValue::Object(_) => true,
            JsonValue::Null => false,
        }
    }

    /// `==` on values.
    #[verifier::loop_isolation(false)]
    pub fn eq_value(&self, other: &JsonValue) -> (r: bool)
        ensures
            r == json_eq(self@, other@),
        decreases self,
    {
        match (self, other) {
            (JsonValue::Null, JsonValue::Null) => true,
            (JsonValue::Bool(x), JsonValue::Bool(y)) => *x == *y,
            (JsonValue::Number(x), JsonValue::Number(y)) => x.eq_number(y),
            (JsonValue::String(x), JsonValue::String(y)) => {
                let a = chars_of(x.as_str());
                let b = chars_of(y.as_str());
                chars_eq(a.as_slice(), b.as_slice())
            },
            (JsonValue::Array(x), JsonValue::Array(y)) => {
                if x.len() != y.len() {
                    return false;
                }
                let mut i: usize = 0;
                while i < x.len()
                    invariant
                        i <= x@.len(),
                        x@.len() == y@.len(),
                        forall|k: int| 0 <= k < i ==> json_eq(x@[k]@, #[trigger] y@[k]@),
                    decreases x@.len() - i,
                {
                    proof {
                        assert(decreases_to!(*self => x@[i as int])) by {
                            assert(decreases_to!(*self => self->Array_0));
                            assert(decreases_to!(*x => x@));
                            assert(decreases_to!(x@ => x@[i as int]));
                        }
                    }
                    if !x[i].eq_value(&y[i]) {
                        assert(!json_eq(self@->Array_0[i as int], other@->Array_0[i as int]));
                        return false;
                    }
                    i = i + 1;
                }
                assert forall|k: int| 0 <= k < self@->Array_0.len() implies json_eq(
                    self@->Array_0[k],
                    #[trigger] other@->Array_0[k],
                ) by {
                    assert(json_eq(x@[k]@, y@[k]@));
                }
                true
            },
            (JsonValue::Object(x), JsonValue::Object(y)) => {
                if x.len() != y.len() {
                    return false;
                }
                let mut i: usize = 0;
                while i < x.len()
                    invariant
                        i <= x@.len(),
                        x@.len() == y@.len(),
                        forall|k: int|
                            0 <= k < i ==> x@[k].0@ == (#[trigger] y@[k]).0@ && json_eq(x@[k].1@, y@[k].1@),
                    decreases x@.len() - i,
                {
                    proof {
                        assert(decreases_to!(*self => x@[i as int].1)) by {
                            assert(decreases_to!(*self => self->Object_0));
                            assert(decreases_to!(*x => x@));
                            assert(decreases_to!(x@ => x@[i as int]));
                            assert(decreases_to!(x@[i as int] => x@[i as int].1));
                        }
                    }
                    let ka = chars_of(x[i].0.as_str());
                    let kb = chars_of(y[i].0.as_str());
                    if !chars_eq(ka.as_slice(), kb.as_slice()) {
                        assert(self@->Object_0[i as int].0 != other@->Object_0[i as int].0);
                        return false;
                    }
                    if !x[i].1.eq_value(&y[i].1) {
                        assert(!json_eq(self@->Object_0[i as int].1, other@->Object_0[i as int].1));
                        return false;
                    }
                    i = i + 1;
                }
                assert forall|k: int| 0 <= k < self@->Object_0.len() implies self@->Object_0[k].0
                    == (#[trigger] other@->Object_0[k]).0 && json_eq(
                    self@->Object_0[k].1,
                    other@->Object_0[k].1,
                ) by {
                    assert(x@[k].0@ == y@[k].0@ && json_eq(x@[k].1@, y@[k].1@));
                }
                true
            },
            _ => false,
        }
    }
}


// ---------------------------------------------------------------------------
// Calls into serde_json

/// What `serde_json::from_str::<serde_json::Value>` gives for a text:
/// `None` where it returns an error.
pub uninterp spec fn json_parse(text: Seq<char>) -> Option<Json>;

/// What `serde_json::Value::to_string` (compact JSON) gives for a value.
pub uninterp spec fn json_text(v: Json) -> Seq<char>;

/// What `str::parse::<f64>` followed by `serde_json::Value::from(f64)`
/// gives for a token: `None` where the token does not parse as an `f64`,
/// `Some(None)` where it parses to an infinite or NaN value (which becomes
/// `Value::Null`), and `Some(Some(n))` for a finite value.
pub uninterp spec fn float_token(token: Seq<char>) -> Option<Option<NumModel>>;

/// Model of the result of parsing a float token.
pub open spec fn float_token_model(r: Option<Option<JsonNumber>>) -> Option<Option<NumModel>> {
    match r {
        Some(Some(n)) => Some(Some(n@)),
        Some(None) => Some(None),
        None => None,
    }
}

/// Whether `c` is the lowercase ASCII letter `l` or its uppercase.
pub open spec fn ci_char(c: char, l: char) -> bool {
    c == l || c as int == l as int - 32
}

/// Whether `s` spells `word` (lowercase ASCII), in either case.
pub open spec fn ci_eq(s: Seq<char>, word: Seq<char>) -> bool {
    s.len() == word.len() && forall|i: int| 0 <= i < s.len() ==> ci_char(#[trigger] s[i], word[i])
}

/// `s` without a leading `+` or `-`.
pub open spec fn unsigned(s: Seq<char>) -> Seq<char> {
    if first_is(s, '+') || first_is(s, '-') {
        s.drop_first()
    } else {
        s
    }
}

/// Whether a token is an optionally signed `inf`, `infinity` or `nan`, in
/// any case.
pub open spec fn float_special(s: Seq<char>) -> bool {
    let t = unsigned(s);
    ci_eq(t, seq!['i', 'n', 'f']) || ci_eq(t, seq!['i', 'n', 'f', 'i', 'n', 'i', 't', 'y'])
        || ci_eq(t, seq!['n', 'a', 'n'])
}

/// `Digit+ | Digit+ '.' Digit* | Digit* '.' Digit+`.
pub open spec fn mantissa_syntax(m: Seq<char>) -> bool {
    ||| m.len() > 0 && all_digits(m)
    ||| m.len() >= 2 && exists|i: int|
        0 <= i < m.len() && m[i] == '.' && all_digits(m.take(i)) && all_digits(#[trigger] m.skip(i + 1))
}

/// `Sign? Digit+`.
pub open spec fn exponent_syntax(x: Seq<char>) -> bool {
    let d = unsigned(x);
    d.len() > 0 && all_digits(d)
}

/// The grammar of `f64::from_str` as its documentation gives it: an
/// optional sign, then `inf`, `infinity` or `nan` in any case, or a
/// mantissa with an optional exponent `e`/`E` `Sign? Digit+`.
pub open spec fn float_syntax(s: Seq<char>) -> bool {
    let t = unsigned(s);
    ||| float_special(s)
    ||| mantissa_syntax(t)
    ||| exists|i: int|
        0 <= i < t.len() && (t[i] == 'e' || t[i] == 'E') && mantissa_syntax(t.take(i)) && exponent_syntax(
            #[trigger] t.skip(i + 1),
        )
}

/// Model of an optional value.
pub open spec fn opt_model(r: Option<JsonValue>) -> Option<Json> {
    match r {
        Some(v) => Some(v@),
        None => None,
    }
}

/// Calls `serde_json::from_str::<serde_json::Value>` and converts the value
/// it gives, field by field, into a `JsonValue`. Claims the result is
/// `json_parse(text@)`, and that its objects have their keys in order
/// (`json_wf`): `serde_json::Map` is a `BTreeMap` here, walked in the order
/// of `String`, which is `key_lt`.
#[verifier::external_body]
pub(crate) fn parse_json(text: &str) -> (r: Option<JsonValue>)
    ensures
        opt_model(r) == json_parse(text@),
        r matches Some(v) ==> json_wf(v@),
{
    serde_json::from_str::<serde_json::Value>(text).ok().map(value_from_serde)
}

/// Converts a `JsonValue` into a `serde_json::Value` and calls its
/// `to_string`. Claims the result is `json_text(v@)`, which for `null` and
/// the booleans is `null`, `true` and `false`.
#[verifier::external_body]
pub(crate) fn json_to_text(v: &JsonValue) -> (r: String)
    ensures
        r@ == json_text(v@),
        v@ is Null ==> r@ == "null"@,
        v@ matches Json::Bool(b) ==> r@ == bool_text(b),
{
    value_to_serde(v).to_string()
}

/// Calls `str::parse::<f64>` on the token, then `serde_json::Number::from_f64`
/// (the step of `Value::from(f64)`), and converts the number. Claims the
/// result is `float_token(token@)`; that, as `f64::from_str` documents, the
/// parse succeeds exactly on the tokens of its grammar (`float_syntax`);
/// that `inf`, `infinity` and `nan` give a value that `from_f64` refuses as
/// not finite; and that a number it gives is a `Float`.
#[verifier::external_body]
pub(crate) fn parse_float_token(token: &str) -> (r: Option<Option<JsonNumber>>)
    ensures
        float_token_model(r) == float_token(token@),
        r is Some <==> float_syntax(token@),
        float_special(token@) ==> r is Some && r->0 is None,
        r matches Some(Some(n)) ==> n is Float,
{
    match token.parse() {
        Ok(x) => Some(serde_json::Number::from_f64(x).map(number_from_serde)),
        Err(_) => None,
    }
}

/// Converts a `serde_json::Value`, variant by variant, into a `JsonValue`.
#[verifier::external_body]
fn value_from_serde(v: serde_json::Value) -> JsonValue {
    match v {
        serde_json::Value::Null => JsonValue::Null,
        serde_json::Value::Bool(b) => JsonValue::Bool(b),
        serde_json::Value::Number(n) => JsonValue::Number(number_from_serde(n)),
        serde_json::Value::String(s) => JsonValue::String(s),
        serde_json::Value::Array(a) => JsonValue::Array(a.into_iter().map(value_from_serde).collect()),
        serde_json::Value::Object(m) => JsonValue::Object(
            m.into_iter().map(|(k, x)| (k, value_from_serde(x))).collect(),
        ),
    }
}

/// Converts a `serde_json::Number` into a `JsonNumber`, telling its three
/// kinds apart with `as_u64` and `as_i64`.
#[verifier::external_body]
fn number_from_serde(n: serde_json::Number) -> JsonNumber {
    match (n.as_u64(), n.as_i64()) {
        (Some(u), _) => JsonNumber::PosInt(u),
        (None, Some(i)) => JsonNumber::NegInt(i),
        (None, None) => JsonNumber::Float(
            FloatNumber { bits: n.as_f64().map_or(0, |x| x.to_bits()), text: n.to_string(), raw: n },
        ),
    }
}

/// Converts a `JsonValue`, variant by variant, into a `serde_json::Value`.
#[verifier::external_body]
fn value_to_serde(v: &JsonValue) -> serde_json::Value {
    match v {
        JsonValue::Null => serde_json::Value::Null,
        JsonValue::Bool(b) => serde_json::Value::Bool(*b),
        JsonValue::Number(JsonNumber::PosInt(u)) => serde_json::Value::from(*u),
        JsonValue::Number(JsonNumber::NegInt(i)) => serde_json::Value::from(*i),
        JsonValue::Number(JsonNumber::Float(f)) => serde_json::Value::Number(f.raw.clone()),
        JsonValue::String(s) => serde_json::Value::String(s.clone()),
        JsonValue::Array(a) => serde_json::Value::Array(a.iter().map(value_to_serde).collect()),
        JsonValue::Object(o) => serde_json::Value::Object(
            o.iter().map(|(k, x)| (k.clone(), value_to_serde(x))).collect(),
        ),
    }
}

/// Which values count as true: a boolean is itself; an integer that `f64`
/// holds exactly is true when it is not zero, any other number when its
/// `f64` value is not zero; a string unless it is empty or `"false"`; an
/// array unless it is empty; every object; never `null`.
pub proof fn lemma_truthiness(v: Json)
    ensures
        v matches Json::Bool(b) ==> json_truthy(v) == b,
        v matches Json::Number(n) ==> json_truthy(v) == if exact_int(n) is Some {
            exact_int(n)->0 != 0
        } else {
            f64_key(num_f64_bits(n)) != 0
        },
        v matches Json::Str(s) ==> json_truthy(v) == (s.len() > 0 && s != seq!['f', 'a', 'l', 's', 'e']),
        v matches Json::Array(a) ==> json_truthy(v) == (a.len() > 0),
        v is Object ==> json_truthy(v),
        v is Null ==> !json_truthy(v),
{
}

} // verus!
