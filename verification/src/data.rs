//! Data providers: attributes such as `x-data-file` name where a scope's
//! data comes from. The library works out what is to be read (a file, a
//! database query, a URL); reading it is left to the caller.
use vstd::prelude::*;
use crate::html::AttrModel;
use crate::json::{key_lt_exec, key_lt, keys_sorted, json_wf, lemma_key_lt_trans, lemma_key_lt_total, int_num, json_parse, opt_model, parse_json, Json, JsonNumber, JsonValue};
use crate::text::{
    chars_eq, chars_of, copy_range, find, find_chars, lemma_find_bounds, starts_with,
    starts_with_chars, string_of, trim, trim_chars,
};
use crate::html::attrs_model;

verus! {

/// What a provider is asked to read.
#[derive(Debug)]
pub enum DataRequest {
    /// A JSON file, by its name under the data directory.
    File(String),
    /// A query on a SQLite database, by the database's file name under the
    /// data directory.
    Sqlite { db: String, query: String },
    /// A JSON document at a URL.
    Api(String),
}

/// Model of a request.
pub enum RequestModel {
    File(Seq<char>),
    Sqlite(Seq<char>, Seq<char>),
    Api(Seq<char>),
}

impl View for DataRequest {
    type V = RequestModel;

    open spec fn view(&self) -> RequestModel {
        match self {
            DataRequest::File(f) => RequestModel::File(f@),
            DataRequest::Sqlite { db, query } => RequestModel::Sqlite(db@, query@),
            DataRequest::Api(u) => RequestModel::Api(u@),
        }
    }
}

/// Model of an optional request.
pub open spec fn opt_request(r: Option<DataRequest>) -> Option<RequestModel> {
    match r {
        Some(q) => Some(q@),
        None => None,
    }
}

/// A source of scope data, named by an attribute.
pub trait DataProvider {
    /// The attribute that names this provider.
    spec fn prefix_text(&self) -> Seq<char>;

    /// What the provider reads for an attribute value; `None` where the
    /// value is malformed.
    spec fn request_spec(&self, arg: Seq<char>) -> Option<RequestModel>;

    /// The attribute that names this provider.
    fn prefix(&self) -> (r: &'static str)
        ensures
            r@ == self.prefix_text(),
    ;

    /// What the provider reads for the attribute value `arg`.
    fn request(&self, arg: &str) -> (r: Option<DataRequest>)
        ensures
            opt_request(r) == self.request_spec(arg@),
    ;
}

/// `s` without the prefix `p`, where it starts with it.
pub open spec fn strip_prefix(s: Seq<char>, p: Seq<char>) -> Seq<char> {
    if starts_with(s, p) {
        s.skip(p.len() as int)
    } else {
        s
    }
}

/// The file an `x-data-file` value names: a leading `./` and then a
/// leading `data/` are dropped.
pub open spec fn file_name(arg: Seq<char>) -> Seq<char> {
    strip_prefix(strip_prefix(arg, "./"@), "data/"@)
}

/// The database and the query of an `x-data-sqlite` value `db|query`, each
/// trimmed; `None` without a `|`.
pub open spec fn sqlite_parts(arg: Seq<char>) -> Option<(Seq<char>, Seq<char>)> {
    match find(arg, seq!['|']) {
        Some(i) => Some((trim(arg.take(i)), trim(arg.skip(i + 1)))),
        None => None,
    }
}

fn strip_prefix_exec(s: &[char], p: &[char]) -> (r: Vec<char>)
    ensures
        r@ == strip_prefix(s@, p@),
{
    if starts_with_chars(s, p) {
        let r = copy_range(s, p.len(), s.len());
        assert(r@ =~= s@.skip(p@.len() as int));
        r
    } else {
        copy_range(s, 0, s.len())
    }
}

/// Reads JSON files from the data directory.
pub struct FileProvider;

impl DataProvider for FileProvider {
    open spec fn prefix_text(&self) -> Seq<char> {
        "x-data-file"@
    }

    open spec fn request_spec(&self, arg: Seq<char>) -> Option<RequestModel> {
        Some(RequestModel::File(file_name(arg)))
    }

    fn prefix(&self) -> (r: &'static str) {
        "x-data-file"
    }

    fn request(&self, arg: &str) -> (r: Option<DataRequest>) {
        let a = chars_of(arg);
        let dot = chars_of("./");
        let data = chars_of("data/");
        let once = strip_prefix_exec(a.as_slice(), dot.as_slice());
        let twice = strip_prefix_exec(once.as_slice(), data.as_slice());
        Some(DataRequest::File(string_of(twice.as_slice())))
    }
}

impl FileProvider {
    /// The scope a data file gives: its text parsed as JSON, `None` where it
    /// is not JSON.
    pub fn parse_content(&self, content: &str) -> (r: Option<JsonValue>)
        ensures
            opt_model(r) == json_parse(content@),
            r matches Some(v) ==> json_wf(v@),
    {
        parse_json(content)
    }
}

/// Runs queries on SQLite databases in the data directory; the value is
/// `database|query`.
pub struct SqliteProvider;

impl DataProvider for SqliteProvider {
    open spec fn prefix_text(&self) -> Seq<char> {
        "x-data-sqlite"@
    }

    open spec fn request_spec(&self, arg: Seq<char>) -> Option<RequestModel> {
        match sqlite_parts(arg) {
            Some((db, query)) => Some(RequestModel::Sqlite(db, query)),
            None => None,
        }
    }

    fn prefix(&self) -> (r: &'static str) {
        "x-data-sqlite"
    }

    fn request(&self, arg: &str) -> (r: Option<DataRequest>) {
        let a = chars_of(arg);
        let n = a.len();
        let bar = vec!['|'];
        assert(bar@ =~= seq!['|']);
        match find_chars(a.as_slice(), bar.as_slice()) {
            Some(i) => {
                proof {
                    lemma_find_bounds(a@, bar@);
                    assert(bar@.len() == 1);
                    assert(i + 1 <= a@.len());
                }
                let left = copy_range(a.as_slice(), 0, i);
                assert(i < n);
                let right = copy_range(a.as_slice(), i + 1, n);
                assert(left@ =~= a@.take(i as int));
                assert(right@ =~= a@.skip(i + 1));
                let db = trim_chars(left.as_slice());
                let query = trim_chars(right.as_slice());
                Some(DataRequest::Sqlite { db: string_of(db.as_slice()), query: string_of(query.as_slice()) })
            },
            None => None,
        }
    }
}

/// Fetches JSON documents over HTTP; the value is the URL.
pub struct ApiProvider;

impl DataProvider for ApiProvider {
    open spec fn prefix_text(&self) -> Seq<char> {
        "x-data-api"@
    }

    open spec fn request_spec(&self, arg: Seq<char>) -> Option<RequestModel> {
        Some(RequestModel::Api(trim(arg)))
    }

    fn prefix(&self) -> (r: &'static str) {
        "x-data-api"
    }

    fn request(&self, arg: &str) -> (r: Option<DataRequest>) {
        let a = chars_of(arg);
        let t = trim_chars(a.as_slice());
        Some(DataRequest::Api(string_of(t.as_slice())))
    }
}

/// The providers a manager can hold.
#[derive(Debug)]
pub enum ProviderKind {
    File,
    Sqlite,
    Api,
}

/// The attribute that names a provider.
pub open spec fn kind_prefix(k: ProviderKind) -> Seq<char> {
    match k {
        ProviderKind::File => "x-data-file"@,
        ProviderKind::Sqlite => "x-data-sqlite"@,
        ProviderKind::Api => "x-data-api"@,
    }
}

/// What a provider reads for a value.
pub open spec fn kind_request(k: ProviderKind, arg: Seq<char>) -> Option<RequestModel> {
    match k {
        ProviderKind::File => FileProvider.request_spec(arg),
        ProviderKind::Sqlite => SqliteProvider.request_spec(arg),
        ProviderKind::Api => ApiProvider.request_spec(arg),
    }
}

/// The provider of `kinds` named by `key`.
pub open spec fn provider_for(kinds: Seq<ProviderKind>, key: Seq<char>) -> Option<ProviderKind>
    decreases kinds.len(),
{
    if kinds.len() == 0 {
        None
    } else if kind_prefix(kinds[0]) == key {
        Some(kinds[0])
    } else {
        provider_for(kinds.drop_first(), key)
    }
}

/// The request of the first attribute that names a provider and has a
/// value; `None` where there is none, or where that value is malformed.
pub open spec fn scope_request(kinds: Seq<ProviderKind>, attrs: Seq<AttrModel>) -> Option<RequestModel>
    decreases attrs.len(),
{
    if attrs.len() == 0 {
        None
    } else {
        match (provider_for(kinds, attrs[0].0), attrs[0].1) {
            (Some(k), Some(v)) => kind_request(k, v),
            _ => scope_request(kinds, attrs.drop_first()),
        }
    }
}

/// The providers of a template, one per attribute name.
pub struct DataManager {
    providers: Vec<ProviderKind>,
}

impl DataManager {
    /// The providers, in the order they were registered.
    pub closed spec fn kinds(&self) -> Seq<ProviderKind> {
        self.providers@
    }

    /// No two providers answer to the same attribute.
    pub open spec fn wf(&self) -> bool {
        forall|i: int, j: int|
            0 <= i < j < self.kinds().len() ==> kind_prefix(#[trigger] self.kinds()[i]) != kind_prefix(
                #[trigger] self.kinds()[j],
            )
    }

    /// A manager with the file and SQLite providers.
    pub fn new() -> (r: Self)
        ensures
            r.kinds() == seq![ProviderKind::File, ProviderKind::Sqlite],
            r.wf(),
    {
        let r = DataManager { providers: vec![ProviderKind::File, ProviderKind::Sqlite] };
        assert(r.kinds() =~= seq![ProviderKind::File, ProviderKind::Sqlite]);
        proof {
            reveal_strlit("x-data-file");
            reveal_strlit("x-data-sqlite");
            assert(kind_prefix(ProviderKind::File) != kind_prefix(ProviderKind::Sqlite)) by {
                assert(kind_prefix(ProviderKind::File).len() != kind_prefix(ProviderKind::Sqlite).len());
            }
        }
        r
    }

    /// What the scope data of a tag is read from: the request of its first
    /// attribute that names a provider and has a value.
    pub fn extract_scope(&self, attributes: &Vec<(String, Option<String>)>) -> (r: Option<DataRequest>)
        ensures
            opt_request(r) == scope_request(self.kinds(), attrs_model(attributes@)),
    {
        let ghost am = attrs_model(attributes@);
        let mut i: usize = 0;
        assert(am.skip(0) =~= am);
        while i < attributes.len()
            invariant
                i <= attributes@.len(),
                am == attrs_model(attributes@),
                scope_request(self.kinds(), am) == scope_request(self.kinds(), am.skip(i as int)),
            decreases attributes@.len() - i,
        {
            assert(am.skip(i as int).drop_first() =~= am.skip(i + 1));
            assert(am.skip(i as int)[0] == am[i as int]);
            let key = chars_of(attributes[i].0.as_str());
            match (self.provider_for_key(key.as_slice()), &attributes[i].1) {
                (Some(k), Some(v)) => {
                    return match k {
                        ProviderKind::File => FileProvider.request(v.as_str()),
                        ProviderKind::Sqlite => SqliteProvider.request(v.as_str()),
                        ProviderKind::Api => ApiProvider.request(v.as_str()),
                    };
                },
                _ => {},
            }
            i = i + 1;
        }
        assert(am.skip(i as int) =~= Seq::<AttrModel>::empty());
        None
    }

    fn provider_for_key(&self, key: &[char]) -> (r: Option<ProviderKind>)
        ensures
            r == provider_for(self.kinds(), key@),
    {
        let ghost ks = self.kinds();
        let mut i: usize = 0;
        assert(ks.skip(0) =~= ks);
        while i < self.providers.len()
            invariant
                i <= ks.len(),
                ks == self.providers@,
                provider_for(ks, key@) == provider_for(ks.skip(i as int), key@),
            decreases ks.len() - i,
        {
            assert(ks.skip(i as int).drop_first() =~= ks.skip(i + 1));
            assert(ks.skip(i as int)[0] == ks[i as int]);
            let k = match &self.providers[i] {
                ProviderKind::File => ProviderKind::File,
                ProviderKind::Sqlite => ProviderKind::Sqlite,
                ProviderKind::Api => ProviderKind::Api,
            };
            let name = match k {
                ProviderKind::File => FileProvider.prefix(),
                ProviderKind::Sqlite => SqliteProvider.prefix(),
                ProviderKind::Api => ApiProvider.prefix(),
            };
            let name_chars = chars_of(name);
            if chars_eq(name_chars.as_slice(), key) {
                return Some(k);
            }
            i = i + 1;
        }
        assert(ks.skip(i as int) =~= Seq::<ProviderKind>::empty());
        None
    }
}

// ---------------------------------------------------------------------------
// What the reads give

/// The scope an `x-data-api` fetch gives, from the HTTP status and the
/// body: the body parsed as JSON for a success status (200 to 299), `None`
/// otherwise.
pub fn api_scope(status: u16, body: &str) -> (r: Option<JsonValue>)
    ensures
        200 <= status <= 299 ==> opt_model(r) == json_parse(body@),
        !(200 <= status <= 299) ==> r is None,
        r matches Some(v) ==> json_wf(v@),
{
    if 200 <= status && status <= 299 {
        parse_json(body)
    } else {
        None
    }
}

/// A value SQLite stores in a cell, as the library reads it: a REAL as the
/// JSON number `serde_json::Number::from_f64` makes of it (`None` when not
/// finite), TEXT as a string (`None` when it is not UTF-8), a BLOB as its
/// bytes read as UTF-8 with bad sequences replaced.
#[derive(Debug)]
pub enum SqlCell {
    Null,
    Integer(i64),
    Real(Option<JsonNumber>),
    Text(Option<String>),
    Blob(String),
}

/// The JSON value of a cell: NULL as `null`, an integer as a number, a REAL
/// as its number (`null` when not finite), TEXT as a string (`""` when it
/// is not UTF-8), a BLOB as its text.
pub open spec fn cell_json(c: SqlCell) -> Json {
    match c {
        SqlCell::Null => Json::Null,
        SqlCell::Integer(i) => Json::Number(int_num(i)),
        SqlCell::Real(Some(n)) => Json::Number(n@),
        SqlCell::Real(None) => Json::Null,
        SqlCell::Text(Some(s)) => Json::Str(s@),
        SqlCell::Text(None) => Json::Str(Seq::empty()),
        SqlCell::Blob(s) => Json::Str(s@),
    }
}

/// The entries after `Map::insert` on entries kept in key order: the value
/// replaces that of an equal key, else the entry goes before the first
/// greater key.
pub open spec fn entries_insert(es: Seq<(Seq<char>, Json)>, k: Seq<char>, v: Json) -> Seq<(Seq<char>, Json)>
    decreases es.len(),
{
    if es.len() == 0 {
        seq![(k, v)]
    } else if es[0].0 == k {
        seq![(k, v)] + es.drop_first()
    } else if key_lt(k, es[0].0) {
        seq![(k, v)] + es
    } else {
        seq![es[0]] + entries_insert(es.drop_first(), k, v)
    }
}

/// The entries of a row object after its first `n` columns are inserted.
pub open spec fn row_entries(columns: Seq<String>, cells: Seq<SqlCell>, n: int) -> Seq<(Seq<char>, Json)>
    decreases n,
{
    if n <= 0 {
        Seq::empty()
    } else {
        entries_insert(row_entries(columns, cells, n - 1), columns[n - 1]@, cell_json(cells[n - 1]))
    }
}

/// The object for a row: each column's name with its cell, a later column
/// replacing an earlier one of the same name, keys in `Map` order.
pub open spec fn row_object(columns: Seq<String>, cells: Seq<SqlCell>) -> Json {
    Json::Object(row_entries(columns, cells, columns.len() as int))
}

/// Inserting into entries in key order keeps them in key order, and each
/// key of the result is `k` or a key of `es`.
proof fn lemma_insert_sorted(es: Seq<(Seq<char>, Json)>, k: Seq<char>, v: Json)
    requires
        keys_sorted(es),
    ensures
        keys_sorted(entries_insert(es, k, v)),
        forall|i: int|
            0 <= i < entries_insert(es, k, v).len() ==> (#[trigger] entries_insert(es, k, v)[i]).0 == k
                || exists|j: int| 0 <= j < es.len() && entries_insert(es, k, v)[i].0 == es[j].0,
    decreases es.len(),
{
    let r = entries_insert(es, k, v);
    if es.len() == 0 {
    } else if es[0].0 == k {
        let rest = es.drop_first();
        assert(r == seq![(k, v)] + rest);
        assert forall|i: int, j: int| 0 <= i < j < r.len() implies key_lt(#[trigger] r[i].0, #[trigger] r[j].0) by {
            assert(r[j] == es[j]);
            if i > 0 {
                assert(r[i] == es[i]);
            }
            assert(key_lt(es[0].0, es[j].0));
            assert(key_lt(es[i].0, es[j].0));
        }
        assert forall|i: int| 0 <= i < r.len() implies (#[trigger] r[i]).0 == k || exists|j: int|
            0 <= j < es.len() && r[i].0 == es[j].0 by {
            if i > 0 {
                assert(r[i] == es[i]);
            }
        }
    } else if key_lt(k, es[0].0) {
        assert(r == seq![(k, v)] + es);
        assert forall|i: int, j: int| 0 <= i < j < r.len() implies key_lt(#[trigger] r[i].0, #[trigger] r[j].0) by {
            assert(r[j] == es[j - 1]);
            if i > 0 {
                assert(r[i] == es[i - 1]);
                assert(key_lt(es[i - 1].0, es[j - 1].0));
            } else if j - 1 > 0 {
                assert(key_lt(es[0].0, es[j - 1].0));
                lemma_key_lt_trans(k, es[0].0, es[j - 1].0);
            }
        }
        assert forall|i: int| 0 <= i < r.len() implies (#[trigger] r[i]).0 == k || exists|j: int|
            0 <= j < es.len() && r[i].0 == es[j].0 by {
            if i > 0 {
                assert(r[i] == es[i - 1]);
            }
        }
    } else {
        lemma_key_lt_total(k, es[0].0);
        let rest = es.drop_first();
        assert(keys_sorted(rest)) by {
            assert forall|i: int, j: int| 0 <= i < j < rest.len() implies key_lt(#[trigger] rest[i].0, #[trigger] rest[j].0) by {
                assert(rest[i] == es[i + 1]);
                assert(rest[j] == es[j + 1]);
                assert(key_lt(es[i + 1].0, es[j + 1].0));
            }
        }
        lemma_insert_sorted(rest, k, v);
        let t = entries_insert(rest, k, v);
        assert(r == seq![es[0]] + t);
        assert forall|i: int| 0 <= i < t.len() implies key_lt(es[0].0, #[trigger] t[i].0) by {
            if t[i].0 != k {
                let j = choose|j: int| 0 <= j < rest.len() && t[i].0 == rest[j].0;
                assert(rest[j] == es[j + 1]);
                assert(key_lt(es[0].0, es[j + 1].0));
            }
        }
        assert forall|i: int, j: int| 0 <= i < j < r.len() implies key_lt(#[trigger] r[i].0, #[trigger] r[j].0) by {
            assert(r[j] == t[j - 1]);
            if i > 0 {
                assert(r[i] == t[i - 1]);
                assert(key_lt(t[i - 1].0, t[j - 1].0));
            } else {
                assert(key_lt(es[0].0, t[j - 1].0));
            }
        }
        assert forall|i: int| 0 <= i < r.len() implies (#[trigger] r[i]).0 == k || exists|j: int|
            0 <= j < es.len() && r[i].0 == es[j].0 by {
            if i == 0 {
                assert(r[0].0 == es[0].0);
            } else {
                assert(r[i] == t[i - 1]);
                if t[i - 1].0 != k {
                    let j = choose|j: int| 0 <= j < rest.len() && t[i - 1].0 == rest[j].0;
                    assert(rest[j] == es[j + 1]);
                }
            }
        }
    }
}

proof fn lemma_insert_values_wf(es: Seq<(Seq<char>, Json)>, k: Seq<char>, v: Json)
    requires
        json_wf(v),
        forall|i: int| 0 <= i < es.len() ==> json_wf(#[trigger] es[i].1),
    ensures
        forall|i: int| 0 <= i < entries_insert(es, k, v).len() ==> json_wf(#[trigger] entries_insert(es, k, v)[i].1),
    decreases es.len(),
{
    let r = entries_insert(es, k, v);
    if es.len() > 0 {
        if es[0].0 == k {
            assert forall|i: int| 0 <= i < r.len() implies json_wf(#[trigger] r[i].1) by {
                if i > 0 {
                    assert(r[i] == es[i]);
                }
            }
        } else if key_lt(k, es[0].0) {
            assert forall|i: int| 0 <= i < r.len() implies json_wf(#[trigger] r[i].1) by {
                if i > 0 {
                    assert(r[i] == es[i - 1]);
                }
            }
        } else {
            let rest = es.drop_first();
            assert forall|i: int| 0 <= i < rest.len() implies json_wf(#[trigger] rest[i].1) by {
                assert(rest[i] == es[i + 1]);
            }
            lemma_insert_values_wf(rest, k, v);
            let t = entries_insert(rest, k, v);
            assert forall|i: int| 0 <= i < r.len() implies json_wf(#[trigger] r[i].1) by {
                if i > 0 {
                    assert(r[i] == t[i - 1]);
                }
            }
        }
    }
}

/// A row object keeps its keys in order, and holds no array or object.
proof fn lemma_row_entries_wf(columns: Seq<String>, cells: Seq<SqlCell>, n: int)
    ensures
        json_wf(Json::Object(row_entries(columns, cells, n))),
    decreases n,
{
    if n > 0 {
        lemma_row_entries_wf(columns, cells, n - 1);
        let prev = row_entries(columns, cells, n - 1);
        lemma_insert_sorted(prev, columns[n - 1]@, cell_json(cells[n - 1]));
        lemma_insert_values_wf(prev, columns[n - 1]@, cell_json(cells[n - 1]));
    }
}

/// Model of a vector of entries.
pub open spec fn entries_model(es: Seq<(String, JsonValue)>) -> Seq<(Seq<char>, Json)> {
    Seq::new(es.len(), |i: int| (es[i].0@, es[i].1@))
}

fn copy_cell(c: &SqlCell) -> (r: JsonValue)
    ensures
        r@ == cell_json(*c),
{
    match c {
        SqlCell::Null => JsonValue::Null,
        SqlCell::Integer(i) => JsonValue::Number(JsonNumber::from_i64(*i)),
        SqlCell::Real(Some(n)) => JsonValue::Number(n.copy()),
        SqlCell::Real(None) => JsonValue::Null,
        SqlCell::Text(Some(s)) => JsonValue::String(s.clone()),
        SqlCell::Text(None) => JsonValue::String(String::new()),
        SqlCell::Blob(s) => JsonValue::String(s.clone()),
    }
}

/// `Map::insert` on entries kept in key order.
fn insert_entry(es: &mut Vec<(String, JsonValue)>, k: String, v: JsonValue)
    ensures
        entries_model(final(es)@) == entries_insert(entries_model(old(es)@), k@, v@),
{
    let ghost m = entries_model(es@);
    let ghost kv = (k@, v@);
    let kc = chars_of(k.as_str());
    let mut i: usize = 0;
    assert(m.take(0) + m.skip(0) =~= m);
    while i < es.len()
        invariant
            i <= es@.len(),
            es@ == old(es)@,
            m == entries_model(es@),
            kc@ == k@,
            kv == (k@, v@),
            entries_insert(m, k@, v@) == m.take(i as int) + entries_insert(m.skip(i as int), k@, v@),
        decreases es@.len() - i,
    {
        let ec = chars_of(es[i].0.as_str());
        assert(m.skip(i as int)[0] == m[i as int]);
        assert(m[i as int].0 == ec@);
        if chars_eq(ec.as_slice(), kc.as_slice()) {
            let ghost before = es@;
            es.remove(i);
            es.insert(i, (k, v));
            proof {
                assert(entries_model(es@) =~= m.take(i as int) + (seq![kv] + m.skip(i as int).drop_first()));
            }
            return;
        }
        if key_lt_exec(kc.as_slice(), ec.as_slice()) {
            es.insert(i, (k, v));
            proof {
                assert(entries_model(es@) =~= m.take(i as int) + (seq![kv] + m.skip(i as int)));
            }
            return;
        }
        proof {
            assert(m.skip(i as int).drop_first() =~= m.skip(i + 1));
            assert(m.take(i as int) + (seq![m[i as int]] + entries_insert(m.skip(i + 1), k@, v@)) =~= m.take(i + 1)
                + entries_insert(m.skip(i + 1), k@, v@));
        }
        i = i + 1;
    }
    proof {
        assert(m.skip(i as int) =~= Seq::<(Seq<char>, Json)>::empty());
    }
    es.push((k, v));
    assert(entries_model(es@) =~= m.take(i as int) + seq![kv]);
}

/// The JSON rows a query gives: one object per row, each column's name with
/// its cell, a later column replacing an earlier one of the same name, keys
/// in the order `serde_json::Map` keeps them.
pub fn rows_to_json(columns: &Vec<String>, rows: &Vec<Vec<SqlCell>>) -> (r: JsonValue)
    requires
        forall|i: int| 0 <= i < rows@.len() ==> (#[trigger] rows@[i])@.len() == columns@.len(),
    ensures
        r@ == Json::Array(Seq::new(rows@.len(), |i: int| row_object(columns@, rows@[i]@))),
        json_wf(r@),
{
    let mut out: Vec<JsonValue> = Vec::new();
    let mut i: usize = 0;
    while i < rows.len()
        invariant
            i <= rows@.len(),
            out@.len() == i,
            forall|k: int| 0 <= k < rows@.len() ==> (#[trigger] rows@[k])@.len() == columns@.len(),
            forall|k: int| 0 <= k < i ==> (#[trigger] out@[k])@ == row_object(columns@, rows@[k]@),
        decreases rows@.len() - i,
    {
        let row = &rows[i];
        let mut es: Vec<(String, JsonValue)> = Vec::new();
        let mut j: usize = 0;
        assert(entries_model(es@) =~= row_entries(columns@, row@, 0));
        while j < columns.len()
            invariant
                j <= columns@.len(),
                row@.len() == columns@.len(),
                entries_model(es@) == row_entries(columns@, row@, j as int),
            decreases columns@.len() - j,
        {
            let cell = copy_cell(&row[j]);
            insert_entry(&mut es, columns[j].clone(), cell);
            j = j + 1;
        }
        let obj = JsonValue::Object(es);
        assert(obj@->Object_0 =~= row_entries(columns@, row@, columns@.len() as int));
        out.push(obj);
        i = i + 1;
    }
    let r = JsonValue::Array(out);
    assert(r@->Array_0 =~= Seq::new(rows@.len(), |i: int| row_object(columns@, rows@[i]@)));
    assert forall|i: int| 0 <= i < r@->Array_0.len() implies json_wf(#[trigger] r@->Array_0[i]) by {
        lemma_row_entries_wf(columns@, rows@[i]@, columns@.len() as int);
    }
    r
}

/// Attributes that name no registered provider, or name one without a
/// value, are passed over: the scope comes from the first attribute that
/// names a provider and has a value.
pub proof fn lemma_unrelated_attributes_passed_over(kinds: Seq<ProviderKind>, a: AttrModel, rest: Seq<AttrModel>)
    requires
        provider_for(kinds, a.0) is None || a.1 is None,
    ensures
        scope_request(kinds, seq![a] + rest) == scope_request(kinds, rest),
{
    assert((seq![a] + rest).drop_first() =~= rest);
    assert((seq![a] + rest)[0] == a);
}

} // verus!
