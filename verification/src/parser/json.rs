//! JSON log parser: format detection, scalar field lookup under the usual
//! key names, and flattening of nested objects into a dotted field map.
//!
//! Parsing proper is done by `serde_json` behind one trusted wrapper that
//! hands back an owned tree; everything that reads the tree is verified.
use vstd::prelude::*;
use vstd::string::StringSliceAdditionalSpecFns;
use vstd::utf8::encode_utf8;
use vstd::utf8::decode_utf8;
use crate::counts::KvMap;
use crate::counts::FlatState;
use crate::counts::flat_insert;
use crate::extract::first_occ;
use crate::parser::LogParser;
use crate::parser::ParsedLogLine;
use crate::parser::ParsedModel;
use crate::parser::deep_fields;
use crate::text::trim_of;

verus! {

/// An owned JSON tree: what one parsed log line holds.
pub enum JsonValue {
    Null,
    Bool(bool),
    Num(String),
    Str(String),
    Arr(Vec<JsonValue>),
    Obj(Vec<(String, JsonValue)>),
}

#[verifier::external_type_specification]
#[verifier::external_body]
pub struct ExSerdeValue(serde_json::Value);

/// The JSON tree that a line of text denotes, `None` when the text is not a
/// single well-formed JSON value.
pub uninterp spec fn json_of(s: Seq<char>) -> Option<JsonValue>;

/// Relies on `serde_json::Value`'s recursive structure: each variant is
/// carried over field by field, numbers as their rendered text.
#[verifier::external_body]
fn convert_value(v: &serde_json::Value) -> JsonValue {
    match v {
        serde_json::Value::Null => JsonValue::Null,
        serde_json::Value::Bool(b) => JsonValue::Bool(*b),
        serde_json::Value::Number(n) => JsonValue::Num(n.to_string()),
        serde_json::Value::String(s) => JsonValue::Str(s.clone()),
        serde_json::Value::Array(a) => JsonValue::Arr(a.iter().map(convert_value).collect()),
        serde_json::Value::Object(o) => JsonValue::Obj(
            o.iter().map(|p| (p.0.clone(), convert_value(p.1))).collect(),
        ),
    }
}

/// Relies on `serde_json::from_str`: succeeds exactly when the text is one
/// well-formed JSON value, optionally surrounded by JSON whitespace.
#[verifier::external_body]
fn parse_json(line: &str) -> (r: Option<JsonValue>)
    ensures
        r == json_of(line@),
{
    match serde_json::from_str::<serde_json::Value>(line) {
        Ok(v) => Some(convert_value(&v)),
        Err(_) => None,
    }
}

// ---------------------------------------------------------------------------
// Scalar lookup
// ---------------------------------------------------------------------------
/// The text a scalar leaf denotes; `None` for containers and nothing else.
pub open spec fn render_scalar(v: JsonValue) -> Option<Seq<char>> {
    match v {
        JsonValue::Str(s) => Some(s@),
        JsonValue::Num(s) => Some(s@),
        JsonValue::Bool(b) => Some(
            if b {
                "true"@
            } else {
                "false"@
            },
        ),
        _ => None,
    }
}

/// The first member of an object with the given key, scanning from `i`.
pub open spec fn obj_get(ps: Seq<(String, JsonValue)>, k: Seq<char>, i: int) -> Option<JsonValue>
    decreases ps.len() - i,
{
    if i < 0 || i >= ps.len() {
        None
    } else if ps[i].0@ == k {
        Some(ps[i].1)
    } else {
        obj_get(ps, k, i + 1)
    }
}

/// The rendered scalar under a key of a top-level object, if the key is
/// present with a scalar value.
pub open spec fn scalar_under(v: JsonValue, k: Seq<char>) -> Option<Seq<char>> {
    match v {
        JsonValue::Obj(ps) => match obj_get(ps@, k, 0) {
            Some(x) => render_scalar(x),
            None => None,
        },
        _ => None,
    }
}

/// The rendered scalar under the first of the given keys that has one.
pub open spec fn first_scalar(v: JsonValue, keys: Seq<Seq<char>>, i: int) -> Option<Seq<char>>
    decreases keys.len() - i,
{
    if i < 0 || i >= keys.len() {
        None
    } else {
        match scalar_under(v, keys[i]) {
            Some(s) => Some(s),
            None => first_scalar(v, keys, i + 1),
        }
    }
}

/// The key names under which a timestamp is looked for, in order.
pub open spec fn ts_keys() -> Seq<Seq<char>> {
    seq!["timestamp"@, "time"@, "@timestamp"@, "date"@, "datetime"@]
}

/// The key names under which a level is looked for, in order.
pub open spec fn level_keys() -> Seq<Seq<char>> {
    seq!["level"@, "severity"@, "loglevel"@, "log_level"@, "@level"@]
}

/// The key names under which a message is looked for, in order.
pub open spec fn msg_keys() -> Seq<Seq<char>> {
    seq!["message"@, "msg"@, "text"@, "description"@, "content"@]
}

/// Renders one scalar leaf.
fn render_scalar_exec(v: &JsonValue) -> (r: Option<String>)
    ensures
        match r {
            Some(s) => render_scalar(*v) == Some(s@),
            None => render_scalar(*v) is None,
        },
{
    match v {
        JsonValue::Str(s) => Some(s.clone()),
        JsonValue::Num(s) => Some(s.clone()),
        JsonValue::Bool(b) => {
            if *b {
                Some("true".to_owned())
            } else {
                Some("false".to_owned())
            }
        },
        _ => None,
    }
}

/// Looks one key up in a top-level object and renders its scalar value.
fn scalar_under_exec(v: &JsonValue, key: &str) -> (r: Option<String>)
    ensures
        match r {
            Some(s) => scalar_under(*v, key@) == Some(s@),
            None => scalar_under(*v, key@) is None,
        },
{
    match v {
        JsonValue::Obj(ps) => {
            let n = ps.len();
            let mut i: usize = 0;
            while i < n
                invariant
                    0 <= i <= n,
                    n == ps@.len(),
                    (*v) is Obj,
                    v->Obj_0@ == ps@,
                    obj_get(ps@, key@, 0) == obj_get(ps@, key@, i as int),
                decreases n - i,
            {
                if crate::text::str_eq(ps[i].0.as_str(), key) {
                    assert(obj_get(ps@, key@, i as int) == Some(ps@[i as int].1));
                    return render_scalar_exec(&ps[i].1);
                }
                i += 1;
            }
            None
        },
        _ => None,
    }
}

/// Finds the first of the given keys with a scalar value and renders it.
fn first_scalar_exec(v: &JsonValue, keys: &Vec<&str>) -> (r: Option<String>)
    ensures
        match r {
            Some(s) => first_scalar(*v, keys.deep_view(), 0) == Some(s@),
            None => first_scalar(*v, keys.deep_view(), 0) is None,
        },
{
    let n = keys.len();
    let mut i: usize = 0;
    while i < n
        invariant
            0 <= i <= n,
            n == keys@.len(),
            keys.deep_view().len() == keys@.len(),
            first_scalar(*v, keys.deep_view(), 0) == first_scalar(*v, keys.deep_view(), i as int),
        decreases n - i,
    {
        assert(keys.deep_view()[i as int] == keys@[i as int]@);
        if let Some(s) = scalar_under_exec(v, keys[i]) {
            return Some(s);
        }
        i += 1;
    }
    None
}

// ---------------------------------------------------------------------------
// Field flattening
// ---------------------------------------------------------------------------
/// The nesting limit: no new nested container is walked once this many
/// fields have been collected.
pub open spec fn flatten_limit() -> int {
    100
}

/// Flattens one JSON value under a prefix.
pub open spec fn flatten_spec(v: JsonValue, prefix: Seq<char>, st: FlatState) -> FlatState
    decreases v, 0int, 0int,
{
    match v {
        JsonValue::Obj(ps) => flatten_obj(ps@, 0, prefix, st),
        JsonValue::Arr(items) => flatten_arr(items@, 0, prefix, st),
        _ => st,
    }
}

/// The dotted name of a member under a prefix.
pub open spec fn member_name(prefix: Seq<char>, key: Seq<char>) -> Seq<char> {
    if prefix.len() == 0 {
        key
    } else {
        prefix + "."@ + key
    }
}

/// The indexed name of an array element under a prefix.
pub open spec fn element_name(prefix: Seq<char>, i: int) -> Seq<char> {
    prefix + "["@ + crate::text::dec_rep(i as nat) + "]"@
}

/// Flattens the members of an object, in member order, from position `k`.
pub open spec fn flatten_obj(
    ps: Seq<(String, JsonValue)>,
    k: int,
    prefix: Seq<char>,
    st: FlatState,
) -> FlatState
    decreases ps, 1int, ps.len() - k,
{
    if k < 0 || k >= ps.len() {
        st
    } else {
        let name = member_name(prefix, ps[k].0@);
        let st2 = match ps[k].1 {
            JsonValue::Obj(_) | JsonValue::Arr(_) => {
                if st.ks.len() < flatten_limit() {
                    flatten_spec(ps[k].1, name, st)
                } else {
                    st
                }
            },
            JsonValue::Str(s) => flat_insert(st, name, s@),
            JsonValue::Num(s) => flat_insert(st, name, s@),
            JsonValue::Bool(b) => flat_insert(
                st,
                name,
                if b {
                    "true"@
                } else {
                    "false"@
                },
            ),
            JsonValue::Null => flat_insert(st, name, "null"@),
        };
        flatten_obj(ps, k + 1, prefix, st2)
    }
}

/// Flattens the elements of an array, in element order, from position `k`.
pub open spec fn flatten_arr(
    items: Seq<JsonValue>,
    k: int,
    prefix: Seq<char>,
    st: FlatState,
) -> FlatState
    decreases items, 1int, items.len() - k,
{
    if k < 0 || k >= items.len() {
        st
    } else {
        let st2 = flatten_spec(items[k], element_name(prefix, k), st);
        flatten_arr(items, k + 1, prefix, st2)
    }
}

/// The flattening state a field container denotes.
pub open spec fn state_of(m: KvMap<String>) -> FlatState {
    FlatState { ks: m.key_seq(), m: deep_fields(m) }
}

/// Inserts one rendered leaf into the field container.
fn put_field(fields: &mut KvMap<String>, name: &str, v: String)
    requires
        old(fields).wf(),
    ensures
        final(fields).wf(),
        state_of(*final(fields)) == flat_insert(state_of(*old(fields)), name@, v@),
{
    let ghost prev = *fields;
    let ghost vv = v@;
    fields.insert(name, v);
    proof {
        assert(state_of(*fields).m =~= flat_insert(state_of(prev), name@, vv).m);
        assert(state_of(*fields).ks =~= flat_insert(state_of(prev), name@, vv).ks);
    }
}

/// Flattens one JSON value under a prefix into the field container.
fn flatten_into(v: &JsonValue, prefix: &str, fields: &mut KvMap<String>)
    requires
        old(fields).wf(),
    ensures
        final(fields).wf(),
        state_of(*final(fields)) == flatten_spec(*v, prefix@, state_of(*old(fields))),
    decreases v, 0int, 0int,
{
    match v {
        JsonValue::Obj(ps) => {
            let n = ps.len();
            let mut k: usize = 0;
            while k < n
                invariant
                    0 <= k <= n,
                    n == ps@.len(),
                    fields.wf(),
                    v is Obj,
                    v->Obj_0@ == ps@,
                    flatten_obj(ps@, 0, prefix@, state_of(*old(fields))) == flatten_obj(
                        ps@,
                        k as int,
                        prefix@,
                        state_of(*fields),
                    ),
                decreases n - k,
            {
                let name: String = if prefix.is_empty() {
                    ps[k].0.clone()
                } else {
                    let mut np = prefix.to_owned();
                    crate::text::push_str(&mut np, ".");
                    crate::text::push_str(&mut np, ps[k].0.as_str());
                    np
                };
                assert(name@ == member_name(prefix@, ps@[k as int].0@));
                let ghost st_before = state_of(*fields);
                match &ps[k].1 {
                    JsonValue::Obj(_) | JsonValue::Arr(_) => {
                        let limit_ok = fields.len() < 100;
                        if limit_ok {
                            proof {
                                vstd::seq::axiom_seq_index_decreases(ps@, k as int);
                            }
                            flatten_into(&ps[k].1, name.as_str(), fields);
                        }
                    },
                    JsonValue::Str(s) => {
                        put_field(fields, name.as_str(), s.clone());
                    },
                    JsonValue::Num(s) => {
                        put_field(fields, name.as_str(), s.clone());
                    },
                    JsonValue::Bool(b) => {
                        let rendered = if *b {
                            "true".to_owned()
                        } else {
                            "false".to_owned()
                        };
                        put_field(fields, name.as_str(), rendered);
                    },
                    JsonValue::Null => {
                        put_field(fields, name.as_str(), "null".to_owned());
                    },
                }
                k += 1;
            }
        },
        JsonValue::Arr(items) => {
            let n = items.len();
            let mut k: usize = 0;
            while k < n
                invariant
                    0 <= k <= n,
                    n == items@.len(),
                    fields.wf(),
                    v is Arr,
                    v->Arr_0@ == items@,
                    flatten_arr(items@, 0, prefix@, state_of(*old(fields))) == flatten_arr(
                        items@,
                        k as int,
                        prefix@,
                        state_of(*fields),
                    ),
                decreases n - k,
            {
                let mut np = prefix.to_owned();
                crate::text::push_str(&mut np, "[");
                let digits = crate::text::usize_to_string(k);
                crate::text::push_str(&mut np, digits.as_str());
                crate::text::push_str(&mut np, "]");
                assert(np@ == element_name(prefix@, k as int));
                proof {
                    vstd::seq::axiom_seq_index_decreases(items@, k as int);
                }
                flatten_into(&items[k], np.as_str(), fields);
                k += 1;
            }
        },
        _ => {},
    }
}

// ---------------------------------------------------------------------------
// The parser
// ---------------------------------------------------------------------------
/// One sample line looks like a JSON log record: a braced, well-formed JSON
/// value whose text names a timestamp-like and a level-like key.
pub open spec fn jsonish_line(line: Seq<char>) -> bool {
    let tb = trim_of(encode_utf8(line));
    &&& tb.len() > 0
    &&& tb[0] == 123
    &&& tb.last() == 125
    &&& json_of(decode_utf8(tb)) is Some
    &&& (crate::text::has_sub(tb, encode_utf8("timestamp"@)) || crate::text::has_sub(
        tb,
        encode_utf8("time"@),
    ) || crate::text::has_sub(tb, encode_utf8("@timestamp"@)))
    &&& (crate::text::has_sub(tb, encode_utf8("level"@)) || crate::text::has_sub(
        tb,
        encode_utf8("severity"@),
    ) || crate::text::has_sub(tb, encode_utf8("log_level"@)))
}

/// How many of the lines look like JSON log records.
pub open spec fn count_jsonish(lines: Seq<Seq<char>>) -> int
    decreases lines.len(),
{
    if lines.len() == 0 {
        0
    } else {
        count_jsonish(lines.drop_last()) + if jsonish_line(lines.last()) {
            1int
        } else {
            0int
        }
    }
}

/// Parser for JSON formatted logs.
#[derive(Clone, Copy)]
pub struct JsonLogParser;

impl JsonLogParser {
    /// Create a new JSON parser.
    pub fn new() -> (r: JsonLogParser) {
        JsonLogParser
    }
}

impl Default for JsonLogParser {
    fn default() -> (r: JsonLogParser) {
        JsonLogParser::new()
    }
}

/// Decides whether one line looks like a JSON log record.
fn jsonish_line_exec(line: &str) -> (r: bool)
    ensures
        r == jsonish_line(line@),
{
    let bytes = line.as_bytes();
    let tb = crate::text::trim_slice(bytes);
    let n = tb.len();
    if n == 0 {
        return false;
    }
    if !(tb[0] == 123 && tb[n - 1] == 125) {
        return false;
    }
    proof {
        vstd::utf8::encode_utf8_valid_utf8(line@);
        crate::text::lemma_trim_valid(line.spec_bytes());
    }
    let trimmed = match crate::text::utf8_str(tb) {
        Some(s) => s,
        None => {
            return false;
        },
    };
    if parse_json(trimmed).is_none() {
        return false;
    }
    let has_ts = contains_word(tb, "timestamp") || contains_word(tb, "time") || contains_word(
        tb,
        "@timestamp",
    );
    let has_level = contains_word(tb, "level") || contains_word(tb, "severity") || contains_word(
        tb,
        "log_level",
    );
    has_ts && has_level
}

/// Case-sensitive containment of a word's bytes in a byte slice.
fn contains_word(t: &[u8], w: &str) -> (r: bool)
    ensures
        r == crate::text::has_sub(t@, encode_utf8(w@)),
{
    let wb = w.as_bytes();
    match crate::extract::find_first(t, wb, 0) {
        Some(i) => {
            proof {
                crate::extract::lemma_first_occ(t@, wb@, 0);
            }
            true
        },
        None => {
            proof {
                if crate::text::has_sub(t@, wb@) {
                    let j = choose|j: int| crate::text::match_at(t@, wb@, j);
                    crate::extract::lemma_first_occ_finds(t@, wb@, 0, j);
                }
            }
            false
        },
    }
}

impl LogParser for JsonLogParser {
    /// At least forty percent of a non-empty sample must look like JSON log
    /// records.
    open spec fn spec_can_parse(&self, lines: Seq<Seq<char>>) -> bool {
        lines.len() > 0 && count_jsonish(lines) * 100 >= 40 * lines.len()
    }

    /// The scalars under the usual timestamp, level and message keys, the
    /// whole line as the message fallback, and the flattened field map.
    open spec fn spec_parse(&self, line: Seq<char>) -> ParsedModel {
        match json_of(line) {
            Some(v) => ParsedModel {
                timestamp: first_scalar(v, ts_keys(), 0),
                level: first_scalar(v, level_keys(), 0),
                message: match first_scalar(v, msg_keys(), 0) {
                    Some(m) => Some(m),
                    None => Some(line),
                },
                fields: flatten_spec(
                    v,
                    Seq::empty(),
                    FlatState { ks: Seq::empty(), m: Map::empty() },
                ).m,
            },
            None => ParsedModel {
                timestamp: None,
                level: None,
                message: Some(line),
                fields: Map::empty(),
            },
        }
    }

    fn name(&self) -> &'static str {
        "JSON"
    }

    fn can_parse(&self, sample_lines: &[&str]) -> (r: bool) {
        let n = sample_lines.len();
        if n == 0 {
            proof {
                assert(sample_lines.deep_view().len() == 0);
            }
            return false;
        }
        let mut valid: usize = 0;
        let mut i: usize = 0;
        while i < n
            invariant
                0 <= i <= n,
                n == sample_lines@.len(),
                sample_lines.deep_view().len() == n,
                valid <= i,
                valid == count_jsonish(sample_lines.deep_view().take(i as int)),
            decreases n - i,
        {
            proof {
                assert(sample_lines.deep_view().take(i + 1).drop_last() =~= sample_lines
                    .deep_view().take(i as int));
                assert(sample_lines.deep_view().take(i + 1).last() == sample_lines.deep_view()[
                    i as int]);
                assert(sample_lines.deep_view()[i as int] == sample_lines@[i as int]@);
            }
            if jsonish_line_exec(sample_lines[i]) {
                valid += 1;
            }
            i += 1;
        }
        proof {
            assert(sample_lines.deep_view().take(n as int) =~= sample_lines.deep_view());
        }
        (valid as u128) * 100 >= 40 * (n as u128)
    }

    fn parse_line(&self, line: &str) -> (r: ParsedLogLine) {
        match parse_json(line) {
            Some(v) => {
                let timestamp = first_scalar_exec(&v, &ts_keys_exec());
                let level = first_scalar_exec(&v, &level_keys_exec());
                let message = match first_scalar_exec(&v, &msg_keys_exec()) {
                    Some(m) => Some(m),
                    None => Some(line.to_owned()),
                };
                let mut fields: KvMap<String> = KvMap::new();
                proof {
                    assert(state_of(fields).ks =~= Seq::<Seq<char>>::empty());
                    assert(state_of(fields).m =~= Map::<Seq<char>, Seq<char>>::empty());
                }
                flatten_into(&v, "", &mut fields);
                let r = ParsedLogLine { timestamp, level, message, fields };
                proof {
                    reveal_strlit("");
                    assert(""@ =~= Seq::<char>::empty());
                }
                r
            },
            None => {
                let r = ParsedLogLine {
                    timestamp: None,
                    level: None,
                    message: Some(line.to_owned()),
                    fields: KvMap::new(),
                };
                proof {
                    assert(deep_fields(r.fields) =~= Map::<Seq<char>, Seq<char>>::empty());
                }
                r
            },
        }
    }
}

/// The timestamp key names.
fn ts_keys_exec() -> (r: Vec<&'static str>)
    ensures
        r.deep_view() =~= ts_keys(),
{
    let mut r: Vec<&'static str> = Vec::new();
    r.push("timestamp");
    r.push("time");
    r.push("@timestamp");
    r.push("date");
    r.push("datetime");
    r
}

/// The level key names.
fn level_keys_exec() -> (r: Vec<&'static str>)
    ensures
        r.deep_view() =~= level_keys(),
{
    let mut r: Vec<&'static str> = Vec::new();
    r.push("level");
    r.push("severity");
    r.push("loglevel");
    r.push("log_level");
    r.push("@level");
    r
}

/// The message key names.
fn msg_keys_exec() -> (r: Vec<&'static str>)
    ensures
        r.deep_view() =~= msg_keys(),
{
    let mut r: Vec<&'static str> = Vec::new();
    r.push("message");
    r.push("msg");
    r.push("text");
    r.push("description");
    r.push("content");
    r
}

} // verus!
