use serde_json::Map as JsonMap;
use serde_json::Value as JsonValue;
use vstd::prelude::*;

use crate::parser::GonError;
use crate::value::{i128_of_text, items_tree, keys_unique, pairs_tree, Object, Tree, Value};

verus! {

#[verifier::external_type_specification]
#[verifier::external_body]
pub struct ExJsonValue(JsonValue);

#[verifier::external_type_specification]
#[verifier::external_body]
#[verifier::reject_recursive_types(K)]
#[verifier::reject_recursive_types(V)]
pub struct ExJsonMap<K, V>(JsonMap<K, V>);

/// What a JSON value holds. A number is the text that it is displayed as.
pub enum Json {
    Null,
    Bool(bool),
    Number(Seq<char>),
    Str(Seq<char>),
    Array(Seq<Json>),
    Object(Map<Seq<char>, Json>),
}

/// What the JSON value `v` holds.
pub uninterp spec fn json_model(v: JsonValue) -> Json;

/// The object with no keys.
pub open spec fn no_entries() -> Map<Seq<char>, Json> {
    Map::empty()
}

/// The map inside a JSON object.
pub type JsonObject = JsonMap<String, JsonValue>;

/// What the JSON object map `m` holds: each key with the model of its value.
pub uninterp spec fn map_model(m: JsonObject) -> Map<Seq<char>, Json>;

/// The display text of the JSON number that `serde_json` reads from `t`, where `t` is one.
pub uninterp spec fn json_number_text(t: Seq<char>) -> Option<Seq<char>>;

/// The map that entering the entries `es` in order builds: a later key replaces an earlier one.
pub open spec fn entries_map(es: Seq<(Seq<char>, Json)>) -> Map<Seq<char>, Json>
    decreases es.len(),
{
    if es.len() == 0 {
        Map::empty()
    } else {
        entries_map(es.drop_last()).insert(es.last().0, es.last().1)
    }
}

pub open spec fn entries_of(es: Seq<(String, JsonValue)>) -> Seq<(Seq<char>, Json)> {
    es.map_values(|e: (String, JsonValue)| (e.0@, json_model(e.1)))
}

pub open spec fn models_of(js: Seq<JsonValue>) -> Seq<Json> {
    js.map_values(|j: JsonValue| json_model(j))
}

pub open spec fn digit_char(d: nat) -> char {
    if d == 0 {
        '0'
    } else if d == 1 {
        '1'
    } else if d == 2 {
        '2'
    } else if d == 3 {
        '3'
    } else if d == 4 {
        '4'
    } else if d == 5 {
        '5'
    } else if d == 6 {
        '6'
    } else if d == 7 {
        '7'
    } else if d == 8 {
        '8'
    } else {
        '9'
    }
}

pub open spec fn digits_text(n: nat) -> Seq<char>
    decreases n,
{
    if n < 10 {
        seq![digit_char(n)]
    } else {
        digits_text(n / 10).push(digit_char(n % 10))
    }
}

/// `n` in decimal, with a leading `-` where it is negative.
pub open spec fn int_text(n: int) -> Seq<char> {
    if n < 0 {
        seq!['-'] + digits_text((-n) as nat)
    } else {
        digits_text(n as nat)
    }
}

/// The JSON number, as display text, that a numeric literal becomes: an integer where the text
/// is one that JSON holds exactly, else what `serde_json` reads from the text.
pub open spec fn num_json(t: Seq<char>) -> Option<Seq<char>> {
    match i128_of_text(t) {
        Some(n) => if i64::MIN <= n <= u64::MAX {
            Some(int_text(n as int))
        } else {
            json_number_text(t)
        },
        None => json_number_text(t),
    }
}

/// The JSON value that `t` becomes, or the first numeric literal that has no JSON number.
pub open spec fn json_of(t: Tree) -> Result<Json, Seq<char>>
    decreases t,
{
    match t {
        Tree::Null => Ok(Json::Null),
        Tree::Bool(b) => Ok(Json::Bool(b)),
        Tree::Str(s, _) => Ok(Json::Str(s)),
        Tree::Num(x) => match num_json(x) {
            Some(y) => Ok(Json::Number(y)),
            None => Err(x),
        },
        Tree::List(xs) => match json_items(xs) {
            Ok(js) => Ok(Json::Array(js)),
            Err(e) => Err(e),
        },
        Tree::Obj(ps) => match json_entries(ps) {
            Ok(es) => Ok(Json::Object(entries_map(es))),
            Err(e) => Err(e),
        },
    }
}

pub open spec fn json_items(xs: Seq<Tree>) -> Result<Seq<Json>, Seq<char>>
    decreases xs,
{
    if xs.len() == 0 {
        Ok(Seq::empty())
    } else {
        match json_items(xs.drop_last()) {
            Err(e) => Err(e),
            Ok(js) => match json_of(xs.last()) {
                Err(e) => Err(e),
                Ok(j) => Ok(js.push(j)),
            },
        }
    }
}

pub open spec fn json_entries(ps: Seq<(Seq<char>, Tree)>) -> Result<
    Seq<(Seq<char>, Json)>,
    Seq<char>,
>
    decreases ps,
{
    if ps.len() == 0 {
        Ok(Seq::empty())
    } else {
        match json_entries(ps.drop_last()) {
            Err(e) => Err(e),
            Ok(es) => match json_of(ps.last().1) {
                Err(e) => Err(e),
                Ok(j) => Ok(es.push((ps.last().0, j))),
            },
        }
    }
}

/// `t` is what the JSON value `j` reads as: a string is never raw, a number keeps its text,
/// and an object holds the same keys, once each, in some order.
pub open spec fn json_tree(j: Json, t: Tree) -> bool
    decreases t,
{
    match t {
        Tree::Null => j == Json::Null,
        Tree::Bool(b) => j == Json::Bool(b),
        Tree::Num(x) => j == Json::Number(x),
        Tree::Str(s, raw) => !raw && j == Json::Str(s),
        Tree::List(ts) => j is Array && j->Array_0.len() == ts.len() && forall|i: int|
            0 <= i < ts.len() ==> json_tree(j->Array_0[i], #[trigger] ts[i]),
        Tree::Obj(ps) => j is Object && keys_unique(ps) && j->Object_0.dom().finite()
            && j->Object_0.dom().len() == ps.len() && forall|i: int|
            0 <= i < ps.len() ==> j->Object_0.contains_key(#[trigger] ps[i].0) && json_tree(
                j->Object_0[ps[i].0],
                ps[i].1,
            ),
    }
}

/// A JSON value with its children handed out.
pub enum JsonNode {
    Null,
    Bool(bool),
    Number(String),
    Str(String),
    Array(Vec<JsonValue>),
    Object(Vec<(String, JsonValue)>),
}

/// Relies on the `serde_json::Value::Null` variant.
#[verifier::external_body]
fn json_null() -> (r: JsonValue)
    ensures
        json_model(r) == Json::Null,
{
    JsonValue::Null
}

/// Relies on the `serde_json::Value::Bool` variant.
#[verifier::external_body]
fn json_bool(b: bool) -> (r: JsonValue)
    ensures
        json_model(r) == Json::Bool(b),
{
    JsonValue::Bool(b)
}

/// Relies on the `serde_json::Value::String` variant.
#[verifier::external_body]
fn json_string(s: String) -> (r: JsonValue)
    ensures
        json_model(r) == Json::Str(s@),
{
    JsonValue::String(s)
}

/// Relies on `serde_json::Number::from_i128`: a number exactly where `n` fits `i64` or `u64`,
/// displayed in decimal.
#[verifier::external_body]
fn json_int(n: i128) -> (r: Option<JsonValue>)
    ensures
        r is Some <==> (i64::MIN <= n <= u64::MAX),
        r matches Some(j) ==> json_model(j) == Json::Number(int_text(n as int)),
{
    serde_json::Number::from_i128(n).map(JsonValue::Number)
}

/// Relies on `FromStr` for `serde_json::Number`: reads `t` as JSON number text.
#[verifier::external_body]
fn json_number(t: &str) -> (r: Option<JsonValue>)
    ensures
        r is Some <==> json_number_text(t@) is Some,
        r matches Some(j) ==> json_model(j) == Json::Number(json_number_text(t@)->0),
{
    t.parse::<serde_json::Number>().ok().map(JsonValue::Number)
}

/// Relies on the `serde_json::Value::Array` variant.
#[verifier::external_body]
fn json_array(items: Vec<JsonValue>) -> (r: JsonValue)
    ensures
        json_model(r) == Json::Array(models_of(items@)),
{
    JsonValue::Array(items)
}

/// Relies on `serde_json::Map::new`: an empty map.
#[verifier::external_body]
fn json_map_new() -> (r: JsonObject)
    ensures
        map_model(r) == no_entries(),
{
    JsonMap::new()
}

/// Relies on `serde_json::Map::insert`: a new key is added, a present key takes the new value.
#[verifier::external_body]
fn json_map_insert(m: &mut JsonObject, k: String, v: JsonValue)
    ensures
        map_model(*final(m)) == map_model(*old(m)).insert(k@, json_model(v)),
{
    m.insert(k, v);
}

/// Relies on the `serde_json::Value::Object` variant.
#[verifier::external_body]
fn json_object(m: JsonObject) -> (r: JsonValue)
    ensures
        json_model(r) == Json::Object(map_model(m)),
{
    JsonValue::Object(m)
}

/// Relies on the variants of `serde_json::Value`, on `Display` for `serde_json::Number`, and on
/// a `serde_json::Map` handing out each of its keys once.
#[verifier::external_body]
fn open_json(v: JsonValue) -> (r: JsonNode)
    ensures
        match r {
            JsonNode::Null => json_model(v) == Json::Null,
            JsonNode::Bool(b) => json_model(v) == Json::Bool(b),
            JsonNode::Number(t) => json_model(v) == Json::Number(t@),
            JsonNode::Str(s) => json_model(v) == Json::Str(s@),
            JsonNode::Array(items) => json_model(v) == Json::Array(models_of(items@)),
            JsonNode::Object(es) => json_model(v) == Json::Object(entries_map(entries_of(es@)))
                && keys_unique_json(entries_of(es@)),
        },
{
    match v {
        JsonValue::Null => JsonNode::Null,
        JsonValue::Bool(b) => JsonNode::Bool(b),
        JsonValue::Number(n) => JsonNode::Number(n.to_string()),
        JsonValue::String(s) => JsonNode::Str(s),
        JsonValue::Array(items) => JsonNode::Array(items),
        JsonValue::Object(m) => JsonNode::Object(m.into_iter().collect()),
    }
}

/// No two entries share a key.
pub open spec fn keys_unique_json(es: Seq<(Seq<char>, Json)>) -> bool {
    forall|i: int, j: int|
        0 <= i < es.len() && 0 <= j < es.len() && i != j ==> #[trigger] es[i].0 != #[trigger] es[j].0
}

/// A run of items that meets a numeric literal with no JSON number keeps that error however
/// it goes on.
proof fn lemma_items_err(xs: Seq<Tree>, k: int)
    requires
        0 <= k <= xs.len(),
        json_items(xs.take(k)) is Err,
    ensures
        json_items(xs) == json_items(xs.take(k)),
    decreases xs.len() - k,
{
    if k == xs.len() {
        assert(xs.take(k) =~= xs);
    } else {
        assert(xs.take(k + 1).drop_last() =~= xs.take(k));
        lemma_items_err(xs, k + 1);
    }
}

proof fn lemma_entries_err(ps: Seq<(Seq<char>, Tree)>, k: int)
    requires
        0 <= k <= ps.len(),
        json_entries(ps.take(k)) is Err,
    ensures
        json_entries(ps) == json_entries(ps.take(k)),
    decreases ps.len() - k,
{
    if k == ps.len() {
        assert(ps.take(k) =~= ps);
    } else {
        assert(ps.take(k + 1).drop_last() =~= ps.take(k));
        lemma_entries_err(ps, k + 1);
    }
}

/// Entries with unique keys make a map with exactly those keys, each bound to its value.
proof fn lemma_entries_map(es: Seq<(Seq<char>, Json)>)
    requires
        keys_unique_json(es),
    ensures
        entries_map(es).dom().finite(),
        entries_map(es).dom().len() == es.len(),
        forall|i: int|
            0 <= i < es.len() ==> #[trigger] entries_map(es).contains_key(es[i].0)
                && entries_map(es)[es[i].0] == es[i].1,
        forall|k: Seq<char>|
            #[trigger] entries_map(es).contains_key(k) ==> exists|i: int|
                0 <= i < es.len() && es[i].0 == k,
    decreases es.len(),
{
    if es.len() > 0 {
        let pre = es.drop_last();
        assert(keys_unique_json(pre)) by {
            assert forall|i: int, j: int|
                0 <= i < pre.len() && 0 <= j < pre.len() && i != j implies #[trigger] pre[i].0
                != #[trigger] pre[j].0 by {
                assert(pre[i] == es[i] && pre[j] == es[j]);
            }
        }
        lemma_entries_map(pre);
        let last = es.last();
        if entries_map(pre).contains_key(last.0) {
            let i = choose|i: int| 0 <= i < pre.len() && pre[i].0 == last.0;
            assert(es[i].0 == es[es.len() - 1].0);
        }
        assert forall|i: int| 0 <= i < es.len() implies #[trigger] entries_map(es).contains_key(
            es[i].0,
        ) && entries_map(es)[es[i].0] == es[i].1 by {
            if i < es.len() - 1 {
                assert(es[i] == pre[i]);
                assert(es[i].0 != es[es.len() - 1].0);
            }
        }
        assert forall|k: Seq<char>| #[trigger] entries_map(es).contains_key(k) implies exists|
            i: int,
        | 0 <= i < es.len() && es[i].0 == k by {
            if k != last.0 {
                let i = choose|i: int| 0 <= i < pre.len() && pre[i].0 == k;
                assert(es[i] == pre[i]);
            } else {
                assert(es[es.len() - 1].0 == k);
            }
        }
    }
}

impl Value {
    /// The JSON value that this value becomes: `Err(NumericConversionError)` with the first
    /// numeric literal, in order, that has no JSON number. A literal that is an integer within
    /// `i64` or `u64` becomes that integer; any other literal is read by `serde_json`'s JSON
    /// number grammar (not a general float reading), so `1.`, `007.5` or `9_000` have no JSON
    /// number. Where a key repeats in an object, its last value is kept.
    pub fn to_json(&self) -> (r: Result<JsonValue, GonError>)
        ensures
            match r {
                Ok(j) => json_of(self@) == Ok::<Json, Seq<char>>(json_model(j)),
                Err(e) => json_of(self@) matches Err(x) && e@
                    == crate::parser::ErrView::NumericConversion(x),
            },
        decreases self,
    {
        match self {
            Value::Null => Ok(json_null()),
            Value::Bool(b) => Ok(json_bool(*b)),
            Value::Str { text, raw: _ } => Ok(json_string(text.clone())),
            Value::Num(t) => {
                let as_int = match self.as_i128() {
                    Some(n) => json_int(n),
                    None => None,
                };
                match as_int {
                    Some(j) => Ok(j),
                    None => match json_number(t.as_str()) {
                        Some(j) => Ok(j),
                        None => Err(GonError::NumericConversionError(t.clone())),
                    },
                }
            },
            Value::List(xs) => {
                let ghost ts = items_tree(xs@);
                let mut out: Vec<JsonValue> = Vec::new();
                let mut i: usize = 0;
                proof {
                    assert(ts.take(0) =~= Seq::<Tree>::empty());
                    assert(models_of(out@) =~= Seq::<Json>::empty());
                }
                while i < xs.len()
                    invariant
                        i <= xs@.len(),
                        *self == Value::List(*xs),
                        ts == items_tree(xs@),
                        json_items(ts.take(i as int)) == Ok::<Seq<Json>, Seq<char>>(
                            models_of(out@),
                        ),
                    decreases xs@.len() - i,
                {
                    proof {
                        assert(decreases_to!(*self => (*self)->List_0));
                        assert(decreases_to!(*xs => xs@));
                        assert(decreases_to!(xs@ => xs@[i as int]));
                        let tk = ts.take(i + 1);
                        assert(tk.drop_last() =~= ts.take(i as int));
                        assert(tk.last() == xs@[i as int]@);
                    }
                    let j = match xs[i].to_json() {
                        Ok(j) => j,
                        Err(e) => {
                            proof {
                                lemma_items_err(ts, i + 1);
                            }
                            return Err(e);
                        },
                    };
                    let ghost before = models_of(out@);
                    out.push(j);
                    proof {
                        assert(models_of(out@) =~= before.push(json_model(j)));
                    }
                    i = i + 1;
                }
                proof {
                    assert(ts.take(xs@.len() as int) =~= ts);
                }
                Ok(json_array(out))
            },
            Value::Obj(o) => {
                let ghost ps = pairs_tree(o.pairs@);
                let mut out = json_map_new();
                let ghost mut es: Seq<(Seq<char>, Json)> = Seq::empty();
                let mut i: usize = 0;
                proof {
                    assert(ps.take(0) =~= Seq::<(Seq<char>, Tree)>::empty());
                    assert(map_model(out) =~= entries_map(es));
                }
                while i < o.pairs.len()
                    invariant
                        i <= o.pairs@.len(),
                        *self == Value::Obj(*o),
                        ps == pairs_tree(o.pairs@),
                        json_entries(ps.take(i as int)) == Ok::<Seq<(Seq<char>, Json)>, Seq<char>>(
                            es,
                        ),
                        map_model(out) == entries_map(es),
                    decreases o.pairs@.len() - i,
                {
                    proof {
                        assert(decreases_to!(*self => (*self)->Obj_0));
                        assert(decreases_to!(*o => o.pairs));
                        assert(decreases_to!(o.pairs => o.pairs@));
                        assert(decreases_to!(o.pairs@ => o.pairs@[i as int]));
                        assert(decreases_to!(o.pairs@[i as int] => o.pairs@[i as int].1));
                        let tk = ps.take(i + 1);
                        assert(tk.drop_last() =~= ps.take(i as int));
                        assert(tk.last() == (o.pairs@[i as int].0@, o.pairs@[i as int].1@));
                    }
                    let j = match o.pairs[i].1.to_json() {
                        Ok(j) => j,
                        Err(e) => {
                            proof {
                                lemma_entries_err(ps, i + 1);
                            }
                            return Err(e);
                        },
                    };
                    let k = o.pairs[i].0.clone();
                    let ghost entry = (k@, json_model(j));
                    json_map_insert(&mut out, k, j);
                    proof {
                        let prev = es;
                        es = es.push(entry);
                        assert(es.drop_last() =~= prev);
                    }
                    i = i + 1;
                }
                proof {
                    assert(ps.take(o.pairs@.len() as int) =~= ps);
                }
                Ok(json_object(out))
            },
        }
    }

    /// The value that the JSON value `j` reads as: strings are not raw, numbers keep their
    /// display text, and objects keep their keys in the order that `j` hands them out.
    pub fn from_json(j: JsonValue) -> (r: Value)
        ensures
            json_tree(json_model(j), r@),
        decreases json_model(j),
    {
        let ghost jm = json_model(j);
        match open_json(j) {
            JsonNode::Null => Value::Null,
            JsonNode::Bool(b) => Value::Bool(b),
            JsonNode::Number(t) => Value::Num(t),
            JsonNode::Str(s) => Value::Str { text: s, raw: false },
            JsonNode::Array(items) => {
                let ghost orig = items@;
                let ghost ms = models_of(orig);
                let mut items = items;
                let mut out: Vec<Value> = Vec::new();
                while items.len() > 0
                    invariant
                        jm == Json::Array(ms),
                        jm == json_model(j),
                        ms == models_of(orig),
                        items@ == orig.take(items@.len() as int),
                        items@.len() + out@.len() == orig.len(),
                        forall|k: int|
                            0 <= k < out@.len() ==> json_tree(
                                ms[items@.len() + k],
                                #[trigger] out@[k]@,
                            ),
                    decreases items@.len(),
                {
                    let ghost idx = items@.len() - 1;
                    let x = items.pop().unwrap();
                    proof {
                        assert(x == orig[idx]);
                        assert(json_model(x) == ms[idx]);
                        assert(decreases_to!(jm => jm->Array_0));
                        assert(decreases_to!(ms => ms[idx]));
                        assert(decreases_to!(jm => json_model(x)));
                        assert(items@ =~= orig.take(idx));
                    }
                    let v = Value::from_json(x);
                    let ghost old_out = out@;
                    out.insert(0, v);
                    proof {
                        assert forall|k: int| 0 <= k < out@.len() implies json_tree(
                            ms[items@.len() + k],
                            #[trigger] out@[k]@,
                        ) by {
                            if k > 0 {
                                assert(out@[k] == old_out[k - 1]);
                            }
                        }
                    }
                }
                let r = Value::List(out);
                proof {
                    let ts = items_tree(out@);
                    assert forall|i: int| 0 <= i < ts.len() implies json_tree(
                        jm->Array_0[i],
                        #[trigger] ts[i],
                    ) by {
                        assert(ts[i] == out@[i]@);
                    }
                }
                r
            },
            JsonNode::Object(entries) => {
                let ghost orig = entries@;
                let ghost es = entries_of(orig);
                proof {
                    lemma_entries_map(es);
                }
                let mut entries = entries;
                let mut out: Vec<(String, Value)> = Vec::new();
                while entries.len() > 0
                    invariant
                        jm == Json::Object(entries_map(es)),
                        jm == json_model(j),
                        es == entries_of(orig),
                        keys_unique_json(es),
                        entries_map(es).dom().finite(),
                        forall|i: int|
                            0 <= i < es.len() ==> #[trigger] entries_map(es).contains_key(es[i].0)
                                && entries_map(es)[es[i].0] == es[i].1,
                        entries@ == orig.take(entries@.len() as int),
                        entries@.len() + out@.len() == orig.len(),
                        forall|k: int|
                            0 <= k < out@.len() ==> (#[trigger] out@[k]).0@ == es[entries@.len()
                                + k].0 && json_tree(es[entries@.len() + k].1, out@[k].1@),
                    decreases entries@.len(),
                {
                    let ghost idx = entries@.len() - 1;
                    let (key, x) = entries.pop().unwrap();
                    proof {
                        assert((key, x) == orig[idx]);
                        assert(es[idx] == (key@, json_model(x)));
                        assert(entries_map(es).contains_key(es[idx].0));
                        assert(decreases_to!(jm => jm->Object_0));
                        assert(decreases_to!(entries_map(es) => entries_map(es)[es[idx].0]));
                        assert(decreases_to!(jm => json_model(x)));
                        assert(entries@ =~= orig.take(idx));
                    }
                    let v = Value::from_json(x);
                    let ghost old_out = out@;
                    out.insert(0, (key, v));
                    proof {
                        assert forall|k: int| 0 <= k < out@.len() implies (#[trigger] out@[k]).0@
                            == es[entries@.len() + k].0 && json_tree(
                            es[entries@.len() + k].1,
                            out@[k].1@,
                        ) by {
                            if k > 0 {
                                assert(out@[k] == old_out[k - 1]);
                            }
                        }
                    }
                }
                let r = Value::Obj(Object { pairs: out });
                proof {
                    let ps = pairs_tree(out@);
                    assert forall|i: int, k: int|
                        0 <= i < ps.len() && 0 <= k < ps.len() && i != k implies #[trigger] ps[i].0
                        != #[trigger] ps[k].0 by {
                        assert(ps[i].0 == out@[i].0@ && ps[k].0 == out@[k].0@);
                    }
                    assert forall|i: int| 0 <= i < ps.len() implies jm->Object_0.contains_key(
                        #[trigger] ps[i].0,
                    ) && json_tree(jm->Object_0[ps[i].0], ps[i].1) by {
                        assert(ps[i] == (out@[i].0@, out@[i].1@));
                    }
                }
                r
            },
        }
    }
}

} // verus!
