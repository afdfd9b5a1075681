//! Reads and writes JSON text.
use crate::json::{Json, JsonView, Member};
use crate::json;
use crate::text;
use vstd::prelude::*;

verus! {

/// A value of the `serde_json` crate.
#[verifier::external_type_specification]
#[verifier::external_body]
pub struct ExValue(serde_json::Value);

/// What a text stands for as JSON, or what is wrong with it.
pub uninterp spec fn json_parse(text: Seq<char>) -> Result<JsonView, Seq<char>>;

/// What a value of the `serde_json` crate holds. A number is what the crate writes for it.
pub uninterp spec fn value_contents(value: serde_json::Value) -> JsonView;

/// `serde_json::from_str` to a `serde_json::Value`: the value or the message depends on the text
/// alone.
#[verifier::external_body]
fn parse_value(text: &str) -> (r: Result<serde_json::Value, String>)
    ensures
        match (r, json_parse(text@)) {
            (Ok(v), Ok(j)) => value_contents(v) == j,
            (Err(e), Err(m)) => e@ == m,
            _ => false,
        },
{
    serde_json::from_str::<serde_json::Value>(text).map_err(|e| e.to_string())
}

/// A value of the `serde_json` crate, taken apart once.
enum Opened {
    Null,
    Bool(bool),
    Number(String),
    Text(String),
    Items(Vec<serde_json::Value>),
    Members(Vec<(String, serde_json::Value)>),
}

/// The contents of items.
pub open spec fn items_contents(items: Seq<serde_json::Value>) -> Seq<JsonView> {
    items.map_values(|v: serde_json::Value| value_contents(v))
}

/// The contents of members.
pub open spec fn members_contents(members: Seq<(String, serde_json::Value)>) -> Seq<
    (Seq<char>, JsonView),
> {
    members.map_values(|m: (String, serde_json::Value)| (m.0@, value_contents(m.1)))
}

/// The variants of `serde_json::Value`: each holds what its name says, a `serde_json::Map` its
/// members in the order in which the crate walks them.
#[verifier::external_body]
fn open_value(value: serde_json::Value) -> (r: Opened)
    ensures
        value_contents(value) == match r {
            Opened::Null => JsonView::Null,
            Opened::Bool(b) => JsonView::Bool(b),
            Opened::Number(s) => JsonView::Number(s@),
            Opened::Text(s) => JsonView::Str(s@),
            Opened::Items(v) => JsonView::Array(items_contents(v@)),
            Opened::Members(v) => JsonView::Object(members_contents(v@)),
        },
{
    match value {
        serde_json::Value::Null => Opened::Null,
        serde_json::Value::Bool(b) => Opened::Bool(b),
        serde_json::Value::Number(n) => Opened::Number(n.to_string()),
        serde_json::Value::String(s) => Opened::Text(s),
        serde_json::Value::Array(v) => Opened::Items(v),
        serde_json::Value::Object(m) => Opened::Members(m.into_iter().collect()),
    }
}

/// The value with all below it.
fn read_value(value: serde_json::Value) -> (r: Json)
    ensures
        r@ == value_contents(value),
    decreases value_contents(value),
{
    let ghost whole = value_contents(value);
    match open_value(value) {
        Opened::Null => Json::Null,
        Opened::Bool(b) => Json::Bool(b),
        Opened::Number(s) => Json::Number(s),
        Opened::Text(s) => Json::Str(s),
        Opened::Items(items) => {
            let ghost all = items@;
            let mut out: Vec<Json> = Vec::new();
            for item in it: items
                invariant
                    it.seq() == all,
                    whole == value_contents(value),
                    whole == JsonView::Array(items_contents(all)),
                    out@.len() == it.index(),
                    forall|k: int|
                        0 <= k < out@.len() ==> (#[trigger] out@[k])@ == items_contents(all)[k],
            {
                proof {
                    let s = whole->Array_0;
                    assert(decreases_to!(whole => whole->Array_0));
                    assert(decreases_to!(s => s[out@.len() as int]));
                    assert(s[out@.len() as int] == value_contents(item));
                }
                out.push(read_value(item));
            }
            assert(text::views(out@) =~= items_contents(all));
            Json::array(out)
        },
        Opened::Members(members) => {
            let ghost all = members@;
            let mut out: Vec<Member> = Vec::new();
            for m in it: members
                invariant
                    it.seq() == all,
                    whole == value_contents(value),
                    whole == JsonView::Object(members_contents(all)),
                    out@.len() == it.index(),
                    forall|k: int|
                        0 <= k < out@.len() ==> (#[trigger] out@[k])@ == members_contents(all)[k],
            {
                proof {
                    let s = whole->Object_0;
                    assert(decreases_to!(whole => whole->Object_0));
                    assert(decreases_to!(s => s[out@.len() as int]));
                    assert(decreases_to!(s[out@.len() as int] => s[out@.len() as int].1));
                    assert(s[out@.len() as int].1 == value_contents(m.1));
                }
                let (name, value) = m;
                out.push(Member { name, value: read_value(value) });
            }
            let r = Json::Object(out);
            assert(r@->Object_0 =~= members_contents(all));
            r
        },
    }
}

/// The value that a text stands for as JSON, or what is wrong with it.
pub fn parse_json(text: &str) -> (r: Result<Json, String>)
    ensures
        match (r, json_parse(text@)) {
            (Ok(v), Ok(j)) => v@ == j,
            (Err(e), Err(m)) => e@ == m,
            _ => false,
        },
{
    match parse_value(text) {
        Ok(value) => Ok(read_value(value)),
        Err(e) => Err(e),
    }
}

/// Whether a text is an integer as it is written in decimal digits, within 64 bits.
pub open spec fn is_integer_text(s: Seq<char>) -> bool {
    ||| exists|n: nat| n <= u64::MAX && s == #[trigger] text::decimal(n)
    ||| exists|n: nat|
        0 < n <= 0x8000_0000_0000_0000 && s == "-"@ + #[trigger] text::decimal(n)
}

/// What a number that is written in a text is read as: what the text stands for as JSON, and
/// null where it stands for nothing.
pub open spec fn number_read(s: Seq<char>) -> JsonView {
    match json_parse(s) {
        Ok(j) => j,
        Err(_) => JsonView::Null,
    }
}

/// Whether members, of which the last with a name counts, are those of an object in which no
/// name comes twice.
pub open spec fn settled(
    members: Seq<(Seq<char>, JsonView)>,
    object: Seq<(Seq<char>, JsonView)>,
) -> bool {
    &&& forall|i: int, j: int|
        0 <= i < j < object.len() ==> (#[trigger] object[i]).0 != (#[trigger] object[j]).0
    &&& forall|name: Seq<char>|
        match (json::member_at(members, name), #[trigger] json::member_at(object, name)) {
            (Some(i), Some(j)) => members[i].1 == object[j].1,
            (None, None) => true,
            _ => false,
        }
}

/// Whether two values are the same but for the order of members, for members that do not count
/// because another one of their name follows, and for numbers, which are what their text is read
/// as: themselves where they are integers.
pub open spec fn alike(a: JsonView, b: JsonView) -> bool
    decreases a,
{
    match (a, b) {
        (JsonView::Number(s), _) => b == number_read(s) && (is_integer_text(s) ==> b == a),
        (JsonView::Array(x), JsonView::Array(y)) => x.len() == y.len() && forall|i: int|
            0 <= i < x.len() ==> alike(#[trigger] x[i], y[i]),
        (JsonView::Object(m), JsonView::Object(n)) => forall|name: Seq<char>|
            match (json::member_at(m, name), #[trigger] json::member_at(n, name)) {
                (Some(i), Some(j)) => if 0 <= i < m.len() {
                    alike(m[i].1, n[j].1)
                } else {
                    false
                },
                (None, None) => true,
                _ => false,
            },
        _ => a == b,
    }
}

/// Puts a value of the `serde_json` crate together. Numbers go through `serde_json::from_str`,
/// which keeps integers of 64 bits as they are; a text that it does not read gives null. Members
/// are collected into a `serde_json::Map`, in which a later one takes the place of an earlier one
/// of its name. In which order the map walks them is left unsaid.
#[verifier::external_body]
fn close_value(opened: Opened) -> (r: serde_json::Value)
    ensures
        match opened {
            Opened::Null => value_contents(r) == JsonView::Null,
            Opened::Bool(b) => value_contents(r) == JsonView::Bool(b),
            Opened::Number(s) => value_contents(r) == number_read(s@) && (is_integer_text(s@)
                ==> value_contents(r) == JsonView::Number(s@)),
            Opened::Text(s) => value_contents(r) == JsonView::Str(s@),
            Opened::Items(v) => value_contents(r) == JsonView::Array(items_contents(v@)),
            Opened::Members(v) => value_contents(r) matches JsonView::Object(n) && settled(
                members_contents(v@),
                n,
            ),
        },
{
    match opened {
        Opened::Null => serde_json::Value::Null,
        Opened::Bool(b) => serde_json::Value::Bool(b),
        Opened::Number(s) => serde_json::from_str(&s).unwrap_or_default(),
        Opened::Text(s) => serde_json::Value::String(s),
        Opened::Items(v) => serde_json::Value::Array(v),
        Opened::Members(v) => serde_json::Value::Object(v.into_iter().collect()),
    }
}

/// Where a name stands among members depends on their names alone.
proof fn lemma_member_at(
    a: Seq<(Seq<char>, JsonView)>,
    b: Seq<(Seq<char>, JsonView)>,
    name: Seq<char>,
)
    requires
        a.len() == b.len(),
        forall|i: int| 0 <= i < a.len() ==> (#[trigger] a[i]).0 == b[i].0,
    ensures
        json::member_at(a, name) == json::member_at(b, name),
        json::member_at(a, name) matches Some(k) ==> 0 <= k < a.len(),
    decreases a.len(),
{
    if a.len() > 0 {
        assert(a[a.len() - 1].0 == b[a.len() - 1].0);
        let (x, y) = (a.drop_last(), b.drop_last());
        assert forall|i: int| 0 <= i < x.len() implies (#[trigger] x[i]).0 == y[i].0 by {
            assert(a[i].0 == b[i].0);
        }
        lemma_member_at(x, y, name);
    }
}

/// A value of the `serde_json` crate that is like a value.
fn build_value(j: &Json) -> (r: serde_json::Value)
    ensures
        alike(j@, value_contents(r)),
    decreases j,
{
    match j {
        Json::Null => close_value(Opened::Null),
        Json::Bool(b) => close_value(Opened::Bool(*b)),
        Json::Number(s) => close_value(Opened::Number(s.clone())),
        Json::Str(s) => close_value(Opened::Text(s.clone())),
        Json::Array(v) => {
            let mut items: Vec<serde_json::Value> = Vec::new();
            let mut i: usize = 0;
            while i < v.len()
                invariant
                    decreases_to!(j => v@),
                    i <= v@.len(),
                    items@.len() == i,
                    forall|k: int|
                        0 <= k < i ==> alike(v@[k]@, value_contents(#[trigger] items@[k])),
                decreases v@.len() - i,
            {
                assert(decreases_to!(v@ => v@[i as int]));
                items.push(build_value(&v[i]));
                i = i + 1;
            }
            proof {
                let x = j@->Array_0;
                let y = items_contents(items@);
                assert forall|k: int| 0 <= k < x.len() implies alike(#[trigger] x[k], y[k]) by {
                    assert(x[k] == v@[k]@);
                    assert(y[k] == value_contents(items@[k]));
                }
            }
            close_value(Opened::Items(items))
        },
        Json::Object(v) => {
            let mut pairs: Vec<(String, serde_json::Value)> = Vec::new();
            let mut i: usize = 0;
            while i < v.len()
                invariant
                    decreases_to!(j => v@),
                    i <= v@.len(),
                    pairs@.len() == i,
                    forall|k: int|
                        0 <= k < i ==> (#[trigger] pairs@[k]).0@ == v@[k].name@ && alike(
                            v@[k].value@,
                            value_contents(pairs@[k].1),
                        ),
                decreases v@.len() - i,
            {
                assert(decreases_to!(v@ => v@[i as int]));
                assert(decreases_to!(v@[i as int] => v@[i as int].value));
                let value = build_value(&v[i].value);
                pairs.push((v[i].name.clone(), value));
                i = i + 1;
            }
            let ghost m = j@->Object_0;
            let ghost p = members_contents(pairs@);
            let r = close_value(Opened::Members(pairs));
            proof {
                let n = value_contents(r)->Object_0;
                assert forall|k: int| 0 <= k < m.len() implies (#[trigger] m[k]).0 == p[k].0
                    && alike(m[k].1, p[k].1) by {
                    assert(p[k] == (pairs@[k].0@, value_contents(pairs@[k].1)));
                }
                assert forall|name: Seq<char>|
                    match (json::member_at(m, name), #[trigger] json::member_at(n, name)) {
                        (Some(i), Some(j)) => if 0 <= i < m.len() {
                            alike(m[i].1, n[j].1)
                        } else {
                            false
                        },
                        (None, None) => true,
                        _ => false,
                    } by {
                    lemma_member_at(m, p, name);
                }
            }
            r
        },
    }
}

/// What a value is written as, on one line.
pub uninterp spec fn json_compact(value: JsonView) -> Seq<char>;

/// What a value is written as, over several lines.
pub uninterp spec fn json_pretty(value: JsonView) -> Seq<char>;

/// `serde_json::Value::to_string`: depends on what the value holds alone.
#[verifier::external_body]
fn write_compact(value: &serde_json::Value) -> (r: String)
    ensures
        r@ == json_compact(value_contents(*value)),
{
    value.to_string()
}

/// `serde_json::to_string_pretty`, which cannot fail on a value: depends on what the value holds
/// alone.
#[verifier::external_body]
fn write_pretty(value: &serde_json::Value) -> (r: String)
    ensures
        r@ == json_pretty(value_contents(*value)),
{
    serde_json::to_string_pretty(value).unwrap_or_else(|_| value.to_string())
}

/// Whether a text is what a value is written as on one line.
pub open spec fn is_compact(s: Seq<char>, j: JsonView) -> bool {
    exists|v: JsonView| alike(j, v) && s == #[trigger] json_compact(v)
}

/// Whether a text is what a value is written as over several lines.
pub open spec fn is_pretty(s: Seq<char>, j: JsonView) -> bool {
    exists|v: JsonView| alike(j, v) && s == #[trigger] json_pretty(v)
}

/// Writes a value on one line.
pub fn compact_json(j: &Json) -> (r: String)
    ensures
        is_compact(r@, j@),
{
    let value = build_value(j);
    write_compact(&value)
}

/// Writes a value over several lines.
pub fn pretty_json(j: &Json) -> (r: String)
    ensures
        is_pretty(r@, j@),
{
    let value = build_value(j);
    write_pretty(&value)
}

} // verus!
