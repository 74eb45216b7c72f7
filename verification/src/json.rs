//! JSON text as plain values.

use vstd::prelude::*;

verus! {

/// A JSON value. Of a number only the integer that it is, if it fits, is kept.
pub enum Json {
    Null,
    Bool(bool),
    Number(Option<i64>),
    Text(String),
    List(Vec<Json>),
    Object(Vec<(String, Json)>),
}

/// A JSON value as a mathematical one.
pub enum JsonView {
    Null,
    Bool(bool),
    Number(Option<i64>),
    Text(Seq<char>),
    List(Seq<JsonView>),
    Object(Seq<(Seq<char>, JsonView)>),
}

impl View for Json {
    type V = JsonView;

    open spec fn view(&self) -> JsonView {
        json_view(*self)
    }
}

pub open spec fn json_view(j: Json) -> JsonView
    decreases j,
{
    match j {
        Json::Null => JsonView::Null,
        Json::Bool(b) => JsonView::Bool(b),
        Json::Number(n) => JsonView::Number(n),
        Json::Text(s) => JsonView::Text(s@),
        Json::List(v) => JsonView::List(list_view(v@)),
        Json::Object(v) => JsonView::Object(members_view(v@)),
    }
}

pub open spec fn list_view(v: Seq<Json>) -> Seq<JsonView>
    decreases v,
{
    if v.len() == 0 {
        Seq::empty()
    } else {
        list_view(v.drop_last()).push(json_view(v.last()))
    }
}

pub open spec fn members_view(v: Seq<(String, Json)>) -> Seq<(Seq<char>, JsonView)>
    decreases v,
{
    if v.len() == 0 {
        Seq::empty()
    } else {
        members_view(v.drop_last()).push((v.last().0@, json_view(v.last().1)))
    }
}

/// `serde_json::Value`, carried through unopened; what it holds is named by
/// `value_tree` and told level by level by `open_value`.
#[verifier::external_type_specification]
#[verifier::external_body]
pub struct ExValue(serde_json::Value);

/// What a `serde_json::Value` holds.
pub uninterp spec fn value_tree(v: serde_json::Value) -> JsonView;

/// What `serde_json::from_slice` makes of bytes: the value in them, or what is
/// wrong with them.
pub uninterp spec fn json_in(bytes: Seq<u8>) -> Result<JsonView, Seq<char>>;

/// `serde_json::from_slice` for a `Value`: the result depends on the bytes
/// alone. An error is given as its text.
#[verifier::external_body]
fn value_in(bytes: &Vec<u8>) -> (r: Result<serde_json::Value, String>)
    ensures
        match r {
            Ok(v) => json_in(bytes@) == Ok::<JsonView, Seq<char>>(value_tree(v)),
            Err(e) => json_in(bytes@) == Err::<JsonView, Seq<char>>(e@),
        },
{
    serde_json::from_slice(bytes.as_slice()).map_err(|e| e.to_string())
}

/// One level of a `serde_json::Value`.
enum Opened {
    Null,
    Bool(bool),
    Number(Option<i64>),
    Text(String),
    List(Vec<serde_json::Value>),
    Object(Vec<(String, serde_json::Value)>),
}

/// One level of a value, with what the values in it hold.
spec fn opened_view(o: Opened) -> JsonView {
    match o {
        Opened::Null => JsonView::Null,
        Opened::Bool(b) => JsonView::Bool(b),
        Opened::Number(n) => JsonView::Number(n),
        Opened::Text(s) => JsonView::Text(s@),
        Opened::List(v) => JsonView::List(Seq::new(v@.len(), |i: int| value_tree(v@[i]))),
        Opened::Object(v) => JsonView::Object(Seq::new(v@.len(), |i: int| (v@[i].0@, value_tree(v@[i].1)))),
    }
}

/// Tells the variants of a `serde_json::Value` apart and moves out what they
/// hold: the items of an array in their order, the members of an object in the
/// order of `serde_json::Map::into_iter`, and of a number what
/// `Number::as_i64` gives.
#[verifier::external_body]
fn open_value(v: serde_json::Value) -> (r: Opened)
    ensures
        opened_view(r) == value_tree(v),
{
    match v {
        serde_json::Value::Null => Opened::Null,
        serde_json::Value::Bool(b) => Opened::Bool(b),
        serde_json::Value::Number(n) => Opened::Number(n.as_i64()),
        serde_json::Value::String(s) => Opened::Text(s),
        serde_json::Value::Array(a) => Opened::List(a),
        serde_json::Value::Object(m) => Opened::Object(m.into_iter().collect()),
    }
}

fn plain(v: serde_json::Value) -> (r: Json)
    ensures
        r@ == value_tree(v),
    decreases value_tree(v),
{
    match open_value(v) {
        Opened::Null => Json::Null,
        Opened::Bool(b) => Json::Bool(b),
        Opened::Number(n) => Json::Number(n),
        Opened::Text(s) => Json::Text(s),
        Opened::List(items) => {
            let ghost all = items@;
            let ghost tree = value_tree(v)->List_0;
            let mut items = items;
            let mut rest: Vec<serde_json::Value> = Vec::new();
            while items.len() > 0
                invariant
                    items@ == all.take(items@.len() as int),
                    items@.len() <= all.len(),
                    rest@ == all.skip(items@.len() as int).reverse(),
                decreases items@.len(),
            {
                let ghost before = rest@;
                let ghost k = items@.len() - 1;
                let x = items.pop().unwrap();
                rest.push(x);
                assert(items@ =~= all.take(k));
                assert(rest@ =~= all.skip(k).reverse());
            }
            let mut out: Vec<Json> = Vec::new();
            assert(rest@ =~= all.reverse());
            while rest.len() > 0
                invariant
                    rest@.len() <= all.len(),
                    rest@ == all.reverse().take(rest@.len() as int),
                    tree == Seq::new(all.len(), |i: int| value_tree(all[i])),
                    value_tree(v) == JsonView::List(tree),
                    out@.len() + rest@.len() == all.len(),
                    list_view(out@) == tree.take(out@.len() as int),
                decreases rest@.len(),
            {
                let ghost n = out@.len() as int;
                let ghost before = out@;
                let x = rest.pop().unwrap();
                assert(x == all[n]);
                assert(tree[n] == value_tree(x));
                assert(decreases_to!(value_tree(v) => value_tree(v)->List_0[n]));
                let j = plain(x);
                out.push(j);
                proof {
                    assert(out@.drop_last() =~= before);
                    assert(tree.take(n + 1) =~= tree.take(n).push(tree[n]));
                    assert(rest@ =~= all.reverse().take(rest@.len() as int));
                }
            }
            assert(tree.take(all.len() as int) =~= tree);
            Json::List(out)
        },
        Opened::Object(items) => {
            let ghost all = items@;
            let ghost tree = value_tree(v)->Object_0;
            let mut items = items;
            let mut rest: Vec<(String, serde_json::Value)> = Vec::new();
            while items.len() > 0
                invariant
                    items@ == all.take(items@.len() as int),
                    items@.len() <= all.len(),
                    rest@ == all.skip(items@.len() as int).reverse(),
                decreases items@.len(),
            {
                let ghost k = items@.len() - 1;
                let x = items.pop().unwrap();
                rest.push(x);
                assert(items@ =~= all.take(k));
                assert(rest@ =~= all.skip(k).reverse());
            }
            let mut out: Vec<(String, Json)> = Vec::new();
            assert(rest@ =~= all.reverse());
            while rest.len() > 0
                invariant
                    rest@.len() <= all.len(),
                    rest@ == all.reverse().take(rest@.len() as int),
                    tree == Seq::new(all.len(), |i: int| (all[i].0@, value_tree(all[i].1))),
                    value_tree(v) == JsonView::Object(tree),
                    out@.len() + rest@.len() == all.len(),
                    members_view(out@) == tree.take(out@.len() as int),
                decreases rest@.len(),
            {
                let ghost n = out@.len() as int;
                let ghost before = out@;
                let x = rest.pop().unwrap();
                assert(x == all[n]);
                assert(tree[n] == (x.0@, value_tree(x.1)));
                assert(decreases_to!(value_tree(v) => value_tree(v)->Object_0[n].1));
                let j = plain(x.1);
                out.push((x.0, j));
                proof {
                    assert(out@.drop_last() =~= before);
                    assert(tree.take(n + 1) =~= tree.take(n).push(tree[n]));
                    assert(rest@ =~= all.reverse().take(rest@.len() as int));
                }
            }
            assert(tree.take(all.len() as int) =~= tree);
            Json::Object(out)
        },
    }
}

/// The JSON value in `bytes`, or what is wrong with them.
pub fn read_json(bytes: &Vec<u8>) -> (r: Result<Json, String>)
    ensures
        match r {
            Ok(j) => json_in(bytes@) == Ok::<JsonView, Seq<char>>(j@),
            Err(e) => json_in(bytes@) == Err::<JsonView, Seq<char>>(e@),
        },
{
    match value_in(bytes) {
        Ok(v) => Ok(plain(v)),
        Err(e) => Err(e),
    }
}

} // verus!
