//! JSON documents as plain trees, and the boundary to `serde_json`.
use std::collections::VecDeque;

use crate::text::same;
use vstd::prelude::*;
use vstd::utf8::*;

verus! {

broadcast use {vstd::seq_lib::group_seq_properties, vstd::map::group_map_axioms};

/// What a JSON document says, independent of its spelling.
pub enum Tree {
    Null,
    Bool(bool),
    Number(Quantity),
    Text(Seq<char>),
    Array(Seq<Tree>),
    Object(Map<Seq<char>, Tree>),
}

/// What a JSON number is.
pub enum Quantity {
    Unsigned(u64),
    Negative(i64),
    /// A number that is no 64-bit integer, by its numeral.
    Decimal(Seq<char>),
}

/// A JSON value. Of two members with one name the later counts.
#[derive(Debug)]
pub enum Json {
    Null,
    Bool(bool),
    Number(serde_json::Number),
    Text(String),
    Array(Vec<Json>),
    Object(Vec<(String, Json)>),
}

/// The outermost layer of a `serde_json::Value`.
pub enum Node {
    Null,
    Bool(bool),
    Number(serde_json::Number),
    Text(String),
    Array(VecDeque<serde_json::Value>),
    Object(VecDeque<(String, serde_json::Value)>),
}

/// What a `serde_json::Number` is.
pub enum Numeral {
    Unsigned(u64),
    Negative(i64),
    Decimal(String),
}

#[verifier::external_type_specification]
#[verifier::external_body]
pub struct ExValue(serde_json::Value);

#[verifier::external_type_specification]
#[verifier::external_body]
pub struct ExNumber(serde_json::Number);

/// The contents of a `serde_json::Value`.
pub uninterp spec fn value_tree(value: serde_json::Value) -> Tree;

/// The contents of a `serde_json::Number`.
pub uninterp spec fn number_quantity(number: serde_json::Number) -> Quantity;

/// The document that `serde_json::from_slice` reads from bytes, if they hold one.
pub uninterp spec fn json_document(bytes: Seq<u8>) -> Option<Tree>;

/// The bytes that `serde_json::to_vec` writes for a document.
pub uninterp spec fn json_text(tree: Tree) -> Seq<u8>;

/// The text that `serde_json::to_string` writes for a document.
pub open spec fn json_string(tree: Tree) -> Seq<char> {
    decode_utf8(json_text(tree))
}

pub open spec fn numeral_quantity(n: Numeral) -> Quantity {
    match n {
        Numeral::Unsigned(u) => Quantity::Unsigned(u),
        Numeral::Negative(i) => Quantity::Negative(i),
        Numeral::Decimal(s) => Quantity::Decimal(s@),
    }
}

/// The members of an object one layer deep.
pub open spec fn node_fields(fields: Seq<(String, serde_json::Value)>) -> Map<Seq<char>, Tree>
    decreases fields.len(),
{
    if fields.len() == 0 {
        Map::empty()
    } else {
        node_fields(fields.drop_last()).insert(fields.last().0@, value_tree(fields.last().1))
    }
}

pub open spec fn node_tree(node: Node) -> Tree {
    match node {
        Node::Null => Tree::Null,
        Node::Bool(b) => Tree::Bool(b),
        Node::Number(n) => Tree::Number(number_quantity(n)),
        Node::Text(s) => Tree::Text(s@),
        Node::Array(items) => Tree::Array(items@.map_values(|v: serde_json::Value| value_tree(v))),
        Node::Object(fields) => Tree::Object(node_fields(fields@)),
    }
}

/// What `serde_json::from_slice::<serde_json::Value>` says of bytes that are no JSON document.
pub uninterp spec fn fault_text(bytes: Seq<u8>) -> Seq<char>;

/// `serde_json::from_slice::<serde_json::Value>`: the value read, or the words of the error where
/// the bytes are no JSON document. What is read, or said, depends on the bytes alone.
#[verifier::external_body]
fn read_value(bytes: &[u8]) -> (r: Result<serde_json::Value, String>)
    ensures
        r is Ok <==> json_document(bytes@) is Some,
        r matches Ok(v) ==> json_document(bytes@) == Some(value_tree(v)),
        r matches Err(s) ==> s@ == fault_text(bytes@),
{
    serde_json::from_slice::<serde_json::Value>(bytes).map_err(|e| e.to_string())
}

/// Whether bytes hold a JSON document that is an object.
pub open spec fn holds_object(bytes: Seq<u8>) -> bool {
    json_document(bytes) matches Some(t) && t is Object
}

/// What `serde_json::from_slice::<serde_json::Map<String, serde_json::Value>>` says of bytes that
/// hold no JSON object.
pub uninterp spec fn object_fault_text(bytes: Seq<u8>) -> Seq<char>;

/// `serde_json::from_slice::<serde_json::Map<String, serde_json::Value>>`: the words of its
/// error, which depend on the bytes alone; there is none where they hold a JSON object.
#[verifier::external_body]
pub(crate) fn object_fault(bytes: &[u8]) -> (r: Option<String>)
    ensures
        r is None <==> holds_object(bytes@),
        r matches Some(s) ==> s@ == object_fault_text(bytes@),
{
    let read = serde_json::from_slice::<serde_json::Map<String, serde_json::Value>>(bytes);
    read.err().map(|e| e.to_string())
}

/// `serde_json::to_vec` of a `serde_json::Value`, which cannot fail: the bytes depend on the
/// contents alone.
#[verifier::external_body]
fn write_value(value: &serde_json::Value) -> (r: Vec<u8>)
    ensures
        r@ == json_text(value_tree(*value)),
{
    serde_json::to_vec(value).unwrap_or_default()
}

/// `serde_json::to_string` of a `serde_json::Value`, which cannot fail: the text of the same
/// bytes.
#[verifier::external_body]
fn write_text(value: &serde_json::Value) -> (r: String)
    ensures
        encode_utf8(r@) == json_text(value_tree(*value)),
{
    serde_json::to_string(value).unwrap_or_default()
}

/// Takes a `serde_json::Value` apart by its variant; a `serde_json::Map` hands out each
/// member once.
#[verifier::external_body]
fn open_value(value: serde_json::Value) -> (r: Node)
    ensures
        node_tree(r) == value_tree(value),
        r matches Node::Object(fields) ==> forall|i: int, j: int|
            0 <= i < j < fields@.len() ==> (#[trigger] fields@[i]).0@ != (#[trigger] fields@[j]).0@,
{
    match value {
        serde_json::Value::Null => Node::Null,
        serde_json::Value::Bool(b) => Node::Bool(b),
        serde_json::Value::Number(n) => Node::Number(n),
        serde_json::Value::String(s) => Node::Text(s),
        serde_json::Value::Array(items) => Node::Array(items.into()),
        serde_json::Value::Object(map) => Node::Object(map.into_iter().collect()),
    }
}

/// Builds a `serde_json::Value` of the variant at hand; collecting into a `serde_json::Map`
/// keeps the last of several members with one name.
#[verifier::external_body]
fn close_value(node: Node) -> (r: serde_json::Value)
    ensures
        value_tree(r) == node_tree(node),
{
    match node {
        Node::Null => serde_json::Value::Null,
        Node::Bool(b) => serde_json::Value::Bool(b),
        Node::Number(n) => serde_json::Value::Number(n),
        Node::Text(s) => serde_json::Value::String(s),
        Node::Array(items) => serde_json::Value::Array(items.into()),
        Node::Object(fields) => serde_json::Value::Object(fields.into_iter().collect()),
    }
}

/// Tells the kinds of a `serde_json::Number` apart with `as_u64` and `as_i64`; any other
/// number is given by what `to_string` prints.
#[verifier::external_body]
fn open_number(number: &serde_json::Number) -> (r: Numeral)
    ensures
        numeral_quantity(r) == number_quantity(*number),
{
    match (number.as_u64(), number.as_i64()) {
        (Some(u), _) => Numeral::Unsigned(u),
        (None, Some(i)) => Numeral::Negative(i),
        (None, None) => Numeral::Decimal(number.to_string()),
    }
}

/// `serde_json::Number::from` of an unsigned integer.
#[verifier::external_body]
fn number_from(u: u64) -> (r: serde_json::Number)
    ensures
        number_quantity(r) == Quantity::Unsigned(u),
{
    serde_json::Number::from(u)
}

/// A clone of a `serde_json::Number` is the same number.
#[verifier::external_body]
fn copy_number(number: &serde_json::Number) -> (r: serde_json::Number)
    ensures
        number_quantity(r) == number_quantity(*number),
{
    number.clone()
}

/// The bits of a number's nearest double, as `serde_json::Number::as_f64` gives it.
pub uninterp spec fn double_bits(q: Quantity) -> Option<u64>;

/// `serde_json::Number::as_f64`, as the bits of the double: they depend on the number alone.
#[verifier::external_body]
fn number_bits(number: &serde_json::Number) -> (r: Option<u64>)
    ensures
        r == double_bits(number_quantity(*number)),
{
    number.as_f64().map(|x| x.to_bits())
}

pub open spec fn tree_of(j: Json) -> Tree
    decreases j,
{
    match j {
        Json::Null => Tree::Null,
        Json::Bool(b) => Tree::Bool(b),
        Json::Number(n) => Tree::Number(number_quantity(n)),
        Json::Text(s) => Tree::Text(s@),
        Json::Array(items) => Tree::Array(trees_of(items@)),
        Json::Object(fields) => Tree::Object(fields_of(fields@)),
    }
}

pub open spec fn trees_of(items: Seq<Json>) -> Seq<Tree>
    decreases items,
{
    if items.len() == 0 {
        Seq::empty()
    } else {
        trees_of(items.drop_last()).push(tree_of(items.last()))
    }
}

pub open spec fn fields_of(fields: Seq<(String, Json)>) -> Map<Seq<char>, Tree>
    decreases fields,
{
    if fields.len() == 0 {
        Map::empty()
    } else {
        fields_of(fields.drop_last()).insert(fields.last().0@, tree_of(fields.last().1))
    }
}

impl View for Json {
    type V = Tree;

    open spec fn view(&self) -> Tree {
        tree_of(*self)
    }
}

impl Tree {
    /// The member of an object.
    pub open spec fn field(self, key: Seq<char>) -> Option<Tree> {
        match self {
            Tree::Object(m) => if m.contains_key(key) {
                Some(m[key])
            } else {
                None
            },
            _ => None,
        }
    }

    /// The member of an object, or null where there is none.
    pub open spec fn at(self, key: Seq<char>) -> Tree {
        match self.field(key) {
            Some(t) => t,
            None => Tree::Null,
        }
    }

    pub open spec fn text(self) -> Option<Seq<char>> {
        match self {
            Tree::Text(s) => Some(s),
            _ => None,
        }
    }

    /// The text at a member, if it is one.
    pub open spec fn text_at(self, key: Seq<char>) -> Option<Seq<char>> {
        self.at(key).text()
    }

    pub open spec fn items(self) -> Option<Seq<Tree>> {
        match self {
            Tree::Array(s) => Some(s),
            _ => None,
        }
    }

    pub open spec fn number(self) -> Option<u64> {
        match self {
            Tree::Number(Quantity::Unsigned(u)) => Some(u),
            _ => None,
        }
    }

    pub open spec fn flag(self) -> Option<bool> {
        match self {
            Tree::Bool(b) => Some(b),
            _ => None,
        }
    }

    /// The tree with a member set; null becomes an object.
    pub open spec fn with(self, key: Seq<char>, value: Tree) -> Tree {
        match self {
            Tree::Null => Tree::Object(Map::empty().insert(key, value)),
            Tree::Object(m) => Tree::Object(m.insert(key, value)),
            other => other,
        }
    }

    /// Whether a member is a given truth value.
    pub open spec fn is(self, key: Seq<char>, value: bool) -> bool {
        self.at(key) == Tree::Bool(value)
    }

    /// The bits of a number's nearest double.
    pub open spec fn bits(self) -> Option<u64> {
        match self {
            Tree::Number(q) => double_bits(q),
            _ => None,
        }
    }

    /// An integer that 64 bits hold with a sign.
    pub open spec fn signed(self) -> Option<i64> {
        match self {
            Tree::Number(Quantity::Unsigned(u)) => if u <= i64::MAX {
                Some(u as i64)
            } else {
                None
            },
            Tree::Number(Quantity::Negative(i)) => Some(i),
            _ => None,
        }
    }

    /// Whether the text at a member is the one given.
    pub open spec fn says(self, key: Seq<char>, value: Seq<char>) -> bool {
        self.text_at(key) == Some(value)
    }
}

/// The view of an optional value.
pub open spec fn tree_option(j: Option<Json>) -> Option<Tree> {
    match j {
        Some(j) => Some(j@),
        None => None,
    }
}

pub proof fn lemma_trees_of(items: Seq<Json>)
    ensures
        trees_of(items).len() == items.len(),
        forall|i: int| 0 <= i < items.len() ==> #[trigger] trees_of(items)[i] == tree_of(items[i]),
    decreases items.len(),
{
    if items.len() > 0 {
        lemma_trees_of(items.drop_last());
        assert forall|i: int| 0 <= i < items.len() implies #[trigger] trees_of(items)[i] == tree_of(
            items[i],
        ) by {
            if i < items.len() - 1 {
                assert(trees_of(items.drop_last())[i] == tree_of(items.drop_last()[i]));
            }
        }
    }
}

proof fn lemma_field_found(fields: Seq<(String, Json)>, i: int)
    requires
        0 <= i < fields.len(),
        forall|j: int| i < j < fields.len() ==> (#[trigger] fields[j]).0@ != fields[i].0@,
    ensures
        fields_of(fields).contains_key(fields[i].0@),
        fields_of(fields)[fields[i].0@] == tree_of(fields[i].1),
    decreases fields.len(),
{
    if i < fields.len() - 1 {
        assert(fields[fields.len() - 1].0@ != fields[i].0@);
        assert forall|j: int| i < j < fields.drop_last().len() implies (
        #[trigger] fields.drop_last()[j]).0@ != fields.drop_last()[i].0@ by {
            assert(fields[j].0@ != fields[i].0@);
        }
        lemma_field_found(fields.drop_last(), i);
    }
}

proof fn lemma_field_absent(fields: Seq<(String, Json)>, key: Seq<char>)
    requires
        forall|j: int| 0 <= j < fields.len() ==> (#[trigger] fields[j]).0@ != key,
    ensures
        !fields_of(fields).contains_key(key),
    decreases fields.len(),
{
    if fields.len() > 0 {
        assert(fields[fields.len() - 1].0@ != key);
        assert forall|j: int| 0 <= j < fields.drop_last().len() implies (
        #[trigger] fields.drop_last()[j]).0@ != key by {
            assert(fields[j].0@ != key);
        }
        lemma_field_absent(fields.drop_last(), key);
    }
}

proof fn lemma_field_replaced(fields: Seq<(String, Json)>, i: int, value: (String, Json))
    requires
        0 <= i < fields.len(),
        value.0@ == fields[i].0@,
        forall|j: int| i < j < fields.len() ==> (#[trigger] fields[j]).0@ != fields[i].0@,
    ensures
        fields_of(fields.update(i, value)) == fields_of(fields).insert(value.0@, tree_of(value.1)),
    decreases fields.len(),
{
    let updated = fields.update(i, value);
    if i == fields.len() - 1 {
        assert(updated.drop_last() == fields.drop_last());
        assert(fields_of(updated) =~= fields_of(fields).insert(value.0@, tree_of(value.1)));
    } else {
        assert(updated.drop_last() == fields.drop_last().update(i, value));
        assert(fields[fields.len() - 1].0@ != fields[i].0@);
        assert forall|j: int| i < j < fields.drop_last().len() implies (
        #[trigger] fields.drop_last()[j]).0@ != fields.drop_last()[i].0@ by {
            assert(fields[j].0@ != fields[i].0@);
        }
        lemma_field_replaced(fields.drop_last(), i, value);
        assert(fields_of(updated) =~= fields_of(fields).insert(value.0@, tree_of(value.1)));
    }
}

proof fn lemma_node_fields(fields: Seq<(String, serde_json::Value)>)
    ensures
        node_fields(fields).dom().finite(),
    decreases fields.len(),
{
    if fields.len() > 0 {
        lemma_node_fields(fields.drop_last());
    }
}

proof fn lemma_node_field(fields: Seq<(String, serde_json::Value)>, i: int)
    requires
        0 <= i < fields.len(),
        forall|a: int, b: int|
            0 <= a < b < fields.len() ==> (#[trigger] fields[a]).0@ != (#[trigger] fields[b]).0@,
    ensures
        node_fields(fields).contains_key(fields[i].0@),
        node_fields(fields)[fields[i].0@] == value_tree(fields[i].1),
    decreases fields.len(),
{
    if i < fields.len() - 1 {
        assert(fields[i].0@ != fields[fields.len() - 1].0@);
        assert forall|a: int, b: int| 0 <= a < b < fields.drop_last().len() implies (
        #[trigger] fields.drop_last()[a]).0@ != (#[trigger] fields.drop_last()[b]).0@ by {
            assert(fields[a].0@ != fields[b].0@);
        }
        lemma_node_field(fields.drop_last(), i);
    }
}

/// The tree that a `serde_json::Value` holds.
fn json_of(value: serde_json::Value) -> (r: Json)
    ensures
        r@ == value_tree(value),
    decreases value_tree(value),
{
    match open_value(value) {
        Node::Null => Json::Null,
        Node::Bool(b) => Json::Bool(b),
        Node::Number(n) => Json::Number(n),
        Node::Text(s) => Json::Text(s),
        Node::Array(items) => {
            let mut rest = items;
            let mut out: Vec<Json> = Vec::new();
            let ghost all = items@;
            let ghost trees = all.map_values(|v: serde_json::Value| value_tree(v));
            assert(trees_of(out@) == trees.take(0));
            assert(all.skip(0) == all);
            while rest.len() > 0
                invariant
                    value_tree(value) == Tree::Array(trees),
                    trees == all.map_values(|v: serde_json::Value| value_tree(v)),
                    out@.len() + rest@.len() == all.len(),
                    rest@ == all.skip(out@.len() as int),
                    trees_of(out@) == trees.take(out@.len() as int),
                decreases rest@.len(),
            {
                let ghost n = out@.len() as int;
                let item = rest.pop_front().unwrap();
                assert(item == all[n]);
                assert(value_tree(item) == trees[n]);
                assert(decreases_to!(value_tree(value) => value_tree(value)->Array_0));
                assert(decreases_to!(value_tree(value)->Array_0 => value_tree(value)->Array_0[n]));
                let next = json_of(item);
                let ghost before = out@;
                out.push(next);
                proof {
                    assert(out@.drop_last() == before);
                    assert(trees.take(n + 1) == trees.take(n).push(trees[n]));
                    assert(all.skip(n).drop_first() == all.skip(n + 1));
                }
            }
            assert(trees.take(all.len() as int) == trees);
            Json::Array(out)
        },
        Node::Object(fields) => {
            let mut rest = fields;
            let mut out: Vec<(String, Json)> = Vec::new();
            let ghost all = fields@;
            assert(all.take(0) == Seq::<(String, serde_json::Value)>::empty());
            assert(all.skip(0) == all);
            proof {
                lemma_node_fields(all);
            }
            while rest.len() > 0
                invariant
                    value_tree(value) == Tree::Object(node_fields(all)),
                    node_fields(all).dom().finite(),
                    out@.len() + rest@.len() == all.len(),
                    rest@ == all.skip(out@.len() as int),
                    fields_of(out@) == node_fields(all.take(out@.len() as int)),
                    forall|i: int, j: int|
                        0 <= i < j < all.len() ==> (#[trigger] all[i]).0@ != (
                        #[trigger] all[j]).0@,
                decreases rest@.len(),
            {
                let ghost n = out@.len() as int;
                let (name, item) = rest.pop_front().unwrap();
                assert((name, item) == all[n]);
                proof {
                    lemma_node_field(all, n);
                    assert(value_tree(item) == node_fields(all)[name@]);
                    assert(decreases_to!(value_tree(value) => value_tree(value)->Object_0));
                    assert(decreases_to!(
                        value_tree(value)->Object_0 => value_tree(value)->Object_0[name@]
                    ));
                }
                let next = json_of(item);
                let ghost before = out@;
                out.push((name, next));
                proof {
                    assert(out@.drop_last() == before);
                    assert(all.take(n + 1).drop_last() == all.take(n));
                    assert(all.skip(n).drop_first() == all.skip(n + 1));
                }
            }
            assert(all.take(all.len() as int) == all);
            Json::Object(out)
        },
    }
}

impl Json {
    /// The `serde_json::Value` that holds this tree.
    fn value(&self) -> (r: serde_json::Value)
        ensures
            value_tree(r) == self@,
        decreases self,
    {
        match self {
            Json::Null => close_value(Node::Null),
            Json::Bool(b) => close_value(Node::Bool(*b)),
            Json::Number(n) => close_value(Node::Number(copy_number(n))),
            Json::Text(s) => close_value(Node::Text(s.clone())),
            Json::Array(items) => {
                let mut out: VecDeque<serde_json::Value> = VecDeque::new();
                let mut i: usize = 0;
                proof {
                    lemma_trees_of(items@);
                }
                while i < items.len()
                    invariant
                        self matches Json::Array(v) && v == items,
                        i <= items.len(),
                        out@.len() == i,
                        trees_of(items@).len() == items@.len(),
                        forall|k: int|
                            0 <= k < items@.len() ==> #[trigger] trees_of(items@)[k] == tree_of(
                                items@[k],
                            ),
                        forall|k: int|
                            0 <= k < i ==> #[trigger] value_tree(out@[k]) == trees_of(items@)[k],
                    decreases items.len() - i,
                {
                    let item = &items[i];
                    assert(decreases_to!(self => items@[i as int]));
                    let next = item.value();
                    assert(value_tree(next) == trees_of(items@)[i as int]);
                    out.push_back(next);
                    i += 1;
                }
                assert(out@.map_values(|v: serde_json::Value| value_tree(v)) =~= trees_of(items@));
                close_value(Node::Array(out))
            },
            Json::Object(fields) => {
                let mut out: VecDeque<(String, serde_json::Value)> = VecDeque::new();
                let mut i: usize = 0;
                assert(fields@.take(0) == Seq::<(String, Json)>::empty());
                while i < fields.len()
                    invariant
                        self matches Json::Object(v) && v == fields,
                        i <= fields.len(),
                        out@.len() == i,
                        node_fields(out@) == fields_of(fields@.take(i as int)),
                    decreases fields.len() - i,
                {
                    let item = &fields[i].1;
                    assert(decreases_to!(self => fields@[i as int]));
                    let next = item.value();
                    let ghost before = out@;
                    out.push_back((fields[i].0.clone(), next));
                    proof {
                        assert(out@.drop_last() == before);
                        assert(fields@.take(i + 1).drop_last() == fields@.take(i as int));
                    }
                    i += 1;
                }
                assert(fields@.take(fields@.len() as int) == fields@);
                close_value(Node::Object(out))
            },
        }
    }

    /// A copy of the whole tree.
    pub fn copy(&self) -> (r: Json)
        ensures
            r@ == self@,
        decreases self,
    {
        match self {
            Json::Null => Json::Null,
            Json::Bool(b) => Json::Bool(*b),
            Json::Number(n) => Json::Number(copy_number(n)),
            Json::Text(s) => Json::Text(s.clone()),
            Json::Array(items) => {
                let mut out: Vec<Json> = Vec::new();
                let mut i: usize = 0;
                assert(items@.take(0) =~= Seq::empty());
                while i < items.len()
                    invariant
                        self matches Json::Array(v) && v == items,
                        i <= items.len(),
                        out@.len() == i,
                        trees_of(out@) == trees_of(items@.take(i as int)),
                    decreases items.len() - i,
                {
                    let item = &items[i];
                    assert(decreases_to!(self => items@[i as int]));
                    let next = item.copy();
                    let ghost before = out@;
                    out.push(next);
                    proof {
                        assert(out@.drop_last() == before);
                        assert(items@.take(i + 1).drop_last() == items@.take(i as int));
                    }
                    i += 1;
                }
                assert(items@.take(items@.len() as int) == items@);
                Json::Array(out)
            },
            Json::Object(fields) => {
                let mut out: Vec<(String, Json)> = Vec::new();
                let mut i: usize = 0;
                assert(fields@.take(0) =~= Seq::empty());
                while i < fields.len()
                    invariant
                        self matches Json::Object(v) && v == fields,
                        i <= fields.len(),
                        out@.len() == i,
                        fields_of(out@) == fields_of(fields@.take(i as int)),
                    decreases fields.len() - i,
                {
                    let item = &fields[i].1;
                    assert(decreases_to!(self => fields@[i as int]));
                    let next = item.copy();
                    let ghost before = out@;
                    out.push((fields[i].0.clone(), next));
                    proof {
                        assert(out@.drop_last() == before);
                        assert(fields@.take(i + 1).drop_last() == fields@.take(i as int));
                    }
                    i += 1;
                }
                assert(fields@.take(fields@.len() as int) == fields@);
                Json::Object(out)
            },
        }
    }

    /// The document's bytes.
    pub fn to_bytes(&self) -> (r: Vec<u8>)
        ensures
            r@ == json_text(self@),
    {
        write_value(&self.value())
    }

    /// The document's text.
    pub fn to_text(&self) -> (r: String)
        ensures
            r@ == json_string(self@),
            encode_utf8(r@) == json_text(self@),
    {
        let r = write_text(&self.value());
        proof {
            encode_utf8_decode_utf8(r@);
        }
        r
    }

    /// An unsigned integer.
    pub fn unsigned(u: u64) -> (r: Json)
        ensures
            r@ == Tree::Number(Quantity::Unsigned(u)),
    {
        Json::Number(number_from(u))
    }

    /// An object without members.
    pub fn object() -> (r: Json)
        ensures
            r@ == Tree::Object(Map::empty()),
    {
        Json::Object(Vec::new())
    }

    pub fn get(&self, key: &str) -> (r: Option<&Json>)
        ensures
            r is Some <==> self@.field(key@) is Some,
            r matches Some(j) ==> self@.field(key@) == Some(j@),
    {
        match self {
            Json::Object(fields) => match find_field(fields, key) {
                Some(i) => Some(&fields[i].1),
                None => None,
            },
            _ => None,
        }
    }

    /// Sets a member of an object; anything else stays as it is.
    pub fn set(&mut self, key: String, value: Json)
        ensures
            final(self)@ == (match old(self)@ {
                Tree::Object(m) => Tree::Object(m.insert(key@, value@)),
                other => other,
            }),
    {
        if let Json::Object(fields) = self {
            match find_field(fields, &key) {
                Some(i) => {
                    proof {
                        lemma_field_replaced(fields@, i as int, (key, value));
                    }
                    fields.set(i, (key, value));
                },
                None => {
                    let ghost before = fields@;
                    fields.push((key, value));
                    assert(fields@.drop_last() == before);
                },
            }
        }
    }

    /// Sets a member of an object, of an empty one in place of null; anything else stays as it
    /// is.
    pub fn put(&mut self, key: &str, value: Json)
        ensures
            final(self)@ == old(self)@.with(key@, value@),
    {
        if self.is_null() {
            *self = Json::object();
        }
        self.set(key.to_owned(), value);
    }

    pub fn is_null(&self) -> (r: bool)
        ensures
            r == (self@ is Null),
    {
        match self {
            Json::Null => true,
            _ => false,
        }
    }

    pub fn is_object(&self) -> (r: bool)
        ensures
            r == (self@ is Object),
    {
        match self {
            Json::Object(_) => true,
            _ => false,
        }
    }

    pub fn as_text(&self) -> (r: Option<&String>)
        ensures
            r is Some <==> self@.text() is Some,
            r matches Some(s) ==> self@.text() == Some(s@),
    {
        match self {
            Json::Text(s) => Some(s),
            _ => None,
        }
    }

    pub fn as_number(&self) -> (r: Option<u64>)
        ensures
            r == self@.number(),
    {
        match self {
            Json::Number(n) => match open_number(n) {
                Numeral::Unsigned(u) => Some(u),
                Numeral::Negative(_) => None,
                Numeral::Decimal(_) => None,
            },
            _ => None,
        }
    }

    /// The bits of a number's nearest double.
    pub fn as_bits(&self) -> (r: Option<u64>)
        ensures
            r == self@.bits(),
    {
        match self {
            Json::Number(n) => number_bits(n),
            _ => None,
        }
    }

    /// An integer that 64 bits hold with a sign.
    pub fn as_signed(&self) -> (r: Option<i64>)
        ensures
            r == self@.signed(),
    {
        match self {
            Json::Number(n) => match open_number(n) {
                Numeral::Unsigned(u) => if u <= i64::MAX as u64 {
                    Some(u as i64)
                } else {
                    None
                },
                Numeral::Negative(i) => Some(i),
                Numeral::Decimal(_) => None,
            },
            _ => None,
        }
    }

    pub fn as_flag(&self) -> (r: Option<bool>)
        ensures
            r == self@.flag(),
    {
        match self {
            Json::Bool(b) => Some(*b),
            _ => None,
        }
    }

    pub fn as_items(&self) -> (r: Option<&Vec<Json>>)
        ensures
            r is Some <==> self@.items() is Some,
            r matches Some(v) ==> {
                &&& self@.items() == Some(trees_of(v@))
                &&& trees_of(v@).len() == v@.len()
                &&& forall|i: int| 0 <= i < v@.len() ==> #[trigger] trees_of(v@)[i] == v@[i]@
            },
    {
        match self {
            Json::Array(items) => {
                proof {
                    lemma_trees_of(items@);
                }
                Some(items)
            },
            _ => None,
        }
    }

    /// The text at a member, if it is one.
    pub fn text_at(&self, key: &str) -> (r: Option<&String>)
        ensures
            r is Some <==> self@.text_at(key@) is Some,
            r matches Some(s) ==> self@.text_at(key@) == Some(s@),
    {
        match self.get(key) {
            Some(j) => j.as_text(),
            None => None,
        }
    }

    /// Whether the text at a member is the one given.
    pub fn says(&self, key: &str, value: &str) -> (r: bool)
        ensures
            r == self@.says(key@, value@),
    {
        match self.text_at(key) {
            Some(s) => same(s, value),
            None => false,
        }
    }

    /// Whether a member is a given truth value.
    pub fn is(&self, key: &str, value: bool) -> (r: bool)
        ensures
            r == self@.is(key@, value),
    {
        match self.get(key) {
            Some(j) => match j.as_flag() {
                Some(b) => b == value,
                None => false,
            },
            None => false,
        }
    }

    /// The number at a member, if it is an unsigned integer.
    pub fn number_at(&self, key: &str) -> (r: Option<u64>)
        ensures
            r == self@.at(key@).number(),
    {
        match self.get(key) {
            Some(j) => j.as_number(),
            None => None,
        }
    }

    /// Whether a member is missing or null.
    pub fn lacks(&self, key: &str) -> (r: bool)
        ensures
            r == (self@.at(key@) is Null),
    {
        match self.get(key) {
            Some(j) => j.is_null(),
            None => true,
        }
    }

    /// The array at a member, if it is one.
    pub fn items_at(&self, key: &str) -> (r: Option<&Vec<Json>>)
        ensures
            r is Some <==> self@.at(key@).items() is Some,
            r matches Some(v) ==> {
                &&& self@.at(key@).items() == Some(trees_of(v@))
                &&& trees_of(v@).len() == v@.len()
                &&& forall|i: int| 0 <= i < v@.len() ==> #[trigger] trees_of(v@)[i] == v@[i]@
            },
    {
        match self.get(key) {
            Some(j) => j.as_items(),
            None => None,
        }
    }
}

fn find_field(fields: &Vec<(String, Json)>, key: &str) -> (r: Option<usize>)
    ensures
        r is Some <==> fields_of(fields@).contains_key(key@),
        r matches Some(i) ==> {
            &&& i < fields.len()
            &&& fields@[i as int].0@ == key@
            &&& fields_of(fields@)[key@] == tree_of(fields@[i as int].1)
            &&& forall|j: int| i < j < fields@.len() ==> (#[trigger] fields@[j]).0@ != key@
        },
{
    let mut i: usize = fields.len();
    while i > 0
        invariant
            i <= fields.len(),
            forall|j: int| i <= j < fields@.len() ==> (#[trigger] fields@[j]).0@ != key@,
        decreases i,
    {
        i -= 1;
        if same(&fields[i].0, key) {
            proof {
                lemma_field_found(fields@, i as int);
            }
            return Some(i);
        }
    }
    proof {
        lemma_field_absent(fields@, key@);
    }
    None
}

/// A text, or null.
pub open spec fn optional_text(s: Option<Seq<char>>) -> Tree {
    match s {
        Some(s) => Tree::Text(s),
        None => Tree::Null,
    }
}

pub fn text_json(s: Option<String>) -> (r: Json)
    ensures
        r@ == optional_text(
            match s {
                Some(s) => Some(s@),
                None => None,
            },
        ),
{
    match s {
        Some(s) => Json::Text(s),
        None => Json::Null,
    }
}

/// A truth value, or null.
pub open spec fn optional_flag(b: Option<bool>) -> Tree {
    match b {
        Some(b) => Tree::Bool(b),
        None => Tree::Null,
    }
}

pub fn flag_json(b: Option<bool>) -> (r: Json)
    ensures
        r@ == optional_flag(b),
{
    match b {
        Some(b) => Json::Bool(b),
        None => Json::Null,
    }
}

/// Appends to a list of values.
pub fn push_json(items: &mut Vec<Json>, item: Json)
    ensures
        trees_of(final(items)@) == trees_of(old(items)@).push(item@),
{
    items.push(item);
    assert(items@.drop_last() == old(items)@);
}

/// The values of a list under names, one for each.
pub open spec fn named_values(items: Seq<Tree>, names: Seq<Seq<char>>) -> Map<Seq<char>, Tree>
    decreases items.len(),
{
    if items.len() == 0 {
        Map::empty()
    } else {
        named_values(items.drop_last(), names).insert(names[items.len() - 1], items.last())
    }
}

/// A record, which may be written as an object or as the list of its values in the order of
/// their names; null where a list has not as many values as there are names.
pub open spec fn record_of(t: Tree, names: Seq<Seq<char>>) -> Tree {
    match t {
        Tree::Array(items) => if items.len() == names.len() {
            Tree::Object(named_values(items, names))
        } else {
            Tree::Null
        },
        other => other,
    }
}

pub open spec fn str_views(names: Seq<&str>) -> Seq<Seq<char>> {
    names.map_values(|s: &str| s@)
}

/// A record that is written as a list, as an object; nothing where it is not written as a list.
pub fn unlisted(t: &Json, names: &[&str]) -> (r: Option<Json>)
    ensures
        r is Some <==> t@ is Array,
        r matches Some(j) ==> j@ == record_of(t@, str_views(names@)),
{
    let items = match t {
        Json::Array(items) => items,
        _ => return None,
    };
    let ghost trees = trees_of(items@);
    let ghost views = str_views(names@);
    proof {
        lemma_trees_of(items@);
    }
    if items.len() != names.len() {
        return Some(Json::Null);
    }
    let mut r = Json::object();
    let mut i: usize = 0;
    assert(trees.take(0) =~= Seq::empty());
    while i < items.len()
        invariant
            i <= items@.len(),
            items@.len() == names@.len(),
            trees == trees_of(items@),
            trees.len() == items@.len(),
            forall|k: int| 0 <= k < items@.len() ==> #[trigger] trees[k] == tree_of(items@[k]),
            views == str_views(names@),
            r@ == Tree::Object(named_values(trees.take(i as int), views)),
        decreases items@.len() - i,
    {
        proof {
            assert(trees.take(i + 1).drop_last() == trees.take(i as int));
            assert(trees.take(i + 1).last() == items@[i as int]@);
            assert(views[i as int] == names@[i as int]@);
        }
        r.set(names[i].to_owned(), items[i].copy());
        i += 1;
    }
    assert(trees.take(trees.len() as int) == trees);
    Some(r)
}

/// Reads a JSON document.
pub fn parse_json(bytes: &[u8]) -> (r: Option<Json>)
    ensures
        tree_option(r) == json_document(bytes@),
{
    match read_value(bytes) {
        Ok(value) => Some(json_of(value)),
        Err(_) => None,
    }
}

/// Reads a JSON document, or tells in the words of the one who reads it why it is none.
pub fn read_json(bytes: &[u8]) -> (r: Result<Json, String>)
    ensures
        match json_document(bytes@) {
            Some(t) => r matches Ok(j) && j@ == t,
            None => r matches Err(s) && s@ == fault_text(bytes@),
        },
{
    match read_value(bytes) {
        Ok(value) => Ok(json_of(value)),
        Err(s) => Err(s),
    }
}

/// Reads a JSON object, or tells in the words of the one who reads it why it is none.
pub fn read_object(bytes: &[u8]) -> (r: Result<Json, String>)
    ensures
        if holds_object(bytes@) {
            r matches Ok(j) && Some(j@) == json_document(bytes@)
        } else {
            r matches Err(s) && s@ == object_fault_text(bytes@)
        },
{
    match object_fault(bytes) {
        Some(s) => Err(s),
        None => match read_value(bytes) {
            Ok(value) => Ok(json_of(value)),
            Err(s) => Err(s),
        },
    }
}

/// The document in a text.
pub open spec fn text_document(s: Seq<char>) -> Option<Tree> {
    json_document(encode_utf8(s))
}

/// Reads a JSON document from a text.
pub fn parse_text(s: &str) -> (r: Option<Json>)
    ensures
        tree_option(r) == text_document(s@),
{
    parse_json(s.as_bytes())
}

/// A record that is written as a list has each value under the name at its place, and no other
/// member; a list of another length is none, and what is no list stays as it is.
pub proof fn law_records_may_be_lists(t: Tree, names: Seq<Seq<char>>, i: int, key: Seq<char>)
    requires
        names.no_duplicates(),
    ensures
        !(t is Array) ==> record_of(t, names) == t,
        t matches Tree::Array(items) ==> {
            &&& items.len() != names.len() ==> record_of(t, names) is Null
            &&& items.len() == names.len() && 0 <= i < items.len() ==> record_of(t, names).field(
                names[i],
            ) == Some(items[i])
            &&& items.len() == names.len() && !names.contains(key) ==> record_of(t, names).field(
                key,
            ) is None
        },
{
    if let Tree::Array(items) = t {
        if items.len() == names.len() {
            lemma_named_values(items, names);
            if 0 <= i < items.len() {
                assert(named_values(items, names)[names[i]] == items[i]);
            }
            if !names.contains(key) && named_values(items, names).contains_key(key) {
                let k = choose|k: int| 0 <= k < items.len() && names[k] == key;
                assert(names[k] == key);
            }
        }
    }
}

proof fn lemma_named_values(items: Seq<Tree>, names: Seq<Seq<char>>)
    requires
        items.len() <= names.len(),
        names.no_duplicates(),
    ensures
        forall|i: int|
            0 <= i < items.len() ==> named_values(items, names).contains_key(#[trigger] names[i])
                && named_values(items, names)[names[i]] == items[i],
        forall|key: Seq<char>| #[trigger]
            named_values(items, names).contains_key(key) ==> exists|k: int|
                0 <= k < items.len() && #[trigger] names[k] == key,
    decreases items.len(),
{
    if items.len() > 0 {
        let front = items.drop_last();
        let end = items.len() - 1;
        lemma_named_values(front, names);
        assert(forall|i: int| 0 <= i < end ==> #[trigger] items[i] == front[i]);
        assert forall|key: Seq<char>| #[trigger]
            named_values(items, names).contains_key(key) implies exists|k: int|
            0 <= k < items.len() && #[trigger] names[k] == key by {
            if key != names[end] {
                assert(named_values(front, names).contains_key(key));
                let k = choose|k: int| 0 <= k < front.len() && #[trigger] names[k] == key;
                assert(names[k] == key);
            }
        }
    }
}

/// A member is what an object has under its name; anything else, and an object without it, has
/// none, and null stands for that.
pub proof fn law_members(t: Tree, m: Map<Seq<char>, Tree>, key: Seq<char>)
    ensures
        Tree::Object(m).field(key) is Some <==> m.contains_key(key),
        m.contains_key(key) ==> Tree::Object(m).field(key) == Some(m[key]) && Tree::Object(m).at(
            key,
        ) == m[key],
        !m.contains_key(key) ==> Tree::Object(m).at(key) is Null,
        !(t is Object) ==> t.field(key) is None && t.at(key) is Null,
{
}

/// A value is a text, a list, a flag or a number only where it is of that kind: a number of 64
/// bits without a sign, and one with a sign where it fits.
pub proof fn law_kinds_of_values(t: Tree)
    ensures
        t.text() is Some <==> t is Text,
        t.text() matches Some(s) ==> t == Tree::Text(s),
        t.items() is Some <==> t is Array,
        t.items() matches Some(s) ==> t == Tree::Array(s),
        t.flag() is Some <==> t is Bool,
        t.flag() matches Some(b) ==> t == Tree::Bool(b),
        t.number() matches Some(n) ==> t == Tree::Number(Quantity::Unsigned(n)),
        t matches Tree::Number(Quantity::Unsigned(n)) ==> t.number() == Some(n),
        t matches Tree::Number(Quantity::Negative(i)) ==> t.signed() == Some(i) && t.number()
            is None,
        t matches Tree::Number(Quantity::Unsigned(n)) ==> (n <= i64::MAX ==> t.signed() == Some(
            n as i64,
        )) && (n > i64::MAX ==> t.signed() is None),
        t.bits() is Some ==> t is Number,
        t matches Tree::Number(q) ==> t.bits() == double_bits(q),
        !(t is Number) ==> t.number() is None && t.signed() is None,
{
}

/// Setting a member sets it, makes it where there is none, and leaves all others; null becomes an
/// object by it, and any other value cannot have members.
pub proof fn law_setting_a_member(t: Tree, key: Seq<char>, value: Tree, other: Seq<char>)
    ensures
        t is Object || t is Null ==> t.with(key, value).at(key) == value,
        t is Object && other != key ==> t.with(key, value).field(other) == t.field(other),
        t is Null && other != key ==> t.with(key, value).field(other) is None,
        !(t is Object) && !(t is Null) ==> t.with(key, value) == t,
        t.says(key, other) <==> t.at(key) == Tree::Text(other),
        t.is(key, true) <==> t.at(key) == Tree::Bool(true),
        t.is(key, false) <==> t.at(key) == Tree::Bool(false),
{
}

/// What may be missing is null where it is.
pub proof fn law_what_may_be_missing(s: Option<Seq<char>>, b: Option<bool>)
    ensures
        s is None ==> optional_text(s) is Null,
        s matches Some(t) ==> optional_text(s) == Tree::Text(t),
        b is None ==> optional_flag(b) is Null,
        b matches Some(v) ==> optional_flag(b) == Tree::Bool(v),
{
}

/// A list of values is read as the list of each, and the members of an object as each under its
/// name, of which the last counts.
pub proof fn law_how_values_are_read(
    items: Seq<Json>,
    item: Json,
    fields: Seq<(String, Json)>,
    field: (String, Json),
)
    ensures
        trees_of(Seq::<Json>::empty()) == Seq::<Tree>::empty(),
        trees_of(items.push(item)) == trees_of(items).push(tree_of(item)),
        fields_of(Seq::<(String, Json)>::empty()) == Map::<Seq<char>, Tree>::empty(),
        fields_of(fields.push(field)) == fields_of(fields).insert(field.0@, tree_of(field.1)),
{
    assert(items.push(item).drop_last() =~= items);
    assert(fields.push(field).drop_last() =~= fields);
}

} // verus!
