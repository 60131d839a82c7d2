//! JSON documents: a tree of the library's own, read from text and written to
//! text by `serde_json`.
use vstd::prelude::*;

use crate::text;

verus! {

/// What a JSON document says, without the way it is laid out. A number is known
/// by the `i64` that it equals, if it equals one.
pub enum Tree {
    Null,
    Bool(bool),
    Number(Option<i64>),
    Text(Seq<char>),
    Array(Seq<Tree>),
    Object(Map<Seq<char>, Tree>),
}

impl Tree {
    /// The value of `key`, null where there is none.
    pub open spec fn member(self, key: Seq<char>) -> Tree {
        match self {
            Tree::Object(members) => if members.contains_key(key) {
                members[key]
            } else {
                Tree::Null
            },
            _ => Tree::Null,
        }
    }

    pub open spec fn text(self) -> Option<Seq<char>> {
        match self {
            Tree::Text(text) => Some(text),
            _ => None,
        }
    }

    pub open spec fn integer(self) -> Option<i64> {
        match self {
            Tree::Number(number) => number,
            _ => None,
        }
    }

    pub open spec fn truth(self) -> Option<bool> {
        match self {
            Tree::Bool(truth) => Some(truth),
            _ => None,
        }
    }

    /// Whether the tree is at most `depth` arrays and objects deep and every
    /// number in it is an `i64`.
    pub open spec fn plain(self, depth: nat) -> bool
        decreases depth,
    {
        match self {
            Tree::Number(number) => number is Some,
            Tree::Array(items) => depth > 0 && forall|i: int|
                0 <= i < items.len() ==> (#[trigger] items[i]).plain((depth - 1) as nat),
            Tree::Object(members) => depth > 0 && forall|key: Seq<char>| #[trigger]
                members.contains_key(key) ==> members[key].plain((depth - 1) as nat),
            _ => true,
        }
    }
}

/// A JSON document. Where an object repeats a key, the last one counts.
pub enum Json {
    Null,
    Bool(bool),
    Number(Option<i64>),
    Text(String),
    Array(Vec<Json>),
    Object(Vec<(String, Json)>),
}

pub open spec fn list_trees(items: Seq<Json>) -> Seq<Tree>
    decreases items,
{
    if items.len() == 0 {
        Seq::empty()
    } else {
        list_trees(items.drop_last()).push(items.last().tree())
    }
}

pub open spec fn member_trees(members: Seq<(String, Json)>) -> Map<Seq<char>, Tree>
    decreases members,
{
    if members.len() == 0 {
        Map::empty()
    } else {
        member_trees(members.drop_last()).insert(members.last().0@, members.last().1.tree())
    }
}

impl Json {
    pub open spec fn tree(self) -> Tree
        decreases self,
    {
        match self {
            Json::Null => Tree::Null,
            Json::Bool(truth) => Tree::Bool(truth),
            Json::Number(number) => Tree::Number(number),
            Json::Text(text) => Tree::Text(text@),
            Json::Array(items) => Tree::Array(list_trees(items@)),
            Json::Object(members) => Tree::Object(member_trees(members@)),
        }
    }
}

/// A parsed document of `serde_json`.
#[verifier::external_type_specification]
#[verifier::external_body]
pub struct ExValue(serde_json::Value);

/// What a document of `serde_json` holds.
pub uninterp spec fn value_tree(value: serde_json::Value) -> Tree;

pub open spec fn value_trees(items: Seq<serde_json::Value>) -> Seq<Tree> {
    items.map_values(|value: serde_json::Value| value_tree(value))
}

pub open spec fn value_members(members: Seq<(String, serde_json::Value)>) -> Map<Seq<char>, Tree>
    decreases members.len(),
{
    if members.len() == 0 {
        Map::empty()
    } else {
        value_members(members.drop_last()).insert(members.last().0@, value_tree(members.last().1))
    }
}

/// The top of a document, with what is below it still closed.
pub enum Node {
    Null,
    Bool(bool),
    Number(Option<i64>),
    Text(String),
    Array(Vec<serde_json::Value>),
    Object(Vec<(String, serde_json::Value)>),
}

impl Node {
    pub open spec fn tree(self) -> Tree {
        match self {
            Node::Null => Tree::Null,
            Node::Bool(truth) => Tree::Bool(truth),
            Node::Number(number) => Tree::Number(number),
            Node::Text(text) => Tree::Text(text@),
            Node::Array(items) => Tree::Array(value_trees(items@)),
            Node::Object(members) => Tree::Object(value_members(members@)),
        }
    }
}

/// No key twice.
pub open spec fn distinct_keys(members: Seq<(String, serde_json::Value)>) -> bool {
    forall|i: int, j: int|
        0 <= i < j < members.len() ==> (#[trigger] members[i]).0@ != (#[trigger] members[j]).0@
}

/// Takes the variants of `serde_json::Value` apart: an array and an object give
/// up the items that they hold, an object each key once, and
/// `serde_json::Number::as_i64` reads a number.
#[verifier::external_body]
fn open_value(value: serde_json::Value) -> (r: Node)
    ensures
        r.tree() == value_tree(value),
        r matches Node::Object(members) ==> distinct_keys(members@),
{
    match value {
        serde_json::Value::Null => Node::Null,
        serde_json::Value::Bool(truth) => Node::Bool(truth),
        serde_json::Value::Number(number) => Node::Number(number.as_i64()),
        serde_json::Value::String(text) => Node::Text(text),
        serde_json::Value::Array(items) => Node::Array(items),
        serde_json::Value::Object(members) => Node::Object(members.into_iter().collect()),
    }
}

/// Puts a `serde_json::Value` together from its parts, by its variants and its
/// conversion from an optional `i64`, which makes a number of every `i64`.
#[verifier::external_body]
fn close_value(node: Node) -> (r: serde_json::Value)
    requires
        node != Node::Number(None),
        node matches Node::Object(members) ==> distinct_keys(members@),
    ensures
        value_tree(r) == node.tree(),
{
    match node {
        Node::Null => serde_json::Value::Null,
        Node::Bool(truth) => serde_json::Value::Bool(truth),
        Node::Number(number) => serde_json::Value::from(number),
        Node::Text(text) => serde_json::Value::String(text),
        Node::Array(items) => serde_json::Value::Array(items),
        Node::Object(members) => serde_json::Value::Object(members.into_iter().collect()),
    }
}

proof fn lemma_value_members(members: Seq<(String, serde_json::Value)>)
    requires
        distinct_keys(members),
    ensures
        value_members(members).dom().finite(),
        forall|i: int|
            0 <= i < members.len() ==> value_members(members).contains_key(
                (#[trigger] members[i]).0@,
            ) && value_members(members)[members[i].0@] == value_tree(members[i].1),
    decreases members.len(),
{
    if members.len() > 0 {
        let rest = members.drop_last();
        lemma_value_members(rest);
        assert forall|i: int| 0 <= i < members.len() implies value_members(members).contains_key(
            (#[trigger] members[i]).0@,
        ) && value_members(members)[members[i].0@] == value_tree(members[i].1) by {
            if i < members.len() - 1 {
                assert(rest[i] == members[i]);
                assert(members[i].0@ != members[members.len() - 1].0@);
            }
        }
    }
}

fn from_value(value: serde_json::Value) -> (r: Json)
    ensures
        r.tree() == value_tree(value),
    decreases value_tree(value),
{
    let ghost tree = value_tree(value);
    match open_value(value) {
        Node::Null => Json::Null,
        Node::Bool(truth) => Json::Bool(truth),
        Node::Number(number) => Json::Number(number),
        Node::Text(text) => Json::Text(text),
        Node::Array(items) => {
            let ghost trees = value_trees(items@);
            let mut out: Vec<Json> = Vec::new();
            for item in it: items
                invariant
                    tree == value_tree(value),
                    tree == Tree::Array(trees),
                    trees == value_trees(it.seq()),
                    list_trees(out@) == trees.take(it.index() as int),
            {
                proof {
                    assert(trees[it.index() as int] == value_tree(item));
                    assert(decreases_to!(tree => tree->Array_0));
                    assert(decreases_to!(trees => trees[it.index() as int]));
                }
                let next = from_value(item);
                let ghost before = out@;
                out.push(next);
                proof {
                    assert(out@.drop_last() =~= before);
                    assert(trees.take(it.index() + 1) =~= trees.take(it.index() as int).push(
                        next.tree(),
                    ));
                }
            }
            proof {
                assert(trees.take(trees.len() as int) =~= trees);
            }
            Json::Array(out)
        },
        Node::Object(members) => {
            let ghost trees = value_members(members@);
            proof {
                lemma_value_members(members@);
            }
            let mut out: Vec<(String, Json)> = Vec::new();
            for member in it: members
                invariant
                    tree == value_tree(value),
                    tree == Tree::Object(trees),
                    trees == value_members(it.seq()),
                    trees.dom().finite(),
                    forall|i: int|
                        0 <= i < it.seq().len() ==> trees.contains_key((#[trigger] it.seq()[i]).0@)
                            && trees[it.seq()[i].0@] == value_tree(it.seq()[i].1),
                    member_trees(out@) == value_members(it.seq().take(it.index() as int)),
            {
                proof {
                    assert(it.seq()[it.index() as int] == member);
                    assert(trees[member.0@] == value_tree(member.1));
                    assert(decreases_to!(tree => tree->Object_0));
                    assert(decreases_to!(trees => trees[member.0@]));
                }
                let ghost key = member.0@;
                let ghost held = value_tree(member.1);
                let next = from_value(member.1);
                let ghost before = out@;
                out.push((member.0, next));
                proof {
                    assert(out@.drop_last() =~= before);
                    let grown = it.seq().take(it.index() + 1);
                    assert(grown.drop_last() =~= it.seq().take(it.index() as int));
                    assert(grown.last().0@ == key);
                    assert(value_tree(grown.last().1) == held);
                }
            }
            proof {
                assert(members@.take(members@.len() as int) =~= members@);
            }
            Json::Object(out)
        },
    }
}

/// A list holds the tree of each of its items.
pub proof fn lemma_list_trees(items: Seq<Json>)
    ensures
        list_trees(items).len() == items.len(),
        forall|i: int| 0 <= i < items.len() ==> list_trees(items)[i] == (#[trigger] items[i]).tree(),
    decreases items.len(),
{
    if items.len() > 0 {
        lemma_list_trees(items.drop_last());
        assert forall|i: int| 0 <= i < items.len() implies list_trees(items)[i] == (
        #[trigger] items[i]).tree() by {
            if i < items.len() - 1 {
                assert(items.drop_last()[i] == items[i]);
            }
        }
    }
}

/// Whether no key comes twice.
pub open spec fn distinct_names(members: Seq<(String, Json)>) -> bool {
    forall|i: int, j: int|
        0 <= i < j < members.len() ==> (#[trigger] members[i]).0@ != (#[trigger] members[j]).0@
}

/// An object holds each of its members where no key comes twice.
pub proof fn lemma_member_trees(members: Seq<(String, Json)>)
    requires
        distinct_names(members),
    ensures
        forall|i: int|
            0 <= i < members.len() ==> member_trees(members).contains_key((#[trigger] members[i]).0@)
                && member_trees(members)[members[i].0@] == members[i].1.tree(),
    decreases members.len(),
{
    if members.len() > 0 {
        let rest = members.drop_last();
        lemma_member_trees(rest);
        assert forall|i: int| 0 <= i < members.len() implies member_trees(members).contains_key(
            (#[trigger] members[i]).0@,
        ) && member_trees(members)[members[i].0@] == members[i].1.tree() by {
            if i < members.len() - 1 {
                assert(rest[i] == members[i]);
                assert(members[i].0@ != members[members.len() - 1].0@);
            }
        }
    }
}

/// Every key of an object is the key of one of its members.
pub proof fn lemma_member_keys(members: Seq<(String, Json)>, key: Seq<char>)
    requires
        member_trees(members).contains_key(key),
    ensures
        exists|i: int| 0 <= i < members.len() && (#[trigger] members[i]).0@ == key,
    decreases members.len(),
{
    if members.len() > 0 {
        let last = members[members.len() - 1];
        if last.0@ != key {
            lemma_member_keys(members.drop_last(), key);
            let i = choose|i: int|
                0 <= i < members.drop_last().len() && (#[trigger] members.drop_last()[i]).0@ == key;
            assert(members[i].0@ == key);
        }
    }
}

impl Json {
    /// Whether every number in the document is an `i64`, it is at most `depth`
    /// deep, and no object repeats a key.
    pub open spec fn writable(self, depth: nat) -> bool
        decreases depth,
    {
        match self {
            Json::Number(number) => number is Some,
            Json::Array(items) => depth > 0 && forall|i: int|
                0 <= i < items@.len() ==> (#[trigger] items@[i]).writable((depth - 1) as nat),
            Json::Object(members) => depth > 0 && distinct_names(members@) && forall|i: int|
                0 <= i < members@.len() ==> (#[trigger] members@[i]).1.writable(
                    (depth - 1) as nat,
                ),
            _ => true,
        }
    }
}

/// A document that is not too deep for one limit is not too deep for a higher.
pub proof fn lemma_writable_deeper(json: Json, depth: nat, limit: nat)
    requires
        json.writable(depth),
        depth <= limit,
    ensures
        json.writable(limit),
    decreases depth,
{
    match json {
        Json::Array(items) => {
            assert forall|i: int| 0 <= i < items@.len() implies (#[trigger] items@[i]).writable(
                (limit - 1) as nat,
            ) by {
                lemma_writable_deeper(items@[i], (depth - 1) as nat, (limit - 1) as nat);
            }
        },
        Json::Object(members) => {
            assert forall|i: int| 0 <= i < members@.len() implies (
            #[trigger] members@[i]).1.writable((limit - 1) as nat) by {
                lemma_writable_deeper(members@[i].1, (depth - 1) as nat, (limit - 1) as nat);
            }
        },
        _ => {},
    }
}

proof fn lemma_writable_is_plain(json: Json, depth: nat)
    requires
        json.writable(depth),
    ensures
        json.tree().plain(depth),
    decreases depth,
{
    match json {
        Json::Array(items) => {
            lemma_list_trees(items@);
            assert forall|i: int| 0 <= i < list_trees(items@).len() implies (
            #[trigger] list_trees(items@)[i]).plain((depth - 1) as nat) by {
                assert(items@[i].tree() == list_trees(items@)[i]);
                lemma_writable_is_plain(items@[i], (depth - 1) as nat);
            }
        },
        Json::Object(members) => {
            lemma_member_trees(members@);
            assert forall|key: Seq<char>| #[trigger]
                member_trees(members@).contains_key(key) implies member_trees(members@)[key].plain(
                (depth - 1) as nat,
            ) by {
                lemma_member_keys(members@, key);
                let i = choose|i: int|
                    0 <= i < members@.len() && (#[trigger] members@[i]).0@ == key;
                assert(members@[i].0@ == key);
                lemma_writable_is_plain(members@[i].1, (depth - 1) as nat);
            }
        },
        _ => {},
    }
}

fn to_value(json: &Json, depth: Ghost<nat>) -> (r: serde_json::Value)
    requires
        json.writable(depth@),
    ensures
        value_tree(r) == json.tree(),
    decreases depth@,
{
    match json {
        Json::Null => close_value(Node::Null),
        Json::Bool(truth) => close_value(Node::Bool(*truth)),
        Json::Number(number) => close_value(Node::Number(*number)),
        Json::Text(text) => close_value(Node::Text(text.clone())),
        Json::Array(items) => {
            let mut out: Vec<serde_json::Value> = Vec::new();
            for i in 0..items.len()
                invariant
                    depth@ > 0,
                    forall|k: int|
                        0 <= k < items@.len() ==> (#[trigger] items@[k]).writable(
                            (depth@ - 1) as nat,
                        ),
                    value_trees(out@) == list_trees(items@.take(i as int)),
            {
                proof {
                    assert(items@[i as int].writable((depth@ - 1) as nat));
                    assert(items@.take(i + 1).drop_last() =~= items@.take(i as int));
                }
                let ghost before = out@;
                out.push(to_value(&items[i], Ghost((depth@ - 1) as nat)));
                proof {
                    assert(value_trees(out@) =~= value_trees(before).push(items@[i as int].tree()));
                }
            }
            proof {
                assert(items@.take(items@.len() as int) =~= items@);
            }
            close_value(Node::Array(out))
        },
        Json::Object(members) => {
            let mut out: Vec<(String, serde_json::Value)> = Vec::new();
            for i in 0..members.len()
                invariant
                    depth@ > 0,
                    forall|k: int|
                        0 <= k < members@.len() ==> (#[trigger] members@[k]).1.writable(
                            (depth@ - 1) as nat,
                        ),
                    distinct_names(members@),
                    out@.len() == i,
                    forall|k: int| 0 <= k < i ==> (#[trigger] out@[k]).0@ == members@[k].0@,
                    value_members(out@) == member_trees(members@.take(i as int)),
            {
                proof {
                    assert(members@[i as int].1.writable((depth@ - 1) as nat));
                    assert(members@.take(i + 1).drop_last() =~= members@.take(i as int));
                }
                let ghost before = out@;
                let value = to_value(&members[i].1, Ghost((depth@ - 1) as nat));
                out.push((members[i].0.clone(), value));
                proof {
                    assert(out@.drop_last() =~= before);
                }
            }
            proof {
                assert(members@.take(members@.len() as int) =~= members@);
            }
            close_value(Node::Object(out))
        },
    }
}

/// What `serde_json::from_str` reads into a `Value`, none where it fails.
pub uninterp spec fn json_document(text: Seq<char>) -> Option<Tree>;

/// `serde_json::from_str::<Value>`.
#[verifier::external_body]
fn parse_document(text: &str) -> (r: Option<serde_json::Value>)
    ensures
        match r {
            Some(value) => json_document(text@) == Some(value_tree(value)),
            None => json_document(text@) is None,
        },
{
    serde_json::from_str::<serde_json::Value>(text).ok()
}

/// What `serde_json::from_slice` reads into a `Value`, none where it fails.
pub uninterp spec fn json_bytes(bytes: Seq<u8>) -> Option<Tree>;

/// `serde_json::from_slice::<Value>`.
#[verifier::external_body]
fn parse_bytes(bytes: &[u8]) -> (r: Option<serde_json::Value>)
    ensures
        match r {
            Some(value) => json_bytes(bytes@) == Some(value_tree(value)),
            None => json_bytes(bytes@) is None,
        },
{
    serde_json::from_slice::<serde_json::Value>(bytes).ok()
}

/// What `serde_json::from_str` reads into a list of `Value`, or how it words its
/// error.
pub uninterp spec fn json_list(text: Seq<char>) -> Result<Seq<Tree>, Seq<char>>;

/// `serde_json::from_str::<Vec<Value>>`, its error as the text it displays.
#[verifier::external_body]
fn parse_list(text: &str) -> (r: Result<Vec<serde_json::Value>, String>)
    ensures
        match r {
            Ok(items) => json_list(text@) == Ok::<Seq<Tree>, Seq<char>>(value_trees(items@)),
            Err(error) => json_list(text@) == Err::<Seq<Tree>, Seq<char>>(error@),
        },
{
    serde_json::from_str::<Vec<serde_json::Value>>(text).map_err(|error| error.to_string())
}

/// What `serde_json::from_slice` reads into a list of `Value`, or how it words
/// its error.
pub uninterp spec fn json_byte_list(bytes: Seq<u8>) -> Result<Seq<Tree>, Seq<char>>;

/// `serde_json::from_slice::<Vec<Value>>`, its error as the text it displays.
#[verifier::external_body]
fn parse_byte_list(bytes: &[u8]) -> (r: Result<Vec<serde_json::Value>, String>)
    ensures
        match r {
            Ok(items) => json_byte_list(bytes@) == Ok::<Seq<Tree>, Seq<char>>(value_trees(items@)),
            Err(error) => json_byte_list(bytes@) == Err::<Seq<Tree>, Seq<char>>(error@),
        },
{
    serde_json::from_slice::<Vec<serde_json::Value>>(bytes).map_err(|error| error.to_string())
}

/// How `serde_json` writes a document.
pub uninterp spec fn json_text(tree: Tree) -> Seq<char>;

/// `Value::to_string` writes a document as compact text. A document of at most
/// a hundred levels, whose numbers are all `i64`, is read back as it was, from
/// the text and from its bytes.
#[verifier::external_body]
fn print_value(value: &serde_json::Value) -> (r: String)
    requires
        value_tree(*value).plain(100),
    ensures
        r@ == json_text(value_tree(*value)),
        json_document(r@) == Some(value_tree(*value)),
        json_bytes(vstd::utf8::encode_utf8(r@)) == Some(value_tree(*value)),
{
    value.to_string()
}

/// What an optional document says.
pub open spec fn optional_tree(document: Option<Json>) -> Option<Tree> {
    match document {
        Some(json) => Some(json.tree()),
        None => None,
    }
}

/// What a list of documents says, or its error.
pub open spec fn list_view(list: Result<Vec<Json>, String>) -> Result<Seq<Tree>, Seq<char>> {
    match list {
        Ok(items) => Ok(list_trees(items@)),
        Err(error) => Err(error@),
    }
}

/// Reads a document.
pub fn read(text: &str) -> (r: Option<Json>)
    ensures
        optional_tree(r) == json_document(text@),
{
    match parse_document(text) {
        Some(value) => Some(from_value(value)),
        None => None,
    }
}

/// Reads a document from bytes.
pub fn read_bytes(bytes: &[u8]) -> (r: Option<Json>)
    ensures
        optional_tree(r) == json_bytes(bytes@),
{
    match parse_bytes(bytes) {
        Some(value) => Some(from_value(value)),
        None => None,
    }
}

fn from_values(values: Vec<serde_json::Value>) -> (r: Vec<Json>)
    ensures
        list_trees(r@) == value_trees(values@),
{
    let ghost trees = value_trees(values@);
    let mut out: Vec<Json> = Vec::new();
    for value in it: values
        invariant
            trees == value_trees(it.seq()),
            list_trees(out@) == trees.take(it.index() as int),
    {
        proof {
            assert(trees[it.index() as int] == value_tree(value));
        }
        let next = from_value(value);
        let ghost before = out@;
        out.push(next);
        proof {
            assert(out@.drop_last() =~= before);
            assert(trees.take(it.index() + 1) =~= trees.take(it.index() as int).push(next.tree()));
        }
    }
    proof {
        assert(trees.take(trees.len() as int) =~= trees);
    }
    out
}

/// Reads a document that is a list.
pub fn read_list(text: &str) -> (r: Result<Vec<Json>, String>)
    ensures
        list_view(r) == json_list(text@),
{
    match parse_list(text) {
        Ok(values) => Ok(from_values(values)),
        Err(error) => Err(error),
    }
}

/// Reads a document that is a list from bytes.
pub fn read_byte_list(bytes: &[u8]) -> (r: Result<Vec<Json>, String>)
    ensures
        list_view(r) == json_byte_list(bytes@),
{
    match parse_byte_list(bytes) {
        Ok(values) => Ok(from_values(values)),
        Err(error) => Err(error),
    }
}

/// Writes a document. Reading gives it back.
pub fn write(json: &Json) -> (r: String)
    requires
        json.writable(100),
    ensures
        r@ == json_text(json.tree()),
        json_document(r@) == Some(json.tree()),
        json_bytes(vstd::utf8::encode_utf8(r@)) == Some(json.tree()),
{
    proof {
        lemma_writable_is_plain(*json, 100);
    }
    let value = to_value(json, Ghost(100));
    print_value(&value)
}

impl Json {
    /// The value of `key`, where the document is an object that has one.
    pub fn member(&self, key: &str) -> (r: Option<&Json>)
        ensures
            match r {
                Some(json) => self.tree().member(key@) == json.tree(),
                None => self.tree().member(key@) == Tree::Null,
            },
    {
        match self {
            Json::Object(members) => {
                let mut i: usize = members.len();
                proof {
                    assert(members@.take(members@.len() as int) =~= members@);
                }
                while i > 0
                    invariant
                        i <= members.len(),
                        self.tree() == Tree::Object(member_trees(members@)),
                        self.tree().member(key@) == Tree::Object(
                            member_trees(members@.take(i as int)),
                        ).member(key@),
                    decreases i,
                {
                    proof {
                        assert(members@.take(i as int).drop_last() =~= members@.take(i - 1));
                    }
                    i -= 1;
                    if text::same(members[i].0.as_str(), key) {
                        return Some(&members[i].1);
                    }
                }
                None
            },
            _ => None,
        }
    }

    /// The text of the member `key`, where it is a string.
    pub fn text_member(&self, key: &str) -> (r: Option<&str>)
        ensures
            text::viewed(r) == self.tree().member(key@).text(),
    {
        match self.member(key) {
            Some(Json::Text(text)) => Some(text.as_str()),
            _ => None,
        }
    }

    /// The member `key`, where it is a number that is an `i64`.
    pub fn integer_member(&self, key: &str) -> (r: Option<i64>)
        ensures
            r == self.tree().member(key@).integer(),
    {
        match self.member(key) {
            Some(Json::Number(number)) => *number,
            _ => None,
        }
    }

    /// The member `key`, where it is true or false.
    pub fn truth_member(&self, key: &str) -> (r: Option<bool>)
        ensures
            r == self.tree().member(key@).truth(),
    {
        match self.member(key) {
            Some(Json::Bool(truth)) => Some(*truth),
            _ => None,
        }
    }
}

/// A member of an object is what stands under its key, and null where there is none, as in
/// everything that is no object; a text, a number and a truth are read as what they are.
pub proof fn members_are_read_by_their_keys(
    members: Map<Seq<char>, Tree>,
    key: Seq<char>,
    tree: Tree,
)
    ensures
        members.contains_key(key) ==> Tree::Object(members).member(key) == members[key],
        !members.contains_key(key) ==> Tree::Object(members).member(key) == Tree::Null,
        !(tree is Object) ==> tree.member(key) == Tree::Null,
        tree.text() == if tree is Text {
            Some(tree->Text_0)
        } else {
            None
        },
        tree.integer() == if tree is Number {
            tree->Number_0
        } else {
            None
        },
        tree.truth() == if tree is Bool {
            Some(tree->Bool_0)
        } else {
            None
        },
{
}

/// Of two members with the same key the last counts, and every other member is as it was.
pub proof fn the_last_member_with_a_key_counts(
    members: Seq<(String, Json)>,
    name: String,
    value: Json,
    other: Seq<char>,
)
    requires
        other != name@,
    ensures
        ({
            let before = Tree::Object(member_trees(members));
            let after = Tree::Object(member_trees(members.push((name, value))));
            &&& after.member(name@) == value.tree()
            &&& after.member(other) == before.member(other)
            &&& member_trees(Seq::empty()).dom() == Set::<Seq<char>>::empty()
        }),
{
    assert(members.push((name, value)).drop_last() =~= members);
}

} // verus!
