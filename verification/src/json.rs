//! JSON values: what a server's answer is read from, and what a request is made
//! of.

use vstd::prelude::*;

use crate::chars::{opt_str, same, texts};

verus! {

/// A JSON value.
#[derive(Debug)]
pub enum Json {
    Null,
    Bool(bool),
    /// A whole number that is not negative.
    Unsigned(u64),
    /// A whole number below zero.
    Negative(i64),
    /// Any other number, in its digits.
    Fraction(String),
    Str(String),
    Array(Vec<Json>),
    /// Keys are unique.
    Object(Vec<(String, Json)>),
}

/// The value under a key of these fields.
pub open spec fn find_field(fields: Seq<(String, Json)>, key: Seq<char>) -> Option<Json>
    decreases fields.len(),
{
    if fields.len() == 0 {
        None
    } else if fields[0].0@ == key {
        Some(fields[0].1)
    } else {
        find_field(fields.skip(1), key)
    }
}

/// The value under a key, if this is an object that has it.
pub open spec fn field(j: Json, key: Seq<char>) -> Option<Json> {
    match j {
        Json::Object(fields) => find_field(fields@, key),
        _ => None,
    }
}

/// The `i`-th value, if this is an array that long.
pub open spec fn item(j: Json, i: nat) -> Option<Json> {
    match j {
        Json::Array(items) => if i < items@.len() {
            Some(items@[i as int])
        } else {
            None
        },
        _ => None,
    }
}

pub open spec fn text(j: Option<Json>) -> Option<Seq<char>> {
    match j {
        Some(Json::Str(s)) => Some(s@),
        _ => None,
    }
}

pub open spec fn truth(j: Option<Json>) -> Option<bool> {
    match j {
        Some(Json::Bool(b)) => Some(b),
        _ => None,
    }
}

pub open spec fn number(j: Option<Json>) -> Option<u64> {
    match j {
        Some(Json::Unsigned(n)) => Some(n),
        _ => None,
    }
}

pub open spec fn items(j: Option<Json>) -> Option<Seq<Json>> {
    match j {
        Some(Json::Array(v)) => Some(v@),
        _ => None,
    }
}

pub open spec fn fields(j: Option<Json>) -> Option<Seq<(String, Json)>> {
    match j {
        Some(Json::Object(m)) => Some(m@),
        _ => None,
    }
}

/// The value under a key of what may not be there.
pub open spec fn field_in(j: Option<Json>, key: Seq<char>) -> Option<Json> {
    match j {
        Some(v) => field(v, key),
        None => None,
    }
}

/// Those of the values that are texts.
pub open spec fn strings(v: Seq<Json>) -> Seq<Seq<char>>
    decreases v.len(),
{
    if v.len() == 0 {
        Seq::empty()
    } else {
        let front = strings(v.drop_last());
        match v.last() {
            Json::Str(s) => front.push(s@),
            _ => front,
        }
    }
}

/// The texts in an array under a key; none, where there is no such array.
pub open spec fn strings_in(j: Json, key: Seq<char>) -> Seq<Seq<char>> {
    match items(field(j, key)) {
        Some(v) => strings(v),
        None => Seq::empty(),
    }
}

pub open spec fn or_empty(t: Option<Seq<char>>) -> Seq<char> {
    match t {
        Some(t) => t,
        None => Seq::empty(),
    }
}

fn find_in<'a>(fields: &'a Vec<(String, Json)>, key: &str) -> (r: Option<&'a Json>)
    ensures
        match r {
            Some(v) => find_field(fields@, key@) == Some(*v),
            None => find_field(fields@, key@) is None,
        },
{
    let mut i: usize = 0;
    assert(fields@.skip(0) =~= fields@);
    while i < fields.len()
        invariant
            i <= fields@.len(),
            find_field(fields@, key@) == find_field(fields@.skip(i as int), key@),
        decreases fields@.len() - i,
    {
        if same(&fields[i].0, key) {
            return Some(&fields[i].1);
        }
        assert(fields@.skip(i as int).skip(1) =~= fields@.skip(i + 1));
        i = i + 1;
    }
    None
}

impl Json {
    /// The value under a key, if this is an object that has it.
    #[must_use]
    pub fn get(&self, key: &str) -> (r: Option<&Json>)
        ensures
            match r {
                Some(v) => field(*self, key@) == Some(*v),
                None => field(*self, key@) is None,
            },
    {
        match self {
            Json::Object(m) => find_in(m, key),
            _ => None,
        }
    }

    /// The `i`-th value, if this is an array that long.
    #[must_use]
    pub fn at(&self, i: usize) -> (r: Option<&Json>)
        ensures
            match r {
                Some(v) => item(*self, i as nat) == Some(*v),
                None => item(*self, i as nat) is None,
            },
    {
        match self {
            Json::Array(v) => if i < v.len() {
                Some(&v[i])
            } else {
                None
            },
            _ => None,
        }
    }

    #[must_use]
    pub fn as_str(&self) -> (r: Option<&str>)
        ensures
            opt_str(r) == text(Some(*self)),
    {
        match self {
            Json::Str(s) => Some(s.as_str()),
            _ => None,
        }
    }

    /// The text under a key.
    #[must_use]
    pub fn text_at(&self, key: &str) -> (r: Option<&str>)
        ensures
            opt_str(r) == text(field(*self, key@)),
    {
        match self.get(key) {
            Some(v) => v.as_str(),
            None => None,
        }
    }

    #[must_use]
    pub fn bool_at(&self, key: &str) -> (r: Option<bool>)
        ensures
            r == truth(field(*self, key@)),
    {
        match self.get(key) {
            Some(Json::Bool(b)) => Some(*b),
            _ => None,
        }
    }

    #[must_use]
    pub fn number_at(&self, key: &str) -> (r: Option<u64>)
        ensures
            r == number(field(*self, key@)),
    {
        match self.get(key) {
            Some(Json::Unsigned(n)) => Some(*n),
            _ => None,
        }
    }

    #[must_use]
    pub fn array_at(&self, key: &str) -> (r: Option<&Vec<Json>>)
        ensures
            match r {
                Some(v) => items(field(*self, key@)) == Some(v@),
                None => items(field(*self, key@)) is None,
            },
    {
        match self.get(key) {
            Some(Json::Array(v)) => Some(v),
            _ => None,
        }
    }

    #[must_use]
    pub fn object_at(&self, key: &str) -> (r: Option<&Vec<(String, Json)>>)
        ensures
            match r {
                Some(m) => fields(field(*self, key@)) == Some(m@),
                None => fields(field(*self, key@)) is None,
            },
    {
        match self.get(key) {
            Some(Json::Object(m)) => Some(m),
            _ => None,
        }
    }

    /// The text under a key, or an empty one.
    #[must_use]
    pub fn text_or_empty(&self, key: &str) -> (r: String)
        ensures
            r@ == or_empty(text(field(*self, key@))),
    {
        match self.text_at(key) {
            Some(t) => t.to_owned(),
            None => {
                let r: String = String::new();
                assert(r@ =~= Seq::<char>::empty());
                r
            },
        }
    }

    /// The texts in an array under a key.
    #[must_use]
    pub fn strings_at(&self, key: &str) -> (r: Vec<String>)
        ensures
            texts(r@) == strings_in(*self, key@),
    {
        match self.array_at(key) {
            Some(v) => strings_of(v),
            None => {
                let r: Vec<String> = Vec::new();
                assert(texts(r@) =~= Seq::<Seq<char>>::empty());
                r
            },
        }
    }
}

/// Those of the values that are texts.
#[must_use]
pub fn strings_of(v: &[Json]) -> (r: Vec<String>)
    ensures
        texts(r@) == strings(v@),
{
    let mut out: Vec<String> = Vec::new();
    let mut i: usize = 0;
    assert(v@.take(0) =~= Seq::<Json>::empty());
    assert(texts(out@) =~= Seq::<Seq<char>>::empty());
    while i < v.len()
        invariant
            i <= v@.len(),
            texts(out@) == strings(v@.take(i as int)),
        decreases v@.len() - i,
    {
        proof {
            assert(v@.take(i + 1).drop_last() =~= v@.take(i as int));
            assert(v@.take(i + 1).last() == v@[i as int]);
        }
        let ghost before = out@;
        if let Json::Str(s) = &v[i] {
            out.push(s.clone());
            assert(texts(out@) =~= texts(before).push(s@));
        }
        i = i + 1;
    }
    assert(v@.take(i as int) =~= v@);
    out
}

// ---- reading ----

/// `serde_json::Value`: a value as it was read, or as it is to be written.
#[verifier::external_type_specification]
#[verifier::external_body]
pub struct ExValue(serde_json::Value);

/// `serde_json::Number`: a number as it was read.
#[verifier::external_type_specification]
#[verifier::external_body]
pub struct ExNumber(serde_json::Number);

/// The value that a text is the JSON of, if it is.
pub uninterp spec fn value_read(text: Seq<char>) -> Option<serde_json::Value>;

/// Why a text is no JSON.
pub uninterp spec fn read_fault(text: Seq<char>) -> Seq<char>;

/// `serde_json::from_str`: the value that a text is the JSON of, or why it is none.
#[verifier::external_body]
fn read_value(s: &str) -> (r: std::result::Result<serde_json::Value, String>)
    ensures
        match r {
            Ok(v) => value_read(s@) == Some(v),
            Err(why) => value_read(s@) is None && why@ == read_fault(s@),
        },
{
    serde_json::from_str(s).map_err(|why| why.to_string())
}

/// What a value holds, down to its leaves.
pub enum Tree {
    Null,
    Bool(bool),
    Number(serde_json::Number),
    Text(Seq<char>),
    Array(Seq<Tree>),
    /// Keys and what is under them.
    Object(Seq<(Seq<char>, Tree)>),
}

/// What a value that was read holds.
pub uninterp spec fn tree_of(v: serde_json::Value) -> Tree;

/// A value taken apart, one level of it.
enum Node<'a> {
    Null,
    Bool(bool),
    Number(&'a serde_json::Number),
    Text(&'a String),
    Array(&'a Vec<serde_json::Value>),
    Object(Vec<(&'a String, &'a serde_json::Value)>),
}

impl Node<'_> {
    /// What it holds, down to its leaves.
    spec fn tree(self) -> Tree {
        match self {
            Node::Null => Tree::Null,
            Node::Bool(b) => Tree::Bool(b),
            Node::Number(n) => Tree::Number(*n),
            Node::Text(s) => Tree::Text(s@),
            Node::Array(v) => Tree::Array(v@.map_values(|x: serde_json::Value| tree_of(x))),
            Node::Object(m) => Tree::Object(
                m@.map_values(|p: (&String, &serde_json::Value)| (p.0@, tree_of(*p.1))),
            ),
        }
    }
}

/// The variants of `serde_json::Value`, told apart.
#[verifier::external_body]
fn node_of(v: &serde_json::Value) -> (r: Node<'_>)
    ensures
        r.tree() == tree_of(*v),
{
    match v {
        serde_json::Value::Null => Node::Null,
        serde_json::Value::Bool(b) => Node::Bool(*b),
        serde_json::Value::Number(n) => Node::Number(n),
        serde_json::Value::String(s) => Node::Text(s),
        serde_json::Value::Array(items) => Node::Array(items),
        serde_json::Value::Object(fields) => Node::Object(fields.iter().collect()),
    }
}

/// A number as an unsigned whole number, where it is one.
pub uninterp spec fn unsigned_in(n: serde_json::Number) -> Option<u64>;

/// A number as a signed whole number, where it is one.
pub uninterp spec fn signed_in(n: serde_json::Number) -> Option<i64>;

/// The digits of a number.
pub uninterp spec fn digits_of(n: serde_json::Number) -> Seq<char>;

/// `Number::as_u64`.
#[verifier::external_body]
fn as_unsigned(n: &serde_json::Number) -> (r: Option<u64>)
    ensures
        r == unsigned_in(*n),
{
    n.as_u64()
}

/// `Number::as_i64`.
#[verifier::external_body]
fn as_signed(n: &serde_json::Number) -> (r: Option<i64>)
    ensures
        r == signed_in(*n),
{
    n.as_i64()
}

/// `Number::to_string`: the digits of a number.
#[verifier::external_body]
fn write_number(n: &serde_json::Number) -> (r: String)
    ensures
        r@ == digits_of(*n),
{
    n.to_string()
}

/// Is this what a tree is read as? A number is whole and not negative, or whole, or
/// kept in its digits.
pub open spec fn reads(j: Json, t: Tree) -> bool
    decreases j,
{
    match (j, t) {
        (Json::Null, Tree::Null) => true,
        (Json::Bool(a), Tree::Bool(b)) => a == b,
        (Json::Unsigned(n), Tree::Number(of)) => unsigned_in(of) == Some(n),
        (Json::Negative(n), Tree::Number(of)) => unsigned_in(of) is None && signed_in(of) == Some(
            n,
        ),
        (Json::Fraction(digits), Tree::Number(of)) => unsigned_in(of) is None && signed_in(of)
            is None && digits@ == digits_of(of),
        (Json::Str(a), Tree::Text(b)) => a@ == b,
        (Json::Array(v), Tree::Array(of)) => reads_all(v@, of),
        (Json::Object(m), Tree::Object(of)) => reads_under(m@, of),
        _ => false,
    }
}

/// Are these what the trees in a row are read as?
pub open spec fn reads_all(v: Seq<Json>, of: Seq<Tree>) -> bool
    decreases v,
{
    &&& v.len() == of.len()
    &&& v.len() > 0 ==> reads_all(v.take(v.len() - 1), of.take(of.len() - 1)) && reads(
        v[v.len() - 1],
        of[of.len() - 1],
    )
}

/// Are these what the trees under their keys are read as?
pub open spec fn reads_under(m: Seq<(String, Json)>, of: Seq<(Seq<char>, Tree)>) -> bool
    decreases m,
{
    &&& m.len() == of.len()
    &&& m.len() > 0 ==> reads_under(m.take(m.len() - 1), of.take(of.len() - 1)) && m[m.len()
        - 1].0@ == of[of.len() - 1].0 && reads(m[m.len() - 1].1, of[of.len() - 1].1)
}

fn json_of(v: &serde_json::Value) -> (r: Json)
    ensures
        reads(r, tree_of(*v)),
    decreases tree_of(*v),
{
    match node_of(v) {
        Node::Null => Json::Null,
        Node::Bool(b) => Json::Bool(b),
        Node::Number(n) => match (as_unsigned(n), as_signed(n)) {
            (Some(u), _) => Json::Unsigned(u),
            (None, Some(i)) => Json::Negative(i),
            (None, None) => Json::Fraction(write_number(n)),
        },
        Node::Text(s) => Json::Str(s.clone()),
        Node::Array(items) => {
            let ghost of = tree_of(*v)->Array_0;
            let mut out: Vec<Json> = Vec::new();
            let mut i: usize = 0;
            assert(of.take(0) =~= Seq::<Tree>::empty());
            while i < items.len()
                invariant
                    i <= items@.len(),
                    out@.len() == i,
                    tree_of(*v) == Tree::Array(of),
                    of == items@.map_values(|x: serde_json::Value| tree_of(x)),
                    reads_all(out@, of.take(i as int)),
                decreases items@.len() - i,
            {
                assert(of[i as int] == tree_of(items@[i as int]));
                assert(decreases_to!(tree_of(*v) => tree_of(*v)->Array_0));
                assert(decreases_to!(of => of[i as int]));
                let ghost before = out@;
                out.push(json_of(&items[i]));
                proof {
                    assert(out@.take(out@.len() - 1) =~= before);
                    assert(of.take(i + 1).take(i as int) =~= of.take(i as int));
                    assert(of.take(i + 1)[i as int] == of[i as int]);
                }
                i = i + 1;
            }
            assert(of.take(i as int) =~= of);
            Json::Array(out)
        },
        Node::Object(fields) => {
            let ghost of = tree_of(*v)->Object_0;
            let mut out: Vec<(String, Json)> = Vec::new();
            let mut i: usize = 0;
            assert(of.take(0) =~= Seq::<(Seq<char>, Tree)>::empty());
            while i < fields.len()
                invariant
                    i <= fields@.len(),
                    out@.len() == i,
                    tree_of(*v) == Tree::Object(of),
                    of == fields@.map_values(
                        |p: (&String, &serde_json::Value)| (p.0@, tree_of(*p.1)),
                    ),
                    reads_under(out@, of.take(i as int)),
                decreases fields@.len() - i,
            {
                assert(of[i as int] == (fields@[i as int].0@, tree_of(*fields@[i as int].1)));
                assert(decreases_to!(tree_of(*v) => tree_of(*v)->Object_0));
                assert(decreases_to!(of => of[i as int]));
                assert(decreases_to!(of[i as int] => of[i as int].1));
                let ghost before = out@;
                let (key, value) = fields[i];
                out.push((key.clone(), json_of(value)));
                proof {
                    assert(out@.take(out@.len() - 1) =~= before);
                    assert(of.take(i + 1).take(i as int) =~= of.take(i as int));
                    assert(of.take(i + 1)[i as int] == of[i as int]);
                }
                i = i + 1;
            }
            assert(of.take(i as int) =~= of);
            Json::Object(out)
        },
    }
}

/// Is this what a text is the JSON of?
pub open spec fn is_read(j: Json, text: Seq<char>) -> bool {
    value_read(text) is Some && reads(j, tree_of(value_read(text)->0))
}

/// Reads a JSON text, or says why it is none.
pub fn parse(text: &str) -> (r: std::result::Result<Json, String>)
    ensures
        match r {
            Ok(j) => is_read(j, text@),
            Err(why) => value_read(text@) is None && why@ == read_fault(text@),
        },
{
    match read_value(text) {
        Ok(v) => Ok(json_of(&v)),
        Err(why) => Err(why),
    }
}

/// The tree under a key of these.
pub open spec fn find_under(of: Seq<(Seq<char>, Tree)>, key: Seq<char>) -> Option<Tree>
    decreases of.len(),
{
    if of.len() == 0 {
        None
    } else if of[0].0 == key {
        Some(of[0].1)
    } else {
        find_under(of.skip(1), key)
    }
}

/// The tree under a key, if this is an object that has it.
pub open spec fn under(t: Tree, key: Seq<char>) -> Option<Tree> {
    match t {
        Tree::Object(of) => find_under(of, key),
        _ => None,
    }
}

proof fn lemma_reads_each(m: Seq<(String, Json)>, of: Seq<(Seq<char>, Tree)>, i: int)
    requires
        reads_under(m, of),
        0 <= i < m.len(),
    ensures
        m.len() == of.len(),
        m[i].0@ == of[i].0,
        reads(m[i].1, of[i].1),
    decreases m.len(),
{
    if i < m.len() - 1 {
        lemma_reads_each(m.take(m.len() - 1), of.take(of.len() - 1), i);
    }
}

proof fn lemma_find_reads(m: Seq<(String, Json)>, of: Seq<(Seq<char>, Tree)>, key: Seq<char>)
    requires
        m.len() == of.len(),
        forall|i: int|
            0 <= i < m.len() ==> (#[trigger] m[i]).0@ == of[i].0 && reads(m[i].1, of[i].1),
    ensures
        match find_field(m, key) {
            Some(x) => find_under(of, key) matches Some(u) && reads(x, u),
            None => find_under(of, key) is None,
        },
    decreases m.len(),
{
    if m.len() > 0 {
        let rest = m.skip(1);
        assert forall|i: int| 0 <= i < rest.len() implies (#[trigger] rest[i]).0@ == of.skip(
            1,
        )[i].0 && reads(rest[i].1, of.skip(1)[i].1) by {
            assert(rest[i] == m[i + 1]);
        }
        lemma_find_reads(rest, of.skip(1), key);
    }
}

/// What a value has under a key is what is read there.
pub proof fn field_is_read(j: Json, t: Tree, key: Seq<char>)
    requires
        reads(j, t),
    ensures
        match field(j, key) {
            Some(x) => under(t, key) matches Some(u) && reads(x, u),
            None => under(t, key) is None,
        },
{
    if let (Json::Object(m), Tree::Object(of)) = (j, t) {
        assert forall|i: int| 0 <= i < m@.len() implies (#[trigger] m@[i]).0@ == of[i].0 && reads(
            m@[i].1,
            of[i].1,
        ) by {
            lemma_reads_each(m@, of, i);
        }
        lemma_find_reads(m@, of, key);
    }
}

/// A JSON text says one thing under a key, whichever value it was read as.
pub proof fn text_is_read_once(a: Json, b: Json, body: Seq<char>, key: Seq<char>)
    requires
        is_read(a, body),
        is_read(b, body),
    ensures
        text(field(a, key)) == text(field(b, key)),
{
    let t = tree_of(value_read(body)->0);
    field_is_read(a, t, key);
    field_is_read(b, t, key);
}

// ---- writing ----

/// A value that is true or false, or null.
pub uninterp spec fn plain_value(b: Option<bool>) -> serde_json::Value;

/// A whole number that is not negative.
pub uninterp spec fn unsigned_value(n: u64) -> serde_json::Value;

/// A whole number.
pub uninterp spec fn signed_value(n: i64) -> serde_json::Value;

/// A text.
pub uninterp spec fn text_value(s: Seq<char>) -> serde_json::Value;

/// These values in a row.
pub uninterp spec fn array_value(v: Seq<serde_json::Value>) -> serde_json::Value;

/// These values under their keys.
pub uninterp spec fn object_value(m: Seq<(Seq<char>, serde_json::Value)>) -> serde_json::Value;

/// A value as it is written, without spaces.
pub uninterp spec fn written_value(v: serde_json::Value) -> Seq<char>;

/// `Value::from` of an optional truth: null where there is none.
#[verifier::external_body]
pub(crate) fn plain(b: Option<bool>) -> (r: serde_json::Value)
    ensures
        r == plain_value(b),
{
    serde_json::Value::from(b)
}

/// `Value::from` of an unsigned number.
#[verifier::external_body]
pub(crate) fn unsigned(n: u64) -> (r: serde_json::Value)
    ensures
        r == unsigned_value(n),
{
    serde_json::Value::from(n)
}

/// `Value::from` of a signed number.
#[verifier::external_body]
fn signed(n: i64) -> (r: serde_json::Value)
    ensures
        r == signed_value(n),
{
    serde_json::Value::from(n)
}

/// `Value::from` of a text.
#[verifier::external_body]
pub(crate) fn string(s: &str) -> (r: serde_json::Value)
    ensures
        r == text_value(s@),
{
    serde_json::Value::from(s)
}

/// `Value::from` of a list.
#[verifier::external_body]
pub(crate) fn array(v: Vec<serde_json::Value>) -> (r: serde_json::Value)
    ensures
        r == array_value(v@),
{
    serde_json::Value::from(v)
}

/// Keys and values, as contracts speak of them.
pub open spec fn members(m: Seq<(String, serde_json::Value)>) -> Seq<
    (Seq<char>, serde_json::Value),
> {
    m.map_values(|p: (String, serde_json::Value)| (p.0@, p.1))
}

/// `Value::from_iter` of keys and values: an object.
#[verifier::external_body]
pub(crate) fn object(m: Vec<(String, serde_json::Value)>) -> (r: serde_json::Value)
    ensures
        r == object_value(members(m@)),
{
    serde_json::Value::from_iter(m)
}

/// `Value::to_string`: a value written without spaces.
#[verifier::external_body]
pub(crate) fn write_value(v: &serde_json::Value) -> (r: String)
    ensures
        r@ == written_value(*v),
{
    v.to_string()
}

/// No keys yet.
pub open spec fn no_members() -> Seq<(Seq<char>, serde_json::Value)> {
    Seq::empty()
}

pub(crate) fn no_fields() -> (r: Vec<(String, serde_json::Value)>)
    ensures
        members(r@) == no_members(),
{
    let r: Vec<(String, serde_json::Value)> = Vec::new();
    assert(members(r@) =~= no_members());
    r
}

/// Puts a value under a key.
pub(crate) fn put(m: &mut Vec<(String, serde_json::Value)>, key: &str, value: serde_json::Value)
    ensures
        members(final(m)@) == members(old(m)@).push((key@, value)),
{
    m.push((key.to_owned(), value));
    assert(members(m@) =~= members(old(m)@).push((key@, value)));
}

/// These texts, each as a value.
pub open spec fn text_values(v: Seq<Seq<char>>) -> Seq<serde_json::Value> {
    v.map_values(|t: Seq<char>| text_value(t))
}

/// A list of texts.
pub(crate) fn strings_value(v: &[String]) -> (r: serde_json::Value)
    ensures
        r == array_value(text_values(texts(v@))),
{
    let mut out: Vec<serde_json::Value> = Vec::new();
    let mut i: usize = 0;
    while i < v.len()
        invariant
            i <= v@.len(),
            out@.len() == i,
            forall|k: int| 0 <= k < i ==> #[trigger] out@[k] == text_value(v@[k]@),
        decreases v@.len() - i,
    {
        out.push(string(&v[i]));
        i = i + 1;
    }
    assert(out@ =~= text_values(texts(v@)));
    array(out)
}

/// A list of names.
pub(crate) fn names_value(v: &[&'static str]) -> (r: serde_json::Value)
    ensures
        r == array_value(text_values(v@.map_values(|s: &'static str| s@))),
{
    let mut out: Vec<serde_json::Value> = Vec::new();
    let mut i: usize = 0;
    while i < v.len()
        invariant
            i <= v@.len(),
            out@.len() == i,
            forall|k: int| 0 <= k < i ==> #[trigger] out@[k] == text_value(v@[k]@),
        decreases v@.len() - i,
    {
        out.push(string(v[i]));
        i = i + 1;
    }
    assert(out@ =~= text_values(v@.map_values(|s: &'static str| s@)));
    array(out)
}

/// A list of one.
pub(crate) fn one(v: serde_json::Value) -> (r: serde_json::Value)
    ensures
        r == array_value(seq![v]),
{
    let mut out: Vec<serde_json::Value> = Vec::new();
    out.push(v);
    assert(out@ =~= seq![v]);
    array(out)
}

/// A value as it is handed over to be written. A number that is not whole is what
/// its digits say; digits that say nothing are a text.
pub open spec fn value_in(j: Json) -> serde_json::Value
    decreases j,
{
    match j {
        Json::Null => plain_value(None),
        Json::Bool(b) => plain_value(Some(b)),
        Json::Unsigned(n) => unsigned_value(n),
        Json::Negative(n) => signed_value(n),
        Json::Fraction(t) => match value_read(t@) {
            Some(v) => v,
            None => text_value(t@),
        },
        Json::Str(s) => text_value(s@),
        Json::Array(v) => array_value(values_in(v@)),
        Json::Object(m) => object_value(members_in(m@)),
    }
}

pub open spec fn values_in(v: Seq<Json>) -> Seq<serde_json::Value>
    decreases v,
{
    if v.len() == 0 {
        Seq::empty()
    } else {
        values_in(v.take(v.len() - 1)).push(value_in(v[v.len() - 1]))
    }
}

pub open spec fn members_in(m: Seq<(String, Json)>) -> Seq<(Seq<char>, serde_json::Value)>
    decreases m,
{
    if m.len() == 0 {
        Seq::empty()
    } else {
        members_in(m.take(m.len() - 1)).push((m[m.len() - 1].0@, value_in(m[m.len() - 1].1)))
    }
}

fn value_of(j: &Json) -> (r: serde_json::Value)
    ensures
        r == value_in(*j),
    decreases j,
{
    match j {
        Json::Null => plain(None),
        Json::Bool(b) => plain(Some(*b)),
        Json::Unsigned(n) => unsigned(*n),
        Json::Negative(n) => signed(*n),
        Json::Fraction(t) => match read_value(t) {
            Ok(v) => v,
            Err(_) => string(t),
        },
        Json::Str(s) => string(s),
        Json::Array(v) => {
            let mut out: Vec<serde_json::Value> = Vec::new();
            let mut i: usize = 0;
            assert(v@.take(0) =~= Seq::<Json>::empty());
            while i < v.len()
                invariant
                    i <= v@.len(),
                    *j == Json::Array(*v),
                    out@ == values_in(v@.take(i as int)),
                decreases v@.len() - i,
            {
                let ghost here = v@.take(i + 1);
                assert(here.take(here.len() - 1) =~= v@.take(i as int));
                assert(here[here.len() - 1] == v@[i as int]);
                assert(decreases_to!(*j => j->Array_0));
                assert(decreases_to!(j->Array_0 => j->Array_0@));
                assert(decreases_to!(j->Array_0@ => j->Array_0@[i as int]));
                out.push(value_of(&v[i]));
                i = i + 1;
            }
            assert(v@.take(i as int) =~= v@);
            array(out)
        },
        Json::Object(m) => {
            let mut out: Vec<(String, serde_json::Value)> = Vec::new();
            let mut i: usize = 0;
            assert(m@.take(0) =~= Seq::<(String, Json)>::empty());
            assert(members(out@) =~= Seq::<(Seq<char>, serde_json::Value)>::empty());
            while i < m.len()
                invariant
                    i <= m@.len(),
                    *j == Json::Object(*m),
                    members(out@) == members_in(m@.take(i as int)),
                decreases m@.len() - i,
            {
                let ghost here = m@.take(i + 1);
                assert(here.take(here.len() - 1) =~= m@.take(i as int));
                assert(here[here.len() - 1] == m@[i as int]);
                assert(decreases_to!(*j => j->Object_0));
                assert(decreases_to!(j->Object_0 => j->Object_0@));
                assert(decreases_to!(j->Object_0@ => j->Object_0@[i as int]));
                assert(decreases_to!(j->Object_0@[i as int] => j->Object_0@[i as int].1));
                let ghost before = out@;
                let value: serde_json::Value = value_of(&m[i].1);
                out.push((m[i].0.clone(), value));
                assert(members(out@) =~= members(before).push((m@[i as int].0@, value)));
                i = i + 1;
            }
            assert(m@.take(i as int) =~= m@);
            object(out)
        },
    }
}

/// A value written without spaces.
pub open spec fn rendered(j: Json) -> Seq<char> {
    written_value(value_in(j))
}

/// Writes a value without spaces.
#[must_use]
pub fn render(j: &Json) -> (r: String)
    ensures
        r@ == rendered(*j),
{
    write_value(&value_of(j))
}

/// The first value under a key counts.
pub proof fn the_first_value_under_a_key_counts(m: Seq<(String, Json)>, key: Seq<char>, k: int)
    requires
        0 <= k < m.len(),
        m[k].0@ == key,
        forall|i: int| 0 <= i < k ==> (#[trigger] m[i]).0@ != key,
    ensures
        find_field(m, key) == Some(m[k].1),
    decreases k,
{
    if k > 0 {
        assert(m[0].0@ != key);
        let t = m.skip(1);
        assert forall|i: int| 0 <= i < k - 1 implies (#[trigger] t[i]).0@ != key by {
            assert(t[i] == m[i + 1]);
        }
        the_first_value_under_a_key_counts(t, key, k - 1);
    }
}

/// Nothing is found under a key that is not there.
pub proof fn nothing_under_a_missing_key(m: Seq<(String, Json)>, key: Seq<char>)
    requires
        forall|i: int| 0 <= i < m.len() ==> (#[trigger] m[i]).0@ != key,
    ensures
        find_field(m, key) is None,
    decreases m.len(),
{
    if m.len() > 0 {
        assert(m[0].0@ != key);
        let t = m.skip(1);
        assert forall|i: int| 0 <= i < t.len() implies (#[trigger] t[i]).0@ != key by {
            assert(t[i] == m[i + 1]);
        }
        nothing_under_a_missing_key(t, key);
    }
}

/// Every text in a list is kept, in its order, and nothing else is.
pub proof fn every_text_in_a_list_is_kept(v: Seq<Json>, more: Seq<Json>)
    ensures
        strings(v + more) == strings(v) + strings(more),
        v.len() == 1 ==> strings(v) == (match v[0] {
            Json::Str(s) => seq![s@],
            _ => Seq::empty(),
        }),
    decreases more.len(),
{
    reveal_with_fuel(strings, 2);
    if v.len() == 1 {
        assert(strings(v.drop_last()) =~= Seq::<Seq<char>>::empty());
        if let Json::Str(s) = v[0] {
            assert(strings(v) =~= seq![s@]);
        }
    }
    if more.len() == 0 {
        assert(v + more =~= v);
        assert(strings(v) + strings(more) =~= strings(v));
    } else {
        every_text_in_a_list_is_kept(v, more.drop_last());
        assert((v + more).drop_last() =~= v + more.drop_last());
        assert((v + more).last() == more.last());
        assert(strings(v + more) =~= strings(v) + strings(more));
    }
}

} // verus!
