//! JSON values that the library can look into, and the two ways between them
//! and text, which are those of `serde_json`.
use crate::double::{Double, Real};
use crate::text::same;
use serde_json::Value;
use vstd::prelude::*;

verus! {

/// A JSON value.
#[derive(Debug)]
pub enum Json {
    Null,
    Bool(bool),
    /// A whole number from zero on.
    Uint(u64),
    /// A whole number below zero.
    Int(i64),
    /// A number with a fraction or an exponent.
    Float(Double),
    Text(String),
    List(Vec<Json>),
    Object(Vec<Member>),
}

/// A member of an object.
#[derive(Debug)]
pub struct Member {
    pub key: String,
    pub value: Json,
}

/// What a JSON value says.
pub ghost enum JsonV {
    Null,
    Bool(bool),
    Uint(u64),
    Int(i64),
    Float(Real),
    Text(Seq<char>),
    List(Seq<JsonV>),
    Object(Seq<(Seq<char>, JsonV)>),
}

/// What a JSON value says.
pub open spec fn json_view(j: Json) -> JsonV
    decreases j,
{
    match j {
        Json::Null => JsonV::Null,
        Json::Bool(b) => JsonV::Bool(b),
        Json::Uint(n) => JsonV::Uint(n),
        Json::Int(n) => JsonV::Int(n),
        Json::Float(d) => JsonV::Float(d@),
        Json::Text(s) => JsonV::Text(s@),
        Json::List(v) => JsonV::List(
            Seq::new(
                v@.len(),
                |i: int|
                    if 0 <= i < v@.len() {
                        json_view(v@[i])
                    } else {
                        JsonV::Null
                    },
            ),
        ),
        Json::Object(m) => JsonV::Object(
            Seq::new(
                m@.len(),
                |i: int|
                    if 0 <= i < m@.len() {
                        (m@[i].key@, json_view(m@[i].value))
                    } else {
                        (seq![], JsonV::Null)
                    },
            ),
        ),
    }
}

impl View for Json {
    type V = JsonV;

    open spec fn view(&self) -> JsonV {
        json_view(*self)
    }
}

/// Where the first member of that name stands from `from` on, or past the
/// last.
pub open spec fn member_from(m: Seq<(Seq<char>, JsonV)>, key: Seq<char>, from: int) -> int
    decreases m.len() - from,
{
    if from >= m.len() || m[from].0 == key {
        from
    } else {
        member_from(m, key, from + 1)
    }
}

/// The member of that name, where the value is an object that has one.
pub open spec fn member(j: JsonV, key: Seq<char>) -> Option<JsonV> {
    match j {
        JsonV::Object(m) => {
            let i = member_from(m, key, 0);
            if i < m.len() {
                Some(m[i].1)
            } else {
                None
            }
        },
        _ => None,
    }
}

/// The member of that name, or null.
pub open spec fn at(j: JsonV, key: Seq<char>) -> JsonV {
    match member(j, key) {
        Some(v) => v,
        None => JsonV::Null,
    }
}

/// The text that a value is, where it is one.
pub open spec fn text_of(j: JsonV) -> Option<Seq<char>> {
    match j {
        JsonV::Text(s) => Some(s),
        _ => None,
    }
}

/// The whole number from zero on that a value is, where it is one.
pub open spec fn uint_of(j: JsonV) -> Option<u64> {
    match j {
        JsonV::Uint(n) => Some(n),
        _ => None,
    }
}

/// The truth value that a value is, where it is one.
pub open spec fn bool_of(j: JsonV) -> Option<bool> {
    match j {
        JsonV::Bool(b) => Some(b),
        _ => None,
    }
}

/// The items of a list; none where the value is no list.
pub open spec fn items(j: JsonV) -> Seq<JsonV> {
    match j {
        JsonV::List(v) => v,
        _ => seq![],
    }
}

impl Json {
    /// The member of that name, where the value is an object that has one.
    pub fn get(&self, key: &str) -> (r: Option<&Json>)
        ensures
            r is Some == member(self@, key@) is Some,
            r is Some ==> r->0@ == member(self@, key@)->0,
    {
        match self {
            Json::Object(m) => {
                let ghost all = self@->Object_0;
                let mut i: usize = 0;
                while i < m.len()
                    invariant
                        0 <= i <= m@.len(),
                        *self == Json::Object(*m),
                        all == self@->Object_0,
                        all.len() == m@.len(),
                        member_from(all, key@, 0) == member_from(all, key@, i as int),
                    decreases m@.len() - i,
                {
                    assert(all[i as int] == (m@[i as int].key@, json_view(m@[i as int].value)));
                    if same(&m[i].key, key) {
                        return Some(&m[i].value);
                    }
                    i = i + 1;
                }
                None
            },
            _ => None,
        }
    }

    /// The text that a value is, where it is one.
    pub fn as_text(&self) -> (r: Option<&str>)
        ensures
            r is Some == text_of(self@) is Some,
            r is Some ==> r->0@ == text_of(self@)->0,
    {
        match self {
            Json::Text(s) => Some(s.as_str()),
            _ => None,
        }
    }

    /// The text of the member of that name, where it is one.
    pub fn text_at(&self, key: &str) -> (r: Option<&str>)
        ensures
            r is Some == text_of(at(self@, key@)) is Some,
            r is Some ==> r->0@ == text_of(at(self@, key@))->0,
    {
        match self.get(key) {
            Some(v) => v.as_text(),
            None => None,
        }
    }

    /// The whole number of the member of that name, where it is one.
    pub fn uint_at(&self, key: &str) -> (r: Option<u64>)
        ensures
            r == uint_of(at(self@, key@)),
    {
        match self.get(key) {
            Some(Json::Uint(n)) => Some(*n),
            _ => None,
        }
    }

    /// The truth value of the member of that name, where it is one.
    pub fn bool_at(&self, key: &str) -> (r: Option<bool>)
        ensures
            r == bool_of(at(self@, key@)),
    {
        match self.get(key) {
            Some(Json::Bool(b)) => Some(*b),
            _ => None,
        }
    }

    /// An object of one member.
    pub fn single(key: &str, value: Json) -> (r: Json)
        ensures
            r is Object,
            r@ == JsonV::Object(seq![(key@, value@)]),
            has_no_fraction(value@) ==> has_no_fraction(r@),
    {
        let r = Json::Object(vec![Member { key: key.to_owned(), value }]);
        assert(r@->Object_0 =~= seq![(key@, value@)]);
        r
    }
}

impl Json {
    /// An object with one member more.
    pub fn with(self, key: &str, value: Json) -> (r: Json)
        requires
            self is Object,
        ensures
            r is Object,
            r@ == JsonV::Object(self@->Object_0.push((key@, value@))),
            has_no_fraction(self@) && has_no_fraction(value@) ==> has_no_fraction(r@),
    {
        let mut m: Vec<Member> = match self {
            Json::Object(m) => m,
            _ => Vec::new(),
        };
        let ghost before = m@;
        m.push(Member { key: key.to_owned(), value });
        let r = Json::Object(m);
        proof {
            let (a, b) = (self@->Object_0, r@->Object_0);
            assert forall|i: int| 0 <= i < a.len() implies b[i] == a[i] by {
                assert(m@[i] == before[i]);
            }
            assert(b =~= a.push((key@, value@)));
            if has_no_fraction(self@) && has_no_fraction(value@) {
                assert forall|i: int| 0 <= i < b.len() implies has_no_fraction(
                    (#[trigger] b[i]).1,
                ) by {
                    if i < a.len() {
                        assert(has_no_fraction(a[i].1));
                    }
                }
            }
        }
        r
    }
}

/// A value of `serde_json`.
#[verifier::external_type_specification]
#[verifier::external_body]
pub struct ExValue(serde_json::Value);

/// What `serde_json` reads in bytes: the value that they write out, or why
/// they write out none.
pub uninterp spec fn json_read(bytes: Seq<u8>) -> Result<JsonV, Seq<char>>;

/// The text in which `serde_json` writes a value out.
pub uninterp spec fn json_written(j: JsonV) -> Seq<char>;

/// A value of `serde_json`, variant by variant.
#[verifier::external_body]
fn taken(v: serde_json::Value) -> (r: Json) {
    match v {
        Value::Null => Json::Null,
        Value::Bool(b) => Json::Bool(b),
        Value::Number(n) => match (n.as_u64(), n.as_i64(), n.as_f64()) {
            (Some(u), _, _) => Json::Uint(u),
            (_, Some(i), _) => Json::Int(i),
            (_, _, f) => Json::Float(Double { bits: f.unwrap_or_default().to_bits() }),
        },
        Value::String(s) => Json::Text(s),
        Value::Array(a) => Json::List(a.into_iter().map(taken).collect()),
        Value::Object(o) => Json::Object(o.into_iter().map(member_of).collect()),
    }
}

/// A member of an object of `serde_json`.
fn member_of(m: (String, serde_json::Value)) -> (r: Member)
    ensures
        r.key@ == m.0@,
{
    Member { key: m.0, value: taken(m.1) }
}

/// Reads bytes with `serde_json::from_slice`. What it makes of them is a
/// function of the bytes alone, and so is the message of its error.
#[verifier::external_body]
pub(crate) fn read(bytes: &[u8]) -> (r: Result<Json, String>)
    ensures
        r is Ok == json_read(bytes@) is Ok,
        r is Ok ==> r->Ok_0@ == json_read(bytes@)->Ok_0,
        r is Err ==> r->Err_0@ == json_read(bytes@)->Err_0,
{
    match serde_json::from_slice(bytes) {
        Ok(v) => Ok(taken(v)),
        Err(e) => Err(e.to_string()),
    }
}

/// A value for `serde_json`, variant by variant.
#[verifier::external_body]
fn given(j: &Json) -> (r: serde_json::Value)
    requires
        has_no_fraction(j@),
{
    match j {
        Json::Bool(b) => Value::from(*b),
        Json::Uint(n) => Value::from(*n),
        Json::Int(n) => Value::from(*n),
        Json::Text(s) => Value::from(s.as_str()),
        Json::List(v) => v.iter().map(given).collect(),
        Json::Object(m) => m.iter().map(|x| (x.key.clone(), given(&x.value))).collect(),
        _ => Value::Null,
    }
}

/// Whether no number in a value has a fraction.
pub open spec fn has_no_fraction(j: JsonV) -> bool
    decreases j,
{
    match j {
        JsonV::Float(_) => false,
        JsonV::List(v) => forall|i: int| 0 <= i < v.len() ==> has_no_fraction(#[trigger] v[i]),
        JsonV::Object(m) => forall|i: int|
            0 <= i < m.len() ==> has_no_fraction((#[trigger] m[i]).1),
        _ => true,
    }
}

/// Writes a value out with the `Display` of `serde_json::Value`, which is the
/// compact form. The text is a function of the value alone.
#[verifier::external_body]
pub(crate) fn write(j: &Json) -> (r: String)
    requires
        has_no_fraction(j@),
    ensures
        r@ == json_written(j@),
{
    given(j).to_string()
}

} // verus!
