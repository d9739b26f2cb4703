//! JSON values. Numbers keep the digits they were written with.
use crate::decimal::Decimal;
use crate::text::{chars_of, int_of, parse_int, parse_uint, same_text, uint_of};
use vstd::prelude::*;

verus! {

#[derive(Debug)]
pub enum Json {
    Null,
    Bool(bool),
    /// A number, as it was written.
    Number(String),
    Text(String),
    List(Vec<Json>),
    /// Members in the order of their names.
    Object(Vec<(String, Json)>),
}

/// What a JSON value says.
pub ghost enum JsonView {
    Null,
    Bool(bool),
    Number(Seq<char>),
    Text(Seq<char>),
    List(Seq<JsonView>),
    Object(Seq<(Seq<char>, JsonView)>),
}

impl Json {
    pub open spec fn view(self) -> JsonView
        decreases self,
    {
        match self {
            Json::Null => JsonView::Null,
            Json::Bool(b) => JsonView::Bool(b),
            Json::Number(s) => JsonView::Number(s@),
            Json::Text(s) => JsonView::Text(s@),
            Json::List(v) => JsonView::List(list_view(v@)),
            Json::Object(v) => JsonView::Object(members_view(v@)),
        }
    }
}

pub open spec fn list_view(s: Seq<Json>) -> Seq<JsonView>
    decreases s,
{
    if s.len() == 0 {
        Seq::empty()
    } else {
        list_view(s.drop_last()).push(s.last().view())
    }
}

pub open spec fn members_view(s: Seq<(String, Json)>) -> Seq<(Seq<char>, JsonView)>
    decreases s,
{
    if s.len() == 0 {
        Seq::empty()
    } else {
        members_view(s.drop_last()).push((s.last().0@, s.last().1.view()))
    }
}

pub proof fn lemma_list_view(s: Seq<Json>)
    ensures
        list_view(s).len() == s.len(),
        forall|i: int| 0 <= i < s.len() ==> #[trigger] list_view(s)[i] == s[i].view(),
    decreases s,
{
    if s.len() > 0 {
        lemma_list_view(s.drop_last());
        assert forall|i: int| 0 <= i < s.len() implies #[trigger] list_view(s)[i] == s[i].view() by {
            if i < s.len() - 1 {
                assert(list_view(s.drop_last())[i] == s.drop_last()[i].view());
            }
        }
    }
}

pub proof fn lemma_members_view(s: Seq<(String, Json)>)
    ensures
        members_view(s).len() == s.len(),
        forall|i: int| 0 <= i < s.len() ==> #[trigger] members_view(s)[i] == (s[i].0@, s[i].1.view()),
    decreases s,
{
    if s.len() > 0 {
        lemma_members_view(s.drop_last());
        assert forall|i: int| 0 <= i < s.len() implies #[trigger] members_view(s)[i] == (s[i].0@, s[i].1.view()) by {
            if i < s.len() - 1 {
                assert(members_view(s.drop_last())[i] == (s.drop_last()[i].0@, s.drop_last()[i].1.view()));
            }
        }
    }
}

/// What `serde_json::from_slice` reads from bytes, or the error it prints.
pub uninterp spec fn json_read(bytes: Seq<u8>) -> Result<JsonView, Seq<char>>;

#[verifier::external_type_specification]
#[verifier::external_body]
pub struct ExJsonValue(serde_json::Value);

/// Copies a `serde_json::Value`, part by part. Nothing is claimed of it here; what `parse_json`
/// returns goes by a name of its own.
#[verifier::external_body]
fn copy_value(v: serde_json::Value) -> (r: Json)
{
    match v {
        serde_json::Value::Null => Json::Null,
        serde_json::Value::Bool(b) => Json::Bool(b),
        serde_json::Value::Number(n) => Json::Number(n.to_string()),
        serde_json::Value::String(s) => Json::Text(s),
        serde_json::Value::Array(a) => Json::List(a.into_iter().map(copy_value).collect()),
        serde_json::Value::Object(o) => Json::Object(o.into_iter().map(|(k, x)| (k, copy_value(x))).collect()),
    }
}

/// Calls `serde_json::from_slice`. Claimed: the outcome depends on the bytes alone.
#[verifier::external_body]
pub(crate) fn parse_json(bytes: &[u8]) -> (r: Result<Json, String>)
    ensures
        match json_read(bytes@) {
            Ok(v) => r is Ok && (r->Ok_0).view() == v,
            Err(m) => r is Err && (r->Err_0)@ == m,
        },
{
    match serde_json::from_slice::<serde_json::Value>(bytes) {
        Ok(v) => Ok(copy_value(v)),
        Err(e) => Err(e.to_string()),
    }
}

/// Rows as lists of values.
pub open spec fn rows_view(s: Seq<Vec<Json>>) -> Seq<Seq<JsonView>> {
    s.map_values(|r: Vec<Json>| list_view(r@))
}

/// What `serde_json::from_slice` reads from bytes as rows of values, or the error it prints.
pub uninterp spec fn rows_read(bytes: Seq<u8>) -> Result<Seq<Seq<JsonView>>, Seq<char>>;

/// Calls `serde_json::from_slice` for a list of lists. Claimed: the outcome depends on the bytes
/// alone.
#[verifier::external_body]
pub(crate) fn parse_rows(bytes: &[u8]) -> (r: Result<Vec<Vec<Json>>, String>)
    ensures
        match rows_read(bytes@) {
            Ok(v) => r is Ok && rows_view((r->Ok_0)@) == v,
            Err(m) => r is Err && (r->Err_0)@ == m,
        },
{
    match serde_json::from_slice::<Vec<Vec<serde_json::Value>>>(bytes) {
        Ok(v) => Ok(v.into_iter().map(|r| r.into_iter().map(copy_value).collect()).collect()),
        Err(e) => Err(e.to_string()),
    }
}

/// The member of an object with a given name; `Null` where there is none.
pub open spec fn member(v: JsonView, name: Seq<char>) -> JsonView {
    match v {
        JsonView::Object(m) => member_from(m, name, 0),
        _ => JsonView::Null,
    }
}

pub open spec fn member_from(m: Seq<(Seq<char>, JsonView)>, name: Seq<char>, i: int) -> JsonView
    decreases m.len() - i,
{
    if i >= m.len() {
        JsonView::Null
    } else if m[i].0 == name {
        m[i].1
    } else {
        member_from(m, name, i + 1)
    }
}

/// The element of a list; `Null` where there is none.
pub open spec fn element(v: JsonView, i: int) -> JsonView {
    match v {
        JsonView::List(s) => if 0 <= i < s.len() {
            s[i]
        } else {
            JsonView::Null
        },
        _ => JsonView::Null,
    }
}

/// The text in a value, if it is one.
pub open spec fn text_in(v: JsonView) -> Option<Seq<char>> {
    match v {
        JsonView::Text(s) => Some(s),
        _ => None,
    }
}

/// The elements of a list, if the value is one.
pub open spec fn list_in(v: JsonView) -> Option<Seq<JsonView>> {
    match v {
        JsonView::List(s) => Some(s),
        _ => None,
    }
}

/// The decimal in a value: a number, or a text that writes one, plain or with an exponent.
pub open spec fn decimal_in(v: JsonView) -> Option<Decimal> {
    match v {
        JsonView::Number(s) => Decimal::written(s),
        JsonView::Text(s) => Decimal::written(s),
        _ => None,
    }
}

/// What is said of a response that does not have the shape it should have.
pub open spec fn odd_shape() -> Seq<char> {
    "unexpected response"@
}

/// Whether an object has a member with a given name.
pub open spec fn has_member(v: JsonView, name: Seq<char>) -> bool {
    match v {
        JsonView::Object(m) => has_from(m, name, 0),
        _ => false,
    }
}

pub open spec fn has_from(m: Seq<(Seq<char>, JsonView)>, name: Seq<char>, i: int) -> bool
    decreases m.len() - i,
{
    i < m.len() && (m[i].0 == name || has_from(m, name, i + 1))
}

/// A field of a record: the member of an object, or the element of a list that has as many
/// elements as the record has fields.
pub open spec fn field(v: JsonView, name: Seq<char>, i: int, count: int) -> JsonView {
    match v {
        JsonView::List(s) => if s.len() == count {
            element(v, i)
        } else {
            JsonView::Null
        },
        _ => member(v, name),
    }
}

/// The whole number in a value, if it is one.
pub open spec fn int_in(v: JsonView) -> Option<int> {
    match v {
        JsonView::Number(s) => int_of(s),
        _ => None,
    }
}

/// The whole number in a value, if it is one that 64 bits without a sign can hold.
pub open spec fn u64_in(v: JsonView) -> Option<u64> {
    match v {
        JsonView::Number(s) => match uint_of(s) {
            Some(n) => if n <= u64::MAX {
                Some(n as u64)
            } else {
                None
            },
            None => None,
        },
        _ => None,
    }
}

/// The whole number in a value, if it is one that 64 bits can hold.
pub open spec fn i64_in(v: JsonView) -> Option<i64> {
    match int_in(v) {
        Some(n) => if i64::MIN <= n <= i64::MAX {
            Some(n as i64)
        } else {
            None
        },
        None => None,
    }
}

impl Json {
    /// Whether there is a member with a given name.
    pub fn has(&self, name: &str) -> (r: bool)
        ensures
            r == has_member(self.view(), name@),
    {
        match self {
            Json::Object(v) => {
                proof {
                    lemma_members_view(v@);
                }
                let mut i: usize = 0;
                while i < v.len()
                    invariant
                        i <= v@.len(),
                        self.view() == JsonView::Object(members_view(v@)),
                        members_view(v@).len() == v@.len(),
                        forall|j: int| 0 <= j < v@.len() ==> #[trigger] members_view(v@)[j] == (v@[j].0@, v@[j].1.view()),
                        has_member(self.view(), name@) == has_from(members_view(v@), name@, i as int),
                    decreases v@.len() - i,
                {
                    assert(members_view(v@)[i as int].0 == v@[i as int].0@);
                    if same_text(v[i].0.as_str(), name) {
                        return true;
                    }
                    i += 1;
                }
                false
            },
            _ => false,
        }
    }

    /// A field of a record.
    pub fn record_field<'a>(&'a self, name: &str, i: usize, count: usize) -> (r: Option<&'a Json>)
        ensures
            match r {
                Some(j) => j.view() == field(self.view(), name@, i as int, count as int),
                None => field(self.view(), name@, i as int, count as int) == JsonView::Null,
            },
    {
        match self {
            Json::List(v) => {
                proof {
                    lemma_list_view(v@);
                }
                if v.len() == count {
                    self.at(i)
                } else {
                    None
                }
            },
            _ => self.get(name),
        }
    }

    /// The text in a field of a record.
    pub fn record_text<'a>(&'a self, name: &str, i: usize, count: usize) -> (r: Option<&'a String>)
        ensures
            match text_in(field(self.view(), name@, i as int, count as int)) {
                Some(s) => r is Some && (r->0)@ == s,
                None => r is None,
            },
    {
        match self.record_field(name, i, count) {
            Some(j) => j.as_text(),
            None => None,
        }
    }

    /// The decimal in a field of a record.
    pub fn record_decimal(&self, name: &str, i: usize, count: usize) -> (r: Option<Decimal>)
        ensures
            r == decimal_in(field(self.view(), name@, i as int, count as int)),
    {
        match self.record_field(name, i, count) {
            Some(j) => j.as_decimal(),
            None => None,
        }
    }

    pub fn as_u64(&self) -> (r: Option<u64>)
        ensures
            r == u64_in(self.view()),
    {
        match self {
            Json::Number(s) => parse_uint(&chars_of(s.as_str())),
            _ => None,
        }
    }

    pub fn as_i64(&self) -> (r: Option<i64>)
        ensures
            r == i64_in(self.view()),
    {
        match self {
            Json::Number(s) => parse_int(&chars_of(s.as_str())),
            _ => None,
        }
    }

    /// The member with a given name.
    pub fn get<'a>(&'a self, name: &str) -> (r: Option<&'a Json>)
        ensures
            match r {
                Some(j) => j.view() == member(self.view(), name@),
                None => member(self.view(), name@) == JsonView::Null,
            },
    {
        match self {
            Json::Object(v) => {
                proof {
                    lemma_members_view(v@);
                }
                let mut i: usize = 0;
                while i < v.len()
                    invariant
                        i <= v@.len(),
                        self.view() == JsonView::Object(members_view(v@)),
                        members_view(v@).len() == v@.len(),
                        forall|j: int| 0 <= j < v@.len() ==> #[trigger] members_view(v@)[j] == (v@[j].0@, v@[j].1.view()),
                        member(self.view(), name@) == member_from(members_view(v@), name@, i as int),
                    decreases v@.len() - i,
                {
                    if same_text(v[i].0.as_str(), name) {
                        return Some(&v[i].1);
                    }
                    i += 1;
                }
                None
            },
            _ => None,
        }
    }

    /// The element at an index.
    pub fn at<'a>(&'a self, i: usize) -> (r: Option<&'a Json>)
        ensures
            match r {
                Some(j) => j.view() == element(self.view(), i as int),
                None => element(self.view(), i as int) == JsonView::Null,
            },
    {
        match self {
            Json::List(v) => {
                proof {
                    lemma_list_view(v@);
                }
                if i < v.len() {
                    Some(&v[i])
                } else {
                    None
                }
            },
            _ => None,
        }
    }

    pub fn as_text<'a>(&'a self) -> (r: Option<&'a String>)
        ensures
            match text_in(self.view()) {
                Some(s) => r is Some && (r->0)@ == s,
                None => r is None,
            },
    {
        match self {
            Json::Text(s) => Some(s),
            _ => None,
        }
    }

    pub fn as_list<'a>(&'a self) -> (r: Option<&'a Vec<Json>>)
        ensures
            match list_in(self.view()) {
                Some(s) => r is Some && list_view((r->0)@) == s,
                None => r is None,
            },
    {
        match self {
            Json::List(v) => Some(v),
            _ => None,
        }
    }

    pub fn as_decimal(&self) -> (r: Option<Decimal>)
        ensures
            r == decimal_in(self.view()),
    {
        match self {
            Json::Number(s) => Decimal::read(s.as_str()),
            Json::Text(s) => Decimal::read(s.as_str()),
            _ => None,
        }
    }

    /// The text of a member.
    pub fn text_member<'a>(&'a self, name: &str) -> (r: Option<&'a String>)
        ensures
            match text_in(member(self.view(), name@)) {
                Some(s) => r is Some && (r->0)@ == s,
                None => r is None,
            },
    {
        match self.get(name) {
            Some(j) => j.as_text(),
            None => None,
        }
    }

    /// The decimal of a member.
    pub fn decimal_member(&self, name: &str) -> (r: Option<Decimal>)
        ensures
            r == decimal_in(member(self.view(), name@)),
    {
        match self.get(name) {
            Some(j) => j.as_decimal(),
            None => None,
        }
    }

    /// The list of a member.
    pub fn list_member<'a>(&'a self, name: &str) -> (r: Option<&'a Vec<Json>>)
        ensures
            match list_in(member(self.view(), name@)) {
                Some(s) => r is Some && list_view((r->0)@) == s,
                None => r is None,
            },
    {
        match self.get(name) {
            Some(j) => j.as_list(),
            None => None,
        }
    }
}

/// How `serde_json::to_string` writes a text.
pub uninterp spec fn json_quoted(s: Seq<char>) -> Seq<char>;

/// Calls `serde_json::to_string` on a text. Claimed: the outcome depends on the text alone.
#[verifier::external_body]
pub(crate) fn json_quote(s: &str) -> (r: String)
    ensures
        r@ == json_quoted(s@),
{
    serde_json::to_string(s).expect("a text can be written")
}

impl Json {
    /// Reads a value.
    pub fn read(bytes: &[u8]) -> (r: Result<Json, String>)
        ensures
            match json_read(bytes@) {
                Ok(v) => r matches Ok(x) && x.view() == v,
                Err(m) => r matches Err(e) && e@ == m,
            },
    {
        parse_json(bytes)
    }

    /// The same value once more.
    pub fn copied(&self) -> (r: Json)
        ensures
            r.view() == self.view(),
        decreases self,
    {
        match self {
            Json::Null => Json::Null,
            Json::Bool(b) => Json::Bool(*b),
            Json::Number(s) => Json::Number(s.clone()),
            Json::Text(s) => Json::Text(s.clone()),
            Json::List(v) => {
                let mut out: Vec<Json> = Vec::new();
                let mut i: usize = 0;
                proof {
                    lemma_list_view(v@);
                }
                while i < v.len()
                    invariant
                        i <= v@.len(),
                        self is List,
                        self->List_0 == v,
                        out@.len() == i,
                        forall|j: int| 0 <= j < i ==> (#[trigger] out@[j]).view() == v@[j].view(),
                    decreases v@.len() - i,
                {
                    let c = v[i].copied();
                    out.push(c);
                    i += 1;
                }
                proof {
                    lemma_list_view(out@);
                    assert(list_view(out@) =~= list_view(v@));
                }
                Json::List(out)
            },
            Json::Object(v) => {
                let mut out: Vec<(String, Json)> = Vec::new();
                let mut i: usize = 0;
                proof {
                    lemma_members_view(v@);
                }
                while i < v.len()
                    invariant
                        i <= v@.len(),
                        self is Object,
                        self->Object_0 == v,
                        out@.len() == i,
                        forall|j: int|
                            0 <= j < i ==> (#[trigger] out@[j]).0@ == v@[j].0@ && out@[j].1.view() == v@[j].1.view(),
                    decreases v@.len() - i,
                {
                    let c = v[i].1.copied();
                    out.push((v[i].0.clone(), c));
                    i += 1;
                }
                proof {
                    lemma_members_view(out@);
                    assert(members_view(out@) =~= members_view(v@));
                }
                Json::Object(out)
            },
        }
    }
}

} // verus!
