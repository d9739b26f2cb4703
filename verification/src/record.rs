//! JSON read into records. A record takes its own fields, each of which is given once, and passes over
//! whatever else is in an object without looking into it.
use crate::json::{
    decimal_in, element, json_read, lemma_list_view, lemma_members_view, list_view, members_view, odd_shape, parse_json, text_in,
    u64_in, Json, JsonView,
};
use crate::text::same_text;
use vstd::prelude::*;
use vstd::slice::slice_subrange;

verus! {

/// What is read from a text.
pub enum Shape {
    /// Any value, below so many lists and objects. The parser reads values up to a depth.
    Any(u8),
    /// A text.
    Text,
    /// A decimal: a number, or a text that writes one.
    Amount,
    /// A whole number that 64 bits without a sign can hold.
    Whole,
    /// A list of values of one shape.
    List(Box<Shape>),
    /// An object of values of one shape, under any names. The last of a name counts.
    Table(Box<Shape>),
    /// A record, which is an object or a list of its fields in their order: a field, under one name
    /// or the other, and the fields behind it.
    Field(&'static str, &'static str, Box<Shape>, Box<Shape>),
    /// A record: there are no more fields.
    End,
}

/// A field of a record, in front of the other fields.
pub open spec fn record_with(name: &'static str, shape: Shape, rest: Shape) -> Shape {
    Shape::Field(name, name, Box::new(shape), Box::new(rest))
}

/// A field of a record, in front of the other fields.
pub fn with_field(name: &'static str, shape: Shape, rest: Shape) -> (r: Shape)
    ensures
        r == record_with(name, shape, rest),
{
    Shape::Field(name, name, Box::new(shape), Box::new(rest))
}

/// A list of values of one shape.
pub open spec fn list_of(shape: Shape) -> Shape {
    Shape::List(Box::new(shape))
}

/// A list of values of one shape.
pub fn as_list(shape: Shape) -> (r: Shape)
    ensures
        r == list_of(shape),
{
    Shape::List(Box::new(shape))
}

/// A table of values of one shape.
pub open spec fn table_of(shape: Shape) -> Shape {
    Shape::Table(Box::new(shape))
}

/// A table of values of one shape.
pub fn as_table(shape: Shape) -> (r: Shape)
    ensures
        r == table_of(shape),
{
    Shape::Table(Box::new(shape))
}

/// White space in JSON.
pub open spec fn is_blank(b: u8) -> bool {
    b == 32 || b == 9 || b == 10 || b == 13
}

/// The first index from `i` on that is no white space.
pub open spec fn past_blanks(bytes: Seq<u8>, i: int) -> int
    decreases bytes.len() - i,
{
    if 0 <= i < bytes.len() && is_blank(bytes[i]) {
        past_blanks(bytes, i + 1)
    } else {
        i
    }
}

/// Where `serde_json` finds the end of the value that bytes begin with, if they begin with one, when
/// it passes over the value without looking into it.
pub uninterp spec fn value_end(bytes: Seq<u8>) -> Option<usize>;

/// Calls `serde_json::StreamDeserializer::next` for a `serde::de::IgnoredAny`, and then
/// `byte_offset`. Claimed: the outcome depends on the bytes alone, and a value has at least one byte
/// and lies within them.
#[verifier::external_body]
fn skip_value(bytes: &[u8]) -> (r: Option<usize>)
    ensures
        r == value_end(bytes@),
        r matches Some(n) ==> 0 < n <= bytes@.len(),
{
    let mut values = serde_json::Deserializer::from_slice(bytes).into_iter::<serde::de::IgnoredAny>();
    match values.next() {
        Some(Ok(_)) => Some(values.byte_offset()),
        _ => None,
    }
}

/// The value that begins at an index, behind white space: where it begins and where it ends.
pub open spec fn value_at(bytes: Seq<u8>, i: int) -> Option<(int, int)> {
    let a = past_blanks(bytes, i);
    match value_end(bytes.skip(a)) {
        Some(n) => if 0 < n && a + n <= bytes.len() {
            Some((a, a + n))
        } else {
            None
        },
        None => None,
    }
}

/// Whether a byte stands at an index, behind white space.
pub open spec fn byte_at(bytes: Seq<u8>, i: int, b: u8) -> bool {
    past_blanks(bytes, i) < bytes.len() && bytes[past_blanks(bytes, i)] == b
}

/// Whether nothing but white space is left.
pub open spec fn ends_at(bytes: Seq<u8>, i: int) -> bool {
    past_blanks(bytes, i) >= bytes.len()
}

/// The texts of the elements of a list, from the one that begins at index `i` on.
pub open spec fn elements_from(bytes: Seq<u8>, i: int) -> Option<Seq<Seq<u8>>>
    decreases bytes.len() - i,
{
    if i < 0 || i > bytes.len() {
        None
    } else {
        match value_at(bytes, i) {
            None => None,
            Some((a, b)) => if b <= i {
                None
            } else if byte_at(bytes, b, 44) && past_blanks(bytes, b) >= b {
                prepended(bytes.subrange(a, b), elements_from(bytes, past_blanks(bytes, b) + 1))
            } else if byte_at(bytes, b, 93) && ends_at(bytes, past_blanks(bytes, b) + 1) {
                Some(seq![bytes.subrange(a, b)])
            } else {
                None
            },
        }
    }
}

/// One more in front.
pub open spec fn prepended<T>(x: T, rest: Option<Seq<T>>) -> Option<Seq<T>> {
    match rest {
        Some(s) => Some(seq![x] + s),
        None => None,
    }
}

/// The texts of the elements of a list.
pub open spec fn elements(bytes: Seq<u8>) -> Option<Seq<Seq<u8>>> {
    let i = past_blanks(bytes, 0);
    if !byte_at(bytes, 0, 91) {
        None
    } else if byte_at(bytes, i + 1, 93) {
        if ends_at(bytes, past_blanks(bytes, i + 1) + 1) {
            Some(Seq::empty())
        } else {
            None
        }
    } else {
        elements_from(bytes, i + 1)
    }
}

/// The member of an object that begins at an index: its name, its text, and where it ends.
pub open spec fn member_at(bytes: Seq<u8>, i: int) -> Option<(Seq<char>, Seq<u8>, int)> {
    match value_at(bytes, i) {
        None => None,
        Some((a, b)) => match json_read(bytes.subrange(a, b)) {
            Ok(JsonView::Text(name)) => if byte_at(bytes, b, 58) {
                match value_at(bytes, past_blanks(bytes, b) + 1) {
                    Some((c, d)) => Some((name, bytes.subrange(c, d), d)),
                    None => None,
                }
            } else {
                None
            },
            _ => None,
        },
    }
}

/// The members of an object, from the one that begins at index `i` on, in order.
pub open spec fn members_from(bytes: Seq<u8>, i: int) -> Option<Seq<(Seq<char>, Seq<u8>)>>
    decreases bytes.len() - i,
{
    if i < 0 || i > bytes.len() {
        None
    } else {
        match member_at(bytes, i) {
            None => None,
            Some((name, text, end)) => if end <= i {
                None
            } else if byte_at(bytes, end, 44) && past_blanks(bytes, end) >= end {
                prepended((name, text), members_from(bytes, past_blanks(bytes, end) + 1))
            } else if byte_at(bytes, end, 125) && ends_at(bytes, past_blanks(bytes, end) + 1) {
                Some(seq![(name, text)])
            } else {
                None
            },
        }
    }
}

/// The members of an object, in order.
pub open spec fn members(bytes: Seq<u8>) -> Option<Seq<(Seq<char>, Seq<u8>)>> {
    let i = past_blanks(bytes, 0);
    if !byte_at(bytes, 0, 123) {
        None
    } else if byte_at(bytes, i + 1, 125) {
        if ends_at(bytes, past_blanks(bytes, i + 1) + 1) {
            Some(Seq::empty())
        } else {
            None
        }
    } else {
        members_from(bytes, i + 1)
    }
}

fn skip_blanks(bytes: &[u8], from: usize) -> (r: usize)
    requires
        from <= bytes@.len(),
    ensures
        r == past_blanks(bytes@, from as int),
        from <= r <= bytes@.len(),
{
    let mut i: usize = from;
    while i < bytes.len()
        invariant
            from <= i <= bytes@.len(),
            past_blanks(bytes@, from as int) == past_blanks(bytes@, i as int),
        decreases bytes@.len() - i,
    {
        let b = bytes[i];
        if b != 32 && b != 9 && b != 10 && b != 13 {
            return i;
        }
        i += 1;
    }
    i
}

fn find_value(bytes: &[u8], from: usize) -> (r: Option<(usize, usize)>)
    requires
        from <= bytes@.len(),
    ensures
        match value_at(bytes@, from as int) {
            Some((a, b)) => r matches Some(x) && x.0 == a && x.1 == b && from <= a < b <= bytes@.len(),
            None => r is None,
        },
{
    let a = skip_blanks(bytes, from);
    let n: usize = bytes.len();
    let rest = slice_subrange(bytes, a, n);
    assert(rest@ =~= bytes@.skip(a as int));
    match skip_value(rest) {
        Some(n) => Some((a, a + n)),
        None => None,
    }
}

fn has_byte(bytes: &[u8], from: usize, b: u8) -> (r: Option<usize>)
    requires
        from <= bytes@.len(),
    ensures
        match r {
            Some(i) => byte_at(bytes@, from as int, b) && i == past_blanks(bytes@, from as int) && from <= i
                < bytes@.len() <= usize::MAX,
            None => !byte_at(bytes@, from as int, b),
        },
{
    let i = skip_blanks(bytes, from);
    if i < bytes.len() && bytes[i] == b {
        Some(i)
    } else {
        None
    }
}

fn is_over(bytes: &[u8], from: usize) -> (r: bool)
    requires
        from <= bytes@.len(),
    ensures
        r == ends_at(bytes@, from as int),
{
    skip_blanks(bytes, from) == bytes.len()
}

/// Texts as bytes.
pub open spec fn byte_texts(v: Seq<Vec<u8>>) -> Seq<Seq<u8>> {
    v.map_values(|x: Vec<u8>| x@)
}

/// Members as names and texts.
pub open spec fn member_texts(v: Seq<(String, Vec<u8>)>) -> Seq<(Seq<char>, Seq<u8>)> {
    v.map_values(|x: (String, Vec<u8>)| (x.0@, x.1@))
}

/// What is found behind what was found before.
spec fn after<T>(found: Seq<T>, rest: Option<Seq<T>>) -> Option<Seq<T>> {
    match rest {
        Some(s) => Some(found + s),
        None => None,
    }
}

fn copy_part(bytes: &[u8], a: usize, b: usize) -> (r: Vec<u8>)
    requires
        a <= b <= bytes@.len(),
    ensures
        r@ == bytes@.subrange(a as int, b as int),
{
    let mut out: Vec<u8> = Vec::new();
    let mut i: usize = a;
    while i < b
        invariant
            a <= i <= b <= bytes@.len(),
            out@ == bytes@.subrange(a as int, i as int),
        decreases b - i,
    {
        out.push(bytes[i]);
        i += 1;
        assert(out@ =~= bytes@.subrange(a as int, i as int));
    }
    out
}

fn split_list(bytes: &[u8]) -> (r: Option<Vec<Vec<u8>>>)
    ensures
        match elements(bytes@) {
            Some(s) => r matches Some(v) && byte_texts(v@) == s,
            None => r is None,
        },
{
    let mut out: Vec<Vec<u8>> = Vec::new();
    assert(byte_texts(out@) =~= Seq::<Seq<u8>>::empty());
    let open = has_byte(bytes, 0, 91)?;
    if let Some(close) = has_byte(bytes, open + 1, 93) {
        return if is_over(bytes, close + 1) {
            Some(out)
        } else {
            None
        };
    }
    let mut i: usize = open + 1;
    let ghost whole = elements_from(bytes@, i as int);
    assert(whole == after(byte_texts(out@), elements_from(bytes@, i as int))) by {
        if let Some(s) = whole {
            assert(Seq::<Seq<u8>>::empty() + s =~= s);
        }
    }
    loop
        invariant
            i <= bytes@.len(),
            whole == elements(bytes@),
            whole == after(byte_texts(out@), elements_from(bytes@, i as int)),
        decreases bytes@.len() - i,
    {
        let (a, b) = match find_value(bytes, i) {
            Some(p) => p,
            None => return None,
        };
        let part = copy_part(bytes, a, b);
        let ghost pv = part@;
        let ghost before = byte_texts(out@);
        out.push(part);
        assert(byte_texts(out@) =~= before.push(pv));
        if let Some(comma) = has_byte(bytes, b, 44) {
            proof {
                let rest = elements_from(bytes@, comma + 1);
                if let Some(s) = rest {
                    assert(before + (seq![pv] + s) =~= before.push(pv) + s);
                }
            }
            i = comma + 1;
        } else {
            return match has_byte(bytes, b, 93) {
                Some(close) => if is_over(bytes, close + 1) {
                    assert(before + seq![pv] =~= before.push(pv));
                    Some(out)
                } else {
                    None
                },
                None => None,
            };
        }
    }
}

fn find_member(bytes: &[u8], from: usize) -> (r: Option<(String, Vec<u8>, usize)>)
    requires
        from <= bytes@.len(),
    ensures
        match member_at(bytes@, from as int) {
            Some((name, text, end)) => r matches Some(x) && x.0@ == name && x.1@ == text && x.2 == end && from < end
                <= bytes@.len(),
            None => r is None,
        },
{
    let (a, b) = find_value(bytes, from)?;
    let key = slice_subrange(bytes, a, b);
    match parse_json(key) {
        Ok(Json::Text(name)) => {
            let colon = has_byte(bytes, b, 58)?;
            let (c, d) = find_value(bytes, colon + 1)?;
            Some((name, copy_part(bytes, c, d), d))
        },
        _ => None,
    }
}

fn split_object(bytes: &[u8]) -> (r: Option<Vec<(String, Vec<u8>)>>)
    ensures
        match members(bytes@) {
            Some(s) => r matches Some(v) && member_texts(v@) == s,
            None => r is None,
        },
{
    let mut out: Vec<(String, Vec<u8>)> = Vec::new();
    assert(member_texts(out@) =~= Seq::<(Seq<char>, Seq<u8>)>::empty());
    let open = has_byte(bytes, 0, 123)?;
    if let Some(close) = has_byte(bytes, open + 1, 125) {
        return if is_over(bytes, close + 1) {
            Some(out)
        } else {
            None
        };
    }
    let mut i: usize = open + 1;
    let ghost whole = members_from(bytes@, i as int);
    assert(whole == after(member_texts(out@), members_from(bytes@, i as int))) by {
        if let Some(s) = whole {
            assert(Seq::<(Seq<char>, Seq<u8>)>::empty() + s =~= s);
        }
    }
    loop
        invariant
            i <= bytes@.len(),
            whole == members(bytes@),
            whole == after(member_texts(out@), members_from(bytes@, i as int)),
        decreases bytes@.len() - i,
    {
        let (name, text, end) = match find_member(bytes, i) {
            Some(m) => m,
            None => return None,
        };
        let ghost mv = (name@, text@);
        let ghost before = member_texts(out@);
        out.push((name, text));
        assert(member_texts(out@) =~= before.push(mv));
        if let Some(comma) = has_byte(bytes, end, 44) {
            proof {
                let rest = members_from(bytes@, comma + 1);
                if let Some(s) = rest {
                    assert(before + (seq![mv] + s) =~= before.push(mv) + s);
                }
            }
            i = comma + 1;
        } else {
            return match has_byte(bytes, end, 125) {
                Some(close) => if is_over(bytes, close + 1) {
                    assert(before + seq![mv] =~= before.push(mv));
                    Some(out)
                } else {
                    None
                },
                None => None,
            };
        }
    }
}

/// Whether a member is a field under one of two names.
pub open spec fn is_named(m: (Seq<char>, Seq<u8>), name: Seq<char>, also: Seq<char>) -> bool {
    m.0 == name || m.0 == also
}

/// The first member from index `i` on that is a field.
pub open spec fn first_named(m: Seq<(Seq<char>, Seq<u8>)>, name: Seq<char>, also: Seq<char>, i: int) -> Option<int>
    decreases m.len() - i,
{
    if i < 0 || i >= m.len() {
        None
    } else if is_named(m[i], name, also) {
        Some(i)
    } else {
        first_named(m, name, also, i + 1)
    }
}

/// Whether a name occurs from index `i` on.
pub open spec fn occurs(m: Seq<(Seq<char>, Seq<u8>)>, name: Seq<char>, i: int) -> bool {
    first_named(m, name, name, i) is Some
}

/// A text within so many lists.
pub open spec fn bracketed(bytes: Seq<u8>, n: nat) -> Seq<u8>
    decreases n,
{
    if n == 0 {
        bytes
    } else {
        seq![91u8] + bracketed(bytes, (n - 1) as nat) + seq![93u8]
    }
}

/// The value within so many lists.
pub open spec fn inside(v: JsonView, n: nat) -> JsonView
    decreases n,
{
    if n == 0 {
        v
    } else {
        inside(element(v, 0), (n - 1) as nat)
    }
}

fn bracket(bytes: &[u8], n: u8) -> (r: Vec<u8>)
    ensures
        r@ == bracketed(bytes@, n as nat),
    decreases n,
{
    let mut out: Vec<u8> = Vec::new();
    if n == 0 {
        out.extend_from_slice(bytes);
        assert(out@ =~= bytes@);
    } else {
        let mut within = bracket(bytes, n - 1);
        let ghost w = within@;
        out.push(91);
        out.append(&mut within);
        out.push(93);
        assert(out@ =~= seq![91u8] + w + seq![93u8]);
    }
    out
}

fn take_inside(v: Json, n: u8) -> (r: Json)
    ensures
        r.view() == inside(v.view(), n as nat),
    decreases n,
{
    if n == 0 {
        return v;
    }
    let first = match v {
        Json::List(mut l) => {
            proof {
                lemma_list_view(l@);
            }
            if l.len() > 0 {
                l.remove(0)
            } else {
                Json::Null
            }
        },
        _ => Json::Null,
    };
    take_inside(first, n - 1)
}

/// The value that bytes hold in a shape, if they hold one.
pub open spec fn shaped(bytes: Seq<u8>, shape: Shape) -> Option<JsonView>
    decreases shape, 1nat,
{
    match shape {
        Shape::Any(n) => match json_read(bracketed(bytes, n as nat)) {
            Ok(v) => Some(inside(v, n as nat)),
            Err(_) => None,
        },
        Shape::Text => match json_read(bytes) {
            Ok(v) => if text_in(v) is Some {
                Some(v)
            } else {
                None
            },
            Err(_) => None,
        },
        Shape::Amount => match json_read(bytes) {
            Ok(v) => if decimal_in(v) is Some {
                Some(v)
            } else {
                None
            },
            Err(_) => None,
        },
        Shape::Whole => match json_read(bytes) {
            Ok(v) => if u64_in(v) is Some {
                Some(v)
            } else {
                None
            },
            Err(_) => None,
        },
        Shape::List(s) => match elements(bytes) {
            Some(parts) => match shaped_list(parts, *s, parts.len()) {
                Some(v) => Some(JsonView::List(v)),
                None => None,
            },
            None => None,
        },
        Shape::Table(s) => match members(bytes) {
            Some(m) => match shaped_table(m, *s, m.len()) {
                Some(v) => Some(JsonView::Object(v)),
                None => None,
            },
            None => None,
        },
        _ => match members(bytes) {
            Some(m) => match shaped_fields(m, shape) {
                Some(v) => Some(JsonView::Object(v)),
                None => None,
            },
            None => match elements(bytes) {
                Some(parts) => match shaped_row(parts, shape, 0) {
                    Some(v) => Some(JsonView::List(v)),
                    None => None,
                },
                None => None,
            },
        },
    }
}

/// The first `n` elements of a list, each in a shape.
pub open spec fn shaped_list(parts: Seq<Seq<u8>>, shape: Shape, n: nat) -> Option<Seq<JsonView>>
    decreases shape, n + 1,
{
    if n == 0 || n > parts.len() {
        Some(Seq::empty())
    } else {
        match (shaped_list(parts, shape, (n - 1) as nat), shaped(parts[n - 1], shape)) {
            (Some(s), Some(v)) => Some(s.push(v)),
            _ => None,
        }
    }
}

/// The first `n` members of an object, each in a shape, without those whose name comes again.
pub open spec fn shaped_table(m: Seq<(Seq<char>, Seq<u8>)>, shape: Shape, n: nat) -> Option<Seq<(Seq<char>, JsonView)>>
    decreases shape, n + 1,
{
    if n == 0 || n > m.len() {
        Some(Seq::empty())
    } else {
        match (shaped_table(m, shape, (n - 1) as nat), shaped(m[n - 1].1, shape)) {
            (Some(s), Some(v)) => if occurs(m, m[n - 1].0, n as int) {
                Some(s)
            } else {
                Some(s.push((m[n - 1].0, v)))
            },
            _ => None,
        }
    }
}

/// The fields of a record in an object: all of them, each given once and in its shape.
pub open spec fn shaped_fields(m: Seq<(Seq<char>, Seq<u8>)>, shape: Shape) -> Option<Seq<(Seq<char>, JsonView)>>
    decreases shape, 0nat,
{
    match shape {
        Shape::Field(name, also, s, rest) => match first_named(m, name@, also@, 0) {
            None => None,
            Some(i) => if first_named(m, name@, also@, i + 1) is Some {
                None
            } else {
                match (shaped(m[i].1, *s), shaped_fields(m, *rest)) {
                    (Some(v), Some(f)) => Some(seq![(m[i].0, v)] + f),
                    _ => None,
                }
            },
        },
        _ => Some(Seq::empty()),
    }
}

/// The fields of a record in a list, from index `i` on: as many as there are fields.
pub open spec fn shaped_row(parts: Seq<Seq<u8>>, shape: Shape, i: int) -> Option<Seq<JsonView>>
    decreases shape, 0nat,
{
    match shape {
        Shape::Field(_, _, s, rest) => if 0 <= i < parts.len() {
            match (shaped(parts[i], *s), shaped_row(parts, *rest, i + 1)) {
                (Some(v), Some(f)) => Some(seq![v] + f),
                _ => None,
            }
        } else {
            None
        },
        _ => if i == parts.len() {
            Some(Seq::empty())
        } else {
            None
        },
    }
}

/// What bytes hold in a shape, or what is wrong with them: what the parser says of bytes that are no
/// JSON at all, and else that they are not as expected.
pub open spec fn read_as(bytes: Seq<u8>, shape: Shape) -> Result<JsonView, Seq<char>> {
    match shaped(bytes, shape) {
        Some(v) => Ok(v),
        None => match json_read(bytes) {
            Err(m) => Err(m),
            Ok(_) => Err(odd_shape()),
        },
    }
}

fn find_named(m: &Vec<(String, Vec<u8>)>, name: &str, also: &str, from: usize) -> (r: Option<usize>)
    requires
        from <= m@.len(),
    ensures
        match first_named(member_texts(m@), name@, also@, from as int) {
            Some(i) => r matches Some(x) && x == i && from <= i < m@.len() <= usize::MAX,
            None => r is None,
        },
{
    let mut i: usize = from;
    while i < m.len()
        invariant
            from <= i <= m@.len(),
            first_named(member_texts(m@), name@, also@, from as int) == first_named(
                member_texts(m@),
                name@,
                also@,
                i as int,
            ),
        decreases m@.len() - i,
    {
        if same_text(m[i].0.as_str(), name) || same_text(m[i].0.as_str(), also) {
            return Some(i);
        }
        i += 1;
    }
    None
}

fn read_list(parts: &Vec<Vec<u8>>, shape: &Shape) -> (r: Option<Vec<Json>>)
    ensures
        match shaped_list(byte_texts(parts@), *shape, parts@.len()) {
            Some(s) => r matches Some(v) && list_view(v@) == s,
            None => r is None,
        },
    decreases *shape, parts@.len() + 1,
{
    let ghost texts = byte_texts(parts@);
    let mut out: Vec<Json> = Vec::new();
    let mut i: usize = 0;
    while i < parts.len()
        invariant
            i <= parts@.len(),
            texts == byte_texts(parts@),
            shaped_list(texts, *shape, i as nat) == Some(list_view(out@)),
        decreases parts@.len() - i,
    {
        assert(texts[i as int] == parts@[i as int]@);
        match read_shape(parts[i].as_slice(), shape) {
            Some(v) => {
                let ghost before = out@;
                out.push(v);
                assert(out@.drop_last() =~= before);
                i += 1;
            },
            None => {
                proof {
                    lemma_list_fails(texts, *shape, i + 1, texts.len());
                }
                return None;
            },
        }
    }
    Some(out)
}

proof fn lemma_list_fails(parts: Seq<Seq<u8>>, shape: Shape, i: int, n: nat)
    requires
        0 <= i <= n <= parts.len(),
        shaped_list(parts, shape, i as nat) is None,
    ensures
        shaped_list(parts, shape, n) is None,
    decreases n,
{
    if i < n {
        lemma_list_fails(parts, shape, i, (n - 1) as nat);
    }
}

fn read_table(m: &Vec<(String, Vec<u8>)>, shape: &Shape) -> (r: Option<Vec<(String, Json)>>)
    ensures
        match shaped_table(member_texts(m@), *shape, m@.len()) {
            Some(s) => r matches Some(v) && members_view(v@) == s,
            None => r is None,
        },
    decreases *shape, m@.len() + 1,
{
    let ghost texts = member_texts(m@);
    let mut out: Vec<(String, Json)> = Vec::new();
    let mut i: usize = 0;
    while i < m.len()
        invariant
            i <= m@.len(),
            texts == member_texts(m@),
            shaped_table(texts, *shape, i as nat) == Some(members_view(out@)),
        decreases m@.len() - i,
    {
        assert(texts[i as int] == (m@[i as int].0@, m@[i as int].1@));
        match read_shape(m[i].1.as_slice(), shape) {
            Some(v) => {
                if find_named(m, m[i].0.as_str(), m[i].0.as_str(), i + 1).is_none() {
                    let ghost before = out@;
                    out.push((m[i].0.clone(), v));
                    assert(out@.drop_last() =~= before);
                }
                i += 1;
            },
            None => {
                proof {
                    lemma_table_fails(texts, *shape, i + 1, texts.len());
                }
                return None;
            },
        }
    }
    Some(out)
}

proof fn lemma_table_fails(m: Seq<(Seq<char>, Seq<u8>)>, shape: Shape, i: int, n: nat)
    requires
        0 <= i <= n <= m.len(),
        shaped_table(m, shape, i as nat) is None,
    ensures
        shaped_table(m, shape, n) is None,
    decreases n,
{
    if i < n {
        lemma_table_fails(m, shape, i, (n - 1) as nat);
    }
}

fn read_fields(m: &Vec<(String, Vec<u8>)>, shape: &Shape) -> (r: Option<Vec<(String, Json)>>)
    ensures
        match shaped_fields(member_texts(m@), *shape) {
            Some(s) => r matches Some(v) && members_view(v@) == s,
            None => r is None,
        },
    decreases *shape, 0nat,
{
    match shape {
        Shape::Field(name, also, s, rest) => {
            let i = match find_named(m, name, also, 0) {
                None => return None,
                Some(i) => i,
            };
            if find_named(m, name, also, i + 1).is_some() {
                return None;
            }
            assert(member_texts(m@)[i as int] == (m@[i as int].0@, m@[i as int].1@));
            let v = read_shape(m[i].1.as_slice(), s)?;
            let mut more = read_fields(m, rest)?;
            let mut out: Vec<(String, Json)> = Vec::new();
            out.push((m[i].0.clone(), v));
            let ghost first = out@;
            let ghost tail = more@;
            out.append(&mut more);
            proof {
                assert(out@ =~= first + tail);
                lemma_members_view(out@);
                lemma_members_view(tail);
                lemma_members_view(first);
                assert(members_view(out@) =~= seq![(m@[i as int].0@, v.view())] + members_view(tail));
            }
            Some(out)
        },
        _ => Some(Vec::new()),
    }
}

fn read_row(parts: &Vec<Vec<u8>>, shape: &Shape, i: usize) -> (r: Option<Vec<Json>>)
    requires
        i <= parts@.len(),
    ensures
        match shaped_row(byte_texts(parts@), *shape, i as int) {
            Some(s) => r matches Some(v) && list_view(v@) == s,
            None => r is None,
        },
    decreases *shape, 0nat,
{
    match shape {
        Shape::Field(_, _, s, rest) => {
            if i >= parts.len() {
                return None;
            }
            let v = read_shape(parts[i].as_slice(), s)?;
            let mut more = read_row(parts, rest, i + 1)?;
            let mut out: Vec<Json> = Vec::new();
            out.push(v);
            let ghost first = out@;
            let ghost tail = more@;
            out.append(&mut more);
            proof {
                assert(out@ =~= first + tail);
                lemma_list_view(out@);
                lemma_list_view(tail);
                lemma_list_view(first);
                assert(list_view(out@) =~= seq![v.view()] + list_view(tail));
            }
            Some(out)
        },
        _ => if i == parts.len() {
            Some(Vec::new())
        } else {
            None
        },
    }
}

fn read_shape(bytes: &[u8], shape: &Shape) -> (r: Option<Json>)
    ensures
        match shaped(bytes@, *shape) {
            Some(v) => r matches Some(x) && x.view() == v,
            None => r is None,
        },
    decreases *shape, 1nat,
{
    match shape {
        Shape::Any(n) => match parse_json(&bracket(bytes, *n)) {
            Ok(v) => Some(take_inside(v, *n)),
            Err(_) => None,
        },
        Shape::Text => match parse_json(bytes) {
            Ok(v) => if v.as_text().is_some() {
                Some(v)
            } else {
                None
            },
            Err(_) => None,
        },
        Shape::Amount => match parse_json(bytes) {
            Ok(v) => if v.as_decimal().is_some() {
                Some(v)
            } else {
                None
            },
            Err(_) => None,
        },
        Shape::Whole => match parse_json(bytes) {
            Ok(v) => if v.as_u64().is_some() {
                Some(v)
            } else {
                None
            },
            Err(_) => None,
        },
        Shape::List(s) => {
            let parts = split_list(bytes)?;
            Some(Json::List(read_list(&parts, s)?))
        },
        Shape::Table(s) => {
            let m = split_object(bytes)?;
            Some(Json::Object(read_table(&m, s)?))
        },
        _ => match split_object(bytes) {
            Some(m) => Some(Json::Object(read_fields(&m, shape)?)),
            None => {
                let parts = split_list(bytes)?;
                Some(Json::List(read_row(&parts, shape, 0)?))
            },
        },
    }
}

/// Reads what bytes hold in a shape.
pub fn parse_as(bytes: &[u8], shape: &Shape) -> (r: Result<Json, String>)
    ensures
        match read_as(bytes@, *shape) {
            Ok(v) => r matches Ok(x) && x.view() == v,
            Err(m) => r matches Err(e) && e@ == m,
        },
{
    match read_shape(bytes, shape) {
        Some(v) => Ok(v),
        None => match parse_json(bytes) {
            Err(e) => Err(e),
            Ok(_) => Err("unexpected response".to_owned()),
        },
    }
}

} // verus!
