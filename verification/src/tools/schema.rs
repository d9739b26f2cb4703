//! Tool schemas as plain JSON Schema that any LLM tool API accepts. Generated schemas have `$ref`s
//! into `$defs`, type unions and nullable `anyOf`s for options, decimals as `string | number` with
//! a pattern, and formats (`uint32`, `date-time`) that some models reject; `simplify` rewrites them
//! into inlined, single-typed schemas. Decimals become `number`, which they are read from.
use crate::json::{
    has_from, lemma_list_view, lemma_members_view, list_view, member, member_from, members_view, text_in, Json,
    JsonView,
};
use crate::text::{chars_of, lex_less, same_text, stands_at, text_at, text_before, text_of};
use vstd::prelude::*;

verus! {

/// The members of an object.
pub type Members = Seq<(Seq<char>, JsonView)>;

/// How deep references are followed: recursive types would never end; past this depth a reference
/// becomes "anything".
pub const MAX_DEPTH: usize = 16;

/// Members with one set: in the place of one with its name, else in the order of the names.
pub open spec fn put(m: Members, k: Seq<char>, v: JsonView) -> Members
    decreases m.len(),
{
    if m.len() == 0 {
        seq![(k, v)]
    } else if m[0].0 == k {
        seq![(k, v)] + m.skip(1)
    } else if lex_less(k, m[0].0) {
        seq![(k, v)] + m
    } else {
        seq![m[0]] + put(m.skip(1), k, v)
    }
}

/// Members with one set, unless there is one with its name.
pub open spec fn put_new(m: Members, k: Seq<char>, v: JsonView) -> Members {
    if has_from(m, k, 0) {
        m
    } else {
        put(m, k, v)
    }
}

/// Members without the one with a name.
pub open spec fn without(m: Members, k: Seq<char>) -> Members
    decreases m.len(),
{
    if m.len() == 0 {
        m
    } else if m[0].0 == k {
        m.skip(1)
    } else {
        seq![m[0]] + without(m.skip(1), k)
    }
}

/// A text without a prefix, as often as it stands there.
pub open spec fn past_prefix(s: Seq<char>, pat: Seq<char>) -> Seq<char>
    decreases s.len(),
{
    if pat.len() > 0 && stands_at(s, pat, 0) {
        past_prefix(s.skip(pat.len() as int), pat)
    } else {
        s
    }
}

/// What a reference refers to.
pub open spec fn referred(defs: JsonView, r: Seq<char>) -> JsonView {
    member(defs, past_prefix(r, "#/$defs/"@))
}

/// The members of a value, none where it is no object.
pub open spec fn object_in(v: JsonView) -> Members {
    match v {
        JsonView::Object(m) => m,
        _ => Seq::empty(),
    }
}

/// Whether a key of a schema is dropped.
pub open spec fn dropped(k: Seq<char>) -> bool {
    k == "$ref"@ || k == "$defs"@ || k == "$schema"@ || k == "title"@
}

/// A simplified schema node: references resolved, sub-schemas simplified, then flattened.
pub open spec fn node(v: JsonView, defs: JsonView, depth: nat) -> JsonView
    decreases MAX_DEPTH - depth, v, 0nat,
{
    match v {
        JsonView::Object(m) => {
            let base = match text_in(member_from(m, "$ref"@, 0)) {
                Some(r) => if depth < MAX_DEPTH {
                    object_in(node(referred(defs, r), defs, depth + 1))
                } else {
                    Seq::empty()
                },
                None => Seq::empty(),
            };
            JsonView::Object(flat(parts(m, defs, depth, base, m.len())))
        },
        _ => v,
    }
}

/// The first `n` members of a schema on top of what it refers to. Keys written next to a `$ref`
/// (its description) win over the referenced definition.
pub open spec fn parts(m: Members, defs: JsonView, depth: nat, base: Members, n: nat) -> Members
    decreases MAX_DEPTH - depth, m, n,
{
    if n == 0 || n > m.len() {
        base
    } else {
        let before = parts(m, defs, depth, base, (n - 1) as nat);
        let k = m[n - 1].0;
        let x = m[n - 1].1;
        if dropped(k) {
            before
        } else if k == "properties"@ {
            put(
                before,
                k,
                match x {
                    JsonView::Object(p) => JsonView::Object(properties(p, defs, depth, p.len())),
                    _ => JsonView::Object(Seq::empty()),
                },
            )
        } else if (k == "items"@ || k == "additionalProperties"@) && x is Object {
            put(before, k, node(x, defs, depth))
        } else if k == "anyOf"@ || k == "oneOf"@ || k == "allOf"@ {
            put(
                before,
                k,
                match x {
                    JsonView::List(s) => JsonView::List(branches(s, defs, depth, s.len())),
                    _ => JsonView::List(Seq::empty()),
                },
            )
        } else {
            put(before, k, x)
        }
    }
}

/// The first `n` properties, each simplified.
pub open spec fn properties(p: Members, defs: JsonView, depth: nat, n: nat) -> Members
    decreases MAX_DEPTH - depth, p, n,
{
    if n == 0 || n > p.len() {
        Seq::empty()
    } else {
        put(properties(p, defs, depth, (n - 1) as nat), p[n - 1].0, node(p[n - 1].1, defs, depth))
    }
}

/// The first `n` branches, each simplified.
pub open spec fn branches(s: Seq<JsonView>, defs: JsonView, depth: nat, n: nat) -> Seq<JsonView>
    decreases MAX_DEPTH - depth, s, n,
{
    if n == 0 || n > s.len() {
        Seq::empty()
    } else {
        branches(s, defs, depth, (n - 1) as nat).push(node(s[n - 1], defs, depth))
    }
}

/// The branches from index `i` on that are not null.
pub open spec fn kept_from(s: Seq<JsonView>, i: int) -> Seq<JsonView>
    decreases s.len() - i,
{
    if i >= s.len() {
        Seq::empty()
    } else if text_in(member(s[i], "type"@)) == Some("null"@) {
        kept_from(s, i + 1)
    } else {
        seq![s[i]] + kept_from(s, i + 1)
    }
}

/// Whether a value is an object with a member of a name.
pub open spec fn holds(v: JsonView, k: Seq<char>) -> bool {
    match v {
        JsonView::Object(m) => has_from(m, k, 0),
        _ => false,
    }
}

/// Whether every value from index `i` on is a constant.
pub open spec fn all_const(s: Seq<JsonView>, i: int) -> bool
    decreases s.len() - i,
{
    i >= s.len() || (holds(s[i], "const"@) && all_const(s, i + 1))
}

/// Members with the first `n` of others, each unless there is one with its name.
pub open spec fn merged(m: Members, first: Members, n: nat) -> Members
    decreases n,
{
    if n == 0 || n > first.len() {
        m
    } else {
        put_new(merged(m, first, (n - 1) as nat), first[n - 1].0, first[n - 1].1)
    }
}

/// Members without a union: a documented enum (one `const` per variant) becomes an enumeration, any
/// other union keeps its first branch that is not null.
pub open spec fn without_union(m: Members, key: Seq<char>) -> Members {
    let rest = without(m, key);
    match member_from(m, key, 0) {
        JsonView::List(s) => {
            let kept = kept_from(s, 0);
            if kept.len() > 0 && all_const(kept, 0) {
                let consts = kept.map_values(|b: JsonView| member(b, "const"@));
                put_new(
                    put(rest, "enum"@, JsonView::List(consts)),
                    "type"@,
                    if holds(kept[0], "type"@) {
                        member(kept[0], "type"@)
                    } else {
                        JsonView::Text("string"@)
                    },
                )
            } else if kept.len() > 0 {
                match kept[0] {
                    JsonView::Object(first) => merged(rest, first, first.len()),
                    _ => rest,
                }
            } else {
                rest
            }
        },
        _ => rest,
    }
}

/// The types from index `i` on that are texts and not null.
pub open spec fn types_from(s: Seq<JsonView>, i: int) -> Seq<Seq<char>>
    decreases s.len() - i,
{
    if i >= s.len() {
        Seq::empty()
    } else {
        match text_in(s[i]) {
            Some(t) => if t == "null"@ {
                types_from(s, i + 1)
            } else {
                seq![t] + types_from(s, i + 1)
            },
            None => types_from(s, i + 1),
        }
    }
}

/// Whether a text is among those from index `i` on.
pub open spec fn among(s: Seq<Seq<char>>, t: Seq<char>, i: int) -> bool
    decreases s.len() - i,
{
    i < s.len() && (s[i] == t || among(s, t, i + 1))
}

/// Members with one type: a number if it may be one, else the first that is not null.
pub open spec fn with_one_type(m: Members) -> Members {
    match member_from(m, "type"@, 0) {
        JsonView::List(s) => {
            let types = types_from(s, 0);
            put(
                m,
                "type"@,
                JsonView::Text(
                    if among(types, "number"@, 0) {
                        "number"@
                    } else if types.len() > 0 {
                        types[0]
                    } else {
                        "string"@
                    },
                ),
            )
        },
        _ => m,
    }
}

/// Members without the pattern of a number.
pub open spec fn without_pattern(m: Members) -> Members {
    let t = text_in(member_from(m, "type"@, 0));
    if t == Some("number"@) || t == Some("integer"@) {
        without(m, "pattern"@)
    } else {
        m
    }
}

/// Members without a default of nothing.
pub open spec fn without_null_default(m: Members) -> Members {
    if has_from(m, "default"@, 0) && member_from(m, "default"@, 0) == JsonView::Null {
        without(m, "default"@)
    } else {
        m
    }
}

/// What a date-time means.
pub open spec fn time_hint() -> Seq<char> {
    "RFC 3339 time, e.g. 2026-09-25T09:00:00+09:00"@
}

/// Members without a format; what a date-time means is kept in the description.
pub open spec fn without_format(m: Members) -> Members {
    let rest = without(m, "format"@);
    if text_in(member_from(m, "format"@, 0)) == Some("date-time"@) {
        put(
            rest,
            "description"@,
            JsonView::Text(
                match text_in(member_from(rest, "description"@, 0)) {
                    Some(d) => d + " ("@ + time_hint() + ")"@,
                    None => time_hint(),
                },
            ),
        )
    } else {
        rest
    }
}

/// Members with properties, if they are of an object.
pub open spec fn with_properties(m: Members) -> Members {
    if text_in(member_from(m, "type"@, 0)) == Some("object"@) && !has_from(m, "properties"@, 0) {
        put(m, "properties"@, JsonView::Object(Seq::empty()))
    } else {
        m
    }
}

/// A flattened schema node.
pub open spec fn flat(m: Members) -> Members {
    with_properties(
        without_format(
            without_null_default(
                without_pattern(with_one_type(without_union(without_union(m, "anyOf"@), "oneOf"@))),
            ),
        ),
    )
}

/// A schema without references, unions and formats.
pub open spec fn simplified(root: JsonView) -> JsonView {
    node(root, member(root, "$defs"@), 0)
}

fn put_member(m: &mut Vec<(String, Json)>, k: String, v: Json)
    ensures
        members_view(final(m)@) == put(members_view(old(m)@), k@, v.view()),
{
    proof {
        lemma_members_view(m@);
    }
    let ghost whole = members_view(m@);
    let ghost kv = k@;
    let ghost vv = v.view();
    let mut i: usize = 0;
    assert(whole.skip(0) =~= whole);
    assert(whole.take(0) + put(whole.skip(0), kv, vv) =~= put(whole, kv, vv));
    while i < m.len()
        invariant
            i <= m@.len(),
            m@ == old(m)@,
            whole == members_view(m@),
            whole.len() == m@.len(),
            forall|j: int| 0 <= j < m@.len() ==> #[trigger] whole[j] == (m@[j].0@, m@[j].1.view()),
            kv == k@,
            vv == v.view(),
            put(whole, kv, vv) == whole.take(i as int) + put(whole.skip(i as int), kv, vv),
        decreases m@.len() - i,
    {
        assert(whole[i as int] == (m@[i as int].0@, m@[i as int].1.view()));
        assert(whole.skip(i as int)[0] == whole[i as int]);
        assert(whole.skip(i as int).skip(1) =~= whole.skip(i + 1));
        if same_text(m[i].0.as_str(), k.as_str()) {
            m.set(i, (k, v));
            proof {
                lemma_members_view(m@);
                assert(members_view(m@) =~= whole.take(i as int) + (seq![(kv, vv)] + whole.skip(i + 1)));
            }
            return;
        }
        if text_before(k.as_str(), m[i].0.as_str()) {
            m.insert(i, (k, v));
            proof {
                lemma_members_view(m@);
                assert(members_view(m@) =~= whole.take(i as int) + (seq![(kv, vv)] + whole.skip(i as int)));
            }
            return;
        }
        proof {
            let more = put(whole.skip(i + 1), kv, vv);
            assert(whole.take(i as int) + (seq![whole[i as int]] + more) =~= whole.take(i + 1) + more);
        }
        i += 1;
    }
    m.push((k, v));
    proof {
        lemma_members_view(m@);
        assert(members_view(m@) =~= whole.take(i as int) + seq![(kv, vv)]);
    }
}

fn find_member(m: &Vec<(String, Json)>, k: &str) -> (r: Option<usize>)
    ensures
        match r {
            Some(i) => i < m@.len() && has_from(members_view(m@), k@, 0) && member_from(members_view(m@), k@, 0)
                == m@[i as int].1.view(),
            None => !has_from(members_view(m@), k@, 0) && member_from(members_view(m@), k@, 0) == JsonView::Null,
        },
{
    proof {
        lemma_members_view(m@);
    }
    let ghost views = members_view(m@);
    let mut i: usize = 0;
    while i < m.len()
        invariant
            i <= m@.len(),
            views == members_view(m@),
            views.len() == m@.len(),
            forall|j: int| 0 <= j < m@.len() ==> #[trigger] views[j] == (m@[j].0@, m@[j].1.view()),
            has_from(views, k@, 0) == has_from(views, k@, i as int),
            member_from(views, k@, 0) == member_from(views, k@, i as int),
        decreases m@.len() - i,
    {
        assert(views[i as int] == (m@[i as int].0@, m@[i as int].1.view()));
        if same_text(m[i].0.as_str(), k) {
            return Some(i);
        }
        i += 1;
    }
    None
}

fn member_text<'a>(m: &'a Vec<(String, Json)>, k: &str) -> (r: Option<&'a String>)
    ensures
        match text_in(member_from(members_view(m@), k@, 0)) {
            Some(s) => r is Some && (r->0)@ == s,
            None => r is None,
        },
{
    match find_member(m, k) {
        Some(i) => m[i].1.as_text(),
        None => None,
    }
}

fn member_is(m: &Vec<(String, Json)>, k: &str, t: &str) -> (r: bool)
    ensures
        r == (text_in(member_from(members_view(m@), k@, 0)) == Some(t@)),
{
    match member_text(m, k) {
        Some(s) => same_text(s.as_str(), t),
        None => false,
    }
}

fn put_new_member(m: &mut Vec<(String, Json)>, k: String, v: Json)
    ensures
        members_view(final(m)@) == put_new(members_view(old(m)@), k@, v.view()),
{
    if find_member(m, k.as_str()).is_none() {
        put_member(m, k, v);
    }
}

fn remove_member(m: &mut Vec<(String, Json)>, k: &str) -> (r: Option<Json>)
    ensures
        members_view(final(m)@) == without(members_view(old(m)@), k@),
        match r {
            Some(j) => j.view() == member_from(members_view(old(m)@), k@, 0),
            None => member_from(members_view(old(m)@), k@, 0) == JsonView::Null,
        },
{
    proof {
        lemma_members_view(m@);
    }
    let ghost whole = members_view(m@);
    let mut i: usize = 0;
    assert(whole.skip(0) =~= whole);
    assert(whole.take(0) + without(whole.skip(0), k@) =~= without(whole, k@));
    while i < m.len()
        invariant
            i <= m@.len(),
            m@ == old(m)@,
            whole == members_view(m@),
            whole.len() == m@.len(),
            forall|j: int| 0 <= j < m@.len() ==> #[trigger] whole[j] == (m@[j].0@, m@[j].1.view()),
            member_from(whole, k@, 0) == member_from(whole, k@, i as int),
            without(whole, k@) == whole.take(i as int) + without(whole.skip(i as int), k@),
        decreases m@.len() - i,
    {
        assert(whole[i as int] == (m@[i as int].0@, m@[i as int].1.view()));
        assert(whole.skip(i as int)[0] == whole[i as int]);
        assert(whole.skip(i as int).skip(1) =~= whole.skip(i + 1));
        if same_text(m[i].0.as_str(), k) {
            let (_, v) = m.remove(i);
            proof {
                lemma_members_view(m@);
                assert(members_view(m@) =~= whole.take(i as int) + whole.skip(i + 1));
            }
            return Some(v);
        }
        proof {
            let more = without(whole.skip(i + 1), k@);
            assert(whole.take(i as int) + (seq![whole[i as int]] + more) =~= whole.take(i + 1) + more);
        }
        i += 1;
    }
    assert(whole.take(i as int) + without(whole.skip(i as int), k@) =~= whole);
    None
}

/// Values as what they say.
pub open spec fn kept_views(v: Seq<&Json>) -> Seq<JsonView> {
    v.map_values(|j: &Json| j.view())
}

fn kept_branches<'a>(v: &'a Vec<Json>) -> (r: Vec<&'a Json>)
    ensures
        kept_views(r@) == kept_from(list_view(v@), 0),
{
    proof {
        lemma_list_view(v@);
    }
    let ghost views = list_view(v@);
    let mut out: Vec<&'a Json> = Vec::new();
    let mut i: usize = 0;
    assert(kept_views(out@) + kept_from(views, 0) =~= kept_from(views, 0));
    while i < v.len()
        invariant
            i <= v@.len(),
            views == list_view(v@),
            views.len() == v@.len(),
            forall|j: int| 0 <= j < v@.len() ==> #[trigger] views[j] == v@[j].view(),
            kept_views(out@) + kept_from(views, i as int) == kept_from(views, 0),
        decreases v@.len() - i,
    {
        assert(views[i as int] == v@[i as int].view());
        let null = match v[i].text_member("type") {
            Some(t) => same_text(t.as_str(), "null"),
            None => false,
        };
        if !null {
            let ghost before = kept_views(out@);
            out.push(&v[i]);
            proof {
                let x = views[i as int];
                let more = kept_from(views, i + 1);
                assert(kept_views(out@) =~= before.push(x));
                assert(before + (seq![x] + more) =~= before.push(x) + more);
            }
        }
        i += 1;
    }
    assert(kept_views(out@) + kept_from(views, i as int) =~= kept_views(out@));
    out
}

fn has_key(v: &Json, k: &str) -> (r: bool)
    ensures
        r == holds(v.view(), k@),
{
    v.has(k)
}

fn are_const(v: &Vec<&Json>) -> (r: bool)
    ensures
        r == all_const(kept_views(v@), 0),
{
    let ghost views = kept_views(v@);
    let mut i: usize = 0;
    while i < v.len()
        invariant
            i <= v@.len(),
            views == kept_views(v@),
            all_const(views, 0) == all_const(views, i as int),
        decreases v@.len() - i,
    {
        assert(views[i as int] == v@[i as int].view());
        if !has_key(v[i], "const") {
            return false;
        }
        i += 1;
    }
    true
}

fn copy_member(v: &Json, k: &str) -> (r: Json)
    ensures
        r.view() == member(v.view(), k@),
{
    match v.get(k) {
        Some(j) => j.copied(),
        None => Json::Null,
    }
}

fn consts(v: &Vec<&Json>) -> (r: Vec<Json>)
    ensures
        list_view(r@) == kept_views(v@).map_values(|b: JsonView| member(b, "const"@)),
{
    let mut out: Vec<Json> = Vec::new();
    let mut i: usize = 0;
    while i < v.len()
        invariant
            i <= v@.len(),
            out@.len() == i,
            forall|j: int| 0 <= j < i ==> (#[trigger] out@[j]).view() == member(v@[j].view(), "const"@),
        decreases v@.len() - i,
    {
        out.push(copy_member(v[i], "const"));
        i += 1;
    }
    proof {
        lemma_list_view(out@);
        assert(list_view(out@) =~= kept_views(v@).map_values(|b: JsonView| member(b, "const"@)));
    }
    out
}

fn merge(m: &mut Vec<(String, Json)>, first: &Vec<(String, Json)>)
    ensures
        members_view(final(m)@) == merged(members_view(old(m)@), members_view(first@), first@.len()),
{
    proof {
        lemma_members_view(first@);
    }
    let ghost fv = members_view(first@);
    let ghost start = members_view(m@);
    let mut i: usize = 0;
    while i < first.len()
        invariant
            i <= first@.len(),
            fv == members_view(first@),
            fv.len() == first@.len(),
            forall|j: int| 0 <= j < first@.len() ==> #[trigger] fv[j] == (first@[j].0@, first@[j].1.view()),
            members_view(m@) == merged(start, fv, i as nat),
        decreases first@.len() - i,
    {
        assert(fv[i as int] == (first@[i as int].0@, first@[i as int].1.view()));
        put_new_member(m, first[i].0.clone(), first[i].1.copied());
        i += 1;
    }
}

fn drop_union(m: &mut Vec<(String, Json)>, key: &str)
    ensures
        members_view(final(m)@) == without_union(members_view(old(m)@), key@),
{
    let taken = remove_member(m, key);
    if let Some(Json::List(branches)) = taken {
        let kept = kept_branches(&branches);
        if kept.len() > 0 {
            assert(kept_views(kept@)[0] == kept@[0].view());
            if are_const(&kept) {
                let list = consts(&kept);
                put_member(m, "enum".to_owned(), Json::List(list));
                let t = if has_key(kept[0], "type") {
                    copy_member(kept[0], "type")
                } else {
                    Json::Text("string".to_owned())
                };
                put_new_member(m, "type".to_owned(), t);
            } else if let Json::Object(first) = kept[0] {
                proof {
                    lemma_members_view(first@);
                }
                merge(m, first);
            }
        } else {
            assert(kept_views(kept@).len() == 0);
        }
    }
}

fn choose_type(m: &mut Vec<(String, Json)>)
    ensures
        members_view(final(m)@) == with_one_type(members_view(old(m)@)),
{
    let at = match find_member(m, "type") {
        Some(i) => i,
        None => return,
    };
    let chosen = match &m[at].1 {
        Json::List(s) => {
            proof {
                lemma_list_view(s@);
            }
            let ghost views = list_view(s@);
            let ghost types = types_from(views, 0);
            let ghost mut seen: Seq<Seq<char>> = Seq::empty();
            let mut first: Option<String> = None;
            let mut number = false;
            let mut i: usize = 0;
            assert(seen + types_from(views, 0) =~= types);
            while i < s.len()
                invariant
                    i <= s@.len(),
                    views == list_view(s@),
                    views.len() == s@.len(),
                    forall|j: int| 0 <= j < s@.len() ==> #[trigger] views[j] == s@[j].view(),
                    seen + types_from(views, i as int) == types,
                    match first {
                        Some(f) => seen.len() > 0 && f@ == seen[0],
                        None => seen.len() == 0,
                    },
                    number <==> seen.contains("number"@),
                decreases s@.len() - i,
            {
                assert(views[i as int] == s@[i as int].view());
                if let Some(t) = s[i].as_text() {
                    if !same_text(t.as_str(), "null") {
                        proof {
                            let more = types_from(views, i + 1);
                            assert(seen + (seq![t@] + more) =~= seen.push(t@) + more);
                            lemma_contains_push(seen, t@, "number"@);
                            seen = seen.push(t@);
                        }
                        if first.is_none() {
                            first = Some(t.clone());
                        }
                        if same_text(t.as_str(), "number") {
                            number = true;
                        }
                    }
                }
                i += 1;
            }
            proof {
                assert(seen + types_from(views, i as int) =~= seen);
                lemma_among(types, "number"@, 0);
                assert(types.skip(0) =~= types);
            }
            if number {
                "number".to_owned()
            } else {
                match first {
                    Some(t) => t,
                    None => "string".to_owned(),
                }
            }
        },
        _ => return,
    };
    put_member(m, "type".to_owned(), Json::Text(chosen));
}

proof fn lemma_contains_push(s: Seq<Seq<char>>, a: Seq<char>, x: Seq<char>)
    ensures
        s.push(a).contains(x) == (a == x || s.contains(x)),
{
    if s.contains(x) {
        let i = choose|i: int| 0 <= i < s.len() && s[i] == x;
        assert(s.push(a)[i] == x);
    }
    if a == x {
        assert(s.push(a)[s.len() as int] == x);
    }
    if s.push(a).contains(x) {
        let i = choose|i: int| 0 <= i < s.push(a).len() && s.push(a)[i] == x;
        if i < s.len() {
            assert(s[i] == x);
        }
    }
}

proof fn lemma_among(s: Seq<Seq<char>>, t: Seq<char>, i: int)
    requires
        0 <= i <= s.len(),
    ensures
        among(s, t, i) == s.skip(i).contains(t),
    decreases s.len() - i,
{
    if i < s.len() {
        lemma_among(s, t, i + 1);
        let a = s.skip(i);
        let b = s.skip(i + 1);
        assert(a[0] == s[i]);
        if s[i] == t {
            assert(a.contains(t));
        } else {
            if b.contains(t) {
                let j = choose|j: int| 0 <= j < b.len() && b[j] == t;
                assert(a[j + 1] == t);
            }
            if a.contains(t) {
                let j = choose|j: int| 0 <= j < a.len() && a[j] == t;
                assert(b[j - 1] == t);
            }
        }
    }
}

fn flatten(m: Vec<(String, Json)>) -> (r: Vec<(String, Json)>)
    ensures
        members_view(r@) == flat(members_view(m@)),
{
    let mut m = m;
    drop_union(&mut m, "anyOf");
    drop_union(&mut m, "oneOf");
    choose_type(&mut m);
    if member_is(&m, "type", "number") || member_is(&m, "type", "integer") {
        remove_member(&mut m, "pattern");
    }
    let null_default = match find_member(&m, "default") {
        Some(i) => match &m[i].1 {
            Json::Null => true,
            _ => false,
        },
        None => false,
    };
    if null_default {
        remove_member(&mut m, "default");
    }
    let date_time = match remove_member(&mut m, "format") {
        Some(f) => match f.as_text() {
            Some(s) => same_text(s.as_str(), "date-time"),
            None => false,
        },
        None => false,
    };
    if date_time {
        let text = match member_text(&m, "description") {
            Some(d) => {
                let mut t = d.clone();
                t.append(" (");
                t.append("RFC 3339 time, e.g. 2026-09-25T09:00:00+09:00");
                t.append(")");
                t
            },
            None => "RFC 3339 time, e.g. 2026-09-25T09:00:00+09:00".to_owned(),
        };
        put_member(&mut m, "description".to_owned(), Json::Text(text));
    }
    if member_is(&m, "type", "object") && find_member(&m, "properties").is_none() {
        let none: Vec<(String, Json)> = Vec::new();
        assert(members_view(none@) =~= Seq::empty());
        put_member(&mut m, "properties".to_owned(), Json::Object(none));
    }
    m
}

fn drop_prefix(s: &str, pat: &str) -> (r: String)
    ensures
        r@ == past_prefix(s@, pat@),
{
    let p = chars_of(pat);
    let mut v = chars_of(s);
    while p.len() > 0 && text_at(&v, &p, 0)
        invariant
            p@ == pat@,
            past_prefix(s@, pat@) == past_prefix(v@, pat@),
        decreases v@.len(),
    {
        let n: usize = v.len();
        let rest = chars_of(text_of(&v, p.len(), n).as_str());
        assert(rest@ =~= v@.skip(pat@.len() as int));
        v = rest;
    }
    let n: usize = v.len();
    let r = text_of(&v, 0, n);
    assert(r@ =~= v@);
    r
}

fn object_of(v: Json) -> (r: Vec<(String, Json)>)
    ensures
        members_view(r@) == object_in(v.view()),
{
    match v {
        Json::Object(m) => m,
        _ => {
            let none: Vec<(String, Json)> = Vec::new();
            assert(members_view(none@) =~= Seq::empty());
            none
        },
    }
}

/// One schema node: resolve `$ref`, recurse into sub-schemas, then flatten what is left.
fn schema(v: &Json, defs: &Json, depth: usize) -> (r: Json)
    requires
        depth <= MAX_DEPTH,
    ensures
        r.view() == node(v.view(), defs.view(), depth as nat),
    decreases MAX_DEPTH - depth, v, 1nat,
{
    match v {
        Json::Object(m) => {
            let mut out: Vec<(String, Json)> = Vec::new();
            assert(members_view(out@) =~= Seq::empty());
            if let Some(r) = member_text(m, "$ref") {
                if depth < MAX_DEPTH {
                    let name = drop_prefix(r.as_str(), "#/$defs/");
                    let target = copy_member(defs, name.as_str());
                    out = object_of(schema(&target, defs, depth + 1));
                }
            }
            let ghost base = members_view(out@);
            proof {
                lemma_members_view(m@);
            }
            let ghost mv = members_view(m@);
            let mut i: usize = 0;
            while i < m.len()
                invariant
                    i <= m@.len(),
                    depth <= MAX_DEPTH,
                    v is Object,
                    v->Object_0 == m,
                    mv == members_view(m@),
                    mv.len() == m@.len(),
                    forall|j: int| 0 <= j < m@.len() ==> #[trigger] mv[j] == (m@[j].0@, m@[j].1.view()),
                    members_view(out@) == parts(mv, defs.view(), depth as nat, base, i as nat),
                decreases m@.len() - i,
            {
                assert(mv[i as int] == (m@[i as int].0@, m@[i as int].1.view()));
                let k = m[i].0.as_str();
                if !(same_text(k, "$ref") || same_text(k, "$defs") || same_text(k, "$schema") || same_text(k, "title")) {
                    let x = sub_schema(k, &m[i].1, defs, depth);
                    put_member(&mut out, m[i].0.clone(), x);
                }
                i += 1;
            }
            Json::Object(flatten(out))
        },
        _ => v.copied(),
    }
}

/// What stands under a key of a simplified schema.
pub open spec fn sub_node(k: Seq<char>, x: JsonView, defs: JsonView, depth: nat) -> JsonView {
    if k == "properties"@ {
        match x {
            JsonView::Object(p) => JsonView::Object(properties(p, defs, depth, p.len())),
            _ => JsonView::Object(Seq::empty()),
        }
    } else if (k == "items"@ || k == "additionalProperties"@) && x is Object {
        node(x, defs, depth)
    } else if k == "anyOf"@ || k == "oneOf"@ || k == "allOf"@ {
        match x {
            JsonView::List(s) => JsonView::List(branches(s, defs, depth, s.len())),
            _ => JsonView::List(Seq::empty()),
        }
    } else {
        x
    }
}

fn sub_schema(k: &str, x: &Json, defs: &Json, depth: usize) -> (r: Json)
    requires
        depth <= MAX_DEPTH,
    ensures
        r.view() == sub_node(k@, x.view(), defs.view(), depth as nat),
    decreases MAX_DEPTH - depth, x, 2nat,
{
    if same_text(k, "properties") {
        let mut out: Vec<(String, Json)> = Vec::new();
        assert(members_view(out@) =~= Seq::empty());
        if let Json::Object(p) = x {
            proof {
                lemma_members_view(p@);
            }
            let ghost pv = members_view(p@);
            let mut i: usize = 0;
            while i < p.len()
                invariant
                    i <= p@.len(),
                    depth <= MAX_DEPTH,
                    x is Object,
                    x->Object_0 == p,
                    pv == members_view(p@),
                    pv.len() == p@.len(),
                    forall|j: int| 0 <= j < p@.len() ==> #[trigger] pv[j] == (p@[j].0@, p@[j].1.view()),
                    members_view(out@) == properties(pv, defs.view(), depth as nat, i as nat),
                decreases p@.len() - i,
            {
                assert(pv[i as int] == (p@[i as int].0@, p@[i as int].1.view()));
                let s = schema(&p[i].1, defs, depth);
                put_member(&mut out, p[i].0.clone(), s);
                i += 1;
            }
        }
        return Json::Object(out);
    }
    if same_text(k, "items") || same_text(k, "additionalProperties") {
        proof {
            reveal_strlit("items");
            reveal_strlit("additionalProperties");
            reveal_strlit("anyOf");
            reveal_strlit("oneOf");
            reveal_strlit("allOf");
            assert("items"@[0] == 'i' && "anyOf"@[0] == 'a' && "oneOf"@[0] == 'o' && "allOf"@[0] == 'a');
            assert("additionalProperties"@.len() == 20 && "anyOf"@.len() == 5 && "oneOf"@.len() == 5);
            assert("allOf"@.len() == 5);
        }
        return match x {
            Json::Object(_) => schema(x, defs, depth),
            _ => x.copied(),
        };
    }
    if same_text(k, "anyOf") || same_text(k, "oneOf") || same_text(k, "allOf") {
        let mut out: Vec<Json> = Vec::new();
        let ghost mut done: Seq<JsonView> = Seq::empty();
        if let Json::List(s) = x {
            proof {
                lemma_list_view(s@);
            }
            let ghost sv = list_view(s@);
            let mut i: usize = 0;
            while i < s.len()
                invariant
                    i <= s@.len(),
                    depth <= MAX_DEPTH,
                    x is List,
                    x->List_0 == s,
                    sv == list_view(s@),
                    sv.len() == s@.len(),
                    forall|j: int| 0 <= j < s@.len() ==> #[trigger] sv[j] == s@[j].view(),
                    out@.len() == i,
                    done.len() == i,
                    done == branches(sv, defs.view(), depth as nat, i as nat),
                    forall|j: int| 0 <= j < i ==> (#[trigger] out@[j]).view() == done[j],
                decreases s@.len() - i,
            {
                assert(sv[i as int] == s@[i as int].view());
                let b = schema(&s[i], defs, depth);
                proof {
                    done = done.push(b.view());
                }
                out.push(b);
                i += 1;
            }
        }
        proof {
            lemma_list_view(out@);
            assert(list_view(out@) =~= done);
        }
        return Json::List(out);
    }
    x.copied()
}

/// A schema without references, unions and formats.
pub fn simplify(root: &Json) -> (r: Json)
    ensures
        r.view() == simplified(root.view()),
{
    let defs = copy_member(root, "$defs");
    schema(root, &defs, 0)
}

proof fn lemma_put_has(m: Members, k: Seq<char>, v: JsonView, x: Seq<char>)
    ensures
        has_from(put(m, k, v), x, 0) == (x == k || has_from(m, x, 0)),
    decreases m.len(),
{
    if m.len() == 0 {
        assert(put(m, k, v) =~= seq![(k, v)]);
        assert(!has_from(put(m, k, v), x, 1));
    } else {
        lemma_has_skip(m, x);
        if m[0].0 == k {
            lemma_has_cons((k, v), m.skip(1), x);
        } else if lex_less(k, m[0].0) {
            lemma_has_cons((k, v), m, x);
        } else {
            lemma_put_has(m.skip(1), k, v, x);
            lemma_has_cons(m[0], put(m.skip(1), k, v), x);
        }
    }
}

proof fn lemma_has_shift(a: (Seq<char>, JsonView), m: Members, x: Seq<char>, i: int)
    requires
        0 <= i,
    ensures
        has_from(seq![a] + m, x, i + 1) == has_from(m, x, i),
    decreases m.len() - i,
{
    if i < m.len() {
        assert((seq![a] + m)[i + 1] == m[i]);
        lemma_has_shift(a, m, x, i + 1);
    }
}

proof fn lemma_has_cons(a: (Seq<char>, JsonView), m: Members, x: Seq<char>)
    ensures
        has_from(seq![a] + m, x, 0) == (a.0 == x || has_from(m, x, 0)),
{
    lemma_has_shift(a, m, x, 0);
    assert((seq![a] + m)[0] == a);
}

proof fn lemma_has_skip(m: Members, x: Seq<char>)
    requires
        m.len() > 0,
    ensures
        has_from(m, x, 0) == (m[0].0 == x || has_from(m.skip(1), x, 0)),
{
    assert(seq![m[0]] + m.skip(1) =~= m);
    lemma_has_cons(m[0], m.skip(1), x);
}

/// A member that was put is found, and no other name comes or goes.
pub proof fn law_put_adds_one_name(m: Members, k: Seq<char>, v: JsonView, x: Seq<char>)
    ensures
        has_from(put(m, k, v), k, 0),
        x != k ==> has_from(put(m, k, v), x, 0) == has_from(m, x, 0),
{
    lemma_put_has(m, k, v, k);
    lemma_put_has(m, k, v, x);
}

} // verus!
