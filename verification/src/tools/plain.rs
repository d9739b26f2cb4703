//! What a simplified schema never has, at any depth.
use crate::json::{has_from, member, member_from, text_in, JsonView};
use crate::text::{lemma_lex_irreflexive, lemma_lex_total, lemma_lex_transitive, lex_less};
use crate::tools::schema::{
    all_const, branches, dropped, flat, holds, kept_from, merged, node, object_in, parts, properties, put, referred,
    simplified, with_one_type, with_properties, without, without_format, without_null_default, without_pattern,
    without_union, Members, MAX_DEPTH,
};
use vstd::prelude::*;

verus! {

/// Whether the names of members are in dictionary order, each once.
pub open spec fn in_order(m: Members) -> bool {
    forall|i: int, j: int| 0 <= i < j < m.len() ==> lex_less((#[trigger] m[i]).0, (#[trigger] m[j]).0)
}

/// Whether the type that members name is one of numbers.
pub open spec fn is_number(m: Members) -> bool {
    text_in(member_from(m, "type"@, 0)) == Some("number"@) || text_in(member_from(m, "type"@, 0)) == Some("integer"@)
}

/// Whether members have no reference, no union, no format and no title, and at most one type; a
/// number has no pattern, an object lists its properties, and no default is null.
pub open spec fn plain(m: Members) -> bool {
    &&& !has_from(m, "$ref"@, 0)
    &&& !has_from(m, "$defs"@, 0)
    &&& !has_from(m, "$schema"@, 0)
    &&& !has_from(m, "title"@, 0)
    &&& !has_from(m, "anyOf"@, 0)
    &&& !has_from(m, "oneOf"@, 0)
    &&& !has_from(m, "format"@, 0)
    &&& !(member_from(m, "type"@, 0) is List)
    &&& is_number(m) ==> !has_from(m, "pattern"@, 0)
    &&& text_in(member_from(m, "type"@, 0)) == Some("object"@) ==> has_from(m, "properties"@, 0)
    &&& has_from(m, "default"@, 0) ==> member_from(m, "default"@, 0) != JsonView::Null
}

/// Whether a schema is plain, and so are the schemas in it.
pub open spec fn plain_throughout(v: JsonView) -> bool
    decreases v, 1nat,
{
    match v {
        JsonView::Object(m) => in_order(m) && plain(m) && forall|i: int|
            0 <= i < m.len() ==> plain_below((#[trigger] m[i]).0, m[i].1),
        _ => true,
    }
}

/// Whether the schemas that a member of a schema holds are plain.
pub open spec fn plain_below(k: Seq<char>, x: JsonView) -> bool
    decreases x, 2nat,
{
    if k == "properties"@ {
        match x {
            JsonView::Object(p) => forall|i: int| 0 <= i < p.len() ==> plain_throughout((#[trigger] p[i]).1),
            _ => true,
        }
    } else if k == "items"@ || k == "additionalProperties"@ {
        plain_throughout(x)
    } else if k == "allOf"@ {
        match x {
            JsonView::List(s) => forall|i: int| 0 <= i < s.len() ==> plain_throughout(#[trigger] s[i]),
            _ => true,
        }
    } else {
        true
    }
}

/// Whether members are in order and hold plain schemas only.
pub open spec fn sound(m: Members) -> bool {
    in_order(m) && forall|e: (Seq<char>, JsonView)| #[trigger] m.contains(e) ==> plain_below(e.0, e.1)
}

proof fn lemma_names()
    ensures
        forall|x: Seq<char>| #[trigger] dropped(x) ==> x != "enum"@ && x != "type"@ && x != "description"@ && x
            != "properties"@ && x != "anyOf"@ && x != "oneOf"@ && x != "format"@,
        "anyOf"@ != "oneOf"@,
        "anyOf"@ != "enum"@,
        "anyOf"@ != "type"@,
        "anyOf"@ != "pattern"@,
        "anyOf"@ != "default"@,
        "anyOf"@ != "format"@,
        "anyOf"@ != "description"@,
        "anyOf"@ != "properties"@,
        "anyOf"@ != "items"@,
        "anyOf"@ != "additionalProperties"@,
        "oneOf"@ != "enum"@,
        "oneOf"@ != "type"@,
        "oneOf"@ != "pattern"@,
        "oneOf"@ != "default"@,
        "oneOf"@ != "format"@,
        "oneOf"@ != "description"@,
        "oneOf"@ != "properties"@,
        "oneOf"@ != "items"@,
        "oneOf"@ != "additionalProperties"@,
        "type"@ != "pattern"@,
        "type"@ != "default"@,
        "type"@ != "format"@,
        "type"@ != "description"@,
        "type"@ != "properties"@,
        "format"@ != "description"@,
        "format"@ != "properties"@,
        "enum"@ != "properties"@,
        "enum"@ != "items"@,
        "enum"@ != "additionalProperties"@,
        "enum"@ != "allOf"@,
        "type"@ != "items"@,
        "type"@ != "additionalProperties"@,
        "type"@ != "allOf"@,
        "description"@ != "properties"@,
        "description"@ != "items"@,
        "description"@ != "additionalProperties"@,
        "description"@ != "allOf"@,
        "anyOf"@ != "allOf"@,
        "oneOf"@ != "allOf"@,
        "items"@ != "allOf"@,
        "properties"@ != "allOf"@,
        "pattern"@ != "default"@,
        "pattern"@ != "format"@,
        "pattern"@ != "description"@,
        "pattern"@ != "properties"@,
        "default"@ != "format"@,
        "default"@ != "description"@,
        "default"@ != "properties"@,
{
    reveal_strlit("$ref");
    reveal_strlit("$defs");
    reveal_strlit("$schema");
    reveal_strlit("title");
    reveal_strlit("anyOf");
    reveal_strlit("oneOf");
    reveal_strlit("allOf");
    reveal_strlit("format");
    reveal_strlit("enum");
    reveal_strlit("type");
    reveal_strlit("pattern");
    reveal_strlit("default");
    reveal_strlit("description");
    reveal_strlit("properties");
    reveal_strlit("items");
    reveal_strlit("additionalProperties");
    assert("$ref"@[0] == '$' && "$defs"@[0] == '$' && "$schema"@[0] == '$');
    assert("title"@[0] == 't' && "anyOf"@[0] == 'a' && "oneOf"@[0] == 'o' && "items"@[0] == 'i');
    assert("anyOf"@[1] == 'n' && "allOf"@[1] == 'l');
    assert("enum"@[0] == 'e' && "type"@[0] == 't');
    assert("$ref"@.len() == 4 && "$defs"@.len() == 5 && "$schema"@.len() == 7 && "title"@.len() == 5);
    assert("anyOf"@.len() == 5 && "oneOf"@.len() == 5 && "allOf"@.len() == 5 && "items"@.len() == 5);
    assert("enum"@.len() == 4 && "type"@.len() == 4 && "format"@.len() == 6);
    assert("pattern"@[0] == 'p' && "default"@[0] == 'd');
    assert("pattern"@.len() == 7 && "default"@.len() == 7 && "properties"@.len() == 10);
    assert("description"@.len() == 11 && "additionalProperties"@.len() == 20);
}

proof fn lemma_shift(a: (Seq<char>, JsonView), t: Members, x: Seq<char>, i: int)
    requires
        0 <= i,
    ensures
        has_from(seq![a] + t, x, i + 1) == has_from(t, x, i),
        member_from(seq![a] + t, x, i + 1) == member_from(t, x, i),
    decreases t.len() - i,
{
    if i < t.len() {
        assert((seq![a] + t)[i + 1] == t[i]);
        lemma_shift(a, t, x, i + 1);
    }
}

proof fn lemma_first(a: (Seq<char>, JsonView), t: Members, x: Seq<char>)
    ensures
        has_from(seq![a] + t, x, 0) == (a.0 == x || has_from(t, x, 0)),
        member_from(seq![a] + t, x, 0) == (if a.0 == x {
            a.1
        } else {
            member_from(t, x, 0)
        }),
{
    assert((seq![a] + t)[0] == a);
    lemma_shift(a, t, x, 0);
}

proof fn lemma_absent(m: Members, x: Seq<char>, i: int)
    requires
        0 <= i,
    ensures
        !has_from(m, x, i) ==> member_from(m, x, i) == JsonView::Null,
        has_from(m, x, i) ==> exists|j: int| i <= j < m.len() && (#[trigger] m[j]).0 == x && m[j].1 == member_from(m, x, i),
        !has_from(m, x, i) ==> forall|j: int| i <= j < m.len() ==> (#[trigger] m[j]).0 != x,
    decreases m.len() - i,
{
    if i < m.len() {
        if m[i].0 != x {
            lemma_absent(m, x, i + 1);
        }
    }
}

/// Whether every name comes behind another.
spec fn behind(m: Members, lo: Seq<char>) -> bool {
    forall|i: int| 0 <= i < m.len() ==> lex_less(lo, (#[trigger] m[i]).0)
}

proof fn lemma_cons(a: (Seq<char>, JsonView), t: Members)
    requires
        in_order(t),
        behind(t, a.0),
    ensures
        in_order(seq![a] + t),
{
    let w = seq![a] + t;
    assert forall|i: int, j: int| 0 <= i < j < w.len() implies lex_less((#[trigger] w[i]).0, (#[trigger] w[j]).0) by {
        assert(w[j] == t[j - 1]);
        if i > 0 {
            assert(w[i] == t[i - 1]);
        }
    }
}

proof fn lemma_uncons(m: Members)
    requires
        in_order(m),
        m.len() > 0,
    ensures
        in_order(m.skip(1)),
        behind(m.skip(1), m[0].0),
        m =~= seq![m[0]] + m.skip(1),
{
    let t = m.skip(1);
    assert forall|i: int, j: int| 0 <= i < j < t.len() implies lex_less((#[trigger] t[i]).0, (#[trigger] t[j]).0) by {
        assert(t[i] == m[i + 1] && t[j] == m[j + 1]);
    }
    assert forall|i: int| 0 <= i < t.len() implies lex_less(m[0].0, (#[trigger] t[i]).0) by {
        assert(t[i] == m[i + 1]);
    }
}

proof fn lemma_behind(m: Members, lo: Seq<char>, k: Seq<char>)
    requires
        behind(m, k),
        lex_less(lo, k),
    ensures
        behind(m, lo),
{
    assert forall|i: int| 0 <= i < m.len() implies lex_less(lo, (#[trigger] m[i]).0) by {
        lemma_lex_transitive(lo, k, m[i].0, 0);
    }
}

proof fn lemma_contains_cons(a: (Seq<char>, JsonView), t: Members, e: (Seq<char>, JsonView))
    ensures
        (seq![a] + t).contains(e) == (e == a || t.contains(e)),
{
    let w = seq![a] + t;
    if w.contains(e) {
        let i = choose|i: int| 0 <= i < w.len() && w[i] == e;
        if i > 0 {
            assert(t[i - 1] == e);
        }
    }
    if t.contains(e) {
        let i = choose|i: int| 0 <= i < t.len() && t[i] == e;
        assert(w[i + 1] == e);
    }
    assert(w[0] == a);
}

/// What putting a member does.
proof fn lemma_put(m: Members, k: Seq<char>, v: JsonView)
    requires
        in_order(m),
    ensures
        in_order(put(m, k, v)),
        forall|lo: Seq<char>| #[trigger] behind(m, lo) && lex_less(lo, k) ==> behind(put(m, k, v), lo),
        forall|x: Seq<char>| #[trigger] has_from(put(m, k, v), x, 0) == (x == k || has_from(m, x, 0)),
        forall|x: Seq<char>|
            #[trigger] member_from(put(m, k, v), x, 0) == (if x == k {
                v
            } else {
                member_from(m, x, 0)
            }),
        forall|e: (Seq<char>, JsonView)| #[trigger] put(m, k, v).contains(e) ==> e == (k, v) || m.contains(e),
    decreases m.len(),
{
    let w = put(m, k, v);
    if m.len() == 0 {
        assert(w =~= seq![(k, v)] + m);
        assert forall|x: Seq<char>| #[trigger] has_from(w, x, 0) == (x == k || has_from(m, x, 0)) by {
            lemma_first((k, v), m, x);
        }
        assert forall|x: Seq<char>|
            #[trigger] member_from(w, x, 0) == (if x == k {
                v
            } else {
                member_from(m, x, 0)
            }) by {
            lemma_first((k, v), m, x);
        }
        lemma_cons((k, v), m);
        assert forall|e: (Seq<char>, JsonView)| #[trigger] w.contains(e) implies e == (k, v) || m.contains(e) by {
            lemma_contains_cons((k, v), m, e);
        }
    } else {
        let t = m.skip(1);
        lemma_uncons(m);
        if m[0].0 == k {
            lemma_cons((k, v), t);
            assert forall|x: Seq<char>| #[trigger] has_from(w, x, 0) == (x == k || has_from(m, x, 0)) by {
                lemma_first((k, v), t, x);
                lemma_first(m[0], t, x);
            }
            assert forall|x: Seq<char>|
                #[trigger] member_from(w, x, 0) == (if x == k {
                    v
                } else {
                    member_from(m, x, 0)
                }) by {
                lemma_first((k, v), t, x);
                lemma_first(m[0], t, x);
            }
            assert forall|lo: Seq<char>| #[trigger] behind(m, lo) && lex_less(lo, k) implies behind(w, lo) by {
                lemma_behind(t, lo, k);
                assert forall|i: int| 0 <= i < w.len() implies lex_less(lo, (#[trigger] w[i]).0) by {
                    if i > 0 {
                        assert(w[i] == t[i - 1]);
                    }
                }
            }
            assert forall|e: (Seq<char>, JsonView)| #[trigger] w.contains(e) implies e == (k, v) || m.contains(e) by {
                lemma_contains_cons((k, v), t, e);
                lemma_contains_cons(m[0], t, e);
            }
        } else if lex_less(k, m[0].0) {
            lemma_behind(t, k, m[0].0);
            assert(behind(m, k)) by {
                assert forall|i: int| 0 <= i < m.len() implies lex_less(k, (#[trigger] m[i]).0) by {
                    if i > 0 {
                        assert(m[i] == t[i - 1]);
                    }
                }
            }
            lemma_cons((k, v), m);
            assert forall|x: Seq<char>| #[trigger] has_from(w, x, 0) == (x == k || has_from(m, x, 0)) by {
                lemma_first((k, v), m, x);
            }
            assert forall|x: Seq<char>|
                #[trigger] member_from(w, x, 0) == (if x == k {
                    v
                } else {
                    member_from(m, x, 0)
                }) by {
                lemma_first((k, v), m, x);
            }
            assert forall|lo: Seq<char>| #[trigger] behind(m, lo) && lex_less(lo, k) implies behind(w, lo) by {
                assert forall|i: int| 0 <= i < w.len() implies lex_less(lo, (#[trigger] w[i]).0) by {
                    if i > 0 {
                        assert(w[i] == m[i - 1]);
                    }
                }
            }
            assert forall|e: (Seq<char>, JsonView)| #[trigger] w.contains(e) implies e == (k, v) || m.contains(e) by {
                lemma_contains_cons((k, v), m, e);
            }
        } else {
            assert(m[0].0.take(0) =~= k.take(0));
            lemma_lex_total(m[0].0, k, 0);
            lemma_put(t, k, v);
            let p = put(t, k, v);
            assert(behind(t, m[0].0) && lex_less(m[0].0, k));
            lemma_cons(m[0], p);
            assert forall|x: Seq<char>| #[trigger] has_from(w, x, 0) == (x == k || has_from(m, x, 0)) by {
                lemma_first(m[0], p, x);
                lemma_first(m[0], t, x);
                assert(has_from(p, x, 0) == (x == k || has_from(t, x, 0)));
            }
            assert forall|x: Seq<char>|
                #[trigger] member_from(w, x, 0) == (if x == k {
                    v
                } else {
                    member_from(m, x, 0)
                }) by {
                lemma_first(m[0], p, x);
                lemma_first(m[0], t, x);
                assert(member_from(p, x, 0) == (if x == k {
                    v
                } else {
                    member_from(t, x, 0)
                }));
            }
            assert forall|lo: Seq<char>| #[trigger] behind(m, lo) && lex_less(lo, k) implies behind(w, lo) by {
                assert(lex_less(lo, m[0].0));
                assert(behind(t, lo)) by {
                    assert forall|i: int| 0 <= i < t.len() implies lex_less(lo, (#[trigger] t[i]).0) by {
                        assert(t[i] == m[i + 1]);
                    }
                }
                assert(behind(p, lo));
                assert forall|i: int| 0 <= i < w.len() implies lex_less(lo, (#[trigger] w[i]).0) by {
                    if i > 0 {
                        assert(w[i] == p[i - 1]);
                    }
                }
            }
            assert forall|e: (Seq<char>, JsonView)| #[trigger] w.contains(e) implies e == (k, v) || m.contains(e) by {
                lemma_contains_cons(m[0], p, e);
                lemma_contains_cons(m[0], t, e);
                if p.contains(e) {
                    assert(e == (k, v) || t.contains(e));
                }
            }
        }
    }
}

/// What taking a member out does.
proof fn lemma_without(m: Members, k: Seq<char>)
    requires
        in_order(m),
    ensures
        in_order(without(m, k)),
        forall|lo: Seq<char>| #[trigger] behind(m, lo) ==> behind(without(m, k), lo),
        forall|x: Seq<char>| #[trigger] has_from(without(m, k), x, 0) == (x != k && has_from(m, x, 0)),
        forall|x: Seq<char>| x != k ==> #[trigger] member_from(without(m, k), x, 0) == member_from(m, x, 0),
        forall|e: (Seq<char>, JsonView)| #[trigger] without(m, k).contains(e) ==> m.contains(e),
    decreases m.len(),
{
    let w = without(m, k);
    if m.len() > 0 {
        let t = m.skip(1);
        lemma_uncons(m);
        if m[0].0 == k {
            assert(!has_from(t, k, 0)) by {
                lemma_absent(t, k, 0);
                if has_from(t, k, 0) {
                    let j = choose|j: int| 0 <= j < t.len() && (#[trigger] t[j]).0 == k && t[j].1 == member_from(t, k, 0);
                    lemma_lex_irreflexive(k, 0);
                    assert(lex_less(k, t[j].0));
                }
            }
            assert forall|x: Seq<char>| #[trigger] has_from(w, x, 0) == (x != k && has_from(m, x, 0)) by {
                lemma_first(m[0], t, x);
            }
            assert forall|x: Seq<char>| x != k implies #[trigger] member_from(w, x, 0) == member_from(m, x, 0) by {
                lemma_first(m[0], t, x);
            }
            assert forall|lo: Seq<char>| #[trigger] behind(m, lo) implies behind(w, lo) by {
                assert forall|i: int| 0 <= i < w.len() implies lex_less(lo, (#[trigger] w[i]).0) by {
                    assert(w[i] == m[i + 1]);
                }
            }
            assert forall|e: (Seq<char>, JsonView)| #[trigger] w.contains(e) implies m.contains(e) by {
                lemma_contains_cons(m[0], t, e);
            }
        } else {
            lemma_without(t, k);
            let p = without(t, k);
            lemma_cons(m[0], p);
            assert forall|x: Seq<char>| #[trigger] has_from(w, x, 0) == (x != k && has_from(m, x, 0)) by {
                lemma_first(m[0], p, x);
                lemma_first(m[0], t, x);
                assert(has_from(p, x, 0) == (x != k && has_from(t, x, 0)));
            }
            assert forall|x: Seq<char>| x != k implies #[trigger] member_from(w, x, 0) == member_from(m, x, 0) by {
                lemma_first(m[0], p, x);
                lemma_first(m[0], t, x);
                assert(member_from(p, x, 0) == member_from(t, x, 0));
            }
            assert forall|lo: Seq<char>| #[trigger] behind(m, lo) implies behind(w, lo) by {
                assert(behind(t, lo)) by {
                    assert forall|i: int| 0 <= i < t.len() implies lex_less(lo, (#[trigger] t[i]).0) by {
                        assert(t[i] == m[i + 1]);
                    }
                }
                assert(behind(p, lo));
                assert(lex_less(lo, m[0].0));
                assert forall|i: int| 0 <= i < w.len() implies lex_less(lo, (#[trigger] w[i]).0) by {
                    if i > 0 {
                        assert(w[i] == p[i - 1]);
                    }
                }
            }
            assert forall|e: (Seq<char>, JsonView)| #[trigger] w.contains(e) implies m.contains(e) by {
                lemma_contains_cons(m[0], p, e);
                lemma_contains_cons(m[0], t, e);
            }
        }
    }
}

proof fn lemma_put_sound(m: Members, k: Seq<char>, v: JsonView)
    requires
        sound(m),
        plain_below(k, v),
    ensures
        sound(put(m, k, v)),
{
    lemma_put(m, k, v);
}

proof fn lemma_without_sound(m: Members, k: Seq<char>)
    requires
        sound(m),
    ensures
        sound(without(m, k)),
{
    lemma_without(m, k);
}

proof fn lemma_sound_of(m: Members)
    requires
        plain_throughout(JsonView::Object(m)),
    ensures
        sound(m),
        plain(m),
{
    assert forall|e: (Seq<char>, JsonView)| #[trigger] m.contains(e) implies plain_below(e.0, e.1) by {
        let i = choose|i: int| 0 <= i < m.len() && m[i] == e;
        assert(plain_below(m[i].0, m[i].1));
    }
}

proof fn lemma_merged(m: Members, first: Members, n: nat)
    requires
        sound(m),
        plain_throughout(JsonView::Object(first)),
    ensures
        sound(merged(m, first, n)),
        forall|x: Seq<char>| #[trigger] has_from(merged(m, first, n), x, 0) ==> has_from(m, x, 0) || has_from(first, x, 0),
        forall|x: Seq<char>|
            has_from(m, x, 0) || !has_from(first, x, 0) ==> #[trigger] member_from(merged(m, first, n), x, 0)
                == member_from(m, x, 0),
        forall|x: Seq<char>| has_from(m, x, 0) ==> #[trigger] has_from(merged(m, first, n), x, 0),
    decreases n,
{
    if n > 0 && n <= first.len() {
        let before = merged(m, first, (n - 1) as nat);
        lemma_merged(m, first, (n - 1) as nat);
        let (k, v) = first[n - 1];
        assert(plain_below(first[n - 1].0, first[n - 1].1));
        lemma_put(before, k, v);
        lemma_put_sound(before, k, v);
        lemma_absent(first, k, 0);
        assert(has_from(first, k, 0)) by {
            if !has_from(first, k, 0) {
                assert(first[n - 1].0 != k);
            }
        }
        assert forall|x: Seq<char>| has_from(m, x, 0) || !has_from(first, x, 0) implies #[trigger] member_from(
            merged(m, first, n),
            x,
            0,
        ) == member_from(m, x, 0) by {
            if has_from(m, x, 0) {
                assert(has_from(before, x, 0));
            }
            assert(member_from(before, x, 0) == member_from(m, x, 0));
        }
        assert forall|x: Seq<char>| #[trigger] has_from(merged(m, first, n), x, 0) implies has_from(m, x, 0) || has_from(
            first,
            x,
            0,
        ) by {
            if x != k {
                assert(has_from(before, x, 0));
            }
        }
        assert forall|x: Seq<char>| has_from(m, x, 0) implies #[trigger] has_from(merged(m, first, n), x, 0) by {
            assert(has_from(before, x, 0));
        }
    }
}

proof fn lemma_kept(s: Seq<JsonView>, i: int)
    requires
        0 <= i,
        forall|j: int| 0 <= j < s.len() ==> plain_throughout(#[trigger] s[j]),
    ensures
        forall|j: int| 0 <= j < kept_from(s, i).len() ==> plain_throughout(#[trigger] kept_from(s, i)[j]),
    decreases s.len() - i,
{
    if i < s.len() {
        lemma_kept(s, i + 1);
        let more = kept_from(s, i + 1);
        assert forall|j: int| 0 <= j < kept_from(s, i).len() implies plain_throughout(#[trigger] kept_from(s, i)[j]) by {
            if text_in(member(s[i], "type"@)) != Some("null"@) && j > 0 {
                assert(kept_from(s, i)[j] == more[j - 1]);
            }
        }
    }
}

/// Whether the branches of a union, if there is one, are plain.
spec fn union_plain(m: Members, key: Seq<char>) -> bool {
    match member_from(m, key, 0) {
        JsonView::List(s) => forall|i: int| 0 <= i < s.len() ==> plain_throughout(#[trigger] s[i]),
        _ => true,
    }
}

/// Whether members have none of the keys that are dropped.
spec fn undropped(m: Members) -> bool {
    forall|x: Seq<char>| #[trigger] dropped(x) ==> !has_from(m, x, 0)
}

proof fn lemma_dropped(m: Members)
    requires
        plain(m),
    ensures
        undropped(m),
{
}

proof fn lemma_union(m: Members, key: Seq<char>, other: Seq<char>)
    requires
        sound(m),
        undropped(m),
        union_plain(m, key),
        (key == "anyOf"@ && other == "oneOf"@) || (key == "oneOf"@ && other == "anyOf"@),
    ensures
        sound(without_union(m, key)),
        undropped(without_union(m, key)),
        !has_from(without_union(m, key), key, 0),
        has_from(without_union(m, key), other, 0) == has_from(m, other, 0),
        member_from(without_union(m, key), other, 0) == member_from(m, other, 0),
{
    lemma_names();
    let rest = without(m, key);
    lemma_without(m, key);
    lemma_without_sound(m, key);
    assert(undropped(rest));
    match member_from(m, key, 0) {
        JsonView::List(s) => {
            lemma_kept(s, 0);
            let kept = kept_from(s, 0);
            if kept.len() > 0 && all_const(kept, 0) {
                let consts = JsonView::List(kept.map_values(|b: JsonView| member(b, "const"@)));
                lemma_put(rest, "enum"@, consts);
                lemma_put_sound(rest, "enum"@, consts);
                let w = put(rest, "enum"@, consts);
                let t = if holds(kept[0], "type"@) {
                    member(kept[0], "type"@)
                } else {
                    JsonView::Text("string"@)
                };
                lemma_put(w, "type"@, t);
                lemma_put_sound(w, "type"@, t);
                assert(undropped(w));
                assert(undropped(put(w, "type"@, t)));
            } else if kept.len() > 0 {
                match kept[0] {
                    JsonView::Object(first) => {
                        assert(plain_throughout(kept[0]));
                        lemma_sound_of(first);
                        lemma_dropped(first);
                        lemma_merged(rest, first, first.len());
                        let w = merged(rest, first, first.len());
                        assert(undropped(w)) by {
                            assert forall|x: Seq<char>| #[trigger] dropped(x) implies !has_from(w, x, 0) by {
                                assert(!has_from(rest, x, 0) && !has_from(first, x, 0));
                            }
                        }
                        lemma_absent(rest, other, 0);
                    },
                    _ => {},
                }
            }
        },
        _ => {},
    }
}

proof fn lemma_flat(m: Members)
    requires
        sound(m),
        undropped(m),
        union_plain(m, "anyOf"@),
        union_plain(m, "oneOf"@),
    ensures
        sound(flat(m)),
        plain(flat(m)),
{
    lemma_names();
    let a = without_union(m, "anyOf"@);
    lemma_union(m, "anyOf"@, "oneOf"@);
    let b = without_union(a, "oneOf"@);
    lemma_union(a, "oneOf"@, "anyOf"@);
    let c = with_one_type(b);
    assert(sound(c) && undropped(c) && !has_from(c, "anyOf"@, 0) && !has_from(c, "oneOf"@, 0) && !(member_from(
        c,
        "type"@,
        0,
    ) is List)) by {
        match member_from(b, "type"@, 0) {
            JsonView::List(s) => {
                let v = member_from(c, "type"@, 0);
                let types = crate::tools::schema::types_from(s, 0);
                let one = JsonView::Text(
                    if crate::tools::schema::among(types, "number"@, 0) {
                        "number"@
                    } else if types.len() > 0 {
                        types[0]
                    } else {
                        "string"@
                    },
                );
                assert(c == put(b, "type"@, one));
                lemma_put(b, "type"@, one);
                lemma_put_sound(b, "type"@, one);
            },
            _ => {},
        }
    }
    let d = without_pattern(c);
    lemma_without(c, "pattern"@);
    lemma_without_sound(c, "pattern"@);
    assert(sound(d) && undropped(d) && !has_from(d, "anyOf"@, 0) && !has_from(d, "oneOf"@, 0) && !(member_from(
        d,
        "type"@,
        0,
    ) is List));
    assert(is_number(d) ==> !has_from(d, "pattern"@, 0));
    let e = without_null_default(d);
    lemma_without(d, "default"@);
    lemma_without_sound(d, "default"@);
    assert(sound(e) && undropped(e) && !has_from(e, "anyOf"@, 0) && !has_from(e, "oneOf"@, 0) && !(member_from(
        e,
        "type"@,
        0,
    ) is List));
    assert(is_number(e) ==> !has_from(e, "pattern"@, 0));
    assert(has_from(e, "default"@, 0) ==> member_from(e, "default"@, 0) != JsonView::Null);
    let rest = without(e, "format"@);
    lemma_without(e, "format"@);
    lemma_without_sound(e, "format"@);
    let f = without_format(e);
    assert(sound(f) && undropped(f) && !has_from(f, "anyOf"@, 0) && !has_from(f, "oneOf"@, 0) && !has_from(
        f,
        "format"@,
        0,
    ) && !(member_from(f, "type"@, 0) is List) && (is_number(f) ==> !has_from(f, "pattern"@, 0)) && (has_from(
        f,
        "default"@,
        0,
    ) ==> member_from(f, "default"@, 0) != JsonView::Null)) by {
        let hint = JsonView::Text(
            match text_in(member_from(rest, "description"@, 0)) {
                Some(t) => t + " ("@ + crate::tools::schema::time_hint() + ")"@,
                None => crate::tools::schema::time_hint(),
            },
        );
        lemma_put(rest, "description"@, hint);
        lemma_put_sound(rest, "description"@, hint);
    }
    let empty = JsonView::Object(Seq::empty());
    lemma_put(f, "properties"@, empty);
    lemma_put_sound(f, "properties"@, empty);
    let g = with_properties(f);
    assert(undropped(g));
    assert(dropped("$ref"@) && dropped("$defs"@) && dropped("$schema"@) && dropped("title"@));
}

/// A simplified schema has no reference, no union, no format and no title, and at most one type; a
/// number in it has no pattern, an object lists its properties, and no default is null. The same
/// holds of the schemas in it.
pub proof fn law_simplified_schemas_are_plain(root: JsonView)
    ensures
        plain_throughout(simplified(root)),
{
    lemma_node(root, member(root, "$defs"@), 0);
}

proof fn lemma_node(v: JsonView, defs: JsonView, depth: nat)
    ensures
        plain_throughout(node(v, defs, depth)),
    decreases MAX_DEPTH - depth, v, 0nat,
{
    match v {
        JsonView::Object(m) => {
            let base = match text_in(member_from(m, "$ref"@, 0)) {
                Some(r) => if depth < MAX_DEPTH {
                    object_in(node(referred(defs, r), defs, depth + 1))
                } else {
                    Seq::empty()
                },
                None => Seq::empty(),
            };
            match text_in(member_from(m, "$ref"@, 0)) {
                Some(r) => {
                    if depth < MAX_DEPTH {
                        lemma_node(referred(defs, r), defs, depth + 1);
                        match node(referred(defs, r), defs, depth + 1) {
                            JsonView::Object(b) => {
                                lemma_sound_of(b);
                            },
                            _ => {},
                        }
                    }
                },
                None => {},
            }
            assert(sound(base) && plain(base));
            lemma_dropped(base);
            lemma_absent(base, "anyOf"@, 0);
            lemma_absent(base, "oneOf"@, 0);
            lemma_parts(m, defs, depth, base, m.len());
            let w = parts(m, defs, depth, base, m.len());
            lemma_flat(w);
            let f = flat(w);
            assert forall|i: int| 0 <= i < f.len() implies plain_below((#[trigger] f[i]).0, f[i].1) by {
                assert(f.contains(f[i]));
            }
        },
        _ => {},
    }
}

proof fn lemma_parts(m: Members, defs: JsonView, depth: nat, base: Members, n: nat)
    requires
        sound(base),
        undropped(base),
        union_plain(base, "anyOf"@),
        union_plain(base, "oneOf"@),
    ensures
        sound(parts(m, defs, depth, base, n)),
        undropped(parts(m, defs, depth, base, n)),
        union_plain(parts(m, defs, depth, base, n), "anyOf"@),
        union_plain(parts(m, defs, depth, base, n), "oneOf"@),
    decreases MAX_DEPTH - depth, m, n,
{
    if n > 0 && n <= m.len() {
        lemma_names();
        let before = parts(m, defs, depth, base, (n - 1) as nat);
        lemma_parts(m, defs, depth, base, (n - 1) as nat);
        let k = m[n - 1].0;
        let x = m[n - 1].1;
        if !dropped(k) {
            let v = if k == "properties"@ {
                match x {
                    JsonView::Object(p) => JsonView::Object(properties(p, defs, depth, p.len())),
                    _ => JsonView::Object(Seq::empty()),
                }
            } else if (k == "items"@ || k == "additionalProperties"@) && x is Object {
                node(x, defs, depth)
            } else if k == "anyOf"@ || k == "oneOf"@ || k == "allOf"@ {
                match x {
                    JsonView::List(s) => JsonView::List(branches(s, defs, depth, s.len())),
                    _ => JsonView::List(Seq::empty()),
                }
            } else {
                x
            };
            if k == "properties"@ {
                match x {
                    JsonView::Object(p) => {
                        lemma_properties(p, defs, depth, p.len());
                        let q = properties(p, defs, depth, p.len());
                        assert forall|i: int| 0 <= i < q.len() implies plain_throughout((#[trigger] q[i]).1) by {
                            assert(q.contains(q[i]));
                        }
                    },
                    _ => {},
                }
            } else if (k == "items"@ || k == "additionalProperties"@) && x is Object {
                lemma_node(x, defs, depth);
            } else if k == "anyOf"@ || k == "oneOf"@ || k == "allOf"@ {
                match x {
                    JsonView::List(s) => {
                        lemma_branches(s, defs, depth, s.len());
                    },
                    _ => {},
                }
            }
            assert(plain_below(k, v));
            lemma_put(before, k, v);
            lemma_put_sound(before, k, v);
            let w = put(before, k, v);
            assert(parts(m, defs, depth, base, n) == w);
            assert(undropped(w));
            assert(member_from(w, "anyOf"@, 0) == (if "anyOf"@ == k {
                v
            } else {
                member_from(before, "anyOf"@, 0)
            }));
            assert(member_from(w, "oneOf"@, 0) == (if "oneOf"@ == k {
                v
            } else {
                member_from(before, "oneOf"@, 0)
            }));
        }
    }
}

proof fn lemma_properties(p: Members, defs: JsonView, depth: nat, n: nat)
    ensures
        in_order(properties(p, defs, depth, n)),
        forall|e: (Seq<char>, JsonView)| #[trigger]
            properties(p, defs, depth, n).contains(e) ==> plain_throughout(e.1),
    decreases MAX_DEPTH - depth, p, n,
{
    if n > 0 && n <= p.len() {
        lemma_properties(p, defs, depth, (n - 1) as nat);
        lemma_node(p[n - 1].1, defs, depth);
        lemma_put(properties(p, defs, depth, (n - 1) as nat), p[n - 1].0, node(p[n - 1].1, defs, depth));
    }
}

proof fn lemma_branches(s: Seq<JsonView>, defs: JsonView, depth: nat, n: nat)
    ensures
        forall|i: int|
            0 <= i < branches(s, defs, depth, n).len() ==> plain_throughout(
                #[trigger] branches(s, defs, depth, n)[i],
            ),
    decreases MAX_DEPTH - depth, s, n,
{
    if n > 0 && n <= s.len() {
        lemma_branches(s, defs, depth, (n - 1) as nat);
        lemma_node(s[n - 1], defs, depth);
        let before = branches(s, defs, depth, (n - 1) as nat);
        let all = branches(s, defs, depth, n);
        assert forall|i: int| 0 <= i < all.len() implies plain_throughout(#[trigger] all[i]) by {
            if i < before.len() {
                assert(all[i] == before[i]);
            }
        }
    }
}

} // verus!
