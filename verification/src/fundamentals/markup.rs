//! What holds of the readable text of every document.
use crate::fundamentals::{
    after_script, entity_char, past_alnum, past_char, readable, tag_end, tag_name, unescaped_from,
    untagged_from,
};
use crate::text::{first_at, first_text, lemma_first_at, smalls, stands_at};
use vstd::prelude::*;

verus! {

/// Whether one text goes on from index `i` as another does from index `j`.
spec fn same_rest(s: Seq<char>, i: int, t: Seq<char>, j: int) -> bool {
    &&& 0 <= i <= s.len()
    &&& 0 <= j <= t.len()
    &&& s.skip(i) == t.skip(j)
}

proof fn lemma_later_rest(s: Seq<char>, i: int, t: Seq<char>, j: int, n: int)
    requires
        same_rest(s, i, t, j),
        0 <= n <= s.len() - i,
    ensures
        same_rest(s, i + n, t, j + n),
{
    assert(s.skip(i).len() == t.skip(j).len());
    assert(s.skip(i).skip(n) =~= s.skip(i + n));
    assert(t.skip(j).skip(n) =~= t.skip(j + n));
}

proof fn lemma_same_first(s: Seq<char>, i: int, t: Seq<char>, j: int, c: char)
    requires
        same_rest(s, i, t, j),
    ensures
        match first_at(s, c, i) {
            Some(p) => i <= p < s.len() && first_at(t, c, j) == Some(p - i + j),
            None => first_at(t, c, j) is None,
        },
    decreases s.len() - i,
{
    assert(s.skip(i).len() == t.skip(j).len());
    if i < s.len() {
        assert(s.skip(i)[0] == t.skip(j)[0]);
        if s[i] != c {
            lemma_later_rest(s, i, t, j, 1);
            lemma_same_first(s, i + 1, t, j + 1, c);
        }
    }
}

proof fn lemma_same_part(s: Seq<char>, i: int, t: Seq<char>, j: int, a: int, b: int)
    requires
        same_rest(s, i, t, j),
        0 <= a <= b <= s.len() - i,
    ensures
        s.subrange(i + a, i + b) == t.subrange(j + a, j + b),
{
    assert(s.skip(i).len() == t.skip(j).len());
    assert(s.skip(i).subrange(a, b) =~= s.subrange(i + a, i + b));
    assert(t.skip(j).subrange(a, b) =~= t.subrange(j + a, j + b));
}

proof fn lemma_same_stand(s: Seq<char>, i: int, t: Seq<char>, j: int, m: Seq<char>)
    requires
        same_rest(s, i, t, j),
    ensures
        stands_at(s, m, i) == stands_at(t, m, j),
{
    assert(s.skip(i).len() == t.skip(j).len());
    if i + m.len() <= s.len() {
        lemma_same_part(s, i, t, j, 0, m.len() as int);
    }
}

proof fn lemma_same_text(s: Seq<char>, i: int, t: Seq<char>, j: int, m: Seq<char>)
    requires
        same_rest(s, i, t, j),
        m.len() > 0,
    ensures
        match first_text(s, m, i) {
            Some(p) => i <= p <= s.len() && first_text(t, m, j) == Some(p - i + j),
            None => first_text(t, m, j) is None,
        },
    decreases s.len() - i,
{
    assert(s.skip(i).len() == t.skip(j).len());
    lemma_same_stand(s, i, t, j, m);
    if i + m.len() <= s.len() && !stands_at(s, m, i) {
        lemma_later_rest(s, i, t, j, 1);
        lemma_same_text(s, i + 1, t, j + 1, m);
    }
}

/// What a text is decoded to depends on nothing before it.
proof fn lemma_unescaped_rest(s: Seq<char>, i: int, t: Seq<char>, j: int)
    requires
        same_rest(s, i, t, j),
    ensures
        unescaped_from(s, i) == unescaped_from(t, j),
    decreases s.len() - i,
{
    assert(s.skip(i).len() == t.skip(j).len());
    if i < s.len() {
        assert(s.skip(i)[0] == t.skip(j)[0]);
        lemma_later_rest(s, i, t, j, 1);
        lemma_unescaped_rest(s, i + 1, t, j + 1);
        if s[i] == '&' {
            lemma_same_first(s, i, t, j, ';');
            if let Some(end) = first_at(s, ';', i) {
                lemma_first_at(s, ';', i);
                assert(end != i);
                lemma_same_part(s, i, t, j, 1, end - i);
                lemma_later_rest(s, i, t, j, end + 1 - i);
                lemma_unescaped_rest(s, end + 1, t, j + (end + 1 - i));
            }
        }
    }
}

/// A character as it is written where characters with a meaning are escaped.
pub open spec fn escaped_char(c: char) -> Seq<char> {
    if c == '&' {
        "&amp;"@
    } else if c == '<' {
        "&lt;"@
    } else if c == '>' {
        "&gt;"@
    } else if c == '"' {
        "&quot;"@
    } else if c == '\'' {
        "&#39;"@
    } else {
        seq![c]
    }
}

/// A text with the characters that have a meaning in markup escaped.
pub open spec fn escaped(s: Seq<char>) -> Seq<char>
    decreases s.len(),
{
    if s.len() == 0 {
        Seq::empty()
    } else {
        escaped_char(s[0]) + escaped(s.skip(1))
    }
}

/// The entities of the escaped characters.
proof fn lemma_entities()
    ensures
        entity_char("amp"@) == Some('&'),
        entity_char("lt"@) == Some('<'),
        entity_char("gt"@) == Some('>'),
        entity_char("quot"@) == Some('"'),
        entity_char("#39"@) == Some('\''),
{
    reveal_strlit("amp");
    reveal_strlit("lt");
    reveal_strlit("gt");
    reveal_strlit("quot");
    reveal_strlit("apos");
    reveal_strlit("#39");
    assert("lt"@[0] == 'l' && "gt"@[0] == 'g' && "amp"@[0] == 'a' && "#39"@[0] == '#' && "quot"@[0] == 'q'
        && "apos"@[1] == 'p' && "quot"@.len() == 4 && "amp"@.len() == 3 && "#39"@.len() == 3 && "lt"@.len() == 2
        && "gt"@.len() == 2 && "apos"@[0] == 'a');
}

/// An entity in front of a text is decoded to its character.
proof fn lemma_entity_first(e: Seq<char>, name: Seq<char>, c: char, rest: Seq<char>)
    requires
        e == seq!['&'] + name + seq![';'],
        name.len() <= 9,
        forall|k: int| 0 <= k < name.len() ==> #[trigger] name[k] != ';',
        entity_char(name) == Some(c),
    ensures
        unescaped_from(e + rest, 0) == seq![c] + unescaped_from(rest, 0),
{
    let s = e + rest;
    let end: int = name.len() as int + 1;
    assert(s[0] == '&');
    assert(s[end] == ';');
    assert forall|k: int| 0 <= k < end implies s[k] != ';' by {
        if k > 0 {
            assert(s[k] == name[k - 1]);
        }
    }
    lemma_first_at(s, ';', 0);
    assert(first_at(s, ';', 0) == Some(end));
    assert(s.subrange(1, end) =~= name);
    assert(s.skip(end + 1) =~= rest.skip(0));
    lemma_unescaped_rest(s, end + 1, rest, 0);
}

/// Decoding undoes escaping, and leaves a text without an ampersand as it is.
pub proof fn law_decoding_undoes_escaping(s: Seq<char>)
    ensures
        unescaped_from(escaped(s), 0) == s,
        !s.contains('&') ==> unescaped_from(s, 0) == s,
    decreases s.len(),
{
    if s.len() > 0 {
        let c = s[0];
        let rest = s.skip(1);
        law_decoding_undoes_escaping(rest);
        assert(s =~= seq![c] + rest);
        let e = escaped(rest);
        lemma_entities();
        reveal_strlit("&amp;");
        reveal_strlit("&lt;");
        reveal_strlit("&gt;");
        reveal_strlit("&quot;");
        reveal_strlit("&#39;");
        reveal_strlit("amp");
        reveal_strlit("lt");
        reveal_strlit("gt");
        reveal_strlit("quot");
        reveal_strlit("#39");
        if c == '&' {
            assert("&amp;"@ =~= seq!['&'] + "amp"@ + seq![';']);
            lemma_entity_first("&amp;"@, "amp"@, c, e);
        } else if c == '<' {
            assert("&lt;"@ =~= seq!['&'] + "lt"@ + seq![';']);
            lemma_entity_first("&lt;"@, "lt"@, c, e);
        } else if c == '>' {
            assert("&gt;"@ =~= seq!['&'] + "gt"@ + seq![';']);
            lemma_entity_first("&gt;"@, "gt"@, c, e);
        } else if c == '"' {
            assert("&quot;"@ =~= seq!['&'] + "quot"@ + seq![';']);
            lemma_entity_first("&quot;"@, "quot"@, c, e);
        } else if c == '\'' {
            assert("&#39;"@ =~= seq!['&'] + "#39"@ + seq![';']);
            lemma_entity_first("&#39;"@, "#39"@, c, e);
        } else {
            let t = seq![c] + e;
            assert(t.skip(1) =~= e.skip(0));
            lemma_unescaped_rest(t, 1, e, 0);
            assert(t[0] == c);
        }
        if !s.contains('&') {
            assert(c != '&');
            assert(!rest.contains('&')) by {
                if rest.contains('&') {
                    let k = choose|k: int| 0 <= k < rest.len() && rest[k] == '&';
                    assert(s[k + 1] == '&');
                }
            }
            assert(s.skip(1) =~= rest.skip(0));
            lemma_unescaped_rest(s, 1, rest, 0);
        }
    }
}

/// What markup is without its tags depends on nothing before it.
proof fn lemma_untagged_rest(s: Seq<char>, low: Seq<char>, i: int, t: Seq<char>, down: Seq<char>, j: int)
    requires
        same_rest(s, i, t, j),
        same_rest(low, i, down, j),
        s.len() == low.len(),
        t.len() == down.len(),
    ensures
        untagged_from(s, low, i) == untagged_from(t, down, j),
    decreases s.len() - i,
{
    assert(s.skip(i).len() == t.skip(j).len());
    if i < s.len() {
        assert(s.skip(i)[0] == t.skip(j)[0]);
        if s[i] == '<' {
            lemma_same_first(s, i, t, j, '>');
            let end = tag_end(s, i);
            assert(tag_end(t, j) == end - i + j);
            lemma_first_at(s, '>', i);
            assert(i < end <= s.len());
            lemma_same_part(low, i, down, j, 0, end - i);
            lemma_same_stand(low, i, down, j, "</"@);
            lemma_later_rest(s, i, t, j, end - i);
            lemma_later_rest(low, i, down, j, end - i);
            let name = tag_name(low.subrange(i, end));
            if !stands_at(low, "</"@, i) && (name == "script"@ || name == "style"@) {
                reveal_strlit("</");
                lemma_same_text(low, end, down, j + (end - i), "</"@ + name);
                let next = after_script(low, name, end);
                lemma_later_rest(s, i, t, j, next - i);
                lemma_later_rest(low, i, down, j, next - i);
                lemma_untagged_rest(s, low, next, t, down, j + (next - i));
            } else {
                lemma_untagged_rest(s, low, end, t, down, j + (end - i));
            }
        } else {
            lemma_later_rest(s, i, t, j, 1);
            lemma_later_rest(low, i, down, j, 1);
            lemma_untagged_rest(s, low, i + 1, t, down, j + 1);
        }
    }
}

/// A document with a script in it, between `a` and `b`.
pub open spec fn with_script(a: Seq<char>, s: Seq<char>, b: Seq<char>) -> Seq<char> {
    a + "<script>"@ + s + "</script>"@ + b
}

/// Whether every tag that begins in a text ends in it.
pub open spec fn tags_end(a: Seq<char>) -> bool {
    forall|k: int| 0 <= k < a.len() && #[trigger] a[k] == '<' ==> first_at(a, '>', k) is Some
}

/// Whether a text closes no script and no style, in whatever letters.
pub open spec fn closes_nothing(s: Seq<char>) -> bool {
    forall|p: int| !(#[trigger] stands_at(smalls(s), "</script"@, p)) && !stands_at(smalls(s), "</style"@, p)
}

/// A closing mark: it begins with the only `<` in it and holds no `>`.
spec fn is_mark(m: Seq<char>) -> bool {
    &&& m.len() > 1
    &&& m[0] == '<'
    &&& m[1] == '/'
    &&& forall|k: int| 0 < k < m.len() ==> #[trigger] m[k] != '<'
    &&& forall|k: int| 0 <= k < m.len() ==> #[trigger] m[k] != '>'
}

/// What a document with a script looks like, character by character.
proof fn lemma_script_chars(a: Seq<char>, s: Seq<char>, b: Seq<char>)
    ensures
        ({
            let t = with_script(a, s, b);
            let low = smalls(t);
            let n = a.len() as int;
            let g = n + 8 + s.len();
            &&& t.len() == g + 9 + b.len()
            &&& low.len() == t.len()
            &&& forall|k: int| 0 <= k < n ==> #[trigger] t[k] == a[k]
            &&& t.subrange(n, n + 8) == "<script>"@
            &&& low.subrange(n, n + 8) == "<script>"@
            &&& low.subrange(n + 8, g) == smalls(s)
            &&& t[g] == '<'
            &&& low[g] == '<'
            &&& t.skip(g) == "</script>"@ + b
            &&& low.skip(g) == smalls("</script>"@ + b)
            &&& forall|k: int| 0 <= k < t.len() ==> (#[trigger] low[k] == '<' <==> t[k] == '<')
            &&& forall|k: int| 0 <= k < t.len() && t[k] == '>' ==> #[trigger] low[k] == '>'
        }),
{
    reveal_strlit("<script>");
    reveal_strlit("</script>");
    let t = with_script(a, s, b);
    let low = smalls(t);
    let n = a.len() as int;
    let g = n + 8 + s.len();
    assert(t.subrange(n, n + 8) =~= "<script>"@);
    assert(low.subrange(n, n + 8) =~= "<script>"@);
    assert(low.subrange(n + 8, g) =~= smalls(s));
    assert(t.skip(g) =~= "</script>"@ + b);
    assert(low.skip(g) =~= smalls("</script>"@ + b));
}

/// No closing mark stands anywhere from the opening tag of the script up to its closing tag.
proof fn lemma_no_mark_inside(a: Seq<char>, s: Seq<char>, b: Seq<char>, m: Seq<char>, p: int)
    requires
        is_mark(m),
        forall|q: int| !(#[trigger] stands_at(smalls(s), m, q)),
        a.len() <= p < a.len() + 8 + s.len(),
    ensures
        !stands_at(smalls(with_script(a, s, b)), m, p),
{
    let low = smalls(with_script(a, s, b));
    let n = a.len() as int;
    let g = n + 8 + s.len();
    lemma_script_chars(a, s, b);
    reveal_strlit("<script>");
    if stands_at(low, m, p) {
        let w = low.subrange(p, p + m.len());
        assert(w[0] == low[p] && w[1] == low[p + 1]);
        if p < n + 8 {
            let o = low.subrange(n, n + 8);
            assert(o[p - n] == low[p]);
            if p == n {
                assert(o[1] == low[p + 1]);
            }
            assert(false);
        } else if p + m.len() <= g {
            assert(low.subrange(n + 8, g).subrange(p - n - 8, p - n - 8 + m.len()) =~= w);
            assert(stands_at(smalls(s), m, p - n - 8));
        } else {
            assert(w[g - p] == low[g]);
            assert(m[g - p] != '<');
            assert(false);
        }
    }
}

/// In front of the script a closing mark stands in both documents or in neither.
proof fn lemma_mark_before(a: Seq<char>, s: Seq<char>, b: Seq<char>, m: Seq<char>, p: int)
    requires
        is_mark(m),
        tags_end(a),
        0 <= p < a.len(),
    ensures
        stands_at(smalls(with_script(a, s, b)), m, p) == stands_at(smalls(a), m, p),
{
    let t = with_script(a, s, b);
    let low = smalls(t);
    lemma_script_chars(a, s, b);
    assert(low[p] == smalls(a)[p]);
    if a[p] == '<' {
        let e = first_at(a, '>', p)->0;
        lemma_first_at(a, '>', p);
        assert(low[e] == '>' && smalls(a)[e] == '>');
        if stands_at(low, m, p) {
            let w = low.subrange(p, p + m.len());
            if e < p + m.len() {
                assert(w[e - p] == low[e]);
                assert(m[e - p] != '>');
                assert(false);
            }
            assert(smalls(a).subrange(p, p + m.len()) =~= w);
        }
        if stands_at(smalls(a), m, p) {
            let w = smalls(a).subrange(p, p + m.len());
            assert(low.subrange(p, p + m.len()) =~= w);
        }
    } else {
        if stands_at(low, m, p) {
            assert(low.subrange(p, p + m.len())[0] == low[p]);
            assert(low[p] != '<');
        }
        if stands_at(smalls(a), m, p) {
            assert(smalls(a).subrange(p, p + m.len())[0] == smalls(a)[p]);
            assert(smalls(a)[p] != '<');
        }
    }
}

/// Where a closing mark is found from the script on: not before its closing tag.
proof fn lemma_found_behind(a: Seq<char>, s: Seq<char>, b: Seq<char>, m: Seq<char>, p: int)
    requires
        is_mark(m),
        forall|q: int| !(#[trigger] stands_at(smalls(s), m, q)),
        a.len() <= p <= a.len() + 8 + s.len(),
    ensures
        first_text(smalls(with_script(a, s, b)), m, p) == first_text(
            smalls(with_script(a, s, b)),
            m,
            a.len() as int + 8 + s.len(),
        ),
    decreases a.len() + 8 + s.len() - p,
{
    let low = smalls(with_script(a, s, b));
    let g = a.len() as int + 8 + s.len();
    lemma_script_chars(a, s, b);
    if p < g {
        lemma_no_mark_inside(a, s, b, m, p);
        lemma_found_behind(a, s, b, m, p + 1);
        if p + m.len() > low.len() {
            assert(first_text(low, m, p + 1) is None);
        }
    }
}

/// A closing mark that is looked for in front of the script is found at the same place with and
/// without its body, or behind the script in both.
proof fn lemma_found(a: Seq<char>, s: Seq<char>, b: Seq<char>, m: Seq<char>, p: int)
    requires
        is_mark(m),
        tags_end(a),
        forall|q: int| !(#[trigger] stands_at(smalls(s), m, q)),
        0 <= p <= a.len() + 8,
    ensures
        ({
            let n = a.len() as int;
            let f = first_text(smalls(with_script(a, s, b)), m, p);
            let h = first_text(smalls(with_script(a, Seq::empty(), b)), m, p);
            match h {
                Some(c) => c >= p && ((c < n && f == h) || (c >= n + 8 && c <= with_script(
                    a,
                    Seq::empty(),
                    b,
                ).len() && f == Some(c + s.len()))),
                None => f is None,
            }
        }),
    decreases a.len() + 8 - p,
{
    let none = Seq::<char>::empty();
    let n = a.len() as int;
    let t = with_script(a, s, b);
    let u = with_script(a, none, b);
    lemma_script_chars(a, s, b);
    lemma_script_chars(a, none, b);
    assert forall|q: int| !(#[trigger] stands_at(smalls(none), m, q)) by {}
    if p < n {
        lemma_mark_before(a, s, b, m, p);
        lemma_mark_before(a, none, b, m, p);
        lemma_found(a, s, b, m, p + 1);
        if p + m.len() > smalls(u).len() {
            assert(first_text(smalls(u), m, p + 1) is None);
            assert(!stands_at(smalls(t), m, p));
            if p + m.len() <= smalls(t).len() {
                assert(first_text(smalls(t), m, p) == first_text(smalls(t), m, p + 1));
            }
        }
    } else {
        let g = n + 8 + s.len();
        lemma_found_behind(a, s, b, m, p);
        lemma_found_behind(a, none, b, m, p);
        assert(smalls(t).skip(g) =~= smalls(u).skip(n + 8));
        lemma_same_text(smalls(u), n + 8, smalls(t), g, m);
    }
}

/// The name of the opening tag of a script.
proof fn lemma_script_name()
    ensures
        tag_name("<script>"@) == "script"@,
        is_mark("</script"@),
        is_mark("</style"@),
        "</"@ + "script"@ == "</script"@,
        "</"@ + "style"@ == "</style"@,
{
    reveal_strlit("<script>");
    reveal_strlit("script");
    reveal_strlit("style");
    reveal_strlit("</script");
    reveal_strlit("</style");
    reveal_strlit("</");
    let t = "<script>"@;
    reveal_with_fuel(past_char, 3);
    reveal_with_fuel(past_alnum, 9);
    assert(past_char(t, '/', past_char(t, '<', 0)) == 1);
    assert(past_alnum(t, 1) == 7);
    assert(t.subrange(1, 7) =~= "script"@);
    assert("</"@ + "script"@ =~= "</script"@);
    assert("</"@ + "style"@ =~= "</style"@);
}

proof fn lemma_script_gone(a: Seq<char>, s: Seq<char>, b: Seq<char>, i: int)
    requires
        tags_end(a),
        closes_nothing(s),
        0 <= i <= a.len(),
    ensures
        ({
            let t = with_script(a, s, b);
            let u = with_script(a, Seq::empty(), b);
            untagged_from(t, smalls(t), i) == untagged_from(u, smalls(u), i)
        }),
    decreases a.len() - i,
{
    let none = Seq::<char>::empty();
    let n = a.len() as int;
    let g = n + 8 + s.len();
    let t = with_script(a, s, b);
    let u = with_script(a, none, b);
    let lt = smalls(t);
    let lu = smalls(u);
    lemma_script_chars(a, s, b);
    lemma_script_chars(a, none, b);
    lemma_script_name();
    assert forall|q: int| !(#[trigger] stands_at(smalls(s), "</style"@, q)) by {
        assert(!stands_at(smalls(s), "</script"@, q));
    }
    assert(t.skip(g) =~= u.skip(n + 8));
    assert(lt.skip(g) =~= lu.skip(n + 8));
    assert(t.subrange(0, n + 8) =~= a + "<script>"@) by {
        reveal_strlit("<script>");
    }
    assert(u.subrange(0, n + 8) =~= a + "<script>"@) by {
        reveal_strlit("<script>");
    }
    assert forall|k: int| 0 <= k < n + 8 implies #[trigger] t[k] == u[k] && lt[k] == lu[k] by {
        assert(t.subrange(0, n + 8)[k] == u.subrange(0, n + 8)[k]);
    }
    if i == n {
        let o = t.subrange(n, n + 8);
        reveal_strlit("<script>");
        assert forall|k: int| n <= k < n + 7 implies t[k] != '>' && u[k] != '>' by {
            assert(o[k - n] == t[k]);
        }
        assert(o[7] == t[n + 7] && o[0] == t[n] && o[1] == t[n + 1]);
        lemma_first_at(t, '>', n);
        lemma_first_at(u, '>', n);
        assert(tag_end(t, n) == n + 8);
        assert(tag_end(u, n) == n + 8);
        reveal_strlit("</");
        assert(!stands_at(lt, "</"@, n)) by {
            assert(lt.subrange(n, n + 8)[1] == lt[n + 1]);
            if stands_at(lt, "</"@, n) {
                assert(lt.subrange(n, n + 2)[1] == lt[n + 1]);
            }
        }
        assert(!stands_at(lu, "</"@, n)) by {
            assert(lu.subrange(n, n + 8)[1] == lu[n + 1]);
            if stands_at(lu, "</"@, n) {
                assert(lu.subrange(n, n + 2)[1] == lu[n + 1]);
            }
        }
        lemma_found(a, s, b, "</script"@, n + 8);
        let next = after_script(lu, "script"@, n + 8);
        let far = after_script(lt, "script"@, n + 8);
        assert(far == next + s.len());
        lemma_later_rest(u, n + 8, t, g, next - (n + 8));
        lemma_later_rest(lu, n + 8, lt, g, next - (n + 8));
        lemma_untagged_rest(u, lu, next, t, lt, far);
    } else if a[i] == '<' {
        assert(t[i] == a[i] && u[i] == a[i]);
        lemma_first_at(a, '>', i);
        let e = first_at(a, '>', i)->0;
        assert(t[e] == '>' && u[e] == '>');
        assert forall|k: int| i <= k < e implies t[k] != '>' && u[k] != '>' by {
            assert(t[k] == a[k]);
        }
        lemma_first_at(t, '>', i);
        lemma_first_at(u, '>', i);
        let end = e + 1;
        assert(tag_end(t, i) == end && tag_end(u, i) == end);
        assert(lt.subrange(i, end) =~= lu.subrange(i, end));
        reveal_strlit("</");
        assert(stands_at(lt, "</"@, i) == stands_at(lu, "</"@, i)) by {
            assert(lt.subrange(i, i + 2) =~= lu.subrange(i, i + 2));
        }
        let name = tag_name(lt.subrange(i, end));
        if !stands_at(lt, "</"@, i) && (name == "script"@ || name == "style"@) {
            lemma_found(a, s, b, "</"@ + name, end);
            let next = after_script(lu, name, end);
            if next < n {
                lemma_script_gone(a, s, b, next);
            } else {
                let far = after_script(lt, name, end);
                assert(far == next + s.len());
                lemma_later_rest(u, n + 8, t, g, next - (n + 8));
                lemma_later_rest(lu, n + 8, lt, g, next - (n + 8));
                lemma_untagged_rest(u, lu, next, t, lt, far);
            }
        } else {
            lemma_script_gone(a, s, b, end);
        }
    } else {
        assert(t[i] == a[i] && u[i] == a[i]);
        lemma_script_gone(a, s, b, i + 1);
    }
}

/// What a script holds never reaches the readable text of a document, whatever stands around it: the
/// text is that of the document with an empty script.
pub proof fn law_scripts_are_not_read(a: Seq<char>, s: Seq<char>, b: Seq<char>)
    requires
        tags_end(a),
        closes_nothing(s),
    ensures
        readable(with_script(a, s, b)) == readable(with_script(a, Seq::empty(), b)),
{
    lemma_script_gone(a, s, b, 0);
}

} // verus!
