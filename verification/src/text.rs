//! Text as sequences of characters.
use crate::decimal::{digit_char, padded_digits};
use vstd::prelude::*;

verus! {

/// `String::push` appends one character.
pub assume_specification[ String::push ](s: &mut String, c: char)
    ensures
        final(s)@ == old(s)@.push(c),
;

/// The characters of a text.
pub fn chars_of(s: &str) -> (v: Vec<char>)
    ensures
        v@ == s@,
{
    let mut v: Vec<char> = Vec::new();
    for c in it: s.chars()
        invariant
            v@ == it.seq().take(it.index()),
            it.seq() == s@,
    {
        v.push(c);
    }
    assert(s@.take(s@.len() as int) =~= s@);
    v
}

/// Whether two texts have the same characters.
pub fn same_text(a: &str, b: &str) -> (r: bool)
    ensures
        r == (a@ == b@),
{
    let x = chars_of(a);
    let y = chars_of(b);
    if x.len() != y.len() {
        return false;
    }
    let mut i: usize = 0;
    while i < x.len()
        invariant
            i <= x@.len(),
            x@ == a@,
            y@ == b@,
            x@.len() == y@.len(),
            forall|j: int| 0 <= j < i ==> x@[j] == y@[j],
        decreases x@.len() - i,
    {
        if x[i] != y[i] {
            assert(a@[i as int] != b@[i as int]);
            return false;
        }
        i += 1;
    }
    assert(a@ =~= b@);
    true
}

/// The text made of the characters from `from` up to `to`.
pub fn text_of(v: &[char], from: usize, to: usize) -> (s: String)
    requires
        from <= to <= v@.len(),
    ensures
        s@ == v@.subrange(from as int, to as int),
{
    let mut s = String::new();
    let mut i: usize = from;
    while i < to
        invariant
            from <= i <= to <= v@.len(),
            s@ == v@.subrange(from as int, i as int),
        decreases to - i,
    {
        s.push(v[i]);
        i += 1;
        assert(v@.subrange(from as int, i as int) =~= v@.subrange(from as int, i - 1).push(v@[i - 1]));
    }
    s
}

/// Two texts, one after the other.
pub fn join_text(a: &str, b: &str) -> (s: String)
    ensures
        s@ == a@ + b@,
{
    let mut s = a.to_owned();
    s.append(b);
    s
}

/// Where the character `c` first occurs at or after `from`.
pub open spec fn first_at(s: Seq<char>, c: char, from: int) -> Option<int>
    decreases s.len() - from,
{
    if from >= s.len() {
        None
    } else if s[from] == c {
        Some(from)
    } else {
        first_at(s, c, from + 1)
    }
}

/// The index of the first `c` at or after `from`.
pub fn find_char(v: &[char], c: char, from: usize) -> (r: Option<usize>)
    requires
        from <= v@.len(),
    ensures
        match r {
            Some(i) => first_at(v@, c, from as int) == Some(i as int) && from <= i < v@.len(),
            None => first_at(v@, c, from as int) is None,
        },
{
    let mut i: usize = from;
    while i < v.len()
        invariant
            from <= i <= v@.len(),
            first_at(v@, c, from as int) == first_at(v@, c, i as int),
        decreases v@.len() - i,
    {
        if v[i] == c {
            return Some(i);
        }
        i += 1;
    }
    None
}

/// The index that `first_at` finds holds the character, and no earlier one does.
pub proof fn lemma_first_at(s: Seq<char>, c: char, from: int)
    requires
        0 <= from <= s.len(),
    ensures
        match first_at(s, c, from) {
            Some(i) => from <= i < s.len() && s[i] == c && forall|j: int| from <= j < i ==> s[j] != c,
            None => forall|j: int| from <= j < s.len() ==> s[j] != c,
        },
    decreases s.len() - from,
{
    if from < s.len() && s[from] != c {
        lemma_first_at(s, c, from + 1);
    }
}

/// Whether `a` comes before `b` in a dictionary, from index `i` on.
pub open spec fn lex_from(a: Seq<char>, b: Seq<char>, i: int) -> bool
    decreases b.len() - i,
{
    if i >= b.len() {
        false
    } else if i >= a.len() {
        true
    } else if a[i] != b[i] {
        a[i] < b[i]
    } else {
        lex_from(a, b, i + 1)
    }
}

/// Whether `a` comes before `b` in a dictionary.
pub open spec fn lex_less(a: Seq<char>, b: Seq<char>) -> bool {
    lex_from(a, b, 0)
}

pub proof fn lemma_lex_transitive(a: Seq<char>, b: Seq<char>, c: Seq<char>, i: int)
    requires
        0 <= i,
        lex_from(a, b, i),
        lex_from(b, c, i),
    ensures
        lex_from(a, c, i),
    decreases b.len() - i,
{
    if i < a.len() && i < b.len() && i < c.len() && a[i] == b[i] && b[i] == c[i] {
        lemma_lex_transitive(a, b, c, i + 1);
    }
}

pub proof fn lemma_lex_irreflexive(a: Seq<char>, i: int)
    ensures
        !lex_from(a, a, i),
    decreases a.len() - i,
{
    if i < a.len() {
        lemma_lex_irreflexive(a, i + 1);
    }
}

/// Of two texts one comes before the other, unless they are the same from `i` on.
pub proof fn lemma_lex_total(a: Seq<char>, b: Seq<char>, i: int)
    requires
        0 <= i <= a.len(),
        0 <= i <= b.len(),
        a.take(i) == b.take(i),
    ensures
        lex_from(a, b, i) || lex_from(b, a, i) || a == b,
    decreases b.len() - i,
{
    if i < a.len() && i < b.len() && a[i] == b[i] {
        assert(a.take(i + 1) =~= a.take(i).push(a[i]));
        assert(b.take(i + 1) =~= b.take(i).push(b[i]));
        lemma_lex_total(a, b, i + 1);
    } else if i == a.len() && i == b.len() {
        assert(a.take(i) =~= a);
        assert(b.take(i) =~= b);
    }
}

/// Whether the text `a` comes before the text `b` in a dictionary.
pub fn text_before(a: &str, b: &str) -> (r: bool)
    ensures
        r == lex_less(a@, b@),
{
    let x = chars_of(a);
    let y = chars_of(b);
    let mut i: usize = 0;
    while i < x.len() && i < y.len()
        invariant
            i <= x@.len(),
            i <= y@.len(),
            x@ == a@,
            y@ == b@,
            lex_less(a@, b@) == lex_from(a@, b@, i as int),
        decreases x@.len() - i,
    {
        if x[i] != y[i] {
            return x[i] < y[i];
        }
        i += 1;
    }
    i < y.len()
}

/// The characters that Unicode calls white space.
pub open spec fn is_white(c: char) -> bool {
    ||| '\u{9}' <= c <= '\u{d}'
    ||| c == ' '
    ||| c == '\u{85}'
    ||| c == '\u{a0}'
    ||| c == '\u{1680}'
    ||| '\u{2000}' <= c <= '\u{200a}'
    ||| c == '\u{2028}'
    ||| c == '\u{2029}'
    ||| c == '\u{202f}'
    ||| c == '\u{205f}'
    ||| c == '\u{3000}'
}

/// Whether Unicode calls a character white space.
pub fn white(c: char) -> (r: bool)
    ensures
        r == is_white(c),
{
    ('\u{9}' <= c && c <= '\u{d}') || c == ' ' || c == '\u{85}' || c == '\u{a0}' || c == '\u{1680}' || ('\u{2000}' <= c
        && c <= '\u{200a}') || c == '\u{2028}' || c == '\u{2029}' || c == '\u{202f}' || c == '\u{205f}' || c == '\u{3000}'
}

/// The first index from `i` on that is no white space.
pub open spec fn lead(s: Seq<char>, i: int) -> int
    decreases s.len() - i,
{
    if 0 <= i < s.len() && is_white(s[i]) {
        lead(s, i + 1)
    } else {
        i
    }
}

/// The last index up to `i` that white space does not precede, but not below `from`.
pub open spec fn trail(s: Seq<char>, from: int, i: int) -> int
    decreases i,
{
    if from < i <= s.len() && 0 < i && is_white(s[i - 1]) {
        trail(s, from, i - 1)
    } else {
        i
    }
}

/// A text without white space at its ends.
pub open spec fn trimmed(s: Seq<char>) -> Seq<char> {
    let a = lead(s, 0);
    s.subrange(a, trail(s, a, s.len() as int))
}

/// Whether a text is nothing but white space.
pub open spec fn all_white(s: Seq<char>) -> bool {
    forall|i: int| 0 <= i < s.len() ==> is_white(#[trigger] s[i])
}

proof fn lemma_lead(s: Seq<char>, i: int, n: int)
    requires
        0 <= i <= n < s.len(),
        forall|k: int| i <= k < n ==> is_white(#[trigger] s[k]),
        !is_white(s[n]),
    ensures
        lead(s, i) == n,
    decreases n - i,
{
    if i < n {
        lemma_lead(s, i + 1, n);
    }
}

proof fn lemma_trail(s: Seq<char>, from: int, i: int, n: int)
    requires
        0 <= from < n <= i <= s.len(),
        forall|k: int| n <= k < i ==> is_white(#[trigger] s[k]),
        !is_white(s[n - 1]),
    ensures
        trail(s, from, i) == n,
    decreases i,
{
    if n < i {
        lemma_trail(s, from, i - 1, n);
    }
}

/// White space around a text does not matter once it is trimmed.
pub proof fn lemma_trimmed_around(a: Seq<char>, s: Seq<char>, b: Seq<char>)
    requires
        all_white(a),
        all_white(b),
        s.len() > 0,
        !is_white(s[0]),
        !is_white(s.last()),
    ensures
        trimmed(a + s + b) == s,
{
    let t = a + s + b;
    let from = a.len() as int;
    let to = from + s.len();
    assert(t[from] == s[0]);
    assert(t[to - 1] == s.last());
    assert forall|k: int| 0 <= k < from implies is_white(#[trigger] t[k]) by {
        assert(t[k] == a[k]);
    }
    assert forall|k: int| to <= k < t.len() implies is_white(#[trigger] t[k]) by {
        assert(t[k] == b[k - to]);
    }
    lemma_lead(t, 0, from);
    lemma_trail(t, from, t.len() as int, to);
    assert(t.subrange(from, to) =~= s);
}

/// Where the text without white space at its ends begins and ends.
pub fn trim_range(v: &[char]) -> (r: (usize, usize))
    ensures
        r.0 <= r.1 <= v@.len(),
        r.0 == lead(v@, 0),
        r.1 == trail(v@, r.0 as int, v@.len() as int),
        v@.subrange(r.0 as int, r.1 as int) == trimmed(v@),
{
    let mut a: usize = 0;
    while a < v.len() && white(v[a])
        invariant
            a <= v@.len(),
            lead(v@, 0) == lead(v@, a as int),
        decreases v@.len() - a,
    {
        a += 1;
    }
    let mut b: usize = v.len();
    while b > a && white(v[b - 1])
        invariant
            a <= b <= v@.len(),
            a == lead(v@, 0),
            trail(v@, a as int, v@.len() as int) == trail(v@, a as int, b as int),
        decreases b,
    {
        b -= 1;
    }
    (a, b)
}

/// The text without white space at its ends.
pub fn trim(s: &str) -> (r: String)
    ensures
        r@ == trimmed(s@),
{
    let v = chars_of(s);
    let (a, b) = trim_range(&v);
    text_of(&v, a, b)
}

/// Whether a text is ASCII.
pub open spec fn all_ascii(s: Seq<char>) -> bool {
    forall|i: int| 0 <= i < s.len() ==> (#[trigger] s[i]) as int <= 127
}

/// What `str::to_lowercase` makes of a text that is not ASCII.
pub uninterp spec fn unicode_lowered(s: Seq<char>) -> Seq<char>;

/// A text in small letters.
pub open spec fn lowered(s: Seq<char>) -> Seq<char> {
    if all_ascii(s) {
        smalls(s)
    } else {
        unicode_lowered(s)
    }
}

/// Calls `str::to_lowercase`. Claimed: of an ASCII text it makes the capitals small and nothing else,
/// and of any other the outcome depends on the text alone.
#[verifier::external_body]
pub(crate) fn lowercase(s: &str) -> (r: String)
    ensures
        all_ascii(s@) ==> r@ == smalls(s@),
        !all_ascii(s@) ==> r@ == unicode_lowered(s@),
{
    s.to_lowercase()
}

pub open spec fn is_digit(c: char) -> bool {
    '0' <= c <= '9'
}

/// The number that digits write.
pub open spec fn digits_value(s: Seq<char>) -> nat
    decreases s.len(),
{
    if s.len() == 0 {
        0
    } else {
        10 * digits_value(s.drop_last()) + (s.last() as nat - 48) as nat
    }
}

pub open spec fn all_digits(s: Seq<char>) -> bool {
    forall|i: int| 0 <= i < s.len() ==> is_digit(#[trigger] s[i])
}

/// The whole number that a text writes: digits, with an optional plus sign in front.
pub open spec fn uint_of(s: Seq<char>) -> Option<nat> {
    let t = if s.len() > 0 && s[0] == '+' {
        s.skip(1)
    } else {
        s
    };
    if t.len() > 0 && all_digits(t) {
        Some(digits_value(t))
    } else {
        None
    }
}

/// Reads a whole number: `None` for anything else and for one that does not fit.
pub fn parse_uint(v: &[char]) -> (r: Option<u64>)
    ensures
        match r {
            Some(n) => uint_of(v@) == Some(n as nat),
            None => uint_of(v@) is None || uint_of(v@)->0 > u64::MAX,
        },
{
    let start: usize = if v.len() > 0 && v[0] == '+' {
        1
    } else {
        0
    };
    let ghost t = v@.skip(start as int);
    assert(v@.skip(0) =~= v@);
    if start == v.len() {
        return None;
    }
    let mut n: u64 = 0;
    let mut full = false;
    let mut i: usize = start;
    while i < v.len()
        invariant
            start <= i <= v@.len(),
            start == (if v@[0] == '+' {
                1int
            } else {
                0int
            }),
            t == (if v@[0] == '+' {
                v@.skip(1)
            } else {
                v@
            }),
            t == v@.skip(start as int),
            v@.len() > 0,
            !full ==> n == digits_value(t.take(i - start)),
            full ==> digits_value(t.take(i - start)) > u64::MAX,
            all_digits(t.take(i - start)),
        decreases v@.len() - i,
    {
        let c = v[i];
        let ghost k = i - start;
        assert(t[k] == c);
        if !('0' <= c && c <= '9') {
            proof {
                assert(!is_digit(t[k]));
            }
            return None;
        }
        let digit: u64 = (c as u32 - 48) as u64;
        proof {
            assert(t.take(k + 1).drop_last() =~= t.take(k));
            assert(all_digits(t.take(k + 1)));
        }
        if !full {
            match n.checked_mul(10) {
                Some(m) => match m.checked_add(digit) {
                    Some(x) => n = x,
                    None => full = true,
                },
                None => full = true,
            }
        }
        i += 1;
    }
    assert(t.take(i - start) =~= t);
    if full {
        None
    } else {
        Some(n)
    }
}

/// A whole number as text, with zeros in front up to a width.
pub fn padded_text(n: u64, digits_wanted: usize) -> (r: String)
    ensures
        r@ == padded_digits(n as nat, digits_wanted as nat),
{
    let mut digits: Vec<char> = Vec::new();
    let mut rest: u64 = n;
    let mut width: usize = digits_wanted;
    proof {
        lemma_reversed_empty();
    }
    while rest > 0 || width > 0
        invariant
            padded_digits(n as nat, digits_wanted as nat) == padded_digits(rest as nat, width as nat)
                + digits@.reverse(),
        decreases rest, width,
    {
        let d = (rest % 10) as u8;
        let c = (48 + d) as char;
        proof {
            let head = padded_digits((rest / 10) as nat, if width == 0 { 0 } else { (width - 1) as nat });
            assert(c == digit_char((rest % 10) as nat));
            assert(digits@.push(c).reverse() =~= seq![c] + digits@.reverse());
            assert(head.push(c) + digits@.reverse() =~= head + (seq![c] + digits@.reverse()));
        }
        digits.push(c);
        rest = rest / 10;
        if width > 0 {
            width -= 1;
        }
    }
    assert(padded_digits(0, 0) + digits@.reverse() =~= digits@.reverse());
    let mut s = String::new();
    let mut i: usize = digits.len();
    while i > 0
        invariant
            i <= digits@.len(),
            s@ == digits@.skip(i as int).reverse(),
        decreases i,
    {
        s.push(digits[i - 1]);
        i -= 1;
        assert(digits@.skip(i as int).reverse() =~= digits@.skip(i + 1).reverse().push(digits@[i as int]));
    }
    assert(digits@.skip(0) =~= digits@);
    s
}

/// A whole number as text.
pub fn uint_text(n: u64) -> (r: String)
    ensures
        r@ == padded_digits(n as nat, 1),
{
    padded_text(n, 1)
}

/// A signed whole number as text.
pub open spec fn int_shown(n: int) -> Seq<char> {
    if n < 0 {
        seq!['-'] + padded_digits((-n) as nat, 1)
    } else {
        padded_digits(n as nat, 1)
    }
}

/// A signed whole number as text.
pub fn int_text(n: i64) -> (r: String)
    ensures
        r@ == int_shown(n as int),
{
    if n < 0 {
        let m: u64 = if n == i64::MIN {
            9_223_372_036_854_775_808
        } else {
            (-n) as u64
        };
        let mut s = String::new();
        s.push('-');
        s.append(padded_text(m, 1).as_str());
        assert(s@ =~= int_shown(n as int));
        s
    } else {
        padded_text(n as u64, 1)
    }
}

/// The whole number that a text writes: digits, with an optional sign in front.
pub open spec fn int_of(s: Seq<char>) -> Option<int> {
    if s.len() > 0 && s[0] == '-' {
        let t = s.skip(1);
        if t.len() > 0 && all_digits(t) {
            Some(-(digits_value(t) as int))
        } else {
            None
        }
    } else {
        match uint_of(s) {
            Some(n) => Some(n as int),
            None => None,
        }
    }
}

/// Reads a signed whole number: `None` for anything else and for one that does not fit.
pub fn parse_int(v: &[char]) -> (r: Option<i64>)
    ensures
        match r {
            Some(n) => int_of(v@) == Some(n as int),
            None => int_of(v@) is None || int_of(v@)->0 < i64::MIN || int_of(v@)->0 > i64::MAX,
        },
{
    if v.len() > 0 && v[0] == '-' {
        let t = chars_of(text_of(v, 1, v.len()).as_str());
        assert(t@ =~= v@.skip(1));
        if t.len() > 0 && t[0] == '+' {
            assert(!is_digit(t@[0]));
            return None;
        }
        match parse_uint(&t) {
            Some(n) => if n < 9_223_372_036_854_775_808 {
                Some(-(n as i64))
            } else if n == 9_223_372_036_854_775_808 {
                Some(i64::MIN)
            } else {
                None
            },
            None => None,
        }
    } else {
        match parse_uint(v) {
            Some(n) => if n <= i64::MAX as u64 {
                Some(n as i64)
            } else {
                None
            },
            None => None,
        }
    }
}

proof fn lemma_reversed_empty()
    ensures
        forall|a: Seq<char>| #![auto] a + Seq::<char>::empty().reverse() == a,
{
    assert forall|a: Seq<char>| #![auto] a + Seq::<char>::empty().reverse() == a by {
        assert(a + Seq::<char>::empty().reverse() =~= a);
    }
}

/// The pieces of a text between the separators, from index `i` on; `from` is where the piece
/// begins that `i` is in.
pub open spec fn pieces_from(s: Seq<char>, sep: char, from: int, i: int) -> Seq<Seq<char>>
    decreases s.len() - i,
{
    if i >= s.len() {
        seq![s.subrange(from, s.len() as int)]
    } else if s[i] == sep {
        seq![s.subrange(from, i)] + pieces_from(s, sep, i + 1, i + 1)
    } else {
        pieces_from(s, sep, from, i + 1)
    }
}

/// The pieces of a text between the separators; a text without one is one piece.
pub open spec fn pieces(s: Seq<char>, sep: char) -> Seq<Seq<char>> {
    pieces_from(s, sep, 0, 0)
}

/// Texts as what they say.
pub open spec fn texts(v: Seq<String>) -> Seq<Seq<char>> {
    v.map_values(|s: String| s@)
}

/// Splits characters at every separator.
pub fn split_at(v: &[char], sep: char) -> (r: Vec<String>)
    ensures
        texts(r@) == pieces(v@, sep),
        r@.len() > 0,
{
    let mut out: Vec<String> = Vec::new();
    let mut from: usize = 0;
    let mut i: usize = 0;
    assert(texts(out@) + pieces(v@, sep) =~= pieces(v@, sep));
    while i < v.len()
        invariant
            from <= i <= v@.len(),
            pieces(v@, sep) == texts(out@) + pieces_from(v@, sep, from as int, i as int),
        decreases v@.len() - i,
    {
        if v[i] == sep {
            let ghost before = texts(out@);
            let piece = text_of(v, from, i);
            let ghost p = piece@;
            out.push(piece);
            proof {
                let more = pieces_from(v@, sep, i + 1, i + 1);
                assert(texts(out@) =~= before.push(p));
                assert(before + (seq![p] + more) =~= before.push(p) + more);
            }
            from = i + 1;
        }
        i += 1;
    }
    let ghost before = texts(out@);
    let piece = text_of(v, from, v.len());
    let ghost p = piece@;
    out.push(piece);
    assert(texts(out@) =~= before + seq![p]);
    out
}

/// Whether a text stands at index `i` of another.
pub open spec fn stands_at(s: Seq<char>, pat: Seq<char>, i: int) -> bool {
    0 <= i && i + pat.len() <= s.len() && s.subrange(i, i + pat.len()) == pat
}

/// Whether the characters `pat` stand at index `i`.
pub fn text_at(v: &[char], pat: &[char], i: usize) -> (r: bool)
    ensures
        r == stands_at(v@, pat@, i as int),
{
    let n: usize = v.len();
    if i > n || pat.len() > n - i {
        return false;
    }
    let mut k: usize = 0;
    while k < pat.len()
        invariant
            k <= pat@.len(),
            n == v@.len(),
            i + pat@.len() <= n,
            forall|j: int| 0 <= j < k ==> v@[i + j] == #[trigger] pat@[j],
        decreases pat@.len() - k,
    {
        if v[i + k] != pat[k] {
            assert(v@.subrange(i as int, i + pat@.len())[k as int] != pat@[k as int]);
            return false;
        }
        k += 1;
    }
    assert(v@.subrange(i as int, i + pat@.len()) =~= pat@);
    true
}

/// Where a text first stands at or after `from`.
pub open spec fn first_text(s: Seq<char>, pat: Seq<char>, from: int) -> Option<int>
    decreases s.len() + 1 - from,
{
    if from + pat.len() > s.len() {
        None
    } else if stands_at(s, pat, from) {
        Some(from)
    } else {
        first_text(s, pat, from + 1)
    }
}

/// The index at or after `from` where the characters `pat` first stand.
pub fn find_text(v: &[char], pat: &[char], from: usize) -> (r: Option<usize>)
    requires
        from <= v@.len(),
    ensures
        match r {
            Some(i) => first_text(v@, pat@, from as int) == Some(i as int) && from <= i && i + pat@.len() <= v@.len(),
            None => first_text(v@, pat@, from as int) is None,
        },
{
    let n: usize = v.len();
    let mut i: usize = from;
    while i <= n && pat.len() <= n - i
        invariant
            from <= i <= n,
            n == v@.len(),
            first_text(v@, pat@, from as int) == first_text(v@, pat@, i as int),
        decreases n - i,
    {
        if text_at(v, pat, i) {
            return Some(i);
        }
        assert(pat@.len() == 0 ==> v@.subrange(i as int, i as int) =~= pat@);
        if i == n {
            return None;
        }
        i += 1;
    }
    None
}

/// Whether a text stands anywhere in another.
pub open spec fn has_text(s: Seq<char>, pat: Seq<char>) -> bool {
    first_text(s, pat, 0) is Some
}

/// Whether `pat` stands anywhere in `s`.
pub fn contains_text(s: &str, pat: &str) -> (r: bool)
    ensures
        r == has_text(s@, pat@),
{
    find_text(&chars_of(s), &chars_of(pat), 0).is_some()
}

/// Whether `s` begins with `pat`.
pub fn begins_with(s: &str, pat: &str) -> (r: bool)
    ensures
        r == stands_at(s@, pat@, 0),
{
    text_at(&chars_of(s), &chars_of(pat), 0)
}

/// Whether a character occurs in a text.
pub open spec fn has_char(s: Seq<char>, c: char) -> bool {
    s.contains(c)
}

/// A text without some character, from index `i` on.
pub open spec fn without_char_from(s: Seq<char>, c: char, i: int) -> Seq<char>
    decreases s.len() - i,
{
    if i >= s.len() {
        Seq::empty()
    } else if s[i] == c {
        without_char_from(s, c, i + 1)
    } else {
        seq![s[i]] + without_char_from(s, c, i + 1)
    }
}

/// A text without some character.
pub open spec fn without_char(s: Seq<char>, c: char) -> Seq<char> {
    without_char_from(s, c, 0)
}

/// `s` without the character `c`.
pub fn drop_char(s: &str, c: char) -> (r: String)
    ensures
        r@ == without_char(s@, c),
{
    let v = chars_of(s);
    let mut out = String::new();
    let mut i: usize = 0;
    assert(out@ + without_char(v@, c) =~= without_char(v@, c));
    while i < v.len()
        invariant
            i <= v@.len(),
            out@ + without_char_from(v@, c, i as int) == without_char(v@, c),
        decreases v@.len() - i,
    {
        if v[i] != c {
            assert(out@.push(v@[i as int]) + without_char_from(v@, c, i + 1) =~= out@ + (seq![v@[i as int]]
                + without_char_from(v@, c, i + 1)));
            out.push(v[i]);
        }
        i += 1;
    }
    assert(out@ + without_char_from(v@, c, i as int) =~= out@);
    out
}

/// A text without another one, left to right, from index `i` on.
pub open spec fn without_text_from(s: Seq<char>, pat: Seq<char>, i: int) -> Seq<char>
    decreases s.len() - i,
{
    if i >= s.len() {
        Seq::empty()
    } else if pat.len() > 0 && stands_at(s, pat, i) {
        without_text_from(s, pat, i + pat.len())
    } else {
        seq![s[i]] + without_text_from(s, pat, i + 1)
    }
}

/// A text without another one wherever that stands, left to right.
pub open spec fn without_text(s: Seq<char>, pat: Seq<char>) -> Seq<char> {
    without_text_from(s, pat, 0)
}

/// `s` without `pat`.
pub fn drop_text(s: &str, pat: &str) -> (r: String)
    ensures
        r@ == without_text(s@, pat@),
{
    let v = chars_of(s);
    let p = chars_of(pat);
    let mut out = String::new();
    let mut i: usize = 0;
    assert(out@ + without_text(v@, p@) =~= without_text(v@, p@));
    while i < v.len()
        invariant
            i <= v@.len(),
            out@ + without_text_from(v@, p@, i as int) == without_text(v@, p@),
        decreases v@.len() - i,
    {
        if p.len() > 0 && text_at(&v, &p, i) {
            i += p.len();
        } else {
            assert(out@.push(v@[i as int]) + without_text_from(v@, p@, i + 1) =~= out@ + (seq![v@[i as int]]
                + without_text_from(v@, p@, i + 1)));
            out.push(v[i]);
            i += 1;
        }
    }
    assert(out@ + without_text_from(v@, p@, i as int) =~= out@);
    out
}

/// The blocks of a text between the marks, from index `from` on.
pub open spec fn blocks_from(s: Seq<char>, mark: Seq<char>, from: int) -> Seq<Seq<char>>
    decreases s.len() - from,
{
    match first_text(s, mark, from) {
        Some(i) => if 0 <= from <= i <= s.len() - mark.len() && mark.len() > 0 {
            seq![s.subrange(from, i)] + blocks_from(s, mark, i + mark.len())
        } else {
            seq![s.subrange(from, s.len() as int)]
        },
        None => seq![s.subrange(from, s.len() as int)],
    }
}

/// The blocks of a text between the marks; a text without one is one block.
pub open spec fn blocks(s: Seq<char>, mark: Seq<char>) -> Seq<Seq<char>> {
    blocks_from(s, mark, 0)
}

/// Splits a text at every mark.
pub fn split_blocks(s: &str, mark: &str) -> (r: Vec<String>)
    requires
        mark@.len() > 0,
    ensures
        texts(r@) == blocks(s@, mark@),
        r@.len() > 0,
{
    let v = chars_of(s);
    let m = chars_of(mark);
    let mut out: Vec<String> = Vec::new();
    let mut from: usize = 0;
    assert(texts(out@) + blocks(v@, m@) =~= blocks(v@, m@));
    loop
        invariant
            from <= v@.len(),
            m@.len() > 0,
            m@ == mark@,
            v@ == s@,
            blocks(v@, m@) == texts(out@) + blocks_from(v@, m@, from as int),
        decreases v@.len() - from,
    {
        let ghost before = texts(out@);
        match find_text(&v, &m, from) {
            Some(i) => {
                let piece = text_of(&v, from, i);
                let ghost p = piece@;
                out.push(piece);
                proof {
                    let more = blocks_from(v@, m@, i + m@.len());
                    assert(texts(out@) =~= before.push(p));
                    assert(before + (seq![p] + more) =~= before.push(p) + more);
                }
                let after: usize = v.len();
                assert(i + m@.len() <= after);
                from = i + m.len();
            },
            None => {
                let piece = text_of(&v, from, v.len());
                let ghost p = piece@;
                out.push(piece);
                assert(texts(out@) =~= before + seq![p]);
                return out;
            },
        }
    }
}

/// A character with an ASCII capital made small.
pub open spec fn small(c: char) -> char {
    if 'A' <= c <= 'Z' {
        (c as int + 32) as char
    } else {
        c
    }
}

/// Characters with ASCII capitals made small.
pub open spec fn smalls(s: Seq<char>) -> Seq<char> {
    s.map_values(|c: char| small(c))
}

/// Makes the ASCII capitals small.
pub fn ascii_small(v: &[char]) -> (r: Vec<char>)
    ensures
        r@ == smalls(v@),
{
    let mut out: Vec<char> = Vec::new();
    let mut i: usize = 0;
    while i < v.len()
        invariant
            i <= v@.len(),
            out@ == smalls(v@.take(i as int)),
        decreases v@.len() - i,
    {
        let c = v[i];
        let d = if 'A' <= c && c <= 'Z' {
            (c as u8 + 32) as char
        } else {
            c
        };
        assert(d == small(c));
        assert(smalls(v@.take(i + 1)) =~= smalls(v@.take(i as int)).push(d));
        out.push(d);
        i += 1;
    }
    assert(v@.take(i as int) =~= v@);
    out
}

pub open spec fn is_ascii_alnum(c: char) -> bool {
    is_digit(c) || 'a' <= c <= 'z' || 'A' <= c <= 'Z'
}

/// Whether a character is an ASCII letter or digit.
pub fn ascii_alnum(c: char) -> (r: bool)
    ensures
        r == is_ascii_alnum(c),
{
    ('0' <= c && c <= '9') || ('a' <= c && c <= 'z') || ('A' <= c && c <= 'Z')
}

/// Texts one after the other, from index `i` on, with a separator in front of each but the first.
pub open spec fn joined_from(v: Seq<Seq<char>>, sep: Seq<char>, i: int) -> Seq<char>
    decreases v.len() - i,
{
    if i >= v.len() {
        Seq::empty()
    } else if i <= 0 {
        v[i] + joined_from(v, sep, i + 1)
    } else {
        sep + v[i] + joined_from(v, sep, i + 1)
    }
}

/// Texts one after the other with a separator between them.
pub open spec fn joined(v: Seq<Seq<char>>, sep: Seq<char>) -> Seq<char> {
    joined_from(v, sep, 0)
}

/// Joins texts with a separator.
pub fn join_texts(v: &[String], sep: &str) -> (r: String)
    ensures
        r@ == joined(texts(v@), sep@),
{
    let mut out = String::new();
    let mut i: usize = 0;
    let ghost t = texts(v@);
    assert(out@ + joined(t, sep@) =~= joined(t, sep@));
    while i < v.len()
        invariant
            i <= v@.len(),
            t == texts(v@),
            out@ + joined_from(t, sep@, i as int) == joined(t, sep@),
        decreases v@.len() - i,
    {
        let ghost before = out@;
        let ghost rest = joined_from(t, sep@, i + 1);
        if i > 0 {
            out.append(sep);
        }
        out.append(v[i].as_str());
        proof {
            assert(t[i as int] == v@[i as int]@);
            if i > 0 {
                assert((before + sep@ + t[i as int]) + rest =~= before + (sep@ + t[i as int] + rest));
            } else {
                assert((before + t[i as int]) + rest =~= before + (t[i as int] + rest));
            }
        }
        i += 1;
    }
    assert(out@ + joined_from(t, sep@, i as int) =~= out@);
    out
}

/// The first two parts of a text at the first separator.
pub open spec fn cut(s: Seq<char>, sep: char) -> Option<(Seq<char>, Seq<char>)> {
    match first_at(s, sep, 0) {
        Some(i) => Some((s.take(i), s.skip(i + 1))),
        None => None,
    }
}

/// Cuts a text in two at the first separator.
pub fn cut_at(s: &str, sep: char) -> (r: Option<(String, String)>)
    ensures
        match cut(s@, sep) {
            Some((a, b)) => r matches Some(p) && p.0@ == a && p.1@ == b,
            None => r is None,
        },
{
    let v = chars_of(s);
    match find_char(&v, sep, 0) {
        Some(i) => {
            let n: usize = v.len();
            let a = text_of(&v, 0, i);
            let b = text_of(&v, i + 1, n);
            assert(v@.subrange(0, i as int) =~= v@.take(i as int));
            assert(v@.subrange(i + 1, v@.len() as int) =~= v@.skip(i + 1));
            Some((a, b))
        },
        None => None,
    }
}

/// A character with an ASCII small letter made a capital.
pub open spec fn capital(c: char) -> char {
    if 'a' <= c <= 'z' {
        (c as int - 32) as char
    } else {
        c
    }
}

/// Characters with ASCII small letters made capitals.
pub open spec fn capitals(s: Seq<char>) -> Seq<char> {
    s.map_values(|c: char| capital(c))
}

/// What `str::to_uppercase` makes of a text that is not ASCII.
pub uninterp spec fn unicode_uppered(s: Seq<char>) -> Seq<char>;

/// A text in capitals.
pub open spec fn uppered(s: Seq<char>) -> Seq<char> {
    if all_ascii(s) {
        capitals(s)
    } else {
        unicode_uppered(s)
    }
}

/// Calls `str::to_uppercase`. Claimed: of an ASCII text it makes the small letters capitals and
/// nothing else, and of any other the outcome depends on the text alone.
#[verifier::external_body]
pub(crate) fn uppercase(s: &str) -> (r: String)
    ensures
        all_ascii(s@) ==> r@ == capitals(s@),
        !all_ascii(s@) ==> r@ == unicode_uppered(s@),
{
    s.to_uppercase()
}

/// What `String::from_utf8_lossy` makes of bytes.
pub uninterp spec fn lossy_text(bytes: Seq<u8>) -> Seq<char>;

/// Calls `String::from_utf8_lossy`. Claimed: the outcome depends on the bytes alone.
#[verifier::external_body]
pub(crate) fn lossy(bytes: &[u8]) -> (r: String)
    ensures
        r@ == lossy_text(bytes@),
{
    String::from_utf8_lossy(bytes).into_owned()
}

/// The digit of base sixteen below sixteen.
pub open spec fn hex_char(d: nat) -> char {
    if d < 10 {
        (48 + d) as char
    } else {
        (87 + d) as char
    }
}

/// A number in base sixteen with `width` digits.
pub open spec fn hex_digits(n: nat, width: nat) -> Seq<char>
    decreases width,
{
    if width == 0 {
        Seq::empty()
    } else {
        hex_digits(n / 16, (width - 1) as nat).push(hex_char(n % 16))
    }
}

/// A number in base sixteen with `width` digits.
pub fn hex_text(n: u64, width: usize) -> (r: String)
    ensures
        r@ == hex_digits(n as nat, width as nat),
{
    let mut digits: Vec<char> = Vec::new();
    let mut rest: u64 = n;
    let mut left: usize = width;
    assert(hex_digits(n as nat, width as nat) + digits@.reverse() =~= hex_digits(n as nat, width as nat));
    while left > 0
        invariant
            left <= width,
            hex_digits(n as nat, width as nat) == hex_digits(rest as nat, left as nat) + digits@.reverse(),
        decreases left,
    {
        let d = (rest % 16) as u8;
        let c = if d < 10 {
            (48 + d) as char
        } else {
            (87 + d) as char
        };
        proof {
            let head = hex_digits((rest / 16) as nat, (left - 1) as nat);
            assert(c == hex_char((rest % 16) as nat));
            assert(digits@.push(c).reverse() =~= seq![c] + digits@.reverse());
            assert(head.push(c) + digits@.reverse() =~= head + (seq![c] + digits@.reverse()));
        }
        digits.push(c);
        rest = rest / 16;
        left -= 1;
    }
    assert(hex_digits(rest as nat, 0) + digits@.reverse() =~= digits@.reverse());
    let mut s = String::new();
    let mut i: usize = digits.len();
    while i > 0
        invariant
            i <= digits@.len(),
            s@ == digits@.skip(i as int).reverse(),
        decreases i,
    {
        s.push(digits[i - 1]);
        i -= 1;
        assert(digits@.skip(i as int).reverse() =~= digits@.skip(i + 1).reverse().push(digits@[i as int]));
    }
    assert(digits@.skip(0) =~= digits@);
    s
}

} // verus!
