//! Company fundamentals: KRX from OpenDART, US from SEC EDGAR.
use crate::decimal::{abs_int, max_int, opt_over, opt_rounded, padded_digits, pow10, representable, unit, Decimal};
use crate::domain::Currency;
use crate::text::{
    ascii_alnum, ascii_small, chars_of, find_char, find_text, first_at, first_text, is_ascii_alnum, is_digit,
    is_white, join_texts, joined, lead, parse_uint, pieces, same_text, smalls, split_at, stands_at, text_at, text_of,
    texts, uint_of, uint_text, white,
};
use vstd::prelude::*;

pub mod dart;
pub mod edgar;
pub mod markup;

verus! {

/// How many characters a page of a filing has.
pub const PAGE_CHARS: usize = 20_000;

/// The figures of a fiscal period. Days are counted from 1970-01-01.
#[derive(Debug)]
pub struct PeriodFinancials {
    /// `FY2025`, `2026Q2`, …
    pub label: String,
    pub end: i64,
    pub revenue: Option<Decimal>,
    pub operating_income: Option<Decimal>,
    pub net_income: Option<Decimal>,
    pub eps: Option<Decimal>,
    pub equity: Option<Decimal>,
}

/// What the figures of a period say.
pub ghost struct PeriodView {
    pub label: Seq<char>,
    pub end: i64,
    pub revenue: Option<Decimal>,
    pub operating_income: Option<Decimal>,
    pub net_income: Option<Decimal>,
    pub eps: Option<Decimal>,
    pub equity: Option<Decimal>,
}

impl View for PeriodFinancials {
    type V = PeriodView;

    open spec fn view(&self) -> PeriodView {
        PeriodView {
            label: self.label@,
            end: self.end,
            revenue: self.revenue,
            operating_income: self.operating_income,
            net_income: self.net_income,
            eps: self.eps,
            equity: self.equity,
        }
    }
}

/// Periods as what they say.
pub open spec fn period_views(v: Seq<PeriodFinancials>) -> Seq<PeriodView> {
    v.map_values(|p: PeriodFinancials| p@)
}

/// An optional period as what it says.
pub open spec fn quarter_view(q: Option<PeriodFinancials>) -> Option<PeriodView> {
    match q {
        Some(p) => Some(p@),
        None => None,
    }
}

#[derive(Debug)]
pub struct Fundamentals {
    pub currency: Currency,
    /// Newest first, at most 3.
    pub annual: Vec<PeriodFinancials>,
    pub latest_quarter: Option<PeriodFinancials>,
    pub shares_outstanding: Option<Decimal>,
    /// EPS derived as net income / shares (DART) rather than reported (EDGAR).
    pub eps_computed: bool,
}

/// What the fundamentals of a company say.
pub ghost struct FundamentalsView {
    pub currency: Currency,
    pub annual: Seq<PeriodView>,
    pub latest_quarter: Option<PeriodView>,
    pub shares_outstanding: Option<Decimal>,
    pub eps_computed: bool,
}

impl View for Fundamentals {
    type V = FundamentalsView;

    open spec fn view(&self) -> FundamentalsView {
        FundamentalsView {
            currency: self.currency,
            annual: period_views(self.annual@),
            latest_quarter: quarter_view(self.latest_quarter),
            shares_outstanding: self.shares_outstanding,
            eps_computed: self.eps_computed,
        }
    }
}

#[derive(Debug)]
pub struct Filing {
    /// What `get_filing` takes.
    pub id: String,
    pub title: String,
    pub form: String,
    /// Day of filing, counted from 1970-01-01.
    pub date: i64,
    /// Human-readable page.
    pub url: String,
}

/// What is known of a filing.
pub ghost struct FilingView {
    pub id: Seq<char>,
    pub title: Seq<char>,
    pub form: Seq<char>,
    pub date: i64,
    pub url: Seq<char>,
}

impl View for Filing {
    type V = FilingView;

    open spec fn view(&self) -> FilingView {
        FilingView { id: self.id@, title: self.title@, form: self.form@, date: self.date, url: self.url@ }
    }
}

/// Filings as what is known of them.
pub open spec fn filing_views(v: Seq<Filing>) -> Seq<FilingView> {
    v.map_values(|f: Filing| f@)
}

#[derive(Debug, Clone, Copy, PartialEq)]
pub struct Ratios {
    pub per: Option<Decimal>,
    pub pbr: Option<Decimal>,
}

/// Price over earnings per share, to two places; nothing where there are no earnings. The outer
/// option is none where a decimal cannot hold the quotient.
pub open spec fn per_of(price: Decimal, eps: Option<Decimal>) -> Option<Option<Decimal>> {
    match eps {
        Some(e) => if e.value() > 0 {
            match opt_rounded(price.over(e), 2) {
                Some(q) => Some(Some(q)),
                None => None,
            }
        } else {
            Some(None)
        },
        None => Some(None),
    }
}

/// Price over book value per share, to two places; nothing where there is no book value or no
/// share. The outer option is none where a decimal cannot hold a quotient.
pub open spec fn pbr_of(price: Decimal, equity: Option<Decimal>, shares: Option<Decimal>) -> Option<Option<Decimal>> {
    match (equity, shares) {
        (Some(eq), Some(sh)) => if eq.value() > 0 && sh.value() > 0 {
            match opt_rounded(opt_over(Some(price), eq.over(sh)), 2) {
                Some(q) => Some(Some(q)),
                None => None,
            }
        } else {
            Some(None)
        },
        _ => Some(None),
    }
}

/// The ratios of a price to the latest annual figures.
pub open spec fn ratios_of(price: Decimal, f: FundamentalsView) -> Option<Ratios> {
    let eps = if f.annual.len() > 0 {
        f.annual[0].eps
    } else {
        None
    };
    let equity = if f.annual.len() > 0 {
        f.annual[0].equity
    } else {
        None
    };
    match (per_of(price, eps), pbr_of(price, equity, f.shares_outstanding)) {
        (Some(per), Some(pbr)) => Some(Ratios { per, pbr }),
        _ => None,
    }
}

/// PER from the latest annual EPS and PBR from latest annual equity per share; `None` when
/// earnings or book value are not positive or an input is missing. The result as a whole is `None`
/// where a decimal cannot hold a quotient.
pub fn ratios(price: Decimal, f: &Fundamentals) -> (r: Option<Ratios>)
    ensures
        r == ratios_of(price, f@),
{
    let (eps, equity) = if f.annual.len() > 0 {
        assert(f@.annual[0] == f.annual@[0]@);
        (f.annual[0].eps, f.annual[0].equity)
    } else {
        (None, None)
    };
    let per = match eps {
        Some(e) => if e.is_positive() {
            Some(price.checked_div(e)?.round_dp(2))
        } else {
            None
        },
        None => None,
    };
    let pbr = match (equity, f.shares_outstanding) {
        (Some(eq), Some(sh)) => if eq.is_positive() && sh.is_positive() {
            Some(price.checked_div(eq.checked_div(sh)?)?.round_dp(2))
        } else {
            None
        },
        _ => None,
    };
    Some(Ratios { per, pbr })
}

/// The digit that a character writes in base sixteen.
pub open spec fn hex_digit(c: char) -> Option<nat> {
    if is_digit(c) {
        Some((c as nat - 48) as nat)
    } else if 'a' <= c <= 'f' {
        Some((c as nat - 87) as nat)
    } else if 'A' <= c <= 'F' {
        Some((c as nat - 55) as nat)
    } else {
        None
    }
}

/// The number that digits of base sixteen write, from index `i` on, after `n`.
pub open spec fn hex_from(s: Seq<char>, i: int, n: nat) -> Option<nat>
    decreases s.len() - i,
{
    if i >= s.len() {
        Some(n)
    } else {
        match hex_digit(s[i]) {
            Some(d) => hex_from(s, i + 1, 16 * n + d),
            None => None,
        }
    }
}

/// The number that a text writes in base sixteen, with an optional plus sign in front.
pub open spec fn hex_of(s: Seq<char>) -> Option<nat> {
    let from: int = if s.len() > 0 && s[0] == '+' {
        1
    } else {
        0
    };
    if from >= s.len() {
        None
    } else {
        hex_from(s, from, 0)
    }
}

proof fn lemma_hex_grows(s: Seq<char>, i: int, n: nat)
    ensures
        hex_from(s, i, n) matches Some(m) ==> m >= n,
    decreases s.len() - i,
{
    if i < s.len() {
        match hex_digit(s[i]) {
            Some(d) => lemma_hex_grows(s, i + 1, 16 * n + d),
            None => {},
        }
    }
}

fn parse_hex(v: &[char]) -> (r: Option<u32>)
    ensures
        match r {
            Some(n) => hex_of(v@) == Some(n as nat),
            None => hex_of(v@) is None || hex_of(v@)->0 > u32::MAX,
        },
{
    let from: usize = if v.len() > 0 && v[0] == '+' {
        1
    } else {
        0
    };
    if from >= v.len() {
        return None;
    }
    let mut n: u32 = 0;
    let mut i: usize = from;
    while i < v.len()
        invariant
            i <= v@.len(),
            hex_of(v@) == hex_from(v@, i as int, n as nat),
        decreases v@.len() - i,
    {
        let c = v[i];
        let d: u32 = if '0' <= c && c <= '9' {
            c as u32 - 48
        } else if 'a' <= c && c <= 'f' {
            c as u32 - 87
        } else if 'A' <= c && c <= 'F' {
            c as u32 - 55
        } else {
            return None;
        };
        proof {
            lemma_hex_grows(v@, i + 1, (16 * n + d) as nat);
        }
        n = match n.checked_mul(16) {
            Some(m) => match m.checked_add(d) {
                Some(x) => x,
                None => return None,
            },
            None => return None,
        };
        i += 1;
    }
    Some(n)
}

/// The character with a number, if there is one.
pub open spec fn scalar(n: nat) -> Option<char> {
    if n <= 0xD7FF || 0xE000 <= n <= 0x10FFFF {
        Some(n as char)
    } else {
        None
    }
}

/// Calls `char::from_u32`. Claimed: there is a character for each number up to 0x10FFFF that is
/// no surrogate, and it has that number.
#[verifier::external_body]
fn char_numbered(n: u32) -> (r: Option<char>)
    ensures
        r == scalar(n as nat),
{
    char::from_u32(n)
}

/// A number as a character.
pub open spec fn numbered(n: Option<nat>) -> Option<char> {
    match n {
        Some(n) => scalar(n),
        None => None,
    }
}

/// The character that an entity stands for.
pub open spec fn entity_char(e: Seq<char>) -> Option<char> {
    if e == "amp"@ {
        Some('&')
    } else if e == "lt"@ {
        Some('<')
    } else if e == "gt"@ {
        Some('>')
    } else if e == "quot"@ {
        Some('"')
    } else if e == "apos"@ || e == "#39"@ {
        Some('\'')
    } else if e == "nbsp"@ || e == "#160"@ {
        Some(' ')
    } else if stands_at(e, "#x"@, 0) || stands_at(e, "#X"@, 0) {
        numbered(hex_of(e.skip(2)))
    } else if e.len() > 0 && e[0] == '#' {
        numbered(uint_of(e.skip(1)))
    } else {
        None
    }
}

fn decode_entity(v: &[char], from: usize, to: usize) -> (r: Option<char>)
    requires
        from <= to <= v@.len(),
    ensures
        r == entity_char(v@.subrange(from as int, to as int)),
{
    let text = text_of(v, from, to);
    let e = text.as_str();
    if same_text(e, "amp") {
        Some('&')
    } else if same_text(e, "lt") {
        Some('<')
    } else if same_text(e, "gt") {
        Some('>')
    } else if same_text(e, "quot") {
        Some('"')
    } else if same_text(e, "apos") || same_text(e, "#39") {
        Some('\'')
    } else if same_text(e, "nbsp") || same_text(e, "#160") {
        Some(' ')
    } else {
        let c = chars_of(e);
        proof {
            reveal_strlit("#x");
            reveal_strlit("#X");
        }
        if text_at(&c, &chars_of("#x"), 0) || text_at(&c, &chars_of("#X"), 0) {
            let rest = chars_of(text_of(&c, 2, c.len()).as_str());
            assert(rest@ =~= c@.skip(2));
            match parse_hex(&rest) {
                Some(n) => char_numbered(n),
                None => None,
            }
        } else if c.len() > 0 && c[0] == '#' {
            let rest = chars_of(text_of(&c, 1, c.len()).as_str());
            assert(rest@ =~= c@.skip(1));
            match parse_uint(&rest) {
                Some(n) => if n <= u32::MAX as u64 {
                    char_numbered(n as u32)
                } else {
                    None
                },
                None => None,
            }
        } else {
            None
        }
    }
}

/// A text with its entities decoded, from index `i` on. An entity is at most nine characters
/// between `&` and `;`.
pub open spec fn unescaped_from(s: Seq<char>, i: int) -> Seq<char>
    decreases s.len() - i,
{
    if i >= s.len() {
        Seq::empty()
    } else if s[i] == '&' {
        match first_at(s, ';', i) {
            Some(end) => match entity_char(s.subrange(i + 1, end)) {
                Some(c) => if i < end < s.len() && end <= i + 10 {
                    seq![c] + unescaped_from(s, end + 1)
                } else {
                    seq!['&'] + unescaped_from(s, i + 1)
                },
                None => seq!['&'] + unescaped_from(s, i + 1),
            },
            None => seq!['&'] + unescaped_from(s, i + 1),
        }
    } else {
        seq![s[i]] + unescaped_from(s, i + 1)
    }
}

/// A text with its entities decoded.
pub fn unescape(v: &[char]) -> (r: Vec<char>)
    ensures
        r@ == unescaped_from(v@, 0),
{
    let mut out: Vec<char> = Vec::new();
    let mut i: usize = 0;
    let ghost whole = unescaped_from(v@, 0);
    assert(out@ + whole =~= whole);
    while i < v.len()
        invariant
            i <= v@.len(),
            whole == unescaped_from(v@, 0),
            out@ + unescaped_from(v@, i as int) == whole,
        decreases v@.len() - i,
    {
        let n: usize = v.len();
        let ghost before = out@;
        let mut c = v[i];
        let mut next: usize = i + 1;
        if v[i] == '&' {
            match find_char(v, ';', i) {
                Some(end) => {
                    if end > i && end - i <= 10 {
                        match decode_entity(v, i + 1, end) {
                            Some(d) => {
                                c = d;
                                next = end + 1;
                            },
                            None => {},
                        }
                    }
                },
                None => {},
            }
        }
        out.push(c);
        proof {
            assert(unescaped_from(v@, i as int) == seq![c] + unescaped_from(v@, next as int));
            assert(before + (seq![c] + unescaped_from(v@, next as int)) =~= before.push(c) + unescaped_from(
                v@,
                next as int,
            ));
        }
        i = next;
    }
    assert(out@ + unescaped_from(v@, i as int) =~= out@);
    out
}

/// The first index from `i` on that does not hold `c`.
pub open spec fn past_char(s: Seq<char>, c: char, i: int) -> int
    decreases s.len() - i,
{
    if 0 <= i < s.len() && s[i] == c {
        past_char(s, c, i + 1)
    } else {
        i
    }
}

/// The first index from `i` on that holds no ASCII letter or digit.
pub open spec fn past_alnum(s: Seq<char>, i: int) -> int
    decreases s.len() - i,
{
    if 0 <= i < s.len() && is_ascii_alnum(s[i]) {
        past_alnum(s, i + 1)
    } else {
        i
    }
}

/// The name of a tag: what follows `<`, with an optional `/`.
pub open spec fn tag_name(t: Seq<char>) -> Seq<char> {
    let a = past_char(t, '/', past_char(t, '<', 0));
    t.subrange(a, past_alnum(t, a))
}

/// Whether a tag ends a line.
pub open spec fn breaks_line(name: Seq<char>) -> bool {
    name == "p"@ || name == "br"@ || name == "tr"@ || name == "div"@ || name == "li"@ || name == "h1"@ || name == "h2"@
        || name == "h3"@ || name == "h4"@ || name == "title"@ || name == "table"@
}

fn name_of_tag(t: &[char]) -> (r: String)
    ensures
        r@ == tag_name(t@),
{
    let mut a: usize = 0;
    while a < t.len() && t[a] == '<'
        invariant
            a <= t@.len(),
            past_char(t@, '<', 0) == past_char(t@, '<', a as int),
        decreases t@.len() - a,
    {
        a += 1;
    }
    let ghost first = a as int;
    while a < t.len() && t[a] == '/'
        invariant
            a <= t@.len(),
            past_char(t@, '/', first) == past_char(t@, '/', a as int),
        decreases t@.len() - a,
    {
        a += 1;
    }
    let mut b: usize = a;
    while b < t.len() && ascii_alnum(t[b])
        invariant
            a <= b <= t@.len(),
            past_alnum(t@, a as int) == past_alnum(t@, b as int),
        decreases t@.len() - b,
    {
        b += 1;
    }
    text_of(t, a, b)
}

fn is_line_break(n: &str) -> (r: bool)
    ensures
        r == breaks_line(n@),
{
    same_text(n, "p") || same_text(n, "br") || same_text(n, "tr") || same_text(n, "div") || same_text(n, "li")
        || same_text(n, "h1") || same_text(n, "h2") || same_text(n, "h3") || same_text(n, "h4") || same_text(n, "title")
        || same_text(n, "table")
}

/// Where the tag at index `i` ends.
pub open spec fn tag_end(s: Seq<char>, i: int) -> int {
    match first_at(s, '>', i) {
        Some(e) => e + 1,
        None => s.len() as int,
    }
}

/// Where the text goes on behind a script or style that opens at index `i`: at its closing tag.
pub open spec fn after_script(low: Seq<char>, name: Seq<char>, end: int) -> int {
    match first_text(low, "</"@ + name, end) {
        Some(c) => c,
        None => low.len() as int,
    }
}

/// Markup without its tags, from index `i` on; `low` is the markup with small letters. A tag
/// becomes a line break or a blank; what scripts and styles hold is dropped.
pub open spec fn untagged_from(s: Seq<char>, low: Seq<char>, i: int) -> Seq<char>
    decreases s.len() - i,
{
    if i >= s.len() {
        Seq::empty()
    } else if s[i] == '<' {
        let end = tag_end(s, i);
        let name = tag_name(low.subrange(i, end));
        let next = if !stands_at(low, "</"@, i) && (name == "script"@ || name == "style"@) {
            after_script(low, name, end)
        } else {
            end
        };
        let mark = if !stands_at(low, "</"@, i) && (name == "script"@ || name == "style"@) {
            Seq::empty()
        } else if breaks_line(name) {
            seq!['\n']
        } else {
            seq![' ']
        };
        if i < next <= s.len() {
            mark + untagged_from(s, low, next)
        } else {
            mark
        }
    } else {
        seq![s[i]] + untagged_from(s, low, i + 1)
    }
}

fn untag(s: &[char], low: &[char]) -> (r: Vec<char>)
    requires
        s@.len() == low@.len(),
    ensures
        r@ == untagged_from(s@, low@, 0),
{
    let mut out: Vec<char> = Vec::new();
    let mut i: usize = 0;
    let slash = chars_of("</");
    let ghost whole = untagged_from(s@, low@, 0);
    assert(out@ + whole =~= whole);
    while i < s.len()
        invariant
            i <= s@.len(),
            s@.len() == low@.len(),
            slash@ == "</"@,
            whole == untagged_from(s@, low@, 0),
            out@ + untagged_from(s@, low@, i as int) == whole,
        decreases s@.len() - i,
    {
        let n: usize = s.len();
        let ghost before = out@;
        if s[i] == '<' {
            let end: usize = match find_char(s, '>', i) {
                Some(e) => e + 1,
                None => n,
            };
            assert(end == tag_end(s@, i as int));
            let tag = chars_of(text_of(low, i, end).as_str());
            let name = name_of_tag(&tag);
            if !text_at(low, &slash, i) && (same_text(name.as_str(), "script") || same_text(name.as_str(), "style")) {
                let mut close = "</".to_owned();
                close.append(name.as_str());
                let next: usize = match find_text(low, &chars_of(close.as_str()), end) {
                    Some(c) => c,
                    None => n,
                };
                assert(next == after_script(low@, name@, end as int));
                assert(before + (Seq::<char>::empty() + untagged_from(s@, low@, next as int)) =~= before
                    + untagged_from(s@, low@, next as int));
                i = next;
            } else {
                let mark = if is_line_break(name.as_str()) {
                    '\n'
                } else {
                    ' '
                };
                out.push(mark);
                assert(before + (seq![mark] + untagged_from(s@, low@, end as int)) =~= before.push(mark)
                    + untagged_from(s@, low@, end as int));
                i = end;
            }
        } else {
            let c = s[i];
            out.push(c);
            assert(before + (seq![c] + untagged_from(s@, low@, i + 1)) =~= before.push(c) + untagged_from(
                s@,
                low@,
                i + 1,
            ));
            i += 1;
        }
    }
    assert(out@ + untagged_from(s@, low@, i as int) =~= out@);
    out
}

/// The first index from `i` on that holds white space.
pub open spec fn word_end(s: Seq<char>, i: int) -> int
    decreases s.len() - i,
{
    if 0 <= i < s.len() && !is_white(s[i]) {
        word_end(s, i + 1)
    } else {
        i
    }
}

/// The words of a text from index `i` on: the runs without white space.
pub open spec fn words_from(s: Seq<char>, i: int) -> Seq<Seq<char>>
    decreases s.len() - i,
{
    let a = lead(s, i);
    let b = word_end(s, a);
    if i <= a < b <= s.len() {
        seq![s.subrange(a, b)] + words_from(s, b)
    } else {
        Seq::empty()
    }
}

fn words(v: &[char]) -> (r: Vec<String>)
    ensures
        texts(r@) == words_from(v@, 0),
{
    let mut out: Vec<String> = Vec::new();
    let mut i: usize = 0;
    assert(texts(out@) + words_from(v@, 0) =~= words_from(v@, 0));
    loop
        invariant
            i <= v@.len(),
            texts(out@) + words_from(v@, i as int) == words_from(v@, 0),
        decreases v@.len() - i,
    {
        let mut a: usize = i;
        while a < v.len() && white(v[a])
            invariant
                i <= a <= v@.len(),
                lead(v@, i as int) == lead(v@, a as int),
            decreases v@.len() - a,
        {
            a += 1;
        }
        if a == v.len() {
            assert(texts(out@) + words_from(v@, i as int) =~= texts(out@));
            return out;
        }
        let mut b: usize = a;
        while b < v.len() && !white(v[b])
            invariant
                a <= b <= v@.len(),
                word_end(v@, a as int) == word_end(v@, b as int),
            decreases v@.len() - b,
        {
            b += 1;
        }
        assert(word_end(v@, a as int) == word_end(v@, a + 1));
        proof {
            lemma_word_end(v@, a + 1);
        }
        let ghost before = texts(out@);
        let w = text_of(v, a, b);
        let ghost p = w@;
        out.push(w);
        proof {
            let more = words_from(v@, b as int);
            assert(texts(out@) =~= before.push(p));
            assert(before + (seq![p] + more) =~= before.push(p) + more);
        }
        i = b;
    }
}

proof fn lemma_word_end(s: Seq<char>, i: int)
    ensures
        word_end(s, i) >= i,
    decreases s.len() - i,
{
    if 0 <= i < s.len() && !is_white(s[i]) {
        lemma_word_end(s, i + 1);
    }
}

/// A line with its words set one blank apart.
pub open spec fn tidy(line: Seq<char>) -> Seq<char> {
    joined(words_from(line, 0), " "@)
}

/// The tidy lines from index `i` on that are not empty.
pub open spec fn tidy_lines(lines: Seq<Seq<char>>, i: int) -> Seq<Seq<char>>
    decreases lines.len() - i,
{
    if i >= lines.len() {
        Seq::empty()
    } else if tidy(lines[i]).len() == 0 {
        tidy_lines(lines, i + 1)
    } else {
        seq![tidy(lines[i])] + tidy_lines(lines, i + 1)
    }
}

/// The readable text of markup.
pub open spec fn readable(html: Seq<char>) -> Seq<char> {
    let plain = unescaped_from(untagged_from(html, smalls(html), 0), 0);
    joined(tidy_lines(pieces(plain, '\n'), 0), "\n"@)
}

/// Plain text from HTML or DART XML: scripts and styles dropped, block ends become line breaks,
/// entities decoded, whitespace collapsed.
pub fn html_to_text(html: &str) -> (r: String)
    ensures
        r@ == readable(html@),
{
    let v = chars_of(html);
    let low = ascii_small(&v);
    let plain = unescape(&untag(&v, &low));
    let lines = split_at(&plain, '\n');
    let mut out: Vec<String> = Vec::new();
    let mut i: usize = 0;
    let ghost whole = tidy_lines(texts(lines@), 0);
    assert(texts(out@) + whole =~= whole);
    while i < lines.len()
        invariant
            i <= lines@.len(),
            whole == tidy_lines(texts(lines@), 0),
            texts(out@) + tidy_lines(texts(lines@), i as int) == whole,
        decreases lines@.len() - i,
    {
        assert(texts(lines@)[i as int] == lines@[i as int]@);
        let line = join_texts(&words(&chars_of(lines[i].as_str())), " ");
        if chars_of(line.as_str()).len() > 0 {
            let ghost before = texts(out@);
            let ghost p = line@;
            out.push(line);
            proof {
                let more = tidy_lines(texts(lines@), i + 1);
                assert(texts(out@) =~= before.push(p));
                assert(before + (seq![p] + more) =~= before.push(p) + more);
            }
        }
        i += 1;
    }
    assert(texts(out@) + tidy_lines(texts(lines@), i as int) =~= texts(out@));
    join_texts(&out, "\n")
}

/// How many pages a text of some length has; an empty one has one.
pub open spec fn page_count(len: nat) -> nat {
    if len == 0 {
        1
    } else {
        (len + PAGE_CHARS - 1) as nat / (PAGE_CHARS as nat)
    }
}

/// One page of a text.
pub open spec fn page_of(text: Seq<char>, page: int) -> Seq<char> {
    let from = (page - 1) * PAGE_CHARS;
    let to = if from + PAGE_CHARS < text.len() {
        from + PAGE_CHARS
    } else {
        text.len() as int
    };
    text.subrange(from, to)
}

/// Page `page` (1-based) of `text`, and how many pages there are.
pub fn page_text(text: &str, page: usize) -> (r: Result<(String, usize), String>)
    ensures
        ({
            let pages = page_count(text@.len());
            if 1 <= page <= pages {
                r matches Ok(p) && p.0@ == page_of(text@, page as int) && p.1 == pages
            } else {
                r matches Err(m) && m@ == "page "@ + padded_digits(page as nat, 1)
                    + " does not exist; the filing has "@ + padded_digits(pages, 1) + " pages"@
            }
        }),
{
    let chars = chars_of(text);
    let n: usize = chars.len();
    let pages: usize = if n == 0 {
        1
    } else {
        (n - 1) / PAGE_CHARS + 1
    };
    assert(pages == page_count(n as nat));
    if page == 0 || page > pages {
        let mut m = "page ".to_owned();
        m.append(uint_text(page as u64).as_str());
        m.append(" does not exist; the filing has ");
        m.append(uint_text(pages as u64).as_str());
        m.append(" pages");
        return Err(m);
    }
    let start: usize = (page - 1) * PAGE_CHARS;
    let to: usize = if n - start > PAGE_CHARS {
        start + PAGE_CHARS
    } else {
        n
    };
    Ok((text_of(&chars, start, to), pages))
}

/// The pages of a text from number `p` on, one after the other.
pub open spec fn pages_from(text: Seq<char>, p: int) -> Seq<char>
    decreases page_count(text.len()) + 1 - p,
{
    if p > page_count(text.len()) {
        Seq::empty()
    } else {
        page_of(text, p) + pages_from(text, p + 1)
    }
}

proof fn lemma_pages(text: Seq<char>, p: int)
    requires
        1 <= p <= page_count(text.len()),
    ensures
        pages_from(text, p) == text.skip((p - 1) * PAGE_CHARS),
    decreases page_count(text.len()) - p,
{
    let from = (p - 1) * PAGE_CHARS;
    if p < page_count(text.len()) {
        lemma_pages(text, p + 1);
        assert(page_of(text, p) + text.skip(p * PAGE_CHARS) =~= text.skip(from));
    } else {
        assert(pages_from(text, p + 1) =~= Seq::<char>::empty());
        assert(page_of(text, p) + Seq::<char>::empty() =~= text.skip(from));
    }
}

/// The pages of a text make up the text: nothing is lost and nothing comes twice.
pub proof fn law_pages_make_up_the_text(text: Seq<char>)
    ensures
        pages_from(text, 1) == text,
{
    lemma_pages(text, 1);
    assert(text.skip(0) =~= text);
}

/// The ratios of a price: to the earnings per share of the latest year, and to its book value per share,
/// each to two places. There is none where the earnings, the book value or the shares are missing or not
/// positive. The book value per share is held by a decimal.
pub proof fn law_ratios_divide_the_price(price: Decimal, f: FundamentalsView)
    requires
        f.annual.len() > 0,
        ({
            let eq = f.annual[0].equity;
            let sh = f.shares_outstanding;
            eq is Some && sh is Some && eq->0.value() > 0 && sh->0.value() > 0 ==> (eq->0.value() * unit())
                % sh->0.value() == 0 && representable(eq->0.value() * unit() / sh->0.value()) && eq->0.value() * unit()
                / sh->0.value() > 0
        }),
    ensures
        ratios_of(price, f) matches Some(r) ==> {
            let eps = f.annual[0].eps;
            let eq = f.annual[0].equity;
            let sh = f.shares_outstanding;
            &&& r.per is Some <==> eps is Some && eps->0.value() > 0
            &&& r.per matches Some(x) ==> abs_int(2 * (x.value() * eps->0.value() - price.value() * unit()))
                <= eps->0.value() * pow10(26) + 2 * max_int(abs_int(price.value()), eps->0.value())
            &&& r.pbr is Some <==> eq is Some && sh is Some && eq->0.value() > 0 && sh->0.value() > 0
            &&& r.pbr matches Some(x) ==> {
                let each = eq->0.value() * unit() / sh->0.value();
                abs_int(2 * (x.value() * each - price.value() * unit())) <= each * pow10(26) + 2 * max_int(
                    abs_int(price.value()),
                    each,
                )
            }
        },
{
    if let Some(r) = ratios_of(price, f) {
        let eps = f.annual[0].eps;
        let eq = f.annual[0].equity;
        let sh = f.shares_outstanding;
        if eps is Some && eps->0.value() > 0 {
            lemma_ratio(price, eps->0);
        }
        if eq is Some && sh is Some && eq->0.value() > 0 && sh->0.value() > 0 {
            let a = eq->0;
            let b = sh->0;
            vstd::arithmetic::div_mod::lemma_fundamental_div_mod(a.value() * unit(), b.value());
            crate::decimal::lemma_exact_quotient(a, b, a.value() * unit() / b.value());
            lemma_ratio(price, a.over(b)->0);
        }
    }
}

/// A price over something, times it, is the price, up to the cent.
pub proof fn lemma_ratio(price: Decimal, by: Decimal)
    requires
        by.value() > 0,
    ensures
        opt_rounded(price.over(by), 2) matches Some(x) ==> abs_int(2 * (x.value() * by.value() - price.value() * unit()))
            <= by.value() * pow10(26) + 2 * max_int(abs_int(price.value()), by.value()),
{
    crate::decimal::lemma_quotient(price, by);
    if let Some(q) = price.over(by) {
        crate::decimal::lemma_rounded(q, 2);
        let a = q.rounded(2).value();
        let v = q.value();
        let t = by.value();
        let x = price.value() * unit();
        let g = pow10(26);
        let c = max_int(abs_int(price.value()), t);
        assert(abs_int(2 * (a * t - x)) <= t * g + 2 * c) by (nonlinear_arith)
            requires
                -g <= 2 * (a - v) <= g,
                -c <= v * t - x <= c,
                t > 0,
        ;
    }
}

} // verus!
