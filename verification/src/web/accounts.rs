//! Accounts on the dashboard: their ids, their cash, what they made.
use crate::broker::{Fill, FillView};
use crate::decimal::{
    digit_char, lemma_dec_parts, lemma_sums, opt_plus, padded_digits, representable, zero, Decimal,
};
use crate::domain::{id_text, quote, quoted, Currency, Side};
use crate::screen::text_view;
use crate::text::{
    ascii_alnum, ascii_small, chars_of, digits_value, is_ascii_alnum, lemma_lex_irreflexive, lemma_lex_total,
    lemma_lex_transitive, lex_less, same_text, smalls, text_before, text_of, texts, trim, trimmed, uint_text,
};
use crate::time::{day_of, split_second, Timestamp, Zone};
use crate::venue::local_second;
use crate::web::{bad_request, refused, senseless_request, ApiError, RefusalView};
use vstd::prelude::*;
use vstd::utf8::encode_utf8;

verus! {

/// What is answered about an account that does not exist.
pub open spec fn no_account_text(id: Seq<char>) -> RefusalView {
    refused(404, "not_found"@, "no account "@ + quoted(id))
}

/// What is answered about an account that does not exist.
pub fn no_account(id: &str) -> (r: ApiError)
    ensures
        r@ == no_account_text(id@),
{
    let mut m = "no account ".to_owned();
    m.append(quote(id).as_str());
    ApiError { status: 404, error: "not_found", message: m }
}

/// Cash by currency code as what it says.
pub open spec fn cash_entries(v: Seq<(String, Decimal)>) -> Seq<(Seq<char>, Decimal)> {
    v.map_values(|e: (String, Decimal)| (e.0@, e.1))
}

/// The first `n` entries as cash, or what is wrong with the first bad one.
pub open spec fn cash_from(v: Seq<(Seq<char>, Decimal)>, n: int) -> Result<Seq<(Currency, Decimal)>, RefusalView>
    decreases n,
{
    if n <= 0 {
        Ok(Seq::empty())
    } else {
        match cash_from(v, n - 1) {
            Err(e) => Err(e),
            Ok(s) => match Currency::coded(v[n - 1].0) {
                None => Err(
                    senseless_request("unknown currency "@ + quoted(v[n - 1].0) + "; use KRW, USD or USDT"@),
                ),
                Some(c) => if v[n - 1].1.value() < 0 {
                    Err(senseless_request(v[n - 1].0 + " cash cannot be negative"@))
                } else {
                    Ok(s.push((c, v[n - 1].1)))
                },
            },
        }
    }
}

proof fn lemma_cash_error(v: Seq<(Seq<char>, Decimal)>, i: int, n: int)
    requires
        0 <= i <= n,
        cash_from(v, i) is Err,
    ensures
        cash_from(v, n) == cash_from(v, i),
    decreases n,
{
    if i < n {
        lemma_cash_error(v, i, n - 1);
    }
}

/// The cash of an account to open or reset: some, by currency code, and never less than nothing.
pub fn parse_cash(cash: &[(String, Decimal)]) -> (r: Result<Vec<(Currency, Decimal)>, ApiError>)
    ensures
        if cash@.len() == 0 {
            r matches Err(e) && e@ == senseless_request("cash needs at least one currency"@)
        } else {
            match cash_from(cash_entries(cash@), cash@.len() as int) {
                Ok(s) => r matches Ok(v) && v@ == s,
                Err(m) => r matches Err(e) && e@ == m,
            }
        },
{
    if cash.len() == 0 {
        return Err(bad_request("cash needs at least one currency"));
    }
    let ghost all = cash_entries(cash@);
    let mut out: Vec<(Currency, Decimal)> = Vec::new();
    let mut i: usize = 0;
    while i < cash.len()
        invariant
            i <= cash@.len(),
            cash@.len() > 0,
            all == cash_entries(cash@),
            cash_from(all, i as int) == Ok::<Seq<(Currency, Decimal)>, RefusalView>(out@),
        decreases cash@.len() - i,
    {
        assert(all[i as int] == (cash@[i as int].0@, cash@[i as int].1));
        let code = cash[i].0.as_str();
        let amount = cash[i].1;
        match Currency::from_code(code) {
            None => {
                proof {
                    lemma_cash_error(all, i + 1, cash@.len() as int);
                }
                let mut m = "unknown currency ".to_owned();
                m.append(quote(code).as_str());
                m.append("; use KRW, USD or USDT");
                return Err(bad_request(m.as_str()));
            },
            Some(c) => {
                if amount.is_negative() {
                    proof {
                        lemma_cash_error(all, i + 1, cash@.len() as int);
                    }
                    let mut m = code.to_owned();
                    m.append(" cash cannot be negative");
                    return Err(bad_request(m.as_str()));
                }
                out.push((c, amount));
            },
        }
        i += 1;
    }
    Ok(out)
}

/// A character that an account id may have.
pub open spec fn id_char(c: char) -> bool {
    'a' <= c <= 'z' || '0' <= c <= '9' || c == '_' || c == '-'
}

/// An account id: 1 to 32 characters of a-z, 0-9, _ and -.
pub open spec fn is_account_id(id: Seq<char>) -> bool {
    1 <= id.len() <= 32 && forall|i: int| 0 <= i < id.len() ==> id_char(#[trigger] id[i])
}

pub fn valid_account_id(id: &str) -> (r: bool)
    ensures
        r == is_account_id(id@),
{
    let v = chars_of(id);
    if v.len() < 1 || v.len() > 32 {
        return false;
    }
    let mut i: usize = 0;
    while i < v.len()
        invariant
            i <= v@.len(),
            v@ == id@,
            forall|j: int| 0 <= j < i ==> id_char(#[trigger] v@[j]),
        decreases v@.len() - i,
    {
        let c = v[i];
        if !((c >= 'a' && c <= 'z') || (c >= '0' && c <= '9') || c == '_' || c == '-') {
            assert(!id_char(id@[i as int]));
            return false;
        }
        i += 1;
    }
    true
}

/// A name as a slug: letters and digits, with one dash for whatever stands between them.
pub open spec fn slug(s: Seq<char>) -> Seq<char>
    decreases s.len(),
{
    if s.len() == 0 {
        s
    } else {
        let head = slug(s.drop_last());
        if is_ascii_alnum(s.last()) {
            head.push(s.last())
        } else if head.len() > 0 && head.last() != '-' {
            head.push('-')
        } else {
            head
        }
    }
}

/// A text without dashes at its end.
pub open spec fn undashed(s: Seq<char>) -> Seq<char>
    decreases s.len(),
{
    if s.len() > 0 && s.last() == '-' {
        undashed(s.drop_last())
    } else {
        s
    }
}

/// What an id is made from: at most 24 characters of the slug, or `account`.
pub open spec fn id_base(name: Seq<char>) -> Seq<char> {
    let s = undashed(slug(smalls(name)));
    let b = if s.len() <= 24 {
        s
    } else {
        s.take(24)
    };
    if b.len() == 0 {
        "account"@
    } else {
        b
    }
}

/// The `n`th id that is tried.
pub open spec fn candidate(base: Seq<char>, n: nat) -> Seq<char> {
    if n == 1 {
        base
    } else {
        base + "-"@ + padded_digits(n, 1)
    }
}

/// Whether an id is the first one that is free.
pub open spec fn first_free(base: Seq<char>, taken: Seq<Seq<char>>, id: Seq<char>) -> bool {
    exists|n: nat|
        n >= 1 && id == #[trigger] candidate(base, n) && !taken.contains(id) && forall|m: nat|
            1 <= m < n ==> taken.contains(#[trigger] candidate(base, m))
}

proof fn lemma_digits_read_back(n: nat, width: nat)
    ensures
        digits_value(padded_digits(n, width)) == n,
    decreases n, width,
{
    if !(n == 0 && width == 0) {
        let w = if width == 0 {
            0
        } else {
            (width - 1) as nat
        };
        lemma_digits_read_back(n / 10, w);
        let s = padded_digits(n, width);
        assert(s.drop_last() =~= padded_digits(n / 10, w));
        assert(s.last() == digit_char(n % 10));
    }
}

proof fn lemma_candidates_differ(base: Seq<char>, n: nat, m: nat)
    requires
        1 <= n,
        1 <= m,
        candidate(base, n) == candidate(base, m),
    ensures
        n == m,
{
    reveal_strlit("-");
    if n > 1 && m > 1 {
        let dn = padded_digits(n, 1);
        let dm = padded_digits(m, 1);
        let k = base.len() + 1;
        assert(candidate(base, n).skip(k as int) =~= dn);
        assert(candidate(base, m).skip(k as int) =~= dm);
        lemma_digits_read_back(n, 1);
        lemma_digits_read_back(m, 1);
    } else if n > 1 {
        assert(candidate(base, n).len() > base.len());
    } else if m > 1 {
        assert(candidate(base, m).len() > base.len());
    }
}

/// With `k` ids taken, one of the first `k + 1` that are tried is free.
proof fn lemma_one_is_free(base: Seq<char>, taken: Seq<Seq<char>>)
    ensures
        exists|n: nat| 1 <= n <= taken.len() + 1 && !taken.contains(#[trigger] candidate(base, n)),
{
    if forall|n: nat| 1 <= n <= taken.len() + 1 ==> taken.contains(#[trigger] candidate(base, n)) {
        let tried = Seq::new((taken.len() + 1) as nat, |i: int| candidate(base, (i + 1) as nat));
        assert forall|i: int, j: int| 0 <= i < tried.len() && 0 <= j < tried.len() && i != j implies tried[i]
            != tried[j] by {
            if tried[i] == tried[j] {
                lemma_candidates_differ(base, (i + 1) as nat, (j + 1) as nat);
            }
        }
        assert(tried.no_duplicates());
        tried.unique_seq_to_set();
        assert(tried.to_set().subset_of(taken.to_set())) by {
            assert forall|x: Seq<char>| tried.to_set().contains(x) implies taken.to_set().contains(x) by {
                let i = choose|i: int| 0 <= i < tried.len() && tried[i] == x;
                assert(taken.contains(candidate(base, (i + 1) as nat)));
            }
        }
        broadcast use vstd::seq_lib::seq_to_set_is_finite;

        vstd::set_lib::lemma_len_subset(tried.to_set(), taken.to_set());
        taken.lemma_cardinality_of_set();
        assert(false);
    }
}

fn among(taken: &[String], id: &str) -> (r: bool)
    ensures
        r == texts(taken@).contains(id@),
{
    let mut i: usize = 0;
    while i < taken.len()
        invariant
            i <= taken@.len(),
            forall|j: int| 0 <= j < i ==> #[trigger] texts(taken@)[j] != id@,
        decreases taken@.len() - i,
    {
        assert(texts(taken@)[i as int] == taken@[i as int]@);
        if same_text(taken[i].as_str(), id) {
            return true;
        }
        i += 1;
    }
    false
}

fn make_base(name: &str) -> (r: String)
    ensures
        r@ == id_base(name@),
{
    let v = ascii_small(&chars_of(name));
    let mut s: Vec<char> = Vec::new();
    let mut i: usize = 0;
    assert(s@ =~= slug(v@.take(0)));
    while i < v.len()
        invariant
            i <= v@.len(),
            s@ == slug(v@.take(i as int)),
        decreases v@.len() - i,
    {
        assert(v@.take(i + 1).drop_last() =~= v@.take(i as int));
        let c = v[i];
        if ascii_alnum(c) {
            s.push(c);
        } else if s.len() > 0 && s[s.len() - 1] != '-' {
            s.push('-');
        }
        i += 1;
    }
    assert(v@.take(i as int) =~= v@);
    let ghost whole = s@;
    while s.len() > 0 && s[s.len() - 1] == '-'
        invariant
            undashed(whole) == undashed(s@),
        decreases s@.len(),
    {
        let ghost before = s@;
        let _ = s.pop();
        assert(s@ =~= before.drop_last());
    }
    let n: usize = if s.len() <= 24 {
        s.len()
    } else {
        24
    };
    if n == 0 {
        return "account".to_owned();
    }
    let b = text_of(&s, 0, n);
    assert(s@.len() <= 24 ==> s@.subrange(0, n as int) =~= s@);
    assert(s@.len() > 24 ==> s@.subrange(0, n as int) =~= s@.take(24));
    b
}

/// An id from `name` (`Swing bot` → `swing-bot`; `account` when nothing ASCII is left), made
/// unique with `-2`, `-3`, ….
pub fn account_id_for(name: &str, taken: &[String]) -> (r: String)
    requires
        taken@.len() < u64::MAX,
    ensures
        first_free(id_base(name@), texts(taken@), r@),
{
    let base = make_base(name);
    let ghost bv = base@;
    let ghost all = texts(taken@);
    proof {
        lemma_one_is_free(bv, all);
    }
    let mut n: u64 = 1;
    let mut id = base.clone();
    while among(taken, id.as_str())
        invariant
            1 <= n <= all.len() + 1,
            all.len() < u64::MAX,
            all == texts(taken@),
            bv == base@,
            id@ == candidate(bv, n as nat),
            forall|m: nat| 1 <= m < n ==> all.contains(#[trigger] candidate(bv, m)),
            exists|k: nat| 1 <= k <= all.len() + 1 && !all.contains(#[trigger] candidate(bv, k)),
        decreases all.len() + 1 - n,
    {
        proof {
            let k = choose|k: nat| 1 <= k <= all.len() + 1 && !all.contains(#[trigger] candidate(bv, k));
            assert(k > n);
        }
        n += 1;
        id = base.clone();
        id.append("-");
        id.append(uint_text(n).as_str());
    }
    id
}

/// A made id never names an account that exists.
pub proof fn law_made_ids_are_new(name: Seq<char>, taken: Seq<Seq<char>>, id: Seq<char>)
    requires
        first_free(id_base(name), taken, id),
    ensures
        !taken.contains(id),
{
}

/// The id and the name of an account to open, or what is wrong with them.
pub open spec fn account_named(id: Option<Seq<char>>, name: Seq<char>, taken: Seq<Seq<char>>, made: Seq<char>) -> Result<
    (Seq<char>, Seq<char>),
    RefusalView,
> {
    let n = trimmed(name);
    if n.len() == 0 || n.len() > 100 {
        Err(senseless_request("name must be 1-100 characters"@))
    } else if id is Some && trimmed(id->0).len() > 0 {
        let i = trimmed(id->0);
        if !is_account_id(i) {
            Err(senseless_request("id must be 1-32 characters of a-z, 0-9, _ and -"@))
        } else if taken.contains(i) {
            Err(refused(409, "exists"@, "account "@ + quoted(i) + " already exists"@))
        } else {
            Ok((i, n))
        }
    } else {
        Ok((made, n))
    }
}

/// The id and the name of an account to open: the id that was asked for, else one made from the
/// name.
pub fn new_account(id: Option<&str>, name: &str, taken: &[String]) -> (r: Result<(String, String), ApiError>)
    requires
        taken@.len() < u64::MAX,
    ensures
        exists|made: Seq<char>| #[trigger]
            first_free(id_base(trimmed(name@)), texts(taken@), made) && match account_named(
                match id {
                    Some(i) => Some(i@),
                    None => None,
                },
                name@,
                texts(taken@),
                made,
            ) {
                Ok((i, n)) => r matches Ok(x) && x.0@ == i && x.1@ == n,
                Err(m) => r matches Err(e) && e@ == m,
            },
{
    let name = trim(name);
    let made = account_id_for(name.as_str(), taken);
    assert(first_free(id_base(name@), texts(taken@), made@));
    let len: usize = chars_of(name.as_str()).len();
    if len == 0 || len > 100 {
        return Err(bad_request("name must be 1-100 characters"));
    }
    if let Some(i) = id {
        let i = trim(i);
        if chars_of(i.as_str()).len() > 0 {
            if !valid_account_id(i.as_str()) {
                return Err(bad_request("id must be 1-32 characters of a-z, 0-9, _ and -"));
            }
            if among(taken, i.as_str()) {
                let mut m = "account ".to_owned();
                m.append(quote(i.as_str()).as_str());
                m.append(" already exists");
                return Err(ApiError { status: 409, error: "exists", message: m });
            }
            return Ok((i, name));
        }
    }
    Ok((made, name))
}

/// A control character.
pub open spec fn is_control(c: char) -> bool {
    c as u32 <= 0x1f || 0x7f <= c as u32 <= 0x9f
}

/// The conversation that an account's alerts go to, or what is wrong with the choice.
pub open spec fn conversation(session: Option<Seq<char>>) -> Result<Option<Seq<char>>, RefusalView> {
    if session is Some && trimmed(session->0).len() > 0 {
        let s = trimmed(session->0);
        if encode_utf8(s).len() > 128 || exists|i: int| 0 <= i < s.len() && is_control(#[trigger] s[i]) {
            Err(senseless_request("session id is too long or has control characters"@))
        } else {
            Ok(Some(s))
        }
    } else {
        Ok(None)
    }
}

fn has_control(v: &[char]) -> (r: bool)
    ensures
        r == exists|i: int| 0 <= i < v@.len() && is_control(#[trigger] v@[i]),
{
    let mut i: usize = 0;
    while i < v.len()
        invariant
            i <= v@.len(),
            forall|j: int| 0 <= j < i ==> !is_control(#[trigger] v@[j]),
        decreases v@.len() - i,
    {
        let c = v[i] as u32;
        if c <= 0x1f || (0x7f <= c && c <= 0x9f) {
            assert(is_control(v@[i as int]));
            return true;
        }
        i += 1;
    }
    false
}

/// The conversation that an account's alerts go to; a blank one is none.
pub fn alert_session(session: Option<&str>) -> (r: Result<Option<String>, ApiError>)
    ensures
        match conversation(
            match session {
                Some(s) => Some(s@),
                None => None,
            },
        ) {
            Ok(c) => r matches Ok(x) && text_view(x) == c,
            Err(m) => r matches Err(e) && e@ == m,
        },
{
    let s = match session {
        Some(s) => trim(s),
        None => return Ok(None),
    };
    let v = chars_of(s.as_str());
    if v.len() == 0 {
        return Ok(None);
    }
    let bytes = s.as_str().as_bytes();
    if bytes.len() > 128 || has_control(&v) {
        return Err(bad_request("session id is too long or has control characters"));
    }
    Ok(Some(s))
}

/// How far back an equity curve reaches, in days (nothing for all of it), and whether its points
/// are the daily ones.
pub open spec fn curve_asked(range: Option<Seq<char>>) -> Result<(Option<i64>, bool), RefusalView> {
    let r = match range {
        Some(s) => s,
        None => "1m"@,
    };
    if r == "1d"@ {
        Ok((Some(1), false))
    } else if r == "1w"@ {
        Ok((Some(7), true))
    } else if r == "1m"@ {
        Ok((Some(31), true))
    } else if r == "all"@ {
        Ok((None, true))
    } else {
        Err(senseless_request("unknown range "@ + quoted(r) + "; use 1d, 1w, 1m or all"@))
    }
}

/// How far back an equity curve reaches, in days (nothing for all of it), and whether its points
/// are the daily ones. A month unless something else is asked for.
pub fn curve(range: Option<&str>) -> (r: Result<(Option<i64>, bool), ApiError>)
    ensures
        match curve_asked(
            match range {
                Some(s) => Some(s@),
                None => None,
            },
        ) {
            Ok(c) => r == Ok::<(Option<i64>, bool), ApiError>(c),
            Err(m) => r matches Err(e) && e@ == m,
        },
{
    proof {
        reveal_strlit("1d");
        reveal_strlit("1w");
        reveal_strlit("1m");
        reveal_strlit("all");
        assert("1d"@[1] == 'd' && "1w"@[1] == 'w' && "1m"@[1] == 'm');
    }
    let s = match range {
        Some(s) => s,
        None => "1m",
    };
    if same_text(s, "1d") {
        Ok((Some(1), false))
    } else if same_text(s, "1w") {
        Ok((Some(7), true))
    } else if same_text(s, "1m") {
        Ok((Some(31), true))
    } else if same_text(s, "all") {
        Ok((None, true))
    } else {
        let mut m = "unknown range ".to_owned();
        m.append(quote(s).as_str());
        m.append("; use 1d, 1w, 1m or all");
        Err(bad_request(m.as_str()))
    }
}

/// The profit of the first `n` days: each daily snapshot opens its day; the next one (or the live
/// equity, for today) closes it.
pub open spec fn profits(opens: Seq<(Timestamp, Decimal)>, live: Decimal, n: int) -> Option<Seq<(int, Decimal)>>
    decreases n,
{
    if n <= 0 {
        Some(Seq::empty())
    } else {
        let close = if n < opens.len() {
            opens[n].1
        } else {
            live
        };
        match (profits(opens, live, n - 1), close.minus(opens[n - 1].1)) {
            (Some(s), Some(p)) => Some(s.push((day_of(local_second(Zone::Seoul, opens[n - 1].0)), p))),
            _ => None,
        }
    }
}

proof fn lemma_profits_none(opens: Seq<(Timestamp, Decimal)>, live: Decimal, i: int, n: int)
    requires
        0 <= i <= n,
        profits(opens, live, i) is None,
    ensures
        profits(opens, live, n) is None,
    decreases n,
{
    if i < n {
        lemma_profits_none(opens, live, i, n - 1);
    }
}

/// Days and profits as what they say.
pub open spec fn profit_views(v: Seq<(i64, Decimal)>) -> Seq<(int, Decimal)> {
    v.map_values(|p: (i64, Decimal)| (p.0 as int, p.1))
}

/// The profit of each day, by the day in Seoul; `None` where a decimal cannot hold one.
pub fn daily_profits(opens: &[(Timestamp, Decimal)], live: Decimal) -> (r: Option<Vec<(i64, Decimal)>>)
    ensures
        match profits(opens@, live, opens@.len() as int) {
            Some(s) => r matches Some(v) && profit_views(v@) == s,
            None => r is None,
        },
{
    let mut out: Vec<(i64, Decimal)> = Vec::new();
    assert(profit_views(out@) =~= Seq::empty());
    let mut i: usize = 0;
    while i < opens.len()
        invariant
            i <= opens@.len(),
            profits(opens@, live, i as int) == Some(profit_views(out@)),
        decreases opens@.len() - i,
    {
        let (at, open) = opens[i];
        let close = if opens.len() - i > 1 {
            opens[i + 1].1
        } else {
            live
        };
        match close.checked_sub(open) {
            Some(p) => {
                proof {
                    use_type_invariant(at);
                }
                let second = at.secs();
                let offset = crate::time::offset_at(Zone::Seoul, second);
                let (day, _) = split_second(second + offset);
                let ghost before = profit_views(out@);
                out.push((day, p));
                assert(profit_views(out@) =~= before.push((day as int, p)));
            },
            None => {
                proof {
                    lemma_profits_none(opens@, live, i + 1, opens@.len() as int);
                }
                return None;
            },
        }
        i += 1;
    }
    Some(out)
}

/// What an instrument made, and what trading it cost.
#[derive(Debug)]
pub struct SymbolTotal {
    pub instrument: String,
    pub realized: Decimal,
    pub fees: Decimal,
}

/// What a total says.
pub ghost struct TotalView {
    pub instrument: Seq<char>,
    pub realized: Decimal,
    pub fees: Decimal,
}

impl View for SymbolTotal {
    type V = TotalView;

    open spec fn view(&self) -> TotalView {
        TotalView { instrument: self.instrument@, realized: self.realized, fees: self.fees }
    }
}

/// Totals as what they say.
pub open spec fn total_views(v: Seq<SymbolTotal>) -> Seq<TotalView> {
    v.map_values(|t: SymbolTotal| t@)
}

/// What a total becomes with a fill.
pub open spec fn added(realized: Decimal, fees: Decimal, f: FillView) -> Option<(Decimal, Decimal)> {
    let profit = match f.realized_pnl {
        Some(p) => p,
        None => zero(),
    };
    match (realized.plus(profit), opt_plus(Some(fees), f.fee.plus(f.tax))) {
        (Some(a), Some(b)) => Some((a, b)),
        _ => None,
    }
}

/// The totals with a fill, looked for from index `i` on; they are in dictionary order.
pub open spec fn tallied(rows: Seq<TotalView>, f: FillView, i: int) -> Option<Seq<TotalView>>
    decreases rows.len() - i,
{
    let name = id_text(f.instrument);
    if i < rows.len() && rows[i].instrument == name {
        match added(rows[i].realized, rows[i].fees, f) {
            Some((realized, fees)) => Some(rows.update(i, TotalView { instrument: name, realized, fees })),
            None => None,
        }
    } else if i < rows.len() && lex_less(rows[i].instrument, name) {
        tallied(rows, f, i + 1)
    } else {
        match added(zero(), zero(), f) {
            Some((realized, fees)) => Some(rows.insert(i, TotalView { instrument: name, realized, fees })),
            None => None,
        }
    }
}

/// The totals of the first `n` fills.
pub open spec fn tally(fills: Seq<FillView>, n: int) -> Option<Seq<TotalView>>
    decreases n,
{
    if n <= 0 {
        Some(Seq::empty())
    } else {
        match tally(fills, n - 1) {
            Some(rows) => tallied(rows, fills[n - 1], 0),
            None => None,
        }
    }
}

proof fn lemma_tally_none(fills: Seq<FillView>, i: int, n: int)
    requires
        0 <= i <= n,
        tally(fills, i) is None,
    ensures
        tally(fills, n) is None,
    decreases n,
{
    if i < n {
        lemma_tally_none(fills, i, n - 1);
    }
}

/// Fills as what they did.
pub open spec fn fill_views(v: Seq<Fill>) -> Seq<FillView> {
    v.map_values(|f: Fill| f@)
}

fn sum_up(realized: Decimal, fees: Decimal, f: &Fill) -> (r: Option<(Decimal, Decimal)>)
    ensures
        r == added(realized, fees, f@),
{
    let profit = match f.realized_pnl {
        Some(p) => p,
        None => Decimal::zero(),
    };
    let a = realized.checked_add(profit)?;
    let b = fees.checked_add(f.fee.checked_add(f.tax)?)?;
    Some((a, b))
}

fn count_in(rows: &mut Vec<SymbolTotal>, f: &Fill) -> (ok: bool)
    ensures
        match tallied(total_views(old(rows)@), f@, 0) {
            Some(s) => ok && total_views(final(rows)@) == s,
            None => !ok,
        },
{
    let ghost whole = total_views(rows@);
    let name = f.instrument.to_text();
    let mut i: usize = 0;
    while i < rows.len() && text_before(rows[i].instrument.as_str(), name.as_str()) && !same_text(
        rows[i].instrument.as_str(),
        name.as_str(),
    )
        invariant
            i <= rows@.len(),
            total_views(rows@) == whole,
            name@ == id_text(f@.instrument),
            tallied(whole, f@, 0) == tallied(whole, f@, i as int),
        decreases rows@.len() - i,
    {
        assert(whole[i as int] == rows@[i as int]@);
        i += 1;
    }
    if i < rows.len() {
        assert(whole[i as int] == rows@[i as int]@);
        if same_text(rows[i].instrument.as_str(), name.as_str()) {
            return match sum_up(rows[i].realized, rows[i].fees, f) {
                Some((realized, fees)) => {
                    let t = SymbolTotal { instrument: name, realized, fees };
                    let ghost tv = t@;
                    rows.set(i, t);
                    assert(total_views(rows@) =~= whole.update(i as int, tv));
                    true
                },
                None => false,
            };
        }
    }
    match sum_up(Decimal::zero(), Decimal::zero(), f) {
        Some((realized, fees)) => {
            let t = SymbolTotal { instrument: name, realized, fees };
            let ghost tv = t@;
            rows.insert(i, t);
            assert(total_views(rows@) =~= whole.insert(i as int, tv));
            true
        },
        None => false,
    }
}

/// What each instrument made, in dictionary order; `None` where a decimal cannot hold a total.
pub fn by_symbol(fills: &[Fill]) -> (r: Option<Vec<SymbolTotal>>)
    ensures
        match tally(fill_views(fills@), fills@.len() as int) {
            Some(s) => r matches Some(v) && total_views(v@) == s,
            None => r is None,
        },
{
    let ghost all = fill_views(fills@);
    let mut rows: Vec<SymbolTotal> = Vec::new();
    assert(total_views(rows@) =~= Seq::empty());
    let mut i: usize = 0;
    while i < fills.len()
        invariant
            i <= fills@.len(),
            all == fill_views(fills@),
            tally(all, i as int) == Some(total_views(rows@)),
        decreases fills@.len() - i,
    {
        assert(all[i as int] == fills@[i as int]@);
        if !count_in(&mut rows, &fills[i]) {
            proof {
                lemma_tally_none(all, i + 1, fills@.len() as int);
            }
            return None;
        }
        i += 1;
    }
    Some(rows)
}

/// Whether totals are in dictionary order, each instrument once.
pub open spec fn ascending(rows: Seq<TotalView>) -> bool {
    forall|i: int, j: int|
        0 <= i < j < rows.len() ==> lex_less((#[trigger] rows[i]).instrument, (#[trigger] rows[j]).instrument)
}

proof fn lemma_tallied(rows: Seq<TotalView>, f: FillView, i: int)
    requires
        ascending(rows),
        0 <= i <= rows.len(),
        forall|k: int| 0 <= k < i ==> lex_less((#[trigger] rows[k]).instrument, id_text(f.instrument)),
    ensures
        tallied(rows, f, i) matches Some(s) ==> ascending(s),
    decreases rows.len() - i,
{
    let name = id_text(f.instrument);
    if i < rows.len() && rows[i].instrument != name && lex_less(rows[i].instrument, name) {
        lemma_tallied(rows, f, i + 1);
    } else if i < rows.len() && rows[i].instrument == name {
    } else {
        if i < rows.len() {
            assert(rows[i].instrument.take(0) =~= name.take(0));
            lemma_lex_total(rows[i].instrument, name, 0);
        }
        assert forall|k: int| i <= k < rows.len() implies lex_less(name, (#[trigger] rows[k]).instrument) by {
            if k > i {
                lemma_lex_transitive(name, rows[i].instrument, rows[k].instrument, 0);
            }
        }
    }
}

/// Every instrument is totalled once, in dictionary order.
pub proof fn law_totals_are_in_order(fills: Seq<FillView>, n: int)
    ensures
        tally(fills, n) matches Some(s) ==> ascending(s),
    decreases n,
{
    if n > 0 {
        law_totals_are_in_order(fills, n - 1);
        match tally(fills, n - 1) {
            Some(rows) => lemma_tallied(rows, fills[n - 1], 0),
            None => {},
        }
    }
}

/// A fill on a chart.
#[derive(Debug, Clone, Copy, PartialEq)]
pub struct Marker {
    pub at: Timestamp,
    pub side: Side,
    pub price: Decimal,
    pub qty: Decimal,
}

/// The fills of an instrument among the first `n`, as they stand on its chart.
pub open spec fn marked(fills: Seq<FillView>, id: Seq<char>, n: int) -> Seq<Marker>
    decreases n,
{
    if n <= 0 {
        Seq::empty()
    } else if id_text(fills[n - 1].instrument) == id {
        let f = fills[n - 1];
        marked(fills, id, n - 1).push(Marker { at: f.at, side: f.side, price: f.price, qty: f.qty })
    } else {
        marked(fills, id, n - 1)
    }
}

/// The fills of an instrument as they stand on its chart.
pub fn markers(fills: &[Fill], id: &str) -> (r: Vec<Marker>)
    ensures
        r@ == marked(fill_views(fills@), id@, fills@.len() as int),
{
    let ghost all = fill_views(fills@);
    let mut out: Vec<Marker> = Vec::new();
    let mut i: usize = 0;
    while i < fills.len()
        invariant
            i <= fills@.len(),
            all == fill_views(fills@),
            out@ == marked(all, id@, i as int),
        decreases fills@.len() - i,
    {
        assert(all[i as int] == fills@[i as int]@);
        let f = &fills[i];
        if same_text(f.instrument.to_text().as_str(), id) {
            out.push(Marker { at: f.at, side: f.side, price: f.price, qty: f.qty });
        }
        i += 1;
    }
    out
}

/// The equity with which a day opens; the day after the last one opens with the live equity.
pub open spec fn opening(opens: Seq<(Timestamp, Decimal)>, live: Decimal, i: int) -> int {
    if 0 <= i < opens.len() {
        opens[i].1.value()
    } else {
        live.value()
    }
}

/// Whether each profit in `s` is what the equity of its day changed by, under that day's date in Seoul.
pub open spec fn daily_changes(opens: Seq<(Timestamp, Decimal)>, live: Decimal, s: Seq<(int, Decimal)>) -> bool {
    forall|i: int|
        0 <= i < s.len() ==> (#[trigger] s[i]).1.value() == opening(opens, live, i + 1) - opening(opens, live, i) && s[i].0
            == day_of(local_second(Zone::Seoul, opens[i].0))
}

/// The profit of a day is what its equity changed by from its own opening to that of the next day, or to the
/// live equity for the last one; and the profits of all days come to the change over all of them. Decimals
/// hold the differences.
pub proof fn law_daily_profits_add_up(opens: Seq<(Timestamp, Decimal)>, live: Decimal, n: int)
    requires
        0 <= n <= opens.len(),
        forall|i: int|
            0 <= i < opens.len() ==> representable(opening(opens, live, i + 1) - #[trigger] opening(opens, live, i)),
    ensures
        profits(opens, live, n) matches Some(s) ==> s.len() == n && daily_changes(opens, live, s) && profit_sum(s)
            == opening(opens, live, n) - opening(opens, live, 0),
    decreases n,
{
    if n > 0 {
        law_daily_profits_add_up(opens, live, n - 1);
        if let Some(s) = profits(opens, live, n) {
            let close = if n < opens.len() {
                opens[n].1
            } else {
                live
            };
            let before = profits(opens, live, n - 1)->0;
            assert(representable(opening(opens, live, n - 1 + 1) - opening(opens, live, n - 1)));
            lemma_sums(close, opens[n - 1].1);
            assert(s.drop_last() =~= before);
            assert forall|i: int| 0 <= i < s.len() implies (#[trigger] s[i]).1.value() == opening(opens, live, i + 1)
                - opening(opens, live, i) && s[i].0 == day_of(local_second(Zone::Seoul, opens[i].0)) by {
                if i < n - 1 {
                    assert(s[i] == before[i]);
                }
            }
        }
    }
}

/// Profits added up, exactly.
pub open spec fn profit_sum(s: Seq<(int, Decimal)>) -> int
    decreases s.len(),
{
    if s.len() == 0 {
        0
    } else {
        profit_sum(s.drop_last()) + s.last().1.value()
    }
}

/// What the first `n` fills of an instrument made, and what they cost in fees and taxes, exactly.
pub open spec fn made_and_cost(fills: Seq<FillView>, name: Seq<char>, n: int) -> (int, int)
    decreases n,
{
    if n <= 0 {
        (0, 0)
    } else {
        let (made, cost) = made_and_cost(fills, name, n - 1);
        let f = fills[n - 1];
        if id_text(f.instrument) == name {
            (
                made + match f.realized_pnl {
                    Some(p) => p.value(),
                    None => 0,
                },
                cost + f.fee.value() + f.tax.value(),
            )
        } else {
            (made, cost)
        }
    }
}

/// Whether decimals hold the sums of an instrument's fills.
pub open spec fn tally_held(fills: Seq<FillView>) -> bool {
    &&& forall|k: int| 0 <= k < fills.len() ==> representable((#[trigger] fills[k]).fee.value() + fills[k].tax.value())
    &&& forall|name: Seq<char>, n: int|
        0 <= n <= fills.len() ==> {
            let t = #[trigger] made_and_cost(fills, name, n);
            representable(t.0) && representable(t.1)
        }
}

/// Whether a total is that of its instrument's first `n` fills.
pub open spec fn totals_up(fills: Seq<FillView>, n: int, t: TotalView) -> bool {
    (t.realized.value(), t.fees.value()) == made_and_cost(fills, t.instrument, n)
}

/// Whether some row is of an instrument.
pub open spec fn has_row(rows: Seq<TotalView>, name: Seq<char>) -> bool {
    exists|k: int| 0 <= k < rows.len() && (#[trigger] rows[k]).instrument == name
}

proof fn lemma_no_row(fills: Seq<FillView>, rows: Seq<TotalView>, name: Seq<char>, n: int)
    requires
        0 <= n <= fills.len(),
        forall|j: int| 0 <= j < n ==> has_row(rows, id_text((#[trigger] fills[j]).instrument)),
        !has_row(rows, name),
    ensures
        made_and_cost(fills, name, n) == (0int, 0int),
    decreases n,
{
    if n > 0 {
        lemma_no_row(fills, rows, name, n - 1);
        assert(has_row(rows, id_text(fills[n - 1].instrument)));
    }
}

proof fn lemma_tallied_rows(fills: Seq<FillView>, n: int, rows: Seq<TotalView>, i: int)
    requires
        0 < n <= fills.len(),
        tally_held(fills),
        ascending(rows),
        0 <= i <= rows.len(),
        forall|k: int| 0 <= k < i ==> lex_less((#[trigger] rows[k]).instrument, id_text(fills[n - 1].instrument)),
        forall|k: int| 0 <= k < rows.len() ==> totals_up(fills, n - 1, #[trigger] rows[k]),
        forall|j: int| 0 <= j < n - 1 ==> has_row(rows, id_text((#[trigger] fills[j]).instrument)),
    ensures
        tallied(rows, fills[n - 1], i) matches Some(s) ==> {
            &&& forall|k: int| 0 <= k < s.len() ==> totals_up(fills, n, #[trigger] s[k])
            &&& forall|j: int| 0 <= j < n ==> has_row(s, id_text((#[trigger] fills[j]).instrument))
        },
    decreases rows.len() - i,
{
    let f = fills[n - 1];
    let name = id_text(f.instrument);
    let t = made_and_cost(fills, name, n);
    assert(representable(t.0) && representable(t.1));
    assert(representable(fills[n - 1].fee.value() + fills[n - 1].tax.value()));
    lemma_dec_parts(0, 0);
    lemma_sums(f.fee, f.tax);
    let profit = match f.realized_pnl {
        Some(p) => p,
        None => zero(),
    };
    if i < rows.len() && rows[i].instrument == name {
        if let Some(s) = tallied(rows, f, i) {
            lemma_sums(rows[i].realized, profit);
            lemma_sums(rows[i].fees, f.fee.plus(f.tax)->0);
            assert(totals_up(fills, n - 1, rows[i]));
            assert forall|k: int| 0 <= k < s.len() implies totals_up(fills, n, #[trigger] s[k]) by {
                if k != i {
                    assert(s[k] == rows[k]);
                    assert(totals_up(fills, n - 1, rows[k]));
                    lemma_lex_irreflexive(name, 0);
                    if k < i {
                        assert(lex_less(rows[k].instrument, rows[i].instrument));
                    } else {
                        assert(lex_less(rows[i].instrument, rows[k].instrument));
                    }
                }
            }
            assert forall|j: int| 0 <= j < n implies has_row(s, id_text((#[trigger] fills[j]).instrument)) by {
                if j < n - 1 {
                    let k = choose|k: int|
                        0 <= k < rows.len() && (#[trigger] rows[k]).instrument == id_text(fills[j].instrument);
                    assert(s[k].instrument == rows[k].instrument);
                } else {
                    assert(s[i].instrument == name);
                }
            }
        }
    } else if i < rows.len() && lex_less(rows[i].instrument, name) {
        lemma_tallied_rows(fills, n, rows, i + 1);
    } else if let Some(s) = tallied(rows, f, i) {
        if i < rows.len() {
            assert(rows[i].instrument.take(0) =~= name.take(0));
            lemma_lex_total(rows[i].instrument, name, 0);
        }
        assert forall|k: int| 0 <= k < rows.len() implies (#[trigger] rows[k]).instrument != name by {
            lemma_lex_irreflexive(name, 0);
            if k > i {
                lemma_lex_transitive(name, rows[i].instrument, rows[k].instrument, 0);
            }
        }
        assert(!has_row(rows, name));
        lemma_no_row(fills, rows, name, n - 1);
        lemma_sums(zero(), profit);
        lemma_sums(zero(), f.fee.plus(f.tax)->0);
        assert forall|k: int| 0 <= k < s.len() implies totals_up(fills, n, #[trigger] s[k]) by {
            if k < i {
                assert(s[k] == rows[k]);
                assert(totals_up(fills, n - 1, rows[k]));
            } else if k > i {
                assert(s[k] == rows[k - 1]);
                assert(totals_up(fills, n - 1, rows[k - 1]));
            }
        }
        assert forall|j: int| 0 <= j < n implies has_row(s, id_text((#[trigger] fills[j]).instrument)) by {
            if j < n - 1 {
                let k = choose|k: int|
                    0 <= k < rows.len() && (#[trigger] rows[k]).instrument == id_text(fills[j].instrument);
                if k < i {
                    assert(s[k] == rows[k]);
                } else {
                    assert(s[k + 1] == rows[k]);
                }
            } else {
                assert(s[i].instrument == name);
            }
        }
    }
}

/// Every instrument that was traded has a total, and each total is what the fills of its instrument made and
/// what they cost in fees and taxes. Decimals hold the sums.
pub proof fn law_totals_are_those_of_the_fills(fills: Seq<FillView>, n: int)
    requires
        0 <= n <= fills.len(),
        tally_held(fills),
    ensures
        tally(fills, n) matches Some(s) ==> {
            &&& forall|k: int| 0 <= k < s.len() ==> totals_up(fills, n, #[trigger] s[k])
            &&& forall|j: int| 0 <= j < n ==> has_row(s, id_text((#[trigger] fills[j]).instrument))
        },
    decreases n,
{
    if n > 0 {
        law_totals_are_those_of_the_fills(fills, n - 1);
        law_totals_are_in_order(fills, n - 1);
        if let Some(rows) = tally(fills, n - 1) {
            lemma_tallied_rows(fills, n, rows, 0);
        }
    }
}

/// A chart is marked with the fills of its instrument and no others, in their order, each with its time,
/// side, price and quantity.
pub proof fn law_charts_show_their_fills(fills: Seq<FillView>, id: Seq<char>, n: int)
    requires
        0 <= n <= fills.len(),
    ensures
        ({
            let own = fills.take(n).filter(|f: FillView| id_text(f.instrument) == id);
            let shown = marked(fills, id, n);
            &&& shown.len() == own.len()
            &&& forall|i: int|
                0 <= i < shown.len() ==> {
                    &&& (#[trigger] shown[i]).at == own[i].at && shown[i].side == own[i].side
                    &&& shown[i].price == own[i].price && shown[i].qty == own[i].qty
                }
        }),
    decreases n,
{
    reveal(Seq::filter);
    if n > 0 {
        law_charts_show_their_fills(fills, id, n - 1);
        assert(fills.take(n).drop_last() =~= fills.take(n - 1));
        assert(fills.take(n).last() == fills[n - 1]);
    }
}

} // verus!
