//! SEC EDGAR: ticker → CIK, filings, and XBRL company facts.
use crate::dates::{calendar_day, date_read, date_shown, month, month_of, parse_date, plain_date, read_date, show_date};
use crate::decimal::{padded_digits, Decimal};
use crate::domain::Currency;
use crate::fundamentals::{
    filing_views, html_to_text, period_views, readable, Filing, FilingView, Fundamentals, FundamentalsView,
    PeriodFinancials, PeriodView,
};
use crate::json::{
    decimal_in, element, field, json_read, lemma_list_view, lemma_members_view, list_in, list_view, member,
    members_view, odd_shape, parse_json, text_in, u64_in, Json, JsonView,
};
use crate::record::{as_table, parse_as, read_as, record_with, table_of, with_field, Shape};
use crate::table::Table;
use crate::text::{
    chars_of, cut, cut_at, drop_char, find_char, first_at, is_digit, lossy, lossy_text, padded_text, same_text,
    uint_text, uppercase, uppered, without_char,
};
use vstd::prelude::*;

verus! {

/// The ticker and CIK of a company.
pub open spec fn ticker_row(v: JsonView) -> Option<(Seq<char>, u64)> {
    match (u64_in(field(v, "cik_str"@, 0, 2)), text_in(field(v, "ticker"@, 1, 2))) {
        (Some(cik), Some(t)) => Some((t, cik)),
        _ => None,
    }
}

/// The CIKs of the first `n` rows by ticker; nothing where a row is none.
pub open spec fn ciks_of(m: Seq<(Seq<char>, JsonView)>, n: int) -> Option<Map<Seq<char>, u64>>
    decreases n,
{
    if n <= 0 {
        Some(Map::empty())
    } else {
        match (ciks_of(m, n - 1), ticker_row(m[n - 1].1)) {
            (Some(map), Some((t, cik))) => Some(map.insert(uppered(t), cik)),
            _ => None,
        }
    }
}

/// The CIKs of a response by ticker.
pub open spec fn tickers_of(v: JsonView) -> Option<Map<Seq<char>, u64>> {
    match v {
        JsonView::Object(m) => ciks_of(m, m.len() as int),
        _ => None,
    }
}

fn read_ticker(v: &Json) -> (r: Option<(String, u64)>)
    ensures
        match ticker_row(v.view()) {
            Some((t, cik)) => r matches Some(x) && x.0@ == t && x.1 == cik,
            None => r is None,
        },
{
    let cik = match v.record_field("cik_str", 0, 2) {
        Some(j) => match j.as_u64() {
            Some(n) => n,
            None => return None,
        },
        None => return None,
    };
    match v.record_text("ticker", 1, 2) {
        Some(t) => Some((t.clone(), cik)),
        None => None,
    }
}

proof fn lemma_ciks_error(m: Seq<(Seq<char>, JsonView)>, i: int, n: int)
    requires
        0 <= i <= n,
        ciks_of(m, i) is None,
    ensures
        ciks_of(m, n) is None,
    decreases n,
{
    if i < n {
        lemma_ciks_error(m, i, n - 1);
    }
}

/// The CIKs of a response by ticker.
pub fn ticker_table(v: &Json) -> (r: Option<Table<String, u64>>)
    ensures
        match tickers_of(v.view()) {
            Some(m) => r matches Some(t) && t.wf() && t@ == m,
            None => r is None,
        },
{
    match v {
        Json::Object(rows) => {
            proof {
                lemma_members_view(rows@);
            }
            let ghost m = members_view(rows@);
            let mut out: Table<String, u64> = Table::new();
            let mut i: usize = 0;
            while i < rows.len()
                invariant
                    i <= rows@.len(),
                    m == members_view(rows@),
                    m.len() == rows@.len(),
                    forall|j: int| 0 <= j < rows@.len() ==> #[trigger] m[j] == (rows@[j].0@, rows@[j].1.view()),
                    v.view() == JsonView::Object(m),
                    out.wf(),
                    ciks_of(m, i as int) == Some(out@),
                decreases rows@.len() - i,
            {
                assert(m[i as int] == (rows@[i as int].0@, rows@[i as int].1.view()));
                match read_ticker(&rows[i].1) {
                    Some((t, cik)) => {
                        out.insert(uppercase(t.as_str()), cik);
                    },
                    None => {
                        proof {
                            lemma_ciks_error(m, i + 1, m.len() as int);
                        }
                        return None;
                    },
                }
                i += 1;
            }
            Some(out)
        },
        _ => None,
    }
}

/// A table of tickers.
pub open spec fn tickers_shape() -> Shape {
    table_of(record_with("cik_str", Shape::Whole, record_with("ticker", Shape::Text, Shape::End)))
}

fn tickers_record() -> (r: Shape)
    ensures
        r == tickers_shape(),
{
    as_table(with_field("cik_str", Shape::Whole, with_field("ticker", Shape::Text, Shape::End)))
}

/// Reads the table of tickers.
pub fn parse_tickers(bytes: &[u8]) -> (r: Result<Table<String, u64>, String>)
    ensures
        match read_as(bytes@, tickers_shape()) {
            Err(m) => r matches Err(e) && e@ == m,
            Ok(v) => match tickers_of(v) {
                Some(m) => r matches Ok(t) && t.wf() && t@ == m,
                None => r matches Err(e) && e@ == odd_shape(),
            },
        },
{
    match parse_as(bytes, &tickers_record()) {
        Err(e) => Err(e),
        Ok(v) => match ticker_table(&v) {
            Some(t) => Ok(t),
            None => Err("unexpected response".to_owned()),
        },
    }
}

/// The CIK of a ticker.
pub fn cik_of(tickers: &Table<String, u64>, symbol: &str) -> (r: Result<u64, String>)
    requires
        tickers.wf(),
    ensures
        if tickers@.contains_key(uppered(symbol@)) {
            r == Ok::<u64, String>(tickers@[uppered(symbol@)])
        } else {
            r matches Err(m) && m@ == symbol@ + " is not an SEC filer"@
        },
{
    match tickers.get(&uppercase(symbol)) {
        Some(cik) => Ok(*cik),
        None => {
            let mut m = symbol.to_owned();
            m.append(" is not an SEC filer");
            Err(m)
        },
    }
}

/// The text in a column of the recent filings.
pub open spec fn cell(v: JsonView, column: Seq<char>, i: int) -> Option<Seq<char>> {
    text_in(element(member(member(member(v, "filings"@), "recent"@), column), i))
}

/// How many recent filings there are.
pub open spec fn filing_count(v: JsonView) -> nat {
    match list_in(member(member(member(v, "filings"@), "recent"@), "accessionNumber"@)) {
        Some(s) => s.len(),
        None => 0,
    }
}

/// Where a document of a filing stands.
pub open spec fn document_url_of(cik: u64, accession: Seq<char>, doc: Seq<char>) -> Seq<char> {
    "https://www.sec.gov/Archives/edgar/data/"@ + padded_digits(cik as nat, 1) + "/"@ + without_char(accession, '-') + "/"@
        + doc
}

/// One of the recent filings.
pub open spec fn recent_filing(v: JsonView, cik: u64, i: int) -> Option<FilingView> {
    match (
        cell(v, "accessionNumber"@, i),
        cell(v, "primaryDocument"@, i),
        cell(v, "form"@, i),
        cell(v, "filingDate"@, i),
    ) {
        (Some(acc), Some(doc), Some(form), Some(day)) => match date_read(day, "%Y-%m-%d"@) {
            Some(date) => Some(
                FilingView {
                    id: acc + ":"@ + doc,
                    title: match cell(v, "primaryDocDescription"@, i) {
                        Some(d) => if d.len() > 0 {
                            d
                        } else {
                            form
                        },
                        None => form,
                    },
                    form,
                    date,
                    url: document_url_of(cik, acc, doc),
                },
            ),
            None => None,
        },
        _ => None,
    }
}

/// A filing put into its place among others: behind every one that is not older.
pub open spec fn filed_in(v: Seq<FilingView>, f: FilingView) -> Seq<FilingView>
    decreases v.len(),
{
    if v.len() > 0 && f.date > v.last().date {
        filed_in(v.drop_last(), f).push(v.last())
    } else {
        v.push(f)
    }
}

/// The first `n` recent filings, newest first.
pub open spec fn recent_filings(v: JsonView, cik: u64, n: int) -> Seq<FilingView>
    decreases n,
{
    if n <= 0 {
        Seq::empty()
    } else {
        match recent_filing(v, cik, n - 1) {
            Some(f) => filed_in(recent_filings(v, cik, n - 1), f),
            None => recent_filings(v, cik, n - 1),
        }
    }
}

fn cell_text<'a>(recent: Option<&'a Json>, column: &str, i: usize) -> (r: Option<&'a String>)
    ensures
        ({
            let c = match recent {
                Some(j) => text_in(element(member(j.view(), column@), i as int)),
                None => None,
            };
            match c {
                Some(s) => r is Some && (r->0)@ == s,
                None => r is None,
            }
        }),
{
    match recent {
        Some(j) => match j.get(column) {
            Some(c) => match c.at(i) {
                Some(x) => x.as_text(),
                None => None,
            },
            None => None,
        },
        None => None,
    }
}

/// Where a document of a filing stands.
pub fn document_url(cik: u64, accession: &str, doc: &str) -> (r: String)
    ensures
        r@ == document_url_of(cik, accession@, doc@),
{
    let mut s = "https://www.sec.gov/Archives/edgar/data/".to_owned();
    s.append(uint_text(cik).as_str());
    s.append("/");
    s.append(drop_char(accession, '-').as_str());
    s.append("/");
    s.append(doc);
    s
}

fn read_filing(v: &Json, recent: Option<&Json>, cik: u64, i: usize) -> (r: Option<Filing>)
    requires
        match recent {
            Some(j) => j.view() == member(member(v.view(), "filings"@), "recent"@),
            None => member(member(v.view(), "filings"@), "recent"@) == JsonView::Null,
        },
    ensures
        match recent_filing(v.view(), cik, i as int) {
            Some(f) => r matches Some(x) && x@ == f,
            None => r is None,
        },
{
    let acc = match cell_text(recent, "accessionNumber", i) {
        Some(s) => s,
        None => return None,
    };
    let doc = match cell_text(recent, "primaryDocument", i) {
        Some(s) => s,
        None => return None,
    };
    let form = match cell_text(recent, "form", i) {
        Some(s) => s,
        None => return None,
    };
    let day = match cell_text(recent, "filingDate", i) {
        Some(s) => s,
        None => return None,
    };
    let date = match read_date(day.as_str(), "%Y-%m-%d") {
        Some(d) => d,
        None => return None,
    };
    let title = match cell_text(recent, "primaryDocDescription", i) {
        Some(d) => if chars_of(d.as_str()).len() > 0 {
            d.clone()
        } else {
            form.clone()
        },
        None => form.clone(),
    };
    let mut id = acc.clone();
    id.append(":");
    id.append(doc.as_str());
    Some(Filing { id, title, form: form.clone(), date, url: document_url(cik, acc.as_str(), doc.as_str()) })
}

fn file_in(v: &mut Vec<Filing>, f: Filing)
    ensures
        filing_views(final(v)@) == filed_in(filing_views(old(v)@), f@),
{
    let ghost whole = filing_views(v@);
    let ghost fv = f@;
    let mut i: usize = v.len();
    assert(whole.take(whole.len() as int) =~= whole);
    assert(filed_in(whole, fv) + whole.skip(whole.len() as int) =~= filed_in(whole, fv));
    while i > 0 && f.date > v[i - 1].date
        invariant
            i <= v@.len(),
            filing_views(v@) == whole,
            fv == f@,
            filed_in(whole, fv) == filed_in(whole.take(i as int), fv) + whole.skip(i as int),
        decreases i,
    {
        proof {
            assert(whole[i - 1] == v@[i - 1]@);
            let t = whole.take(i as int);
            assert(t.last() == whole[i - 1]);
            assert(t.drop_last() =~= whole.take(i - 1));
            assert(filed_in(whole.take(i - 1), fv).push(whole[i - 1]) + whole.skip(i as int) =~= filed_in(
                whole.take(i - 1),
                fv,
            ) + whole.skip(i - 1));
        }
        i -= 1;
    }
    proof {
        if i > 0 {
            assert(whole[i - 1] == v@[i - 1]@);
            assert(whole.take(i as int).last() == whole[i - 1]);
        }
        assert(filed_in(whole.take(i as int), fv) == whole.take(i as int).push(fv));
    }
    v.insert(i, f);
    assert(filing_views(v@) =~= whole.take(i as int).push(fv) + whole.skip(i as int));
}

/// The recent filings of a response, newest first. `filings.recent` is columnar: parallel arrays.
pub fn filings_in(v: &Json, cik: u64) -> (r: Vec<Filing>)
    ensures
        filing_views(r@) == recent_filings(v.view(), cik, filing_count(v.view()) as int),
{
    let mut out: Vec<Filing> = Vec::new();
    assert(filing_views(out@) =~= Seq::empty());
    let recent = match v.get("filings") {
        Some(f) => f.get("recent"),
        None => None,
    };
    let n: usize = match recent {
        Some(j) => match j.list_member("accessionNumber") {
            Some(a) => {
                proof {
                    lemma_list_view(a@);
                }
                a.len()
            },
            None => 0,
        },
        None => 0,
    };
    assert(n == filing_count(v.view()));
    let mut i: usize = 0;
    while i < n
        invariant
            i <= n,
            match recent {
                Some(j) => j.view() == member(member(v.view(), "filings"@), "recent"@),
                None => member(member(v.view(), "filings"@), "recent"@) == JsonView::Null,
            },
            filing_views(out@) == recent_filings(v.view(), cik, i as int),
        decreases n - i,
    {
        if let Some(f) = read_filing(v, recent, cik, i) {
            file_in(&mut out, f);
        }
        i += 1;
    }
    out
}

/// Reads the recent filings.
pub fn parse_filings(bytes: &[u8], cik: u64) -> (r: Result<Vec<Filing>, String>)
    ensures
        match json_read(bytes@) {
            Err(m) => r matches Err(e) && e@ == m,
            Ok(v) => r matches Ok(x) && filing_views(x@) == recent_filings(v, cik, filing_count(v) as int),
        },
{
    match parse_json(bytes) {
        Err(e) => Err(e),
        Ok(v) => Ok(filings_in(&v, cik)),
    }
}

/// The first filings from index `i` on that are not older than a day, at most `limit`.
pub open spec fn since_from(v: Seq<FilingView>, since: Option<i64>, limit: nat, i: int) -> Seq<FilingView>
    decreases v.len() - i,
{
    if i >= v.len() || limit == 0 {
        Seq::empty()
    } else if since is None || v[i].date >= since->0 {
        seq![v[i]] + since_from(v, since, (limit - 1) as nat, i + 1)
    } else {
        since_from(v, since, limit, i + 1)
    }
}

fn copy_filing(f: &Filing) -> (r: Filing)
    ensures
        r@ == f@,
{
    Filing { id: f.id.clone(), title: f.title.clone(), form: f.form.clone(), date: f.date, url: f.url.clone() }
}

/// The first `limit` filings that are not older than a day.
pub fn filings_since(v: &Vec<Filing>, since: Option<i64>, limit: usize) -> (r: Vec<Filing>)
    ensures
        filing_views(r@) == since_from(filing_views(v@), since, limit as nat, 0),
{
    let mut out: Vec<Filing> = Vec::new();
    let mut left: usize = limit;
    let mut i: usize = 0;
    let ghost views = filing_views(v@);
    let ghost whole = since_from(views, since, limit as nat, 0);
    assert(filing_views(out@) + whole =~= whole);
    while i < v.len() && left > 0
        invariant
            i <= v@.len(),
            views == filing_views(v@),
            filing_views(out@) + since_from(views, since, left as nat, i as int) == whole,
        decreases v@.len() - i,
    {
        assert(views[i as int] == v@[i as int]@);
        let keep = match since {
            Some(s) => v[i].date >= s,
            None => true,
        };
        if keep {
            let ghost before = filing_views(out@);
            let f = copy_filing(&v[i]);
            let ghost fv = f@;
            out.push(f);
            left -= 1;
            proof {
                let more = since_from(views, since, left as nat, i + 1);
                assert(filing_views(out@) =~= before.push(fv));
                assert(before + (seq![fv] + more) =~= before.push(fv) + more);
            }
        }
        i += 1;
    }
    assert(filing_views(out@) + since_from(views, since, left as nat, i as int) =~= filing_views(out@));
    out
}

/// One reported value.
#[derive(Debug)]
pub struct FactRow {
    pub start: Option<i64>,
    pub end: i64,
    pub val: Decimal,
    pub form: String,
    pub filed: i64,
}

/// What a reported value says.
pub ghost struct FactView {
    pub start: Option<i64>,
    pub end: i64,
    pub val: Decimal,
    pub form: Seq<char>,
    pub filed: i64,
}

impl View for FactRow {
    type V = FactView;

    open spec fn view(&self) -> FactView {
        FactView { start: self.start, end: self.end, val: self.val, form: self.form@, filed: self.filed }
    }
}

/// Reported values as what they say.
pub open spec fn fact_views(v: Seq<FactRow>) -> Seq<FactView> {
    v.map_values(|r: FactRow| r@)
}

/// Whether every period ends on a day of the calendar.
pub open spec fn dated(v: Seq<FactView>) -> bool {
    forall|i: int| 0 <= i < v.len() ==> calendar_day((#[trigger] v[i]).end as int)
}

/// An optional date: nothing in nothing; the outer option is none where it is no date.
pub open spec fn date_in(v: JsonView) -> Option<Option<i64>> {
    match v {
        JsonView::Null => Some(None),
        JsonView::Text(s) => match plain_date(s) {
            Some(d) => Some(Some(d)),
            None => None,
        },
        _ => None,
    }
}

/// The value that a row reports.
pub open spec fn fact_of(v: JsonView) -> Option<FactView> {
    match (
        date_in(field(v, "start"@, 0, 5)),
        date_in(field(v, "end"@, 1, 5)),
        decimal_in(field(v, "val"@, 2, 5)),
        text_in(field(v, "form"@, 3, 5)),
        date_in(field(v, "filed"@, 4, 5)),
    ) {
        (Some(start), Some(Some(end)), Some(val), Some(form), Some(Some(filed))) => Some(
            FactView { start, end, val, form, filed },
        ),
        _ => None,
    }
}

/// The values that the first `n` rows report; nothing where one reports none.
pub open spec fn facts_of(rows: Seq<JsonView>, n: int) -> Option<Seq<FactView>>
    decreases n,
{
    if n <= 0 {
        Some(Seq::empty())
    } else {
        match (facts_of(rows, n - 1), fact_of(rows[n - 1])) {
            (Some(s), Some(f)) => Some(s.push(f)),
            _ => None,
        }
    }
}

/// The values of a concept; none where there is no readable list of them.
pub open spec fn concept_rows(
    v: JsonView,
    taxonomy: Seq<char>,
    concept: Seq<char>,
    unit: Seq<char>,
) -> Seq<FactView> {
    let list = member(member(member(member(member(v, "facts"@), taxonomy), concept), "units"@), unit);
    match list_in(list) {
        Some(rows) => match facts_of(rows, rows.len() as int) {
            Some(s) => s,
            None => Seq::empty(),
        },
        None => Seq::empty(),
    }
}

fn read_date_in(v: Option<&Json>) -> (r: Option<Option<i64>>)
    ensures
        r == date_in(match v {
            Some(j) => j.view(),
            None => JsonView::Null,
        }),
        r matches Some(Some(d)) ==> calendar_day(d as int),
{
    match v {
        Some(Json::Text(s)) => match parse_date(s.as_str()) {
            Some(d) => Some(Some(d)),
            None => None,
        },
        Some(Json::Null) => Some(None),
        Some(_) => None,
        None => Some(None),
    }
}

fn read_fact(v: &Json) -> (r: Option<FactRow>)
    ensures
        match fact_of(v.view()) {
            Some(f) => r matches Some(x) && x@ == f && calendar_day(f.end as int),
            None => r is None,
        },
{
    let start = read_date_in(v.record_field("start", 0, 5));
    let end = read_date_in(v.record_field("end", 1, 5));
    let val = v.record_decimal("val", 2, 5);
    let form = v.record_text("form", 3, 5);
    let filed = read_date_in(v.record_field("filed", 4, 5));
    match (start, end, val, form, filed) {
        (Some(start), Some(Some(end)), Some(val), Some(form), Some(Some(filed))) => Some(
            FactRow { start, end, val, form: form.clone(), filed },
        ),
        _ => None,
    }
}

proof fn lemma_facts_error(rows: Seq<JsonView>, i: int, n: int)
    requires
        0 <= i <= n,
        facts_of(rows, i) is None,
    ensures
        facts_of(rows, n) is None,
    decreases n,
{
    if i < n {
        lemma_facts_error(rows, i, n - 1);
    }
}

fn member_of<'a>(v: Option<&'a Json>, name: &str) -> (r: Option<&'a Json>)
    ensures
        ({
            let m = match v {
                Some(j) => member(j.view(), name@),
                None => JsonView::Null,
            };
            match r {
                Some(j) => j.view() == m,
                None => m == JsonView::Null,
            }
        }),
{
    match v {
        Some(j) => j.get(name),
        None => None,
    }
}

fn rows(v: &Json, taxonomy: &str, concept: &str, unit: &str) -> (r: Vec<FactRow>)
    ensures
        fact_views(r@) == concept_rows(v.view(), taxonomy@, concept@, unit@),
        dated(fact_views(r@)),
{
    let mut out: Vec<FactRow> = Vec::new();
    assert(fact_views(out@) =~= Seq::empty());
    let list = member_of(
        member_of(member_of(member_of(v.get("facts"), taxonomy), concept), "units"),
        unit,
    );
    let list = match list {
        Some(j) => match j.as_list() {
            Some(l) => l,
            None => return out,
        },
        None => return out,
    };
    proof {
        lemma_list_view(list@);
    }
    let ghost views = list_view(list@);
    let mut i: usize = 0;
    while i < list.len()
        invariant
            i <= list@.len(),
            views == list_view(list@),
            views.len() == list@.len(),
            forall|j: int| 0 <= j < list@.len() ==> #[trigger] views[j] == list@[j].view(),
            list_in(
                member(member(member(member(member(v.view(), "facts"@), taxonomy@), concept@), "units"@), unit@),
            ) == Some(views),
            facts_of(views, i as int) == Some(fact_views(out@)),
            dated(fact_views(out@)),
        decreases list@.len() - i,
    {
        assert(views[i as int] == list@[i as int].view());
        match read_fact(&list[i]) {
            Some(f) => {
                let ghost before = fact_views(out@);
                let ghost fv = f@;
                out.push(f);
                assert(fact_views(out@) =~= before.push(fv));
            },
            None => {
                proof {
                    lemma_facts_error(views, i + 1, views.len() as int);
                }
                let none: Vec<FactRow> = Vec::new();
                assert(fact_views(none@) =~= Seq::empty());
                return none;
            },
        }
        i += 1;
    }
    out
}

/// Whether a row reports a period of `lo` to `hi` days, and in an annual report if that is asked.
pub open spec fn counts(r: FactView, lo: int, hi: int, annual_only: bool) -> bool {
    r.start is Some && lo <= r.end - r.start->0 <= hi && (!annual_only || r.form == "10-K"@)
}

/// Whether two rows report the same period.
pub open spec fn same_period(a: FactView, b: FactView) -> bool {
    a.start == b.start && a.end == b.end
}

/// Where a row's period stands among rows, from index `i` on.
pub open spec fn period_at(best: Seq<FactView>, r: FactView, i: int) -> Option<int>
    decreases best.len() - i,
{
    if i >= best.len() {
        None
    } else if same_period(best[i], r) {
        Some(i)
    } else {
        period_at(best, r, i + 1)
    }
}

/// The rows with one more: it takes the place of one of the same period that was filed earlier.
pub open spec fn with_fact(best: Seq<FactView>, r: FactView) -> Seq<FactView> {
    match period_at(best, r, 0) {
        Some(i) => if r.filed > best[i].filed {
            best.update(i, r)
        } else {
            best
        },
        None => best.push(r),
    }
}

/// Of the first `n` rows, those that count, one per period: the latest filing.
pub open spec fn latest_facts(rows: Seq<FactView>, lo: int, hi: int, annual_only: bool, n: int) -> Seq<FactView>
    decreases n,
{
    if n <= 0 {
        Seq::empty()
    } else if counts(rows[n - 1], lo, hi, annual_only) {
        with_fact(latest_facts(rows, lo, hi, annual_only, n - 1), rows[n - 1])
    } else {
        latest_facts(rows, lo, hi, annual_only, n - 1)
    }
}

/// A row put into its place among others: behind every one that does not end earlier.
pub open spec fn ended_in(v: Seq<FactView>, r: FactView) -> Seq<FactView>
    decreases v.len(),
{
    if v.len() > 0 && r.end > v.last().end {
        ended_in(v.drop_last(), r).push(v.last())
    } else {
        v.push(r)
    }
}

/// Rows, newest first; equals stay as they came.
pub open spec fn newest_first(v: Seq<FactView>) -> Seq<FactView>
    decreases v.len(),
{
    if v.len() == 0 {
        v
    } else {
        ended_in(newest_first(v.drop_last()), v.last())
    }
}

/// Duration rows of `lo..=hi` days, one per (start, end), latest filing wins, newest first.
pub open spec fn periods_of(rows: Seq<FactView>, lo: int, hi: int, annual_only: bool) -> Seq<FactView> {
    newest_first(latest_facts(rows, lo, hi, annual_only, rows.len() as int))
}

fn copy_fact(r: &FactRow) -> (c: FactRow)
    ensures
        c@ == r@,
{
    FactRow { start: r.start, end: r.end, val: r.val, form: r.form.clone(), filed: r.filed }
}

fn same_start(a: Option<i64>, b: Option<i64>) -> (r: bool)
    ensures
        r == (a == b),
{
    match (a, b) {
        (Some(x), Some(y)) => x == y,
        (None, None) => true,
        _ => false,
    }
}

fn take_fact(best: &mut Vec<FactRow>, r: FactRow)
    requires
        dated(fact_views(old(best)@)),
        calendar_day(r.end as int),
    ensures
        fact_views(final(best)@) == with_fact(fact_views(old(best)@), r@),
        dated(fact_views(final(best)@)),
{
    let ghost before = fact_views(best@);
    let ghost rv = r@;
    let mut i: usize = 0;
    while i < best.len()
        invariant
            i <= best@.len(),
            before == fact_views(best@),
            dated(before),
            rv == r@,
            calendar_day(r.end as int),
            best@ == old(best)@,
            period_at(before, rv, 0) == period_at(before, rv, i as int),
        decreases best@.len() - i,
    {
        assert(before[i as int] == best@[i as int]@);
        if same_start(best[i].start, r.start) && best[i].end == r.end {
            if r.filed > best[i].filed {
                best.set(i, r);
                assert(fact_views(best@) =~= before.update(i as int, rv));
            }
            return;
        }
        i += 1;
    }
    best.push(r);
    assert(fact_views(best@) =~= before.push(rv));
}

fn end_in(v: &mut Vec<FactRow>, r: FactRow)
    requires
        dated(fact_views(old(v)@)),
        calendar_day(r.end as int),
    ensures
        fact_views(final(v)@) == ended_in(fact_views(old(v)@), r@),
        dated(fact_views(final(v)@)),
{
    let ghost whole = fact_views(v@);
    let ghost rv = r@;
    let mut i: usize = v.len();
    assert(whole.take(whole.len() as int) =~= whole);
    assert(ended_in(whole, rv) + whole.skip(whole.len() as int) =~= ended_in(whole, rv));
    while i > 0 && r.end > v[i - 1].end
        invariant
            i <= v@.len(),
            fact_views(v@) == whole,
            dated(whole),
            rv == r@,
            ended_in(whole, rv) == ended_in(whole.take(i as int), rv) + whole.skip(i as int),
        decreases i,
    {
        proof {
            assert(whole[i - 1] == v@[i - 1]@);
            let t = whole.take(i as int);
            assert(t.last() == whole[i - 1]);
            assert(t.drop_last() =~= whole.take(i - 1));
            assert(ended_in(whole.take(i - 1), rv).push(whole[i - 1]) + whole.skip(i as int) =~= ended_in(
                whole.take(i - 1),
                rv,
            ) + whole.skip(i - 1));
        }
        i -= 1;
    }
    proof {
        if i > 0 {
            assert(whole[i - 1] == v@[i - 1]@);
            assert(whole.take(i as int).last() == whole[i - 1]);
        }
        assert(ended_in(whole.take(i as int), rv) == whole.take(i as int).push(rv));
    }
    v.insert(i, r);
    let ghost after = whole.take(i as int).push(rv) + whole.skip(i as int);
    assert(fact_views(v@) =~= after);
    assert forall|j: int| 0 <= j < after.len() implies calendar_day((#[trigger] after[j]).end as int) by {
        if j < i {
            assert(after[j] == whole[j]);
        } else if j > i {
            assert(after[j] == whole[j - 1]);
        }
    }
}

/// Duration rows of `days_lo..=days_hi`, one per (start, end), latest filing wins, newest first.
pub fn periods(rows: &Vec<FactRow>, days_lo: i64, days_hi: i64, annual_only: bool) -> (r: Vec<FactRow>)
    requires
        dated(fact_views(rows@)),
    ensures
        fact_views(r@) == periods_of(fact_views(rows@), days_lo as int, days_hi as int, annual_only),
        dated(fact_views(r@)),
{
    let ghost views = fact_views(rows@);
    let mut best: Vec<FactRow> = Vec::new();
    assert(fact_views(best@) =~= Seq::empty());
    let mut i: usize = 0;
    while i < rows.len()
        invariant
            i <= rows@.len(),
            views == fact_views(rows@),
            dated(views),
            dated(fact_views(best@)),
            fact_views(best@) == latest_facts(views, days_lo as int, days_hi as int, annual_only, i as int),
        decreases rows@.len() - i,
    {
        assert(views[i as int] == rows@[i as int]@);
        let r = &rows[i];
        if let Some(start) = r.start {
            let days: i128 = r.end as i128 - start as i128;
            if days >= days_lo as i128 && days <= days_hi as i128 && (!annual_only || same_text(r.form.as_str(), "10-K")) {
                take_fact(&mut best, copy_fact(r));
            }
        }
        i += 1;
    }
    assert(views.take(i as int) =~= views);
    let ghost kept = fact_views(best@);
    let mut out: Vec<FactRow> = Vec::new();
    assert(fact_views(out@) =~= Seq::empty());
    assert(newest_first(kept.take(0)) =~= Seq::empty());
    let mut i: usize = 0;
    while i < best.len()
        invariant
            i <= best@.len(),
            kept == fact_views(best@),
            dated(kept),
            dated(fact_views(out@)),
            fact_views(out@) == newest_first(kept.take(i as int)),
        decreases best@.len() - i,
    {
        assert(kept[i as int] == best@[i as int]@);
        assert(kept.take(i + 1).drop_last() =~= kept.take(i as int));
        assert(kept.take(i + 1).last() == kept[i as int]);
        end_in(&mut out, copy_fact(&best[i]));
        i += 1;
    }
    assert(kept.take(i as int) =~= kept);
    out
}

/// The value of the rows from index `i` on that end on a day and were filed last.
pub open spec fn last_filed(rows: Seq<FactView>, end: i64, i: int, best: Option<FactView>) -> Option<FactView>
    decreases rows.len() - i,
{
    if i >= rows.len() {
        best
    } else if rows[i].end == end && (best is None || rows[i].filed >= best->0.filed) {
        last_filed(rows, end, i + 1, Some(rows[i]))
    } else {
        last_filed(rows, end, i + 1, best)
    }
}

/// The value on a day; of several the one that was filed last.
pub open spec fn value_on(rows: Seq<FactView>, end: i64) -> Option<Decimal> {
    match last_filed(rows, end, 0, None) {
        Some(r) => Some(r.val),
        None => None,
    }
}

fn value_at(rows: &Vec<FactRow>, end: i64) -> (r: Option<Decimal>)
    ensures
        r == value_on(fact_views(rows@), end),
{
    let ghost views = fact_views(rows@);
    let mut best: Option<usize> = None;
    let ghost mut chosen: Option<FactView> = None;
    let mut i: usize = 0;
    while i < rows.len()
        invariant
            i <= rows@.len(),
            views == fact_views(rows@),
            match best {
                Some(b) => b < rows@.len() && chosen == Some(rows@[b as int]@),
                None => chosen is None,
            },
            last_filed(views, end, 0, None) == last_filed(views, end, i as int, chosen),
        decreases rows@.len() - i,
    {
        assert(views[i as int] == rows@[i as int]@);
        let later = match best {
            Some(b) => rows[i].filed >= rows[b].filed,
            None => true,
        };
        if rows[i].end == end && later {
            best = Some(i);
            proof {
                chosen = Some(views[i as int]);
            }
        }
        i += 1;
    }
    match best {
        Some(b) => Some(rows[b].val),
        None => None,
    }
}

/// The latest end of the rows from index `i` on.
pub open spec fn last_end(rows: Seq<FactView>, i: int, best: Option<i64>) -> Option<i64>
    decreases rows.len() - i,
{
    if i >= rows.len() {
        best
    } else if best is None || rows[i].end > best->0 {
        last_end(rows, i + 1, Some(rows[i].end))
    } else {
        last_end(rows, i + 1, best)
    }
}

fn latest_end(rows: &Vec<FactRow>) -> (r: Option<i64>)
    ensures
        r == last_end(fact_views(rows@), 0, None),
{
    let ghost views = fact_views(rows@);
    let mut best: Option<i64> = None;
    let mut i: usize = 0;
    while i < rows.len()
        invariant
            i <= rows@.len(),
            views == fact_views(rows@),
            last_end(views, 0, None) == last_end(views, i as int, best),
        decreases rows@.len() - i,
    {
        assert(views[i as int] == rows@[i as int]@);
        let later = match best {
            Some(b) => rows[i].end > b,
            None => true,
        };
        if later {
            best = Some(rows[i].end);
        }
        i += 1;
    }
    best
}

/// Whether one optional day is not before another; no day is before every day.
pub open spec fn not_before(a: Option<i64>, b: Option<i64>) -> bool {
    match (a, b) {
        (Some(x), Some(y)) => x >= y,
        (None, Some(_)) => false,
        _ => true,
    }
}

fn is_not_before(a: Option<i64>, b: Option<i64>) -> (r: bool)
    ensures
        r == not_before(a, b),
{
    match (a, b) {
        (Some(x), Some(y)) => x >= y,
        (None, Some(_)) => false,
        _ => true,
    }
}

/// Of two lists the one that reports more recently; the second where they are equal.
pub open spec fn more_recent(a: Seq<FactView>, b: Seq<FactView>) -> Seq<FactView> {
    if not_before(last_end(b, 0, None), last_end(a, 0, None)) {
        b
    } else {
        a
    }
}

fn recent_of(a: Vec<FactRow>, b: Vec<FactRow>) -> (r: Vec<FactRow>)
    requires
        dated(fact_views(a@)),
        dated(fact_views(b@)),
    ensures
        fact_views(r@) == more_recent(fact_views(a@), fact_views(b@)),
        dated(fact_views(r@)),
{
    if is_not_before(latest_end(&b), latest_end(&a)) {
        b
    } else {
        a
    }
}

/// The revenue rows. The concept a company uses changed over time: the one that reports most
/// recently counts.
pub open spec fn revenue_rows(v: JsonView) -> Seq<FactView> {
    more_recent(
        more_recent(
            concept_rows(v, "us-gaap"@, "RevenueFromContractWithCustomerExcludingAssessedTax"@, "USD"@),
            concept_rows(v, "us-gaap"@, "Revenues"@, "USD"@),
        ),
        concept_rows(v, "us-gaap"@, "SalesRevenueNet"@, "USD"@),
    )
}

/// The value of a period among rows from index `i` on.
pub open spec fn picked(rows: Seq<FactView>, start: i64, end: i64, i: int) -> Option<Decimal>
    decreases rows.len() - i,
{
    if i >= rows.len() {
        None
    } else if rows[i].end == end && rows[i].start == Some(start) {
        Some(rows[i].val)
    } else {
        picked(rows, start, end, i + 1)
    }
}

fn pick(rows: &Vec<FactRow>, lo: i64, hi: i64, annual: bool, start: i64, end: i64) -> (r: Option<Decimal>)
    requires
        dated(fact_views(rows@)),
    ensures
        r == picked(periods_of(fact_views(rows@), lo as int, hi as int, annual), start, end, 0),
{
    let p = periods(rows, lo, hi, annual);
    let ghost views = fact_views(p@);
    let mut i: usize = 0;
    while i < p.len()
        invariant
            i <= p@.len(),
            views == fact_views(p@),
            views == periods_of(fact_views(rows@), lo as int, hi as int, annual),
            picked(views, start, end, 0) == picked(views, start, end, i as int),
        decreases p@.len() - i,
    {
        assert(views[i as int] == p@[i as int]@);
        if p[i].end == end && same_start(p[i].start, Some(start)) {
            let r = Some(p[i].val);
            assert(picked(views, start, end, i as int) == r);
            return r;
        }
        i += 1;
    }
    None
}

/// The rows that the figures of a company come from.
pub ghost struct Concepts {
    pub revenue: Seq<FactView>,
    pub operating: Seq<FactView>,
    pub net: Seq<FactView>,
    pub eps: Seq<FactView>,
    pub equity: Seq<FactView>,
}

/// The rows of a response.
pub open spec fn concepts_of(v: JsonView) -> Concepts {
    Concepts {
        revenue: revenue_rows(v),
        operating: concept_rows(v, "us-gaap"@, "OperatingIncomeLoss"@, "USD"@),
        net: concept_rows(v, "us-gaap"@, "NetIncomeLoss"@, "USD"@),
        eps: concept_rows(v, "us-gaap"@, "EarningsPerShareDiluted"@, "USD/shares"@),
        equity: concept_rows(v, "us-gaap"@, "StockholdersEquity"@, "USD"@),
    }
}

/// The figures of one period.
pub open spec fn figures(
    c: Concepts,
    start: i64,
    end: i64,
    label: Seq<char>,
    lo: int,
    hi: int,
    annual: bool,
) -> PeriodView {
    PeriodView {
        label,
        end,
        revenue: picked(periods_of(c.revenue, lo, hi, annual), start, end, 0),
        operating_income: picked(periods_of(c.operating, lo, hi, annual), start, end, 0),
        net_income: picked(periods_of(c.net, lo, hi, annual), start, end, 0),
        eps: picked(periods_of(c.eps, lo, hi, annual), start, end, 0),
        equity: value_on(c.equity, end),
    }
}

struct Reported {
    revenue: Vec<FactRow>,
    operating: Vec<FactRow>,
    net: Vec<FactRow>,
    eps: Vec<FactRow>,
    equity: Vec<FactRow>,
}

impl Reported {
    spec fn concepts(&self) -> Concepts {
        Concepts {
            revenue: fact_views(self.revenue@),
            operating: fact_views(self.operating@),
            net: fact_views(self.net@),
            eps: fact_views(self.eps@),
            equity: fact_views(self.equity@),
        }
    }

    spec fn all_dated(&self) -> bool {
        let c = self.concepts();
        dated(c.revenue) && dated(c.operating) && dated(c.net) && dated(c.eps) && dated(c.equity)
    }

    fn build(&self, start: i64, end: i64, label: String, lo: i64, hi: i64, annual: bool) -> (p: PeriodFinancials)
        requires
            self.all_dated(),
        ensures
            p@ == figures(self.concepts(), start, end, label@, lo as int, hi as int, annual),
    {
        PeriodFinancials {
            label,
            end,
            revenue: pick(&self.revenue, lo, hi, annual, start, end),
            operating_income: pick(&self.operating, lo, hi, annual, start, end),
            net_income: pick(&self.net, lo, hi, annual, start, end),
            eps: pick(&self.eps, lo, hi, annual, start, end),
            equity: value_at(&self.equity, end),
        }
    }
}

/// The figures of a fiscal year.
pub open spec fn annual_figures(c: Concepts, r: FactView) -> PeriodView {
    figures(c, r.start->0, r.end, "FY"@ + date_shown(r.end, "%Y"@), 335, 395, true)
}

/// The figures of the first `n` fiscal years.
pub open spec fn annuals(c: Concepts, p: Seq<FactView>, n: int) -> Seq<PeriodView>
    decreases n,
{
    if n <= 0 {
        Seq::empty()
    } else {
        annuals(c, p, n - 1).push(annual_figures(c, p[n - 1]))
    }
}

/// The figures of the latest quarter.
pub open spec fn quarter_figures(c: Concepts, p: Seq<FactView>) -> Option<PeriodView> {
    if p.len() == 0 {
        None
    } else {
        let q = (month_of(p[0].end) - 1) / 3 + 1;
        Some(
            figures(
                c,
                p[0].start->0,
                p[0].end,
                date_shown(p[0].end, "%Y"@) + "Q"@ + padded_digits(q as nat, 1),
                80,
                100,
                false,
            ),
        )
    }
}

/// The last reported value of the rows from index `i` on: by end, of several by filing.
pub open spec fn last_reported(rows: Seq<FactView>, i: int, best: Option<FactView>) -> Option<FactView>
    decreases rows.len() - i,
{
    if i >= rows.len() {
        best
    } else if best is None || rows[i].end > best->0.end || (rows[i].end == best->0.end && rows[i].filed
        >= best->0.filed) {
        last_reported(rows, i + 1, Some(rows[i]))
    } else {
        last_reported(rows, i + 1, best)
    }
}

fn latest_value(rows: &Vec<FactRow>) -> (r: Option<Decimal>)
    ensures
        r == (match last_reported(fact_views(rows@), 0, None) {
            Some(x) => Some(x.val),
            None => None,
        }),
{
    let ghost views = fact_views(rows@);
    let mut best: Option<usize> = None;
    let ghost mut chosen: Option<FactView> = None;
    let mut i: usize = 0;
    while i < rows.len()
        invariant
            i <= rows@.len(),
            views == fact_views(rows@),
            match best {
                Some(b) => b < rows@.len() && chosen == Some(rows@[b as int]@),
                None => chosen is None,
            },
            last_reported(views, 0, None) == last_reported(views, i as int, chosen),
        decreases rows@.len() - i,
    {
        assert(views[i as int] == rows@[i as int]@);
        let later = match best {
            Some(b) => rows[i].end > rows[b].end || (rows[i].end == rows[b].end && rows[i].filed >= rows[b].filed),
            None => true,
        };
        if later {
            best = Some(i);
            proof {
                chosen = Some(views[i as int]);
            }
        }
        i += 1;
    }
    match best {
        Some(b) => Some(rows[b].val),
        None => None,
    }
}

/// What the facts of a response say. Periods are defined by net income, which every filer reports.
pub open spec fn fundamentals_in(v: JsonView) -> FundamentalsView {
    let c = concepts_of(v);
    let years = periods_of(c.net, 335, 395, true);
    FundamentalsView {
        currency: Currency::Usd,
        annual: annuals(
            c,
            years,
            if years.len() < 3 {
                years.len() as int
            } else {
                3
            },
        ),
        latest_quarter: quarter_figures(c, periods_of(c.net, 80, 100, false)),
        shares_outstanding: match last_reported(
            concept_rows(v, "dei"@, "EntityCommonStockSharesOutstanding"@, "shares"@),
            0,
            None,
        ) {
            Some(r) => Some(r.val),
            None => None,
        },
        eps_computed: false,
    }
}

/// What the facts of a response say.
#[verifier::rlimit(40)]
pub fn read_facts(v: &Json) -> (f: Fundamentals)
    ensures
        f@ == fundamentals_in(v.view()),
{
    let revenue = recent_of(
        recent_of(
            rows(v, "us-gaap", "RevenueFromContractWithCustomerExcludingAssessedTax", "USD"),
            rows(v, "us-gaap", "Revenues", "USD"),
        ),
        rows(v, "us-gaap", "SalesRevenueNet", "USD"),
    );
    let c = Reported {
        revenue,
        operating: rows(v, "us-gaap", "OperatingIncomeLoss", "USD"),
        net: rows(v, "us-gaap", "NetIncomeLoss", "USD"),
        eps: rows(v, "us-gaap", "EarningsPerShareDiluted", "USD/shares"),
        equity: rows(v, "us-gaap", "StockholdersEquity", "USD"),
    };
    let ghost model = concepts_of(v.view());
    assert(c.concepts() == model);
    let years = periods(&c.net, 335, 395, true);
    let ghost yv = fact_views(years@);
    proof {
        lemma_periods_count(model.net, 335, 395, true);
        lemma_periods_count(model.net, 80, 100, false);
    }
    let mut annual: Vec<PeriodFinancials> = Vec::new();
    assert(period_views(annual@) =~= Seq::empty());
    let mut i: usize = 0;
    while i < years.len() && i < 3
        invariant
            i <= years@.len(),
            i <= 3,
            c.concepts() == model,
            c.all_dated(),
            yv == fact_views(years@),
            dated(yv),
            forall|j: int| 0 <= j < yv.len() ==> counts(#[trigger] yv[j], 335, 395, true),
            period_views(annual@) == annuals(model, yv, i as int),
        decreases years@.len() - i,
    {
        assert(yv[i as int] == years@[i as int]@);
        let r = &years[i];
        if let Some(start) = r.start {
            let mut label = "FY".to_owned();
            label.append(show_date(r.end, "%Y").as_str());
            let ghost before = period_views(annual@);
            let p = c.build(start, r.end, label, 335, 395, true);
            let ghost pv = p@;
            annual.push(p);
            assert(period_views(annual@) =~= before.push(pv));
        }
        i += 1;
    }
    let quarters = periods(&c.net, 80, 100, false);
    let ghost qv = fact_views(quarters@);
    let mut latest_quarter: Option<PeriodFinancials> = None;
    if quarters.len() > 0 {
        assert(qv[0] == quarters@[0]@);
        assert(counts(qv[0], 80, 100, false));
        let r = &quarters[0];
        if let Some(start) = r.start {
            let q = (month(r.end) - 1) / 3 + 1;
            let mut label = show_date(r.end, "%Y");
            label.append("Q");
            label.append(uint_text(q as u64).as_str());
            latest_quarter = Some(c.build(start, r.end, label, 80, 100, false));
        }
    }
    let shares = rows(v, "dei", "EntityCommonStockSharesOutstanding", "shares");
    Fundamentals {
        currency: Currency::Usd,
        annual,
        latest_quarter,
        shares_outstanding: latest_value(&shares),
        eps_computed: false,
    }
}

/// Reads the company facts.
pub fn parse_facts(bytes: &[u8]) -> (r: Result<Fundamentals, String>)
    ensures
        match json_read(bytes@) {
            Err(m) => r matches Err(e) && e@ == m,
            Ok(v) => r matches Ok(f) && f@ == fundamentals_in(v),
        },
{
    match parse_json(bytes) {
        Err(e) => Err(e),
        Ok(v) => Ok(read_facts(&v)),
    }
}

proof fn lemma_period_at(best: Seq<FactView>, r: FactView, i: int)
    requires
        0 <= i,
    ensures
        match period_at(best, r, i) {
            Some(j) => i <= j < best.len() && same_period(best[j], r),
            None => forall|j: int| i <= j < best.len() ==> !same_period(#[trigger] best[j], r),
        },
    decreases best.len() - i,
{
    if i < best.len() && !same_period(best[i], r) {
        lemma_period_at(best, r, i + 1);
    }
}

proof fn lemma_latest_count(rows: Seq<FactView>, lo: int, hi: int, annual: bool, n: int)
    requires
        0 <= n <= rows.len(),
    ensures
        forall|j: int|
            0 <= j < latest_facts(rows, lo, hi, annual, n).len() ==> counts(
                #[trigger] latest_facts(rows, lo, hi, annual, n)[j],
                lo,
                hi,
                annual,
            ),
    decreases n,
{
    if n > 0 {
        lemma_latest_count(rows, lo, hi, annual, n - 1);
        lemma_period_at(latest_facts(rows, lo, hi, annual, n - 1), rows[n - 1], 0);
    }
}

proof fn lemma_ended_in(v: Seq<FactView>, r: FactView)
    ensures
        ended_in(v, r).len() == v.len() + 1,
        forall|x: FactView| #[trigger] ended_in(v, r).contains(x) == (x == r || v.contains(x)),
    decreases v.len(),
{
    if v.len() > 0 && r.end > v.last().end {
        let d = v.drop_last();
        let s = ended_in(d, r);
        lemma_ended_in(d, r);
        assert(v =~= d.push(v.last()));
        assert forall|x: FactView| #[trigger] ended_in(v, r).contains(x) == (x == r || v.contains(x)) by {
            assert(ended_in(v, r) == s.push(v.last()));
            lemma_push_contains(s, v.last(), x);
            lemma_push_contains(d, v.last(), x);
        }
    } else {
        assert forall|x: FactView| #[trigger] ended_in(v, r).contains(x) == (x == r || v.contains(x)) by {
            lemma_push_contains(v, r, x);
        }
    }
}

proof fn lemma_push_contains<A>(s: Seq<A>, a: A, x: A)
    ensures
        s.push(a).contains(x) == (x == a || s.contains(x)),
{
    if s.contains(x) {
        let i = choose|i: int| 0 <= i < s.len() && s[i] == x;
        assert(s.push(a)[i] == x);
    }
    if x == a {
        assert(s.push(a)[s.len() as int] == x);
    }
    if s.push(a).contains(x) {
        let i = choose|i: int| 0 <= i < s.push(a).len() && s.push(a)[i] == x;
        if i < s.len() {
            assert(s[i] == x);
        }
    }
}

proof fn lemma_newest_first(v: Seq<FactView>)
    ensures
        newest_first(v).len() == v.len(),
        forall|x: FactView| #[trigger] newest_first(v).contains(x) == v.contains(x),
    decreases v.len(),
{
    if v.len() > 0 {
        lemma_newest_first(v.drop_last());
        lemma_ended_in(newest_first(v.drop_last()), v.last());
        assert(v =~= v.drop_last().push(v.last()));
        assert forall|x: FactView| #[trigger] newest_first(v).contains(x) == v.contains(x) by {
            lemma_push_contains(v.drop_last(), v.last(), x);
        }
    }
}

proof fn lemma_periods_count(rows: Seq<FactView>, lo: int, hi: int, annual: bool)
    ensures
        forall|j: int|
            0 <= j < periods_of(rows, lo, hi, annual).len() ==> counts(
                #[trigger] periods_of(rows, lo, hi, annual)[j],
                lo,
                hi,
                annual,
            ),
{
    let kept = latest_facts(rows, lo, hi, annual, rows.len() as int);
    lemma_latest_count(rows, lo, hi, annual, rows.len() as int);
    lemma_newest_first(kept);
    let s = newest_first(kept);
    assert forall|j: int| 0 <= j < s.len() implies counts(#[trigger] s[j], lo, hi, annual) by {
        assert(s.contains(s[j]));
        let k = choose|k: int| 0 <= k < kept.len() && kept[k] == s[j];
        assert(counts(kept[k], lo, hi, annual));
    }
}

proof fn lemma_ended_sorted(v: Seq<FactView>, r: FactView)
    requires
        forall|i: int, j: int| 0 <= i <= j < v.len() ==> (#[trigger] v[i]).end >= (#[trigger] v[j]).end,
    ensures
        forall|i: int, j: int|
            0 <= i <= j < ended_in(v, r).len() ==> (#[trigger] ended_in(v, r)[i]).end >= (#[trigger] ended_in(v, r)[j]).end,
    decreases v.len(),
{
    if v.len() > 0 && r.end > v.last().end {
        let d = v.drop_last();
        lemma_ended_sorted(d, r);
        lemma_ended_in(d, r);
        let s = ended_in(d, r);
        assert forall|i: int| 0 <= i < s.len() implies (#[trigger] s[i]).end >= v.last().end by {
            assert(s.contains(s[i]));
            if s[i] != r {
                let k = choose|k: int| 0 <= k < d.len() && d[k] == s[i];
                assert(v[k].end >= v[v.len() - 1].end);
            }
        }
    }
}

proof fn lemma_newest_sorted(v: Seq<FactView>)
    ensures
        forall|i: int, j: int|
            0 <= i <= j < newest_first(v).len() ==> (#[trigger] newest_first(v)[i]).end >= (
            #[trigger] newest_first(v)[j]).end,
    decreases v.len(),
{
    if v.len() > 0 {
        lemma_newest_sorted(v.drop_last());
        lemma_ended_sorted(newest_first(v.drop_last()), v.last());
    }
}

proof fn lemma_latest_wins(rows: Seq<FactView>, lo: int, hi: int, annual: bool, n: int, i: int)
    requires
        0 <= i < n <= rows.len(),
        counts(rows[i], lo, hi, annual),
    ensures
        exists|j: int|
            0 <= j < latest_facts(rows, lo, hi, annual, n).len() && same_period(
                #[trigger] latest_facts(rows, lo, hi, annual, n)[j],
                rows[i],
            ) && latest_facts(rows, lo, hi, annual, n)[j].filed >= rows[i].filed,
    decreases n,
{
    let before = latest_facts(rows, lo, hi, annual, n - 1);
    let after = latest_facts(rows, lo, hi, annual, n);
    lemma_period_at(before, rows[n - 1], 0);
    if i < n - 1 {
        lemma_latest_wins(rows, lo, hi, annual, n - 1, i);
        let j = choose|j: int|
            0 <= j < before.len() && same_period(#[trigger] before[j], rows[i]) && before[j].filed >= rows[i].filed;
        assert(same_period(after[j], rows[i]) && after[j].filed >= rows[i].filed);
    } else {
        match period_at(before, rows[n - 1], 0) {
            Some(k) => {
                assert(same_period(after[k], rows[i]) && after[k].filed >= rows[i].filed);
            },
            None => {
                let k = before.len() as int;
                assert(same_period(after[k], rows[i]) && after[k].filed >= rows[i].filed);
            },
        }
    }
}

/// Periods come newest first, every row that counts is answered by one of its period that was
/// filed no earlier, and nothing but rows that count comes out.
pub proof fn law_latest_filing_wins(rows: Seq<FactView>, lo: int, hi: int, annual: bool)
    ensures
        forall|i: int, j: int|
            0 <= i <= j < periods_of(rows, lo, hi, annual).len() ==> (#[trigger] periods_of(rows, lo, hi, annual)[i]).end
                >= (#[trigger] periods_of(rows, lo, hi, annual)[j]).end,
        forall|j: int|
            0 <= j < periods_of(rows, lo, hi, annual).len() ==> counts(
                #[trigger] periods_of(rows, lo, hi, annual)[j],
                lo,
                hi,
                annual,
            ),
        forall|i: int|
            0 <= i < rows.len() && counts(#[trigger] rows[i], lo, hi, annual) ==> exists|x: FactView|
                #[trigger] periods_of(rows, lo, hi, annual).contains(x) && same_period(x, rows[i]) && x.filed
                    >= rows[i].filed,
{
    let kept = latest_facts(rows, lo, hi, annual, rows.len() as int);
    lemma_newest_sorted(kept);
    lemma_periods_count(rows, lo, hi, annual);
    lemma_newest_first(kept);
    assert forall|i: int| 0 <= i < rows.len() && counts(#[trigger] rows[i], lo, hi, annual) implies exists|
        x: FactView,
    |
        #[trigger] periods_of(rows, lo, hi, annual).contains(x) && same_period(x, rows[i]) && x.filed
            >= rows[i].filed by {
        lemma_latest_wins(rows, lo, hi, annual, rows.len() as int, i);
        let j = choose|j: int|
            0 <= j < kept.len() && same_period(#[trigger] kept[j], rows[i]) && kept[j].filed >= rows[i].filed;
        let x = kept[j];
        assert(kept.contains(x));
        assert(periods_of(rows, lo, hi, annual).contains(x));
    }
}

/// Where the facts of a company stand.
pub fn facts_url(cik: u64) -> (r: String)
    ensures
        r@ == "https://data.sec.gov/api/xbrl/companyfacts/CIK"@ + padded_digits(cik as nat, 10) + ".json"@,
{
    let mut s = "https://data.sec.gov/api/xbrl/companyfacts/CIK".to_owned();
    s.append(padded_text(cik, 10).as_str());
    s.append(".json");
    s
}

/// Where the filings of a company stand.
pub fn submissions_url(cik: u64) -> (r: String)
    ensures
        r@ == "https://data.sec.gov/submissions/CIK"@ + padded_digits(cik as nat, 10) + ".json"@,
{
    let mut s = "https://data.sec.gov/submissions/CIK".to_owned();
    s.append(padded_text(cik, 10).as_str());
    s.append(".json");
    s
}

/// Whether a text is an accession number: digits and dashes.
pub open spec fn is_accession(s: Seq<char>) -> bool {
    forall|i: int| 0 <= i < s.len() ==> is_digit(#[trigger] s[i]) || s[i] == '-'
}

/// The accession number and the document of a filing id, `{accession}:{primaryDocument}`.
pub open spec fn filing_id_parts(id: Seq<char>) -> Result<(Seq<char>, Seq<char>), Seq<char>> {
    match cut(id, ':') {
        None => Err("filing id must look like 0000320193-26-000020:aapl-20260627.htm"@),
        Some((acc, doc)) => if is_accession(acc) && first_at(doc, '/', 0) is None {
            Ok((acc, doc))
        } else {
            Err("malformed filing id"@)
        },
    }
}

/// Reads a filing id.
pub fn read_filing_id(id: &str) -> (r: Result<(String, String), String>)
    ensures
        match filing_id_parts(id@) {
            Ok((acc, doc)) => r matches Ok(p) && p.0@ == acc && p.1@ == doc,
            Err(m) => r matches Err(e) && e@ == m,
        },
{
    let (acc, doc) = match cut_at(id, ':') {
        Some(p) => p,
        None => return Err("filing id must look like 0000320193-26-000020:aapl-20260627.htm".to_owned()),
    };
    let v = chars_of(acc.as_str());
    let mut i: usize = 0;
    while i < v.len()
        invariant
            i <= v@.len(),
            v@ == acc@,
            cut(id@, ':') == Some((acc@, doc@)),
            forall|j: int| 0 <= j < i ==> is_digit(#[trigger] v@[j]) || v@[j] == '-',
        decreases v@.len() - i,
    {
        let c = v[i];
        if !(('0' <= c && c <= '9') || c == '-') {
            assert(!is_accession(acc@)) by {
                assert(!is_digit(acc@[i as int]));
            }
            return Err("malformed filing id".to_owned());
        }
        i += 1;
    }
    if find_char(&chars_of(doc.as_str()), '/', 0).is_some() {
        return Err("malformed filing id".to_owned());
    }
    Ok((acc, doc))
}

/// The readable text of a filing's primary document.
pub fn filing_text(html: &[u8]) -> (r: String)
    ensures
        r@ == readable(lossy_text(html@)),
{
    html_to_text(lossy(html).as_str())
}

/// Whether a row is the one of the first `n` that ends on a day and was filed last, the last of several.
pub open spec fn filed_last(rows: Seq<FactView>, end: i64, n: int, k: int) -> bool {
    &&& 0 <= k < n
    &&& rows[k].end == end
    &&& forall|j: int|
        0 <= j < n && (#[trigger] rows[j]).end == end ==> rows[j].filed < rows[k].filed || (rows[j].filed == rows[k].filed && j
            <= k)
}

proof fn lemma_last_filed(rows: Seq<FactView>, end: i64, i: int, best: Option<FactView>, k: int)
    requires
        0 <= i <= rows.len(),
        match best {
            Some(b) => filed_last(rows, end, i, k) && b == rows[k],
            None => forall|j: int| 0 <= j < i ==> (#[trigger] rows[j]).end != end,
        },
    ensures
        match last_filed(rows, end, i, best) {
            Some(b) => exists|m: int| #[trigger] filed_last(rows, end, rows.len() as int, m) && b == rows[m],
            None => forall|j: int| 0 <= j < rows.len() ==> (#[trigger] rows[j]).end != end,
        },
    decreases rows.len() - i,
{
    if i < rows.len() {
        if rows[i].end == end && (best is None || rows[i].filed >= best->0.filed) {
            assert(filed_last(rows, end, i + 1, i));
            lemma_last_filed(rows, end, i + 1, Some(rows[i]), i);
        } else {
            if best is Some {
                assert(filed_last(rows, end, i + 1, k));
            }
            lemma_last_filed(rows, end, i + 1, best, k);
        }
    }
}

/// The value on a day is that of a row that ends on it and was filed no earlier than any other such row; there is
/// none only where no row ends on the day.
pub proof fn law_corrections_count(rows: Seq<FactView>, end: i64)
    ensures
        match value_on(rows, end) {
            Some(v) => exists|k: int| #[trigger] filed_last(rows, end, rows.len() as int, k) && v == rows[k].val,
            None => forall|j: int| 0 <= j < rows.len() ==> (#[trigger] rows[j]).end != end,
        },
{
    lemma_last_filed(rows, end, 0, None, 0);
}

/// Whether a row is the latest of the first `n`: none ends later, and none that ends with it was filed later.
pub open spec fn reported_last(rows: Seq<FactView>, n: int, k: int) -> bool {
    &&& 0 <= k < n
    &&& forall|j: int|
        0 <= j < n ==> (#[trigger] rows[j]).end < rows[k].end || (rows[j].end == rows[k].end && rows[j].filed
            <= rows[k].filed)
}

proof fn lemma_last_reported(rows: Seq<FactView>, i: int, best: Option<FactView>, k: int)
    requires
        0 <= i <= rows.len(),
        match best {
            Some(b) => reported_last(rows, i, k) && b == rows[k],
            None => i == 0,
        },
    ensures
        match last_reported(rows, i, best) {
            Some(b) => exists|m: int| #[trigger] reported_last(rows, rows.len() as int, m) && b == rows[m],
            None => rows.len() == 0,
        },
    decreases rows.len() - i,
{
    if i < rows.len() {
        if best is None || rows[i].end > best->0.end || (rows[i].end == best->0.end && rows[i].filed >= best->0.filed) {
            assert(reported_last(rows, i + 1, i));
            lemma_last_reported(rows, i + 1, Some(rows[i]), i);
        } else {
            assert(reported_last(rows, i + 1, k));
            lemma_last_reported(rows, i + 1, best, k);
        }
    }
}

/// What was reported last is a row that no other one outlasts; there is none only where nothing was reported.
pub proof fn law_the_last_report_counts(rows: Seq<FactView>)
    ensures
        match last_reported(rows, 0, None) {
            Some(b) => exists|k: int| #[trigger] reported_last(rows, rows.len() as int, k) && b == rows[k],
            None => rows.len() == 0,
        },
{
    lemma_last_reported(rows, 0, None, 0);
}

proof fn lemma_last_end(rows: Seq<FactView>, i: int, best: Option<i64>)
    requires
        0 <= i <= rows.len(),
        best is None ==> i == 0,
        best is Some ==> forall|j: int| 0 <= j < i ==> (#[trigger] rows[j]).end <= best->0,
        best is Some ==> exists|j: int| 0 <= j < i && (#[trigger] rows[j]).end == best->0,
    ensures
        match last_end(rows, i, best) {
            Some(e) => (forall|j: int| 0 <= j < rows.len() ==> (#[trigger] rows[j]).end <= e) && exists|j: int|
                0 <= j < rows.len() && (#[trigger] rows[j]).end == e,
            None => rows.len() == 0,
        },
    decreases rows.len() - i,
{
    if i < rows.len() {
        if best is None || rows[i].end > best->0 {
            lemma_last_end(rows, i + 1, Some(rows[i].end));
        } else {
            lemma_last_end(rows, i + 1, best);
        }
    }
}

/// Of two concepts that stand for the same figure the one that reports more recently is taken: no row of the
/// other one ends later than every row of it.
pub proof fn law_the_concept_in_use_is_taken(a: Seq<FactView>, b: Seq<FactView>, i: int)
    ensures
        more_recent(a, b) == a || more_recent(a, b) == b,
        0 <= i < a.len() ==> exists|j: int|
            0 <= j < more_recent(a, b).len() && (#[trigger] more_recent(a, b)[j]).end >= a[i].end,
        0 <= i < b.len() ==> exists|j: int|
            0 <= j < more_recent(a, b).len() && (#[trigger] more_recent(a, b)[j]).end >= b[i].end,
{
    lemma_last_end(a, 0, None);
    lemma_last_end(b, 0, None);
    let taken = more_recent(a, b);
    if let Some(e) = last_end(taken, 0, None) {
        let j = choose|j: int| 0 <= j < taken.len() && (#[trigger] taken[j]).end == e;
        assert(taken[j].end == e);
    }
}

proof fn lemma_filed_in(v: Seq<FilingView>, f: FilingView)
    requires
        forall|i: int, j: int| 0 <= i <= j < v.len() ==> (#[trigger] v[i]).date >= (#[trigger] v[j]).date,
    ensures
        forall|i: int, j: int|
            0 <= i <= j < filed_in(v, f).len() ==> (#[trigger] filed_in(v, f)[i]).date >= (#[trigger] filed_in(v, f)[j]).date,
        forall|i: int|
            0 <= i < filed_in(v, f).len() ==> (#[trigger] filed_in(v, f)[i]) == f || v.contains(filed_in(v, f)[i]),
    decreases v.len(),
{
    if v.len() > 0 && f.date > v.last().date {
        let head = v.drop_last();
        lemma_filed_in(head, f);
        let r = filed_in(head, f);
        assert forall|i: int| 0 <= i < filed_in(v, f).len() implies (#[trigger] filed_in(v, f)[i]) == f || v.contains(
            filed_in(v, f)[i],
        ) by {
            if i < r.len() {
                if r[i] != f {
                    let k = choose|k: int| 0 <= k < head.len() && head[k] == r[i];
                    assert(v[k] == r[i]);
                }
            } else {
                assert(v[v.len() - 1] == v.last());
            }
        }
        assert forall|i: int| 0 <= i < r.len() implies (#[trigger] r[i]).date >= v.last().date by {
            if r[i] != f {
                let k = choose|k: int| 0 <= k < head.len() && head[k] == r[i];
                assert(v[k] == r[i] && v[v.len() - 1] == v.last());
            }
        }
    } else {
        assert forall|i: int| 0 <= i < filed_in(v, f).len() implies (#[trigger] filed_in(v, f)[i]) == f || v.contains(
            filed_in(v, f)[i],
        ) by {
            if i < v.len() {
                assert(v[i] == filed_in(v, f)[i]);
            }
        }
    }
}

/// Recent filings come newest first.
pub proof fn law_filings_come_newest_first(v: JsonView, cik: u64, n: int)
    ensures
        forall|i: int, j: int|
            0 <= i <= j < recent_filings(v, cik, n).len() ==> (#[trigger] recent_filings(v, cik, n)[i]).date >= (
            #[trigger] recent_filings(v, cik, n)[j]).date,
    decreases n,
{
    if n > 0 {
        law_filings_come_newest_first(v, cik, n - 1);
        let before = recent_filings(v, cik, n - 1);
        match recent_filing(v, cik, n - 1) {
            Some(f) => {
                lemma_filed_in(before, f);
                assert(recent_filings(v, cik, n) == filed_in(before, f));
            },
            None => {
                assert(recent_filings(v, cik, n) == before);
            },
        }
    }
}

/// Filings since a day are those that are not older, no more than the limit, and all of them where they are
/// fewer.
pub proof fn law_filings_since_a_day(v: Seq<FilingView>, since: Option<i64>, limit: nat, i: int)
    requires
        0 <= i <= v.len(),
    ensures
        since_from(v, since, limit, i).len() <= limit,
        forall|k: int|
            0 <= k < since_from(v, since, limit, i).len() ==> since is None || (#[trigger] since_from(v, since, limit, i)[k]).date
                >= since->0,
        since_from(v, since, limit, i).len() < limit ==> forall|j: int|
            i <= j < v.len() && (since is None || (#[trigger] v[j]).date >= since->0) ==> since_from(v, since, limit, i).contains(
                v[j],
            ),
    decreases v.len() - i,
{
    if i < v.len() && limit > 0 {
        let r = since_from(v, since, limit, i);
        if since is None || v[i].date >= since->0 {
            law_filings_since_a_day(v, since, (limit - 1) as nat, i + 1);
            let rest = since_from(v, since, (limit - 1) as nat, i + 1);
            assert(r[0] == v[i]);
            assert forall|k: int| 0 <= k < r.len() implies since is None || (#[trigger] r[k]).date >= since->0 by {
                if k > 0 {
                    assert(r[k] == rest[k - 1]);
                }
            }
            if r.len() < limit {
                assert forall|j: int|
                    i <= j < v.len() && (since is None || (#[trigger] v[j]).date >= since->0) implies r.contains(v[j]) by {
                    if j > i {
                        let k = choose|k: int| 0 <= k < rest.len() && rest[k] == v[j];
                        assert(r[k + 1] == v[j]);
                    }
                }
            }
        } else {
            law_filings_since_a_day(v, since, limit, i + 1);
        }
    }
}

} // verus!
