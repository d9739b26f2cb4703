//! OpenDART: corp codes, disclosures, key accounts, share counts and filing documents.
use crate::archive::{
    decode_document, document_chars, member_bytes, member_count, unzip_first, zip_count, zip_member,
};
use crate::dates::{date_from, date_on, date_read, read_date};
use crate::decimal::{abs_int, max_int, opt_rounded, pow10, unit, Decimal};
use crate::domain::Currency;
use crate::fundamentals::{
    filing_views, html_to_text, lemma_ratio, period_views, quarter_view, readable, Filing, FilingView, Fundamentals,
    FundamentalsView, PeriodFinancials, PeriodView,
};
use crate::json::{lemma_list_view, list_in, list_view, member, text_in, Json, JsonView};
use crate::screen::text_view;
use crate::table::Table;
use crate::text::{
    all_digits, blocks, chars_of, contains_text, drop_char, drop_text, find_char, find_text, first_at, first_text,
    has_text, int_of, int_shown, int_text, is_digit, join_texts, joined, lossy, lossy_text, parse_int, same_text,
    split_blocks, text_of, texts, trim, trimmed, without_char, without_text,
};
use vstd::prelude::*;

verus! {

/// A text, or another one where there is none.
pub open spec fn text_or(t: Option<Seq<char>>, or: Seq<char>) -> Seq<char> {
    match t {
        Some(s) => s,
        None => or,
    }
}

/// What DART's status says: data, no data, or an error.
pub open spec fn status_of(v: JsonView) -> Result<bool, Seq<char>> {
    let s = text_in(member(v, "status"@));
    if s == Some("000"@) {
        Ok(true)
    } else if s == Some("013"@) {
        Ok(false)
    } else {
        Err("DART "@ + text_or(s, "?"@) + ": "@ + text_or(text_in(member(v, "message"@)), ""@))
    }
}

/// `Ok(true)` on data, `Ok(false)` on "no data" (013), `Err` on anything else.
pub fn check_status(body: &Json) -> (r: Result<bool, String>)
    ensures
        match status_of(body.view()) {
            Ok(b) => r == Ok::<bool, String>(b),
            Err(m) => r matches Err(e) && e@ == m,
        },
{
    let status = body.text_member("status");
    if let Some(s) = status {
        if same_text(s.as_str(), "000") {
            return Ok(true);
        }
        if same_text(s.as_str(), "013") {
            return Ok(false);
        }
    }
    let mut m = "DART ".to_owned();
    match status {
        Some(s) => m.append(s.as_str()),
        None => m.append("?"),
    }
    m.append(": ");
    match body.text_member("message") {
        Some(s) => m.append(s.as_str()),
        None => m.append(""),
    }
    Err(m)
}

/// The amount in a value: commas and white space around it aside.
pub open spec fn amount_in(v: JsonView) -> Option<Decimal> {
    match text_in(v) {
        Some(s) => {
            let t = without_char(trimmed(s), ',');
            if t.len() == 0 || t == "-"@ {
                None
            } else {
                Decimal::parsed(t)
            }
        },
        None => None,
    }
}

/// Comma-formatted amount; `-`, blank and missing are `None`.
pub fn amount(v: &Json) -> (r: Option<Decimal>)
    ensures
        r == amount_in(v.view()),
{
    match v.as_text() {
        Some(s) => {
            let t = drop_char(trim(s.as_str()).as_str(), ',');
            if chars_of(t.as_str()).len() == 0 || same_text(t.as_str(), "-") {
                None
            } else {
                Decimal::parse(t.as_str())
            }
        },
        None => None,
    }
}

fn amount_member(v: &Json, name: &str) -> (r: Option<Decimal>)
    ensures
        r == amount_in(member(v.view(), name@)),
{
    match v.get(name) {
        Some(j) => amount(j),
        None => None,
    }
}

/// What stands between the opening and the closing tag of a name.
pub open spec fn tagged_text(block: Seq<char>, name: Seq<char>) -> Option<Seq<char>> {
    let open = "<"@ + name + ">"@;
    match first_text(block, open, 0) {
        Some(i) => match first_text(block, "</"@ + name + ">"@, i + open.len()) {
            Some(e) => Some(trimmed(block.subrange(i + open.len(), e))),
            None => None,
        },
        None => None,
    }
}

fn tag(block: &str, name: &str) -> (r: Option<String>)
    ensures
        text_view(r) == tagged_text(block@, name@),
{
    let v = chars_of(block);
    let mut open = "<".to_owned();
    open.append(name);
    open.append(">");
    let mut close = "</".to_owned();
    close.append(name);
    close.append(">");
    let open = chars_of(open.as_str());
    let i = match find_text(&v, &open, 0) {
        Some(i) => i,
        None => return None,
    };
    let n: usize = v.len();
    assert(i + open@.len() <= n);
    let start: usize = i + open.len();
    match find_text(&v, &chars_of(close.as_str()), start) {
        Some(e) => Some(trim(text_of(&v, start, e).as_str())),
        None => None,
    }
}

/// The stock code and corp code of one company, if it is listed.
pub open spec fn listed_company(block: Seq<char>) -> Option<(Seq<char>, Seq<char>)> {
    match (tagged_text(block, "stock_code"@), tagged_text(block, "corp_code"@)) {
        (Some(stock), Some(corp)) => if stock.len() > 0 {
            Some((stock, corp))
        } else {
            None
        },
        _ => None,
    }
}

/// The corp codes of the blocks before index `n`; the first block is no company.
pub open spec fn corp_codes(b: Seq<Seq<char>>, n: int) -> Map<Seq<char>, Seq<char>>
    decreases n,
{
    if n <= 1 {
        Map::empty()
    } else {
        match listed_company(b[n - 1]) {
            Some((stock, corp)) => corp_codes(b, n - 1).insert(stock, corp),
            None => corp_codes(b, n - 1),
        }
    }
}

/// `stock_code` → `corp_code` for listed companies.
pub fn parse_corp_codes(xml: &str) -> (r: Table<String, String>)
    ensures
        r.wf(),
        r@ == corp_codes(blocks(xml@, "<list>"@), blocks(xml@, "<list>"@).len() as int),
{
    proof {
        reveal_strlit("<list>");
    }
    let parts = split_blocks(xml, "<list>");
    let ghost b = texts(parts@);
    let mut out: Table<String, String> = Table::new();
    let mut i: usize = 1;
    while i < parts.len()
        invariant
            1 <= i <= parts@.len(),
            b == texts(parts@),
            out.wf(),
            out@ == corp_codes(b, i as int),
        decreases parts@.len() - i,
    {
        assert(b[i as int] == parts@[i as int]@);
        let block = parts[i].as_str();
        let stock = tag(block, "stock_code");
        let corp = tag(block, "corp_code");
        if let Some(s) = stock {
            if chars_of(s.as_str()).len() > 0 {
                if let Some(c) = corp {
                    out.insert(s, c);
                }
            }
        }
        i += 1;
    }
    out
}

/// The corp code of a stock.
pub fn corp_code_of(codes: &Table<String, String>, stock_code: &str) -> (r: Result<String, String>)
    requires
        codes.wf(),
    ensures
        if codes@.contains_key(stock_code@) {
            r matches Ok(c) && c@ == codes@[stock_code@]
        } else {
            r matches Err(m) && m@ == stock_code@ + " has no DART corp code"@
        },
{
    let key = stock_code.to_owned();
    match codes.get(&key) {
        Some(c) => Ok(c.clone()),
        None => {
            let mut m = key;
            m.append(" has no DART corp code");
            Err(m)
        },
    }
}

/// The form of a report: its title without what stands in front in brackets and without the
/// period behind it.
pub open spec fn form_of(title: Seq<char>) -> Seq<char> {
    let t = trimmed(title);
    let u = if t.len() > 0 && t[0] == '[' {
        match first_at(t.skip(1), ']', 0) {
            Some(i) => t.skip(1).skip(i + 1),
            None => t,
        }
    } else {
        t
    };
    match first_text(u, " ("@, 0) {
        Some(i) => trimmed(u.take(i)),
        None => trimmed(u),
    }
}

/// `[기재정정]사업보고서 (2025.12)` → `사업보고서`.
pub fn report_form(title: &str) -> (r: String)
    ensures
        r@ == form_of(title@),
{
    let t = chars_of(trim(title).as_str());
    let mut from: usize = 0;
    if t.len() > 0 && t[0] == '[' {
        let rest = chars_of(text_of(&t, 1, t.len()).as_str());
        assert(rest@ =~= t@.skip(1));
        if let Some(i) = find_char(&rest, ']', 0) {
            from = i + 2;
            assert(t@.skip(1).skip(i + 1) =~= t@.skip(from as int));
        }
    }
    let u = chars_of(text_of(&t, from, t.len()).as_str());
    assert(t@.subrange(from as int, t@.len() as int) =~= t@.skip(from as int));
    assert(t@.skip(0) =~= t@);
    match find_text(&u, &chars_of(" ("), 0) {
        Some(i) => {
            assert(u@.subrange(0, i as int) =~= u@.take(i as int));
            trim(text_of(&u, 0, i).as_str())
        },
        None => {
            assert(u@.subrange(0, u@.len() as int) =~= u@);
            trim(text_of(&u, 0, u.len()).as_str())
        },
    }
}

/// The filing that a row of the list tells of.
pub open spec fn listed_filing(r: JsonView) -> Option<FilingView> {
    match (
        text_in(member(r, "rcept_no"@)),
        text_in(member(r, "report_nm"@)),
        text_in(member(r, "rcept_dt"@)),
    ) {
        (Some(id), Some(name), Some(day)) => match date_read(day, "%Y%m%d"@) {
            Some(date) => Some(
                FilingView {
                    id,
                    title: trimmed(name),
                    form: form_of(trimmed(name)),
                    date,
                    url: "https://dart.fss.or.kr/dsaf001/main.do?rcpNo="@ + id,
                },
            ),
            None => None,
        },
        _ => None,
    }
}

/// The filings that the rows from index `i` on tell of.
pub open spec fn listed_filings(rows: Seq<JsonView>, i: int) -> Seq<FilingView>
    decreases rows.len() - i,
{
    if i >= rows.len() {
        Seq::empty()
    } else {
        match listed_filing(rows[i]) {
            Some(f) => seq![f] + listed_filings(rows, i + 1),
            None => listed_filings(rows, i + 1),
        }
    }
}

/// The rows of the list of a response; none where there is no list.
pub open spec fn rows_of(v: JsonView) -> Seq<JsonView> {
    match list_in(member(v, "list"@)) {
        Some(rows) => rows,
        None => Seq::empty(),
    }
}

fn list_filing(r: &Json) -> (f: Option<Filing>)
    ensures
        match listed_filing(r.view()) {
            Some(x) => f matches Some(y) && y@ == x,
            None => f is None,
        },
{
    let id = match r.text_member("rcept_no") {
        Some(s) => s,
        None => return None,
    };
    let name = match r.text_member("report_nm") {
        Some(s) => s,
        None => return None,
    };
    let day = match r.text_member("rcept_dt") {
        Some(s) => s,
        None => return None,
    };
    let date = match read_date(day.as_str(), "%Y%m%d") {
        Some(d) => d,
        None => return None,
    };
    let title = trim(name.as_str());
    let mut url = "https://dart.fss.or.kr/dsaf001/main.do?rcpNo=".to_owned();
    url.append(id.as_str());
    Some(Filing { id: id.clone(), form: report_form(title.as_str()), title, date, url })
}

/// The filings of a list response; rows that are no filing are skipped.
pub fn parse_list(body: &Json) -> (r: Vec<Filing>)
    ensures
        filing_views(r@) == listed_filings(rows_of(body.view()), 0),
{
    let mut out: Vec<Filing> = Vec::new();
    let rows = match body.list_member("list") {
        Some(rows) => rows,
        None => {
            assert(filing_views(out@) =~= Seq::empty());
            return out;
        },
    };
    proof {
        lemma_list_view(rows@);
    }
    let ghost views = list_view(rows@);
    let mut i: usize = 0;
    assert(filing_views(out@) + listed_filings(views, 0) =~= listed_filings(views, 0));
    while i < rows.len()
        invariant
            i <= rows@.len(),
            views == list_view(rows@),
            views.len() == rows@.len(),
            forall|j: int| 0 <= j < rows@.len() ==> #[trigger] views[j] == rows@[j].view(),
            filing_views(out@) + listed_filings(views, i as int) == listed_filings(views, 0),
        decreases rows@.len() - i,
    {
        assert(views[i as int] == rows@[i as int].view());
        let ghost before = filing_views(out@);
        if let Some(f) = list_filing(&rows[i]) {
            let ghost fv = f@;
            out.push(f);
            proof {
                let more = listed_filings(views, i + 1);
                assert(filing_views(out@) =~= before.push(fv));
                assert(before + (seq![fv] + more) =~= before.push(fv) + more);
            }
        }
        i += 1;
    }
    assert(filing_views(out@) + listed_filings(views, i as int) =~= filing_views(out@));
    out
}

/// A line of the statements that is kept.
#[derive(Debug, Clone, Copy, PartialEq, Eq, Structural)]
pub enum Line {
    Revenue,
    Operating,
    Net,
    Equity,
}

/// The line that an account name means; `(손실)` and blanks in it do not matter.
pub open spec fn line_named(account: Seq<char>) -> Option<Line> {
    let a = without_char(without_text(account, "(손실)"@), ' ');
    if a == "매출액"@ || a == "수익(매출액)"@ {
        Some(Line::Revenue)
    } else if a == "영업이익"@ {
        Some(Line::Operating)
    } else if a == "당기순이익"@ {
        Some(Line::Net)
    } else if a == "자본총계"@ {
        Some(Line::Equity)
    } else {
        None
    }
}

fn line(account: &str) -> (r: Option<Line>)
    ensures
        r == line_named(account@),
{
    let a = drop_char(drop_text(account, "(손실)").as_str(), ' ');
    let a = a.as_str();
    if same_text(a, "매출액") || same_text(a, "수익(매출액)") {
        Some(Line::Revenue)
    } else if same_text(a, "영업이익") {
        Some(Line::Operating)
    } else if same_text(a, "당기순이익") {
        Some(Line::Net)
    } else if same_text(a, "자본총계") {
        Some(Line::Equity)
    } else {
        None
    }
}

/// The line that a row is about.
pub open spec fn row_line(r: JsonView) -> Option<Line> {
    match text_in(member(r, "account_nm"@)) {
        Some(a) => line_named(a),
        None => None,
    }
}

/// Whether any row from index `i` on is of a statement.
pub open spec fn any_of(rows: Seq<JsonView>, fs: Seq<char>, i: int) -> bool
    decreases rows.len() - i,
{
    i < rows.len() && (text_in(member(rows[i], "fs_div"@)) == Some(fs) || any_of(rows, fs, i + 1))
}

/// The rows from index `i` on that are of a statement.
pub open spec fn rows_with(rows: Seq<JsonView>, fs: Seq<char>, i: int) -> Seq<JsonView>
    decreases rows.len() - i,
{
    if i >= rows.len() {
        Seq::empty()
    } else if text_in(member(rows[i], "fs_div"@)) == Some(fs) {
        seq![rows[i]] + rows_with(rows, fs, i + 1)
    } else {
        rows_with(rows, fs, i + 1)
    }
}

/// Rows of the preferred statement: consolidated (CFS) when present, else separate (OFS).
pub open spec fn statement_of(v: JsonView) -> Seq<JsonView> {
    let rows = rows_of(v);
    rows_with(
        rows,
        if any_of(rows, "CFS"@, 0) {
            "CFS"@
        } else {
            "OFS"@
        },
        0,
    )
}

/// Borrowed values as what they say.
pub open spec fn views_of(v: Seq<&Json>) -> Seq<JsonView> {
    v.map_values(|j: &Json| j.view())
}

fn is_of(r: &Json, fs: &str) -> (b: bool)
    ensures
        b == (text_in(member(r.view(), "fs_div"@)) == Some(fs@)),
{
    match r.text_member("fs_div") {
        Some(s) => same_text(s.as_str(), fs),
        None => false,
    }
}

fn statement_rows<'a>(body: &'a Json) -> (r: Vec<&'a Json>)
    ensures
        views_of(r@) == statement_of(body.view()),
{
    let mut out: Vec<&'a Json> = Vec::new();
    let rows = match body.list_member("list") {
        Some(rows) => rows,
        None => {
            assert(views_of(out@) =~= Seq::empty());
            return out;
        },
    };
    proof {
        lemma_list_view(rows@);
    }
    let ghost views = list_view(rows@);
    let mut consolidated = false;
    let mut i: usize = 0;
    while i < rows.len() && !consolidated
        invariant
            i <= rows@.len(),
            views.len() == rows@.len(),
            forall|j: int| 0 <= j < rows@.len() ==> #[trigger] views[j] == rows@[j].view(),
            any_of(views, "CFS"@, 0) == (consolidated || any_of(views, "CFS"@, i as int)),
        decreases rows@.len() - i,
    {
        assert(views[i as int] == rows@[i as int].view());
        if is_of(&rows[i], "CFS") {
            consolidated = true;
        }
        i += 1;
    }
    let fs = if consolidated {
        "CFS"
    } else {
        "OFS"
    };
    let mut i: usize = 0;
    assert(views_of(out@) + rows_with(views, fs@, 0) =~= rows_with(views, fs@, 0));
    while i < rows.len()
        invariant
            i <= rows@.len(),
            views.len() == rows@.len(),
            forall|j: int| 0 <= j < rows@.len() ==> #[trigger] views[j] == rows@[j].view(),
            views_of(out@) + rows_with(views, fs@, i as int) == rows_with(views, fs@, 0),
        decreases rows@.len() - i,
    {
        assert(views[i as int] == rows@[i as int].view());
        let ghost before = views_of(out@);
        if is_of(&rows[i], fs) {
            out.push(&rows[i]);
            proof {
                let more = rows_with(views, fs@, i + 1);
                let x = views[i as int];
                assert(views_of(out@) =~= before.push(x));
                assert(before + (seq![x] + more) =~= before.push(x) + more);
            }
        }
        i += 1;
    }
    assert(views_of(out@) + rows_with(views, fs@, i as int) =~= views_of(out@));
    out
}

/// A period with one line set.
pub open spec fn with_line(p: PeriodView, l: Line, v: Option<Decimal>) -> PeriodView {
    match l {
        Line::Revenue => PeriodView { revenue: v, ..p },
        Line::Operating => PeriodView { operating_income: v, ..p },
        Line::Net => PeriodView { net_income: v, ..p },
        Line::Equity => PeriodView { equity: v, ..p },
    }
}

fn set(p: &mut PeriodFinancials, l: Line, v: Option<Decimal>)
    ensures
        final(p)@ == with_line(old(p)@, l, v),
{
    match l {
        Line::Revenue => p.revenue = v,
        Line::Operating => p.operating_income = v,
        Line::Net => p.net_income = v,
        Line::Equity => p.equity = v,
    }
}

/// A period with the lines of the rows from index `i` on set from a column.
pub open spec fn with_rows(p: PeriodView, rows: Seq<JsonView>, column: Seq<char>, i: int) -> PeriodView
    decreases rows.len() - i,
{
    if i >= rows.len() {
        p
    } else {
        match row_line(rows[i]) {
            Some(l) => with_rows(with_line(p, l, amount_in(member(rows[i], column))), rows, column, i + 1),
            None => with_rows(p, rows, column, i + 1),
        }
    }
}

fn set_rows(p: &mut PeriodFinancials, rows: &Vec<&Json>, column: &str)
    ensures
        final(p)@ == with_rows(old(p)@, views_of(rows@), column@, 0),
{
    let ghost start = p@;
    let mut i: usize = 0;
    while i < rows.len()
        invariant
            i <= rows@.len(),
            with_rows(start, views_of(rows@), column@, 0) == with_rows(p@, views_of(rows@), column@, i as int),
        decreases rows@.len() - i,
    {
        assert(views_of(rows@)[i as int] == rows@[i as int].view());
        let r = rows[i];
        if let Some(a) = r.text_member("account_nm") {
            if let Some(l) = line(a.as_str()) {
                set(p, l, amount_member(r, column));
            }
        }
        i += 1;
    }
}

/// A period without figures.
pub open spec fn blank_period(label: Seq<char>, end: i64) -> PeriodView {
    PeriodView {
        label,
        end,
        revenue: None,
        operating_income: None,
        net_income: None,
        eps: None,
        equity: None,
    }
}

fn blank(label: String, end: i64) -> (p: PeriodFinancials)
    ensures
        p@ == blank_period(label@, end),
{
    PeriodFinancials {
        label,
        end,
        revenue: None,
        operating_income: None,
        net_income: None,
        eps: None,
        equity: None,
    }
}

/// The business year of the first row.
pub open spec fn year_of(rows: Seq<JsonView>) -> Option<int> {
    if rows.len() == 0 {
        None
    } else {
        match text_in(member(rows[0], "bsns_year"@)) {
            Some(y) => match int_of(y) {
                Some(n) => if i32::MIN <= n <= i32::MAX {
                    Some(n)
                } else {
                    None
                },
                None => None,
            },
            None => None,
        }
    }
}

/// One year of an annual report; nothing where the calendar does not have its last day.
pub open spec fn annual_period(rows: Seq<JsonView>, year: int, column: Seq<char>) -> Option<PeriodView> {
    if i32::MIN <= year {
        match date_on(year as i32, 12, 31) {
            Some(end) => Some(with_rows(blank_period("FY"@ + int_shown(year), end), rows, column, 0)),
            None => None,
        }
    } else {
        None
    }
}

/// The three years of an annual report, newest first; none where it tells no year. Nothing where
/// the calendar does not have one of the years.
pub open spec fn annual_of(v: JsonView) -> Option<Seq<PeriodView>> {
    let rows = statement_of(v);
    match year_of(rows) {
        None => Some(Seq::empty()),
        Some(y) => match (
            annual_period(rows, y, "thstrm_amount"@),
            annual_period(rows, y - 1, "frmtrm_amount"@),
            annual_period(rows, y - 2, "bfefrmtrm_amount"@),
        ) {
            (Some(a), Some(b), Some(c)) => Some(seq![a, b, c]),
            _ => None,
        },
    }
}

fn annual_year(rows: &Vec<&Json>, year: i64, column: &str) -> (r: Option<PeriodFinancials>)
    requires
        year <= i32::MAX,
    ensures
        match annual_period(views_of(rows@), year as int, column@) {
            Some(p) => r matches Some(x) && x@ == p,
            None => r is None,
        },
{
    if year < i32::MIN as i64 {
        return None;
    }
    let end = match date_from(year as i32, 12, 31) {
        Some(d) => d,
        None => return None,
    };
    let mut label = "FY".to_owned();
    label.append(int_text(year).as_str());
    let mut p = blank(label, end);
    set_rows(&mut p, rows, column);
    Some(p)
}

/// An annual report (`reprt_code 11011`) carries this and the two prior years. `None` where the
/// calendar does not have one of them.
pub fn parse_annual(body: &Json) -> (r: Option<Vec<PeriodFinancials>>)
    ensures
        match annual_of(body.view()) {
            Some(s) => r matches Some(v) && period_views(v@) == s,
            None => r is None,
        },
{
    let rows = statement_rows(body);
    let mut out: Vec<PeriodFinancials> = Vec::new();
    let mut year: Option<i64> = None;
    if rows.len() > 0 {
        assert(views_of(rows@)[0] == rows@[0].view());
        if let Some(y) = rows[0].text_member("bsns_year") {
            if let Some(n) = parse_int(&chars_of(y.as_str())) {
                if n >= i32::MIN as i64 && n <= i32::MAX as i64 {
                    year = Some(n);
                }
            }
        }
    }
    let y = match year {
        Some(y) => y,
        None => {
            assert(period_views(out@) =~= Seq::empty());
            return Some(out);
        },
    };
    let a = annual_year(&rows, y, "thstrm_amount");
    let b = annual_year(&rows, y - 1, "frmtrm_amount");
    let c = annual_year(&rows, y - 2, "bfefrmtrm_amount");
    let a = match a {
        Some(p) => p,
        None => return None,
    };
    let b = match b {
        Some(p) => p,
        None => return None,
    };
    let c = match c {
        Some(p) => p,
        None => return None,
    };
    let ghost views = seq![a@, b@, c@];
    out.push(a);
    out.push(b);
    out.push(c);
    assert(period_views(out@) =~= views);
    Some(out)
}

/// The current period of a report; none where it has no rows.
pub open spec fn quarter_of(v: JsonView, label: Seq<char>, end: i64) -> Option<PeriodView> {
    let rows = statement_of(v);
    if rows.len() == 0 {
        None
    } else {
        Some(with_rows(blank_period(label, end), rows, "thstrm_amount"@, 0))
    }
}

/// The current-period column of a quarterly or half-year report.
pub fn parse_quarter(body: &Json, label: String, end: i64) -> (r: Option<PeriodFinancials>)
    ensures
        quarter_view(r) == quarter_of(body.view(), label@, end),
{
    let rows = statement_rows(body);
    if rows.len() == 0 {
        assert(views_of(rows@).len() == 0);
        return None;
    }
    assert(views_of(rows@).len() == rows@.len());
    let mut p = blank(label, end);
    set_rows(&mut p, &rows, "thstrm_amount");
    Some(p)
}

/// The first row from index `i` on that is a total.
pub open spec fn total_row(rows: Seq<JsonView>, i: int) -> Option<JsonView>
    decreases rows.len() - i,
{
    if i >= rows.len() {
        None
    } else {
        match text_in(member(rows[i], "se"@)) {
            Some(s) => if has_text(s, "합계"@) {
                Some(rows[i])
            } else {
                total_row(rows, i + 1)
            },
            None => total_row(rows, i + 1),
        }
    }
}

/// The shares outstanding of a response.
pub open spec fn shares_of(v: JsonView) -> Option<Decimal> {
    let rows = rows_of(v);
    match total_row(rows, 0) {
        Some(r) => amount_in(member(r, "distb_stock_co"@)),
        None => if rows.len() > 0 {
            amount_in(member(rows[0], "distb_stock_co"@))
        } else {
            None
        },
    }
}

/// Shares outstanding (`distb_stock_co`) from the total row, else the first row.
pub fn parse_shares(body: &Json) -> (r: Option<Decimal>)
    ensures
        r == shares_of(body.view()),
{
    let rows = match body.list_member("list") {
        Some(rows) => rows,
        None => return None,
    };
    proof {
        lemma_list_view(rows@);
    }
    let ghost views = list_view(rows@);
    let mut i: usize = 0;
    while i < rows.len()
        invariant
            i <= rows@.len(),
            views == list_view(rows@),
            views == rows_of(body.view()),
            views.len() == rows@.len(),
            forall|j: int| 0 <= j < rows@.len() ==> #[trigger] views[j] == rows@[j].view(),
            total_row(views, 0) == total_row(views, i as int),
        decreases rows@.len() - i,
    {
        assert(views[i as int] == rows@[i as int].view());
        if let Some(s) = rows[i].text_member("se") {
            if contains_text(s.as_str(), "합계") {
                return amount_member(&rows[i], "distb_stock_co");
            }
        }
        i += 1;
    }
    if rows.len() > 0 {
        assert(views[0] == rows@[0].view());
        amount_member(&rows[0], "distb_stock_co")
    } else {
        None
    }
}

/// Whether bytes begin as a zip archive does.
pub open spec fn is_zip(bytes: Seq<u8>) -> bool {
    bytes.len() >= 2 && bytes[0] == 80 && bytes[1] == 75
}

/// What DART says where it answers no archive.
pub open spec fn zip_refusal(bytes: Seq<u8>) -> Seq<char> {
    "DART "@ + text_or(tagged_text(lossy_text(bytes), "status"@), "?"@) + ": "@ + text_or(
        tagged_text(lossy_text(bytes), "message"@),
        "unexpected response"@,
    )
}

/// DART zip endpoints answer errors with an XML `<result>` instead of a zip.
pub fn zip_or_error(bytes: &[u8]) -> (r: Result<Vec<u8>, String>)
    ensures
        if is_zip(bytes@) {
            r matches Ok(v) && v@ == bytes@
        } else {
            r matches Err(m) && m@ == zip_refusal(bytes@)
        },
{
    if bytes.len() >= 2 && bytes[0] == 80 && bytes[1] == 75 {
        let mut out: Vec<u8> = Vec::new();
        let mut i: usize = 0;
        while i < bytes.len()
            invariant
                i <= bytes@.len(),
                out@ == bytes@.take(i as int),
            decreases bytes@.len() - i,
        {
            out.push(bytes[i]);
            i += 1;
        }
        assert(bytes@.take(i as int) =~= bytes@);
        return Ok(out);
    }
    let text = lossy(bytes);
    let mut m = "DART ".to_owned();
    match tag(text.as_str(), "status") {
        Some(s) => m.append(s.as_str()),
        None => m.append("?"),
    }
    m.append(": ");
    match tag(text.as_str(), "message") {
        Some(s) => m.append(s.as_str()),
        None => m.append("unexpected response"),
    }
    Err(m)
}

/// The listed companies in a response of the company list, by `stock_code`, or why there are none.
pub open spec fn corp_codes_in(bytes: Seq<u8>) -> Result<Map<Seq<char>, Seq<char>>, Seq<char>> {
    if !is_zip(bytes) {
        Err(zip_refusal(bytes))
    } else {
        match zip_member(bytes, 0) {
            Err(m) => Err(m),
            Ok(xml) => {
                let b = blocks(lossy_text(xml), "<list>"@);
                Ok(corp_codes(b, b.len() as int))
            },
        }
    }
}

/// Reads a response of the company list: a zip archive whose first member is XML.
pub fn read_corp_codes(bytes: &[u8]) -> (r: Result<Table<String, String>, String>)
    ensures
        match corp_codes_in(bytes@) {
            Ok(m) => r matches Ok(t) && t.wf() && t@ == m,
            Err(m) => r matches Err(e) && e@ == m,
        },
{
    let zip = match zip_or_error(bytes) {
        Ok(z) => z,
        Err(e) => return Err(e),
    };
    match unzip_first(&zip) {
        Ok(xml) => Ok(parse_corp_codes(lossy(&xml).as_str())),
        Err(e) => Err(e),
    }
}

/// The text of a filing in a response, or why there is none.
pub open spec fn filing_in(bytes: Seq<u8>) -> Result<Seq<char>, Seq<char>> {
    if !is_zip(bytes) {
        Err(zip_refusal(bytes))
    } else {
        match zip_count(bytes) {
            Err(m) => Err(m),
            Ok(n) => match member_texts(bytes, n as int) {
                Ok(parts) => Ok(joined(parts, "\n\n"@)),
                Err(m) => Err(m),
            },
        }
    }
}

/// Reads a response with a filing's document zip.
pub fn read_filing(bytes: &[u8]) -> (r: Result<String, String>)
    ensures
        match filing_in(bytes@) {
            Ok(t) => r matches Ok(x) && x@ == t,
            Err(m) => r matches Err(e) && e@ == m,
        },
{
    match zip_or_error(bytes) {
        Ok(zip) => document_text(&zip),
        Err(e) => Err(e),
    }
}

/// The readable texts of the first `n` members of an archive, or the first error.
pub open spec fn member_texts(bytes: Seq<u8>, n: int) -> Result<Seq<Seq<char>>, Seq<char>>
    decreases n,
{
    if n <= 0 {
        Ok(Seq::empty())
    } else {
        match member_texts(bytes, n - 1) {
            Err(m) => Err(m),
            Ok(s) => match zip_member(bytes, n - 1) {
                Ok(raw) => Ok(s.push(readable(document_chars(raw)))),
                Err(m) => Err(m),
            },
        }
    }
}

proof fn lemma_member_error(bytes: Seq<u8>, i: int, n: int)
    requires
        0 <= i <= n,
        member_texts(bytes, i) is Err,
    ensures
        member_texts(bytes, n) == member_texts(bytes, i),
    decreases n,
{
    if i < n {
        lemma_member_error(bytes, i, n - 1);
    }
}

/// Every file in a filing's document zip, as one text.
pub fn document_text(zip_bytes: &[u8]) -> (r: Result<String, String>)
    ensures
        match zip_count(zip_bytes@) {
            Err(m) => r matches Err(e) && e@ == m,
            Ok(n) => match member_texts(zip_bytes@, n as int) {
                Ok(parts) => r matches Ok(t) && t@ == joined(parts, "\n\n"@),
                Err(m) => r matches Err(e) && e@ == m,
            },
        },
{
    let n = match member_count(zip_bytes) {
        Ok(n) => n,
        Err(e) => return Err(e),
    };
    let mut parts: Vec<String> = Vec::new();
    let mut i: usize = 0;
    assert(texts(parts@) =~= Seq::empty());
    while i < n
        invariant
            i <= n,
            zip_count(zip_bytes@) == Ok::<nat, Seq<char>>(n as nat),
            member_texts(zip_bytes@, i as int) == Ok::<Seq<Seq<char>>, Seq<char>>(texts(parts@)),
        decreases n - i,
    {
        match member_bytes(zip_bytes, i) {
            Ok(raw) => {
                let ghost before = texts(parts@);
                let t = html_to_text(decode_document(&raw).as_str());
                let ghost tv = t@;
                parts.push(t);
                assert(texts(parts@) =~= before.push(tv));
            },
            Err(e) => {
                proof {
                    lemma_member_error(zip_bytes@, i + 1, n as int);
                }
                return Err(e);
            },
        }
        i += 1;
    }
    Ok(join_texts(&parts, "\n\n"))
}

/// Whether a filing id is a receipt number: fourteen digits.
pub fn is_receipt_number(id: &str) -> (r: bool)
    ensures
        r == (id@.len() == 14 && all_digits(id@)),
{
    let v = chars_of(id);
    if v.len() != 14 {
        return false;
    }
    let mut i: usize = 0;
    while i < v.len()
        invariant
            i <= v@.len(),
            v@ == id@,
            forall|j: int| 0 <= j < i ==> is_digit(#[trigger] v@[j]),
        decreases v@.len() - i,
    {
        let c = v[i];
        if !('0' <= c && c <= '9') {
            assert(!is_digit(id@[i as int]));
            return false;
        }
        i += 1;
    }
    true
}

/// How many filings are asked for at once: from one to a hundred.
pub fn page_size(limit: usize) -> (r: usize)
    ensures
        r == (if limit < 1 {
            1
        } else if limit > 100 {
            100
        } else {
            limit as int
        }),
{
    if limit < 1 {
        1
    } else if limit > 100 {
        100
    } else {
        limit
    }
}

/// What a company query asks for next.
#[derive(Debug, Clone, Copy, PartialEq, Eq, Structural)]
pub enum Ask {
    /// The annual report of a year.
    Annual(i32),
    /// A report of this year: by `reprt_code` the third, second or first quarter.
    Quarter(i32, u8),
    /// The share counts of a year.
    Shares(i32),
    Done,
}

impl Ask {
    /// The `reprt_code` of a request.
    pub open spec fn report_text(self) -> Seq<char> {
        match self {
            Ask::Quarter(_, 3) => "11014"@,
            Ask::Quarter(_, 2) => "11012"@,
            Ask::Quarter(_, _) => "11013"@,
            _ => "11011"@,
        }
    }

    pub fn report_code(self) -> (r: &'static str)
        ensures
            r@ == self.report_text(),
    {
        match self {
            Ask::Quarter(_, 3) => "11014",
            Ask::Quarter(_, 2) => "11012",
            Ask::Quarter(_, _) => "11013",
            _ => "11011",
        }
    }

    /// How many requests may follow.
    pub open spec fn rank(self, year: i32) -> int {
        match self {
            Ask::Annual(y) => if y == year - 1 {
                6
            } else {
                5
            },
            Ask::Quarter(_, q) => 1 + q as int,
            Ask::Shares(_) => 1,
            Ask::Done => 0,
        }
    }
}

/// What is known of a company so far.
#[derive(Debug)]
pub struct CompanyQuery {
    pub year: i32,
    pub ask: Ask,
    pub annual: Vec<PeriodFinancials>,
    pub annual_year: i32,
    pub quarter: Option<PeriodFinancials>,
    pub shares: Option<Decimal>,
}

/// What a company query knows.
pub ghost struct QueryView {
    pub year: i32,
    pub ask: Ask,
    pub annual: Seq<PeriodView>,
    pub annual_year: i32,
    pub quarter: Option<PeriodView>,
    pub shares: Option<Decimal>,
}

impl View for CompanyQuery {
    type V = QueryView;

    open spec fn view(&self) -> QueryView {
        QueryView {
            year: self.year,
            ask: self.ask,
            annual: period_views(self.annual@),
            annual_year: self.annual_year,
            quarter: quarter_view(self.quarter),
            shares: self.shares,
        }
    }
}

/// The last day of a quarter, third to first.
pub open spec fn quarter_end(year: i32, q: u8) -> Option<i64> {
    if q == 3 {
        date_on(year, 9, 30)
    } else if q == 2 {
        date_on(year, 6, 30)
    } else {
        date_on(year, 3, 31)
    }
}

/// The label of a quarter.
pub open spec fn quarter_label(year: int, q: u8) -> Seq<char> {
    int_shown(year) + (if q == 3 {
        "Q3"@
    } else if q == 2 {
        "Q2"@
    } else {
        "Q1"@
    })
}

/// A query after an answer; nothing where the calendar does not have a year that came up. The
/// latest annual report is last year's if filed, else the year before; the latest quarter is the
/// first of the third, second and first that is filed.
pub open spec fn answered(s: QueryView, body: Option<JsonView>) -> Option<QueryView> {
    match s.ask {
        Ask::Annual(y) => match body {
            Some(v) => match annual_of(v) {
                Some(annual) => Some(QueryView { annual, annual_year: y, ask: Ask::Quarter(s.year, 3), ..s }),
                None => None,
            },
            None => if y == s.year - 1 {
                Some(QueryView { ask: Ask::Annual((s.year - 2) as i32), ..s })
            } else {
                Some(QueryView { ask: Ask::Quarter(s.year, 3), ..s })
            },
        },
        Ask::Quarter(y, q) => match body {
            Some(v) => match quarter_end(y, q) {
                Some(end) => Some(
                    QueryView {
                        quarter: quarter_of(v, quarter_label(y as int, q), end),
                        ask: Ask::Shares(s.annual_year),
                        ..s
                    },
                ),
                None => None,
            },
            None => if q > 1 {
                Some(QueryView { ask: Ask::Quarter(y, (q - 1) as u8), ..s })
            } else {
                Some(QueryView { ask: Ask::Shares(s.annual_year), ..s })
            },
        },
        Ask::Shares(_) => Some(
            QueryView {
                shares: match body {
                    Some(v) => shares_of(v),
                    None => None,
                },
                ask: Ask::Done,
                ..s
            },
        ),
        Ask::Done => Some(s),
    }
}

/// A period with its earnings per share; nothing where a decimal cannot hold the quotient.
pub open spec fn with_eps(p: PeriodView, shares: Decimal) -> Option<PeriodView> {
    match p.net_income {
        Some(n) => match opt_rounded(n.over(shares), 2) {
            Some(e) => Some(PeriodView { eps: Some(e), ..p }),
            None => None,
        },
        None => Some(PeriodView { eps: None, ..p }),
    }
}

/// The first `n` periods with their earnings per share.
pub open spec fn all_with_eps(v: Seq<PeriodView>, shares: Decimal, n: int) -> Option<Seq<PeriodView>>
    decreases n,
{
    if n <= 0 {
        Some(Seq::empty())
    } else {
        match (all_with_eps(v, shares, n - 1), with_eps(v[n - 1], shares)) {
            (Some(s), Some(p)) => Some(s.push(p)),
            _ => None,
        }
    }
}

/// What a finished query says of the company. DART has no EPS; it is derived from net income and
/// shares outstanding.
pub open spec fn concluded(s: QueryView) -> Option<FundamentalsView> {
    let base = FundamentalsView {
        currency: Currency::Krw,
        annual: s.annual,
        latest_quarter: s.quarter,
        shares_outstanding: s.shares,
        eps_computed: true,
    };
    match s.shares {
        Some(sh) => if sh.value() > 0 {
            match (all_with_eps(s.annual, sh, s.annual.len() as int), s.quarter) {
                (Some(annual), Some(q)) => match with_eps(q, sh) {
                    Some(q) => Some(FundamentalsView { annual, latest_quarter: Some(q), ..base }),
                    None => None,
                },
                (Some(annual), None) => Some(FundamentalsView { annual, ..base }),
                (None, _) => None,
            }
        } else {
            Some(base)
        },
        None => Some(base),
    }
}

fn set_eps(p: &mut PeriodFinancials, shares: Decimal) -> (ok: bool)
    ensures
        match with_eps(old(p)@, shares) {
            Some(x) => ok && final(p)@ == x,
            None => !ok,
        },
{
    match p.net_income {
        Some(n) => match n.checked_div(shares) {
            Some(q) => {
                p.eps = Some(q.round_dp(2));
                true
            },
            None => false,
        },
        None => {
            p.eps = None;
            true
        },
    }
}

proof fn lemma_eps_error(v: Seq<PeriodView>, shares: Decimal, i: int, n: int)
    requires
        0 <= i <= n,
        all_with_eps(v, shares, i) is None,
    ensures
        all_with_eps(v, shares, n) is None,
    decreases n,
{
    if i < n {
        lemma_eps_error(v, shares, i, n - 1);
    }
}

fn copy_period(p: &PeriodFinancials) -> (r: PeriodFinancials)
    ensures
        r@ == p@,
{
    PeriodFinancials {
        label: p.label.clone(),
        end: p.end,
        revenue: p.revenue,
        operating_income: p.operating_income,
        net_income: p.net_income,
        eps: p.eps,
        equity: p.equity,
    }
}

fn set_all_eps(v: &Vec<PeriodFinancials>, shares: Decimal) -> (r: Option<Vec<PeriodFinancials>>)
    ensures
        match all_with_eps(period_views(v@), shares, v@.len() as int) {
            Some(s) => r matches Some(x) && period_views(x@) == s,
            None => r is None,
        },
{
    let mut out: Vec<PeriodFinancials> = Vec::new();
    let ghost views = period_views(v@);
    let mut i: usize = 0;
    assert(period_views(out@) =~= Seq::empty());
    while i < v.len()
        invariant
            i <= v@.len(),
            views == period_views(v@),
            all_with_eps(views, shares, i as int) == Some(period_views(out@)),
        decreases v@.len() - i,
    {
        assert(views[i as int] == v@[i as int]@);
        let mut p = copy_period(&v[i]);
        if !set_eps(&mut p, shares) {
            proof {
                lemma_eps_error(views, shares, i + 1, v@.len() as int);
            }
            return None;
        }
        let ghost before = period_views(out@);
        let ghost pv = p@;
        out.push(p);
        assert(period_views(out@) =~= before.push(pv));
        i += 1;
    }
    Some(out)
}

impl CompanyQuery {
    /// A query in a given year.
    pub fn new(year: i32) -> (q: CompanyQuery)
        requires
            year >= i32::MIN + 2,
        ensures
            q@ == (QueryView {
                year,
                ask: Ask::Annual((year - 1) as i32),
                annual: Seq::empty(),
                annual_year: (year - 1) as i32,
                quarter: None,
                shares: None,
            }),
    {
        let q = CompanyQuery {
            year,
            ask: Ask::Annual(year - 1),
            annual: Vec::new(),
            annual_year: year - 1,
            quarter: None,
            shares: None,
        };
        assert(q@.annual =~= Seq::empty());
        q
    }

    /// Takes the answer to what was asked for: a body, or none where DART has no data. False where
    /// the calendar does not have a year that came up; the query is then as it was.
    pub fn answer(&mut self, body: Option<&Json>) -> (ok: bool)
        requires
            old(self).year >= i32::MIN + 2,
        ensures
            match answered(
                old(self)@,
                match body {
                    Some(v) => Some(v.view()),
                    None => None,
                },
            ) {
                Some(s) => ok && final(self)@ == s,
                None => !ok && final(self)@ == old(self)@,
            },
    {
        match self.ask {
            Ask::Annual(y) => match body {
                Some(v) => match parse_annual(v) {
                    Some(annual) => {
                        self.annual = annual;
                        self.annual_year = y;
                        self.ask = Ask::Quarter(self.year, 3);
                        true
                    },
                    None => false,
                },
                None => {
                    if y == self.year - 1 {
                        self.ask = Ask::Annual(self.year - 2);
                    } else {
                        self.ask = Ask::Quarter(self.year, 3);
                    }
                    true
                },
            },
            Ask::Quarter(y, q) => match body {
                Some(v) => {
                    let (end, tail) = if q == 3 {
                        (date_from(y, 9, 30), "Q3")
                    } else if q == 2 {
                        (date_from(y, 6, 30), "Q2")
                    } else {
                        (date_from(y, 3, 31), "Q1")
                    };
                    match end {
                        Some(end) => {
                            let mut label = int_text(y as i64);
                            label.append(tail);
                            self.quarter = parse_quarter(v, label, end);
                            self.ask = Ask::Shares(self.annual_year);
                            true
                        },
                        None => false,
                    }
                },
                None => {
                    if q > 1 {
                        self.ask = Ask::Quarter(y, q - 1);
                    } else {
                        self.ask = Ask::Shares(self.annual_year);
                    }
                    true
                },
            },
            Ask::Shares(_) => {
                self.shares = match body {
                    Some(v) => parse_shares(v),
                    None => None,
                };
                self.ask = Ask::Done;
                true
            },
            Ask::Done => true,
        }
    }

    /// What the answers say of the company; `None` where a decimal cannot hold an EPS.
    pub fn conclude(self) -> (r: Option<Fundamentals>)
        ensures
            match concluded(self@) {
                Some(f) => r matches Some(x) && x@ == f,
                None => r is None,
            },
    {
        let mut annual = self.annual;
        let mut quarter = self.quarter;
        if let Some(sh) = self.shares {
            if sh.is_positive() {
                annual = match set_all_eps(&annual, sh) {
                    Some(v) => v,
                    None => return None,
                };
                if let Some(q) = quarter {
                    let mut q = q;
                    if !set_eps(&mut q, sh) {
                        return None;
                    }
                    quarter = Some(q);
                } else {
                    quarter = None;
                }
            }
        }
        Some(
            Fundamentals {
                currency: Currency::Krw,
                annual,
                latest_quarter: quarter,
                shares_outstanding: self.shares,
                eps_computed: true,
            },
        )
    }
}

/// A query comes to an end: each answer leaves less to ask for, so there are at most six.
pub proof fn law_queries_end(s: QueryView, body: Option<JsonView>)
    requires
        s.year >= i32::MIN + 2,
        s.ask is Annual ==> s.ask->Annual_0 == s.year - 1 || s.ask->Annual_0 == s.year - 2,
        s.ask is Quarter ==> 1 <= s.ask->Quarter_1 <= 3,
        !(s.ask is Done),
    ensures
        s.ask.rank(s.year) <= 6,
        answered(s, body) matches Some(t) ==> 0 <= t.ask.rank(t.year) < s.ask.rank(s.year) && t.year == s.year && (
        t.ask is Annual ==> t.ask->Annual_0 == t.year - 2) && (t.ask is Quarter ==> 1 <= t.ask->Quarter_1 <= 3),
{
}

/// Earnings per share, times the shares, are the net income, up to the cent; there are none without a net
/// income, and nothing else of a period changes.
pub proof fn law_earnings_are_per_share(p: PeriodView, shares: Decimal)
    requires
        shares.value() > 0,
    ensures
        with_eps(p, shares) matches Some(q) ==> {
            &&& q.eps is Some <==> p.net_income is Some
            &&& q.eps matches Some(e) ==> abs_int(2 * (e.value() * shares.value() - p.net_income->0.value() * unit()))
                <= shares.value() * pow10(26) + 2 * max_int(abs_int(p.net_income->0.value()), shares.value())
            &&& q == (PeriodView { eps: q.eps, ..p })
        },
{
    if p.net_income is Some {
        lemma_ratio(p.net_income->0, shares);
    }
}

} // verus!
