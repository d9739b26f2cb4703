//! Filings and figures of companies.
use atrader::decimal::Decimal;
use atrader::domain::Currency;
use atrader::fundamentals::dart::{
    amount, check_status, corp_code_of, document_text, is_receipt_number, page_size, parse_annual, parse_corp_codes,
    parse_list, parse_quarter, parse_shares, read_corp_codes, read_filing, report_form, zip_or_error, Ask, CompanyQuery,
};
use atrader::fundamentals::edgar::{
    cik_of, document_url, facts_url, filing_text, filings_since, parse_facts, parse_filings, parse_tickers,
    read_filing_id, submissions_url,
};
use atrader::fundamentals::{
    html_to_text, page_text, ratios, unescape, Fundamentals, PeriodFinancials, PAGE_CHARS,
};
use atrader::json::Json;
use std::io::Write;

fn d(s: &str) -> Decimal {
    Decimal::parse(s).unwrap()
}

fn json(s: &str) -> Json {
    Json::read(s.as_bytes()).unwrap()
}

fn day(y: i32, m: u32, dd: u32) -> i64 {
    let epoch = chrono::NaiveDate::from_ymd_opt(1970, 1, 1).unwrap();
    (chrono::NaiveDate::from_ymd_opt(y, m, dd).unwrap() - epoch).num_days()
}

#[test]
fn html_becomes_readable_text() {
    let html = "<html><head><style>p{}</style><script>x()</script></head><body><P>Revenue&nbsp;&amp; costs</P><table><tr><td>1</td><td>2</td></tr></table><br/>&#8212; done &lt;ok&gt;</body></html>";
    assert_eq!(html_to_text(html), "Revenue & costs\n1 2\n— done <ok>");
}

#[test]
fn scripts_are_not_read_and_escapes_are_undone() {
    assert_eq!(html_to_text("a<script>if (x < y) { f(\"<p>\") }</script>b"), html_to_text("a<script></script>b"));
    assert_eq!(html_to_text("&lt;b&gt; &amp;amp; &quot;q&quot; &#39;s&#39;"), "<b> &amp; \"q\" 's'");
}

#[test]
fn odd_html_is_still_read() {
    assert_eq!(html_to_text(""), "");
    assert_eq!(html_to_text("a < b"), "a");
    assert_eq!(html_to_text("x<!-- c -->y"), "x y");
    assert_eq!(html_to_text("&#x41;&unknown;&amp;lt;"), "A&unknown;&lt;");
}

#[test]
fn pages_split_on_characters_and_reject_out_of_range() {
    let text = "가".repeat(PAGE_CHARS + 5);
    let (first, pages) = page_text(&text, 1).unwrap();
    assert_eq!((first.chars().count(), pages), (PAGE_CHARS, 2));
    assert_eq!(page_text(&text, 2).unwrap().0.chars().count(), 5);
    assert_eq!(page_text(&text, 3), Err("page 3 does not exist; the filing has 2 pages".into()));
    assert_eq!(page_text(&text, 0), Err("page 0 does not exist; the filing has 2 pages".into()));
    assert_eq!(page_text("", 1), Ok((String::new(), 1)));
}

fn fundamentals(eps: Option<Decimal>, equity: Option<Decimal>, shares: Option<Decimal>) -> Fundamentals {
    Fundamentals {
        currency: Currency::Usd,
        annual: vec![PeriodFinancials {
            label: "FY2025".into(),
            end: day(2025, 9, 27),
            revenue: None,
            operating_income: None,
            net_income: None,
            eps,
            equity,
        }],
        latest_quarter: None,
        shares_outstanding: shares,
        eps_computed: false,
    }
}

#[test]
fn ratios_are_absent_when_meaningless() {
    let r = ratios(d("150"), &fundamentals(Some(d("7.5")), Some(d("1000")), Some(d("100")))).unwrap();
    assert!(r.per.unwrap().same(d("20")) && r.pbr.unwrap().same(d("15")));
    let loss = ratios(d("150"), &fundamentals(Some(d("-2")), Some(d("1000")), Some(d("0")))).unwrap();
    assert_eq!((loss.per, loss.pbr), (None, None));
    let empty = ratios(d("150"), &fundamentals(None, None, None)).unwrap();
    assert_eq!((empty.per, empty.pbr), (None, None));
}

fn row(fs: &str, account: &str, cur: &str, prev: &str, prev2: &str) -> String {
    format!(
        "{{\"fs_div\": \"{fs}\", \"sj_div\": \"IS\", \"account_nm\": \"{account}\", \"bsns_year\": \"2025\", \
         \"thstrm_nm\": \"제 57 기\", \"thstrm_dt\": \"2025.01.01 ~ 2025.12.31\", \"thstrm_amount\": \"{cur}\", \
         \"frmtrm_amount\": \"{prev}\", \"bfefrmtrm_amount\": \"{prev2}\"}}"
    )
}

#[test]
fn statuses_and_amounts() {
    assert!(check_status(&json(r#"{"status": "000"}"#)).unwrap());
    assert!(!check_status(&json(r#"{"status": "013", "message": "조회된 데이타가 없습니다."}"#)).unwrap());
    let e = check_status(&json(r#"{"status": "020", "message": "요청 제한을 초과하였습니다."}"#)).unwrap_err();
    assert!(e.contains("020") && e.contains("요청 제한"), "{e}");
    assert_eq!(amount(&json("\"9,999,999\"")), Some(d("9999999")));
    assert_eq!(amount(&json("\"-1,234\"")), Some(d("-1234")));
    assert_eq!(amount(&json("\"-\"")), None);
    assert_eq!(amount(&json("\"\"")), None);
    assert_eq!(amount(&json("null")), None);
}

#[test]
fn corp_codes_map_listed_stocks_only() {
    let xml = "<?xml version=\"1.0\" encoding=\"UTF-8\"?><result>\
        <list><corp_code>00126380</corp_code><corp_name>삼성전자</corp_name><stock_code>005930</stock_code><modify_date>20240101</modify_date></list>\
        <list><corp_code>00999999</corp_code><corp_name>비상장</corp_name><stock_code> </stock_code><modify_date>20240101</modify_date></list></result>";
    let m = parse_corp_codes(xml);
    assert_eq!(m.get(&"005930".to_string()).map(String::as_str), Some("00126380"));
    assert_eq!(m.len(), 1);
    assert_eq!(corp_code_of(&m, "005930"), Ok("00126380".to_string()));
    assert_eq!(corp_code_of(&m, "000660"), Err("000660 has no DART corp code".to_string()));
}

fn annual_body() -> String {
    format!(
        "{{\"status\": \"000\", \"list\": [{}]}}",
        [
            row("OFS", "매출액", "1", "1", "1"),
            row("CFS", "수익(매출액)", "300,870,903,000,000", "258,935,494,000,000", "302,231,360,000,000"),
            row("CFS", "영업이익(손실)", "-", "6,566,976,000,000", "43,376,630,000,000"),
            row("CFS", "당기순이익(손실)", "34,451,351,000,000", "15,487,100,000,000", ""),
            row("CFS", "자본총계", "402,192,070,000,000", "368,640,190,000,000", "354,749,604,000,000"),
        ]
        .join(",")
    )
}

#[test]
fn annual_accounts_prefer_consolidated_and_tolerate_blanks() {
    let a = parse_annual(&json(&annual_body())).unwrap();
    assert_eq!(a.iter().map(|p| p.label.as_str()).collect::<Vec<_>>(), vec!["FY2025", "FY2024", "FY2023"]);
    assert_eq!(a[0].revenue, Some(d("300870903000000")));
    assert_eq!(a[0].operating_income, None);
    assert_eq!(a[2].net_income, None);
    assert_eq!(a[1].equity, Some(d("368640190000000")));
    assert_eq!(a[0].end, day(2025, 12, 31));
}

#[test]
fn shares_list_and_errors() {
    let shares = json(
        r#"{"status": "000", "list": [
        {"se": "보통주", "distb_stock_co": "5,919,637,922"},
        {"se": "합계", "distb_stock_co": "6,735,000,000"}]}"#,
    );
    assert_eq!(parse_shares(&shares), Some(d("6735000000")));
    let list = json(r#"{"status": "000", "list": [{"corp_name": "삼성전자", "report_nm": "사업보고서 (2025.12)", "rcept_no": "20260310000123", "rcept_dt": "20260310"}]}"#);
    let f = parse_list(&list);
    assert_eq!((f[0].id.as_str(), f[0].form.as_str()), ("20260310000123", "사업보고서"));
    assert_eq!(f[0].url, "https://dart.fss.or.kr/dsaf001/main.do?rcpNo=20260310000123");
    assert_eq!(f[0].date, day(2026, 3, 10));
    assert_eq!(report_form("[기재정정]사업보고서 (2025.12)"), "사업보고서");
    let xml_error = "<?xml version=\"1.0\"?><result><status>010</status><message>등록되지 않은 인증키입니다.</message></result>";
    let e = zip_or_error(xml_error.as_bytes()).unwrap_err();
    assert!(e.contains("010") && e.contains("인증키"), "{e}");
}

fn zipped(name: &str, body: &[u8]) -> Vec<u8> {
    let mut buf = std::io::Cursor::new(Vec::new());
    {
        let mut z = zip::ZipWriter::new(&mut buf);
        z.start_file(name, zip::write::SimpleFileOptions::default()).unwrap();
        z.write_all(body).unwrap();
        z.finish().unwrap();
    }
    buf.into_inner()
}

#[test]
fn document_zip_becomes_text() {
    let z = zipped("20260310000123.xml", "<DOCUMENT><BODY><P>매출액&amp;영업이익</P></BODY></DOCUMENT>".as_bytes());
    assert_eq!(document_text(&z).unwrap(), "매출액&영업이익");
    let (korean, _, _) = encoding_rs::EUC_KR.encode("<?xml version=\"1.0\" encoding=\"EUC-KR\"?><P>영업이익</P>");
    assert_eq!(document_text(&zipped("a.xml", &korean)).unwrap(), "영업이익");
    assert!(document_text(b"PK nothing").is_err());
}

#[test]
fn responses_are_zips_or_name_an_error() {
    let xml = "<result><list><corp_code>00126380</corp_code><corp_name>삼성전자</corp_name><stock_code>005930</stock_code></list></result>";
    let codes = read_corp_codes(&zipped("CORPCODE.xml", xml.as_bytes())).unwrap();
    assert_eq!(corp_code_of(&codes, "005930"), Ok("00126380".to_string()));
    let z = zipped("20260310000123.xml", "<P>매출액</P>".as_bytes());
    assert_eq!(read_filing(&z).unwrap(), "매출액");
    let refusal = "<result><status>014</status><message>파일이 존재하지 않습니다.</message></result>";
    let said = Err("DART 014: 파일이 존재하지 않습니다.".to_string());
    assert_eq!(read_filing(refusal.as_bytes()), said);
    assert_eq!(read_corp_codes(refusal.as_bytes()).map(|_| String::new()), said);
    assert_eq!(read_filing(b"{}"), Err("DART ?: unexpected response".to_string()));
    assert!(read_corp_codes(b"PK nothing").is_err() && read_filing(b"PK nothing").is_err());
}

#[test]
fn a_company_is_asked_about_until_all_is_known() {
    let mut q = CompanyQuery::new(2026);
    assert_eq!(q.ask, Ask::Annual(2025));
    assert!(q.answer(None));
    assert_eq!(q.ask, Ask::Annual(2024));
    assert!(q.answer(Some(&json(&annual_body()))));
    assert_eq!((q.ask, q.ask.report_code()), (Ask::Quarter(2026, 3), "11014"));
    assert!(q.answer(None));
    assert_eq!((q.ask, q.ask.report_code()), (Ask::Quarter(2026, 2), "11012"));
    assert!(q.answer(Some(&json(&annual_body()))));
    assert_eq!((q.ask, q.ask.report_code()), (Ask::Shares(2024), "11011"));
    assert!(q.answer(Some(&json(r#"{"list": [{"se": "합계", "distb_stock_co": "1,000"}]}"#))));
    assert_eq!(q.ask, Ask::Done);
    let f = q.conclude().unwrap();
    assert!(f.annual[0].eps.unwrap().same(d("34451351000")));
    assert_eq!(f.annual[2].eps, None);
    assert!(f.eps_computed);
    let quarter = f.latest_quarter.unwrap();
    assert_eq!((quarter.label.as_str(), quarter.end), ("2026Q2", day(2026, 6, 30)));
}

#[test]
fn quarters_and_ids() {
    let p = parse_quarter(&json(&annual_body()), "2026Q1".into(), day(2026, 3, 31)).unwrap();
    assert_eq!(p.revenue, Some(d("300870903000000")));
    assert!(parse_quarter(&json(r#"{"list": []}"#), "x".into(), 0).is_none());
    assert!(is_receipt_number("20260310000123") && !is_receipt_number("2026031000012") && !is_receipt_number("2026031000012a"));
    assert_eq!((page_size(0), page_size(7), page_size(500)), (1, 7, 100));
}

#[test]
fn tickers_map_to_ciks() {
    let t = parse_tickers(br#"{"0":{"cik_str":320193,"ticker":"AAPL","title":"Apple Inc."},"1":{"cik_str":789019,"ticker":"msft","title":"M"}}"#)
        .unwrap();
    assert_eq!(cik_of(&t, "aapl"), Ok(320193));
    assert_eq!(cik_of(&t, "MSFT"), Ok(789019));
    assert_eq!(cik_of(&t, "xyz"), Err("xyz is not an SEC filer".to_string()));
    assert!(parse_tickers(br#"{"0":{"cik_str":1,"ticker":"A","cik_str":1}}"#).is_err());
    let last = parse_tickers(br#"{"0":{"cik_str":1,"ticker":"A"},"0":{"cik_str":2,"ticker":"B"}}"#).unwrap();
    assert!(cik_of(&last, "A").is_err());
    assert_eq!(cik_of(&last, "B"), Ok(2));
    assert!(parse_tickers(b"[]").is_err());
    assert!(parse_tickers(b"{").is_err());
}

#[test]
fn filings_are_listed_with_urls() {
    let body = br#"{"filings":{"recent":{
        "accessionNumber":["0000320193-26-000010","0000320193-26-000020","bad"],
        "filingDate":["2026-05-01","2026-08-01","2026-09-01"],
        "form":["8-K","10-Q","4"],
        "primaryDocument":["a.htm","aapl-20260627.htm"],
        "primaryDocDescription":["","10-Q report",""]}}}"#;
    let f = parse_filings(body, 320193).unwrap();
    assert_eq!(f.len(), 2);
    assert!(f.windows(2).all(|w| w[0].date >= w[1].date));
    let q = f.iter().find(|x| x.form == "10-Q").unwrap();
    assert!(q.url.starts_with("https://www.sec.gov/Archives/edgar/data/320193/"), "{}", q.url);
    assert!(q.id.contains(':'));
    assert_eq!((f[0].form.as_str(), f[0].title.as_str(), f[0].date), ("10-Q", "10-Q report", day(2026, 8, 1)));
    assert_eq!(f[0].id, "0000320193-26-000020:aapl-20260627.htm");
    assert_eq!(f[0].url, "https://www.sec.gov/Archives/edgar/data/320193/000032019326000020/aapl-20260627.htm");
    assert_eq!(f[1].title, "8-K");
    assert_eq!(filings_since(&f, Some(day(2026, 6, 1)), 10).len(), 1);
    assert_eq!(filings_since(&f, None, 1).len(), 1);
    assert!(parse_filings(b"{}", 1).unwrap().is_empty());
    assert_eq!(document_url(1, "0-1", "d"), "https://www.sec.gov/Archives/edgar/data/1/01/d");
    assert_eq!(facts_url(320193), "https://data.sec.gov/api/xbrl/companyfacts/CIK0000320193.json");
    assert_eq!(submissions_url(320193), "https://data.sec.gov/submissions/CIK0000320193.json");
}

#[test]
fn filing_ids_are_checked() {
    assert_eq!(read_filing_id("0-1:a.htm"), Ok(("0-1".to_string(), "a.htm".to_string())));
    assert_eq!(
        read_filing_id("nothing"),
        Err("filing id must look like 0000320193-26-000020:aapl-20260627.htm".to_string())
    );
    assert_eq!(read_filing_id("0-1:../a"), Err("malformed filing id".to_string()));
    assert_eq!(read_filing_id("x:a.htm"), Err("malformed filing id".to_string()));
    assert_eq!(filing_text(b"<p>caf\xff</p>"), "caf\u{fffd}");
}

#[test]
fn annual_figures_come_from_full_year_10k_rows() {
    let year = |start: &str, end: &str, val: &str, form: &str, filed: &str| {
        format!("{{\"start\":\"{start}\",\"end\":\"{end}\",\"val\":{val},\"form\":\"{form}\",\"filed\":\"{filed}\"}}")
    };
    let net = [
        year("2024-09-29", "2025-09-27", "100", "10-K", "2025-10-31"),
        year("2024-09-29", "2025-09-27", "112010000000", "10-K", "2026-10-31"),
        year("2023-10-01", "2024-09-28", "93", "10-K", "2024-11-01"),
        year("2023-10-01", "2024-09-28", "1", "10-Q", "2025-11-01"),
        year("2026-03-29", "2026-06-27", "25", "10-Q", "2026-08-01"),
    ]
    .join(",");
    let old = year("2015-10-01", "2016-09-28", "7", "10-K", "2016-11-01");
    let sales = [
        year("2024-09-29", "2025-09-27", "416161000000", "10-K", "2025-10-31"),
        year("2023-10-01", "2024-09-28", "391035000000", "10-K", "2024-11-01"),
        year("2026-03-29", "2026-06-27", "94036000000", "10-Q", "2026-08-01"),
    ]
    .join(",");
    let profit = year("2024-09-29", "2025-09-27", "133050000000", "10-K", "2025-10-31");
    let text = format!(
        "{{\"facts\":{{\"us-gaap\":{{\
         \"RevenueFromContractWithCustomerExcludingAssessedTax\":{{\"units\":{{\"USD\":[{sales}]}}}},\
         \"OperatingIncomeLoss\":{{\"units\":{{\"USD\":[{profit}]}}}},\
         \"Revenues\":{{\"units\":{{\"USD\":[{old}]}}}},\
         \"NetIncomeLoss\":{{\"units\":{{\"USD\":[{net}]}}}},\
         \"StockholdersEquity\":{{\"units\":{{\"USD\":[{{\"end\":\"2025-09-27\",\"val\":73733000000,\"form\":\"10-K\",\"filed\":\"2025-10-31\"}}]}}}},\
         \"EarningsPerShareDiluted\":{{\"units\":{{\"USD/shares\":[{}]}}}}}},\
         \"dei\":{{\"EntityCommonStockSharesOutstanding\":{{\"units\":{{\"shares\":[{{\"end\":\"2026-07-17\",\"val\":14840390000,\"form\":\"10-Q\",\"filed\":\"2026-08-01\"}}]}}}}}}}}}}",
        year("2024-09-29", "2025-09-27", "7.46", "10-K", "2025-10-31")
    );
    let f = parse_facts(text.as_bytes()).unwrap();
    assert_eq!(f.annual.len(), 2);
    let fy = &f.annual[0];
    assert_eq!((fy.label.as_str(), fy.end), ("FY2025", day(2025, 9, 27)));
    assert_eq!(fy.net_income, Some(d("112010000000")));
    assert_eq!(fy.revenue, Some(d("416161000000")));
    assert_eq!(fy.equity, Some(d("73733000000")));
    assert_eq!(fy.eps, Some(d("7.46")));
    assert_eq!(fy.operating_income, Some(d("133050000000")));
    assert_eq!(f.annual[1].revenue, Some(d("391035000000")));
    assert_eq!((f.annual[1].net_income, f.annual[1].operating_income), (Some(d("93")), None));
    let q = f.latest_quarter.unwrap();
    assert!(q.end > fy.end);
    let half = d("208080500000");
    assert!(q.revenue.unwrap().lt(half), "quarter must be a 3-month figure, got {:?} ending {}", q.revenue, q.end);
    assert_eq!((q.label.as_str(), q.net_income), ("2026Q2", Some(d("25"))));
    assert_eq!(f.shares_outstanding, Some(d("14840390000")));
    assert!(!f.eps_computed);
    assert!(parse_facts(b"nothing").is_err());
}

#[test]
fn decoding_undoes_escaping() {
    let decoded = |s: &str| unescape(&s.chars().collect::<Vec<_>>()).into_iter().collect::<String>();
    let plain = "a & b < c > d \"e\" 'f' &amp;";
    let escaped = plain
        .replace('&', "&amp;")
        .replace('<', "&lt;")
        .replace('>', "&gt;")
        .replace('"', "&quot;")
        .replace('\'', "&#39;");
    assert_eq!(decoded(&escaped), plain);
    assert_eq!(decoded("no entity; here"), "no entity; here");
}
