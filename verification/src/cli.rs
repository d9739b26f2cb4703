//! Command line: what the words after `atrader` ask for.
use crate::accounts::AccountRow;
use crate::decimal::{dec, Decimal};
use crate::domain::{quote, quoted, Currency};
use crate::text::{
    chars_of, cut, cut_at, int_shown, int_text, join_texts, joined, same_text, text_of, texts, uppercase, uppered,
};
use vstd::prelude::*;

verus! {

pub const USAGE: &'static str = "atrader — paper trading for Attacca agents

USAGE:
  atrader serve [--no-zyris]
  atrader account create <id> <name> [--cash KRW=10000000]...
  atrader account list
  atrader account reset <id> [--cash KRW=10000000]...
  atrader user create <username>
  atrader user reset-2fa <username>
  atrader zyris enroll    get a zyris credential: approve the printed code in Attacca; the
                          credential is printed on stdout, e.g. `> secrets/zyris_credential`

ENVIRONMENT:
  DATABASE_URL          Postgres connection string (required)
  ZYRIS_CREDENTIAL      zc_ credential issued in Attacca (/settings/zyris), or
  ZYRIS_CREDENTIAL_FILE file holding it (every secret below also takes a NAME_FILE variant)
  ZYRIS_SERVER_URL      zyris server (default: Attacca's)
  ATRADER_NODE_NAME     node name shown in Attacca (default: atrader)
  KIS_APP_KEY, KIS_APP_SECRET  KIS Open API keys (enable KRX and US stocks)
  KIS_ENV               `mock` for KIS mock-trading hosts (default: real)
  ATRADER_STATE_DIR     where the KIS token is cached (default: ~/.local/state/atrader)
  DART_API_KEY          OpenDART key (KRX financials and filings)
  EDGAR_USER_AGENT      name and contact email for SEC EDGAR (US financials and filings)
  ATRADER_HTTP_ADDR     dashboard listen address (default: 127.0.0.1:8750)
  RUST_LOG              log filter (default: atrader=info,zyris_core=info)";

/// Exit code asking the supervisor (compose `restart:`, systemd `Restart=on-failure`) to start us
/// again, after the dashboard changed a setting that is read at startup.
pub const RESTART_EXIT_CODE: i32 = 75;

/// How many characters a password has at least.
pub const PASSWORD_CHARS: usize = 12;

#[derive(Debug, PartialEq)]
pub enum Command {
    Serve { zyris: bool },
    AccountCreate { id: String, name: String, cash: Vec<(Currency, Decimal)> },
    AccountList,
    AccountReset { id: String, cash: Vec<(Currency, Decimal)> },
    UserCreate { username: String },
    UserReset2fa { username: String },
    ZyrisEnroll,
    Version,
    Help,
}

/// What a command says.
pub ghost enum CommandView {
    Serve { zyris: bool },
    AccountCreate { id: Seq<char>, name: Seq<char>, cash: Seq<(Currency, Decimal)> },
    AccountList,
    AccountReset { id: Seq<char>, cash: Seq<(Currency, Decimal)> },
    UserCreate { username: Seq<char> },
    UserReset2fa { username: Seq<char> },
    ZyrisEnroll,
    Version,
    Help,
}

impl View for Command {
    type V = CommandView;

    open spec fn view(&self) -> CommandView {
        match self {
            Command::Serve { zyris } => CommandView::Serve { zyris: *zyris },
            Command::AccountCreate { id, name, cash } => CommandView::AccountCreate {
                id: id@,
                name: name@,
                cash: cash@,
            },
            Command::AccountList => CommandView::AccountList,
            Command::AccountReset { id, cash } => CommandView::AccountReset { id: id@, cash: cash@ },
            Command::UserCreate { username } => CommandView::UserCreate { username: username@ },
            Command::UserReset2fa { username } => CommandView::UserReset2fa { username: username@ },
            Command::ZyrisEnroll => CommandView::ZyrisEnroll,
            Command::Version => CommandView::Version,
            Command::Help => CommandView::Help,
        }
    }
}

/// The cash of an account for which none is given.
pub open spec fn usual_cash() -> Seq<(Currency, Decimal)> {
    seq![(Currency::Krw, dec(10_000_000, 0)), (Currency::Usd, dec(7000, 0)), (Currency::Usdt, dec(7000, 0))]
}

pub fn default_cash() -> (r: Vec<(Currency, Decimal)>)
    ensures
        r@ == usual_cash(),
{
    let mut v: Vec<(Currency, Decimal)> = Vec::new();
    v.push((Currency::Krw, Decimal::new(10_000_000, 0)));
    v.push((Currency::Usd, Decimal::new(7000, 0)));
    v.push((Currency::Usdt, Decimal::new(7000, 0)));
    assert(v@ =~= usual_cash());
    v
}

/// The cash that `CURRENCY=AMOUNT` names, or what is wrong with it.
pub open spec fn cash_named(s: Seq<char>) -> Result<(Currency, Decimal), Seq<char>> {
    match cut(s, '=') {
        None => Err("--cash wants CURRENCY=AMOUNT, got "@ + quoted(s)),
        Some((c, amount)) => match Currency::coded(uppered(c)) {
            None => Err("unknown currency "@ + quoted(c) + "; use KRW, USD or USDT"@),
            Some(currency) => match Decimal::parsed(amount) {
                None => Err("bad amount "@ + quoted(amount)),
                Some(d) => if d.value() < 0 {
                    Err("cash cannot be negative"@)
                } else {
                    Ok((currency, d))
                },
            },
        },
    }
}

/// The cash that `CURRENCY=AMOUNT` names.
pub fn parse_cash(s: &str) -> (r: Result<(Currency, Decimal), String>)
    ensures
        match cash_named(s@) {
            Ok(c) => r == Ok::<(Currency, Decimal), String>(c),
            Err(m) => r matches Err(x) && x@ == m,
        },
{
    let (c, amount) = match cut_at(s, '=') {
        Some(p) => p,
        None => {
            let mut m = "--cash wants CURRENCY=AMOUNT, got ".to_owned();
            m.append(quote(s).as_str());
            return Err(m);
        },
    };
    let currency = match Currency::from_code(uppercase(c.as_str()).as_str()) {
        Some(x) => x,
        None => {
            let mut m = "unknown currency ".to_owned();
            m.append(quote(c.as_str()).as_str());
            m.append("; use KRW, USD or USDT");
            return Err(m);
        },
    };
    let d = match Decimal::parse(amount.as_str()) {
        Some(d) => d,
        None => {
            let mut m = "bad amount ".to_owned();
            m.append(quote(amount.as_str()).as_str());
            return Err(m);
        },
    };
    if d.is_negative() {
        return Err("cash cannot be negative".to_owned());
    }
    Ok((currency, d))
}

/// The cash that repeated `--cash C=N` name from word `i` on, after the cash named before.
pub open spec fn cash_flags(words: Seq<Seq<char>>, i: int, cash: Seq<(Currency, Decimal)>) -> Result<
    Seq<(Currency, Decimal)>,
    Seq<char>,
>
    decreases words.len() - i,
{
    if i >= words.len() {
        Ok(cash)
    } else if i + 1 >= words.len() {
        Err(words[i] + " needs a value"@)
    } else if words[i] != "--cash"@ {
        Err("unknown option "@ + words[i])
    } else {
        match cash_named(words[i + 1]) {
            Ok(c) => cash_flags(words, i + 2, cash.push(c)),
            Err(m) => Err(m),
        }
    }
}

/// The cash that the words from `i` on name: the usual cash where they name none.
pub open spec fn cash_after(words: Seq<Seq<char>>, i: int) -> Result<Seq<(Currency, Decimal)>, Seq<char>> {
    match cash_flags(words, i, Seq::empty()) {
        Ok(cash) => if cash.len() == 0 {
            Ok(usual_cash())
        } else {
            Ok(cash)
        },
        Err(m) => Err(m),
    }
}

/// Repeated `--cash C=N` after the positional arguments.
fn parse_flags(args: &[String], from: usize) -> (r: Result<Vec<(Currency, Decimal)>, String>)
    requires
        from <= args@.len(),
    ensures
        match cash_after(texts(args@), from as int) {
            Ok(c) => r matches Ok(v) && v@ == c,
            Err(m) => r matches Err(x) && x@ == m,
        },
{
    let ghost words = texts(args@);
    let n: usize = args.len();
    let mut cash: Vec<(Currency, Decimal)> = Vec::new();
    let mut i: usize = from;
    while i < n
        invariant
            from <= i <= n,
            n == args@.len(),
            words == texts(args@),
            cash_flags(words, from as int, Seq::empty()) == cash_flags(words, i as int, cash@),
        decreases n - i,
    {
        assert(words[i as int] == args@[i as int]@);
        if n - i < 2 {
            let mut m = args[i].clone();
            m.append(" needs a value");
            return Err(m);
        }
        if !same_text(args[i].as_str(), "--cash") {
            let mut m = "unknown option ".to_owned();
            m.append(args[i].as_str());
            return Err(m);
        }
        assert(words[i + 1] == args@[i + 1]@);
        match parse_cash(args[i + 1].as_str()) {
            Ok(c) => cash.push(c),
            Err(m) => return Err(m),
        }
        i += 2;
    }
    if cash.len() == 0 {
        Ok(default_cash())
    } else {
        Ok(cash)
    }
}

/// Whether the words begin with the given one or two.
pub open spec fn leads(words: Seq<Seq<char>>, a: Seq<char>, b: Seq<char>) -> bool {
    words.len() >= 2 && words[0] == a && words[1] == b
}

/// The command that the words ask for, or what is wrong with them.
pub open spec fn command_asked(words: Seq<Seq<char>>) -> Result<CommandView, Seq<char>> {
    let n = words.len();
    if n == 0 || (n == 1 && (words[0] == "help"@ || words[0] == "--help"@ || words[0] == "-h"@)) {
        Ok(CommandView::Help)
    } else if n == 1 && (words[0] == "--version"@ || words[0] == "-V"@) {
        Ok(CommandView::Version)
    } else if n == 1 && words[0] == "serve"@ {
        Ok(CommandView::Serve { zyris: true })
    } else if n == 2 && leads(words, "serve"@, "--no-zyris"@) {
        Ok(CommandView::Serve { zyris: false })
    } else if n == 2 && leads(words, "account"@, "list"@) {
        Ok(CommandView::AccountList)
    } else if n >= 4 && leads(words, "account"@, "create"@) {
        match cash_after(words, 4) {
            Ok(cash) => Ok(CommandView::AccountCreate { id: words[2], name: words[3], cash }),
            Err(m) => Err(m),
        }
    } else if n == 3 && leads(words, "user"@, "create"@) {
        Ok(CommandView::UserCreate { username: words[2] })
    } else if n == 3 && leads(words, "user"@, "reset-2fa"@) {
        Ok(CommandView::UserReset2fa { username: words[2] })
    } else if n == 2 && leads(words, "zyris"@, "enroll"@) {
        Ok(CommandView::ZyrisEnroll)
    } else if n >= 3 && leads(words, "account"@, "reset"@) {
        match cash_after(words, 3) {
            Ok(cash) => Ok(CommandView::AccountReset { id: words[2], cash }),
            Err(m) => Err(m),
        }
    } else {
        Err("unrecognised command: "@ + joined(words, " "@) + "\n\n"@ + USAGE@)
    }
}

fn begin(args: &[String], a: &str, b: &str) -> (r: bool)
    ensures
        r == leads(texts(args@), a@, b@),
{
    if args.len() < 2 {
        return false;
    }
    assert(texts(args@)[0] == args@[0]@);
    assert(texts(args@)[1] == args@[1]@);
    same_text(args[0].as_str(), a) && same_text(args[1].as_str(), b)
}

fn alone(args: &[String], a: &str) -> (r: bool)
    ensures
        r == (args@.len() == 1 && texts(args@)[0] == a@),
{
    if args.len() != 1 {
        return false;
    }
    assert(texts(args@)[0] == args@[0]@);
    same_text(args[0].as_str(), a)
}

/// The command that the words after `atrader` ask for.
pub fn parse(args: &[String]) -> (r: Result<Command, String>)
    ensures
        match command_asked(texts(args@)) {
            Ok(c) => r matches Ok(x) && x@ == c,
            Err(m) => r matches Err(x) && x@ == m,
        },
{
    let ghost words = texts(args@);
    let n: usize = args.len();
    assert(n == words.len());
    assert(forall|i: int| 0 <= i < n ==> #[trigger] words[i] == args@[i]@);
    if n == 0 || alone(args, "help") || alone(args, "--help") || alone(args, "-h") {
        return Ok(Command::Help);
    }
    if alone(args, "--version") || alone(args, "-V") {
        return Ok(Command::Version);
    }
    if alone(args, "serve") {
        return Ok(Command::Serve { zyris: true });
    }
    if n == 2 && begin(args, "serve", "--no-zyris") {
        return Ok(Command::Serve { zyris: false });
    }
    if n == 2 && begin(args, "account", "list") {
        return Ok(Command::AccountList);
    }
    if n >= 4 && begin(args, "account", "create") {
        return match parse_flags(args, 4) {
            Ok(cash) => Ok(Command::AccountCreate { id: args[2].clone(), name: args[3].clone(), cash }),
            Err(m) => Err(m),
        };
    }
    if n == 3 && begin(args, "user", "create") {
        return Ok(Command::UserCreate { username: args[2].clone() });
    }
    if n == 3 && begin(args, "user", "reset-2fa") {
        return Ok(Command::UserReset2fa { username: args[2].clone() });
    }
    if n == 2 && begin(args, "zyris", "enroll") {
        return Ok(Command::ZyrisEnroll);
    }
    if n >= 3 && begin(args, "account", "reset") {
        return match parse_flags(args, 3) {
            Ok(cash) => Ok(Command::AccountReset { id: args[2].clone(), cash }),
            Err(m) => Err(m),
        };
    }
    let mut m = "unrecognised command: ".to_owned();
    m.append(join_texts(args, " ").as_str());
    m.append("\n\n");
    m.append(USAGE);
    Err(m)
}

proof fn lemma_cash_flags(words: Seq<Seq<char>>, i: int, cash: Seq<(Currency, Decimal)>)
    requires
        0 <= i,
        forall|k: int| 0 <= k < cash.len() ==> (#[trigger] cash[k]).1.value() >= 0,
    ensures
        cash_flags(words, i, cash) matches Ok(c) ==> forall|k: int|
            0 <= k < c.len() ==> (#[trigger] c[k]).1.value() >= 0,
    decreases words.len() - i,
{
    if i + 1 < words.len() && words[i] == "--cash"@ {
        match cash_named(words[i + 1]) {
            Ok(c) => {
                assert forall|k: int| 0 <= k < cash.push(c).len() implies (#[trigger] cash.push(c)[k]).1.value()
                    >= 0 by {
                    if k < cash.len() {
                        assert(cash.push(c)[k] == cash[k]);
                    }
                }
                lemma_cash_flags(words, i + 2, cash.push(c));
            },
            Err(_) => {},
        }
    }
}

/// Accounts are opened and reset with some cash, and never with less than nothing.
pub proof fn law_accounts_start_with_cash(words: Seq<Seq<char>>)
    ensures
        match command_asked(words) {
            Ok(CommandView::AccountCreate { cash, .. }) => cash.len() > 0 && forall|k: int|
                0 <= k < cash.len() ==> (#[trigger] cash[k]).1.value() >= 0,
            Ok(CommandView::AccountReset { cash, .. }) => cash.len() > 0 && forall|k: int|
                0 <= k < cash.len() ==> (#[trigger] cash[k]).1.value() >= 0,
            _ => true,
        },
{
    lemma_cash_flags(words, 3, Seq::empty());
    lemma_cash_flags(words, 4, Seq::empty());
    broadcast use crate::decimal::lemma_dec_parts;
    crate::decimal::lemma_value_sign(10_000_000, 0);
    crate::decimal::lemma_value_sign(7000, 0);
}

/// What is wrong with a new password, if anything; it is typed twice.
pub fn password_fault(password: &str, again: &str) -> (r: Option<&'static str>)
    ensures
        match r {
            Some(m) => if password@.len() < PASSWORD_CHARS {
                m@ == "the password must be at least 12 characters"@
            } else {
                password@ != again@ && m@ == "the passwords differ"@
            },
            None => password@.len() >= PASSWORD_CHARS && password@ == again@,
        },
{
    if !long_enough(password) {
        Some("the password must be at least 12 characters")
    } else if !same_text(password, again) {
        Some("the passwords differ")
    } else {
        None
    }
}

/// Whether a password is long enough.
pub fn long_enough(password: &str) -> (r: bool)
    ensures
        r == (password@.len() >= PASSWORD_CHARS),
{
    chars_of(password).len() >= PASSWORD_CHARS
}

/// A text with blanks behind it, up to a width.
pub open spec fn filled_up(s: Seq<char>, width: int) -> Seq<char>
    decreases width - s.len(),
{
    if s.len() >= width {
        s
    } else {
        filled_up(s.push(' '), width)
    }
}

fn fill_up(s: &str, width: usize) -> (r: String)
    ensures
        r@ == filled_up(s@, width as int),
{
    let mut v = chars_of(s);
    while v.len() < width
        invariant
            filled_up(s@, width as int) == filled_up(v@, width as int),
        decreases width - v@.len(),
    {
        v.push(' ');
    }
    let n: usize = v.len();
    let r = text_of(&v, 0, n);
    assert(v@.subrange(0, n as int) =~= v@);
    r
}

/// The balances of an account as `CURRENCY=AMOUNT`, from `i` on.
pub open spec fn balances(cash: Seq<(Currency, Decimal)>, i: int) -> Seq<Seq<char>>
    decreases cash.len() - i,
{
    if i >= cash.len() {
        Seq::empty()
    } else {
        seq![cash[i].0.code_text() + "="@ + cash[i].1.text()] + balances(cash, i + 1)
    }
}

/// The line of `account list` for an account.
pub fn account_line(a: &AccountRow, cash: &[(Currency, Decimal)]) -> (r: String)
    ensures
        r@ == filled_up(a.id@, 16) + " "@ + filled_up(a.name@, 24) + " gen="@ + int_shown(a.generation as int) + " "@
            + joined(balances(cash@, 0), " "@),
{
    let mut amounts: Vec<String> = Vec::new();
    let mut i: usize = 0;
    assert(texts(amounts@) + balances(cash@, 0) =~= balances(cash@, 0));
    while i < cash.len()
        invariant
            i <= cash@.len(),
            texts(amounts@) + balances(cash@, i as int) == balances(cash@, 0),
        decreases cash@.len() - i,
    {
        let mut s = cash[i].0.code().to_owned();
        s.append("=");
        s.append(cash[i].1.to_text().as_str());
        let ghost before = texts(amounts@);
        let ghost sv = s@;
        let ghost more = balances(cash@, i + 1);
        amounts.push(s);
        assert(texts(amounts@) =~= before.push(sv));
        assert(before + (seq![sv] + more) =~= before.push(sv) + more);
        i += 1;
    }
    assert(texts(amounts@) =~= balances(cash@, 0));
    let mut r = fill_up(a.id.as_str(), 16);
    r.append(" ");
    r.append(fill_up(a.name.as_str(), 24).as_str());
    r.append(" gen=");
    r.append(int_text(a.generation as i64).as_str());
    r.append(" ");
    r.append(join_texts(&amounts, " ").as_str());
    r
}

} // verus!
