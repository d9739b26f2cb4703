//! Keys and settings that come from the operator or the dashboard. Each is looked up as `NAME`,
//! then the file named by `NAME_FILE` (how systemd and compose credentials arrive), then
//! `<state dir>/settings/NAME`, which the dashboard writes. Blank counts as unset. Values are never
//! logged and never returned by the API; only whether one is set.
use crate::screen::text_view;
use crate::text::{chars_of, trim, trimmed};
use vstd::prelude::*;

verus! {

/// A setting the dashboard can change. `secret` ones are write-only over the API.
#[derive(Debug, Clone, Copy)]
pub struct Editable {
    pub name: &'static str,
    pub secret: bool,
}

/// The settings that the dashboard can change.
pub open spec fn editable_settings() -> Seq<(Seq<char>, bool)> {
    seq![
        ("KIS_APP_KEY"@, true),
        ("KIS_APP_SECRET"@, true),
        ("KIS_ENV"@, false),
        ("DART_API_KEY"@, true),
        ("EDGAR_USER_AGENT"@, false),
    ]
}

/// The settings that the dashboard can change.
pub fn editable() -> (r: Vec<Editable>)
    ensures
        r@.map_values(|e: Editable| (e.name@, e.secret)) == editable_settings(),
{
    let mut v: Vec<Editable> = Vec::new();
    v.push(Editable { name: "KIS_APP_KEY", secret: true });
    v.push(Editable { name: "KIS_APP_SECRET", secret: true });
    v.push(Editable { name: "KIS_ENV", secret: false });
    v.push(Editable { name: "DART_API_KEY", secret: true });
    v.push(Editable { name: "EDGAR_USER_AGENT", secret: false });
    assert(v@.map_values(|e: Editable| (e.name@, e.secret)) =~= editable_settings());
    v
}

/// Where a value came from. The dashboard cannot override `Env` or `File`: the operator set those.
#[derive(Debug, Clone, Copy, PartialEq, Eq, Structural)]
pub enum Source {
    Env,
    File,
    Dashboard,
}

/// What a setting was given as in each of the three places; `None` where it was not.
#[derive(Debug)]
pub struct Given {
    pub env: Option<String>,
    pub file: Option<String>,
    pub dashboard: Option<String>,
}

/// A value without white space at its ends; nothing if nothing is left.
pub open spec fn cleaned(v: Option<Seq<char>>) -> Option<Seq<char>> {
    match v {
        Some(s) => if trimmed(s).len() > 0 {
            Some(trimmed(s))
        } else {
            None
        },
        None => None,
    }
}

/// The value of a setting and where it came from: the first place that has one.
pub open spec fn looked_up(
    env: Option<Seq<char>>,
    file: Option<Seq<char>>,
    dashboard: Option<Seq<char>>,
) -> Option<(Seq<char>, Source)> {
    if cleaned(env) is Some {
        Some((cleaned(env)->0, Source::Env))
    } else if cleaned(file) is Some {
        Some((cleaned(file)->0, Source::File))
    } else if cleaned(dashboard) is Some {
        Some((cleaned(dashboard)->0, Source::Dashboard))
    } else {
        None
    }
}

impl Given {
    pub open spec fn found(&self) -> Option<(Seq<char>, Source)> {
        looked_up(text_view(self.env), text_view(self.file), text_view(self.dashboard))
    }
}

fn clean(v: &Option<String>) -> (r: Option<String>)
    ensures
        text_view(r) == cleaned(text_view(*v)),
{
    match v {
        Some(s) => {
            let t = trim(s.as_str());
            if chars_of(t.as_str()).len() > 0 {
                Some(t)
            } else {
                None
            }
        },
        None => None,
    }
}

fn lookup(g: &Given) -> (r: Option<(String, Source)>)
    ensures
        match g.found() {
            Some((v, s)) => r matches Some(x) && x.0@ == v && x.1 == s,
            None => r is None,
        },
{
    if let Some(v) = clean(&g.env) {
        return Some((v, Source::Env));
    }
    if let Some(v) = clean(&g.file) {
        return Some((v, Source::File));
    }
    match clean(&g.dashboard) {
        Some(v) => Some((v, Source::Dashboard)),
        None => None,
    }
}

/// The value of a setting from any source.
pub fn secret_env(g: &Given) -> (r: Option<String>)
    ensures
        text_view(r) == (match g.found() {
            Some((v, _)) => Some(v),
            None => None,
        }),
{
    match lookup(g) {
        Some((v, _)) => Some(v),
        None => None,
    }
}

/// Where the value of a setting comes from.
pub fn source_in(g: &Given) -> (r: Option<Source>)
    ensures
        r == (match g.found() {
            Some((_, s)) => Some(s),
            None => None,
        }),
{
    match lookup(g) {
        Some((_, s)) => Some(s),
        None => None,
    }
}

/// The value of a setting.
pub fn get_in(g: &Given) -> (r: Option<String>)
    ensures
        text_view(r) == (match g.found() {
            Some((v, _)) => Some(v),
            None => None,
        }),
{
    match lookup(g) {
        Some((v, _)) => Some(v),
        None => None,
    }
}

/// A name below a directory.
pub open spec fn below_dir(dir: Seq<char>, name: Seq<char>) -> Seq<char> {
    if dir.len() == 0 {
        name
    } else if dir.last() == '/' {
        dir + name
    } else {
        dir.push('/') + name
    }
}

/// A name below a directory.
pub fn join_path(dir: &str, name: &str) -> (r: String)
    ensures
        r@ == below_dir(dir@, name@),
{
    let v = chars_of(dir);
    let mut s = dir.to_owned();
    if v.len() > 0 && v[v.len() - 1] != '/' {
        s.push('/');
    }
    s.append(name);
    assert(dir@.len() == 0 ==> s@ =~= name@);
    s
}

/// Where the dashboard's value of a setting is kept.
pub fn settings_path(dir: &str, name: &str) -> (r: String)
    ensures
        r@ == below_dir(below_dir(dir@, "settings"@), name@),
{
    join_path(join_path(dir, "settings").as_str(), name)
}

/// The state directory: what the operator named, else the one below `XDG_STATE_HOME`, else the one
/// below the home directory.
pub open spec fn state_dir_of(
    named: Option<Seq<char>>,
    xdg: Option<Seq<char>>,
    home: Option<Seq<char>>,
) -> Seq<char> {
    if named is Some {
        named->0
    } else if xdg is Some {
        below_dir(xdg->0, "atrader"@)
    } else {
        below_dir(
            if home is Some {
                home->0
            } else {
                "."@
            },
            ".local/state/atrader"@,
        )
    }
}

/// `$ATRADER_STATE_DIR`, else `$XDG_STATE_HOME/atrader`, else `~/.local/state/atrader`.
pub fn state_dir(named: Option<String>, xdg: Option<String>, home: Option<String>) -> (r: String)
    ensures
        r@ == state_dir_of(text_view(named), text_view(xdg), text_view(home)),
{
    if let Some(d) = named {
        return d;
    }
    if let Some(d) = xdg {
        return join_path(d.as_str(), "atrader");
    }
    match home {
        Some(h) => join_path(h.as_str(), ".local/state/atrader"),
        None => join_path(".", ".local/state/atrader"),
    }
}

/// What is stored for a value that the dashboard sends; a blank one is removed.
pub fn stored_value(value: &str) -> (r: Option<String>)
    ensures
        text_view(r) == cleaned(Some(value@)),
{
    clean(&Some(value.to_owned()))
}

/// The operator wins: a value in the environment is used whatever else is set, and one that the
/// dashboard stored is used only where the operator set none.
pub proof fn law_the_operator_wins(
    env: Option<Seq<char>>,
    file: Option<Seq<char>>,
    dashboard: Option<Seq<char>>,
)
    ensures
        cleaned(env) is Some ==> looked_up(env, file, dashboard) == Some((cleaned(env)->0, Source::Env)),
        looked_up(env, file, dashboard) matches Some((v, Source::Dashboard)) ==> cleaned(env) is None && cleaned(file)
            is None && cleaned(dashboard) == Some(v),
        looked_up(env, file, dashboard) matches Some((v, _)) ==> v.len() > 0,
{
}

} // verus!
