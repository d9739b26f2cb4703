//! The dashboard's settings page, the Attacca link, and the files it is made of.
use crate::screen::text_view;
use crate::settings::{editable, editable_settings, Editable, Given, Source};
use crate::text::{
    begins_with, chars_of, join_texts, joined, same_text, stands_at, text_before, text_of, texts, trim, trimmed,
};
use crate::time::Timestamp;
use crate::web::{bad_request, refuse, refused, senseless_request, ApiError, RefusalView};
use vstd::prelude::*;
use vstd::utf8::encode_utf8;

verus! {

/// A setting as the settings page shows it.
#[derive(Debug)]
pub struct KeyView {
    pub name: &'static str,
    pub secret: bool,
    pub source: Option<Source>,
    /// Never there for a secret.
    pub value: Option<String>,
}

/// A setting as the settings page shows it: whether it is set and by whom; its value only if it is
/// no secret.
pub fn key_view(e: Editable, g: &Given) -> (r: KeyView)
    ensures
        r.name@ == e.name@,
        r.secret == e.secret,
        r.source == (match g.found() {
            Some((_, s)) => Some(s),
            None => None,
        }),
        text_view(r.value) == (match g.found() {
            Some((v, _)) => if e.secret {
                None
            } else {
                Some(v)
            },
            None => None,
        }),
{
    KeyView {
        name: e.name,
        secret: e.secret,
        source: crate::settings::source_in(g),
        value: if e.secret {
            None
        } else {
            crate::settings::get_in(g)
        },
    }
}

/// A value that the dashboard wants to store, and where the setting's value comes from now.
#[derive(Debug)]
pub struct Change {
    pub name: String,
    pub value: String,
    pub source: Option<Source>,
}

/// What a change says.
pub ghost struct ChangeView {
    pub name: Seq<char>,
    pub value: Seq<char>,
    pub source: Option<Source>,
}

impl View for Change {
    type V = ChangeView;

    open spec fn view(&self) -> ChangeView {
        ChangeView { name: self.name@, value: self.value@, source: self.source }
    }
}

/// Changes as what they say.
pub open spec fn change_views(v: Seq<Change>) -> Seq<ChangeView> {
    v.map_values(|c: Change| c@)
}

/// Whether the dashboard may change a setting of that name.
pub open spec fn is_editable(name: Seq<char>) -> bool {
    exists|i: int| 0 <= i < editable_settings().len() && (#[trigger] editable_settings()[i]).0 == name
}

/// What is wrong with a change, if anything.
pub open spec fn change_fault(c: ChangeView) -> Option<RefusalView> {
    let v = trimmed(c.value);
    if !is_editable(c.name) {
        Some(senseless_request(c.name + " cannot be set from the dashboard"@))
    } else if c.source == Some(Source::Env) || c.source == Some(Source::File) {
        Some(
            refused(409, "set_by_operator"@, c.name + " is set in the server's environment; change it there"@),
        )
    } else if encode_utf8(v).len() > 4096 || v.contains('\n') || v.contains('\r') {
        Some(senseless_request(c.name + " must be one line"@))
    } else if c.name == "KIS_ENV"@ && v != ""@ && v != "real"@ && v != "mock"@ {
        Some(senseless_request("KIS_ENV is real or mock"@))
    } else {
        None
    }
}

/// What is wrong with the first bad change from index `i` on, if there is one.
pub open spec fn changes_fault(v: Seq<ChangeView>, i: int) -> Option<RefusalView>
    decreases v.len() - i,
{
    if i >= v.len() {
        None
    } else if change_fault(v[i]) is Some {
        change_fault(v[i])
    } else {
        changes_fault(v, i + 1)
    }
}

fn can_edit(name: &str) -> (r: bool)
    ensures
        r == is_editable(name@),
{
    let all = editable();
    let ghost views = editable_settings();
    assert(all@.map_values(|e: Editable| (e.name@, e.secret)) == views);
    let mut i: usize = 0;
    while i < all.len()
        invariant
            i <= all@.len(),
            all@.map_values(|e: Editable| (e.name@, e.secret)) == views,
            views == editable_settings(),
            forall|j: int| 0 <= j < i ==> (#[trigger] views[j]).0 != name@,
        decreases all@.len() - i,
    {
        assert(views[i as int] == (all@[i as int].name@, all@[i as int].secret));
        if same_text(all[i].name, name) {
            return true;
        }
        i += 1;
    }
    false
}

fn has_break(s: &str) -> (r: bool)
    ensures
        r == (s@.contains('\n') || s@.contains('\r')),
{
    let v = chars_of(s);
    let mut i: usize = 0;
    while i < v.len()
        invariant
            i <= v@.len(),
            v@ == s@,
            forall|j: int| 0 <= j < i ==> #[trigger] v@[j] != '\n' && v@[j] != '\r',
        decreases v@.len() - i,
    {
        if v[i] == '\n' || v[i] == '\r' {
            assert(s@[i as int] == v@[i as int]);
            return true;
        }
        i += 1;
    }
    false
}

fn fault_of(c: &Change) -> (r: Option<ApiError>)
    ensures
        match change_fault(c@) {
            Some(m) => r matches Some(e) && e@ == m,
            None => r is None,
        },
{
    let mut m = c.name.clone();
    if !can_edit(c.name.as_str()) {
        m.append(" cannot be set from the dashboard");
        return Some(bad_request(m.as_str()));
    }
    let by_operator = match c.source {
        Some(Source::Env) => true,
        Some(Source::File) => true,
        _ => false,
    };
    if by_operator {
        m.append(" is set in the server's environment; change it there");
        return Some(refuse(409, "set_by_operator", m.as_str()));
    }
    let v = trim(c.value.as_str());
    let v = v.as_str();
    if v.as_bytes().len() > 4096 || has_break(v) {
        m.append(" must be one line");
        return Some(bad_request(m.as_str()));
    }
    if same_text(c.name.as_str(), "KIS_ENV") && !same_text(v, "") && !same_text(v, "real") && !same_text(v, "mock") {
        return Some(bad_request("KIS_ENV is real or mock"));
    }
    None
}

/// Whether some changes may be stored: there must be some, and none may be bad.
pub fn check_changes(changes: &[Change]) -> (r: Result<(), ApiError>)
    ensures
        if changes@.len() == 0 {
            r matches Err(e) && e@ == senseless_request("nothing to save"@)
        } else {
            match changes_fault(change_views(changes@), 0) {
                Some(m) => r matches Err(e) && e@ == m,
                None => r is Ok,
            }
        },
{
    if changes.len() == 0 {
        return Err(bad_request("nothing to save"));
    }
    let ghost all = change_views(changes@);
    let mut i: usize = 0;
    while i < changes.len()
        invariant
            i <= changes@.len(),
            changes@.len() > 0,
            all == change_views(changes@),
            changes_fault(all, 0) == changes_fault(all, i as int),
        decreases changes@.len() - i,
    {
        assert(all[i as int] == changes@[i as int]@);
        if let Some(e) = fault_of(&changes[i]) {
            return Err(e);
        }
        i += 1;
    }
    Ok(())
}

proof fn lemma_no_fault(v: Seq<ChangeView>, i: int, k: int)
    requires
        0 <= i <= k < v.len(),
        changes_fault(v, i) is None,
    ensures
        change_fault(v[k]) is None,
    decreases k - i,
{
    if i < k {
        lemma_no_fault(v, i + 1, k);
    }
}

/// The dashboard never overrides the operator, and stores only what is offered for change.
pub proof fn law_the_dashboard_keeps_off_the_operators_settings(v: Seq<ChangeView>, k: int)
    requires
        changes_fault(v, 0) is None,
        0 <= k < v.len(),
    ensures
        is_editable(v[k].name),
        v[k].source != Some(Source::Env),
        v[k].source != Some(Source::File),
{
    lemma_no_fault(v, 0, k);
}

/// A name put into its place among names in dictionary order.
pub open spec fn name_in(names: Seq<Seq<char>>, n: Seq<char>) -> Seq<Seq<char>>
    decreases names.len(),
{
    if names.len() > 0 && crate::text::lex_less(n, names.last()) {
        name_in(names.drop_last(), n).push(names.last())
    } else {
        names.push(n)
    }
}

/// The names of some changes in dictionary order.
pub open spec fn names_of(v: Seq<ChangeView>) -> Seq<Seq<char>>
    decreases v.len(),
{
    if v.len() == 0 {
        Seq::empty()
    } else {
        name_in(names_of(v.drop_last()), v.last().name)
    }
}

fn put_name(names: &mut Vec<String>, n: String)
    ensures
        texts(final(names)@) == name_in(texts(old(names)@), n@),
{
    let ghost whole = texts(names@);
    let ghost nv = n@;
    let mut i: usize = names.len();
    assert(whole.take(whole.len() as int) =~= whole);
    assert(name_in(whole, nv) + whole.skip(whole.len() as int) =~= name_in(whole, nv));
    while i > 0 && text_before(n.as_str(), names[i - 1].as_str())
        invariant
            i <= names@.len(),
            texts(names@) == whole,
            nv == n@,
            name_in(whole, nv) == name_in(whole.take(i as int), nv) + whole.skip(i as int),
        decreases i,
    {
        proof {
            let head = whole.take(i as int);
            assert(head.last() == names@[i - 1]@);
            assert(head.drop_last() =~= whole.take(i - 1));
            assert(name_in(head.drop_last(), nv).push(head.last()) + whole.skip(i as int) =~= name_in(
                head.drop_last(),
                nv,
            ) + whole.skip(i - 1));
        }
        i -= 1;
    }
    proof {
        if i > 0 {
            assert(whole.take(i as int).last() == names@[i - 1]@);
        }
        assert(whole.take(i as int).push(nv) + whole.skip(i as int) =~= whole.insert(i as int, nv));
    }
    names.insert(i, n);
    assert(texts(names@) =~= whole.insert(i as int, nv));
}

/// What the audit log says of some changes: the names of the settings, never a value.
pub fn audit_detail(changes: &[Change]) -> (r: String)
    ensures
        r@ == joined(names_of(change_views(changes@)), ","@),
{
    let ghost all = change_views(changes@);
    let mut names: Vec<String> = Vec::new();
    assert(texts(names@) =~= names_of(all.take(0)));
    let mut i: usize = 0;
    while i < changes.len()
        invariant
            i <= changes@.len(),
            all == change_views(changes@),
            texts(names@) == names_of(all.take(i as int)),
        decreases changes@.len() - i,
    {
        assert(all.take(i + 1).drop_last() =~= all.take(i as int));
        assert(all[i as int] == changes@[i as int]@);
        put_name(&mut names, changes[i].name.clone());
        i += 1;
    }
    assert(all.take(i as int) =~= all);
    join_texts(&names, ",")
}

/// Where the dashboard's Attacca enrollment stands.
#[derive(Debug, Clone, Copy, PartialEq, Eq, Structural)]
pub enum EnrollStatus {
    Idle,
    Pending,
    Granted,
    Denied,
    Expired,
    Error,
}

impl EnrollStatus {
    pub open spec fn code_text(self) -> Seq<char> {
        match self {
            EnrollStatus::Idle => "idle"@,
            EnrollStatus::Pending => "pending"@,
            EnrollStatus::Granted => "granted"@,
            EnrollStatus::Denied => "denied"@,
            EnrollStatus::Expired => "expired"@,
            EnrollStatus::Error => "error"@,
        }
    }

    pub fn code(self) -> (r: &'static str)
        ensures
            r@ == self.code_text(),
    {
        match self {
            EnrollStatus::Idle => "idle",
            EnrollStatus::Pending => "pending",
            EnrollStatus::Granted => "granted",
            EnrollStatus::Denied => "denied",
            EnrollStatus::Expired => "expired",
            EnrollStatus::Error => "error",
        }
    }
}

/// The dashboard's Attacca enrollment.
#[derive(Debug)]
pub struct EnrollView {
    pub status: EnrollStatus,
    pub user_code: Option<String>,
    pub verification_uri: Option<String>,
    pub expires_at: Option<Timestamp>,
    pub message: Option<String>,
}

/// How an enrollment ended.
#[derive(Debug)]
pub enum Outcome {
    /// Approved, and the credential is stored.
    Stored,
    /// Approved, but the credential could not be stored.
    NotStored,
    Lapsed,
    Denied,
    Failed(String),
}

impl Default for EnrollView {
    fn default() -> (r: EnrollView)
        ensures
            r.status == EnrollStatus::Idle,
            r.user_code is None,
            r.verification_uri is None,
            r.expires_at is None,
            r.message is None,
    {
        EnrollView {
            status: EnrollStatus::Idle,
            user_code: None,
            verification_uri: None,
            expires_at: None,
            message: None,
        }
    }
}

impl EnrollView {
    /// An enrollment that waits for approval.
    pub fn pending(user_code: String, verification_uri: String, expires_at: Timestamp) -> (r: EnrollView)
        ensures
            r.status == EnrollStatus::Pending,
            text_view(r.user_code) == Some(user_code@),
            text_view(r.verification_uri) == Some(verification_uri@),
            r.expires_at == Some(expires_at),
            r.message is None,
    {
        EnrollView {
            status: EnrollStatus::Pending,
            user_code: Some(user_code),
            verification_uri: Some(verification_uri),
            expires_at: Some(expires_at),
            message: None,
        }
    }

    /// Whether an enrollment still waits for approval, so that no other is started.
    pub fn in_progress(&self, now: Timestamp) -> (r: bool)
        ensures
            r == (self.status == EnrollStatus::Pending && self.expires_at is Some && self.expires_at->0.at()
                > now.at()),
    {
        match self.expires_at {
            Some(t) => self.status == EnrollStatus::Pending && t.after(now),
            None => false,
        }
    }

    /// The enrollment after it ended: the code is gone.
    pub fn settled(self, outcome: Outcome) -> (r: EnrollView)
        ensures
            r.user_code is None,
            text_view(r.verification_uri) == text_view(self.verification_uri),
            r.expires_at == self.expires_at,
            r.status == (match outcome {
                Outcome::Stored => EnrollStatus::Granted,
                Outcome::NotStored => EnrollStatus::Error,
                Outcome::Lapsed => EnrollStatus::Expired,
                Outcome::Denied => EnrollStatus::Denied,
                Outcome::Failed(_) => EnrollStatus::Error,
            }),
            text_view(r.message) == (match outcome {
                Outcome::NotStored => Some("could not store the credential"@),
                Outcome::Failed(m) => Some(m@),
                _ => text_view(self.message),
            }),
    {
        let (status, message) = match outcome {
            Outcome::Stored => (EnrollStatus::Granted, self.message),
            Outcome::NotStored => (EnrollStatus::Error, Some("could not store the credential".to_owned())),
            Outcome::Lapsed => (EnrollStatus::Expired, self.message),
            Outcome::Denied => (EnrollStatus::Denied, self.message),
            Outcome::Failed(m) => (EnrollStatus::Error, Some(m)),
        };
        EnrollView {
            status,
            user_code: None,
            verification_uri: self.verification_uri,
            expires_at: self.expires_at,
            message,
        }
    }
}

/// Whether an enrollment may start, given where the credential comes from now.
pub fn may_enroll(source: Option<Source>) -> (r: Result<(), ApiError>)
    ensures
        if source == Some(Source::Env) || source == Some(Source::File) {
            r matches Err(e) && e@ == refused(
                409,
                "set_by_operator"@,
                "the Attacca credential is set in the server's environment; change it there"@,
            )
        } else {
            r is Ok
        },
{
    let by_operator = match source {
        Some(Source::Env) => true,
        Some(Source::File) => true,
        _ => false,
    };
    if by_operator {
        Err(
            refuse(
                409,
                "set_by_operator",
                "the Attacca credential is set in the server's environment; change it there",
            ),
        )
    } else {
        Ok(())
    }
}

/// A path without slashes in front.
pub open spec fn unslashed(s: Seq<char>) -> Seq<char>
    decreases s.len(),
{
    if s.len() > 0 && s[0] == '/' {
        unslashed(s.skip(1))
    } else {
        s
    }
}

/// A path without slashes in front: the name of the file it asks for.
pub fn asset_name(path: &str) -> (r: String)
    ensures
        r@ == unslashed(path@),
{
    let v = chars_of(path);
    let n: usize = v.len();
    let mut i: usize = 0;
    assert(v@.skip(0) =~= v@);
    while i < n && v[i] == '/'
        invariant
            i <= n,
            n == v@.len(),
            v@ == path@,
            unslashed(path@) == unslashed(v@.skip(i as int)),
        decreases n - i,
    {
        assert(v@.skip(i as int).skip(1) =~= v@.skip(i + 1));
        i += 1;
    }
    let r = text_of(&v, i, n);
    assert(r@ =~= v@.skip(i as int));
    r
}

/// What is served for a path.
#[derive(Debug, Clone, Copy, PartialEq, Eq, Structural)]
pub enum Asset {
    /// There is no such endpoint.
    NoEndpoint,
    /// The file itself.
    File,
    /// The page that every other path leads to.
    Index,
    /// The dashboard was not built.
    NotBuilt,
}

/// What is served for a file name: `exists` says whether there is such a file, `index` whether
/// there is the page that every other path leads to.
pub fn asset(name: &str, exists: bool, index: bool) -> (r: Asset)
    ensures
        r == (if stands_at(name@, "api/"@, 0) {
            Asset::NoEndpoint
        } else if exists && name@.len() > 0 {
            Asset::File
        } else if index {
            Asset::Index
        } else {
            Asset::NotBuilt
        }),
{
    if begins_with(name, "api/") {
        Asset::NoEndpoint
    } else if exists && chars_of(name).len() > 0 {
        Asset::File
    } else if index {
        Asset::Index
    } else {
        Asset::NotBuilt
    }
}

/// What stands behind the last dot of a name, or the whole name.
pub open spec fn extension(s: Seq<char>, i: int) -> Seq<char>
    decreases i,
{
    if i <= 0 {
        s
    } else if s[i - 1] == '.' {
        s.skip(i)
    } else {
        extension(s, i - 1)
    }
}

/// The media type of a file.
pub open spec fn media_type(name: Seq<char>) -> Seq<char> {
    let e = extension(name, name.len() as int);
    if e == "html"@ {
        "text/html; charset=utf-8"@
    } else if e == "js"@ {
        "text/javascript"@
    } else if e == "css"@ {
        "text/css"@
    } else if e == "svg"@ {
        "image/svg+xml"@
    } else if e == "png"@ {
        "image/png"@
    } else if e == "woff2"@ {
        "font/woff2"@
    } else if e == "json"@ {
        "application/json"@
    } else {
        "application/octet-stream"@
    }
}

fn extension_of(name: &str) -> (r: String)
    ensures
        r@ == extension(name@, name@.len() as int),
{
    let v = chars_of(name);
    let n: usize = v.len();
    let mut i: usize = n;
    while i > 0 && v[i - 1] != '.'
        invariant
            i <= n,
            n == v@.len(),
            v@ == name@,
            extension(name@, n as int) == extension(name@, i as int),
        decreases i,
    {
        i -= 1;
    }
    let r = text_of(&v, i, n);
    assert(r@ =~= v@.skip(i as int));
    assert(v@.skip(0) =~= v@);
    r
}

/// The media type of a file, by what stands behind the last dot of its name.
pub fn mime_of(name: &str) -> (r: &'static str)
    ensures
        r@ == media_type(name@),
{
    let e = extension_of(name);
    let e = e.as_str();
    if same_text(e, "html") {
        "text/html; charset=utf-8"
    } else if same_text(e, "js") {
        "text/javascript"
    } else if same_text(e, "css") {
        "text/css"
    } else if same_text(e, "svg") {
        "image/svg+xml"
    } else if same_text(e, "png") {
        "image/png"
    } else if same_text(e, "woff2") {
        "font/woff2"
    } else if same_text(e, "json") {
        "application/json"
    } else {
        "application/octet-stream"
    }
}

} // verus!
