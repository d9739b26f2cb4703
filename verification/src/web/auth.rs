//! Credentials, second factor, session tokens and brute-force limiting.
use crate::screen::text_view;
use crate::table::{lemma_row, lemma_row_of, lemma_rows_len, Stored, Table};
use crate::text::{
    all_digits, chars_of, has_char, hex_char, hex_digits, hex_text, is_digit, same_text, stands_at, trim, trimmed,
};
use crate::time::{instant, instant_in_range, quotient_to_zero, Timestamp, NANOS_PER_SEC};
use vstd::prelude::*;
use vstd::utf8::encode_utf8;

verus! {

/// How long, in nanoseconds, a session may stand idle: twelve hours.
pub const IDLE: i128 = 43_200_000_000_000;

/// How long, in nanoseconds, a session may last: seven days.
pub const ABSOLUTE: i128 = 604_800_000_000_000;

/// How many bytes a password may have at most.
pub const MAX_PASSWORD_BYTES: usize = 0xffff_ffff;

/// What `argon2`'s `verify_password` finds of a password and a hash in text form: whether the
/// hash is one of the password.
pub uninterp spec fn argon2_matches(password: Seq<char>, hash: Seq<char>) -> bool;

/// Calls `argon2`'s `PasswordHasher::hash_password` with the default parameters and a salt from the
/// operating system, and prints the hash. Claimed: the hash is an Argon2id hash of the password.
/// Which one depends on the salt.
#[verifier::external_body]
fn argon2_hash(password: &str) -> (r: String)
    requires
        encode_utf8(password@).len() <= MAX_PASSWORD_BYTES,
    ensures
        argon2_matches(password@, r@),
        stands_at(r@, "$argon2id$"@, 0),
{
    let salt = argon2::password_hash::SaltString::generate(&mut argon2::password_hash::rand_core::OsRng);
    let hasher = argon2::Argon2::default();
    let hash = argon2::PasswordHasher::hash_password(&hasher, password.as_bytes(), &salt);
    hash.expect("argon2 hashes").to_string()
}

/// Calls `argon2`'s `PasswordVerifier::verify_password` on a hash that `PasswordHash::new` reads.
/// Claimed: the answer depends on the password and the text of the hash alone.
#[verifier::external_body]
fn argon2_verify(password: &str, hash: &str) -> (r: bool)
    ensures
        r == argon2_matches(password@, hash@),
{
    let hasher = argon2::Argon2::default();
    match argon2::password_hash::PasswordHash::new(hash) {
        Ok(h) => argon2::PasswordVerifier::verify_password(&hasher, password.as_bytes(), &h).is_ok(),
        Err(_) => false,
    }
}

/// A hash of a password.
pub fn hash_password(password: &str) -> (r: String)
    requires
        encode_utf8(password@).len() <= MAX_PASSWORD_BYTES,
    ensures
        argon2_matches(password@, r@),
        stands_at(r@, "$argon2id$"@, 0),
{
    argon2_hash(password)
}

/// Whether a hash is one of a password; what is no hash is one of none.
pub fn verify_password(password: &str, hash: &str) -> (r: bool)
    ensures
        r == argon2_matches(password@, hash@),
{
    argon2_verify(password, hash)
}

/// The digits of a code.
pub const TOTP_DIGITS: usize = 6;

/// How many steps either side of the current one are accepted.
pub const TOTP_SKEW: u8 = 1;

/// How many seconds a code is shown.
pub const TOTP_STEP: u64 = 30;

/// Who issues the second factor.
pub const TOTP_ISSUER: &'static str = "ATrader";

/// What `totp_rs::TOTP::generate` gives for a base32 secret at a second, with SHA-1 and the other
/// parameters of `TOTP::new`; nothing where the secret is no base32 text or `TOTP::new` refuses.
pub uninterp spec fn totp_code(
    secret: Seq<char>,
    digits: int,
    skew: int,
    step: int,
    issuer: Seq<char>,
    account: Seq<char>,
    time: int,
) -> Option<Seq<char>>;

/// What `totp_rs::TOTP::get_url` gives for a base32 secret, with SHA-1 and the other parameters of
/// `TOTP::new`; nothing where the secret is no base32 text or `TOTP::new` refuses.
pub uninterp spec fn totp_link(
    secret: Seq<char>,
    digits: int,
    skew: int,
    step: int,
    issuer: Seq<char>,
    account: Seq<char>,
) -> Option<Seq<char>>;

/// Calls `totp_rs::TOTP::generate`. Claimed: whether there is a code, and which, depends on the
/// arguments alone, is the same during a whole step, and has the digits that are asked for.
#[verifier::external_body]
fn generate_code(
    secret: &str,
    digits: usize,
    skew: u8,
    step: u64,
    issuer: &str,
    account: &str,
    time: u64,
) -> (r: Option<String>)
    requires
        step > 0,
    ensures
        text_view(r) == totp_code(secret@, digits as int, skew as int, step as int, issuer@, account@, time as int),
        text_view(r) == totp_code(
            secret@,
            digits as int,
            skew as int,
            step as int,
            issuer@,
            account@,
            (time as int / step as int) * step,
        ),
        r matches Some(c) ==> c@.len() == digits && all_digits(c@),
{
    let bytes = totp_rs::Secret::Encoded(secret.to_string()).to_bytes().ok()?;
    let alg = totp_rs::Algorithm::SHA1;
    let totp = totp_rs::TOTP::new(alg, digits, skew, step, bytes, Some(issuer.into()), account.into());
    Some(totp.ok()?.generate(time))
}

/// Whether a code is the one of a step near a second: not more than `skew` steps away.
pub open spec fn code_near(
    secret: Seq<char>,
    digits: int,
    skew: int,
    step: int,
    issuer: Seq<char>,
    account: Seq<char>,
    code: Seq<char>,
    time: int,
) -> bool {
    exists|d: int|
        -skew <= d <= skew && #[trigger] totp_code(
            secret,
            digits,
            skew,
            step,
            issuer,
            account,
            (time / step + d) * step,
        ) == Some(code)
}

/// Calls `totp_rs::TOTP::check`. Claimed: a code is good exactly when it is the one that
/// `generate` gives for the step of the second or for one that is at most `skew` steps away.
#[verifier::external_body]
fn check_code(
    secret: &str,
    digits: usize,
    skew: u8,
    step: u64,
    issuer: &str,
    account: &str,
    code: &str,
    time: u64,
) -> (r: bool)
    requires
        step > 0,
        time as int / step as int >= skew,
        (time as int / step as int + skew) * step <= u64::MAX,
    ensures
        r == code_near(
            secret@,
            digits as int,
            skew as int,
            step as int,
            issuer@,
            account@,
            code@,
            time as int,
        ),
{
    let Ok(bytes) = totp_rs::Secret::Encoded(secret.to_string()).to_bytes() else { return false };
    let alg = totp_rs::Algorithm::SHA1;
    match totp_rs::TOTP::new(alg, digits, skew, step, bytes, Some(issuer.into()), account.into()) {
        Ok(totp) => totp.check(code, time),
        Err(_) => false,
    }
}

/// Calls `totp_rs::TOTP::get_url`. Claimed: whether there is an address, and which, depends on the
/// arguments alone.
#[verifier::external_body]
fn enrolment_url(
    secret: &str,
    digits: usize,
    skew: u8,
    step: u64,
    issuer: &str,
    account: &str,
) -> (r: Option<String>)
    ensures
        text_view(r) == totp_link(secret@, digits as int, skew as int, step as int, issuer@, account@),
{
    let bytes = totp_rs::Secret::Encoded(secret.to_string()).to_bytes().ok()?;
    let alg = totp_rs::Algorithm::SHA1;
    let totp = totp_rs::TOTP::new(alg, digits, skew, step, bytes, Some(issuer.into()), account.into());
    Some(totp.ok()?.get_url())
}

/// Whether `totp_rs` has codes for a secret, whatever the second, for everyone whose name has no
/// colon.
pub open spec fn codes_exist(secret: Seq<char>) -> bool {
    forall|digits: int, skew: int, step: int, issuer: Seq<char>, account: Seq<char>, time: int|
        6 <= digits <= 8 && 0 <= skew <= 255 && step > 0 && 0 <= time <= u64::MAX && !has_char(issuer, ':')
            && !has_char(account, ':')
            ==> (#[trigger] totp_code(secret, digits, skew, step, issuer, account, time)) is Some
}

/// Calls `totp_rs::Secret::generate_secret` and prints it in base32. Claimed: it is a secret that
/// there are codes for. Which one is left to chance.
#[verifier::external_body]
fn fresh_secret() -> (r: String)
    ensures
        codes_exist(r@),
        r@.len() == 32,
{
    totp_rs::Secret::generate_secret().to_encoded().to_string()
}

/// A new secret for the second factor.
pub fn new_totp_secret() -> (r: String)
    ensures
        codes_exist(r@),
        r@.len() == 32,
{
    fresh_secret()
}

/// The code of a secret at a second; the name of the account does not matter to it.
pub open spec fn code_of(secret: Seq<char>, time: int) -> Option<Seq<char>> {
    totp_code(
        secret,
        TOTP_DIGITS as int,
        TOTP_SKEW as int,
        TOTP_STEP as int,
        TOTP_ISSUER@,
        "u"@,
        time,
    )
}

/// A second as the clock of the second factor has it: one before 1970 counts down from 2^64.
pub open spec fn clock_word(second: int) -> int {
    if second >= 0 {
        second
    } else {
        second + 0x1_0000_0000_0000_0000
    }
}

fn word_of(second: i64) -> (r: u64)
    ensures
        r == clock_word(second as int),
{
    if second >= 0 {
        second as u64
    } else {
        (second as i128 + 0x1_0000_0000_0000_0000i128) as u64
    }
}

fn code_at(secret: &str, time: u64) -> (r: Option<String>)
    ensures
        text_view(r) == code_of(secret@, time as int),
        text_view(r) == code_of(secret@, (time as int / 30) * 30),
        r matches Some(c) ==> c@.len() == 6 && all_digits(c@),
{
    generate_code(secret, TOTP_DIGITS, TOTP_SKEW, TOTP_STEP, TOTP_ISSUER, "u", time)
}

/// The address that an authenticator enrols with; empty where the secret or the name cannot be
/// used.
pub fn totp_url(secret: &str, username: &str) -> (r: String)
    ensures
        r@ == (match totp_link(
            secret@,
            TOTP_DIGITS as int,
            TOTP_SKEW as int,
            TOTP_STEP as int,
            TOTP_ISSUER@,
            username@,
        ) {
            Some(u) => u,
            None => ""@,
        }),
{
    match enrolment_url(secret, TOTP_DIGITS, TOTP_SKEW, TOTP_STEP, TOTP_ISSUER, username) {
        Some(u) => u,
        None => "".to_owned(),
    }
}

/// Whether a text is six digits.
pub open spec fn six_digits(s: Seq<char>) -> bool {
    s.len() == 6 && all_digits(s)
}

fn is_code(s: &str) -> (r: bool)
    ensures
        r == six_digits(s@),
{
    let v = chars_of(s);
    if v.len() != 6 {
        return false;
    }
    let mut i: usize = 0;
    while i < v.len()
        invariant
            i <= v@.len(),
            v@ == s@,
            forall|j: int| 0 <= j < i ==> is_digit(#[trigger] v@[j]),
        decreases v@.len() - i,
    {
        if !(v[i] >= '0' && v[i] <= '9') {
            assert(!is_digit(s@[i as int]));
            return false;
        }
        i += 1;
    }
    true
}

/// Whether a second is one that codes can be checked at.
pub open spec fn checkable(second: int) -> bool {
    second >= 30 || second < -60
}

/// Whether a code is accepted for a secret at a second: blanks around it do not matter, and the
/// current 30 s step and one step either side are good.
pub open spec fn code_accepted(secret: Seq<char>, code: Seq<char>, second: int) -> bool {
    six_digits(trimmed(code)) && code_near(
        secret,
        TOTP_DIGITS as int,
        TOTP_SKEW as int,
        TOTP_STEP as int,
        TOTP_ISSUER@,
        "u"@,
        trimmed(code),
        clock_word(second),
    )
}

/// Accepts the current 30 s step and one step either side (clock skew).
pub fn check_totp(secret: &str, code: &str, now: Timestamp) -> (r: bool)
    requires
        checkable(now.second()),
    ensures
        r == code_accepted(secret@, code@, now.second()),
{
    let code = trim(code);
    let time = word_of(now.secs());
    is_code(code.as_str()) && check_code(
        secret,
        TOTP_DIGITS,
        TOTP_SKEW,
        TOTP_STEP,
        TOTP_ISSUER,
        "u",
        code.as_str(),
        time,
    )
}

/// The current code for a secret (tests and scripted logins); `None` where there is none.
pub fn current_code_for_tests(secret: &str, now: Timestamp) -> (r: Option<String>)
    ensures
        text_view(r) == code_of(secret@, clock_word(now.second())),
        text_view(r) == code_of(secret@, clock_word(now.second()) / 30 * 30),
        r matches Some(c) ==> six_digits(c@),
{
    code_at(secret, word_of(now.secs()))
}

/// The code of the current step is accepted, with or without blanks around it.
pub proof fn law_the_current_code_is_accepted(secret: Seq<char>, second: int, code: Seq<char>)
    requires
        checkable(second),
        six_digits(trimmed(code)),
        code_of(secret, clock_word(second) / 30 * 30) == Some(trimmed(code)),
    ensures
        code_accepted(secret, code, second),
{
    let time = clock_word(second);
    assert((time / 30 + 0) * 30 == time / 30 * 30);
    assert(totp_code(
        secret,
        TOTP_DIGITS as int,
        TOTP_SKEW as int,
        TOTP_STEP as int,
        TOTP_ISSUER@,
        "u"@,
        (time / (TOTP_STEP as int) + 0) * (TOTP_STEP as int),
    ) == Some(trimmed(code)));
}

/// The step that a code belongs to: the current one, the one before or the one after.
pub open spec fn step_of(secret: Seq<char>, code: Seq<char>, second: int) -> Option<int> {
    let c = trimmed(code);
    let step = quotient_to_zero(second, 30);
    if !six_digits(c) {
        None
    } else if code_of(secret, clock_word(step * 30)) == Some(c) {
        Some(step)
    } else if code_of(secret, clock_word((step - 1) * 30)) == Some(c) {
        Some(step - 1)
    } else if code_of(secret, clock_word((step + 1) * 30)) == Some(c) {
        Some(step + 1)
    } else {
        None
    }
}

fn is_code_of(secret: &str, code: &str, step: i64) -> (r: bool)
    requires
        i64::MIN <= step * 30 <= i64::MAX,
    ensures
        r == (code_of(secret@, clock_word(step * 30)) == Some(code@)),
{
    match code_at(secret, word_of(step * 30)) {
        Some(c) => same_text(c.as_str(), code),
        None => false,
    }
}

/// The 30 s time step a code belongs to (current, previous or next), if it is valid.
pub fn totp_step(secret: &str, code: &str, now: Timestamp) -> (r: Option<i64>)
    ensures
        match step_of(secret@, code@, now.second()) {
            Some(s) => r matches Some(x) && x == s,
            None => r is None,
        },
{
    let code = trim(code);
    let code = code.as_str();
    if !is_code(code) {
        return None;
    }
    proof {
        use_type_invariant(now);
    }
    let step = now.secs() / 30;
    assert(step == quotient_to_zero(now.second(), 30));
    if is_code_of(secret, code, step) {
        Some(step)
    } else if is_code_of(secret, code, step - 1) {
        Some(step - 1)
    } else if is_code_of(secret, code, step + 1) {
        Some(step + 1)
    } else {
        None
    }
}

/// The step that a code is accepted for, given the last step for which one was: it must be newer.
pub fn accept_totp(secret: &str, code: &str, now: Timestamp, last_step: i64) -> (r: Option<i64>)
    ensures
        match step_of(secret@, code@, now.second()) {
            Some(s) => if s > last_step {
                r matches Some(x) && x == s
            } else {
                r is None
            },
            None => r is None,
        },
{
    match totp_step(secret, code, now) {
        Some(s) => if s > last_step {
            Some(s)
        } else {
            None
        },
        None => None,
    }
}

/// The bytes from index `i` on, each as two digits of base sixteen.
pub open spec fn hex_from(bytes: Seq<u8>, i: int) -> Seq<char>
    decreases bytes.len() - i,
{
    if i >= bytes.len() {
        Seq::empty()
    } else {
        hex_digits(bytes[i] as nat, 2) + hex_from(bytes, i + 1)
    }
}

/// Bytes in base sixteen.
pub fn hex_bytes(bytes: &[u8]) -> (r: String)
    ensures
        r@ == hex_from(bytes@, 0),
{
    let mut s = String::new();
    let mut i: usize = 0;
    assert(s@ + hex_from(bytes@, 0) =~= hex_from(bytes@, 0));
    while i < bytes.len()
        invariant
            i <= bytes@.len(),
            s@ + hex_from(bytes@, i as int) == hex_from(bytes@, 0),
        decreases bytes@.len() - i,
    {
        let ghost before = s@;
        let ghost two = hex_digits(bytes@[i as int] as nat, 2);
        let ghost more = hex_from(bytes@, i + 1);
        s.append(hex_text(bytes[i] as u64, 2).as_str());
        assert(before + (two + more) =~= (before + two) + more);
        i += 1;
    }
    assert(s@ + Seq::<char>::empty() =~= s@);
    s
}

/// Whether a text is made of digits of base sixteen.
pub open spec fn all_hex(s: Seq<char>) -> bool {
    forall|i: int| 0 <= i < s.len() ==> ('0' <= #[trigger] s[i] <= '9' || 'a' <= s[i] <= 'f')
}

proof fn lemma_hex(bytes: Seq<u8>, i: int)
    requires
        0 <= i <= bytes.len(),
    ensures
        hex_from(bytes, i).len() == 2 * (bytes.len() - i),
        all_hex(hex_from(bytes, i)),
    decreases bytes.len() - i,
{
    if i < bytes.len() {
        lemma_hex(bytes, i + 1);
        let n = bytes[i] as nat;
        reveal_with_fuel(hex_digits, 3);
        assert(hex_digits(n, 2) =~= seq![hex_char((n / 16) % 16), hex_char(n % 16)]);
    }
}

/// Calls `rand::RngCore::fill_bytes` of the thread's generator. The bytes are left to chance.
#[verifier::external_body]
fn random_bytes(n: usize) -> (r: Vec<u8>)
    ensures
        r@.len() == n,
{
    let mut b = vec![0u8; n];
    rand::RngCore::fill_bytes(&mut rand::thread_rng(), &mut b);
    b
}

/// A new session token: 32 random bytes in base sixteen.
pub fn new_token() -> (r: String)
    ensures
        r@.len() == 64,
        all_hex(r@),
{
    let b = random_bytes(32);
    proof {
        lemma_hex(b@, 0);
    }
    hex_bytes(&b)
}

/// What `sha2::Sha256::digest` makes of bytes.
pub uninterp spec fn sha256_digest(bytes: Seq<u8>) -> Seq<u8>;

/// Calls `sha2::Sha256::digest`. Claimed: the 32 bytes of the digest depend on the bytes alone.
#[verifier::external_body]
fn sha256(bytes: &[u8]) -> (r: Vec<u8>)
    ensures
        r@ == sha256_digest(bytes@),
        r@.len() == 32,
{
    <sha2::Sha256 as sha2::Digest>::digest(bytes).to_vec()
}

/// What is stored of a token: its SHA-256 digest in base sixteen.
pub open spec fn hashed(token: Seq<char>) -> Seq<char> {
    hex_from(sha256_digest(encode_utf8(token)), 0)
}

pub fn token_hash(token: &str) -> (r: String)
    ensures
        r@ == hashed(token@),
        r@.len() == 64,
        all_hex(r@),
{
    let d = sha256(token.as_bytes());
    proof {
        lemma_hex(d@, 0);
    }
    hex_bytes(&d)
}

/// What recovery codes are made of: letters and digits that cannot be taken for one another.
pub const ALPHABET: &'static str = "abcdefghjkmnpqrstuvwxyz23456789";

/// The character that a number picks.
pub open spec fn picked(w: u32) -> char {
    ALPHABET@[w as int % 31]
}

/// The recovery code that eight numbers make.
pub open spec fn recovery_text(words: Seq<u32>) -> Seq<char> {
    seq![
        picked(words[0]),
        picked(words[1]),
        picked(words[2]),
        picked(words[3]),
        '-',
        picked(words[4]),
        picked(words[5]),
        picked(words[6]),
        picked(words[7]),
    ]
}

/// The recovery code that eight numbers make.
pub fn recovery_code(words: &[u32]) -> (r: String)
    requires
        words@.len() == 8,
    ensures
        r@ == recovery_text(words@),
{
    proof {
        reveal_strlit("abcdefghjkmnpqrstuvwxyz23456789");
    }
    let letters = chars_of(ALPHABET);
    let mut s = String::new();
    let mut i: usize = 0;
    while i < 8
        invariant
            i <= 8,
            words@.len() == 8,
            letters@ == ALPHABET@,
            letters@.len() == 31,
            s@ == recovery_text(words@).take(if i <= 4 {
                i as int
            } else {
                i + 1
            }),
        decreases 8 - i,
    {
        let ghost whole = recovery_text(words@);
        let ghost before = s@;
        if i == 4 {
            s.push('-');
        }
        let c = letters[(words[i] % 31) as usize];
        s.push(c);
        assert(c == picked(words@[i as int]));
        if i == 4 {
            assert(s@ =~= whole.take(6));
        } else if i < 4 {
            assert(s@ =~= whole.take(i + 1));
        } else {
            assert(s@ =~= whole.take(i + 2));
        }
        i += 1;
    }
    assert(recovery_text(words@).take(9) =~= recovery_text(words@));
    s
}

/// Calls `rand::RngCore::next_u32` of the thread's generator. The number is left to chance.
#[verifier::external_body]
fn random_word() -> (r: u32)
{
    rand::RngCore::next_u32(&mut rand::thread_rng())
}

/// Whether a text has the form of a recovery code.
pub open spec fn recovery_form(s: Seq<char>) -> bool {
    s.len() == 9 && s[4] == '-' && forall|i: int|
        0 <= i < 9 && i != 4 ==> ALPHABET@.contains(#[trigger] s[i])
}

/// Ten new recovery codes.
pub fn new_recovery_codes() -> (r: Vec<String>)
    ensures
        r@.len() == 10,
        forall|i: int| 0 <= i < 10 ==> recovery_form(#[trigger] r@[i]@),
{
    let mut codes: Vec<String> = Vec::new();
    while codes.len() < 10
        invariant
            codes@.len() <= 10,
            forall|i: int| 0 <= i < codes@.len() ==> recovery_form(#[trigger] codes@[i]@),
        decreases 10 - codes@.len(),
    {
        let mut words: Vec<u32> = Vec::new();
        while words.len() < 8
            invariant
                words@.len() <= 8,
            decreases 8 - words@.len(),
        {
            words.push(random_word());
        }
        let c = recovery_code(&words);
        proof {
            reveal_strlit("abcdefghjkmnpqrstuvwxyz23456789");
            assert forall|i: int| 0 <= i < 9 && i != 4 implies ALPHABET@.contains(#[trigger] c@[i]) by {
                let w = if i < 4 {
                    words@[i]
                } else {
                    words@[i - 1]
                };
                assert(c@[i] == ALPHABET@[w as int % 31]);
            }
        }
        codes.push(c);
    }
    codes
}

/// The failures of one key (user or client) that are remembered, and until when it is locked.
#[derive(Debug)]
pub struct Failures {
    pub times: Vec<Timestamp>,
    pub until: Option<Timestamp>,
}

impl View for Failures {
    type V = (Seq<Timestamp>, Option<Timestamp>);

    open spec fn view(&self) -> (Seq<Timestamp>, Option<Timestamp>) {
        (self.times@, self.until)
    }
}

impl Stored for Failures {
    open spec fn sound(&self) -> bool {
        true
    }
}

/// How long a failure counts, in nanoseconds: fifteen minutes.
pub const WINDOW: i128 = 900_000_000_000;

/// The number of failures from which a key is locked.
pub const STRIKES: usize = 5;

/// How many keys there are at least before stale ones are forgotten.
pub const SWEEP_FROM: usize = 1000;

/// Whether a failure still counts.
pub open spec fn counts(t: Timestamp, now: Timestamp) -> bool {
    now.at() - t.at() < WINDOW
}

/// The failures that still count.
pub open spec fn counting(times: Seq<Timestamp>, now: Timestamp) -> Seq<Timestamp>
    decreases times.len(),
{
    if times.len() == 0 {
        times
    } else if counts(times.last(), now) {
        counting(times.drop_last(), now).push(times.last())
    } else {
        counting(times.drop_last(), now)
    }
}

/// Whether a key is locked.
pub open spec fn locked(f: (Seq<Timestamp>, Option<Timestamp>), now: Timestamp) -> bool {
    f.1 is Some && f.1->0.at() > now.at()
}

/// Whether anything is left to remember of a key.
pub open spec fn live(f: (Seq<Timestamp>, Option<Timestamp>), now: Timestamp) -> bool {
    locked(f, now) || counting(f.0, now).len() > 0
}

/// For how many minutes the `n`th failure locks a key: twice as long each time, an hour at most.
pub open spec fn lock_minutes(n: int) -> int {
    if n <= 5 {
        1
    } else if n == 6 {
        2
    } else if n == 7 {
        4
    } else if n == 8 {
        8
    } else if n == 9 {
        16
    } else if n == 10 {
        32
    } else {
        60
    }
}

/// What is remembered of a key that was never seen.
pub open spec fn clean_slate() -> (Seq<Timestamp>, Option<Timestamp>) {
    (Seq::empty(), None)
}

/// What is remembered of a key.
pub open spec fn record_of(m: Map<Seq<char>, (Seq<Timestamp>, Option<Timestamp>)>, key: Seq<char>) -> (
    Seq<Timestamp>,
    Option<Timestamp>,
) {
    if m.contains_key(key) {
        m[key]
    } else {
        clean_slate()
    }
}

/// What is remembered of a key after one more failure.
pub open spec fn struck(f: (Seq<Timestamp>, Option<Timestamp>), now: Timestamp) -> (
    Seq<Timestamp>,
    Option<Timestamp>,
) {
    let times = counting(f.0, now).push(now);
    (
        times,
        if times.len() >= STRIKES {
            Some(instant(now.at() + lock_minutes(times.len() as int) * 60 * NANOS_PER_SEC))
        } else {
            f.1
        },
    )
}

/// Whether the calendar reaches to the end of the lock that one more failure brings.
pub open spec fn lock_fits(f: (Seq<Timestamp>, Option<Timestamp>), now: Timestamp) -> bool {
    let n = counting(f.0, now).len() + 1;
    n >= STRIKES ==> instant_in_range(now.at() + lock_minutes(n as int) * 60 * NANOS_PER_SEC)
}

/// The keys of which anything is left to remember.
pub open spec fn remembered(m: Map<Seq<char>, (Seq<Timestamp>, Option<Timestamp>)>, now: Timestamp) -> Map<
    Seq<char>,
    (Seq<Timestamp>, Option<Timestamp>),
> {
    Map::new(|k: Seq<char>| m.contains_key(k) && live(m[k], now), |k: Seq<char>| m[k])
}

/// What a limiter remembers, and how many keys trigger the next sweep.
pub ghost struct LimiterView {
    pub failures: Map<Seq<char>, (Seq<Timestamp>, Option<Timestamp>)>,
    pub sweep_at: usize,
}

/// A limiter after stale keys are forgotten, if there are enough keys for that.
pub open spec fn swept(l: LimiterView, now: Timestamp) -> LimiterView {
    if l.failures.dom().len() >= l.sweep_at && l.failures.dom().len() >= SWEEP_FROM {
        let kept = remembered(l.failures, now);
        LimiterView {
            failures: kept,
            sweep_at: if kept.dom().len() * 2 <= usize::MAX {
                (kept.dom().len() * 2) as usize
            } else {
                usize::MAX
            },
        }
    } else {
        l
    }
}

/// A limiter after a failure.
pub open spec fn failed(l: LimiterView, key: Seq<char>, now: Timestamp) -> LimiterView {
    let s = swept(l, now);
    LimiterView { failures: s.failures.insert(key, struck(record_of(s.failures, key), now)), ..s }
}

/// For how many seconds a key is still locked: at least one where it is.
pub open spec fn wait_of(l: LimiterView, key: Seq<char>, now: Timestamp) -> Option<int> {
    let f = record_of(l.failures, key);
    if locked(f, now) {
        let left = quotient_to_zero(f.1->0.at() - now.at(), NANOS_PER_SEC as int);
        Some(
            if left < 1 {
                1
            } else {
                left
            },
        )
    } else {
        None
    }
}

fn still_counting(times: &Vec<Timestamp>, now: Timestamp) -> (r: Vec<Timestamp>)
    ensures
        r@ == counting(times@, now),
{
    let mut out: Vec<Timestamp> = Vec::new();
    assert(out@ =~= counting(times@.take(0), now));
    let mut i: usize = 0;
    while i < times.len()
        invariant
            i <= times@.len(),
            out@ == counting(times@.take(i as int), now),
        decreases times@.len() - i,
    {
        assert(times@.take(i + 1).drop_last() =~= times@.take(i as int));
        let t = times[i];
        if now.since(t) < WINDOW {
            out.push(t);
        }
        i += 1;
    }
    assert(times@.take(i as int) =~= times@);
    out
}

fn minutes_of(n: usize) -> (r: i64)
    ensures
        r == lock_minutes(n as int),
        1 <= r <= 60,
{
    if n <= 5 {
        1
    } else if n == 6 {
        2
    } else if n == 7 {
        4
    } else if n == 8 {
        8
    } else if n == 9 {
        16
    } else if n == 10 {
        32
    } else {
        60
    }
}

/// Failures per key (user or client) in a 15-minute window; from the 5th, locked for
/// 2^(n-5) minutes, capped at 60.
pub struct Limiter {
    pub failures: Table<String, Failures>,
    /// Number of keys that triggers the next sweep of stale keys; doubles so sweeps stay
    /// amortised O(1).
    pub sweep_at: usize,
}

impl View for Limiter {
    type V = LimiterView;

    open spec fn view(&self) -> LimiterView {
        LimiterView { failures: self.failures@, sweep_at: self.sweep_at }
    }
}

impl Default for Limiter {
    fn default() -> (r: Limiter)
        ensures
            r.wf(),
            r@.failures == Map::<Seq<char>, (Seq<Timestamp>, Option<Timestamp>)>::empty(),
            r@.sweep_at == 0,
    {
        Limiter { failures: Table::new(), sweep_at: 0 }
    }
}

impl Limiter {
    pub open spec fn wf(&self) -> bool {
        self.failures.wf()
    }

    /// Whether a key may try; if not, for how many seconds not.
    pub fn check(&self, key: &str, now: Timestamp) -> (r: Result<(), i64>)
        requires
            self.wf(),
        ensures
            match wait_of(self@, key@, now) {
                Some(s) => r matches Err(n) && n == s,
                None => r is Ok,
            },
    {
        let k = key.to_owned();
        if let Some(f) = self.failures.get(&k) {
            if let Some(until) = f.until {
                if until.after(now) {
                    proof {
                        use_type_invariant(until);
                        use_type_invariant(now);
                    }
                    let left = until.since(now) / NANOS_PER_SEC;
                    return Err(
                        if left < 1 {
                            1
                        } else {
                            left as i64
                        },
                    );
                }
            }
        }
        Ok(())
    }

    fn sweep(&mut self, now: Timestamp)
        requires
            old(self).wf(),
        ensures
            final(self).wf(),
            final(self)@.failures == remembered(old(self)@.failures, now),
            final(self).sweep_at == old(self).sweep_at,
    {
        let ghost before = self.failures@;
        let ghost rows = self.failures.rows();
        let mut kept: Table<String, Failures> = Table::new();
        let mut i: usize = 0;
        while i < self.failures.len()
            invariant
                i <= rows.len(),
                self.wf(),
                rows == self.failures.rows(),
                before == self.failures@,
                before == old(self).failures@,
                self.sweep_at == old(self).sweep_at,
                kept.wf(),
                forall|k: Seq<char>| #[trigger]
                    kept@.contains_key(k) <==> exists|j: int|
                        0 <= j < i && (#[trigger] rows[j]).0 == k && live(rows[j].1, now),
                forall|k: Seq<char>| #[trigger]
                    kept@.contains_key(k) ==> before.contains_key(k) && kept@[k] == before[k],
            decreases rows.len() - i,
        {
            proof {
                lemma_row(rows, i as int);
            }
            let f = self.failures.value_at(i);
            let counted = still_counting(&f.times, now);
            let shut = match f.until {
                Some(u) => u.after(now),
                None => false,
            };
            let ghost kept0 = kept@;
            if shut || counted.len() > 0 {
                let mut times: Vec<Timestamp> = Vec::new();
                let mut j: usize = 0;
                while j < f.times.len()
                    invariant
                        j <= f.times@.len(),
                        times@ == f.times@.take(j as int),
                    decreases f.times@.len() - j,
                {
                    times.push(f.times[j]);
                    assert(f.times@.take(j + 1) =~= f.times@.take(j as int).push(f.times@[j as int]));
                    j += 1;
                }
                assert(f.times@.take(j as int) =~= f.times@);
                let key = self.failures.key_at(i).clone();
                kept.insert(key, Failures { times, until: f.until });
            }
            proof {
                assert forall|k: Seq<char>| #[trigger]
                    kept@.contains_key(k) <==> exists|j: int|
                        0 <= j < i + 1 && (#[trigger] rows[j]).0 == k && live(rows[j].1, now) by {
                    assert(rows[i as int].0 == rows[i as int].0);
                    if kept0.contains_key(k) {
                        let j = choose|j: int|
                            0 <= j < i && (#[trigger] rows[j]).0 == k && live(rows[j].1, now);
                        assert(rows[j].0 == k);
                    }
                }
            }
            i += 1;
        }
        proof {
            assert forall|k: Seq<char>| #[trigger] kept@.contains_key(k) <==> remembered(before, now).contains_key(
                k,
            ) by {
                if before.contains_key(k) {
                    let j = lemma_row_of(rows, k);
                    assert(rows[j].0 == k);
                }
                if kept@.contains_key(k) {
                    let j = choose|j: int|
                        0 <= j < rows.len() && (#[trigger] rows[j]).0 == k && live(rows[j].1, now);
                    lemma_row(rows, j);
                }
            }
            assert(kept@ =~= remembered(before, now));
        }
        self.failures = kept;
    }

    /// A key failed. Keys come from client input; the ones whose window and lockout have both
    /// passed are forgotten, so a stream of made-up usernames cannot grow the table without bound.
    pub fn fail(&mut self, key: &str, now: Timestamp)
        requires
            old(self).wf(),
            lock_fits(record_of(old(self)@.failures, key@), now),
        ensures
            final(self).wf(),
            final(self)@ == failed(old(self)@, key@, now),
    {
        let ghost l = self@;
        proof {
            lemma_rows_len(self.failures.rows());
        }
        let n: usize = self.failures.len();
        if n >= self.sweep_at && n >= SWEEP_FROM {
            self.sweep(now);
            proof {
                lemma_rows_len(self.failures.rows());
            }
            let m: usize = self.failures.len();
            self.sweep_at = if m <= usize::MAX / 2 {
                m * 2
            } else {
                usize::MAX
            };
        }
        assert(self@ == swept(l, now));
        proof {
            lemma_sweep(l.failures, key@, now);
        }
        let k = key.to_owned();
        let (times, until) = match self.failures.remove(&k) {
            Some(f) => (still_counting(&f.times, now), f.until),
            None => (Vec::new(), None),
        };
        let ghost f = record_of(swept(l, now).failures, key@);
        assert(counting(Seq::empty(), now) =~= Seq::empty());
        assert(times@ == counting(f.0, now));
        let mut times = times;
        times.push(now);
        let until = if times.len() >= STRIKES {
            let nanos: i64 = minutes_of(times.len()) * 60_000_000_000;
            now.checked_add(nanos)
        } else {
            until
        };
        self.failures.insert(k, Failures { times, until });
        assert(self@.failures =~= failed(l, key@, now).failures);
    }

    /// A key succeeded: nothing is held against it any more.
    pub fn succeed(&mut self, key: &str)
        requires
            old(self).wf(),
        ensures
            final(self).wf(),
            final(self)@ == (LimiterView { failures: old(self)@.failures.remove(key@), ..old(self)@ }),
    {
        let k = key.to_owned();
        let _ = self.failures.remove(&k);
    }

    /// How many keys are remembered.
    pub fn len(&self) -> (r: usize)
        requires
            self.wf(),
        ensures
            r == self@.failures.dom().len(),
    {
        proof {
            lemma_rows_len(self.failures.rows());
        }
        self.failures.len()
    }

    pub fn is_empty(&self) -> (r: bool)
        requires
            self.wf(),
        ensures
            r == (self@.failures.dom().len() == 0),
    {
        self.len() == 0
    }
}

proof fn lemma_sweep(m: Map<Seq<char>, (Seq<Timestamp>, Option<Timestamp>)>, key: Seq<char>, now: Timestamp)
    ensures
        counting(record_of(remembered(m, now), key).0, now) == counting(record_of(m, key).0, now),
{
    if m.contains_key(key) && !live(m[key], now) {
        assert(counting(m[key].0, now) =~= Seq::empty());
        assert(counting(Seq::empty(), now) =~= Seq::empty());
    }
}

/// Forgetting lets nobody off: whoever has to wait still has to wait as long, and every failure
/// that counted still counts.
pub proof fn law_forgetting_lets_nobody_off(l: LimiterView, key: Seq<char>, now: Timestamp)
    ensures
        wait_of(swept(l, now), key, now) == wait_of(l, key, now),
        counting(record_of(swept(l, now).failures, key).0, now) == counting(record_of(l.failures, key).0, now),
{
    lemma_sweep(l.failures, key, now);
}

/// The fifth failure within the window, and every later one, locks the key at once.
pub proof fn law_five_failures_lock(l: LimiterView, key: Seq<char>, now: Timestamp)
    requires
        counting(record_of(l.failures, key).0, now).len() >= STRIKES - 1,
        lock_fits(record_of(l.failures, key), now),
    ensures
        wait_of(failed(l, key, now), key, now) == Some(
            lock_minutes((counting(record_of(l.failures, key).0, now).len() + 1) as int) * 60,
        ),
{
    lemma_sweep(l.failures, key, now);
    let n = counting(record_of(l.failures, key).0, now).len() + 1;
    let nanos = lock_minutes(n as int) * 60 * NANOS_PER_SEC;
    crate::time::lemma_instant(now.at() + nanos);
    assert(nanos / (NANOS_PER_SEC as int) == lock_minutes(n as int) * 60);
}

/// A failure is held against nobody else.
pub proof fn law_failures_are_ones_own(l: LimiterView, key: Seq<char>, other: Seq<char>, now: Timestamp)
    requires
        key != other,
    ensures
        wait_of(failed(l, key, now), other, now) == wait_of(l, other, now),
{
    law_forgetting_lets_nobody_off(l, other, now);
}

/// After a success nobody has to wait.
pub proof fn law_success_clears(l: LimiterView, key: Seq<char>, now: Timestamp)
    ensures
        wait_of(LimiterView { failures: l.failures.remove(key), ..l }, key, now) is None,
{
}

#[derive(Debug)]
pub struct User {
    pub id: i64,
    pub username: String,
    pub password_hash: String,
    pub totp_secret: Option<String>,
    pub totp_enabled: bool,
}

#[derive(Debug)]
pub struct Session {
    pub id_hash: String,
    pub user_id: i64,
    pub mfa_pending: bool,
    pub created_at: Timestamp,
    pub last_seen: Timestamp,
}

impl Session {
    /// Whether the session is still good: not idle for 12 h, not older than 7 d.
    pub open spec fn alive(&self, now: Timestamp) -> bool {
        now.at() - self.last_seen.at() <= IDLE && now.at() - self.created_at.at() <= ABSOLUTE
    }

    /// Whether the session is still good.
    pub fn is_alive(&self, now: Timestamp) -> (r: bool)
        ensures
            r == self.alive(now),
    {
        now.since(self.last_seen) <= IDLE && now.since(self.created_at) <= ABSOLUTE
    }
}

/// A lock lasts a minute after the fifth failure, and after each later one twice as long as after the one
/// before, but never longer than an hour. A key with fewer than four failures in the last quarter of an hour
/// is not locked by one more, and older failures do not count.
pub proof fn law_locks_grow_with_failures(l: LimiterView, key: Seq<char>, now: Timestamp, n: int)
    ensures
        lock_minutes(5) == 1,
        n >= 5 ==> lock_minutes(n + 1) == if 2 * lock_minutes(n) > 60 {
            60
        } else {
            2 * lock_minutes(n)
        },
        counting(record_of(l.failures, key).0, now) == record_of(l.failures, key).0.filter(
            |t: Timestamp| now.at() - t.at() < 15 * 60 * 1_000_000_000,
        ),
        counting(record_of(l.failures, key).0, now).len() < 4 && wait_of(l, key, now) is None ==> wait_of(
            failed(l, key, now),
            key,
            now,
        ) is None,
{
    lemma_counting_is_filter(record_of(l.failures, key).0, now);
    lemma_sweep(l.failures, key, now);
}

proof fn lemma_counting_is_filter(times: Seq<Timestamp>, now: Timestamp)
    ensures
        counting(times, now) == times.filter(|t: Timestamp| now.at() - t.at() < 15 * 60 * 1_000_000_000),
    decreases times.len(),
{
    reveal(Seq::filter);
    if times.len() > 0 {
        lemma_counting_is_filter(times.drop_last(), now);
    } else {
        assert(counting(times, now) =~= times.filter(|t: Timestamp| now.at() - t.at() < 15 * 60 * 1_000_000_000));
    }
}

/// A session ends when it was idle for more than half a day, and a week after it began at the latest.
pub proof fn law_sessions_end(s: Session, now: Timestamp)
    ensures
        s.alive(now) <==> now.at() - s.last_seen.at() <= 12 * 3600 * 1_000_000_000 && now.at() - s.created_at.at() <= 7 * 24
            * 3600 * 1_000_000_000,
{
}

/// A key that is locked is told the whole seconds until its lock ends, one at least; a key is locked exactly
/// until then.
pub proof fn law_waits_last_until_the_lock_ends(l: LimiterView, key: Seq<char>, now: Timestamp)
    ensures
        ({
            let until = record_of(l.failures, key).1;
            match wait_of(l, key, now) {
                Some(s) => {
                    let left = until->0.at() - now.at();
                    &&& until is Some && left > 0 && s >= 1
                    &&& left < (s + 1) * 1_000_000_000
                    &&& s > 1 ==> s * 1_000_000_000 <= left
                },
                None => until is Some ==> until->0.at() <= now.at(),
            }
        }),
{
}

/// A code is accepted exactly if it is the one of the half minute that the clock is in, of the one before or of
/// the one after.
pub proof fn law_codes_are_good_for_a_step_either_way(secret: Seq<char>, code: Seq<char>, second: int)
    requires
        six_digits(trimmed(code)),
    ensures
        ({
            let step = clock_word(second) / 30;
            code_accepted(secret, code, second) <==> code_of(secret, (step - 1) * 30) == Some(trimmed(code)) || code_of(
                secret,
                step * 30,
            ) == Some(trimmed(code)) || code_of(secret, (step + 1) * 30) == Some(trimmed(code))
        }),
{
    let step = clock_word(second) / 30;
    assert forall|d: int| -1 <= d <= 1 implies #[trigger] totp_code(
        secret,
        TOTP_DIGITS as int,
        TOTP_SKEW as int,
        TOTP_STEP as int,
        TOTP_ISSUER@,
        "u"@,
        (step + d) * 30,
    ) == code_of(secret, (step + d) * 30) by {
    }
    assert(step + 0 == step);
    assert(step + (-1) == step - 1);
}

} // verus!
