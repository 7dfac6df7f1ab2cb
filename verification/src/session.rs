//! The dashboard's login: a password, and a session cookie signed with an
//! HMAC of the session secret. Without a password the dashboard is open.

use vstd::prelude::*;
use vstd::string::StringSliceAdditionalSpecFns;
use base64::Engine;
use hmac::Mac;
use crate::text::{
    chars_of, copy_range, index_of, is_ws, lemma_index_of_bounds, lemma_lacks, lemma_trim_noop,
    starts_with, string_from_chars, trim, trim_bounds, trim_start,
};

verus! {

/// HMAC-SHA256 of `msg` under `key`.
pub uninterp spec fn hmac_sha256(key: Seq<u8>, msg: Seq<u8>) -> Seq<u8>;

/// The URL-safe base64 digit for a six-bit value `v` (below 64): `A-Z`,
/// `a-z`, `0-9`, then `-` and `_`.
pub open spec fn b64_digit(v: int) -> char {
    if v < 26 {
        ((65 + v) as u8) as char
    } else if v < 52 {
        ((97 + v - 26) as u8) as char
    } else if v < 62 {
        ((48 + v - 52) as u8) as char
    } else if v == 62 {
        '-'
    } else {
        '_'
    }
}

/// `bytes` in base64 with the URL-safe alphabet and no padding: every three
/// bytes become four digits of six bits each, most significant first; a
/// last single byte becomes two digits and a last pair three, the unused low
/// bits being zero.
pub open spec fn base64_url(bytes: Seq<u8>) -> Seq<char>
    decreases bytes.len(),
{
    if bytes.len() == 0 {
        Seq::empty()
    } else if bytes.len() == 1 {
        let b0 = bytes[0] as int;
        seq![b64_digit(b0 / 4), b64_digit((b0 % 4) * 16)]
    } else if bytes.len() == 2 {
        let b0 = bytes[0] as int;
        let b1 = bytes[1] as int;
        seq![b64_digit(b0 / 4), b64_digit((b0 % 4) * 16 + b1 / 16), b64_digit((b1 % 16) * 4)]
    } else {
        let b0 = bytes[0] as int;
        let b1 = bytes[1] as int;
        let b2 = bytes[2] as int;
        seq![
            b64_digit(b0 / 4),
            b64_digit((b0 % 4) * 16 + b1 / 16),
            b64_digit((b1 % 16) * 4 + b2 / 64),
            b64_digit(b2 % 64),
        ] + base64_url(bytes.skip(3))
    }
}

/// A char of the URL-safe base64 alphabet: `A-Z`, `a-z`, `0-9`, `-`, `_`.
pub open spec fn is_base64_url_char(c: char) -> bool {
    ||| 'A' <= c <= 'Z'
    ||| 'a' <= c <= 'z'
    ||| '0' <= c <= '9'
    ||| c == '-'
    ||| c == '_'
}

/// The HMAC-SHA256 of `msg` under `key`.
///
/// Trusted: `Hmac::<Sha256>::new_from_slice(key)`, `Mac::update(msg)` and
/// `finalize().into_bytes()` of the `hmac` and `sha2` crates. The contract
/// only names the result. `new_from_slice` takes keys of any length: its
/// source in hmac 0.12.1 always answers `Ok`, so the `Err` arm never runs.
#[verifier::external_body]
fn hmac_sha256_of(key: &[u8], msg: &[u8]) -> (r: Vec<u8>)
    ensures
        r@ == hmac_sha256(key@, msg@),
{
    match hmac::Hmac::<sha2::Sha256>::new_from_slice(key) {
        Ok(mut mac) => {
            mac.update(msg);
            mac.finalize().into_bytes().to_vec()
        },
        Err(_) => Vec::new(),
    }
}

/// `bytes` in URL-safe base64 without padding.
///
/// Trusted: `base64::engine::general_purpose::URL_SAFE_NO_PAD.encode`,
/// which encodes with the `URL_SAFE` alphabet and writes no padding, as the
/// crate documents; the contract states that encoding (`base64_url`).
#[verifier::external_body]
fn base64_url_of(bytes: &[u8]) -> (r: String)
    ensures
        r@ == base64_url(bytes@),
{
    base64::engine::general_purpose::URL_SAFE_NO_PAD.encode(bytes)
}

/// Every digit of a base64 text is in the URL-safe alphabet.
pub proof fn lemma_base64_url_alphabet(bytes: Seq<u8>)
    ensures
        forall|i: int|
            0 <= i < base64_url(bytes).len() ==> is_base64_url_char(#[trigger] base64_url(bytes)[i]),
    decreases bytes.len(),
{
    assert forall|v: int| 0 <= v < 64 implies is_base64_url_char(#[trigger] b64_digit(v)) by {
        if v < 26 {
            assert(((65 + v) as u8) as char as u32 == 65 + v);
        } else if v < 52 {
            assert(((97 + v - 26) as u8) as char as u32 == 97 + v - 26);
        } else if v < 62 {
            assert(((48 + v - 52) as u8) as char as u32 == 48 + v - 52);
        }
    }
    if bytes.len() >= 3 {
        lemma_base64_url_alphabet(bytes.skip(3));
        let b0 = bytes[0] as int;
        let b1 = bytes[1] as int;
        let b2 = bytes[2] as int;
        let head = seq![
            b64_digit(b0 / 4),
            b64_digit((b0 % 4) * 16 + b1 / 16),
            b64_digit((b1 % 16) * 4 + b2 / 64),
            b64_digit(b2 % 64),
        ];
        let r = base64_url(bytes);
        assert(r == head + base64_url(bytes.skip(3)));
        assert forall|i: int| 0 <= i < r.len() implies is_base64_url_char(#[trigger] r[i]) by {
            if i >= 4 {
                assert(r[i] == base64_url(bytes.skip(3))[i - 4]);
            }
        }
    }
}

/// The text that the session HMAC signs.
pub open spec fn session_label() -> Seq<u8> {
    "dashboard-authorized-v1".spec_bytes()
}

/// The value of a valid session cookie: the URL-safe base64 of the HMAC of
/// the session label under the session secret.
pub open spec fn session_value(secret: Seq<char>) -> Seq<char> {
    base64_url(hmac_sha256(vstd::utf8::encode_utf8(secret), session_label()))
}

/// Computes the value of a valid session cookie for `secret`.
pub fn session_value_for(secret: &str) -> (r: String)
    ensures
        r@ == session_value(secret@),
        forall|i: int| 0 <= i < r@.len() ==> is_base64_url_char(#[trigger] r@[i]),
{
    let label = "dashboard-authorized-v1".as_bytes();
    let mac = hmac_sha256_of(secret.as_bytes(), label);
    let r = base64_url_of(mac.as_slice());
    proof {
        lemma_base64_url_alphabet(mac@);
    }
    r
}

/// The password and the session secret of a protected dashboard.
#[derive(Debug, Clone, PartialEq, Eq)]
pub struct Credentials {
    pub password: String,
    pub secret: String,
}

/// Why the dashboard cannot start.
#[derive(Debug, Clone, Copy, PartialEq, Eq)]
pub enum SessionConfigError {
    /// A password is set but the session secret is missing or shorter than
    /// 32 chars, so that session cookies could be forged.
    WeakSecret,
}

/// The shortest session secret accepted, in chars.
pub open spec fn min_secret_len() -> nat {
    32
}

/// The dashboard's access settings from `DASHBOARD_PASSWORD` and
/// `SESSION_SECRET`: an empty or missing password leaves the dashboard open
/// (`None`); a password needs a secret of at least 32 chars.
pub fn session_config(password: Option<String>, secret: Option<String>) -> (r: Result<
    Option<Credentials>,
    SessionConfigError,
>)
    ensures
        match password {
            Some(p) if p@.len() > 0 => match secret {
                Some(k) if k@.len() >= min_secret_len() => r matches Ok(Some(c)) && c.password@
                    == p@ && c.secret@ == k@,
                _ => r == Err::<Option<Credentials>, SessionConfigError>(
                    SessionConfigError::WeakSecret,
                ),
            },
            _ => r matches Ok(None),
        },
{
    match password {
        Some(p) => {
            if p.as_str().is_empty() {
                return Ok(None);
            }
            match secret {
                Some(k) => {
                    if k.as_str().unicode_len() >= 32 {
                        Ok(Some(Credentials { password: p, secret: k }))
                    } else {
                        Err(SessionConfigError::WeakSecret)
                    }
                },
                None => Err(SessionConfigError::WeakSecret),
            }
        },
        None => Ok(None),
    }
}

/// The name of the session cookie and the '=' after it.
pub open spec fn cookie_prefix() -> Seq<char> {
    "dashboard_session="@
}

/// The session cookie in a `Cookie` header, reading the `;`-separated pairs
/// from position `i`: the first pair, trimmed, that is `dashboard_session=`
/// followed by its value.
pub open spec fn session_cookie_from(s: Seq<char>, i: int) -> Option<Seq<char>>
    decreases s.len() - i,
{
    if i < 0 || i > s.len() {
        None
    } else {
        let j = match index_of(s, ';', i) {
            Some(j) => j,
            None => s.len() as int,
        };
        let pair = trim(s.subrange(i, j));
        if starts_with(pair, cookie_prefix()) {
            Some(pair.skip(cookie_prefix().len() as int))
        } else if j < s.len() {
            proof {
                lemma_index_of_bounds(s, ';', i);
            }
            session_cookie_from(s, j + 1)
        } else {
            None
        }
    }
}

/// The session cookie in a `Cookie` header.
pub open spec fn session_cookie_spec(header: Seq<char>) -> Option<Seq<char>> {
    session_cookie_from(header, 0)
}

/// Whether `v[lo..hi]` starts with `p`.
fn range_starts_with(v: &Vec<char>, lo: usize, hi: usize, p: &Vec<char>) -> (r: bool)
    requires
        lo <= hi <= v.len(),
    ensures
        r == starts_with(v@.subrange(lo as int, hi as int), p@),
{
    if p.len() > hi - lo {
        return false;
    }
    let mut k: usize = 0;
    while k < p.len()
        invariant
            lo <= hi <= v.len(),
            p.len() <= hi - lo,
            k <= p.len(),
            forall|t: int| 0 <= t < k ==> v@[lo + t] == p@[t],
        decreases p.len() - k,
    {
        if v[lo + k] != p[k] {
            assert(v@.subrange(lo as int, hi as int).take(p.len() as int)[k as int] != p@[k as int]);
            return false;
        }
        k = k + 1;
    }
    assert(v@.subrange(lo as int, hi as int).take(p.len() as int) =~= p@);
    true
}

/// Reads the session cookie from a `Cookie` header.
pub fn session_cookie(header: &str) -> (r: Option<String>)
    ensures
        match r {
            Some(c) => session_cookie_spec(header@) == Some(c@),
            None => session_cookie_spec(header@) is None,
        },
{
    let v = chars_of(header);
    let prefix = chars_of("dashboard_session=");
    let n = v.len();
    let mut i: usize = 0;
    while i <= n
        invariant
            n == v.len(),
            v@ == header@,
            prefix@ == cookie_prefix(),
            session_cookie_from(v@, i as int) == session_cookie_from(v@, 0),
        decreases n + 1 - i,
    {
        let mut j = i;
        while j < n && v[j] != ';'
            invariant
                i <= j <= n == v.len(),
                index_of(v@, ';', j as int) == index_of(v@, ';', i as int),
            decreases n - j,
        {
            j = j + 1;
        }
        assert(j < n ==> index_of(v@, ';', i as int) == Some(j as int));
        assert(j == n ==> index_of(v@, ';', i as int) is None);
        let (a, b) = trim_bounds(&v, i, j);
        if range_starts_with(&v, a, b, &prefix) {
            let ghost pair = v@.subrange(a as int, b as int);
            assert(pair.skip(prefix.len() as int) =~= v@.subrange(a + prefix.len(), b as int));
            let value = copy_range(&v, a + prefix.len(), b);
            return Some(string_from_chars(&value));
        }
        if j >= n {
            return None;
        }
        i = j + 1;
    }
    None
}

/// Whether a request may read the dashboard: always where it is open, else
/// only with the valid session cookie.
pub fn has_access(creds: &Option<Credentials>, cookie: &Option<String>) -> (r: bool)
    ensures
        r == match creds {
            None => true,
            Some(c) => cookie matches Some(k) && k@ == session_value(c.secret@),
        },
{
    match creds {
        None => true,
        Some(c) => match cookie {
            Some(k) => {
                let expected = session_value_for(c.secret.as_str());
                k.eq(&expected)
            },
            None => false,
        },
    }
}

/// What a login attempt leads to.
#[derive(Debug, Clone, PartialEq, Eq)]
pub enum LoginOutcome {
    /// No password is set: the dashboard is open anyway.
    Open,
    /// The password is right: set this `Set-Cookie` header.
    Accepted(String),
    /// The password is wrong.
    Rejected,
}

/// The `Set-Cookie` header that starts a 30-day session.
pub open spec fn login_cookie_spec(value: Seq<char>) -> Seq<char> {
    cookie_prefix() + value + "; Path=/; HttpOnly; SameSite=Lax; Max-Age=2592000"@
}

/// The `Set-Cookie` header that ends the session.
pub open spec fn logout_cookie_spec() -> Seq<char> {
    cookie_prefix() + "; Path=/; HttpOnly; SameSite=Lax; Max-Age=0"@
}

/// Decides a login attempt with the password `given`.
pub fn login(creds: &Option<Credentials>, given: &str) -> (r: LoginOutcome)
    ensures
        match creds {
            None => r == LoginOutcome::Open,
            Some(c) => if given@ == c.password@ {
                r matches LoginOutcome::Accepted(h) && h@ == login_cookie_spec(
                    session_value(c.secret@),
                )
            } else {
                r == LoginOutcome::Rejected
            },
        },
{
    match creds {
        None => LoginOutcome::Open,
        Some(c) => {
            let g = String::from_str(given);
            if g.eq(&c.password) {
                let value = session_value_for(c.secret.as_str());
                let mut h = String::from_str("dashboard_session=");
                h.append(value.as_str());
                h.append("; Path=/; HttpOnly; SameSite=Lax; Max-Age=2592000");
                LoginOutcome::Accepted(h)
            } else {
                LoginOutcome::Rejected
            }
        },
    }
}

/// The `Set-Cookie` header that logs out.
pub fn logout_cookie() -> (r: String)
    ensures
        r@ == logout_cookie_spec(),
{
    let mut h = String::from_str("dashboard_session=");
    h.append("; Path=/; HttpOnly; SameSite=Lax; Max-Age=0");
    h
}


/// `c` found in `h` from `i` on is found there in `h + t` too; not found in
/// `h`, it is searched for in `t`.
proof fn lemma_index_of_prefix(h: Seq<char>, t: Seq<char>, c: char, i: int)
    requires
        0 <= i <= h.len(),
    ensures
        index_of(h, c, i) matches Some(j) ==> index_of(h + t, c, i) == Some(j) && j < h.len(),
        index_of(h, c, i) is None ==> index_of(h + t, c, i) == index_of(h + t, c, h.len() as int),
    decreases h.len() - i,
{
    if i < h.len() {
        assert((h + t)[i] == h[i]);
        lemma_index_of_prefix(h, t, c, i + 1);
    }
}

/// No `c` from `i` on: nothing is found.
proof fn lemma_lacks_from(s: Seq<char>, c: char, i: int)
    requires
        0 <= i,
        forall|k: int| i <= k < s.len() ==> s[k] != c,
    ensures
        index_of(s, c, i) is None,
    decreases s.len() - i,
{
    if i < s.len() {
        lemma_lacks_from(s, c, i + 1);
    }
}

/// Pairs of a header that hold no session cookie are passed over in a
/// longer header too, up to the ';' that ends them.
proof fn lemma_cookie_pairs_skipped(h: Seq<char>, t: Seq<char>, i: int)
    requires
        0 <= i <= h.len(),
        session_cookie_from(h, i) is None,
        t.len() > 0,
        t[0] == ';',
    ensures
        session_cookie_from(h + t, i) == session_cookie_from(h + t, (h.len() + 1) as int),
    decreases h.len() - i,
{
    let s = h + t;
    lemma_index_of_prefix(h, t, ';', i);
    match index_of(h, ';', i) {
        Some(j) => {
            lemma_index_of_bounds(h, ';', i);
            assert(s.subrange(i, j) =~= h.subrange(i, j));
            lemma_cookie_pairs_skipped(h, t, j + 1);
        },
        None => {
            assert(s[h.len() as int] == ';');
            assert(index_of(s, ';', h.len() as int) == Some(h.len() as int));
            assert(s.subrange(i, h.len() as int) =~= h.subrange(i, h.len() as int));
        },
    }
}

/// The session cookie is found wherever its pair stands: sent after the
/// other cookies of a header, as "; dashboard_session=<value>", it reads
/// as its value (for a value in the URL-safe base64 alphabet, as every
/// session value is).
pub proof fn law_session_cookie_after_other_cookies(h: Seq<char>, value: Seq<char>)
    requires
        session_cookie_spec(h) is None,
        forall|i: int| 0 <= i < value.len() ==> is_base64_url_char(#[trigger] value[i]),
    ensures
        session_cookie_spec(h + "; "@ + cookie_prefix() + value) == Some(value),
{
    reveal_strlit("dashboard_session=");
    reveal_strlit("; ");
    let p = cookie_prefix();
    assert(p =~= seq!['d', 'a', 's', 'h', 'b', 'o', 'a', 'r', 'd', '_', 's', 'e', 's', 's', 'i', 'o', 'n', '=']);
    let x = p + value;
    let t = seq![';', ' '] + x;
    let s = h + t;
    assert("; "@ =~= seq![';', ' ']);
    assert(h + "; "@ + cookie_prefix() + value =~= s);
    lemma_cookie_pairs_skipped(h, t, 0);
    let i: int = (h.len() + 1) as int;
    assert forall|k: int| i <= k < s.len() implies s[k] != ';' by {
        if k == i {
            assert(s[k] == ' ');
        } else if k < i + 1 + p.len() {
            assert(s[k] == p[k - i - 1]);
        } else {
            assert(s[k] == value[k - i - 1 - p.len()]);
            assert(is_base64_url_char(value[k - i - 1 - p.len()]));
        }
    }
    lemma_lacks_from(s, ';', i);
    let raw = s.subrange(i, s.len() as int);
    assert(raw =~= seq![' '] + x);
    assert(raw.drop_first() =~= x);
    assert(trim_start(raw) == trim_start(x));
    assert(x[0] == 'd');
    if value.len() > 0 {
        assert(x.last() == value.last());
        assert(is_base64_url_char(value[value.len() - 1]));
    } else {
        assert(x.last() == '=');
    }
    lemma_trim_noop(x);
    assert(trim(raw) == x);
    assert(x.take(p.len() as int) =~= p);
    assert(x.skip(p.len() as int) =~= value);
}

/// The cookie that a successful login sets comes back as the session: the
/// `Cookie` header `dashboard_session=<value>` reads as `<value>` for any
/// value in the URL-safe base64 alphabet, as every session value is (see
/// `session_value_for`). With that value `has_access` lets the request in.
pub proof fn law_login_cookie_reads_back(value: Seq<char>)
    requires
        forall|i: int| 0 <= i < value.len() ==> is_base64_url_char(#[trigger] value[i]),
    ensures
        session_cookie_spec(cookie_prefix() + value) == Some(value),
{
    reveal_strlit("dashboard_session=");
    let p = cookie_prefix();
    let h = p + value;
    assert(p =~= seq!['d', 'a', 's', 'h', 'b', 'o', 'a', 'r', 'd', '_', 's', 'e', 's', 's', 'i', 'o', 'n', '=']);
    assert forall|k: int| 0 <= k < h.len() implies h[k] != ';' by {
        if k < p.len() {
            assert(h[k] == p[k]);
        } else {
            assert(h[k] == value[k - p.len()]);
            assert(is_base64_url_char(value[k - p.len()]));
        }
    }
    lemma_lacks(h, ';', 0);
    assert(h.subrange(0, h.len() as int) =~= h);
    assert(h[0] == 'd');
    if value.len() > 0 {
        assert(h.last() == value.last());
        assert(is_base64_url_char(value[value.len() - 1]));
    } else {
        assert(h.last() == '=');
    }
    lemma_trim_noop(h);
    assert(h.take(p.len() as int) =~= p);
    assert(h.skip(p.len() as int) =~= value);
}

} // verus!
