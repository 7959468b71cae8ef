//! Session authentication: credentials, the per-run session token, the login
//! form and the session cookie.
use vstd::prelude::*;
use vstd::utf8::encode_utf8;
use crate::text::{
    digit_char, hex_fixed, is_whitespace, lemma_split_first, push_hex_fixed, split, str_eq, trim,
    trim_start, utf8_lossy,
};
use crate::url::{
    cookie_value, decode_percent, lemma_find_char_at, pair_value, percent_decode,
    percent_decode_cuts, percent_decode_cuts_char, query_param, spec_cookie_value,
    spec_query_param,
};

verus! {

broadcast use vstd::string::group_string_axioms;

/// A username/password pair for authentication.
#[derive(Debug, Clone)]
pub struct Credentials {
    pub user: String,
    pub pass: String,
}

/// Runtime auth state: the expected credentials plus a session token minted
/// at startup from 128 bits of the operating system's random source, so it
/// cannot be guessed. A client only receives the token (as a cookie) after
/// posting the correct credentials to `/login`.
pub struct Auth {
    user: String,
    pass: String,
    token: String,
}

/// What an [`Auth`] holds.
pub struct AuthView {
    pub user: Seq<char>,
    pub pass: Seq<char>,
    pub token: Seq<char>,
}

impl View for Auth {
    type V = AuthView;

    closed spec fn view(&self) -> AuthView {
        AuthView { user: self.user@, pass: self.pass@, token: self.token@ }
    }
}

/// The name of the session cookie.
pub const SESSION_COOKIE: &'static str = "zap_session";

/// Lower-case hexadecimal digit.
pub open spec fn is_lower_hex(c: char) -> bool {
    ('0' <= c && c <= '9') || ('a' <= c && c <= 'f')
}

/// A session token as this server mints them: 32 lower-case hex digits.
pub open spec fn is_session_token(t: Seq<char>) -> bool {
    t.len() == 32 && forall|i: int| 0 <= i < t.len() ==> is_lower_hex(#[trigger] t[i])
}

/// The session token minted from the 128 bits `bits`: their 32 lower-case
/// hex digits, zero-padded.
pub open spec fn spec_session_token(bits: u128) -> Seq<char> {
    hex_fixed(bits as nat, 32)
}

proof fn lemma_hex_fixed_is_hex(n: nat, width: nat)
    ensures
        hex_fixed(n, width).len() == width,
        forall|i: int| 0 <= i < width ==> is_lower_hex(#[trigger] hex_fixed(n, width)[i]),
    decreases width,
{
    if width > 0 {
        lemma_hex_fixed_is_hex(n / 16, (width - 1) as nat);
        assert(is_lower_hex(digit_char(n % 16)));
    }
}

/// The `Set-Cookie` value that an accepted login sends.
pub open spec fn spec_session_cookie(token: Seq<char>) -> Seq<char> {
    "zap_session="@ + token + "; Path=/; SameSite=Strict; Max-Age=86400"@
}

/// The `Auth` for `creds`, with the token minted from the 128 bits `bits`.
pub fn auth_with_token_bits(creds: Option<&Credentials>, bits: u128) -> (r: Option<Auth>)
    ensures
        match creds {
            Some(c) => r is Some && r->0@.user == c.user@ && r->0@.pass == c.pass@ && r->0@.token
                == spec_session_token(bits),
            None => r is None,
        },
        r is Some ==> is_session_token(r->0@.token),
{
    match creds {
        Some(c) => {
            let mut token = String::new();
            push_hex_fixed(&mut token, bits, 32);
            proof {
                lemma_hex_fixed_is_hex(bits as nat, 32);
                assert(token@ =~= spec_session_token(bits));
            }
            Some(Auth { user: c.user.clone(), pass: c.pass.clone(), token })
        },
        None => None,
    }
}

/// 128 bits from `getrandom::getrandom` (the operating system's random
/// source), or `None` when that source fails. The bits are random: nothing is
/// stated of their value.
#[verifier::external_body]
fn os_random_bits() -> (r: Option<u128>) {
    let mut bytes = [0u8; 16];
    match getrandom::getrandom(&mut bytes) {
        Ok(()) => Some(u128::from_le_bytes(bytes)),
        Err(_) => None,
    }
}

/// Nanoseconds since the Unix epoch by the system clock (`SystemTime::now`,
/// `duration_since(UNIX_EPOCH)`, `as_nanos`), or 0 when the clock reads
/// before the epoch. The reading depends on the time: nothing is stated of it.
#[verifier::external_body]
fn clock_nanos() -> (r: u128) {
    std::time::SystemTime::now()
        .duration_since(std::time::UNIX_EPOCH)
        .map(|d| d.as_nanos())
        .unwrap_or(0)
}

/// Builds the auth state, minting a fresh session token per run. With
/// credentials, the token is the hex of 128 bits drawn from the operating
/// system's random source; should that source fail, the system clock's
/// reading in nanoseconds stands in, so the server still starts. Without
/// credentials there is no session gate.
pub fn build_auth(creds: Option<&Credentials>) -> (r: Option<Auth>)
    ensures
        match creds {
            Some(c) => r is Some && r->0@.user == c.user@ && r->0@.pass == c.pass@
                && is_session_token(r->0@.token) && exists|bits: u128|
                r->0@.token == #[trigger] spec_session_token(bits),
            None => r is None,
        },
{
    match creds {
        Some(_) => {
            let bits = match os_random_bits() {
                Some(b) => b,
                None => clock_nanos(),
            };
            auth_with_token_bits(creds, bits)
        },
        None => None,
    }
}

/// The `Set-Cookie` value that hands the session token to a client.
pub fn session_cookie(auth: &Auth) -> (r: String)
    ensures
        r@ == spec_session_cookie(auth@.token),
{
    let mut r = "zap_session=".to_owned();
    r.append(auth.token.as_str());
    r.append("; Path=/; SameSite=Strict; Max-Age=86400");
    r
}

/// Whether a request whose `Cookie:` header is `cookie_header` carries the session.
pub open spec fn spec_has_valid_session(cookie_header: Option<Seq<char>>, auth: AuthView) -> bool {
    match cookie_header {
        Some(h) => spec_cookie_value(h, "zap_session"@) == Some(auth.token),
        None => false,
    }
}

/// True if the `Cookie:` header carries a `zap_session` cookie matching the token.
pub fn has_valid_session(cookie_header: Option<&str>, auth: &Auth) -> (r: bool)
    ensures
        r == spec_has_valid_session(
            match cookie_header {
                Some(h) => Some(h@),
                None => None,
            },
            auth@,
        ),
{
    match cookie_header {
        Some(h) => match cookie_value(h, SESSION_COOKIE) {
            Some(v) => str_eq(v, auth.token.as_str()),
            None => false,
        },
        None => false,
    }
}

/// How the server answers a login form post.
pub enum LoginReply {
    /// The credentials match: answer `ok` and set this cookie.
    Accepted { set_cookie: String },
    /// They do not: answer 401.
    Rejected,
}

/// The decoded value of form field `key` in `body`, if the field is there.
pub open spec fn form_field(body: Seq<char>, key: Seq<char>) -> Option<Seq<char>> {
    match spec_query_param(Some(body), key) {
        Some(v) => Some(utf8_lossy(percent_decode(encode_utf8(v)))),
        None => None,
    }
}

/// Whether decoding form field `key` of `body` would slice an escape out of a character.
pub open spec fn form_field_cuts(body: Seq<char>, key: Seq<char>) -> bool {
    match spec_query_param(Some(body), key) {
        Some(v) => percent_decode_cuts_char(encode_utf8(v)),
        None => false,
    }
}

/// Whether a login form body presents the expected credentials.
pub open spec fn spec_login_accepted(body: Seq<char>, auth: AuthView) -> bool {
    form_field(body, "user"@) == Some(auth.user) && form_field(body, "pass"@) == Some(auth.pass)
}

/// Whether the fields of a login form body can be decoded.
pub open spec fn login_decodable(body: Seq<char>) -> bool {
    !form_field_cuts(body, "user"@) && !form_field_cuts(body, "pass"@)
}

fn decoded_field(body: &str, key: &str) -> (r: Option<String>)
    requires
        !form_field_cuts(body@, key@),
    ensures
        match r {
            Some(v) => form_field(body@, key@) == Some(v@),
            None => form_field(body@, key@) is None,
        },
{
    match query_param(Some(body), key) {
        Some(v) => Some(decode_percent(v)),
        None => None,
    }
}

/// Whether the user and password fields of a login form body can be decoded.
pub fn login_is_decodable(body: &str) -> (r: bool)
    ensures
        r == login_decodable(body@),
{
    let u = match query_param(Some(body), "user") {
        Some(v) => percent_decode_cuts(v),
        None => false,
    };
    let p = match query_param(Some(body), "pass") {
        Some(v) => percent_decode_cuts(v),
        None => false,
    };
    !u && !p
}

/// Handles a login form post (`user=..&pass=..`): on matching credentials the
/// reply sets the session cookie; otherwise it is a rejection.
pub fn login_reply(body: &str, auth: &Auth) -> (r: LoginReply)
    requires
        login_decodable(body@),
    ensures
        match r {
            LoginReply::Accepted { set_cookie } => spec_login_accepted(body@, auth@)
                && set_cookie@ == spec_session_cookie(auth@.token),
            LoginReply::Rejected => !spec_login_accepted(body@, auth@),
        },
{
    let user = decoded_field(body, "user");
    let pass = decoded_field(body, "pass");
    let ok = match (&user, &pass) {
        (Some(u), Some(p)) => *u == auth.user && *p == auth.pass,
        _ => false,
    };
    if ok {
        LoginReply::Accepted { set_cookie: session_cookie(auth) }
    } else {
        LoginReply::Rejected
    }
}

// ---------------------------------------------------------------------------
// Laws
// ---------------------------------------------------------------------------

/// The cookie that an accepted login sets names the session token again:
/// reading `zap_session` back from it gives the token.
pub proof fn law_session_cookie_round_trip(token: Seq<char>)
    requires
        is_session_token(token),
    ensures
        spec_cookie_value(spec_session_cookie(token), "zap_session"@) == Some(token),
{
    reveal_strlit("zap_session=");
    reveal_strlit("zap_session");
    reveal_strlit("; Path=/; SameSite=Strict; Max-Age=86400");
    let head = "zap_session="@ + token;
    let tail = " Path=/; SameSite=Strict; Max-Age=86400"@;
    reveal_strlit(" Path=/; SameSite=Strict; Max-Age=86400");
    assert(spec_session_cookie(token) =~= head + seq![';'] + tail);
    assert forall|i: int| 0 <= i < head.len() implies head[i] != ';' by {
        if i >= 12 {
            assert(head[i] == token[i - 12]);
        }
    }
    lemma_split_first(head, ';', tail);
    let pieces = split(spec_session_cookie(token), ';');
    assert(pieces[0] == head);
    // the piece is already trimmed
    assert(!is_whitespace(head[0]));
    assert(trim_start(head) == head);
    assert(head.last() == token[31]);
    assert(!is_whitespace(head.last()));
    assert(trim(head) == head);
    // its first '=' follows the cookie name
    assert forall|j: int| 0 <= j < 11 implies head[j] != '=' by {}
    assert(head[11] == '=');
    lemma_find_char_at(head, '=', 11);
    assert(head.take(11) =~= "zap_session"@);
    assert(head.skip(12) =~= token);
    assert(pair_value(trim(pieces[0]), "zap_session"@) == Some(token));
}

/// A client that presents the cookie set by an accepted login holds a valid
/// session: logging in with the right credentials lets the next request in.
pub proof fn law_accepted_login_opens_session(body: Seq<char>, auth: AuthView, set_cookie: Seq<char>)
    requires
        is_session_token(auth.token),
        spec_login_accepted(body, auth),
        set_cookie == spec_session_cookie(auth.token),
    ensures
        spec_has_valid_session(Some(set_cookie), auth),
{
    law_session_cookie_round_trip(auth.token);
}

} // verus!
