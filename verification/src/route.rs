//! Request routing: which endpoint a request reaches, given its method, its
//! URL, the server's authentication state and the request's session cookie.
use vstd::prelude::*;
use vstd::utf8::encode_utf8;
use crate::auth::{spec_has_valid_session, has_valid_session, Auth, AuthView};
use crate::text::{str_eq, utf8_lossy};
use crate::url::{
    decode_percent, percent_decode, percent_decode_cuts, percent_decode_cuts_char, query_param,
    spec_query_param, spec_split_query, split_query,
};

verus! {

broadcast use vstd::string::group_string_axioms;

/// The request methods that routing tells apart.
#[derive(PartialEq, Eq, Structural, Clone, Copy, Debug)]
pub enum HttpMethod {
    Get,
    Post,
    Put,
    Other,
}

/// Where a request goes.
#[derive(Debug)]
pub enum Route {
    /// `POST /login` on a secured server: check the posted credentials.
    Login,
    /// The login page, for a client without a session.
    LoginPage,
    /// Any other request from a client without a session: 401.
    Unauthorized,
    /// `GET /`: the web UI.
    Index,
    /// `GET /api/list?path=..`: list a folder.
    List { rel: String },
    /// `GET /api/search?q=..`: search the shared tree.
    Search { query: String },
    /// `GET /download?path=..`: send a file.
    Download { rel: String },
    /// `PUT /upload?path=..&name=..`: store the body as a file.
    Upload { rel: String, name: Option<String> },
    /// Anything else: 404.
    NotFound,
}

/// A [`Route`] with its texts as character sequences.
pub enum RouteView {
    Login,
    LoginPage,
    Unauthorized,
    Index,
    List { rel: Seq<char> },
    Search { query: Seq<char> },
    Download { rel: Seq<char> },
    Upload { rel: Seq<char>, name: Option<Seq<char>> },
    NotFound,
}

impl View for Route {
    type V = RouteView;

    open spec fn view(&self) -> RouteView {
        match self {
            Route::Login => RouteView::Login,
            Route::LoginPage => RouteView::LoginPage,
            Route::Unauthorized => RouteView::Unauthorized,
            Route::Index => RouteView::Index,
            Route::List { rel } => RouteView::List { rel: rel@ },
            Route::Search { query } => RouteView::Search { query: query@ },
            Route::Download { rel } => RouteView::Download { rel: rel@ },
            Route::Upload { rel, name } => RouteView::Upload {
                rel: rel@,
                name: match name {
                    Some(n) => Some(n@),
                    None => None,
                },
            },
            Route::NotFound => RouteView::NotFound,
        }
    }
}

/// The percent-decoded value of query parameter `key`, if present.
pub open spec fn decoded_param(query: Option<Seq<char>>, key: Seq<char>) -> Option<Seq<char>> {
    match spec_query_param(query, key) {
        Some(v) => Some(utf8_lossy(percent_decode(encode_utf8(v)))),
        None => None,
    }
}

/// The percent-decoded value of query parameter `key`, or empty when absent.
pub open spec fn decoded_param_or_empty(query: Option<Seq<char>>, key: Seq<char>) -> Seq<char> {
    match decoded_param(query, key) {
        Some(v) => v,
        None => Seq::<char>::empty(),
    }
}

/// Whether decoding query parameter `key` would slice an escape out of a character.
pub open spec fn param_cuts(query: Option<Seq<char>>, key: Seq<char>) -> bool {
    match spec_query_param(query, key) {
        Some(v) => percent_decode_cuts_char(encode_utf8(v)),
        None => false,
    }
}

/// Whether the request gets past the session gate to the endpoints.
pub open spec fn passes_gate(auth: Option<AuthView>, cookie: Option<Seq<char>>) -> bool {
    match auth {
        Some(a) => spec_has_valid_session(cookie, a),
        None => true,
    }
}

/// Where a request goes. With authentication on, `POST /login` goes to the
/// login handler and a request without a valid session only ever sees the
/// login page (`GET /` or `GET /login`) or a 401.
pub open spec fn spec_route(
    method: HttpMethod,
    url: Seq<char>,
    auth: Option<AuthView>,
    cookie: Option<Seq<char>>,
) -> RouteView {
    let path = spec_split_query(url).0;
    let query = spec_split_query(url).1;
    if auth is Some && method == HttpMethod::Post && path == "/login"@ {
        RouteView::Login
    } else if !passes_gate(auth, cookie) {
        if method == HttpMethod::Get && (path == "/"@ || path == "/login"@) {
            RouteView::LoginPage
        } else {
            RouteView::Unauthorized
        }
    } else if method == HttpMethod::Get && path == "/"@ {
        RouteView::Index
    } else if method == HttpMethod::Get && path == "/api/list"@ {
        RouteView::List { rel: decoded_param_or_empty(query, "path"@) }
    } else if method == HttpMethod::Get && path == "/api/search"@ {
        RouteView::Search { query: decoded_param_or_empty(query, "q"@) }
    } else if method == HttpMethod::Get && path == "/download"@ {
        RouteView::Download { rel: decoded_param_or_empty(query, "path"@) }
    } else if method == HttpMethod::Put && path == "/upload"@ {
        RouteView::Upload {
            rel: decoded_param_or_empty(query, "path"@),
            name: decoded_param(query, "name"@),
        }
    } else {
        RouteView::NotFound
    }
}

/// Whether every parameter that routing decodes for this request can be decoded.
pub open spec fn route_decodable(
    method: HttpMethod,
    url: Seq<char>,
    auth: Option<AuthView>,
    cookie: Option<Seq<char>>,
) -> bool {
    let path = spec_split_query(url).0;
    let query = spec_split_query(url).1;
    if auth is Some && method == HttpMethod::Post && path == "/login"@ {
        true
    } else if !passes_gate(auth, cookie) {
        true
    } else if method == HttpMethod::Get && path == "/api/list"@ {
        !param_cuts(query, "path"@)
    } else if method == HttpMethod::Get && path == "/api/search"@ {
        !param_cuts(query, "q"@)
    } else if method == HttpMethod::Get && path == "/download"@ {
        !param_cuts(query, "path"@)
    } else if method == HttpMethod::Put && path == "/upload"@ {
        !param_cuts(query, "path"@) && !param_cuts(query, "name"@)
    } else {
        true
    }
}

pub open spec fn auth_view(auth: Option<&Auth>) -> Option<AuthView> {
    match auth {
        Some(a) => Some(a@),
        None => None,
    }
}

pub open spec fn opt_view(s: Option<&str>) -> Option<Seq<char>> {
    match s {
        Some(x) => Some(x@),
        None => None,
    }
}

fn param_cut(query: Option<&str>, key: &str) -> (r: bool)
    ensures
        r == param_cuts(opt_view(query), key@),
{
    match query_param(query, key) {
        Some(v) => percent_decode_cuts(v),
        None => false,
    }
}

fn param(query: Option<&str>, key: &str) -> (r: Option<String>)
    requires
        !param_cuts(opt_view(query), key@),
    ensures
        match r {
            Some(v) => decoded_param(opt_view(query), key@) == Some(v@),
            None => decoded_param(opt_view(query), key@) is None,
        },
{
    match query_param(query, key) {
        Some(v) => Some(decode_percent(v)),
        None => None,
    }
}

fn param_or_empty(query: Option<&str>, key: &str) -> (r: String)
    requires
        !param_cuts(opt_view(query), key@),
    ensures
        r@ == decoded_param_or_empty(opt_view(query), key@),
{
    match param(query, key) {
        Some(v) => v,
        None => String::new(),
    }
}

fn gate(auth: Option<&Auth>, cookie_header: Option<&str>) -> (r: bool)
    ensures
        r == passes_gate(auth_view(auth), opt_view(cookie_header)),
{
    match auth {
        Some(a) => has_valid_session(cookie_header, a),
        None => true,
    }
}

/// Whether `route` can decode every parameter it needs for this request.
pub fn route_is_decodable(
    method: HttpMethod,
    raw_url: &str,
    auth: Option<&Auth>,
    cookie_header: Option<&str>,
) -> (r: bool)
    ensures
        r == route_decodable(method, raw_url@, auth_view(auth), opt_view(cookie_header)),
{
    let (path, query) = split_query(raw_url);
    let p = path.as_str();
    if auth.is_some() && method == HttpMethod::Post && str_eq(p, "/login") {
        true
    } else if !gate(auth, cookie_header) {
        true
    } else if method == HttpMethod::Get && str_eq(p, "/api/list") {
        !param_cut(query, "path")
    } else if method == HttpMethod::Get && str_eq(p, "/api/search") {
        !param_cut(query, "q")
    } else if method == HttpMethod::Get && str_eq(p, "/download") {
        !param_cut(query, "path")
    } else if method == HttpMethod::Put && str_eq(p, "/upload") {
        !param_cut(query, "path") && !param_cut(query, "name")
    } else {
        true
    }
}

/// Where a request goes, from its method, its raw URL, the server's auth state
/// and the value of its `Cookie:` header.
pub fn route(method: HttpMethod, raw_url: &str, auth: Option<&Auth>, cookie_header: Option<&str>) -> (r:
    Route)
    requires
        route_decodable(method, raw_url@, auth_view(auth), opt_view(cookie_header)),
    ensures
        r@ == spec_route(method, raw_url@, auth_view(auth), opt_view(cookie_header)),
{
    let (path, query) = split_query(raw_url);
    let p = path.as_str();
    if auth.is_some() && method == HttpMethod::Post && str_eq(p, "/login") {
        return Route::Login;
    }
    if !gate(auth, cookie_header) {
        if method == HttpMethod::Get && (str_eq(p, "/") || str_eq(p, "/login")) {
            return Route::LoginPage;
        }
        return Route::Unauthorized;
    }
    if method == HttpMethod::Get && str_eq(p, "/") {
        Route::Index
    } else if method == HttpMethod::Get && str_eq(p, "/api/list") {
        Route::List { rel: param_or_empty(query, "path") }
    } else if method == HttpMethod::Get && str_eq(p, "/api/search") {
        Route::Search { query: param_or_empty(query, "q") }
    } else if method == HttpMethod::Get && str_eq(p, "/download") {
        Route::Download { rel: param_or_empty(query, "path") }
    } else if method == HttpMethod::Put && str_eq(p, "/upload") {
        Route::Upload { rel: param_or_empty(query, "path"), name: param(query, "name") }
    } else {
        Route::NotFound
    }
}

/// The short plain-text answers the server gives.
#[derive(PartialEq, Eq, Structural, Clone, Copy, Debug)]
pub enum Reply {
    /// A finished upload or an accepted login.
    Done,
    /// A path outside the shared root.
    BadPath,
    /// A missing or unusable upload name.
    BadName,
    /// No such endpoint or file.
    NotFound,
    /// No valid session.
    Unauthorized,
    /// Wrong credentials posted to the login form.
    BadCredentials,
    /// A file that could not be opened for download.
    ReadError,
    /// An upload that could not be written.
    UploadFailed,
}

impl Reply {
    /// The HTTP status code of this answer.
    pub fn status(&self) -> (r: u16)
        ensures
            r == match self {
                Reply::Done => 200u16,
                Reply::BadPath => 400u16,
                Reply::BadName => 400u16,
                Reply::NotFound => 404u16,
                Reply::Unauthorized => 401u16,
                Reply::BadCredentials => 401u16,
                Reply::ReadError => 500u16,
                Reply::UploadFailed => 500u16,
            },
    {
        match self {
            Reply::Done => 200,
            Reply::BadPath => 400,
            Reply::BadName => 400,
            Reply::NotFound => 404,
            Reply::Unauthorized => 401,
            Reply::BadCredentials => 401,
            Reply::ReadError => 500,
            Reply::UploadFailed => 500,
        }
    }

    /// The body text of this answer.
    pub fn body(&self) -> (r: &'static str)
        ensures
            r@ == match self {
                Reply::Done => "ok"@,
                Reply::BadPath => "Bad path"@,
                Reply::BadName => "Bad or missing name"@,
                Reply::NotFound => "Not found"@,
                Reply::Unauthorized => "Unauthorized"@,
                Reply::BadCredentials => "Incorrect username or password"@,
                Reply::ReadError => "read error"@,
                Reply::UploadFailed => "upload failed"@,
            },
    {
        match self {
            Reply::Done => "ok",
            Reply::BadPath => "Bad path",
            Reply::BadName => "Bad or missing name",
            Reply::NotFound => "Not found",
            Reply::Unauthorized => "Unauthorized",
            Reply::BadCredentials => "Incorrect username or password",
            Reply::ReadError => "read error",
            Reply::UploadFailed => "upload failed",
        }
    }
}

// ---------------------------------------------------------------------------
// Laws
// ---------------------------------------------------------------------------

/// On a secured server, a request without a valid session reaches no file
/// endpoint: it is sent to the login handler, the login page or a 401.
pub proof fn law_no_session_no_files(
    method: HttpMethod,
    url: Seq<char>,
    auth: AuthView,
    cookie: Option<Seq<char>>,
)
    requires
        !spec_has_valid_session(cookie, auth),
    ensures
        spec_route(method, url, Some(auth), cookie) is Login || spec_route(
            method,
            url,
            Some(auth),
            cookie,
        ) is LoginPage || spec_route(method, url, Some(auth), cookie) is Unauthorized,
{
}

/// An open server (no credentials) never asks for a login.
pub proof fn law_open_server_needs_no_login(method: HttpMethod, url: Seq<char>, cookie: Option<Seq<char>>)
    ensures
        !(spec_route(method, url, None, cookie) is Login),
        !(spec_route(method, url, None, cookie) is LoginPage),
        !(spec_route(method, url, None, cookie) is Unauthorized),
{
}

/// The session gate looks at the cookie only: with a valid session, a secured
/// server routes every request but `POST /login` as an open server does.
pub proof fn law_session_routes_as_open(
    method: HttpMethod,
    url: Seq<char>,
    auth: AuthView,
    cookie: Option<Seq<char>>,
)
    requires
        spec_has_valid_session(cookie, auth),
        !(method == HttpMethod::Post && spec_split_query(url).0 == "/login"@),
    ensures
        spec_route(method, url, Some(auth), cookie) == spec_route(method, url, None, cookie),
{
}

/// Every endpoint reads its parameters the same way: for a request past the
/// session gate, the `path` of a listing, a download and an upload, the `q` of
/// a search and the `name` of an upload are the raw query values with their
/// percent escapes and `+` decoded (UTF-8, lossily), an absent `path` or `q`
/// being empty.
pub proof fn law_parameters_are_percent_decoded(
    url: Seq<char>,
    auth: Option<AuthView>,
    cookie: Option<Seq<char>>,
)
    requires
        passes_gate(auth, cookie),
    ensures
        ({
            let path = spec_split_query(url).0;
            let query = spec_split_query(url).1;
            let rel = match spec_query_param(query, "path"@) {
                Some(v) => utf8_lossy(percent_decode(encode_utf8(v))),
                None => Seq::<char>::empty(),
            };
            let q = match spec_query_param(query, "q"@) {
                Some(v) => utf8_lossy(percent_decode(encode_utf8(v))),
                None => Seq::<char>::empty(),
            };
            let name = match spec_query_param(query, "name"@) {
                Some(v) => Some(utf8_lossy(percent_decode(encode_utf8(v)))),
                None => None,
            };
            &&& path == "/api/list"@ ==> spec_route(HttpMethod::Get, url, auth, cookie)
                == RouteView::List { rel }
            &&& path == "/download"@ ==> spec_route(HttpMethod::Get, url, auth, cookie)
                == RouteView::Download { rel }
            &&& path == "/api/search"@ ==> spec_route(HttpMethod::Get, url, auth, cookie)
                == RouteView::Search { query: q }
            &&& path == "/upload"@ ==> spec_route(HttpMethod::Put, url, auth, cookie)
                == RouteView::Upload { rel, name }
        }),
{
    reveal_strlit("/api/list");
    reveal_strlit("/download");
    reveal_strlit("/api/search");
    reveal_strlit("/upload");
    reveal_strlit("/");
    reveal_strlit("/login");
    assert("/api/list"@.len() == 9 && "/download"@.len() == 9 && "/api/search"@.len() == 11);
    assert("/upload"@.len() == 7 && "/"@.len() == 1 && "/login"@.len() == 6);
    assert("/api/list"@[1] != "/download"@[1]);
}

} // verus!
