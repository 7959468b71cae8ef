use zap_core::auth::{
    auth_with_token_bits, build_auth, has_valid_session, login_is_decodable, login_reply,
    session_cookie, Credentials, LoginReply, SESSION_COOKIE,
};
use zap_core::bridge::{credentials_from, given_text, port_from_java};
use zap_core::json::{entry_json, json_string, list_dir_json, DirEntry, EntryKind};
use zap_core::route::{route, route_is_decodable, HttpMethod, Reply, Route};
use zap_core::search::{
    search_json, text_contains, SearchEntry, SearchWalk, SEARCH_MAX_RESULTS, SEARCH_MAX_SCANNED,
};
use zap_core::server::{
    content_disposition, download_answer, plan_upload, DownloadAnswer, FileCheck, ServerInfo, Stats,
    UploadRefusal,
};

fn creds(user: &str, pass: &str) -> Credentials {
    Credentials { user: user.to_string(), pass: pass.to_string() }
}

const TOKEN_255: &str = "000000000000000000000000000000ff";

#[test]
fn session_token_is_32_hex_digits_of_the_token_bits() {
    let auth = auth_with_token_bits(Some(&creds("bob", "pw")), 255).unwrap();
    assert_eq!(
        session_cookie(&auth),
        format!("zap_session={TOKEN_255}; Path=/; SameSite=Strict; Max-Age=86400")
    );
    let auth = auth_with_token_bits(Some(&creds("bob", "pw")), u128::MAX).unwrap();
    assert_eq!(
        session_cookie(&auth),
        format!("zap_session={}; Path=/; SameSite=Strict; Max-Age=86400", "f".repeat(32))
    );
    assert!(auth_with_token_bits(None, 7).is_none());
    assert_eq!(SESSION_COOKIE, "zap_session");
}

#[test]
fn session_check_needs_the_exact_token() {
    let auth = auth_with_token_bits(Some(&creds("bob", "pw")), 255).unwrap();
    let good = format!("theme=dark; zap_session={TOKEN_255}");
    assert!(has_valid_session(Some(&good), &auth));
    assert!(!has_valid_session(Some("zap_session=000"), &auth));
    assert!(!has_valid_session(Some("other=1"), &auth));
    assert!(!has_valid_session(None, &auth));
}

#[test]
fn cookie_set_by_login_opens_the_session() {
    let auth = build_auth(Some(&creds("bob", "s x"))).unwrap();
    let body = "user=bob&pass=s%20x";
    assert!(login_is_decodable(body));
    match login_reply(body, &auth) {
        LoginReply::Accepted { set_cookie } => {
            assert_eq!(set_cookie, session_cookie(&auth));
            assert!(has_valid_session(Some(&set_cookie), &auth));
        }
        LoginReply::Rejected => panic!("expected the login to be accepted"),
    }
    assert!(build_auth(None).is_none());
}

#[test]
fn wrong_or_missing_credentials_are_rejected() {
    let auth = auth_with_token_bits(Some(&creds("bob", "s x")), 1).unwrap();
    assert!(matches!(login_reply("user=bob&pass=s+y", &auth), LoginReply::Rejected));
    assert!(matches!(login_reply("user=bob", &auth), LoginReply::Rejected));
    assert!(matches!(login_reply("", &auth), LoginReply::Rejected));
    assert!(matches!(login_reply("pass=s+x&user=bob", &auth), LoginReply::Accepted { .. }));
    assert!(!login_is_decodable("user=%a\u{e9}&pass=x"));
}

#[test]
fn open_server_routes() {
    let r = |m, u: &str| route(m, u, None, None);
    assert!(matches!(r(HttpMethod::Get, "/"), Route::Index));
    match r(HttpMethod::Get, "/api/list?path=a%2Fb") {
        Route::List { rel } => assert_eq!(rel, "a/b"),
        other => panic!("unexpected {other:?}"),
    }
    match r(HttpMethod::Get, "/api/list") {
        Route::List { rel } => assert_eq!(rel, ""),
        other => panic!("unexpected {other:?}"),
    }
    match r(HttpMethod::Get, "/api/search?q=hello+world") {
        Route::Search { query } => assert_eq!(query, "hello world"),
        other => panic!("unexpected {other:?}"),
    }
    match r(HttpMethod::Get, "/download?path=docs/a.txt") {
        Route::Download { rel } => assert_eq!(rel, "docs/a.txt"),
        other => panic!("unexpected {other:?}"),
    }
    match r(HttpMethod::Put, "/upload?name=f%20g.txt") {
        Route::Upload { rel, name } => {
            assert_eq!(rel, "");
            assert_eq!(name.as_deref(), Some("f g.txt"));
        }
        other => panic!("unexpected {other:?}"),
    }
    match r(HttpMethod::Put, "/upload?path=x") {
        Route::Upload { rel, name } => {
            assert_eq!(rel, "x");
            assert_eq!(name, None);
        }
        other => panic!("unexpected {other:?}"),
    }
    assert!(matches!(r(HttpMethod::Post, "/login"), Route::NotFound));
    assert!(matches!(r(HttpMethod::Get, "/login"), Route::NotFound));
    assert!(matches!(r(HttpMethod::Get, "/nope"), Route::NotFound));
    assert!(matches!(r(HttpMethod::Post, "/upload"), Route::NotFound));
    assert!(matches!(r(HttpMethod::Other, "/"), Route::NotFound));
}

#[test]
fn secured_server_gates_every_endpoint() {
    let auth = auth_with_token_bits(Some(&creds("bob", "pw")), 255).unwrap();
    let good = format!("zap_session={TOKEN_255}");
    let r = |m, u: &str, c: Option<&str>| route(m, u, Some(&auth), c);
    assert!(matches!(r(HttpMethod::Post, "/login", None), Route::Login));
    assert!(matches!(r(HttpMethod::Post, "/login", Some(&good)), Route::Login));
    assert!(matches!(r(HttpMethod::Get, "/", None), Route::LoginPage));
    assert!(matches!(r(HttpMethod::Get, "/login?x=1", None), Route::LoginPage));
    assert!(matches!(r(HttpMethod::Get, "/api/list", None), Route::Unauthorized));
    assert!(matches!(r(HttpMethod::Put, "/upload?name=a", Some("zap_session=no")), Route::Unauthorized));
    assert!(matches!(r(HttpMethod::Get, "/download?path=a", None), Route::Unauthorized));
    assert!(matches!(r(HttpMethod::Get, "/", Some(&good)), Route::Index));
    assert!(matches!(r(HttpMethod::Get, "/login", Some(&good)), Route::NotFound));
    match r(HttpMethod::Get, "/api/list?path=x", Some(&good)) {
        Route::List { rel } => assert_eq!(rel, "x"),
        other => panic!("unexpected {other:?}"),
    }
}

#[test]
fn routing_flags_undecodable_parameters() {
    assert!(!route_is_decodable(HttpMethod::Get, "/api/list?path=%a\u{e9}", None, None));
    assert!(route_is_decodable(HttpMethod::Get, "/api/list?path=%C3%A9", None, None));
    assert!(route_is_decodable(HttpMethod::Get, "/other?path=%a\u{e9}", None, None));
    let auth = auth_with_token_bits(Some(&creds("u", "p")), 0).unwrap();
    // without a session nothing is decoded
    assert!(route_is_decodable(HttpMethod::Get, "/api/list?path=%a\u{e9}", Some(&auth), None));
}

#[test]
fn json_string_escapes() {
    assert_eq!(json_string("plain"), "\"plain\"");
    assert_eq!(
        json_string("a\"b\\c\nd\te\r\u{1}\u{1f}\u{e9}"),
        "\"a\\\"b\\\\c\\nd\\te\\r\\u0001\\u001f\u{e9}\""
    );
    assert_eq!(json_string(""), "\"\"");
}

#[test]
fn listing_puts_folders_first_then_files_each_by_name() {
    let entries = vec![
        DirEntry { name: "b.txt".into(), kind: EntryKind::File { size: 3 } },
        DirEntry { name: "Zed".into(), kind: EntryKind::Dir },
        DirEntry { name: "A.txt".into(), kind: EntryKind::File { size: 10 } },
        DirEntry { name: "alpha".into(), kind: EntryKind::Dir },
    ];
    assert_eq!(
        list_dir_json("x/./y", Some(&entries)),
        "{\"path\":\"x/y\",\"entries\":[\
            {\"name\":\"alpha\",\"dir\":true},\
            {\"name\":\"Zed\",\"dir\":true},\
            {\"name\":\"A.txt\",\"dir\":false,\"size\":10},\
            {\"name\":\"b.txt\",\"dir\":false,\"size\":3}\
            ]}"
    );
}

#[test]
fn listing_keeps_arrival_order_for_equal_names() {
    let entries = vec![
        DirEntry { name: "b".into(), kind: EntryKind::Dir },
        DirEntry { name: "a".into(), kind: EntryKind::Dir },
        DirEntry { name: "B".into(), kind: EntryKind::Dir },
    ];
    assert_eq!(
        list_dir_json("", Some(&entries)),
        "{\"path\":\"\",\"entries\":[{\"name\":\"a\",\"dir\":true},{\"name\":\"b\",\"dir\":true},{\"name\":\"B\",\"dir\":true}]}"
    );
    assert_eq!(list_dir_json("/", Some(&vec![])), "{\"path\":\"\",\"entries\":[]}");
    assert_eq!(entry_json("q\"", EntryKind::File { size: 0 }), "{\"name\":\"q\\\"\",\"dir\":false,\"size\":0}");
}

#[test]
fn search_walk_records_matching_names() {
    let mut walk = SearchWalk::new("  Foo ");
    assert!(walk.can_continue());
    let hit = Some(SearchEntry {
        rel: Some("dir\\myFOOfile".into()),
        name: "myFOOfile".into(),
        kind: EntryKind::File { size: 5 },
    });
    assert!(!walk.visit(&hit));
    let dir = Some(SearchEntry { rel: Some("bar".into()), name: "bar".into(), kind: EntryKind::Dir });
    assert!(walk.visit(&dir));
    assert!(!walk.visit(&None));
    let folder = Some(SearchEntry { rel: None, name: "food".into(), kind: EntryKind::Dir });
    assert!(walk.visit(&folder));
    assert_eq!(
        walk.finish("  Foo "),
        "{\"query\":\"  Foo \",\"entries\":[\
            {\"path\":\"dir/myFOOfile\",\"name\":\"myFOOfile\",\"dir\":false,\"size\":5},\
            {\"path\":\"\",\"name\":\"food\",\"dir\":true}\
            ]}"
    );
}

#[test]
fn blank_query_searches_nothing() {
    let walk = SearchWalk::new("   ");
    assert!(!walk.can_continue());
    assert_eq!(walk.finish("   "), "{\"query\":\"   \",\"entries\":[]}");
    assert_eq!(search_json("q", &vec!["{}".to_string(), "[]".to_string()]), "{\"query\":\"q\",\"entries\":[{},[]]}");
}

#[test]
fn search_stops_at_the_scan_budget() {
    let mut walk = SearchWalk::new("zzz");
    let mut visits = 0;
    while walk.can_continue() {
        walk.visit(&None);
        visits += 1;
    }
    assert_eq!(visits, SEARCH_MAX_SCANNED);
}

#[test]
fn search_stops_at_the_result_cap() {
    let mut walk = SearchWalk::new("a");
    let mut visits = 0;
    while walk.can_continue() {
        let e = Some(SearchEntry { rel: None, name: "a".into(), kind: EntryKind::File { size: 1 } });
        walk.visit(&e);
        visits += 1;
    }
    assert_eq!(visits, SEARCH_MAX_RESULTS);
}

#[test]
fn text_contains_examples() {
    assert!(text_contains("hello", "ell"));
    assert!(text_contains("hello", ""));
    assert!(!text_contains("hello", "hellos"));
    assert!(!text_contains("", "a"));
}

#[test]
fn server_urls() {
    let info = ServerInfo { dir: "/tmp".into(), port: 8080, lan_ip: Some("192.168.1.5".into()) };
    assert_eq!(info.url(), "http://192.168.1.5:8080/");
    let info = ServerInfo { dir: "/tmp".into(), port: 0, lan_ip: None };
    assert_eq!(info.url(), "http://localhost:0/");
    let info = ServerInfo { dir: "/tmp".into(), port: 65535, lan_ip: None };
    assert_eq!(info.url(), "http://localhost:65535/");
    let info = ServerInfo { dir: "/x".into(), port: 80, lan_ip: Some("::1".into()) };
    assert_eq!(info.url(), "http://[::1]:80/");
    let info = ServerInfo { dir: "/x".into(), port: 80, lan_ip: Some("fe80::1%eth0".into()) };
    assert_eq!(info.url(), "http://[fe80::1%eth0]:80/");
}

#[test]
fn download_disposition() {
    assert_eq!(content_disposition(Some("a\"b.txt")), "attachment; filename=\"ab.txt\"");
    assert_eq!(content_disposition(Some("r\u{e9}sum\u{e9}.pdf")), "attachment; filename=\"r\u{e9}sum\u{e9}.pdf\"");
    assert_eq!(content_disposition(None), "attachment; filename=\"download\"");
}

#[test]
fn upload_plans() {
    let t = plan_upload("docs/./x", Some("a.txt")).unwrap();
    assert_eq!(t.folder, vec!["docs".to_string(), "x".to_string()]);
    assert_eq!(t.name, "a.txt");
    assert_eq!(plan_upload("docs", None).unwrap_err(), UploadRefusal::BadName);
    assert_eq!(plan_upload("docs", Some("a/b")).unwrap_err(), UploadRefusal::BadName);
    assert_eq!(plan_upload("..", Some("a")).unwrap_err(), UploadRefusal::BadPath);
    assert_eq!(plan_upload("..", Some("..")).unwrap_err(), UploadRefusal::BadName);
    assert_eq!(UploadRefusal::BadName.reply(), Reply::BadName);
    assert_eq!(UploadRefusal::BadPath.reply(), Reply::BadPath);
    assert_eq!(Reply::BadName.body(), "Bad or missing name");
    assert_eq!(Reply::BadPath.body(), "Bad path");
    assert_eq!(Reply::BadPath.status(), 400);
}

#[test]
fn stats_count_and_wrap() {
    let mut s = Stats::new();
    assert_eq!(s.bytes_transferred(), 0);
    s.record(5);
    assert_eq!(s.bytes_transferred(), 5);
    s.record(u64::MAX);
    assert_eq!(s.bytes_transferred(), 4);
    assert_eq!(Stats::default().bytes_transferred(), 0);
}

#[test]
fn bridge_values() {
    assert_eq!(given_text(Some(String::new())), None);
    assert_eq!(given_text(Some("x".into())), Some("x".to_string()));
    assert_eq!(given_text(None), None);
    assert!(credentials_from(Some("u".into()), None).is_none());
    assert!(credentials_from(None, Some("p".into())).is_none());
    let c = credentials_from(Some("u".into()), Some("p".into())).unwrap();
    assert_eq!((c.user.as_str(), c.pass.as_str()), ("u", "p"));
    assert_eq!(port_from_java(8080), 8080);
    assert_eq!(port_from_java(70000), 4464);
    assert_eq!(port_from_java(-1), 65535);
}

#[test]
fn fixed_replies() {
    let all = [
        (Reply::Done, 200, "ok"),
        (Reply::BadPath, 400, "Bad path"),
        (Reply::BadName, 400, "Bad or missing name"),
        (Reply::NotFound, 404, "Not found"),
        (Reply::Unauthorized, 401, "Unauthorized"),
        (Reply::BadCredentials, 401, "Incorrect username or password"),
        (Reply::ReadError, 500, "read error"),
        (Reply::UploadFailed, 500, "upload failed"),
    ];
    for (reply, status, body) in all {
        assert_eq!(reply.status(), status);
        assert_eq!(reply.body(), body);
    }
}

#[test]
fn listing_refuses_paths_leaving_the_root() {
    let entries = vec![DirEntry { name: "passwd".into(), kind: EntryKind::File { size: 1 } }];
    let bad = "{\"error\":\"bad path\"}";
    assert_eq!(list_dir_json("../etc", Some(&entries)), bad);
    assert_eq!(list_dir_json("a/../../b", None), bad);
    assert_eq!(list_dir_json("a\\b", Some(&vec![])), bad);
    assert_eq!(list_dir_json("C:/x", None), bad);
}

#[test]
fn listing_of_an_unreadable_folder_is_an_error_object() {
    assert_eq!(list_dir_json("docs", None), "{\"error\":\"cannot read folder\"}");
    assert_eq!(list_dir_json("", None), "{\"error\":\"cannot read folder\"}");
}

#[test]
fn download_answers() {
    let refuse = |a: DownloadAnswer| match a {
        DownloadAnswer::Refuse(r) => Some(r),
        DownloadAnswer::Send { .. } => None,
    };
    assert_eq!(refuse(download_answer("../x", Some(FileCheck::Ready), Some("x"))), Some(Reply::BadPath));
    assert_eq!(refuse(download_answer("../x", None, None)), Some(Reply::BadPath));
    assert_eq!(refuse(download_answer("a.txt", Some(FileCheck::NotAFile), Some("a.txt"))), Some(Reply::NotFound));
    assert_eq!(refuse(download_answer("a.txt", None, None)), Some(Reply::NotFound));
    assert_eq!(refuse(download_answer("a.txt", Some(FileCheck::OpenFailed), Some("a.txt"))), Some(Reply::ReadError));
    match download_answer("d/a.txt", Some(FileCheck::Ready), Some("a.txt")) {
        DownloadAnswer::Send { disposition } => {
            assert_eq!(disposition, "attachment; filename=\"a.txt\"")
        }
        DownloadAnswer::Refuse(r) => panic!("expected the file to be sent, got {r:?}"),
    }
}

#[test]
fn os_random_source_gives_a_session_token() {
    let auth = build_auth(Some(&creds("u", "p"))).unwrap();
    let cookie = session_cookie(&auth);
    let token = &cookie["zap_session=".len().."zap_session=".len() + 32];
    assert!(token.chars().all(|c| c.is_ascii_hexdigit() && !c.is_ascii_uppercase()));
    assert!(has_valid_session(Some(&format!("zap_session={token}")), &auth));
}

/// Reads a JSON string token back (the escapes that RFC 8259 allows).
fn read_json_string(token: &str) -> Option<String> {
    let inner = token.strip_prefix('"')?.strip_suffix('"')?;
    let mut out = String::new();
    let mut chars = inner.chars();
    while let Some(c) = chars.next() {
        match c {
            '"' => return None,
            '\\' => match chars.next()? {
                '"' => out.push('"'),
                '\\' => out.push('\\'),
                '/' => out.push('/'),
                'b' => out.push('\u{8}'),
                'f' => out.push('\u{c}'),
                'n' => out.push('\n'),
                'r' => out.push('\r'),
                't' => out.push('\t'),
                'u' => {
                    let hex: String = (0..4).map(|_| chars.next()).collect::<Option<String>>()?;
                    out.push(char::from_u32(u32::from_str_radix(&hex, 16).ok()?)?);
                }
                _ => return None,
            },
            c if (c as u32) < 0x20 => return None,
            c => out.push(c),
        }
    }
    Some(out)
}

#[test]
fn json_string_reads_back_to_its_input() {
    for s in ["", "plain", "a\"b\\c/d", "\u{0}\u{8}\u{c}\u{1f} \u{7f}", "line\r\nnext\ttab", "r\u{e9}sum\u{e9} \u{1f600}"] {
        assert_eq!(read_json_string(&json_string(s)), Some(s.to_string()));
    }
    assert_eq!(json_string("\u{8}\u{c}"), "\"\\u0008\\u000c\"");
}

/// A folder entry of an in-memory tree: its name, and its entries when it is a folder.
struct Node {
    name: &'static str,
    children: Option<Vec<Node>>,
}

fn walk_tree(prefix: &str, folder: &[Node], walk: &mut SearchWalk) {
    if !walk.can_continue() {
        return;
    }
    for node in folder {
        if !walk.can_continue() {
            return;
        }
        let rel = if prefix.is_empty() { node.name.to_string() } else { format!("{prefix}/{}", node.name) };
        let kind = match node.children {
            Some(_) => EntryKind::Dir,
            None => EntryKind::File { size: 1 },
        };
        let seen = Some(SearchEntry { rel: Some(rel.clone()), name: node.name.to_string(), kind });
        if walk.visit(&seen) {
            walk_tree(&rel, node.children.as_deref().unwrap_or(&[]), walk);
        }
    }
}

#[test]
fn search_finds_every_match_in_a_small_tree() {
    let file = |name| Node { name, children: None };
    let tree = vec![
        Node { name: "Notes", children: Some(vec![file("note.txt"), Node { name: "deep", children: Some(vec![file("NOTE2")]) }]) },
        file("other"),
        file("xnotex"),
    ];
    let mut walk = SearchWalk::new(" note ");
    walk_tree("", &tree, &mut walk);
    assert_eq!(
        walk.finish("note"),
        "{\"query\":\"note\",\"entries\":[\
            {\"path\":\"Notes\",\"name\":\"Notes\",\"dir\":true},\
            {\"path\":\"Notes/note.txt\",\"name\":\"note.txt\",\"dir\":false,\"size\":1},\
            {\"path\":\"Notes/deep/NOTE2\",\"name\":\"NOTE2\",\"dir\":false,\"size\":1},\
            {\"path\":\"xnotex\",\"name\":\"xnotex\",\"dir\":false,\"size\":1}\
            ]}"
    );
}
