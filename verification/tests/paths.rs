use zap_core::url::{
    cookie_value, decode_percent, decode_percent_checked, is_plain_filename, normalize_rel,
    percent_decode_bytes, query_param, resolve_within, split_query,
};

#[test]
fn split_query_at_first_question_mark() {
    assert_eq!(split_query("/api/list?path=a/b"), ("/api/list".to_string(), Some("path=a/b")));
    assert_eq!(split_query("/x"), ("/x".to_string(), None));
    assert_eq!(split_query("/a?b?c"), ("/a".to_string(), Some("b?c")));
    assert_eq!(split_query("?"), ("".to_string(), Some("")));
}

#[test]
fn query_param_takes_first_exact_key() {
    let q = Some("a=1&path=x%20y&path=z");
    assert_eq!(query_param(q, "path"), Some("x%20y"));
    assert_eq!(query_param(q, "a"), Some("1"));
    assert_eq!(query_param(q, "pat"), None);
    assert_eq!(query_param(Some("path"), "path"), None);
    assert_eq!(query_param(Some("k==v"), "k"), Some("=v"));
    assert_eq!(query_param(Some("k="), "k"), Some(""));
    assert_eq!(query_param(None, "a"), None);
}

#[test]
fn cookie_value_trims_pairs() {
    assert_eq!(cookie_value("a=1; zap_session=abc ; b=2", "zap_session"), Some("abc"));
    assert_eq!(cookie_value("zap_session", "zap_session"), None);
    assert_eq!(cookie_value("x=1;y=2", "y"), Some("2"));
    assert_eq!(cookie_value("", "y"), None);
}

#[test]
fn decode_percent_examples() {
    assert_eq!(decode_percent("a%20b+c"), "a b c");
    assert_eq!(decode_percent("%zz"), "%zz");
    assert_eq!(decode_percent("%+f"), "% f");
    assert_eq!(decode_percent("%+1"), "% 1");
    assert_eq!(decode_percent("%-1"), "%-1");
    assert_eq!(decode_percent("%4"), "%4");
    assert_eq!(decode_percent("100%"), "100%");
    assert_eq!(decode_percent("%C3%A9t%c3%a9"), "\u{e9}t\u{e9}");
    assert_eq!(decode_percent("%ff"), "\u{fffd}");
    assert_eq!(decode_percent("plain-text_1.txt"), "plain-text_1.txt");
    assert_eq!(percent_decode_bytes("%41+%"), vec![b'A', b' ', b'%']);
}

#[test]
fn decode_percent_refuses_escape_cutting_a_character() {
    assert_eq!(decode_percent_checked("%a\u{e9}x"), None);
    assert_eq!(decode_percent_checked("%\u{e9}x"), Some("%\u{e9}x".to_string()));
    assert_eq!(decode_percent_checked("a%2Fb"), Some("a/b".to_string()));
}

#[test]
fn resolve_within_skips_and_refuses() {
    let v = |xs: &[&str]| xs.iter().map(|s| s.to_string()).collect::<Vec<_>>();
    assert_eq!(resolve_within("a/./b//c"), Some(v(&["a", "b", "c"])));
    assert_eq!(resolve_within(""), Some(vec![]));
    assert_eq!(resolve_within("/"), Some(vec![]));
    assert_eq!(resolve_within("a/../b"), None);
    assert_eq!(resolve_within(".."), None);
    assert_eq!(resolve_within("a\\b"), None);
    assert_eq!(resolve_within("..."), Some(v(&["..."])));
    assert_eq!(resolve_within("C:x"), None);
    assert_eq!(resolve_within("docs/d:"), None);
    assert_eq!(resolve_within("1:x"), Some(v(&["1:x"])));
    assert_eq!(resolve_within("x:"), None);
    assert_eq!(resolve_within("ab:c"), Some(v(&["ab:c"])));
}

#[test]
fn normalize_rel_examples() {
    assert_eq!(normalize_rel("/a/./b/"), "a/b");
    assert_eq!(normalize_rel(""), "");
    assert_eq!(normalize_rel("./."), "");
    assert_eq!(normalize_rel("x//y"), "x/y");
}

#[test]
fn resolved_path_agrees_with_normalized_path() {
    for rel in ["a/./b//c", "", "x/y/", "./q"] {
        let segs = resolve_within(rel).unwrap();
        assert_eq!(segs.join("/"), normalize_rel(rel));
        for s in &segs {
            assert!(is_plain_filename(s));
        }
    }
}

#[test]
fn plain_filenames() {
    assert!(is_plain_filename("a.txt"));
    assert!(is_plain_filename("..."));
    assert!(!is_plain_filename(""));
    assert!(!is_plain_filename("."));
    assert!(!is_plain_filename(".."));
    assert!(!is_plain_filename("a/b"));
    assert!(!is_plain_filename("a\\b"));
    assert!(!is_plain_filename("C:x"));
    assert!(is_plain_filename(":x"));
    assert_eq!(resolve_within("a.txt"), Some(vec!["a.txt".to_string()]));
}

#[test]
fn normalizing_twice_changes_nothing() {
    for rel in ["/a/./b/", "", "./.", "x//y", "a/../b", "..//./..."] {
        let once = normalize_rel(rel);
        assert_eq!(normalize_rel(&once), once);
    }
    assert_eq!(normalize_rel("a/../b"), "a/../b");
}
