use url::fixture::{parse_test_data, unescape};
use url::{SchemeData, Url, UrlParser};

#[test]
fn unescape_simple_escapes() {
    assert_eq!(unescape("a\\tb\\nc"), "a\tb\nc");
    assert_eq!(unescape("\\\\x\\s\\r\\f"), "\\x \r\x0C");
    assert_eq!(unescape("plain"), "plain");
    assert_eq!(unescape(""), "");
}

#[test]
fn unescape_unicode_escapes() {
    assert_eq!(unescape("\\u0041"), "A");
    assert_eq!(unescape("\\u00e9"), "\u{e9}");
    assert_eq!(unescape("a\\u0020b"), "a b");
}

#[test]
fn fixture_lines_become_tests() {
    let data = "# comment\n\
        http://u:p@host:99/a/b?q#f about:blank s:http u:u pass:p h:host port:99 p:/a/b q:?q f:#f\n\
        /rel http://host/x/y s:http h:host p:/rel\n\
        http://host/\\u00e9  s:http h:host p:/%C3%A9\n\
        XFAIL http://h:999999/\n";
    let tests = parse_test_data(data);
    assert_eq!(tests.len(), 4);

    let t = &tests[0];
    assert_eq!(t.input, "http://u:p@host:99/a/b?q#f");
    assert_eq!(t.base, "about:blank");
    assert_eq!(t.scheme, Some("http".to_string()));
    assert_eq!(t.username, "u");
    assert_eq!(t.password, Some("p".to_string()));
    assert_eq!(t.host, "host");
    assert_eq!(t.port, Some(99));
    assert_eq!(t.path, Some("/a/b".to_string()));
    assert_eq!(t.query, Some("?q".to_string()));
    assert_eq!(t.fragment, Some("#f".to_string()));
    assert!(!t.expected_failure);

    // An absent or empty base field inherits the previous line's base.
    assert_eq!(tests[1].base, "http://host/x/y");
    assert_eq!(tests[2].base, "http://host/x/y");
    assert_eq!(tests[2].input, "http://host/\u{e9}");
    assert!(tests[3].expected_failure);
    assert_eq!(tests[3].scheme, None);
}

// One expectation line checked against the parser; the first mismatch or
// parse error ends the comparison.
fn check_expectation(test: &url::fixture::Test) -> Result<(), String> {
    let base = Url::parse(&test.base)
        .unwrap_or_else(|e| panic!("error parsing base {}: {:?}", test.base, e.description()));
    let url = match UrlParser::new().base_url(&base).parse(&test.input) {
        Ok(url) => url,
        Err(e) => return Err(format!("parse error: {:?}", e.description())),
    };
    fn eq<T: PartialEq + std::fmt::Debug>(a: T, b: T) -> Result<(), String> {
        if a == b {
            Ok(())
        } else {
            Err(format!("{:?} != {:?}", a, b))
        }
    }
    eq(Some(url.scheme().to_string()), test.scheme.clone())?;
    match &url.scheme_data {
        SchemeData::Relative(rsd) => {
            eq(rsd.username.clone(), test.username.clone())?;
            eq(rsd.password.clone(), test.password.clone())?;
            eq(rsd.host.serialize(), test.host.clone())?;
            eq(rsd.port, test.port)?;
            eq(Some(format!("/{}", rsd.path.join("/"))), test.path.clone())?;
        },
        SchemeData::NonRelative(data) => {
            eq(Some(data.clone()), test.path.clone())?;
        },
    }
    eq(url.query().map(|q| format!("?{}", q)), test.query.clone())?;
    eq(url.fragment().map(|f| format!("#{}", f)), test.fragment.clone())?;
    Ok(())
}

// The harness the conformance corpus drives: each expectation line is
// checked against the parser; a mismatch or error is tolerated only under
// the XFAIL marker, and an XFAIL line must not silently pass.
#[test]
fn url_parsing_mini_corpus() {
    let data = "\
        http://u:p@host:99/a/b?q#f about:blank s:http u:u pass:p h:host port:99 p:/a/b q:?q f:#f\n\
        /rel http://host/x/y s:http h:host p:/rel\n\
        http://host/\\u00e9  s:http h:host p:/%C3%A9\n\
        XFAIL http://h:999999/ about:blank\n\
        XFAIL http://host:99999/ about:blank s:http h:host p:/\n";
    for test in parse_test_data(data) {
        if test.scheme.is_none() {
            let url = Url::parse(&test.base)
                .and_then(|base| UrlParser::new().base_url(&base).parse(&test.input));
            assert!(
                url.is_err() || test.expected_failure,
                "expected a parse error for URL {}",
                test.input
            );
            continue;
        }
        match check_expectation(&test) {
            Ok(()) => {
                assert!(!test.expected_failure, "unexpected success for {}", test.input);
            },
            Err(msg) => {
                assert!(
                    test.expected_failure,
                    "URL {} failed its expectation: {}",
                    test.input, msg
                );
            },
        }
    }
}
