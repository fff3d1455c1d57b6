use url::{FilePath, Host, Url};

#[test]
fn file_paths() {
    assert_eq!(Url::from_file_path(&FilePath::posix("relative")), Err(()));
    assert_eq!(Url::from_file_path(&FilePath::posix("../relative")), Err(()));
    assert_eq!(Url::from_file_path(&FilePath::windows("relative")), Err(()));
    assert_eq!(Url::from_file_path(&FilePath::windows(r"..\relative")), Err(()));
    assert_eq!(Url::from_file_path(&FilePath::windows(r"\drive-relative")), Err(()));
    assert_eq!(Url::from_file_path(&FilePath::windows(r"\\ucn\")), Err(()));

    let mut url = Url::from_file_path(&FilePath::posix("/foo/bar")).ok().unwrap();
    assert_eq!(url.host(), Some(&Host::Domain("".to_string())));
    assert_eq!(url.path(), Some(&vec!["foo".to_string(), "bar".to_string()]));
    assert!(url.to_file_path(false) == Ok(FilePath::posix("/foo/bar")));

    url.path_mut().unwrap()[1] = "ba\0r".to_string();
    assert!(url.to_file_path(false) == Err(()));

    url.path_mut().unwrap()[1] = "ba%00r".to_string();
    assert!(url.to_file_path(false) == Err(()));

    // Invalid UTF-8 passes through as raw bytes.
    url.path_mut().unwrap()[1] = "ba%80r".to_string();
    assert!(
        url.to_file_path(false)
            == Ok(FilePath { windows: false, bytes: b"/foo/ba\x80r".to_vec() })
    );

    let mut url = Url::from_file_path(&FilePath::windows(r"C:\foo\bar")).ok().unwrap();
    assert_eq!(url.host(), Some(&Host::Domain("".to_string())));
    assert_eq!(
        url.path(),
        Some(&vec!["C:".to_string(), "foo".to_string(), "bar".to_string()])
    );
    assert!(url.to_file_path(true) == Ok(FilePath::windows(r"C:\foo\bar")));

    url.path_mut().unwrap()[2] = "ba\0r".to_string();
    assert!(url.to_file_path(true) == Err(()));

    url.path_mut().unwrap()[2] = "ba%00r".to_string();
    assert!(url.to_file_path(true) == Err(()));

    // Invalid UTF-8: a Windows path must be valid text.
    url.path_mut().unwrap()[2] = "ba%80r".to_string();
    assert!(url.to_file_path(true) == Err(()));
}

#[test]
fn directory_paths() {
    assert_eq!(Url::from_directory_path(&FilePath::posix("relative")), Err(()));
    assert_eq!(Url::from_directory_path(&FilePath::posix("../relative")), Err(()));
    assert_eq!(Url::from_directory_path(&FilePath::windows("relative")), Err(()));
    assert_eq!(Url::from_directory_path(&FilePath::windows(r"..\relative")), Err(()));
    assert_eq!(Url::from_directory_path(&FilePath::windows(r"\drive-relative")), Err(()));
    assert_eq!(Url::from_directory_path(&FilePath::windows(r"\\ucn\")), Err(()));

    let url = Url::from_directory_path(&FilePath::posix("/foo/bar")).ok().unwrap();
    assert_eq!(url.host(), Some(&Host::Domain("".to_string())));
    assert_eq!(
        url.path(),
        Some(&vec!["foo".to_string(), "bar".to_string(), "".to_string()])
    );

    let url = Url::from_directory_path(&FilePath::windows(r"C:\foo\bar")).ok().unwrap();
    assert_eq!(url.host(), Some(&Host::Domain("".to_string())));
    assert_eq!(
        url.path(),
        Some(&vec![
            "C:".to_string(),
            "foo".to_string(),
            "bar".to_string(),
            "".to_string()
        ])
    );
}

#[test]
fn file_url_serializes_with_trailing_slash() {
    let url = Url::from_directory_path(&FilePath::posix("/foo/bar")).ok().unwrap();
    assert_eq!(url.to_string(), "file:///foo/bar/");
    let url = Url::from_file_path(&FilePath::posix("/foo/bar")).ok().unwrap();
    assert_eq!(url.to_string(), "file:///foo/bar");
}

#[test]
fn file_path_special_bytes_are_encoded() {
    let url = Url::from_file_path(&FilePath::posix("/a b/c#d")).ok().unwrap();
    assert_eq!(url.path(), Some(&vec!["a%20b".to_string(), "c%23d".to_string()]));
    assert!(url.to_file_path(false) == Ok(FilePath::posix("/a b/c#d")));
}

#[test]
fn to_file_path_rejects_wrong_scheme_and_host() {
    let url = Url::parse("http://example.com/foo").unwrap();
    assert!(url.to_file_path(false) == Err(()));
    let url = Url::parse("file://host/foo").unwrap();
    assert!(url.to_file_path(false) == Err(()));
}

// The file-path bridge hands back raw decoded bytes while the form codec
// substitutes the replacement character for the same invalid sequence.
#[test]
fn decoding_asymmetry_between_paths_and_forms() {
    let mut url = Url::from_file_path(&FilePath::posix("/foo/bar")).ok().unwrap();
    url.path_mut().unwrap()[1] = "ba%80r".to_string();
    assert!(
        url.to_file_path(false)
            == Ok(FilePath { windows: false, bytes: b"/foo/ba\x80r".to_vec() })
    );
    let pairs = url::form_urlencoded::parse(b"k=ba%80r");
    assert_eq!(pairs, vec![("k".to_string(), "ba\u{fffd}r".to_string())]);
}
