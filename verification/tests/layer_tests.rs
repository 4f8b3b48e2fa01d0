//! Tests of the attribute layer over the extended-attribute store, of the
//! io-error mapping, and of the shell-name parser.

use wutag::opt::Shell;
use wutag::{clear_tags, list_tags, list_tags_btree, remove_tag, tag_file, tags_include_all};
use wutag::{Error, IoKind};

fn attrs() -> Vec<(String, String)> {
    vec![
        ("user.rutag.2021".to_string(), "work".to_string()),
        ("user.other".to_string(), "noise".to_string()),
        ("user.rutag.2022".to_string(), "play".to_string()),
        ("user.rutag.2023".to_string(), "work".to_string()),
    ]
}

#[test]
fn lists_only_namespaced_values() {
    assert_eq!(
        list_tags(&attrs()),
        vec!["work".to_string(), "play".to_string(), "work".to_string()]
    );
    assert_eq!(list_tags(&vec![]), Vec::<String>::new());
}

#[test]
fn btree_listing_deduplicates() {
    let tags = list_tags_btree(&attrs());
    assert_eq!(tags.len(), 2);
    assert!(tags.contains(&"work".to_string()));
    assert!(tags.contains(&"play".to_string()));
}

#[test]
fn tagging_rejects_an_existing_tag() {
    assert!(matches!(tag_file(&attrs(), "work"), Err(Error::TagExists)));
    assert!(tag_file(&attrs(), "new").is_ok());
    // a value outside the namespace does not count as a tag
    assert!(tag_file(&attrs(), "noise").is_ok());
}

#[test]
fn removing_returns_the_first_matching_key() {
    assert_eq!(remove_tag(&attrs(), "work").unwrap(), "user.rutag.2021");
    assert_eq!(remove_tag(&attrs(), "play").unwrap(), "user.rutag.2022");
    assert!(matches!(remove_tag(&attrs(), "gone"), Err(Error::TagNotFound)));
    assert!(matches!(remove_tag(&attrs(), "noise"), Err(Error::TagNotFound)));
}

#[test]
fn clearing_returns_all_namespaced_keys() {
    assert_eq!(
        clear_tags(&attrs()),
        vec![
            "user.rutag.2021".to_string(),
            "user.rutag.2022".to_string(),
            "user.rutag.2023".to_string(),
        ]
    );
}

#[test]
fn subset_check_for_searches() {
    let found = vec!["a".to_string(), "b".to_string()];
    assert!(tags_include_all(&vec!["a".to_string()], &found));
    assert!(tags_include_all(&vec!["b".to_string(), "a".to_string()], &found));
    assert!(!tags_include_all(&vec!["c".to_string()], &found));
    assert!(tags_include_all(&vec![], &found));
}

#[test]
fn maps_io_failures() {
    assert!(matches!(
        Error::from_io(IoKind::NotFound, None, "m".to_string()),
        Error::FileNotFound
    ));
    assert!(matches!(
        Error::from_io(IoKind::AlreadyExists, None, "m".to_string()),
        Error::TagExists
    ));
    assert!(matches!(
        Error::from_io(IoKind::Other, Some(61), "m".to_string()),
        Error::TagNotFound
    ));
    match Error::from_io(IoKind::Other, Some(5), "boom".to_string()) {
        Error::Other(m) => assert_eq!(m, "boom"),
        _ => panic!("expected the raw message"),
    }
    match Error::from_io(IoKind::Other, None, "quiet".to_string()) {
        Error::Other(m) => assert_eq!(m, "quiet"),
        _ => panic!("expected the raw message"),
    }
}

#[test]
fn parses_shell_names() {
    assert_eq!(Shell::from_name("bash"), Some(Shell::Bash));
    assert_eq!(Shell::from_name("BASH"), Some(Shell::Bash));
    assert_eq!(Shell::from_name("elvish"), Some(Shell::Elvish));
    assert_eq!(Shell::from_name("Fish"), Some(Shell::Fish));
    assert_eq!(Shell::from_name("PowerShell"), Some(Shell::PowerShell));
    assert_eq!(Shell::from_name("zsh"), Some(Shell::Zsh));
    assert_eq!(Shell::from_name("tcsh"), None);
    assert_eq!("zSH".parse::<Shell>(), Ok(Shell::Zsh));
    assert_eq!(
        "nushell".parse::<Shell>(),
        Err("invalid shell `nushell`".to_string())
    );
}
