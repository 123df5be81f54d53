use proxy_cfg::sysconfig_proxy::{
    get_proxy_config_from_file, read_key_value_pairs, strip_after_quote, FileSnapshot,
};
use proxy_cfg::ProxyError;

fn get<'a>(map: &'a [(String, String)], key: &str) -> Option<&'a str> {
    map.iter().find(|(k, _)| k == key).map(|(_, v)| v.as_str())
}

#[test]
fn test_read_key_value_pairs_from_file() {
    let map = read_key_value_pairs("\nfoo=\"bar\"\nbaz=\"quux\"\n\nspam=\"eggs\"\n\n").unwrap();
    assert!(get(&map, "foo") == Some("bar"));
    assert!(get(&map, "baz") == Some("quux"));
    assert!(get(&map, "spam") == Some("eggs"));

    assert!(read_key_value_pairs("\nfoo=\"bar\"\nbaz \"quux\"\n\nspam=\"eggs\"\n\n").is_err());
}

#[test]
fn test_get_proxy_config() {
    let contents = "HTTP_PROXY=\"http://1.2.3.4\"\nHTTPS_PROXY=\"https://1.2.3.4:8000\"";
    // Missing PROXY_ENABLED.
    assert!(get_proxy_config_from_file(&FileSnapshot::Contents(contents.to_string())).is_err());

    let contents =
        "HTTP_PROXY=\"http://1.2.3.4\"\nHTTPS_PROXY=\"https://1.2.3.4:8000\"\nPROXY_ENABLED=\"no\"";
    assert!(get_proxy_config_from_file(&FileSnapshot::Contents(contents.to_string())).is_ok());

    let contents =
        "HTTP_PROXY=\"http://1.2.3.4\"\nHTTPS_PROXY=\"https://1.2.3.4:8000\"\nPROXY_ENABLED=\"yes\"";
    let config = get_proxy_config_from_file(&FileSnapshot::Contents(contents.to_string()))
        .unwrap()
        .unwrap();
    assert_eq!(get(&config.proxies, "http"), Some("http://1.2.3.4"));
    assert_eq!(get(&config.proxies, "https"), Some("https://1.2.3.4:8000"));
}

#[test]
fn test_whitelist() {
    let contents = "HTTP_PROXY=\"http://1.2.3.4\"\nHTTPS_PROXY=\"https://1.2.3.4:8000\"\nNO_PROXY=\"localhost,1.2.3.4,5.6.7.8\"\nPROXY_ENABLED=\"yes\"";
    let config = get_proxy_config_from_file(&FileSnapshot::Contents(contents.to_string()))
        .unwrap()
        .unwrap();
    for no_proxy in config.whitelist {
        match no_proxy.as_str() {
            "localhost" => (),
            "1.2.3.4" => (),
            "5.6.7.8" => (),
            _ => panic!(
                "Expecting no proxy element to be one of \"localhost\", \"1.2.3.4\", or \"5.6.7.8\""
            ),
        }
    }
}

#[test]
fn test_unquote() {
    assert_eq!(strip_after_quote("foo"), "foo");
    assert_eq!(strip_after_quote("\"foo\""), "");
    assert_eq!(strip_after_quote("\"foo bar"), "");
    assert_eq!(strip_after_quote("foo\"bar"), "foo");
}

#[test]
fn test_with_example_from_specification() {
    let contents = "\nPROXY_ENABLED=\"yes\"\n\nHTTP_PROXY=\"http://192.168.0.1\"\nHTTPS_PROXY=\"http://192.168.0.1\"\nFTP_PROXY=\"http://192.168.0.1\"\nNO_PROXY=\"localhost, 127.0.0.1\"\n";
    let config = get_proxy_config_from_file(&FileSnapshot::Contents(contents.to_string()))
        .unwrap()
        .unwrap();
    assert_eq!(get(&config.proxies, "http"), Some("http://192.168.0.1"));
    assert_eq!(get(&config.proxies, "https"), Some("http://192.168.0.1"));
    assert_eq!(get(&config.proxies, "ftp"), Some("http://192.168.0.1"));
    assert!(config.whitelist.contains(&"localhost".to_string()));
    assert!(config.whitelist.contains(&"127.0.0.1".to_string()));
}

#[test]
fn test_file_without_quoting() {
    let contents = "PROXY_ENABLED=\"yes\"\nHTTP_PROXY=http://localhost";
    match get_proxy_config_from_file(&FileSnapshot::Contents(contents.to_string())) {
        Err(_) => (), // All is fine.
        _ => panic!("Expected error when parsing file without proper quoting"),
    }
}

#[test]
fn test_disabled_file_is_absent_not_fault() {
    // Well-formed proxy keys under PROXY_ENABLED="no": absence, no fault.
    let contents = "PROXY_ENABLED=\"no\"\nHTTP_PROXY=\"http://1.2.3.4\"";
    let outcome = get_proxy_config_from_file(&FileSnapshot::Contents(contents.to_string()));
    assert_eq!(outcome, Ok(None));
}

#[test]
fn test_invalid_enabled_value_is_fault() {
    let contents = "PROXY_ENABLED=\"maybe\"\nHTTP_PROXY=\"http://1.2.3.4\"";
    let outcome = get_proxy_config_from_file(&FileSnapshot::Contents(contents.to_string()));
    assert_eq!(outcome, Err(ProxyError::InvalidConfig));
}

#[test]
fn test_bad_line_faults_whole_file() {
    // One malformed line among well-formed ones faults the whole file.
    let contents = "PROXY_ENABLED=\"yes\"\nHTTP_PROXY=\"http://1.2.3.4\"\nbroken line\nFTP_PROXY=\"http://1.2.3.4\"";
    let outcome = get_proxy_config_from_file(&FileSnapshot::Contents(contents.to_string()));
    assert_eq!(outcome, Err(ProxyError::InvalidConfig));
}

#[test]
fn test_missing_file_is_absent() {
    assert_eq!(get_proxy_config_from_file(&FileSnapshot::Missing), Ok(None));
}

#[test]
fn test_unreadable_file_is_io_fault() {
    assert_eq!(get_proxy_config_from_file(&FileSnapshot::Unreadable), Err(ProxyError::Io));
}

#[test]
fn test_value_runs_to_end_without_closing_quote() {
    // No closing quote: the value is everything to the end of the line.
    let config = get_proxy_config_from_file(&FileSnapshot::Contents(
        "PROXY_ENABLED=\"yes\"\nHTTP_PROXY=\"http://1.2.3.4:8000".to_string(),
    ))
    .unwrap()
    .unwrap();
    assert_eq!(get(&config.proxies, "http"), Some("http://1.2.3.4:8000"));
}

#[test]
fn test_enabled_file_without_proxies_is_absent() {
    // Enabled, well-formed, but no scheme key: an empty proxy mapping is
    // never surfaced as a success.
    let contents = "PROXY_ENABLED=\"yes\"\nNO_PROXY=\"localhost, example.com\"";
    let outcome = get_proxy_config_from_file(&FileSnapshot::Contents(contents.to_string()));
    assert_eq!(outcome, Ok(None));

    let outcome =
        get_proxy_config_from_file(&FileSnapshot::Contents("PROXY_ENABLED=\"yes\"".to_string()));
    assert_eq!(outcome, Ok(None));
}

#[test]
fn test_crlf_line_endings() {
    let contents = "PROXY_ENABLED=\"yes\"\r\nHTTP_PROXY=\"http://1.2.3.4\"\r\n";
    let config = get_proxy_config_from_file(&FileSnapshot::Contents(contents.to_string()))
        .unwrap()
        .unwrap();
    assert_eq!(get(&config.proxies, "http"), Some("http://1.2.3.4"));
}

#[test]
fn test_final_line_keeps_bare_carriage_return() {
    // A trailing carriage return is stripped only as part of a CRLF ending;
    // on a final line with no newline it stays part of the value.
    let map = read_key_value_pairs("foo=\"bar\r").unwrap();
    assert_eq!(get(&map, "foo"), Some("bar\r"));

    let map = read_key_value_pairs("foo=\"bar\r\n").unwrap();
    assert_eq!(get(&map, "foo"), Some("bar"));
}
