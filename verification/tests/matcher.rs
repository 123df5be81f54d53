use proxy_cfg::ProxyConfig;
use url::Url;

fn pairs(entries: &[(&str, &str)]) -> Vec<(String, String)> {
    entries.iter().map(|(k, v)| (k.to_string(), v.to_string())).collect()
}

fn names(entries: &[&str]) -> Vec<String> {
    entries.iter().map(|s| s.to_string()).collect()
}

#[test]
fn test_get_proxy_for_url() {
    let proxy_config = ProxyConfig {
        proxies: pairs(&[("http", "1.1.1.1"), ("https", "2.2.2.2")]),
        whitelist: names(&["www.devolutions.net", "*.microsoft.com", "*apple.com"]),
        exclude_simple: true,
    };

    assert_eq!(
        proxy_config.get_proxy_for_url(&Url::parse("http://simpledomain").unwrap()),
        None
    );
    assert_eq!(
        proxy_config.get_proxy_for_url(&Url::parse("http://simple.domain").unwrap()),
        Some("1.1.1.1".into())
    );
    assert_eq!(
        proxy_config.get_proxy_for_url(&Url::parse("http://www.devolutions.net").unwrap()),
        None
    );
    assert_eq!(
        proxy_config.get_proxy_for_url(&Url::parse("http://www.microsoft.com").unwrap()),
        None
    );
    assert_eq!(
        proxy_config.get_proxy_for_url(&Url::parse("http://www.microsoft.com.fun").unwrap()),
        Some("1.1.1.1".into())
    );
    assert_eq!(
        proxy_config.get_proxy_for_url(&Url::parse("http://test.apple.com").unwrap()),
        None
    );
    assert_eq!(
        proxy_config.get_proxy_for_url(&Url::parse("https://test.apple.net").unwrap()),
        Some("2.2.2.2".into())
    );
}

#[test]
fn test_wildcard_matching_edge_cases() {
    let proxy_config = ProxyConfig {
        proxies: pairs(&[("http", "1.1.1.1")]),
        whitelist: names(&[
            "*test*.com",        // Multiple asterisks.
            "*.sub.example.com", // Wildcard at start.
            "*",                 // Single asterisk: empty suffix, never matches.
            "foo*",              // Wildcard at end: empty suffix, never matches.
            "*.org",             // Simple wildcard domain.
        ]),
        exclude_simple: false,
    };

    // Multiple asterisks: the rightmost one counts, so the suffix is ".com".
    assert_eq!(
        proxy_config.get_proxy_for_url(&Url::parse("http://example.com").unwrap()),
        None
    );
    assert_eq!(
        proxy_config.get_proxy_for_url(&Url::parse("http://whatever.com").unwrap()),
        None
    );
    assert_eq!(
        proxy_config.get_proxy_for_url(&Url::parse("http://notmatching.net").unwrap()),
        Some("1.1.1.1".into())
    );

    // The *.sub.example.com pattern.
    assert_eq!(
        proxy_config.get_proxy_for_url(&Url::parse("http://foo.sub.example.com").unwrap()),
        None
    );
    assert_eq!(
        proxy_config.get_proxy_for_url(&Url::parse("http://sub.example.com").unwrap()),
        None
    );

    // A bare "*" has an empty suffix and must not bypass anything.
    assert_eq!(
        proxy_config.get_proxy_for_url(&Url::parse("http://anything.xyz").unwrap()),
        Some("1.1.1.1".into())
    );

    // "foo*" likewise has an empty suffix after its rightmost asterisk.
    assert_eq!(
        proxy_config.get_proxy_for_url(&Url::parse("http://foobar.xyz").unwrap()),
        Some("1.1.1.1".into())
    );

    // The *.org pattern.
    assert_eq!(
        proxy_config.get_proxy_for_url(&Url::parse("http://example.org").unwrap()),
        None
    );
    assert_eq!(
        proxy_config.get_proxy_for_url(&Url::parse("http://test.example.org").unwrap()),
        None
    );
}

#[test]
fn test_use_proxy_for_address_case_insensitivity() {
    let proxy_config = ProxyConfig {
        proxies: pairs(&[("http", "1.1.1.1")]),
        // Whitelist entries are normalized to lowercase by every source.
        whitelist: names(&["*.example.com", "test.local"]),
        exclude_simple: false,
    };

    // Hostnames are matched case-insensitively.
    assert!(!proxy_config.use_proxy_for_address("http://sub.example.com"));
    assert!(!proxy_config.use_proxy_for_address("http://SUB.EXAMPLE.COM"));
    assert!(!proxy_config.use_proxy_for_address("http://Sub.Example.Com"));
    assert!(!proxy_config.use_proxy_for_address("http://test.local"));
    assert!(!proxy_config.use_proxy_for_address("http://TEST.LOCAL"));
    assert!(!proxy_config.use_proxy_for_address("http://Test.Local"));
    assert!(proxy_config.use_proxy_for_address("http://other.domain"));
}

#[test]
fn test_exclude_simple_hostnames() {
    let proxy_config = ProxyConfig {
        proxies: pairs(&[("http", "1.1.1.1")]),
        whitelist: Vec::new(),
        exclude_simple: true,
    };

    // Simple hostnames (no dots) bypass the proxy.
    assert!(!proxy_config.use_proxy_for_address("http://localhost"));
    assert!(!proxy_config.use_proxy_for_address("http://intranet"));

    // Hostnames with dots use the proxy.
    assert!(proxy_config.use_proxy_for_address("http://example.com"));
    assert!(proxy_config.use_proxy_for_address("http://sub.example.com"));
}

#[test]
fn test_wildcard_requires_leading_match() {
    let proxy_config = ProxyConfig {
        proxies: pairs(&[("http", "1.1.1.1")]),
        whitelist: names(&["*.example.com"]),
        exclude_simple: false,
    };

    // The suffix ".example.com" matches a.example.com but not example.com
    // itself, which lacks the required leading dot.
    assert!(!proxy_config.use_proxy_for_address("http://a.example.com"));
    assert!(proxy_config.use_proxy_for_address("http://example.com"));
}

#[test]
fn test_scheme_fallback_to_star() {
    let proxy_config = ProxyConfig {
        proxies: pairs(&[("*", "9.9.9.9")]),
        whitelist: Vec::new(),
        exclude_simple: false,
    };

    // No "http" key: the "*" entry answers for every scheme.
    assert_eq!(
        proxy_config.proxy_for_address("http://simple.domain", "http"),
        Some("9.9.9.9".to_string())
    );
    assert_eq!(
        proxy_config.get_proxy_for_url(&Url::parse("ftp://simple.domain").unwrap()),
        Some("9.9.9.9".to_string())
    );
}

#[test]
fn test_no_entry_for_scheme_means_direct() {
    let proxy_config = ProxyConfig {
        proxies: pairs(&[("http", "1.1.1.1")]),
        whitelist: Vec::new(),
        exclude_simple: false,
    };

    // Neither an "https" nor a "*" key: direct connection, not an error.
    assert_eq!(proxy_config.proxy_for_address("https://example.com", "https"), None);
}

#[test]
fn test_endpoint_is_lowercased() {
    let proxy_config = ProxyConfig {
        proxies: pairs(&[("http", "PROXY.Example.COM:8080")]),
        whitelist: Vec::new(),
        exclude_simple: false,
    };

    assert_eq!(
        proxy_config.proxy_for_address("http://example.net", "http"),
        Some("proxy.example.com:8080".to_string())
    );
}

#[test]
fn test_unparseable_destination_is_literal_hostname() {
    let proxy_config = ProxyConfig {
        proxies: pairs(&[("http", "1.1.1.1")]),
        whitelist: names(&["plain-name.example.com"]),
        exclude_simple: false,
    };

    // Not a URL at all: the whole string is the hostname.
    assert!(!proxy_config.use_proxy_for_address("plain-name.example.com"));
    assert!(proxy_config.use_proxy_for_address("other-name.example.com"));
}

#[test]
fn test_should_bypass_host_takes_host_verbatim() {
    let proxy_config = ProxyConfig {
        proxies: pairs(&[("http", "1.1.1.1")]),
        whitelist: names(&["example.com"]),
        exclude_simple: false,
    };

    // The host is judged exactly as given, with no URL parsing or lowering.
    assert!(proxy_config.should_bypass_host("example.com"));
    assert!(!proxy_config.should_bypass_host("EXAMPLE.COM"));
    assert!(!proxy_config.should_bypass_host("http://example.com"));
}

#[test]
fn test_proxy_for_host_picks_scheme_entry() {
    let proxy_config = ProxyConfig {
        proxies: pairs(&[("http", "1.1.1.1"), ("https", "2.2.2.2")]),
        whitelist: names(&["skip.me"]),
        exclude_simple: false,
    };

    assert_eq!(proxy_config.proxy_for_host("example.com", "https"), Some("2.2.2.2".to_string()));
    assert_eq!(proxy_config.proxy_for_host("skip.me", "https"), None);
    assert_eq!(proxy_config.proxy_for_host("example.com", "ftp"), None);
}

#[test]
fn test_default_config_is_empty() {
    let config = ProxyConfig::default();
    assert!(config.proxies.is_empty());
    assert!(config.whitelist.is_empty());
    assert!(!config.exclude_simple);
    // No proxy entries: lookups find nothing, so connections are direct,
    // though no whitelist entry bypasses either.
    assert_eq!(config.proxy_for_address("http://example.com", "http"), None);
    assert!(config.use_proxy_for_address("http://example.com"));
}
