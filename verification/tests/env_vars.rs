use url::Url;

fn snapshot(entries: &[(&str, &str)]) -> Vec<(String, String)> {
    entries.iter().map(|(k, v)| (k.to_string(), v.to_string())).collect()
}

#[test]
fn test_env_basic() {
    let vars = snapshot(&[
        ("HTTP_PROXY", "127.0.0.1"),
        ("HTTPS_PROXY", "candybox2.github.io"),
        ("FTP_PROXY", "http://9-eyes.com"),
        ("NO_PROXY", ""),
    ]);

    let proxies = snapshot(&[
        ("http", "127.0.0.1"),
        ("https", "candybox2.github.io"),
        ("ftp", "http://9-eyes.com"),
    ]);

    let env_var_proxies = proxy_cfg::env::get_proxy_config(&vars).unwrap().proxies;
    assert_eq!(env_var_proxies.len(), 3);
    assert_eq!(env_var_proxies, proxies);
}

#[test]
fn test_env_whitelist() {
    let vars = snapshot(&[
        ("HTTP_PROXY", "127.0.0.1"),
        ("HTTPS_PROXY", "candybox2.github.io"),
        ("FTP_PROXY", "http://9-eyes.com"),
        ("NO_PROXY", "google.com, 192.168.0.1, localhost, https://github.com/"),
    ]);

    let proxy_config = proxy_cfg::env::get_proxy_config(&vars).unwrap();

    assert_eq!(
        proxy_config.get_proxy_for_url(&Url::parse("http://google.com").unwrap()),
        None
    );
    assert_eq!(
        proxy_config.get_proxy_for_url(&Url::parse("https://localhost").unwrap()),
        None
    );
    assert_eq!(
        proxy_config
            .get_proxy_for_url(&Url::parse("https://bitbucket.org").unwrap())
            .unwrap(),
        "candybox2.github.io"
    );
}

#[test]
fn test_env_names_are_case_insensitive() {
    let vars = snapshot(&[("http_proxy", "1.1.1.1"), ("HTTPS_Proxy", "2.2.2.2")]);
    let config = proxy_cfg::env::get_proxy_config(&vars).unwrap();
    assert_eq!(config.proxies, snapshot(&[("http", "1.1.1.1"), ("https", "2.2.2.2")]));
}

#[test]
fn test_env_later_value_overwrites_earlier() {
    let vars = snapshot(&[("HTTP_PROXY", "1.1.1.1"), ("http_proxy", "3.3.3.3")]);
    let config = proxy_cfg::env::get_proxy_config(&vars).unwrap();
    assert_eq!(config.proxies, snapshot(&[("http", "3.3.3.3")]));
}

#[test]
fn test_env_only_no_proxy_is_absent() {
    // A whitelist alone does not make the environment configured.
    let vars = snapshot(&[("NO_PROXY", "localhost, example.com")]);
    assert_eq!(proxy_cfg::env::get_proxy_config(&vars), None);
}

#[test]
fn test_env_whitelist_pieces_trimmed_lowercased() {
    let vars = snapshot(&[("HTTP_PROXY", "1.1.1.1"), ("NO_PROXY", "  Example.COM ,, LOCALHOST")]);
    let config = proxy_cfg::env::get_proxy_config(&vars).unwrap();
    // Pieces are trimmed and lowercased; empty pieces are dropped.
    assert_eq!(config.whitelist, vec!["example.com".to_string(), "localhost".to_string()]);
}

#[test]
fn test_env_unrelated_variables_ignored() {
    let vars = snapshot(&[("PATH", "/usr/bin"), ("HOME", "/root")]);
    assert_eq!(proxy_cfg::env::get_proxy_config(&vars), None);
}

#[test]
fn test_whitelist_trims_unicode_whitespace() {
    // str::trim removes any Unicode whitespace, not only ASCII spaces.
    let vars = snapshot(&[("HTTP_PROXY", "1.1.1.1"), ("NO_PROXY", "\u{A0}example.com\u{2003}")]);
    let config = proxy_cfg::env::get_proxy_config(&vars).unwrap();
    assert_eq!(config.whitelist, vec!["example.com".to_string()]);
}
