use browservoy::url::{Scheme, Url};
use browservoy::{ConfigError, FetchError};

#[test]
fn parse_url() {
    let result = Url::new("https://example.org/index.html").unwrap();

    assert_eq!(result.scheme, Scheme::Https);
    assert_eq!(result.host, "example.org:443");
    assert_eq!(result.hostname, "example.org");
    assert_eq!(result.path, "/index.html");

    let result = Url::new("http://www.example.org/example/index.html").unwrap();

    assert_eq!(result.scheme, Scheme::Http);
    assert_eq!(result.host, "www.example.org:80");
    assert_eq!(result.hostname, "www.example.org");
    assert_eq!(result.path, "/example/index.html");

    let result = Url::new("HTTPS://www.example.org/").unwrap();

    assert_eq!(result.scheme, Scheme::Https);

    let result = Url::new("HTTPS://www.example.org").unwrap();

    assert_eq!(result.path, "/");

    let result = Url::new("www.example.org").unwrap();

    assert_eq!(result.hostname, "www.example.org");

    let result = Url::new("www.example.org:8080").unwrap();

    assert_eq!(result.hostname, "www.example.org");
    assert_eq!(result.host, "www.example.org:8080");
    assert_eq!(result.port, 8080);
}

#[test]
fn scheme_case_is_ignored() {
    let upper = Url::new("HTTPS://x").unwrap();
    let lower = Url::new("https://x").unwrap();

    assert_eq!(upper.scheme, lower.scheme);
    assert_eq!(upper.hostname, lower.hostname);
    assert_eq!(upper.host, lower.host);
    assert_eq!(upper.port, lower.port);
    assert_eq!(upper.path, lower.path);

    let mixed = Url::new("hTtP://example.org").unwrap();
    assert_eq!(mixed.scheme, Scheme::Http);
}

#[test]
fn default_ports_by_scheme() {
    assert_eq!(Url::new("https://example.org").unwrap().port, 443);
    assert_eq!(Url::new("http://example.org").unwrap().port, 80);
    assert_eq!(Url::new("file:///tmp/x").unwrap().port, 80);
    assert_eq!(Url::new("example.org").unwrap().port, 443);
    assert_eq!(Url::new("https://example.org:8443").unwrap().port, 8443);
}

#[test]
fn unknown_scheme_is_reparsed_whole() {
    // "localhost" is no scheme, so the colon is no scheme delimiter: the
    // whole string is reparsed as host and port.
    let result = Url::new("localhost:8000/path").unwrap();

    assert_eq!(result.scheme, Scheme::Https);
    assert_eq!(result.hostname, "localhost");
    assert_eq!(result.port, 8000);
    assert_eq!(result.path, "/path");
}

#[test]
fn malformed_port_is_config_error() {
    assert!(matches!(
        Url::new("www.example.org:8o80"),
        Err(FetchError::Config(ConfigError::InvalidPort))
    ));
    assert!(matches!(
        Url::new("https://example.org:"),
        Err(FetchError::Config(ConfigError::InvalidPort))
    ));
    assert!(matches!(
        Url::new("https://example.org:70000"),
        Err(FetchError::Config(ConfigError::InvalidPort))
    ));
}

#[test]
fn extract_splits_scheme_from_remainder() {
    assert_eq!(
        Scheme::extract("https://example.org/x"),
        (Scheme::Https, "//example.org/x")
    );
    assert_eq!(Scheme::extract("FILE:///tmp"), (Scheme::File, "///tmp"));
    assert_eq!(Scheme::extract("example.org"), (Scheme::Https, "example.org"));
    assert_eq!(
        Scheme::extract("localhost:8000"),
        (Scheme::Https, "localhost:8000")
    );
}

#[test]
fn path_and_host_split() {
    let result = Url::new("https://example.org:8080/a/b?q=1").unwrap();

    assert_eq!(result.hostname, "example.org");
    assert_eq!(result.port, 8080);
    assert_eq!(result.host, "example.org:8080");
    assert_eq!(result.path, "/a/b?q=1");
}

#[test]
fn leading_zeros_in_port_are_accepted() {
    let result = Url::new("example.org:08080").unwrap();

    assert_eq!(result.port, 8080);
    assert_eq!(result.host, "example.org:8080");
}

#[test]
fn host_case_is_preserved() {
    let result = Url::new("https://EXAMPLE.org/Path").unwrap();

    assert_eq!(result.hostname, "EXAMPLE.org");
    assert_eq!(result.host, "EXAMPLE.org:443");
    assert_eq!(result.path, "/Path");
}
