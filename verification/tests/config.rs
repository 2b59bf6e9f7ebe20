use pve_meta_traefik::config::{default_listen, default_prefix, default_timeout};
use pve_meta_traefik::config::{Config, Loading, Pve};

fn config(url: &str, secret: Option<&str>, file: Option<&str>) -> Config {
    Config {
        pve: Pve {
            url: url.to_string(),
            token_id: "traefik@pve!meta".to_string(),
            token_secret: secret.map(|s| s.to_string()),
            token_secret_file: file.map(|s| s.to_string()),
            insecure: true,
            ca_file: Some("/ca.pem".to_string()),
            timeout_seconds: 3,
        },
        prefix: "p.q".to_string(),
        cidrs: vec![],
        listen: "0.0.0.0:1".to_string(),
        cache_ttl_seconds: 7,
    }
}

#[test]
fn the_secret_of_the_environment_comes_first() {
    match config("https://h:8006///", Some("own"), Some("/f")).load(Some("env".to_string())) {
        Loading::Done(c) => {
            assert_eq!(c.pve.token_secret, Some("env".to_string()));
            assert_eq!(c.pve.url, "https://h:8006");
            assert_eq!(c.pve.token_id, "traefik@pve!meta");
            assert_eq!(c.pve.token_secret_file, Some("/f".to_string()));
            assert!(c.pve.insecure);
            assert_eq!(c.pve.ca_file, Some("/ca.pem".to_string()));
            assert_eq!(c.pve.timeout_seconds, 3);
            assert_eq!(c.prefix, "p.q");
            assert!(c.cidrs.is_empty());
            assert_eq!(c.listen, "0.0.0.0:1");
            assert_eq!(c.cache_ttl_seconds, 7);
        }
        _ => panic!("not loaded"),
    }
}

#[test]
fn then_the_secret_of_the_configuration() {
    match config("https://h", Some("own"), Some("/f")).load(None) {
        Loading::Done(c) => assert_eq!(c.pve.token_secret, Some("own".to_string())),
        _ => panic!("not loaded"),
    }
}

#[test]
fn then_the_file_that_holds_the_secret() {
    match config("https://h/", None, Some("/f")).load(None) {
        Loading::ReadSecret { config, file } => {
            assert_eq!(file, "/f");
            assert_eq!(config.pve.url, "https://h");
            let config = config.with_secret(" \u{2003}a b\r\n");
            assert_eq!(config.pve.token_secret, Some("a b".to_string()));
            assert_eq!(config.pve.url, "https://h");
            assert_eq!(config.prefix, "p.q");
        }
        _ => panic!("nothing to read"),
    }
}

#[test]
fn a_configuration_without_a_secret_is_refused() {
    assert!(matches!(
        config("https://h", None, None).load(None),
        Loading::NoSecret
    ));
}

#[test]
fn what_a_configuration_leaves_out_has_a_default() {
    assert_eq!(default_prefix(), "traefik");
    assert_eq!(default_listen(), "127.0.0.1:8087");
    assert_eq!(default_timeout(), 10);
}
