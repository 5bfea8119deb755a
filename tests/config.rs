use netidx_sub::config::{validate, AuthKind, ConfigError, ServerEntry};

fn e(loopback: bool, auth: AuthKind) -> ServerEntry {
    ServerEntry { loopback, unspecified: false, multicast: false, auth }
}

#[test]
fn config_refuses_unusable_addresses() {
    let u = ServerEntry { loopback: false, unspecified: true, multicast: false, auth: AuthKind::Tls("r".to_string()) };
    assert_eq!(validate(&vec![u], false), Err(ConfigError::UnspecifiedAddress));
    let m = ServerEntry { loopback: false, unspecified: false, multicast: true, auth: AuthKind::Anonymous };
    assert_eq!(validate(&vec![e(false, AuthKind::Anonymous), m], true), Err(ConfigError::MulticastAddress));
}

#[test]
fn config_needs_an_address() {
    assert_eq!(validate(&vec![], true), Err(ConfigError::NoAddresses));
}

#[test]
fn config_entry_rules() {
    assert_eq!(validate(&vec![e(false, AuthKind::Tls("r".to_string()))], false), Err(ConfigError::TlsWithoutCaCerts));
    assert_eq!(validate(&vec![e(false, AuthKind::Tls("r".to_string()))], true), Ok(()));
    assert_eq!(validate(&vec![e(false, AuthKind::Local("/s".to_string()))], true), Err(ConfigError::LocalAuthRemote));
    assert_eq!(validate(&vec![e(true, AuthKind::Local("/s".to_string()))], false), Ok(()));
    assert_eq!(
        validate(&vec![e(true, AuthKind::Anonymous), e(false, AuthKind::Krb5("p".to_string()))], false),
        Err(ConfigError::MixedLoopback)
    );
    assert_eq!(
        validate(&vec![e(true, AuthKind::Anonymous), e(false, AuthKind::Local("/s".to_string()))], false),
        Err(ConfigError::LocalAuthRemote)
    );
    assert_eq!(validate(&vec![e(false, AuthKind::Anonymous), e(false, AuthKind::Krb5("p".to_string()))], false), Ok(()));
}
