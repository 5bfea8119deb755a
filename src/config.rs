//! The rules a cluster configuration must satisfy: which resolver servers
//! a client may use and how it authenticates to them.

use vstd::prelude::*;

verus! {

/// How a client authenticates to one resolver server.
#[derive(Debug, Clone, PartialEq, Eq)]
pub enum AuthKind {
    Anonymous,
    /// Kerberos, with the server's principal name.
    Krb5(String),
    /// Local authentication, through the socket at this path.
    Local(String),
    /// TLS, with the server's name.
    Tls(String),
}

/// One resolver server, its address reduced to what the rules read.
#[derive(Debug, Clone, PartialEq, Eq)]
pub struct ServerEntry {
    /// Whether the address is a loopback address.
    pub loopback: bool,
    /// Whether the address is the unspecified address.
    pub unspecified: bool,
    /// Whether the address is a multicast address.
    pub multicast: bool,
    pub auth: AuthKind,
}

#[derive(Debug, Clone, Copy, PartialEq, Eq, Structural)]
pub enum ConfigError {
    /// No server is listed.
    NoAddresses,
    /// A server's address is the unspecified address.
    UnspecifiedAddress,
    /// A server's address is a multicast address.
    MulticastAddress,
    /// A server uses TLS but no CA certificates are configured.
    TlsWithoutCaCerts,
    /// A server that is not on loopback uses local authentication.
    LocalAuthRemote,
    /// Loopback and remote servers are listed together.
    MixedLoopback,
}

/// What is wrong with one server entry, if anything: its address first,
/// then its authentication.
pub open spec fn entry_error(e: ServerEntry, has_ca_certs: bool) -> Option<ConfigError> {
    if e.unspecified {
        Some(ConfigError::UnspecifiedAddress)
    } else if e.multicast {
        Some(ConfigError::MulticastAddress)
    } else {
        auth_error(e, has_ca_certs)
    }
}

/// What is wrong with one server entry's authentication, if anything.
pub open spec fn auth_error(e: ServerEntry, has_ca_certs: bool) -> Option<ConfigError> {
    match e.auth {
        AuthKind::Tls(_) => if has_ca_certs {
            None
        } else {
            Some(ConfigError::TlsWithoutCaCerts)
        },
        AuthKind::Local(_) => if e.loopback {
            None
        } else {
            Some(ConfigError::LocalAuthRemote)
        },
        _ => None,
    }
}

/// The first entry error, in listed order.
pub open spec fn first_error(s: Seq<ServerEntry>, has_ca_certs: bool) -> Option<ConfigError>
    decreases s.len(),
{
    if s.len() == 0 {
        None
    } else {
        match entry_error(s[0], has_ca_certs) {
            Some(e) => Some(e),
            None => first_error(s.drop_first(), has_ca_certs),
        }
    }
}

pub open spec fn mixes_loopback(s: Seq<ServerEntry>) -> bool {
    (exists|i: int| 0 <= i < s.len() && #[trigger] s[i].loopback) && (exists|j: int|
        0 <= j < s.len() && !#[trigger] s[j].loopback)
}

/// The verdict on a list of servers: at least one, each address usable and
/// each entry's authentication sound, and
/// all of them loopback or none.
pub open spec fn validate_spec(s: Seq<ServerEntry>, has_ca_certs: bool) -> Result<(), ConfigError> {
    if s.len() == 0 {
        Err(ConfigError::NoAddresses)
    } else {
        match first_error(s, has_ca_certs) {
            Some(e) => Err(e),
            None => if mixes_loopback(s) {
                Err(ConfigError::MixedLoopback)
            } else {
                Ok(())
            },
        }
    }
}

/// Check a list of resolver servers, reporting the first problem found.
pub fn validate(servers: &Vec<ServerEntry>, has_tls_ca_certs: bool) -> (r: Result<(), ConfigError>)
    ensures
        r == validate_spec(servers@, has_tls_ca_certs),
{
    let ghost s = servers@;
    if servers.len() == 0 {
        return Err(ConfigError::NoAddresses);
    }
    let mut seen_loopback = false;
    let mut seen_remote = false;
    let mut i: usize = 0;
    assert(s.skip(0) =~= s);
    while i < servers.len()
        invariant
            s == servers@,
            i <= s.len(),
            first_error(s, has_tls_ca_certs) == first_error(s.skip(i as int), has_tls_ca_certs),
            seen_loopback == exists|j: int| 0 <= j < i && #[trigger] s[j].loopback,
            seen_remote == exists|j: int| 0 <= j < i && !#[trigger] s[j].loopback,
        decreases servers.len() - i,
    {
        let e = &servers[i];
        proof {
            assert(s.skip(i as int)[0] == s[i as int]);
            assert(s.skip(i as int).drop_first() =~= s.skip(i + 1));
        }
        if e.unspecified {
            return Err(ConfigError::UnspecifiedAddress);
        }
        if e.multicast {
            return Err(ConfigError::MulticastAddress);
        }
        match &e.auth {
            AuthKind::Tls(_) => {
                if !has_tls_ca_certs {
                    return Err(ConfigError::TlsWithoutCaCerts);
                }
            },
            AuthKind::Local(_) => {
                if !e.loopback {
                    return Err(ConfigError::LocalAuthRemote);
                }
            },
            _ => {},
        }
        if e.loopback {
            seen_loopback = true;
        } else {
            seen_remote = true;
        }
        proof {
            assert(e.loopback ==> s[i as int].loopback);
        }
        i = i + 1;
    }
    assert(s.skip(i as int) =~= Seq::<ServerEntry>::empty());
    if seen_loopback && seen_remote {
        Err(ConfigError::MixedLoopback)
    } else {
        Ok(())
    }
}

} // verus!
