//! Credential bookkeeping: token lifetimes and expiry decisions, on plain
//! values. Reading the clock, and storing or loading the encrypted file,
//! stay with the caller, who hands in the current time and the decrypted
//! credentials.

use vstd::prelude::*;

verus! {

/// Tokens with their absolute expiry times, in seconds since the epoch.
#[derive(Debug, Clone, PartialEq)]
pub struct Credentials {
    access_token: String,
    access_expires_at: u64,
    refresh_token: String,
    refresh_expires_at: u64,
}

impl Credentials {
    /// The access token's text.
    pub closed spec fn spec_access_token(&self) -> Seq<char> {
        self.access_token@
    }

    /// When the access token expires.
    pub closed spec fn spec_access_expires_at(&self) -> u64 {
        self.access_expires_at
    }

    /// The refresh token's text.
    pub closed spec fn spec_refresh_token(&self) -> Seq<char> {
        self.refresh_token@
    }

    /// When the refresh token expires.
    pub closed spec fn spec_refresh_expires_at(&self) -> u64 {
        self.refresh_expires_at
    }
}

/// Tokens with their lifetimes, as the login endpoint hands them out.
#[derive(Debug, Clone, PartialEq)]
pub struct RawCredentials {
    pub access_token: String,
    pub access_expires_in: u64,
    pub refresh_token: String,
    pub refresh_expires_in: u64,
}

impl RawCredentials {
    /// Raw credentials whose refresh lifetime is derived from the access
    /// lifetime: one day per minute of access life.
    pub fn new(access_token: String, refresh_token: String, access_expires_in: u64) -> (r:
        RawCredentials)
        requires
            (access_expires_in as int / 60) * 86400 <= u64::MAX,
        ensures
            r.access_token == access_token,
            r.refresh_token == refresh_token,
            r.access_expires_in == access_expires_in,
            r.refresh_expires_in as int == (access_expires_in as int / 60) * 24 * 60 * 60,
    {
        let refresh_expires_in = (access_expires_in / 60) * 24 * 60 * 60;
        RawCredentials { access_token, access_expires_in, refresh_token, refresh_expires_in }
    }

    /// The credentials with absolute expiry times, `now` being the current
    /// time in seconds since the epoch.
    pub fn to_credentials(&self, now: u64) -> (r: Credentials)
        requires
            now + self.access_expires_in <= u64::MAX,
            now + (self.refresh_expires_in as int) * 60 <= u64::MAX,
        ensures
            r.spec_access_token() == self.access_token@,
            r.spec_access_expires_at() == now + self.access_expires_in,
            r.spec_refresh_token() == self.refresh_token@,
            r.spec_refresh_expires_at() as int == now + (self.refresh_expires_in as int) * 60,
    {
        Credentials {
            access_token: self.access_token.clone(),
            access_expires_at: now + self.access_expires_in,
            refresh_token: self.refresh_token.clone(),
            refresh_expires_at: now + self.refresh_expires_in * 60,
        }
    }
}

/// A token is treated as expired thirty seconds before its time, so a
/// request started now still completes inside the token's life.
pub open spec fn spec_expired(expires_at: u64, now: u64) -> bool {
    now >= (if expires_at >= 30 {
        expires_at - 30
    } else {
        0
    })
}

/// Decides what the stored credentials allow; holds the configuration
/// directory and whatever credentials the caller decrypted, or nothing when
/// none are stored.
#[derive(Debug, Clone, PartialEq)]
pub struct CredentialManager {
    config_dir: String,
    creds: Option<Credentials>,
}

impl CredentialManager {
    /// The configuration directory.
    pub closed spec fn spec_config_dir(&self) -> Seq<char> {
        self.config_dir@
    }

    /// The credentials held, if any.
    pub closed spec fn spec_creds(&self) -> Option<Credentials> {
        self.creds
    }

    /// A manager over the credentials the caller loaded; `None` when no
    /// credentials are stored or they could not be read.
    pub fn new(config_dir: String, creds: Option<Credentials>) -> (r: CredentialManager)
        ensures
            r.spec_config_dir() == config_dir@,
            r.spec_creds() == creds,
    {
        CredentialManager { config_dir, creds }
    }

    /// Whether the access token is missing or within thirty seconds of its
    /// expiry at time `now`.
    pub fn is_access_token_expired(&self, now: u64) -> (r: bool)
        ensures
            r == match self.spec_creds() {
                None => true,
                Some(c) => spec_expired(c.spec_access_expires_at(), now),
            },
    {
        match &self.creds {
            None => true,
            Some(c) => {
                let limit = if c.access_expires_at >= 30 {
                    c.access_expires_at - 30
                } else {
                    0
                };
                now >= limit
            },
        }
    }

    /// Whether the refresh token is missing or within thirty seconds of its
    /// expiry at time `now`.
    pub fn is_refresh_token_expired(&self, now: u64) -> (r: bool)
        ensures
            r == match self.spec_creds() {
                None => true,
                Some(c) => spec_expired(c.spec_refresh_expires_at(), now),
            },
    {
        match &self.creds {
            None => true,
            Some(c) => {
                let limit = if c.refresh_expires_at >= 30 {
                    c.refresh_expires_at - 30
                } else {
                    0
                };
                now >= limit
            },
        }
    }

    /// The stored access token, or a message when none is stored.
    pub fn get_access_token(&self) -> (r: Result<String, String>)
        ensures
            match r {
                Ok(t) => self.spec_creds() matches Some(c) && t@ == c.spec_access_token(),
                Err(_) => self.spec_creds() is None,
            },
    {
        match &self.creds {
            Some(c) => Ok(c.access_token.clone()),
            None => Err("no credentials stored".to_owned()),
        }
    }

    /// The stored refresh token, or a message when none is stored.
    pub fn get_refresh_token(&self) -> (r: Result<String, String>)
        ensures
            match r {
                Ok(t) => self.spec_creds() matches Some(c) && t@ == c.spec_refresh_token(),
                Err(_) => self.spec_creds() is None,
            },
    {
        match &self.creds {
            Some(c) => Ok(c.refresh_token.clone()),
            None => Err("no credentials stored".to_owned()),
        }
    }

    /// Whether either token is still alive at time `now`.
    pub fn is_authenticated(&self, now: u64) -> (r: bool)
        ensures
            r == match self.spec_creds() {
                None => false,
                Some(c) => !spec_expired(c.spec_refresh_expires_at(), now) || !spec_expired(
                    c.spec_access_expires_at(),
                    now,
                ),
            },
    {
        !self.is_refresh_token_expired(now) || !self.is_access_token_expired(now)
    }

    /// Where the encrypted credentials live.
    pub fn credentials_path(&self) -> (r: String)
        ensures
            r@ == self.spec_config_dir() + "/credentials.enc"@,
    {
        self.config_dir.clone().concat("/credentials.enc")
    }

    /// Where the encryption key lives.
    pub fn key_path(&self) -> (r: String)
        ensures
            r@ == self.spec_config_dir() + "/.key"@,
    {
        self.config_dir.clone().concat("/.key")
    }
}

} // verus!
