//! The configuration surface the pipeline reads: where the document lives,
//! which column keys its records, and how to reach the store. Building the
//! store connection string validates the credentials instead of crashing:
//! a bad combination is a fatal configuration error, reported before the
//! pipeline starts.

use vstd::prelude::*;

verus! {

/// A fatal configuration-validation failure, reported before the pipeline
/// starts.
#[derive(Clone, Copy, Debug, PartialEq, Eq, Structural)]
pub enum ConfigError {
    /// With credentials set, the store URL starts with neither `redis://`
    /// nor `rediss://`.
    InvalidScheme,
    /// Only one of the store username and password is set; they must be set
    /// together.
    CredentialsIncomplete,
}

/// Where the document lives and which column supplies the record keys.
pub struct MarkdownConfig {
    pub url: String,
    pub key: String,
}

/// How to reach the store: a base URL and optional credentials.
pub struct RedisConfig {
    base_url: String,
    username: Option<String>,
    password: Option<String>,
}

/// The whole configuration.
pub struct Config {
    pub markdown: MarkdownConfig,
    pub redis: RedisConfig,
}

impl RedisConfig {
    /// The configured base URL.
    pub closed spec fn base_url_view(self) -> Seq<char> {
        self.base_url@
    }

    /// The configured username, if set.
    pub closed spec fn username_view(self) -> Option<Seq<char>> {
        match self.username {
            Some(u) => Some(u@),
            None => None,
        }
    }

    /// The configured password, if set.
    pub closed spec fn password_view(self) -> Option<Seq<char>> {
        match self.password {
            Some(p) => Some(p@),
            None => None,
        }
    }

    /// The connection string [`RedisConfig::url`] must produce: with both
    /// credentials set, the base URL must carry a known scheme, and the
    /// credentials are spliced in directly after it; with neither set, the
    /// base URL stands as it is; any other combination is invalid.
    pub open spec fn url_spec(self) -> Result<Seq<char>, ConfigError> {
        match (self.username_view(), self.password_view()) {
            (Some(u), Some(p)) => {
                if "redis://"@.is_prefix_of(self.base_url_view()) {
                    Ok(
                        "redis://"@ + u + ":"@ + p + "@"@ + self.base_url_view().skip(
                            "redis://"@.len() as int,
                        ),
                    )
                } else if "rediss://"@.is_prefix_of(self.base_url_view()) {
                    Ok(
                        "rediss://"@ + u + ":"@ + p + "@"@ + self.base_url_view().skip(
                            "rediss://"@.len() as int,
                        ),
                    )
                } else {
                    Err(ConfigError::InvalidScheme)
                }
            },
            (None, None) => Ok(self.base_url_view()),
            _ => Err(ConfigError::CredentialsIncomplete),
        }
    }

    /// Assembles a store configuration.
    pub fn new(base_url: String, username: Option<String>, password: Option<String>) -> (c: Self)
        ensures
            c.base_url_view() == base_url@,
            c.username_view() == (match username {
                Some(u) => Some(u@),
                None => None::<Seq<char>>,
            }),
            c.password_view() == (match password {
                Some(p) => Some(p@),
                None => None::<Seq<char>>,
            }),
    {
        RedisConfig { base_url, username, password }
    }

    /// The store connection string, exactly as [`RedisConfig::url_spec`]
    /// states it, or the configuration error that rules the combination out.
    pub fn url(&self) -> (r: Result<String, ConfigError>)
        ensures
            ({
                let s = self.url_spec();
                match r {
                    Ok(u) => s == Ok::<Seq<char>, ConfigError>(u@),
                    Err(e) => s == Err::<Seq<char>, ConfigError>(e),
                }
            }),
    {
        match (&self.username, &self.password) {
            (Some(username), Some(password)) => {
                if has_prefix(self.base_url.as_str(), "redis://") {
                    Ok(splice_credentials("redis://", username, password, &self.base_url))
                } else if has_prefix(self.base_url.as_str(), "rediss://") {
                    Ok(splice_credentials("rediss://", username, password, &self.base_url))
                } else {
                    Err(ConfigError::InvalidScheme)
                }
            },
            (None, None) => Ok(self.base_url.clone()),
            _ => Err(ConfigError::CredentialsIncomplete),
        }
    }
}

/// Whether `p` is a prefix of `s`.
fn has_prefix(s: &str, p: &str) -> (b: bool)
    ensures
        b == p@.is_prefix_of(s@),
{
    let pn = p.unicode_len();
    let sn = s.unicode_len();
    if pn > sn {
        return false;
    }
    let mut i: usize = 0;
    while i < pn
        invariant
            0 <= i <= pn,
            pn <= sn,
            pn == p@.len(),
            sn == s@.len(),
            forall|k: int| 0 <= k < i ==> p@[k] == s@[k],
        decreases pn - i,
    {
        if s.get_char(i) != p.get_char(i) {
            proof {
                if p@.is_prefix_of(s@) {
                    assert(p@[i as int] == s@.subrange(0, pn as int)[i as int]);
                }
            }
            return false;
        }
        i = i + 1;
    }
    proof {
        assert(p@ =~= s@.subrange(0, pn as int));
    }
    true
}

/// Builds `<scheme><username>:<password>@<base URL without its scheme>`.
fn splice_credentials(scheme: &str, username: &String, password: &String, base_url: &String) -> (r:
    String)
    requires
        scheme@.is_prefix_of(base_url@),
    ensures
        r@ == scheme@ + username@ + ":"@ + password@ + "@"@ + base_url@.skip(scheme@.len() as int),
{
    let sn = scheme.unicode_len();
    let bn = base_url.as_str().unicode_len();
    let stripped = base_url.as_str().substring_char(sn, bn);
    proof {
        assert(base_url@.subrange(sn as int, bn as int) =~= base_url@.skip(sn as int));
    }
    let mut out = scheme.to_owned();
    out.append(username.as_str());
    out.append(":");
    out.append(password.as_str());
    out.append("@");
    out.append(stripped);
    out
}

} // verus!
