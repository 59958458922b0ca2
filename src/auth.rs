//! Identities of the people who sign in to the serving layer, by the
//! provider that vouches for them.
use vstd::prelude::*;
use vstd::string::StringSliceAdditionalSpecFns;
use vstd::utf8::encode_utf8;

verus! {

/// Why an identity could not be formed.
#[derive(Clone, Debug, PartialEq, Eq)]
pub enum Error {
    /// The access label is not one that is known.
    InvalidAccess(String),
    /// The provider name is not one that is known.
    InvalidProvider(String),
    /// The identifier is not one that the provider issues.
    InvalidIdentifier(String),
    /// A line of an authorization list is malformed.
    InvalidLine(String),
}

/// The decimal value of a string of digits.
pub open spec fn decimal_value(s: Seq<char>) -> nat
    decreases s.len(),
{
    if s.len() == 0 {
        0
    } else {
        decimal_value(s.drop_last()) * 10 + (s.last() as nat - '0' as nat) as nat
    }
}

/// Every character is an ASCII digit.
pub open spec fn all_digits(s: Seq<char>) -> bool {
    forall|i: int| 0 <= i < s.len() ==> '0' <= #[trigger] s[i] <= '9'
}

/// The number that `u64`'s `FromStr` reads from a string: an optional `+`,
/// then one or more ASCII digits, whose value fits in 64 bits.
pub open spec fn parsed_u64(s: Seq<char>) -> Option<u64> {
    let digits = if s.len() > 0 && s[0] == '+' {
        s.drop_first()
    } else {
        s
    };
    if digits.len() > 0 && all_digits(digits) && decimal_value(digits) <= u64::MAX {
        Some(decimal_value(digits) as u64)
    } else {
        None
    }
}

/// The decimal digits of a number, most significant first, without leading zeros.
pub open spec fn decimal_digits(n: nat) -> Seq<char>
    decreases n,
{
    if n < 10 {
        seq![(n + '0' as nat) as char]
    } else {
        decimal_digits(n / 10).push(((n % 10) + '0' as nat) as char)
    }
}

/// Relies on `str::parse::<u64>`: an optional `+` followed by one or more
/// ASCII digits whose value fits in a `u64`; anything else is an error.
#[verifier::external_body]
pub(crate) fn parse_u64(s: &str) -> (r: Option<u64>)
    ensures
        r == parsed_u64(s@),
{
    s.parse::<u64>().ok()
}

/// Relies on `u64`'s `ToString`: the decimal digits of the number.
#[verifier::external_body]
fn u64_to_decimal(n: u64) -> (r: String)
    ensures
        r@ == decimal_digits(n as nat),
{
    n.to_string()
}

/// A service that signs people in.
#[derive(Clone, Copy, Debug, PartialEq, Eq, Hash, Structural)]
pub enum Provider {
    GitHub,
    Google,
    Twitter,
}

impl Provider {
    /// The short prefix that marks this provider's identifiers.
    pub fn prefix(&self) -> (r: &'static str)
        ensures
            r@ == match self {
                Provider::GitHub => "gh"@,
                Provider::Google => "gc"@,
                Provider::Twitter => "tw"@,
            },
    {
        match self {
            Provider::GitHub => "gh",
            Provider::Google => "gc",
            Provider::Twitter => "tw",
        }
    }

    /// The provider's name in lower case.
    pub fn name(&self) -> (r: &'static str)
        ensures
            r@ == match self {
                Provider::GitHub => "github"@,
                Provider::Google => "google"@,
                Provider::Twitter => "twitter"@,
            },
    {
        match self {
            Provider::GitHub => "github",
            Provider::Google => "google",
            Provider::Twitter => "twitter",
        }
    }
}

/// A type that stands for one provider.
pub trait IsProvider {
    type Id;

    fn provider() -> (r: Provider);
}

/// GitHub, whose users have numeric ids.
pub struct GitHub;

/// Google, whose users have string subject ids.
pub struct Google;

/// Twitter, whose users have numeric ids.
pub struct Twitter;

impl IsProvider for GitHub {
    type Id = u64;

    fn provider() -> (r: Provider) {
        Provider::GitHub
    }
}

impl IsProvider for Google {
    type Id = String;

    fn provider() -> (r: Provider) {
        Provider::Google
    }
}

impl IsProvider for Twitter {
    type Id = u64;

    fn provider() -> (r: Provider) {
        Provider::Twitter
    }
}

/// A person as one provider knows them.
#[derive(Clone, Debug, PartialEq, Eq, Hash)]
pub enum Identity {
    GitHub { id: u64 },
    Google { sub: String },
    GoogleEmail { email: String },
    Twitter { id: u64 },
}

/// The longest Google subject id, in bytes, that an identity accepts.
pub const MAX_SUBJECT_LEN: usize = 255;

impl Identity {
    /// The provider that vouches for this identity.
    pub fn provider(&self) -> (r: Provider)
        ensures
            r == match self {
                Identity::GitHub { .. } => Provider::GitHub,
                Identity::Google { .. } => Provider::Google,
                Identity::GoogleEmail { .. } => Provider::Google,
                Identity::Twitter { .. } => Provider::Twitter,
            },
    {
        match self {
            Identity::GitHub { .. } => Provider::GitHub,
            Identity::Google { .. } => Provider::Google,
            Identity::GoogleEmail { .. } => Provider::Google,
            Identity::Twitter { .. } => Provider::Twitter,
        }
    }

    /// The identity that a provider's (id, name) pair stands for. GitHub and
    /// Twitter ids are decimal numbers; a Google id is a subject of at most
    /// 255 bytes, and an empty one means the name is an email address.
    pub fn for_provider(provider: Provider, id: &str, name: &str) -> (r: Result<Identity, Error>)
        ensures
            provider != Provider::Google ==> match parsed_u64(id@) {
                Some(n) => r == Ok::<Identity, Error>(
                    if provider == Provider::GitHub {
                        Identity::GitHub { id: n }
                    } else {
                        Identity::Twitter { id: n }
                    },
                ),
                None => r matches Err(Error::InvalidIdentifier(s)) && s@ == id@,
            },
            provider == Provider::Google && id@.len() == 0 ==> (r matches Ok(Identity::GoogleEmail { email })
                && email@ == name@),
            provider == Provider::Google && id@.len() > 0 && encode_utf8(id@).len() <= MAX_SUBJECT_LEN ==> (r matches Ok(
                Identity::Google { sub },
            ) && sub@ == id@),
            provider == Provider::Google && encode_utf8(id@).len() > MAX_SUBJECT_LEN ==> (r matches Err(
                Error::InvalidIdentifier(s),
            ) && s@ == id@),
    {
        match provider {
            Provider::GitHub => match parse_u64(id) {
                Some(n) => Ok(Identity::GitHub { id: n }),
                None => Err(Error::InvalidIdentifier(id.to_string())),
            },
            Provider::Google => {
                proof {
                    assert(id.spec_bytes() == encode_utf8(id@));
                    if id@.len() == 0 {
                        assert(encode_utf8(id@).len() == 0);
                    }
                }
                if id.is_empty() {
                    Ok(Identity::GoogleEmail { email: name.to_string() })
                } else if id.as_bytes().len() <= MAX_SUBJECT_LEN {
                    Ok(Identity::Google { sub: id.to_string() })
                } else {
                    let s = id.to_owned();
                    Err(Error::InvalidIdentifier(s))
                }
            },
            Provider::Twitter => match parse_u64(id) {
                Some(n) => Ok(Identity::Twitter { id: n }),
                None => Err(Error::InvalidIdentifier(id.to_string())),
            },
        }
    }
}

/// A level of access that an authorization grants.
#[derive(Clone, Copy, Debug, PartialEq, Eq, Hash, Structural)]
pub enum Access {
    Admin,
    Trusted,
    Gist,
}

impl Access {
    /// The access level's label.
    pub fn name(&self) -> (r: &'static str)
        ensures
            r@ == match self {
                Access::Admin => "admin"@,
                Access::Trusted => "trusted"@,
                Access::Gist => "gist"@,
            },
    {
        match self {
            Access::Admin => "admin",
            Access::Trusted => "trusted",
            Access::Gist => "gist",
        }
    }
}

/// What a provider tells about a person who signed in.
#[derive(Clone, Debug, PartialEq, Eq, Hash)]
pub enum UserInfo {
    GitHub { id: u64, username: String },
    Google { sub: String, email: String },
    Twitter { id: u64, screen_name: String },
}

impl UserInfo {
    /// The person's id at the provider, as text.
    pub fn id_str(&self) -> (r: String)
        ensures
            r@ == match self {
                UserInfo::GitHub { id, .. } => decimal_digits(*id as nat),
                UserInfo::Google { sub, .. } => sub@,
                UserInfo::Twitter { id, .. } => decimal_digits(*id as nat),
            },
    {
        match self {
            UserInfo::GitHub { id, .. } => u64_to_decimal(*id),
            UserInfo::Google { sub, .. } => sub.clone(),
            UserInfo::Twitter { id, .. } => u64_to_decimal(*id),
        }
    }

    /// The person's name at the provider: user name, email or screen name.
    pub fn name(&self) -> (r: String)
        ensures
            r@ == match self {
                UserInfo::GitHub { username, .. } => username@,
                UserInfo::Google { email, .. } => email@,
                UserInfo::Twitter { screen_name, .. } => screen_name@,
            },
    {
        match self {
            UserInfo::GitHub { username, .. } => username.clone(),
            UserInfo::Google { email, .. } => email.clone(),
            UserInfo::Twitter { screen_name, .. } => screen_name.clone(),
        }
    }
}

} // verus!
