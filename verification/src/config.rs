//! The service's configuration and the rules for the values it is read from.
//!
//! The values come from environment variables; reading them is the caller's
//! part. A variable that is not set is `None` here.
use vstd::prelude::*;

verus! {

/// Where the service finds its request queue.
#[derive(Debug, Clone)]
pub struct AppConfig {
    pub redis_url: String,
    pub redis_request_queue: String,
    pub redis_brpop_timeout_seconds: usize,
}

/// Why a configuration value was refused; `name` is the variable's name.
#[derive(Debug)]
pub enum ConfigError {
    MissingVar { name: &'static str },
    EmptyVar { name: &'static str },
    InvalidPositiveInteger { name: &'static str },
}

/// Unicode's `White_Space` characters.
pub open spec fn is_white_space(c: char) -> bool {
    let n = c as u32;
    ||| 0x9 <= n <= 0xd
    ||| n == 0x20
    ||| n == 0x85
    ||| n == 0xa0
    ||| n == 0x1680
    ||| 0x2000 <= n <= 0x200a
    ||| n == 0x2028
    ||| n == 0x2029
    ||| n == 0x202f
    ||| n == 0x205f
    ||| n == 0x3000
}

/// `s` without its leading white space.
pub open spec fn trim_start(s: Seq<char>) -> Seq<char>
    decreases s.len(),
{
    if s.len() > 0 && is_white_space(s[0]) {
        trim_start(s.drop_first())
    } else {
        s
    }
}

/// `s` without its trailing white space.
pub open spec fn trim_end(s: Seq<char>) -> Seq<char>
    decreases s.len(),
{
    if s.len() > 0 && is_white_space(s.last()) {
        trim_end(s.drop_last())
    } else {
        s
    }
}

/// `s` without leading and trailing white space.
pub open spec fn trimmed(s: Seq<char>) -> Seq<char> {
    trim_end(trim_start(s))
}

pub open spec fn is_digit(c: char) -> bool {
    '0' <= c <= '9'
}

/// The number that the decimal digits `d` write.
pub open spec fn digits_value(d: Seq<char>) -> nat
    decreases d.len(),
{
    if d.len() == 0 {
        0
    } else {
        digits_value(d.drop_last()) * 10 + ((d.last() as u32) - ('0' as u32)) as nat
    }
}

/// What parsing `s` as a `usize` gives: an optional `+` and then one or
/// more decimal digits whose number fits a `usize`; nothing else.
pub open spec fn parsed_usize(s: Seq<char>) -> Option<usize> {
    let d = if s.len() > 0 && s[0] == '+' {
        s.drop_first()
    } else {
        s
    };
    if d.len() == 0 || exists|i: int| 0 <= i < d.len() && !is_digit(#[trigger] d[i]) {
        None
    } else if digits_value(d) > usize::MAX {
        None
    } else {
        Some(digits_value(d) as usize)
    }
}

/// `s` without leading and trailing white space.
///
/// Calls `str::trim`, which removes the characters with Unicode's
/// `White_Space` property from both ends.
#[verifier::external_body]
fn trim(s: &str) -> (r: &str)
    ensures
        r@ == trimmed(s@),
{
    s.trim()
}

/// `s` read as a decimal `usize`.
///
/// Calls `str::parse::<usize>`, which accepts an optional `+` followed by
/// decimal digits only and fails on an empty string, on any other character
/// and on a value above `usize::MAX`.
#[verifier::external_body]
fn parse_usize(s: &str) -> (r: Option<usize>)
    ensures
        r == parsed_usize(s@),
{
    s.parse::<usize>().ok()
}

/// The value of the required variable `name`: `value` trimmed, which must be
/// set and not blank.
pub fn required_string(name: &'static str, value: Option<&str>) -> (r: Result<String, ConfigError>)
    ensures
        match value {
            None => r matches Err(ConfigError::MissingVar { name: n }) && n == name,
            Some(v) => if trimmed(v@).len() == 0 {
                r matches Err(ConfigError::EmptyVar { name: n }) && n == name
            } else {
                r matches Ok(s) && s@ == trimmed(v@)
            },
        },
{
    let value = match value {
        Some(v) => v,
        None => {
            return Err(ConfigError::MissingVar { name });
        },
    };
    let trimmed = trim(value);
    if trimmed.is_empty() {
        return Err(ConfigError::EmptyVar { name });
    }
    Ok(trimmed.to_owned())
}

/// The value of the optional variable `name`: `fallback` when it is not
/// set, else `value`, trimmed, read as a positive decimal number.
pub fn optional_positive_usize(name: &'static str, value: Option<&str>, fallback: usize) -> (r: Result<usize, ConfigError>)
    ensures
        match value {
            None => r matches Ok(n) && n == fallback,
            Some(v) => match parsed_usize(trimmed(v@)) {
                Some(n) if n != 0 => r matches Ok(m) && m == n,
                _ => r matches Err(ConfigError::InvalidPositiveInteger { name: n }) && n == name,
            },
        },
{
    let value = match value {
        Some(v) => v,
        None => {
            return Ok(fallback);
        },
    };
    let parsed = match parse_usize(trim(value)) {
        Some(n) => n,
        None => {
            return Err(ConfigError::InvalidPositiveInteger { name });
        },
    };
    if parsed == 0 {
        return Err(ConfigError::InvalidPositiveInteger { name });
    }
    Ok(parsed)
}

impl AppConfig {
    /// The configuration from the values of `REDIS_URL`,
    /// `REDIS_REQUEST_QUEUE` and `REDIS_BRPOP_TIMEOUT_SECONDS` (which
    /// defaults to 5), checked in that order.
    pub fn from_values(redis_url: Option<&str>, redis_request_queue: Option<&str>, redis_brpop_timeout_seconds: Option<&str>) -> (r: Result<AppConfig, ConfigError>)
        ensures
            match redis_url {
                None => r matches Err(ConfigError::MissingVar { name: n }) && n@ == "REDIS_URL"@,
                Some(u) => if trimmed(u@).len() == 0 {
                    r matches Err(ConfigError::EmptyVar { name: n }) && n@ == "REDIS_URL"@
                } else {
                    match redis_request_queue {
                        None => r matches Err(ConfigError::MissingVar { name: n }) && n@ == "REDIS_REQUEST_QUEUE"@,
                        Some(q) => if trimmed(q@).len() == 0 {
                            r matches Err(ConfigError::EmptyVar { name: n }) && n@ == "REDIS_REQUEST_QUEUE"@
                        } else {
                            match optional_positive_spec(redis_brpop_timeout_seconds, 5) {
                                Some(t) => r matches Ok(c) && c.redis_url@ == trimmed(u@)
                                    && c.redis_request_queue@ == trimmed(q@)
                                    && c.redis_brpop_timeout_seconds == t,
                                None => r matches Err(ConfigError::InvalidPositiveInteger { name: n })
                                    && n@ == "REDIS_BRPOP_TIMEOUT_SECONDS"@,
                            }
                        },
                    }
                },
            },
    {
        let redis_url = required_string("REDIS_URL", redis_url)?;
        let redis_request_queue = required_string("REDIS_REQUEST_QUEUE", redis_request_queue)?;
        let redis_brpop_timeout_seconds = optional_positive_usize(
            "REDIS_BRPOP_TIMEOUT_SECONDS",
            redis_brpop_timeout_seconds,
            5,
        )?;
        Ok(AppConfig { redis_url, redis_request_queue, redis_brpop_timeout_seconds })
    }
}

/// The accepted value of an optional positive variable, if it is accepted.
pub open spec fn optional_positive_spec(value: Option<&str>, fallback: usize) -> Option<usize> {
    match value {
        None => Some(fallback),
        Some(v) => match parsed_usize(trimmed(v@)) {
            Some(n) if n != 0 => Some(n),
            _ => None,
        },
    }
}

} // verus!
