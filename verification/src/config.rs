//! The server's settings and their checks.
use std::time::Duration;
use vstd::prelude::*;
use vstd::string::*;

use crate::errors::{Error, ErrorView};
use crate::text::{append_str, decimal_chars, decimal_string};

verus! {

/// What `Duration::from_millis` gives for `ms`.
pub uninterp spec fn millis_duration(ms: u64) -> Duration;

/// What `Duration::from_secs` gives for `secs`.
pub uninterp spec fn secs_duration(secs: u64) -> Duration;

/// Calls `std::time::Duration::from_millis`, which builds the duration of `ms`
/// milliseconds and never panics; the result is named by `millis_duration`.
#[verifier::external_body]
pub(crate) fn duration_from_millis(ms: u64) -> (d: Duration)
    ensures
        d == millis_duration(ms),
{
    Duration::from_millis(ms)
}

/// Calls `std::time::Duration::from_secs`, which builds the duration of `secs`
/// seconds and never panics; the result is named by `secs_duration`.
#[verifier::external_body]
pub(crate) fn duration_from_secs(secs: u64) -> (d: Duration)
    ensures
        d == secs_duration(secs),
{
    Duration::from_secs(secs)
}

/// The server's settings; times are in milliseconds.
#[derive(Debug, Clone, Copy, PartialEq, Eq, Structural)]
pub struct Config {
    pub port: u16,
    pub read_timeout_ms: u64,
    pub write_timeout_ms: u64,
    pub idle_connection_ttl: u64,
    pub max_connection_lifetime: u64,
    /// The most the cache may weigh, in bytes; unbounded when absent.
    pub max_cache_weight: Option<usize>,
}

/// The port used when none is configured.
pub fn default_port() -> (p: u16)
    ensures
        p == 6767,
{
    6767
}

/// The request read timeout used when none is configured.
pub fn default_read_timeout_ms() -> (t: u64)
    ensures
        t == 10_000,
{
    10_000
}

/// The response write timeout used when none is configured.
pub fn default_write_timeout_ms() -> (t: u64)
    ensures
        t == 10_000,
{
    10_000
}

/// How long a connection may stay idle when nothing else is configured:
/// three minutes.
pub fn default_idle_connection_ttl() -> (t: u64)
    ensures
        t == 180_000,
{
    3 * 60 * 1000
}

/// How long a connection may live when nothing else is configured: thirty
/// minutes.
pub fn default_max_connection_lifetime() -> (t: u64)
    ensures
        t == 1_800_000,
{
    30 * 60 * 1000
}

pub open spec fn invalid_port_message(port: u16) -> Seq<char> {
    "Invalid port number "@ + decimal_chars(port as nat) + " port number must be 1025 or greater"@
}

pub open spec fn invalid_read_timeout_message() -> Seq<char> {
    "Invalid read timeout: must be greater than 0ms"@
}

pub open spec fn invalid_write_timeout_message() -> Seq<char> {
    "Invalid write timeout: must be greater than 0ms"@
}

impl Config {
    /// Refuses a privileged port (below 1024) and zero read or write timeouts,
    /// in that order.
    pub fn validate(&self) -> (r: Result<(), Error>)
        ensures
            self.port < 1024 ==> (r matches Err(e) && e@ == ErrorView::Custom(
                invalid_port_message(self.port),
            )),
            self.port >= 1024 && self.read_timeout_ms == 0 ==> (r matches Err(e) && e@
                == ErrorView::Custom(invalid_read_timeout_message())),
            self.port >= 1024 && self.read_timeout_ms != 0 && self.write_timeout_ms == 0 ==> (
            r matches Err(e) && e@ == ErrorView::Custom(invalid_write_timeout_message())),
            r is Ok <==> (self.port >= 1024 && self.read_timeout_ms != 0
                && self.write_timeout_ms != 0),
    {
        if self.port < 1024 {
            let message = append_str(
                append_str(
                    String::from_str("Invalid port number "),
                    decimal_string(self.port as u64).as_str(),
                ),
                " port number must be 1025 or greater",
            );
            return Err(Error::Custom(message));
        }
        if self.read_timeout_ms == 0 {
            return Err(
                Error::Custom(String::from_str("Invalid read timeout: must be greater than 0ms")),
            );
        }
        if self.write_timeout_ms == 0 {
            return Err(
                Error::Custom(String::from_str("Invalid write timeout: must be greater than 0ms")),
            );
        }
        Ok(())
    }

    /// The request read timeout.
    pub fn read_timeout(&self) -> (d: Duration)
        ensures
            d == millis_duration(self.read_timeout_ms),
    {
        duration_from_millis(self.read_timeout_ms)
    }

    /// The response write timeout.
    pub fn write_timeout(&self) -> (d: Duration)
        ensures
            d == millis_duration(self.write_timeout_ms),
    {
        duration_from_millis(self.write_timeout_ms)
    }

    /// How long a connection may stay idle between requests.
    pub fn idle_connection_ttl(&self) -> (d: Duration)
        ensures
            d == millis_duration(self.idle_connection_ttl),
    {
        duration_from_millis(self.idle_connection_ttl)
    }

    /// How long a connection may live.
    pub fn max_connection_lifetime(&self) -> (d: Duration)
        ensures
            d == millis_duration(self.max_connection_lifetime),
    {
        duration_from_millis(self.max_connection_lifetime)
    }
}

} // verus!
