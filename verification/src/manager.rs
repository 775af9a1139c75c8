//! The handle a connection pool keeps per target: it carries the connection
//! target and validates a URL before any connection is attempted.
use vstd::prelude::*;
use vstd::string::StringExecFns;

use crate::config::Config;
use crate::config::check_target;
use crate::config::valid_target;
use crate::errors::AlesiaError;
use crate::errors::Error;
use crate::errors::ErrorKind;

verus! {

/// A factory of sessions for one connection target, as a pool manager holds
/// it. Opening the actual transport is the surrounding binary's job.
pub struct AlesiaConnectionManager {
    config: Config,
}

impl AlesiaConnectionManager {
    /// The address text this manager connects to.
    pub closed spec fn spec_path(&self) -> Seq<char> {
        self.config.path@
    }

    /// Wraps an existing connection target.
    pub fn new(config: Config) -> (r: AlesiaConnectionManager)
        ensures
            r.spec_path() == config.path@,
    {
        AlesiaConnectionManager { config }
    }

    /// Builds a manager from an address string, rejecting any string that
    /// does not have the `host:port` shape.
    pub fn new_from_url(url: &str) -> (r: Result<AlesiaConnectionManager, Box<Error>>)
        ensures
            r matches Ok(m) ==> valid_target(url@) && m.spec_path() == url@,
            r matches Err(e) ==> !valid_target(url@) && e@.kind == ErrorKind::Config && e@.message
                == "Invalid URL"@,
    {
        if check_target(url) {
            Ok(AlesiaConnectionManager { config: Config::new(url.to_owned()) })
        } else {
            Err(Box::new(Error::config(AlesiaError(String::from_str("Invalid URL")))))
        }
    }

    /// The address text, for the code that opens the transport.
    pub fn path(&self) -> (r: &String)
        ensures
            r@ == self.spec_path(),
    {
        &self.config.path
    }
}

} // verus!
