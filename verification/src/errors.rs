//! Error values surfaced by the configuration store and the unit
//! lifecycle manager.
//!
//! Every core operation fails fast: the first error is returned to the
//! caller unmodified, with no retries and no partial results.

use vstd::prelude::*;

verus! {

/// A filesystem entry name could not be interpreted as text.
#[derive(Debug)]
pub struct OsStringToUtf8Error {
    pub msg: &'static str,
}

impl OsStringToUtf8Error {
    pub fn new() -> (r: Self)
        ensures
            r.msg@ == "OsString did was not valid Utf8"@,
    {
        Self { msg: "OsString did was not valid Utf8" }
    }
}

/// The config record is empty, missing a field line, or a line is not in
/// `Key value` form.
#[derive(Debug)]
pub struct MalformedConfigError {
    pub msg: &'static str,
}

impl MalformedConfigError {
    pub fn new() -> (r: Self)
        ensures
            r.msg@ == "The config file is malformed"@,
    {
        Self { msg: "The config file is malformed" }
    }
}

/// The actuation log is missing information or incorrectly formatted.
#[derive(Debug)]
pub struct MalformedLogError {
    pub msg: &'static str,
}

impl MalformedLogError {
    pub fn new() -> (r: Self)
        ensures
            r.msg@ == "the log is malformed; it is missing information or incorrectly formatted. If you're a user, copy your log files contents to a safe place, check your total_relay_actuations, and then use the appropriate cmdline arg to add the old relay count to your NEW log file AFTER you delete the old one from the appropriate location. RELAY_ACTUATION_COUNT IS USED TO GUARENTEE YOUR SAFETY; YOUR RELAY WILL NOT LIVE FOREVER."@,
    {
        Self {
            msg: "the log is malformed; it is missing information or incorrectly formatted. If you're a user, copy your log files contents to a safe place, check your total_relay_actuations, and then use the appropriate cmdline arg to add the old relay count to your NEW log file AFTER you delete the old one from the appropriate location. RELAY_ACTUATION_COUNT IS USED TO GUARENTEE YOUR SAFETY; YOUR RELAY WILL NOT LIVE FOREVER.",
        }
    }
}

/// An argument was rejected: an unrecognized command, or a calendar
/// expression the external validator refused.
#[derive(Debug)]
pub struct InvalidArgError {
    pub msg: &'static str,
}

impl InvalidArgError {
    pub fn new() -> (r: Self)
        ensures
            r.msg@ == "InvalidArg Error : your inputed cmdline-argument is incorrect!"@,
    {
        Self { msg: "InvalidArg Error : your inputed cmdline-argument is incorrect!" }
    }
}

/// A required positional value is absent.
#[derive(Debug)]
pub struct MissingArgError {
    pub msg: &'static str,
}

impl MissingArgError {
    pub fn new() -> (r: Self)
        ensures
            r.msg@ == "MissingArg Error : the cmdline-option is missing an argument!"@,
    {
        Self { msg: "MissingArg Error : the cmdline-option is missing an argument!" }
    }
}

/// How a read of the positional config record fails.
///
/// `MalformedRecord` covers a missing line and a line that does not split
/// into exactly two `Key value` tokens; `FieldFormat` covers a value that a
/// field's own validator refuses.
#[derive(Clone, Copy, Debug, PartialEq, Eq, Structural)]
pub enum ConfigError {
    MalformedRecord,
    FieldFormat,
}

} // verus!
