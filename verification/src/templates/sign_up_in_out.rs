//! The pages for signing up, in and out, and the page that a new person
//! starts with.

use crate::config::Config;
use vstd::prelude::*;

verus! {

/// The page for signing up.
pub struct UpTemplate<'a> {
    pub config: &'a Config,
    /// What was wrong with the last entries.
    pub errors: &'a [&'a str],
}

impl<'a> UpTemplate<'a> {
    /// The page for signing up, showing `errors`.
    pub fn new(config: &'a Config, errors: &'a [&'a str]) -> (r: Self)
        ensures
            r.config == config,
            r.errors == errors,
    {
        Self { config, errors }
    }
}

/// The page for signing in.
pub struct InTemplate<'a> {
    pub config: &'a Config,
    /// What was wrong with the last entries, if anything was.
    pub error: Option<&'a str>,
}

impl<'a> InTemplate<'a> {
    /// The page for signing in, showing `error`.
    pub fn new(config: &'a Config, error: Option<&'a str>) -> (r: Self)
        ensures
            r.config == config,
            r.error == error,
    {
        Self { config, error }
    }
}

/// The page shown after signing out.
pub struct OutTemplate {}

impl OutTemplate {
    /// The page shown after signing out.
    pub fn new() -> Self {
        Self {  }
    }
}

/// The first page of a new person, in gemtext.
pub struct BaseGmiTemplate<'a> {
    pub config: &'a Config,
}

impl<'a> BaseGmiTemplate<'a> {
    /// The first page of a new person.
    pub fn new(config: &'a Config) -> (r: Self)
        ensures
            r.config == config,
    {
        Self { config }
    }
}

} // verus!
