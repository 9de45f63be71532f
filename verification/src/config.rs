//! What the host is configured with.

use vstd::prelude::*;

verus! {

/// The configuration of the host.
#[derive(Clone)]
pub struct Config {
    /// The secret that sessions are signed with.
    pub tide_secret: String,
    /// Where the database lies.
    pub db_path: String,
    /// The domain under which the host is reached.
    pub root_domain: String,
    /// The name that pages show for the host.
    pub server_name: String,
    /// The directory that holds the files of all people.
    pub file_directory: String,
    /// The directory of the host's own static files.
    pub static_path: String,
}

} // verus!
