//! The name servers of a run.

use vstd::prelude::*;

verus! {

/// A name server to be asked: a display name and the host to send the
/// queries to.
#[derive(Clone, Debug, PartialEq, Eq)]
pub struct NameServer {
    /// The name the server is reported and stored under.
    pub name: String,
    /// The host name or address of the server.
    pub host: String,
}

impl NameServer {
    /// The name server of the given display name and host.
    pub fn new(name: String, host: String) -> (out: NameServer)
        ensures
            out.name == name,
            out.host == host,
    {
        NameServer { name, host }
    }
}

} // verus!
