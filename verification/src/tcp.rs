//! The listening endpoint, as configured. Binding the socket, accepting
//! connections and reading from them happen outside; the records a
//! connection yields are handed to the dispatcher as plain values.

use vstd::prelude::*;

verus! {

/// Where the listener accepts connections.
pub struct TcpInput {
    pub host: String,
    pub port: u16,
}

impl TcpInput {
    /// An endpoint at the given host and port.
    pub fn new(host: String, port: u16) -> (r: TcpInput)
        ensures
            r.host@ == host@,
            r.port == port,
    {
        TcpInput { host: host, port: port }
    }
}

} // verus!
