//! The simulator side of the vehicle: its connection settings, and the
//! converter that turns its telemetry into sensor data.
use vstd::prelude::*;

verus! {

/// Converts simulator telemetry into sensor data.
pub struct TelemetryConverter;

/// A client of the Unity simulator (Socket.IO, port 4567 by default).
pub struct UnityClient {
    host: String,
    port: u16,
}

impl UnityClient {
    /// The host the client connects to.
    pub closed spec fn host_spec(&self) -> Seq<char> {
        self.host@
    }

    /// The port the client connects to.
    pub closed spec fn port_spec(&self) -> u16 {
        self.port
    }

    /// A client for the simulator at `host` and `port`.
    pub fn new(host: &str, port: u16) -> (r: UnityClient)
        ensures
            r.host_spec() == host@,
            r.port_spec() == port,
    {
        UnityClient { host: host.to_owned(), port }
    }

    /// The host.
    pub fn host(&self) -> (r: &str)
        ensures
            r@ == self.host_spec(),
    {
        self.host.as_str()
    }

    /// The port.
    pub fn port(&self) -> (r: u16)
        ensures
            r == self.port_spec(),
    {
        self.port
    }
}

impl Default for UnityClient {
    /// The simulator on this machine, port 4567.
    fn default() -> (r: UnityClient)
        ensures
            r.host_spec() == "127.0.0.1"@,
            r.port_spec() == 4567,
    {
        UnityClient::new("127.0.0.1", 4567)
    }
}

} // verus!
