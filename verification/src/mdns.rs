//! The record by which clients find the server.

use vstd::prelude::*;

verus! {

/// The port on which the server answers.
pub const SERVER_PORT: u16 = 8000;

/// A service as it is announced on the local network.
#[derive(Debug, Clone, Copy)]
pub struct ServiceRecord {
    pub service_type: &'static str,
    pub instance_name: &'static str,
    pub host_name: &'static str,
    pub address: &'static str,
    pub port: u16,
}

/// The service that the server announces: `m32-server.local`, on all its addresses.
pub fn service_record() -> (r: ServiceRecord)
    ensures
        r.service_type@ == "_http._tcp.local."@,
        r.instance_name@ == "m32-server"@,
        r.host_name@ == "m32-server.local."@,
        r.address@ == "0.0.0.0"@,
        r.port == SERVER_PORT,
{
    ServiceRecord {
        service_type: "_http._tcp.local.",
        instance_name: "m32-server",
        host_name: "m32-server.local.",
        address: "0.0.0.0",
        port: SERVER_PORT,
    }
}

/// Clients find the server as `m32-server.local`, by HTTP on port 8000.
pub proof fn law_server_is_found(r: ServiceRecord)
    requires
        call_ensures(service_record, (), r),
    ensures
        r.host_name@ == "m32-server.local."@,
        r.instance_name@ == "m32-server"@,
        r.service_type@ == "_http._tcp.local."@,
        r.address@ == "0.0.0.0"@,
        r.port == 8000,
{
}

} // verus!
