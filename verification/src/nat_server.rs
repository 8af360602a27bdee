use vstd::prelude::*;

verus! {

/// Where a translating server listens and where it forwards to.
pub struct NatServer {
    pub listen_address: String,
    pub listen_port: u16,
    pub connect_address: String,
    pub connect_port: u16,
}

impl NatServer {
    pub fn new(listen_address: &str, listen_port: u16, connect_address: &str, connect_port: u16) -> (r: Self)
        ensures
            r.listen_address@ == listen_address@,
            r.listen_port == listen_port,
            r.connect_address@ == connect_address@,
            r.connect_port == connect_port,
    {
        NatServer {
            listen_address: listen_address.to_owned(),
            listen_port,
            connect_address: connect_address.to_owned(),
            connect_port,
        }
    }
}

} // verus!
