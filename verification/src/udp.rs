use crate::encoding::NetworkPackage;
use vstd::prelude::*;

verus! {

/// A datagram of the transport layer without acknowledgements.
pub struct UDPPackage {
    data: Vec<u8>,
}

impl NetworkPackage for UDPPackage {

}

} // verus!
