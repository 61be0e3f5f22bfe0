//! The datagram a WSJT-X/JTDX source listener hands on.

use vstd::prelude::*;

verus! {

/// One inbound datagram, attributed to its source by name.
#[derive(Debug)]
pub struct SourceDatagram {
    pub source_name: String,
    pub data: Vec<u8>,
}

} // verus!
