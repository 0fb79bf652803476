//! The capture side of the pipeline. Opening a device, filtering for the
//! protocol's TCP port and stripping the link, IP and TCP headers belong to
//! the embedding application; the library decodes the TCP payloads it is
//! handed as plain byte slices.

use vstd::prelude::*;

verus! {

/// Handle for a capture session. The embedding application pairs it with a
/// capture driver and feeds the extracted TCP payloads to a `PacketDecoder`.
pub struct PacketCapture {}

impl PacketCapture {
    pub fn new() -> (r: PacketCapture)
        ensures
            r == (PacketCapture {  }),
    {
        PacketCapture {  }
    }
}

} // verus!
