use vstd::prelude::*;

verus! {

/// The NAL unit type carried by a header byte: its five low bits.
pub open spec fn unit_code_of(header: u8) -> u8 {
    header & 0x1f
}

/// A header's unit type is one of the 32 codes 0 to 31.
pub proof fn lemma_unit_code_bound(header: u8)
    ensures
        unit_code_of(header) <= 31,
{
    assert(header & 0x1f <= 31) by (bit_vector);
}

/// One NAL unit of the stream: its raw bytes, starting with the start code
/// `00 00 01` and the header byte, and the type code read from that header.
#[derive(Clone, Debug)]
pub struct H264NalUnit {
    /// The NAL unit type (0 to 31): the five low bits of the header byte.
    pub unit_code: u8,
    /// The bytes of the unit, unparsed, from its start code on.
    pub raw_bytes: Vec<u8>,
}

impl H264NalUnit {
    /// The unit's type code is the one its header byte gives.
    pub open spec fn wf(&self) -> bool {
        &&& self.raw_bytes@.len() >= 4
        &&& self.unit_code == unit_code_of(self.raw_bytes@[3])
    }

    /// Builds a unit from its raw bytes: a start code of three bytes, then
    /// the header byte, then the payload.
    pub fn new(raw_bytes: Vec<u8>) -> (r: Self)
        requires
            raw_bytes@.len() >= 4,
        ensures
            r.wf(),
            r.raw_bytes@ == raw_bytes@,
            r.unit_code == unit_code_of(raw_bytes@[3]),
            r.unit_code <= 31,
    {
        let unit_code = raw_bytes[3] & 0x1f;
        proof {
            lemma_unit_code_bound(raw_bytes@[3]);
        }
        H264NalUnit { unit_code, raw_bytes }
    }
}

} // verus!
