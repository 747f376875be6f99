//! The 16-bit flags word of a DNS message header.

use vstd::prelude::*;

verus! {

/// The fields of a DNS header flags word, each held as a plain value.
#[derive(Clone, Copy, Debug, PartialEq, Eq, Structural)]
pub struct HeaderFlags {
    /// QR: set in a response.
    pub response: bool,
    /// Opcode: four bits.
    pub opcode: u8,
    /// AA: authoritative answer.
    pub authoritative: bool,
    /// TC: message truncated.
    pub truncated: bool,
    /// RD: recursion desired.
    pub recursion_desired: bool,
    /// RA: recursion available.
    pub recursion_available: bool,
    /// Z: three reserved bits.
    pub reserved: u8,
    /// RCODE: four bits.
    pub rcode: u8,
}

pub open spec fn bit(b: bool) -> int {
    if b { 1 } else { 0 }
}

impl HeaderFlags {
    /// Every field fits in its bit range.
    pub open spec fn wf(&self) -> bool {
        self.opcode < 16 && self.reserved < 8 && self.rcode < 16
    }

    /// The flags word: QR at bit 15, Opcode at bits 11-14, AA at bit 10,
    /// TC at bit 9, RD at bit 8, RA at bit 7, Z at bits 4-6, RCODE at bits 0-3.
    pub open spec fn word(&self) -> int {
        bit(self.response) * 0x8000 + self.opcode as int * 0x800 + bit(self.authoritative) * 0x400
            + bit(self.truncated) * 0x200 + bit(self.recursion_desired) * 0x100
            + bit(self.recursion_available) * 0x80 + self.reserved as int * 0x10
            + self.rcode as int
    }

    /// The flags of every response this server sends: a response to a
    /// standard query, not authoritative, not truncated, recursion desired
    /// and available, no error.
    pub fn response_flags() -> (r: HeaderFlags)
        ensures
            r.wf(),
            r.response,
            r.opcode == 0,
            !r.authoritative,
            !r.truncated,
            r.recursion_desired,
            r.recursion_available,
            r.reserved == 0,
            r.rcode == 0,
    {
        HeaderFlags {
            response: true,
            opcode: 0,
            authoritative: false,
            truncated: false,
            recursion_desired: true,
            recursion_available: true,
            reserved: 0,
            rcode: 0,
        }
    }

    /// Packs the fields into the 16-bit word.
    pub fn encode(&self) -> (r: u16)
        requires
            self.wf(),
        ensures
            r as int == self.word(),
    {
        let qr: u16 = if self.response { 1 } else { 0 };
        let aa: u16 = if self.authoritative { 1 } else { 0 };
        let tc: u16 = if self.truncated { 1 } else { 0 };
        let rd: u16 = if self.recursion_desired { 1 } else { 0 };
        let ra: u16 = if self.recursion_available { 1 } else { 0 };
        qr * 0x8000 + (self.opcode as u16) * 0x800 + aa * 0x400 + tc * 0x200 + rd * 0x100 + ra
            * 0x80 + (self.reserved as u16) * 0x10 + self.rcode as u16
    }
}

/// The flags word of every response: 0x8180.
pub fn response_flags_word() -> (r: u16)
    ensures
        r == 0x8180,
{
    let f = HeaderFlags::response_flags();
    f.encode()
}

} // verus!
