//! Emulated ROM sizes.
//!
//! A device emulates a ROM whose size is a power-of-two count of kilobits
//! or megabits.  The size determines both the number of payload bytes the
//! device serves and the address mask configured on it.

use vstd::prelude::*;
use vstd::string::*;
use vstd::arithmetic::div_mod::*;
use vstd::arithmetic::mul::*;
use crate::hex::{trim_spaces, parse_hex_usize, spec_trim, spec_all_hex, spec_hex_value};

verus! {

/// An emulated ROM size, counted in megabits or kilobits.
#[derive(Clone, Copy, Debug)]
pub enum RomSize {
    MBit(usize),
    KBit(usize),
}

impl RomSize {
    /// The number of bytes this size stands for.
    pub open spec fn spec_bytes(self) -> int {
        match self {
            RomSize::MBit(x) => x * 128 * 1024,
            RomSize::KBit(x) => x * 128,
        }
    }

    /// The size a byte count stands for: the megabit form for a whole
    /// number of megabits, the kilobit form for a whole number of
    /// kilobits, nothing otherwise.
    pub open spec fn spec_from_bytes(bytes: int) -> Option<RomSize> {
        let bits = bytes * 8;
        if bits >= 1048576 && bits % 1048576int == 0 {
            Some(RomSize::MBit((bits / 1048576int) as usize))
        } else if bits >= 1024 && bits % 1024int == 0 {
            Some(RomSize::KBit((bits / 1024int) as usize))
        } else {
            None
        }
    }

    /// Parse a ROM size from a byte count, as reported by the device.
    ///
    /// Returns the megabit form whenever the bit count is a whole number
    /// of megabits, the kilobit form for a whole number of kilobits, and
    /// nothing otherwise.
    pub fn from_bytes(bytes: usize) -> (r: Option<RomSize>)
        requires
            bytes * 8 <= usize::MAX,
        ensures
            r == RomSize::spec_from_bytes(bytes as int),
            match r {
                Some(s) => s.spec_bytes() == bytes && (s is MBit <==> (bytes as int * 8
                    >= 1048576 && bytes as int * 8 % 1048576int == 0)),
                None => !(bytes as int * 8 >= 1024 && bytes as int * 8 % 1024int == 0),
            },
    {
        let bits: usize = bytes * 8;
        if bits >= 1024 * 1024 && bits % (1024 * 1024) == 0 {
            Some(RomSize::MBit(bits / (1024 * 1024)))
        } else if bits >= 1024 && bits % 1024 == 0 {
            Some(RomSize::KBit(bits / 1024))
        } else {
            None
        }
    }

    /// The size named by a hex string such as `0x00040000`, as the
    /// device reports its ROM size: optional whitespace, an optional
    /// `0x` prefix, hex digits.
    pub fn from_hex_bytes(s: &str) -> (r: Option<RomSize>)
        ensures
            ({
                let t0 = spec_trim(s@);
                let t = if t0.len() >= 2 && t0[0] == '0' && t0[1] == 'x' {
                    t0.skip(2)
                } else {
                    t0
                };
                r == (if t.len() > 0 && spec_all_hex(t) && spec_hex_value(t) <= usize::MAX
                    && spec_hex_value(t) * 8 <= usize::MAX {
                    RomSize::spec_from_bytes(spec_hex_value(t))
                } else {
                    Option::<RomSize>::None
                })
            }),
    {
        let trimmed = trim_spaces(s);
        let tn = trimmed.unicode_len();
        let stripped = if tn >= 2 && trimmed.get_char(0) == '0' && trimmed.get_char(1) == 'x' {
            trimmed.substring_char(2, tn)
        } else {
            trimmed
        };
        proof {
            let t0 = spec_trim(s@);
            if t0.len() >= 2 && t0[0] == '0' && t0[1] == 'x' {
                assert(stripped@ =~= t0.skip(2));
            }
        }
        let bytes = match parse_hex_usize(stripped) {
            Some(v) => v,
            None => {
                return None;
            }
        };
        if bytes > usize::MAX / 8 {
            proof {
                lemma_fundamental_div_mod(usize::MAX as int, 8);
                lemma_mod_bound(usize::MAX as int, 8);
                assert(bytes as int * 8 >= (usize::MAX / 8 + 1) * 8) by (nonlinear_arith)
                    requires
                        bytes > usize::MAX / 8,
                ;
            }
            return None;
        }
        proof {
            lemma_fundamental_div_mod(usize::MAX as int, 8);
            lemma_mod_bound(usize::MAX as int, 8);
            assert(bytes as int * 8 <= (usize::MAX / 8) * 8) by (nonlinear_arith)
                requires
                    bytes <= usize::MAX / 8,
            ;
        }
        RomSize::from_bytes(bytes)
    }

    /// The number of bytes this size stands for.
    pub fn bytes(&self) -> (r: usize)
        requires
            self.spec_bytes() <= usize::MAX,
        ensures
            r == self.spec_bytes(),
    {
        match *self {
            RomSize::MBit(x) => x * 128 * 1024,
            RomSize::KBit(x) => x * 128,
        }
    }

    /// The address mask for this size: one less than the byte count.
    pub fn mask(&self) -> (r: u32)
        requires
            1 <= self.spec_bytes() <= u32::MAX,
        ensures
            r == self.spec_bytes() - 1,
    {
        self.bytes() as u32 - 1
    }

    /// The sizes a device can be asked to emulate, largest first.
    pub fn standard_sizes() -> (r: Vec<RomSize>)
        ensures
            r@ =~= seq![
                RomSize::MBit(2),
                RomSize::MBit(1),
                RomSize::KBit(512),
                RomSize::KBit(256),
                RomSize::KBit(128),
                RomSize::KBit(64),
                RomSize::KBit(32),
                RomSize::KBit(16),
                RomSize::KBit(8),
            ],
            forall|i: int| 0 <= i < r@.len() ==> 1 <= #[trigger] r@[i].spec_bytes() <= u32::MAX,
    {
        let mut v: Vec<RomSize> = Vec::new();
        v.push(RomSize::MBit(2));
        v.push(RomSize::MBit(1));
        v.push(RomSize::KBit(512));
        v.push(RomSize::KBit(256));
        v.push(RomSize::KBit(128));
        v.push(RomSize::KBit(64));
        v.push(RomSize::KBit(32));
        v.push(RomSize::KBit(16));
        v.push(RomSize::KBit(8));
        v
    }
}

} // verus!
