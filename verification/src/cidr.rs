//! CIDR blocks: an address prefix paired with a mask length.

use crate::prefix::Prefix;
use vstd::prelude::*;

verus! {

/// Failure to read the mask length part of a block text.
#[derive(Debug, Clone, Copy)]
pub struct LengthParseError;

/// Failure to read a block text, telling a malformed address part from
/// a malformed mask length part.
#[derive(Debug, Clone, Copy)]
pub enum CidrParseError {
    Prefix(crate::prefix::AddrParseError),
    Length(LengthParseError),
}

/// The address part of a block text: what stands before the first `/`,
/// or the whole text when there is none.
pub open spec fn spec_addr_part(s: Seq<char>) -> Seq<char> {
    if crate::text::find_ch(s, '/') >= s.len() {
        s
    } else {
        s.take(crate::text::find_ch(s, '/') as int)
    }
}

/// The mask length part of a block text: what stands after the first
/// `/`, if any.
pub open spec fn spec_len_part(s: Seq<char>) -> Option<Seq<char>> {
    if crate::text::find_ch(s, '/') >= s.len() {
        None
    } else {
        Some(s.skip(crate::text::find_ch(s, '/') + 1int))
    }
}

/// The full bit width of the family that an address text names: 32
/// when it is a dotted-quad address, else 128.
pub open spec fn spec_family_width(addr: Seq<char>) -> nat {
    if crate::text::spec_ipv4(addr) is Some {
        32
    } else {
        128
    }
}

/// The mask length that a block text names, if both its address part
/// and its length part are valid: the written length, or the family's
/// full width when none is written.
pub open spec fn spec_cidr_length(s: Seq<char>) -> Option<u8> {
    let addr = spec_addr_part(s);
    if crate::text::spec_addr_bytes(addr) is Some {
        match spec_len_part(s) {
            None => Some(spec_family_width(addr) as u8),
            Some(lp) => crate::text::spec_len_value(lp, spec_family_width(addr)),
        }
    } else {
        None
    }
}

/// The significant bits of the block that a valid block text names.
pub open spec fn spec_cidr_bits(s: Seq<char>) -> Option<Seq<bool>> {
    match (crate::text::spec_addr_bytes(spec_addr_part(s)), spec_cidr_length(s)) {
        (Some(ab), Some(l)) => Some(
            crate::prefix::bits_of_bytes(ab.reverse()).take(l as int),
        ),
        _ => None,
    }
}

/// An address block: all addresses sharing the first `length` bits of
/// `prefix`.
#[derive(Debug, Clone, Copy)]
pub struct Cidr {
    pub prefix: crate::prefix::Prefix,
    pub length: u8,
}

impl Cidr {
    /// The mask length never exceeds the bit width of the address family.
    pub open spec fn wf(self) -> bool {
        self.length as nat <= self.prefix.width()
    }

    /// The block's significant bits: the first `length` address bits,
    /// most significant first.
    pub open spec fn bits(self) -> Seq<bool> {
        self.prefix.bits().take(self.length as int)
    }

    /// The block one bit more specific, seen from the position after the
    /// current leading bit: the prefix shifted left by one, the length
    /// one less.  The block's bit sequence loses its first element.
    pub fn next(&self) -> (r: Cidr)
        requires
            self.wf(),
            self.length > 0,
        ensures
            r.wf(),
            r.prefix.same_family(self.prefix),
            r.length == self.length - 1,
            r.bits() == self.bits().drop_first(),
    {
        let r = Cidr { prefix: self.prefix.shift_left(1), length: self.length - 1 };
        proof {
            assert(r.bits() =~= self.bits().drop_first());
        }
        r
    }

    /// The block's leading bit: 0 for the universal (zero-length) block,
    /// which has no bit left to test, otherwise the prefix's most
    /// significant bit.
    pub fn msbit(&self) -> (r: u8)
        requires
            self.wf(),
        ensures
            r <= 1,
            (r == 1) == (self.length > 0 && self.bits()[0]),
    {
        if self.length == 0 {
            0
        } else {
            self.prefix.msbit()
        }
    }

    /// A block from its text `<address>` or `<address>/<length>`: the
    /// address part as `Prefix::from_str` reads it, the length part as
    /// a decimal number of at most the family's bit width, defaulting
    /// to the family's full width when absent.
    pub fn from_str(s: &str) -> (r: Result<Cidr, CidrParseError>)
        ensures
            (r is Ok) == (spec_cidr_bits(s@) is Some),
            r matches Ok(c) ==> Some(c.bits()) == spec_cidr_bits(s@),
            ({
                let addr = spec_addr_part(s@);
                let ab = crate::text::spec_addr_bytes(addr);
                match r {
                    Ok(c) => {
                        &&& ab is Some
                        &&& c.wf()
                        &&& c.prefix.byte_seq() == ab->0.reverse()
                        &&& (c.prefix is V4) == (crate::text::spec_ipv4(addr) is Some)
                        &&& match spec_len_part(s@) {
                            None => c.length as nat == spec_family_width(addr),
                            Some(lp) => Some(c.length) == crate::text::spec_len_value(
                                lp,
                                spec_family_width(addr),
                            ),
                        }
                    },
                    Err(CidrParseError::Prefix(_)) => ab is None,
                    Err(CidrParseError::Length(_)) => ab is Some && (match spec_len_part(s@) {
                        None => false,
                        Some(lp) => crate::text::spec_len_value(
                            lp,
                            spec_family_width(addr),
                        ) is None,
                    }),
                }
            }),
    {
        let v = crate::text::str_chars(s);
        let n = v.len();
        let slash = crate::text::find_char_in(&v, '/', 0, n);
        proof {
            assert(v@.subrange(0, n as int) =~= s@);
            assert(v@.subrange(0, slash as int) =~= spec_addr_part(s@));
        }
        let prefix_opt: Option<Prefix> = match crate::text::parse_ipv4_in(&v, 0, slash) {
            Some(o) => Some(Prefix::from_ipv4(o)),
            None => match crate::text::parse_ipv6_in(&v, 0, slash) {
                Some(b) => Some(Prefix::from_ipv6(b)),
                None => None,
            },
        };
        match prefix_opt {
            None => Err(CidrParseError::Prefix(crate::prefix::AddrParseError)),
            Some(p) => {
                let width: u8 = match p {
                    Prefix::V4(_) => 32,
                    Prefix::V6(_) => 128,
                };
                if slash == n {
                    Ok(Cidr { prefix: p, length: width })
                } else {
                    proof {
                        assert(v@.subrange(slash + 1int, n as int) =~= spec_len_part(
                            s@,
                        )->0);
                    }
                    match crate::text::parse_dec_part(&v, slash + 1, n, width as u32, false) {
                        Some(l) => Ok(Cidr { prefix: p, length: l as u8 }),
                        None => Err(CidrParseError::Length(LengthParseError)),
                    }
                }
            },
        }
    }

    /// A V4 block from four octets in network order and a mask length.
    pub fn from_slice(bits: [u8; 4], length: u8) -> (r: Cidr)
        requires
            length <= 32,
        ensures
            r.wf(),
            r.prefix is V4,
            r.prefix.byte_seq() == bits@.reverse(),
            r.length == length,
    {
        Cidr { prefix: Prefix::from_ipv4(bits), length }
    }

    /// A V4 block from a 32-bit address value in network bit order (the
    /// most significant byte is the first octet) and a mask length.
    /// `None` when the mask length exceeds the 32-bit width.
    pub fn from_bits(bits: u32, length: u8) -> (r: Option<Cidr>)
        ensures
            (r is Some) == (length <= 32),
            r matches Some(c) ==> {
                &&& c.wf()
                &&& c.prefix is V4
                &&& c.length == length
                &&& c.prefix.byte_seq() =~= seq![
                    (bits & 0xff) as u8,
                    ((bits >> 8u32) & 0xff) as u8,
                    ((bits >> 16u32) & 0xff) as u8,
                    ((bits >> 24u32) & 0xff) as u8,
                ]
            },
    {
        if length > 32 {
            return None;
        }
        let o0 = ((bits >> 24u32) & 0xff) as u8;
        let o1 = ((bits >> 16u32) & 0xff) as u8;
        let o2 = ((bits >> 8u32) & 0xff) as u8;
        let o3 = (bits & 0xff) as u8;
        proof {
            assert((bits >> 24u32) & 0xff < 256 && (bits >> 16u32) & 0xff < 256 && (bits
                >> 8u32) & 0xff < 256 && bits & 0xff < 256) by (bit_vector);
        }
        let mut octs: [u8; 4] = [0; 4];
        octs[0] = o0;
        octs[1] = o1;
        octs[2] = o2;
        octs[3] = o3;
        let r = Cidr::from_slice(octs, length);
        Some(r)
    }

    /// The 32-bit address value of a V4 block's prefix, most significant
    /// octet first.
    pub fn prefix_bits(&self) -> (r: u32)
        requires
            self.prefix is V4,
        ensures
            ({
                let b = self.prefix.byte_seq();
                r == ((b[3] as u32) << 24u32) | ((b[2] as u32) << 16u32) | ((b[1] as u32)
                    << 8u32) | (b[0] as u32)
            }),
    {
        let o = self.prefix.octets();
        ((o[0] as u32) << 24u32) | ((o[1] as u32) << 16u32) | ((o[2] as u32) << 8u32) | (o[3]
            as u32)
    }
}

impl PartialEq for Cidr {
    fn eq(&self, other: &Cidr) -> bool {
        self.prefix == other.prefix && self.length == other.length
    }
}

impl vstd::std_specs::cmp::PartialEqSpecImpl for Cidr {
    open spec fn obeys_eq_spec() -> bool {
        true
    }

    open spec fn eq_spec(&self, other: &Cidr) -> bool {
        *self == *other
    }
}

impl Eq for Cidr {

}

} // verus!
