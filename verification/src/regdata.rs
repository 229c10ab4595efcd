//! How registry values look in the bytes the Win32 registry calls read and
//! write: a type number and a buffer.
//!
//! Only the four types this app writes are understood. Reading anything else
//! is refused rather than guessed at, for the same reason a tweak refuses a
//! value it cannot map: what cannot be read cannot be put back.

use vstd::prelude::*;
use crate::error::Error;
use crate::provider::{loc_text, LocV, RegLoc, RegValue, RegValueV};
use crate::text::{decimal, push_decimal, push_str};
use crate::utf16::{decoded, encoded, lemma_utf16_round_trip, string_to_utf16_bytes, utf16_to_string};

verus! {

/// The registry's type number for text.
pub const REG_SZ: u32 = 1;

/// The registry's type number for text with `%VARIABLES%` in it.
pub const REG_EXPAND_SZ: u32 = 2;

/// The registry's type number for raw bytes.
pub const REG_BINARY: u32 = 3;

/// The registry's type number for a 32-bit number, least significant byte first.
pub const REG_DWORD: u32 = 4;

/// The four bytes of `d`, least significant first.
pub open spec fn dword_bytes(d: u32) -> Seq<u8> {
    seq![(d % 256) as u8, ((d / 256) % 256) as u8, ((d / 65536) % 256) as u8, (d / 16777216) as u8]
}

/// The number the first four of `b` make, least significant first.
pub open spec fn dword_of(b: Seq<u8>) -> u32 {
    (b[0] + 256 * b[1] + 65536 * b[2] + 16777216 * b[3]) as u32
}

/// What a value is written as: its type number and its bytes.
pub open spec fn raw_of(v: RegValueV) -> (u32, Seq<u8>) {
    match v {
        RegValueV::Dword(d) => (REG_DWORD, dword_bytes(d)),
        RegValueV::Sz(s) => (REG_SZ, encoded(s)),
        RegValueV::ExpandSz(s) => (REG_EXPAND_SZ, encoded(s)),
        RegValueV::Binary(b) => (REG_BINARY, b),
    }
}

/// What the bytes of the value at `loc`, of type `kind`, read as; or what is
/// said when they cannot be read.
pub open spec fn value_of_raw(loc: LocV, kind: u32, bytes: Seq<u8>) -> Result<RegValueV, Seq<char>> {
    if kind == REG_DWORD {
        if bytes.len() < 4 {
            Err(loc_text(loc) + ": REG_DWORD shorter than 4 bytes"@)
        } else {
            Ok(RegValueV::Dword(dword_of(bytes)))
        }
    } else if kind == REG_SZ {
        Ok(RegValueV::Sz(decoded(bytes)))
    } else if kind == REG_EXPAND_SZ {
        Ok(RegValueV::ExpandSz(decoded(bytes)))
    } else if kind == REG_BINARY {
        Ok(RegValueV::Binary(bytes))
    } else {
        Err(loc_text(loc) + ": registry type "@ + decimal(kind as nat) + " is not one this app writes"@)
    }
}

/// The type number and bytes `value` is written with.
pub fn encode(value: &RegValue) -> (r: (u32, Vec<u8>))
    ensures
        (r.0, r.1@) == raw_of(value@),
{
    match value {
        RegValue::Dword(d) => {
            let d = *d;
            let bytes = vec![(d % 256) as u8, ((d / 256) % 256) as u8, ((d / 65536) % 256) as u8, (d / 16777216) as u8];
            proof {
                assert(bytes@ =~= dword_bytes(d));
            }
            (REG_DWORD, bytes)
        },
        RegValue::Sz(s) => (REG_SZ, string_to_utf16_bytes(s.as_str())),
        RegValue::ExpandSz(s) => (REG_EXPAND_SZ, string_to_utf16_bytes(s.as_str())),
        RegValue::Binary(b) => {
            let mut bytes: Vec<u8> = Vec::new();
            let mut i: usize = 0;
            while i < b.len()
                invariant
                    i <= b.len(),
                    bytes@ == b@.take(i as int),
                decreases b.len() - i,
            {
                bytes.push(b[i]);
                proof {
                    assert(b@.take(i as int + 1) =~= b@.take(i as int).push(b@[i as int]));
                }
                i += 1;
            }
            proof {
                assert(b@.take(i as int) =~= b@);
            }
            (REG_BINARY, bytes)
        },
    }
}

/// The value the bytes of type `kind` read at `loc` hold; a registry error
/// for a `REG_DWORD` too short to be one, and for a type this app does not
/// write.
pub fn decode(loc: &RegLoc, kind: u32, bytes: Vec<u8>) -> (r: Result<RegValue, Error>)
    ensures
        match r {
            Ok(v) => value_of_raw(loc@, kind, bytes@) == Ok::<RegValueV, Seq<char>>(v@),
            Err(Error::Registry(m)) => value_of_raw(loc@, kind, bytes@) == Err::<RegValueV, Seq<char>>(m@),
            Err(_) => false,
        },
{
    if kind == REG_DWORD {
        if bytes.len() < 4 {
            let mut m = loc.text();
            push_str(&mut m, ": REG_DWORD shorter than 4 bytes");
            return Err(Error::registry(m));
        }
        let d = bytes[0] as u32 + 256 * (bytes[1] as u32) + 65536 * (bytes[2] as u32) + 16777216 * (
        bytes[3] as u32);
        Ok(RegValue::Dword(d))
    } else if kind == REG_SZ {
        Ok(RegValue::Sz(utf16_to_string(bytes.as_slice())))
    } else if kind == REG_EXPAND_SZ {
        Ok(RegValue::ExpandSz(utf16_to_string(bytes.as_slice())))
    } else if kind == REG_BINARY {
        Ok(RegValue::Binary(bytes))
    } else {
        let mut m = loc.text();
        push_str(&mut m, ": registry type ");
        push_decimal(&mut m, kind as u64);
        push_str(&mut m, " is not one this app writes");
        Err(Error::registry(m))
    }
}

/// What is written reads back as itself: a number, raw bytes, and any text
/// without a NUL in it (the first NUL ends the text).
pub proof fn law_written_reads_back(loc: LocV, v: RegValueV)
    requires
        v matches RegValueV::Sz(s) ==> forall|i: int| 0 <= i < s.len() ==> s[i] != '\0',
        v matches RegValueV::ExpandSz(s) ==> forall|i: int| 0 <= i < s.len() ==> s[i] != '\0',
    ensures
        value_of_raw(loc, raw_of(v).0, raw_of(v).1) == Ok::<RegValueV, Seq<char>>(v),
{
    match v {
        RegValueV::Dword(d) => {
            assert(dword_of(dword_bytes(d)) == d);
        },
        RegValueV::Sz(s) => {
            lemma_utf16_round_trip(s);
        },
        RegValueV::ExpandSz(s) => {
            lemma_utf16_round_trip(s);
        },
        RegValueV::Binary(_) => {},
    }
}

} // verus!
