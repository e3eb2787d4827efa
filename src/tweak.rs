//! Reading the tweak of a peg-in descriptor from hex text.
use vstd::prelude::*;

use crate::hex::{from_hex, hex_decoded, is_hex_text};

verus! {

/// Why a text is not a tweak.
#[derive(Debug, Clone, Copy, PartialEq, Eq, Structural)]
pub enum TweakParseError {
    /// Not an even number of hex digits.
    InvalidHex,
    /// Tweaks have to be 33 bytes long.
    WrongLength,
}

/// Reads a 33-byte tweak from 66 hex digits.
pub fn tweak_parser(hex: &str) -> (r: Result<[u8; 33], TweakParseError>)
    ensures
        !is_hex_text(hex@) <==> r == Err::<[u8; 33], _>(TweakParseError::InvalidHex),
        (is_hex_text(hex@) && hex@.len() != 66) <==> r == Err::<[u8; 33], _>(
            TweakParseError::WrongLength,
        ),
        r.is_ok() ==> r.unwrap()@ == hex_decoded(hex@),
{
    match from_hex(hex) {
        None => Err(TweakParseError::InvalidHex),
        Some(v) => {
            if v.len() != 33 {
                Err(TweakParseError::WrongLength)
            } else {
                let mut out = [0u8; 33];
                let mut i: usize = 0;
                while i < 33
                    invariant
                        v@.len() == 33,
                        i <= 33,
                        forall|j: int| 0 <= j < i ==> out@[j] == v@[j],
                    decreases 33 - i,
                {
                    out[i] = v[i];
                    i += 1;
                }
                assert(out@ =~= v@);
                Ok(out)
            }
        },
    }
}

} // verus!
