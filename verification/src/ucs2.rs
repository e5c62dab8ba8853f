//! UCS-2, the string encoding UEFI names files in.

use vstd::prelude::*;
use uefi::CString16;

verus! {

/// The UCS-2 code units of `s`, one per character, if every character has
/// one: a code point below 0x10000 that is not NUL. `None` otherwise.
pub open spec fn ucs2_of(s: Seq<char>) -> Option<Seq<u16>> {
    if forall|i: int| 0 <= i < s.len() ==> 0 < (#[trigger] s[i] as u32) <= 0xFFFF {
        Some(ucs2_units(s))
    } else {
        None
    }
}

/// Each character of `s` as a 16-bit unit.
pub open spec fn ucs2_units(s: Seq<char>) -> Seq<u16> {
    Seq::new(s.len(), |i: int| s[i] as u16)
}

/// The text of `cs` as UEFI would name a file with it.
///
/// Trusted: `uefi::CString16::try_from(&str)`. Its source encodes the string
/// as UTF-16 and converts each unit with `Char16::try_from(u16)`, which
/// refuses surrogates — so a character beyond the Basic Multilingual Plane,
/// which UTF-16 writes as a surrogate pair, is refused — and refuses an
/// interior NUL; otherwise each unit is the character's code point. The units
/// are then read back without the terminating NUL (`to_u16_slice`).
#[verifier::external_body]
pub(crate) fn ucs2_from_chars(cs: &[char]) -> (r: Option<Vec<u16>>)
    ensures
        match r {
            Some(v) => ucs2_of(cs@) == Some(v@),
            None => ucs2_of(cs@) is None,
        },
{
    let s: std::string::String = cs.iter().collect();
    match CString16::try_from(s.as_str()) {
        Ok(c) => Some(c.to_u16_slice().to_vec()),
        Err(_) => None,
    }
}

/// Whether `n` is the length, in 16-bit units, of the NUL-terminated UCS-2
/// string at the start of `s`: unit `n` is the first NUL.
pub open spec fn nul_terminated_len(s: Seq<u16>, n: int) -> bool {
    &&& 0 <= n < s.len()
    &&& s[n] == 0
    &&& forall|i: int| 0 <= i < n ==> s[i] != 0
}

/// The number of units before the first NUL in `s`.
pub fn wcslen(s: &[u16]) -> (n: usize)
    requires
        exists|k: int| 0 <= k < s@.len() && s@[k] == 0,
    ensures
        nul_terminated_len(s@, n as int),
{
    let mut n: usize = 0;
    while s[n] != 0
        invariant
            0 <= n < s@.len(),
            exists|k: int| n <= k < s@.len() && s@[k] == 0,
            forall|i: int| 0 <= i < n ==> s@[i] != 0,
        decreases s@.len() - n,
    {
        n = n + 1;
    }
    n
}

} // verus!
