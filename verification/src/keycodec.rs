use crate::errors::VaultError;
use vstd::prelude::*;
use vstd::string::StrSliceExecFns;

verus! {

/// A character that may stand in a hexadecimal key string.
pub open spec fn is_hex_digit(c: char) -> bool {
    (48 <= c as u32 && c as u32 <= 57)  // '0' ..= '9'
    || (97 <= c as u32 && c as u32 <= 102)  // 'a' ..= 'f'
    || (65 <= c as u32 && c as u32 <= 70)  // 'A' ..= 'F'
}

/// The value of one hexadecimal digit.
pub open spec fn hex_val(c: char) -> int
    recommends
        is_hex_digit(c),
{
    if 48 <= c as u32 && c as u32 <= 57 {
        c as u32 - 48
    } else if 97 <= c as u32 && c as u32 <= 102 {
        c as u32 - 97 + 10
    } else {
        c as u32 - 65 + 10
    }
}

/// The byte written as the two hexadecimal digits `hi` `lo`.
pub open spec fn hex_byte(hi: char, lo: char) -> u8
    recommends
        is_hex_digit(hi),
        is_hex_digit(lo),
{
    (hex_val(hi) * 16 + hex_val(lo)) as u8
}

/// The bytes written by an even-length string of hexadecimal digits,
/// two digits to a byte, most significant digit first.
pub open spec fn hex_decoded(s: Seq<char>) -> Seq<u8>
    decreases s.len(),
{
    if s.len() < 2 {
        Seq::empty()
    } else {
        hex_decoded(s.drop_last().drop_last()).push(
            hex_byte(s[s.len() - 2], s[s.len() - 1]),
        )
    }
}

/// Whether a string is a well-formed key: exactly 64 hexadecimal digits,
/// the spelling of a 32-byte AES-256 key.
pub open spec fn valid_key_string(s: Seq<char>) -> bool {
    s.len() == 64 && forall|i: int| 0 <= i < 64 ==> is_hex_digit(#[trigger] s[i])
}

fn hex_digit_value(c: char) -> (r: Option<u8>)
    ensures
        match r {
            Some(v) => is_hex_digit(c) && v as int == hex_val(c),
            None => !is_hex_digit(c),
        },
{
    let x = c as u32;
    if 48 <= x && x <= 57 {
        Some((x - 48) as u8)
    } else if 97 <= x && x <= 102 {
        Some((x - 97 + 10) as u8)
    } else if 65 <= x && x <= 70 {
        Some((x - 65 + 10) as u8)
    } else {
        None
    }
}

/// Decode a user-supplied hexadecimal key string into the 32 raw key bytes.
/// Succeeds exactly on 64 hexadecimal digits; anything else — wrong length,
/// odd length, a character outside `0-9a-fA-F` — is `InvalidKeyFormat`.
pub fn parse_key(hex: &str) -> (r: Result<Vec<u8>, VaultError>)
    ensures
        match r {
            Ok(k) => valid_key_string(hex@) && k@ == hex_decoded(hex@) && k@.len() == 32,
            Err(e) => e == VaultError::InvalidKeyFormat && !valid_key_string(hex@),
        },
{
    let n = hex.unicode_len();
    if n != 64 {
        return Err(VaultError::InvalidKeyFormat);
    }
    let mut out: Vec<u8> = Vec::new();
    let mut i: usize = 0;
    while i < 32
        invariant
            i <= 32,
            hex@.len() == 64,
            out@.len() == i,
            out@ =~= hex_decoded(hex@.take(2 * i as int)),
            forall|j: int| 0 <= j < 2 * i ==> is_hex_digit(#[trigger] hex@[j]),
        decreases 32 - i,
    {
        let hi = hex.get_char(2 * i);
        let lo = hex.get_char(2 * i + 1);
        let hv = match hex_digit_value(hi) {
            Some(v) => v,
            None => {
                return Err(VaultError::InvalidKeyFormat);
            },
        };
        let lv = match hex_digit_value(lo) {
            Some(v) => v,
            None => {
                return Err(VaultError::InvalidKeyFormat);
            },
        };
        let b: u8 = hv * 16 + lv;
        proof {
            let t = hex@.take(2 * (i + 1) as int);
            assert(t.drop_last().drop_last() =~= hex@.take(2 * i as int));
            assert(t[t.len() - 2] == hex@[2 * i as int]);
            assert(t[t.len() - 1] == hex@[2 * i as int + 1]);
            assert(b == hex_byte(hex@[2 * i as int], hex@[2 * i as int + 1]));
        }
        out.push(b);
        i = i + 1;
    }
    proof {
        assert(hex@.take(64) =~= hex@);
    }
    Ok(out)
}

} // verus!
