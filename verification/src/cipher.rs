use crate::errors::VaultError;
use block_modes::BlockMode;
use vstd::prelude::*;
use vstd::slice::slice_subrange;

verus! {

/// What AES-256-CBC with PKCS#7 padding produces for a key, an IV and a
/// message; a function of those arguments alone.
pub uninterp spec fn cbc_enc(key: Seq<u8>, iv: Seq<u8>, pt: Seq<u8>) -> Seq<u8>;

/// What AES-256-CBC decryption with PKCS#7 unpadding yields for a key, an IV
/// and a ciphertext: the message, or `None` when the ciphertext is not
/// block-aligned or its padding does not check out.
pub uninterp spec fn cbc_dec(key: Seq<u8>, iv: Seq<u8>, ct: Seq<u8>) -> Option<Seq<u8>>;

/// The on-disk layout of a vault: the 16-byte IV, then the ciphertext.
pub open spec fn seal_spec(key: Seq<u8>, iv: Seq<u8>, pt: Seq<u8>) -> Seq<u8> {
    iv + cbc_enc(key, iv, pt)
}

/// Reading a vault back: split off the IV, then decrypt the remainder.
/// `None` on input too short or not block-aligned, and on padding failure.
pub open spec fn unseal_spec(key: Seq<u8>, vault: Seq<u8>) -> Option<Seq<u8>> {
    if vault.len() >= 16 && (vault.len() - 16) % 16 == 0 {
        cbc_dec(key, vault.take(16), vault.skip(16))
    } else {
        None
    }
}

/// Relies on `block_modes::BlockMode::encrypt_vec` for `Cbc<Aes256, Pkcs7>`:
/// it pads the message to the next 16-byte boundary (a whole padding block
/// when the message is already aligned) and encrypts the blocks, and
/// `decrypt_vec` under the same key and IV inverts it.
#[verifier::external_body]
fn aes_cbc_encrypt(key: &[u8], iv: &[u8], pt: &[u8]) -> (r: Vec<u8>)
    requires
        key@.len() == 32,
        iv@.len() == 16,
        pt@.len() <= usize::MAX - 32,
    ensures
        r@ == cbc_enc(key@, iv@, pt@),
        r@.len() == (pt@.len() / 16 + 1) * 16,
        cbc_dec(key@, iv@, r@) == Some(pt@),
{
    let cipher: block_modes::Cbc<aes::Aes256, block_modes::block_padding::Pkcs7> =
        block_modes::BlockMode::new_from_slices(key, iv).unwrap();
    cipher.encrypt_vec(pt)
}

/// Relies on `block_modes::BlockMode::decrypt_vec` for `Cbc<Aes256, Pkcs7>`:
/// it fails exactly on input that is not a multiple of the block size or
/// whose PKCS#7 padding is inconsistent after decryption.
#[verifier::external_body]
fn aes_cbc_decrypt(key: &[u8], iv: &[u8], ct: &[u8]) -> (r: Option<Vec<u8>>)
    requires
        key@.len() == 32,
        iv@.len() == 16,
    ensures
        match r {
            Some(pt) => cbc_dec(key@, iv@, ct@) == Some(pt@),
            None => cbc_dec(key@, iv@, ct@) is None,
        },
{
    let cipher: block_modes::Cbc<aes::Aes256, block_modes::block_padding::Pkcs7> =
        block_modes::BlockMode::new_from_slices(key, iv).unwrap();
    match cipher.decrypt_vec(ct) {
        Ok(pt) => Some(pt),
        Err(_) => None,
    }
}

/// Relies on `getrandom::getrandom` to fill the buffer from the operating
/// system's entropy source; nothing is promised of the bytes themselves.
#[verifier::external_body]
fn os_random_16() -> (r: Result<Vec<u8>, VaultError>)
    ensures
        r matches Ok(v) ==> v@.len() == 16,
        r matches Err(e) ==> e == VaultError::IoError,
{
    let mut buf = vec![0u8; 16];
    match getrandom::getrandom(&mut buf) {
        Ok(()) => Ok(buf),
        Err(_) => Err(VaultError::IoError),
    }
}

/// Draw a fresh 16-byte IV from the operating system's entropy source.
pub fn generate_iv() -> (r: Result<Vec<u8>, VaultError>)
    ensures
        r matches Ok(v) ==> v@.len() == 16,
        r matches Err(e) ==> e == VaultError::IoError,
{
    os_random_16()
}

/// Seal a plaintext: pad and encrypt it under `key` and `iv`, and prepend the
/// IV, giving the exact byte layout of a vault file.
pub fn encrypt(plaintext: &Vec<u8>, key: &Vec<u8>, iv: &Vec<u8>) -> (r: Vec<u8>)
    requires
        key@.len() == 32,
        iv@.len() == 16,
        plaintext@.len() <= usize::MAX - 32,
    ensures
        r@ == seal_spec(key@, iv@, plaintext@),
        r@.len() == 16 + (plaintext@.len() / 16 + 1) * 16,
        unseal_spec(key@, r@) == Some(plaintext@),
{
    let ct = aes_cbc_encrypt(key.as_slice(), iv.as_slice(), plaintext.as_slice());
    let mut out: Vec<u8> = Vec::new();
    let mut i: usize = 0;
    while i < iv.len()
        invariant
            i <= iv@.len(),
            iv@.len() == 16,
            out@ =~= iv@.take(i as int),
        decreases iv@.len() - i,
    {
        out.push(iv[i]);
        i = i + 1;
    }
    let mut j: usize = 0;
    while j < ct.len()
        invariant
            j <= ct@.len(),
            out@ =~= iv@ + ct@.take(j as int),
        decreases ct@.len() - j,
    {
        out.push(ct[j]);
        j = j + 1;
    }
    proof {
        assert(out@ =~= iv@ + cbc_enc(key@, iv@, plaintext@));
        assert(out@.take(16) =~= iv@);
        assert(out@.skip(16) =~= cbc_enc(key@, iv@, plaintext@));
    }
    out
}

/// Open a sealed vault: split off the IV and decrypt the remainder.
/// Fails with `DecryptionError` exactly when the input is too short, not
/// block-aligned, or its padding does not decrypt consistently (wrong key or
/// corrupted ciphertext).
pub fn decrypt(vault: &Vec<u8>, key: &Vec<u8>) -> (r: Result<Vec<u8>, VaultError>)
    requires
        key@.len() == 32,
    ensures
        match r {
            Ok(pt) => unseal_spec(key@, vault@) == Some(pt@),
            Err(e) => e == VaultError::DecryptionError && unseal_spec(key@, vault@) is None,
        },
{
    if vault.len() < 16 {
        return Err(VaultError::DecryptionError);
    }
    if (vault.len() - 16) % 16 != 0 {
        return Err(VaultError::DecryptionError);
    }
    let ivs = slice_subrange(vault.as_slice(), 0, 16);
    let cts = slice_subrange(vault.as_slice(), 16, vault.len());
    proof {
        assert(vault@.take(16) =~= ivs@);
        assert(vault@.skip(16) =~= cts@);
    }
    match aes_cbc_decrypt(key.as_slice(), ivs, cts) {
        Some(pt) => Ok(pt),
        None => Err(VaultError::DecryptionError),
    }
}

/// Two seals of the same plaintext under the same key differ whenever their
/// IVs differ: the vault bytes begin with the IV itself. With a fresh random
/// IV per call, successive saves of identical content yield distinct vaults.
pub proof fn lemma_distinct_iv_distinct_seal(
    key: Seq<u8>,
    iv1: Seq<u8>,
    iv2: Seq<u8>,
    pt: Seq<u8>,
)
    requires
        iv1.len() == 16,
        iv2.len() == 16,
        iv1 != iv2,
    ensures
        seal_spec(key, iv1, pt) != seal_spec(key, iv2, pt),
{
    assert(seal_spec(key, iv1, pt).take(16) =~= iv1);
    assert(seal_spec(key, iv2, pt).take(16) =~= iv2);
}

} // verus!
