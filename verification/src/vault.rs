use crate::cipher::{decrypt, encrypt, generate_iv, seal_spec, unseal_spec};
use crate::codec::{decode_store, enc_store, encode_store, dec_store, lemma_codec_round_trip, store_fits};
use crate::errors::VaultError;
use crate::store::{
    fetch_spec, insert_spec, lemma_wf_len_bound, pairs_view, soft_delete_spec, store_wf,
    update_spec, visible_of, NoteStore, StoreView,
};
use vstd::prelude::*;

verus! {

/// What opening a vault under a key denotes: decrypt the bytes, then parse
/// the snapshot. `DecryptionError` when the bytes do not decrypt under the
/// key; `SchemaError` when the decrypted bytes are not a well-formed
/// snapshot.
pub open spec fn open_spec(key: Seq<u8>, vault: Seq<u8>) -> Result<StoreView, VaultError> {
    match unseal_spec(key, vault) {
        Some(pt) => match dec_store(pt) {
            Some(v) => Ok(v),
            None => Err(VaultError::SchemaError),
        },
        None => Err(VaultError::DecryptionError),
    }
}

/// The snapshot a vault opens to, when it opens at all.
pub open spec fn empty_store() -> StoreView {
    StoreView { notes: Seq::empty(), next_id: 1 }
}

/// `out` is some sealing of the snapshot `v` under `key`: the IV varies from
/// call to call, so only its existence is stated.
pub open spec fn sealed_store(key: Seq<u8>, v: StoreView, out: Seq<u8>) -> bool {
    exists|iv: Seq<u8>| iv.len() == 16 && out == seal_spec(key, iv, enc_store(v))
}

/// Decrypt a vault and parse the snapshot it holds.
pub fn open_store(vault: &Vec<u8>, key: &Vec<u8>) -> (r: Result<NoteStore, VaultError>)
    requires
        key@.len() == 32,
    ensures
        match r {
            Ok(s) => open_spec(key@, vault@) == Ok::<StoreView, VaultError>(s@) && store_wf(s@)
                && store_fits(s@),
            Err(e) => open_spec(key@, vault@) == Err::<StoreView, VaultError>(e),
        },
{
    let pt = match decrypt(vault, key) {
        Ok(p) => p,
        Err(e) => {
            return Err(e);
        },
    };
    match decode_store(&pt) {
        Ok(s) => Ok(s),
        Err(e) => Err(e),
    }
}

/// Write a snapshot out and seal it under the key with a freshly drawn IV.
pub fn seal_store(s: &NoteStore, key: &Vec<u8>) -> (r: Result<Vec<u8>, VaultError>)
    requires
        key@.len() == 32,
    ensures
        match r {
            Ok(out) => sealed_store(key@, s@, out@) && unseal_spec(key@, out@) == Some(
                enc_store(s@),
            ),
            Err(e) => e == VaultError::IoError || (e == VaultError::SchemaError && enc_store(
                s@,
            ).len() > usize::MAX - 32),
        },
{
    let iv = match generate_iv() {
        Ok(v) => v,
        Err(e) => {
            return Err(e);
        },
    };
    let encoded = encode_store(s);
    if encoded.len() > usize::MAX - 32 {
        return Err(VaultError::SchemaError);
    }
    let out = encrypt(&encoded, key, &iv);
    proof {
        assert(iv@.len() == 16 && out@ == seal_spec(key@, iv@, enc_store(s@)));
    }
    Ok(out)
}

/// Make a brand-new vault: an empty note table, sealed under the key.
pub fn create_vault(key: &Vec<u8>) -> (r: Result<Vec<u8>, VaultError>)
    requires
        key@.len() == 32,
    ensures
        match r {
            Ok(out) => sealed_store(key@, empty_store(), out@) && open_spec(key@, out@)
                == Ok::<StoreView, VaultError>(empty_store()),
            Err(e) => e == VaultError::IoError,
        },
{
    let s = NoteStore::new();
    proof {
        assert(s@ =~= empty_store());
        assert(enc_store(empty_store()).len() == 16);
    }
    match seal_store(&s, key) {
        Ok(out) => {
            proof {
                lemma_codec_round_trip(empty_store());
            }
            Ok(out)
        },
        Err(e) => Err(e),
    }
}

/// Open a vault and list its visible notes as (id, title) pairs.
pub fn open_vault(vault: &Vec<u8>, key: &Vec<u8>) -> (r: Result<
    Vec<(u64, Vec<u8>)>,
    VaultError,
>)
    requires
        key@.len() == 32,
    ensures
        match r {
            Ok(l) => open_spec(key@, vault@) matches Ok(v) && pairs_view(l@) == visible_of(
                v.notes,
            ),
            Err(e) => open_spec(key@, vault@) == Err::<StoreView, VaultError>(e),
        },
{
    let s = match open_store(vault, key) {
        Ok(s) => s,
        Err(e) => {
            return Err(e);
        },
    };
    Ok(s.list_visible())
}

/// Open a vault and read one note by id; a hidden or absent note is
/// `NotFoundError`.
pub fn read_note(vault: &Vec<u8>, key: &Vec<u8>, id: u64) -> (r: Result<
    (Vec<u8>, Vec<u8>),
    VaultError,
>)
    requires
        key@.len() == 32,
    ensures
        match r {
            Ok(p) => open_spec(key@, vault@) matches Ok(v) && fetch_spec(v.notes, id) == Some(
                (p.0@, p.1@),
            ),
            Err(e) => (open_spec(key@, vault@) == Err::<StoreView, VaultError>(e)) || (open_spec(
                key@,
                vault@,
            ) matches Ok(v) && fetch_spec(v.notes, id) is None && e == VaultError::NotFoundError),
        },
{
    let s = match open_store(vault, key) {
        Ok(s) => s,
        Err(e) => {
            return Err(e);
        },
    };
    s.fetch(id)
}

/// Open a vault, add a new visible note, and seal the grown table back up.
/// The new vault bytes are returned; the note gets the next free id.
pub fn add_note(vault: &Vec<u8>, key: &Vec<u8>, title: Vec<u8>, content: Vec<u8>) -> (r: Result<
    Vec<u8>,
    VaultError,
>)
    requires
        key@.len() == 32,
    ensures
        match r {
            Ok(out) => open_spec(key@, vault@) matches Ok(v) && v.next_id < u64::MAX
                && sealed_store(key@, insert_spec(v, title@, content@), out@) && open_spec(
                key@,
                out@,
            ) == Ok::<StoreView, VaultError>(insert_spec(v, title@, content@)),
            Err(e) => (open_spec(key@, vault@) == Err::<StoreView, VaultError>(e)) || (open_spec(
                key@,
                vault@,
            ) matches Ok(v) && (e == VaultError::IoError || (e == VaultError::SchemaError && (
            v.next_id == u64::MAX || enc_store(insert_spec(v, title@, content@)).len() > usize::MAX
                - 32)))),
        },
{
    let _tl = title.len();
    let _cl = content.len();
    let mut s = match open_store(vault, key) {
        Ok(s) => s,
        Err(e) => {
            return Err(e);
        },
    };
    if s.next_id == u64::MAX {
        return Err(VaultError::SchemaError);
    }
    proof {
        lemma_wf_len_bound(s@);
    }
    let _ = s.insert(title, content);
    proof {
        lemma_codec_round_trip(s@);
    }
    match seal_store(&s, key) {
        Ok(out) => Ok(out),
        Err(e) => Err(e),
    }
}

/// Open a vault, overwrite the title and content of the note with this id,
/// and seal the table back up. `NotFoundError` when no row has the id; the
/// vault is then left untouched.
pub fn save_note(
    vault: &Vec<u8>,
    key: &Vec<u8>,
    id: u64,
    title: Vec<u8>,
    content: Vec<u8>,
) -> (r: Result<Vec<u8>, VaultError>)
    requires
        key@.len() == 32,
    ensures
        match r {
            Ok(out) => open_spec(key@, vault@) matches Ok(v) && sealed_store(
                key@,
                update_spec(v, id, title@, content@),
                out@,
            ) && open_spec(key@, out@) == Ok::<StoreView, VaultError>(
                update_spec(v, id, title@, content@),
            ),
            Err(e) => (open_spec(key@, vault@) == Err::<StoreView, VaultError>(e)) || (open_spec(
                key@,
                vault@,
            ) matches Ok(v) && (e == VaultError::IoError || (e == VaultError::SchemaError
                && enc_store(update_spec(v, id, title@, content@)).len() > usize::MAX - 32) || (e
                == VaultError::NotFoundError && crate::store::find_note(v.notes, id) is None))),
        },
{
    let _tl = title.len();
    let _cl = content.len();
    let mut s = match open_store(vault, key) {
        Ok(s) => s,
        Err(e) => {
            return Err(e);
        },
    };
    let ghost v0 = s@;
    match s.update(id, title, content) {
        Ok(()) => {},
        Err(e) => {
            return Err(e);
        },
    }
    proof {
        assert forall|i: int| 0 <= i < s@.notes.len() implies (#[trigger] s@.notes[i]).title.len()
            <= u64::MAX && s@.notes[i].content.len() <= u64::MAX by {
            assert(v0.notes[i].title.len() <= u64::MAX && v0.notes[i].content.len() <= u64::MAX);
        }
        lemma_codec_round_trip(s@);
    }
    match seal_store(&s, key) {
        Ok(out) => Ok(out),
        Err(e) => Err(e),
    }
}

/// Open a vault, hide the note with this id, and seal the table back up.
/// The note's content stays in the table but is gone from reads and
/// listings. `NotFoundError` when no row has the id.
pub fn delete_note(vault: &Vec<u8>, key: &Vec<u8>, id: u64) -> (r: Result<Vec<u8>, VaultError>)
    requires
        key@.len() == 32,
    ensures
        match r {
            Ok(out) => open_spec(key@, vault@) matches Ok(v) && sealed_store(
                key@,
                soft_delete_spec(v, id),
                out@,
            ) && open_spec(key@, out@) == Ok::<StoreView, VaultError>(soft_delete_spec(v, id)),
            Err(e) => (open_spec(key@, vault@) == Err::<StoreView, VaultError>(e)) || (open_spec(
                key@,
                vault@,
            ) matches Ok(v) && (e == VaultError::IoError || (e == VaultError::SchemaError
                && enc_store(soft_delete_spec(v, id)).len() > usize::MAX - 32) || (e
                == VaultError::NotFoundError && crate::store::find_note(v.notes, id) is None))),
        },
{
    let mut s = match open_store(vault, key) {
        Ok(s) => s,
        Err(e) => {
            return Err(e);
        },
    };
    let ghost v0 = s@;
    match s.soft_delete(id) {
        Ok(()) => {},
        Err(e) => {
            return Err(e);
        },
    }
    proof {
        assert forall|i: int| 0 <= i < s@.notes.len() implies (#[trigger] s@.notes[i]).title.len()
            <= u64::MAX && s@.notes[i].content.len() <= u64::MAX by {
            assert(v0.notes[i].title.len() <= u64::MAX && v0.notes[i].content.len() <= u64::MAX);
        }
        lemma_codec_round_trip(s@);
    }
    match seal_store(&s, key) {
        Ok(out) => Ok(out),
        Err(e) => Err(e),
    }
}

} // verus!
