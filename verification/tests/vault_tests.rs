use sefy::cipher::{decrypt, encrypt, generate_iv};
use sefy::codec::{decode_store, encode_store};
use sefy::errors::VaultError;
use sefy::keycodec::parse_key;
use sefy::store::{Note, NoteStore};
use sefy::vault::{add_note, create_vault, delete_note, open_vault, read_note, save_note};

fn test_key() -> Vec<u8> {
    parse_key(&"41".repeat(32)).unwrap()
}

fn fixed_iv() -> Vec<u8> {
    (0u8..16u8).collect()
}

#[test]
fn parse_key_decodes_64_hex_digits() {
    let k = parse_key("00112233445566778899aabbccddeeff00112233445566778899AABBCCDDEEFF")
        .unwrap();
    assert_eq!(k.len(), 32);
    let half = vec![
        0x00u8, 0x11, 0x22, 0x33, 0x44, 0x55, 0x66, 0x77, 0x88, 0x99, 0xaa, 0xbb, 0xcc, 0xdd,
        0xee, 0xff,
    ];
    assert_eq!(&k[..16], &half[..]);
    assert_eq!(&k[16..], &half[..]);
}

#[test]
fn parse_key_rejects_odd_length() {
    assert_eq!(parse_key(&"a".repeat(63)), Err(VaultError::InvalidKeyFormat));
}

#[test]
fn parse_key_rejects_wrong_length() {
    assert_eq!(parse_key(&"ab".repeat(31)), Err(VaultError::InvalidKeyFormat));
    assert_eq!(parse_key(&"ab".repeat(33)), Err(VaultError::InvalidKeyFormat));
    assert_eq!(parse_key(""), Err(VaultError::InvalidKeyFormat));
}

#[test]
fn parse_key_rejects_non_hex_characters() {
    let mut s = "ab".repeat(32);
    s.replace_range(10..11, "g");
    assert_eq!(parse_key(&s), Err(VaultError::InvalidKeyFormat));
    let mut t = "ab".repeat(32);
    t.replace_range(0..1, " ");
    assert_eq!(parse_key(&t), Err(VaultError::InvalidKeyFormat));
}

#[test]
fn cipher_round_trip_returns_plaintext() {
    let key = test_key();
    let iv = fixed_iv();
    let pt = b"the quick brown fox jumps over!".to_vec();
    let vault = encrypt(&pt, &key, &iv);
    assert_eq!(vault.len(), 16 + (pt.len() / 16 + 1) * 16);
    assert_eq!(&vault[..16], &iv[..]);
    assert_ne!(&vault[16..16 + pt.len()], &pt[..]);
    assert_eq!(decrypt(&vault, &key), Ok(pt));
}

#[test]
fn cipher_round_trip_empty_plaintext() {
    let key = test_key();
    let iv = fixed_iv();
    let vault = encrypt(&Vec::new(), &key, &iv);
    assert_eq!(vault.len(), 32);
    assert_eq!(decrypt(&vault, &key), Ok(Vec::new()));
}

#[test]
fn decrypt_rejects_short_and_misaligned_input() {
    let key = test_key();
    assert_eq!(decrypt(&vec![0u8; 15], &key), Err(VaultError::DecryptionError));
    assert_eq!(decrypt(&vec![0u8; 16], &key), Err(VaultError::DecryptionError));
    assert_eq!(decrypt(&vec![0u8; 33], &key), Err(VaultError::DecryptionError));
}

#[test]
fn tampered_ciphertext_never_reproduces_plaintext() {
    let key = test_key();
    let iv = fixed_iv();
    let pt = b"attack at dawn, bring both keys".to_vec();
    let vault = encrypt(&pt, &key, &iv);
    for i in 16..vault.len() {
        let mut bent = vault.clone();
        bent[i] ^= 0xff;
        match decrypt(&bent, &key) {
            Ok(p) => assert_ne!(p, pt),
            Err(e) => assert_eq!(e, VaultError::DecryptionError),
        }
    }
}

#[test]
fn wrong_key_never_returns_plaintext() {
    let key = test_key();
    let iv = fixed_iv();
    let pt = b"soup recipe: water, salt, stone".to_vec();
    let vault = encrypt(&pt, &key, &iv);
    let mut bad = key.clone();
    bad[31] ^= 0x80;
    match decrypt(&vault, &bad) {
        Ok(p) => assert_ne!(p, pt),
        Err(e) => assert_eq!(e, VaultError::DecryptionError),
    }
}

#[test]
fn generate_iv_draws_16_bytes() {
    let a = generate_iv().unwrap();
    let b = generate_iv().unwrap();
    assert_eq!(a.len(), 16);
    assert_eq!(b.len(), 16);
    assert_ne!(a, b);
}

#[test]
fn fresh_iv_gives_distinct_vaults() {
    let key = test_key();
    let a = create_vault(&key).unwrap();
    let b = create_vault(&key).unwrap();
    assert_ne!(&a[..16], &b[..16]);
    assert_ne!(a, b);
}

#[test]
fn resaving_same_content_gives_distinct_vaults() {
    let key = test_key();
    let v = create_vault(&key).unwrap();
    let a = add_note(&v, &key, b"t".to_vec(), b"c".to_vec()).unwrap();
    let b = add_note(&v, &key, b"t".to_vec(), b"c".to_vec()).unwrap();
    assert_ne!(a, b);
}

#[test]
fn codec_writes_exact_bytes() {
    let store = NoteStore {
        notes: vec![
            Note { id: 1, title: b"ab".to_vec(), content: b"xyz".to_vec(), hidden: false },
            Note { id: 2, title: Vec::new(), content: b"q".to_vec(), hidden: true },
        ],
        next_id: 3,
    };
    let expected = vec![
        3u8, 0, 0, 0, 0, 0, 0, 0, // next free id
        2, 0, 0, 0, 0, 0, 0, 0, // row count
        1, 0, 0, 0, 0, 0, 0, 0, 0, // id 1, visible
        2, 0, 0, 0, 0, 0, 0, 0, 97, 98, // title "ab"
        3, 0, 0, 0, 0, 0, 0, 0, 120, 121, 122, // content "xyz"
        2, 0, 0, 0, 0, 0, 0, 0, 1, // id 2, hidden
        0, 0, 0, 0, 0, 0, 0, 0, // empty title
        1, 0, 0, 0, 0, 0, 0, 0, 113, // content "q"
    ];
    let encoded = encode_store(&store);
    assert_eq!(encoded, expected);
    let back = decode_store(&encoded).unwrap();
    assert_eq!(back.next_id, 3);
    assert_eq!(back.notes.len(), 2);
    assert_eq!(back.notes[0].id, 1);
    assert_eq!(back.notes[0].title, b"ab".to_vec());
    assert_eq!(back.notes[0].content, b"xyz".to_vec());
    assert!(!back.notes[0].hidden);
    assert_eq!(back.notes[1].id, 2);
    assert!(back.notes[1].hidden);
}

#[test]
fn decode_rejects_malformed_snapshots() {
    assert_eq!(decode_store(&vec![1u8, 2, 3]), Err(VaultError::SchemaError));
    assert_eq!(decode_store(&vec![0u8; 15]), Err(VaultError::SchemaError));
    // trailing garbage after a complete snapshot
    let mut bytes = encode_store(&NoteStore { notes: Vec::new(), next_id: 1 });
    bytes.push(0);
    assert_eq!(decode_store(&bytes), Err(VaultError::SchemaError));
    // ids out of order
    let bad = NoteStore {
        notes: vec![
            Note { id: 5, title: b"a".to_vec(), content: b"b".to_vec(), hidden: false },
            Note { id: 2, title: b"c".to_vec(), content: b"d".to_vec(), hidden: false },
        ],
        next_id: 10,
    };
    assert_eq!(decode_store(&encode_store(&bad)), Err(VaultError::SchemaError));
    // an id at or past the next free id
    let stale = NoteStore {
        notes: vec![Note { id: 7, title: b"a".to_vec(), content: b"b".to_vec(), hidden: false }],
        next_id: 7,
    };
    assert_eq!(decode_store(&encode_store(&stale)), Err(VaultError::SchemaError));
}

#[test]
fn scenario_create_insert_list_fetch() {
    let key = test_key();
    let v = create_vault(&key).unwrap();
    let v = add_note(&v, &key, b"Groceries".to_vec(), b"Milk, eggs".to_vec()).unwrap();
    let listing = open_vault(&v, &key).unwrap();
    assert_eq!(listing, vec![(1u64, b"Groceries".to_vec())]);
    let (title, content) = read_note(&v, &key, 1).unwrap();
    assert_eq!(title, b"Groceries".to_vec());
    assert_eq!(content, b"Milk, eggs".to_vec());
}

#[test]
fn scenario_soft_delete_hides_note() {
    let key = test_key();
    let v = create_vault(&key).unwrap();
    let v = add_note(&v, &key, b"Groceries".to_vec(), b"Milk, eggs".to_vec()).unwrap();
    let v = delete_note(&v, &key, 1).unwrap();
    assert_eq!(open_vault(&v, &key).unwrap(), Vec::<(u64, Vec<u8>)>::new());
    assert_eq!(read_note(&v, &key, 1), Err(VaultError::NotFoundError));
}

#[test]
fn scenario_wrong_key_open_fails_with_decryption_error() {
    let key = test_key();
    let mut store = NoteStore::new();
    store.insert(b"Groceries".to_vec(), b"Milk, eggs".to_vec());
    let vault = encrypt(&encode_store(&store), &key, &fixed_iv());
    let mut bad = key.clone();
    bad[0] ^= 0x01;
    assert_eq!(open_vault(&vault, &bad), Err(VaultError::DecryptionError));
    assert_eq!(read_note(&vault, &bad, 1), Err(VaultError::DecryptionError));
}

#[test]
fn open_vault_reports_schema_error_on_foreign_plaintext() {
    let key = test_key();
    let vault = encrypt(&b"not a snapshot at all".to_vec(), &key, &fixed_iv());
    assert_eq!(open_vault(&vault, &key), Err(VaultError::SchemaError));
}

#[test]
fn listing_keeps_insertion_order() {
    let key = test_key();
    let v = create_vault(&key).unwrap();
    let v = add_note(&v, &key, b"first".to_vec(), b"1".to_vec()).unwrap();
    let v = add_note(&v, &key, b"second".to_vec(), b"2".to_vec()).unwrap();
    let v = add_note(&v, &key, b"third".to_vec(), b"3".to_vec()).unwrap();
    let listing = open_vault(&v, &key).unwrap();
    assert_eq!(
        listing,
        vec![
            (1u64, b"first".to_vec()),
            (2u64, b"second".to_vec()),
            (3u64, b"third".to_vec()),
        ]
    );
}

#[test]
fn soft_delete_twice_leaves_state_as_once() {
    let key = test_key();
    let v = create_vault(&key).unwrap();
    let v = add_note(&v, &key, b"a".to_vec(), b"1".to_vec()).unwrap();
    let v = add_note(&v, &key, b"b".to_vec(), b"2".to_vec()).unwrap();
    let once = delete_note(&v, &key, 1).unwrap();
    let twice = delete_note(&once, &key, 1).unwrap();
    // the encoded snapshot is canonical: equal bytes mean equal tables
    let s_once = decode_store(&decrypt(&once, &key).unwrap()).unwrap();
    let s_twice = decode_store(&decrypt(&twice, &key).unwrap()).unwrap();
    assert_eq!(encode_store(&s_once), encode_store(&s_twice));
    assert_eq!(open_vault(&twice, &key).unwrap(), vec![(2u64, b"b".to_vec())]);
}

#[test]
fn save_note_overwrites_title_and_content() {
    let key = test_key();
    let v = create_vault(&key).unwrap();
    let v = add_note(&v, &key, b"old title".to_vec(), b"old content".to_vec()).unwrap();
    let v = save_note(&v, &key, 1, b"new title".to_vec(), b"new content".to_vec()).unwrap();
    let (title, content) = read_note(&v, &key, 1).unwrap();
    assert_eq!(title, b"new title".to_vec());
    assert_eq!(content, b"new content".to_vec());
    assert_eq!(open_vault(&v, &key).unwrap(), vec![(1u64, b"new title".to_vec())]);
}

#[test]
fn save_note_on_hidden_row_keeps_it_hidden() {
    let key = test_key();
    let v = create_vault(&key).unwrap();
    let v = add_note(&v, &key, b"t".to_vec(), b"c".to_vec()).unwrap();
    let v = delete_note(&v, &key, 1).unwrap();
    let v = save_note(&v, &key, 1, b"t2".to_vec(), b"c2".to_vec()).unwrap();
    assert_eq!(read_note(&v, &key, 1), Err(VaultError::NotFoundError));
    assert_eq!(open_vault(&v, &key).unwrap(), Vec::<(u64, Vec<u8>)>::new());
}

#[test]
fn missing_id_is_not_found() {
    let key = test_key();
    let v = create_vault(&key).unwrap();
    let v = add_note(&v, &key, b"t".to_vec(), b"c".to_vec()).unwrap();
    assert_eq!(read_note(&v, &key, 2), Err(VaultError::NotFoundError));
    assert_eq!(
        save_note(&v, &key, 2, b"x".to_vec(), b"y".to_vec()),
        Err(VaultError::NotFoundError)
    );
    assert_eq!(delete_note(&v, &key, 2), Err(VaultError::NotFoundError));
}

#[test]
fn deleted_id_is_never_reused() {
    let key = test_key();
    let v = create_vault(&key).unwrap();
    let v = add_note(&v, &key, b"a".to_vec(), b"1".to_vec()).unwrap();
    let v = delete_note(&v, &key, 1).unwrap();
    let v = add_note(&v, &key, b"b".to_vec(), b"2".to_vec()).unwrap();
    assert_eq!(open_vault(&v, &key).unwrap(), vec![(2u64, b"b".to_vec())]);
}
