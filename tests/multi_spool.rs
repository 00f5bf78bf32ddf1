use ed25519_dalek::{Keypair, PublicKey, SecretKey, Signer};
use multispool::codec::encode_be32;
use multispool::errors::{MultiSpoolError, SpoolError, SpoolSetError};
use multispool::spool::{spool_path, spool_set_path, MultiSpool, SpoolSet, MESSAGE_SIZE, SPOOL_ID_SIZE};

fn keypair(seed: u8) -> Keypair {
    let secret = SecretKey::from_bytes(&[seed; 32]).unwrap();
    let public: PublicKey = (&secret).into();
    Keypair { secret, public }
}

/// The key's own bytes signed with `signer`.
fn self_signature(key: &Keypair, signer: &Keypair) -> [u8; 64] {
    signer.sign(&key.public.to_bytes()).to_bytes()
}

fn base_dir_of(dir: &tempfile::TempDir) -> String {
    dir.path().to_str().unwrap().to_string()
}

fn numbered_message(n: u32) -> [u8; MESSAGE_SIZE] {
    let mut m = [0u8; MESSAGE_SIZE];
    for (i, b) in m.iter_mut().enumerate() {
        *b = (i as u32).wrapping_mul(7).wrapping_add(n.wrapping_mul(13)) as u8;
    }
    m[0..4].copy_from_slice(&n.to_be_bytes());
    m
}

#[test]
fn create_and_retrieve() {
    let dir = tempfile::tempdir().unwrap();
    let mut multi_spool = MultiSpool::new(&base_dir_of(&dir)).unwrap();
    let k = keypair(1);
    let sig = self_signature(&k, &k);
    let id = multi_spool.create_spool(k.public.to_bytes(), sig).unwrap();
    assert!(multi_spool.contains_spool(id));
    let zero = [0u8; MESSAGE_SIZE];
    multi_spool.append_to_spool(id, zero).unwrap();
    let read = multi_spool.read_from_spool(id, sig, &encode_be32(1)).unwrap();
    assert_eq!(read[..], zero[..]);
    let missing = multi_spool.read_from_spool(id, sig, &encode_be32(2));
    assert!(matches!(missing, Err(MultiSpoolError::SpoolError(SpoolError::NoSuchMessage))));
}

#[test]
fn invalid_signature() {
    let dir = tempfile::tempdir().unwrap();
    let mut multi_spool = MultiSpool::new(&base_dir_of(&dir)).unwrap();
    let k = keypair(1);
    let other = keypair(2);
    let sig = self_signature(&k, &k);
    let id = multi_spool.create_spool(k.public.to_bytes(), sig).unwrap();
    multi_spool.append_to_spool(id, [0u8; MESSAGE_SIZE]).unwrap();
    let wrong = self_signature(&k, &other);
    assert!(matches!(multi_spool.purge_spool(id, wrong), Err(MultiSpoolError::SignatureError)));
    assert!(matches!(
        multi_spool.read_from_spool(id, wrong, &encode_be32(1)),
        Err(MultiSpoolError::SignatureError)
    ));
    assert!(multi_spool.contains_spool(id));
    multi_spool.purge_spool(id, sig).unwrap();
    assert!(!multi_spool.contains_spool(id));
}

#[test]
fn create_with_wrong_signature_is_refused() {
    let dir = tempfile::tempdir().unwrap();
    let mut multi_spool = MultiSpool::new(&base_dir_of(&dir)).unwrap();
    let k = keypair(1);
    let wrong = self_signature(&k, &keypair(3));
    assert!(matches!(
        multi_spool.create_spool(k.public.to_bytes(), wrong),
        Err(MultiSpoolError::SignatureError)
    ));
    assert_eq!(multi_spool.spool_count(), 0);
}

#[test]
fn unknown_spool() {
    let dir = tempfile::tempdir().unwrap();
    let mut multi_spool = MultiSpool::new(&base_dir_of(&dir)).unwrap();
    let id = [0u8; SPOOL_ID_SIZE];
    assert!(matches!(
        multi_spool.append_to_spool(id, [0u8; MESSAGE_SIZE]),
        Err(MultiSpoolError::NoSuchSpool)
    ));
    let k = keypair(1);
    let sig = self_signature(&k, &k);
    assert!(matches!(multi_spool.purge_spool(id, sig), Err(MultiSpoolError::NoSuchSpool)));
    assert!(matches!(
        multi_spool.read_from_spool(id, sig, &encode_be32(1)),
        Err(MultiSpoolError::NoSuchSpool)
    ));
}

#[test]
fn purge_of_purged_spool_is_no_such_spool() {
    let dir = tempfile::tempdir().unwrap();
    let mut multi_spool = MultiSpool::new(&base_dir_of(&dir)).unwrap();
    let k = keypair(4);
    let sig = self_signature(&k, &k);
    let id = multi_spool.create_spool(k.public.to_bytes(), sig).unwrap();
    multi_spool.purge_spool(id, sig).unwrap();
    assert!(matches!(multi_spool.purge_spool(id, sig), Err(MultiSpoolError::NoSuchSpool)));
}

#[test]
fn corrupt_spool_quarantine() {
    let dir = tempfile::tempdir().unwrap();
    let base_dir = base_dir_of(&dir);
    let k = keypair(1);
    let sig = self_signature(&k, &k);
    let id = {
        let mut multi_spool = MultiSpool::new(&base_dir).unwrap();
        let id = multi_spool.create_spool(k.public.to_bytes(), sig).unwrap();
        multi_spool.append_to_spool(id, [5u8; MESSAGE_SIZE]).unwrap();
        id
    };
    {
        // Empty the data tree and keep the end marker.
        let db = sled::open(spool_path(&base_dir, id)).unwrap();
        db.clear().unwrap();
        db.flush().unwrap();
    }
    let multi_spool = MultiSpool::new(&base_dir).unwrap();
    assert_eq!(multi_spool.spool_count(), 0);
    assert!(!multi_spool.contains_spool(id));
    assert_eq!(multi_spool.quarantined(), &vec![id]);
    drop(multi_spool);
    let spool_set = SpoolSet::new(&spool_set_path(&base_dir)).unwrap();
    assert!(!spool_set.has(id).unwrap());
}

#[test]
fn restart_durability() {
    let dir = tempfile::tempdir().unwrap();
    let base_dir = base_dir_of(&dir);
    let k = keypair(1);
    let sig = self_signature(&k, &k);
    let id = {
        let mut multi_spool = MultiSpool::new(&base_dir).unwrap();
        let id = multi_spool.create_spool(k.public.to_bytes(), sig).unwrap();
        for n in 1..=100u32 {
            multi_spool.append_to_spool(id, numbered_message(n)).unwrap();
        }
        id
    };
    let multi_spool = MultiSpool::new(&base_dir).unwrap();
    assert_eq!(multi_spool.spool_count(), 1);
    for n in 1..=100u32 {
        let read = multi_spool.read_from_spool(id, sig, &encode_be32(n)).unwrap();
        assert_eq!(read[..], numbered_message(n)[..]);
    }
    assert!(matches!(
        multi_spool.read_from_spool(id, sig, &encode_be32(101)),
        Err(MultiSpoolError::SpoolError(SpoolError::NoSuchMessage))
    ));
}

#[test]
fn create_with_taken_id_is_a_collision() {
    let dir = tempfile::tempdir().unwrap();
    let mut multi_spool = MultiSpool::new(&base_dir_of(&dir)).unwrap();
    let k = keypair(1);
    let sig = self_signature(&k, &k);
    let id = [3u8; SPOOL_ID_SIZE];
    assert_eq!(multi_spool.create_spool_with_id(k.public.to_bytes(), sig, id).unwrap(), id);
    assert!(matches!(
        multi_spool.create_spool_with_id(k.public.to_bytes(), sig, id),
        Err(MultiSpoolError::SpoolIdCollision)
    ));
    assert_eq!(multi_spool.spool_count(), 1);
}

#[test]
fn spools_are_independent() {
    let dir = tempfile::tempdir().unwrap();
    let mut multi_spool = MultiSpool::new(&base_dir_of(&dir)).unwrap();
    let a = keypair(1);
    let b = keypair(2);
    let sig_a = self_signature(&a, &a);
    let sig_b = self_signature(&b, &b);
    let id_a = multi_spool.create_spool(a.public.to_bytes(), sig_a).unwrap();
    let id_b = multi_spool.create_spool(b.public.to_bytes(), sig_b).unwrap();
    assert_ne!(id_a, id_b);
    multi_spool.append_to_spool(id_a, numbered_message(1)).unwrap();
    multi_spool.append_to_spool(id_b, numbered_message(2)).unwrap();
    multi_spool.append_to_spool(id_b, numbered_message(3)).unwrap();
    assert_eq!(multi_spool.read_from_spool(id_a, sig_a, &encode_be32(1)).unwrap()[..], numbered_message(1)[..]);
    assert_eq!(multi_spool.read_from_spool(id_b, sig_b, &encode_be32(2)).unwrap()[..], numbered_message(3)[..]);
    assert!(matches!(
        multi_spool.read_from_spool(id_a, sig_b, &encode_be32(1)),
        Err(MultiSpoolError::SignatureError)
    ));
    multi_spool.purge_spool(id_a, sig_a).unwrap();
    assert_eq!(multi_spool.spool_count(), 1);
    assert_eq!(multi_spool.read_from_spool(id_b, sig_b, &encode_be32(1)).unwrap()[..], numbered_message(2)[..]);
}

#[test]
fn spool_set_put_has_delete() {
    let dir = tempfile::tempdir().unwrap();
    let path = spool_set_path(&base_dir_of(&dir));
    let mut spool_set = SpoolSet::new(&path).unwrap();
    let k = keypair(6);
    let id = [1u8; SPOOL_ID_SIZE];
    assert!(!spool_set.has(id).unwrap());
    assert!(matches!(spool_set.get_public_key(id), Err(SpoolSetError::NoSuchSpoolId)));
    spool_set.put(id, k.public.to_bytes()).unwrap();
    assert!(spool_set.has(id).unwrap());
    assert_eq!(spool_set.get_public_key(id).unwrap(), k.public.to_bytes());
    assert_eq!(spool_set.keys().unwrap(), vec![id.to_vec()]);
    spool_set.delete(id).unwrap();
    assert!(!spool_set.has(id).unwrap());
    assert!(spool_set.keys().unwrap().is_empty());
}

#[test]
fn spool_set_repair_drops_half_written_ids() {
    let dir = tempfile::tempdir().unwrap();
    let path = spool_set_path(&base_dir_of(&dir));
    let k = keypair(6);
    {
        let db = sled::open(&path).unwrap();
        let meta = db.open_tree(b"meta_tree_id").unwrap();
        db.insert([1u8; SPOOL_ID_SIZE], vec![]).unwrap();
        db.insert([2u8; SPOOL_ID_SIZE], vec![]).unwrap();
        meta.insert([2u8; SPOOL_ID_SIZE], k.public.to_bytes().to_vec()).unwrap();
        meta.insert([3u8; SPOOL_ID_SIZE], k.public.to_bytes().to_vec()).unwrap();
        db.flush().unwrap();
    }
    let spool_set = SpoolSet::new(&path).unwrap();
    assert_eq!(spool_set.keys().unwrap(), vec![vec![2u8; SPOOL_ID_SIZE]]);
    assert!(matches!(spool_set.get_public_key([3u8; SPOOL_ID_SIZE]), Err(SpoolSetError::NoSuchSpoolId)));
    assert_eq!(spool_set.get_public_key([2u8; SPOOL_ID_SIZE]).unwrap(), k.public.to_bytes());
}

#[test]
fn spool_set_undecodable_key_is_signature_error() {
    let dir = tempfile::tempdir().unwrap();
    let path = spool_set_path(&base_dir_of(&dir));
    let mut spool_set = SpoolSet::new(&path).unwrap();
    let id = [4u8; SPOOL_ID_SIZE];
    // About half of all y-coordinates lie on no curve point; take the first.
    let not_a_point = (2u8..100)
        .map(|y| {
            let mut b = [0u8; 32];
            b[0] = y;
            b
        })
        .find(|b| PublicKey::from_bytes(b).is_err())
        .unwrap();
    spool_set.put(id, not_a_point).unwrap();
    assert!(matches!(spool_set.get_public_key(id), Err(SpoolSetError::SignatureError)));
}

#[test]
fn spool_paths_use_url_safe_base64() {
    let id = [0xfbu8, 0xff, 0xbf, 0, 0, 0, 0, 0, 0, 0, 0, 0];
    assert_eq!(spool_path("/data", id), "/data/spool.-_-_AAAAAAAAAAAA.sled");
    assert_eq!(spool_set_path("/data"), "/data/spool_set.sled");
}

#[test]
fn create_over_spool_with_messages_is_refused() {
    let dir = tempfile::tempdir().unwrap();
    let base_dir = base_dir_of(&dir);
    let id = [6u8; SPOOL_ID_SIZE];
    {
        let db = sled::open(spool_path(&base_dir, id)).unwrap();
        db.insert(encode_be32(1), vec![1u8; MESSAGE_SIZE]).unwrap();
        db.flush().unwrap();
    }
    let mut multi_spool = MultiSpool::new(&base_dir).unwrap();
    let k = keypair(1);
    let sig = self_signature(&k, &k);
    assert!(matches!(
        multi_spool.create_spool_with_id(k.public.to_bytes(), sig, id),
        Err(MultiSpoolError::SpoolDirectoryInUse)
    ));
    assert_eq!(multi_spool.spool_count(), 0);
}

#[test]
fn spool_set_keys_come_in_byte_order() {
    let dir = tempfile::tempdir().unwrap();
    let mut spool_set = SpoolSet::new(&spool_set_path(&base_dir_of(&dir))).unwrap();
    let k = keypair(6).public.to_bytes();
    let mut a = [0u8; SPOOL_ID_SIZE];
    a[0] = 0x80;
    let mut b = [0u8; SPOOL_ID_SIZE];
    b[11] = 1;
    let c = [0xffu8; SPOOL_ID_SIZE];
    spool_set.put(c, k).unwrap();
    spool_set.put(a, k).unwrap();
    spool_set.put(b, k).unwrap();
    assert_eq!(spool_set.keys().unwrap(), vec![b.to_vec(), a.to_vec(), c.to_vec()]);
}

#[test]
fn admit_spool_follows_the_open_result() {
    let dir = tempfile::tempdir().unwrap();
    let base_dir = base_dir_of(&dir);
    let mut multi_spool = MultiSpool::new(&base_dir).unwrap();
    let opened_id = [7u8; SPOOL_ID_SIZE];
    let opened = multispool::spool::Spool::new(&spool_path(&base_dir, opened_id));
    multi_spool.admit_spool(opened_id, opened).unwrap();
    assert!(multi_spool.contains_spool(opened_id));
    assert_eq!(multi_spool.spool_count(), 1);

    let corrupt_id = [8u8; SPOOL_ID_SIZE];
    multi_spool.admit_spool(corrupt_id, Err(SpoolError::CorruptSpool)).unwrap();
    assert!(!multi_spool.contains_spool(corrupt_id));
    assert_eq!(multi_spool.quarantined(), &vec![corrupt_id]);

    let failed_id = [9u8; SPOOL_ID_SIZE];
    let failure = SpoolError::SledError(sled::Error::Unsupported("closed".to_string()));
    assert!(matches!(multi_spool.admit_spool(failed_id, Err(failure)), Err(MultiSpoolError::SledError(_))));
    assert!(!multi_spool.contains_spool(failed_id));
    assert_eq!(multi_spool.spool_count(), 1);
    assert_eq!(multi_spool.quarantined().len(), 1);
}
