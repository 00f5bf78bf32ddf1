use multispool::codec::{decode_be32, encode_be32, increment_merge, to_array};
use multispool::errors::SpoolError;
use multispool::spool::{spool_path, Spool, MESSAGE_ID_SIZE, MESSAGE_SIZE, SPOOL_ID_SIZE};

fn temp_spool_path(dir: &tempfile::TempDir) -> String {
    let spool_id = [9u8; SPOOL_ID_SIZE];
    spool_path(dir.path().to_str().unwrap(), spool_id)
}

fn pattern_message(seed: u8) -> [u8; MESSAGE_SIZE] {
    let mut m = [0u8; MESSAGE_SIZE];
    for (i, b) in m.iter_mut().enumerate() {
        *b = (i as u8).wrapping_mul(31).wrapping_add(seed);
    }
    m
}

fn message_id(n: u32) -> [u8; MESSAGE_ID_SIZE] {
    encode_be32(n)
}

#[test]
fn spool_append_read_test() {
    let base_dir = tempfile::tempdir().unwrap();
    let path = temp_spool_path(&base_dir);
    let mut spool = Spool::new(&path).unwrap();

    // message 1
    let message1 = pattern_message(1);
    spool.append(message1).unwrap();
    let read_message1 = spool.read(&message_id(1)).unwrap();
    assert_eq!(message1[..], read_message1[..]);

    // message 2
    let message2 = pattern_message(2);
    spool.append(message2).unwrap();
    let read_message2 = spool.read(&message_id(2)).unwrap();
    assert_eq!(message2[..], read_message2[..]);
}

#[test]
fn spool_purge_test() {
    let base_dir = tempfile::tempdir().unwrap();
    let path = temp_spool_path(&base_dir);
    let mut spool = Spool::new(&path).unwrap();

    let message1 = pattern_message(1);
    spool.append(message1).unwrap();
    let read_message1 = spool.read(&message_id(1)).unwrap();
    assert_eq!(message1[..], read_message1[..]);

    spool.purge().unwrap();
}

#[test]
fn fresh_spool_numbers_appends_from_one() {
    let base_dir = tempfile::tempdir().unwrap();
    let mut spool = Spool::new(&temp_spool_path(&base_dir)).unwrap();
    assert_eq!(spool.last_key(), None);
    let messages: Vec<[u8; MESSAGE_SIZE]> = (0..5u8).map(pattern_message).collect();
    for (i, m) in messages.iter().enumerate() {
        spool.append(*m).unwrap();
        assert_eq!(spool.last_key(), Some(i as u32 + 1));
    }
    for (i, m) in messages.iter().enumerate() {
        assert_eq!(spool.read(&message_id(i as u32 + 1)).unwrap()[..], m[..]);
    }
    assert!(matches!(spool.read(&message_id(0)), Err(SpoolError::NoSuchMessage)));
    assert!(matches!(spool.read(&message_id(6)), Err(SpoolError::NoSuchMessage)));
}

#[test]
fn appended_message_reads_back_exactly() {
    let base_dir = tempfile::tempdir().unwrap();
    let mut spool = Spool::new(&temp_spool_path(&base_dir)).unwrap();
    let mut m = [0u8; MESSAGE_SIZE];
    let mut x: u32 = 0x1234_5678;
    for b in m.iter_mut() {
        x = x.wrapping_mul(1_103_515_245).wrapping_add(12345);
        *b = (x >> 16) as u8;
    }
    spool.append(m).unwrap();
    let id = message_id(spool.last_key().unwrap());
    assert_eq!(spool.read(&id).unwrap()[..], m[..]);
}

#[test]
fn reopen_recovers_append_whose_marker_was_lost() {
    let base_dir = tempfile::tempdir().unwrap();
    let path = temp_spool_path(&base_dir);
    {
        let mut spool = Spool::new(&path).unwrap();
        spool.append(pattern_message(1)).unwrap();
        spool.append(pattern_message(2)).unwrap();
    }
    {
        // A third message reached the data tree; its marker update did not.
        let db = sled::open(&path).unwrap();
        db.insert(encode_be32(3), pattern_message(3).to_vec()).unwrap();
        db.flush().unwrap();
    }
    let mut spool = Spool::new(&path).unwrap();
    assert_eq!(spool.last_key(), Some(3));
    assert_eq!(spool.read(&message_id(3)).unwrap()[..], pattern_message(3)[..]);
    spool.append(pattern_message(4)).unwrap();
    assert_eq!(spool.last_key(), Some(4));
    assert_eq!(spool.read(&message_id(4)).unwrap()[..], pattern_message(4)[..]);
}

#[test]
fn reopen_recovers_first_append_without_marker() {
    let base_dir = tempfile::tempdir().unwrap();
    let path = temp_spool_path(&base_dir);
    {
        let db = sled::open(&path).unwrap();
        db.insert(encode_be32(1), pattern_message(7).to_vec()).unwrap();
        db.flush().unwrap();
    }
    let spool = Spool::new(&path).unwrap();
    assert_eq!(spool.last_key(), Some(1));
}

#[test]
fn reopen_keeps_appended_messages() {
    let base_dir = tempfile::tempdir().unwrap();
    let path = temp_spool_path(&base_dir);
    {
        let mut spool = Spool::new(&path).unwrap();
        spool.append(pattern_message(1)).unwrap();
        spool.append(pattern_message(2)).unwrap();
    }
    let spool = Spool::new(&path).unwrap();
    assert_eq!(spool.last_key(), Some(2));
    assert_eq!(spool.read(&message_id(2)).unwrap()[..], pattern_message(2)[..]);
}

#[test]
fn purge_twice_then_read_finds_nothing() {
    let base_dir = tempfile::tempdir().unwrap();
    let mut spool = Spool::new(&temp_spool_path(&base_dir)).unwrap();
    spool.append(pattern_message(1)).unwrap();
    spool.append(pattern_message(2)).unwrap();
    spool.purge().unwrap();
    spool.purge().unwrap();
    assert_eq!(spool.last_key(), None);
    assert!(matches!(spool.read(&message_id(1)), Err(SpoolError::NoSuchMessage)));
    spool.append(pattern_message(3)).unwrap();
    assert_eq!(spool.last_key(), Some(1));
    assert_eq!(spool.read(&message_id(1)).unwrap()[..], pattern_message(3)[..]);
}

#[test]
fn marker_without_data_is_corrupt() {
    let base_dir = tempfile::tempdir().unwrap();
    let path = temp_spool_path(&base_dir);
    {
        let db = sled::open(&path).unwrap();
        let meta = db.open_tree(b"meta_tree_id").unwrap();
        meta.insert(b"key", encode_be32(4).to_vec()).unwrap();
        db.flush().unwrap();
    }
    assert!(matches!(Spool::new(&path), Err(SpoolError::CorruptSpool)));
}

#[test]
fn short_marker_is_corrupt() {
    let base_dir = tempfile::tempdir().unwrap();
    let path = temp_spool_path(&base_dir);
    {
        let db = sled::open(&path).unwrap();
        db.insert(encode_be32(1), pattern_message(1).to_vec()).unwrap();
        let meta = db.open_tree(b"meta_tree_id").unwrap();
        meta.insert(b"key", vec![1u8, 2]).unwrap();
        db.flush().unwrap();
    }
    assert!(matches!(Spool::new(&path), Err(SpoolError::CorruptSpool)));
}

#[test]
fn append_at_last_sequence_number_is_spool_full() {
    let base_dir = tempfile::tempdir().unwrap();
    let path = temp_spool_path(&base_dir);
    {
        let db = sled::open(&path).unwrap();
        db.insert(encode_be32(u32::MAX), pattern_message(1).to_vec()).unwrap();
        let meta = db.open_tree(b"meta_tree_id").unwrap();
        meta.insert(b"key", encode_be32(u32::MAX).to_vec()).unwrap();
        db.flush().unwrap();
    }
    let mut spool = Spool::new(&path).unwrap();
    assert_eq!(spool.last_key(), Some(u32::MAX));
    assert!(matches!(spool.append(pattern_message(2)), Err(SpoolError::SpoolFull)));
    assert_eq!(spool.last_key(), Some(u32::MAX));
}

#[test]
fn stored_message_of_wrong_size_is_corrupt() {
    let base_dir = tempfile::tempdir().unwrap();
    let path = temp_spool_path(&base_dir);
    {
        let db = sled::open(&path).unwrap();
        db.insert(encode_be32(1), vec![1u8, 2, 3]).unwrap();
        let meta = db.open_tree(b"meta_tree_id").unwrap();
        meta.insert(b"key", encode_be32(1).to_vec()).unwrap();
        db.flush().unwrap();
    }
    let spool = Spool::new(&path).unwrap();
    assert!(matches!(spool.read(&message_id(1)), Err(SpoolError::CorruptSpool)));
}

#[test]
fn merge_keeps_the_larger_marker() {
    let key = b"key";
    assert_eq!(increment_merge(key, None, &[0, 0, 0, 5]), Some(vec![0, 0, 0, 5]));
    assert_eq!(increment_merge(key, Some(&[0, 0, 0, 5]), &[0, 0, 0, 6]), Some(vec![0, 0, 0, 6]));
    assert_eq!(increment_merge(key, Some(&[0, 0, 1, 0]), &[0, 0, 0, 9]), Some(vec![0, 0, 1, 0]));
    assert_eq!(increment_merge(key, Some(&[0, 0, 0, 7]), &[0, 0, 0, 7]), Some(vec![0, 0, 0, 7]));
    assert_eq!(increment_merge(key, Some(&[1, 2]), &[0, 0, 0, 1]), Some(vec![0, 0, 0, 1]));
}

#[test]
fn big_endian_codec() {
    assert_eq!(encode_be32(0x0102_0304), [1, 2, 3, 4]);
    assert_eq!(encode_be32(1), [0, 0, 0, 1]);
    assert_eq!(decode_be32(&[0xff, 0, 0, 0x10]), 0xff00_0010);
    assert_eq!(decode_be32(&encode_be32(123_456_789)), 123_456_789);
    let a: [u8; 3] = to_array(&[4u8, 5, 6]);
    assert_eq!(a, [4, 5, 6]);
}
