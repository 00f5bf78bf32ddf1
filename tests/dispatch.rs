use ed25519_dalek::{Keypair, PublicKey, SecretKey, Signer};
use multispool::codec::encode_be32;
use multispool::spool::{MultiSpool, MESSAGE_SIZE, SPOOL_ID_SIZE};
use multispool::{
    error_response, handle_request, handle_spool_request, Request, RequestError, SpoolRequest, APPEND_MESSAGE_COMMAND,
    CREATE_SPOOL_COMMAND, PURGE_SPOOL_COMMAND, RETRIEVE_MESSAGE_COMMAND,
};

fn keypair(seed: u8) -> Keypair {
    let secret = SecretKey::from_bytes(&[seed; 32]).unwrap();
    let public: PublicKey = (&secret).into();
    Keypair { secret, public }
}

fn request(command: u8, spool_id: Vec<u8>, key: &Keypair, message_id: Vec<u8>, message: Vec<u8>) -> SpoolRequest {
    let public_key = key.public.to_bytes().to_vec();
    SpoolRequest {
        Command: command,
        SpoolID: spool_id,
        Signature: key.sign(&public_key).to_bytes().to_vec(),
        PublicKey: public_key,
        MessageID: message_id,
        Message: message,
    }
}

#[test]
fn bad_command() {
    let dir = tempfile::tempdir().unwrap();
    let mut multi_spool = MultiSpool::new(dir.path().to_str().unwrap()).unwrap();
    let k = keypair(1);
    let r = handle_spool_request(request(255, vec![], &k, vec![], vec![]), &mut multi_spool);
    assert_eq!(r.Status, "error: no such command");
    assert_eq!(r.SpoolID, vec![0u8; SPOOL_ID_SIZE]);
    assert!(r.Message.is_empty());
}

#[test]
fn dispatch_create_append_retrieve_purge() {
    let dir = tempfile::tempdir().unwrap();
    let mut multi_spool = MultiSpool::new(dir.path().to_str().unwrap()).unwrap();
    let k = keypair(2);
    let created = handle_spool_request(request(CREATE_SPOOL_COMMAND, vec![], &k, vec![], vec![]), &mut multi_spool);
    assert_eq!(created.Status, "OK");
    assert_eq!(created.SpoolID.len(), SPOOL_ID_SIZE);
    let id = created.SpoolID.clone();

    let message = vec![0x5au8; MESSAGE_SIZE];
    let appended = handle_spool_request(
        request(APPEND_MESSAGE_COMMAND, id.clone(), &k, vec![], message.clone()),
        &mut multi_spool,
    );
    assert_eq!(appended.Status, "OK");
    assert_eq!(appended.SpoolID, id);

    let read = handle_spool_request(
        request(RETRIEVE_MESSAGE_COMMAND, id.clone(), &k, encode_be32(1).to_vec(), vec![]),
        &mut multi_spool,
    );
    assert_eq!(read.Status, "OK");
    assert_eq!(read.Message, message);

    let missing = handle_spool_request(
        request(RETRIEVE_MESSAGE_COMMAND, id.clone(), &k, encode_be32(2).to_vec(), vec![]),
        &mut multi_spool,
    );
    assert_eq!(missing.Status, "error: read from spool failed");

    let purged = handle_spool_request(request(PURGE_SPOOL_COMMAND, id.clone(), &k, vec![], vec![]), &mut multi_spool);
    assert_eq!(purged.Status, "OK");
    assert_eq!(multi_spool.spool_count(), 0);

    let again = handle_spool_request(request(PURGE_SPOOL_COMMAND, id, &k, vec![], vec![]), &mut multi_spool);
    assert_eq!(again.Status, "error: purge spool failed");
}

#[test]
fn dispatch_rejects_bad_inputs() {
    let dir = tempfile::tempdir().unwrap();
    let mut multi_spool = MultiSpool::new(dir.path().to_str().unwrap()).unwrap();
    let k = keypair(3);

    let mut short_sig = request(CREATE_SPOOL_COMMAND, vec![], &k, vec![], vec![]);
    short_sig.Signature.truncate(10);
    assert_eq!(handle_spool_request(short_sig, &mut multi_spool).Status, "error: invalid signature");

    let mut short_key = request(CREATE_SPOOL_COMMAND, vec![], &k, vec![], vec![]);
    short_key.PublicKey.truncate(31);
    assert_eq!(handle_spool_request(short_key, &mut multi_spool).Status, "error: invalid ed25519 public key");

    let mut wrong_sig = request(CREATE_SPOOL_COMMAND, vec![], &k, vec![], vec![]);
    wrong_sig.Signature = keypair(4).sign(&k.public.to_bytes()).to_bytes().to_vec();
    assert_eq!(handle_spool_request(wrong_sig, &mut multi_spool).Status, "error: create spool failed");
    assert_eq!(multi_spool.spool_count(), 0);

    let short_message = request(APPEND_MESSAGE_COMMAND, vec![0u8; SPOOL_ID_SIZE], &k, vec![], vec![1, 2, 3]);
    assert_eq!(handle_spool_request(short_message, &mut multi_spool).Status, "error: malformed request");

    let unknown = request(APPEND_MESSAGE_COMMAND, vec![0u8; SPOOL_ID_SIZE], &k, vec![], vec![0u8; MESSAGE_SIZE]);
    assert_eq!(handle_spool_request(unknown, &mut multi_spool).Status, "error: append to spool failed");

    let short_id = request(PURGE_SPOOL_COMMAND, vec![1, 2], &k, vec![], vec![]);
    assert_eq!(handle_spool_request(short_id, &mut multi_spool).Status, "error: malformed request");

    let short_message_id = request(RETRIEVE_MESSAGE_COMMAND, vec![0u8; SPOOL_ID_SIZE], &k, vec![1], vec![]);
    assert_eq!(handle_spool_request(short_message_id, &mut multi_spool).Status, "error: malformed request");
}

#[test]
fn host_request_needs_reply_capability() {
    let dir = tempfile::tempdir().unwrap();
    let mut multi_spool = MultiSpool::new(dir.path().to_str().unwrap()).unwrap();
    let k = keypair(5);
    let no_surb = Request { ID: 1, Payload: vec![], HasSURB: false };
    let decoded = Some(request(CREATE_SPOOL_COMMAND, vec![], &k, vec![], vec![]));
    assert_eq!(handle_request(&no_surb, decoded, &mut multi_spool).err(), Some(RequestError::NoReplyCapability));
    assert_eq!(multi_spool.spool_count(), 0);

    let with_surb = Request { ID: 2, Payload: vec![], HasSURB: true };
    assert_eq!(handle_request(&with_surb, None, &mut multi_spool).err(), Some(RequestError::MalformedRequest));

    let decoded = Some(request(CREATE_SPOOL_COMMAND, vec![], &k, vec![], vec![]));
    let response = handle_request(&with_surb, decoded, &mut multi_spool).ok().unwrap();
    assert_eq!(response.Status, "OK");
    assert_eq!(multi_spool.spool_count(), 1);
}

#[test]
fn error_response_carries_only_status() {
    let r = error_response("error: something");
    assert!(r.SpoolID.is_empty());
    assert!(r.Message.is_empty());
    assert_eq!(r.Status, "error: something");
}
