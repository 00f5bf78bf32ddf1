//! A persistent store of authenticated, append-only message spools, and the
//! dispatcher that serves remote spool requests against it.

pub mod codec;
pub mod store;
pub mod crypto;
pub mod errors;
pub mod spool;

use vstd::prelude::*;
use vstd::string::*;
use crate::codec::to_array;
use crate::crypto::{public_key_decodes, public_key_is_valid, signature_decodes, signature_is_valid, signature_verifies};
use crate::spool::{MultiSpool, MESSAGE_ID_SIZE, MESSAGE_SIZE, SPOOL_ID_SIZE};

verus! {

/// Command code: create a spool.
pub const CREATE_SPOOL_COMMAND: u8 = 0;

/// Command code: purge a spool.
pub const PURGE_SPOOL_COMMAND: u8 = 1;

/// Command code: append a message to a spool.
pub const APPEND_MESSAGE_COMMAND: u8 = 2;

/// Command code: retrieve a message from a spool.
pub const RETRIEVE_MESSAGE_COMMAND: u8 = 3;

/// A decoded spool request.
#[allow(non_snake_case)]
pub struct SpoolRequest {
    pub Command: u8,
    pub SpoolID: Vec<u8>,
    pub Signature: Vec<u8>,
    pub PublicKey: Vec<u8>,
    pub MessageID: Vec<u8>,
    pub Message: Vec<u8>,
}

/// The response to a spool request.
#[allow(non_snake_case)]
pub struct SpoolResponse {
    pub SpoolID: Vec<u8>,
    pub Message: Vec<u8>,
    pub Status: String,
}

/// A request as the host delivers it: an id, the encoded spool request, and
/// whether a reply can be sent.
#[allow(non_snake_case)]
pub struct Request {
    pub ID: u64,
    pub Payload: Vec<u8>,
    pub HasSURB: bool,
}

/// The reply to the host: the encoded spool response.
#[allow(non_snake_case)]
pub struct Response {
    pub Payload: Vec<u8>,
}

/// Why a host request got no spool response.
#[derive(Debug, PartialEq, Eq, Structural)]
pub enum RequestError {
    /// The request carries no reply capability, so no answer can reach the sender.
    NoReplyCapability,
    /// The payload is not an encoded spool request.
    MalformedRequest,
}

/// A response that carries only `status`.
pub open spec fn is_error_response(r: SpoolResponse, status: Seq<char>) -> bool {
    r.SpoolID@.len() == 0 && r.Message@.len() == 0 && r.Status@ == status
}

/// A response with no spool id or message and the given status.
pub fn error_response(error_message: &str) -> (r: SpoolResponse)
    ensures
        is_error_response(r, error_message@),
{
    SpoolResponse { SpoolID: Vec::new(), Message: Vec::new(), Status: String::from_str(error_message) }
}

fn ok_response(spool_id: Vec<u8>, message: Vec<u8>) -> (r: SpoolResponse)
    ensures
        r.SpoolID@ == spool_id@,
        r.Message@ == message@,
        r.Status@ == "OK"@,
{
    SpoolResponse { SpoolID: spool_id, Message: message, Status: String::from_str("OK") }
}

fn array_to_vec<const N: usize>(a: &[u8; N]) -> (r: Vec<u8>)
    ensures
        r@ == a@,
{
    let mut r: Vec<u8> = Vec::with_capacity(N);
    let mut i: usize = 0;
    while i < N
        invariant
            i <= N,
            a@.len() == N,
            r@ == a@.subrange(0, i as int),
        decreases N - i,
    {
        r.push(a[i]);
        i += 1;
        assert(r@ =~= a@.subrange(0, i as int));
    }
    assert(r@ =~= a@);
    r
}

/// What a create request leads to.
pub open spec fn create_outcome(q: SpoolRequest, before: MultiSpool, after: MultiSpool, r: SpoolResponse) -> bool {
    if !signature_decodes(q.Signature@) {
        is_error_response(r, "error: invalid signature"@) && after == before
    } else if !public_key_decodes(q.PublicKey@) {
        is_error_response(r, "error: invalid ed25519 public key"@) && after == before
    } else if r.Status@ == "OK"@ {
        &&& signature_verifies(q.PublicKey@, q.PublicKey@, q.Signature@)
        &&& r.Message@.len() == 0
        &&& r.SpoolID@.len() == SPOOL_ID_SIZE
        &&& after.has_spool(r.SpoolID@)
        &&& after.public_key_of(r.SpoolID@) == q.PublicKey@
        &&& after.spool_ids() == before.spool_ids().insert(r.SpoolID@)
        &&& before.wf() ==> !before.has_spool(r.SpoolID@) && after.wf()
    } else {
        &&& is_error_response(r, "error: create spool failed"@)
        &&& !signature_verifies(q.PublicKey@, q.PublicKey@, q.Signature@) ==> after == before
        &&& after.id_views() == before.id_views()
        &&& after.open_spools() == before.open_spools()
    }
}

/// Creates a spool owned by the request's public key.
pub fn create_spool(spool_request: SpoolRequest, multi_spool: &mut MultiSpool) -> (r: SpoolResponse)
    ensures
        create_outcome(spool_request, *old(multi_spool), *final(multi_spool), r),
        final(multi_spool).base_dir_view() == old(multi_spool).base_dir_view(),
{
    if !signature_is_valid(spool_request.Signature.as_slice()) {
        return error_response("error: invalid signature");
    }
    if !public_key_is_valid(spool_request.PublicKey.as_slice()) {
        return error_response("error: invalid ed25519 public key");
    }
    let signature: [u8; 64] = to_array(spool_request.Signature.as_slice());
    let public_key: [u8; 32] = to_array(spool_request.PublicKey.as_slice());
    match multi_spool.create_spool(public_key, signature) {
        Ok(spool_id) => ok_response(array_to_vec(&spool_id), Vec::new()),
        Err(_) => {
            proof {
                lemma_error_is_not_ok();
            }
            error_response("error: create spool failed")
        },
    }
}

/// What a purge request leads to.
pub open spec fn purge_outcome(q: SpoolRequest, before: MultiSpool, after: MultiSpool, r: SpoolResponse) -> bool {
    if !signature_decodes(q.Signature@) {
        is_error_response(r, "error: invalid signature"@) && after == before
    } else if !public_key_decodes(q.PublicKey@) {
        is_error_response(r, "error: invalid ed25519 public key"@) && after == before
    } else if q.SpoolID@.len() != SPOOL_ID_SIZE {
        is_error_response(r, "error: malformed request"@) && after == before
    } else if r.Status@ == "OK"@ {
        &&& r.SpoolID@ == q.SpoolID@
        &&& r.Message@.len() == 0
        &&& before.has_spool(q.SpoolID@)
        &&& signature_verifies(before.public_key_of(q.SpoolID@), before.public_key_of(q.SpoolID@), q.Signature@)
        &&& !after.has_spool(q.SpoolID@)
        &&& after.spool_ids() == before.spool_ids().remove(q.SpoolID@)
        &&& before.wf() ==> after.wf()
    } else {
        &&& is_error_response(r, "error: purge spool failed"@)
        &&& after.id_views() == before.id_views()
        &&& !(before.has_spool(q.SpoolID@) && public_key_decodes(before.public_key_of(q.SpoolID@))
            && signature_verifies(before.public_key_of(q.SpoolID@), before.public_key_of(q.SpoolID@), q.Signature@))
            ==> after == before
    }
}

/// Purges the request's spool, when the signature verifies under the
/// spool's stored public key.
pub fn purge_spool(spool_request: SpoolRequest, multi_spool: &mut MultiSpool) -> (r: SpoolResponse)
    ensures
        purge_outcome(spool_request, *old(multi_spool), *final(multi_spool), r),
        final(multi_spool).base_dir_view() == old(multi_spool).base_dir_view(),
{
    if !signature_is_valid(spool_request.Signature.as_slice()) {
        return error_response("error: invalid signature");
    }
    if !public_key_is_valid(spool_request.PublicKey.as_slice()) {
        return error_response("error: invalid ed25519 public key");
    }
    if spool_request.SpoolID.len() != SPOOL_ID_SIZE {
        return error_response("error: malformed request");
    }
    let signature: [u8; 64] = to_array(spool_request.Signature.as_slice());
    let spool_id: [u8; SPOOL_ID_SIZE] = to_array(spool_request.SpoolID.as_slice());
    match multi_spool.purge_spool(spool_id, signature) {
        Ok(()) => ok_response(spool_request.SpoolID, Vec::new()),
        Err(_) => {
            proof {
                lemma_error_is_not_ok();
            }
            error_response("error: purge spool failed")
        },
    }
}

/// What an append request leads to.
pub open spec fn append_outcome(q: SpoolRequest, before: MultiSpool, after: MultiSpool, r: SpoolResponse) -> bool {
    if q.SpoolID@.len() != SPOOL_ID_SIZE || q.Message@.len() != MESSAGE_SIZE {
        is_error_response(r, "error: malformed request"@) && after == before
    } else {
        &&& after.spool_ids() == before.spool_ids()
        &&& before.wf() ==> after.wf()
        &&& if r.Status@ == "OK"@ {
            &&& r.SpoolID@ == q.SpoolID@
            &&& r.Message@.len() == 0
            &&& before.wf() ==> before.has_spool(q.SpoolID@) && after.spool(q.SpoolID@).messages() == before.spool(
                q.SpoolID@,
            ).messages().push(q.Message@)
        } else {
            &&& is_error_response(r, "error: append to spool failed"@)
            &&& before.wf() && !before.has_spool(q.SpoolID@) ==> after == before
        }
    }
}

/// Appends the request's message to its spool. No signature is asked for:
/// whoever knows a spool's id may write to it.
pub fn append_to_spool(spool_request: SpoolRequest, multi_spool: &mut MultiSpool) -> (r: SpoolResponse)
    ensures
        append_outcome(spool_request, *old(multi_spool), *final(multi_spool), r),
        final(multi_spool).base_dir_view() == old(multi_spool).base_dir_view(),
{
    if spool_request.SpoolID.len() != SPOOL_ID_SIZE || spool_request.Message.len() != MESSAGE_SIZE {
        return error_response("error: malformed request");
    }
    let spool_id: [u8; SPOOL_ID_SIZE] = to_array(spool_request.SpoolID.as_slice());
    let message: [u8; MESSAGE_SIZE] = to_array(spool_request.Message.as_slice());
    match multi_spool.append_to_spool(spool_id, message) {
        Ok(()) => ok_response(spool_request.SpoolID, Vec::new()),
        Err(_) => {
            proof {
                lemma_error_is_not_ok();
            }
            error_response("error: append to spool failed")
        },
    }
}

/// What a retrieve request answers.
pub open spec fn read_outcome(q: SpoolRequest, ms: MultiSpool, r: SpoolResponse) -> bool {
    if !signature_decodes(q.Signature@) {
        is_error_response(r, "error: invalid signature"@)
    } else if !public_key_decodes(q.PublicKey@) {
        is_error_response(r, "error: invalid ed25519 public key"@)
    } else if q.SpoolID@.len() != SPOOL_ID_SIZE || q.MessageID@.len() != MESSAGE_ID_SIZE {
        is_error_response(r, "error: malformed request"@)
    } else if r.Status@ == "OK"@ {
        &&& r.SpoolID@ == q.SpoolID@
        &&& ms.has_spool(q.SpoolID@)
        &&& signature_verifies(ms.public_key_of(q.SpoolID@), ms.public_key_of(q.SpoolID@), q.Signature@)
        &&& ms.wf() ==> ms.spool(q.SpoolID@).data_map().contains_key(q.MessageID@) && ms.spool(
            q.SpoolID@,
        ).data_map()[q.MessageID@] == r.Message@
    } else {
        is_error_response(r, "error: read from spool failed"@)
    }
}

/// Reads the request's message from its spool, when the signature verifies
/// under the spool's stored public key.
pub fn read_from_spool(spool_request: SpoolRequest, multi_spool: &MultiSpool) -> (r: SpoolResponse)
    ensures
        read_outcome(spool_request, *multi_spool, r),
{
    if !signature_is_valid(spool_request.Signature.as_slice()) {
        return error_response("error: invalid signature");
    }
    if !public_key_is_valid(spool_request.PublicKey.as_slice()) {
        return error_response("error: invalid ed25519 public key");
    }
    if spool_request.SpoolID.len() != SPOOL_ID_SIZE || spool_request.MessageID.len() != MESSAGE_ID_SIZE {
        return error_response("error: malformed request");
    }
    let signature: [u8; 64] = to_array(spool_request.Signature.as_slice());
    let spool_id: [u8; SPOOL_ID_SIZE] = to_array(spool_request.SpoolID.as_slice());
    let message_id: [u8; MESSAGE_ID_SIZE] = to_array(spool_request.MessageID.as_slice());
    match multi_spool.read_from_spool(spool_id, signature, &message_id) {
        Ok(message) => ok_response(spool_request.SpoolID, array_to_vec(&message)),
        Err(_) => {
            proof {
                lemma_error_is_not_ok();
            }
            error_response("error: read from spool failed")
        },
    }
}

/// The response to a command code that names no operation.
pub open spec fn is_no_such_command(r: SpoolResponse) -> bool {
    &&& r.SpoolID@ == Seq::new(SPOOL_ID_SIZE as nat, |i: int| 0u8)
    &&& r.Message@.len() == 0
    &&& r.Status@ == "error: no such command"@
}

/// What a spool request leads to, by its command code.
pub open spec fn dispatch_outcome(q: SpoolRequest, before: MultiSpool, after: MultiSpool, r: SpoolResponse) -> bool {
    if q.Command == CREATE_SPOOL_COMMAND {
        create_outcome(q, before, after, r)
    } else if q.Command == PURGE_SPOOL_COMMAND {
        purge_outcome(q, before, after, r)
    } else if q.Command == APPEND_MESSAGE_COMMAND {
        append_outcome(q, before, after, r)
    } else if q.Command == RETRIEVE_MESSAGE_COMMAND {
        read_outcome(q, before, r) && after == before
    } else {
        is_no_such_command(r) && after == before
    }
}

/// Routes a spool request to the operation its command code names.
pub fn handle_spool_request(spool_request: SpoolRequest, multi_spool: &mut MultiSpool) -> (r: SpoolResponse)
    ensures
        dispatch_outcome(spool_request, *old(multi_spool), *final(multi_spool), r),
        final(multi_spool).base_dir_view() == old(multi_spool).base_dir_view(),
{
    if spool_request.Command == CREATE_SPOOL_COMMAND {
        create_spool(spool_request, multi_spool)
    } else if spool_request.Command == PURGE_SPOOL_COMMAND {
        purge_spool(spool_request, multi_spool)
    } else if spool_request.Command == APPEND_MESSAGE_COMMAND {
        append_to_spool(spool_request, multi_spool)
    } else if spool_request.Command == RETRIEVE_MESSAGE_COMMAND {
        read_from_spool(spool_request, multi_spool)
    } else {
        let zero_id: Vec<u8> = vec![0u8; SPOOL_ID_SIZE];
        assert(zero_id@ =~= Seq::new(SPOOL_ID_SIZE as nat, |i: int| 0u8));
        SpoolResponse { SpoolID: zero_id, Message: Vec::new(), Status: String::from_str("error: no such command") }
    }
}

/// Serves a host request whose payload the caller has decoded into
/// `decoded` (`None` when it did not decode). A request without a reply
/// capability is refused before anything else.
pub fn handle_request(request: &Request, decoded: Option<SpoolRequest>, multi_spool: &mut MultiSpool) -> (r: Result<
    SpoolResponse,
    RequestError,
>)
    ensures
        !request.HasSURB ==> (r matches Err(RequestError::NoReplyCapability) && *final(multi_spool) == *old(multi_spool)),
        request.HasSURB ==> match decoded {
            Some(q) => (r matches Ok(resp) && dispatch_outcome(q, *old(multi_spool), *final(multi_spool), resp)),
            None => (r matches Err(RequestError::MalformedRequest) && *final(multi_spool) == *old(multi_spool)),
        },
{
    if !request.HasSURB {
        return Err(RequestError::NoReplyCapability);
    }
    match decoded {
        Some(spool_request) => Ok(handle_spool_request(spool_request, multi_spool)),
        None => Err(RequestError::MalformedRequest),
    }
}

/// No failure status of an operation reads "OK".
proof fn lemma_error_is_not_ok()
    ensures
        "error: create spool failed"@ != "OK"@,
        "error: purge spool failed"@ != "OK"@,
        "error: append to spool failed"@ != "OK"@,
        "error: read from spool failed"@ != "OK"@,
{
    reveal_strlit("OK");
    reveal_strlit("error: create spool failed");
    reveal_strlit("error: purge spool failed");
    reveal_strlit("error: append to spool failed");
    reveal_strlit("error: read from spool failed");
    assert("OK"@.len() == 2);
}

} // verus!
