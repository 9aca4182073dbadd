use vstd::prelude::*;
use crate::decision::Decision;
use crate::rules_database::{RulesDatabase, evaluate};
use crate::wire::{
    RequestView,
    request_bytes,
    response_bytes,
    decode_request,
    encode_response,
    lemma_request_bytes_injective,
    lemma_be64_read,
    be64,
    request_body,
    chunk_bytes,
    lemma_request_len,
};

verus! {

/// The decision that the service gives for the bytes read from one
/// connection: the policy's decision for the request they frame, or
/// `MALFORMED_MESSAGE` where they frame none.
pub open spec fn decision_for(policy: Map<Seq<char>, Set<Seq<char>>>, received: Seq<u8>) -> Decision {
    if exists|m: RequestView| received == #[trigger] request_bytes(m) {
        let m = choose|m: RequestView| received == #[trigger] request_bytes(m);
        evaluate(policy, m.0.0, m.1.0)
    } else {
        Decision::MALFORMED_MESSAGE
    }
}

/// Decides on the bytes read from one connection.
pub fn decide(db: &RulesDatabase, received: &[u8]) -> (r: Decision)
    requires
        db.wf(),
    ensures
        r == decision_for(db@, received@),
{
    let total: usize = received.len();
    match decode_request(received) {
        Some(req) => {
            let d = db.is_call_allowed(&req.source, &req.destination);
            proof {
                let m = choose|m: RequestView| received@ == #[trigger] request_bytes(m);
                assert(request_bytes(m).len() == total);
                lemma_request_bytes_injective(m, req@);
            }
            d
        },
        None => Decision::MALFORMED_MESSAGE,
    }
}

/// The response frame to write back on a connection from which `received`
/// was read.
pub fn handle_client(db: &RulesDatabase, received: &[u8]) -> (r: Vec<u8>)
    requires
        db.wf(),
    ensures
        r@ == response_bytes(decision_for(db@, received@)),
{
    let d = decide(db, received);
    encode_response(d)
}

/// The service's decision on a well-framed request is the policy's decision
/// on its source and destination names, and on nothing else: the same
/// request against the same policy always gets the same decision.
pub proof fn lemma_request_decision(policy: Map<Seq<char>, Set<Seq<char>>>, m: RequestView)
    requires
        request_bytes(m).len() <= u64::MAX,
    ensures
        decision_for(policy, request_bytes(m)) == evaluate(policy, m.0.0, m.1.0),
{
    let b = request_bytes(m);
    assert(exists|x: RequestView| b == #[trigger] request_bytes(x));
    let x = choose|x: RequestView| b == #[trigger] request_bytes(x);
    lemma_request_bytes_injective(x, m);
}

/// Identical bytes read against an unchanged policy get identical decisions.
pub proof fn lemma_decision_repeatable(
    policy: Map<Seq<char>, Set<Seq<char>>>,
    first: Seq<u8>,
    second: Seq<u8>,
)
    requires
        first == second,
    ensures
        decision_for(policy, first) == decision_for(policy, second),
{
}

/// Bytes that frame no request get `MALFORMED_MESSAGE`.
pub proof fn lemma_unframed_is_malformed(policy: Map<Seq<char>, Set<Seq<char>>>, b: Seq<u8>)
    requires
        forall|m: RequestView| b != #[trigger] request_bytes(m),
    ensures
        decision_for(policy, b) == Decision::MALFORMED_MESSAGE,
{
}

/// A request frame cut short anywhere, down to no bytes at all, gets
/// `MALFORMED_MESSAGE`.
pub proof fn lemma_truncated_is_malformed(
    policy: Map<Seq<char>, Set<Seq<char>>>,
    m: RequestView,
    k: int,
)
    requires
        0 <= k < request_bytes(m).len(),
        request_bytes(m).len() <= u64::MAX,
    ensures
        decision_for(policy, request_bytes(m).subrange(0, k)) == Decision::MALFORMED_MESSAGE,
{
    let full = request_bytes(m);
    let b = full.subrange(0, k);
    lemma_request_len(m);
    lemma_be64_read(request_body(m).len() as u64);
    assert forall|x: RequestView| b != #[trigger] request_bytes(x) by {
        if b == request_bytes(x) {
            lemma_request_len(x);
            lemma_be64_read(request_body(x).len() as u64);
            let h = be64(request_body(m).len() as u64);
            let hx = be64(request_body(x).len() as u64);
            assert(full.subrange(0, 8) =~= h);
            assert(b.subrange(0, 8) =~= hx);
            assert(b.subrange(0, 8) =~= full.subrange(0, 8));
        }
    }
}

} // verus!
