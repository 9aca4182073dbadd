use vstd::prelude::*;
use crate::decision::Decision;
use crate::identifier::Identifier;
use crate::wire::{DecisionRequest, request_bytes, response_bytes, encode_request, decode_response, put_bytes};

verus! {

/// The request that `from` sends to `to` with `msg`.
pub fn prepare_request(from: &Identifier, to: &Identifier, msg: &[u8]) -> (r: DecisionRequest)
    ensures
        r@ == ((from.spec_name(), from.spec_id()), (to.spec_name(), to.spec_id()), msg@),
{
    let mut payload: Vec<u8> = Vec::new();
    put_bytes(&mut payload, msg);
    assert(payload@ =~= msg@);
    DecisionRequest { source: from.duplicate(), destination: to.duplicate(), payload }
}

/// What an entity needs to ask the authority whether a message may reach
/// it: the authority's address and its own identity.
pub struct OsmoseClient {
    server_address: String,
    self_id: Identifier,
}

impl OsmoseClient {
    pub closed spec fn spec_server_address(&self) -> Seq<char> {
        self.server_address@
    }

    pub closed spec fn spec_self_id(&self) -> Identifier {
        self.self_id
    }

    /// A client of the authority on this host at its default port, named by
    /// the process id of its caller.
    pub fn new(process_id: u32) -> (r: Self)
        ensures
            r.spec_server_address() == "127.0.0.1:9061"@,
            r.spec_self_id().spec_name() == Seq::<char>::empty(),
            r.spec_self_id().spec_id() == process_id as u64,
    {
        OsmoseClient {
            server_address: String::from_str("127.0.0.1:9061"),
            self_id: Identifier::new(process_id),
        }
    }

    /// A client of the authority at `address` (host and port).
    pub fn from_address(address: &str, process_id: u32) -> (r: Self)
        ensures
            r.spec_server_address() == address@,
            r.spec_self_id().spec_name() == Seq::<char>::empty(),
            r.spec_self_id().spec_id() == process_id as u64,
    {
        OsmoseClient { server_address: address.to_owned(), self_id: Identifier::new(process_id) }
    }

    pub fn set_self_id(&mut self, id: Identifier)
        ensures
            final(self).spec_self_id() == id,
            final(self).spec_server_address() == old(self).spec_server_address(),
    {
        self.self_id = id;
    }

    pub fn get_self_id(&self) -> (r: &Identifier)
        ensures
            *r == self.spec_self_id(),
    {
        &self.self_id
    }

    pub fn get_server_address(&self) -> (r: &str)
        ensures
            r@ == self.spec_server_address(),
    {
        self.server_address.as_str()
    }

    /// The frame to send to ask whether `source` may send `payload` to this
    /// client's own identity; `None` only where it would not fit in memory.
    pub fn request_frame(&self, source: &Identifier, payload: &[u8]) -> (r: Option<Vec<u8>>)
        ensures
            ({
                let m = (
                    (source.spec_name(), source.spec_id()),
                    (self.spec_self_id().spec_name(), self.spec_self_id().spec_id()),
                    payload@,
                );
                &&& r is Some <==> request_bytes(m).len() <= usize::MAX
                &&& r matches Some(v) ==> v@ == request_bytes(m)
            }),
    {
        let req = prepare_request(source, &self.self_id, payload);
        encode_request(&req)
    }

    /// The verdict for what came back from the authority: `None` where no
    /// reply could be had (no connection, or the exchange failed). Only a
    /// reply that frames `ALLOW` lets the message pass.
    pub fn verdict(reply: Option<&[u8]>) -> (r: bool)
        ensures
            r <==> (reply matches Some(b) && b@ == response_bytes(Decision::ALLOW)),
    {
        match reply {
            None => false,
            Some(b) => match decode_response(b) {
                Some(d) => {
                    proof {
                        if b@ == response_bytes(Decision::ALLOW) {
                            assert(response_bytes(d)[0] == response_bytes(Decision::ALLOW)[0]);
                        }
                    }
                    d == Decision::ALLOW
                },
                None => false,
            },
        }
    }
}

} // verus!
