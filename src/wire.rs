use vstd::prelude::*;
use vstd::utf8::*;
use crate::decision::{Decision, decision_code};
use crate::identifier::Identifier;

verus! {

/// An identifier on the wire: its name and its id.
pub type IdentifierView = (Seq<char>, u64);

/// A request on the wire: source, destination (the asker) and payload.
pub type RequestView = (IdentifierView, IdentifierView, Seq<u8>);

/// The eight bytes of `n`, most significant first.
#[verifier::opaque]
pub open spec fn be64(n: u64) -> Seq<u8> {
    seq![
        (n >> 56u64) as u8,
        (n >> 48u64) as u8,
        (n >> 40u64) as u8,
        (n >> 32u64) as u8,
        (n >> 24u64) as u8,
        (n >> 16u64) as u8,
        (n >> 8u64) as u8,
        n as u8,
    ]
}

/// The integer that eight bytes stand for, most significant first.
#[verifier::opaque]
pub open spec fn read_be64(s: Seq<u8>) -> u64 {
    (s[0] as u64) << 56u64 | (s[1] as u64) << 48u64 | (s[2] as u64) << 40u64 | (s[3] as u64)
        << 32u64 | (s[4] as u64) << 24u64 | (s[5] as u64) << 16u64 | (s[6] as u64) << 8u64 | (
    s[7] as u64)
}

/// A byte string preceded by its length.
pub open spec fn chunk_bytes(c: Seq<u8>) -> Seq<u8> {
    be64(c.len() as u64) + c
}

pub open spec fn identifier_bytes(i: IdentifierView) -> Seq<u8> {
    chunk_bytes(encode_utf8(i.0)) + be64(i.1)
}

pub open spec fn request_body(m: RequestView) -> Seq<u8> {
    identifier_bytes(m.0) + identifier_bytes(m.1) + chunk_bytes(m.2)
}

/// The frame of a request: its body preceded by the body's length.
pub open spec fn request_bytes(m: RequestView) -> Seq<u8> {
    chunk_bytes(request_body(m))
}

/// The frame of a response: the one byte of its decision.
pub open spec fn response_bytes(d: Decision) -> Seq<u8> {
    seq![decision_code(d)]
}

pub proof fn lemma_be64_read(n: u64)
    ensures
        be64(n).len() == 8,
        read_be64(be64(n)) == n,
{
    reveal(be64);
    reveal(read_be64);
    assert(((((n >> 56u64) as u8) as u64) << 56u64 | (((n >> 48u64) as u8) as u64) << 48u64 | (((n
        >> 40u64) as u8) as u64) << 40u64 | (((n >> 32u64) as u8) as u64) << 32u64 | (((n
        >> 24u64) as u8) as u64) << 24u64 | (((n >> 16u64) as u8) as u64) << 16u64 | (((n
        >> 8u64) as u8) as u64) << 8u64 | ((n as u8) as u64)) == n) by (bit_vector);
}

proof fn lemma_read_be64(s: Seq<u8>)
    requires
        s.len() == 8,
    ensures
        be64(read_be64(s)) == s,
{
    reveal(be64);
    reveal(read_be64);
    let x = read_be64(s);
    let (b0, b1, b2, b3, b4, b5, b6, b7) = (s[0], s[1], s[2], s[3], s[4], s[5], s[6], s[7]);
    assert((x >> 56u64) as u8 == b0 && (x >> 48u64) as u8 == b1 && (x >> 40u64) as u8 == b2 && (x
        >> 32u64) as u8 == b3 && (x >> 24u64) as u8 == b4 && (x >> 16u64) as u8 == b5 && (x
        >> 8u64) as u8 == b6 && x as u8 == b7) by (bit_vector)
        requires
            x == (b0 as u64) << 56u64 | (b1 as u64) << 48u64 | (b2 as u64) << 40u64 | (b3 as u64)
                << 32u64 | (b4 as u64) << 24u64 | (b5 as u64) << 16u64 | (b6 as u64) << 8u64 | (
            b7 as u64),
    ;
    assert(be64(x) =~= s);
}

/// The integer stored at `pos`, if eight bytes are there.
pub closed spec fn take_u64(b: Seq<u8>, pos: int) -> Option<u64> {
    if 0 <= pos && pos + 8 <= b.len() {
        Some(read_be64(b.subrange(pos, pos + 8)))
    } else {
        None
    }
}

/// The length-prefixed byte string stored at `pos`, if it is all there.
pub closed spec fn take_chunk(b: Seq<u8>, pos: int) -> Option<Seq<u8>> {
    match take_u64(b, pos) {
        Some(l) => if pos + 8 + l <= b.len() {
            Some(b.subrange(pos + 8, pos + 8 + l))
        } else {
            None
        },
        None => None,
    }
}

pub closed spec fn parse_identifier(b: Seq<u8>, pos: int) -> Option<(IdentifierView, int)> {
    match take_chunk(b, pos) {
        Some(c) => if valid_utf8(c) {
            match take_u64(b, pos + 8 + c.len()) {
                Some(id) => Some(((decode_utf8(c), id), pos + 16 + c.len())),
                None => None,
            }
        } else {
            None
        },
        None => None,
    }
}

pub closed spec fn parse_request(b: Seq<u8>) -> Option<RequestView> {
    match take_u64(b, 0) {
        Some(l) => if l == b.len() - 8 {
            match parse_identifier(b, 8) {
                Some((src, p1)) => match parse_identifier(b, p1) {
                    Some((dst, p2)) => match take_chunk(b, p2) {
                        Some(c) => if p2 + 8 + c.len() == b.len() {
                            Some((src, dst, c))
                        } else {
                            None
                        },
                        None => None,
                    },
                    None => None,
                },
                None => None,
            }
        } else {
            None
        },
        None => None,
    }
}

proof fn lemma_take_u64_at(pre: Seq<u8>, n: u64, post: Seq<u8>)
    ensures
        take_u64(pre + be64(n) + post, pre.len() as int) == Some(n),
{
    lemma_be64_read(n);
    let b = pre + be64(n) + post;
    assert(b.subrange(pre.len() as int, pre.len() + 8int) =~= be64(n));
}

proof fn lemma_take_chunk_at(pre: Seq<u8>, c: Seq<u8>, post: Seq<u8>)
    requires
        c.len() <= u64::MAX,
    ensures
        take_chunk(pre + chunk_bytes(c) + post, pre.len() as int) == Some(c),
{
    lemma_be64_read(c.len() as u64);
    let b = pre + chunk_bytes(c) + post;
    assert(b =~= pre + be64(c.len() as u64) + (c + post));
    lemma_take_u64_at(pre, c.len() as u64, c + post);
    assert(b.subrange(pre.len() + 8int, pre.len() + 8int + c.len()) =~= c);
}

proof fn lemma_parse_identifier_at(pre: Seq<u8>, i: IdentifierView, post: Seq<u8>)
    requires
        encode_utf8(i.0).len() <= u64::MAX,
    ensures
        parse_identifier(pre + identifier_bytes(i) + post, pre.len() as int) == Some(
            (i, pre.len() + identifier_bytes(i).len() as int),
        ),
{
    let c = encode_utf8(i.0);
    lemma_be64_read(c.len() as u64);
    lemma_be64_read(i.1);
    let b = pre + identifier_bytes(i) + post;
    assert(b =~= pre + chunk_bytes(c) + (be64(i.1) + post));
    lemma_take_chunk_at(pre, c, be64(i.1) + post);
    assert(b =~= (pre + chunk_bytes(c)) + be64(i.1) + post);
    lemma_take_u64_at(pre + chunk_bytes(c), i.1, post);
    encode_utf8_valid_utf8(i.0);
    encode_utf8_decode_utf8(i.0);
    lemma_be64_read(c.len() as u64);
}

proof fn lemma_take_u64_bytes(b: Seq<u8>, pos: int)
    requires
        take_u64(b, pos) is Some,
    ensures
        b.subrange(pos, pos + 8) == be64(take_u64(b, pos)->Some_0),
{
    lemma_read_be64(b.subrange(pos, pos + 8));
}

proof fn lemma_take_chunk_bytes(b: Seq<u8>, pos: int)
    requires
        take_chunk(b, pos) is Some,
    ensures
        b.subrange(pos, pos + 8 + take_chunk(b, pos)->Some_0.len()) == chunk_bytes(
            take_chunk(b, pos)->Some_0,
        ),
{
    let c = take_chunk(b, pos)->Some_0;
    lemma_take_u64_bytes(b, pos);
    assert(b.subrange(pos, pos + 8 + c.len()) =~= b.subrange(pos, pos + 8) + c);
}

proof fn lemma_parse_identifier_bytes(b: Seq<u8>, pos: int)
    requires
        parse_identifier(b, pos) is Some,
    ensures
        ({
            let (i, p) = parse_identifier(b, pos)->Some_0;
            pos < p <= b.len() && b.subrange(pos, p) == identifier_bytes(i)
        }),
{
    let c = take_chunk(b, pos)->Some_0;
    lemma_take_chunk_bytes(b, pos);
    lemma_take_u64_bytes(b, pos + 8 + c.len());
    decode_utf8_encode_utf8(c);
    let (i, p) = parse_identifier(b, pos)->Some_0;
    assert(b.subrange(pos, p) =~= b.subrange(pos, pos + 8 + c.len()) + b.subrange(
        pos + 8 + c.len(),
        p,
    ));
}

/// Parsing a request frame gives back the request it was made from.
pub proof fn lemma_decode_encode(m: RequestView)
    requires
        request_bytes(m).len() <= u64::MAX,
    ensures
        parse_request(request_bytes(m)) == Some(m),
{
    let i1 = identifier_bytes(m.0);
    let i2 = identifier_bytes(m.1);
    let c = chunk_bytes(m.2);
    let body = request_body(m);
    let b = request_bytes(m);
    lemma_be64_read(body.len() as u64);
    lemma_be64_read(m.2.len() as u64);
    lemma_be64_read(m.0.1);
    lemma_be64_read(m.1.1);
    lemma_be64_read(encode_utf8(m.0.0).len() as u64);
    lemma_be64_read(encode_utf8(m.1.0).len() as u64);
    assert(b =~= be64(body.len() as u64) + i1 + (i2 + c));
    lemma_take_u64_at(Seq::empty(), body.len() as u64, body);
    assert(b =~= Seq::empty() + be64(body.len() as u64) + body);
    lemma_parse_identifier_at(be64(body.len() as u64), m.0, i2 + c);
    assert(b =~= (be64(body.len() as u64) + i1) + i2 + c);
    lemma_parse_identifier_at(be64(body.len() as u64) + i1, m.1, c);
    assert(b =~= (be64(body.len() as u64) + i1 + i2) + c + Seq::empty());
    lemma_take_chunk_at(be64(body.len() as u64) + i1 + i2, m.2, Seq::empty());
}

/// A byte string that decodes to a request is that request's frame.
pub proof fn lemma_encode_decode(b: Seq<u8>)
    requires
        parse_request(b) is Some,
    ensures
        b == request_bytes(parse_request(b)->Some_0),
{
    let m = parse_request(b)->Some_0;
    lemma_take_u64_bytes(b, 0);
    lemma_parse_identifier_bytes(b, 8);
    let p1 = parse_identifier(b, 8)->Some_0.1;
    lemma_parse_identifier_bytes(b, p1);
    let p2 = parse_identifier(b, p1)->Some_0.1;
    lemma_take_chunk_bytes(b, p2);
    let body = b.subrange(8, b.len() as int);
    assert(body =~= b.subrange(8, p1) + b.subrange(p1, p2) + b.subrange(p2, b.len() as int));
    assert(body =~= request_body(m));
    assert(b =~= b.subrange(0, 8) + body);
}

/// A request frame is the frame of one request only.
pub proof fn lemma_request_bytes_injective(m1: RequestView, m2: RequestView)
    requires
        request_bytes(m1) == request_bytes(m2),
        request_bytes(m1).len() <= u64::MAX,
    ensures
        m1 == m2,
{
    lemma_decode_encode(m1);
    lemma_decode_encode(m2);
}

/// Appends the eight bytes of `n`.
fn put_u64(out: &mut Vec<u8>, n: u64)
    ensures
        final(out)@ == old(out)@ + be64(n),
{
    reveal(be64);
    out.push((n >> 56u64) as u8);
    out.push((n >> 48u64) as u8);
    out.push((n >> 40u64) as u8);
    out.push((n >> 32u64) as u8);
    out.push((n >> 24u64) as u8);
    out.push((n >> 16u64) as u8);
    out.push((n >> 8u64) as u8);
    out.push(n as u8);
    assert(final(out)@ =~= old(out)@ + be64(n));
}

/// Appends the bytes of `b`.
pub(crate) fn put_bytes(out: &mut Vec<u8>, b: &[u8])
    ensures
        final(out)@ == old(out)@ + b@,
{
    let ghost start = out@;
    let mut i: usize = 0;
    while i < b.len()
        invariant
            0 <= i <= b@.len(),
            out@ == start + b@.subrange(0, i as int),
        decreases b@.len() - i,
    {
        out.push(b[i]);
        i = i + 1;
        assert(out@ =~= start + b@.subrange(0, i as int));
    }
    assert(b@.subrange(0, b@.len() as int) =~= b@);
}

/// Relies on String::from_utf8: it accepts exactly the byte strings that are
/// valid UTF-8, and the string it returns holds the characters they encode.
#[verifier::external_body]
fn string_from_utf8(v: Vec<u8>) -> (r: Option<String>)
    ensures
        r is Some <==> valid_utf8(v@),
        r matches Some(s) ==> s@ == decode_utf8(v@),
{
    String::from_utf8(v).ok()
}

fn get_u64(b: &[u8], pos: usize) -> (r: Option<u64>)
    ensures
        r == take_u64(b@, pos as int),
{
    if b.len() < 8 || pos > b.len() - 8 {
        return None;
    }
    let v: u64 = (b[pos] as u64) << 56u64 | (b[pos + 1] as u64) << 48u64 | (b[pos + 2] as u64)
        << 40u64 | (b[pos + 3] as u64) << 32u64 | (b[pos + 4] as u64) << 24u64 | (b[pos + 5] as u64)
        << 16u64 | (b[pos + 6] as u64) << 8u64 | (b[pos + 7] as u64);
    proof {
        reveal(read_be64);
        let w = b@.subrange(pos as int, pos + 8int);
        assert(w[0] == b@[pos as int] && w[1] == b@[pos + 1] && w[2] == b@[pos + 2] && w[3]
            == b@[pos + 3] && w[4] == b@[pos + 4] && w[5] == b@[pos + 5] && w[6] == b@[pos + 6]
            && w[7] == b@[pos + 7]);
    }
    Some(v)
}

/// The length-prefixed byte string at `pos`, and the position after it.
fn get_chunk(b: &[u8], pos: usize) -> (r: Option<(Vec<u8>, usize)>)
    ensures
        match r {
            Some((v, p)) => take_chunk(b@, pos as int) == Some(v@) && p == pos + 8 + v@.len(),
            None => take_chunk(b@, pos as int) is None,
        },
{
    let l = match get_u64(b, pos) {
        Some(l) => l,
        None => return None,
    };
    let rest: usize = b.len() - pos - 8;
    if l > rest as u64 {
        return None;
    }
    let total: usize = b.len();
    let start: usize = pos + 8;
    let n: usize = l as usize;
    let mut v: Vec<u8> = Vec::new();
    let mut k: usize = 0;
    while k < n
        invariant
            0 <= k <= n,
            start + n <= total,
            total == b@.len(),
            v@ == b@.subrange(start as int, start + k),
        decreases n - k,
    {
        v.push(b[start + k]);
        k = k + 1;
        assert(v@ =~= b@.subrange(start as int, start + k));
    }
    Some((v, start + n))
}

/// The identifier at `pos`, and the position after it.
fn get_identifier(b: &[u8], pos: usize) -> (r: Option<(Identifier, usize)>)
    ensures
        match r {
            Some((i, p)) => parse_identifier(b@, pos as int) == Some(
                ((i.spec_name(), i.spec_id()), p as int),
            ),
            None => parse_identifier(b@, pos as int) is None,
        },
{
    let (c, p) = match get_chunk(b, pos) {
        Some(x) => x,
        None => return None,
    };
    let name = match string_from_utf8(c) {
        Some(s) => s,
        None => return None,
    };
    let id = match get_u64(b, p) {
        Some(id) => id,
        None => return None,
    };
    let total: usize = b.len();
    assert(p + 8 <= total);
    let i = Identifier::from_given(name.as_str(), id);
    Some((i, p + 8))
}

/// The request on the wire for `source`, `destination` and `payload`.
pub struct DecisionRequest {
    pub source: Identifier,
    pub destination: Identifier,
    pub payload: Vec<u8>,
}

impl View for DecisionRequest {
    type V = RequestView;

    open spec fn view(&self) -> RequestView {
        (
            (self.source.spec_name(), self.source.spec_id()),
            (self.destination.spec_name(), self.destination.spec_id()),
            self.payload@,
        )
    }
}

pub proof fn lemma_request_len(m: RequestView)
    ensures
        request_bytes(m).len() == 48 + encode_utf8(m.0.0).len() + encode_utf8(m.1.0).len()
            + m.2.len(),
        request_body(m).len() == 40 + encode_utf8(m.0.0).len() + encode_utf8(m.1.0).len()
            + m.2.len(),
{
    lemma_be64_read(request_body(m).len() as u64);
    lemma_be64_read(m.2.len() as u64);
    lemma_be64_read(m.0.1);
    lemma_be64_read(m.1.1);
    lemma_be64_read(encode_utf8(m.0.0).len() as u64);
    lemma_be64_read(encode_utf8(m.1.0).len() as u64);
}

/// Frames a request. It fails only where the frame would not fit in memory.
pub fn encode_request(req: &DecisionRequest) -> (r: Option<Vec<u8>>)
    ensures
        r is Some <==> request_bytes(req@).len() <= usize::MAX,
        r matches Some(v) ==> v@ == request_bytes(req@),
{
    let src = req.source.get_name().as_bytes();
    let dst = req.destination.get_name().as_bytes();
    proof {
        lemma_request_len(req@);
    }
    let n1 = match src.len().checked_add(16) {
        Some(n) => n,
        None => return None,
    };
    let n2 = match dst.len().checked_add(16) {
        Some(n) => n,
        None => return None,
    };
    let n3 = match req.payload.len().checked_add(8) {
        Some(n) => n,
        None => return None,
    };
    let body_len = match n1.checked_add(n2) {
        Some(n) => match n.checked_add(n3) {
            Some(n) => n,
            None => return None,
        },
        None => return None,
    };
    let total = match body_len.checked_add(8) {
        Some(n) => n,
        None => return None,
    };
    let mut out: Vec<u8> = Vec::new();
    put_u64(&mut out, body_len as u64);
    put_u64(&mut out, src.len() as u64);
    put_bytes(&mut out, src);
    put_u64(&mut out, req.source.get_id());
    put_u64(&mut out, dst.len() as u64);
    put_bytes(&mut out, dst);
    put_u64(&mut out, req.destination.get_id());
    put_u64(&mut out, req.payload.len() as u64);
    put_bytes(&mut out, req.payload.as_slice());
    proof {
        let m = req@;
        assert(src@ == encode_utf8(m.0.0));
        assert(dst@ == encode_utf8(m.1.0));
        assert(body_len == request_body(m).len());
        let i1 = identifier_bytes(m.0);
        let i2 = identifier_bytes(m.1);
        let c = chunk_bytes(m.2);
        assert(out@ =~= be64(body_len as u64) + i1 + i2 + c);
        assert(request_bytes(m) =~= be64(body_len as u64) + i1 + i2 + c);
    }
    Some(out)
}

/// Reads one request frame that fills `b` exactly; `None` where `b` is the
/// frame of no request (truncated, too long, or not a frame at all).
pub fn decode_request(b: &[u8]) -> (r: Option<DecisionRequest>)
    ensures
        match r {
            Some(req) => b@ == request_bytes(req@),
            None => forall|m: RequestView| b@ != #[trigger] request_bytes(m),
        },
{
    let total: usize = b.len();
    let r = decode_parts(b);
    match r {
        Some(req) => {
            proof {
                lemma_encode_decode(b@);
            }
            Some(req)
        },
        None => {
            proof {
                assert forall|m: RequestView| b@ != #[trigger] request_bytes(m) by {
                    if b@ == request_bytes(m) {
                        assert(request_bytes(m).len() == total);
                        lemma_decode_encode(m);
                    }
                }
            }
            None
        },
    }
}

fn decode_parts(b: &[u8]) -> (r: Option<DecisionRequest>)
    ensures
        match r {
            Some(req) => parse_request(b@) == Some(req@),
            None => parse_request(b@) is None,
        },
{
    let l = match get_u64(b, 0) {
        Some(l) => l,
        None => return None,
    };
    if l != (b.len() - 8) as u64 {
        return None;
    }
    let (source, p1) = match get_identifier(b, 8) {
        Some(x) => x,
        None => return None,
    };
    let (destination, p2) = match get_identifier(b, p1) {
        Some(x) => x,
        None => return None,
    };
    let (payload, p3) = match get_chunk(b, p2) {
        Some(x) => x,
        None => return None,
    };
    if p3 != b.len() {
        return None;
    }
    Some(DecisionRequest { source, destination, payload })
}

/// A response frame is the frame of one decision only, so decoding it gives
/// back the decision it was made from.
pub proof fn lemma_response_bytes_injective(d1: Decision, d2: Decision)
    requires
        response_bytes(d1) == response_bytes(d2),
    ensures
        d1 == d2,
{
    assert(seq![decision_code(d1)][0] == decision_code(d1));
    assert(seq![decision_code(d2)][0] == decision_code(d2));
    match d1 {
        Decision::ALLOW => {},
        Decision::DISALLOWED_DESTINATION => {},
        Decision::SOURCE_UNKNOWN => {},
        Decision::MALFORMED_MESSAGE => {},
    }
}

/// Frames a response.
pub fn encode_response(d: Decision) -> (r: Vec<u8>)
    ensures
        r@ == response_bytes(d),
{
    let mut out: Vec<u8> = Vec::new();
    out.push(d.code());
    assert(out@ =~= response_bytes(d));
    out
}

/// Reads one response frame that fills `b` exactly.
pub fn decode_response(b: &[u8]) -> (r: Option<Decision>)
    ensures
        match r {
            Some(d) => b@ == response_bytes(d),
            None => forall|d: Decision| b@ != #[trigger] response_bytes(d),
        },
{
    if b.len() != 1 {
        return None;
    }
    let r = Decision::from_code(b[0]);
    proof {
        match r {
            Some(d) => {
                assert(b@ =~= response_bytes(d));
            },
            None => {
                assert forall|d: Decision| b@ != #[trigger] response_bytes(d) by {
                    assert(response_bytes(d)[0] == decision_code(d));
                }
            },
        }
    }
    r
}

} // verus!
