//! The per-connection state machine.
//!
//! A freshly accepted connection is `Unidentified`. The first decodable
//! request fixes its class: `Script` when the identifying header carries the
//! reserved scripted-client signature, `Browser` otherwise. The class never
//! changes afterwards. Browsers are served files and the stats relay;
//! scripts upload payloads.

use vstd::prelude::*;
use crate::http_parse::{
    clone_bytes, bytes_eq, dec_digits, headers_seq, Header, HeaderV, Request, RequestV, Response,
    ResponseV,
};

verus! {

/// The lifecycle class of a connection.
#[derive(Clone, Copy, PartialEq, Eq, Structural, Debug)]
pub enum ClassTag {
    Unidentified,
    Browser,
    Script,
}

/// What the reactor keeps per connection besides its class: the token the
/// multiplexer knows it by, a not-yet-flushed encoded response, if any, and
/// whether the multiplexer has been asked for write interest besides read.
/// Every live connection holds at least read interest; write interest is
/// added exactly at identification, when the first response may be owed.
pub struct ClientInfo {
    pub token: u64,
    pub pending: Option<Vec<u8>>,
    pub write_interest: bool,
}

/// One connection, tagged by its lifecycle class.
pub enum Client {
    Browser(ClientInfo),
    Script(ClientInfo),
    Unidentified(ClientInfo),
}

impl Client {
    /// The token this connection is registered under.
    pub open spec fn token_spec(&self) -> u64 {
        match self {
            Client::Browser(info) => info.token,
            Client::Script(info) => info.token,
            Client::Unidentified(info) => info.token,
        }
    }

    /// The class this connection currently holds.
    pub open spec fn class_spec(&self) -> ClassTag {
        match self {
            Client::Browser(_) => ClassTag::Browser,
            Client::Script(_) => ClassTag::Script,
            Client::Unidentified(_) => ClassTag::Unidentified,
        }
    }

    /// Whether the multiplexer holds write interest for this connection.
    pub open spec fn write_interest_spec(&self) -> bool {
        match self {
            Client::Browser(info) => info.write_interest,
            Client::Script(info) => info.write_interest,
            Client::Unidentified(info) => info.write_interest,
        }
    }

    /// The bytes still waiting to be flushed to this connection, if any.
    pub open spec fn pending_spec(&self) -> Option<Seq<u8>> {
        match self {
            Client::Browser(info) => match info.pending {
                Some(b) => Some(b@),
                None => None,
            },
            Client::Script(info) => match info.pending {
                Some(b) => Some(b@),
                None => None,
            },
            Client::Unidentified(info) => match info.pending {
                Some(b) => Some(b@),
                None => None,
            },
        }
    }

    /// Read the token.
    pub fn token(&self) -> (t: u64)
        ensures
            t == self.token_spec(),
    {
        match self {
            Client::Browser(info) => info.token,
            Client::Script(info) => info.token,
            Client::Unidentified(info) => info.token,
        }
    }

    /// Whether the multiplexer holds write interest for this connection.
    pub fn has_write_interest(&self) -> (b: bool)
        ensures
            b == self.write_interest_spec(),
    {
        match self {
            Client::Browser(info) => info.write_interest,
            Client::Script(info) => info.write_interest,
            Client::Unidentified(info) => info.write_interest,
        }
    }

    /// Read the class.
    pub fn class_tag(&self) -> (t: ClassTag)
        ensures
            t == self.class_spec(),
    {
        match self {
            Client::Browser(_) => ClassTag::Browser,
            Client::Script(_) => ClassTag::Script,
            Client::Unidentified(_) => ClassTag::Unidentified,
        }
    }

    /// The same connection with its pending response replaced.
    pub fn with_pending(self, pending: Option<Vec<u8>>) -> (r: Client)
        ensures
            r.token_spec() == self.token_spec(),
            r.class_spec() == self.class_spec(),
            r.write_interest_spec() == self.write_interest_spec(),
            r.pending_spec() == match pending {
                Some(b) => Some::<Seq<u8>>(b@),
                None => None::<Seq<u8>>,
            },
    {
        match self {
            Client::Browser(info) => Client::Browser(
                ClientInfo { token: info.token, pending, write_interest: info.write_interest },
            ),
            Client::Script(info) => Client::Script(
                ClientInfo { token: info.token, pending, write_interest: info.write_interest },
            ),
            Client::Unidentified(info) => Client::Unidentified(
                ClientInfo { token: info.token, pending, write_interest: info.write_interest },
            ),
        }
    }

    /// A borrow of the pending response bytes, if any.
    pub fn pending_ref(&self) -> (r: &Option<Vec<u8>>)
        ensures
            self.pending_spec() == match *r {
                Some(b) => Some::<Seq<u8>>(b@),
                None => None::<Seq<u8>>,
            },
    {
        match self {
            Client::Browser(info) => &info.pending,
            Client::Script(info) => &info.pending,
            Client::Unidentified(info) => &info.pending,
        }
    }
}

// ---------------------------------------------------------------------------
// Identification.
// ---------------------------------------------------------------------------

/// The name of the identifying header, `User-Agent`.
pub open spec fn user_agent_name() -> Seq<u8> {
    seq![85u8, 115u8, 101u8, 114u8, 45u8, 65u8, 103u8, 101u8, 110u8, 116u8]
}

fn user_agent_name_vec() -> (r: Vec<u8>)
    ensures
        r@ == user_agent_name(),
{
    let mut v: Vec<u8> = Vec::new();
    v.push(85);
    v.push(115);
    v.push(101);
    v.push(114);
    v.push(45);
    v.push(65);
    v.push(103);
    v.push(101);
    v.push(110);
    v.push(116);
    proof {
        assert(v@ =~= user_agent_name());
    }
    v
}

/// The value of the first header named `name`, if any.
pub open spec fn header_value(hs: Seq<HeaderV>, name: Seq<u8>) -> Option<Seq<u8>>
    decreases hs.len(),
{
    if hs.len() == 0 {
        None
    } else if hs[0].name == name {
        Some(hs[0].value)
    } else {
        header_value(hs.drop_first(), name)
    }
}

/// The class a request assigns to an unidentified connection: `Script` when
/// the identifying header equals the reserved signature, `Browser` otherwise
/// (a missing header identifies a browser).
pub open spec fn classify_spec(req: RequestV, sig: Seq<u8>) -> ClassTag {
    if header_value(req.headers, user_agent_name()) == Some(sig) {
        ClassTag::Script
    } else {
        ClassTag::Browser
    }
}

/// The class a connection holds after one request: assigned once, then kept.
pub open spec fn identify_spec(c: ClassTag, req: RequestV, sig: Seq<u8>) -> ClassTag {
    if c is Unidentified {
        classify_spec(req, sig)
    } else {
        c
    }
}

/// Identification is sticky: a connection that is already `Browser` or
/// `Script` keeps that class under every further request, and no request
/// ever makes a connection `Unidentified` again.
pub proof fn lemma_identification_sticky(c: ClassTag, req: RequestV, sig: Seq<u8>)
    ensures
        c !is Unidentified ==> identify_spec(c, req, sig) == c,
        identify_spec(c, req, sig) !is Unidentified,
{
}

/// Classify a request against the reserved signature.
#[verifier::loop_isolation(false)]
pub fn classify(req: &Request, sig: &Vec<u8>) -> (r: ClassTag)
    ensures
        r == classify_spec(req@, sig@),
{
    let ua = user_agent_name_vec();
    let hs = &req.headers;
    let mut i: usize = 0;
    proof {
        assert(headers_seq(hs@).skip(0) =~= req@.headers);
    }
    while i < hs.len()
        invariant
            i <= hs@.len(),
            header_value(req@.headers, user_agent_name()) == header_value(
                headers_seq(hs@).skip(i as int),
                user_agent_name(),
            ),
        decreases hs@.len() - i,
    {
        proof {
            let tail = headers_seq(hs@).skip(i as int);
            assert(tail[0] == hs@[i as int]@);
            assert(tail.drop_first() =~= headers_seq(hs@).skip(i + 1));
        }
        if bytes_eq(&hs[i].name, &ua) {
            let r = bytes_eq(&hs[i].value, sig);
            return if r {
                ClassTag::Script
            } else {
                ClassTag::Browser
            };
        }
        i = i + 1;
    }
    proof {
        assert(headers_seq(hs@).skip(hs@.len() as int) =~= Seq::<HeaderV>::empty());
    }
    ClassTag::Browser
}

impl Client {
    /// Fix the class of this connection from its first decodable request;
    /// an already identified connection is returned unchanged.
    /// An unidentified connection that gets classified also gains write
    /// interest: it may owe a response to the very request that made the
    /// transition.
    pub fn identify(self, req: &Request, sig: &Vec<u8>) -> (r: Client)
        ensures
            r.token_spec() == self.token_spec(),
            r.pending_spec() == self.pending_spec(),
            r.class_spec() == identify_spec(self.class_spec(), req@, sig@),
            r.write_interest_spec() == (if self.class_spec() is Unidentified {
                true
            } else {
                self.write_interest_spec()
            }),
    {
        match self {
            Client::Unidentified(info) => {
                let upgraded = ClientInfo {
                    token: info.token,
                    pending: info.pending,
                    write_interest: true,
                };
                match classify(req, sig) {
                    ClassTag::Script => Client::Script(upgraded),
                    _ => Client::Browser(upgraded),
                }
            },
            other => other,
        }
    }
}

// ---------------------------------------------------------------------------
// Serving static content.
// ---------------------------------------------------------------------------

/// The name of the length header, `Content-Length`.
pub open spec fn content_length_name() -> Seq<u8> {
    seq![67u8, 111u8, 110u8, 116u8, 101u8, 110u8, 116u8, 45u8, 76u8, 101u8, 110u8, 103u8, 116u8,
        104u8]
}

fn content_length_name_vec() -> (r: Vec<u8>)
    ensures
        r@ == content_length_name(),
{
    let mut v: Vec<u8> = Vec::new();
    v.push(67);
    v.push(111);
    v.push(110);
    v.push(116);
    v.push(101);
    v.push(110);
    v.push(116);
    v.push(45);
    v.push(76);
    v.push(101);
    v.push(110);
    v.push(103);
    v.push(116);
    v.push(104);
    proof {
        assert(v@ =~= content_length_name());
    }
    v
}

/// The view of an optional byte-blob lookup result.
pub open spec fn opt_bytes_view(o: Option<Vec<u8>>) -> Option<Seq<u8>> {
    match o {
        Some(v) => Some(v@),
        None => None,
    }
}

/// The response owed for a byte-blob lookup: the bytes whole, with their
/// exact length declared, when the lookup succeeded; an empty 404 when it
/// failed.
pub open spec fn build_response_spec(contents: Option<Seq<u8>>) -> ResponseV {
    match contents {
        Some(c) => ResponseV {
            status: 200,
            headers: seq![HeaderV { name: content_length_name(), value: dec_digits(c.len()) }],
            body: c,
        },
        None => ResponseV {
            status: 404,
            headers: seq![HeaderV { name: content_length_name(), value: dec_digits(0) }],
            body: Seq::empty(),
        },
    }
}

/// A found blob is served whole: status 200, a `Content-Length` equal to the
/// body length, and the body exactly the stored bytes.
pub proof fn lemma_found_blob_served_exactly(c: Seq<u8>)
    ensures
        build_response_spec(Some(c)).status == 200,
        build_response_spec(Some(c)).body == c,
        build_response_spec(Some(c)).headers == seq![
            HeaderV { name: content_length_name(), value: dec_digits(c.len()) },
        ],
{
}

/// A missed lookup is answered 404 with an empty body and `Content-Length: 0`.
pub proof fn lemma_missing_blob_answered_empty()
    ensures
        build_response_spec(None).status == 404,
        build_response_spec(None).body == Seq::<u8>::empty(),
        build_response_spec(None).headers == seq![
            HeaderV { name: content_length_name(), value: dec_digits(0) },
        ],
{
}

impl Client {
    /// Build the response for a byte-blob lookup result.
    pub fn build_response(contents: Option<Vec<u8>>) -> (r: Response)
        ensures
            r@ == build_response_spec(opt_bytes_view(contents)),
    {
        match contents {
            Some(c) => {
                let value = crate::http_parse::usize_digits(c.len());
                let mut headers: Vec<Header> = Vec::new();
                headers.push(Header { name: content_length_name_vec(), value });
                let r = Response { status: 200, headers, body: c };
                proof {
                    assert(headers_seq(r.headers@) =~= build_response_spec(
                        opt_bytes_view(contents),
                    ).headers);
                }
                r
            },
            None => {
                let value = crate::http_parse::usize_digits(0);
                let mut headers: Vec<Header> = Vec::new();
                headers.push(Header { name: content_length_name_vec(), value });
                let r = Response { status: 404, headers, body: Vec::new() };
                proof {
                    assert(headers_seq(r.headers@) =~= build_response_spec(
                        opt_bytes_view(contents),
                    ).headers);
                    assert(r.body@ =~= Seq::<u8>::empty());
                }
                r
            },
        }
    }
}

} // verus!
