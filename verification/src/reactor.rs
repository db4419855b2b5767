//! The reactor core: the connection registry and the decisions taken on
//! each readiness event.
//!
//! The reactor owns the registry, the deferred task queue and the shared
//! upload buffer. It never touches a socket: the surrounding event loop
//! reads the bytes, asks the reactor what to do, and carries the answer
//! out. Every decision — classification, upload, deferral, file routing —
//! is taken here.

use vstd::prelude::*;
use crate::client::{build_response_spec, identify_spec, Client, ClientInfo, ClassTag};
use crate::global::{
    all_serviceable, count_serviceable, defer_spec, lemma_count_serviceable_none, upload_spec,
    GlobalHandle, GlobalV, Task,
};
use crate::http_parse::{bytes_eq, clone_bytes, Request, RequestV, Response, ResponseV};
use crate::ErrKind;

verus! {

/// What a readiness token stands for: the listening socket, or one
/// established connection.
pub enum ConnType {
    Server,
    Client(usize),
}

impl From<ConnType> for usize {
    /// The token space: 0 is the listener, every connection counts from 1.
    fn from(connection: ConnType) -> (r: usize) {
        match connection {
            ConnType::Server => 0,
            ConnType::Client(identifier) => identifier,
        }
    }
}

impl vstd::std_specs::convert::FromSpecImpl<ConnType> for usize {
    open spec fn obeys_from_spec() -> bool {
        true
    }

    open spec fn from_spec(connection: ConnType) -> usize {
        match connection {
            ConnType::Server => 0,
            ConnType::Client(identifier) => identifier,
        }
    }
}

/// The `GET` method token.
pub open spec fn get_method() -> Seq<u8> {
    seq![71u8, 69u8, 84u8]
}

fn get_method_vec() -> (r: Vec<u8>)
    ensures
        r@ == get_method(),
{
    let mut v: Vec<u8> = Vec::new();
    v.push(71);
    v.push(69);
    v.push(84);
    proof {
        assert(v@ =~= get_method());
    }
    v
}

/// The reserved path `/stats`, answered from the upload buffer instead of
/// the blob store.
pub open spec fn stats_path() -> Seq<u8> {
    seq![47u8, 115u8, 116u8, 97u8, 116u8, 115u8]
}

fn stats_path_vec() -> (r: Vec<u8>)
    ensures
        r@ == stats_path(),
{
    let mut v: Vec<u8> = Vec::new();
    v.push(47);
    v.push(115);
    v.push(116);
    v.push(97);
    v.push(116);
    v.push(115);
    proof {
        assert(v@ =~= stats_path());
    }
    v
}

/// What the event loop must do after one request has been handled.
pub enum Outcome {
    /// Write this response now.
    Respond(Response),
    /// Look this path up in the blob store, build the response for the
    /// result, and write it.
    NeedFile(Vec<u8>),
    /// Write nothing: a deferred task will answer this connection later.
    Deferred,
    /// The request cannot be served; fail this connection.
    Reject(ErrKind),
}

/// The mathematical shape of an outcome.
pub enum OutcomeV {
    Respond(ResponseV),
    NeedFile(Seq<u8>),
    Deferred,
    Reject(ErrKind),
}

impl View for Outcome {
    type V = OutcomeV;

    open spec fn view(&self) -> OutcomeV {
        match self {
            Outcome::Respond(r) => OutcomeV::Respond(r@),
            Outcome::NeedFile(p) => OutcomeV::NeedFile(p@),
            Outcome::Deferred => OutcomeV::Deferred,
            Outcome::Reject(e) => OutcomeV::Reject(*e),
        }
    }
}

// ---------------------------------------------------------------------------
// The decision rules, as functions of the shared state.
// ---------------------------------------------------------------------------

/// A browser request for the stats path: answered from the buffer at once
/// when an upload has landed, deferred otherwise.
pub open spec fn stats_step(g: GlobalV, token: u64) -> (GlobalV, OutcomeV) {
    if g.fresh {
        (g, OutcomeV::Respond(build_response_spec(Some(g.data))))
    } else {
        (defer_spec(g, token), OutcomeV::Deferred)
    }
}

/// What one request does to the shared state, given the class the
/// connection holds once identified: a script replaces the upload buffer
/// with the request body and is acknowledged; a browser is served the
/// stats relay or routed to the blob store; anything but GET on a browser
/// is rejected.
pub open spec fn request_step(g: GlobalV, cls: ClassTag, token: u64, req: RequestV) -> (
    GlobalV,
    OutcomeV,
) {
    if cls is Script {
        (upload_spec(g, req.body), OutcomeV::Respond(build_response_spec(Some(Seq::empty()))))
    } else if req.method != get_method() {
        (g, OutcomeV::Reject(ErrKind::UnsupportedMethod))
    } else if req.path == stats_path() {
        stats_step(g, token)
    } else {
        (g, OutcomeV::NeedFile(req.path))
    }
}

// ---------------------------------------------------------------------------
// The registry.
// ---------------------------------------------------------------------------

/// The first registered connection with this token, if any.
pub open spec fn find_in(cs: Seq<Client>, token: u64) -> Option<Client>
    decreases cs.len(),
{
    if cs.len() == 0 {
        None
    } else if cs[0].token_spec() == token {
        Some(cs[0])
    } else {
        find_in(cs.drop_first(), token)
    }
}

/// The registry and everything the decisions need: the shared state, the
/// next token to hand out, and the signature that identifies a script.
pub struct Reactor {
    pub clients: Vec<Client>,
    pub handle: GlobalHandle,
    pub next_id: u64,
    pub signature: Vec<u8>,
}

impl Reactor {
    /// Registered tokens are unique, positive (token 0 is the listener),
    /// and below the next token to be handed out; the shared state is
    /// well formed.
    pub open spec fn wf(&self) -> bool {
        &&& 1 <= self.next_id
        &&& forall|i: int, j: int|
            0 <= i < j < self.clients@.len() ==> self.clients@[i].token_spec()
                != self.clients@[j].token_spec()
        &&& forall|i: int|
            0 <= i < self.clients@.len() ==> 1 <= #[trigger] self.clients@[i].token_spec()
                < self.next_id
        &&& forall|i: int|
            0 <= i < self.clients@.len() ==> (#[trigger] self.clients@[i].write_interest_spec())
                == (self.clients@[i].class_spec() !is Unidentified)
        &&& self.handle.wf()
    }

    /// Whether a connection with this token is registered.
    pub open spec fn has_client(&self, token: u64) -> bool {
        find_in(self.clients@, token) is Some
    }

    /// The registered connection with this token.
    pub open spec fn client_of(&self, token: u64) -> Client
        recommends
            self.has_client(token),
    {
        find_in(self.clients@, token)->0
    }

    /// An empty reactor: no connections, no tasks, no upload; connection
    /// tokens start at 1, after the listener's 0.
    pub fn new(signature: Vec<u8>) -> (r: Reactor)
        ensures
            r.clients@ == Seq::<Client>::empty(),
            r.handle@.tasks == Seq::<Task>::empty(),
            r.handle@.data == Seq::<u8>::empty(),
            !r.handle@.fresh,
            r.next_id == 1,
            r.signature@ == signature@,
            r.wf(),
    {
        Reactor { clients: Vec::new(), handle: GlobalHandle::new(), next_id: 1, signature }
    }

    /// Register a newly accepted connection: it gets the next token and
    /// starts out unidentified, with nothing pending.
    pub fn on_accept(&mut self) -> (token: u64)
        requires
            old(self).wf(),
            old(self).next_id < u64::MAX,
        ensures
            final(self).wf(),
            token == old(self).next_id,
            final(self).next_id == old(self).next_id + 1,
            final(self).clients@ == old(self).clients@.push(
                Client::Unidentified(ClientInfo { token, pending: None, write_interest: false }),
            ),
            final(self).handle == old(self).handle,
            final(self).signature == old(self).signature,
            final(self).has_client(token),
    {
        let token = self.next_id;
        self.next_id = self.next_id + 1;
        self.clients.push(Client::Unidentified(ClientInfo { token, pending: None, write_interest: false }));
        proof {
            lemma_find_in_push_new(old(self).clients@, token, None);
            let oldc = old(self).clients@;
            let c = Client::Unidentified(ClientInfo { token, pending: None, write_interest: false });
            assert forall|i: int| 0 <= i < self.clients@.len() implies 1 <= #[trigger] self
                .clients@[i].token_spec() < self.next_id by {
                if i < oldc.len() {
                    assert(self.clients@[i] == oldc[i]);
                } else {
                    assert(self.clients@[i] == c);
                }
            }
            assert forall|i: int, j: int| 0 <= i < j < self.clients@.len() implies self
                .clients@[i].token_spec() != self.clients@[j].token_spec() by {
                if j < oldc.len() {
                } else {
                    assert(self.clients@[j] == c);
                    assert(self.clients@[i] == oldc[i]);
                }
            }
            assert forall|i: int| 0 <= i < self.clients@.len() implies (#[trigger] self
                .clients@[i].write_interest_spec()) == (self.clients@[i].class_spec()
                !is Unidentified) by {
                if i < oldc.len() {
                    assert(self.clients@[i] == oldc[i]);
                } else {
                    assert(self.clients@[i] == c);
                }
            }
        }
        token
    }

    /// The index of the connection registered under `token`.
    fn find_idx(&self, token: u64) -> (r: Option<usize>)
        ensures
            match r {
                Some(i) => i < self.clients@.len() && self.clients@[i as int].token_spec()
                    == token && find_in(self.clients@, token) == Some(self.clients@[i as int])
                    && forall|j: int|
                    0 <= j < i ==> (#[trigger] self.clients@[j]).token_spec() != token,
                None => find_in(self.clients@, token) is None,
            },
    {
        let mut i: usize = 0;
        proof {
            assert(self.clients@.skip(0) =~= self.clients@);
        }
        while i < self.clients.len()
            invariant
                i <= self.clients@.len(),
                find_in(self.clients@, token) == find_in(self.clients@.skip(i as int), token),
                forall|j: int| 0 <= j < i ==> (#[trigger] self.clients@[j]).token_spec() != token,
            decreases self.clients@.len() - i,
        {
            proof {
                let tail = self.clients@.skip(i as int);
                assert(tail[0] == self.clients@[i as int]);
                assert(tail.drop_first() =~= self.clients@.skip(i + 1));
            }
            if self.clients[i].token() == token {
                return Some(i);
            }
            i = i + 1;
        }
        proof {
            assert(self.clients@.skip(self.clients@.len() as int)
                =~= Seq::<Client>::empty());
        }
        None
    }
}

impl Reactor {
    /// Handle one decoded request from the connection registered under
    /// `token`.
    ///
    /// The connection is identified first (once, stickily); then the
    /// request is dispatched by class, and the shared state and the
    /// outcome follow `request_step` exactly. No other connection moves.
    pub fn handle_request(&mut self, token: u64, req: &Request) -> (out: Outcome)
        requires
            old(self).wf(),
            old(self).has_client(token),
        ensures
            final(self).wf(),
            final(self).next_id == old(self).next_id,
            final(self).signature == old(self).signature,
            final(self).clients@.len() == old(self).clients@.len(),
            forall|i: int|
                0 <= i < old(self).clients@.len() ==> {
                    let oc = #[trigger] old(self).clients@[i];
                    let nc = final(self).clients@[i];
                    &&& nc.token_spec() == oc.token_spec()
                    &&& nc.pending_spec() == oc.pending_spec()
                    &&& nc.class_spec() == (if oc.token_spec() == token {
                        identify_spec(oc.class_spec(), req@, old(self).signature@)
                    } else {
                        oc.class_spec()
                    })
                },
            ({
                let cls = identify_spec(
                    old(self).client_of(token).class_spec(),
                    req@,
                    old(self).signature@,
                );
                (final(self).handle@, out@) == request_step(old(self).handle@, cls, token, req@)
            }),
    {
        let idx: usize;
        match self.find_idx(token) {
            Some(i) => {
                idx = i;
            },
            None => {
                proof {
                    assert(false);
                }
                idx = 0;
            },
        }
        let c = self.clients.remove(idx);
        let c2 = c.identify(req, &self.signature);
        let tag = c2.class_tag();
        self.clients.insert(idx, c2);
        proof {
            assert(self.clients@ =~= old(self).clients@.update(idx as int, c2));
            assert forall|i: int| 0 <= i < old(self).clients@.len() implies {
                let oc = #[trigger] old(self).clients@[i];
                let nc = self.clients@[i];
                &&& nc.token_spec() == oc.token_spec()
                &&& nc.pending_spec() == oc.pending_spec()
                &&& nc.class_spec() == (if oc.token_spec() == token {
                    identify_spec(oc.class_spec(), req@, old(self).signature@)
                } else {
                    oc.class_spec()
                })
            } by {
                if i == idx {
                } else {
                    assert(self.clients@[i] == old(self).clients@[i]);
                    let oc_i = old(self).clients@[i];
                    let oc_idx = old(self).clients@[idx as int];
                    if i < idx {
                        assert(oc_i.token_spec() != oc_idx.token_spec());
                    } else {
                        assert(oc_idx.token_spec() != oc_i.token_spec());
                    }
                }
            }
            assert forall|i: int, j: int| 0 <= i < j < self.clients@.len() implies self
                .clients@[i].token_spec() != self.clients@[j].token_spec() by {
                assert(self.clients@[i].token_spec() == old(self).clients@[i].token_spec());
                assert(self.clients@[j].token_spec() == old(self).clients@[j].token_spec());
            }
            assert forall|i: int| 0 <= i < self.clients@.len() implies 1 <= #[trigger] self
                .clients@[i].token_spec() < self.next_id by {
                assert(self.clients@[i].token_spec() == old(self).clients@[i].token_spec());
            }
            assert forall|i: int| 0 <= i < self.clients@.len() implies (#[trigger] self
                .clients@[i].write_interest_spec()) == (self.clients@[i].class_spec()
                !is Unidentified) by {
                if i != idx {
                    assert(self.clients@[i] == old(self).clients@[i]);
                }
            }
        }
        match tag {
            ClassTag::Script => {
                let body = clone_bytes(&req.body);
                self.handle.upload(body);
                let ack = Client::build_response(Some(Vec::new()));
                Outcome::Respond(ack)
            },
            ClassTag::Browser => {
                let getv = get_method_vec();
                if !bytes_eq(&req.method, &getv) {
                    return Outcome::Reject(ErrKind::UnsupportedMethod);
                }
                let statsv = stats_path_vec();
                if bytes_eq(&req.path, &statsv) {
                    if self.handle.is_fresh {
                        let data = clone_bytes(&self.handle.data);
                        Outcome::Respond(Client::build_response(Some(data)))
                    } else {
                        self.handle.defer(token);
                        Outcome::Deferred
                    }
                } else {
                    Outcome::NeedFile(clone_bytes(&req.path))
                }
            },
            ClassTag::Unidentified => {
                proof {
                    assert(false);
                }
                Outcome::Reject(ErrKind::Fatal)
            },
        }
    }
}

// ---------------------------------------------------------------------------
// Draining the deferred tasks.
// ---------------------------------------------------------------------------

/// The tasks still queued after a drain, reading the queue from position
/// `i`: the not-yet-serviceable ones, in order.
pub open spec fn kept_from(q: Seq<Task>, i: int) -> Seq<Task>
    decreases q.len() - i when 0 <= i <= q.len()
{
    if i == q.len() {
        Seq::empty()
    } else {
        (if q[i].service {
            Seq::empty()
        } else {
            seq![q[i]]
        }) + kept_from(q, i + 1)
    }
}

/// The tokens a drain answers, reading the queue from position `i`: each
/// serviceable task whose connection is still registered, in queue order.
/// A serviceable task of a connection that is gone is dropped silently;
/// either way every serviceable task is consumed.
pub open spec fn fired_from(q: Seq<Task>, cs: Seq<Client>, i: int) -> Seq<u64>
    decreases q.len() - i when 0 <= i <= q.len()
{
    if i == q.len() {
        Seq::empty()
    } else {
        (if q[i].service && find_in(cs, q[i].token) is Some {
            seq![q[i].token]
        } else {
            Seq::empty()
        }) + fired_from(q, cs, i + 1)
    }
}

/// The target tokens of a drain's answers, in order.
pub open spec fn out_tokens(s: Seq<(u64, Response)>) -> Seq<u64> {
    s.map_values(|p: (u64, Response)| p.0)
}

/// Nothing kept by a drain is serviceable.
proof fn lemma_kept_from_not_serviceable(q: Seq<Task>, i: int)
    requires
        0 <= i <= q.len(),
    ensures
        forall|j: int|
            0 <= j < kept_from(q, i).len() ==> !(#[trigger] kept_from(q, i)[j]).service,
    decreases q.len() - i,
{
    if i < q.len() {
        lemma_kept_from_not_serviceable(q, i + 1);
        let cur = kept_from(q, i);
        let rest = kept_from(q, i + 1);
        assert forall|j: int| 0 <= j < cur.len() implies !(#[trigger] cur[j]).service by {
            if q[i].service {
                assert(cur[j] == rest[j]);
            } else if j == 0 {
                assert(cur[j] == q[i]);
            } else {
                assert(cur[j] == rest[j - 1]);
            }
        }
    }
}

impl Reactor {
    /// Drain the queue: answer every serviceable task in queue order from
    /// the upload buffer as it stands now, drop those whose connection is
    /// gone, and keep the rest queued. Each serviceable task is consumed
    /// by its one replay attempt.
    #[verifier::loop_isolation(false)]
    pub fn drain_tasks(&mut self) -> (out: Vec<(u64, Response)>)
        requires
            old(self).wf(),
        ensures
            final(self).wf(),
            final(self).clients == old(self).clients,
            final(self).next_id == old(self).next_id,
            final(self).signature == old(self).signature,
            final(self).handle@.data == old(self).handle@.data,
            final(self).handle@.fresh == old(self).handle@.fresh,
            final(self).handle@.tasks == kept_from(old(self).handle@.tasks, 0),
            out_tokens(out@) == fired_from(old(self).handle@.tasks, old(self).clients@, 0),
            forall|k: int|
                0 <= k < out@.len() ==> (#[trigger] out@[k]).1@ == build_response_spec(
                    Some(old(self).handle@.data),
                ),
    {
        let ghost q0 = self.handle.task_queue.queue@;
        let ghost cs0 = self.clients@;
        let mut kept: Vec<Task> = Vec::new();
        let mut out: Vec<(u64, Response)> = Vec::new();
        let n = self.handle.task_queue.queue.len();
        let mut i: usize = 0;
        proof {
            assert(kept_from(q0, 0) =~= kept@ + kept_from(q0, 0));
            assert(fired_from(q0, cs0, 0) =~= out_tokens(out@) + fired_from(q0, cs0, 0));
        }
        while i < n
            invariant
                i <= n,
                n == q0.len(),
                self.handle.task_queue.queue@ == q0,
                self.clients@ == cs0,
                self.handle.data@ == old(self).handle.data@,
                self.handle.is_fresh == old(self).handle.is_fresh,
                kept_from(q0, 0) == kept@ + kept_from(q0, i as int),
                fired_from(q0, cs0, 0) == out_tokens(out@) + fired_from(q0, cs0, i as int),
                forall|k: int|
                    0 <= k < out@.len() ==> (#[trigger] out@[k]).1@ == build_response_spec(
                        Some(old(self).handle@.data),
                    ),
            decreases n - i,
        {
            let t = self.handle.task_queue.queue[i];
            if t.service {
                match self.find_idx(t.token) {
                    Some(_) => {
                        let data = clone_bytes(&self.handle.data);
                        let resp = Client::build_response(Some(data));
                        proof {
                            assert(out_tokens(out@.push((t.token, resp))) =~= out_tokens(
                                out@,
                            ).push(t.token));
                            assert((out_tokens(out@) + seq![t.token]) + fired_from(
                                q0,
                                cs0,
                                i + 1,
                            ) =~= out_tokens(out@) + (seq![t.token] + fired_from(q0, cs0, i + 1)));
                        }
                        out.push((t.token, resp));
                    },
                    None => {
                        proof {
                            assert(fired_from(q0, cs0, i as int) == fired_from(q0, cs0, i + 1));
                        }
                    },
                }
            } else {
                proof {
                    assert(kept@.push(t) =~= kept@ + seq![t]);
                    assert((kept@ + seq![t]) + kept_from(q0, i + 1) =~= kept@ + (seq![t]
                        + kept_from(q0, i + 1)));
                }
                kept.push(t);
            }
            i = i + 1;
        }
        proof {
            assert(kept_from(q0, n as int) =~= Seq::<Task>::empty());
            assert(fired_from(q0, cs0, n as int) =~= Seq::<u64>::empty());
            assert(kept@ =~= kept@ + kept_from(q0, n as int));
            assert(out_tokens(out@) =~= out_tokens(out@) + fired_from(q0, cs0, n as int));
            lemma_kept_from_not_serviceable(q0, 0);
            lemma_count_serviceable_none(kept_from(q0, 0));
        }
        self.handle.task_queue.queue = kept;
        self.handle.task_queue.serviceable = 0;
        out
    }
}

// ---------------------------------------------------------------------------
// Pending responses and teardown.
// ---------------------------------------------------------------------------

/// The registry with the first connection holding `token` taken out; the
/// registry unchanged when none does.
pub open spec fn remove_by_token(cs: Seq<Client>, token: u64) -> Seq<Client>
    decreases cs.len(),
{
    if cs.len() == 0 {
        cs
    } else if cs[0].token_spec() == token {
        cs.drop_first()
    } else {
        seq![cs[0]] + remove_by_token(cs.drop_first(), token)
    }
}

/// Removing the first occurrence at its index is `remove_by_token`.
proof fn lemma_remove_by_token_at(cs: Seq<Client>, token: u64, i: int)
    requires
        0 <= i < cs.len(),
        cs[i].token_spec() == token,
        forall|j: int| 0 <= j < i ==> (#[trigger] cs[j]).token_spec() != token,
    ensures
        remove_by_token(cs, token) == cs.remove(i),
    decreases i,
{
    if i == 0 {
        assert(cs.remove(0) =~= cs.drop_first());
    } else {
        let rest = cs.drop_first();
        assert(rest[i - 1] == cs[i]);
        assert forall|j: int| 0 <= j < i - 1 implies (#[trigger] rest[j]).token_spec()
            != token by {
            assert(rest[j] == cs[j + 1]);
        }
        lemma_remove_by_token_at(rest, token, i - 1);
        assert(seq![cs[0]] + rest.remove(i - 1) =~= cs.remove(i));
    }
}

/// A token held by no registered connection is not found.
proof fn lemma_find_in_absent(cs: Seq<Client>, token: u64)
    requires
        forall|k: int| 0 <= k < cs.len() ==> (#[trigger] cs[k]).token_spec() != token,
    ensures
        find_in(cs, token) is None,
    decreases cs.len(),
{
    if cs.len() > 0 {
        assert forall|k: int| 0 <= k < cs.drop_first().len() implies (#[trigger] cs.drop_first()[
        k]).token_spec() != token by {
            assert(cs.drop_first()[k] == cs[k + 1]);
        }
        lemma_find_in_absent(cs.drop_first(), token);
    }
}

/// A token found nowhere leaves `remove_by_token` with the registry as it
/// stands.
proof fn lemma_remove_by_token_absent(cs: Seq<Client>, token: u64)
    requires
        find_in(cs, token) is None,
    ensures
        remove_by_token(cs, token) == cs,
    decreases cs.len(),
{
    if cs.len() > 0 {
        lemma_remove_by_token_absent(cs.drop_first(), token);
        assert(seq![cs[0]] + cs.drop_first() =~= cs);
    }
}

impl Reactor {
    /// Replace what is pending on the connection registered under `token`.
    fn replace_pending(&mut self, token: u64, pending: Option<Vec<u8>>)
        requires
            old(self).wf(),
            old(self).has_client(token),
        ensures
            final(self).wf(),
            final(self).handle == old(self).handle,
            final(self).next_id == old(self).next_id,
            final(self).signature == old(self).signature,
            final(self).clients@.len() == old(self).clients@.len(),
            forall|i: int|
                0 <= i < old(self).clients@.len() ==> {
                    let oc = #[trigger] old(self).clients@[i];
                    let nc = final(self).clients@[i];
                    &&& nc.token_spec() == oc.token_spec()
                    &&& nc.class_spec() == oc.class_spec()
                    &&& nc.pending_spec() == (if oc.token_spec() == token {
                        match pending {
                            Some(b) => Some(b@),
                            None => None::<Seq<u8>>,
                        }
                    } else {
                        oc.pending_spec()
                    })
                },
    {
        let idx: usize;
        match self.find_idx(token) {
            Some(i) => {
                idx = i;
            },
            None => {
                proof {
                    assert(false);
                }
                idx = 0;
            },
        }
        let c = self.clients.remove(idx);
        let c2 = c.with_pending(pending);
        self.clients.insert(idx, c2);
        proof {
            assert(self.clients@ =~= old(self).clients@.update(idx as int, c2));
            assert forall|i: int| 0 <= i < old(self).clients@.len() implies {
                let oc = #[trigger] old(self).clients@[i];
                let nc = self.clients@[i];
                &&& nc.token_spec() == oc.token_spec()
                &&& nc.class_spec() == oc.class_spec()
                &&& nc.pending_spec() == (if oc.token_spec() == token {
                    match pending {
                        Some(b) => Some(b@),
                        None => None::<Seq<u8>>,
                    }
                } else {
                    oc.pending_spec()
                })
            } by {
                if i != idx {
                    assert(self.clients@[i] == old(self).clients@[i]);
                    let oc_i = old(self).clients@[i];
                    let oc_idx = old(self).clients@[idx as int];
                    if i < idx {
                        assert(oc_i.token_spec() != oc_idx.token_spec());
                    } else {
                        assert(oc_idx.token_spec() != oc_i.token_spec());
                    }
                }
            }
            assert forall|i: int, j: int| 0 <= i < j < self.clients@.len() implies self
                .clients@[i].token_spec() != self.clients@[j].token_spec() by {
                assert(self.clients@[i].token_spec() == old(self).clients@[i].token_spec());
                assert(self.clients@[j].token_spec() == old(self).clients@[j].token_spec());
            }
            assert forall|i: int| 0 <= i < self.clients@.len() implies 1 <= #[trigger] self
                .clients@[i].token_spec() < self.next_id by {
                assert(self.clients@[i].token_spec() == old(self).clients@[i].token_spec());
            }
            assert forall|i: int| 0 <= i < self.clients@.len() implies (#[trigger] self
                .clients@[i].write_interest_spec()) == (self.clients@[i].class_spec()
                !is Unidentified) by {
                if i != idx {
                    assert(self.clients@[i] == old(self).clients@[i]);
                }
            }
        }
    }

    /// Keep an encoded response on its connection until the socket takes
    /// it: a zero-byte write leaves it for the next writable event.
    pub fn store_pending(&mut self, token: u64, bytes: Vec<u8>)
        requires
            old(self).wf(),
            old(self).has_client(token),
        ensures
            final(self).wf(),
            final(self).handle == old(self).handle,
            final(self).next_id == old(self).next_id,
            final(self).signature == old(self).signature,
            final(self).clients@.len() == old(self).clients@.len(),
            forall|i: int|
                0 <= i < old(self).clients@.len() ==> {
                    let oc = #[trigger] old(self).clients@[i];
                    let nc = final(self).clients@[i];
                    &&& nc.token_spec() == oc.token_spec()
                    &&& nc.class_spec() == oc.class_spec()
                    &&& nc.pending_spec() == (if oc.token_spec() == token {
                        Some(bytes@)
                    } else {
                        oc.pending_spec()
                    })
                },
    {
        self.replace_pending(token, Some(bytes));
    }

    /// The response was flushed whole: nothing is pending any more.
    pub fn mark_written(&mut self, token: u64)
        requires
            old(self).wf(),
            old(self).has_client(token),
        ensures
            final(self).wf(),
            final(self).handle == old(self).handle,
            final(self).next_id == old(self).next_id,
            final(self).signature == old(self).signature,
            final(self).clients@.len() == old(self).clients@.len(),
            forall|i: int|
                0 <= i < old(self).clients@.len() ==> {
                    let oc = #[trigger] old(self).clients@[i];
                    let nc = final(self).clients@[i];
                    &&& nc.token_spec() == oc.token_spec()
                    &&& nc.class_spec() == oc.class_spec()
                    &&& nc.pending_spec() == (if oc.token_spec() == token {
                        None::<Seq<u8>>
                    } else {
                        oc.pending_spec()
                    })
                },
    {
        self.replace_pending(token, None);
    }

    /// A copy of what is pending on the connection registered under
    /// `token`, if anything.
    pub fn pending_response(&self, token: u64) -> (r: Option<Vec<u8>>)
        ensures
            match find_in(self.clients@, token) {
                Some(c) => match r {
                    Some(b) => c.pending_spec() == Some(b@),
                    None => c.pending_spec() is None,
                },
                None => r is None,
            },
    {
        match self.find_idx(token) {
            Some(i) => match self.clients[i].pending_ref() {
                Some(b) => Some(clone_bytes(b)),
                None => None,
            },
            None => None,
        }
    }

    /// Tear one connection down: take it out of the registry, exactly
    /// once. Its queued tasks, if any, will be dropped by the next drain.
    pub fn remove_client(&mut self, token: u64)
        requires
            old(self).wf(),
        ensures
            final(self).wf(),
            final(self).handle == old(self).handle,
            final(self).next_id == old(self).next_id,
            final(self).signature == old(self).signature,
            final(self).clients@ == remove_by_token(old(self).clients@, token),
            !final(self).has_client(token),
    {
        match self.find_idx(token) {
            Some(i) => {
                self.clients.remove(i);
                proof {
                    lemma_remove_by_token_at(old(self).clients@, token, i as int);
                    let oldc = old(self).clients@;
                    assert forall|k: int| 0 <= k < self.clients@.len() implies (
                    #[trigger] self.clients@[k]).token_spec() != token by {
                        if k < i {
                            assert(self.clients@[k] == oldc[k]);
                            assert(oldc[k].token_spec() != oldc[i as int].token_spec());
                        } else {
                            assert(self.clients@[k] == oldc[k + 1]);
                            assert(oldc[i as int].token_spec() != oldc[k + 1].token_spec());
                        }
                    }
                    lemma_find_in_absent(self.clients@, token);
                    assert forall|p: int, q: int| 0 <= p < q < self.clients@.len() implies self
                        .clients@[p].token_spec() != self.clients@[q].token_spec() by {
                        let oldp = if p < i {
                            p
                        } else {
                            p + 1
                        };
                        let oldq = if q < i {
                            q
                        } else {
                            q + 1
                        };
                        assert(self.clients@[p] == oldc[oldp]);
                        assert(self.clients@[q] == oldc[oldq]);
                    }
                    assert forall|k: int| 0 <= k < self.clients@.len() implies 1 <= #[trigger] self
                        .clients@[k].token_spec() < self.next_id by {
                        if k < i {
                            assert(self.clients@[k] == oldc[k]);
                        } else {
                            assert(self.clients@[k] == oldc[k + 1]);
                        }
                    }
                    assert forall|k: int| 0 <= k < self.clients@.len() implies (#[trigger] self
                        .clients@[k].write_interest_spec()) == (self.clients@[k].class_spec()
                        !is Unidentified) by {
                        if k < i {
                            assert(self.clients@[k] == oldc[k]);
                        } else {
                            assert(self.clients@[k] == oldc[k + 1]);
                        }
                    }
                }
            },
            None => {
                proof {
                    lemma_remove_by_token_absent(self.clients@, token);
                }
            },
        }
    }
}

impl Reactor {
    /// How many connections are registered.
    pub fn client_count(&self) -> (n: usize)
        ensures
            n == self.clients@.len(),
    {
        self.clients.len()
    }

    /// How many deferred tasks are queued.
    pub fn task_count(&self) -> (n: usize)
        ensures
            n == self.handle@.tasks.len(),
    {
        self.handle.task_queue.queue.len()
    }

    /// How many queued tasks are serviceable.
    pub fn serviceable_count(&self) -> (n: usize)
        requires
            self.wf(),
        ensures
            n == count_serviceable(self.handle@.tasks),
    {
        self.handle.task_queue.serviceable
    }

    /// Whether an upload has landed yet.
    pub fn upload_fresh(&self) -> (b: bool)
        ensures
            b == self.handle@.fresh,
    {
        self.handle.is_fresh
    }

    /// A copy of the upload buffer.
    pub fn upload_data(&self) -> (r: Vec<u8>)
        ensures
            r@ == self.handle@.data,
    {
        clone_bytes(&self.handle.data)
    }

    /// Whether the multiplexer holds write interest for the connection
    /// registered under `token`, if any.
    pub fn write_interest_of(&self, token: u64) -> (r: Option<bool>)
        ensures
            match find_in(self.clients@, token) {
                Some(c) => r == Some(c.write_interest_spec()),
                None => r is None,
            },
    {
        match self.find_idx(token) {
            Some(i) => Some(self.clients[i].has_write_interest()),
            None => None,
        }
    }

    /// The class of the connection registered under `token`, if any.
    pub fn class_of(&self, token: u64) -> (r: Option<ClassTag>)
        ensures
            match find_in(self.clients@, token) {
                Some(c) => r == Some(c.class_spec()),
                None => r is None,
            },
    {
        match self.find_idx(token) {
            Some(i) => Some(self.clients[i].class_tag()),
            None => None,
        }
    }
}

// ---------------------------------------------------------------------------
// What the decision rules add up to.
// ---------------------------------------------------------------------------

/// A serviceable task of a still-registered connection is among the tokens
/// a drain answers.
proof fn lemma_fired_from_contains(q: Seq<Task>, cs: Seq<Client>, i: int, k: int)
    requires
        0 <= i <= k < q.len(),
        q[k].service,
        find_in(cs, q[k].token) is Some,
    ensures
        fired_from(q, cs, i).contains(q[k].token),
    decreases k - i,
{
    if i == k {
        assert(fired_from(q, cs, i)[0] == q[k].token);
    } else {
        lemma_fired_from_contains(q, cs, i + 1, k);
        let rest = fired_from(q, cs, i + 1);
        let j = choose|j: int| 0 <= j < rest.len() && rest[j] == q[k].token;
        let cur = fired_from(q, cs, i);
        assert(cur[cur.len() - rest.len() + j] == q[k].token);
    }
}

/// A script upload of payload `p` followed by a browser read of the stats
/// path is answered at once, with status 200 and a body exactly `p`.
pub proof fn lemma_upload_then_stats(g: GlobalV, p: Seq<u8>, up: RequestV, st: RequestV, ts: u64, tb: u64)
    requires
        up.body == p,
        st.method == get_method(),
        st.path == stats_path(),
    ensures
        ({
            let (g1, _) = request_step(g, ClassTag::Script, ts, up);
            let (g2, out) = request_step(g1, ClassTag::Browser, tb, st);
            &&& g2 == g1
            &&& out == OutcomeV::Respond(build_response_spec(Some(p)))
            &&& build_response_spec(Some(p)).status == 200
            &&& build_response_spec(Some(p)).body == p
        }),
{
}

/// A stats request that arrives before any upload is deferred, not
/// answered; once a script uploads `p`, the deferred connection is among
/// those the next drain answers, and the answer's body is exactly `p`.
pub proof fn lemma_deferred_stats_answered(
    g: GlobalV,
    cs: Seq<Client>,
    tb: u64,
    ts: u64,
    st: RequestV,
    up: RequestV,
    p: Seq<u8>,
)
    requires
        !g.fresh,
        st.method == get_method(),
        st.path == stats_path(),
        up.body == p,
        find_in(cs, tb) is Some,
    ensures
        ({
            let (g1, out1) = request_step(g, ClassTag::Browser, tb, st);
            let (g2, _) = request_step(g1, ClassTag::Script, ts, up);
            &&& out1 == OutcomeV::Deferred
            &&& g1.tasks == g.tasks.push(Task { token: tb, service: false })
            &&& g2.data == p
            &&& fired_from(g2.tasks, cs, 0).contains(tb)
            &&& build_response_spec(Some(g2.data)).body == p
        }),
{
    let (g1, out1) = request_step(g, ClassTag::Browser, tb, st);
    let (g2, _) = request_step(g1, ClassTag::Script, ts, up);
    let n = g2.tasks.len() as int;
    assert(g2.tasks == all_serviceable(g1.tasks));
    assert(g2.tasks[n - 1] == Task { token: tb, service: true });
    lemma_fired_from_contains(g2.tasks, cs, 0, n - 1);
}

/// Re-uploading replaces the buffer whole: after `p1` then `p2`, the
/// buffer holds exactly `p2`, and a stats read returns `p2`, never a
/// mixture.
pub proof fn lemma_reupload_replaces(g: GlobalV, p1: Seq<u8>, p2: Seq<u8>, t: u64)
    ensures
        upload_spec(upload_spec(g, p1), p2).data == p2,
        stats_step(upload_spec(upload_spec(g, p1), p2), t).1 == OutcomeV::Respond(
            build_response_spec(Some(p2)),
        ),
        build_response_spec(Some(p2)).body == p2,
{
}

/// Pushing a connection makes its token findable.
proof fn lemma_find_in_push_new(cs: Seq<Client>, token: u64, pending: Option<Vec<u8>>)
    ensures
        find_in(
            cs.push(Client::Unidentified(ClientInfo { token, pending, write_interest: false })),
            token,
        ) is Some,
    decreases cs.len(),
{
    let c = Client::Unidentified(ClientInfo { token, pending, write_interest: false });
    if cs.len() == 0 {
        assert(cs.push(c)[0] == c);
    } else {
        if cs[0].token_spec() == token {
        } else {
            assert(cs.push(c).drop_first() =~= cs.drop_first().push(c));
            lemma_find_in_push_new(cs.drop_first(), token, pending);
        }
    }
}

} // verus!
