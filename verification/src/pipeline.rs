//! The per-connection pipeline: decode each inbound frame, hand it to the
//! service, and write the responses back in exactly the order their requests
//! arrived, however the service's work completes.

use vstd::prelude::*;
use vstd::pervasive::VecAdditionalExecFns;
use vstd::utf8::{valid_utf8, decode_utf8};
use crate::codec::{DecodeError, encoded_frame, frames_of, tail_of, payload_of, rest_of,
    lemma_frame_end, lemma_frames_append, lemma_tail_no_frame};
use crate::service::{Service, ServiceError};
use crate::transport::FramedTransport;

verus! {

/// Why a connection's pipeline tore the connection down.
#[derive(Debug, PartialEq, Eq)]
pub enum PipelineError {
    /// A frame's payload failed to decode.
    Decode(DecodeError),
    /// Bytes with no closing delimiter were left at end of stream.
    Truncated,
    /// The underlying byte stream failed.
    Transport,
    /// The service failed a call.
    Service(ServiceError),
}

/// A frame the pipeline can answer: its payload decodes and the service
/// accepts the decoded request.
pub open spec fn ok_frame<S: Service>(svc: S, f: Seq<u8>) -> bool {
    valid_utf8(f) && svc.succeeds(decode_utf8(f))
}

/// Whether every frame in the list can be answered.
pub open spec fn all_ok<S: Service>(svc: S, fs: Seq<Seq<u8>>) -> bool {
    forall|i: int| 0 <= i < fs.len() ==> ok_frame(svc, #[trigger] fs[i])
}

/// The responses owed for a list of answerable frames, in arrival order.
pub open spec fn responses_of<S: Service>(svc: S, fs: Seq<Seq<u8>>) -> Seq<Seq<char>> {
    fs.map_values(|f: Seq<u8>| svc.response(decode_utf8(f)))
}

/// What running the pipeline over a list of decoded frame payloads yields:
/// every response in arrival order, or the error of the first frame that
/// cannot be answered, at which the connection dies.
pub open spec fn run_outcome<S: Service>(svc: S, fs: Seq<Seq<u8>>) -> Result<
    Seq<Seq<char>>,
    PipelineError,
>
    decreases fs.len(),
{
    if fs.len() == 0 {
        Ok(seq![])
    } else if !valid_utf8(fs[0]) {
        Err(PipelineError::Decode(DecodeError::InvalidEncoding))
    } else if !svc.succeeds(decode_utf8(fs[0])) {
        Err(PipelineError::Service(ServiceError::Failed))
    } else {
        match run_outcome(svc, fs.drop_first()) {
            Ok(rs) => Ok(seq![svc.response(decode_utf8(fs[0]))] + rs),
            Err(e) => Err(e),
        }
    }
}

/// The responses actually written before the pipeline stops: everything up to
/// the first frame it cannot answer.
pub open spec fn answered_prefix<S: Service>(svc: S, fs: Seq<Seq<u8>>) -> Seq<Seq<char>>
    decreases fs.len(),
{
    if fs.len() == 0 {
        seq![]
    } else if ok_frame(svc, fs[0]) {
        seq![svc.response(decode_utf8(fs[0]))] + answered_prefix(svc, fs.drop_first())
    } else {
        seq![]
    }
}

/// The bytes a list of responses puts on the wire, frame after frame.
pub open spec fn encoded_all(frames: Seq<Seq<char>>) -> Seq<u8>
    decreases frames.len(),
{
    if frames.len() == 0 {
        Seq::empty()
    } else {
        encoded_frame(frames[0]) + encoded_all(frames.drop_first())
    }
}

/// Splits a run over answered frames followed by anything: the answered part
/// contributes its responses and the rest decides the outcome.
pub proof fn lemma_outcome_concat<S: Service>(svc: S, pre: Seq<Seq<u8>>, post: Seq<Seq<u8>>)
    requires
        all_ok(svc, pre),
    ensures
        answered_prefix(svc, pre + post) == responses_of(svc, pre) + answered_prefix(svc, post),
        (run_outcome(svc, post) matches Ok(rs) ==> run_outcome(svc, pre + post) == Ok::<
            Seq<Seq<char>>,
            PipelineError,
        >(responses_of(svc, pre) + rs)),
        (run_outcome(svc, post) matches Err(e) ==> run_outcome(svc, pre + post) == Err::<
            Seq<Seq<char>>,
            PipelineError,
        >(e)),
    decreases pre.len(),
{
    if pre.len() == 0 {
        assert(pre + post =~= post);
        assert(responses_of(svc, pre) =~= Seq::<Seq<char>>::empty());
        assert(answered_prefix(svc, pre + post) =~= responses_of(svc, pre) + answered_prefix(
            svc,
            post,
        ));
        if run_outcome(svc, post) is Ok {
            assert(responses_of(svc, pre) + run_outcome(svc, post)->Ok_0 =~= run_outcome(
                svc,
                post,
            )->Ok_0);
        }
    } else {
        assert(ok_frame(svc, pre[0]));
        assert(all_ok(svc, pre.drop_first())) by {
            assert forall|i: int| 0 <= i < pre.drop_first().len() implies ok_frame(
                svc,
                #[trigger] pre.drop_first()[i],
            ) by {
                assert(pre.drop_first()[i] == pre[i + 1]);
            }
        }
        lemma_outcome_concat(svc, pre.drop_first(), post);
        assert((pre + post).drop_first() =~= pre.drop_first() + post);
        assert((pre + post)[0] == pre[0]);
        assert(responses_of(svc, pre) == seq![svc.response(decode_utf8(pre[0]))] + responses_of(
            svc,
            pre.drop_first(),
        )) by {
            assert(responses_of(svc, pre) =~= seq![svc.response(decode_utf8(pre[0]))]
                + responses_of(svc, pre.drop_first()));
        }
        assert(answered_prefix(svc, pre + post) =~= responses_of(svc, pre) + answered_prefix(
            svc,
            post,
        ));
        if run_outcome(svc, post) is Ok {
            assert(run_outcome(svc, pre + post) matches Ok(all) && all =~= responses_of(svc, pre)
                + run_outcome(svc, post)->Ok_0);
        }
    }
}

/// The ordered queue of pending response slots for one connection. Each
/// decoded request takes a ticket in arrival order; its response may arrive
/// in any order, but responses only leave the queue in ticket order.
pub struct ResponseSlots {
    slots: Vec<Option<String>>,
    next_out: usize,
    log: Ghost<Seq<Seq<char>>>,
}

impl ResponseSlots {
    /// How many tickets have been issued.
    pub closed spec fn submitted(&self) -> int {
        self.slots@.len() as int
    }

    /// How many responses have left the queue.
    pub closed spec fn emitted(&self) -> int {
        self.next_out as int
    }

    /// The response recorded for a ticket, if it has arrived.
    pub closed spec fn completion(&self, i: int) -> Option<Seq<char>> {
        match self.slots@[i] {
            Some(s) => Some(s@),
            None => None,
        }
    }

    /// The responses that have left the queue, in emission order.
    pub closed spec fn emitted_log(&self) -> Seq<Seq<char>> {
        self.log@
    }

    /// The queue's invariant: emissions never outrun tickets, and everything
    /// emitted so far is the recorded completion of its own ticket.
    pub open spec fn wf(&self) -> bool {
        &&& 0 <= self.emitted() <= self.submitted()
        &&& self.emitted_log().len() == self.emitted()
        &&& forall|i: int|
            0 <= i < self.emitted() ==> #[trigger] self.completion(i) == Some(
                self.emitted_log()[i],
            )
    }

    /// An empty queue for a fresh connection.
    pub fn new() -> (r: ResponseSlots)
        ensures
            r.wf(),
            r.submitted() == 0,
            r.emitted() == 0,
            r.emitted_log() == Seq::<Seq<char>>::empty(),
    {
        ResponseSlots { slots: Vec::new(), next_out: 0, log: Ghost(Seq::empty()) }
    }

    /// Issues the next ticket, in arrival order, for a newly decoded request.
    pub fn submit(&mut self) -> (ticket: usize)
        requires
            old(self).wf(),
        ensures
            final(self).wf(),
            ticket == old(self).submitted(),
            final(self).submitted() == old(self).submitted() + 1,
            final(self).emitted() == old(self).emitted(),
            final(self).emitted_log() == old(self).emitted_log(),
            final(self).completion(ticket as int) is None,
            forall|i: int|
                0 <= i < old(self).submitted()
                    ==> #[trigger] final(self).completion(i) == old(self).completion(i),
    {
        let ticket = self.slots.len();
        self.slots.push(None);
        proof {
            assert forall|i: int|
                0 <= i < self.emitted() implies #[trigger] self.completion(i) == Some(
                self.emitted_log()[i],
            ) by {
                assert(old(self).completion(i) == Some(old(self).emitted_log()[i]));
            }
        }
        ticket
    }

    /// Records the response for an outstanding ticket. Completions may arrive
    /// in any order; none is emitted here.
    pub fn complete(&mut self, ticket: usize, resp: String)
        requires
            old(self).wf(),
            0 <= ticket < old(self).submitted(),
            old(self).completion(ticket as int) is None,
        ensures
            final(self).wf(),
            final(self).submitted() == old(self).submitted(),
            final(self).emitted() == old(self).emitted(),
            final(self).emitted_log() == old(self).emitted_log(),
            final(self).completion(ticket as int) == Some(resp@),
            forall|i: int|
                0 <= i < old(self).submitted() && i != ticket
                    ==> #[trigger] final(self).completion(i) == old(self).completion(i),
    {
        self.slots.set(ticket, Some(resp));
        proof {
            assert forall|i: int|
                0 <= i < self.emitted() implies #[trigger] self.completion(i) == Some(
                self.emitted_log()[i],
            ) by {
                assert(old(self).completion(i) == Some(old(self).emitted_log()[i]));
            }
        }
    }

    /// Emits the next response in ticket order, if it has arrived. A later
    /// completion never leaves before an earlier ticket is answered.
    pub fn pop_ready(&mut self) -> (r: Option<String>)
        requires
            old(self).wf(),
        ensures
            final(self).wf(),
            final(self).submitted() == old(self).submitted(),
            forall|i: int|
                0 <= i < old(self).submitted()
                    ==> #[trigger] final(self).completion(i) == old(self).completion(i),
            ({
                if old(self).emitted() < old(self).submitted() && old(self).completion(
                    old(self).emitted(),
                ) is Some {
                    &&& (r matches Some(s) && Some(s@) == old(self).completion(old(self).emitted())
                        && final(self).emitted_log() == old(self).emitted_log() + seq![s@])
                    &&& final(self).emitted() == old(self).emitted() + 1
                } else {
                    &&& r is None
                    &&& final(self).emitted() == old(self).emitted()
                    &&& final(self).emitted_log() == old(self).emitted_log()
                }
            }),
    {
        if self.next_out < self.slots.len() {
            let ready = match &self.slots[self.next_out] {
                Some(s) => Some(s.clone()),
                None => None,
            };
            match ready {
                Some(s) => {
                    self.next_out = self.next_out + 1;
                    proof {
                        self.log@ = self.log@ + seq![s@];
                        assert forall|i: int|
                            0 <= i < self.emitted() implies #[trigger] self.completion(i) == Some(
                            self.emitted_log()[i],
                        ) by {
                            if i < old(self).emitted() {
                                assert(old(self).completion(i) == Some(old(self).emitted_log()[i]));
                            }
                        }
                    }
                    Some(s)
                },
                None => None,
            }
        } else {
            None
        }
    }
}

/// Answerable frames run to a successful outcome: exactly their responses.
pub proof fn lemma_outcome_ok<S: Service>(svc: S, fs: Seq<Seq<u8>>)
    requires
        run_outcome(svc, fs) is Ok,
    ensures
        all_ok(svc, fs),
        run_outcome(svc, fs) == Ok::<Seq<Seq<char>>, PipelineError>(responses_of(svc, fs)),
        answered_prefix(svc, fs) == responses_of(svc, fs),
    decreases fs.len(),
{
    if fs.len() == 0 {
        assert(responses_of(svc, fs) =~= Seq::<Seq<char>>::empty());
    } else {
        lemma_outcome_ok(svc, fs.drop_first());
        assert forall|i: int| 0 <= i < fs.len() implies ok_frame(svc, #[trigger] fs[i]) by {
            if i > 0 {
                assert(ok_frame(svc, fs.drop_first()[i - 1]));
            }
        }
        assert(responses_of(svc, fs) =~= seq![svc.response(decode_utf8(fs[0]))] + responses_of(
            svc,
            fs.drop_first(),
        ));
    }
}

/// Encoding distributes over appending one response at the back.
pub proof fn lemma_encoded_all_snoc(frames: Seq<Seq<char>>, x: Seq<char>)
    ensures
        encoded_all(frames + seq![x]) == encoded_all(frames) + encoded_frame(x),
    decreases frames.len(),
{
    if frames.len() == 0 {
        assert((frames + seq![x])[0] == x);
        assert((frames + seq![x]).drop_first() =~= Seq::<Seq<char>>::empty());
        assert(encoded_all(Seq::<Seq<char>>::empty()) == Seq::<u8>::empty());
        assert(encoded_all(frames + seq![x]) =~= encoded_all(frames) + encoded_frame(x));
    } else {
        lemma_encoded_all_snoc(frames.drop_first(), x);
        assert((frames + seq![x]).drop_first() =~= frames.drop_first() + seq![x]);
        assert((frames + seq![x])[0] == frames[0]);
        assert(encoded_all(frames + seq![x]) =~= encoded_all(frames) + encoded_frame(x));
    }
}

/// The pipelining law: however completions interleave, the queue's emissions
/// are exactly the recorded responses of tickets `0, 1, 2, ...` in ticket
/// order — response order equals request arrival order.
pub proof fn lemma_responses_in_arrival_order(q: &ResponseSlots)
    requires
        q.wf(),
    ensures
        q.emitted_log().len() == q.emitted(),
        forall|i: int| 0 <= i < q.emitted() ==> #[trigger] q.completion(i) == Some(
            q.emitted_log()[i],
        ),
{
}

/// Where a connection's pipeline stands in its life.
pub enum PipelineState {
    /// Decoding frames and answering them. Requests in flight toward the
    /// service wait in the pending response slots.
    Reading,
    /// End of stream seen; encoded responses still wait for transmission.
    Closing,
    /// Torn down, normally or on a fatal error.
    Closed,
}

/// One connection's pipeline: it owns the connection's service instance, its
/// framed transport and its pending response slots, and nothing of any other
/// connection.
pub struct Pipeline<S: Service> {
    service: S,
    transport: FramedTransport,
    slots: ResponseSlots,
    state: PipelineState,
    fed: Ghost<Seq<u8>>,
    wire: Ghost<Seq<u8>>,
}

impl<S: Service> Pipeline<S> {
    /// Every inbound byte the connection has ever received.
    pub closed spec fn fed(&self) -> Seq<u8> {
        self.fed@
    }

    /// Every byte already handed over for transmission, in order.
    pub closed spec fn wire(&self) -> Seq<u8> {
        self.wire@
    }

    /// Encoded bytes still queued, not yet handed over.
    pub closed spec fn out_pending(&self) -> Seq<u8> {
        self.transport.outbound()
    }

    /// The connection's service instance.
    pub closed spec fn the_service(&self) -> S {
        self.service
    }

    /// Where the pipeline stands in its life.
    pub closed spec fn phase(&self) -> PipelineState {
        self.state
    }

    /// The responses answered so far, in the order their requests arrived.
    pub closed spec fn responses_written(&self) -> Seq<Seq<char>> {
        self.slots.emitted_log()
    }

    /// The pipeline's invariant; see [`lemma_pipeline_guarantees`] for what it
    /// yields to a caller.
    pub closed spec fn wf(&self) -> bool {
        &&& self.slots.wf()
        &&& self.slots.emitted() == self.slots.submitted()
        &&& self.slots.emitted_log() == answered_prefix(self.service, frames_of(self.fed@))
        &&& self.wire@ + self.transport.outbound() == encoded_all(self.slots.emitted_log())
        &&& (self.state is Reading ==> self.transport.inbound() == tail_of(self.fed@))
        &&& (self.state is Reading ==> run_outcome(self.service, frames_of(self.fed@)) is Ok)
    }

    /// A fresh pipeline for a newly accepted connection.
    pub fn new(service: S, transport: FramedTransport) -> (p: Pipeline<S>)
        requires
            transport.inbound() == Seq::<u8>::empty(),
            transport.outbound() == Seq::<u8>::empty(),
        ensures
            p.wf(),
            p.phase() is Reading,
            p.fed() == Seq::<u8>::empty(),
            p.wire() == Seq::<u8>::empty(),
            p.the_service() == service,
            p.responses_written() == Seq::<Seq<char>>::empty(),
    {
        let p = Pipeline {
            service,
            transport,
            slots: ResponseSlots::new(),
            state: PipelineState::Reading,
            fed: Ghost(Seq::empty()),
            wire: Ghost(Seq::empty()),
        };
        proof {
            lemma_frame_end(Seq::<u8>::empty());
            assert(frames_of(Seq::<u8>::empty()) =~= Seq::<Seq<u8>>::empty());
            assert(tail_of(Seq::<u8>::empty()) == Seq::<u8>::empty());
            assert(p.wire@ + p.transport.outbound() =~= encoded_all(p.slots.emitted_log()));
        }
        p
    }

    /// What a well-formed pipeline always guarantees: what stands on the wire,
    /// queued or sent, is exactly the encoded responses of the answered
    /// prefix of the frames fed so far, in arrival order; and while the
    /// connection still reads, every frame fed so far has been answered.
    pub proof fn lemma_pipeline_guarantees(&self)
        requires
            self.wf(),
        ensures
            self.responses_written() == answered_prefix(self.the_service(), frames_of(self.fed())),
            self.wire() + self.out_pending() == encoded_all(self.responses_written()),
            self.phase() is Reading ==> run_outcome(self.the_service(), frames_of(self.fed()))
                == Ok::<Seq<Seq<char>>, PipelineError>(self.responses_written()),
    {
        if self.state is Reading {
            lemma_outcome_ok(self.service, frames_of(self.fed@));
        }
    }

    /// Bytes arrived from the stream: decode every complete frame, answer each
    /// in arrival order, and queue the responses. Stops at the first frame it
    /// cannot answer, tearing the connection down with that frame's error.
    #[verifier::loop_isolation(false)]
    pub fn process_bytes(&mut self, bytes: &[u8]) -> (r: Result<(), PipelineError>)
        requires
            old(self).wf(),
            old(self).phase() is Reading,
        ensures
            final(self).wf(),
            final(self).the_service() == old(self).the_service(),
            final(self).fed() == old(self).fed() + bytes@,
            final(self).wire() == old(self).wire(),
            r is Ok <==> run_outcome(
                old(self).the_service(),
                frames_of(old(self).fed() + bytes@),
            ) is Ok,
            r is Ok ==> final(self).phase() is Reading,
            (r matches Err(e) ==> run_outcome(old(self).the_service(), frames_of(final(self).fed()))
                == Err::<Seq<Seq<char>>, PipelineError>(e) && final(self).phase() is Closed),
    {
        proof {
            lemma_frames_append(self.fed@, bytes@);
            lemma_tail_no_frame(self.fed@);
            lemma_outcome_ok(self.service, frames_of(self.fed@));
        }
        let ghost svc = self.service;
        let ghost fed0 = self.fed@;
        let ghost wire0 = self.wire@;
        self.transport.feed(bytes);
        proof {
            self.fed@ = self.fed@ + bytes@;
        }
        let ghost mut done: Seq<Seq<u8>> = frames_of(fed0);
        loop
            invariant
                self.slots.wf(),
                self.slots.emitted() == self.slots.submitted(),
                self.service == svc,
                self.state is Reading,
                self.fed@ == fed0 + bytes@,
                self.wire@ == wire0,
                all_ok(svc, done),
                frames_of(self.fed@) == done + frames_of(self.transport.inbound()),
                tail_of(self.fed@) == tail_of(self.transport.inbound()),
                self.slots.emitted_log() == responses_of(svc, done),
                self.wire@ + self.transport.outbound() == encoded_all(self.slots.emitted_log()),
            decreases self.transport.inbound().len(),
        {
            let ghost inb = self.transport.inbound();
            proof {
                lemma_frame_end(inb);
            }
            match self.transport.poll_frame() {
                Ok(None) => {
                    proof {
                        assert(frames_of(inb) =~= Seq::<Seq<u8>>::empty());
                        assert(frames_of(self.fed@) =~= done);
                        assert(tail_of(inb) == inb);
                        lemma_outcome_ok_converse(svc, done);
                        lemma_outcome_ok(svc, frames_of(self.fed@));
                    }
                    return Ok(());
                },
                Ok(Some(req)) => {
                    let ghost payload = payload_of(inb);
                    match self.service.call(req) {
                        Ok(resp) => {
                            let ghost log0 = self.slots.emitted_log();
                            let ticket = self.slots.submit();
                            self.slots.complete(ticket, resp);
                            match self.slots.pop_ready() {
                                Some(out) => {
                                    let ghost sent = out@;
                                    let ghost out0 = self.transport.outbound();
                                    self.transport.send(out);
                                    proof {
                                        done = done + seq![payload];
                                        assert(frames_of(inb) == seq![payload] + frames_of(
                                            rest_of(inb),
                                        ));
                                        assert(frames_of(self.fed@) =~= done + frames_of(
                                            self.transport.inbound(),
                                        ));
                                        assert(all_ok(svc, done)) by {
                                            assert forall|i: int| 0 <= i < done.len() implies
                                                ok_frame(svc, #[trigger] done[i]) by {
                                                if i < done.len() - 1 {
                                                    assert(ok_frame(svc, done.drop_last()[i]));
                                                }
                                            }
                                        }
                                        assert(self.slots.emitted_log() == responses_of(
                                            svc,
                                            done,
                                        )) by {
                                            assert(responses_of(svc, done) =~= responses_of(
                                                svc,
                                                done.drop_last(),
                                            ) + seq![svc.response(decode_utf8(payload))]);
                                            assert(done.drop_last() =~= done.subrange(
                                                0,
                                                done.len() - 1,
                                            ));
                                        }
                                        lemma_encoded_all_snoc(log0, sent);
                                        assert(self.slots.emitted_log() == log0 + seq![sent]);
                                        assert(self.wire@ + self.transport.outbound()
                                            =~= (self.wire@ + out0) + encoded_frame(sent));
                                        assert(self.wire@ + self.transport.outbound()
                                            == encoded_all(self.slots.emitted_log()));
                                    }
                                },
                                None => {
                                    proof {
                                        assert(false);
                                    }
                                    return Ok(());
                                },
                            }
                        },
                        Err(_) => {
                            self.state = PipelineState::Closed;
                            proof {
                                lemma_outcome_concat(svc, done, frames_of(inb));
                                assert(frames_of(inb)[0] == payload);
                                assert(run_outcome(svc, frames_of(inb)) == Err::<
                                    Seq<Seq<char>>,
                                    PipelineError,
                                >(PipelineError::Service(ServiceError::Failed)));
                                assert(answered_prefix(svc, frames_of(inb))
                                    =~= Seq::<Seq<char>>::empty());
                            }
                            return Err(PipelineError::Service(ServiceError::Failed));
                        },
                    }
                },
                Err(e) => {
                    self.state = PipelineState::Closed;
                    proof {
                        lemma_outcome_concat(svc, done, frames_of(inb));
                        assert(frames_of(inb)[0] == payload_of(inb));
                        assert(run_outcome(svc, frames_of(inb)) == Err::<
                            Seq<Seq<char>>,
                            PipelineError,
                        >(PipelineError::Decode(DecodeError::InvalidEncoding)));
                        assert(answered_prefix(svc, frames_of(inb)) =~= Seq::<Seq<char>>::empty());
                    }
                    return Err(PipelineError::Decode(e));
                },
            }
        }
    }

    /// The stream reached its end. With nothing left undecoded the pipeline
    /// closes in order — through `Closing` while responses still wait to be
    /// transmitted. Leftover bytes with no closing delimiter are a fatal
    /// truncation: the connection is torn down and no frame is made of them.
    pub fn on_eof(&mut self) -> (r: Result<(), PipelineError>)
        requires
            old(self).wf(),
            old(self).phase() is Reading,
        ensures
            final(self).wf(),
            final(self).the_service() == old(self).the_service(),
            final(self).fed() == old(self).fed(),
            final(self).wire() == old(self).wire(),
            final(self).out_pending() == old(self).out_pending(),
            final(self).responses_written() == old(self).responses_written(),
            !(final(self).phase() is Reading),
            tail_of(old(self).fed()).len() == 0 ==> r is Ok && (final(self).phase() is Closed
                <==> old(self).out_pending().len() == 0),
            tail_of(old(self).fed()).len() != 0 ==> r == Err::<(), PipelineError>(
                PipelineError::Truncated,
            ) && final(self).phase() is Closed,
    {
        if self.transport.inbound_len() > 0 {
            self.state = PipelineState::Closed;
            Err(PipelineError::Truncated)
        } else if self.transport.outbound_len() > 0 {
            self.state = PipelineState::Closing;
            Ok(())
        } else {
            self.state = PipelineState::Closed;
            Ok(())
        }
    }

    /// The underlying stream failed: fatal for this connection alone.
    pub fn on_transport_error(&mut self) -> (e: PipelineError)
        requires
            old(self).wf(),
        ensures
            final(self).wf(),
            final(self).phase() is Closed,
            e == PipelineError::Transport,
            final(self).the_service() == old(self).the_service(),
            final(self).fed() == old(self).fed(),
            final(self).wire() == old(self).wire(),
            final(self).responses_written() == old(self).responses_written(),
    {
        self.state = PipelineState::Closed;
        PipelineError::Transport
    }

    /// Hands over every queued outbound byte for transmission, in order. A
    /// closing pipeline whose queue drains here is closed for good.
    pub fn take_outbound(&mut self) -> (v: Vec<u8>)
        requires
            old(self).wf(),
        ensures
            final(self).wf(),
            v@ == old(self).out_pending(),
            final(self).out_pending() == Seq::<u8>::empty(),
            final(self).wire() == old(self).wire() + v@,
            final(self).fed() == old(self).fed(),
            final(self).the_service() == old(self).the_service(),
            final(self).responses_written() == old(self).responses_written(),
            final(self).phase() is Reading <==> old(self).phase() is Reading,
    {
        let v = self.transport.take_outbound();
        proof {
            self.wire@ = self.wire@ + v@;
            assert(self.wire@ + self.transport.outbound() =~= old(self).wire@ + old(
                self,
            ).transport.outbound());
        }
        if let PipelineState::Closing = self.state {
            self.state = PipelineState::Closed;
        }
        v
    }
}

/// A successful run means every frame was answerable.
pub proof fn lemma_outcome_ok_converse<S: Service>(svc: S, fs: Seq<Seq<u8>>)
    requires
        all_ok(svc, fs),
    ensures
        run_outcome(svc, fs) is Ok,
    decreases fs.len(),
{
    if fs.len() > 0 {
        assert(ok_frame(svc, fs[0]));
        assert forall|i: int| 0 <= i < fs.drop_first().len() implies ok_frame(
            svc,
            #[trigger] fs.drop_first()[i],
        ) by {
            assert(fs.drop_first()[i] == fs[i + 1]);
        }
        lemma_outcome_ok_converse(svc, fs.drop_first());
    }
}

} // verus!
