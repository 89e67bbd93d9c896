//! The listener's dispatch: every accepted connection gets its own service
//! instance and its own pipeline, and all of them live independently — one
//! connection's traffic or failure never touches another's.

use vstd::prelude::*;
use crate::pipeline::{Pipeline, PipelineError, run_outcome};
use crate::codec::{frames_of, tail_of};
use crate::service::Service;
use crate::transport::LineProto;

verus! {

/// One failed attempt to accept a connection. It is recoverable: the listener
/// reports it and keeps accepting.
#[derive(Debug, PartialEq, Eq)]
pub enum AcceptError {
    /// The endpoint could not hand over this connection.
    Failed,
}

/// The connections currently served, each with its own pipeline. The listener
/// endpoint itself — binding it, blocking on it — lives with the caller; the
/// dispatcher holds the decisions: who gets a pipeline and which connection a
/// byte belongs to.
pub struct Dispatcher<S: Service> {
    conns: Vec<Pipeline<S>>,
}

impl<S: Service> Dispatcher<S> {
    /// The pipelines in accept order.
    pub closed spec fn connections(&self) -> Seq<Pipeline<S>> {
        self.conns@
    }

    /// Every connection's pipeline is well formed.
    pub open spec fn wf(&self) -> bool {
        forall|i: int|
            0 <= i < self.connections().len() ==> (#[trigger] self.connections()[i]).wf()
    }

    /// A dispatcher serving no connections yet.
    pub fn new() -> (d: Dispatcher<S>)
        ensures
            d.wf(),
            d.connections().len() == 0,
    {
        Dispatcher { conns: Vec::new() }
    }

    /// How many connections are served.
    pub fn count(&self) -> (n: usize)
        ensures
            n == self.connections().len(),
    {
        self.conns.len()
    }

    /// One accept attempt's outcome. A failure is recoverable and changes
    /// nothing. A connection brings exactly one new service instance and one
    /// fresh pipeline, and every existing connection is left untouched.
    pub fn on_accept(&mut self, outcome: Result<S, AcceptError>) -> (id: Option<usize>)
        requires
            old(self).wf(),
        ensures
            final(self).wf(),
            (outcome matches Err(_) ==> id is None && final(self).connections() == old(
                self,
            ).connections()),
            (outcome matches Ok(svc) ==> {
                let n = old(self).connections().len() as int;
                &&& (id matches Some(i) && i == n)
                &&& final(self).connections().len() == n + 1
                &&& forall|j: int|
                    0 <= j < n ==> final(self).connections()[j] == old(self).connections()[j]
                &&& final(self).connections()[n].the_service() == svc
                &&& final(self).connections()[n].phase() is Reading
                &&& final(self).connections()[n].fed() == Seq::<u8>::empty()
                &&& final(self).connections()[n].wire() == Seq::<u8>::empty()
            }),
    {
        match outcome {
            Err(_) => None,
            Ok(svc) => {
                let id = self.conns.len();
                let proto = LineProto;
                let transport = proto.bind_transport();
                let p = Pipeline::new(svc, transport);
                self.conns.push(p);
                Some(id)
            },
        }
    }

    /// Bytes arrived on one connection: only that connection's pipeline moves.
    /// Its error tears down that pipeline alone; every other connection is
    /// untouched either way.
    pub fn feed_bytes(&mut self, id: usize, bytes: &[u8]) -> (r: Result<(), PipelineError>)
        requires
            old(self).wf(),
            id < old(self).connections().len(),
            old(self).connections()[id as int].phase() is Reading,
        ensures
            final(self).wf(),
            final(self).connections().len() == old(self).connections().len(),
            forall|j: int|
                0 <= j < old(self).connections().len() && j != id ==> final(self).connections()[j]
                    == old(self).connections()[j],
            ({
                let before = old(self).connections()[id as int];
                let after = final(self).connections()[id as int];
                &&& after.the_service() == before.the_service()
                &&& after.fed() == before.fed() + bytes@
                &&& (r is Ok <==> run_outcome(
                    before.the_service(),
                    frames_of(before.fed() + bytes@),
                ) is Ok)
                &&& (r is Ok ==> after.phase() is Reading)
                &&& (r is Err ==> after.phase() is Closed)
            }),
    {
        let mut p = self.conns.remove(id);
        let r = p.process_bytes(bytes);
        self.conns.insert(id, p);
        proof {
            assert(self.conns@ =~= old(self).conns@.update(id as int, p));
        }
        r
    }

    /// One connection's stream ended: only that pipeline closes, in order or
    /// with a truncation error for undelimited leftover bytes.
    pub fn end_of_stream(&mut self, id: usize) -> (r: Result<(), PipelineError>)
        requires
            old(self).wf(),
            id < old(self).connections().len(),
            old(self).connections()[id as int].phase() is Reading,
        ensures
            final(self).wf(),
            final(self).connections().len() == old(self).connections().len(),
            forall|j: int|
                0 <= j < old(self).connections().len() && j != id ==> final(self).connections()[j]
                    == old(self).connections()[j],
            !(final(self).connections()[id as int].phase() is Reading),
            final(self).connections()[id as int].responses_written() == old(
                self,
            ).connections()[id as int].responses_written(),
            tail_of(old(self).connections()[id as int].fed()).len() != 0 ==> r == Err::<
                (),
                PipelineError,
            >(PipelineError::Truncated),
            tail_of(old(self).connections()[id as int].fed()).len() == 0 ==> r is Ok,
    {
        let mut p = self.conns.remove(id);
        let r = p.on_eof();
        self.conns.insert(id, p);
        proof {
            assert(self.conns@ =~= old(self).conns@.update(id as int, p));
        }
        r
    }

    /// Hands over one connection's queued outbound bytes for transmission;
    /// every other connection is untouched.
    pub fn collect_outbound(&mut self, id: usize) -> (v: Vec<u8>)
        requires
            old(self).wf(),
            id < old(self).connections().len(),
        ensures
            final(self).wf(),
            final(self).connections().len() == old(self).connections().len(),
            forall|j: int|
                0 <= j < old(self).connections().len() && j != id ==> final(self).connections()[j]
                    == old(self).connections()[j],
            v@ == old(self).connections()[id as int].out_pending(),
            final(self).connections()[id as int].out_pending() == Seq::<u8>::empty(),
            final(self).connections()[id as int].wire() == old(
                self,
            ).connections()[id as int].wire() + v@,
            final(self).connections()[id as int].responses_written() == old(
                self,
            ).connections()[id as int].responses_written(),
    {
        let mut p = self.conns.remove(id);
        let v = p.take_outbound();
        self.conns.insert(id, p);
        proof {
            assert(self.conns@ =~= old(self).conns@.update(id as int, p));
        }
        v
    }
}

} // verus!
