//! The service boundary: the pluggable business logic of a connection. A
//! service maps one decoded request line to one response line, knowing nothing
//! of framing or transport, and may fail, which is fatal for its connection.

use vstd::prelude::*;
use vstd::string::StrSliceExecFns;

verus! {

/// A failed service call. The pipeline answers it by tearing the connection
/// down: no in-band error frame exists in this protocol.
#[derive(Debug, PartialEq, Eq)]
pub enum ServiceError {
    /// The application handler could not produce a response.
    Failed,
}

/// The capability a connection's business logic supplies: given a request,
/// produce a response or fail. Exactly one call is issued per decoded frame,
/// and the caller assumes nothing about when the work completes, only about
/// what it yields.
pub trait Service: Sized {
    /// Whether the service answers this request at all.
    spec fn succeeds(&self, req: Seq<char>) -> bool;

    /// The response text owed for a request the service answers.
    spec fn response(&self, req: Seq<char>) -> Seq<char>;

    /// Produce the response for one decoded request.
    fn call(&self, req: String) -> (r: Result<String, ServiceError>)
        ensures
            r is Ok <==> self.succeeds(req@),
            (r matches Ok(resp) ==> resp@ == self.response(req@)),
    ;
}

/// The echo service: every request is answered with itself.
pub struct Echo;

impl Service for Echo {
    open spec fn succeeds(&self, req: Seq<char>) -> bool {
        true
    }

    open spec fn response(&self, req: Seq<char>) -> Seq<char> {
        req
    }

    fn call(&self, req: String) -> (r: Result<String, ServiceError>) {
        Ok(req)
    }
}

/// Relies on String::push: it appends the given character at the end.
#[verifier::external_body]
fn push_char(s: &mut String, c: char)
    ensures
        final(s)@ == old(s)@ + seq![c],
{
    s.push(c);
}

/// The reversing service: every request is answered with its characters in
/// reverse order.
pub struct EchoRev;

impl Service for EchoRev {
    open spec fn succeeds(&self, req: Seq<char>) -> bool {
        true
    }

    open spec fn response(&self, req: Seq<char>) -> Seq<char> {
        req.reverse()
    }

    fn call(&self, req: String) -> (r: Result<String, ServiceError>) {
        let n = req.as_str().unicode_len();
        let mut out = String::new();
        let mut i: usize = n;
        while i > 0
            invariant
                i <= n,
                n == req@.len(),
                out@ == req@.subrange(i as int, n as int).reverse(),
            decreases i,
        {
            i = i - 1;
            let c = req.as_str().get_char(i);
            push_char(&mut out, c);
            proof {
                assert(out@ =~= req@.subrange(i as int, n as int).reverse());
            }
        }
        proof {
            assert(req@.subrange(0, n as int) =~= req@);
        }
        Ok(out)
    }
}

} // verus!
