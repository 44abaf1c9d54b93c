//! The request/response protocol between the scheduler and a worker, and
//! what a worker does with each request.
use vstd::prelude::*;
use vstd::string::StringExecFns;
use std::sync::Arc;
use crate::errors::MathError;
use crate::math::{
    all_safe, candidates_in, find_candidates, passes, range_is_safe, sieve_page,
};
use crate::partition::Partition;

verus! {

/// A shared, read-only list of values.
pub type ArcVec = Arc<Vec<u64>>;

/// A request from the scheduler to a worker.
pub enum MsgToWorker {
    /// Find the candidates of a partition against the known primes.
    FindCandidates(ArcVec, Partition),
    /// Sieve candidates by a page of known primes.
    Sieve(ArcVec, ArcVec),
    /// End the worker's loop.
    Stop,
}

/// A worker's one reply to one request.
pub enum MsgFromWorker {
    CandidatesResult(Vec<u64>),
    SieveResult(Vec<u64>),
    Error(MathError),
    /// Acknowledges a `Stop`.
    Ack,
}

impl MsgToWorker {
    /// The name of the request's type.
    pub open spec fn name_spec(&self) -> Seq<char> {
        match self {
            MsgToWorker::FindCandidates(_, _) => "FindCandidates(...)"@,
            MsgToWorker::Sieve(_, _) => "Sieve(...)"@,
            MsgToWorker::Stop => "Stop"@,
        }
    }

    /// Names the request's type.
    pub fn name(&self) -> (r: String)
        ensures
            r@ == self.name_spec(),
    {
        match self {
            MsgToWorker::FindCandidates(_, _) => String::from_str("FindCandidates(...)"),
            MsgToWorker::Sieve(_, _) => String::from_str("Sieve(...)"),
            MsgToWorker::Stop => String::from_str("Stop"),
        }
    }
}

impl MsgFromWorker {
    /// The name of the reply's type.
    pub open spec fn name_spec(&self) -> Seq<char> {
        match self {
            MsgFromWorker::CandidatesResult(_) => "CandidatesResult(...)"@,
            MsgFromWorker::SieveResult(_) => "SieveResult(...)"@,
            MsgFromWorker::Error(_) => "Error(...)"@,
            MsgFromWorker::Ack => "Ok"@,
        }
    }

    /// Names the reply's type.
    pub fn name(&self) -> (r: String)
        ensures
            r@ == self.name_spec(),
    {
        match self {
            MsgFromWorker::CandidatesResult(_) => String::from_str("CandidatesResult(...)"),
            MsgFromWorker::SieveResult(_) => String::from_str("SieveResult(...)"),
            MsgFromWorker::Error(_) => String::from_str("Error(...)"),
            MsgFromWorker::Ack => String::from_str("Ok"),
        }
    }
}

/// What a worker does with one request: the reply it sends, and whether it
/// then ends its loop.
pub struct WorkerStep {
    pub reply: MsgFromWorker,
    pub stop: bool,
}

/// `reply` is the answer that `msg` calls for: the candidates of the
/// partition, or the survivors of the sieve, or an `Error` where a value
/// exceeds the safe maximum; an acknowledgment for `Stop`.
pub open spec fn answers_request(msg: MsgToWorker, reply: MsgFromWorker) -> bool {
    match msg {
        MsgToWorker::FindCandidates(primes, part) => if range_is_safe(
            part.from as int,
            part.delta as int,
        ) {
            reply matches MsgFromWorker::CandidatesResult(v) && v@ == candidates_in(
                primes@,
                part.from as int,
                part.end(),
            )
        } else {
            reply is Error
        },
        MsgToWorker::Sieve(page, candidates) => if all_safe(candidates@) {
            reply matches MsgFromWorker::SieveResult(v) && v@ == candidates@.filter(passes(page@))
        } else {
            reply is Error
        },
        MsgToWorker::Stop => reply is Ack,
    }
}

/// The reply that `msg` calls for, and whether the worker then stops.
pub open spec fn step_for(msg: MsgToWorker, step: WorkerStep) -> bool {
    &&& answers_request(msg, step.reply)
    &&& step.stop <==> msg is Stop
}

/// Performs one request: exactly one reply, an `Error` where the arithmetic
/// fails, and an acknowledgment that ends the loop on `Stop`.
pub fn respond(msg: MsgToWorker) -> (r: WorkerStep)
    ensures
        step_for(msg, r),
{
    match msg {
        MsgToWorker::FindCandidates(init_primes, partition) => {
            let reply = match find_candidates(&*init_primes, partition) {
                Ok(candidates) => MsgFromWorker::CandidatesResult(candidates),
                Err(err) => MsgFromWorker::Error(err),
            };
            WorkerStep { reply, stop: false }
        },
        MsgToWorker::Sieve(primes_page, candidates) => {
            let reply = match sieve_page(&*primes_page, &*candidates) {
                Ok(primes) => MsgFromWorker::SieveResult(primes),
                Err(err) => MsgFromWorker::Error(err),
            };
            WorkerStep { reply, stop: false }
        },
        MsgToWorker::Stop => WorkerStep { reply: MsgFromWorker::Ack, stop: true },
    }
}

} // verus!
