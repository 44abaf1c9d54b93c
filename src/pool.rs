//! The scheduler: a fixed pool of workers driven through phases. Each phase
//! sends one request to every worker that has work, then waits for the one
//! reply of each before anything else happens.
use vstd::prelude::*;
use vstd::string::{to_string_from_display_ensures, StringExecFns};
use std::sync::Arc;
use std::sync::mpsc::{RecvError, SendError};
use crate::errors::MathError;
use crate::math::{
    all_safe, beyond_root, best_max_for_sieve, divides, is_prime, range_seq, best_partitioning, candidates_by_partition, candidates_in,
    lemma_partitioned_pass, lemma_partitioned_sieve, lemma_partitioning_covers_bounds,
    max_for_sieve, partitioning, passes, range_is_safe, sieved_by_partition, SAFE_MAX,
};
use crate::partition::Partition;
use crate::thread::{Receive, Send, Thread};
use crate::worker::{answers_request, MsgFromWorker, MsgToWorker};

verus! {

/// A failure of the communication with one worker.
pub enum ThreadError {
    /// The worker's reply could not be received.
    RecvError(RecvError),
    /// The request could not be handed to the worker.
    SendError(SendError<MsgToWorker>),
    /// The worker replied with a type that does not answer the request.
    UnexpectedResponse(String, MsgFromWorker),
}

/// Why an operation of the pool failed.
pub enum ThreadPoolError {
    /// A numeric bound was exceeded.
    Math(MathError),
    /// Every communication failure of the phase, in the order of the workers.
    Thread(Vec<ThreadError>),
}

/// `t` describes the failure `e`: what kind of failure it is, then, for a
/// channel failure, the text of the channel's own error; for an unexpected
/// response, the context and the type of the reply.
pub open spec fn describes(e: ThreadError, t: Seq<char>) -> bool {
    match e {
        ThreadError::RecvError(x) => exists|s: String|
            #[trigger] to_string_from_display_ensures::<RecvError>(&x, s) && t
                == "Failed to read from a thread. Err: "@ + s@,
        ThreadError::SendError(x) => exists|s: String|
            #[trigger] to_string_from_display_ensures::<SendError<MsgToWorker>>(&x, s) && t
                == "Failed to send to a thread. Err: "@ + s@,
        ThreadError::UnexpectedResponse(req, resp) => t == "Unexpected response! Thread answered '"@
            + req@ + "' on request '"@ + resp.name_spec() + "' "@,
    }
}

impl ThreadError {
    /// Describes the failure.
    pub fn message(&self) -> (r: String)
        ensures
            describes(*self, r@),
    {
        match self {
            ThreadError::RecvError(err) => {
                let inner = err.to_string();
                let mut text = String::from_str("Failed to read from a thread. Err: ");
                text.append(inner.as_str());
                assert(to_string_from_display_ensures::<RecvError>(err, inner));
                text
            },
            ThreadError::SendError(err) => {
                let inner = err.to_string();
                let mut text = String::from_str("Failed to send to a thread. Err: ");
                text.append(inner.as_str());
                assert(to_string_from_display_ensures::<SendError<MsgToWorker>>(err, inner));
                text
            },
            ThreadError::UnexpectedResponse(req, resp) => {
                let mut text = String::from_str("Unexpected response! Thread answered '");
                text.append(req.as_str());
                text.append("' on request '");
                let name = resp.name();
                text.append(name.as_str());
                text.append("' ");
                text
            },
        }
    }
}

/// The texts of `texts`, one after the other.
pub open spec fn joined(texts: Seq<Seq<char>>) -> Seq<char>
    decreases texts.len(),
{
    if texts.len() == 0 {
        Seq::empty()
    } else {
        joined(texts.drop_last()) + texts.last()
    }
}

/// `texts[k]` describes `errs[k]`, for each `k`.
pub open spec fn describes_all(errs: Seq<ThreadError>, texts: Seq<Seq<char>>) -> bool {
    &&& texts.len() == errs.len()
    &&& forall|k: int| 0 <= k < errs.len() ==> #[trigger] describes(errs[k], texts[k])
}

/// `t` describes the error `e`: the arithmetic error's text; or a heading,
/// the description of every failure in order, and a line break and a tab.
pub open spec fn pool_error_text(e: ThreadPoolError, t: Seq<char>) -> bool {
    match e {
        ThreadPoolError::Math(m) => t == m.message_spec(),
        ThreadPoolError::Thread(errs) => exists|texts: Seq<Seq<char>>|
            #[trigger] describes_all(errs@, texts) && t == "One or more errors occured in the thread pool \n\t"@
                + joined(texts) + "\n\t"@,
    }
}

impl ThreadPoolError {
    /// Describes the error, and every failure it gathers.
    pub fn message(&self) -> (r: String)
        ensures
            pool_error_text(*self, r@),
    {
        match self {
            ThreadPoolError::Thread(errors) => {
                let mut text = String::from_str("One or more errors occured in the thread pool \n\t");
                let ghost head = text@;
                let ghost mut texts: Seq<Seq<char>> = Seq::empty();
                let mut i: usize = 0;
                while i < errors.len()
                    invariant
                        i <= errors@.len(),
                        describes_all(errors@.take(i as int), texts),
                        text@ == head + joined(texts),
                    decreases errors.len() - i,
                {
                    let line = errors[i].message();
                    let ghost before = texts;
                    text.append(line.as_str());
                    proof {
                        texts = texts.push(line@);
                        assert(texts.drop_last() =~= before);
                        assert(text@ =~= head + joined(texts));
                        assert forall|k: int| 0 <= k < i + 1 implies #[trigger] describes(
                            errors@.take(i + 1)[k],
                            texts[k],
                        ) by {
                            if k < i {
                                assert(describes(errors@.take(i as int)[k], before[k]));
                            }
                        }
                    }
                    i = i + 1;
                }
                text.append("\n\t");
                assert(errors@.take(errors@.len() as int) =~= errors@);
                assert(describes_all(errors@, texts));
                text
            },
            ThreadPoolError::Math(e) => e.message(),
        }
    }
}

impl From<MathError> for ThreadPoolError {
    fn from(err: MathError) -> (r: ThreadPoolError)
        ensures
            r == ThreadPoolError::Math(err),
    {
        ThreadPoolError::Math(err)
    }
}

impl vstd::std_specs::convert::FromSpecImpl<MathError> for ThreadPoolError {
    open spec fn obeys_from_spec() -> bool {
        true
    }

    open spec fn from_spec(err: MathError) -> ThreadPoolError {
        ThreadPoolError::Math(err)
    }
}

/// What one worker handed back in a phase: a reply, or the failure to receive one.
pub type Reply = Result<MsgFromWorker, RecvError>;

/// The kind of a phase, which fixes the reply that answers its requests.
#[derive(Clone, Copy, PartialEq, Eq, Structural)]
pub enum Phase {
    FindCandidates,
    Sieve,
    Stop,
}

/// `m` is the type of reply that answers a request of `phase`.
pub open spec fn answers(phase: Phase, m: MsgFromWorker) -> bool {
    match phase {
        Phase::FindCandidates => m is CandidatesResult,
        Phase::Sieve => m is SieveResult,
        Phase::Stop => m is Ack,
    }
}

/// `m` reports an arithmetic error of a request of `phase`; a `Stop` does
/// no arithmetic.
pub open spec fn is_math_error(phase: Phase, m: MsgFromWorker) -> bool {
    m is Error && phase != Phase::Stop
}

/// `rep` is a communication failure in `phase`: no reply, or a reply that
/// neither answers the request nor reports an arithmetic error of it.
pub open spec fn is_failure(phase: Phase, rep: Reply) -> bool {
    match rep {
        Err(_) => true,
        Ok(m) => !answers(phase, m) && !is_math_error(phase, m),
    }
}

/// The predicate that picks the failures of `phase`.
pub open spec fn failing(phase: Phase) -> spec_fn(Reply) -> bool {
    |rep: Reply| is_failure(phase, rep)
}

/// `e` is the entry that reports the failing reply `rep`.
pub open spec fn reports(e: ThreadError, rep: Reply) -> bool {
    match rep {
        Err(x) => e == ThreadError::RecvError(x),
        Ok(m) => e matches ThreadError::UnexpectedResponse(s, m2) && s@ == unexpected_text() && m2
            == m,
    }
}

/// The context with which an unexpected reply is reported.
pub open spec fn unexpected_text() -> Seq<char> {
    "unexpected response from a worker"@
}

/// The values that `rep` carries as an answer in `phase`.
pub open spec fn payload(phase: Phase, rep: Reply) -> Seq<u64> {
    match rep {
        Ok(MsgFromWorker::CandidatesResult(v)) => if phase == Phase::FindCandidates {
            v@
        } else {
            Seq::empty()
        },
        Ok(MsgFromWorker::SieveResult(v)) => if phase == Phase::Sieve {
            v@
        } else {
            Seq::empty()
        },
        _ => Seq::empty(),
    }
}

/// The values that the replies of `reps` carry as answers in `phase`, in order.
pub open spec fn payloads(phase: Phase, reps: Seq<Reply>) -> Seq<u64>
    decreases reps.len(),
{
    if reps.len() == 0 {
        Seq::empty()
    } else {
        payloads(phase, reps.drop_last()) + payload(phase, reps.last())
    }
}

/// The arithmetic error of the first reply of `reps` that reports one in `phase`.
pub open spec fn first_error(phase: Phase, reps: Seq<Reply>) -> Option<MathError>
    decreases reps.len(),
{
    if reps.len() == 0 {
        None
    } else {
        match first_error(phase, reps.drop_last()) {
            Some(e) => Some(e),
            None => match reps.last() {
                Ok(MsgFromWorker::Error(e)) => if phase != Phase::Stop {
                    Some(e)
                } else {
                    None
                },
                _ => None,
            },
        }
    }
}

proof fn lemma_stop_reports_no_math_error(reps: Seq<Reply>)
    ensures
        first_error(Phase::Stop, reps) is None,
    decreases reps.len(),
{
    if reps.len() > 0 {
        lemma_stop_reports_no_math_error(reps.drop_last());
    }
}

/// `errs` starts with `send_errors` and goes on with one entry for each
/// failure of `phase` among `replies`, in order.
pub open spec fn reports_all(
    errs: Seq<ThreadError>,
    send_errors: Seq<ThreadError>,
    phase: Phase,
    replies: Seq<Reply>,
) -> bool {
    let fails = replies.filter(failing(phase));
    &&& errs.len() == send_errors.len() + fails.len()
    &&& errs.take(send_errors.len() as int) == send_errors
    &&& forall|k: int|
        0 <= k < fails.len() ==> reports(#[trigger] errs[send_errors.len() + k], fails[k])
}

/// Some communication failed in a phase.
pub open spec fn phase_failed(phase: Phase, send_errors: Seq<ThreadError>, replies: Seq<Reply>) -> bool {
    send_errors.len() > 0 || replies.filter(failing(phase)).len() > 0
}

/// `r` is the outcome of a phase with the failures `send_errors` met while
/// sending and the replies `replies`: every communication failure together
/// if there is one; else the first arithmetic error a worker reported; else
/// the values of all replies, in the order of the workers. Nothing of a
/// phase that fails is returned.
pub open spec fn gathered(
    phase: Phase,
    send_errors: Seq<ThreadError>,
    replies: Seq<Reply>,
    r: Result<Vec<u64>, ThreadPoolError>,
) -> bool {
    let failed = phase_failed(phase, send_errors, replies);
    match r {
        Err(ThreadPoolError::Thread(errs)) => failed && reports_all(errs@, send_errors, phase, replies),
        Err(ThreadPoolError::Math(e)) => !failed && first_error(phase, replies) == Some(e),
        Ok(v) => !failed && first_error(phase, replies) is None && v@ == payloads(phase, replies),
    }
}

/// The outcome of a phase from the failures met while sending and the
/// replies received.
pub fn gather_replies(phase: Phase, send_errors: Vec<ThreadError>, replies: Vec<Reply>) -> (r:
    Result<Vec<u64>, ThreadPoolError>)
    ensures
        gathered(phase, send_errors@, replies@, r),
{
    let ghost all = replies@;
    let mut replies = replies;
    let mut errors = send_errors;
    let mut found: Vec<u64> = Vec::new();
    let mut math_error: Option<MathError> = None;
    let mut i: usize = 0;
    let n = replies.len();
    proof {
        reveal(Seq::filter);
        assert(all.take(0).len() == 0);
        assert(errors@.take(send_errors@.len() as int) =~= send_errors@);
        assert(payloads(phase, all.take(0)) =~= Seq::<u64>::empty());
    }
    while i < n
        invariant
            n == all.len(),
            i <= n,
            replies@ == all.subrange(i as int, n as int),
            found@ == payloads(phase, all.take(i as int)),
            math_error == first_error(phase, all.take(i as int)),
            reports_all(errors@, send_errors@, phase, all.take(i as int)),
        decreases n - i,
    {
        let rep = replies.remove(0);
        let ghost before = errors@;
        proof {
            let t = all.take(i + 1);
            assert(t.drop_last() =~= all.take(i as int));
            assert(rep == all[i as int]);
            assert(t =~= all.take(i as int).push(rep));
            all.take(i as int).lemma_filter_push(rep, failing(phase));
        }
        match rep {
            Ok(MsgFromWorker::CandidatesResult(mut v)) => {
                if phase == Phase::FindCandidates {
                    found.append(&mut v);
                } else {
                    errors.push(ThreadError::UnexpectedResponse(unexpected(), MsgFromWorker::CandidatesResult(v)));
                }
            },
            Ok(MsgFromWorker::SieveResult(mut v)) => {
                if phase == Phase::Sieve {
                    found.append(&mut v);
                } else {
                    errors.push(ThreadError::UnexpectedResponse(unexpected(), MsgFromWorker::SieveResult(v)));
                }
            },
            Ok(MsgFromWorker::Error(e)) => {
                if phase == Phase::Stop {
                    errors.push(ThreadError::UnexpectedResponse(unexpected(), MsgFromWorker::Error(e)));
                } else if math_error.is_none() {
                    math_error = Some(e);
                }
            },
            Ok(MsgFromWorker::Ack) => {
                if phase != Phase::Stop {
                    errors.push(ThreadError::UnexpectedResponse(unexpected(), MsgFromWorker::Ack));
                }
            },
            Err(e) => {
                errors.push(ThreadError::RecvError(e));
            },
        }
        proof {
            let fails_before = all.take(i as int).filter(failing(phase));
            let fails = all.take(i + 1).filter(failing(phase));
            assert(errors@.take(send_errors@.len() as int) =~= send_errors@) by {
                assert(before.take(send_errors@.len() as int) =~= send_errors@);
            }
            assert forall|k: int| 0 <= k < fails.len() implies reports(
                #[trigger] errors@[send_errors@.len() + k],
                fails[k],
            ) by {
                if k < fails_before.len() {
                    assert(errors@[send_errors@.len() + k] == before[send_errors@.len() + k]);
                    assert(fails[k] == fails_before[k]);
                }
            }
        }
        i = i + 1;
    }
    assert(all.take(n as int) =~= all);
    if errors.len() > 0 {
        Err(ThreadPoolError::Thread(errors))
    } else {
        match math_error {
            Some(e) => Err(ThreadPoolError::Math(e)),
            None => Ok(found),
        }
    }
}

fn unexpected() -> (r: String)
    ensures
        r@ == unexpected_text(),
{
    String::from_str("unexpected response from a worker")
}

/// The bounds `[from, to)` of a pass after the last known prime `last`,
/// given the bound `b` from `best_max_for_sieve`: empty where `b` is below `last`.
pub open spec fn pass_end(last: u64, b: u64) -> int {
    if b < last {
        last as int
    } else {
        b as int
    }
}

/// The partitions of the pass that follows the last known prime, one per
/// worker: `[last_prime, min(last_prime², max_ppt))` split as
/// `best_partitioning` does; fails where `last_prime` cannot be squared.
pub fn pass_partitions(last_prime: u64, max_ppt: usize, workers: usize) -> (r: Result<
    Vec<Option<Partition>>,
    MathError,
>)
    ensures
        r is Err <==> last_prime >= SAFE_MAX,
        r matches Ok(ps) ==> ({
            &&& max_for_sieve(last_prime, max_ppt as u64) is Some
            &&& ps@ == partitioning(
                last_prime as int,
                pass_end(last_prime, max_for_sieve(last_prime, max_ppt as u64)->Some_0),
                workers as int,
            )
        }),
{
    let max = match best_max_for_sieve(last_prime, max_ppt as u64) {
        Ok(max) => max,
        Err(e) => {
            return Err(e);
        },
    };
    let to = if max < last_prime {
        last_prime
    } else {
        max
    };
    Ok(best_partitioning(last_prime as usize, to as usize, workers))
}

/// `r` is the outcome of stopping the workers with the failures
/// `send_errors` met while sending and the acknowledgments `replies`: every
/// failure together if there is one, else success.
pub open spec fn stopped(
    send_errors: Seq<ThreadError>,
    replies: Seq<Reply>,
    r: Result<(), ThreadPoolError>,
) -> bool {
    match r {
        Ok(()) => !phase_failed(Phase::Stop, send_errors, replies),
        Err(ThreadPoolError::Thread(errs)) => phase_failed(Phase::Stop, send_errors, replies)
            && reports_all(errs@, send_errors, Phase::Stop, replies),
        Err(ThreadPoolError::Math(_)) => false,
    }
}

/// The indices of the requests that are present, ascending: the workers
/// that have work in a phase.
pub open spec fn live(reqs: Seq<Option<MsgToWorker>>) -> Seq<usize>
    decreases reqs.len(),
{
    if reqs.len() == 0 {
        Seq::empty()
    } else if reqs.last() is Some {
        live(reqs.drop_last()).push((reqs.len() - 1) as usize)
    } else {
        live(reqs.drop_last())
    }
}

/// `s` is strictly ascending.
pub open spec fn ascending(s: Seq<usize>) -> bool {
    forall|i: int, j: int| 0 <= i < j < s.len() ==> s[i] < s[j]
}

/// `running` and `failed` split the workers of `reqs` that have work: both
/// ascending, with no index in common, and every worker with work in one of
/// them.
pub open spec fn splits_live(reqs: Seq<Option<MsgToWorker>>, running: Seq<usize>, failed: Seq<usize>) -> bool {
    &&& forall|j: int|
        0 <= j < running.len() ==> #[trigger] running[j] < reqs.len() && reqs[running[j] as int] is Some
    &&& forall|j: int|
        0 <= j < failed.len() ==> #[trigger] failed[j] < reqs.len() && reqs[failed[j] as int] is Some
    &&& ascending(running)
    &&& ascending(failed)
    &&& forall|i: int, j: int|
        0 <= i < running.len() && 0 <= j < failed.len() ==> #[trigger] running[i] != #[trigger] failed[j]
    &&& forall|k: int|
        0 <= k < reqs.len() && #[trigger] reqs[k] is Some ==> running.contains(k as usize)
            || failed.contains(k as usize)
    &&& running.len() + failed.len() == live(reqs).len()
}

/// How the sending of a phase over `reqs` went: the workers `running` took
/// their request and the workers `failed` did not, which split the workers
/// with work; `send_errors[k]` is the `SendError` of worker `failed[k]`;
/// where no send failed, every worker with work took its request; and
/// `replies` holds one reply for each worker that took its request.
pub open spec fn dispatched(
    reqs: Seq<Option<MsgToWorker>>,
    running: Seq<usize>,
    failed: Seq<usize>,
    send_errors: Seq<ThreadError>,
    replies: Seq<Reply>,
) -> bool {
    &&& splits_live(reqs, running, failed)
    &&& send_errors.len() == failed.len()
    &&& forall|k: int| 0 <= k < send_errors.len() ==> #[trigger] send_errors[k] is SendError
    &&& failed.len() == 0 ==> running == live(reqs)
    &&& replies.len() == running.len()
}

/// `rep` is a reply to `req` as `respond` gives it.
pub open spec fn answered(req: Option<MsgToWorker>, rep: Reply) -> bool {
    req matches Some(q) && rep matches Ok(m) && answers_request(q, m)
}

/// Every reply collected answers its worker's request as `respond` does.
pub open spec fn all_answered(reqs: Seq<Option<MsgToWorker>>, running: Seq<usize>, replies: Seq<Reply>) -> bool {
    forall|j: int| 0 <= j < replies.len() ==> #[trigger] answered(reqs[running[j] as int], replies[j])
}

/// `req` is the request of the partition `p` of a pass against `primes`:
/// nothing where `p` has no work.
pub open spec fn pass_request(req: Option<MsgToWorker>, primes: Seq<u64>, p: Option<Partition>) -> bool {
    match p {
        None => req is None,
        Some(part) => req matches Some(MsgToWorker::FindCandidates(a, q)) && a@ == primes && q == part,
    }
}

/// `reqs` are the requests of a pass over the partitions `ps`.
pub open spec fn pass_requests(reqs: Seq<Option<MsgToWorker>>, primes: Seq<u64>, ps: Seq<Option<Partition>>) -> bool {
    &&& reqs.len() == ps.len()
    &&& forall|k: int| 0 <= k < ps.len() ==> #[trigger] pass_request(reqs[k], primes, ps[k])
}

/// `req` is the request that sieves the index span `p` of `candidates` by `page`.
pub open spec fn sieve_request(
    req: Option<MsgToWorker>,
    page: Seq<u64>,
    candidates: Seq<u64>,
    p: Option<Partition>,
) -> bool {
    match p {
        None => req is None,
        Some(part) => req matches Some(MsgToWorker::Sieve(pg, cs)) && pg@ == page && cs@
            == candidates.subrange(part.from as int, part.end()),
    }
}

/// `reqs` are the requests that sieve the spans `ps` of `candidates` by `page`.
pub open spec fn sieve_requests(
    reqs: Seq<Option<MsgToWorker>>,
    page: Seq<u64>,
    candidates: Seq<u64>,
    ps: Seq<Option<Partition>>,
) -> bool {
    &&& reqs.len() == ps.len()
    &&& forall|k: int| 0 <= k < ps.len() ==> #[trigger] sieve_request(reqs[k], page, candidates, ps[k])
}

/// `reqs` is one `Stop` for each of `n` workers.
pub open spec fn stop_requests(reqs: Seq<Option<MsgToWorker>>, n: nat) -> bool {
    &&& reqs.len() == n
    &&& forall|k: int| 0 <= k < n ==> #[trigger] reqs[k] matches Some(MsgToWorker::Stop)
}

/// The partitions of the pass after the last known prime `last` over
/// `workers`, where `last` can be squared.
pub open spec fn pass_plan(last: u64, max_ppt: usize, workers: nat) -> Seq<Option<Partition>> {
    partitioning(
        last as int,
        pass_end(last, max_for_sieve(last, max_ppt as u64)->Some_0),
        workers as int,
    )
}

/// What `find_candidates` of a pool of `workers` with bound `max_ppt`
/// returns on `init_primes`: a math error where the last prime cannot be
/// squared; else the outcome of one phase whose request to each worker is
/// the shared known primes with the worker's partition of the pass.
pub open spec fn find_candidates_outcome(
    workers: nat,
    max_ppt: usize,
    init_primes: Seq<u64>,
    r: Result<Vec<u64>, ThreadPoolError>,
) -> bool {
    let last = init_primes.last();
    if last >= SAFE_MAX {
        r matches Err(ThreadPoolError::Math(_))
    } else {
        exists|
            reqs: Seq<Option<MsgToWorker>>,
            running: Seq<usize>,
                failed: Seq<usize>,
            send_errors: Seq<ThreadError>,
            replies: Seq<Reply>,
        |
            #[trigger] dispatched(reqs, running, failed, send_errors, replies) && pass_requests(
                reqs,
                init_primes,
                pass_plan(last, max_ppt, workers),
            ) && gathered(Phase::FindCandidates, send_errors, replies, r)
    }
}

/// What `sieve` of a pool of `workers` returns: the outcome of one phase
/// whose request to each worker is the page with the worker's index span of
/// the candidates.
pub open spec fn sieve_outcome(
    workers: nat,
    page: Seq<u64>,
    candidates: Seq<u64>,
    r: Result<Vec<u64>, ThreadPoolError>,
) -> bool {
    exists|
        reqs: Seq<Option<MsgToWorker>>,
        running: Seq<usize>,
                failed: Seq<usize>,
        send_errors: Seq<ThreadError>,
        replies: Seq<Reply>,
    |
        #[trigger] dispatched(reqs, running, failed, send_errors, replies) && sieve_requests(
            reqs,
            page,
            candidates,
            partitioning(0, candidates.len() as int, workers as int),
        ) && gathered(Phase::Sieve, send_errors, replies, r)
}

/// A fixed set of workers, and the bound on the values that one pass may reach.
pub struct ThreadPool {
    threads: Vec<Thread>,
    max_ppt: usize,
}

impl ThreadPool {
    /// The number of workers.
    pub closed spec fn workers(&self) -> nat {
        self.threads@.len()
    }

    /// The bound on the values that one pass may reach.
    pub closed spec fn max_ppt(&self) -> usize {
        self.max_ppt
    }

    /// A pool over the channels of running workers.
    pub fn new(threads: Vec<Thread>, max_ppt: usize) -> (r: ThreadPool)
        ensures
            r.workers() == threads@.len(),
            r.max_ppt() == max_ppt,
    {
        ThreadPool { threads, max_ppt }
    }

    /// Sends `requests[k]`, where present, to worker `k`, trying every one
    /// whatever failed before: the workers that took their request, in
    /// order; the workers whose send failed, in order; and the `SendError`
    /// of each of those.
    fn dispatch(&self, requests: Vec<Option<MsgToWorker>>) -> (r: (Vec<usize>, Vec<usize>, Vec<ThreadError>))
        requires
            requests@.len() <= self.workers(),
        ensures
            splits_live(requests@, r.0@, r.1@),
            r.2@.len() == r.1@.len(),
            forall|k: int| 0 <= k < r.2@.len() ==> #[trigger] r.2@[k] is SendError,
            r.1@.len() == 0 ==> r.0@ == live(requests@),
    {
        let ghost all = requests@;
        let mut requests = requests;
        let mut running: Vec<usize> = Vec::new();
        let mut failed: Vec<usize> = Vec::new();
        let mut errors: Vec<ThreadError> = Vec::new();
        let n = requests.len();
        let mut k: usize = 0;
        proof {
            assert(all.take(0) =~= Seq::<Option<MsgToWorker>>::empty());
        }
        while k < n
            invariant
                n == all.len(),
                n <= self.workers(),
                k <= n,
                requests@ == all.subrange(k as int, n as int),
                running@.len() + failed@.len() == live(all.take(k as int)).len(),
                forall|j: int|
                    0 <= j < running@.len() ==> #[trigger] running@[j] < k && all[running@[j] as int] is Some,
                forall|j: int|
                    0 <= j < failed@.len() ==> #[trigger] failed@[j] < k && all[failed@[j] as int] is Some,
                ascending(running@),
                ascending(failed@),
                forall|i: int, j: int|
                    0 <= i < running@.len() && 0 <= j < failed@.len() ==> #[trigger] running@[i]
                        != #[trigger] failed@[j],
                forall|x: int|
                    0 <= x < k && #[trigger] all[x] is Some ==> running@.contains(x as usize)
                        || failed@.contains(x as usize),
                errors@.len() == failed@.len(),
                forall|j: int| 0 <= j < errors@.len() ==> #[trigger] errors@[j] is SendError,
                failed@.len() == 0 ==> running@ == live(all.take(k as int)),
            decreases n - k,
        {
            let request = requests.remove(0);
            let ghost old_running = running@;
            let ghost old_failed = failed@;
            proof {
                assert(request == all[k as int]);
                assert(all.take(k + 1).drop_last() =~= all.take(k as int));
                assert(all.take(k + 1).last() == all[k as int]);
            }
            if let Some(msg) = request {
                match self.threads[k].send(msg) {
                    Ok(()) => running.push(k),
                    Err(err) => {
                        failed.push(k);
                        errors.push(ThreadError::SendError(err));
                    },
                }
            }
            proof {
                assert(requests@ =~= all.subrange(k + 1, n as int));
                assert forall|x: int|
                    0 <= x < k + 1 && #[trigger] all[x] is Some implies running@.contains(x as usize)
                        || failed@.contains(x as usize) by {
                    if x < k {
                        if old_running.contains(x as usize) {
                            let w = choose|w: int| 0 <= w < old_running.len() && old_running[w] == x as usize;
                            assert(running@[w] == x as usize);
                        } else {
                            let w = choose|w: int| 0 <= w < old_failed.len() && old_failed[w] == x as usize;
                            assert(failed@[w] == x as usize);
                        }
                    } else {
                        if running@.len() > old_running.len() {
                            assert(running@[running@.len() - 1] == k);
                        } else {
                            assert(failed@[failed@.len() - 1] == k);
                        }
                    }
                }
            }
            k = k + 1;
        }
        assert(all.take(n as int) =~= all);
        (running, failed, errors)
    }

    /// Waits for the one reply of each worker of `running`, in order.
    fn collect(&self, running: &Vec<usize>) -> (r: Vec<Reply>)
        requires
            forall|j: int| 0 <= j < running@.len() ==> #[trigger] running@[j] < self.workers(),
        ensures
            r@.len() == running@.len(),
    {
        let mut replies: Vec<Reply> = Vec::new();
        let mut j: usize = 0;
        while j < running.len()
            invariant
                forall|j: int| 0 <= j < running@.len() ==> #[trigger] running@[j] < self.workers(),
                j <= running@.len(),
                replies@.len() == j,
            decreases running.len() - j,
        {
            replies.push(self.threads[running[j]].recv());
            j = j + 1;
        }
        replies
    }

    /// One phase: sends the requests, waits for the reply of every worker
    /// that took one, and gathers the outcome.
    fn run_phase(&self, phase: Phase, requests: Vec<Option<MsgToWorker>>) -> (r: Result<
        Vec<u64>,
        ThreadPoolError,
    >)
        requires
            requests@.len() <= self.workers(),
        ensures
            exists|running: Seq<usize>, failed: Seq<usize>, send_errors: Seq<ThreadError>, replies: Seq<Reply>|
                #[trigger] dispatched(requests@, running, failed, send_errors, replies) && gathered(
                    phase,
                    send_errors,
                    replies,
                    r,
                ),
    {
        let ghost reqs = requests@;
        let (running, failed, send_errors) = self.dispatch(requests);
        let replies = self.collect(&running);
        let ghost sent = send_errors@;
        let ghost got = replies@;
        let r = gather_replies(phase, send_errors, replies);
        assert(dispatched(reqs, running@, failed@, sent, got));
        r
    }

    /// The candidates of the pass that follows the largest known prime
    /// `last`: each worker with a partition of `[last, min(last², max_ppt))`
    /// is sent the shared known primes and its partition, and the
    /// candidates of the replies are concatenated in the order of the
    /// partitions. Fails as a whole where `last` cannot be squared, where a
    /// worker reports an arithmetic error, or with every communication
    /// failure of the phase.
    pub fn find_candidates(&self, init_primes: Vec<u64>) -> (r: Result<Vec<u64>, ThreadPoolError>)
        requires
            init_primes@.len() > 0,
        ensures
            find_candidates_outcome(self.workers(), self.max_ppt(), init_primes@, r),
    {
        let ghost init = init_primes@;
        let last_prime = init_primes[init_primes.len() - 1];
        let partitions = match pass_partitions(last_prime, self.max_ppt, self.threads.len()) {
            Ok(ps) => ps,
            Err(e) => {
                return Err(ThreadPoolError::Math(e));
            },
        };
        let requests = self.send_find_candidates_instruction(init_primes, partitions);
        let ghost reqs = requests@;
        let r = self.run_phase(Phase::FindCandidates, requests);
        proof {
            let (running, failed, send_errors, replies) = choose|
                running: Seq<usize>,
                failed: Seq<usize>,
                send_errors: Seq<ThreadError>,
                replies: Seq<Reply>,
            | #[trigger] dispatched(reqs, running, failed, send_errors, replies) && gathered(
                Phase::FindCandidates,
                send_errors,
                replies,
                r,
            );
            assert(dispatched(reqs, running, failed, send_errors, replies));
        }
        r
    }

    /// The request of each worker for a pass over `partitions`: the same
    /// shared snapshot of the known primes, and its own partition; nothing
    /// for a worker without work.
    fn send_find_candidates_instruction(&self, init_primes: Vec<u64>, partitions: Vec<Option<Partition>>) -> (r: Vec<
        Option<MsgToWorker>,
    >)
        ensures
            pass_requests(r@, init_primes@, partitions@),
    {
        let ghost init = init_primes@;
        let primes = Arc::new(init_primes);
        let mut requests: Vec<Option<MsgToWorker>> = Vec::new();
        let mut k: usize = 0;
        while k < partitions.len()
            invariant
                k <= partitions@.len(),
                requests@.len() == k,
                primes@ == init,
                forall|j: int| 0 <= j < k ==> #[trigger] pass_request(requests@[j], init, partitions@[j]),
            decreases partitions.len() - k,
        {
            match partitions[k] {
                Some(partition) => {
                    let shared = Arc::clone(&primes);
                    requests.push(Some(MsgToWorker::FindCandidates(shared, partition)))
                },
                None => requests.push(None),
            }
            k = k + 1;
        }
        requests
    }

    /// Sieves `candidates` by `prime_page`: each worker with an index span
    /// of the candidates is sent the page and its span, and the survivors of
    /// the replies are concatenated in the order of the spans. Fails as a
    /// whole where a worker reports an arithmetic error, or with every
    /// communication failure of the phase.
    pub fn sieve(&self, prime_page: Vec<u64>, candidates: Vec<u64>) -> (r: Result<
        Vec<u64>,
        ThreadPoolError,
    >)
        ensures
            sieve_outcome(self.workers(), prime_page@, candidates@, r),
    {
        let ghost page = prime_page@;
        let partitions = best_partitioning(0, candidates.len(), self.threads.len());
        proof {
            if self.workers() >= 1 {
                lemma_partitioning_covers_bounds(
                    0,
                    candidates@.len() as usize,
                    self.workers() as usize,
                );
            }
        }
        let requests = sieve_instructions(prime_page, &candidates, &partitions);
        let ghost reqs = requests@;
        let r = self.run_phase(Phase::Sieve, requests);
        proof {
            let (running, failed, send_errors, replies) = choose|
                running: Seq<usize>,
                failed: Seq<usize>,
                send_errors: Seq<ThreadError>,
                replies: Seq<Reply>,
            | #[trigger] dispatched(reqs, running, failed, send_errors, replies) && gathered(
                Phase::Sieve,
                send_errors,
                replies,
                r,
            );
            assert(dispatched(reqs, running, failed, send_errors, replies));
        }
        r
    }

    /// Sends `Stop` to every worker, each one whatever failed before, and
    /// waits for each acknowledgment; fails, with every failure met, where a
    /// worker could not be told or did not acknowledge.
    pub fn stop(&self) -> (r: Result<(), ThreadPoolError>)
        ensures
            exists|
                reqs: Seq<Option<MsgToWorker>>,
                running: Seq<usize>,
                failed: Seq<usize>,
                send_errors: Seq<ThreadError>,
                replies: Seq<Reply>,
            |
                #[trigger] dispatched(reqs, running, failed, send_errors, replies) && stop_requests(
                    reqs,
                    self.workers(),
                ) && stopped(send_errors, replies, r),
    {
        let requests = stop_instructions(self.threads.len());
        let ghost reqs = requests@;
        let outcome = self.run_phase(Phase::Stop, requests);
        let ghost phase_outcome = outcome;
        let r = match outcome {
            Ok(_) => Ok(()),
            Err(e) => Err(e),
        };
        proof {
            let (running, failed, send_errors, replies) = choose|
                running: Seq<usize>,
                failed: Seq<usize>,
                send_errors: Seq<ThreadError>,
                replies: Seq<Reply>,
            | #[trigger] dispatched(reqs, running, failed, send_errors, replies) && gathered(
                Phase::Stop,
                send_errors,
                replies,
                phase_outcome,
            );
            lemma_stop_reports_no_math_error(replies);
            assert(stopped(send_errors, replies, r));
            assert(dispatched(reqs, running, failed, send_errors, replies));
        }
        r
    }
}

/// The requests that sieve the index spans `partitions` of `candidates` by
/// `page`, one per worker; nothing for a worker without a span.
fn sieve_instructions(page: Vec<u64>, candidates: &Vec<u64>, partitions: &Vec<Option<Partition>>) -> (r: Vec<
    Option<MsgToWorker>,
>)
    requires
        forall|k: int|
            0 <= k < partitions@.len() && #[trigger] partitions@[k] is Some ==> 0
                <= partitions@[k]->Some_0.from && partitions@[k]->Some_0.end() <= candidates@.len(),
    ensures
        sieve_requests(r@, page@, candidates@, partitions@),
{
    let ghost pg = page@;
    let shared = Arc::new(page);
    let mut requests: Vec<Option<MsgToWorker>> = Vec::new();
    let mut k: usize = 0;
    while k < partitions.len()
        invariant
            forall|k: int|
                0 <= k < partitions@.len() && #[trigger] partitions@[k] is Some ==> 0
                    <= partitions@[k]->Some_0.from && partitions@[k]->Some_0.end() <= candidates@.len(),
            k <= partitions@.len(),
            requests@.len() == k,
            shared@ == pg,
            forall|j: int|
                0 <= j < k ==> #[trigger] sieve_request(requests@[j], pg, candidates@, partitions@[j]),
        decreases partitions.len() - k,
    {
        match partitions[k] {
            Some(part) => {
                assert(partitions@[k as int] is Some);
                let span = copy_span(candidates, part);
                requests.push(Some(MsgToWorker::Sieve(Arc::clone(&shared), Arc::new(span))))
            },
            None => requests.push(None),
        }
        k = k + 1;
    }
    requests
}

/// One `Stop` for each of `n` workers.
fn stop_instructions(n: usize) -> (r: Vec<Option<MsgToWorker>>)
    ensures
        stop_requests(r@, n as nat),
{
    let mut requests: Vec<Option<MsgToWorker>> = Vec::new();
    let mut k: usize = 0;
    while k < n
        invariant
            k <= n,
            requests@.len() == k,
            forall|j: int| 0 <= j < k ==> #[trigger] requests@[j] matches Some(MsgToWorker::Stop),
        decreases n - k,
    {
        requests.push(Some(MsgToWorker::Stop));
        k = k + 1;
    }
    requests
}

/// The values of `candidates` in `part`, in order.
fn copy_span(candidates: &Vec<u64>, part: Partition) -> (r: Vec<u64>)
    requires
        part.end() <= candidates@.len(),
    ensures
        r@ == candidates@.subrange(part.from as int, part.end()),
{
    let mut span: Vec<u64> = Vec::new();
    let len = candidates.len();
    let mut i: usize = part.from;
    let end = part.from + part.delta;
    while i < end
        invariant
            part.from <= i <= end,
            end == part.end(),
            end <= candidates@.len(),
            span@ == candidates@.subrange(part.from as int, i as int),
        decreases end - i,
    {
        span.push(candidates[i]);
        assert(candidates@.subrange(part.from as int, i + 1) =~= candidates@.subrange(
            part.from as int,
            i as int,
        ).push(candidates@[i as int]));
        i = i + 1;
    }
    span
}

/// The values that `respond` returns for `req` where it succeeds.
pub open spec fn expected_payload(req: Option<MsgToWorker>) -> Seq<u64> {
    match req {
        Some(MsgToWorker::FindCandidates(a, p)) => candidates_in(a@, p.from as int, p.end()),
        Some(MsgToWorker::Sieve(pg, cs)) => cs@.filter(passes(pg@)),
        _ => Seq::empty(),
    }
}

/// The values that `respond` returns for the requests of `reqs`, in order.
pub open spec fn expected_payloads(reqs: Seq<Option<MsgToWorker>>) -> Seq<u64>
    decreases reqs.len(),
{
    if reqs.len() == 0 {
        Seq::empty()
    } else {
        expected_payloads(reqs.drop_last()) + expected_payload(reqs.last())
    }
}

/// `req` is a request of `phase` that names no value beyond the safe maximum.
pub open spec fn safe_request(phase: Phase, req: Option<MsgToWorker>) -> bool {
    match req {
        None => true,
        Some(MsgToWorker::FindCandidates(_, p)) => phase == Phase::FindCandidates && range_is_safe(
            p.from as int,
            p.delta as int,
        ),
        Some(MsgToWorker::Sieve(_, cs)) => phase == Phase::Sieve && all_safe(cs@),
        Some(MsgToWorker::Stop) => phase == Phase::Stop,
    }
}

proof fn lemma_live_indices(reqs: Seq<Option<MsgToWorker>>)
    requires
        reqs.len() <= usize::MAX,
    ensures
        forall|j: int|
            0 <= j < live(reqs).len() ==> #[trigger] live(reqs)[j] < reqs.len() && reqs[live(
                reqs,
            )[j] as int] is Some,
    decreases reqs.len(),
{
    if reqs.len() > 0 {
        let init = reqs.drop_last();
        lemma_live_indices(init);
        if reqs.last() is Some {
            assert(live(reqs) == live(init).push((reqs.len() - 1) as usize));
        } else {
            assert(live(reqs) == live(init));
        }
        assert forall|j: int| 0 <= j < live(reqs).len() implies #[trigger] live(reqs)[j]
            < reqs.len() && reqs[live(reqs)[j] as int] is Some by {
            if j < live(init).len() {
                assert(live(reqs)[j] == live(init)[j]);
                assert(init[live(init)[j] as int] == reqs[live(init)[j] as int]);
            }
        }
    }
}

/// Replies that answer each request with work as `respond` does, and
/// without an arithmetic error, carry the values `respond` returns and hold
/// no failure.
proof fn lemma_answered_payloads(phase: Phase, reqs: Seq<Option<MsgToWorker>>, replies: Seq<Reply>)
    requires
        reqs.len() <= usize::MAX,
        replies.len() == live(reqs).len(),
        forall|j: int| 0 <= j < replies.len() ==> #[trigger] answered(reqs[live(reqs)[j] as int], replies[j]),
        forall|k: int| 0 <= k < reqs.len() ==> #[trigger] safe_request(phase, reqs[k]),
    ensures
        payloads(phase, replies) == expected_payloads(reqs),
        replies.filter(failing(phase)).len() == 0,
        first_error(phase, replies) is None,
    decreases reqs.len(),
{
    reveal(Seq::filter);
    if reqs.len() == 0 {
        assert(replies.len() == 0);
    } else {
        let init = reqs.drop_last();
        let li = live(init);
        lemma_live_indices(init);
        assert forall|k: int| 0 <= k < init.len() implies #[trigger] safe_request(phase, init[k]) by {
            assert(safe_request(phase, reqs[k]));
        }
        if reqs.last() is Some {
            let rinit = replies.drop_last();
            assert(live(reqs) == li.push((reqs.len() - 1) as usize));
            assert forall|j: int| 0 <= j < rinit.len() implies #[trigger] answered(
                init[li[j] as int],
                rinit[j],
            ) by {
                assert(live(reqs)[j] == li[j]);
                assert(answered(reqs[live(reqs)[j] as int], replies[j]));
            }
            lemma_answered_payloads(phase, init, rinit);
            let n = replies.len() - 1;
            assert(live(reqs) == li.push((reqs.len() - 1) as usize));
            assert(n == li.len());
            assert(live(reqs)[n] == reqs.len() - 1);
            assert(answered(reqs[live(reqs)[n] as int], replies[n]));
            assert(safe_request(phase, reqs[reqs.len() - 1]));
            assert(rinit.push(replies.last()) =~= replies);
            rinit.lemma_filter_push(replies.last(), failing(phase));
        } else {
            assert(live(reqs) == li);
            assert forall|j: int| 0 <= j < replies.len() implies #[trigger] answered(
                init[li[j] as int],
                replies[j],
            ) by {
                assert(live(reqs)[j] == li[j]);
            }
            lemma_answered_payloads(phase, init, replies);
            assert(expected_payloads(reqs) =~= expected_payloads(init));
        }
    }
}

proof fn lemma_pass_payloads(reqs: Seq<Option<MsgToWorker>>, list: Seq<u64>, ps: Seq<Option<Partition>>)
    requires
        pass_requests(reqs, list, ps),
    ensures
        expected_payloads(reqs) == candidates_by_partition(list, ps),
    decreases reqs.len(),
{
    if reqs.len() > 0 {
        let k = reqs.len() - 1;
        assert(pass_request(reqs[k], list, ps[k]));
        assert forall|j: int| 0 <= j < ps.drop_last().len() implies #[trigger] pass_request(
            reqs.drop_last()[j],
            list,
            ps.drop_last()[j],
        ) by {
            assert(pass_request(reqs[j], list, ps[j]));
        }
        lemma_pass_payloads(reqs.drop_last(), list, ps.drop_last());
    }
}

proof fn lemma_sieve_payloads(
    reqs: Seq<Option<MsgToWorker>>,
    page: Seq<u64>,
    candidates: Seq<u64>,
    ps: Seq<Option<Partition>>,
)
    requires
        sieve_requests(reqs, page, candidates, ps),
    ensures
        expected_payloads(reqs) == sieved_by_partition(page, candidates, ps),
    decreases reqs.len(),
{
    if reqs.len() > 0 {
        let k = reqs.len() - 1;
        assert(sieve_request(reqs[k], page, candidates, ps[k]));
        assert forall|j: int| 0 <= j < ps.drop_last().len() implies #[trigger] sieve_request(
            reqs.drop_last()[j],
            page,
            candidates,
            ps.drop_last()[j],
        ) by {
            assert(sieve_request(reqs[j], page, candidates, ps[j]));
        }
        lemma_sieve_payloads(reqs.drop_last(), page, candidates, ps.drop_last());
    }
}

/// A phase in which no worker has work succeeds with nothing.
pub proof fn lemma_phase_without_work(
    phase: Phase,
    reqs: Seq<Option<MsgToWorker>>,
    running: Seq<usize>,
    failed: Seq<usize>,
    send_errors: Seq<ThreadError>,
    replies: Seq<Reply>,
    r: Result<Vec<u64>, ThreadPoolError>,
)
    requires
        live(reqs).len() == 0,
        dispatched(reqs, running, failed, send_errors, replies),
        gathered(phase, send_errors, replies, r),
    ensures
        r matches Ok(v) && v@.len() == 0,
{
    reveal(Seq::filter);
    assert(replies.len() == 0);
    assert(replies.filter(failing(phase)).len() == 0);
}

/// A pass in which every request reaches its worker and every worker
/// answers as `respond` does finds exactly the candidates of the whole
/// range `[from, to)`, in ascending order, where no value of the range
/// exceeds the safe maximum.
pub proof fn lemma_answered_pass(
    list: Seq<u64>,
    from: usize,
    to: usize,
    parts: usize,
    reqs: Seq<Option<MsgToWorker>>,
    running: Seq<usize>,
    replies: Seq<Reply>,
    r: Result<Vec<u64>, ThreadPoolError>,
)
    requires
        from <= to,
        parts >= 1,
        range_is_safe(from as int, to - from),
        pass_requests(reqs, list, partitioning(from as int, to as int, parts as int)),
        dispatched(reqs, running, Seq::empty(), Seq::empty(), replies),
        all_answered(reqs, running, replies),
        gathered(Phase::FindCandidates, Seq::empty(), replies, r),
    ensures
        r matches Ok(v) && v@ == candidates_in(list, from as int, to as int),
{
    let ps = partitioning(from as int, to as int, parts as int);
    lemma_partitioning_covers_bounds(from, to, parts);
    assert forall|k: int| 0 <= k < reqs.len() implies #[trigger] safe_request(
        Phase::FindCandidates,
        reqs[k],
    ) by {
        assert(pass_request(reqs[k], list, ps[k]));
    }
    assert forall|j: int| 0 <= j < replies.len() implies #[trigger] answered(
        reqs[live(reqs)[j] as int],
        replies[j],
    ) by {
        assert(answered(reqs[running[j] as int], replies[j]));
    }
    lemma_answered_payloads(Phase::FindCandidates, reqs, replies);
    lemma_pass_payloads(reqs, list, ps);
    lemma_partitioned_pass(list, from, to, parts);
}

/// A sieve in which every request reaches its worker and every worker
/// answers as `respond` does keeps exactly what `sieve_page` keeps of all
/// the candidates, in their order, where no candidate exceeds the safe
/// maximum.
pub proof fn lemma_answered_sieve(
    page: Seq<u64>,
    candidates: Seq<u64>,
    parts: usize,
    reqs: Seq<Option<MsgToWorker>>,
    running: Seq<usize>,
    replies: Seq<Reply>,
    r: Result<Vec<u64>, ThreadPoolError>,
)
    requires
        candidates.len() <= usize::MAX,
        parts >= 1,
        all_safe(candidates),
        sieve_requests(reqs, page, candidates, partitioning(0, candidates.len() as int, parts as int)),
        dispatched(reqs, running, Seq::empty(), Seq::empty(), replies),
        all_answered(reqs, running, replies),
        gathered(Phase::Sieve, Seq::empty(), replies, r),
    ensures
        r matches Ok(v) && v@ == candidates.filter(passes(page)),
{
    let ps = partitioning(0, candidates.len() as int, parts as int);
    lemma_partitioning_covers_bounds(0, candidates.len() as usize, parts);
    assert forall|k: int| 0 <= k < reqs.len() implies #[trigger] safe_request(Phase::Sieve, reqs[k]) by {
        assert(sieve_request(reqs[k], page, candidates, ps[k]));
        if ps[k] is Some {
            let p = ps[k]->Some_0;
            let cs = candidates.subrange(p.from as int, p.end());
            assert forall|i: int| 0 <= i < cs.len() implies #[trigger] cs[i] <= SAFE_MAX by {
                assert(cs[i] == candidates[p.from + i]);
            }
        }
    }
    assert forall|j: int| 0 <= j < replies.len() implies #[trigger] answered(
        reqs[live(reqs)[j] as int],
        replies[j],
    ) by {
        assert(answered(reqs[running[j] as int], replies[j]));
    }
    lemma_answered_payloads(Phase::Sieve, reqs, replies);
    lemma_sieve_payloads(reqs, page, candidates, ps);
    lemma_partitioned_sieve(page, candidates, parts);
}

/// `rep` answers with the reply type of `phase`, or no reply came.
pub open spec fn answers_or_silent(phase: Phase, rep: Reply) -> bool {
    match rep {
        Err(_) => true,
        Ok(m) => answers(phase, m),
    }
}

/// The predicate that picks the replies that did not come.
pub open spec fn silent() -> spec_fn(Reply) -> bool {
    |rep: Reply| rep is Err
}

/// Filtering by two predicates that agree on every element gives the same.
proof fn lemma_filter_agree(s: Seq<Reply>, p: spec_fn(Reply) -> bool, q: spec_fn(Reply) -> bool)
    requires
        forall|i: int| 0 <= i < s.len() ==> p(#[trigger] s[i]) == q(s[i]),
    ensures
        s.filter(p) == s.filter(q),
    decreases s.len(),
{
    reveal(Seq::filter);
    if s.len() > 0 {
        lemma_filter_agree(s.drop_last(), p, q);
        assert(p(s[s.len() - 1]) == q(s[s.len() - 1]));
    }
}

/// A phase in which every request reaches its worker, and each worker
/// either answers with the reply type of the phase or does not reply,
/// fails as soon as one does not reply: with exactly one receive failure
/// for each worker that did not, in the order of the workers, and with
/// none of the values of those that did.
pub proof fn lemma_silent_workers(
    phase: Phase,
    reqs: Seq<Option<MsgToWorker>>,
    running: Seq<usize>,
    failed: Seq<usize>,
    send_errors: Seq<ThreadError>,
    replies: Seq<Reply>,
    r: Result<Vec<u64>, ThreadPoolError>,
    j: int,
)
    requires
        dispatched(reqs, running, failed, send_errors, replies),
        failed.len() == 0,
        gathered(phase, send_errors, replies, r),
        forall|i: int| 0 <= i < replies.len() ==> #[trigger] answers_or_silent(phase, replies[i]),
        0 <= j < replies.len(),
        replies[j] is Err,
    ensures
        r matches Err(ThreadPoolError::Thread(errs)) && errs@.len() == replies.filter(silent()).len()
            && forall|k: int|
            0 <= k < errs@.len() ==> errs@[k] == ThreadError::RecvError(
                #[trigger] replies.filter(silent())[k]->Err_0,
            ),
{
    assert forall|i: int| 0 <= i < replies.len() implies failing(phase)(#[trigger] replies[i])
        == silent()(replies[i]) by {
        assert(answers_or_silent(phase, replies[i]));
    }
    lemma_filter_agree(replies, failing(phase), silent());
    replies.lemma_filter_contains(silent(), j);
    let fails = replies.filter(silent());
    assert(fails.len() > 0);
    if let Err(ThreadPoolError::Thread(errs)) = r {
        assert forall|k: int| 0 <= k < errs@.len() implies errs@[k] == ThreadError::RecvError(
            #[trigger] fails[k]->Err_0,
        ) by {
            assert(reports(errs@[send_errors.len() + k], fails[k]));
            replies.lemma_filter_pred(silent(), k);
        }
    }
}

/// The first pass from the bootstrap primes `2, 3, 5, 7, 11`, over any
/// number of workers and with a bound of at least 121, in which every
/// request reaches its worker and every worker answers as `respond` does:
/// 121 = 11² is no candidate, and every prime up to 121 after 11 is.
pub proof fn lemma_first_pass_from_bootstrap(
    max_ppt: usize,
    workers: usize,
    reqs: Seq<Option<MsgToWorker>>,
    running: Seq<usize>,
    replies: Seq<Reply>,
    r: Result<Vec<u64>, ThreadPoolError>,
)
    requires
        workers >= 1,
        max_ppt >= 121,
        pass_requests(reqs, seq![2u64, 3, 5, 7, 11], pass_plan(11, max_ppt, workers as nat)),
        dispatched(reqs, running, Seq::empty(), Seq::empty(), replies),
        all_answered(reqs, running, replies),
        gathered(Phase::FindCandidates, Seq::empty(), replies, r),
    ensures
        r matches Ok(v) && !v@.contains(121) && forall|q: int|
            11 < q <= 121 && #[trigger] is_prime(q) ==> v@.contains(q as u64),
{
    let list = seq![2u64, 3, 5, 7, 11];
    assert(max_for_sieve(11, max_ppt as u64) == Some(121u64));
    lemma_answered_pass(list, 11, 121, workers, reqs, running, replies, r);
    let range = range_seq(11, 121);
    let pred = passes(list);
    if let Ok(v) = r {
        if v@.contains(121) {
            range.lemma_filter_contains_rev(pred, 121);
            let i = choose|i: int| 0 <= i < range.len() && range[i] == 121;
        }
        assert forall|q: int| 11 < q <= 121 && #[trigger] is_prime(q) implies v@.contains(
            q as u64,
        ) by {
            assert(121int % 11 == 0);
            assert(q != 121);
            assert forall|i: int| 0 <= i < list.len() && #[trigger] divides(
                list[i] as int,
                q as u64 as int,
            ) implies exists|j: int| 0 <= j <= i && #[trigger] beyond_root(list[j] as int, q as u64 as int) by {
                assert(list[0] == 2 && list[1] == 3 && list[2] == 5 && list[3] == 7 && list[4] == 11);
                assert(2 <= list[i] < q);
                assert(q % (list[i] as int) != 0);
            }
            assert(range[q - 11] == q as u64);
            range.lemma_filter_contains(pred, q - 11);
        }
    }
}

} // verus!
