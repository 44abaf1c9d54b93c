use std::sync::mpsc::{channel, Receiver, RecvError, Sender};
use std::sync::Arc;

use prime_sieve::driver::{take_page, SieveError};
use prime_sieve::math::{best_partitioning, find_candidates, init_primes, sieve_page};
use prime_sieve::partition::Partition;
use prime_sieve::pool::{gather_replies, pass_partitions, Phase, ThreadError, ThreadPool, ThreadPoolError};
use prime_sieve::worker::{respond, MsgFromWorker, MsgToWorker};

struct Harness {
    pool: ThreadPool,
    requests: Vec<Option<Receiver<MsgToWorker>>>,
    replies: Vec<Option<Sender<MsgFromWorker>>>,
}

fn harness(workers: usize, max_ppt: usize) -> Harness {
    let mut threads = Vec::new();
    let mut requests = Vec::new();
    let mut replies = Vec::new();
    for _ in 0..workers {
        let (to_worker, from_pool) = channel();
        let (to_pool, from_worker) = channel();
        threads.push((to_worker, from_worker));
        requests.push(Some(from_pool));
        replies.push(Some(to_pool));
    }
    Harness { pool: ThreadPool::new(threads, max_ppt), requests, replies }
}

fn reply(h: &Harness, worker: usize, msg: MsgFromWorker) {
    h.replies[worker].as_ref().unwrap().send(msg).ok().unwrap();
}

fn candidates_reply(known: &Vec<u64>, part: Partition) -> MsgFromWorker {
    respond(MsgToWorker::FindCandidates(Arc::new(known.clone()), part)).reply
}

#[test]
fn pass_partitions_follow_last_prime() {
    let ps = pass_partitions(11, 121, 4).ok().unwrap();
    assert_eq!(ps, best_partitioning(11, 121, 4));
    assert_eq!(pass_partitions(11, 50, 2).ok().unwrap(), best_partitioning(11, 50, 2));
    assert_eq!(pass_partitions(11, 5, 2).ok().unwrap(), vec![None, None]);
    assert!(pass_partitions(4294967295, 10, 2).is_err());
}

#[test]
fn find_candidates_concatenates_in_partition_order() {
    let known = init_primes();
    let h = harness(4, 121);
    let parts = pass_partitions(11, 121, 4).ok().unwrap();
    for (k, p) in parts.iter().enumerate() {
        reply(&h, k, candidates_reply(&known, p.unwrap()));
    }
    let found = h.pool.find_candidates(known.clone()).ok().unwrap();
    let whole = find_candidates(&known, Partition { from: 11, delta: 110 }).ok().unwrap();
    assert_eq!(found, whole);
    for (k, p) in parts.iter().enumerate() {
        match h.requests[k].as_ref().unwrap().try_recv().ok().unwrap() {
            MsgToWorker::FindCandidates(primes, part) => {
                assert_eq!(*primes, known);
                assert_eq!(Some(part), *p);
            }
            _ => panic!("expected a find-candidates request"),
        }
    }
}

#[test]
fn find_candidates_skips_workers_without_work() {
    let known = vec![2, 3];
    let h = harness(4, 5);
    // [3, 5) over 4 workers: two partitions of one value each.
    reply(&h, 0, candidates_reply(&known, Partition { from: 3, delta: 1 }));
    reply(&h, 1, candidates_reply(&known, Partition { from: 4, delta: 1 }));
    let found = h.pool.find_candidates(known).ok().unwrap();
    assert_eq!(found, vec![3]);
    assert!(h.requests[2].as_ref().unwrap().try_recv().is_err());
    assert!(h.requests[3].as_ref().unwrap().try_recv().is_err());
}

#[test]
fn two_of_four_silent_workers_fail_the_phase() {
    let known = init_primes();
    let mut h = harness(4, 121);
    let parts = pass_partitions(11, 121, 4).ok().unwrap();
    reply(&h, 0, candidates_reply(&known, parts[0].unwrap()));
    reply(&h, 2, candidates_reply(&known, parts[2].unwrap()));
    h.replies[1] = None;
    h.replies[3] = None;
    match h.pool.find_candidates(known) {
        Err(ThreadPoolError::Thread(errs)) => {
            assert_eq!(errs.len(), 2);
            assert!(errs.iter().all(|e| matches!(e, ThreadError::RecvError(_))));
        }
        _ => panic!("expected the communication failures"),
    }
}

#[test]
fn unexpected_reply_fails_the_phase() {
    let known = vec![2, 3];
    let h = harness(1, 9);
    reply(&h, 0, MsgFromWorker::SieveResult(vec![5]));
    match h.pool.find_candidates(known) {
        Err(ThreadPoolError::Thread(errs)) => {
            assert_eq!(errs.len(), 1);
            assert!(matches!(
                &errs[0],
                ThreadError::UnexpectedResponse(_, MsgFromWorker::SieveResult(v)) if *v == vec![5]
            ));
        }
        _ => panic!("expected an unexpected response"),
    }
}

#[test]
fn worker_math_error_fails_the_phase() {
    let known = vec![2, 3];
    let h = harness(2, 9);
    reply(&h, 0, candidates_reply(&known, Partition { from: 3, delta: 3 }));
    reply(&h, 1, MsgFromWorker::Error(prime_sieve::errors::MathError::Limit("x".to_string())));
    assert!(matches!(h.pool.find_candidates(known), Err(ThreadPoolError::Math(_))));
}

#[test]
fn send_failure_is_reported_and_other_replies_drained() {
    let known = init_primes();
    let mut h = harness(2, 121);
    let parts = pass_partitions(11, 121, 2).ok().unwrap();
    reply(&h, 0, candidates_reply(&known, parts[0].unwrap()));
    h.requests[1] = None;
    match h.pool.find_candidates(known) {
        Err(ThreadPoolError::Thread(errs)) => {
            assert_eq!(errs.len(), 1);
            assert!(matches!(errs[0], ThreadError::SendError(_)));
        }
        _ => panic!("expected a send failure"),
    }
    // worker 0's reply was taken: nothing is left over for the next phase.
    assert!(h.requests[0].as_ref().unwrap().try_recv().is_ok());
}

#[test]
fn find_candidates_refuses_unsafe_last_prime() {
    let h = harness(2, 100);
    assert!(matches!(
        h.pool.find_candidates(vec![2, 4294967295]),
        Err(ThreadPoolError::Math(_))
    ));
}

#[test]
fn sieve_splits_candidates_by_index() {
    let page = vec![13u64, 17];
    let candidates: Vec<u64> = vec![127, 131, 169, 173, 179, 221, 223, 289, 293];
    let h = harness(3, 100);
    let parts = best_partitioning(0, candidates.len(), 3);
    for (k, p) in parts.iter().enumerate() {
        let p = p.unwrap();
        let span = candidates[p.from..p.from + p.delta].to_vec();
        let r = respond(MsgToWorker::Sieve(Arc::new(page.clone()), Arc::new(span))).reply;
        reply(&h, k, r);
    }
    let kept = h.pool.sieve(page.clone(), candidates.clone()).ok().unwrap();
    assert_eq!(kept, sieve_page(&page, &candidates).ok().unwrap());
    assert_eq!(kept, vec![127, 131, 173, 179, 223, 293]);
    match h.requests[1].as_ref().unwrap().try_recv().ok().unwrap() {
        MsgToWorker::Sieve(p, span) => {
            assert_eq!(*p, page);
            assert_eq!(*span, vec![173, 179, 221]);
        }
        _ => panic!("expected a sieve request"),
    }
}

#[test]
fn stop_succeeds_when_every_worker_acknowledges() {
    let h = harness(3, 10);
    for k in 0..3 {
        reply(&h, k, MsgFromWorker::Ack);
    }
    assert!(h.pool.stop().is_ok());
    for k in 0..3 {
        assert!(matches!(h.requests[k].as_ref().unwrap().try_recv().ok(), Some(MsgToWorker::Stop)));
    }
}

#[test]
fn stop_collects_every_failure() {
    let mut h = harness(3, 10);
    reply(&h, 0, MsgFromWorker::Ack);
    h.replies[1] = None;
    h.requests[2] = None;
    match h.pool.stop() {
        Err(ThreadPoolError::Thread(errs)) => {
            assert_eq!(errs.len(), 2);
            assert!(matches!(errs[0], ThreadError::SendError(_)));
            assert!(matches!(errs[1], ThreadError::RecvError(_)));
        }
        _ => panic!("expected the failures of the stop"),
    }
}

#[test]
fn gather_replies_concatenates_or_reports_every_failure() {
    let ok = gather_replies(
        Phase::FindCandidates,
        vec![],
        vec![Ok(MsgFromWorker::CandidatesResult(vec![1, 2])), Ok(MsgFromWorker::CandidatesResult(vec![3]))],
    );
    assert_eq!(ok.ok(), Some(vec![1, 2, 3]));
    let failed = gather_replies(
        Phase::Sieve,
        vec![],
        vec![
            Ok(MsgFromWorker::SieveResult(vec![7])),
            Err(RecvError),
            Ok(MsgFromWorker::SieveResult(vec![11])),
            Err(RecvError),
        ],
    );
    match failed {
        Err(ThreadPoolError::Thread(errs)) => assert_eq!(errs.len(), 2),
        _ => panic!("expected two failures"),
    }
    let stopped = gather_replies(Phase::Stop, vec![], vec![Ok(MsgFromWorker::Ack)]);
    assert_eq!(stopped.ok(), Some(vec![]));
}

#[test]
fn take_page_passes_on_the_pool_outcome() {
    let known = init_primes();
    let h = harness(2, 121);
    let parts = pass_partitions(11, 121, 2).ok().unwrap();
    for (k, p) in parts.iter().enumerate() {
        reply(&h, k, candidates_reply(&known, p.unwrap()));
    }
    let first = take_page(&h.pool, None, known.clone()).ok().unwrap();
    assert_eq!(first, find_candidates(&known, Partition { from: 11, delta: 110 }).ok().unwrap());
    let mut h = h;
    h.replies[0] = None;
    h.replies[1] = None;
    let page = vec![13u64];
    let r = take_page(&h.pool, Some(first), page);
    assert!(matches!(r, Err(SieveError::Thread(ThreadPoolError::Thread(_)))));
}
