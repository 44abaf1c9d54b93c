use std::sync::Arc;

use prime_sieve::driver::{end_of_pages, resume_or_bootstrap, take_page, SieveError};
use prime_sieve::errors::{DeserializationError, IoError, MathError, PrimesReadError};
use prime_sieve::partition::Partition;
use prime_sieve::pool::{ThreadPool, ThreadPoolError};
use prime_sieve::worker::{respond, MsgFromWorker, MsgToWorker};

#[test]
fn worker_finds_candidates() {
    let step = respond(MsgToWorker::FindCandidates(
        Arc::new(vec![2, 3, 5]),
        Partition { from: 5, delta: 10 },
    ));
    assert!(!step.stop);
    match step.reply {
        MsgFromWorker::CandidatesResult(v) => assert_eq!(v, vec![5, 7, 11, 13]),
        _ => panic!("expected candidates"),
    }
}

#[test]
fn worker_sieves() {
    let step = respond(MsgToWorker::Sieve(Arc::new(vec![7]), Arc::new(vec![49, 53, 77, 79])));
    assert!(!step.stop);
    match step.reply {
        MsgFromWorker::SieveResult(v) => assert_eq!(v, vec![53, 79]),
        _ => panic!("expected sieve result"),
    }
}

#[test]
fn worker_reports_math_error() {
    let step = respond(MsgToWorker::Sieve(Arc::new(vec![7]), Arc::new(vec![u64::MAX])));
    assert!(!step.stop);
    assert!(matches!(step.reply, MsgFromWorker::Error(MathError::Limit(_))));
    let step = respond(MsgToWorker::FindCandidates(
        Arc::new(vec![2]),
        Partition { from: usize::MAX - 1, delta: 1 },
    ));
    assert!(matches!(step.reply, MsgFromWorker::Error(_)));
}

#[test]
fn worker_acknowledges_stop() {
    let step = respond(MsgToWorker::Stop);
    assert!(step.stop);
    assert!(matches!(step.reply, MsgFromWorker::Ack));
}

#[test]
fn missing_store_starts_from_bootstrap() {
    let r = resume_or_bootstrap(Err(SieveError::IO(IoError::NotFound)));
    assert_eq!(r.ok(), Some(vec![2, 3, 5, 7, 11]));
    let r = resume_or_bootstrap(Err(SieveError::IO(IoError::Other("disk".to_string()))));
    assert!(matches!(r, Err(SieveError::IO(IoError::Other(_)))));
    let r = resume_or_bootstrap(Err(SieveError::PrimesFileEmpty));
    assert!(matches!(r, Err(SieveError::PrimesFileEmpty)));
    let r = resume_or_bootstrap(Ok(vec![13]));
    assert_eq!(r.ok(), Some(vec![13]));
}

#[test]
fn end_of_pages_without_page_is_empty_store() {
    assert!(matches!(end_of_pages(None), Err(SieveError::PrimesFileEmpty)));
    assert_eq!(end_of_pages(Some(vec![17, 19])).ok(), Some(vec![17, 19]));
}

#[test]
fn first_empty_page_is_empty_store() {
    let pool = ThreadPool::new(vec![], 100);
    assert!(matches!(take_page(&pool, None, vec![]), Err(SieveError::PrimesFileEmpty)));
}

#[test]
fn first_page_beyond_safe_range_is_math_error() {
    let pool = ThreadPool::new(vec![], 100);
    let r = take_page(&pool, None, vec![2, 4294967295]);
    assert!(matches!(r, Err(SieveError::Thread(ThreadPoolError::Math(_)))));
}

#[test]
fn error_conversions() {
    let e = PrimesReadError::from(DeserializationError::WrongFileFormat("bad".to_string()));
    assert!(matches!(e, PrimesReadError::Deserialization(_)));
    let e = PrimesReadError::from(IoError::NotFound);
    assert!(matches!(e, PrimesReadError::IO(IoError::NotFound)));
    let e = SieveError::from(ThreadPoolError::from(MathError::Limit("x".to_string())));
    assert!(matches!(e, SieveError::Thread(ThreadPoolError::Math(_))));
    let e = SieveError::from(IoError::NotFound);
    assert!(matches!(e, SieveError::IO(IoError::NotFound)));
}

#[test]
fn error_messages_name_their_cause() {
    let e = SieveError::PrimesFileEmpty;
    assert_eq!(e.message(), "The primes file was loaded but didn't contain any numbers.");
    let e = SieveError::IO(IoError::Other("disk full".to_string()));
    assert_eq!(e.message(), "IO Error: \n\tdisk full");
    let e = SieveError::Thread(ThreadPoolError::Math(MathError::Limit("too big".to_string())));
    assert_eq!(e.message(), "Error in thread pool\n\tMath limit reached: too big");
    let e = ThreadPoolError::Thread(vec![
        prime_sieve::pool::ThreadError::RecvError(std::sync::mpsc::RecvError),
        prime_sieve::pool::ThreadError::UnexpectedResponse("finding candidates".to_string(), MsgFromWorker::Ack),
    ]);
    assert_eq!(
        e.message(),
        format!(
            "One or more errors occured in the thread pool \n\t\
             Failed to read from a thread. Err: {}\
             Unexpected response! Thread answered 'finding candidates' on request 'Ok' \n\t",
            std::sync::mpsc::RecvError
        )
    );
    assert_eq!(ThreadPoolError::Thread(vec![]).message(), "One or more errors occured in the thread pool \n\t\n\t");
    assert_eq!(MsgToWorker::Stop.name(), "Stop");
    assert_eq!(MsgFromWorker::SieveResult(vec![]).name(), "SieveResult(...)");
}
