//! The decisions of one top-level pass over the stored pages of known
//! primes: the first page seeds the candidates, each later page sieves
//! them, and a store that does not exist yet starts from the bootstrap
//! primes.
use vstd::prelude::*;
use vstd::string::StringExecFns;
use crate::errors::IoError;
use crate::math::init_primes;
use crate::pool::{
    find_candidates_outcome, pool_error_text, sieve_outcome, ThreadPool, ThreadPoolError,
};

verus! {

/// Why a pass over the store failed.
pub enum SieveError {
    IO(IoError),
    Thread(ThreadPoolError),
    /// The store holds no primes.
    PrimesFileEmpty,
}

/// `t` describes the error `e`.
pub open spec fn sieve_error_text(e: SieveError, t: Seq<char>) -> bool {
    match e {
        SieveError::PrimesFileEmpty => t == "The primes file was loaded but didn't contain any numbers."@,
        SieveError::IO(io) => t == "IO Error: \n\t"@ + io.message_spec(),
        SieveError::Thread(pool) => exists|inner: Seq<char>|
            #[trigger] pool_error_text(pool, inner) && t == "Error in thread pool\n\t"@ + inner,
    }
}

impl SieveError {
    /// Describes the error.
    pub fn message(&self) -> (r: String)
        ensures
            sieve_error_text(*self, r@),
    {
        match self {
            SieveError::PrimesFileEmpty => String::from_str(
                "The primes file was loaded but didn't contain any numbers.",
            ),
            SieveError::IO(e) => {
                let mut text = String::from_str("IO Error: \n\t");
                let inner = e.message();
                text.append(inner.as_str());
                text
            },
            SieveError::Thread(e) => {
                let mut text = String::from_str("Error in thread pool\n\t");
                let inner = e.message();
                text.append(inner.as_str());
                assert(pool_error_text(*e, inner@));
                text
            },
        }
    }
}

impl From<IoError> for SieveError {
    fn from(err: IoError) -> (r: SieveError)
        ensures
            r == SieveError::IO(err),
    {
        SieveError::IO(err)
    }
}

impl vstd::std_specs::convert::FromSpecImpl<IoError> for SieveError {
    open spec fn obeys_from_spec() -> bool {
        true
    }

    open spec fn from_spec(err: IoError) -> SieveError {
        SieveError::IO(err)
    }
}

impl From<ThreadPoolError> for SieveError {
    fn from(err: ThreadPoolError) -> (r: SieveError)
        ensures
            r == SieveError::Thread(err),
    {
        SieveError::Thread(err)
    }
}

impl vstd::std_specs::convert::FromSpecImpl<ThreadPoolError> for SieveError {
    open spec fn obeys_from_spec() -> bool {
        true
    }

    open spec fn from_spec(err: ThreadPoolError) -> SieveError {
        SieveError::Thread(err)
    }
}

/// The pool's outcome as the outcome of the pass.
pub open spec fn lifted(r: Result<Vec<u64>, ThreadPoolError>) -> Result<Vec<u64>, SieveError> {
    match r {
        Ok(v) => Ok(v),
        Err(e) => Err(SieveError::Thread(e)),
    }
}

/// Takes in the next stored page: with no candidates yet, the page seeds
/// them through the pool's `find_candidates`, and an empty first page means
/// an empty store; later pages sieve the candidates through the pool's
/// `sieve`. The pool's outcome is passed on as it is, a failure wrapped.
pub fn take_page(pool: &ThreadPool, candidates: Option<Vec<u64>>, page: Vec<u64>) -> (r: Result<
    Vec<u64>,
    SieveError,
>)
    ensures
        match candidates {
            None => if page@.len() == 0 {
                r matches Err(SieveError::PrimesFileEmpty)
            } else {
                exists|pr: Result<Vec<u64>, ThreadPoolError>|
                    #[trigger] find_candidates_outcome(pool.workers(), pool.max_ppt(), page@, pr)
                        && r == lifted(pr)
            },
            Some(c) => exists|pr: Result<Vec<u64>, ThreadPoolError>|
                #[trigger] sieve_outcome(pool.workers(), page@, c@, pr) && r == lifted(pr),
        },
{
    let ghost pg = page@;
    match candidates {
        None => {
            if page.len() == 0 {
                return Err(SieveError::PrimesFileEmpty);
            }
            let res = pool.find_candidates(page);
            let ghost pr = res;
            let r = match res {
                Ok(found) => Ok(found),
                Err(e) => Err(SieveError::Thread(e)),
            };
            assert(find_candidates_outcome(pool.workers(), pool.max_ppt(), pg, pr));
            r
        },
        Some(c) => {
            let ghost cs = c@;
            let res = pool.sieve(page, c);
            let ghost pr = res;
            let r = match res {
                Ok(kept) => Ok(kept),
                Err(e) => Err(SieveError::Thread(e)),
            };
            assert(sieve_outcome(pool.workers(), pg, cs, pr));
            r
        },
    }
}

/// The outcome once the store has no more pages: the candidates, or an
/// empty store where no page came.
pub fn end_of_pages(candidates: Option<Vec<u64>>) -> (r: Result<Vec<u64>, SieveError>)
    ensures
        match candidates {
            Some(c) => r == Ok::<Vec<u64>, SieveError>(c),
            None => r matches Err(SieveError::PrimesFileEmpty),
        },
{
    match candidates {
        Some(c) => Ok(c),
        None => Err(SieveError::PrimesFileEmpty),
    }
}

/// A store that does not exist yet is no failure: the pass then yields
/// the bootstrap primes. Every other outcome stays as it is.
pub fn resume_or_bootstrap(result: Result<Vec<u64>, SieveError>) -> (r: Result<
    Vec<u64>,
    SieveError,
>)
    ensures
        match result {
            Err(SieveError::IO(IoError::NotFound)) => r matches Ok(v) && v@ == seq![2u64, 3, 5, 7, 11],
            _ => r == result,
        },
{
    match result {
        Err(SieveError::IO(IoError::NotFound)) => Ok(init_primes()),
        other => other,
    }
}

} // verus!
