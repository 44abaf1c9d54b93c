//! An ever-growing sieve of primes: range partitioning, coprimality
//! filtering against pages of known primes, the worker protocol and the
//! scheduler that drives a fixed pool of workers.
pub mod driver;
pub mod errors;
pub mod math;
pub mod partition;
pub mod pool;
pub mod serializer;
pub mod thread;
pub mod worker;
