//! Errors of the sieve's arithmetic and of the store of primes.
use vstd::prelude::*;
use vstd::string::StringExecFns;

verus! {

/// A numeric bound of the sieve was exceeded.
pub enum MathError {
    /// The value is beyond the range in which the sieve's arithmetic is safe.
    Limit(String),
}

impl MathError {
    /// The text that describes the error.
    pub open spec fn message_spec(&self) -> Seq<char> {
        match self {
            MathError::Limit(msg) => "Math limit reached: "@ + msg@,
        }
    }

    /// Describes the error.
    pub fn message(&self) -> (r: String)
        ensures
            r@ == self.message_spec(),
    {
        match self {
            MathError::Limit(msg) => {
                let mut text = String::from_str("Math limit reached: ");
                text.append(msg.as_str());
                text
            },
        }
    }
}

/// A failure of the store of primes, as far as the sieve tells failures apart.
pub enum IoError {
    /// The store does not exist yet.
    NotFound,
    /// Any other failure, with its description.
    Other(String),
}

impl IoError {
    /// The text that describes the failure.
    pub open spec fn message_spec(&self) -> Seq<char> {
        match self {
            IoError::NotFound => "the primes file does not exist"@,
            IoError::Other(msg) => msg@,
        }
    }

    /// Describes the failure.
    pub fn message(&self) -> (r: String)
        ensures
            r@ == self.message_spec(),
    {
        match self {
            IoError::NotFound => String::from_str("the primes file does not exist"),
            IoError::Other(msg) => String::from_str(msg.as_str()),
        }
    }
}

/// The stored bytes do not encode a list of primes.
pub enum DeserializationError {
    WrongFileFormat(String),
}

/// Why the known primes could not be read from the store.
pub enum PrimesReadError {
    IO(IoError),
    Deserialization(DeserializationError),
}

impl From<DeserializationError> for PrimesReadError {
    fn from(de: DeserializationError) -> (r: PrimesReadError)
        ensures
            r == PrimesReadError::Deserialization(de),
    {
        PrimesReadError::Deserialization(de)
    }
}

impl vstd::std_specs::convert::FromSpecImpl<DeserializationError> for PrimesReadError {
    open spec fn obeys_from_spec() -> bool {
        true
    }

    open spec fn from_spec(de: DeserializationError) -> PrimesReadError {
        PrimesReadError::Deserialization(de)
    }
}

impl From<IoError> for PrimesReadError {
    fn from(de: IoError) -> (r: PrimesReadError)
        ensures
            r == PrimesReadError::IO(de),
    {
        PrimesReadError::IO(de)
    }
}

impl vstd::std_specs::convert::FromSpecImpl<IoError> for PrimesReadError {
    open spec fn obeys_from_spec() -> bool {
        true
    }

    open spec fn from_spec(de: IoError) -> PrimesReadError {
        PrimesReadError::IO(de)
    }
}

} // verus!
