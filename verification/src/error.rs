use vstd::prelude::*;

verus! {

/// Error taxonomy of the core.
///
/// Remote failures (`Api`), configuration problems (`Config`, `NoApiKey`),
/// storage I/O failures (`Storage`) and malformed ledger content (`Corrupt`)
/// are kept distinct so that a caller can react to each on its own.
#[derive(Debug, Clone)]
pub enum AppError {
    /// A transport or remote-service failure, with a human-readable message.
    Api(String),
    /// A configuration problem other than a missing credential.
    Config(String),
    /// A storage read or write failure against the ledger file.
    Storage(String),
    /// The ledger file was present but its content could not be understood.
    Corrupt(String),
    /// No credential is configured; detected before any network I/O.
    NoApiKey,
}

impl AppError {
    /// A short human-readable description of the error.
    pub fn message(&self) -> (r: String)
        ensures
            match self {
                AppError::Api(m) => r@ == "API error: "@ + m@,
                AppError::Config(m) => r@ == "Configuration error: "@ + m@,
                AppError::Storage(m) => r@ == "Storage error: "@ + m@,
                AppError::Corrupt(m) => r@ == "Corrupt history: "@ + m@,
                AppError::NoApiKey => r@ == "No API key configured"@,
            },
    {
        match self {
            AppError::Api(m) => String::from_str("API error: ").concat(m.as_str()),
            AppError::Config(m) => String::from_str("Configuration error: ").concat(m.as_str()),
            AppError::Storage(m) => String::from_str("Storage error: ").concat(m.as_str()),
            AppError::Corrupt(m) => String::from_str("Corrupt history: ").concat(m.as_str()),
            AppError::NoApiKey => String::from_str("No API key configured"),
        }
    }
}

} // verus!
