use vstd::prelude::*;

verus! {

/// Failure taxonomy of the library and its collaborators.
///
/// `Network` and `Notification` are produced by the transports around the
/// library; the library itself only produces `Parse`, `InsufficientLiquidity`
/// and `Config`.
#[derive(Debug, Clone, PartialEq, Eq)]
pub enum RatioError {
    /// A transport failure while fetching market data.
    Network(String),
    /// A price or quantity field that is not a well-formed decimal number.
    Parse(String),
    /// The requested volume exceeds the depth available in the order book.
    InsufficientLiquidity { requested: u64, available: u64 },
    /// An invalid pair or monitoring definition.
    Config(String),
    /// A failure while delivering an alert or digest.
    Notification(String),
}

} // verus!
