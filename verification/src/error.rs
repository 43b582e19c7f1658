use vstd::prelude::*;

verus! {

/// Why a chunk payload could not be decoded or assembled.
#[derive(Debug, Clone, Copy, PartialEq, Eq, Structural)]
pub enum DecodeError {
    /// The buffer ended before the value was complete.
    ShortRead,
    /// A variable-length integer ran past the width of its target type.
    VarintTooLong,
    /// A length prefix was negative.
    NegativeLength,
    /// A block-state id that the global palette does not hold.
    UnknownBlockState(i64),
}

/// Why a palette resource could not be used.
#[derive(Debug, Clone, Copy, PartialEq, Eq, Structural)]
pub enum ConfigError {
    /// The text is not a JSON document.
    NotJson,
    /// The document is not a table of block names with their states.
    WrongShape,
}

} // verus!
