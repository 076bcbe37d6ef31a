use vstd::prelude::*;

verus! {

/// Why a buffer could not be decoded.
#[derive(Debug, Clone, Copy, PartialEq, Eq, Structural)]
pub enum DecodeError {
    /// The buffer ends before a field that the format requires.
    TruncatedMessage,
    /// A compression pointer leads into the header or behind the end of the
    /// message.
    MalformedPointer,
}

/// The section of a message in which decoding failed.
#[derive(Debug, Clone, Copy, PartialEq, Eq, Structural)]
pub enum Stage {
    Header,
    Question,
    Record,
}

/// Why a client request could not be answered.
#[derive(Debug, Clone, Copy, PartialEq, Eq, Structural)]
pub enum CoreError {
    /// The datagram for the upstream resolver could not be sent.
    UpstreamSendFailed,
    /// No reply datagram could be received from the upstream resolver.
    UpstreamReceiveFailed,
    /// The upstream resolver did not reply in time.
    UpstreamTimeout,
    /// A datagram could not be decoded; `stage` names the section.
    DecodeFailed { stage: Stage, cause: DecodeError },
    /// The query holds no question, so there is nothing to forward.
    NoQuestion,
    /// The merged response would hold more questions or answers than a
    /// 16-bit count can say.
    CountOverflow,
}

/// What a parser gives: a value and the position behind it, or the reason
/// why the bytes do not hold one.
pub type Parse<T> = Result<(T, int), DecodeError>;

/// The parse that gives `value` and ends at `end`.
pub open spec fn parsed<T>(value: T, end: int) -> Parse<T> {
    Ok((value, end))
}

/// The parse that fails for `cause`.
pub open spec fn rejected<T>(cause: DecodeError) -> Parse<T> {
    Err(cause)
}

} // verus!
